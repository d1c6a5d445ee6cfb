use vstd::prelude::*;

verus! {

/// The pending input of the simulation.
#[derive(Debug, Clone, Copy, PartialEq, Eq, Structural)]
pub enum Input {
    /// Nothing was typed and nothing is asked for.
    Empty,
    /// A character waits to be used.
    Key(char),
    /// A turn asked for a character and waits for one.
    Requested,
}

impl Default for Input {
    fn default() -> (r: Input)
        ensures
            r == Input::Empty,
    {
        Input::Empty
    }
}

impl Input {
    pub fn is_requested(&self) -> (r: bool)
        ensures
            r == (*self == Input::Requested),
    {
        match self {
            Input::Requested => true,
            _ => false,
        }
    }

    /// Uses the waiting character when it is `expected`; true when it was.
    pub fn try_consume(&mut self, expected: char) -> (r: bool)
        ensures
            r == (*old(self) == Input::Key(expected)),
            r ==> *final(self) == Input::Empty,
            !r ==> *final(self) == *old(self),
    {
        match *self {
            Input::Key(actual) => {
                let is_match = actual == expected;
                if is_match {
                    *self = Input::Empty;
                }
                is_match
            },
            Input::Empty => false,
            Input::Requested => false,
        }
    }

    /// Takes the waiting character; when there is none, asks for one.
    pub fn take_or_request(&mut self) -> (r: Option<char>)
        ensures
            match *old(self) {
                Input::Empty => r is None && *final(self) == Input::Requested,
                Input::Key(c) => r == Some(c) && *final(self) == Input::Empty,
                Input::Requested => r is None && *final(self) == Input::Requested,
            },
    {
        match *self {
            Input::Empty => {
                *self = Input::Requested;
                None
            },
            Input::Key(c) => {
                *self = Input::Empty;
                Some(c)
            },
            Input::Requested => None,
        }
    }
}

} // verus!
