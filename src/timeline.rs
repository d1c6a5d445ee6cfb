use vstd::prelude::*;

verus! {

/// `s[i]` is the first entry of `s` with the smallest time.
pub open spec fn first_earliest<T>(s: Seq<(usize, T)>, i: int) -> bool {
    &&& 0 <= i < s.len()
    &&& forall|j: int| 0 <= j < s.len() ==> s[i].0 <= #[trigger] s[j].0
    &&& forall|j: int| 0 <= j < i ==> s[i].0 < #[trigger] s[j].0
}

/// Popping from the entries `before` can hand out `entry` and leave `after`.
pub open spec fn pops<T>(before: Seq<(usize, T)>, entry: (usize, T), after: Seq<(usize, T)>) -> bool {
    exists|i: int| #[trigger] first_earliest(before, i) && entry == before[i] && after == before.remove(i)
}

/// Scheduled turns, each with the time at which it is due; the earliest
/// comes out first, and among equal times the one pushed first.
pub struct Timeline<T> {
    entries: Vec<(usize, T)>,
}

impl<T> Timeline<T> {
    /// The scheduled entries, in the order they were pushed.
    pub closed spec fn entries(&self) -> Seq<(usize, T)> {
        self.entries@
    }

    /// An empty timeline.
    pub fn new() -> (r: Timeline<T>)
        ensures
            r.entries() == Seq::<(usize, T)>::empty(),
    {
        Timeline { entries: Vec::new() }
    }

    /// Schedules `item` at `time`.
    pub fn push(&mut self, time: usize, item: T)
        ensures
            final(self).entries() == old(self).entries().push((time, item)),
    {
        self.entries.push((time, item));
    }

    /// Takes out the entry with the smallest time; `None` when empty.
    pub fn pop(&mut self) -> (r: Option<(usize, T)>)
        ensures
            match r {
                Some(entry) => pops(old(self).entries(), entry, final(self).entries()),
                None => old(self).entries().len() == 0 && final(self).entries() == old(
                    self,
                ).entries(),
            },
    {
        if self.entries.len() == 0 {
            return None;
        }
        let mut best: usize = 0;
        let mut j: usize = 1;
        while j < self.entries.len()
            invariant
                1 <= j <= self.entries@.len(),
                0 <= best < j,
                forall|k: int| 0 <= k < j ==> self.entries@[best as int].0 <= #[trigger] self.entries@[k].0,
                forall|k: int| 0 <= k < best ==> self.entries@[best as int].0 < #[trigger] self.entries@[k].0,
            decreases self.entries@.len() - j,
        {
            if self.entries[j].0 < self.entries[best].0 {
                best = j;
            }
            j = j + 1;
        }
        let entry = self.entries.remove(best);
        assert(first_earliest(old(self).entries(), best as int));
        Some(entry)
    }

    /// The scheduled entries, in no particular order of time; nothing is
    /// taken out.
    pub fn iter(&self) -> (r: Vec<(usize, &T)>)
        ensures
            r@.len() == self.entries().len(),
            forall|i: int|
                0 <= i < r@.len() ==> (#[trigger] r@[i]).0 == self.entries()[i].0 && *r@[i].1
                    == self.entries()[i].1,
    {
        let mut r: Vec<(usize, &T)> = Vec::new();
        let mut j: usize = 0;
        while j < self.entries.len()
            invariant
                0 <= j <= self.entries@.len(),
                r@.len() == j,
                forall|i: int|
                    0 <= i < j ==> (#[trigger] r@[i]).0 == self.entries@[i].0 && *r@[i].1
                        == self.entries@[i].1,
            decreases self.entries@.len() - j,
        {
            let entry = &self.entries[j];
            r.push((entry.0, &entry.1));
            j = j + 1;
        }
        r
    }

    /// Number of scheduled entries.
    pub fn len(&self) -> (r: usize)
        ensures
            r == self.entries().len(),
    {
        self.entries.len()
    }
}

/// Popping repeatedly gives times that never decrease: whatever a second pop
/// hands out is due no earlier than what the first one handed out.
pub proof fn lemma_pop_order<T>(
    s0: Seq<(usize, T)>,
    first: (usize, T),
    s1: Seq<(usize, T)>,
    second: (usize, T),
    s2: Seq<(usize, T)>,
)
    requires
        pops(s0, first, s1),
        pops(s1, second, s2),
    ensures
        first.0 <= second.0,
{
    let i = choose|i: int| #[trigger] first_earliest(s0, i) && first == s0[i] && s1 == s0.remove(i);
    let j = choose|j: int| #[trigger] first_earliest(s1, j) && second == s1[j] && s2 == s1.remove(j);
    if j < i {
        assert(s1[j] == s0[j]);
    } else {
        assert(s1[j] == s0[j + 1]);
    }
}

impl<T> Default for Timeline<T> {
    fn default() -> (r: Timeline<T>)
        ensures
            r.entries() == Seq::<(usize, T)>::empty(),
    {
        Timeline::new()
    }
}

} // verus!
