use vstd::prelude::*;
use vstd::arithmetic::div_mod::lemma_fundamental_div_mod_converse;

verus! {

/// A grid cell, as (column, row).
pub type Point = (i32, i32);

pub open spec fn abs(x: int) -> int {
    if x < 0 {
        -x
    } else {
        x
    }
}

/// `v` moved `n` units in the direction of the sign of `delta`.
pub open spec fn advance(v: int, delta: int, n: int) -> int {
    if delta > 0 {
        v + n
    } else if delta < 0 {
        v - n
    } else {
        v
    }
}

/// Steps along the longer axis of the line from `a` to `b`.
pub open spec fn line_major(a: Point, b: Point) -> int {
    let dx = abs(b.0 - a.0);
    let dy = abs(b.1 - a.1);
    if dx >= dy {
        dx
    } else {
        dy
    }
}

/// Extent of the line from `a` to `b` along its shorter axis.
pub open spec fn line_minor(a: Point, b: Point) -> int {
    let dx = abs(b.0 - a.0);
    let dy = abs(b.1 - a.1);
    if dx >= dy {
        dy
    } else {
        dx
    }
}

/// Starting value of the error term; lines that go up round the other way.
pub open spec fn line_bias(a: Point, b: Point) -> int {
    (line_major(a, b) + (if b.1 < a.1 {
        -1int
    } else {
        0int
    })) / 2
}

/// Steps taken along the shorter axis once `i` steps were taken along the
/// longer one.
pub open spec fn line_minor_steps(a: Point, b: Point, i: int) -> int {
    let major = line_major(a, b);
    if major == 0 {
        0
    } else {
        (i * line_minor(a, b) - line_bias(a, b) + major - 1) / major
    }
}

/// The `i`-th cell of the digital line from `a` to `b` (the first is `a`).
pub open spec fn line_point(a: Point, b: Point, i: int) -> Point {
    let k = line_minor_steps(a, b, i);
    if abs(b.0 - a.0) >= abs(b.1 - a.1) {
        (advance(a.0 as int, b.0 - a.0, i) as i32, advance(a.1 as int, b.1 - a.1, k) as i32)
    } else {
        (advance(a.0 as int, b.0 - a.0, k) as i32, advance(a.1 as int, b.1 - a.1, i) as i32)
    }
}

/// Number of cells on the line from `a` to `b`, both ends included.
pub open spec fn line_len(a: Point, b: Point) -> int {
    line_major(a, b) + 1
}

/// The two ends of a line are close enough for its extent to fit an `i32`.
pub open spec fn line_fits(a: Point, b: Point) -> bool {
    &&& -i32::MAX <= b.0 - a.0 <= i32::MAX
    &&& -i32::MAX <= b.1 - a.1 <= i32::MAX
}

pub open spec fn between(v: int, a: int, b: int) -> bool {
    (a <= v <= b) || (b <= v <= a)
}

/// Every cell of a line lies in the box spanned by its ends.
pub open spec fn in_box(p: Point, a: Point, b: Point) -> bool {
    between(p.0 as int, a.0 as int, b.0 as int) && between(p.1 as int, a.1 as int, b.1 as int)
}

proof fn lemma_minor_steps_exact(major: int, minor: int, bias: int, i: int, k: int, t: int)
    requires
        major > 0,
        0 <= minor <= major,
        0 <= bias < major,
        0 <= i <= major,
        t == bias - i * minor + k * major,
        0 <= t < major,
    ensures
        k == (i * minor - bias + major - 1) / major,
        0 <= k <= minor,
{
    lemma_fundamental_div_mod_converse(i * minor - bias + major - 1, major, k, major - 1 - t);
    assert(i * minor <= major * minor) by (nonlinear_arith)
        requires
            0 <= i <= major,
            0 <= minor,
    ;
    assert(k * major < (minor + 1) * major) by (nonlinear_arith)
        requires
            k * major < i * minor + major,
            i * minor <= major * minor,
    ;
    assert(k < minor + 1) by (nonlinear_arith)
        requires
            k * major < (minor + 1) * major,
            major > 0,
    ;
    assert(k > -1) by (nonlinear_arith)
        requires
            k * major > -major,
            major > 0,
    ;
}

/// Whether two cells are the same.
pub fn same_point(a: Point, b: Point) -> (r: bool)
    ensures
        r == (a == b),
{
    a.0 == b.0 && a.1 == b.1
}

/// Walks the cells of a digital line, one per call of `next`.
pub struct LineIter {
    next: Point,
    remaining_steps: i32,
    test: i32,
    delta: Point,
    step: Point,
    from: Ghost<Point>,
    to: Ghost<Point>,
}

impl LineIter {
    /// First end of the line.
    pub closed spec fn from(&self) -> Point {
        self.from@
    }

    /// Last end of the line.
    pub closed spec fn to(&self) -> Point {
        self.to@
    }

    /// How many cells were handed out so far.
    pub closed spec fn produced(&self) -> int {
        line_major(self.from@, self.to@) - self.remaining_steps
    }

    pub closed spec fn wf(&self) -> bool {
        let a = self.from@;
        let b = self.to@;
        let major = line_major(a, b);
        let minor = line_minor(a, b);
        let i = self.produced();
        &&& line_fits(a, b)
        &&& self.delta == (abs(b.0 - a.0) as i32, abs(b.1 - a.1) as i32)
        &&& self.step.0 == (if b.0 > a.0 {
            1int
        } else if b.0 < a.0 {
            -1int
        } else {
            0int
        })
        &&& self.step.1 == (if b.1 > a.1 {
            1int
        } else if b.1 < a.1 {
            -1int
        } else {
            0int
        })
        &&& -1 <= self.remaining_steps <= major
        &&& self.remaining_steps >= 0 ==> {
            &&& self.next == line_point(a, b, i)
            &&& in_box(self.next, a, b)
            &&& major > 0 ==> {
                &&& self.test == line_bias(a, b) - i * minor + line_minor_steps(a, b, i) * major
                &&& 0 <= self.test < major
            }
        }
    }

    /// Hands out the next cell of the line, or `None` once the last end was
    /// handed out.
    pub fn next(&mut self) -> (r: Option<Point>)
        requires
            old(self).wf(),
        ensures
            final(self).wf(),
            final(self).from() == old(self).from(),
            final(self).to() == old(self).to(),
            old(self).produced() < line_len(old(self).from(), old(self).to()) ==> {
                &&& r == Some(line_point(old(self).from(), old(self).to(), old(self).produced()))
                &&& in_box(r->0, old(self).from(), old(self).to())
                &&& final(self).produced() == old(self).produced() + 1
            },
            old(self).produced() >= line_len(old(self).from(), old(self).to()) ==> {
                &&& r is None
                &&& final(self).produced() == old(self).produced()
            },
    {
        if self.remaining_steps < 0 {
            return None;
        }
        let ghost a = self.from@;
        let ghost b = self.to@;
        let ghost major = line_major(a, b);
        let ghost minor = line_minor(a, b);
        let ghost i = self.produced();
        let ghost k = line_minor_steps(a, b, i);
        self.remaining_steps = self.remaining_steps - 1;
        let result = self.next;
        if self.remaining_steps >= 0 {
            assert(major > 0 && 0 <= line_bias(a, b) < major);
            proof {
                lemma_minor_steps_exact(major, minor, line_bias(a, b), i, k, self.test as int);
            }
            assert((i + 1) * minor == i * minor + minor) by (nonlinear_arith);
            assert((k + 1) * major == k * major + major) by (nonlinear_arith);
            proof {
                let t0 = self.test as int - minor;
                let t1 = if t0 < 0 { t0 + major } else { t0 };
                let k1 = if t0 < 0 { k + 1 } else { k };
                lemma_minor_steps_exact(major, minor, line_bias(a, b), i + 1, k1, t1);
            }
            if self.delta.0 >= self.delta.1 {
                self.test = self.test - self.delta.1;
                self.next.0 = self.next.0 + self.step.0;
                if self.test < 0 {
                    self.next.1 = self.next.1 + self.step.1;
                    self.test = self.test + self.delta.0;
                }
            } else {
                self.test = self.test - self.delta.0;
                self.next.1 = self.next.1 + self.step.1;
                if self.test < 0 {
                    self.next.0 = self.next.0 + self.step.0;
                    self.test = self.test + self.delta.1;
                }
            }
        }
        Some(result)
    }
}

/// The cells of the digital line from `a` to `b`, starting at `a` and ending
/// at `b`.
pub fn line(a: Point, b: Point) -> (r: LineIter)
    requires
        line_fits(a, b),
    ensures
        r.wf(),
        r.from() == a,
        r.to() == b,
        r.produced() == 0,
{
    let slope = (b.0 - a.0, b.1 - a.1);
    let delta = (
        if slope.0 < 0 {
            -slope.0
        } else {
            slope.0
        },
        if slope.1 < 0 {
            -slope.1
        } else {
            slope.1
        },
    );
    let step = (
        if slope.0 > 0 {
            1i32
        } else if slope.0 < 0 {
            -1i32
        } else {
            0i32
        },
        if slope.1 > 0 {
            1i32
        } else if slope.1 < 0 {
            -1i32
        } else {
            0i32
        },
    );
    let remaining_steps = if delta.0 >= delta.1 {
        delta.0
    } else {
        delta.1
    };
    let rounding: i32 = if step.1 < 0 {
        -1
    } else {
        0
    };
    let test = (rounding + remaining_steps) / 2;
    let r = LineIter {
        next: a,
        remaining_steps,
        test,
        delta,
        step,
        from: Ghost(a),
        to: Ghost(b),
    };
    proof {
        let major = line_major(a, b);
        if major > 0 {
            lemma_minor_steps_exact(major, line_minor(a, b), line_bias(a, b), 0, 0, test as int);
        }
    }
    r
}

/// The direction after a quarter turn: right, down, left, up, right again.
pub open spec fn turned(step: Point) -> Point {
    if step == (1i32, 0i32) {
        (0i32, 1i32)
    } else if step == (0i32, 1i32) {
        (-1i32, 0i32)
    } else if step == (-1i32, 0i32) {
        (0i32, -1i32)
    } else {
        (1i32, 0i32)
    }
}

pub open spec fn is_unit_step(step: Point) -> bool {
    step == (1i32, 0i32) || step == (0i32, 1i32) || step == (-1i32, 0i32) || step == (0i32, -1i32)
}

/// Walks the cells of a square spiral outward from its centre: one step
/// right, one down, two left, two up, three right, and so on.
pub struct SpiralIter {
    next: Point,
    remaining_steps: u32,
    step: Point,
    steps_to_take_on_side: u32,
    steps_taken_on_side: u32,
    has_turned_at_radius: bool,
}

impl SpiralIter {
    /// The cell the next call hands out.
    pub closed spec fn current(&self) -> Point {
        self.next
    }

    /// How many cells are still to come.
    pub closed spec fn remaining(&self) -> nat {
        self.remaining_steps as nat
    }

    /// The direction of the current side.
    pub closed spec fn direction(&self) -> Point {
        self.step
    }

    /// Length of the current side, and how much of it is walked.
    pub closed spec fn side(&self) -> (nat, nat) {
        (self.steps_to_take_on_side as nat, self.steps_taken_on_side as nat)
    }

    /// Whether the side after this one grows by one.
    pub closed spec fn grows_next(&self) -> bool {
        self.has_turned_at_radius
    }

    pub closed spec fn wf(&self) -> bool {
        &&& is_unit_step(self.step)
        &&& self.steps_taken_on_side < self.steps_to_take_on_side
    }

    /// Hands out the current cell and walks one step, turning at the end of
    /// a side; `None` once the spiral is complete or would leave the grid.
    pub fn next(&mut self) -> (r: Option<Point>)
        requires
            old(self).wf(),
        ensures
            final(self).wf(),
            old(self).remaining() == 0 ==> r is None && *final(self) == *old(self),
            old(self).remaining() > 0 ==> {
                let (length, taken) = old(self).side();
                let c = old(self).current();
                let s = old(self).direction();
                &&& r == Some(c)
                &&& final(self).remaining() == (if i32::MIN <= c.0 + s.0 <= i32::MAX && i32::MIN
                    <= c.1 + s.1 <= i32::MAX {
                    old(self).remaining() - 1
                } else {
                    0
                })
                &&& final(self).remaining() > 0 ==> final(self).current() == (
                    (c.0 + s.0) as i32,
                    (c.1 + s.1) as i32,
                )
                &&& if taken + 1 == length {
                    &&& final(self).direction() == turned(s)
                    &&& final(self).side() == (
                        if old(self).grows_next() && length < u32::MAX {
                            length + 1
                        } else {
                            length
                        },
                        0nat,
                    )
                    &&& final(self).grows_next() == !old(self).grows_next()
                } else {
                    &&& final(self).direction() == s
                    &&& final(self).side() == (length, taken + 1)
                    &&& final(self).grows_next() == old(self).grows_next()
                }
            },
    {
        if self.remaining_steps == 0 {
            return None;
        }
        let result = self.next;
        let x = self.next.0.checked_add(self.step.0);
        let y = self.next.1.checked_add(self.step.1);
        match (x, y) {
            (Some(x), Some(y)) => {
                self.next = (x, y);
                self.remaining_steps = self.remaining_steps - 1;
            },
            _ => {
                self.remaining_steps = 0;
            },
        }
        self.steps_taken_on_side = self.steps_taken_on_side + 1;
        if self.steps_taken_on_side == self.steps_to_take_on_side {
            self.step = if self.step.0 == 1 {
                (0, 1)
            } else if self.step.1 == 1 {
                (-1, 0)
            } else if self.step.0 == -1 {
                (0, -1)
            } else {
                (1, 0)
            };
            if self.has_turned_at_radius {
                self.steps_to_take_on_side = self.steps_to_take_on_side.saturating_add(1);
            }
            self.has_turned_at_radius = !self.has_turned_at_radius;
            self.steps_taken_on_side = 0;
        }
        Some(result)
    }
}

/// The `(2 * radius + 1)^2` cells of the square of that radius around
/// `point`, in a spiral from `point` outward.
pub fn spiral(point: Point, radius: i32) -> (r: SpiralIter)
    requires
        0 <= radius,
        (2 * radius + 1) * (2 * radius + 1) <= u32::MAX,
    ensures
        r.wf(),
        r.current() == point,
        r.remaining() == (2 * radius + 1) * (2 * radius + 1),
        r.direction() == (1i32, 0i32),
        r.side() == (1nat, 0nat),
        !r.grows_next(),
{
    let side = 2 * radius as u32 + 1;
    assert(side * side <= u32::MAX);
    SpiralIter {
        next: point,
        remaining_steps: side * side,
        step: (1, 0),
        steps_to_take_on_side: 1,
        steps_taken_on_side: 0,
        has_turned_at_radius: false,
    }
}

} // verus!
