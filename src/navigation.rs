use vstd::prelude::*;
use std::collections::BTreeMap;
use crate::grid::Point;
use vstd::std_specs::iter::IteratorSpec;

verus! {

/// The cells of `m` in some order, each once.
fn cells_of(m: &BTreeMap<(i32, i32), usize>) -> (r: Vec<Point>)
    ensures
        r@.to_set() == m@.dom(),
        r@.no_duplicates(),
{
    let mut r: Vec<Point> = Vec::new();
    for p in it: m.keys()
        invariant
            r@.len() == it.index(),
            forall|i: int| 0 <= i < it.index() ==> r@[i] == *it.seq()[i],
    {
        r.push(*p);
    }
    assert(r@ =~= m.keys().remaining().unref());
    r
}

/// The `k`-th neighbour of `p` (left, right, up, down), if it exists.
pub open spec fn neighbor(p: Point, k: int) -> Option<Point> {
    if k == 0 {
        if p.0 > i32::MIN {
            Some(((p.0 - 1) as i32, p.1))
        } else {
            None
        }
    } else if k == 1 {
        if p.0 < i32::MAX {
            Some(((p.0 + 1) as i32, p.1))
        } else {
            None
        }
    } else if k == 2 {
        if p.1 > i32::MIN {
            Some((p.0, (p.1 - 1) as i32))
        } else {
            None
        }
    } else {
        if p.1 < i32::MAX {
            Some((p.0, (p.1 + 1) as i32))
        } else {
            None
        }
    }
}

/// The best of the first `k` neighbours of `p`: the first one with the
/// smallest finite value, with that value.
pub open spec fn best_upto(m: Map<Point, usize>, p: Point, k: int) -> Option<(Point, usize)>
    decreases k,
{
    if k <= 0 {
        None
    } else {
        let prev = best_upto(m, p, k - 1);
        if usable(m, p, k - 1) {
            let q = neighbor(p, k - 1)->0;
            match prev {
                None => Some((q, m[q])),
                Some((_, v)) => if m[q] < v {
                    Some((q, m[q]))
                } else {
                    prev
                },
            }
        } else {
            prev
        }
    }
}

/// The neighbour of `p` to step to: the first of left, right, up, down
/// with the smallest finite value.
pub open spec fn best_step(m: Map<Point, usize>, p: Point) -> Option<(Point, usize)> {
    best_upto(m, p, 4)
}

/// The `k`-th neighbour of `p` is a cell of `m` with a finite distance.
pub open spec fn usable(m: Map<Point, usize>, p: Point, k: int) -> bool {
    &&& 0 <= k < 4
    &&& neighbor(p, k) is Some
    &&& m.contains_key(neighbor(p, k)->0)
    &&& m[neighbor(p, k)->0] != usize::MAX
}

/// No usable neighbour of `p` offers a shorter way than the value of `p`.
pub open spec fn settled_at(m: Map<Point, usize>, p: Point) -> bool {
    forall|k: int| #[trigger] usable(m, p, k) ==> m[p] <= m[neighbor(p, k)->0] + 1
}

/// Every cell of `m` is settled: the distances are locally consistent.
pub open spec fn settled(m: Map<Point, usize>) -> bool {
    forall|p: Point| m.contains_key(p) ==> #[trigger] settled_at(m, p)
}

/// `g` has the cells of `m`, each with a value no larger.
pub open spec fn below(g: Map<Point, usize>, m: Map<Point, usize>) -> bool {
    &&& g.dom() == m.dom()
    &&& forall|p: Point| #[trigger] g.contains_key(p) ==> g[p] <= m[p]
}

/// Sum of the values of the cells `s` in `m`.
pub open spec fn total(s: Seq<Point>, m: Map<Point, usize>) -> int
    decreases s.len(),
{
    if s.len() == 0 {
        0
    } else {
        m[s.last()] + total(s.drop_last(), m)
    }
}

proof fn lemma_total_other(s: Seq<Point>, m: Map<Point, usize>, p: Point, w: usize)
    requires
        !s.contains(p),
    ensures
        total(s, m.insert(p, w)) == total(s, m),
    decreases s.len(),
{
    if s.len() > 0 {
        assert(!s.drop_last().contains(p)) by {
            if s.drop_last().contains(p) {
                let k = choose|k: int| 0 <= k < s.drop_last().len() && s.drop_last()[k] == p;
                assert(s[k] == p);
            }
        }
        lemma_total_other(s.drop_last(), m, p, w);
    }
}

proof fn lemma_total_update(s: Seq<Point>, m: Map<Point, usize>, p: Point, w: usize)
    requires
        s.contains(p),
        s.no_duplicates(),
    ensures
        total(s, m.insert(p, w)) == total(s, m) - m[p] + w,
    decreases s.len(),
{
    let rest = s.drop_last();
    if s.last() == p {
        assert(!rest.contains(p)) by {
            if rest.contains(p) {
                let k = choose|k: int| 0 <= k < rest.len() && rest[k] == p;
                assert(s[k] == s[s.len() - 1]);
            }
        }
        lemma_total_other(rest, m, p, w);
    } else {
        let k = choose|k: int| 0 <= k < s.len() && s[k] == p;
        assert(rest[k] == p);
        lemma_total_update(rest, m, p, w);
    }
}

proof fn lemma_total_nonneg(s: Seq<Point>, m: Map<Point, usize>)
    ensures
        total(s, m) >= 0,
    decreases s.len(),
{
    if s.len() > 0 {
        lemma_total_nonneg(s.drop_last(), m);
    }
}

fn neighbor_of(p: Point, k: usize) -> (r: Option<Point>)
    requires
        k < 4,
    ensures
        r == neighbor(p, k as int),
{
    if k == 0 {
        if p.0 > i32::MIN {
            Some((p.0 - 1, p.1))
        } else {
            None
        }
    } else if k == 1 {
        if p.0 < i32::MAX {
            Some((p.0 + 1, p.1))
        } else {
            None
        }
    } else if k == 2 {
        if p.1 > i32::MIN {
            Some((p.0, p.1 - 1))
        } else {
            None
        }
    } else {
        if p.1 < i32::MAX {
            Some((p.0, p.1 + 1))
        } else {
            None
        }
    }
}

/// A flow field: for each known cell, how many steps lead to the goal.
/// `usize::MAX` marks a cell from which the goal is not (yet) reachable.
pub struct Navigation {
    cells: BTreeMap<(i32, i32), usize>,
}

impl Navigation {
    /// The value of each known cell.
    pub closed spec fn values(&self) -> Map<Point, usize> {
        self.cells@
    }

    /// A field with no cells.
    pub fn new() -> (r: Navigation)
        ensures
            r.values() == Map::<Point, usize>::empty(),
    {
        Navigation { cells: BTreeMap::new() }
    }

    /// Forgets every cell.
    pub fn reset(&mut self)
        ensures
            final(self).values() == Map::<Point, usize>::empty(),
    {
        self.cells.clear();
    }

    /// Sets the value of `point`.
    pub fn set_value(&mut self, point: Point, value: usize)
        ensures
            final(self).values() == old(self).values().insert(point, value),
    {
        self.cells.insert(point, value);
    }

    /// The value of `point`, if it is a known cell.
    pub fn get_value(&self, point: Point) -> (r: Option<usize>)
        ensures
            r == self.values().get(point),
    {
        match self.cells.get(&point) {
            Some(v) => Some(*v),
            None => None,
        }
    }

    /// The neighbour of `point` with the smallest finite value, with that
    /// value; among equal values the first of left, right, up, down.
    pub fn best_neighbor(&self, point: Point) -> (r: Option<(Point, usize)>)
        ensures
            r == best_step(self.values(), point),
            match r {
                None => forall|k: int| !#[trigger] usable(self.values(), point, k),
                Some((q, v)) => exists|k: int|
                    {
                        &&& #[trigger] usable(self.values(), point, k)
                        &&& q == neighbor(point, k)->0
                        &&& v == self.values()[q]
                        &&& forall|k2: int|
                            #[trigger] usable(self.values(), point, k2) ==> v <= self.values()[neighbor(
                                point,
                                k2,
                            )->0]
                        &&& forall|k2: int|
                            0 <= k2 < k && #[trigger] usable(self.values(), point, k2) ==> v
                                < self.values()[neighbor(point, k2)->0]
                    },
            },
    {
        let ghost m = self.values();
        let mut best: Option<(Point, usize)> = None;
        let ghost mut best_k: int = 0;
        let mut k: usize = 0;
        while k < 4
            invariant
                0 <= k <= 4,
                m == self.values(),
                best == best_upto(m, point, k as int),
                best is None ==> forall|k2: int| 0 <= k2 < k ==> !#[trigger] usable(m, point, k2),
                best matches Some((q, v)) ==> {
                    &&& 0 <= best_k < k
                    &&& usable(m, point, best_k)
                    &&& q == neighbor(point, best_k)->0
                    &&& v == m[q]
                    &&& forall|k2: int|
                        0 <= k2 < k && #[trigger] usable(m, point, k2) ==> v <= m[neighbor(
                            point,
                            k2,
                        )->0]
                    &&& forall|k2: int|
                        0 <= k2 < best_k && #[trigger] usable(m, point, k2) ==> v < m[neighbor(
                            point,
                            k2,
                        )->0]
                },
            decreases 4 - k,
        {
            if let Some(candidate) = neighbor_of(point, k) {
                if let Some(value) = self.cells.get(&candidate) {
                    if *value != usize::MAX {
                        let better = match best {
                            None => true,
                            Some((_, v)) => *value < v,
                        };
                        if better {
                            best = Some((candidate, *value));
                            proof {
                                best_k = k as int;
                            }
                        }
                    }
                }
            }
            k = k + 1;
        }
        proof {
            if best is Some {
                assert(usable(m, point, best_k));
            }
        }
        best
    }

    /// Lowers each value to one more than its best neighbour until nothing
    /// changes. The result is the largest locally consistent field that
    /// stays at or below the values given.
    pub fn calculate(&mut self)
        ensures
            below(final(self).values(), old(self).values()),
            settled(final(self).values()),
            forall|g: Map<Point, usize>|
                below(g, old(self).values()) && #[trigger] settled(g) ==> below(
                    g,
                    final(self).values(),
                ),
    {
        let ghost orig = self.values();
        let points = cells_of(&self.cells);
        let mut changed = true;
        proof {
            lemma_total_nonneg(points@, self.cells@);
        }
        while changed
            invariant
                below(self.cells@, orig),
                points@.to_set() == orig.dom(),
                points@.no_duplicates(),
                forall|g: Map<Point, usize>|
                    below(g, orig) && #[trigger] settled(g) ==> below(g, self.cells@),
                !changed ==> settled(self.cells@),
                total(points@, self.cells@) >= 0,
            decreases total(points@, self.cells@) + if changed {
                1int
            } else {
                0int
            },
        {
            changed = false;
            let ghost start = self.cells@;
            let mut j: usize = 0;
            while j < points.len()
                invariant
                    0 <= j <= points@.len(),
                    below(self.cells@, orig),
                    points@.to_set() == orig.dom(),
                    points@.no_duplicates(),
                    forall|g: Map<Point, usize>|
                        below(g, orig) && #[trigger] settled(g) ==> below(g, self.cells@),
                    !changed ==> self.cells@ == start,
                    !changed ==> forall|i: int|
                        0 <= i < j ==> #[trigger] settled_at(self.cells@, points@[i]),
                    changed ==> total(points@, self.cells@) < total(points@, start),
                    total(points@, self.cells@) >= 0,
                decreases points@.len() - j,
            {
                let point = points[j];
                assert(points@.to_set().contains(point));
                if let Some((_, smallest)) = self.best_neighbor(point) {
                    let value = *self.cells.get(&point).unwrap();
                    if smallest < value.saturating_sub(1) {
                        let ghost before = self.cells@;
                        changed = true;
                        self.cells.insert(point, smallest + 1);
                        proof {
                            assert(points@.contains(point));
                            assert(before.contains_key(point));
                            assert(self.cells@.dom() =~= orig.dom());
                            assert(below(self.cells@, orig));
                            lemma_total_update(points@, before, point, (smallest + 1) as usize);
                            lemma_total_nonneg(points@, self.cells@);
                            assert forall|g: Map<Point, usize>|
                                below(g, orig) && #[trigger] settled(g) implies below(
                                g,
                                self.cells@,
                            ) by {
                                assert(below(g, before));
                                let k = choose|k: int|
                                    {
                                        &&& #[trigger] usable(before, point, k)
                                        &&& before[neighbor(point, k)->0] == smallest
                                    };
                                let q = neighbor(point, k)->0;
                                assert(g.contains_key(q));
                                assert(g[q] <= before[q]);
                                assert(usable(g, point, k));
                                assert(settled_at(g, point));
                                assert(g[point] <= smallest + 1);
                                assert(g.dom() =~= self.cells@.dom());
                                assert forall|p: Point| #[trigger] g.contains_key(p) implies g[p]
                                    <= self.cells@[p] by {
                                    if p != point {
                                        assert(g[p] <= before[p]);
                                    }
                                }
                            }
                        }
                    }
                }
                j = j + 1;
            }
            proof {
                if !changed {
                    assert forall|p: Point| self.cells@.contains_key(p) implies #[trigger] settled_at(
                        self.cells@,
                        p,
                    ) by {
                        assert(points@.to_set().contains(p));
                        let i = choose|i: int| 0 <= i < points@.len() && points@[i] == p;
                        assert(settled_at(self.cells@, points@[i]));
                    }
                }
            }
        }
    }
}

impl Default for Navigation {
    fn default() -> (r: Navigation)
        ensures
            r.values() == Map::<Point, usize>::empty(),
    {
        Navigation::new()
    }
}

} // verus!
