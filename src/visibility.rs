use vstd::prelude::*;
use std::collections::BTreeMap;
use std::rc::Rc;
use crate::grid::{
    advance, in_box, line, line_bias, line_len, line_major, line_minor, line_minor_steps,
    line_point, same_point, Point,
};
use vstd::arithmetic::div_mod::{
    lemma_div_is_ordered, lemma_div_plus_one, lemma_div_pos_is_pos,
    lemma_fundamental_div_mod_converse,
};

verus! {

/// One cell of a sight line; its children continue the lines through it.
struct Node {
    point: Point,
    parent: usize,
    children: Vec<usize>,
}

/// The cell `p` of the first quadrant seen through one of the four
/// quarter turns: `q` = 0 keeps it, each further step turns it once more.
pub open spec fn quadrant(q: int, p: Point) -> Point {
    if q == 0 {
        p
    } else if q == 1 {
        ((-p.1) as i32, p.0)
    } else if q == 2 {
        ((-p.0) as i32, (-p.1) as i32)
    } else {
        (p.1, (-p.0) as i32)
    }
}

/// `p` lies in the first quadrant, at most `r` away from the origin.
pub open spec fn in_quarter_disk(p: Point, r: int) -> bool {
    &&& 0 <= p.0
    &&& 0 <= p.1
    &&& p.0 * p.0 + p.1 * p.1 <= r * r
}

/// `d` lies on the far edges of the square of radius `r`, where the traced
/// lines end.
pub open spec fn edge_target(d: Point, r: int) -> bool {
    (d.0 == r && 0 <= d.1 <= r) || (d.1 == r && 0 <= d.0 <= r)
}

/// The lines to the first `i` cells of both far edges are complete.
pub open spec fn traced_upto(c: VisibilityCache, radius: i32, i: int) -> bool {
    forall|k: int|
        0 <= k < i ==> #[trigger] c.ray_complete((radius, k as i32)) && c.ray_complete(
            (k as i32, radius),
        )
}

/// A tree of sight lines from the origin, built once for a radius and
/// shared by every field of view. Parents come before their children.
pub struct VisibilityCache {
    nodes: Vec<Node>,
    radius: Ghost<int>,
}

impl VisibilityCache {
    pub closed spec fn radius(&self) -> int {
        self.radius@
    }

    pub closed spec fn node_count(&self) -> int {
        self.nodes@.len() as int
    }

    pub closed spec fn node_point(&self, n: int) -> Point {
        self.nodes@[n].point
    }

    pub closed spec fn node_parent(&self, n: int) -> int {
        self.nodes@[n].parent as int
    }

    pub closed spec fn wf(&self) -> bool {
        let nodes = self.nodes@;
        &&& nodes.len() >= 1
        &&& nodes[0].point == (0i32, 0i32)
        &&& forall|n: int| 0 < n < nodes.len() ==> #[trigger] nodes[n].parent < n
        &&& forall|n: int|
            0 <= n < nodes.len() ==> in_quarter_disk(#[trigger] nodes[n].point, self.radius@)
        &&& forall|n: int, j: int|
            0 <= n < nodes.len() && 0 <= j < nodes[n].children@.len() ==> {
                let c = #[trigger] nodes[n].children@[j];
                &&& 0 < c < nodes.len()
                &&& nodes[c as int].parent == n
            }
    }

    /// Node `m` lies strictly below node `n` on a sight line.
    pub open spec fn descends(&self, m: int, n: int) -> bool
        decreases m,
    {
        if m <= 0 || m >= self.node_count() {
            false
        } else if self.node_parent(m) < m {
            self.node_parent(m) == n || self.descends(self.node_parent(m), n)
        } else {
            false
        }
    }

    /// Sight reaches node `n` in quadrant `q`: every node above it on its
    /// line is transparent under `opaque`.
    pub open spec fn reached(&self, opaque: spec_fn(Point) -> bool, q: int, n: int) -> bool
        decreases n,
    {
        if n == 0 {
            true
        } else if n < 0 || n >= self.node_count() {
            false
        } else if self.node_parent(n) < n {
            let p = self.node_parent(n);
            self.reached(opaque, q, p) && !opaque(quadrant(q, self.node_point(p)))
        } else {
            false
        }
    }

    /// The cell `p` (relative to the viewer) is seen under `opaque`.
    pub open spec fn sees(&self, opaque: spec_fn(Point) -> bool, p: Point) -> bool {
        exists|q: int, n: int|
            0 <= q < 4 && 0 <= n < self.node_count() && #[trigger] self.reached(opaque, q, n)
                && quadrant(q, self.node_point(n)) == p
    }

    /// How many steps node `n` lies below the root.
    pub open spec fn depth(&self, n: int) -> int
        decreases n,
    {
        if n <= 0 || n >= self.node_count() {
            0
        } else if self.node_parent(n) < n {
            self.depth(self.node_parent(n)) + 1
        } else {
            0
        }
    }

    /// The path from the root to node `n` is the start of the digital line
    /// from the origin to `d`.
    pub open spec fn on_ray(&self, n: int, d: Point) -> bool
        decreases n,
    {
        if n == 0 {
            true
        } else if n < 0 || n >= self.node_count() {
            false
        } else if self.node_parent(n) < n {
            &&& self.node_point(n) == line_point((0i32, 0i32), d, self.depth(n))
            &&& self.on_ray(self.node_parent(n), d)
        } else {
            false
        }
    }

    /// Every path from the root follows a line from the origin to a cell on
    /// the far edges of the square of the radius.
    pub open spec fn rays_ok(&self) -> bool {
        forall|n: int| 0 < n < self.node_count() ==> #[trigger] self.on_edge_ray(n)
    }

    /// The path from the root to node `n` follows a line from the origin to
    /// a cell on the far edges of the square of the radius.
    pub open spec fn on_edge_ray(&self, n: int) -> bool {
        exists|d: Point| edge_target(d, self.radius()) && #[trigger] self.on_ray(n, d)
    }

    /// The tree holds the line from the origin to `d` for as long as that
    /// line stays within the radius.
    pub open spec fn ray_complete(&self, d: Point) -> bool {
        exists|n: int|
            0 <= n < self.node_count() && #[trigger] self.on_ray(n, d) && (self.depth(n) + 1
                == line_len((0i32, 0i32), d) || !in_quarter_disk(
                line_point((0i32, 0i32), d, self.depth(n) + 1),
                self.radius(),
            ))
    }

    /// `self` holds the nodes of `other`, unchanged, and maybe more.
    pub closed spec fn extends(&self, other: &VisibilityCache) -> bool {
        &&& self.radius@ == other.radius@
        &&& self.nodes@.len() >= other.nodes@.len()
        &&& forall|n: int|
            0 <= n < other.nodes@.len() ==> (#[trigger] self.nodes@[n]).point == other.nodes@[n].point
                && self.nodes@[n].parent == other.nodes@[n].parent
    }

    /// Builds the sight-line tree for cells at most `max_radius` away from
    /// the origin: every path from the root is the start of the digital line
    /// from the origin to a cell on the far edges of the square of that
    /// radius, and each such line is in the tree for as long as it stays
    /// within the radius.
    pub fn new(max_radius: i32) -> (r: VisibilityCache)
        ensures
            r.wf(),
            r.radius() == max_radius,
            r.node_count() >= 1,
            r.node_point(0) == (0i32, 0i32),
            forall|n: int| 0 < n < r.node_count() ==> 0 <= #[trigger] r.node_parent(n) < n,
            forall|n: int|
                0 <= n < r.node_count() ==> in_quarter_disk(#[trigger] r.node_point(n), max_radius as int),
            r.rays_ok(),
            forall|d: Point| edge_target(d, max_radius as int) ==> #[trigger] r.ray_complete(d),
    {
        let mut instance = VisibilityCache { nodes: Vec::new(), radius: Ghost(max_radius as int) };
        instance.compute_nodes(max_radius);
        instance
    }

    fn compute_nodes(&mut self, radius: i32)
        requires
            old(self).nodes@.len() == 0,
            old(self).radius@ == radius,
        ensures
            final(self).wf(),
            final(self).rays_ok(),
            final(self).radius@ == radius,
            forall|d: Point| edge_target(d, radius as int) ==> #[trigger] final(self).ray_complete(d),
    {
        self.add_node((0, 0), 0);
        assert(0 <= radius * radius) by (nonlinear_arith);
        assert(in_quarter_disk(self.nodes@[0].point, self.radius@));
        assert(self.nodes@[0].children@.len() == 0);
        if radius < 0 {
            return;
        }
        self.compute_nodes_to(radius, (radius, radius));
        let mut i: i32 = 0;
        while i < radius
            invariant
                0 <= i <= radius,
                self.wf(),
                self.rays_ok(),
                self.radius@ == radius,
                self.ray_complete((radius, radius)),
                traced_upto(*self, radius, i as int),
            decreases radius - i,
        {
            let ghost s0 = *self;
            assert(traced_upto(s0, radius, i as int));
            self.compute_nodes_to(radius, (radius, i));
            let ghost s1 = *self;
            self.compute_nodes_to(radius, (i, radius));
            assert(s0.ray_complete((radius, radius)) && s1.ray_complete((radius, radius)));
            assert(s1.ray_complete((radius, i)));
            assert forall|k: int| 0 <= k < i + 1 implies #[trigger] self.ray_complete((radius, k as i32))
                && self.ray_complete((k as i32, radius)) by {
                if k < i {
                    assert(s0.ray_complete((radius, k as i32)));
                    assert(s0.ray_complete((k as i32, radius)));
                    assert(s1.ray_complete((radius, k as i32)));
                    assert(s1.ray_complete((k as i32, radius)));
                }
            }
            i = i + 1;
        }
        assert(traced_upto(*self, radius, radius as int));
        assert forall|d: Point| edge_target(d, radius as int) implies #[trigger] self.ray_complete(d) by {
            if d.0 == radius && d.1 < radius {
                let k = d.1 as int;
                assert(self.ray_complete((radius, k as i32)));
                assert(d == (radius, k as i32));
            } else if d.1 == radius && d.0 < radius {
                let k = d.0 as int;
                assert(self.ray_complete((radius, k as i32)));
                assert(self.ray_complete((k as i32, radius)));
                assert(d == (k as i32, radius));
            }
        }
    }

    /// Traces the line from the origin to `destination` into the tree, up
    /// to its first cell beyond the radius, reusing the nodes already there.
    /// The distance from the origin only grows along such a line, so no
    /// later cell comes back within the radius.
    fn compute_nodes_to(&mut self, radius: i32, destination: Point)
        requires
            old(self).wf(),
            old(self).rays_ok(),
            old(self).radius@ == radius,
            edge_target(destination, radius as int),
        ensures
            final(self).wf(),
            final(self).rays_ok(),
            final(self).extends(old(self)),
            final(self).radius@ == radius,
            final(self).ray_complete(destination),
            forall|d: Point| #[trigger] old(self).ray_complete(d) ==> final(self).ray_complete(d),
    {
        let ghost start = *self;
        let mut current: usize = 0;
        let origin = self.nodes[0].point;
        let mut cells = line(origin, destination);
        let _ = cells.next();
        assert(self.on_ray(0, destination));
        loop
            invariant_except_break
                self.depth(current as int) == cells.produced() - 1,
                1 <= cells.produced() <= line_len((0i32, 0i32), destination),
            invariant
                self.wf(),
                self.rays_ok(),
                self.extends(&start),
                start.wf(),
                self.radius@ == radius,
                edge_target(destination, radius as int),
                0 <= destination.0 <= radius,
                0 <= destination.1 <= radius,
                current < self.nodes@.len(),
                self.on_ray(current as int, destination),
                cells.wf(),
                cells.from() == (0i32, 0i32),
                cells.to() == destination,
            ensures
                self.wf(),
                self.rays_ok(),
                self.extends(&start),
                self.ray_complete(destination),
            decreases line_len((0i32, 0i32), destination) - cells.produced(),
        {
            let ghost before = *self;
            let ghost i = cells.produced();
            let point = match cells.next() {
                Some(point) => point,
                None => {
                    assert(self.ray_complete(destination));
                    break;
                },
            };
            assert(point == line_point((0i32, 0i32), destination, i));
            assert(in_box(point, (0i32, 0i32), destination));
            let ghost x = point.0 as int;
            let ghost y = point.1 as int;
            assert(x * x <= 0x3fff_ffff_0000_0001 && y * y <= 0x3fff_ffff_0000_0001) by (nonlinear_arith)
                requires
                    0 <= x <= 0x7fff_ffff,
                    0 <= y <= 0x7fff_ffff,
            ;
            assert(radius * radius <= 0x4000_0000_0000_0000) by (nonlinear_arith)
                requires
                    0 <= radius <= 0x8000_0000,
            ;
            let d = point.0 as i64 * point.0 as i64 + point.1 as i64 * point.1 as i64;
            if d > radius as i64 * radius as i64 {
                assert(!in_quarter_disk(point, radius as int));
                assert(self.ray_complete(destination));
                break;
            }
            assert(in_quarter_disk(point, radius as int));
            let mut next: Option<usize> = None;
            let mut j: usize = 0;
            let count = self.nodes[current].children.len();
            while j < count
                invariant
                    self.wf(),
                    current < self.nodes@.len(),
                    count == self.nodes@[current as int].children@.len(),
                    0 <= j <= count,
                    next matches Some(c) ==> 0 < c < self.nodes@.len() && self.nodes@[c as int].parent
                        == current && self.nodes@[c as int].point == point,
                decreases count - j,
            {
                let child = self.nodes[current].children[j];
                assert(self.nodes@[current as int].children@[j as int] == child);
                if same_point(self.nodes[child].point, point) {
                    next = Some(child);
                    break;
                }
                j = j + 1;
            }
            match next {
                Some(child) => {
                    current = child;
                    assert(self.on_ray(current as int, destination));
                },
                None => {
                    let created = self.add_node(point, current);
                    self.add_child(current, created);
                    proof {
                        assert(self.extends(&before));
                        assert forall|m: int| 0 <= m < before.node_count() implies #[trigger] self.depth(m)
                            == before.depth(m) && forall|e: Point| self.on_ray(m, e) == before.on_ray(m, e) by {
                            lemma_extends(*self, before, m);
                        }
                        lemma_extends(*self, before, current as int);
                        assert(self.on_ray(created as int, destination));
                        assert forall|m: int| 0 < m < self.node_count() implies #[trigger] self.on_edge_ray(m) by {
                            if m < before.node_count() {
                                assert(before.on_edge_ray(m));
                                let e = choose|e: Point| edge_target(e, before.radius()) && #[trigger] before.on_ray(m, e);
                                assert(self.on_ray(m, e));
                            } else {
                                assert(self.on_ray(m, destination));
                            }
                        }
                        assert(self.extends(&start));
                    }
                    current = created;
                },
            }
        }
        proof {
            assert forall|d: Point| #[trigger] start.ray_complete(d) implies self.ray_complete(d) by {
                let n = choose|n: int|
                    0 <= n < start.node_count() && #[trigger] start.on_ray(n, d) && (start.depth(n) + 1
                        == line_len((0i32, 0i32), d) || !in_quarter_disk(
                        line_point((0i32, 0i32), d, start.depth(n) + 1),
                        start.radius(),
                    ));
                lemma_extends(*self, start, n);
                assert(self.on_ray(n, d));
            }
        }
    }

    fn add_node(&mut self, point: Point, parent: usize) -> (index: usize)
        requires
            old(self).nodes@.len() == 0 ==> parent == 0 && point == (0i32, 0i32),
            old(self).nodes@.len() > 0 ==> parent < old(self).nodes@.len(),
        ensures
            index == old(self).nodes@.len(),
            final(self).nodes@ == old(self).nodes@.push(
                Node { point, parent, children: final(self).nodes@[index as int].children },
            ),
            final(self).nodes@[index as int].children@.len() == 0,
            final(self).radius == old(self).radius,
    {
        let index = self.nodes.len();
        self.nodes.push(Node { point, parent, children: Vec::new() });
        index
    }

    fn add_child(&mut self, index: usize, child_index: usize)
        requires
            index < old(self).nodes@.len(),
        ensures
            final(self).nodes@.len() == old(self).nodes@.len(),
            forall|n: int|
                0 <= n < old(self).nodes@.len() && n != index ==> #[trigger] final(self).nodes@[n]
                    == old(self).nodes@[n],
            final(self).nodes@[index as int].point == old(self).nodes@[index as int].point,
            final(self).nodes@[index as int].parent == old(self).nodes@[index as int].parent,
            final(self).nodes@[index as int].children@ == old(
                self,
            ).nodes@[index as int].children@.push(child_index),
            final(self).radius == old(self).radius,
    {
        let mut node = self.nodes.remove(index);
        node.children.push(child_index);
        self.nodes.insert(index, node);
    }
}


proof fn lemma_extends(big: VisibilityCache, small: VisibilityCache, n: int)
    requires
        big.extends(&small),
        small.wf(),
        0 <= n < small.node_count(),
    ensures
        big.depth(n) == small.depth(n),
        forall|d: Point| big.on_ray(n, d) == small.on_ray(n, d),
    decreases n,
{
    if n > 0 {
        lemma_extends(big, small, small.node_parent(n));
        assert(big.node_point(n) == small.node_point(n));
        assert(big.node_parent(n) == small.node_parent(n));
        assert(small.node_parent(n) < n);
        assert(big.depth(n) == small.depth(n));
        assert forall|d: Point| big.on_ray(n, d) == small.on_ray(n, d) by {
            assert(big.on_ray(small.node_parent(n), d) == small.on_ray(small.node_parent(n), d));
        }
    }
}

/// Steps along the shorter axis after `i` steps along the longer one, for a
/// line with `major` and `minor` extents and rounding offset `bias`.
pub open spec fn rounded_steps(major: int, minor: int, bias: int, i: int) -> int {
    (i * minor - bias + major - 1) / major
}

proof fn lemma_rounded_steps_bounds(major: int, minor: int, bias: int, i: int)
    requires
        major > 0,
        0 <= minor <= major,
        0 <= bias <= major - 1,
        0 <= i <= major,
    ensures
        0 <= rounded_steps(major, minor, bias, i) <= minor,
{
    let num = i * minor - bias + major - 1;
    assert(0 <= i * minor <= major * minor) by (nonlinear_arith)
        requires
            0 <= i <= major,
            0 <= minor,
    ;
    lemma_div_pos_is_pos(num, major);
    let k = num / major;
    vstd::arithmetic::div_mod::lemma_mod_pos_bound(num, major);
    vstd::arithmetic::div_mod::lemma_fundamental_div_mod(num, major);
    assert(num == major * k + num % major);
    assert(k <= minor) by (nonlinear_arith)
        requires
            num == major * k + num % major,
            0 <= num % major,
            num < major * minor + major,
            major > 0,
    ;
}

proof fn lemma_rounded_steps_monotone(major: int, minor: int, bias: int, i: int, j: int)
    requires
        major > 0,
        0 <= minor,
        i <= j,
    ensures
        rounded_steps(major, minor, bias, i) <= rounded_steps(major, minor, bias, j),
{
    assert(i * minor <= j * minor) by (nonlinear_arith)
        requires
            i <= j,
            0 <= minor,
    ;
    lemma_div_is_ordered(i * minor - bias + major - 1, j * minor - bias + major - 1, major);
}

/// For a line from the origin to a cell of the first quadrant, the `i`-th
/// cell: its coordinates, both non-negative and never decreasing along the
/// line.
proof fn lemma_first_quadrant_line(d: Point, i: int, j: int)
    requires
        0 <= d.0,
        0 <= d.1,
        0 <= i <= j <= line_major((0i32, 0i32), d),
    ensures
        0 <= line_point((0i32, 0i32), d, i).0 <= line_point((0i32, 0i32), d, j).0,
        0 <= line_point((0i32, 0i32), d, i).1 <= line_point((0i32, 0i32), d, j).1,
{
    let o = (0i32, 0i32);
    let major = line_major(o, d);
    let minor = line_minor(o, d);
    if major > 0 {
        assert(line_bias(o, d) == major / 2);
        lemma_rounded_steps_bounds(major, minor, major / 2, i);
        lemma_rounded_steps_bounds(major, minor, major / 2, j);
        lemma_rounded_steps_monotone(major, minor, major / 2, i, j);
        assert(line_minor_steps(o, d, i) == rounded_steps(major, minor, major / 2, i));
        assert(line_minor_steps(o, d, j) == rounded_steps(major, minor, major / 2, j));
    }
}

/// As the far end of a line moves along an edge one cell at a time, the
/// cell of the line at index `x` moves by at most one, so every row from
/// the one reached at `i0` up to `x` is reached by some end.
proof fn lemma_edge_sweep(r: int, x: int, y: int, i0: int)
    requires
        r >= 1,
        0 <= y <= x <= r,
        0 <= i0 <= r,
        rounded_steps(r, i0, r / 2, x) <= y,
    ensures
        exists|i1: int| i0 <= i1 <= r && #[trigger] rounded_steps(r, i1, r / 2, x) == y,
    decreases r - i0,
{
    let b = r / 2;
    let here = rounded_steps(r, i0, b, x);
    if here == y {
        assert(rounded_steps(r, i0, b, x) == y);
    } else {
        lemma_fundamental_div_mod_converse(x * r - b + r - 1, r, x, r - 1 - b);
        assert(x * r - b + r - 1 == x * r + (r - 1 - b));
        assert(rounded_steps(r, r, b, x) == x);
        if i0 == r {
            assert(false);
        }
        let n0 = x * i0 - b + r - 1;
        assert(x * (i0 + 1) - b + r - 1 == n0 + x) by (nonlinear_arith)
            requires
                n0 == x * i0 - b + r - 1,
        ;
        lemma_div_is_ordered(n0 + x, n0 + r, r);
        lemma_div_plus_one(n0, r);
        assert(r + n0 == n0 + r);
        lemma_edge_sweep(r, x, y, i0 + 1);
        let i1 = choose|i1: int| i0 + 1 <= i1 <= r && #[trigger] rounded_steps(r, i1, b, x) == y;
        assert(i0 <= i1 <= r && rounded_steps(r, i1, b, x) == y);
    }
}

/// The larger of the two coordinates of `c`.
pub open spec fn larger_coordinate(c: Point) -> int {
    if c.0 >= c.1 {
        c.0 as int
    } else {
        c.1 as int
    }
}

/// A cell of the first quadrant within `r` lies on the line from the origin
/// to some cell of the far edges, at the index of its larger coordinate.
proof fn lemma_cell_on_edge_line(r: int, c: Point)
    requires
        r >= 1,
        r <= i32::MAX,
        0 <= c.0 <= r,
        0 <= c.1 <= r,
    ensures
        exists|d: Point|
            edge_target(d, r) && #[trigger] line_point((0i32, 0i32), d, larger_coordinate(c)) == c
                && line_major((0i32, 0i32), d) == r,
{
    let o = (0i32, 0i32);
    let b = r / 2;
    if c.0 >= c.1 {
        let x = c.0 as int;
        let y = c.1 as int;
        assert(rounded_steps(r, 0, b, x) == 0) by {
            lemma_fundamental_div_mod_converse(x * 0 - b + r - 1, r, 0, r - 1 - b);
        }
        lemma_edge_sweep(r, x, y, 0);
        let i1 = choose|i1: int| 0 <= i1 <= r && #[trigger] rounded_steps(r, i1, b, x) == y;
        let d = (r as i32, i1 as i32);
        assert(line_major(o, d) == r && line_minor(o, d) == i1 && line_bias(o, d) == b);
        assert(line_minor_steps(o, d, x) == y);
        assert(line_point(o, d, x) == c);
        assert(larger_coordinate(c) == x);
        assert(edge_target(d, r));
    } else {
        let x = c.1 as int;
        let y = c.0 as int;
        assert(rounded_steps(r, 0, b, x) == 0) by {
            lemma_fundamental_div_mod_converse(x * 0 - b + r - 1, r, 0, r - 1 - b);
        }
        lemma_edge_sweep(r, x, y, 0);
        let i1 = choose|i1: int| 0 <= i1 <= r && #[trigger] rounded_steps(r, i1, b, x) == y;
        lemma_fundamental_div_mod_converse(x * r - b + r - 1, r, x, r - 1 - b);
        assert(x * r - b + r - 1 == x * r + (r - 1 - b));
        assert(i1 != r);
        let d = (i1 as i32, r as i32);
        assert(line_major(o, d) == r && line_minor(o, d) == i1 && line_bias(o, d) == b);
        assert(line_minor_steps(o, d, x) == y);
        assert(line_point(o, d, x) == c);
        assert(larger_coordinate(c) == x);
        assert(edge_target(d, r));
    }
}

proof fn lemma_depth_nonneg(cache: VisibilityCache, n: int)
    ensures
        cache.depth(n) >= 0,
    decreases n,
{
    if 0 < n < cache.node_count() && cache.node_parent(n) < n {
        lemma_depth_nonneg(cache, cache.node_parent(n));
    }
}

proof fn lemma_ancestor_at_depth(cache: VisibilityCache, n: int, d: Point, i: int)
    requires
        cache.wf(),
        0 <= n < cache.node_count(),
        cache.on_ray(n, d),
        0 <= i <= cache.depth(n),
    ensures
        exists|m: int| 0 <= m < cache.node_count() && cache.on_ray(m, d) && #[trigger] cache.depth(m) == i,
    decreases n,
{
    if cache.depth(n) == i {
        assert(cache.depth(n) == i);
    } else {
        assert(n > 0);
        assert(cache.node_parent(n) < n);
        lemma_ancestor_at_depth(cache, cache.node_parent(n), d, i);
    }
}

/// Every cell of the first quadrant within the radius is the cell of some
/// node, once every line to the far edges is complete.
proof fn lemma_node_for_cell(cache: VisibilityCache, c: Point)
    requires
        cache.wf(),
        0 <= cache.radius() <= i32::MAX,
        forall|d: Point| edge_target(d, cache.radius()) ==> #[trigger] cache.ray_complete(d),
        in_quarter_disk(c, cache.radius()),
    ensures
        exists|m: int| 0 <= m < cache.node_count() && #[trigger] cache.node_point(m) == c,
{
    let r = cache.radius();
    let o = (0i32, 0i32);
    assert(c.0 <= r && c.1 <= r) by (nonlinear_arith)
        requires
            0 <= c.0,
            0 <= c.1,
            0 <= r,
            c.0 * c.0 + c.1 * c.1 <= r * r,
    ;
    if r == 0 || larger_coordinate(c) == 0 {
        assert(c == (0i32, 0i32));
        assert(cache.node_point(0) == c);
    } else {
        lemma_cell_on_edge_line(r, c);
        let i = larger_coordinate(c);
        let d = choose|d: Point|
            edge_target(d, r) && #[trigger] line_point(o, d, i) == c && line_major(o, d) == r;
        assert(cache.ray_complete(d));
        let n = choose|n: int|
            0 <= n < cache.node_count() && #[trigger] cache.on_ray(n, d) && (cache.depth(n) + 1
                == line_len(o, d) || !in_quarter_disk(line_point(o, d, cache.depth(n) + 1), r));
        lemma_depth_nonneg(cache, n);
        if cache.depth(n) < i {
            let e = line_point(o, d, cache.depth(n) + 1);
            lemma_first_quadrant_line(d, cache.depth(n) + 1, i);
            assert(e.0 * e.0 + e.1 * e.1 <= c.0 * c.0 + c.1 * c.1) by (nonlinear_arith)
                requires
                    0 <= e.0 <= c.0,
                    0 <= e.1 <= c.1,
            ;
            assert(in_quarter_disk(e, r));
            assert(false);
        }
        lemma_ancestor_at_depth(cache, n, d, i);
        let m = choose|m: int| 0 <= m < cache.node_count() && cache.on_ray(m, d) && #[trigger] cache.depth(m) == i;
        assert(m > 0);
        assert(cache.node_point(m) == c);
    }
}

/// The opacity under which nothing blocks sight.
pub open spec fn nothing_opaque() -> spec_fn(Point) -> bool {
    |p: Point| false
}

proof fn lemma_all_reached(cache: VisibilityCache, q: int, n: int)
    requires
        cache.wf(),
        0 <= n < cache.node_count(),
    ensures
        cache.reached(nothing_opaque(), q, n),
    decreases n,
{
    if n > 0 {
        lemma_all_reached(cache, q, cache.node_parent(n));
    }
}

/// With nothing opaque a complete tree shows exactly the cells within its
/// radius.
pub proof fn lemma_transparent_sight(cache: VisibilityCache, p: Point)
    requires
        cache.wf(),
        0 <= cache.radius() <= i32::MAX,
        forall|d: Point| edge_target(d, cache.radius()) ==> #[trigger] cache.ray_complete(d),
    ensures
        cache.sees(nothing_opaque(), p) <==> p.0 * p.0 + p.1 * p.1 <= cache.radius() * cache.radius(),
{
    let r = cache.radius();
    if cache.sees(nothing_opaque(), p) {
        lemma_seen_within_radius(cache, nothing_opaque(), p);
    }
    if p.0 * p.0 + p.1 * p.1 <= r * r {
        assert(-r <= p.0 <= r && -r <= p.1 <= r) by (nonlinear_arith)
            requires
                0 <= r,
                p.0 * p.0 + p.1 * p.1 <= r * r,
        ;
        let (q, c): (int, Point) = if p.0 > 0 && p.1 >= 0 || p == (0i32, 0i32) {
            (0, p)
        } else if p.0 <= 0 && p.1 > 0 {
            (1, (p.1, (-p.0) as i32))
        } else if p.0 < 0 && p.1 <= 0 {
            (2, ((-p.0) as i32, (-p.1) as i32))
        } else {
            (3, ((-p.1) as i32, p.0))
        };
        assert(quadrant(q, c) == p);
        assert(c.0 * c.0 + c.1 * c.1 == p.0 * p.0 + p.1 * p.1) by (nonlinear_arith)
            requires
                c.0 == p.0 || c.0 == -p.0 || c.0 == p.1 || c.0 == -p.1,
                c.1 == p.0 || c.1 == -p.0 || c.1 == p.1 || c.1 == -p.1,
                (c.0 == p.0 || c.0 == -p.0) <==> (c.1 == p.1 || c.1 == -p.1),
        ;
        lemma_node_for_cell(cache, c);
        let m = choose|m: int| 0 <= m < cache.node_count() && #[trigger] cache.node_point(m) == c;
        lemma_all_reached(cache, q, m);
        assert(cache.reached(nothing_opaque(), q, m) && quadrant(q, cache.node_point(m)) == p);
    }
}

/// A refresh in which nothing was opaque, over a tree built for a radius,
/// shows exactly the cells within that radius.
pub proof fn lemma_transparent_refresh(fov: FieldOfView, p: Point)
    requires
        fov.wf(),
        0 <= fov.cache().radius() <= i32::MAX,
        forall|d: Point| edge_target(d, fov.cache().radius()) ==> #[trigger] fov.cache().ray_complete(d),
        forall|c: Point| #[trigger] fov.visible(c) <==> fov.cache().sees(nothing_opaque(), c),
    ensures
        fov.visible(p) <==> p.0 * p.0 + p.1 * p.1 <= fov.cache().radius() * fov.cache().radius(),
{
    lemma_transparent_sight(fov.cache(), p);
    assert(fov.visible(p) <==> fov.cache().sees(nothing_opaque(), p));
}

/// Whatever the opacity, nothing farther from the viewer than the radius
/// of the tree is ever seen.
pub proof fn lemma_seen_within_radius(cache: VisibilityCache, opaque: spec_fn(Point) -> bool, p: Point)
    requires
        cache.wf(),
        cache.sees(opaque, p),
    ensures
        p.0 * p.0 + p.1 * p.1 <= cache.radius() * cache.radius(),
{
    let (q, n) = choose|q: int, n: int|
        0 <= q < 4 && 0 <= n < cache.node_count() && #[trigger] cache.reached(opaque, q, n)
            && quadrant(q, cache.node_point(n)) == p;
    let c = cache.node_point(n);
    assert(in_quarter_disk(c, cache.radius()));
    assert(c.0 * c.0 + c.1 * c.1 == p.0 * p.0 + p.1 * p.1) by (nonlinear_arith)
        requires
            p == quadrant(q, c),
            0 <= c.0,
            0 <= c.1,
    ;
}

/// Sight stops at an opaque cell: in a quadrant where the cell of node `n`
/// is opaque, no node further along a sight line through `n` is reached, so
/// none of them makes its cell visible in that refresh.
pub proof fn lemma_occlusion(
    cache: VisibilityCache,
    opaque: spec_fn(Point) -> bool,
    q: int,
    n: int,
    m: int,
)
    requires
        cache.wf(),
        cache.descends(m, n),
        opaque(quadrant(q, cache.node_point(n))),
    ensures
        !cache.reached(opaque, q, m),
    decreases m,
{
    let p = cache.node_parent(m);
    if p != n {
        lemma_occlusion(cache, opaque, q, n, p);
    }
}

/// Whatever `f` returns for a cell is what `opaque` says of it.
pub open spec fn computes<F: Fn(Point) -> bool>(f: F, opaque: spec_fn(Point) -> bool) -> bool {
    forall|c: Point, r: bool| #[trigger] f.ensures((c,), r) ==> r == opaque(c)
}

/// Some node before position (`q`, `n`) of the traversal (all nodes of the
/// earlier quadrants, then the first `n` nodes of quadrant `q`) is reached
/// and shows the cell `p`.
pub open spec fn seen_before(
    cache: VisibilityCache,
    opaque: spec_fn(Point) -> bool,
    q: int,
    n: int,
    p: Point,
) -> bool {
    exists|q2: int, m: int|
        0 <= q2 <= q && 0 <= m < cache.node_count() && (q2 < q || m < n) && #[trigger] cache.reached(
            opaque,
            q2,
            m,
        ) && quadrant(q2, cache.node_point(m)) == p
}

proof fn lemma_seen_before_next(
    cache: VisibilityCache,
    opaque: spec_fn(Point) -> bool,
    q: int,
    n: int,
    p: Point,
)
    requires
        0 <= q,
        0 <= n < cache.node_count(),
    ensures
        seen_before(cache, opaque, q, n + 1, p) <==> (seen_before(cache, opaque, q, n, p) || (
        cache.reached(opaque, q, n) && quadrant(q, cache.node_point(n)) == p)),
{
    if seen_before(cache, opaque, q, n + 1, p) {
        let (q2, m) = choose|q2: int, m: int|
            0 <= q2 <= q && 0 <= m < cache.node_count() && (q2 < q || m < n + 1)
                && #[trigger] cache.reached(opaque, q2, m) && quadrant(q2, cache.node_point(m))
                == p;
        if !(q2 == q && m == n) {
            assert(seen_before(cache, opaque, q, n, p));
        }
    }
    if cache.reached(opaque, q, n) && quadrant(q, cache.node_point(n)) == p {
        assert(seen_before(cache, opaque, q, n + 1, p));
    }
}

proof fn lemma_seen_before_quadrant(
    cache: VisibilityCache,
    opaque: spec_fn(Point) -> bool,
    q: int,
    p: Point,
)
    requires
        0 <= q,
    ensures
        seen_before(cache, opaque, q + 1, 0, p) <==> seen_before(
            cache,
            opaque,
            q,
            cache.node_count(),
            p,
        ),
{
    if seen_before(cache, opaque, q + 1, 0, p) {
        let (q2, m) = choose|q2: int, m: int|
            0 <= q2 <= q + 1 && 0 <= m < cache.node_count() && (q2 < q + 1 || m < 0)
                && #[trigger] cache.reached(opaque, q2, m) && quadrant(q2, cache.node_point(m))
                == p;
        assert(seen_before(cache, opaque, q, cache.node_count(), p));
    }
    if seen_before(cache, opaque, q, cache.node_count(), p) {
        let (q2, m) = choose|q2: int, m: int|
            0 <= q2 <= q && 0 <= m < cache.node_count() && (q2 < q || m < cache.node_count())
                && #[trigger] cache.reached(opaque, q2, m) && quadrant(q2, cache.node_point(m))
                == p;
        assert(seen_before(cache, opaque, q + 1, 0, p));
    }
}

fn to_quadrant(q: usize, p: Point) -> (r: Point)
    requires
        q < 4,
        p.0 >= 0,
        p.1 >= 0,
    ensures
        r == quadrant(q as int, p),
{
    if q == 0 {
        p
    } else if q == 1 {
        (-p.1, p.0)
    } else if q == 2 {
        (-p.0, -p.1)
    } else {
        (p.1, -p.0)
    }
}

/// What one entity currently sees, as cells relative to its own. A cell is
/// seen when its stamp equals the current generation, so a refresh never
/// has to clear the table.
pub struct FieldOfView {
    cache: Rc<VisibilityCache>,
    lookup: BTreeMap<(i32, i32), usize>,
    generation: usize,
}

impl FieldOfView {
    pub closed spec fn cache(&self) -> VisibilityCache {
        *self.cache
    }

    pub closed spec fn wf(&self) -> bool {
        &&& self.cache.wf()
        &&& forall|p: Point| #[trigger]
            self.lookup@.contains_key(p) ==> self.lookup@[p] <= self.generation
    }

    /// The cell `p` (relative to the viewer) was seen in the last refresh.
    pub closed spec fn visible(&self, p: Point) -> bool {
        self.lookup@.contains_key(p) && self.lookup@[p] == self.generation
    }

    /// A field of view over `cache` in which nothing is seen yet.
    pub fn new(cache: Rc<VisibilityCache>) -> (r: FieldOfView)
        requires
            cache.wf(),
        ensures
            r.wf(),
            r.cache() == *cache,
            forall|p: Point| !r.visible(p),
    {
        FieldOfView { cache, lookup: BTreeMap::new(), generation: 0 }
    }

    /// Recomputes what is seen: a cell is seen when some sight line reaches
    /// it with every cell before it transparent. An opaque cell is seen but
    /// blocks what lies beyond it on that line. The result is stated for
    /// every opacity that `check_opaque` computes.
    pub fn update<F: Fn(Point) -> bool>(&mut self, check_opaque: F)
        requires
            old(self).wf(),
            forall|p: Point| check_opaque.requires((p,)),
        ensures
            final(self).wf(),
            final(self).cache() == old(self).cache(),
            forall|opaque: spec_fn(Point) -> bool|
                #[trigger] computes(check_opaque, opaque) ==> forall|p: Point|
                    #[trigger] final(self).visible(p) <==> old(self).cache().sees(opaque, p),
            final(self).visible((0i32, 0i32)),
    {
        if self.generation == usize::MAX {
            self.lookup.clear();
            self.generation = 0;
        }
        self.generation = self.generation + 1;
        let generation = self.generation;
        let ghost cache = self.cache();
        let count = self.cache.nodes.len();
        assert forall|p: Point| !(self.lookup@.contains_key(p) && self.lookup@[p] == generation)
            by {
            if self.lookup@.contains_key(p) {
                assert(self.lookup@[p] < generation);
            }
        }
        let mut q: usize = 0;
        while q < 4
            invariant
                0 <= q <= 4,
                self.generation == generation,
                generation > 0,
                self.cache() == cache,
                cache.wf(),
                count == cache.node_count(),
                forall|p: Point| #[trigger]
                    self.lookup@.contains_key(p) ==> self.lookup@[p] <= generation,
                forall|opaque: spec_fn(Point) -> bool|
                    #[trigger] computes(check_opaque, opaque) ==> forall|p: Point|
                        (self.lookup@.contains_key(p) && self.lookup@[p] == generation)
                            <==> #[trigger] seen_before(cache, opaque, q as int, 0, p),
                self.lookup@.contains_key((0i32, 0i32)) && self.lookup@[(0i32, 0i32)] == generation
                    || q == 0,
                forall|p: Point| check_opaque.requires((p,)),
            decreases 4 - q,
        {
            let mut open: Vec<bool> = Vec::new();
            let mut n: usize = 0;
            while n < count
                invariant
                    0 <= q < 4,
                    0 <= n <= count,
                    self.generation == generation,
                    self.cache() == cache,
                    cache.wf(),
                    count == cache.node_count(),
                    open@.len() == n,
                    forall|opaque: spec_fn(Point) -> bool|
                        #[trigger] computes(check_opaque, opaque) ==> forall|m: int|
                            0 <= m < n ==> #[trigger] open@[m] == (cache.reached(
                                opaque,
                                q as int,
                                m,
                            ) && !opaque(quadrant(q as int, cache.node_point(m)))),
                    forall|p: Point| #[trigger]
                        self.lookup@.contains_key(p) ==> self.lookup@[p] <= generation,
                    forall|opaque: spec_fn(Point) -> bool|
                        #[trigger] computes(check_opaque, opaque) ==> forall|p: Point|
                            (self.lookup@.contains_key(p) && self.lookup@[p] == generation)
                                <==> #[trigger] seen_before(cache, opaque, q as int, n as int, p),
                    self.lookup@.contains_key((0i32, 0i32)) && self.lookup@[(0i32, 0i32)]
                        == generation || (q == 0 && n == 0),
                    forall|p: Point| check_opaque.requires((p,)),
                decreases count - n,
            {
                let point = self.cache.nodes[n].point;
                let parent = self.cache.nodes[n].parent;
                let reachable = n == 0 || open[parent];
                let ghost before = self.lookup@;
                assert(in_quarter_disk(cache.node_point(n as int), cache.radius()));
                if reachable {
                    let seen = to_quadrant(q, point);
                    let blocked = check_opaque(seen);
                    self.lookup.insert(seen, generation);
                    open.push(!blocked);
                    assert(n == 0 ==> seen == (0i32, 0i32));
                } else {
                    open.push(false);
                }
                assert forall|opaque: spec_fn(Point) -> bool|
                    #[trigger] computes(check_opaque, opaque) implies {
                        &&& forall|m: int|
                            0 <= m < n + 1 ==> #[trigger] open@[m] == (cache.reached(
                                opaque,
                                q as int,
                                m,
                            ) && !opaque(quadrant(q as int, cache.node_point(m))))
                        &&& forall|p: Point|
                            (self.lookup@.contains_key(p) && self.lookup@[p] == generation)
                                <==> #[trigger] seen_before(cache, opaque, q as int, n + 1, p)
                    } by {
                    assert(reachable == cache.reached(opaque, q as int, n as int));
                    assert forall|p: Point|
                        (self.lookup@.contains_key(p) && self.lookup@[p] == generation)
                            <==> #[trigger] seen_before(cache, opaque, q as int, n + 1, p) by {
                        lemma_seen_before_next(cache, opaque, q as int, n as int, p);
                    }
                }
                n = n + 1;
            }
            assert forall|opaque: spec_fn(Point) -> bool|
                #[trigger] computes(check_opaque, opaque) implies forall|p: Point|
                    (self.lookup@.contains_key(p) && self.lookup@[p] == generation)
                        <==> #[trigger] seen_before(cache, opaque, q + 1, 0, p) by {
                assert forall|p: Point|
                    (self.lookup@.contains_key(p) && self.lookup@[p] == generation)
                        <==> #[trigger] seen_before(cache, opaque, q + 1, 0, p) by {
                    lemma_seen_before_quadrant(cache, opaque, q as int, p);
                }
            }
            q = q + 1;
        }
        assert forall|opaque: spec_fn(Point) -> bool|
            #[trigger] computes(check_opaque, opaque) implies forall|p: Point|
                #[trigger] self.visible(p) <==> cache.sees(opaque, p) by {
            assert forall|p: Point| #[trigger] self.visible(p) <==> cache.sees(opaque, p) by {
                assert(self.visible(p) <==> seen_before(cache, opaque, 4, 0, p));
                if seen_before(cache, opaque, 4, 0, p) {
                    let (q2, m) = choose|q2: int, m: int|
                        0 <= q2 <= 4 && 0 <= m < cache.node_count() && (q2 < 4 || m < 0)
                            && #[trigger] cache.reached(opaque, q2, m) && quadrant(
                            q2,
                            cache.node_point(m),
                        ) == p;
                    assert(cache.sees(opaque, p));
                }
                if cache.sees(opaque, p) {
                    let (q2, m) = choose|q2: int, m: int|
                        0 <= q2 < 4 && 0 <= m < cache.node_count() && #[trigger] cache.reached(
                            opaque,
                            q2,
                            m,
                        ) && quadrant(q2, cache.node_point(m)) == p;
                    assert(seen_before(cache, opaque, 4, 0, p));
                }
            }
        }
    }

    /// Starts a refresh in which nothing is seen, for a viewer that has no
    /// place on the grid; the predicate is never asked.
    pub fn clear(&mut self)
        requires
            old(self).wf(),
        ensures
            final(self).wf(),
            final(self).cache() == old(self).cache(),
            forall|p: Point| !#[trigger] final(self).visible(p),
    {
        if self.generation == usize::MAX {
            self.lookup.clear();
            self.generation = 0;
        }
        self.generation = self.generation + 1;
        assert forall|p: Point| !#[trigger] self.visible(p) by {
            if self.lookup@.contains_key(p) {
                assert(self.lookup@[p] < self.generation);
            }
        }
    }

    /// Whether `point` (relative to the viewer) was seen in the last refresh.
    pub fn is_visible(&self, point: Point) -> (r: bool)
        ensures
            r == self.visible(point),
    {
        match self.lookup.get(&point) {
            Some(generation) => *generation == self.generation,
            None => false,
        }
    }
}

} // verus!
