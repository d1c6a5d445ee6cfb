use vstd::prelude::*;
use std::collections::BTreeMap;
use crate::grid::Point;
use crate::id::{remove_id, Id};

verus! {

/// Where every entity is: each entity has at most one cell, and a cell may
/// hold many entities. Both directions are kept and always agree.
pub struct SpatialMap {
    by_id: BTreeMap<usize, Point>,
    by_coordinate: BTreeMap<(i32, i32), Vec<Id>>,
}

impl SpatialMap {
    /// The cell of each placed entity, by identity number.
    pub closed spec fn positions(&self) -> Map<usize, Point> {
        self.by_id@
    }

    /// The entities recorded in cell `c`.
    pub closed spec fn occupants(&self, c: Point) -> Set<Id> {
        if self.by_coordinate@.contains_key(c) {
            self.by_coordinate@[c]@.to_set()
        } else {
            Set::empty()
        }
    }

    /// The entities of cell `c`, in the order they arrived there.
    pub closed spec fn cell(&self, c: Point) -> Seq<Id> {
        if self.by_coordinate@.contains_key(c) {
            self.by_coordinate@[c]@
        } else {
            Seq::empty()
        }
    }

    /// Entity `e` is placed in cell `c`.
    pub open spec fn located(&self, e: Id, c: Point) -> bool {
        self.positions().contains_key(e@) && self.positions()[e@] == c
    }

    pub closed spec fn wf(&self) -> bool {
        &&& forall|c: Point| #[trigger]
            self.by_coordinate@.contains_key(c) ==> {
                let ids = self.by_coordinate@[c]@;
                &&& ids.len() > 0
                &&& ids.no_duplicates()
                &&& forall|j: int|
                    0 <= j < ids.len() ==> self.by_id@.contains_key(#[trigger] ids[j]@)
                        && self.by_id@[ids[j]@] == c
            }
        &&& forall|i: usize| #[trigger]
            self.by_id@.contains_key(i) ==> self.by_coordinate@.contains_key(self.by_id@[i])
                && self.by_coordinate@[self.by_id@[i]]@.contains(Id(i))
    }

    /// An empty map.
    pub fn new() -> (r: SpatialMap)
        ensures
            r.wf(),
            r.positions() == Map::<usize, Point>::empty(),
    {
        SpatialMap { by_id: BTreeMap::new(), by_coordinate: BTreeMap::new() }
    }

    /// The cell of `id`, if it has one.
    pub fn get(&self, id: &Id) -> (r: Option<&Point>)
        ensures
            match r {
                Some(c) => self.located(*id, *c),
                None => !self.positions().contains_key(id@),
            },
    {
        self.by_id.get(&id.0)
    }

    /// The entities in cell `coordinate`; `None` when there are none.
    pub fn at(&self, coordinate: Point) -> (r: Option<&Vec<Id>>)
        requires
            self.wf(),
        ensures
            match r {
                Some(ids) => {
                    &&& ids@.len() > 0
                    &&& ids@.no_duplicates()
                    &&& ids@.to_set() == self.occupants(coordinate)
                    &&& ids@ == self.cell(coordinate)
                },
                None => self.occupants(coordinate) == Set::<Id>::empty() && self.cell(coordinate)
                    == Seq::<Id>::empty(),
            },
    {
        self.by_coordinate.get(&coordinate)
    }

    /// Places `id` in `coordinate`, taking it out of its previous cell;
    /// returns that previous cell.
    pub fn insert(&mut self, id: Id, coordinate: Point) -> (r: Option<Point>)
        requires
            old(self).wf(),
        ensures
            final(self).wf(),
            final(self).positions() == old(self).positions().insert(id@, coordinate),
            r == old(self).positions().get(id@),
    {
        let previous = self.remove(&id);
        self.by_id.insert(id.0, coordinate);
        let ghost mid = self.by_coordinate@;
        let ids = match self.by_coordinate.remove(&coordinate) {
            Some(ids) => ids,
            None => Vec::new(),
        };
        let mut ids = ids;
        assert(!ids@.contains(id));
        ids.push(id);
        self.by_coordinate.insert(coordinate, ids);
        assert forall|c: Point| #[trigger] self.by_coordinate@.contains_key(c) implies {
            let ids = self.by_coordinate@[c]@;
            &&& ids.len() > 0
            &&& ids.no_duplicates()
            &&& forall|j: int|
                0 <= j < ids.len() ==> self.by_id@.contains_key(#[trigger] ids[j]@)
                    && self.by_id@[ids[j]@] == c
        } by {
            let ids = self.by_coordinate@[c]@;
            if c == coordinate {
                assert forall|j: int| 0 <= j < ids.len() implies self.by_id@.contains_key(
                    #[trigger] ids[j]@,
                ) && self.by_id@[ids[j]@] == c by {
                    if j < ids.len() - 1 {
                        assert(mid.contains_key(c));
                    }
                }
            } else {
                assert(mid.contains_key(c));
                assert forall|j: int| 0 <= j < ids.len() implies self.by_id@.contains_key(
                    #[trigger] ids[j]@,
                ) && self.by_id@[ids[j]@] == c by {
                    assert(ids[j]@ != id@);
                }
            }
        }
        assert forall|i: usize| #[trigger] self.by_id@.contains_key(i) implies self.by_coordinate@.contains_key(
            self.by_id@[i],
        ) && self.by_coordinate@[self.by_id@[i]]@.contains(Id(i)) by {
            if i == id.0 {
                assert(self.by_coordinate@[coordinate]@.last() == id);
            } else {
                let c = self.by_id@[i];
                assert(mid.contains_key(c) && mid[c]@.contains(Id(i)));
                if c == coordinate {
                    let k = choose|k: int| 0 <= k < mid[c]@.len() && mid[c]@[k] == Id(i);
                    assert(self.by_coordinate@[c]@[k] == Id(i));
                }
            }
        }
        previous
    }

    /// Takes `id` out of the map; returns the cell it had.
    pub fn remove(&mut self, id: &Id) -> (r: Option<Point>)
        requires
            old(self).wf(),
        ensures
            final(self).wf(),
            final(self).positions() == old(self).positions().remove(id@),
            r == old(self).positions().get(id@),
    {
        let coordinate = self.by_id.remove(&id.0);
        if let Some(coordinate) = coordinate {
            let ghost mid = self.by_coordinate@;
            if let Some(mut ids) = self.by_coordinate.remove(&coordinate) {
                let ghost before = ids@;
                remove_id(&mut ids, *id);
                if ids.len() > 0 {
                    self.by_coordinate.insert(coordinate, ids);
                }
                assert forall|c: Point| #[trigger] self.by_coordinate@.contains_key(c) implies {
                    let ids = self.by_coordinate@[c]@;
                    &&& ids.len() > 0
                    &&& ids.no_duplicates()
                    &&& forall|j: int|
                        0 <= j < ids.len() ==> self.by_id@.contains_key(#[trigger] ids[j]@)
                            && self.by_id@[ids[j]@] == c
                } by {
                    let ids = self.by_coordinate@[c]@;
                    assert(mid.contains_key(c));
                    assert forall|j: int| 0 <= j < ids.len() implies self.by_id@.contains_key(
                        #[trigger] ids[j]@,
                    ) && self.by_id@[ids[j]@] == c by {
                        if c == coordinate {
                            assert(ids.contains(ids[j]));
                            assert(before.contains(ids[j]));
                            let k = choose|k: int| 0 <= k < before.len() && before[k] == ids[j];
                            assert(mid[c]@[k] == ids[j]);
                        } else {
                            assert(mid[c]@[j] == ids[j]);
                            if ids[j]@ == id@ {
                                assert(old(self).by_id@[id@] == coordinate);
                            }
                        }
                    }
                }
                assert forall|i: usize| #[trigger] self.by_id@.contains_key(i) implies self.by_coordinate@.contains_key(
                    self.by_id@[i],
                ) && self.by_coordinate@[self.by_id@[i]]@.contains(Id(i)) by {
                    let c = self.by_id@[i];
                    assert(mid.contains_key(c) && mid[c]@.contains(Id(i)));
                    if c == coordinate {
                        assert(Id(i) != *id);
                        assert(self.by_coordinate@.contains_key(c) || !before.contains(Id(i)));
                    }
                }
            }
        }
        coordinate
    }
}

/// The ordered contents of a cell hold each of its occupants once.
pub proof fn lemma_cell_members(map: SpatialMap, c: Point)
    requires
        map.wf(),
    ensures
        map.cell(c).no_duplicates(),
        map.cell(c).to_set() == map.occupants(c),
        forall|e: Id| #[trigger] map.cell(c).contains(e) <==> map.located(e, c),
{
    assert(map.cell(c).to_set() =~= map.occupants(c));
    assert forall|e: Id| #[trigger] map.cell(c).contains(e) <==> map.located(e, c) by {
        lemma_spatial_consistency(map, e, c);
        assert(map.cell(c).contains(e) <==> map.occupants(c).contains(e));
    }
}

/// For every sequence of insertions and removals the two directions agree:
/// cell `c` holds entity `e` exactly when `c` is the cell recorded for `e`.
pub proof fn lemma_spatial_consistency(map: SpatialMap, e: Id, c: Point)
    requires
        map.wf(),
    ensures
        map.occupants(c).contains(e) <==> map.located(e, c),
{
    if map.occupants(c).contains(e) {
        let ids = map.by_coordinate@[c]@;
        let k = choose|k: int| 0 <= k < ids.len() && ids[k] == e;
        assert(map.by_id@.contains_key(ids[k]@));
    }
    if map.located(e, c) {
        assert(map.by_id@.contains_key(e@));
        assert(Id(e@) == e);
        assert(map.by_coordinate@[c]@.contains(e));
    }
}

impl Default for SpatialMap {
    fn default() -> (r: SpatialMap)
        ensures
            r.wf(),
            r.positions() == Map::<usize, Point>::empty(),
    {
        SpatialMap::new()
    }
}

} // verus!
