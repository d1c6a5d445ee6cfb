use vstd::prelude::*;
use std::collections::{BTreeMap, BTreeSet};
use vstd::std_specs::iter::IteratorSpec;
use crate::id::{remove_id, Id};

verus! {

/// Values that executable code can compare.
pub trait Comparable: Sized {
    /// `self` and `other` count as the same value.
    spec fn same(&self, other: &Self) -> bool;

    fn is_same(&self, other: &Self) -> (r: bool)
        ensures
            r == self.same(other),
    ;
}

/// The identities whose numbers are the keys of `m`, each once.
fn ids_of<V>(m: &BTreeMap<usize, V>) -> (r: Vec<Id>)
    ensures
        forall|e: Id| #[trigger] r@.contains(e) <==> m@.contains_key(e@),
        r@.no_duplicates(),
{
    let mut r: Vec<Id> = Vec::new();
    for k in it: m.keys()
        invariant
            r@.len() == it.index(),
            forall|i: int| 0 <= i < it.index() ==> r@[i] == Id(*it.seq()[i]),
    {
        r.push(Id(*k));
    }
    let ghost keys = m.keys().remaining().unref();
    assert(r@.len() == keys.len());
    assert forall|e: Id| #[trigger] r@.contains(e) <==> m@.contains_key(e@) by {
        if r@.contains(e) {
            let i = choose|i: int| 0 <= i < r@.len() && r@[i] == e;
            assert(keys[i] == e@);
            assert(keys.contains(e@));
            assert(keys.to_set().contains(e@));
        }
        if m@.contains_key(e@) {
            assert(keys.to_set().contains(e@));
            let i = choose|i: int| 0 <= i < keys.len() && keys[i] == e@;
            assert(r@[i] == e);
        }
    }
    assert forall|i: int, j: int| 0 <= i < j < r@.len() implies r@[i] != r@[j] by {
        assert(keys[i] != keys[j]);
    }
    r
}

/// A flag that each entity has or has not.
pub struct Is {
    set: BTreeSet<usize>,
}

impl Is {
    /// The numbers of the entities that have the flag.
    pub closed spec fn members(&self) -> Set<usize> {
        self.set@
    }

    pub fn new() -> (r: Is)
        ensures
            r.members() == Set::<usize>::empty(),
    {
        Is { set: BTreeSet::new() }
    }

    pub fn contains(&self, value: &Id) -> (r: bool)
        ensures
            r == self.members().contains(value@),
    {
        self.set.contains(&value.0)
    }

    /// `value` itself when it has the flag.
    pub fn get(&self, value: &Id) -> (r: Option<Id>)
        ensures
            r == (if self.members().contains(value@) {
                Some(*value)
            } else {
                None::<Id>
            }),
    {
        if self.set.contains(&value.0) {
            Some(*value)
        } else {
            None
        }
    }

    /// Gives `value` the flag; true when it did not have it.
    pub fn insert(&mut self, value: Id) -> (r: bool)
        ensures
            final(self).members() == old(self).members().insert(value@),
            r == !old(self).members().contains(value@),
    {
        self.set.insert(value.0)
    }

    /// Takes the flag from `value`; true when it had it.
    pub fn remove(&mut self, value: &Id) -> (r: bool)
        ensures
            final(self).members() == old(self).members().remove(value@),
            r == old(self).members().contains(value@),
    {
        self.set.remove(&value.0)
    }
}

/// Relies on `BTreeMap::get_mut`: a mutable reference to the value stored
/// under `key`, through which the map sees every later write.
#[verifier::external_body]
fn value_mut<'a, R>(map: &'a mut BTreeMap<usize, R>, key: usize) -> (r: Option<&'a mut R>)
    ensures
        match r {
            Some(v) => {
                &&& old(map)@.contains_key(key)
                &&& *v == old(map)@[key]
                &&& final(map)@ == old(map)@.insert(key, *final(v))
            },
            None => !old(map)@.contains_key(key) && final(map)@ == old(map)@,
        },
{
    map.get_mut(&key)
}

/// An attribute that each entity has at most one of.
pub struct HasOne<R> {
    map: BTreeMap<usize, R>,
}

impl<R> HasOne<R> {
    /// The attribute of each entity that has one, by identity number.
    pub closed spec fn values(&self) -> Map<usize, R> {
        self.map@
    }

    pub fn new() -> (r: HasOne<R>)
        ensures
            r.values() == Map::<usize, R>::empty(),
    {
        HasOne { map: BTreeMap::new() }
    }

    pub fn get(&self, left: &Id) -> (r: Option<&R>)
        ensures
            match r {
                Some(v) => self.values().contains_key(left@) && *v == self.values()[left@],
                None => !self.values().contains_key(left@),
            },
    {
        self.map.get(&left.0)
    }

    pub fn contains_key(&self, left: &Id) -> (r: bool)
        ensures
            r == self.values().contains_key(left@),
    {
        self.map.contains_key(&left.0)
    }

    /// The attribute of `left`, to change in place.
    pub fn get_mut(&mut self, left: &Id) -> (r: Option<&mut R>)
        ensures
            match r {
                Some(v) => {
                    &&& old(self).values().contains_key(left@)
                    &&& *v == old(self).values()[left@]
                    &&& final(self).values() == old(self).values().insert(left@, *final(v))
                },
                None => !old(self).values().contains_key(left@) && final(self).values() == old(
                    self,
                ).values(),
            },
    {
        value_mut(&mut self.map, left.0)
    }

    /// Sets the attribute of `left`; returns the one it replaced.
    pub fn insert(&mut self, left: Id, right: R) -> (r: Option<R>)
        ensures
            final(self).values() == old(self).values().insert(left@, right),
            r == old(self).values().get(left@),
    {
        self.map.insert(left.0, right)
    }

    /// Takes the attribute away from `left`; returns it.
    pub fn remove(&mut self, left: &Id) -> (r: Option<R>)
        ensures
            final(self).values() == old(self).values().remove(left@),
            r == old(self).values().get(left@),
    {
        self.map.remove(&left.0)
    }

    /// The entities that have the attribute, each once.
    pub fn keys(&self) -> (r: Vec<Id>)
        ensures
            forall|e: Id| #[trigger] r@.contains(e) <==> self.values().contains_key(e@),
            r@.no_duplicates(),
    {
        ids_of(&self.map)
    }
}

/// No value of `s` is the same as a later one.
pub open spec fn distinct<R: Comparable>(s: Seq<R>) -> bool {
    forall|i: int, j: int| #![trigger s[i], s[j]] 0 <= i < j < s.len() ==> !s[i].same(&s[j])
}

/// An attribute that each entity may have several of, kept in the order
/// they were added, never twice the same.
pub struct HasMany<R> {
    map: BTreeMap<usize, Vec<R>>,
}

impl<R: Comparable> HasMany<R> {
    /// The values of each entity that has some, by identity number.
    pub closed spec fn values(&self) -> Map<usize, Seq<R>> {
        self.map@.map_values(|v: Vec<R>| v@)
    }

    pub closed spec fn wf(&self) -> bool {
        forall|k: usize| #[trigger]
            self.map@.contains_key(k) ==> self.map@[k]@.len() > 0 && distinct(self.map@[k]@)
    }

    pub fn new() -> (r: HasMany<R>)
        ensures
            r.wf(),
            r.values() == Map::<usize, Seq<R>>::empty(),
    {
        let r = HasMany { map: BTreeMap::new() };
        assert(r.values() =~= Map::<usize, Seq<R>>::empty());
        r
    }

    pub fn get(&self, left: &Id) -> (r: Option<&Vec<R>>)
        ensures
            match r {
                Some(v) => self.values().contains_key(left@) && v@ == self.values()[left@],
                None => !self.values().contains_key(left@),
            },
    {
        self.map.get(&left.0)
    }

    pub fn contains_key(&self, left: &Id) -> (r: bool)
        ensures
            r == self.values().contains_key(left@),
    {
        self.map.contains_key(&left.0)
    }

    /// Adds `right` to the values of `left`, unless one the same is there;
    /// true when it was added.
    pub fn insert(&mut self, left: Id, right: R) -> (r: bool)
        requires
            old(self).wf(),
        ensures
            final(self).wf(),
            r == !(old(self).values().contains_key(left@) && exists|j: int|
                0 <= j < old(self).values()[left@].len() && (
                #[trigger] old(self).values()[left@][j]).same(&right)),
            r ==> final(self).values() == old(self).values().insert(
                left@,
                (if old(self).values().contains_key(left@) {
                    old(self).values()[left@]
                } else {
                    Seq::<R>::empty()
                }).push(right),
            ),
            !r ==> final(self).values() == old(self).values(),
    {
        let ghost before = self.map@;
        let mut rights = match self.map.remove(&left.0) {
            Some(rights) => rights,
            None => Vec::new(),
        };
        let mut j: usize = 0;
        while j < rights.len()
            invariant
                0 <= j <= rights@.len(),
                forall|i: int| 0 <= i < j ==> !(#[trigger] rights@[i]).same(&right),
                before == old(self).map@,
                old(self).wf(),
                self.map@ == before.remove(left@),
                before.contains_key(left@) ==> rights == before[left@],
                !before.contains_key(left@) ==> rights@.len() == 0,
            decreases rights@.len() - j,
        {
            if rights[j].is_same(&right) {
                assert(old(self).values().contains_key(left@));
                assert(old(self).values()[left@] == rights@);
                assert(old(self).values()[left@][j as int].same(&right));
                self.map.insert(left.0, rights);
                assert(self.map@ =~= before);
                return false;
            }
            j = j + 1;
        }
        proof {
            if before.contains_key(left@) {
                assert(old(self).values()[left@] == rights@);
            }
        }
        rights.push(right);
        self.map.insert(left.0, rights);
        proof {
            let empty_or = if before.contains_key(left@) {
                before[left@]@
            } else {
                Seq::<R>::empty()
            };
            assert(self.values() =~= old(self).values().insert(left@, empty_or.push(right)));
            assert forall|k: usize| #[trigger] self.map@.contains_key(k) implies self.map@[k]@.len()
                > 0 && distinct(self.map@[k]@) by {
                if k == left@ {
                    let s = self.map@[k]@;
                    assert forall|a: int, b: int| #![trigger s[a], s[b]] 0 <= a < b < s.len() implies !s[a].same(&s[b]) by {
                        if b < s.len() - 1 {
                            assert(before.contains_key(k));
                        }
                    }
                }
            }
        }
        true
    }

    /// Takes all values away from `left`; returns them.
    pub fn remove_by_left(&mut self, left: &Id) -> (r: Option<Vec<R>>)
        requires
            old(self).wf(),
        ensures
            final(self).wf(),
            final(self).values() == old(self).values().remove(left@),
            match r {
                Some(v) => old(self).values().contains_key(left@) && v@ == old(
                    self,
                ).values()[left@],
                None => !old(self).values().contains_key(left@),
            },
    {
        let r = self.map.remove(&left.0);
        assert(self.values() =~= old(self).values().remove(left@));
        r
    }

    /// Takes from `left` the first of its values that is the same as `right`,
    /// forgetting `left` when none remain; true when one was taken.
    pub fn remove_by_right(&mut self, left: &Id, right: &R) -> (r: bool)
        requires
            old(self).wf(),
        ensures
            final(self).wf(),
            r == (old(self).values().contains_key(left@) && exists|j: int|
                0 <= j < old(self).values()[left@].len() && (
                #[trigger] old(self).values()[left@][j]).same(right)),
            !r ==> final(self).values() == old(self).values(),
            r ==> exists|j: int|
                {
                    &&& 0 <= j < old(self).values()[left@].len()
                    &&& (#[trigger] old(self).values()[left@][j]).same(right)
                    &&& forall|i: int|
                        0 <= i < j ==> !(#[trigger] old(self).values()[left@][i]).same(right)
                    &&& if old(self).values()[left@].len() == 1 {
                        final(self).values() == old(self).values().remove(left@)
                    } else {
                        final(self).values() == old(self).values().insert(
                            left@,
                            old(self).values()[left@].remove(j),
                        )
                    }
                },
    {
        let ghost before = self.map@;
        let mut rights = match self.map.remove(&left.0) {
            Some(rights) => rights,
            None => {
                assert(self.map@ =~= before);
                return false;
            },
        };
        let ghost s = rights@;
        assert(old(self).values()[left@] == s);
        let mut j: usize = 0;
        while j < rights.len()
            invariant
                0 <= j <= rights@.len(),
                rights@ == s,
                forall|i: int| 0 <= i < j ==> !(#[trigger] rights@[i]).same(right),
                before == old(self).map@,
                old(self).wf(),
                self.map@ == before.remove(left@),
                before.contains_key(left@),
                rights == before[left@],
            decreases rights@.len() - j,
        {
            if rights[j].is_same(right) {
                rights.remove(j);
                if rights.len() > 0 {
                    self.map.insert(left.0, rights);
                    proof {
                        assert(self.values() =~= old(self).values().insert(left@, s.remove(j as int)));
                        assert forall|k: usize| #[trigger] self.map@.contains_key(k) implies self.map@[k]@.len()
                            > 0 && distinct(self.map@[k]@) by {
                            if k == left@ {
                                let t = self.map@[k]@;
                                assert forall|a: int, b: int| #![trigger t[a], t[b]] 0 <= a < b < t.len() implies !t[a].same(&t[b]) by {
                                    if a < j && b < j {
                                        assert(s[a] == t[a] && s[b] == t[b]);
                                    } else if a < j {
                                        assert(s[a] == t[a] && s[b + 1] == t[b]);
                                    } else {
                                        assert(s[a + 1] == t[a] && s[b + 1] == t[b]);
                                    }
                                }
                            }
                        }
                    }
                } else {
                    assert(self.values() =~= old(self).values().remove(left@));
                }
                assert(s[j as int].same(right));
                assert(old(self).values()[left@][j as int].same(right));
                return true;
            }
            j = j + 1;
        }
        self.map.insert(left.0, rights);
        assert(self.map@ =~= before);
        false
    }
}

/// Many entities each tied to at most one other (an item to its holder);
/// both directions are kept and always agree.
pub struct ManyToOne {
    by_left: BTreeMap<usize, Id>,
    by_right: BTreeMap<usize, Vec<Id>>,
}

impl ManyToOne {
    /// The entity each tied entity is tied to, by identity number.
    pub closed spec fn rights(&self) -> Map<usize, Id> {
        self.by_left@
    }

    /// The entities recorded as tied to `right`.
    pub closed spec fn lefts(&self, right: Id) -> Set<Id> {
        if self.by_right@.contains_key(right@) {
            self.by_right@[right@]@.to_set()
        } else {
            Set::empty()
        }
    }

    /// The entities tied to `right`, in the order they were tied.
    pub closed spec fn lefts_in_order(&self, right: Id) -> Seq<Id> {
        if self.by_right@.contains_key(right@) {
            self.by_right@[right@]@
        } else {
            Seq::empty()
        }
    }

    /// `left` is tied to `right`.
    pub open spec fn tied(&self, left: Id, right: Id) -> bool {
        self.rights().contains_key(left@) && self.rights()[left@] == right
    }

    pub closed spec fn wf(&self) -> bool {
        &&& forall|r: usize| #[trigger]
            self.by_right@.contains_key(r) ==> {
                let ids = self.by_right@[r]@;
                &&& ids.len() > 0
                &&& ids.no_duplicates()
                &&& forall|j: int|
                    0 <= j < ids.len() ==> self.by_left@.contains_key(#[trigger] ids[j]@)
                        && self.by_left@[ids[j]@] == Id(r)
            }
        &&& forall|i: usize| #[trigger]
            self.by_left@.contains_key(i) ==> self.by_right@.contains_key(self.by_left@[i]@)
                && self.by_right@[self.by_left@[i]@]@.contains(Id(i))
    }

    pub fn new() -> (r: ManyToOne)
        ensures
            r.wf(),
            r.rights() == Map::<usize, Id>::empty(),
    {
        ManyToOne { by_left: BTreeMap::new(), by_right: BTreeMap::new() }
    }

    pub fn get_right(&self, left: &Id) -> (r: Option<&Id>)
        ensures
            match r {
                Some(right) => self.tied(*left, *right),
                None => !self.rights().contains_key(left@),
            },
    {
        self.by_left.get(&left.0)
    }

    /// The entities tied to `right`, in the order they were tied; `None`
    /// when there are none.
    pub fn get_lefts(&self, right: &Id) -> (r: Option<&Vec<Id>>)
        requires
            self.wf(),
        ensures
            match r {
                Some(ids) => {
                    &&& ids@.len() > 0
                    &&& ids@.no_duplicates()
                    &&& ids@.to_set() == self.lefts(*right)
                    &&& ids@ == self.lefts_in_order(*right)
                },
                None => self.lefts(*right) == Set::<Id>::empty() && self.lefts_in_order(*right)
                    == Seq::<Id>::empty(),
            },
    {
        self.by_right.get(&right.0)
    }

    /// Ties `left` to `right`, untying it from its previous one; returns
    /// that previous one.
    pub fn insert(&mut self, left: Id, right: Id) -> (r: Option<Id>)
        requires
            old(self).wf(),
        ensures
            final(self).wf(),
            final(self).rights() == old(self).rights().insert(left@, right),
            r == old(self).rights().get(left@),
    {
        let previous = self.remove_by_left(&left);
        self.by_left.insert(left.0, right);
        let ghost mid = self.by_right@;
        let lefts = match self.by_right.remove(&right.0) {
            Some(lefts) => lefts,
            None => Vec::new(),
        };
        let mut lefts = lefts;
        assert(!lefts@.contains(left));
        lefts.push(left);
        self.by_right.insert(right.0, lefts);
        assert forall|r: usize| #[trigger] self.by_right@.contains_key(r) implies {
            let ids = self.by_right@[r]@;
            &&& ids.len() > 0
            &&& ids.no_duplicates()
            &&& forall|j: int|
                0 <= j < ids.len() ==> self.by_left@.contains_key(#[trigger] ids[j]@)
                    && self.by_left@[ids[j]@] == Id(r)
        } by {
            let ids = self.by_right@[r]@;
            if r == right.0 {
                assert forall|j: int| 0 <= j < ids.len() implies self.by_left@.contains_key(
                    #[trigger] ids[j]@,
                ) && self.by_left@[ids[j]@] == Id(r) by {
                    if j < ids.len() - 1 {
                        assert(mid.contains_key(r));
                    }
                }
            } else {
                assert(mid.contains_key(r));
                assert forall|j: int| 0 <= j < ids.len() implies self.by_left@.contains_key(
                    #[trigger] ids[j]@,
                ) && self.by_left@[ids[j]@] == Id(r) by {
                    assert(ids[j]@ != left@);
                }
            }
        }
        assert forall|i: usize| #[trigger] self.by_left@.contains_key(i) implies self.by_right@.contains_key(
            self.by_left@[i]@,
        ) && self.by_right@[self.by_left@[i]@]@.contains(Id(i)) by {
            if i == left.0 {
                assert(self.by_right@[right@]@.last() == left);
            } else {
                let c = self.by_left@[i]@;
                assert(mid.contains_key(c) && mid[c]@.contains(Id(i)));
                if c == right@ {
                    let k = choose|k: int| 0 <= k < mid[c]@.len() && mid[c]@[k] == Id(i);
                    assert(self.by_right@[c]@[k] == Id(i));
                }
            }
        }
        previous
    }

    /// Unties `left`; returns what it was tied to.
    pub fn remove_by_left(&mut self, left: &Id) -> (r: Option<Id>)
        requires
            old(self).wf(),
        ensures
            final(self).wf(),
            final(self).rights() == old(self).rights().remove(left@),
            r == old(self).rights().get(left@),
    {
        let right = self.by_left.remove(&left.0);
        if let Some(right) = right {
            let ghost mid = self.by_right@;
            if let Some(mut lefts) = self.by_right.remove(&right.0) {
                let ghost before = lefts@;
                remove_id(&mut lefts, *left);
                if lefts.len() > 0 {
                    self.by_right.insert(right.0, lefts);
                }
                assert forall|r: usize| #[trigger] self.by_right@.contains_key(r) implies {
                    let ids = self.by_right@[r]@;
                    &&& ids.len() > 0
                    &&& ids.no_duplicates()
                    &&& forall|j: int|
                        0 <= j < ids.len() ==> self.by_left@.contains_key(#[trigger] ids[j]@)
                            && self.by_left@[ids[j]@] == Id(r)
                } by {
                    let ids = self.by_right@[r]@;
                    assert(mid.contains_key(r));
                    assert forall|j: int| 0 <= j < ids.len() implies self.by_left@.contains_key(
                        #[trigger] ids[j]@,
                    ) && self.by_left@[ids[j]@] == Id(r) by {
                        if r == right@ {
                            assert(ids.contains(ids[j]));
                            assert(before.contains(ids[j]));
                            let k = choose|k: int| 0 <= k < before.len() && before[k] == ids[j];
                            assert(mid[r]@[k] == ids[j]);
                        } else {
                            assert(mid[r]@[j] == ids[j]);
                            if ids[j]@ == left@ {
                                assert(old(self).by_left@[left@] == right);
                            }
                        }
                    }
                }
                assert forall|i: usize| #[trigger] self.by_left@.contains_key(i) implies self.by_right@.contains_key(
                    self.by_left@[i]@,
                ) && self.by_right@[self.by_left@[i]@]@.contains(Id(i)) by {
                    let c = self.by_left@[i]@;
                    assert(mid.contains_key(c) && mid[c]@.contains(Id(i)));
                    if c == right@ {
                        assert(Id(i) != *left);
                        assert(self.by_right@.contains_key(c) || !before.contains(Id(i)));
                    }
                }
            }
        }
        right
    }

    /// Unties every entity tied to `right`; returns them.
    pub fn remove_by_right(&mut self, right: &Id) -> (r: Option<Vec<Id>>)
        requires
            old(self).wf(),
        ensures
            final(self).wf(),
            final(self).rights() == old(self).rights().restrict(
                old(self).rights().dom().filter(|l: usize| old(self).rights()[l] != *right),
            ),
            match r {
                Some(ids) => ids@.len() > 0 && ids@.to_set() == old(self).lefts(*right),
                None => old(self).lefts(*right) == Set::<Id>::empty(),
            },
    {
        let previous_lefts = self.by_right.remove(&right.0);
        let ghost target = old(self).rights().restrict(
            old(self).rights().dom().filter(|l: usize| old(self).rights()[l] != *right),
        );
        if let Some(ref lefts) = previous_lefts {
            let ghost ids = lefts@;
            let mut j: usize = 0;
            while j < lefts.len()
                invariant
                    0 <= j <= ids.len(),
                    lefts@ == ids,
                    ids.no_duplicates(),
                    forall|k: int| 0 <= k < ids.len() ==> old(self).by_left@.contains_key(#[trigger] ids[k]@)
                        && old(self).by_left@[ids[k]@] == *right,
                    forall|i: usize| #[trigger] self.by_left@.contains_key(i) <==> (
                        old(self).by_left@.contains_key(i) && !ids.subrange(0, j as int).contains(Id(i))),
                    forall|i: usize| #[trigger] self.by_left@.contains_key(i) ==> self.by_left@[i] == old(self).by_left@[i],
                    self.by_right@ == old(self).by_right@.remove(right@),
                decreases ids.len() - j,
            {
                let ghost before = self.by_left@;
                self.by_left.remove(&lefts[j].0);
                let ghost sub0 = ids.subrange(0, j as int);
                let ghost sub1 = ids.subrange(0, j + 1);
                assert(sub1[j as int] == ids[j as int]);
                assert(self.by_left@ == before.remove(ids[j as int]@));
                assert forall|i: usize| #[trigger] self.by_left@.contains_key(i) <==> (
                    old(self).by_left@.contains_key(i) && !sub1.contains(Id(i))) by {
                    if i == ids[j as int]@ {
                        assert(Id(i) == ids[j as int]);
                        assert(sub1.contains(Id(i)));
                    }
                    if sub0.contains(Id(i)) {
                        let k = choose|k: int| 0 <= k < sub0.len() && sub0[k] == Id(i);
                        assert(sub1[k] == Id(i));
                    }
                    if sub1.contains(Id(i)) {
                        let k = choose|k: int| 0 <= k < sub1.len() && sub1[k] == Id(i);
                        if k < j {
                            assert(sub0[k] == Id(i));
                        } else {
                            assert(ids[j as int] == Id(i));
                        }
                    }
                }
                j = j + 1;
            }
            assert(ids.subrange(0, ids.len() as int) == ids);
            proof {
                assert(old(self).by_right@.contains_key(right@));
                assert forall|i: usize| #[trigger] self.by_left@.contains_key(i) <==> target.contains_key(i) by {
                    if old(self).by_left@.contains_key(i) && old(self).by_left@[i] == *right {
                        assert(old(self).by_right@[right@]@.contains(Id(i)));
                    }
                    if ids.contains(Id(i)) {
                        let k = choose|k: int| 0 <= k < ids.len() && ids[k] == Id(i);
                        assert(old(self).by_left@[ids[k]@] == *right);
                    }
                }
                assert(self.by_left@ =~= target);
            }
        } else {
            proof {
                assert forall|i: usize| #[trigger] old(self).by_left@.contains_key(i) implies old(self).by_left@[i] != *right by {
                    assert(old(self).by_right@.contains_key(old(self).by_left@[i]@));
                }
                assert(self.by_left@ =~= target);
            }
        }
        proof {
            assert forall|r: usize| #[trigger] self.by_right@.contains_key(r) implies {
                let ids = self.by_right@[r]@;
                &&& ids.len() > 0
                &&& ids.no_duplicates()
                &&& forall|j: int|
                    0 <= j < ids.len() ==> self.by_left@.contains_key(#[trigger] ids[j]@)
                        && self.by_left@[ids[j]@] == Id(r)
            } by {
                let ids = self.by_right@[r]@;
                assert forall|j: int| 0 <= j < ids.len() implies self.by_left@.contains_key(
                    #[trigger] ids[j]@,
                ) && self.by_left@[ids[j]@] == Id(r) by {
                    assert(old(self).by_left@.contains_key(ids[j]@));
                    assert(target.contains_key(ids[j]@));
                }
            }
            assert forall|i: usize| #[trigger] self.by_left@.contains_key(i) implies self.by_right@.contains_key(
                self.by_left@[i]@,
            ) && self.by_right@[self.by_left@[i]@]@.contains(Id(i)) by {
                assert(target.contains_key(i));
            }
        }
        previous_lefts
    }
}

impl Default for Is {
    fn default() -> (r: Is)
        ensures
            r.members() == Set::<usize>::empty(),
    {
        Is::new()
    }
}

impl<R> Default for HasOne<R> {
    fn default() -> (r: HasOne<R>)
        ensures
            r.values() == Map::<usize, R>::empty(),
    {
        HasOne::new()
    }
}

impl<R: Comparable> Default for HasMany<R> {
    fn default() -> (r: HasMany<R>)
        ensures
            r.wf(),
            r.values() == Map::<usize, Seq<R>>::empty(),
    {
        HasMany::new()
    }
}

impl Default for ManyToOne {
    fn default() -> (r: ManyToOne)
        ensures
            r.wf(),
            r.rights() == Map::<usize, Id>::empty(),
    {
        ManyToOne::new()
    }
}

} // verus!
