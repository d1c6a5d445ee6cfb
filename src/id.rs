use vstd::prelude::*;

verus! {

/// Identity of an entity: a key into every attribute table.
#[derive(Debug, Clone, Copy, PartialEq, Eq, Structural, PartialOrd, Ord, Hash)]
pub struct Id(pub usize);

impl View for Id {
    type V = usize;

    open spec fn view(&self) -> usize {
        self.0
    }
}

/// Hands out identities in increasing order, one per call.
#[derive(Debug)]
pub struct IdGenerator {
    next: usize,
}

impl IdGenerator {
    /// The number the next identity will carry.
    pub closed spec fn upcoming(&self) -> usize {
        self.next
    }

    pub fn new() -> (r: IdGenerator)
        ensures
            r.upcoming() == 0,
    {
        IdGenerator { next: 0 }
    }

    /// A generator whose first identity is `start`.
    pub fn starting_at(start: usize) -> (r: IdGenerator)
        ensures
            r.upcoming() == start,
    {
        IdGenerator { next: start }
    }
}

impl Id {
    /// Takes the next identity from `ids`; the counter wraps as an atomic
    /// counter would.
    pub fn new(ids: &mut IdGenerator) -> (r: Id)
        ensures
            r@ == old(ids).upcoming(),
            final(ids).upcoming() == (if old(ids).upcoming() == usize::MAX {
                0
            } else {
                old(ids).upcoming() + 1
            }),
    {
        let r = Id(ids.next);
        ids.next = ids.next.wrapping_add(1);
        r
    }
}

/// Takes `id` out of a list without repeats, keeping the order of the rest.
pub fn remove_id(ids: &mut Vec<Id>, id: Id) -> (r: bool)
    requires
        old(ids)@.no_duplicates(),
    ensures
        final(ids)@.no_duplicates(),
        r == old(ids)@.contains(id),
        forall|e: Id| #[trigger] final(ids)@.contains(e) <==> (old(ids)@.contains(e) && e != id),
        !r ==> final(ids)@ == old(ids)@,
        r ==> final(ids)@.len() == old(ids)@.len() - 1,
{
    let mut j: usize = 0;
    while j < ids.len()
        invariant
            0 <= j <= ids@.len(),
            ids@ == old(ids)@,
            ids@.no_duplicates(),
            forall|k: int| 0 <= k < j ==> ids@[k] != id,
        decreases ids@.len() - j,
    {
        if ids[j] == id {
            let ghost before = ids@;
            ids.remove(j);
            assert forall|e: Id| #[trigger] ids@.contains(e) <==> (before.contains(e) && e != id) by {
                if ids@.contains(e) {
                    let k = choose|k: int| 0 <= k < ids@.len() && ids@[k] == e;
                    if k < j {
                        assert(before[k] == e);
                    } else {
                        assert(before[k + 1] == e);
                    }
                }
                if before.contains(e) && e != id {
                    let k = choose|k: int| 0 <= k < before.len() && before[k] == e;
                    if k < j {
                        assert(ids@[k] == e);
                    } else {
                        assert(ids@[k - 1] == e);
                    }
                }
            }
            return true;
        }
        j = j + 1;
    }
    false
}

/// Growing a prefix of `s` by one adds exactly the next element.
pub proof fn lemma_prefix_extend(s: Seq<Id>, j: int)
    requires
        0 <= j < s.len(),
    ensures
        forall|e: Id| #[trigger]
            s.subrange(0, j + 1).contains(e) <==> (s.subrange(0, j).contains(e) || e == s[j]),
        s.no_duplicates() ==> !s.subrange(0, j).contains(s[j]),
{
    let sub0 = s.subrange(0, j);
    let sub1 = s.subrange(0, j + 1);
    assert forall|e: Id| #[trigger] sub1.contains(e) <==> (sub0.contains(e) || e == s[j]) by {
        if sub1.contains(e) {
            let i = choose|i: int| 0 <= i < sub1.len() && sub1[i] == e;
            if i < j {
                assert(sub0[i] == e);
            }
        }
        if sub0.contains(e) {
            let i = choose|i: int| 0 <= i < sub0.len() && sub0[i] == e;
            assert(sub1[i] == e);
        }
        if e == s[j] {
            assert(sub1[j] == e);
        }
    }
    if s.no_duplicates() && sub0.contains(s[j]) {
        let i = choose|i: int| 0 <= i < sub0.len() && sub0[i] == s[j];
        assert(s[i] == s[j]);
    }
}

} // verus!
