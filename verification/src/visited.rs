//! The identifiers met during a walk.

use crate::cid::Cid;
use crate::cid_set::cid_views;
use vstd::hash_map::StringHashMap;
use vstd::prelude::*;
use vstd::seq_lib::seq_to_set_is_finite;

verus! {

/// The identifiers met during a walk, each once, in the order in which they
/// were first met.
pub struct Visited {
    order: Vec<Cid>,
    index: StringHashMap<()>,
}

impl View for Visited {
    type V = Set<Seq<char>>;

    open spec fn view(&self) -> Set<Seq<char>> {
        self.seq().to_set()
    }
}

impl Visited {
    /// The identifiers in the order in which they were first met.
    pub closed spec fn seq(&self) -> Seq<Seq<char>> {
        cid_views(self.order@)
    }

    /// Nothing is listed twice, and the index knows what is listed.
    #[verifier::type_invariant]
    closed spec fn wf(&self) -> bool {
        self.seq().no_duplicates() && self.index@.dom() == self.seq().to_set()
    }

    /// Nothing met yet.
    pub fn new() -> (r: Visited)
        ensures
            r.seq() == Seq::<Seq<char>>::empty(),
            r@ == Set::<Seq<char>>::empty(),
            r.seq().no_duplicates(),
    {
        let order: Vec<Cid> = Vec::new();
        let index: StringHashMap<()> = StringHashMap::new();
        assert(cid_views(order@) =~= Seq::<Seq<char>>::empty());
        assert(cid_views(order@).to_set() =~= Set::<Seq<char>>::empty());
        assert(index@.dom() =~= Set::<Seq<char>>::empty());
        Visited { order, index }
    }

    /// How many identifiers were met.
    pub fn len(&self) -> (n: usize)
        ensures
            n == self.seq().len(),
            n == self@.len(),
            self@.finite(),
            self.seq().no_duplicates(),
    {
        proof {
            use_type_invariant(self);
            self.seq().unique_seq_to_set();
            seq_to_set_is_finite(self.seq());
        }
        self.order.len()
    }

    /// The identifier that was met as number `i`, if so many were met.
    pub fn get(&self, i: usize) -> (r: Option<&Cid>)
        ensures
            match r {
                Some(cid) => i < self.seq().len() && cid@ == self.seq()[i as int],
                None => i >= self.seq().len(),
            },
    {
        if i < self.order.len() {
            Some(&self.order[i])
        } else {
            None
        }
    }

    /// The identifiers in the order in which they were first met.
    pub fn as_slice(&self) -> (r: &[Cid])
        ensures
            cid_views(r@) == self.seq(),
            self.seq().no_duplicates(),
    {
        proof {
            use_type_invariant(self);
        }
        self.order.as_slice()
    }

    /// Whether `cid` was met.
    pub fn contains(&self, cid: &Cid) -> (r: bool)
        ensures
            r == self@.contains(cid@),
    {
        proof {
            use_type_invariant(self);
        }
        self.index.contains_key(cid.as_str())
    }

    /// Records that `cid` was met. Returns whether this was the first time.
    pub fn insert(&mut self, cid: Cid) -> (r: bool)
        ensures
            r == !old(self)@.contains(cid@),
            final(self).seq() == if r {
                old(self).seq().push(cid@)
            } else {
                old(self).seq()
            },
            final(self)@ == old(self)@.insert(cid@),
            final(self).seq().no_duplicates(),
    {
        proof {
            use_type_invariant(&*self);
        }
        if self.index.contains_key(cid.as_str()) {
            assert(self@ =~= self@.insert(cid@));
            return false;
        }
        let ghost before = self.seq();
        let mut taken = Visited::new();
        std::mem::swap(self, &mut taken);
        let Visited { mut order, mut index } = taken;
        index.insert(cid.clone(), ());
        order.push(cid);
        proof {
            let after = cid_views(order@);
            assert(after =~= before.push(cid@));
            before.lemma_push_to_set_commute(cid@);
            assert(index@.dom() =~= after.to_set());
            assert forall|i: int, j: int|
                0 <= i < after.len() && 0 <= j < after.len() && i != j implies after[i]
                != after[j] by {
                if i < before.len() && j < before.len() {
                    assert(before[i] != before[j]);
                } else if i < before.len() {
                    assert(before.contains(before[i]));
                } else {
                    assert(before.contains(before[j]));
                }
            }
        }
        *self = Visited { order, index };
        true
    }
}

} // verus!
