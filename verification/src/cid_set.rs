//! A set of content identifiers, kept in ascending order.

use crate::cid::{
    cid_less, cid_lt, lemma_cid_lt_connected, lemma_cid_lt_irreflexive, lemma_cid_lt_transitive,
    Cid,
};
use vstd::prelude::*;
use vstd::seq_lib::seq_to_set_is_finite;

verus! {

/// Every member comes before all the members behind it.
pub open spec fn ascending(s: Seq<Seq<char>>) -> bool {
    forall|i: int, j: int| 0 <= i < j < s.len() ==> cid_lt(#[trigger] s[i], #[trigger] s[j])
}

/// The identifiers held in a vector, each by its view.
pub open spec fn cid_views(v: Seq<Cid>) -> Seq<Seq<char>> {
    v.map_values(|c: Cid| c@)
}

/// An ascending sequence holds nothing twice.
pub proof fn lemma_ascending_no_duplicates(s: Seq<Seq<char>>)
    requires
        ascending(s),
    ensures
        s.no_duplicates(),
{
    assert forall|i: int, j: int| 0 <= i < s.len() && 0 <= j < s.len() && i != j implies s[i]
        != s[j] by {
        lemma_cid_lt_irreflexive(s[i]);
        if i < j {
            assert(cid_lt(s[i], s[j]));
        } else {
            assert(cid_lt(s[j], s[i]));
        }
    }
}

/// Two ascending sequences agree up to `n` when they hold the same members.
proof fn lemma_ascending_prefix(s: Seq<Seq<char>>, t: Seq<Seq<char>>, n: int)
    requires
        ascending(s),
        ascending(t),
        s.to_set() == t.to_set(),
        0 <= n <= s.len(),
    ensures
        n <= t.len(),
        forall|k: int| 0 <= k < n ==> s[k] == t[k],
    decreases n,
{
    if n > 0 {
        lemma_ascending_prefix(s, t, n - 1);
        let i = n - 1;
        assert(s.contains(s[i]));
        assert(t.to_set().contains(s[i]));
        let j = choose|j: int| 0 <= j < t.len() && t[j] == s[i];
        lemma_cid_lt_irreflexive(s[i]);
        if j < i {
            assert(s[j] == t[j]);
            assert(cid_lt(s[j], s[i]));
        } else if j > i {
            assert(t.contains(t[i]));
            assert(s.to_set().contains(t[i]));
            let m = choose|m: int| 0 <= m < s.len() && s[m] == t[i];
            assert(cid_lt(t[i], t[j]));
            if m < i {
                assert(s[m] == t[m]);
                lemma_cid_lt_irreflexive(t[i]);
                assert(cid_lt(t[m], t[i]));
            } else if m > i {
                assert(cid_lt(s[i], s[m]));
                lemma_cid_lt_transitive(t[i], s[i], t[i]);
                lemma_cid_lt_irreflexive(t[i]);
            }
        }
    }
}

/// A set of identifiers has one ascending arrangement only.
pub proof fn lemma_ascending_unique(s: Seq<Seq<char>>, t: Seq<Seq<char>>)
    requires
        ascending(s),
        ascending(t),
        s.to_set() == t.to_set(),
    ensures
        s == t,
{
    lemma_ascending_prefix(s, t, s.len() as int);
    lemma_ascending_prefix(t, s, t.len() as int);
    assert(s =~= t);
}

/// A prefix that grows by one member gains that member.
pub proof fn lemma_prefix_to_set(s: Seq<Seq<char>>, i: int)
    requires
        0 <= i < s.len(),
    ensures
        s.subrange(0, i + 1).to_set() == s.subrange(0, i).to_set().insert(s[i]),
{
    assert(s.subrange(0, i + 1) =~= s.subrange(0, i).push(s[i]));
    s.subrange(0, i).lemma_push_to_set_commute(s[i]);
}

/// A sequence holds its last member and what it holds without it.
pub proof fn lemma_drop_last_to_set(s: Seq<Seq<char>>)
    requires
        s.len() > 0,
    ensures
        s.to_set() == s.drop_last().to_set().insert(s.last()),
{
    assert(s =~= s.drop_last().push(s.last()));
    s.drop_last().lemma_push_to_set_commute(s.last());
}

/// Two sequences joined hold what the one holds and what the other holds.
pub proof fn lemma_concat_to_set(a: Seq<Seq<char>>, b: Seq<Seq<char>>)
    ensures
        (a + b).to_set() == a.to_set().union(b.to_set()),
{
    let joined = a + b;
    assert forall|c: Seq<char>| joined.to_set().contains(c) <==> a.to_set().union(
        b.to_set(),
    ).contains(c) by {
        if joined.contains(c) {
            let k = choose|k: int| 0 <= k < joined.len() && joined[k] == c;
            if k < a.len() {
                assert(a[k] == c);
                assert(a.contains(c));
            } else {
                assert(b[k - a.len()] == c);
                assert(b.contains(c));
            }
        }
        if a.contains(c) {
            let k = choose|k: int| 0 <= k < a.len() && a[k] == c;
            assert(joined[k] == c);
        }
        if b.contains(c) {
            let k = choose|k: int| 0 <= k < b.len() && b[k] == c;
            assert(joined[a.len() + k] == c);
        }
    }
    assert(joined.to_set() =~= a.to_set().union(b.to_set()));
}

/// The ascending arrangement of a set of identifiers.
pub open spec fn ascending_seq(s: Set<Seq<char>>) -> Seq<Seq<char>> {
    choose|q: Seq<Seq<char>>| ascending(q) && q.to_set() == s
}

/// An ascending sequence is the ascending arrangement of its members.
pub proof fn lemma_ascending_seq(q: Seq<Seq<char>>)
    requires
        ascending(q),
    ensures
        ascending_seq(q.to_set()) == q,
{
    let p = ascending_seq(q.to_set());
    assert(ascending(p) && p.to_set() == q.to_set());
    lemma_ascending_unique(p, q);
}

/// Two sets with the same members list them in the same order, however
/// each of the two was filled.
pub proof fn lemma_same_members_same_order(a: CidSet, b: CidSet)
    requires
        a.wf(),
        b.wf(),
        a@ == b@,
    ensures
        a.seq() == b.seq(),
{
    lemma_ascending_unique(a.seq(), b.seq());
}

/// A set of content identifiers. Its members are kept in ascending order, so
/// that two sets with the same members are walked in the same order.
#[derive(Debug)]
pub struct CidSet {
    items: Vec<Cid>,
}

impl View for CidSet {
    type V = Set<Seq<char>>;

    open spec fn view(&self) -> Set<Seq<char>> {
        self.seq().to_set()
    }
}

impl CidSet {
    /// The members in ascending order.
    pub closed spec fn seq(&self) -> Seq<Seq<char>> {
        cid_views(self.items@)
    }

    /// The members are in ascending order, hence distinct.
    #[verifier::type_invariant]
    pub open spec fn wf(&self) -> bool {
        ascending(self.seq())
    }

    /// The empty set.
    pub fn new() -> (r: CidSet)
        ensures
            r.seq() == Seq::<Seq<char>>::empty(),
            r@ == Set::<Seq<char>>::empty(),
    {
        let r = CidSet { items: Vec::new() };
        assert(r.seq() =~= Seq::<Seq<char>>::empty());
        assert(r@ =~= Set::<Seq<char>>::empty());
        r
    }

    /// The number of members.
    pub fn len(&self) -> (n: usize)
        ensures
            n == self.seq().len(),
            n == self@.len(),
            self@.finite(),
    {
        proof {
            use_type_invariant(self);
            lemma_ascending_no_duplicates(self.seq());
            self.seq().unique_seq_to_set();
            seq_to_set_is_finite(self.seq());
        }
        self.items.len()
    }

    /// Whether the set has no member.
    pub fn is_empty(&self) -> (r: bool)
        ensures
            r == (self.seq().len() == 0),
            r == (self@ == Set::<Seq<char>>::empty()),
    {
        proof {
            if self.seq().len() == 0 {
                assert(self@ =~= Set::<Seq<char>>::empty());
            } else {
                assert(self.seq().contains(self.seq()[0]));
                assert(self@.contains(self.seq()[0]));
            }
        }
        self.items.len() == 0
    }

    /// The member at position `i` of the ascending order, if there are so
    /// many.
    pub fn get(&self, i: usize) -> (r: Option<&Cid>)
        ensures
            match r {
                Some(cid) => i < self.seq().len() && cid@ == self.seq()[i as int],
                None => i >= self.seq().len(),
            },
    {
        if i < self.items.len() {
            Some(&self.items[i])
        } else {
            None
        }
    }

    /// The first position whose member does not come before `cid`.
    fn lower_bound(&self, cid: &Cid) -> (at: usize)
        ensures
            at <= self.seq().len(),
            forall|k: int| 0 <= k < at ==> cid_lt(#[trigger] self.seq()[k], cid@),
            forall|k: int| at <= k < self.seq().len() ==> !cid_lt(#[trigger] self.seq()[k], cid@),
    {
        proof {
            use_type_invariant(self);
        }
        let mut lo: usize = 0;
        let mut hi: usize = self.items.len();
        while lo < hi
            invariant
                lo <= hi <= self.items.len(),
                ascending(self.seq()),
                forall|k: int| 0 <= k < lo ==> cid_lt(#[trigger] self.seq()[k], cid@),
                forall|k: int| hi <= k < self.seq().len() ==> !cid_lt(#[trigger] self.seq()[k], cid@),
            decreases hi - lo,
        {
            let mid: usize = lo + (hi - lo) / 2;
            if cid_less(&self.items[mid], cid) {
                assert forall|k: int| 0 <= k < mid + 1 implies cid_lt(
                    #[trigger] self.seq()[k],
                    cid@,
                ) by {
                    if k < mid {
                        lemma_cid_lt_transitive(self.seq()[k], self.seq()[mid as int], cid@);
                    }
                }
                lo = mid + 1;
            } else {
                assert forall|k: int| mid <= k < self.seq().len() implies !cid_lt(
                    #[trigger] self.seq()[k],
                    cid@,
                ) by {
                    if k > mid && cid_lt(self.seq()[k], cid@) {
                        lemma_cid_lt_transitive(self.seq()[mid as int], self.seq()[k], cid@);
                    }
                }
                hi = mid;
            }
        }
        lo
    }

    /// Where a member equal to `cid` stands, given the bound found for it.
    proof fn lemma_found_at(&self, cid: Seq<char>, at: int)
        requires
            ascending(self.seq()),
            0 <= at <= self.seq().len(),
            forall|k: int| 0 <= k < at ==> cid_lt(#[trigger] self.seq()[k], cid),
            forall|k: int| at <= k < self.seq().len() ==> !cid_lt(#[trigger] self.seq()[k], cid),
        ensures
            self@.contains(cid) <==> (at < self.seq().len() && self.seq()[at] == cid),
    {
        let s = self.seq();
        if self@.contains(cid) {
            let k = choose|k: int| 0 <= k < s.len() && s[k] == cid;
            lemma_cid_lt_irreflexive(cid);
            if k < at {
                assert(cid_lt(s[k], cid));
            } else if k > at {
                assert(cid_lt(s[at], s[k]));
            }
        }
        if at < s.len() && s[at] == cid {
            assert(s.contains(s[at]));
        }
    }

    /// Whether `cid` is a member.
    pub fn contains(&self, cid: &Cid) -> (r: bool)
        ensures
            r == self@.contains(cid@),
    {
        proof {
            use_type_invariant(self);
        }
        let at = self.lower_bound(cid);
        proof {
            self.lemma_found_at(cid@, at as int);
        }
        at < self.items.len() && self.items[at] == *cid
    }

    /// Adds `cid` to the set. Returns whether it was new.
    pub fn insert(&mut self, cid: Cid) -> (r: bool)
        ensures
            final(self)@ == old(self)@.insert(cid@),
            r == !old(self)@.contains(cid@),
    {
        proof {
            use_type_invariant(&*self);
        }
        let at = self.lower_bound(&cid);
        proof {
            self.lemma_found_at(cid@, at as int);
        }
        if at < self.items.len() && self.items[at] == cid {
            assert(self@ =~= self@.insert(cid@));
            return false;
        }
        let ghost before = self.seq();
        let mut items: Vec<Cid> = Vec::new();
        std::mem::swap(&mut items, &mut self.items);
        items.insert(at, cid);
        proof {
            let after = cid_views(items@);
            assert(after =~= before.insert(at as int, cid@));
            assert forall|i: int, j: int| 0 <= i < j < after.len() implies cid_lt(
                #[trigger] after[i],
                #[trigger] after[j],
            ) by {
                if j < at {
                    assert(cid_lt(before[i], before[j]));
                } else if j == at {
                    assert(cid_lt(before[i], cid@));
                } else if i < at {
                    assert(cid_lt(before[i], before[j - 1]));
                } else if i > at {
                    assert(cid_lt(before[i - 1], before[j - 1]));
                } else {
                    let x = before[j - 1];
                    let first = before[at as int];
                    if !cid_lt(cid@, first) {
                        lemma_cid_lt_connected(cid@, first);
                    }
                    if j - 1 > at {
                        assert(cid_lt(first, x));
                        lemma_cid_lt_transitive(cid@, first, x);
                    }
                }
            }
            assert forall|c: Seq<char>| after.to_set().contains(c) <==> before.to_set().insert(
                cid@,
            ).contains(c) by {
                if after.contains(c) {
                    let k = choose|k: int| 0 <= k < after.len() && after[k] == c;
                    if k < at {
                        assert(before[k] == c);
                        assert(before.contains(c));
                    } else if k > at {
                        assert(before[k - 1] == c);
                        assert(before.contains(c));
                    }
                }
                if before.contains(c) {
                    let k = choose|k: int| 0 <= k < before.len() && before[k] == c;
                    if k < at {
                        assert(after[k] == c);
                    } else {
                        assert(after[k + 1] == c);
                    }
                }
                if c == cid@ {
                    assert(after[at as int] == c);
                }
            }
            assert(after.to_set() =~= before.to_set().insert(cid@));
        }
        self.items = items;
        true
    }

    /// Whether the two sets have the same members.
    pub fn equals(&self, other: &CidSet) -> (r: bool)
        ensures
            r == (self@ == other@),
            r == (self.seq() == other.seq()),
    {
        proof {
            use_type_invariant(self);
            use_type_invariant(other);
            if self@ == other@ {
                lemma_ascending_unique(self.seq(), other.seq());
            }
        }
        if self.items.len() != other.items.len() {
            return false;
        }
        let mut i: usize = 0;
        while i < self.items.len()
            invariant
                i <= self.items.len(),
                self.items.len() == other.items.len(),
                self@ == other@ ==> self.seq() == other.seq(),
                forall|k: int| 0 <= k < i ==> self.seq()[k] == other.seq()[k],
            decreases self.items.len() - i,
        {
            if self.items[i] != other.items[i] {
                assert(self.seq()[i as int] != other.seq()[i as int]);
                return false;
            }
            i += 1;
        }
        assert(self.seq() =~= other.seq());
        true
    }

    /// The set of the identifiers in `cids`, in whatever order and however
    /// often they occur there.
    pub fn from_vec(cids: Vec<Cid>) -> (r: CidSet)
        ensures
            r@ == cid_views(cids@).to_set(),
    {
        let mut r = CidSet::new();
        let mut i: usize = 0;
        while i < cids.len()
            invariant
                i <= cids.len(),
                r@ == cid_views(cids@).subrange(0, i as int).to_set(),
            decreases cids.len() - i,
        {
            r.insert(cids[i].clone());
            proof {
                lemma_prefix_to_set(cid_views(cids@), i as int);
            }
            i += 1;
        }
        assert(cid_views(cids@).subrange(0, i as int) =~= cid_views(cids@));
        r
    }

    /// The members in ascending order.
    pub fn as_slice(&self) -> (r: &[Cid])
        ensures
            cid_views(r@) == self.seq(),
            ascending(self.seq()),
            self.seq() == ascending_seq(self@),
    {
        proof {
            use_type_invariant(self);
            lemma_ascending_seq(self.seq());
        }
        self.items.as_slice()
    }

    /// The members in ascending order, each copied.
    pub fn to_vec(&self) -> (r: Vec<Cid>)
        ensures
            cid_views(r@) == self.seq(),
    {
        let r = self.items.clone();
        assert(cid_views(r@) =~= self.seq());
        r
    }
}

impl Clone for CidSet {
    fn clone(&self) -> (r: CidSet)
        ensures
            r.seq() == self.seq(),
            r@ == self@,
    {
        proof {
            use_type_invariant(self);
        }
        let items = self.items.clone();
        assert(cid_views(items@) =~= self.seq());
        CidSet { items }
    }
}

} // verus!
