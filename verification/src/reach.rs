//! What can be reached from a set of roots through a store.

use crate::node::NodeView;
use vstd::prelude::*;

verus! {

/// The store lists `child` among the children of the node under `parent`.
pub open spec fn links(store: Map<Seq<char>, NodeView>, parent: Seq<char>, child: Seq<char>) -> bool {
    store.contains_key(parent) && store[parent].children.contains(child)
}

/// `cid` is met when walking `steps` child links down from one of `roots`.
pub open spec fn reachable_in(
    store: Map<Seq<char>, NodeView>,
    roots: Set<Seq<char>>,
    cid: Seq<char>,
    steps: nat,
) -> bool
    decreases steps,
{
    if steps == 0 {
        roots.contains(cid)
    } else {
        exists|parent: Seq<char>|
            reachable_in(store, roots, parent, (steps - 1) as nat) && #[trigger] links(
                store,
                parent,
                cid,
            )
    }
}

/// `cid` is one of `roots` or a descendant of one.
pub open spec fn reachable(
    store: Map<Seq<char>, NodeView>,
    roots: Set<Seq<char>>,
    cid: Seq<char>,
) -> bool {
    exists|steps: nat| reachable_in(store, roots, cid, steps)
}

/// Everything that can be reached from `roots`.
pub open spec fn reach_set(store: Map<Seq<char>, NodeView>, roots: Set<Seq<char>>) -> Set<
    Seq<char>,
> {
    Set::new(|cid: Seq<char>| reachable(store, roots, cid))
}

/// The store holds a node under everything that can be reached from `roots`.
pub open spec fn complete(store: Map<Seq<char>, NodeView>, roots: Set<Seq<char>>) -> bool {
    forall|cid: Seq<char>| #[trigger] reachable(store, roots, cid) ==> store.contains_key(cid)
}

/// The values of the nodes of `cids` that the store holds.
pub open spec fn values_of(store: Map<Seq<char>, NodeView>, cids: Set<Seq<char>>) -> Set<i64> {
    Set::new(
        |v: i64|
            exists|cid: Seq<char>|
                cids.contains(cid) && store.contains_key(cid) && #[trigger] store[cid].value == v,
    )
}

/// The values of all nodes that can be reached from `roots`.
pub open spec fn reachable_values(store: Map<Seq<char>, NodeView>, roots: Set<Seq<char>>) -> Set<
    i64,
> {
    values_of(store, reach_set(store, roots))
}

/// `cids` holds, with each of its members, the children of that member.
pub open spec fn closed_under_links(store: Map<Seq<char>, NodeView>, cids: Set<Seq<char>>) -> bool {
    forall|parent: Seq<char>, child: Seq<char>|
        cids.contains(parent) && #[trigger] links(store, parent, child) ==> cids.contains(child)
}

/// Every root can be reached.
pub proof fn lemma_root_reachable(
    store: Map<Seq<char>, NodeView>,
    roots: Set<Seq<char>>,
    cid: Seq<char>,
)
    requires
        roots.contains(cid),
    ensures
        reachable(store, roots, cid),
{
    assert(reachable_in(store, roots, cid, 0));
}

/// A child of what can be reached can be reached.
pub proof fn lemma_child_reachable(
    store: Map<Seq<char>, NodeView>,
    roots: Set<Seq<char>>,
    parent: Seq<char>,
    child: Seq<char>,
)
    requires
        reachable(store, roots, parent),
        links(store, parent, child),
    ensures
        reachable(store, roots, child),
{
    let steps = choose|steps: nat| reachable_in(store, roots, parent, steps);
    assert(reachable_in(store, roots, child, steps + 1));
}

proof fn lemma_reachable_in_within(
    store: Map<Seq<char>, NodeView>,
    roots: Set<Seq<char>>,
    cids: Set<Seq<char>>,
    cid: Seq<char>,
    steps: nat,
)
    requires
        roots.subset_of(cids),
        closed_under_links(store, cids),
        reachable_in(store, roots, cid, steps),
    ensures
        cids.contains(cid),
    decreases steps,
{
    if steps > 0 {
        let parent = choose|parent: Seq<char>|
            reachable_in(store, roots, parent, (steps - 1) as nat) && #[trigger] links(
                store,
                parent,
                cid,
            );
        lemma_reachable_in_within(store, roots, cids, parent, (steps - 1) as nat);
    }
}

/// What can be reached lies in every set that holds the roots and, with each
/// member, its children.
pub proof fn lemma_reach_least(
    store: Map<Seq<char>, NodeView>,
    roots: Set<Seq<char>>,
    cids: Set<Seq<char>>,
)
    requires
        roots.subset_of(cids),
        closed_under_links(store, cids),
    ensures
        reach_set(store, roots).subset_of(cids),
{
    assert forall|cid: Seq<char>| reach_set(store, roots).contains(cid) implies cids.contains(
        cid,
    ) by {
        let steps = choose|steps: nat| reachable_in(store, roots, cid, steps);
        lemma_reachable_in_within(store, roots, cids, cid, steps);
    }
}

/// What can be reached holds the roots and, with each member, its children.
pub proof fn lemma_reach_closed(store: Map<Seq<char>, NodeView>, roots: Set<Seq<char>>)
    ensures
        roots.subset_of(reach_set(store, roots)),
        closed_under_links(store, reach_set(store, roots)),
{
    assert forall|cid: Seq<char>| roots.contains(cid) implies reach_set(store, roots).contains(
        cid,
    ) by {
        lemma_root_reachable(store, roots, cid);
    }
    assert forall|parent: Seq<char>, child: Seq<char>|
        reach_set(store, roots).contains(parent) && #[trigger] links(
            store,
            parent,
            child,
        ) implies reach_set(store, roots).contains(child) by {
        lemma_child_reachable(store, roots, parent, child);
    }
}

/// From roots that can be reached, nothing else is reached.
pub proof fn lemma_reach_from_reached(
    store: Map<Seq<char>, NodeView>,
    inner: Set<Seq<char>>,
    outer: Set<Seq<char>>,
)
    requires
        inner.subset_of(reach_set(store, outer)),
    ensures
        reach_set(store, inner).subset_of(reach_set(store, outer)),
{
    lemma_reach_closed(store, outer);
    lemma_reach_least(store, inner, reach_set(store, outer));
}

/// What is reached from two sets of roots together is what is reached from
/// the one or from the other.
pub proof fn lemma_reach_union(
    store: Map<Seq<char>, NodeView>,
    a: Set<Seq<char>>,
    b: Set<Seq<char>>,
)
    ensures
        reach_set(store, a.union(b)) == reach_set(store, a).union(reach_set(store, b)),
{
    let both = reach_set(store, a).union(reach_set(store, b));
    lemma_reach_closed(store, a);
    lemma_reach_closed(store, b);
    lemma_reach_closed(store, a.union(b));
    assert(closed_under_links(store, both)) by {
        assert forall|parent: Seq<char>, child: Seq<char>|
            both.contains(parent) && #[trigger] links(store, parent, child) implies both.contains(
            child,
        ) by {
            if reach_set(store, a).contains(parent) {
                assert(reach_set(store, a).contains(child));
            } else {
                assert(reach_set(store, b).contains(child));
            }
        }
    }
    lemma_reach_least(store, a.union(b), both);
    lemma_reach_least(store, a, reach_set(store, a.union(b)));
    lemma_reach_least(store, b, reach_set(store, a.union(b)));
    assert(reach_set(store, a.union(b)) =~= both);
}

/// What is reached from a node of the store is the node and what is reached
/// from its children.
pub proof fn lemma_reach_from_node(store: Map<Seq<char>, NodeView>, cid: Seq<char>)
    requires
        store.contains_key(cid),
    ensures
        reach_set(store, set![cid]) == reach_set(store, store[cid].children).insert(cid),
{
    let top = set![cid];
    let below = store[cid].children;
    let all = reach_set(store, below).insert(cid);
    lemma_reach_closed(store, below);
    lemma_reach_closed(store, top);
    assert(closed_under_links(store, all)) by {
        assert forall|parent: Seq<char>, child: Seq<char>|
            all.contains(parent) && #[trigger] links(store, parent, child) implies all.contains(
            child,
        ) by {
            if parent == cid {
                assert(below.contains(child));
            } else {
                assert(reach_set(store, below).contains(parent));
            }
        }
    }
    lemma_reach_least(store, top, all);
    assert(below.subset_of(reach_set(store, top))) by {
        assert forall|child: Seq<char>| below.contains(child) implies reach_set(
            store,
            top,
        ).contains(child) by {
            assert(top.contains(cid));
            assert(links(store, cid, child));
        }
    }
    lemma_reach_from_reached(store, below, top);
    assert(top.contains(cid));
    assert(reach_set(store, top) =~= all);
}

/// A node that is put under a new identifier changes nothing of what is
/// reached from roots that the store was complete for.
pub proof fn lemma_reach_unchanged_by_new_node(
    store: Map<Seq<char>, NodeView>,
    roots: Set<Seq<char>>,
    cid: Seq<char>,
    node: NodeView,
)
    requires
        complete(store, roots),
        !store.contains_key(cid),
    ensures
        reach_set(store.insert(cid, node), roots) == reach_set(store, roots),
{
    let grown = store.insert(cid, node);
    let before = reach_set(store, roots);
    let after = reach_set(grown, roots);
    lemma_reach_closed(store, roots);
    lemma_reach_closed(grown, roots);
    assert(closed_under_links(grown, before)) by {
        assert forall|parent: Seq<char>, child: Seq<char>|
            before.contains(parent) && #[trigger] links(grown, parent, child) implies before.contains(
            child,
        ) by {
            assert(reachable(store, roots, parent));
            assert(parent != cid);
            assert(links(store, parent, child));
        }
    }
    lemma_reach_least(grown, roots, before);
    assert(closed_under_links(store, after)) by {
        assert forall|parent: Seq<char>, child: Seq<char>|
            after.contains(parent) && #[trigger] links(store, parent, child) implies after.contains(
            child,
        ) by {
            assert(links(grown, parent, child));
        }
    }
    lemma_reach_least(store, roots, after);
    assert(after =~= before);
}

/// A set of nodes that gains a stored node gains the value of that node.
pub proof fn lemma_values_of_insert(
    store: Map<Seq<char>, NodeView>,
    cids: Set<Seq<char>>,
    cid: Seq<char>,
)
    requires
        store.contains_key(cid),
    ensures
        values_of(store, cids.insert(cid)) == values_of(store, cids).insert(store[cid].value),
{
    let grown = values_of(store, cids.insert(cid));
    let added = values_of(store, cids).insert(store[cid].value);
    assert forall|v: i64| grown.contains(v) <==> added.contains(v) by {
        if grown.contains(v) {
            let x = choose|x: Seq<char>|
                cids.insert(cid).contains(x) && store.contains_key(x) && #[trigger] store[x].value
                    == v;
            if x != cid {
                assert(cids.contains(x));
            }
        }
        if values_of(store, cids).contains(v) {
            let x = choose|x: Seq<char>|
                cids.contains(x) && store.contains_key(x) && #[trigger] store[x].value == v;
            assert(cids.insert(cid).contains(x));
        }
        if v == store[cid].value {
            assert(cids.insert(cid).contains(cid));
        }
    }
    assert(grown =~= added);
}

/// The values of a union of sets of nodes are the values of the one set
/// together with those of the other.
pub proof fn lemma_values_of_union(
    store: Map<Seq<char>, NodeView>,
    a: Set<Seq<char>>,
    b: Set<Seq<char>>,
)
    ensures
        values_of(store, a.union(b)) == values_of(store, a).union(values_of(store, b)),
{
    let both = values_of(store, a).union(values_of(store, b));
    assert forall|v: i64| values_of(store, a.union(b)).contains(v) <==> both.contains(v) by {
        if values_of(store, a.union(b)).contains(v) {
            let cid = choose|cid: Seq<char>|
                a.union(b).contains(cid) && store.contains_key(cid) && #[trigger] store[cid].value
                    == v;
            if a.contains(cid) {
                assert(values_of(store, a).contains(v));
            } else {
                assert(values_of(store, b).contains(v));
            }
        }
        if values_of(store, a).contains(v) {
            let cid = choose|cid: Seq<char>|
                a.contains(cid) && store.contains_key(cid) && #[trigger] store[cid].value == v;
            assert(a.union(b).contains(cid));
        }
        if values_of(store, b).contains(v) {
            let cid = choose|cid: Seq<char>|
                b.contains(cid) && store.contains_key(cid) && #[trigger] store[cid].value == v;
            assert(a.union(b).contains(cid));
        }
    }
    assert(values_of(store, a.union(b)) =~= both);
}

/// What is reached from two sets of roots together has the values that are
/// reached from the one together with those reached from the other.
pub proof fn lemma_reachable_values_union(
    store: Map<Seq<char>, NodeView>,
    a: Set<Seq<char>>,
    b: Set<Seq<char>>,
)
    ensures
        reachable_values(store, a.union(b)) == reachable_values(store, a).union(
            reachable_values(store, b),
        ),
{
    lemma_reach_union(store, a, b);
    lemma_values_of_union(store, reach_set(store, a), reach_set(store, b));
}

/// From roots that can be reached, no further value is reached.
pub proof fn lemma_reachable_values_absorbed(
    store: Map<Seq<char>, NodeView>,
    inner: Set<Seq<char>>,
    outer: Set<Seq<char>>,
)
    requires
        inner.subset_of(reach_set(store, outer)),
    ensures
        reachable_values(store, outer) == reachable_values(store, inner).union(
            reachable_values(store, outer),
        ),
{
    lemma_reach_from_reached(store, inner, outer);
    let small = reach_set(store, inner);
    let large = reach_set(store, outer);
    assert(small.union(large) =~= large);
    lemma_values_of_union(store, small, large);
}

/// A store that is complete for two sets of roots is complete for both
/// together.
pub proof fn lemma_complete_union(
    store: Map<Seq<char>, NodeView>,
    a: Set<Seq<char>>,
    b: Set<Seq<char>>,
)
    requires
        complete(store, a),
        complete(store, b),
    ensures
        complete(store, a.union(b)),
{
    lemma_reach_union(store, a, b);
    assert forall|cid: Seq<char>| #[trigger] reachable(store, a.union(b), cid) implies store.contains_key(
        cid,
    ) by {
        assert(reach_set(store, a.union(b)).contains(cid));
        if reach_set(store, a).contains(cid) {
            assert(reachable(store, a, cid));
        } else {
            assert(reachable(store, b, cid));
        }
    }
}

/// The values of a set of nodes are the same in two stores that hold the
/// same nodes under the members of the set.
pub proof fn lemma_values_of_same_nodes(
    store: Map<Seq<char>, NodeView>,
    other: Map<Seq<char>, NodeView>,
    cids: Set<Seq<char>>,
)
    requires
        forall|cid: Seq<char>| #[trigger]
            cids.contains(cid) ==> (store.contains_key(cid) <==> other.contains_key(cid)) && (
            store.contains_key(cid) ==> store[cid] == other[cid]),
    ensures
        values_of(store, cids) == values_of(other, cids),
{
    assert forall|v: i64| values_of(store, cids).contains(v) <==> values_of(other, cids).contains(
        v,
    ) by {
        if values_of(store, cids).contains(v) {
            let cid = choose|cid: Seq<char>|
                cids.contains(cid) && store.contains_key(cid) && #[trigger] store[cid].value == v;
            assert(other[cid].value == v);
        }
        if values_of(other, cids).contains(v) {
            let cid = choose|cid: Seq<char>|
                cids.contains(cid) && other.contains_key(cid) && #[trigger] other[cid].value == v;
            assert(store[cid].value == v);
        }
    }
    assert(values_of(store, cids) =~= values_of(other, cids));
}

} // verus!
