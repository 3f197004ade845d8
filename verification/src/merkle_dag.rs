//! A graph over a store of nodes: insertion, search and merge.

use crate::cid::Cid;
use crate::cid_set::{
    cid_views, lemma_concat_to_set, lemma_drop_last_to_set, lemma_prefix_to_set, CidSet,
};
use crate::codec::content_cid;
use crate::dag_syncer::{store_put, DagSyncer};
use crate::error::DagError;
use crate::graph::Graph;
use crate::node::{Node, NodeView, Payload};
use crate::reach::{
    complete, lemma_complete_union, lemma_reach_closed, lemma_reach_from_node, lemma_reach_least,
    lemma_reach_unchanged_by_new_node, lemma_reachable_values_absorbed,
    lemma_reachable_values_union, lemma_values_of_insert, lemma_values_of_same_nodes, links,
    reach_set, reachable, reachable_values, values_of,
};
use crate::visited::Visited;
use std::collections::HashSet;
use vstd::prelude::*;

verus! {

/// The roots that a merge of the graph with roots `mine` and the graph with
/// roots `theirs` leaves: those of the graph that holds the other, and the
/// roots of both where neither holds the other.
pub open spec fn merged_roots(
    store: Map<Seq<char>, NodeView>,
    mine: Set<Seq<char>>,
    theirs: Set<Seq<char>>,
) -> Set<Seq<char>> {
    if mine == theirs {
        mine
    } else if mine.subset_of(reach_set(store, theirs)) {
        theirs
    } else if theirs.subset_of(reach_set(store, mine)) {
        mine
    } else {
        mine.union(theirs)
    }
}

/// Whether the store holds all that a merge has to walk: nothing where the
/// roots are the same; else what is reached from `theirs`, and, unless that
/// holds all of `mine`, what is reached from `mine`.
pub open spec fn mergeable(
    store: Map<Seq<char>, NodeView>,
    mine: Set<Seq<char>>,
    theirs: Set<Seq<char>>,
) -> bool {
    mine == theirs || (complete(store, theirs) && (mine.subset_of(reach_set(store, theirs))
        || complete(store, mine)))
}

/// Merging a graph with a graph of the same roots needs no walk and changes
/// neither the roots nor the values that are reached.
pub proof fn lemma_merge_same_roots(store: Map<Seq<char>, NodeView>, roots: Set<Seq<char>>)
    ensures
        mergeable(store, roots, roots),
        merged_roots(store, roots, roots) == roots,
        reachable_values(store, merged_roots(store, roots, roots)) == reachable_values(
            store,
            roots,
        ),
{
}

/// The values reached from the merged roots are those reached from the one
/// graph together with those reached from the other.
pub proof fn lemma_merge_values_union(
    store: Map<Seq<char>, NodeView>,
    mine: Set<Seq<char>>,
    theirs: Set<Seq<char>>,
)
    ensures
        reachable_values(store, merged_roots(store, mine, theirs)) == reachable_values(
            store,
            mine,
        ).union(reachable_values(store, theirs)),
{
    let a = reachable_values(store, mine);
    let b = reachable_values(store, theirs);
    if mine == theirs {
        assert(a =~= a.union(b));
    } else if mine.subset_of(reach_set(store, theirs)) {
        lemma_reachable_values_absorbed(store, mine, theirs);
    } else if theirs.subset_of(reach_set(store, mine)) {
        lemma_reachable_values_absorbed(store, theirs, mine);
        assert(b.union(a) =~= a.union(b));
    } else {
        lemma_reachable_values_union(store, mine, theirs);
    }
}

/// Where all roots of the one graph can be reached from the other, the
/// merge leaves the roots of the other, and with them its values: no root
/// is added.
pub proof fn lemma_merge_contained(
    store: Map<Seq<char>, NodeView>,
    mine: Set<Seq<char>>,
    theirs: Set<Seq<char>>,
)
    requires
        mine.subset_of(reach_set(store, theirs)),
    ensures
        merged_roots(store, mine, theirs) == theirs,
        reachable_values(store, merged_roots(store, mine, theirs)) == reachable_values(
            store,
            theirs,
        ),
{
}

/// A merge that walks a complete store leaves roots for which the store is
/// complete.
pub proof fn lemma_merge_keeps_complete(
    store: Map<Seq<char>, NodeView>,
    mine: Set<Seq<char>>,
    theirs: Set<Seq<char>>,
)
    requires
        complete(store, mine),
        complete(store, theirs),
    ensures
        mergeable(store, mine, theirs),
        complete(store, merged_roots(store, mine, theirs)),
{
    lemma_complete_union(store, mine, theirs);
}

/// Putting a node on top of a graph for which the store is complete leaves
/// a graph for which the store is complete, and adds the value of the node
/// to the values that are reached. This holds where the store, after the
/// node was put, lists the former roots as the children under the node's
/// identifier: so wherever that identifier was new.
pub proof fn lemma_add_node_keeps_complete(
    store: Map<Seq<char>, NodeView>,
    roots: Set<Seq<char>>,
    node: NodeView,
)
    requires
        complete(store, roots),
        node.children == roots,
        store_put(store, node.cid, node)[node.cid].children == roots,
    ensures
        complete(store_put(store, node.cid, node), set![node.cid]),
        reach_set(store_put(store, node.cid, node), set![node.cid]) == reach_set(
            store,
            roots,
        ).insert(node.cid),
        reachable_values(store_put(store, node.cid, node), set![node.cid]) == reachable_values(
            store,
            roots,
        ).insert(store_put(store, node.cid, node)[node.cid].value),
{
    let cid = node.cid;
    let after = store_put(store, cid, node);
    let before_set = reach_set(store, roots);
    let after_set = reach_set(after, set![cid]);
    if !store.contains_key(cid) {
        lemma_reach_unchanged_by_new_node(store, roots, cid, node);
    }
    assert(reach_set(after, roots) == before_set);
    lemma_reach_from_node(after, cid);
    assert(after_set == before_set.insert(cid));
    assert forall|c: Seq<char>| #[trigger] reachable(after, set![cid], c) implies after.contains_key(
        c,
    ) by {
        assert(after_set.contains(c));
        if c != cid {
            assert(reachable(store, roots, c));
        }
    }
    assert forall|c: Seq<char>| #[trigger]
        before_set.contains(c) implies (after.contains_key(c) <==> store.contains_key(c)) && (
    after.contains_key(c) ==> after[c] == store[c]) by {
        assert(reachable(store, roots, c));
    }
    lemma_values_of_same_nodes(after, store, before_set);
    lemma_values_of_insert(after, before_set, cid);
}

/// A graph: the roots through which a store of nodes is entered.
#[derive(Debug)]
pub struct MerkleDag {
    pub graph: Graph,
}

impl View for MerkleDag {
    type V = Set<Seq<char>>;

    open spec fn view(&self) -> Set<Seq<char>> {
        self.graph@
    }
}

impl Clone for MerkleDag {
    fn clone(&self) -> (r: MerkleDag)
        ensures
            r@ == self@,
    {
        MerkleDag { graph: self.graph.clone() }
    }
}

/// Puts every member of `cids` on top of `stack`, in ascending order.
fn push_all(stack: &mut Vec<Cid>, cids: &CidSet)
    ensures
        cid_views(final(stack)@) == cid_views(old(stack)@) + cids.seq(),
{
    let items = cids.as_slice();
    let mut i: usize = 0;
    assert(cid_views(stack@) =~= cid_views(stack@) + cids.seq().subrange(0, 0));
    while i < items.len()
        invariant
            i <= items.len(),
            cid_views(items@) == cids.seq(),
            cid_views(stack@) == cid_views(old(stack)@) + cids.seq().subrange(0, i as int),
        decreases items.len() - i,
    {
        stack.push(items[i].clone());
        proof {
            let done = cids.seq().subrange(0, i as int);
            assert(cid_views(items@)[i as int] == items[i as int]@);
            assert(cids.seq().subrange(0, i + 1) =~= done.push(cids.seq()[i as int]));
            assert(cid_views(stack@) =~= (cid_views(old(stack)@) + done).push(
                cids.seq()[i as int],
            ));
        }
        i += 1;
    }
    assert(cids.seq().subrange(0, i as int) =~= cids.seq());
}

/// Whether every member of `cids` was met.
fn all_within(cids: &CidSet, seen: &Visited) -> (r: bool)
    ensures
        r == cids@.subset_of(seen@),
{
    let items = cids.as_slice();
    let mut i: usize = 0;
    while i < items.len()
        invariant
            i <= items.len(),
            cid_views(items@) == cids.seq(),
            forall|k: int| 0 <= k < i ==> seen@.contains(#[trigger] cids.seq()[k]),
        decreases items.len() - i,
    {
        if !seen.contains(&items[i]) {
            assert(cids.seq().contains(cids.seq()[i as int]));
            return false;
        }
        i += 1;
    }
    assert forall|c: Seq<char>| cids@.contains(c) implies seen@.contains(c) by {
        let k = choose|k: int| 0 <= k < cids.seq().len() && cids.seq()[k] == c;
        assert(seen@.contains(cids.seq()[k]));
    }
    true
}

impl MerkleDag {
    /// A graph without roots.
    pub fn new() -> (r: MerkleDag)
        ensures
            r@ == Set::<Seq<char>>::empty(),
    {
        MerkleDag { graph: Graph::new() }
    }

    /// Puts a node with this payload on top of the graph: its children are
    /// the roots, it is written to the store, and it becomes the only root.
    /// Returns its identifier. Fails, and changes nothing, where the node
    /// cannot be built.
    pub fn add_node(&mut self, payload: Payload, dag_pool: &mut DagSyncer) -> (r: Result<
        Cid,
        DagError,
    >)
        ensures
            match content_cid(payload.0@, payload.1 as int, old(self)@) {
                Some(cid) => {
                    &&& r matches Ok(root)
                    &&& root@ == cid
                    &&& final(self)@ == set![cid]
                    &&& final(dag_pool)@ == store_put(
                        old(dag_pool)@,
                        cid,
                        NodeView {
                            cid,
                            label: payload.0@,
                            value: payload.1,
                            children: old(self)@,
                        },
                    )
                },
                None => {
                    &&& r matches Err(e)
                    &&& e == DagError::Encoding
                    &&& final(self)@ == old(self)@
                    &&& final(dag_pool)@ == old(dag_pool)@
                },
            },
    {
        let node = match Node::new(payload, self.graph.get_nodes().clone()) {
            Ok(node) => node,
            Err(e) => {
                return Err(e);
            },
        };
        let cid = node.cid.clone();
        self.graph.delete_all_nodes();
        self.graph.add_node(node.cid.clone());
        dag_pool.put_node(node.cid.clone(), node);
        assert(self@ =~= set![cid@]);
        Ok(cid)
    }

    /// The identifiers of all nodes that can be reached from `cids`, each
    /// once. The walk keeps its own stack of identifiers still to be looked
    /// at, and fails on the first of them under which the store holds
    /// nothing.
    pub fn dfs_cid(cids: &CidSet, dag_pool: &DagSyncer) -> (r: Result<Visited, DagError>)
        ensures
            match r {
                Ok(seen) => {
                    &&& complete(dag_pool@, cids@)
                    &&& seen@ == reach_set(dag_pool@, cids@)
                    &&& seen.seq().no_duplicates()
                },
                Err(e) => {
                    &&& e matches DagError::DanglingReference(c)
                    &&& reachable(dag_pool@, cids@, c@)
                    &&& !dag_pool@.contains_key(c@)
                },
            },
    {
        let ghost store = dag_pool@;
        let ghost roots = cids@;
        proof {
            use_type_invariant(dag_pool);
        }
        let mut seen = Visited::new();
        let mut stack: Vec<Cid> = Vec::new();
        push_all(&mut stack, cids);
        proof {
            assert(cid_views(stack@) =~= cids.seq());
            lemma_reach_closed(store, roots);
        }
        while stack.len() > 0
            invariant
                store == dag_pool@,
                roots == cids@,
                store.dom().finite(),
                seen.seq().no_duplicates(),
                seen@.subset_of(reach_set(store, roots)),
                seen@.subset_of(store.dom()),
                cid_views(stack@).to_set().subset_of(reach_set(store, roots)),
                roots.subset_of(seen@.union(cid_views(stack@).to_set())),
                forall|parent: Seq<char>, child: Seq<char>|
                    seen@.contains(parent) && #[trigger] links(store, parent, child)
                        ==> seen@.union(cid_views(stack@).to_set()).contains(child),
            decreases store.dom().difference(seen@).len(), stack.len(),
        {
            let ghost seen_before = seen@;
            proof {
                lemma_drop_last_to_set(cid_views(stack@));
                assert(cid_views(stack@).drop_last() =~= cid_views(stack@.drop_last()));
            }
            let cid = stack.pop().unwrap();
            let ghost top = cid@;
            let ghost rest = cid_views(stack@);
            assert(reach_set(store, roots).contains(top));
            if seen.contains(&cid) {
                continue ;
            }
            match dag_pool.get_node(&cid) {
                None => {
                    return Err(DagError::DanglingReference(cid));
                },
                Some(node) => {
                    seen.insert(cid);
                    push_all(&mut stack, &node.child_cids);
                    proof {
                        lemma_concat_to_set(rest, node.child_cids.seq());
                        lemma_reach_closed(store, roots);
                        assert forall|child: Seq<char>|
                            node.child_cids@.contains(child) implies reach_set(
                            store,
                            roots,
                        ).contains(child) by {
                            assert(links(store, top, child));
                        }
                        assert(store.dom().difference(seen@) =~= store.dom().difference(
                            seen_before,
                        ).remove(top));
                    }
                },
            }
        }
        proof {
            assert(cid_views(stack@).to_set() =~= Set::<Seq<char>>::empty());
            lemma_reach_least(store, roots, seen@);
            assert(seen@ =~= reach_set(store, roots));
            assert forall|c: Seq<char>| #[trigger] reachable(store, roots, c) implies store.contains_key(
                c,
            ) by {
                assert(reach_set(store, roots).contains(c));
            }
        }
        Ok(seen)
    }

    /// The values of all nodes that can be reached from `cids`.
    pub fn dfs(cids: &CidSet, dag_pool: &DagSyncer) -> (r: Result<HashSet<i64>, DagError>)
        ensures
            match r {
                Ok(values) => {
                    &&& complete(dag_pool@, cids@)
                    &&& values@ == reachable_values(dag_pool@, cids@)
                },
                Err(e) => {
                    &&& e matches DagError::DanglingReference(c)
                    &&& reachable(dag_pool@, cids@, c@)
                    &&& !dag_pool@.contains_key(c@)
                },
            },
    {
        broadcast use vstd::std_specs::hash::group_hash_axioms;

        let seen = match Self::dfs_cid(cids, dag_pool) {
            Ok(seen) => seen,
            Err(e) => {
                return Err(e);
            },
        };
        let ghost store = dag_pool@;
        let mut values: HashSet<i64> = HashSet::new();
        let order = seen.as_slice();
        let mut i: usize = 0;
        assert(values@ =~= values_of(store, seen.seq().subrange(0, 0).to_set()));
        while i < order.len()
            invariant
                i <= order.len(),
                cid_views(order@) == seen.seq(),
                store == dag_pool@,
                seen@.subset_of(store.dom()),
                values@ == values_of(store, seen.seq().subrange(0, i as int).to_set()),
            decreases order.len() - i,
        {
            assert(seen.seq().contains(seen.seq()[i as int]));
            let node = dag_pool.get_node(&order[i]).unwrap();
            values.insert(node.payload.1);
            proof {
                let done = seen.seq().subrange(0, i as int).to_set();
                lemma_prefix_to_set(seen.seq(), i as int);
                lemma_values_of_insert(store, done, seen.seq()[i as int]);
            }
            i += 1;
        }
        assert(seen.seq().subrange(0, i as int) =~= seen.seq());
        Ok(values)
    }

    /// Merges the graph `merkle_dag` into this one; both are entered through
    /// `dag_pool`. Where the roots are the same, nothing changes. Where all
    /// roots of this graph can be reached from `merkle_dag`, this graph
    /// takes the roots of `merkle_dag`. Where all roots of `merkle_dag` can
    /// be reached from this graph, nothing changes. Else the roots of
    /// `merkle_dag` are added to those of this graph. No node is made.
    ///
    /// Fails, and changes nothing, where a walk that this takes meets an
    /// identifier under which the store holds nothing.
    pub fn merge(&mut self, merkle_dag: &MerkleDag, dag_pool: &DagSyncer) -> (r: Result<
        (),
        DagError,
    >)
        ensures
            match r {
                Ok(_) => {
                    &&& mergeable(dag_pool@, old(self)@, merkle_dag@)
                    &&& final(self)@ == merged_roots(dag_pool@, old(self)@, merkle_dag@)
                    &&& reachable_values(dag_pool@, final(self)@) == reachable_values(
                        dag_pool@,
                        old(self)@,
                    ).union(reachable_values(dag_pool@, merkle_dag@))
                },
                Err(e) => {
                    &&& !mergeable(dag_pool@, old(self)@, merkle_dag@)
                    &&& final(self)@ == old(self)@
                    &&& e matches DagError::DanglingReference(c)
                    &&& !dag_pool@.contains_key(c@)
                    &&& if complete(dag_pool@, merkle_dag@) {
                        reachable(dag_pool@, old(self)@, c@)
                    } else {
                        reachable(dag_pool@, merkle_dag@, c@)
                    }
                },
            },
    {
        let ghost store = dag_pool@;
        let ghost mine = self@;
        let ghost theirs = merkle_dag@;
        proof {
            lemma_merge_values_union(store, mine, theirs);
        }
        if self.graph.get_nodes().equals(merkle_dag.graph.get_nodes()) {
            return Ok(());
        }
        let their_reach = match Self::dfs_cid(merkle_dag.graph.get_nodes(), dag_pool) {
            Ok(seen) => seen,
            Err(e) => {
                return Err(e);
            },
        };
        if all_within(self.graph.get_nodes(), &their_reach) {
            *self = merkle_dag.clone();
            return Ok(());
        }
        let my_reach = match Self::dfs_cid(self.graph.get_nodes(), dag_pool) {
            Ok(seen) => seen,
            Err(e) => {
                return Err(e);
            },
        };
        if all_within(merkle_dag.graph.get_nodes(), &my_reach) {
            return Ok(());
        }
        let their_roots = merkle_dag.graph.get_nodes();
        let items = their_roots.as_slice();
        let mut i: usize = 0;
        assert(self@ =~= mine.union(their_roots.seq().subrange(0, 0).to_set()));
        while i < items.len()
            invariant
                i <= items.len(),
                cid_views(items@) == their_roots.seq(),
                self@ == mine.union(their_roots.seq().subrange(0, i as int).to_set()),
            decreases items.len() - i,
        {
            self.graph.add_node(items[i].clone());
            proof {
                lemma_prefix_to_set(their_roots.seq(), i as int);
                assert(self@ =~= mine.union(their_roots.seq().subrange(0, i + 1).to_set()));
            }
            i += 1;
        }
        assert(their_roots.seq().subrange(0, i as int) =~= their_roots.seq());
        Ok(())
    }

    /// The values of all nodes that can be reached from the roots. A node
    /// that is reached along several paths counts once.
    pub fn search(&self, dag_pool: &DagSyncer) -> (r: Result<HashSet<i64>, DagError>)
        ensures
            match r {
                Ok(values) => {
                    &&& complete(dag_pool@, self@)
                    &&& values@ == reachable_values(dag_pool@, self@)
                },
                Err(e) => {
                    &&& e matches DagError::DanglingReference(c)
                    &&& reachable(dag_pool@, self@, c@)
                    &&& !dag_pool@.contains_key(c@)
                },
            },
    {
        Self::dfs(self.graph.get_nodes(), dag_pool)
    }
}

} // verus!
