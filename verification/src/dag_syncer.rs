//! The store of nodes.

use crate::cid::Cid;
use crate::node::{Node, NodeView};
use vstd::hash_map::StringHashMap;
use vstd::prelude::*;

verus! {

/// What a store holds after `node` was put under `cid`: the first node put
/// under an identifier stays.
pub open spec fn store_put(
    store: Map<Seq<char>, NodeView>,
    cid: Seq<char>,
    node: NodeView,
) -> Map<Seq<char>, NodeView> {
    if store.contains_key(cid) {
        store
    } else {
        store.insert(cid, node)
    }
}

/// Putting under an identifier that was put under before changes nothing,
/// whatever node is brought: neither what the store holds nor how much.
pub proof fn lemma_put_again(
    store: Map<Seq<char>, NodeView>,
    cid: Seq<char>,
    first: NodeView,
    second: NodeView,
)
    ensures
        store_put(store_put(store, cid, first), cid, second) == store_put(store, cid, first),
        store_put(store_put(store, cid, first), cid, second).len() == store_put(
            store,
            cid,
            first,
        ).len(),
{
}

/// A store grows by one node at most when a node is put.
pub proof fn lemma_put_grows_by_one(store: Map<Seq<char>, NodeView>, cid: Seq<char>, node: NodeView)
    requires
        store.dom().finite(),
    ensures
        store_put(store, cid, node).dom().finite(),
        store_put(store, cid, node).len() == store.len() + if store.contains_key(cid) {
            0int
        } else {
            1int
        },
        forall|c: Seq<char>| #[trigger]
            store.contains_key(c) ==> store_put(store, cid, node).contains_key(c) && store_put(
                store,
                cid,
                node,
            )[c] == store[c],
{
}

/// The nodes of a map, each by its view.
pub open spec fn node_views(m: Map<Seq<char>, Node>) -> Map<Seq<char>, NodeView> {
    m.map_values(|n: Node| n@)
}

/// An append-only repository of nodes, each under an identifier.
pub struct DagSyncer {
    map: StringHashMap<Node>,
}

impl View for DagSyncer {
    type V = Map<Seq<char>, NodeView>;

    closed spec fn view(&self) -> Map<Seq<char>, NodeView> {
        node_views(self.map@)
    }
}

impl DagSyncer {
    /// A store holds finitely many nodes.
    #[verifier::type_invariant]
    pub open spec fn wf(&self) -> bool {
        self@.dom().finite()
    }

    /// The empty store.
    pub fn new() -> (r: DagSyncer)
        ensures
            r@ == Map::<Seq<char>, NodeView>::empty(),
    {
        let map: StringHashMap<Node> = StringHashMap::new();
        assert(node_views(map@) =~= Map::<Seq<char>, NodeView>::empty());
        assert(node_views(map@).dom() =~= Set::<Seq<char>>::empty());
        DagSyncer { map }
    }

    /// The node stored under `cid`, if there is one.
    pub fn get_node(&self, cid: &Cid) -> (r: Option<&Node>)
        ensures
            match r {
                Some(n) => self@.contains_key(cid@) && n@ == self@[cid@],
                None => !self@.contains_key(cid@),
            },
    {
        self.map.get(cid.as_str())
    }

    /// Whether a node is stored under `cid`.
    pub fn contains(&self, cid: &Cid) -> (r: bool)
        ensures
            r == self@.contains_key(cid@),
    {
        self.map.contains_key(cid.as_str())
    }

    /// The number of nodes in the store.
    pub fn len(&self) -> (n: usize)
        ensures
            n == self@.len(),
            self@.dom().finite(),
    {
        proof {
            use_type_invariant(self);
            assert(self@.dom() =~= self.map@.dom());
        }
        self.map.len()
    }

    /// Stores `node` under `cid`, unless a node is stored there already:
    /// then the store stays as it is.
    pub fn put_node(&mut self, cid: Cid, node: Node)
        ensures
            final(self)@ == store_put(old(self)@, cid@, node@),
    {
        proof {
            use_type_invariant(&*self);
        }
        if self.map.contains_key(cid.as_str()) {
            return ;
        }
        let ghost before = self.map@;
        let mut map: StringHashMap<Node> = StringHashMap::new();
        assert(node_views(map@).dom() =~= Set::<Seq<char>>::empty());
        std::mem::swap(&mut map, &mut self.map);
        map.insert(cid, node);
        proof {
            assert(node_views(map@) =~= node_views(before).insert(cid@, node@));
            assert(node_views(map@).dom() =~= node_views(before).dom().insert(cid@));
        }
        self.map = map;
    }
}

} // verus!
