//! The root frontier of a graph.

use crate::cid::Cid;
use crate::cid_set::CidSet;
use vstd::prelude::*;

verus! {

/// The identifiers through which a graph is entered: a set, walked in
/// ascending order.
#[derive(Debug)]
pub struct Graph {
    nodes: CidSet,
}

impl View for Graph {
    type V = Set<Seq<char>>;

    closed spec fn view(&self) -> Set<Seq<char>> {
        self.nodes@
    }
}

impl Graph {
    /// A graph without roots.
    pub fn new() -> (r: Graph)
        ensures
            r@ == Set::<Seq<char>>::empty(),
    {
        Graph { nodes: CidSet::new() }
    }

    /// Makes `cid` a root. Returns whether it was none before.
    pub fn add_node(&mut self, cid: Cid) -> (r: bool)
        ensures
            final(self)@ == old(self)@.insert(cid@),
            r == !old(self)@.contains(cid@),
    {
        self.nodes.insert(cid)
    }

    /// The roots.
    pub fn get_nodes(&self) -> (r: &CidSet)
        ensures
            r@ == self@,
    {
        &self.nodes
    }

    /// Removes every root.
    pub fn delete_all_nodes(&mut self)
        ensures
            final(self)@ == Set::<Seq<char>>::empty(),
    {
        self.nodes = CidSet::new();
    }

    /// Whether `cid` is a root.
    pub fn search(&self, cid: Cid) -> (r: bool)
        ensures
            r == self@.contains(cid@),
    {
        self.nodes.contains(&cid)
    }
}

impl Clone for Graph {
    fn clone(&self) -> (r: Graph)
        ensures
            r@ == self@,
    {
        Graph { nodes: self.nodes.clone() }
    }
}

} // verus!
