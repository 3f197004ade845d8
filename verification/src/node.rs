//! The vertices of the graph.

use crate::cid::Cid;
use crate::cid_set::CidSet;
use crate::codec::{content_cid, derive_cid};
use crate::error::DagError;
use vstd::prelude::*;

verus! {

/// What a node carries: the name of an operation and its operand.
pub type Payload = (String, i64);

/// A node as a mathematical value.
pub ghost struct NodeView {
    /// The identifier under which the node presents itself.
    pub cid: Seq<char>,
    /// The name of the operation.
    pub label: Seq<char>,
    /// The operand.
    pub value: i64,
    /// The identifiers of the children.
    pub children: Set<Seq<char>>,
}

/// One vertex: a payload, the identifiers of its children, and its own
/// identifier. A node is never changed once it is built.
#[derive(Debug)]
pub struct Node {
    pub cid: Cid,
    pub payload: Payload,
    pub child_cids: CidSet,
}

impl View for Node {
    type V = NodeView;

    open spec fn view(&self) -> NodeView {
        NodeView {
            cid: self.cid@,
            label: self.payload.0@,
            value: self.payload.1,
            children: self.child_cids@,
        }
    }
}

/// The node presents itself under the identifier that its content gives.
pub open spec fn content_addressed(node: NodeView) -> bool {
    content_cid(node.label, node.value as int, node.children) == Some(node.cid)
}

/// Two nodes with the same payload and the same set of children, each under
/// the identifier that its content gives, have the same identifier.
pub proof fn lemma_same_content_same_cid(a: NodeView, b: NodeView)
    requires
        content_addressed(a),
        content_addressed(b),
        a.label == b.label,
        a.value == b.value,
        a.children == b.children,
    ensures
        a.cid == b.cid,
{
}

impl Node {
    /// The node with this payload and these children, under the identifier
    /// that the two give. Fails, and builds no node, where they cannot be
    /// encoded.
    pub fn new(payload: Payload, child_cids: CidSet) -> (r: Result<Node, DagError>)
        ensures
            match content_cid(payload.0@, payload.1 as int, child_cids@) {
                Some(cid) => r matches Ok(node) && node@ == (NodeView {
                    cid,
                    label: payload.0@,
                    value: payload.1,
                    children: child_cids@,
                }),
                None => r matches Err(e) && e == DagError::Encoding,
            },
    {
        match derive_cid(&payload, child_cids.as_slice()) {
            Some(cid) => Ok(Node { cid, payload, child_cids }),
            None => Err(DagError::Encoding),
        }
    }
}

impl Clone for Node {
    fn clone(&self) -> (r: Node)
        ensures
            r@ == self@,
    {
        Node {
            cid: self.cid.clone(),
            payload: (self.payload.0.clone(), self.payload.1),
            child_cids: self.child_cids.clone(),
        }
    }
}

} // verus!
