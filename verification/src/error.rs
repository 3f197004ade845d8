//! The ways in which an operation on the graph can fail.

use crate::cid::Cid;
use vstd::prelude::*;

verus! {

/// Why a node could not be built or a graph could not be walked.
#[derive(Debug, PartialEq, Eq)]
pub enum DagError {
    /// The content of a node has no canonical encoding, so no identifier
    /// could be derived and no node was produced.
    Encoding,
    /// The store holds nothing under this identifier, although a root or a
    /// stored node refers to it.
    DanglingReference(Cid),
}

impl Clone for DagError {
    fn clone(&self) -> (r: DagError)
        ensures
            r == *self,
    {
        match self {
            DagError::Encoding => DagError::Encoding,
            DagError::DanglingReference(cid) => DagError::DanglingReference(cid.clone()),
        }
    }
}

} // verus!
