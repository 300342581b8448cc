//! The id-generator node: it owns a message-id counter; this node kind
//! defines no request handling of its own.

use vstd::prelude::*;

verus! {

/// A node that hands out ids from a counter.
#[derive(Debug, Clone, PartialEq, Eq)]
pub struct IdGeneratorMaelstromNode {
    pub id: i64,
}

impl IdGeneratorMaelstromNode {
    pub fn new(id: i64) -> (node: IdGeneratorMaelstromNode)
        ensures
            node.id == id,
    {
        IdGeneratorMaelstromNode { id }
    }
}

impl Default for IdGeneratorMaelstromNode {
    fn default() -> (node: IdGeneratorMaelstromNode)
        ensures
            node.id == 1,
    {
        IdGeneratorMaelstromNode::new(1)
    }
}

} // verus!
