//! The node records stored in a document's arena, and the value-type
//! snapshot handed out to callers.

use vstd::prelude::*;

verus! {

/// Events reported to a subscribed callback.
#[derive(PartialEq, Eq, Structural, Clone, Copy, Debug)]
pub enum Event {
    Parse,
    Insert,
    Remove,
}

/// The syntactic kinds a node can have. `Null` is a scanner-internal
/// wildcard and is never stored on a live node.
#[derive(PartialEq, Eq, Structural, Clone, Copy, Debug)]
pub enum Kind {
    Node,
    Array,
    Integer,
    Float,
    String,
    Bool,
    Null,
}

/// One parsed construct of the document. `key` and `value` are half-open
/// character ranges into the document buffer.
#[derive(Clone, Debug)]
pub struct Node {
    pub root: bool,
    pub kind: Kind,
    pub parent: u64,
    pub childs: Vec<u64>,
    pub key: [usize; 2],
    pub value: [usize; 2],
    pub id: u64,
    pub opened: bool,
    pub instance: u64,
}

impl Node {
    /// A node has an empty key when the range is degenerate; the root and
    /// direct children of arrays are the nodes stored that way.
    pub open spec fn spec_key_is_empty(self) -> bool {
        self.key[0] == self.key[1]
    }
}

/// A value-type snapshot of a node with its key and value materialized.
#[derive(Clone, Debug)]
pub struct Vertex {
    pub root: bool,
    pub kind: Kind,
    pub parent: u64,
    pub childs: Vec<u64>,
    pub id: u64,
    pub instance: u64,
    pub key: String,
    pub value: String,
}

} // verus!
