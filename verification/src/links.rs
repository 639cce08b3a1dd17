//! Universal link representation for ebook formats.
//!
//! Ebooks use fundamentally different addressing modes: EPUB uses semantic
//! ids (`chapter2.xhtml#section-5`), AZW3/KFX use physical offsets
//! (`kindle:pos:fid:000B:off:00000002SO`). These types capture both.

use vstd::prelude::*;

verus! {

/// Index of a node inside one chapter's node arena.
#[derive(Debug, Clone, Copy, PartialEq, Eq, Hash, PartialOrd, Ord, Structural)]
pub struct NodeId(pub u32);

impl NodeId {
    /// The root node of every chapter.
    pub fn root() -> (r: NodeId)
        ensures
            r.0 == 0,
    {
        NodeId(0)
    }

    /// The node id as an arena index.
    pub open spec fn idx(self) -> nat {
        self.0 as nat
    }
}

/// Unique identifier for a chapter/spine item within a book.
#[derive(Debug, Clone, Copy, PartialEq, Eq, Hash, PartialOrd, Ord, Structural)]
pub struct ChapterId(pub u32);

/// Uniquely identifies a node across the entire book: a chapter identifier
/// together with a node identifier inside that chapter's tree.
#[derive(Debug, Clone, Copy, PartialEq, Eq, Hash, Structural)]
pub struct GlobalNodeId {
    /// The chapter (spine item) containing the node.
    pub chapter: ChapterId,
    /// The node within that chapter's tree.
    pub node: NodeId,
}

impl GlobalNodeId {
    /// Create a new global node identifier.
    pub fn new(chapter: ChapterId, node: NodeId) -> (r: Self)
        ensures
            r.chapter == chapter,
            r.node == node,
    {
        GlobalNodeId { chapter, node }
    }
}

/// The resolved target of a link.
#[derive(Debug, Clone, PartialEq, Eq)]
pub enum AnchorTarget {
    /// Link to a specific node in a specific chapter.
    Internal(GlobalNodeId),
    /// Link to the start of a chapter (no fragment).
    Chapter(ChapterId),
    /// External URL.
    External(String),
}

} // verus!
