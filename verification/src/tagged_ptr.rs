//! The tagged-pointer primitive: a nullable node handle carrying one
//! "seen" bit.
//!
//! A child slot of a node holds one of these. While no traversal is in
//! progress every slot is untagged and holds the genuine child handle (or
//! none). During a traversal a slot may be overwritten with a back-link —
//! the handle of the node to return to — and the tag marks the slot as
//! repurposed. All operations here are pure value manipulation; nothing is
//! dereferenced.

use vstd::prelude::*;

verus! {

/// A nullable arena handle plus one "seen" tag bit.
#[derive(Clone, Copy, PartialEq, Eq, Structural, Debug)]
pub struct TaggedPtr {
    pub target: Option<usize>,
    pub tag: bool,
}

impl TaggedPtr {
    /// The handle this value carries, regardless of the tag.
    pub open spec fn tgt(self) -> Option<int> {
        match self.target {
            Some(i) => Some(i as int),
            None => None,
        }
    }

    /// Whether the slot is marked "seen".
    pub open spec fn seen_bit(self) -> bool {
        self.tag
    }

    /// Wraps a nullable handle; the tag starts clear.
    pub fn from_untagged(target: Option<usize>) -> (r: Self)
        ensures
            r.tgt() == handle(target),
            !r.seen_bit(),
    {
        TaggedPtr { target, tag: false }
    }

    /// Recovers the bare handle, independent of the tag state.
    pub fn as_untagged(self) -> (r: Option<usize>)
        ensures
            handle(r) == self.tgt(),
    {
        self.target
    }

    /// Tests the tag.
    pub fn is_seen(self) -> (r: bool)
        ensures
            r == self.seen_bit(),
    {
        self.tag
    }

    /// The same handle with the tag set.
    pub fn seen(self) -> (r: Self)
        ensures
            r.tgt() == self.tgt(),
            r.seen_bit(),
    {
        TaggedPtr { target: self.target, tag: true }
    }

    /// The same handle with the tag cleared.
    pub fn unseen(self) -> (r: Self)
        ensures
            r.tgt() == self.tgt(),
            !r.seen_bit(),
    {
        TaggedPtr { target: self.target, tag: false }
    }
}

/// An executable nullable handle, as it appears in specifications.
pub open spec fn handle(h: Option<usize>) -> Option<int> {
    match h {
        Some(i) => Some(i as int),
        None => None,
    }
}

} // verus!
