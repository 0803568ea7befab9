//! Edit operation types consumed by the splice assembly layer.
use std::ops::Range;
use vstd::prelude::*;

verus! {

/// Describes the kind of edit operation to apply.
#[derive(Debug, PartialEq)]
pub enum DirtyKind {
    /// Replace a range of original text with new text.
    Region { range: Range<usize>, indent: usize, text: String },
    /// Insert text at a byte offset.
    Insert { at: usize, text: String },
    /// Delete a range of original text.
    Delete { range: Range<usize> },
}

/// A single edit unit with eligibility information.
#[derive(Debug, Clone, PartialEq)]
pub struct DirtyUnit {
    pub kind: DirtyKind,
    pub eligible: bool,
}

impl Clone for DirtyKind {
    fn clone(&self) -> (res: Self)
        ensures
            res == *self,
    {
        match self {
            DirtyKind::Region { range, indent, text } => DirtyKind::Region {
                range: range.start..range.end,
                indent: *indent,
                text: text.clone(),
            },
            DirtyKind::Insert { at, text } => DirtyKind::Insert { at: *at, text: text.clone() },
            DirtyKind::Delete { range } => DirtyKind::Delete { range: range.start..range.end },
        }
    }
}

} // verus!
