//! What an alignment is made of.

use vstd::prelude::*;

verus! {

/// One step of an alignment. The indices count characters of the two
/// aligned sequences, from zero.
#[derive(Clone, Copy, Debug, PartialEq, Eq, Structural)]
pub enum AlignmentCell {
    /// No gap: a character of the left sequence paired with one of the right.
    Both { left: usize, right: usize },
    /// A gap on the right: a character of the left sequence alone.
    RightGap { left: usize },
    /// A gap on the left: a character of the right sequence alone.
    LeftGap { right: usize },
}

/// Alignment cells in increasing order of index.
pub type Alignment = Vec<AlignmentCell>;

/// A score, and every alignment that reaches it.
pub type Alignments = (i64, Vec<Alignment>);

/// The contents of each vector of `v`, in order.
pub open spec fn views<T>(v: Seq<Vec<T>>) -> Seq<Seq<T>> {
    v.map_values(|r: Vec<T>| r@)
}

} // verus!
