//! Anchors attach metadata to a region of a text file and follow that region
//! as the file changes. The region is found again by local sequence
//! alignment of the stored context against the file's current text.

pub mod alignment;
pub mod anchor;
pub mod diff;
pub mod errors;
pub mod scoring;
pub mod updating;
