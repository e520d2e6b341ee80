//! Local sequence alignment: the alignment cells, the two matrices, and the
//! Smith-Waterman engine that fills and reads them.

pub mod align;
pub mod matrix;
pub mod model;
pub mod smith_waterman;
pub mod theorems;
