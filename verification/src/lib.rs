//! Probabilistic state model of an overlapping-block texture synthesiser.
//!
//! A seed image is summarised by its colour palette and by the frequency of
//! every block-sized window in it. Each cell of the output grid keeps a mask
//! of the blocks it may still become; the model finds the least uncertain
//! cell and collapses it by a weighted random choice.

pub mod bitmask;
pub mod sourceimage;
pub mod grid;
pub mod utils;
pub mod palette;
pub mod statetable;
pub mod overlappingmodel;
