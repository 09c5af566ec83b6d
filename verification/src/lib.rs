//! Semi-destructive "jigsaw" shuffling of two-dimensional arrays.
//!
//! The eligible region of a grid is partitioned into maximal power-of-two
//! square blocks (a bottom-up quadtree reduction of a per-cell mask), and the
//! blocks of each size are then relocated by a random permutation, optionally
//! flipping or rotating each block.  No cell value is duplicated or dropped:
//! the output holds exactly the multiset of values of the input, and cells
//! masked out of the shuffle keep their places.

pub mod config;
pub mod grid;
pub mod mask;
pub mod perm;
mod rng;
pub mod shuffle;

pub use crate::config::{Config, ConfigBuilder, floor_log2};
pub use crate::grid::{Grid, grid_fill};
pub use crate::mask::{mask_expand, mask_to_levels};
pub use crate::perm::index_vec;
pub use crate::shuffle::{
    Mode, ShuffleError, collect_blocks, copy_block, jigshuffle, relocate_level,
};
