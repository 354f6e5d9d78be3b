//! The distance and scan kernels of direct sampling, under one name.

pub use crate::distance::{
    dist_block_categorical, dist_block_l1, dist_block_l2, dist_block_lp,
};
pub use crate::scan::{scan_node, scan_node_categorical};
