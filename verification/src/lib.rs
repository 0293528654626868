//! Gradient-boosted decision trees: the integer and byte-level core.
//!
//! Floating-point values that the model carries (thresholds, leaf values,
//! scores) are held here by their IEEE-754 bit patterns (`u64`), so that the
//! model file format, tree structure and binning decisions can be verified.

pub mod float_bits;
pub mod model;
pub mod tree;
pub mod growth;
pub mod data;
pub mod sorting;
pub mod search;
pub mod context;
pub mod binning;
pub mod categorical;
pub mod loss;
pub mod booster;
pub mod api;
pub mod cli;
pub mod abi;
pub mod schema;
pub mod early_stop;
pub mod table;
