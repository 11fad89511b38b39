//! Encoding of memory-mapped register descriptions into a generic tree of
//! tagged nodes, driven by a formatting policy.

pub mod config;
pub mod encode;
pub mod sorting;
pub mod svd;
pub mod tree;
