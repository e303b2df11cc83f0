//! Scanning ext4 filesystems.

pub mod error;
pub mod laws;
pub mod merge;
pub mod scan;
pub mod tree;
