//! Scanning btrfs filesystems.

pub mod direct;
pub mod error;
pub mod mount;
pub mod naive;
pub mod search;
