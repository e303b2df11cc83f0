//! Disk usage analysis for Linux filesystems: the tree model, the accounting over it, and the
//! decisions that the command line and graphical front ends make on top.

pub mod aggregate;
pub mod arena;
pub mod btrfs;
pub mod device_access;
pub mod ext4;
pub mod failure;
pub mod file_ops;
pub mod filesystem;
pub mod formatting;
pub mod layout;
pub mod node;
pub mod order;
pub mod paths;
pub mod presentation;
pub mod rank;
pub mod report;
pub mod scan;
pub mod session;
pub mod startup;
pub mod text;
pub mod tree_model;
pub mod treemap;
pub mod volumes;

pub use aggregate::{aggregate, AggregateError, Totals};
pub use arena::{ArenaError, NameArena, NodeArena};
pub use btrfs::error::BtrfsError;
pub use btrfs::mount::BtrfsFilesystem;
pub use ext4::error::Ext4Error;
pub use ext4::scan::Ext4Filesystem;
pub use filesystem::{Filesystem, FilesystemError};
pub use node::{NameRef, Node, NodeId, NodeKind};
pub use rank::{rank_largest, RankFilter, RankedNode};
pub use scan::{
    FilesystemInfo, FilesystemScan, ScanResult, ScanStats, ScanTimings, ScanWarnings,
};
