//! What a filesystem scan reports.

use vstd::prelude::*;

use crate::aggregate;
use crate::aggregate::{AggregateError, Totals};
use crate::arena;
use crate::arena::NodeArena;

verus! {

/// Nodes together with their totals.
#[derive(Debug)]
pub struct ScanResult {
    pub arena: NodeArena,
    pub totals: Vec<Totals>,
}

/// `totals` holds the totals of every subtree of the tree `nodes`.
pub open spec fn totals_of_tree(nodes: Seq<crate::node::Node>, totals: Seq<Totals>) -> bool {
    &&& aggregate::parents_exist(nodes)
    &&& aggregate::rooted(nodes)
    &&& totals.len() == nodes.len()
    &&& forall|i: int|
        0 <= i < nodes.len() ==> aggregate::accounts_for(
            #[trigger] totals[i],
            nodes,
            i,
            aggregate::subtree(nodes, i),
        )
}

impl ScanResult {
    /// Every total belongs to the subtree of its node.
    pub open spec fn sound(self) -> bool {
        totals_of_tree(self.arena.node_list(), self.totals@)
    }

    /// The result can be browsed: there is a root, every node has an id, a stored name and totals,
    /// and children stand side by side.
    pub open spec fn browsable(self) -> bool {
        let nodes = self.arena.node_list();
        &&& 1 <= nodes.len() <= u32::MAX + 1
        &&& self.totals@.len() == nodes.len()
        &&& arena::children_grouped(nodes)
        &&& arena::names_stored(nodes, self.arena.name_bytes())
    }

    /// Adds the totals to an arena.
    pub fn new(arena: NodeArena) -> (result: Result<ScanResult, AggregateError>)
        ensures
            match result {
                Ok(scan) => scan.arena == arena && scan.sound(),
                Err(AggregateError::ParentCycle) => aggregate::parents_exist(arena.node_list())
                    && !aggregate::rooted(arena.node_list()),
                Err(error) => aggregate::first_invalid_parent(arena.node_list(), error),
            },
    {
        match aggregate::aggregate(arena.nodes()) {
            Ok(totals) => Ok(ScanResult { arena, totals }),
            Err(error) => Err(error),
        }
    }
}

/// What is known of a filesystem before it is scanned.
#[derive(Clone, Debug)]
pub struct FilesystemInfo {
    /// Path of the device, image or mount point.
    pub device: Vec<u8>,
    pub filesystem_type: &'static str,
    pub block_size: u32,
    pub inode_count: u64,
    pub reported_allocated_inodes: u64,
    pub feature_compat: u32,
    pub feature_incompat: u32,
    pub feature_ro_compat: u32,
    pub size_accounting: &'static str,
}

/// How long each part of a scan took, in nanoseconds.
#[derive(Clone, Copy, Debug)]
pub struct ScanTimings {
    pub open: u128,
    pub inode_scan: u128,
    pub directory_scan: u128,
    pub tree_build: u128,
    pub aggregation: u128,
}

impl Default for ScanTimings {
    fn default() -> (timings: ScanTimings)
        ensures
            timings == (ScanTimings {
                open: 0,
                inode_scan: 0,
                directory_scan: 0,
                tree_build: 0,
                aggregation: 0,
            }),
    {
        ScanTimings { open: 0, inode_scan: 0, directory_scan: 0, tree_build: 0, aggregation: 0 }
    }
}

/// The longest duration, `u64::MAX` seconds and 999999999 nanoseconds, in nanoseconds.
pub const LONGEST_DURATION: u128 = 18446744073709551615999999999;

impl ScanTimings {
    /// Sum of all parts.
    pub open spec fn sum(self) -> int {
        self.open + self.inode_scan + self.directory_scan + self.tree_build + self.aggregation
    }

    /// The whole scan.
    pub fn scan_total(self) -> (total: u128)
        requires
            self.sum() <= LONGEST_DURATION,
        ensures
            total == self.sum(),
    {
        self.open + self.inode_scan + self.directory_scan + self.tree_build + self.aggregation
    }
}

/// What a scan counted.
#[derive(Clone, Copy, Debug, Eq, PartialEq, Structural)]
pub struct ScanStats {
    pub allocated_inodes: u64,
    pub files: u64,
    pub directories: u64,
    pub symlinks: u64,
    pub other: u64,
    pub nodes: u64,
    pub directory_entries: u64,
    pub hard_link_entries: u64,
}

impl Default for ScanStats {
    fn default() -> (stats: ScanStats)
        ensures
            stats == (ScanStats {
                allocated_inodes: 0,
                files: 0,
                directories: 0,
                symlinks: 0,
                other: 0,
                nodes: 0,
                directory_entries: 0,
                hard_link_entries: 0,
            }),
    {
        ScanStats {
            allocated_inodes: 0,
            files: 0,
            directories: 0,
            symlinks: 0,
            other: 0,
            nodes: 0,
            directory_entries: 0,
            hard_link_entries: 0,
        }
    }
}

/// What a scan could not make sense of.
#[derive(Clone, Copy, Debug, Eq, PartialEq, Structural)]
pub struct ScanWarnings {
    pub missing_inode_references: u64,
    pub nodes_without_parent: u64,
    pub directory_scan_errors: u64,
    pub directory_aliases: u64,
}

impl Default for ScanWarnings {
    fn default() -> (warnings: ScanWarnings)
        ensures
            warnings == (ScanWarnings {
                missing_inode_references: 0,
                nodes_without_parent: 0,
                directory_scan_errors: 0,
                directory_aliases: 0,
            }),
    {
        ScanWarnings {
            missing_inode_references: 0,
            nodes_without_parent: 0,
            directory_scan_errors: 0,
            directory_aliases: 0,
        }
    }
}

impl ScanWarnings {
    /// Sum of all warnings.
    pub open spec fn sum(self) -> int {
        self.missing_inode_references + self.nodes_without_parent + self.directory_scan_errors
            + self.directory_aliases
    }

    /// Number of warnings of all sorts.
    pub fn total(self) -> (total: u64)
        requires
            self.sum() <= u64::MAX,
        ensures
            total == self.sum(),
    {
        self.missing_inode_references + self.nodes_without_parent + self.directory_scan_errors
            + self.directory_aliases
    }
}

/// The outcome of a scan.
#[derive(Debug)]
pub struct FilesystemScan {
    pub result: ScanResult,
    pub stats: ScanStats,
    pub timings: ScanTimings,
    pub warnings: ScanWarnings,
    pub workers: usize,
}

/// A scanned tree before its totals are taken.
#[derive(Debug)]
pub struct LaidOut {
    pub arena: NodeArena,
    pub stats: ScanStats,
    pub warnings: ScanWarnings,
}

impl LaidOut {
    /// Takes the totals.
    pub fn finish(self, timings: ScanTimings, workers: usize) -> (result: Result<
        FilesystemScan,
        AggregateError,
    >)
        ensures
            match result {
                Ok(scan) => {
                    &&& scan.result.arena == self.arena
                    &&& scan.result.sound()
                    &&& scan.stats == self.stats
                    &&& scan.warnings == self.warnings
                    &&& scan.timings == timings
                    &&& scan.workers == workers
                },
                Err(AggregateError::ParentCycle) => aggregate::parents_exist(
                    self.arena.node_list(),
                ) && !aggregate::rooted(self.arena.node_list()),
                Err(error) => aggregate::first_invalid_parent(self.arena.node_list(), error),
            },
    {
        match ScanResult::new(self.arena) {
            Ok(result) => Ok(
                FilesystemScan {
                    result,
                    stats: self.stats,
                    timings,
                    warnings: self.warnings,
                    workers,
                },
            ),
            Err(error) => Err(error),
        }
    }
}

} // verus!
