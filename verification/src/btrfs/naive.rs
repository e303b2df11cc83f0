//! Walking a mounted btrfs filesystem directory by directory.

use std::collections::{HashSet, VecDeque};

use vstd::prelude::*;

use crate::aggregate;
use crate::arena;
use crate::arena::{NameArena, NodeArena};
use crate::btrfs::direct;
use crate::btrfs::error::BtrfsError;
use crate::layout;
use crate::node::{NameRef, Node, NodeId, NodeKind};
use crate::scan::{
    FilesystemInfo, FilesystemScan, LaidOut, ScanStats, ScanTimings, ScanWarnings,
};
use crate::text;

verus! {

broadcast use vstd::std_specs::hash::group_hash_axioms;

/// What the system says of a file.
#[derive(Clone, Copy, Debug, Eq, PartialEq, Structural)]
pub struct FileMetadata {
    pub device: u64,
    pub inode: u64,
    pub is_dir: bool,
    pub is_file: bool,
    pub is_symlink: bool,
    pub len: u64,
    /// Number of blocks of 512 bytes.
    pub blocks: u64,
    pub links: u64,
    pub mtime: i64,
}

/// Device and inode, which tell files apart.
pub open spec fn key_of(metadata: FileMetadata) -> u128 {
    (metadata.device * 0x1_0000_0000_0000_0000 + metadata.inode) as u128
}

/// Two files have the same key exactly if they are the same inode of the same device.
pub proof fn law_keys_tell_files_apart(one: FileMetadata, other: FileMetadata)
    ensures
        key_of(one) == key_of(other) <==> one.device == other.device && one.inode == other.inode,
{
    assert(one.device * 0x1_0000_0000_0000_0000 + one.inode <= u128::MAX) by (nonlinear_arith)
        requires
            one.device <= u64::MAX,
            one.inode <= u64::MAX,
    ;
    assert(other.device * 0x1_0000_0000_0000_0000 + other.inode <= u128::MAX) by (nonlinear_arith)
        requires
            other.device <= u64::MAX,
            other.inode <= u64::MAX,
    ;
}

/// The key of a file.
pub fn file_key(metadata: &FileMetadata) -> (key: u128)
    ensures
        key == key_of(*metadata),
{
    assert(metadata.device * 0x1_0000_0000_0000_0000 + metadata.inode <= u128::MAX)
        by (nonlinear_arith)
        requires
            metadata.device <= u64::MAX,
            metadata.inode <= u64::MAX,
    ;
    metadata.device as u128 * 0x1_0000_0000_0000_0000 + metadata.inode as u128
}

/// The kind of a file.
pub open spec fn kind_of(metadata: FileMetadata) -> NodeKind {
    NodeKind::of_flags(metadata.is_dir, metadata.is_file, metadata.is_symlink)
}

/// The kind of a file.
pub fn kind(metadata: &FileMetadata) -> (kind: NodeKind)
    ensures
        kind == kind_of(*metadata),
{
    NodeKind::from_flags(metadata.is_dir, metadata.is_file, metadata.is_symlink)
}

/// Size of a block in bytes.
pub const BLOCK: u64 = 512;

/// The node of a file. Only the first one of several names carries the allocation.
pub open spec fn node_of(
    parent: NodeId,
    name: NameRef,
    metadata: FileMetadata,
    kind: NodeKind,
    first: bool,
) -> Node {
    Node {
        parent,
        inode: metadata.inode,
        name,
        kind,
        logical_size: metadata.len,
        allocated_size: if first {
            (metadata.blocks * BLOCK) as u64
        } else {
            0
        },
        links: metadata.links as u32,
        mtime: metadata.mtime,
    }
}

/// The node of a file.
pub fn node_with_size(
    parent: NodeId,
    name: NameRef,
    metadata: &FileMetadata,
    kind: NodeKind,
    owns_allocation: bool,
) -> (node: Node)
    requires
        owns_allocation ==> metadata.blocks * BLOCK <= u64::MAX,
    ensures
        node == node_of(parent, name, *metadata, kind, owns_allocation),
{
    let links: u32 = #[verifier::truncate]
    (metadata.links as u32);
    Node {
        parent,
        inode: metadata.inode,
        name,
        kind,
        logical_size: metadata.len,
        allocated_size: if owns_allocation {
            metadata.blocks * BLOCK
        } else {
            0
        },
        links,
        mtime: metadata.mtime,
    }
}

/// How far a walk has come.
#[verifier::ext_equal]
pub struct WalkState {
    pub nodes: Seq<Node>,
    pub names: Seq<u8>,
    /// Keys of the files that have a node.
    pub seen: Set<u128>,
    /// The directories still to be read, with their nodes.
    pub queue: Seq<(Seq<u8>, NodeId)>,
    /// The directory that is being read.
    pub current: NodeId,
    /// Directories and entries that could not be read.
    pub failed: nat,
    /// Entries that were gone when their turn came.
    pub missing: nat,
    /// Nodes of files that already had one.
    pub hard_links: nat,
}

/// A walk at its start, below the directory `root`.
pub open spec fn walk_start(root: Seq<u8>, metadata: FileMetadata) -> WalkState {
    WalkState {
        nodes: seq![
            node_of(
                NodeId(0),
                NameRef { offset: 0, len: 1 },
                metadata,
                NodeKind::Directory,
                true,
            ),
        ],
        names: seq![text::SLASH, 0u8],
        seen: Set::empty().insert(key_of(metadata)),
        queue: seq![(root, NodeId(0))],
        current: NodeId(0),
        failed: 0,
        missing: 0,
        hard_links: 0,
    }
}

/// A walk after an entry of the current directory. A directory is queued wherever it turns up.
pub open spec fn with_entry(
    walk: WalkState,
    name: Seq<u8>,
    path: Seq<u8>,
    metadata: FileMetadata,
) -> WalkState {
    let first = !walk.seen.contains(key_of(metadata));
    let id = NodeId(walk.nodes.len() as u32);
    let stored = NameRef { offset: walk.names.len() as u32, len: name.len() as u16 };
    WalkState {
        nodes: walk.nodes.push(
            node_of(walk.current, stored, metadata, kind_of(metadata), first),
        ),
        names: walk.names + name + seq![0u8],
        seen: walk.seen.insert(key_of(metadata)),
        queue: if kind_of(metadata) == NodeKind::Directory {
            walk.queue.push((path, id))
        } else {
            walk.queue
        },
        current: walk.current,
        failed: walk.failed,
        missing: walk.missing,
        hard_links: walk.hard_links + if first {
            0nat
        } else {
            1nat
        },
    }
}

/// The nodes still to be read stand behind the current one in the order of the queue.
pub open spec fn queue_sound(walk: WalkState) -> bool {
    &&& walk.current.0 < walk.nodes.len()
    &&& walk.nodes[walk.current.0 as int].kind == NodeKind::Directory
    &&& forall|k: int|
        0 <= k < walk.queue.len() ==> {
            &&& walk.current.0 <= (#[trigger] walk.queue[k]).1.0 < walk.nodes.len()
            &&& walk.nodes[walk.queue[k].1.0 as int].kind == NodeKind::Directory
        }
    &&& forall|a: int, b: int|
        0 <= a < b < walk.queue.len() ==> (#[trigger] walk.queue[a]).1.0 < (
        #[trigger] walk.queue[b]).1.0
}

/// What holds at every point of a walk.
pub open spec fn walk_sound(walk: WalkState) -> bool {
    &&& 1 <= walk.nodes.len() < walk.names.len() <= u32::MAX
    &&& queue_sound(walk)
    &&& layout::parents_sound(walk.nodes, walk.current.0 as int)
    &&& arena::children_grouped(walk.nodes)
    &&& arena::names_stored(walk.nodes, walk.names)
    &&& walk.hard_links < walk.nodes.len()
    &&& walk.seen.finite()
    &&& walk.hard_links + walk.seen.len() == walk.nodes.len()
}

/// A walk through a mounted filesystem. The caller reads the directories.
#[derive(Debug)]
pub struct Walk {
    nodes: Vec<Node>,
    names: NameArena,
    seen: HashSet<u128>,
    queue: VecDeque<(Vec<u8>, NodeId)>,
    current: NodeId,
    stats: ScanStats,
    warnings: ScanWarnings,
}

/// The counts of a walk.
pub open spec fn walk_stats(walk: WalkState, allocated_inodes: u64) -> ScanStats {
    ScanStats {
        allocated_inodes,
        files: direct::nodes_of_kind(walk.nodes, NodeKind::File) as u64,
        directories: direct::nodes_of_kind(walk.nodes, NodeKind::Directory) as u64,
        symlinks: direct::nodes_of_kind(walk.nodes, NodeKind::Symlink) as u64,
        other: direct::nodes_of_kind(walk.nodes, NodeKind::Other) as u64,
        nodes: walk.nodes.len() as u64,
        directory_entries: (walk.nodes.len() - 1) as u64,
        hard_link_entries: walk.hard_links as u64,
    }
}

/// The warnings of a walk.
pub open spec fn walk_warnings(walk: WalkState) -> ScanWarnings {
    ScanWarnings {
        missing_inode_references: walk.missing as u64,
        nodes_without_parent: 0,
        directory_scan_errors: walk.failed as u64,
        directory_aliases: 0,
    }
}

impl Walk {
    /// How far the walk has come.
    pub closed spec fn state(self) -> WalkState {
        WalkState {
            nodes: self.nodes@,
            names: self.names@,
            seen: self.seen@,
            queue: Seq::new(
                self.queue@.len(),
                |k: int| (self.queue@[k].0@, self.queue@[k].1),
            ),
            current: self.current,
            failed: self.warnings.directory_scan_errors as nat,
            missing: self.warnings.missing_inode_references as nat,
            hard_links: self.stats.hard_link_entries as nat,
        }
    }

    /// The parts of the walk agree.
    pub closed spec fn wf(self) -> bool {
        &&& walk_sound(self.state())
        &&& self.stats == walk_stats(self.state(), 0)
        &&& self.warnings == walk_warnings(self.state())
    }

    /// Starts a walk at the directory `root`.
    pub fn start(root: Vec<u8>, metadata: &FileMetadata) -> (walk: Walk)
        requires
            metadata.blocks * BLOCK <= u64::MAX,
        ensures
            walk.wf(),
            walk_sound(walk.state()),
            walk.state() == walk_start(root@, *metadata),
    {
        let mut slash: Vec<u8> = Vec::new();
        slash.push(text::SLASH);
        let mut names = NameArena::default();
        let name = match names.push(slash.as_slice()) {
            Ok(name) => name,
            Err(_) => NameRef { offset: 0, len: 1 },
        };
        let mut nodes: Vec<Node> = Vec::new();
        nodes.push(node_with_size(NodeId::root(), name, metadata, NodeKind::Directory, true));
        let mut seen: HashSet<u128> = HashSet::new();
        seen.insert(file_key(metadata));
        let mut queue: VecDeque<(Vec<u8>, NodeId)> = VecDeque::new();
        let ghost path = root@;
        queue.push_back((root, NodeId::root()));
        let mut stats = ScanStats::default();
        stats.directories = 1;
        stats.nodes = 1;
        let walk = Walk {
            nodes,
            names,
            seen,
            queue,
            current: NodeId::root(),
            stats,
            warnings: ScanWarnings::default(),
        };
        proof {
            let start = walk_start(path, *metadata);
            assert(walk.state().nodes =~= start.nodes);
            assert(walk.state().names =~= start.names);
            assert(walk.state().queue =~= start.queue);
            assert(walk.state() =~= start);
            assert(start.nodes.drop_last() =~= Seq::empty());
            reveal_with_fuel(direct::nodes_of_kind, 2);
            assert(start.nodes[0].kind == NodeKind::Directory);
            assert(arena::name_stored(start.names, start.nodes[0].name));
        }
        walk
    }

    /// The next directory to read, which becomes the current one.
    pub fn next_directory(&mut self) -> (path: Option<Vec<u8>>)
        requires
            old(self).wf(),
        ensures
            final(self).wf(),
            match path {
                Some(path) => {
                    &&& old(self).state().queue.len() > 0
                    &&& path@ == old(self).state().queue[0].0
                    &&& final(self).state() == (WalkState {
                        queue: old(self).state().queue.drop_first(),
                        current: old(self).state().queue[0].1,
                        ..old(self).state()
                    })
                },
                None => {
                    &&& old(self).state().queue.len() == 0
                    &&& final(self).state() == old(self).state()
                },
            },
    {
        let ghost before = self.state();
        match self.queue.pop_front() {
            Some((path, id)) => {
                self.current = id;
                proof {
                    let after = self.state();
                    assert(before.queue[0] == (path@, id));
                    assert(after.queue =~= before.queue.drop_first());
                    assert(after.nodes == before.nodes);
                    layout::lemma_limit_rises(
                        after.nodes,
                        before.current.0 as int,
                        after.current.0 as int,
                    );
                    assert forall|k: int| 0 <= k < after.queue.len() implies {
                        &&& after.current.0 <= (#[trigger] after.queue[k]).1.0
                            < after.nodes.len()
                        &&& after.nodes[after.queue[k].1.0 as int].kind == NodeKind::Directory
                    } by {
                        assert(after.queue[k] == before.queue[k + 1]);
                        assert(before.queue[0].1.0 < before.queue[k + 1].1.0);
                    }
                    assert forall|a: int, b: int| 0 <= a < b < after.queue.len() implies (
                    #[trigger] after.queue[a]).1.0 < (#[trigger] after.queue[b]).1.0 by {
                        assert(after.queue[a] == before.queue[a + 1]);
                        assert(after.queue[b] == before.queue[b + 1]);
                    }
                }
                Some(path)
            },
            None => None,
        }
    }

    /// What has been noted so far.
    pub fn warnings(&self) -> (warnings: ScanWarnings)
        requires
            self.wf(),
        ensures
            warnings == walk_warnings(self.state()),
            warnings.directory_scan_errors == self.state().failed,
            warnings.missing_inode_references == self.state().missing,
    {
        self.warnings
    }

    /// Notes a directory or an entry that could not be read.
    pub fn note_scan_error(&mut self)
        requires
            old(self).wf(),
            old(self).state().failed < u64::MAX,
        ensures
            final(self).wf(),
            final(self).state() == (WalkState {
                failed: old(self).state().failed + 1,
                ..old(self).state()
            }),
    {
        let errors: u64 = self.warnings.directory_scan_errors;
        self.warnings.directory_scan_errors = errors + 1;
        assert(self.state().queue =~= old(self).state().queue);
    }

    /// Notes an entry that was gone when its turn came.
    pub fn note_missing(&mut self)
        requires
            old(self).wf(),
            old(self).state().missing < u64::MAX,
        ensures
            final(self).wf(),
            final(self).state() == (WalkState {
                missing: old(self).state().missing + 1,
                ..old(self).state()
            }),
    {
        let missing: u64 = self.warnings.missing_inode_references;
        self.warnings.missing_inode_references = missing + 1;
        assert(self.state().queue =~= old(self).state().queue);
    }

    /// Adds an entry of the current directory.
    pub fn add_entry(&mut self, name: &[u8], path: Vec<u8>, metadata: &FileMetadata) -> (result:
        Result<(), BtrfsError>)
        requires
            old(self).wf(),
            old(self).state().seen.contains(key_of(*metadata)) || metadata.blocks * BLOCK
                <= u64::MAX,
        ensures
            match result {
                Ok(()) => {
                    &&& arena::push_error(old(self).state().names, name@) is None
                    &&& final(self).wf()
                    &&& final(self).state() == with_entry(
                        old(self).state(),
                        name@,
                        path@,
                        *metadata,
                    )
                },
                Err(error) => {
                    &&& error matches BtrfsError::Arena(inner) && arena::push_error(
                        old(self).state().names,
                        name@,
                    ) == Some(inner)
                    &&& final(self).state() == (WalkState {
                        seen: old(self).state().seen.insert(key_of(*metadata)),
                        ..old(self).state()
                    })
                },
            },
    {
        let ghost before = self.state();
        let ghost next = with_entry(before, name@, path@, *metadata);
        let key: u128 = file_key(metadata);
        let kind = kind(metadata);
        let owns_allocation: bool = !self.seen.contains(&key);
        self.seen.insert(key);
        let name_ref = match self.names.push(name) {
            Ok(name_ref) => name_ref,
            Err(error) => {
                assert(self.state().queue =~= before.queue);
                return Err(BtrfsError::Arena(error));
            },
        };
        let id: u32 = self.nodes.len() as u32;
        let node = node_with_size(self.current, name_ref, metadata, kind, owns_allocation);
        self.nodes.push(node);
        proof {
            assert(self.nodes@ =~= next.nodes);
            assert(next.nodes.drop_last() =~= before.nodes);
            direct::lemma_kinds_are_bounded(before.nodes);
            direct::lemma_kinds_are_bounded(next.nodes);
        }
        self.stats.directory_entries = self.stats.directory_entries + 1;
        self.stats.nodes = self.stats.nodes + 1;
        match kind {
            NodeKind::File => {
                self.stats.files = self.stats.files + 1;
            },
            NodeKind::Directory => {
                self.stats.directories = self.stats.directories + 1;
                self.queue.push_back((path, NodeId(id)));
            },
            NodeKind::Symlink => {
                self.stats.symlinks = self.stats.symlinks + 1;
            },
            NodeKind::Other => {
                self.stats.other = self.stats.other + 1;
            },
        }
        if !owns_allocation {
            self.stats.hard_link_entries = self.stats.hard_link_entries + 1;
        }
        proof {
            let after = self.state();
            assert(after.queue =~= next.queue);
            assert(after.seen =~= next.seen);
            assert(after.names =~= next.names);
            assert(after =~= next);
            layout::lemma_parents_push(before.nodes, node, before.current.0 as int);
            assert forall|i: int| 0 <= i < next.nodes.len() implies arena::name_stored(
                next.names,
                (#[trigger] next.nodes[i]).name,
            ) by {
                if i < before.nodes.len() {
                    assert(next.nodes[i] == before.nodes[i]);
                    assert(arena::name_stored(before.names, before.nodes[i].name));
                }
            }
            assert forall|k: int| 0 <= k < next.queue.len() implies {
                &&& next.current.0 <= (#[trigger] next.queue[k]).1.0 < next.nodes.len()
                &&& next.nodes[next.queue[k].1.0 as int].kind == NodeKind::Directory
            } by {
                if k < before.queue.len() {
                    assert(next.queue[k] == before.queue[k]);
                }
            }
            assert forall|a: int, b: int| 0 <= a < b < next.queue.len() implies (
            #[trigger] next.queue[a]).1.0 < (#[trigger] next.queue[b]).1.0 by {
                assert(next.queue[a] == before.queue[a]);
                if b < before.queue.len() {
                    assert(next.queue[b] == before.queue[b]);
                }
            }
        }
        Ok(())
    }

    /// Ends the walk, takes the totals and notes in `info` how many files were seen. The time that
    /// taking the totals takes is the caller's to fill in.
    pub fn finish(self, info: &mut FilesystemInfo, open_time: u128, directory_scan: u128) -> (result:
        Result<FilesystemScan, BtrfsError>)
        requires
            self.wf(),
        ensures
            *final(info) == (FilesystemInfo {
                inode_count: self.state().seen.len() as u64,
                reported_allocated_inodes: self.state().seen.len() as u64,
                ..*old(info)
            }),
            result matches Ok(scan) && {
                &&& scan.result.sound()
                &&& scan.result.browsable()
                &&& scan.result.arena.node_list() == self.state().nodes
                &&& scan.result.arena.name_bytes() == self.state().names
                &&& scan.stats == walk_stats(self.state(), self.state().seen.len() as u64)
                &&& scan.warnings == walk_warnings(self.state())
                &&& scan.workers == 1
                &&& scan.timings == ScanTimings {
                    open: open_time,
                    inode_scan: 0,
                    directory_scan,
                    tree_build: 0,
                    aggregation: 0,
                }
            },
    {
        let ghost walk = self.state();
        let Walk { nodes, names, seen, queue: _, current: _, stats, warnings } = self;
        let mut stats = stats;
        stats.allocated_inodes = seen.len() as u64;
        proof {
            layout::law_sound_parents_root(walk.nodes, walk.current.0 as int);
        }
        let laid = LaidOut { arena: NodeArena::from_parts(nodes, names), stats, warnings };
        info.inode_count = stats.allocated_inodes;
        info.reported_allocated_inodes = stats.allocated_inodes;
        let mut timings = ScanTimings::default();
        timings.open = open_time;
        timings.directory_scan = directory_scan;
        match laid.finish(timings, 1) {
            Ok(scan) => Ok(scan),
            Err(error) => Err(BtrfsError::Aggregate(error)),
        }
    }
}

/// At every point of a walk the nodes form a tree with sound parents, grouped children and stored
/// names, and every node is the first of a file or a further hard link to one.
pub proof fn law_walk_is_sound(walk: Walk)
    requires
        walk.wf(),
    ensures
        walk_sound(walk.state()),
        aggregate::parents_exist(walk.state().nodes),
        aggregate::rooted(walk.state().nodes),
{
    layout::law_sound_parents_root(walk.state().nodes, walk.state().current.0 as int);
}

/// However much is walked in between, a second name of a file gets no allocation.
pub proof fn law_later_names_own_nothing(
    walk: WalkState,
    name: Seq<u8>,
    path: Seq<u8>,
    metadata: FileMetadata,
    later: WalkState,
    other_name: Seq<u8>,
    other_path: Seq<u8>,
    other: FileMetadata,
)
    requires
        with_entry(walk, name, path, metadata).seen.subset_of(later.seen),
        metadata.device == other.device,
        metadata.inode == other.inode,
    ensures
        with_entry(later, other_name, other_path, other).nodes.last().allocated_size == 0,
        later.seen.subset_of(with_entry(later, other_name, other_path, other).seen),
{
    law_keys_tell_files_apart(metadata, other);
    assert(with_entry(walk, name, path, metadata).seen.contains(key_of(metadata)));
}

/// Only directories are looked into: links are not followed.
pub proof fn law_links_are_not_followed(
    walk: WalkState,
    name: Seq<u8>,
    path: Seq<u8>,
    metadata: FileMetadata,
)
    requires
        !metadata.is_dir,
    ensures
        with_entry(walk, name, path, metadata).queue == walk.queue,
{
}

/// Every entry becomes one node, the last: below the directory that is being read, with the entry's
/// name, and with what the system says of the file. Sizes on disk come in blocks of 512 bytes, and
/// go to the first name of a file only.
pub proof fn law_entries_become_nodes(
    walk: WalkState,
    name: Seq<u8>,
    path: Seq<u8>,
    metadata: FileMetadata,
)
    requires
        arena::push_error(walk.names, name) is None,
        metadata.blocks * 512 <= u64::MAX,
    ensures
        ({
            let next = with_entry(walk, name, path, metadata);
            let node = next.nodes.last();
            &&& next.nodes.len() == walk.nodes.len() + 1
            &&& forall|i: int| 0 <= i < walk.nodes.len() ==> #[trigger] next.nodes[i] == walk.nodes[i]
            &&& node.parent == walk.current
            &&& node.inode == metadata.inode
            &&& node.logical_size == metadata.len
            &&& metadata.links <= u32::MAX ==> node.links == metadata.links
            &&& node.mtime == metadata.mtime
            &&& arena::name_at(next.names, node.name) == name
            &&& node.allocated_size == if walk.seen.contains(key_of(metadata)) {
                0
            } else {
                metadata.blocks * 512
            }
            &&& next.seen.contains(key_of(metadata))
            &&& next.current == walk.current
            &&& next.failed == walk.failed
            &&& next.missing == walk.missing
        }),
{
    let next = with_entry(walk, name, path, metadata);
    let node = next.nodes.last();
    assert(arena::name_at(next.names, node.name) =~= name);
}

/// A directory is queued whatever its name, with its path and its node, behind those that wait;
/// nothing else is queued. The kind of a node is that of the file: a directory comes before a
/// regular file, a regular file before a link.
pub proof fn law_directories_are_queued(
    walk: WalkState,
    name: Seq<u8>,
    path: Seq<u8>,
    metadata: FileMetadata,
)
    requires
        walk.nodes.len() <= u32::MAX,
    ensures
        ({
            let next = with_entry(walk, name, path, metadata);
            let kind = next.nodes.last().kind;
            &&& metadata.is_dir ==> next.queue.len() == walk.queue.len() + 1
            &&& metadata.is_dir ==> next.queue.last().0 == path && next.queue.last().1.0
                == walk.nodes.len()
            &&& !metadata.is_dir ==> next.queue.len() == walk.queue.len()
            &&& forall|k: int| 0 <= k < walk.queue.len() ==> #[trigger] next.queue[k] == walk.queue[k]
            &&& kind == NodeKind::Directory <==> metadata.is_dir
            &&& kind == NodeKind::File <==> metadata.is_file && !metadata.is_dir
            &&& kind == NodeKind::Symlink <==> metadata.is_symlink && !metadata.is_file
                && !metadata.is_dir
        }),
{
}

/// One step of a walk, as the caller takes it.
pub enum WalkStep {
    /// Asks for the next directory.
    Directory,
    /// Adds an entry of the current directory.
    Entry { name: Seq<u8>, path: Seq<u8>, metadata: FileMetadata },
    /// Notes something that could not be read.
    Failure,
    /// Notes an entry that was gone.
    Loss,
}

/// A walk after one more step.
pub open spec fn stepped(walk: WalkState, step: WalkStep) -> WalkState {
    match step {
        WalkStep::Directory => if walk.queue.len() > 0 {
            WalkState { queue: walk.queue.drop_first(), current: walk.queue[0].1, ..walk }
        } else {
            walk
        },
        WalkStep::Entry { name, path, metadata } => with_entry(walk, name, path, metadata),
        WalkStep::Failure => WalkState { failed: walk.failed + 1, ..walk },
        WalkStep::Loss => WalkState { missing: walk.missing + 1, ..walk },
    }
}

/// A walk after these steps.
pub open spec fn walk_after(root: Seq<u8>, metadata: FileMetadata, steps: Seq<WalkStep>) -> WalkState
    decreases steps.len(),
{
    if steps.len() == 0 {
        walk_start(root, metadata)
    } else {
        stepped(walk_after(root, metadata, steps.drop_last()), steps.last())
    }
}

/// Step `k` asked for a directory, and got the node `i` to read.
pub open spec fn reads_at(
    root: Seq<u8>,
    metadata: FileMetadata,
    steps: Seq<WalkStep>,
    k: int,
    i: int,
) -> bool {
    &&& 0 <= k < steps.len()
    &&& steps[k] is Directory
    &&& walk_after(root, metadata, steps.take(k)).queue.len() > 0
    &&& walk_after(root, metadata, steps.take(k + 1)).current.0 == i
}

/// Node `i` waits in the queue.
spec fn waits(walk: WalkState, i: int) -> bool {
    exists|q: int| 0 <= q < walk.queue.len() && (#[trigger] walk.queue[q]).1.0 == i
}

proof fn lemma_directories_wait_or_were_read(
    root: Seq<u8>,
    metadata: FileMetadata,
    steps: Seq<WalkStep>,
    i: int,
)
    requires
        walk_after(root, metadata, steps).nodes.len() <= u32::MAX + 1,
        0 <= i < walk_after(root, metadata, steps).nodes.len(),
        walk_after(root, metadata, steps).nodes[i].kind == NodeKind::Directory,
    ensures
        waits(walk_after(root, metadata, steps), i) || exists|k: int| #[trigger]
            reads_at(root, metadata, steps, k, i),
    decreases steps.len(),
{
    let now = walk_after(root, metadata, steps);
    if steps.len() == 0 {
        assert(now.queue[0].1.0 == 0);
    } else {
        let shorter = steps.drop_last();
        let before = walk_after(root, metadata, shorter);
        let last = steps.len() - 1;
        assert(steps.take(last) =~= shorter);
        assert(steps.take(last + 1) =~= steps);
        if i < before.nodes.len() {
            assert(now.nodes[i] == before.nodes[i]);
            lemma_directories_wait_or_were_read(root, metadata, shorter, i);
            if waits(before, i) {
                let q = choose|q: int| 0 <= q < before.queue.len() && (#[trigger] before.queue[q]).1.0 == i;
                match steps.last() {
                    WalkStep::Directory => {
                        if q == 0 {
                            assert(reads_at(root, metadata, steps, last, i));
                        } else {
                            assert(now.queue[q - 1] == before.queue[q]);
                        }
                    },
                    _ => {
                        assert(now.queue[q] == before.queue[q]);
                    },
                }
            } else {
                let k = choose|k: int| #[trigger] reads_at(root, metadata, shorter, k, i);
                assert(shorter.take(k) =~= steps.take(k));
                assert(shorter.take(k + 1) =~= steps.take(k + 1));
                assert(reads_at(root, metadata, steps, k, i));
            }
        } else {
            assert(now.queue.last().1.0 == i);
            assert(now.queue[now.queue.len() - 1].1.0 == i);
        }
    }
}

/// A walk that has come to its end has read every directory in the tree: each was once handed out.
pub proof fn law_every_directory_is_read(
    root: Seq<u8>,
    metadata: FileMetadata,
    steps: Seq<WalkStep>,
    i: int,
)
    requires
        walk_after(root, metadata, steps).queue.len() == 0,
        walk_after(root, metadata, steps).nodes.len() <= u32::MAX + 1,
        0 <= i < walk_after(root, metadata, steps).nodes.len(),
        walk_after(root, metadata, steps).nodes[i].kind == NodeKind::Directory,
    ensures
        exists|k: int| #[trigger] reads_at(root, metadata, steps, k, i),
{
    lemma_directories_wait_or_were_read(root, metadata, steps, i);
}

/// A walk starts at the root, which is a directory and has the name `/`, what is on disk for it, and
/// the path that is read first.
pub proof fn law_walks_start_at_the_root(root: Seq<u8>, metadata: FileMetadata)
    requires
        metadata.blocks * 512 <= u64::MAX,
    ensures
        ({
            let walk = walk_start(root, metadata);
            let node = walk.nodes[0];
            &&& walk.nodes.len() == 1
            &&& node.kind == NodeKind::Directory
            &&& node.inode == metadata.inode
            &&& node.logical_size == metadata.len
            &&& node.allocated_size == metadata.blocks * 512
            &&& node.mtime == metadata.mtime
            &&& arena::name_at(walk.names, node.name) == seq![0x2fu8]
            &&& walk.queue.len() == 1
            &&& walk.queue[0].0 == root
            &&& walk.queue[0].1.0 == 0
            &&& walk.seen.contains(key_of(metadata))
        }),
{
    let walk = walk_start(root, metadata);
    assert(arena::name_at(walk.names, walk.nodes[0].name) =~= seq![0x2fu8]);
}

/// The statistics of a walk count its nodes by kind, the files that were told apart and the further
/// hard links, and its warnings what could not be read or was gone.
pub proof fn law_statistics_count_the_walk(walk: WalkState, allocated_inodes: u64)
    requires
        walk_sound(walk),
        walk.failed <= u64::MAX,
        walk.missing <= u64::MAX,
    ensures
        ({
            let stats = walk_stats(walk, allocated_inodes);
            &&& stats.files == walk.nodes.filter(|node: Node| node.kind == NodeKind::File).len()
            &&& stats.directories == walk.nodes.filter(
                |node: Node| node.kind == NodeKind::Directory,
            ).len()
            &&& stats.symlinks == walk.nodes.filter(
                |node: Node| node.kind == NodeKind::Symlink,
            ).len()
            &&& stats.other == walk.nodes.filter(|node: Node| node.kind == NodeKind::Other).len()
            &&& stats.nodes == walk.nodes.len()
            &&& stats.directory_entries == walk.nodes.len() - 1
            &&& stats.hard_link_entries + walk.seen.len() == walk.nodes.len()
            &&& stats.allocated_inodes == allocated_inodes
            &&& walk_warnings(walk).directory_scan_errors == walk.failed
            &&& walk_warnings(walk).missing_inode_references == walk.missing
        }),
{
    direct::lemma_kinds_are_bounded(walk.nodes);
    direct::law_counts_count_nodes(walk.nodes, NodeKind::File);
    direct::law_counts_count_nodes(walk.nodes, NodeKind::Directory);
    direct::law_counts_count_nodes(walk.nodes, NodeKind::Symlink);
    direct::law_counts_count_nodes(walk.nodes, NodeKind::Other);
}

} // verus!
