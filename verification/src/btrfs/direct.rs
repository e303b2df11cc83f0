//! Building the tree of a btrfs filesystem from the items of its trees.

use std::collections::{HashMap, HashSet};

use vstd::prelude::*;

use crate::aggregate;
use crate::aggregate::AggregateError;
use crate::arena;
use crate::arena::{ArenaError, NameArena, NodeArena};
use crate::btrfs::error::DirectError;
use crate::btrfs::search;
use crate::btrfs::search::{DirectoryEntry, EntryView, InodeMeta};
use crate::layout;
use crate::node::{NameRef, Node, NodeId, NodeKind};
use crate::order;
use crate::scan::{
    FilesystemInfo, FilesystemScan, LaidOut, ScanStats, ScanTimings, ScanWarnings,
};
use crate::text;

verus! {

broadcast use vstd::std_specs::hash::group_hash_axioms;

/// Inode number of the root directory of a subvolume.
pub const FIRST_FREE_OBJECTID: u64 = 256;

/// The byte of a full stop.
pub const DOT: u8 = 0x2e;

/// A name that stands for the directory itself or for its parent.
pub open spec fn is_dots(name: Seq<u8>) -> bool {
    name == seq![DOT] || name == seq![DOT, DOT]
}

/// What a tree is built from.
pub struct DirectSource {
    pub inodes: Map<u64, InodeMeta>,
    pub entries: Seq<EntryView>,
}

impl DirectSource {
    /// There is a root, and it is a directory.
    pub open spec fn has_root(self) -> bool {
        self.inodes.contains_key(FIRST_FREE_OBJECTID) && self.inodes[FIRST_FREE_OBJECTID].kind
            == NodeKind::Directory
    }
}

/// A tree under construction.
#[verifier::ext_equal]
pub struct DirectTree {
    pub nodes: Seq<Node>,
    pub names: Seq<u8>,
    /// The inodes that have a node.
    pub seen: Set<u64>,
    /// The directories to look into, in order, each with its inode and its node.
    pub folders: Seq<(u64, int)>,
    /// Entries without an inode.
    pub missing: nat,
    /// Nodes of directories that already had one.
    pub aliases: nat,
    /// Nodes of inodes that already had one.
    pub hard_links: nat,
}

/// The node of an inode. Only the first one of several carries the allocation.
pub open spec fn node_of(meta: InodeMeta, name: NameRef, parent: int, first: bool) -> Node {
    Node {
        parent: NodeId(parent as u32),
        inode: meta.inode,
        name,
        kind: meta.kind,
        logical_size: meta.logical_size,
        allocated_size: if first {
            meta.allocated_size
        } else {
            0
        },
        links: meta.links,
        mtime: meta.mtime,
    }
}

/// The tree of the root alone.
pub open spec fn tree_of_root(source: DirectSource) -> DirectTree {
    DirectTree {
        nodes: seq![
            node_of(
                source.inodes[FIRST_FREE_OBJECTID],
                NameRef { offset: 0, len: 1 },
                0,
                true,
            ),
        ],
        names: seq![text::SLASH, 0u8],
        seen: Set::empty().insert(FIRST_FREE_OBJECTID),
        folders: seq![(FIRST_FREE_OBJECTID, 0int)],
        missing: 0,
        aliases: 0,
        hard_links: 0,
    }
}

/// Adds one entry below the node `parent`. Every entry with an inode gets a node, but a directory
/// is looked into only where it was seen first.
pub open spec fn attach(
    inodes: Map<u64, InodeMeta>,
    tree: DirectTree,
    entry: EntryView,
    parent: int,
) -> DirectTree {
    if is_dots(entry.name) {
        tree
    } else if !inodes.contains_key(entry.child) {
        DirectTree { missing: tree.missing + 1, ..tree }
    } else {
        let meta = inodes[entry.child];
        let first = !tree.seen.contains(entry.child);
        let id = tree.nodes.len();
        let name = NameRef { offset: tree.names.len() as u32, len: entry.name.len() as u16 };
        DirectTree {
            nodes: tree.nodes.push(node_of(meta, name, parent, first)),
            names: tree.names + entry.name + seq![0u8],
            seen: tree.seen.insert(entry.child),
            folders: if first && meta.kind == NodeKind::Directory {
                tree.folders.push((entry.child, id as int))
            } else {
                tree.folders
            },
            missing: tree.missing,
            aliases: tree.aliases + if !first && meta.kind == NodeKind::Directory {
                1nat
            } else {
                0nat
            },
            hard_links: tree.hard_links + if first {
                0nat
            } else {
                1nat
            },
        }
    }
}

/// Adds entries below the node `parent`, first to last.
pub open spec fn attach_all(
    inodes: Map<u64, InodeMeta>,
    tree: DirectTree,
    entries: Seq<EntryView>,
    parent: int,
) -> DirectTree
    decreases entries.len(),
{
    if entries.len() == 0 {
        tree
    } else {
        attach(inodes, attach_all(inodes, tree, entries.drop_last(), parent), entries.last(), parent)
    }
}

/// The entries of one directory, in their order.
pub open spec fn of_parent(entries: Seq<EntryView>, parent: u64) -> Seq<EntryView> {
    entries.filter(|entry: EntryView| entry.parent == parent)
}

/// The entries of the directory that is looked into as number `k`.
pub open spec fn listing(source: DirectSource, tree: DirectTree, k: int) -> Seq<EntryView> {
    of_parent(source.entries, tree.folders[k].0)
}

/// The tree after its first `count` directories have been looked into.
pub open spec fn tree_after(source: DirectSource, count: nat) -> DirectTree
    decreases count,
{
    if count == 0 {
        tree_of_root(source)
    } else {
        let before = tree_after(source, (count - 1) as nat);
        let k = count - 1;
        if k < before.folders.len() {
            attach_all(source.inodes, before, listing(source, before, k), before.folders[k].1)
        } else {
            before
        }
    }
}

/// `tree` is complete: all of its directories have been looked into.
pub open spec fn complete(source: DirectSource, tree: DirectTree) -> bool {
    tree == tree_after(source, tree.folders.len())
}

/// The tree just before entry `m` of the directory that is looked into as number `k`.
pub open spec fn tree_before(source: DirectSource, k: nat, m: int) -> DirectTree {
    let before = tree_after(source, k);
    attach_all(
        source.inodes,
        before,
        listing(source, before, k as int).take(m),
        before.folders[k as int].1,
    )
}

/// There is an entry `m` in the directory that is looked into as number `k`.
pub open spec fn is_entry(source: DirectSource, k: nat, m: int) -> bool {
    let before = tree_after(source, k);
    k < before.folders.len() && 0 <= m < listing(source, before, k as int).len()
}

/// Why the name of that entry cannot be stored, if it gets a node and cannot.
pub open spec fn entry_error(source: DirectSource, k: nat, m: int) -> Option<ArenaError> {
    let entry = listing(source, tree_after(source, k), k as int)[m];
    if !is_dots(entry.name) && source.inodes.contains_key(entry.child) {
        arena::push_error(tree_before(source, k, m).names, entry.name)
    } else {
        None
    }
}

/// No entry comes before entry `m` of directory `k` whose name cannot be stored.
pub open spec fn none_fails_before(source: DirectSource, k: nat, m: int) -> bool {
    forall|j: nat, n: int|
        is_entry(source, j, n) && (j < k || (j == k && n < m)) ==> #[trigger] entry_error(
            source,
            j,
            n,
        ) is None
}

/// The names of all entries that get a node can be stored.
pub open spec fn all_stored(source: DirectSource) -> bool {
    forall|j: nat, n: int| is_entry(source, j, n) ==> #[trigger] entry_error(source, j, n) is None
}

/// `error` is why the first name that cannot be stored cannot be.
pub open spec fn first_failure(source: DirectSource, error: ArenaError) -> bool {
    exists|k: nat, m: int|
        {
            &&& is_entry(source, k, m)
            &&& #[trigger] entry_error(source, k, m) == Some(error)
            &&& none_fails_before(source, k, m)
        }
}

/// How many nodes are of a kind.
pub open spec fn nodes_of_kind(nodes: Seq<Node>, kind: NodeKind) -> nat
    decreases nodes.len(),
{
    if nodes.len() == 0 {
        0
    } else {
        nodes_of_kind(nodes.drop_last(), kind) + if nodes.last().kind == kind {
            1nat
        } else {
            0nat
        }
    }
}

pub(crate) proof fn lemma_kinds_are_bounded(nodes: Seq<Node>)
    ensures
        nodes_of_kind(nodes, NodeKind::File) + nodes_of_kind(nodes, NodeKind::Directory)
            + nodes_of_kind(nodes, NodeKind::Symlink) + nodes_of_kind(nodes, NodeKind::Other)
            == nodes.len(),
    decreases nodes.len(),
{
    if nodes.len() > 0 {
        lemma_kinds_are_bounded(nodes.drop_last());
    }
}

/// The directories to look into are distinct and stand in the order of their nodes.
pub open spec fn folders_sound(tree: DirectTree) -> bool {
    &&& tree.folders.len() >= 1
    &&& forall|k: int|
        0 <= k < tree.folders.len() ==> {
            &&& 0 <= (#[trigger] tree.folders[k]).1 < tree.nodes.len()
            &&& tree.nodes[tree.folders[k].1].kind == NodeKind::Directory
            &&& tree.seen.contains(tree.folders[k].0)
        }
    &&& forall|a: int, b: int|
        0 <= a < b < tree.folders.len() ==> (#[trigger] tree.folders[a]).1 < (
        #[trigger] tree.folders[b]).1 && tree.folders[a].0 != tree.folders[b].0
}

/// What holds of a tree while nodes are added below the node `limit`.
pub open spec fn tree_sound(inodes: Map<u64, InodeMeta>, tree: DirectTree, limit: int) -> bool {
    &&& 1 <= tree.nodes.len() < tree.names.len()
    &&& folders_sound(tree)
    &&& layout::parents_sound(tree.nodes, limit)
    &&& arena::children_grouped(tree.nodes)
    &&& forall|key: u64| #[trigger] tree.seen.contains(key) ==> inodes.contains_key(key)
    &&& tree.seen.finite()
}

/// `next` has all of `tree` and at most `more` nodes and missing entries besides.
pub open spec fn grown(tree: DirectTree, next: DirectTree, more: nat) -> bool {
    &&& tree.nodes.is_prefix_of(next.nodes)
    &&& tree.names.is_prefix_of(next.names)
    &&& tree.folders.is_prefix_of(next.folders)
    &&& tree.seen.subset_of(next.seen)
    &&& next.nodes.len() + next.missing <= tree.nodes.len() + tree.missing + more
    &&& next.hard_links + tree.nodes.len() <= tree.hard_links + next.nodes.len()
    &&& next.aliases + tree.hard_links <= tree.aliases + next.hard_links
    &&& next.missing >= tree.missing
    &&& next.hard_links >= tree.hard_links
    &&& next.aliases >= tree.aliases
}

proof fn lemma_attach_grows(
    inodes: Map<u64, InodeMeta>,
    tree: DirectTree,
    entry: EntryView,
    parent: int,
)
    ensures
        grown(tree, attach(inodes, tree, entry, parent), 1),
{
}

proof fn lemma_attach_all_grows(
    inodes: Map<u64, InodeMeta>,
    tree: DirectTree,
    entries: Seq<EntryView>,
    parent: int,
)
    ensures
        grown(tree, attach_all(inodes, tree, entries, parent), entries.len()),
    decreases entries.len(),
{
    if entries.len() > 0 {
        lemma_attach_all_grows(inodes, tree, entries.drop_last(), parent);
        lemma_attach_grows(
            inodes,
            attach_all(inodes, tree, entries.drop_last(), parent),
            entries.last(),
            parent,
        );
    }
}

/// Adding an entry keeps a tree sound.
proof fn lemma_attach(
    inodes: Map<u64, InodeMeta>,
    tree: DirectTree,
    entry: EntryView,
    parent: int,
)
    requires
        tree_sound(inodes, tree, parent),
        0 <= parent < tree.nodes.len(),
        parent <= u32::MAX,
        tree.nodes[parent].kind == NodeKind::Directory,
    ensures
        tree_sound(inodes, attach(inodes, tree, entry, parent), parent),
{
    let next = attach(inodes, tree, entry, parent);
    if !is_dots(entry.name) && inodes.contains_key(entry.child) {
        let node = next.nodes.last();
        layout::lemma_parents_push(tree.nodes, node, parent);
        assert(next.nodes == tree.nodes.push(node));
        assert forall|k: int| 0 <= k < next.folders.len() implies {
            &&& 0 <= (#[trigger] next.folders[k]).1 < next.nodes.len()
            &&& next.nodes[next.folders[k].1].kind == NodeKind::Directory
            &&& next.seen.contains(next.folders[k].0)
        } by {
            if k < tree.folders.len() {
                assert(next.folders[k] == tree.folders[k]);
            }
        }
        assert forall|a: int, b: int| 0 <= a < b < next.folders.len() implies (
        #[trigger] next.folders[a]).1 < (#[trigger] next.folders[b]).1 && next.folders[a].0
            != next.folders[b].0 by {
            assert(next.folders[a] == tree.folders[a]);
            if b < tree.folders.len() {
                assert(next.folders[b] == tree.folders[b]);
            }
        }
    }
}

proof fn lemma_attach_all(
    inodes: Map<u64, InodeMeta>,
    tree: DirectTree,
    entries: Seq<EntryView>,
    parent: int,
)
    requires
        tree_sound(inodes, tree, parent),
        0 <= parent < tree.nodes.len(),
        parent <= u32::MAX,
        tree.nodes[parent].kind == NodeKind::Directory,
    ensures
        tree_sound(inodes, attach_all(inodes, tree, entries, parent), parent),
    decreases entries.len(),
{
    if entries.len() > 0 {
        let before = attach_all(inodes, tree, entries.drop_last(), parent);
        lemma_attach_all(inodes, tree, entries.drop_last(), parent);
        lemma_attach_all_grows(inodes, tree, entries.drop_last(), parent);
        assert(before.nodes[parent] == tree.nodes[parent]);
        lemma_attach(inodes, before, entries.last(), parent);
    }
}

/// Later stages only add.
proof fn lemma_after_grows(source: DirectSource, early: nat, late: nat)
    requires
        early <= late,
    ensures
        tree_after(source, early).nodes.is_prefix_of(tree_after(source, late).nodes),
        tree_after(source, early).names.is_prefix_of(tree_after(source, late).names),
        tree_after(source, early).folders.is_prefix_of(tree_after(source, late).folders),
        tree_after(source, early).seen.subset_of(tree_after(source, late).seen),
    decreases late,
{
    if early < late {
        lemma_after_grows(source, early, (late - 1) as nat);
        let before = tree_after(source, (late - 1) as nat);
        lemma_attach_all_grows(
            source.inodes,
            before,
            listing(source, before, late - 1),
            before.folders[late - 1].1,
        );
    }
}

/// Once all directories have been looked into, nothing changes.
proof fn lemma_after_settles(source: DirectSource, done: nat, late: nat)
    requires
        tree_after(source, done).folders.len() <= done,
        done <= late,
    ensures
        tree_after(source, late) == tree_after(source, done),
    decreases late,
{
    if done < late {
        lemma_after_settles(source, done, (late - 1) as nat);
    }
}

proof fn lemma_root_sound(source: DirectSource)
    requires
        source.has_root(),
    ensures
        tree_sound(source.inodes, tree_of_root(source), 0),
{
    let tree = tree_of_root(source);
    assert(tree.folders[0] == (FIRST_FREE_OBJECTID, 0int));
    assert(tree.nodes[0].kind == NodeKind::Directory);
}

/// The node of the directory that is looked into as number `count`, or of the last one.
pub open spec fn folder_node(tree: DirectTree, count: int) -> int {
    if count < tree.folders.len() {
        tree.folders[count].1
    } else {
        tree.nodes.len() as int
    }
}

/// Every stage of a tree whose names take less than 4 GiB is sound.
proof fn lemma_after_sound(source: DirectSource, count: nat)
    requires
        source.has_root(),
        tree_after(source, count).names.len() <= u32::MAX,
    ensures
        tree_sound(
            source.inodes,
            tree_after(source, count),
            folder_node(tree_after(source, count), count as int),
        ),
    decreases count,
{
    let tree = tree_after(source, count);
    if count == 0 {
        lemma_root_sound(source);
    } else {
        let k = count - 1;
        let before = tree_after(source, k as nat);
        lemma_after_grows(source, k as nat, count);
        lemma_after_sound(source, k as nat);
        if k < before.folders.len() {
            let parent = before.folders[k].1;
            lemma_attach_all(source.inodes, before, listing(source, before, k), parent);
            assert(tree.folders[k] == before.folders[k]);
            layout::lemma_limit_rises(tree.nodes, parent, folder_node(tree, count as int));
        } else {
            layout::lemma_limit_rises(
                tree.nodes,
                folder_node(before, k),
                folder_node(tree, count as int),
            );
        }
    }
}

/// Whether a name stands for the directory itself or for its parent.
fn names_dots(name: &Vec<u8>) -> (dots: bool)
    ensures
        dots == is_dots(name@),
{
    if name.len() == 1 {
        assert(name@ =~= seq![name@[0]]);
        assert(!(name@ =~= seq![DOT, DOT]));
        name[0] == DOT
    } else if name.len() == 2 {
        assert(name@ =~= seq![name@[0], name@[1]]);
        assert(!(name@ =~= seq![DOT]));
        name[0] == DOT && name[1] == DOT
    } else {
        assert(!(name@ =~= seq![DOT]));
        assert(!(name@ =~= seq![DOT, DOT]));
        false
    }
}

/// The parts of a tree under construction.
struct Builder {
    nodes: Vec<Node>,
    names: NameArena,
    seen: HashSet<u64>,
    folders: Vec<(u64, NodeId)>,
    stats: ScanStats,
    warnings: ScanWarnings,
}

impl Builder {
    /// The counts that go with a tree.
    spec fn counts(tree: DirectTree) -> ScanStats {
        ScanStats {
            allocated_inodes: 0,
            files: nodes_of_kind(tree.nodes, NodeKind::File) as u64,
            directories: nodes_of_kind(tree.nodes, NodeKind::Directory) as u64,
            symlinks: nodes_of_kind(tree.nodes, NodeKind::Symlink) as u64,
            other: nodes_of_kind(tree.nodes, NodeKind::Other) as u64,
            nodes: tree.nodes.len() as u64,
            directory_entries: (tree.nodes.len() - 1) as u64,
            hard_link_entries: tree.hard_links as u64,
        }
    }

    /// The parts stand for `tree`.
    spec fn stands_for(self, tree: DirectTree) -> bool {
        &&& self.nodes@ == tree.nodes
        &&& self.names@ == tree.names
        &&& self.seen@ == tree.seen
        &&& self.folders.len() == tree.folders.len()
        &&& forall|k: int|
            0 <= k < tree.folders.len() ==> (#[trigger] self.folders@[k]).0 == tree.folders[k].0
                && self.folders@[k].1.0 == tree.folders[k].1
        &&& self.stats == Self::counts(tree)
        &&& self.warnings == ScanWarnings {
            missing_inode_references: tree.missing as u64,
            nodes_without_parent: 0,
            directory_scan_errors: 0,
            directory_aliases: tree.aliases as u64,
        }
        &&& tree.names.len() <= u32::MAX
        &&& 1 <= tree.nodes.len() < tree.names.len()
        &&& tree.aliases <= tree.hard_links < tree.nodes.len()
        &&& tree.missing <= u64::MAX
    }

    /// The tree of the root alone.
    fn new(root: InodeMeta, Ghost(source): Ghost<DirectSource>) -> (builder: Builder)
        requires
            source.has_root(),
            root == source.inodes[FIRST_FREE_OBJECTID],
        ensures
            builder.stands_for(tree_of_root(source)),
    {
        let ghost tree = tree_of_root(source);
        let mut slash: Vec<u8> = Vec::new();
        slash.push(text::SLASH);
        let mut names = NameArena::default();
        let name = match names.push(slash.as_slice()) {
            Ok(name) => name,
            Err(_) => NameRef { offset: 0, len: 1 },
        };
        assert(names@ =~= tree.names);
        let mut nodes: Vec<Node> = Vec::new();
        nodes.push(
            Node {
                parent: NodeId::root(),
                inode: root.inode,
                name,
                kind: root.kind,
                logical_size: root.logical_size,
                allocated_size: root.allocated_size,
                links: root.links,
                mtime: root.mtime,
            },
        );
        assert(nodes@ =~= tree.nodes);
        let mut seen: HashSet<u64> = HashSet::new();
        seen.insert(FIRST_FREE_OBJECTID);
        let mut folders: Vec<(u64, NodeId)> = Vec::new();
        folders.push((FIRST_FREE_OBJECTID, NodeId::root()));
        let mut stats = ScanStats::default();
        stats.directories = 1;
        stats.nodes = 1;
        proof {
            assert(tree.nodes.drop_last() =~= Seq::empty());
            reveal_with_fuel(nodes_of_kind, 2);
        }
        Builder { nodes, names, seen, folders, stats, warnings: ScanWarnings::default() }
    }

    /// Adds one entry below the node `parent`.
    fn attach(
        &mut self,
        inodes: &HashMap<u64, InodeMeta>,
        entry: &DirectoryEntry,
        parent: NodeId,
        Ghost(tree): Ghost<DirectTree>,
    ) -> (result: Result<(), ArenaError>)
        requires
            old(self).stands_for(tree),
            tree.missing < u64::MAX,
        ensures
            match result {
                Ok(()) => {
                    &&& final(self).stands_for(attach(inodes@, tree, entry@, parent.0 as int))
                    &&& !is_dots(entry@.name) && inodes@.contains_key(entry@.child)
                        ==> arena::push_error(tree.names, entry@.name) is None
                },
                Err(error) => {
                    &&& !is_dots(entry@.name)
                    &&& inodes@.contains_key(entry@.child)
                    &&& arena::push_error(tree.names, entry@.name) == Some(error)
                },
            },
    {
        if names_dots(&entry.name) {
            return Ok(());
        }
        let meta: InodeMeta = match inodes.get(&entry.child) {
            Some(meta) => *meta,
            None => {
                let missing: u64 = self.warnings.missing_inode_references;
                self.warnings.missing_inode_references = missing + 1;
                return Ok(());
            },
        };
        let ghost next = attach(inodes@, tree, entry@, parent.0 as int);
        let first: bool = !self.seen.contains(&entry.child);
        let name = match self.names.push(entry.name.as_slice()) {
            Ok(name) => name,
            Err(error) => return Err(error),
        };
        self.seen.insert(entry.child);
        let id: u32 = self.nodes.len() as u32;
        self.nodes.push(
            Node {
                parent,
                inode: meta.inode,
                name,
                kind: meta.kind,
                logical_size: meta.logical_size,
                allocated_size: if first {
                    meta.allocated_size
                } else {
                    0
                },
                links: meta.links,
                mtime: meta.mtime,
            },
        );
        proof {
            assert(self.nodes@ =~= next.nodes);
            assert(next.nodes.drop_last() =~= tree.nodes);
            lemma_kinds_are_bounded(tree.nodes);
            lemma_kinds_are_bounded(next.nodes);
        }
        self.stats.directory_entries = self.stats.directory_entries + 1;
        self.stats.nodes = self.stats.nodes + 1;
        match meta.kind {
            NodeKind::File => {
                self.stats.files = self.stats.files + 1;
            },
            NodeKind::Directory => {
                self.stats.directories = self.stats.directories + 1;
                if first {
                    self.folders.push((entry.child, NodeId(id)));
                } else {
                    self.warnings.directory_aliases = self.warnings.directory_aliases + 1;
                }
            },
            NodeKind::Symlink => {
                self.stats.symlinks = self.stats.symlinks + 1;
            },
            NodeKind::Other => {
                self.stats.other = self.stats.other + 1;
            },
        }
        if !first {
            self.stats.hard_link_entries = self.stats.hard_link_entries + 1;
        }
        assert(self.seen@ =~= next.seen);
        Ok(())
    }
}

/// `children` has the positions of the first `count` entries by parent, ascending.
spec fn grouped(entries: Seq<DirectoryEntry>, count: int, children: Map<u64, Vec<usize>>) -> bool {
    &&& forall|parent: u64, a: int|
        children.contains_key(parent) && 0 <= a < children[parent]@.len() ==> {
            let at = #[trigger] children[parent]@[a];
            at < count && entries[at as int].parent == parent
        }
    &&& forall|parent: u64, a: int, b: int|
        children.contains_key(parent) && 0 <= a < b < children[parent]@.len()
            ==> #[trigger] children[parent]@[a] < #[trigger] children[parent]@[b]
    &&& forall|q: int|
        0 <= q < count ==> children.contains_key((#[trigger] entries[q]).parent)
            && children[entries[q].parent]@.contains(q as usize)
}

/// Sorts the positions of the entries out by parent.
fn group_entries(entries: &Vec<DirectoryEntry>) -> (children: HashMap<u64, Vec<usize>>)
    ensures
        grouped(entries@, entries@.len() as int, children@),
{
    let mut children: HashMap<u64, Vec<usize>> = HashMap::new();
    let mut q: usize = 0;
    while q < entries.len()
        invariant
            q <= entries.len(),
            grouped(entries@, q as int, children@),
        decreases entries.len() - q,
    {
        let parent: u64 = entries[q].parent;
        let ghost before = children@;
        let mut positions: Vec<usize> = match children.remove(&parent) {
            Some(positions) => positions,
            None => Vec::new(),
        };
        let ghost earlier = positions@;
        positions.push(q);
        let ghost now = positions@;
        children.insert(parent, positions);
        proof {
            assert(now == earlier.push(q));
            assert(now[earlier.len() as int] == q);
            assert forall|k: int| 0 <= k <= q implies children@.contains_key(
                (#[trigger] entries@[k]).parent,
            ) && children@[entries@[k].parent]@.contains(k as usize) by {
                if k < q && entries@[k].parent == parent {
                    let a = choose|a: int| 0 <= a < earlier.len() && earlier[a] == k as usize;
                    assert(now[a] == k as usize);
                }
            }
        }
        q = q + 1;
    }
    children
}

/// `laid` is the complete `tree`, counted.
pub open spec fn lays_out(laid: LaidOut, tree: DirectTree) -> bool {
    &&& laid.arena.node_list() == tree.nodes
    &&& laid.arena.name_bytes() == tree.names
    &&& tree.names.len() <= u32::MAX
    &&& laid.stats == ScanStats {
        allocated_inodes: tree.seen.len() as u64,
        files: nodes_of_kind(tree.nodes, NodeKind::File) as u64,
        directories: nodes_of_kind(tree.nodes, NodeKind::Directory) as u64,
        symlinks: nodes_of_kind(tree.nodes, NodeKind::Symlink) as u64,
        other: nodes_of_kind(tree.nodes, NodeKind::Other) as u64,
        nodes: tree.nodes.len() as u64,
        directory_entries: (tree.nodes.len() - 1) as u64,
        hard_link_entries: tree.hard_links as u64,
    }
    &&& laid.warnings == ScanWarnings {
        missing_inode_references: tree.missing as u64,
        nodes_without_parent: 0,
        directory_scan_errors: 0,
        directory_aliases: tree.aliases as u64,
    }
}

/// A directory with this inode is among the first `count` that are looked into.
spec fn looked_into(tree: DirectTree, count: int, inode: u64) -> bool {
    exists|k: int| 0 <= k < count && (#[trigger] tree.folders[k]).0 == inode
}

/// Positions of the entries with this parent.
spec fn with_parent(entries: Seq<EntryView>, parent: u64) -> Set<int> {
    Set::new(|q: int| 0 <= q < entries.len() && entries[q].parent == parent)
}

/// Ascending positions that cover a set are as many as it has members.
proof fn lemma_positions_count(positions: Seq<int>, set: Set<int>, bound: nat)
    requires
        forall|a: int, b: int|
            0 <= a < b < positions.len() ==> #[trigger] positions[a] < #[trigger] positions[b],
        forall|a: int| 0 <= a < positions.len() ==> 0 <= #[trigger] positions[a] < bound,
        forall|q: int| 0 <= q < bound ==> set.contains(q) == #[trigger] positions.contains(q),
    ensures
        positions.len() == aggregate::sum_over(set, aggregate::each_once(), bound),
    decreases bound,
{
    if bound == 0 {
        if positions.len() > 0 {
            assert(positions[0] < bound);
        }
    } else {
        let last = bound - 1;
        if positions.contains(last) {
            let at = choose|a: int| 0 <= a < positions.len() && positions[a] == last;
            if at < positions.len() - 1 {
                assert(positions[at] < positions[positions.len() - 1]);
            }
            let fewer = positions.drop_last();
            assert forall|q: int| 0 <= q < last implies set.contains(q) == #[trigger]
                fewer.contains(q) by {
                if positions.contains(q) {
                    let a = choose|a: int| 0 <= a < positions.len() && positions[a] == q;
                    assert(fewer[a] == q);
                }
                if fewer.contains(q) {
                    let a = choose|a: int| 0 <= a < fewer.len() && fewer[a] == q;
                    assert(positions[a] == q);
                }
            }
            lemma_positions_count(fewer, set, last as nat);
        } else {
            assert forall|a: int| 0 <= a < positions.len() implies 0 <= #[trigger] positions[a]
                < last by {
                if positions[a] == last {
                    assert(positions.contains(last));
                }
            }
            lemma_positions_count(positions, set, last as nat);
        }
    }
}

/// The positions of a parent's entries, and what they stand for.
fn positions_of(entries: &Vec<DirectoryEntry>, children: &HashMap<u64, Vec<usize>>, parent: u64) -> (positions:
    Vec<usize>)
    requires
        grouped(entries@, entries@.len() as int, children@),
    ensures
        forall|a: int| 0 <= a < positions.len() ==> (#[trigger] positions@[a]) < entries.len(),
        of_parent(search::entry_views(entries@), parent) == Seq::new(
            positions@.len(),
            |a: int| entries@[positions@[a] as int]@,
        ),
        positions.len() == aggregate::sum_over(
            with_parent(search::entry_views(entries@), parent),
            aggregate::each_once(),
            entries@.len(),
        ),
{
    let positions: Vec<usize> = match children.get(&parent) {
        Some(positions) => positions.clone(),
        None => Vec::new(),
    };
    proof {
        let views = search::entry_views(entries@);
        assert(entries.len() <= usize::MAX);
        let keep = |entry: EntryView| entry.parent == parent;
        let wide = Seq::new(positions@.len(), |a: int| positions@[a] as int);
        if children@.contains_key(parent) {
            assert(positions@ =~= children@[parent]@);
        }
        assert forall|a: int, b: int| 0 <= a < b < wide.len() implies #[trigger] wide[a]
            < #[trigger] wide[b] by {
            assert(children@[parent]@[a] < children@[parent]@[b]);
        }
        assert forall|a: int| 0 <= a < wide.len() implies 0 <= #[trigger] wide[a] < views.len()
            && keep(views[wide[a]]) by {
            assert(children@[parent]@[a] < entries@.len());
        }
        assert forall|q: int| 0 <= q < views.len() && keep(views[q]) implies #[trigger]
            wide.contains(q) by {
            assert(entries@[q].parent == parent);
            assert(positions@.contains(q as usize));
            let a = choose|a: int| 0 <= a < positions@.len() && positions@[a] == q as usize;
            assert(wide[a] == q);
        }
        order::lemma_filter_by_positions(views, keep, wide);
        assert(of_parent(views, parent) =~= Seq::new(
            positions@.len(),
            |a: int| entries@[positions@[a] as int]@,
        ));
        let set = with_parent(views, parent);
        assert forall|q: int| 0 <= q < views.len() implies set.contains(q) == #[trigger]
            wide.contains(q) by {
            if wide.contains(q) {
                let a = choose|a: int| 0 <= a < wide.len() && wide[a] == q;
                assert(keep(views[wide[a]]));
            }
        }
        lemma_positions_count(wide, set, views.len());
    }
    positions
}

/// Builds the tree below the root inode, breadth first, and counts what it holds.
pub fn lay_out(inodes: &HashMap<u64, InodeMeta>, entries: &Vec<DirectoryEntry>) -> (result: Result<
    LaidOut,
    DirectError,
>)
    ensures
        ({
            let source = DirectSource {
                inodes: inodes@,
                entries: search::entry_views(entries@),
            };
            match result {
                Ok(laid) => {
                    &&& source.has_root()
                    &&& all_stored(source)
                    &&& exists|tree: DirectTree| #[trigger]
                        complete(source, tree) && lays_out(laid, tree)
                },
                Err(DirectError::InvalidItem) => !source.has_root(),
                Err(error) => source.has_root() && (error matches DirectError::Arena(inner)
                    && first_failure(source, inner)),
            }
        }),
{
    let ghost source = DirectSource {
        inodes: inodes@,
        entries: search::entry_views(entries@),
    };
    let root: InodeMeta = match inodes.get(&FIRST_FREE_OBJECTID) {
        Some(root) => *root,
        None => return Err(DirectError::InvalidItem),
    };
    if root.kind != NodeKind::Directory {
        return Err(DirectError::InvalidItem);
    }
    let children = group_entries(entries);
    let mut builder = Builder::new(root, Ghost(source));
    let ghost mut tree = tree_of_root(source);
    let ghost mut used: Set<int> = Set::empty();
    let mut next: usize = 0;
    proof {
        lemma_root_sound(source);
        aggregate::lemma_sum_of_none(used, aggregate::each_once(), entries@.len());
    }
    while next < builder.folders.len()
        invariant
            source.inodes == inodes@,
            source.entries == search::entry_views(entries@),
            source.has_root(),
            grouped(entries@, entries@.len() as int, children@),
            builder.stands_for(tree),
            tree == tree_after(source, next as nat),
            tree_sound(source.inodes, tree, folder_node(tree, next as int)),
            next <= tree.folders.len(),
            none_fails_before(source, next as nat, 0),
            tree.nodes.len() + tree.missing <= 1 + aggregate::sum_over(
                used,
                aggregate::each_once(),
                entries@.len(),
            ),
            forall|q: int| #[trigger]
                used.contains(q) ==> 0 <= q < entries.len() && looked_into(
                    tree,
                    next as int,
                    source.entries[q].parent,
                ),
            tree.folders.len() <= tree.nodes.len(),
        decreases
                entries@.len() - aggregate::sum_over(
                    used,
                    aggregate::each_once(),
                    entries@.len(),
                ) + (tree.nodes.len() - next),
    {
        let ghost before = tree;
        let ghost early = used;
        let (inode, parent) = builder.folders[next];
        let positions = positions_of(entries, &children, inode);
        let ghost list = listing(source, tree, next as int);
        let ghost here = with_parent(source.entries, inode);
        proof {
            assert(inode == tree.folders[next as int].0);
            assert(used.disjoint(here)) by {
                assert forall|q: int| used.contains(q) implies !here.contains(q) by {
                    if here.contains(q) {
                        let k = choose|k: int|
                            0 <= k < next && (#[trigger] tree.folders[k]).0
                                == source.entries[q].parent;
                        assert(tree.folders[k].0 != tree.folders[next as int].0);
                    }
                }
            }
            aggregate::lemma_sum_union(used, here, aggregate::each_once(), entries@.len());
            used = used.union(here);
            aggregate::lemma_count_bound(used, entries@.len());
            aggregate::lemma_count_bound(early, entries@.len());
            assert(list.take(0) =~= Seq::empty());
        }
        let mut m: usize = 0;
        while m < positions.len()
            invariant
                source.inodes == inodes@,
                source.entries == search::entry_views(entries@),
                source.has_root(),
                before == tree_after(source, next as nat),
                next < before.folders.len(),
                parent.0 == before.folders[next as int].1,
                list == listing(source, before, next as int),
                list == Seq::new(
                    positions@.len(),
                    |a: int| entries@[positions@[a] as int]@,
                ),
                forall|a: int|
                    0 <= a < positions.len() ==> (#[trigger] positions@[a]) < entries.len(),
                m <= positions.len(),
                tree == tree_before(source, next as nat, m as int),
                grown(before, tree, m as nat),
                builder.stands_for(tree),
                none_fails_before(source, next as nat, m as int),
                before.nodes.len() + before.missing + positions.len() <= 1 + entries.len(),
                1 <= before.nodes.len(),
            decreases positions.len() - m,
        {
            let ghost prior = tree;
            assert(positions@[m as int] < entries.len());
            let at: usize = positions[m];
            proof {
                assert(list[m as int] == entries@[at as int]@);
                let longer = list.take(m + 1);
                assert(longer.drop_last() =~= list.take(m as int));
                assert(longer.last() == list[m as int]);
                tree = attach(source.inodes, tree, list[m as int], parent.0 as int);
                assert(tree == tree_before(source, next as nat, m + 1));
                lemma_attach_grows(source.inodes, prior, list[m as int], parent.0 as int);
                assert(is_entry(source, next as nat, m as int));
            }
            match builder.attach(inodes, &entries[at], parent, Ghost(prior)) {
                Ok(()) => {},
                Err(error) => {
                    assert(entry_error(source, next as nat, m as int) == Some(error));
                    return Err(DirectError::Arena(error));
                },
            }
            assert(entry_error(source, next as nat, m as int) is None);
            m = m + 1;
        }
        proof {
            assert(list.take(m as int) =~= list);
            assert(tree == tree_after(source, (next + 1) as nat));
            lemma_after_sound(source, (next + 1) as nat);
            assert forall|j: nat, n: int|
                is_entry(source, j, n) && (j < next + 1 || (j == next + 1 && n
                    < 0)) implies #[trigger] entry_error(source, j, n) is None by {
                assert(j < next || (j == next && n < m));
            }
            assert forall|q: int| #[trigger] used.contains(q) implies 0 <= q < entries.len()
                && looked_into(tree, next + 1, source.entries[q].parent) by {
                if early.contains(q) {
                    let k = choose|k: int|
                        0 <= k < next && (#[trigger] before.folders[k]).0
                            == source.entries[q].parent;
                    assert(tree.folders[k] == before.folders[k]);
                } else {
                    assert(tree.folders[next as int] == before.folders[next as int]);
                }
            }
            lemma_folders_fit(tree);
        }
        next = next + 1;
    }
    proof {
        assert(complete(source, tree));
        assert forall|j: nat, n: int| is_entry(source, j, n) implies #[trigger] entry_error(
            source,
            j,
            n,
        ) is None by {
            if j >= next {
                lemma_after_settles(source, next as nat, j);
            }
        }
    }
    let Builder { nodes, names, seen, folders: _, stats, warnings } = builder;
    let mut stats = stats;
    stats.allocated_inodes = seen.len() as u64;
    let laid = LaidOut { arena: NodeArena::from_parts(nodes, names), stats, warnings };
    assert(lays_out(laid, tree));
    Ok(laid)
}

/// There are no more directories to look into than nodes.
proof fn lemma_folders_fit(tree: DirectTree)
    requires
        folders_sound(tree),
    ensures
        tree.folders.len() <= tree.nodes.len(),
{
    let ids = Seq::new(tree.folders.len(), |k: int| tree.folders[k].1);
    lemma_ascending_fits(ids, tree.nodes.len() as int);
}

proof fn lemma_ascending_fits(ids: Seq<int>, bound: int)
    requires
        forall|a: int, b: int| 0 <= a < b < ids.len() ==> #[trigger] ids[a] < #[trigger] ids[b],
        forall|a: int| 0 <= a < ids.len() ==> 0 <= #[trigger] ids[a] < bound,
        bound >= 0,
    ensures
        ids.len() <= bound,
    decreases ids.len(),
{
    if ids.len() > 0 {
        let last = ids.len() - 1;
        assert(0 <= ids[last] < bound);
        let fewer = ids.drop_last();
        assert forall|a: int| 0 <= a < fewer.len() implies 0 <= #[trigger] fewer[a] < ids[last] by {
            assert(ids[a] < ids[last]);
        }
        lemma_ascending_fits(fewer, ids[last]);
    }
}

/// Takes the totals of a laid out tree, and notes in `info` how many inodes it has. The time that
/// takes is the caller's to fill in.
pub fn finish_scan(
    laid: LaidOut,
    info: &mut FilesystemInfo,
    open_time: u128,
    inode_scan: u128,
) -> (result: Result<FilesystemScan, DirectError>)
    ensures
        *final(info) == (FilesystemInfo {
            inode_count: laid.stats.allocated_inodes,
            reported_allocated_inodes: laid.stats.allocated_inodes,
            ..*old(info)
        }),
        match result {
            Ok(scan) => {
                &&& scan.result.arena == laid.arena
                &&& scan.result.sound()
                &&& scan.stats == laid.stats
                &&& scan.warnings == laid.warnings
                &&& scan.workers == 1
                &&& scan.timings == ScanTimings {
                    open: open_time,
                    inode_scan,
                    directory_scan: 0,
                    tree_build: 0,
                    aggregation: 0,
                }
            },
            Err(DirectError::Aggregate(AggregateError::ParentCycle)) => aggregate::parents_exist(
                laid.arena.node_list(),
            ) && !aggregate::rooted(laid.arena.node_list()),
            Err(error) => error matches DirectError::Aggregate(inner)
                && aggregate::first_invalid_parent(laid.arena.node_list(), inner),
        },
{
    info.inode_count = laid.stats.allocated_inodes;
    info.reported_allocated_inodes = laid.stats.allocated_inodes;
    let mut timings = ScanTimings::default();
    timings.open = open_time;
    timings.inode_scan = inode_scan;
    match laid.finish(timings, 1) {
        Ok(scan) => Ok(scan),
        Err(error) => Err(DirectError::Aggregate(error)),
    }
}

/// There is at most one complete tree of a source.
pub proof fn law_tree_is_unique(source: DirectSource, one: DirectTree, other: DirectTree)
    requires
        complete(source, one),
        complete(source, other),
    ensures
        one == other,
{
    if one.folders.len() <= other.folders.len() {
        lemma_after_settles(source, one.folders.len(), other.folders.len());
    } else {
        lemma_after_settles(source, other.folders.len(), one.folders.len());
    }
}

/// A complete tree has every parent in front of its children and the children of a directory side
/// by side; it is a tree that totals can be taken of.
pub proof fn law_tree_is_sound(source: DirectSource, tree: DirectTree)
    requires
        source.has_root(),
        complete(source, tree),
        tree.names.len() <= u32::MAX,
    ensures
        tree.nodes.len() >= 1,
        arena::children_grouped(tree.nodes),
        aggregate::parents_exist(tree.nodes),
        aggregate::rooted(tree.nodes),
{
    let count = tree.folders.len();
    lemma_after_sound(source, count);
    layout::law_sound_parents_root(tree.nodes, folder_node(tree, count as int));
}

/// Every inode is filed under its own number.
pub open spec fn metas_named(inodes: Map<u64, InodeMeta>) -> bool {
    forall|key: u64| #[trigger] inodes.contains_key(key) ==> inodes[key].inode == key
}

/// Some node in front of node `i` has the same inode.
pub open spec fn repeats(nodes: Seq<Node>, i: int) -> bool {
    exists|j: int| 0 <= j < i && (#[trigger] nodes[j]).inode == nodes[i].inode
}

/// Of the nodes of an inode the first one carries its allocation, the others none.
pub open spec fn first_owns(inodes: Map<u64, InodeMeta>, nodes: Seq<Node>) -> bool {
    forall|i: int|
        0 <= i < nodes.len() ==> (#[trigger] nodes[i]).allocated_size == if repeats(nodes, i) {
            0
        } else {
            inodes[nodes[i].inode].allocated_size
        }
}

/// The inodes seen are those of the nodes.
spec fn seen_in_nodes(tree: DirectTree) -> bool {
    forall|key: u64| #[trigger]
        tree.seen.contains(key) <==> exists|i: int|
            0 <= i < tree.nodes.len() && (#[trigger] tree.nodes[i]).inode == key
}

proof fn lemma_attach_owns(
    inodes: Map<u64, InodeMeta>,
    tree: DirectTree,
    entry: EntryView,
    parent: int,
)
    requires
        metas_named(inodes),
        first_owns(inodes, tree.nodes),
        seen_in_nodes(tree),
    ensures
        first_owns(inodes, attach(inodes, tree, entry, parent).nodes),
        seen_in_nodes(attach(inodes, tree, entry, parent)),
{
    let next = attach(inodes, tree, entry, parent);
    if !is_dots(entry.name) && inodes.contains_key(entry.child) {
        let last = tree.nodes.len() as int;
        assert(next.nodes[last].inode == entry.child);
        assert forall|key: u64| #[trigger] next.seen.contains(key) <==> exists|i: int|
            0 <= i < next.nodes.len() && (#[trigger] next.nodes[i]).inode == key by {
            if next.seen.contains(key) && key != entry.child {
                assert(tree.seen.contains(key));
                let i = choose|i: int|
                    0 <= i < tree.nodes.len() && (#[trigger] tree.nodes[i]).inode == key;
                assert(next.nodes[i].inode == key);
            }
            if exists|i: int| 0 <= i < next.nodes.len() && (#[trigger] next.nodes[i]).inode == key {
                let i = choose|i: int|
                    0 <= i < next.nodes.len() && (#[trigger] next.nodes[i]).inode == key;
                if i < last {
                    assert(tree.nodes[i].inode == key);
                    assert(tree.seen.contains(key));
                }
            }
        }
        assert forall|i: int| 0 <= i < next.nodes.len() implies (
        #[trigger] next.nodes[i]).allocated_size == if repeats(next.nodes, i) {
            0
        } else {
            inodes[next.nodes[i].inode].allocated_size
        } by {
            if i < last {
                assert(next.nodes[i] == tree.nodes[i]);
                if repeats(next.nodes, i) {
                    let j = choose|j: int|
                        0 <= j < i && (#[trigger] next.nodes[j]).inode == next.nodes[i].inode;
                    assert(tree.nodes[j].inode == tree.nodes[i].inode);
                }
                if repeats(tree.nodes, i) {
                    let j = choose|j: int|
                        0 <= j < i && (#[trigger] tree.nodes[j]).inode == tree.nodes[i].inode;
                    assert(next.nodes[j].inode == next.nodes[i].inode);
                }
            } else {
                if tree.seen.contains(entry.child) {
                    let j = choose|j: int|
                        0 <= j < tree.nodes.len() && (#[trigger] tree.nodes[j]).inode
                            == entry.child;
                    assert(next.nodes[j].inode == next.nodes[i].inode);
                }
                if repeats(next.nodes, i) {
                    let j = choose|j: int|
                        0 <= j < i && (#[trigger] next.nodes[j]).inode == next.nodes[i].inode;
                    assert(tree.nodes[j].inode == entry.child);
                    assert(tree.seen.contains(entry.child));
                }
            }
        }
    }
}

proof fn lemma_attach_all_owns(
    inodes: Map<u64, InodeMeta>,
    tree: DirectTree,
    entries: Seq<EntryView>,
    parent: int,
)
    requires
        metas_named(inodes),
        first_owns(inodes, tree.nodes),
        seen_in_nodes(tree),
    ensures
        first_owns(inodes, attach_all(inodes, tree, entries, parent).nodes),
        seen_in_nodes(attach_all(inodes, tree, entries, parent)),
    decreases entries.len(),
{
    if entries.len() > 0 {
        lemma_attach_all_owns(inodes, tree, entries.drop_last(), parent);
        lemma_attach_owns(
            inodes,
            attach_all(inodes, tree, entries.drop_last(), parent),
            entries.last(),
            parent,
        );
    }
}

/// The allocation of an inode is counted once: of all the nodes that name it the first carries it.
/// The inodes seen are exactly those that have a node.
pub proof fn law_first_node_owns_allocation(source: DirectSource, count: nat)
    requires
        source.has_root(),
        metas_named(source.inodes),
    ensures
        first_owns(source.inodes, tree_after(source, count).nodes),
        forall|key: u64| #[trigger]
            tree_after(source, count).seen.contains(key) <==> exists|i: int|
                0 <= i < tree_after(source, count).nodes.len() && (
                #[trigger] tree_after(source, count).nodes[i]).inode == key,
    decreases count,
{
    if count > 0 {
        law_first_node_owns_allocation(source, (count - 1) as nat);
        let before = tree_after(source, (count - 1) as nat);
        assert(seen_in_nodes(before));
        if count - 1 < before.folders.len() {
            lemma_attach_all_owns(
                source.inodes,
                before,
                listing(source, before, count - 1),
                before.folders[count - 1].1,
            );
        }
        assert(seen_in_nodes(tree_after(source, count)));
    } else {
        let tree = tree_of_root(source);
        assert(tree.nodes[0].inode == FIRST_FREE_OBJECTID);
    }
}

proof fn lemma_attach_all_counts(
    inodes: Map<u64, InodeMeta>,
    tree: DirectTree,
    entries: Seq<EntryView>,
    parent: int,
)
    requires
        tree.seen.finite(),
        tree.hard_links + tree.seen.len() == tree.nodes.len(),
    ensures
        ({
            let next = attach_all(inodes, tree, entries, parent);
            &&& next.seen.finite()
            &&& next.hard_links + next.seen.len() == next.nodes.len()
        }),
    decreases entries.len(),
{
    if entries.len() > 0 {
        lemma_attach_all_counts(inodes, tree, entries.drop_last(), parent);
        let before = attach_all(inodes, tree, entries.drop_last(), parent);
        let child = entries.last().child;
        if before.seen.contains(child) {
            assert(before.seen.insert(child) =~= before.seen);
        }
    }
}

/// Every node is the first of an inode or a further hard link to one.
pub proof fn law_nodes_are_inodes_and_links(source: DirectSource, count: nat)
    ensures
        tree_after(source, count).seen.finite(),
        tree_after(source, count).hard_links + tree_after(source, count).seen.len() == tree_after(
            source,
            count,
        ).nodes.len(),
    decreases count,
{
    if count > 0 {
        law_nodes_are_inodes_and_links(source, (count - 1) as nat);
        let before = tree_after(source, (count - 1) as nat);
        if count - 1 < before.folders.len() {
            lemma_attach_all_counts(
                source.inodes,
                before,
                listing(source, before, count - 1),
                before.folders[count - 1].1,
            );
        }
    }
}

/// Inodes that are read out of items are filed under their own numbers.
pub proof fn law_items_keep_metas_named(found: search::FoundView, item: search::FoundItem)
    requires
        metas_named(found.inodes),
    ensures
        metas_named(search::with_item(found, item).inodes),
{
}

proof fn lemma_attach_all_continues(
    inodes: Map<u64, InodeMeta>,
    tree: DirectTree,
    entries: Seq<EntryView>,
    some: int,
    parent: int,
)
    requires
        0 <= some <= entries.len(),
    ensures
        attach_all(inodes, tree, entries.take(some), parent).nodes.is_prefix_of(
            attach_all(inodes, tree, entries, parent).nodes,
        ),
        attach_all(inodes, tree, entries.take(some), parent).names.is_prefix_of(
            attach_all(inodes, tree, entries, parent).names,
        ),
    decreases entries.len(),
{
    if some == entries.len() {
        assert(entries.take(some) =~= entries);
    } else {
        lemma_attach_all_continues(inodes, tree, entries.drop_last(), some, parent);
        assert(entries.drop_last().take(some) =~= entries.take(some));
        lemma_attach_grows(
            inodes,
            attach_all(inodes, tree, entries.drop_last(), parent),
            entries.last(),
            parent,
        );
    }
}

/// Every entry of a directory of the tree, dots and entries without an inode aside, has a node of
/// its own below that directory, with its name.
pub proof fn law_every_link_is_visible(source: DirectSource, tree: DirectTree, k: int, m: int)
    requires
        source.has_root(),
        complete(source, tree),
        tree.names.len() <= u32::MAX,
        all_stored(source),
        0 <= k < tree.folders.len(),
        0 <= m < listing(source, tree, k).len(),
        !is_dots(listing(source, tree, k)[m].name),
        source.inodes.contains_key(listing(source, tree, k)[m].child),
    ensures
        exists|i: int|
            {
                let entry = listing(source, tree, k)[m];
                &&& 0 <= i < tree.nodes.len()
                &&& (#[trigger] tree.nodes[i]).parent.0 == tree.folders[k].1
                &&& tree.nodes[i].inode == source.inodes[entry.child].inode
                &&& arena::name_stored(tree.names, tree.nodes[i].name)
                &&& arena::name_at(tree.names, tree.nodes[i].name) == entry.name
            },
{
    let before = tree_after(source, k as nat);
    let last = tree.folders.len();
    lemma_after_grows(source, k as nat, last);
    lemma_after_grows(source, (k + 1) as nat, last);
    if k >= before.folders.len() {
        lemma_after_settles(source, k as nat, last);
    }
    assert(before.folders[k] == tree.folders[k]);
    lemma_after_sound(source, k as nat);
    let parent = before.folders[k].1;
    assert(0 <= before.folders[k].1 < before.nodes.len());
    let list = listing(source, before, k);
    let entry = list[m];
    let some = list.take(m + 1);
    assert(some.drop_last() =~= list.take(m));
    assert(some.last() == entry);
    let prior = tree_before(source, k as nat, m);
    let then = attach_all(source.inodes, before, some, parent);
    assert(then == attach(source.inodes, prior, entry, parent));
    lemma_attach_all_continues(source.inodes, before, list, m + 1, parent);
    assert(is_entry(source, k as nat, m));
    assert(entry_error(source, k as nat, m) is None);
    let i = prior.nodes.len() as int;
    let node = then.nodes[i];
    assert(node.name.offset == prior.names.len());
    assert(node.name.len == entry.name.len());
    assert(tree.nodes[i] == node);
    assert(arena::name_at(then.names, node.name) =~= entry.name);
    assert(arena::name_at(tree.names, node.name) =~= arena::name_at(then.names, node.name));
}

proof fn lemma_attach_all_stored(
    inodes: Map<u64, InodeMeta>,
    tree: DirectTree,
    entries: Seq<EntryView>,
    parent: int,
)
    requires
        arena::names_stored(tree.nodes, tree.names),
        attach_all(inodes, tree, entries, parent).names.len() <= u32::MAX,
    ensures
        arena::names_stored(
            attach_all(inodes, tree, entries, parent).nodes,
            attach_all(inodes, tree, entries, parent).names,
        ),
    decreases entries.len(),
{
    if entries.len() > 0 {
        let before = attach_all(inodes, tree, entries.drop_last(), parent);
        lemma_attach_grows(inodes, before, entries.last(), parent);
        lemma_attach_all_stored(inodes, tree, entries.drop_last(), parent);
        let next = attach_all(inodes, tree, entries, parent);
        assert forall|i: int| 0 <= i < next.nodes.len() implies arena::name_stored(
            next.names,
            (#[trigger] next.nodes[i]).name,
        ) by {
            if i < before.nodes.len() {
                assert(next.nodes[i] == before.nodes[i]);
                assert(arena::name_stored(before.names, before.nodes[i].name));
            }
        }
    }
}

/// The name of every node lies inside the name arena.
pub proof fn law_node_names_are_stored(source: DirectSource, count: nat)
    requires
        tree_after(source, count).names.len() <= u32::MAX,
    ensures
        arena::names_stored(tree_after(source, count).nodes, tree_after(source, count).names),
    decreases count,
{
    if count > 0 {
        lemma_after_grows(source, (count - 1) as nat, count);
        law_node_names_are_stored(source, (count - 1) as nat);
        let before = tree_after(source, (count - 1) as nat);
        if count - 1 < before.folders.len() {
            lemma_attach_all_stored(
                source.inodes,
                before,
                listing(source, before, count - 1),
                before.folders[count - 1].1,
            );
        }
    }
}

/// The result of a scan can be browsed.
pub proof fn law_results_are_browsable(
    source: DirectSource,
    tree: DirectTree,
    result: crate::scan::ScanResult,
)
    requires
        source.has_root(),
        complete(source, tree),
        tree.names.len() <= u32::MAX,
        result.arena.node_list() == tree.nodes,
        result.arena.name_bytes() == tree.names,
        result.sound(),
    ensures
        result.browsable(),
{
    law_tree_is_sound(source, tree);
    lemma_after_sound(source, tree.folders.len());
    law_node_names_are_stored(source, tree.folders.len());
}

/// A node says what its inode says of kind, logical size, links and modification time.
spec fn says_of(inodes: Map<u64, InodeMeta>, node: Node) -> bool {
    &&& inodes.contains_key(node.inode)
    &&& node.kind == inodes[node.inode].kind
    &&& node.logical_size == inodes[node.inode].logical_size
    &&& node.links == inodes[node.inode].links
    &&& node.mtime == inodes[node.inode].mtime
}

/// An entry names a node by its name, in the directory of the node's parent.
spec fn names_node(entry: EntryView, nodes: Seq<Node>, names: Seq<u8>, i: int) -> bool {
    &&& entry.parent == nodes[nodes[i].parent.0 as int].inode
    &&& entry.child == nodes[i].inode
    &&& entry.name == arena::name_at(names, nodes[i].name)
    &&& arena::name_stored(names, nodes[i].name)
    &&& !is_dots(entry.name)
}

spec fn node_explained(source: DirectSource, tree: DirectTree, i: int) -> bool {
    &&& says_of(source.inodes, tree.nodes[i])
    &&& i > 0 ==> {
        &&& tree.nodes[i].parent.0 < i
        &&& exists|q: int|
            0 <= q < source.entries.len() && names_node(
                #[trigger] source.entries[q],
                tree.nodes,
                tree.names,
                i,
            )
    }
}

spec fn all_explained(source: DirectSource, tree: DirectTree) -> bool {
    &&& forall|i: int| 0 <= i < tree.nodes.len() ==> #[trigger] node_explained(source, tree, i)
    &&& forall|k: int|
        0 <= k < tree.folders.len() ==> {
            &&& 0 <= (#[trigger] tree.folders[k]).1 < tree.nodes.len()
            &&& tree.nodes[tree.folders[k].1].inode == tree.folders[k].0
        }
}

proof fn lemma_attach_all_explained(
    source: DirectSource,
    tree: DirectTree,
    entries: Seq<EntryView>,
    parent: int,
)
    requires
        metas_named(source.inodes),
        all_explained(source, tree),
        0 <= parent < tree.nodes.len(),
        parent <= u32::MAX,
        forall|e: int|
            0 <= e < entries.len() ==> source.entries.contains(#[trigger] entries[e])
                && entries[e].parent == tree.nodes[parent].inode && entries[e].name.len()
                <= u16::MAX,
        attach_all(source.inodes, tree, entries, parent).names.len() <= u32::MAX,
    ensures
        all_explained(source, attach_all(source.inodes, tree, entries, parent)),
    decreases entries.len(),
{
    if entries.len() > 0 {
        let before = attach_all(source.inodes, tree, entries.drop_last(), parent);
        let next = attach_all(source.inodes, tree, entries, parent);
        let entry = entries.last();
        lemma_attach_grows(source.inodes, before, entry, parent);
        lemma_attach_all_grows(source.inodes, tree, entries.drop_last(), parent);
        assert(next == attach(source.inodes, before, entry, parent));
        assert forall|e: int| 0 <= e < entries.drop_last().len() implies source.entries.contains(
            #[trigger] entries.drop_last()[e],
        ) && entries.drop_last()[e].parent == tree.nodes[parent].inode
            && entries.drop_last()[e].name.len() <= u16::MAX by {
            assert(entries.drop_last()[e] == entries[e]);
        }
        lemma_attach_all_explained(source, tree, entries.drop_last(), parent);
        assert(source.entries.contains(entries[entries.len() - 1]));
        assert(before.nodes[parent] == tree.nodes[parent]);
        assert forall|i: int| 0 <= i < next.nodes.len() implies #[trigger] node_explained(
            source,
            next,
            i,
        ) by {
            if i < before.nodes.len() {
                assert(node_explained(source, before, i));
                assert(next.nodes[i] == before.nodes[i]);
                if i > 0 {
                    let up = before.nodes[i].parent.0 as int;
                    assert(next.nodes[up] == before.nodes[up]);
                    let q = choose|q: int|
                        0 <= q < source.entries.len() && names_node(
                            #[trigger] source.entries[q],
                            before.nodes,
                            before.names,
                            i,
                        );
                    assert(arena::name_at(next.names, next.nodes[i].name) =~= arena::name_at(
                        before.names,
                        before.nodes[i].name,
                    ));
                    assert(names_node(source.entries[q], next.nodes, next.names, i));
                }
            } else {
                let q = choose|q: int| 0 <= q < source.entries.len() && source.entries[q] == entry;
                assert(next.nodes[parent] == tree.nodes[parent]);
                assert(arena::name_at(next.names, next.nodes[i].name) =~= entry.name);
                assert(names_node(source.entries[q], next.nodes, next.names, i));
            }
        }
        assert forall|k: int| 0 <= k < next.folders.len() implies {
            &&& 0 <= (#[trigger] next.folders[k]).1 < next.nodes.len()
            &&& next.nodes[next.folders[k].1].inode == next.folders[k].0
        } by {
            if k < before.folders.len() {
                assert(next.folders[k] == before.folders[k]);
                assert(next.nodes[next.folders[k].1] == before.nodes[before.folders[k].1]);
            }
        }
    }
}

proof fn lemma_after_explained(source: DirectSource, count: nat)
    requires
        source.has_root(),
        metas_named(source.inodes),
        forall|q: int|
            0 <= q < source.entries.len() ==> (#[trigger] source.entries[q]).name.len() <= u16::MAX,
        tree_after(source, count).names.len() <= u32::MAX,
        tree_after(source, count).nodes.len() <= u32::MAX + 1,
    ensures
        all_explained(source, tree_after(source, count)),
    decreases count,
{
    if count == 0 {
        let tree = tree_of_root(source);
        assert(says_of(source.inodes, tree.nodes[0]));
    } else {
        let before = tree_after(source, (count - 1) as nat);
        let k = count - 1;
        if k < before.folders.len() {
            let entries = listing(source, before, k);
            lemma_attach_all_grows(source.inodes, before, entries, before.folders[k].1);
            lemma_after_explained(source, (count - 1) as nat);
            let keep = |entry: EntryView| entry.parent == before.folders[k].0;
            assert forall|e: int| 0 <= e < entries.len() implies source.entries.contains(
                #[trigger] entries[e],
            ) && entries[e].parent == before.folders[k].0 && entries[e].name.len() <= u16::MAX by {
                assert(entries.contains(entries[e]));
                source.entries.lemma_filter_contains_rev(keep, entries[e]);
                source.entries.lemma_filter_pred(keep, e);
            }
            lemma_attach_all_explained(source, before, entries, before.folders[k].1);
        } else {
            lemma_after_explained(source, (count - 1) as nat);
        }
    }
}

/// Every node of a tree has the kind, the logical size, the links and the modification time that its
/// inode says.
pub proof fn law_nodes_say_what_their_inodes_say(source: DirectSource, tree: DirectTree, i: int)
    requires
        source.has_root(),
        metas_named(source.inodes),
        forall|q: int|
            0 <= q < source.entries.len() ==> (#[trigger] source.entries[q]).name.len() <= u16::MAX,
        complete(source, tree),
        tree.names.len() <= u32::MAX,
        tree.nodes.len() <= u32::MAX + 1,
        0 <= i < tree.nodes.len(),
    ensures
        source.inodes.contains_key(tree.nodes[i].inode),
        ({
            let inode = source.inodes[tree.nodes[i].inode];
            &&& tree.nodes[i].kind == inode.kind
            &&& tree.nodes[i].logical_size == inode.logical_size
            &&& tree.nodes[i].links == inode.links
            &&& tree.nodes[i].mtime == inode.mtime
            &&& tree.nodes[i].allocated_size == inode.allocated_size || tree.nodes[i].allocated_size
                == 0
        }),
{
    lemma_after_explained(source, tree.folders.len());
    assert(node_explained(source, tree, i));
    law_first_node_owns_allocation(source, tree.folders.len());
}

/// Nothing is made up: the root is the directory with the number 256, and every other node is named
/// by an entry of its parent, which stands before it.
pub proof fn law_nodes_are_named_by_entries(source: DirectSource, tree: DirectTree, i: int)
    requires
        source.has_root(),
        metas_named(source.inodes),
        forall|q: int|
            0 <= q < source.entries.len() ==> (#[trigger] source.entries[q]).name.len() <= u16::MAX,
        complete(source, tree),
        tree.names.len() <= u32::MAX,
        tree.nodes.len() <= u32::MAX + 1,
        0 <= i < tree.nodes.len(),
    ensures
        tree.nodes[0].inode == 256,
        i > 0 ==> {
            let up = tree.nodes[i].parent.0 as int;
            &&& up < i
            &&& exists|q: int|
                {
                    &&& 0 <= q < source.entries.len()
                    &&& (#[trigger] source.entries[q]).parent == tree.nodes[up].inode
                    &&& source.entries[q].child == tree.nodes[i].inode
                    &&& source.entries[q].name == arena::name_at(tree.names, tree.nodes[i].name)
                }
        },
{
    lemma_after_explained(source, tree.folders.len());
    assert(node_explained(source, tree, i));
    lemma_first_node(source, tree.folders.len());
    if i > 0 {
        let q = choose|q: int|
            0 <= q < source.entries.len() && names_node(
                #[trigger] source.entries[q],
                tree.nodes,
                tree.names,
                i,
            );
        assert(source.entries[q].child == tree.nodes[i].inode);
    }
}

proof fn lemma_first_node(source: DirectSource, count: nat)
    requires
        metas_named(source.inodes),
        source.has_root(),
    ensures
        tree_after(source, count).nodes.len() >= 1,
        tree_after(source, count).nodes[0].inode == 256,
    decreases count,
{
    if count > 0 {
        lemma_first_node(source, (count - 1) as nat);
        let before = tree_after(source, (count - 1) as nat);
        if count - 1 < before.folders.len() {
            lemma_attach_all_grows(
                source.inodes,
                before,
                listing(source, before, count - 1),
                before.folders[count - 1].1,
            );
            assert(tree_after(source, count).nodes[0] == before.nodes[0]);
        }
    }
}

/// The names that are left out are the two dots and nothing else.
pub proof fn law_only_dots_are_left_out(name: Seq<u8>)
    ensures
        is_dots(name) <==> (name.len() == 1 || name.len() == 2) && forall|i: int|
            0 <= i < name.len() ==> #[trigger] name[i] == 0x2e,
{
    if (name.len() == 1 || name.len() == 2) && forall|i: int|
        0 <= i < name.len() ==> #[trigger] name[i] == 0x2e {
        assert(name[0] == 0x2e);
        if name.len() == 1 {
            assert(name =~= seq![DOT]);
        } else {
            assert(name[1] == 0x2e);
            assert(name =~= seq![DOT, DOT]);
        }
    }
}

/// The count of a kind is the number of nodes of that kind.
pub proof fn law_counts_count_nodes(nodes: Seq<Node>, kind: NodeKind)
    ensures
        nodes_of_kind(nodes, kind) == nodes.filter(|node: Node| node.kind == kind).len(),
    decreases nodes.len(),
{
    reveal(Seq::filter);
    if nodes.len() > 0 {
        law_counts_count_nodes(nodes.drop_last(), kind);
    }
}

/// The statistics of a scan count its nodes by kind, its inodes, its entries and its further hard
/// links.
pub proof fn law_statistics_count_the_tree(laid: LaidOut, tree: DirectTree)
    requires
        lays_out(laid, tree),
        tree.seen.finite(),
        1 <= tree.nodes.len() <= u32::MAX,
        tree.hard_links + tree.seen.len() == tree.nodes.len(),
    ensures
        ({
            let nodes = laid.arena.node_list();
            &&& laid.stats.files == nodes.filter(|node: Node| node.kind == NodeKind::File).len()
            &&& laid.stats.directories == nodes.filter(
                |node: Node| node.kind == NodeKind::Directory,
            ).len()
            &&& laid.stats.symlinks == nodes.filter(
                |node: Node| node.kind == NodeKind::Symlink,
            ).len()
            &&& laid.stats.other == nodes.filter(|node: Node| node.kind == NodeKind::Other).len()
            &&& laid.stats.nodes == nodes.len()
            &&& laid.stats.directory_entries == nodes.len() - 1
            &&& laid.stats.allocated_inodes == tree.seen.len()
            &&& laid.stats.hard_link_entries + laid.stats.allocated_inodes == nodes.len()
            &&& tree.missing <= u64::MAX ==> laid.warnings.missing_inode_references == tree.missing
            &&& tree.aliases <= u64::MAX ==> laid.warnings.directory_aliases == tree.aliases
        }),
{
    lemma_kinds_are_bounded(tree.nodes);
    law_counts_count_nodes(tree.nodes, NodeKind::File);
    law_counts_count_nodes(tree.nodes, NodeKind::Directory);
    law_counts_count_nodes(tree.nodes, NodeKind::Symlink);
    law_counts_count_nodes(tree.nodes, NodeKind::Other);
}

/// Every entry is accounted for: dots change nothing, an entry without an inode is counted as
/// missing, and every other one becomes a node; a further name of an inode counts as a hard link, a
/// further name of a directory as an alias that is not looked into.
pub proof fn law_every_entry_is_accounted_for(
    inodes: Map<u64, InodeMeta>,
    tree: DirectTree,
    entry: EntryView,
    parent: int,
)
    ensures
        ({
            let next = attach(inodes, tree, entry, parent);
            let known = tree.seen.contains(entry.child);
            let directory = inodes[entry.child].kind == NodeKind::Directory;
            if entry.name == seq![0x2eu8] || entry.name == seq![0x2eu8, 0x2eu8] {
                next == tree
            } else if !inodes.contains_key(entry.child) {
                &&& next.missing == tree.missing + 1
                &&& next.nodes == tree.nodes
                &&& next.folders == tree.folders
            } else {
                &&& next.nodes.len() == tree.nodes.len() + 1
                &&& next.missing == tree.missing
                &&& next.hard_links == tree.hard_links + (if known {
                    1int
                } else {
                    0
                })
                &&& next.aliases == tree.aliases + (if known && directory {
                    1int
                } else {
                    0
                })
                &&& next.folders.len() == tree.folders.len() + (if !known && directory {
                    1int
                } else {
                    0
                })
                &&& next.seen.contains(entry.child)
            }
        }),
{
}

/// No entry is passed over: every entry of a directory that is looked into, dots and entries without
/// an inode aside, has a node below that directory, with its name.
pub proof fn law_every_entry_is_visible(source: DirectSource, tree: DirectTree, k: int, q: int)
    requires
        source.has_root(),
        metas_named(source.inodes),
        complete(source, tree),
        tree.names.len() <= u32::MAX,
        all_stored(source),
        0 <= k < tree.folders.len(),
        0 <= q < source.entries.len(),
        source.entries[q].parent == tree.folders[k].0,
        source.entries[q].name != seq![0x2eu8],
        source.entries[q].name != seq![0x2eu8, 0x2eu8],
        source.inodes.contains_key(source.entries[q].child),
    ensures
        exists|i: int|
            {
                let entry = source.entries[q];
                &&& 0 <= i < tree.nodes.len()
                &&& (#[trigger] tree.nodes[i]).parent.0 == tree.folders[k].1
                &&& tree.nodes[i].inode == entry.child
                &&& arena::name_at(tree.names, tree.nodes[i].name) == entry.name
            },
{
    let entry = source.entries[q];
    let keep = |entry: EntryView| entry.parent == tree.folders[k].0;
    source.entries.lemma_filter_contains(keep, q);
    let list = listing(source, tree, k);
    assert(list == source.entries.filter(keep));
    let m = choose|m: int| 0 <= m < list.len() && list[m] == entry;
    law_every_link_is_visible(source, tree, k, m);
    let i = choose|i: int|
        {
            let entry = listing(source, tree, k)[m];
            &&& 0 <= i < tree.nodes.len()
            &&& (#[trigger] tree.nodes[i]).parent.0 == tree.folders[k].1
            &&& tree.nodes[i].inode == source.inodes[entry.child].inode
            &&& arena::name_stored(tree.names, tree.nodes[i].name)
            &&& arena::name_at(tree.names, tree.nodes[i].name) == entry.name
        };
    assert(tree.nodes[i].inode == entry.child);
}

/// Node `i` is looked into.
pub open spec fn is_looked_into(tree: DirectTree, i: int) -> bool {
    exists|k: int|
        0 <= k < tree.folders.len() && (#[trigger] tree.folders[k]).1 == i && tree.folders[k].0
            == tree.nodes[i].inode
}

spec fn directories_listed(tree: DirectTree) -> bool {
    forall|i: int|
        0 <= i < tree.nodes.len() && tree.nodes[i].kind == NodeKind::Directory && !repeats(
            tree.nodes,
            i,
        ) ==> #[trigger] is_looked_into(tree, i)
}

proof fn lemma_attach_lists(
    inodes: Map<u64, InodeMeta>,
    tree: DirectTree,
    entry: EntryView,
    parent: int,
)
    requires
        metas_named(inodes),
        seen_in_nodes(tree),
        directories_listed(tree),
    ensures
        directories_listed(attach(inodes, tree, entry, parent)),
{
    let next = attach(inodes, tree, entry, parent);
    lemma_attach_grows(inodes, tree, entry, parent);
    assert forall|i: int|
        0 <= i < next.nodes.len() && next.nodes[i].kind == NodeKind::Directory && !repeats(
            next.nodes,
            i,
        ) implies #[trigger] is_looked_into(next, i) by {
        if i < tree.nodes.len() {
            assert(next.nodes[i] == tree.nodes[i]);
            assert(!repeats(tree.nodes, i)) by {
                if repeats(tree.nodes, i) {
                    let j = choose|j: int|
                        0 <= j < i && (#[trigger] tree.nodes[j]).inode == tree.nodes[i].inode;
                    assert(next.nodes[j].inode == next.nodes[i].inode);
                }
            }
            assert(is_looked_into(tree, i));
            let k = choose|k: int|
                0 <= k < tree.folders.len() && (#[trigger] tree.folders[k]).1 == i
                    && tree.folders[k].0 == tree.nodes[i].inode;
            assert(next.folders[k] == tree.folders[k]);
        } else {
            assert(!tree.seen.contains(entry.child)) by {
                if tree.seen.contains(entry.child) {
                    let j = choose|j: int|
                        0 <= j < tree.nodes.len() && (#[trigger] tree.nodes[j]).inode
                            == entry.child;
                    assert(next.nodes[j].inode == next.nodes[i].inode);
                }
            }
            assert(next.folders[tree.folders.len() as int].1 == i);
        }
    }
}

proof fn lemma_attach_all_lists(
    inodes: Map<u64, InodeMeta>,
    tree: DirectTree,
    entries: Seq<EntryView>,
    parent: int,
)
    requires
        metas_named(inodes),
        first_owns(inodes, tree.nodes),
        seen_in_nodes(tree),
        directories_listed(tree),
    ensures
        directories_listed(attach_all(inodes, tree, entries, parent)),
    decreases entries.len(),
{
    if entries.len() > 0 {
        lemma_attach_all_lists(inodes, tree, entries.drop_last(), parent);
        lemma_attach_all_owns(inodes, tree, entries.drop_last(), parent);
        lemma_attach_lists(
            inodes,
            attach_all(inodes, tree, entries.drop_last(), parent),
            entries.last(),
            parent,
        );
    }
}

proof fn lemma_after_lists(source: DirectSource, count: nat)
    requires
        source.has_root(),
        metas_named(source.inodes),
    ensures
        directories_listed(tree_after(source, count)),
    decreases count,
{
    if count == 0 {
        let tree = tree_of_root(source);
        assert(tree.folders[0].1 == 0);
        assert(is_looked_into(tree, 0));
    } else {
        lemma_after_lists(source, (count - 1) as nat);
        law_first_node_owns_allocation(source, (count - 1) as nat);
        let before = tree_after(source, (count - 1) as nat);
        assert(seen_in_nodes(before));
        if count - 1 < before.folders.len() {
            lemma_attach_all_lists(
                source.inodes,
                before,
                listing(source, before, count - 1),
                before.folders[count - 1].1,
            );
        }
    }
}

/// Every directory is looked into where it turns up first, whatever its name.
pub proof fn law_every_directory_is_looked_into(source: DirectSource, tree: DirectTree, i: int)
    requires
        source.has_root(),
        metas_named(source.inodes),
        complete(source, tree),
        0 <= i < tree.nodes.len(),
        tree.nodes[i].kind == NodeKind::Directory,
        forall|j: int| 0 <= j < i ==> (#[trigger] tree.nodes[j]).inode != tree.nodes[i].inode,
    ensures
        is_looked_into(tree, i),
{
    lemma_after_lists(source, tree.folders.len());
    assert(!repeats(tree.nodes, i));
}

} // verus!
