//! Building the tree of an ext4 filesystem from its inodes and directory entries.

use vstd::prelude::*;

use crate::aggregate;
use crate::arena;
use crate::arena::{ArenaError, NameArena, NodeArena};
use crate::ext4::error::Ext4Error;
use crate::layout;
use crate::node::{NameRef, Node, NodeId, NodeKind};
use crate::scan::ScanWarnings;

verus! {

/// Inode number of the root directory.
pub const ROOT_INODE: u64 = 2;

/// What the tree takes from an inode.
#[derive(Clone, Copy, Debug, Eq, PartialEq, Structural)]
pub struct InodeInfo {
    pub inode: u64,
    pub kind: NodeKind,
    pub logical_size: u64,
    pub allocated_size: u64,
    pub links: u32,
    pub mtime: i64,
}

/// One name in one directory.
#[derive(Clone, Copy, Debug, Eq, PartialEq, Structural)]
pub struct DirectoryEntry {
    pub parent_inode: u64,
    pub child_inode: u64,
    pub name: NameRef,
}

/// Contiguous slice of the entries that belongs to one parent directory.
#[derive(Clone, Copy, Debug, Eq, PartialEq, Structural)]
pub struct DirRange {
    pub parent: u64,
    pub start: usize,
    pub end: usize,
}

/// The inodes stand in strictly ascending order of their numbers.
pub open spec fn inodes_ascending(inodes: Seq<InodeInfo>) -> bool {
    forall|i: int, j: int|
        0 <= i < j < inodes.len() ==> (#[trigger] inodes[i]).inode < (#[trigger] inodes[j]).inode
}

/// Position of the inode with this number.
pub open spec fn position_of(inodes: Seq<InodeInfo>, number: u64) -> Option<int> {
    if exists|i: int| 0 <= i < inodes.len() && (#[trigger] inodes[i]).inode == number {
        Some(choose|i: int| 0 <= i < inodes.len() && (#[trigger] inodes[i]).inode == number)
    } else {
        None
    }
}

/// The ranges stand in strictly ascending order of their parents, and each covers entries of its
/// parent only.
pub open spec fn ranges_fit(entries: Seq<DirectoryEntry>, ranges: Seq<DirRange>) -> bool {
    &&& forall|i: int, j: int|
        0 <= i < j < ranges.len() ==> (#[trigger] ranges[i]).parent < (#[trigger] ranges[j]).parent
    &&& forall|i: int|
        0 <= i < ranges.len() ==> (#[trigger] ranges[i]).start <= ranges[i].end <= entries.len()
    &&& forall|i: int, q: int|
        0 <= i < ranges.len() && ranges[i].start <= q < ranges[i].end ==> (
        #[trigger] entries[q]).parent_inode == (#[trigger] ranges[i]).parent
}

/// Position of the range of a directory.
pub open spec fn range_of(ranges: Seq<DirRange>, directory: u64) -> Option<int> {
    if exists|i: int| 0 <= i < ranges.len() && (#[trigger] ranges[i]).parent == directory {
        Some(choose|i: int| 0 <= i < ranges.len() && (#[trigger] ranges[i]).parent == directory)
    } else {
        None
    }
}

/// The entries of a directory.
pub open spec fn listing(
    entries: Seq<DirectoryEntry>,
    ranges: Seq<DirRange>,
    directory: u64,
) -> Seq<DirectoryEntry> {
    match range_of(ranges, directory) {
        Some(i) => entries.subrange(ranges[i].start as int, ranges[i].end as int),
        None => Seq::empty(),
    }
}

/// What a tree is built from.
pub struct TreeSource {
    pub inodes: Seq<InodeInfo>,
    pub entries: Seq<DirectoryEntry>,
    pub ranges: Seq<DirRange>,
    pub root_name: NameRef,
}

impl TreeSource {
    /// What building a tree relies on.
    pub open spec fn fit(self) -> bool {
        inodes_ascending(self.inodes) && ranges_fit(self.entries, self.ranges)
    }

    /// Position of the root inode.
    pub open spec fn root(self) -> Option<int> {
        position_of(self.inodes, ROOT_INODE)
    }

    /// There is a root, and it is a directory.
    pub open spec fn has_root(self) -> bool {
        self.root() is Some && self.inodes[self.root()->0].kind == NodeKind::Directory
    }
}

/// A tree under construction.
#[verifier::ext_equal]
pub struct Tree {
    pub nodes: Seq<Node>,
    /// Positions of the inodes that have a node.
    pub placed: Set<int>,
    /// Entries skipped because their directory already has a node.
    pub aliases: nat,
    /// Nodes of inodes that already had one.
    pub hard_links: nat,
}

/// The node of an inode. Only the first one of several carries the allocation.
pub open spec fn node_of(info: InodeInfo, name: NameRef, parent: int, first: bool) -> Node {
    Node {
        parent: NodeId(parent as u32),
        inode: info.inode,
        name,
        kind: info.kind,
        logical_size: info.logical_size,
        allocated_size: if first {
            info.allocated_size
        } else {
            0
        },
        links: info.links,
        mtime: info.mtime,
    }
}

/// The tree of the root alone.
pub open spec fn tree_of_root(source: TreeSource) -> Tree {
    let root = source.root()->0;
    Tree {
        nodes: seq![node_of(source.inodes[root], source.root_name, 0, true)],
        placed: Set::empty().insert(root),
        aliases: 0,
        hard_links: 0,
    }
}

/// Adds one entry below the node `parent`. An entry without an inode adds nothing, and neither
/// does one of a directory that is placed already.
pub open spec fn attach(
    inodes: Seq<InodeInfo>,
    tree: Tree,
    entry: DirectoryEntry,
    parent: int,
) -> Tree {
    match position_of(inodes, entry.child_inode) {
        None => tree,
        Some(at) => {
            let known = tree.placed.contains(at);
            if inodes[at].kind == NodeKind::Directory && known {
                Tree { aliases: tree.aliases + 1, ..tree }
            } else {
                Tree {
                    nodes: tree.nodes.push(node_of(inodes[at], entry.name, parent, !known)),
                    placed: tree.placed.insert(at),
                    aliases: tree.aliases,
                    hard_links: tree.hard_links + if known {
                        1nat
                    } else {
                        0nat
                    },
                }
            }
        },
    }
}

/// Adds entries below the node `parent`, first to last.
pub open spec fn attach_all(
    inodes: Seq<InodeInfo>,
    tree: Tree,
    entries: Seq<DirectoryEntry>,
    parent: int,
) -> Tree
    decreases entries.len(),
{
    if entries.len() == 0 {
        tree
    } else {
        attach(inodes, attach_all(inodes, tree, entries.drop_last(), parent), entries.last(), parent)
    }
}

/// Adds what the node at `position` contains.
pub open spec fn expand(source: TreeSource, tree: Tree, position: int) -> Tree {
    if position < tree.nodes.len() && tree.nodes[position].kind == NodeKind::Directory {
        attach_all(
            source.inodes,
            tree,
            listing(source.entries, source.ranges, tree.nodes[position].inode),
            position,
        )
    } else {
        tree
    }
}

/// The tree after its first `count` nodes have been expanded in order.
pub open spec fn tree_after(source: TreeSource, count: nat) -> Tree
    decreases count,
{
    if count == 0 {
        tree_of_root(source)
    } else {
        expand(source, tree_after(source, (count - 1) as nat), count - 1)
    }
}

/// `tree` is complete: all of its nodes have been expanded.
pub open spec fn complete(source: TreeSource, tree: Tree) -> bool {
    tree == tree_after(source, tree.nodes.len())
}

/// Allocated size of the inode at a position.
pub open spec fn inode_allocated(inodes: Seq<InodeInfo>) -> spec_fn(int) -> nat {
    |i: int| inodes[i].allocated_size as nat
}

/// All positions.
pub open spec fn everywhere() -> Set<int> {
    Set::new(|i: int| true)
}

/// Sum of the allocated sizes of all nodes.
pub open spec fn allocated_total(nodes: Seq<Node>) -> nat {
    aggregate::sum_over(everywhere(), aggregate::allocated_at(nodes), nodes.len())
}

/// The inode of every node is placed.
pub open spec fn nodes_placed(inodes: Seq<InodeInfo>, tree: Tree) -> bool {
    forall|i: int|
        0 <= i < tree.nodes.len() ==> #[trigger] node_placed(inodes, tree.placed, tree.nodes[i])
}

/// The inode of a node is placed and of the node's kind.
pub open spec fn node_placed(inodes: Seq<InodeInfo>, placed: Set<int>, node: Node) -> bool {
    let at = position_of(inodes, node.inode);
    at is Some && placed.contains(at->0) && node.kind == inodes[at->0].kind
}

/// No directory has two nodes.
pub open spec fn directories_unique(nodes: Seq<Node>) -> bool {
    forall|i: int, j: int|
        0 <= i < j < nodes.len() && nodes[i].kind == NodeKind::Directory ==> (
        #[trigger] nodes[i]).inode != (#[trigger] nodes[j]).inode
}

/// What holds of a tree while the node at `parent` is being expanded.
pub open spec fn tree_sound(inodes: Seq<InodeInfo>, tree: Tree, parent: int) -> bool {
    &&& tree.nodes.len() >= 1
    &&& forall|p: int| #[trigger] tree.placed.contains(p) ==> 0 <= p < inodes.len()
    &&& nodes_placed(inodes, tree)
    &&& directories_unique(tree.nodes)
    &&& layout::parents_sound(tree.nodes, parent)
    &&& arena::children_grouped(tree.nodes)
    &&& allocated_total(tree.nodes) == aggregate::sum_over(
        tree.placed,
        inode_allocated(inodes),
        inodes.len(),
    )
}

proof fn lemma_position(inodes: Seq<InodeInfo>, i: int)
    requires
        inodes_ascending(inodes),
        0 <= i < inodes.len(),
    ensures
        position_of(inodes, inodes[i].inode) == Some(i),
{
}

proof fn lemma_total_push(nodes: Seq<Node>, node: Node)
    ensures
        allocated_total(nodes.push(node)) == allocated_total(nodes) + node.allocated_size,
{
    let longer = nodes.push(node);
    aggregate::lemma_sum_values(
        everywhere(),
        aggregate::allocated_at(longer),
        aggregate::allocated_at(nodes),
        nodes.len(),
    );
}

/// Adding an entry keeps a tree sound and changes nothing that was there.
proof fn lemma_attach(inodes: Seq<InodeInfo>, tree: Tree, entry: DirectoryEntry, parent: int)
    requires
        inodes_ascending(inodes),
        tree_sound(inodes, tree, parent),
        0 <= parent < tree.nodes.len(),
        parent <= u32::MAX,
        tree.nodes[parent].kind == NodeKind::Directory,
    ensures
        tree_sound(inodes, attach(inodes, tree, entry, parent), parent),
        tree.nodes.is_prefix_of(attach(inodes, tree, entry, parent).nodes),
{
    let next = attach(inodes, tree, entry, parent);
    let at = position_of(inodes, entry.child_inode)->0;
    if position_of(inodes, entry.child_inode) is Some && !(inodes[at].kind == NodeKind::Directory
        && tree.placed.contains(at)) {
        lemma_position(inodes, at);
        let known = tree.placed.contains(at);
        let node = node_of(inodes[at], entry.name, parent, !known);
        let last = tree.nodes.len() as int;
        lemma_total_push(tree.nodes, node);
        if !known {
            aggregate::lemma_sum_remove(next.placed, inode_allocated(inodes), inodes.len(), at);
            assert(next.placed.remove(at) =~= tree.placed);
        } else {
            assert(next.placed =~= tree.placed);
        }
        layout::lemma_parents_push(tree.nodes, node, parent);
        assert forall|i: int| 0 <= i < next.nodes.len() implies #[trigger] node_placed(
            inodes,
            next.placed,
            next.nodes[i],
        ) by {
            if i < last {
                assert(node_placed(inodes, tree.placed, tree.nodes[i]));
                assert(next.nodes[i] == tree.nodes[i]);
            }
        }
        assert forall|i: int, j: int|
            0 <= i < j < next.nodes.len() && next.nodes[i].kind == NodeKind::Directory implies (
        #[trigger] next.nodes[i]).inode != (#[trigger] next.nodes[j]).inode by {
            assert(next.nodes[i] == tree.nodes[i]);
            assert(node_placed(inodes, tree.placed, tree.nodes[i]));
            if j < last {
                assert(next.nodes[j] == tree.nodes[j]);
            }
        }
    }
}

/// How much one entry can add.
proof fn lemma_attach_grows(
    inodes: Seq<InodeInfo>,
    tree: Tree,
    entry: DirectoryEntry,
    parent: int,
)
    ensures
        grown(tree, attach(inodes, tree, entry, parent), 1),
{
}

/// `next` has all of `tree` and at most `more` nodes and aliases besides.
spec fn grown(tree: Tree, next: Tree, more: nat) -> bool {
    &&& tree.nodes.is_prefix_of(next.nodes)
    &&& tree.placed.subset_of(next.placed)
    &&& next.nodes.len() + next.aliases <= tree.nodes.len() + tree.aliases + more
    &&& next.hard_links + tree.nodes.len() <= tree.hard_links + next.nodes.len()
    &&& next.aliases >= tree.aliases
    &&& next.hard_links >= tree.hard_links
}

proof fn lemma_attach_all_grows(
    inodes: Seq<InodeInfo>,
    tree: Tree,
    entries: Seq<DirectoryEntry>,
    parent: int,
)
    ensures
        grown(tree, attach_all(inodes, tree, entries, parent), entries.len()),
    decreases entries.len(),
{
    if entries.len() > 0 {
        lemma_attach_all_grows(inodes, tree, entries.drop_last(), parent);
        lemma_attach_grows(
            inodes,
            attach_all(inodes, tree, entries.drop_last(), parent),
            entries.last(),
            parent,
        );
    }
}

/// Adding more entries adds to what fewer of them added.
proof fn lemma_attach_all_continues(
    inodes: Seq<InodeInfo>,
    tree: Tree,
    entries: Seq<DirectoryEntry>,
    some: int,
    parent: int,
)
    requires
        0 <= some <= entries.len(),
    ensures
        attach_all(inodes, tree, entries.take(some), parent).nodes.is_prefix_of(
            attach_all(inodes, tree, entries, parent).nodes,
        ),
    decreases entries.len(),
{
    if some == entries.len() {
        assert(entries.take(some) =~= entries);
    } else {
        lemma_attach_all_continues(inodes, tree, entries.drop_last(), some, parent);
        assert(entries.drop_last().take(some) =~= entries.take(some));
        lemma_attach_grows(
            inodes,
            attach_all(inodes, tree, entries.drop_last(), parent),
            entries.last(),
            parent,
        );
    }
}

proof fn lemma_attach_all(
    inodes: Seq<InodeInfo>,
    tree: Tree,
    entries: Seq<DirectoryEntry>,
    parent: int,
)
    requires
        inodes_ascending(inodes),
        tree_sound(inodes, tree, parent),
        0 <= parent < tree.nodes.len(),
        parent <= u32::MAX,
        tree.nodes[parent].kind == NodeKind::Directory,
    ensures
        tree_sound(inodes, attach_all(inodes, tree, entries, parent), parent),
    decreases entries.len(),
{
    if entries.len() > 0 {
        let before = attach_all(inodes, tree, entries.drop_last(), parent);
        lemma_attach_all(inodes, tree, entries.drop_last(), parent);
        lemma_attach_all_grows(inodes, tree, entries.drop_last(), parent);
        assert(before.nodes[parent] == tree.nodes[parent]);
        lemma_attach(inodes, before, entries.last(), parent);
    }
}

proof fn lemma_root_sound(source: TreeSource)
    requires
        source.fit(),
        source.has_root(),
    ensures
        tree_sound(source.inodes, tree_of_root(source), 0),
{
    let root = source.root()->0;
    let tree = tree_of_root(source);
    let inodes = source.inodes;
    lemma_position(inodes, root);
    assert(tree.nodes =~= Seq::empty().push(tree.nodes[0]));
    lemma_total_push(Seq::empty(), tree.nodes[0]);
    aggregate::lemma_sum_remove(tree.placed, inode_allocated(inodes), inodes.len(), root);
    aggregate::lemma_sum_of_none(
        tree.placed.remove(root),
        inode_allocated(inodes),
        inodes.len(),
    );
}

/// Every stage of a tree with at most 2^32 nodes is sound.
proof fn lemma_after_sound(source: TreeSource, count: nat)
    requires
        source.fit(),
        source.has_root(),
        tree_after(source, count).nodes.len() <= u32::MAX + 1,
    ensures
        tree_sound(source.inodes, tree_after(source, count), count as int),
    decreases count,
{
    if count == 0 {
        lemma_root_sound(source);
    } else {
        let position = count - 1;
        let before = tree_after(source, position as nat);
        lemma_after_grows(source, position as nat, count);
        lemma_after_sound(source, position as nat);
        if position < before.nodes.len() && before.nodes[position].kind == NodeKind::Directory {
            lemma_attach_all(
                source.inodes,
                before,
                listing(source.entries, source.ranges, before.nodes[position].inode),
                position,
            );
        }
        layout::lemma_limit_rises(tree_after(source, count).nodes, position, count as int);
    }
}

/// Later stages only add.
proof fn lemma_after_grows(source: TreeSource, early: nat, late: nat)
    requires
        early <= late,
    ensures
        tree_after(source, early).nodes.is_prefix_of(tree_after(source, late).nodes),
    decreases late,
{
    if early < late {
        lemma_after_grows(source, early, (late - 1) as nat);
        let before = tree_after(source, (late - 1) as nat);
        lemma_attach_all_grows(
            source.inodes,
            before,
            listing(source.entries, source.ranges, before.nodes[late - 1].inode),
            late - 1,
        );
    }
}

/// Once all nodes have been expanded, nothing changes.
proof fn lemma_after_settles(source: TreeSource, done: nat, late: nat)
    requires
        tree_after(source, done).nodes.len() <= done,
        done <= late,
    ensures
        tree_after(source, late) == tree_after(source, done),
    decreases late,
{
    if done < late {
        lemma_after_settles(source, done, (late - 1) as nat);
    }
}

/// There is at most one complete tree of a source.
pub proof fn law_tree_is_unique(source: TreeSource, one: Tree, other: Tree)
    requires
        complete(source, one),
        complete(source, other),
    ensures
        one == other,
{
    if one.nodes.len() <= other.nodes.len() {
        lemma_after_settles(source, one.nodes.len(), other.nodes.len());
    } else {
        lemma_after_settles(source, other.nodes.len(), one.nodes.len());
    }
}

/// Finds an inode by its number.
fn find_inode(inodes: &Vec<InodeInfo>, number: u64) -> (found: Option<usize>)
    requires
        inodes_ascending(inodes@),
    ensures
        match found {
            Some(at) => position_of(inodes@, number) == Some(at as int),
            None => position_of(inodes@, number) is None,
        },
{
    let mut low: usize = 0;
    let mut high: usize = inodes.len();
    while low < high
        invariant
            low <= high <= inodes.len(),
            inodes_ascending(inodes@),
            forall|i: int| 0 <= i < low ==> (#[trigger] inodes@[i]).inode < number,
            forall|i: int| high <= i < inodes.len() ==> (#[trigger] inodes@[i]).inode > number,
        decreases high - low,
    {
        let middle: usize = low + (high - low) / 2;
        let key: u64 = inodes[middle].inode;
        if key == number {
            proof {
                lemma_position(inodes@, middle as int);
            }
            return Some(middle);
        }
        if key < number {
            low = middle + 1;
        } else {
            high = middle;
        }
    }
    None
}

/// Finds the range of a directory.
fn find_range(ranges: &Vec<DirRange>, directory: u64) -> (found: Option<usize>)
    requires
        forall|i: int, j: int|
            0 <= i < j < ranges.len() ==> (#[trigger] ranges@[i]).parent < (
            #[trigger] ranges@[j]).parent,
    ensures
        match found {
            Some(at) => range_of(ranges@, directory) == Some(at as int),
            None => range_of(ranges@, directory) is None,
        },
{
    let mut low: usize = 0;
    let mut high: usize = ranges.len();
    while low < high
        invariant
            low <= high <= ranges.len(),
            forall|i: int, j: int|
                0 <= i < j < ranges.len() ==> (#[trigger] ranges@[i]).parent < (
                #[trigger] ranges@[j]).parent,
            forall|i: int| 0 <= i < low ==> (#[trigger] ranges@[i]).parent < directory,
            forall|i: int| high <= i < ranges.len() ==> (#[trigger] ranges@[i]).parent > directory,
        decreases high - low,
    {
        let middle: usize = low + (high - low) / 2;
        let key: u64 = ranges[middle].parent;
        if key == directory {
            return Some(middle);
        }
        if key < directory {
            low = middle + 1;
        } else {
            high = middle;
        }
    }
    None
}

/// Positions of the entries whose inode is missing.
pub open spec fn dangling(inodes: Seq<InodeInfo>, entries: Seq<DirectoryEntry>) -> Set<int> {
    Set::new(
        |q: int|
            0 <= q < entries.len() && position_of(inodes, entries[q].child_inode) is None,
    )
}

/// The position of every entry's inode, and how many entries have none.
fn resolve_entries(inodes: &Vec<InodeInfo>, entries: &Vec<DirectoryEntry>) -> (resolved: (
    Vec<Option<usize>>,
    u64,
))
    requires
        inodes_ascending(inodes@),
    ensures
        resolved.0.len() == entries.len(),
        forall|q: int|
            0 <= q < entries.len() ==> match #[trigger] resolved.0@[q] {
                Some(at) => position_of(inodes@, entries@[q].child_inode) == Some(at as int),
                None => position_of(inodes@, entries@[q].child_inode) is None,
            },
        resolved.1 == aggregate::sum_over(
            dangling(inodes@, entries@),
            aggregate::each_once(),
            entries@.len(),
        ),
{
    let mut targets: Vec<Option<usize>> = Vec::with_capacity(entries.len());
    let mut missing: u64 = 0;
    let mut q: usize = 0;
    while q < entries.len()
        invariant
            q <= entries.len(),
            inodes_ascending(inodes@),
            targets.len() == q,
            forall|k: int|
                0 <= k < q ==> match #[trigger] targets@[k] {
                    Some(at) => position_of(inodes@, entries@[k].child_inode) == Some(at as int),
                    None => position_of(inodes@, entries@[k].child_inode) is None,
                },
            missing == aggregate::sum_over(
                dangling(inodes@, entries@),
                aggregate::each_once(),
                q as nat,
            ),
        decreases entries.len() - q,
    {
        let target = find_inode(inodes, entries[q].child_inode);
        if target.is_none() {
            proof {
                aggregate::lemma_count_bound(dangling(inodes@, entries@), q as nat);
            }
            missing = missing + 1;
        }
        targets.push(target);
        q = q + 1;
    }
    (targets, missing)
}

/// Some directory among the first `count` nodes has this inode.
spec fn expanded(nodes: Seq<Node>, count: int, inode: u64) -> bool {
    exists|m: int|
        0 <= m < count && (#[trigger] nodes[m]).kind == NodeKind::Directory && nodes[m].inode
            == inode
}

/// Positions `start..end`.
spec fn span(start: int, end: int) -> Set<int> {
    Set::new(|q: int| start <= q < end)
}

proof fn lemma_count_span(start: int, end: int, bound: nat)
    requires
        0 <= start <= end,
    ensures
        end <= bound ==> aggregate::sum_over(span(start, end), aggregate::each_once(), bound) == end
            - start,
        start >= bound ==> aggregate::sum_over(span(start, end), aggregate::each_once(), bound)
            == 0,
        start < bound < end ==> aggregate::sum_over(
            span(start, end),
            aggregate::each_once(),
            bound,
        ) == bound - start,
    decreases bound,
{
    if bound > 0 {
        lemma_count_span(start, end, (bound - 1) as nat);
    }
}

/// `flags` marks the placed inodes.
spec fn marks(flags: Seq<bool>, inodes: Seq<InodeInfo>, placed: Set<int>) -> bool {
    &&& flags.len() == inodes.len()
    &&& forall|p: int| 0 <= p < inodes.len() ==> #[trigger] flags[p] == placed.contains(p)
}

/// Positions of the inodes without a node.
pub open spec fn unplaced(inodes: Seq<InodeInfo>, placed: Set<int>) -> Set<int> {
    Set::new(|p: int| 0 <= p < inodes.len() && !placed.contains(p))
}

/// Number of inodes that are not marked.
fn count_unmarked(flags: &Vec<bool>, Ghost(inodes): Ghost<Seq<InodeInfo>>, Ghost(placed): Ghost<
    Set<int>,
>) -> (count: u64)
    requires
        marks(flags@, inodes, placed),
    ensures
        count == aggregate::sum_over(
            unplaced(inodes, placed),
            aggregate::each_once(),
            inodes.len(),
        ),
{
    let mut count: u64 = 0;
    let mut p: usize = 0;
    while p < flags.len()
        invariant
            p <= flags.len(),
            marks(flags@, inodes, placed),
            count == aggregate::sum_over(
                unplaced(inodes, placed),
                aggregate::each_once(),
                p as nat,
            ),
        decreases flags.len() - p,
    {
        if !flags[p] {
            proof {
                aggregate::lemma_count_bound(unplaced(inodes, placed), p as nat);
            }
            count = count + 1;
        }
        p = p + 1;
    }
    count
}

/// Adds the entries `start..end` below the directory `parent`.
fn attach_range(
    inodes: &Vec<InodeInfo>,
    entries: &Vec<DirectoryEntry>,
    targets: &Vec<Option<usize>>,
    start: usize,
    end: usize,
    parent: NodeId,
    arena: &mut NodeArena,
    placed: &mut Vec<bool>,
    aliases: &mut u64,
    hard_links: &mut u64,
    Ghost(tree): Ghost<Tree>,
) -> (result: Result<(), ArenaError>)
    requires
        start <= end <= entries.len(),
        targets.len() == entries.len(),
        forall|q: int|
            0 <= q < entries.len() ==> match #[trigger] targets@[q] {
                Some(at) => position_of(inodes@, entries@[q].child_inode) == Some(at as int),
                None => position_of(inodes@, entries@[q].child_inode) is None,
            },
        old(arena).node_list() == tree.nodes,
        marks(old(placed)@, inodes@, tree.placed),
        *old(aliases) == tree.aliases,
        *old(hard_links) == tree.hard_links,
        tree.aliases + (end - start) <= u64::MAX,
        tree.hard_links + (end - start) <= u64::MAX,
    ensures
        final(arena).name_bytes() == old(arena).name_bytes(),
        match result {
            Ok(()) => {
                let next = attach_all(
                    inodes@,
                    tree,
                    entries@.subrange(start as int, end as int),
                    parent.0 as int,
                );
                &&& final(arena).node_list() == next.nodes
                &&& marks(final(placed)@, inodes@, next.placed)
                &&& *final(aliases) == next.aliases
                &&& *final(hard_links) == next.hard_links
                &&& next.nodes.len() <= u32::MAX + 1 || next.nodes.len() == tree.nodes.len()
            },
            Err(error) => {
                &&& error == ArenaError::TooManyNodes
                &&& attach_all(
                    inodes@,
                    tree,
                    entries@.subrange(start as int, end as int),
                    parent.0 as int,
                ).nodes.len() > u32::MAX + 1
            },
        },
{
    let ghost whole = entries@.subrange(start as int, end as int);
    let ghost mut now = tree;
    let mut q: usize = start;
    proof {
        assert(whole.take(0) =~= Seq::empty());
    }
    while q < end
        invariant
            start <= q <= end <= entries.len(),
            whole == entries@.subrange(start as int, end as int),
            targets.len() == entries.len(),
            forall|k: int|
                0 <= k < entries.len() ==> match #[trigger] targets@[k] {
                    Some(at) => position_of(inodes@, entries@[k].child_inode) == Some(at as int),
                    None => position_of(inodes@, entries@[k].child_inode) is None,
                },
            now == attach_all(inodes@, tree, whole.take(q - start), parent.0 as int),
            grown(tree, now, (q - start) as nat),
            arena.node_list() == now.nodes,
            arena.name_bytes() == old(arena).name_bytes(),
            marks(placed@, inodes@, now.placed),
            *aliases == now.aliases,
            *hard_links == now.hard_links,
            tree.aliases + (end - start) <= u64::MAX,
            tree.hard_links + (end - start) <= u64::MAX,
            now.nodes.len() <= u32::MAX + 1 || now.nodes.len() == tree.nodes.len(),
        decreases end - q,
    {
        let ghost before = now;
        let entry = entries[q];
        proof {
            let longer = whole.take(q + 1 - start);
            assert(longer.drop_last() =~= whole.take(q - start));
            assert(longer.last() == entry);
            now = attach(inodes@, now, entry, parent.0 as int);
            assert(now == attach_all(inodes@, tree, longer, parent.0 as int));
            lemma_attach_grows(inodes@, before, entry, parent.0 as int);
        }
        if let Some(at) = targets[q] {
            let info = inodes[at];
            let known: bool = placed[at];
            if info.kind == NodeKind::Directory && known {
                *aliases = *aliases + 1;
            } else {
                let node = Node {
                    parent,
                    inode: info.inode,
                    name: entry.name,
                    kind: info.kind,
                    logical_size: info.logical_size,
                    allocated_size: if known {
                        0
                    } else {
                        info.allocated_size
                    },
                    links: info.links,
                    mtime: info.mtime,
                };
                if known {
                    *hard_links = *hard_links + 1;
                }
                match arena.push_node(node) {
                    Ok(_) => {},
                    Err(error) => {
                        proof {
                            lemma_attach_all_continues(
                                inodes@,
                                tree,
                                whole,
                                q + 1 - start,
                                parent.0 as int,
                            );
                        }
                        return Err(error);
                    },
                }
                placed[at] = true;
            }
        }
        q = q + 1;
    }
    proof {
        assert(whole.take(end - start) =~= whole);
    }
    Ok(())
}

/// The warnings that come with a complete tree.
pub open spec fn tree_warnings(source: TreeSource, tree: Tree) -> ScanWarnings {
    ScanWarnings {
        missing_inode_references: aggregate::sum_over(
            dangling(source.inodes, source.entries),
            aggregate::each_once(),
            source.entries.len(),
        ) as u64,
        nodes_without_parent: aggregate::sum_over(
            unplaced(source.inodes, tree.placed),
            aggregate::each_once(),
            source.inodes.len(),
        ) as u64,
        directory_scan_errors: 0,
        directory_aliases: tree.aliases as u64,
    }
}

/// Some stage of the tree has more nodes than ids.
pub open spec fn outgrows_ids(source: TreeSource) -> bool {
    exists|count: nat| (#[trigger] tree_after(source, count)).nodes.len() > u32::MAX + 1
}

/// Builds the tree that hangs below the root inode, breadth first.
///
/// Every name of a file gets a node, the first of them in that order with the allocation. A
/// directory gets one node; further names of it are counted as aliases.
pub fn build_tree(
    inodes: Vec<InodeInfo>,
    entries: Vec<DirectoryEntry>,
    directory_ranges: Vec<DirRange>,
    names: NameArena,
    root_name: NameRef,
) -> (result: Result<(NodeArena, ScanWarnings, u64), Ext4Error>)
    requires
        inodes_ascending(inodes@),
        ranges_fit(entries@, directory_ranges@),
    ensures
        ({
            let source = TreeSource {
                inodes: inodes@,
                entries: entries@,
                ranges: directory_ranges@,
                root_name,
            };
            match result {
                Ok((arena, warnings, hard_link_entries)) => {
                    let tree = tree_after(source, arena.node_list().len());
                    &&& source.has_root()
                    &&& !outgrows_ids(source)
                    &&& arena.node_list() == tree.nodes
                    &&& arena.name_bytes() == names@
                    &&& warnings == tree_warnings(source, tree)
                    &&& hard_link_entries == tree.hard_links
                },
                Err(Ext4Error::MissingRoot) => source.root() is None,
                Err(Ext4Error::RootNotDirectory) => source.root() is Some && !source.has_root(),
                Err(error) => error == Ext4Error::Arena(ArenaError::TooManyNodes)
                    && source.has_root() && outgrows_ids(source),
            }
        }),
{
    let ghost source = TreeSource {
        inodes: inodes@,
        entries: entries@,
        ranges: directory_ranges@,
        root_name,
    };
    let root_index: usize = match find_inode(&inodes, ROOT_INODE) {
        Some(at) => at,
        None => return Err(Ext4Error::MissingRoot),
    };
    let root = inodes[root_index];
    if root.kind != NodeKind::Directory {
        return Err(Ext4Error::RootNotDirectory);
    }
    let (targets, missing) = resolve_entries(&inodes, &entries);
    let mut nodes: Vec<Node> = Vec::new();
    nodes.push(
        Node {
            parent: NodeId::root(),
            inode: root.inode,
            name: root_name,
            kind: NodeKind::Directory,
            logical_size: root.logical_size,
            allocated_size: root.allocated_size,
            links: root.links,
            mtime: root.mtime,
        },
    );
    let mut arena = NodeArena::from_parts(nodes, names);
    let mut placed: Vec<bool> = vec![false; inodes.len()];
    placed[root_index] = true;
    let mut aliases: u64 = 0;
    let mut hard_link_entries: u64 = 0;
    let mut next: usize = 0;
    let ghost mut tree = tree_of_root(source);
    let ghost mut used: Set<int> = Set::empty();
    proof {
        lemma_root_sound(source);
        aggregate::lemma_sum_of_none(used, aggregate::each_once(), entries@.len());
        assert(arena.node_list() =~= tree.nodes);
    }
    while next < arena.nodes().len()
        invariant
            source.inodes == inodes@,
            source.entries == entries@,
            source.ranges == directory_ranges@,
            source.root_name == root_name,
            source.fit(),
            source.has_root(),
            targets.len() == entries.len(),
            forall|q: int|
                0 <= q < entries.len() ==> match #[trigger] targets@[q] {
                    Some(at) => position_of(inodes@, entries@[q].child_inode) == Some(at as int),
                    None => position_of(inodes@, entries@[q].child_inode) is None,
                },
            tree == tree_after(source, next as nat),
            tree_sound(inodes@, tree, next as int),
            tree.nodes.len() <= u32::MAX + 1,
            next <= tree.nodes.len(),
            arena.node_list() == tree.nodes,
            arena.name_bytes() == names@,
            marks(placed@, inodes@, tree.placed),
            aliases == tree.aliases,
            hard_link_entries == tree.hard_links,
            tree.nodes.len() + tree.aliases <= 1 + aggregate::sum_over(
                used,
                aggregate::each_once(),
                entries@.len(),
            ),
            tree.hard_links < tree.nodes.len(),
            forall|q: int| #[trigger]
                used.contains(q) ==> 0 <= q < entries.len() && expanded(
                    tree.nodes,
                    next as int,
                    entries@[q].parent_inode,
                ),
        decreases
                entries@.len() - aggregate::sum_over(
                    used,
                    aggregate::each_once(),
                    entries@.len(),
                ) + (tree.nodes.len() - next),
    {
        let ghost before = tree;
        let ghost early = used;
        let node = arena.nodes()[next];
        proof {
            aggregate::lemma_count_bound(used, entries@.len());
        }
        if node.kind == NodeKind::Directory {
            if let Some(at) = find_range(&directory_ranges, node.inode) {
                let range = directory_ranges[at];
                let ghost here = span(range.start as int, range.end as int);
                proof {
                    assert(used.disjoint(here)) by {
                        assert forall|q: int| used.contains(q) implies !here.contains(q) by {
                            if here.contains(q) {
                                assert(entries@[q].parent_inode == directory_ranges@[at as int].parent);
                                let m = choose|m: int|
                                    0 <= m < next && (#[trigger] tree.nodes[m]).kind
                                        == NodeKind::Directory && tree.nodes[m].inode
                                        == entries@[q].parent_inode;
                                assert(tree.nodes[m].inode != tree.nodes[next as int].inode);
                            }
                        }
                    }
                    aggregate::lemma_sum_union(
                        used,
                        here,
                        aggregate::each_once(),
                        entries@.len(),
                    );
                    lemma_count_span(range.start as int, range.end as int, entries@.len());
                    used = used.union(here);
                    aggregate::lemma_count_bound(used, entries@.len());
                    assert(listing(source.entries, source.ranges, node.inode) == entries@.subrange(
                        range.start as int,
                        range.end as int,
                    ));
                    assert(tree_after(source, (next + 1) as nat) == expand(
                        source,
                        tree,
                        next as int,
                    ));
                }
                match attach_range(
                    &inodes,
                    &entries,
                    &targets,
                    range.start,
                    range.end,
                    NodeId(next as u32),
                    &mut arena,
                    &mut placed,
                    &mut aliases,
                    &mut hard_link_entries,
                    Ghost(tree),
                ) {
                    Ok(()) => {},
                    Err(error) => {
                        return Err(Ext4Error::Arena(error));
                    },
                }
                proof {
                    lemma_attach_all_grows(
                        inodes@,
                        before,
                        entries@.subrange(range.start as int, range.end as int),
                        next as int,
                    );
                }
            }
        }
        proof {
            tree = tree_after(source, (next + 1) as nat);
            lemma_after_grows(source, next as nat, (next + 1) as nat);
            lemma_after_sound(source, (next + 1) as nat);
            assert forall|q: int| #[trigger] used.contains(q) implies 0 <= q < entries.len()
                && expanded(tree.nodes, next + 1, entries@[q].parent_inode) by {
                if early.contains(q) {
                    let m = choose|m: int|
                        0 <= m < next && (#[trigger] before.nodes[m]).kind == NodeKind::Directory
                            && before.nodes[m].inode == entries@[q].parent_inode;
                    assert(tree.nodes[m] == before.nodes[m]);
                } else {
                    assert(tree.nodes[next as int] == before.nodes[next as int]);
                }
            }
        }
        next = next + 1;
    }
    let nodes_without_parent: u64 = count_unmarked(&placed, Ghost(inodes@), Ghost(tree.placed));
    proof {
        assert forall|count: nat| (#[trigger] tree_after(source, count)).nodes.len() <= u32::MAX
            + 1 by {
            if count <= next {
                lemma_after_grows(source, count, next as nat);
            } else {
                lemma_after_settles(source, next as nat, count);
            }
        }
    }
    Ok(
        (
            arena,
            ScanWarnings {
                missing_inode_references: missing,
                nodes_without_parent,
                directory_scan_errors: 0,
                directory_aliases: aliases,
            },
            hard_link_entries,
        ),
    )
}

/// A complete tree has every directory once, every parent in front of its children and the
/// children of a directory side by side; it is a tree that totals can be taken of.
pub proof fn law_tree_is_sound(source: TreeSource, tree: Tree)
    requires
        source.fit(),
        source.has_root(),
        complete(source, tree),
        tree.nodes.len() <= u32::MAX + 1,
    ensures
        tree.nodes.len() >= 1,
        directories_unique(tree.nodes),
        layout::parents_sound(tree.nodes, tree.nodes.len() as int),
        arena::children_grouped(tree.nodes),
        aggregate::parents_exist(tree.nodes),
        aggregate::rooted(tree.nodes),
{
    lemma_after_sound(source, tree.nodes.len());
    layout::law_sound_parents_root(tree.nodes, tree.nodes.len() as int);
}

/// The allocation of an inode is counted once, however many names it has: the root's total is the
/// sum over the inodes in the tree.
pub proof fn law_allocation_counted_once(
    source: TreeSource,
    tree: Tree,
    totals: Seq<aggregate::Totals>,
)
    requires
        source.fit(),
        source.has_root(),
        complete(source, tree),
        tree.nodes.len() <= u32::MAX + 1,
        crate::scan::totals_of_tree(tree.nodes, totals),
    ensures
        totals[0].recursive_allocated == aggregate::capped(
            aggregate::sum_over(
                tree.placed,
                inode_allocated(source.inodes),
                source.inodes.len(),
            ),
        ),
{
    law_tree_is_sound(source, tree);
    lemma_after_sound(source, tree.nodes.len());
    assert forall|i: int| 0 <= i < tree.nodes.len() implies aggregate::subtree(
        tree.nodes,
        0,
    ).contains(i) == everywhere().contains(i) by {
        aggregate::law_root_holds_everything(tree.nodes, i);
    }
    aggregate::lemma_sum_agrees(
        aggregate::subtree(tree.nodes, 0),
        everywhere(),
        aggregate::allocated_at(tree.nodes),
        tree.nodes.len(),
    );
    assert(aggregate::accounts_for(
        totals[0],
        tree.nodes,
        0,
        aggregate::subtree(tree.nodes, 0),
    ));
}

/// A node in front of this one is of the same inode.
pub open spec fn repeats(nodes: Seq<Node>, i: int) -> bool {
    exists|j: int| 0 <= j < i && (#[trigger] nodes[j]).inode == nodes[i].inode
}

/// The allocated size of the inode with this number.
pub open spec fn allocated_size_of(inodes: Seq<InodeInfo>, number: u64) -> u64 {
    inodes[position_of(inodes, number)->0].allocated_size
}

/// Of the nodes of an inode the first one carries its allocation, the others none.
pub open spec fn first_owns(inodes: Seq<InodeInfo>, nodes: Seq<Node>) -> bool {
    forall|i: int|
        0 <= i < nodes.len() ==> (#[trigger] nodes[i]).allocated_size == if repeats(nodes, i) {
            0
        } else {
            allocated_size_of(inodes, nodes[i].inode)
        }
}

/// The placed inodes are those of the nodes.
pub open spec fn placed_in_nodes(inodes: Seq<InodeInfo>, tree: Tree) -> bool {
    forall|p: int| #[trigger]
        tree.placed.contains(p) <==> 0 <= p < inodes.len() && exists|i: int|
            0 <= i < tree.nodes.len() && (#[trigger] tree.nodes[i]).inode == inodes[p].inode
}

/// There are as many nodes as placed inodes and further hard links to them.
spec fn counts_agree(tree: Tree) -> bool {
    tree.placed.finite() && tree.hard_links + tree.placed.len() == tree.nodes.len()
}

proof fn lemma_attach_owns(inodes: Seq<InodeInfo>, tree: Tree, entry: DirectoryEntry, parent: int)
    requires
        inodes_ascending(inodes),
        first_owns(inodes, tree.nodes),
        placed_in_nodes(inodes, tree),
        counts_agree(tree),
    ensures
        first_owns(inodes, attach(inodes, tree, entry, parent).nodes),
        placed_in_nodes(inodes, attach(inodes, tree, entry, parent)),
        counts_agree(attach(inodes, tree, entry, parent)),
{
    let next = attach(inodes, tree, entry, parent);
    let at = position_of(inodes, entry.child_inode)->0;
    if position_of(inodes, entry.child_inode) is Some && !(inodes[at].kind == NodeKind::Directory
        && tree.placed.contains(at)) {
        lemma_position(inodes, at);
        let last = tree.nodes.len() as int;
        assert(next.nodes[last].inode == inodes[at].inode);
        assert forall|p: int| #[trigger] next.placed.contains(p) <==> 0 <= p < inodes.len()
            && exists|i: int|
            0 <= i < next.nodes.len() && (#[trigger] next.nodes[i]).inode == inodes[p].inode by {
            if next.placed.contains(p) && p != at {
                assert(tree.placed.contains(p));
                let i = choose|i: int|
                    0 <= i < tree.nodes.len() && (#[trigger] tree.nodes[i]).inode
                        == inodes[p].inode;
                assert(next.nodes[i].inode == inodes[p].inode);
            }
            if 0 <= p < inodes.len() && exists|i: int|
                0 <= i < next.nodes.len() && (#[trigger] next.nodes[i]).inode == inodes[p].inode {
                let i = choose|i: int|
                    0 <= i < next.nodes.len() && (#[trigger] next.nodes[i]).inode
                        == inodes[p].inode;
                if i < last {
                    assert(tree.nodes[i].inode == inodes[p].inode);
                    assert(tree.placed.contains(p));
                } else {
                    lemma_position(inodes, p);
                }
            }
        }
        assert forall|i: int| 0 <= i < next.nodes.len() implies (
        #[trigger] next.nodes[i]).allocated_size == if repeats(next.nodes, i) {
            0
        } else {
            allocated_size_of(inodes, next.nodes[i].inode)
        } by {
            if i < last {
                assert(next.nodes[i] == tree.nodes[i]);
                if repeats(next.nodes, i) {
                    let j = choose|j: int|
                        0 <= j < i && (#[trigger] next.nodes[j]).inode == next.nodes[i].inode;
                    assert(tree.nodes[j].inode == tree.nodes[i].inode);
                }
                if repeats(tree.nodes, i) {
                    let j = choose|j: int|
                        0 <= j < i && (#[trigger] tree.nodes[j]).inode == tree.nodes[i].inode;
                    assert(next.nodes[j].inode == next.nodes[i].inode);
                }
            } else {
                if tree.placed.contains(at) {
                    let j = choose|j: int|
                        0 <= j < tree.nodes.len() && (#[trigger] tree.nodes[j]).inode
                            == inodes[at].inode;
                    assert(next.nodes[j].inode == next.nodes[i].inode);
                }
                if repeats(next.nodes, i) {
                    let j = choose|j: int|
                        0 <= j < i && (#[trigger] next.nodes[j]).inode == next.nodes[i].inode;
                    assert(tree.nodes[j].inode == inodes[at].inode);
                    assert(tree.placed.contains(at));
                }
            }
        }
        if tree.placed.contains(at) {
            assert(next.placed =~= tree.placed);
        }
    }
}

proof fn lemma_attach_all_owns(
    inodes: Seq<InodeInfo>,
    tree: Tree,
    entries: Seq<DirectoryEntry>,
    parent: int,
)
    requires
        inodes_ascending(inodes),
        first_owns(inodes, tree.nodes),
        placed_in_nodes(inodes, tree),
        counts_agree(tree),
    ensures
        first_owns(inodes, attach_all(inodes, tree, entries, parent).nodes),
        placed_in_nodes(inodes, attach_all(inodes, tree, entries, parent)),
        counts_agree(attach_all(inodes, tree, entries, parent)),
    decreases entries.len(),
{
    if entries.len() > 0 {
        lemma_attach_all_owns(inodes, tree, entries.drop_last(), parent);
        lemma_attach_owns(
            inodes,
            attach_all(inodes, tree, entries.drop_last(), parent),
            entries.last(),
            parent,
        );
    }
}

proof fn lemma_after_owns(source: TreeSource, count: nat)
    requires
        inodes_ascending(source.inodes),
        source.has_root(),
    ensures
        first_owns(source.inodes, tree_after(source, count).nodes),
        placed_in_nodes(source.inodes, tree_after(source, count)),
        counts_agree(tree_after(source, count)),
    decreases count,
{
    if count > 0 {
        lemma_after_owns(source, (count - 1) as nat);
        let before = tree_after(source, (count - 1) as nat);
        lemma_attach_all_owns(
            source.inodes,
            before,
            listing(source.entries, source.ranges, before.nodes[count - 1].inode),
            count - 1,
        );
    } else {
        let tree = tree_of_root(source);
        let root = source.root()->0;
        lemma_position(source.inodes, root);
        assert(tree.nodes[0].inode == source.inodes[root].inode);
        assert forall|p: int| #[trigger] tree.placed.contains(p) <==> 0 <= p < source.inodes.len()
            && exists|i: int|
            0 <= i < tree.nodes.len() && (#[trigger] tree.nodes[i]).inode
                == source.inodes[p].inode by {
            if 0 <= p < source.inodes.len() {
                lemma_position(source.inodes, p);
            }
        }
    }
}

/// Of the nodes of an inode the first carries the allocation and the others carry none. The placed
/// inodes are exactly those that have a node.
pub proof fn law_first_node_owns_allocation(source: TreeSource, count: nat)
    requires
        inodes_ascending(source.inodes),
        source.has_root(),
    ensures
        first_owns(source.inodes, tree_after(source, count).nodes),
        placed_in_nodes(source.inodes, tree_after(source, count)),
{
    lemma_after_owns(source, count);
}

/// Every node is the first of an inode or a further hard link to one.
pub proof fn law_nodes_are_inodes_and_links(source: TreeSource, count: nat)
    requires
        inodes_ascending(source.inodes),
        source.has_root(),
    ensures
        tree_after(source, count).placed.finite(),
        tree_after(source, count).hard_links + tree_after(source, count).placed.len()
            == tree_after(source, count).nodes.len(),
{
    lemma_after_owns(source, count);
}

/// Every name of a file in a directory of the tree has a node of its own there, and every
/// directory named in one is in the tree.
pub proof fn law_every_link_is_visible(source: TreeSource, tree: Tree, directory: int, entry: int)
    requires
        source.fit(),
        source.has_root(),
        complete(source, tree),
        tree.nodes.len() <= u32::MAX + 1,
        0 <= directory < tree.nodes.len(),
        tree.nodes[directory].kind == NodeKind::Directory,
        0 <= entry < listing(source.entries, source.ranges, tree.nodes[directory].inode).len(),
    ensures
        ({
            let named = listing(source.entries, source.ranges, tree.nodes[directory].inode)[entry];
            position_of(source.inodes, named.child_inode) matches Some(at) ==> {
                &&& tree.placed.contains(at)
                &&& source.inodes[at].kind != NodeKind::Directory ==> exists|i: int|
                    {
                        &&& 0 <= i < tree.nodes.len()
                        &&& (#[trigger] tree.nodes[i]).parent.0 == directory
                        &&& tree.nodes[i].name == named.name
                        &&& tree.nodes[i].inode == named.child_inode
                    }
            }
        }),
{
    let before = tree_after(source, directory as nat);
    let entries = listing(source.entries, source.ranges, tree.nodes[directory].inode);
    let named = entries[entry];
    lemma_after_grows(source, directory as nat, tree.nodes.len());
    lemma_after_grows(source, (directory + 1) as nat, tree.nodes.len());
    lemma_after_places(source, (directory + 1) as nat, tree.nodes.len());
    if directory >= before.nodes.len() {
        lemma_after_settles(source, directory as nat, tree.nodes.len());
    }
    assert(before.nodes[directory] == tree.nodes[directory]);
    let after = tree_after(source, (directory + 1) as nat);
    assert(after == attach_all(source.inodes, before, entries, directory));
    let some = entries.take(entry + 1);
    assert(some.drop_last() =~= entries.take(entry));
    assert(some.last() == named);
    let prior = attach_all(source.inodes, before, entries.take(entry), directory);
    let then = attach_all(source.inodes, before, some, directory);
    assert(then == attach(source.inodes, prior, named, directory));
    lemma_attach_all_continues(source.inodes, before, entries, entry + 1, directory);
    lemma_attach_all_places(source.inodes, before, entries, entry + 1, directory);
    if let Some(at) = position_of(source.inodes, named.child_inode) {
        if source.inodes[at].kind != NodeKind::Directory {
            let i = prior.nodes.len() as int;
            assert(then.nodes[i].name == named.name);
            assert(tree.nodes[i] == then.nodes[i]);
        }
    }
}

proof fn lemma_attach_all_places(
    inodes: Seq<InodeInfo>,
    tree: Tree,
    entries: Seq<DirectoryEntry>,
    some: int,
    parent: int,
)
    requires
        0 <= some <= entries.len(),
    ensures
        attach_all(inodes, tree, entries.take(some), parent).placed.subset_of(
            attach_all(inodes, tree, entries, parent).placed,
        ),
    decreases entries.len(),
{
    if some == entries.len() {
        assert(entries.take(some) =~= entries);
    } else {
        lemma_attach_all_places(inodes, tree, entries.drop_last(), some, parent);
        assert(entries.drop_last().take(some) =~= entries.take(some));
        lemma_attach_grows(
            inodes,
            attach_all(inodes, tree, entries.drop_last(), parent),
            entries.last(),
            parent,
        );
    }
}

proof fn lemma_after_places(source: TreeSource, early: nat, late: nat)
    requires
        early <= late,
    ensures
        tree_after(source, early).placed.subset_of(tree_after(source, late).placed),
    decreases late,
{
    if early < late {
        lemma_after_places(source, early, (late - 1) as nat);
        let before = tree_after(source, (late - 1) as nat);
        lemma_attach_all_grows(
            source.inodes,
            before,
            listing(source.entries, source.ranges, before.nodes[late - 1].inode),
            late - 1,
        );
    }
}

/// An inode has what a node says of it: number, kind, logical size, links and modification time.
spec fn says_of(inode: InodeInfo, node: Node) -> bool {
    &&& node.inode == inode.inode
    &&& node.kind == inode.kind
    &&& node.logical_size == inode.logical_size
    &&& node.links == inode.links
    &&& node.mtime == inode.mtime
}

/// An entry names a node: it stands in the directory of the node's parent, and has the node's name
/// and inode.
spec fn names_node(entry: DirectoryEntry, nodes: Seq<Node>, i: int) -> bool {
    &&& entry.parent_inode == nodes[nodes[i].parent.0 as int].inode
    &&& entry.child_inode == nodes[i].inode
    &&& entry.name == nodes[i].name
}

/// Node `i` says what its inode says, and behind the root it is named by an entry of its parent, a
/// directory that stands before it.
spec fn node_explained(source: TreeSource, nodes: Seq<Node>, i: int) -> bool {
    &&& exists|p: int| 0 <= p < source.inodes.len() && says_of(#[trigger] source.inodes[p], nodes[i])
    &&& i > 0 ==> {
        &&& nodes[i].parent.0 < i
        &&& nodes[nodes[i].parent.0 as int].kind == NodeKind::Directory
        &&& exists|q: int|
            0 <= q < source.entries.len() && names_node(#[trigger] source.entries[q], nodes, i)
    }
}

proof fn lemma_attach_all_explained(
    source: TreeSource,
    tree: Tree,
    entries: Seq<DirectoryEntry>,
    parent: int,
)
    requires
        0 <= parent < tree.nodes.len(),
        parent <= u32::MAX,
        tree.nodes[parent].kind == NodeKind::Directory,
        forall|i: int| 0 <= i < tree.nodes.len() ==> #[trigger] node_explained(source, tree.nodes, i),
        forall|e: int|
            0 <= e < entries.len() ==> source.entries.contains(#[trigger] entries[e])
                && entries[e].parent_inode == tree.nodes[parent].inode,
    ensures
        forall|i: int|
            0 <= i < attach_all(source.inodes, tree, entries, parent).nodes.len()
                ==> #[trigger] node_explained(
                source,
                attach_all(source.inodes, tree, entries, parent).nodes,
                i,
            ),
    decreases entries.len(),
{
    if entries.len() > 0 {
        let before = attach_all(source.inodes, tree, entries.drop_last(), parent);
        let next = attach_all(source.inodes, tree, entries, parent);
        lemma_attach_all_explained(source, tree, entries.drop_last(), parent);
        lemma_attach_all_grows(source.inodes, tree, entries.drop_last(), parent);
        let entry = entries.last();
        assert(source.entries.contains(entries[entries.len() - 1]));
        assert(before.nodes[parent] == tree.nodes[parent]);
        assert forall|i: int| 0 <= i < next.nodes.len() implies #[trigger] node_explained(
            source,
            next.nodes,
            i,
        ) by {
            if i < before.nodes.len() {
                assert(node_explained(source, before.nodes, i));
                assert(next.nodes[i] == before.nodes[i]);
                if i > 0 {
                    let up = before.nodes[i].parent.0 as int;
                    assert(next.nodes[up] == before.nodes[up]);
                    let q = choose|q: int|
                        0 <= q < source.entries.len() && names_node(
                            #[trigger] source.entries[q],
                            before.nodes,
                            i,
                        );
                    assert(names_node(source.entries[q], next.nodes, i));
                }
            } else {
                let at = position_of(source.inodes, entry.child_inode)->0;
                assert(says_of(source.inodes[at], next.nodes[i]));
                let q = choose|q: int| 0 <= q < source.entries.len() && source.entries[q] == entry;
                assert(next.nodes[parent] == tree.nodes[parent]);
                assert(names_node(source.entries[q], next.nodes, i));
            }
        }
    }
}

proof fn lemma_after_explained(source: TreeSource, count: nat)
    requires
        source.fit(),
        source.has_root(),
        tree_after(source, count).nodes.len() <= u32::MAX + 1,
    ensures
        forall|i: int|
            0 <= i < tree_after(source, count).nodes.len() ==> #[trigger] node_explained(
                source,
                tree_after(source, count).nodes,
                i,
            ),
    decreases count,
{
    if count == 0 {
        let root = source.root()->0;
        assert(says_of(source.inodes[root], tree_after(source, 0).nodes[0]));
    } else {
        let before = tree_after(source, (count - 1) as nat);
        lemma_after_grows(source, (count - 1) as nat, count);
        lemma_after_explained(source, (count - 1) as nat);
        let position = count - 1;
        if position < before.nodes.len() && before.nodes[position].kind == NodeKind::Directory {
            let directory = before.nodes[position].inode;
            let entries = listing(source.entries, source.ranges, directory);
            assert forall|e: int| 0 <= e < entries.len() implies source.entries.contains(
                #[trigger] entries[e],
            ) && entries[e].parent_inode == directory by {
                let r = range_of(source.ranges, directory)->0;
                assert(entries[e] == source.entries[source.ranges[r].start + e]);
            }
            lemma_attach_all_explained(source, before, entries, position);
        }
    }
}

/// Every node of a tree has the kind, the logical size, the links and the modification time of the
/// inode of its number.
pub proof fn law_nodes_say_what_their_inodes_say(source: TreeSource, tree: Tree, i: int, p: int)
    requires
        source.fit(),
        source.has_root(),
        complete(source, tree),
        tree.nodes.len() <= u32::MAX + 1,
        0 <= i < tree.nodes.len(),
        0 <= p < source.inodes.len(),
        source.inodes[p].inode == tree.nodes[i].inode,
    ensures
        tree.nodes[i].kind == source.inodes[p].kind,
        tree.nodes[i].logical_size == source.inodes[p].logical_size,
        tree.nodes[i].links == source.inodes[p].links,
        tree.nodes[i].mtime == source.inodes[p].mtime,
        tree.nodes[i].allocated_size == source.inodes[p].allocated_size
            || tree.nodes[i].allocated_size == 0,
{
    lemma_after_explained(source, tree.nodes.len());
    assert(node_explained(source, tree.nodes, i));
    let other = choose|other: int|
        0 <= other < source.inodes.len() && says_of(
            #[trigger] source.inodes[other],
            tree.nodes[i],
        );
    lemma_position(source.inodes, p);
    lemma_position(source.inodes, other);
    lemma_after_owns(source, tree.nodes.len());
}

/// Nothing is made up: every node has an inode, and every node but the root is named by an entry of
/// its parent, which is a directory. The root is the inode with the number two.
pub proof fn law_nodes_are_named_by_entries(source: TreeSource, tree: Tree, i: int)
    requires
        source.fit(),
        source.has_root(),
        complete(source, tree),
        tree.nodes.len() <= u32::MAX + 1,
        0 <= i < tree.nodes.len(),
    ensures
        exists|p: int|
            0 <= p < source.inodes.len() && (#[trigger] source.inodes[p]).inode
                == tree.nodes[i].inode,
        tree.nodes[0].inode == 2,
        tree.nodes[0].name == source.root_name,
        i > 0 ==> {
            let up = tree.nodes[i].parent.0 as int;
            &&& up < i
            &&& tree.nodes[up].kind == NodeKind::Directory
            &&& exists|q: int|
                {
                    &&& 0 <= q < source.entries.len()
                    &&& (#[trigger] source.entries[q]).parent_inode == tree.nodes[up].inode
                    &&& source.entries[q].child_inode == tree.nodes[i].inode
                    &&& source.entries[q].name == tree.nodes[i].name
                }
        },
{
    lemma_after_explained(source, tree.nodes.len());
    assert(node_explained(source, tree.nodes, i));
    lemma_after_grows(source, 0, tree.nodes.len());
    assert(tree.nodes[0] == tree_after(source, 0).nodes[0]);
    if i > 0 {
        let q = choose|q: int|
            0 <= q < source.entries.len() && names_node(
                #[trigger] source.entries[q],
                tree.nodes,
                i,
            );
        assert(source.entries[q].child_inode == tree.nodes[i].inode);
    }
}

/// Every entry is accounted for: one without an inode changes nothing, a further name of a directory
/// counts as an alias, and every other one becomes a node below its directory; a further name of an
/// inode counts as a hard link.
pub proof fn law_every_entry_is_accounted_for(
    inodes: Seq<InodeInfo>,
    tree: Tree,
    entry: DirectoryEntry,
    parent: int,
    p: int,
)
    requires
        inodes_ascending(inodes),
    ensures
        ({
            let next = attach(inodes, tree, entry, parent);
            &&& (forall|q: int|
                0 <= q < inodes.len() ==> (#[trigger] inodes[q]).inode != entry.child_inode)
                ==> next == tree
            &&& 0 <= p < inodes.len() && inodes[p].inode == entry.child_inode ==> {
                let known = tree.placed.contains(p);
                if known && inodes[p].kind == NodeKind::Directory {
                    &&& next.aliases == tree.aliases + 1
                    &&& next.nodes == tree.nodes
                    &&& next.hard_links == tree.hard_links
                } else {
                    &&& next.aliases == tree.aliases
                    &&& next.nodes.len() == tree.nodes.len() + 1
                    &&& next.hard_links == tree.hard_links + (if known {
                        1int
                    } else {
                        0
                    })
                    &&& next.placed.contains(p)
                }
            }
        }),
{
    if 0 <= p < inodes.len() && inodes[p].inode == entry.child_inode {
        lemma_position(inodes, p);
    }
}

proof fn lemma_dangling_count(inodes: Seq<InodeInfo>, entries: Seq<DirectoryEntry>, count: nat)
    requires
        count <= entries.len(),
    ensures
        aggregate::sum_over(
            dangling(inodes, entries),
            aggregate::each_once(),
            count,
        ) == entries.take(count as int).filter(lacks_inode(inodes)).len(),
    decreases count,
{
    reveal(Seq::filter);
    if count > 0 {
        lemma_dangling_count(inodes, entries, (count - 1) as nat);
        let some = entries.take(count as int);
        assert(some.drop_last() =~= entries.take(count - 1));
        assert(some.last() == entries[count - 1]);
        let entry = entries[count - 1];
        assert(dangling(inodes, entries).contains(count - 1) == lacks_inode(inodes)(entry));
    } else {
        assert(entries.take(0) =~= Seq::empty());
    }
}

/// No inode has the number that an entry names.
pub open spec fn lacks_inode(inodes: Seq<InodeInfo>) -> spec_fn(DirectoryEntry) -> bool {
    |entry: DirectoryEntry|
        forall|p: int|
            0 <= p < inodes.len() ==> (#[trigger] inodes[p]).inode != entry.child_inode
}

/// The warnings of a tree count the entries that name no inode, the inodes that no node stands for,
/// and the further names of directories.
pub proof fn law_warnings_count_what_is_missing(source: TreeSource, tree: Tree)
    requires
        source.entries.len() <= u64::MAX,
        source.inodes.len() <= u64::MAX,
        tree.aliases <= u64::MAX,
        tree.placed.finite(),
        forall|p: int| #[trigger] tree.placed.contains(p) ==> 0 <= p < source.inodes.len(),
    ensures
        tree_warnings(source, tree).missing_inode_references == source.entries.filter(
            lacks_inode(source.inodes),
        ).len(),
        tree_warnings(source, tree).nodes_without_parent + tree.placed.len()
            == source.inodes.len(),
        tree_warnings(source, tree).directory_aliases == tree.aliases,
        tree_warnings(source, tree).directory_scan_errors == 0,
{
    let count = source.inodes.len();
    lemma_dangling_count(source.inodes, source.entries, source.entries.len());
    assert(source.entries.take(source.entries.len() as int) =~= source.entries);
    aggregate::lemma_count_bound(dangling(source.inodes, source.entries), source.entries.len());
    let without = unplaced(source.inodes, tree.placed);
    aggregate::lemma_sum_union(tree.placed, without, aggregate::each_once(), count);
    aggregate::lemma_count_all(tree.placed.union(without), count);
    lemma_placed_count(tree.placed, count);
}

/// Members of a finite set of positions are counted one by one.
proof fn lemma_placed_count(set: Set<int>, bound: nat)
    requires
        set.finite(),
        forall|p: int| #[trigger] set.contains(p) ==> 0 <= p < bound,
    ensures
        aggregate::sum_over(set, aggregate::each_once(), bound) == set.len(),
    decreases bound,
{
    if bound == 0 {
        assert(set =~= Set::empty());
    } else {
        let last = bound - 1;
        if set.contains(last) {
            let rest = set.remove(last);
            lemma_placed_count(rest, last as nat);
            aggregate::lemma_sum_agrees(rest, set, aggregate::each_once(), last as nat);
        } else {
            assert forall|p: int| #[trigger] set.contains(p) implies 0 <= p < last by {
                assert(p != last);
            }
            lemma_placed_count(set, last as nat);
        }
    }
}

/// The root keeps its name.
pub(crate) proof fn lemma_first_name(source: TreeSource, count: nat)
    ensures
        tree_after(source, count).nodes.len() >= 1,
        tree_after(source, count).nodes[0].name == source.root_name,
{
    lemma_after_grows(source, 0, count);
    assert(tree_after(source, count).nodes[0] == tree_after(source, 0).nodes[0]);
}

/// The node of an entry of a file.
proof fn lemma_entry_node(source: TreeSource, tree: Tree, directory: int, entry: int) -> (i: int)
    requires
        complete(source, tree),
        0 <= directory < tree.nodes.len(),
        directory <= u32::MAX,
        tree.nodes[directory].kind == NodeKind::Directory,
        0 <= entry < listing(source.entries, source.ranges, tree.nodes[directory].inode).len(),
        position_of(
            source.inodes,
            listing(
                source.entries,
                source.ranges,
                tree.nodes[directory].inode,
            )[entry].child_inode,
        ) matches Some(at) && source.inodes[at].kind != NodeKind::Directory,
    ensures
        ({
            let entries = listing(source.entries, source.ranges, tree.nodes[directory].inode);
            &&& 0 <= i < tree.nodes.len()
            &&& tree.nodes[i].parent.0 == directory
            &&& tree.nodes[i].name == entries[entry].name
            &&& i == attach_all(
                source.inodes,
                tree_after(source, directory as nat),
                entries.take(entry),
                directory,
            ).nodes.len()
        }),
{
    let before = tree_after(source, directory as nat);
    let entries = listing(source.entries, source.ranges, tree.nodes[directory].inode);
    lemma_after_grows(source, directory as nat, tree.nodes.len());
    lemma_after_grows(source, (directory + 1) as nat, tree.nodes.len());
    if directory >= before.nodes.len() {
        lemma_after_settles(source, directory as nat, tree.nodes.len());
    }
    assert(before.nodes[directory] == tree.nodes[directory]);
    let some = entries.take(entry + 1);
    assert(some.drop_last() =~= entries.take(entry));
    assert(some.last() == entries[entry]);
    let prior = attach_all(source.inodes, before, entries.take(entry), directory);
    let then = attach_all(source.inodes, before, some, directory);
    assert(then == attach(source.inodes, prior, entries[entry], directory));
    lemma_attach_all_continues(source.inodes, before, entries, entry + 1, directory);
    let i = prior.nodes.len() as int;
    assert(tree.nodes[i] == then.nodes[i]);
    i
}

/// The files of a directory stand in the order of its entries.
pub proof fn law_entries_keep_their_order(
    source: TreeSource,
    tree: Tree,
    directory: int,
    a: int,
    b: int,
)
    requires
        complete(source, tree),
        0 <= directory < tree.nodes.len(),
        directory <= u32::MAX,
        tree.nodes[directory].kind == NodeKind::Directory,
        0 <= a < b < listing(source.entries, source.ranges, tree.nodes[directory].inode).len(),
        ({
            let entries = listing(source.entries, source.ranges, tree.nodes[directory].inode);
            &&& position_of(source.inodes, entries[a].child_inode) matches Some(at)
                && source.inodes[at].kind != NodeKind::Directory
            &&& position_of(source.inodes, entries[b].child_inode) matches Some(at)
                && source.inodes[at].kind != NodeKind::Directory
        }),
    ensures
        exists|i: int, j: int|
            {
                let entries = listing(source.entries, source.ranges, tree.nodes[directory].inode);
                &&& 0 <= i < j < tree.nodes.len()
                &&& (#[trigger] tree.nodes[i]).parent.0 == directory
                &&& tree.nodes[i].name == entries[a].name
                &&& (#[trigger] tree.nodes[j]).parent.0 == directory
                &&& tree.nodes[j].name == entries[b].name
            },
{
    let entries = listing(source.entries, source.ranges, tree.nodes[directory].inode);
    let before = tree_after(source, directory as nat);
    let i = lemma_entry_node(source, tree, directory, a);
    let j = lemma_entry_node(source, tree, directory, b);
    let fewer = entries.take(b);
    lemma_attach_all_continues(source.inodes, before, fewer, a + 1, directory);
    assert(fewer.take(a + 1) =~= entries.take(a + 1));
    let some = entries.take(a + 1);
    assert(some.drop_last() =~= entries.take(a));
    assert(some.last() == entries[a]);
    assert(i < j);
}

/// The listing of a directory is the run of entries that its range covers, and holds nothing of any
/// other directory.
pub proof fn law_listings_are_ranges(
    entries: Seq<DirectoryEntry>,
    ranges: Seq<DirRange>,
    r: int,
    q: int,
)
    requires
        ranges_fit(entries, ranges),
        0 <= r < ranges.len(),
        ranges[r].start <= q < ranges[r].end,
    ensures
        listing(entries, ranges, ranges[r].parent).len() == ranges[r].end - ranges[r].start,
        listing(entries, ranges, ranges[r].parent)[q - ranges[r].start] == entries[q],
        entries[q].parent_inode == ranges[r].parent,
{
    let directory = ranges[r].parent;
    let found = range_of(ranges, directory)->0;
    assert(ranges[found].parent == directory);
    assert(found == r);
}

} // verus!
