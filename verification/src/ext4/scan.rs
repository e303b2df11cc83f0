//! The steps of an ext4 scan between the calls that read the filesystem.

use vstd::prelude::*;

use crate::aggregate;
use crate::aggregate::AggregateError;
use crate::arena;
use crate::arena::ArenaError;
use crate::ext4::error::{Ext4Error, NativeError};
use crate::ext4::merge::{DirWork, DirectoryScan};
use crate::ext4::tree;
use crate::ext4::tree::{DirectoryEntry, InodeInfo, TreeSource};
use crate::node::{NameRef, NodeKind};
use crate::order;
use crate::order::Precedence;
use crate::scan::{
    FilesystemInfo, FilesystemScan, LaidOut, ScanStats, ScanTimings, ScanWarnings,
};
use crate::text;

verus! {

/// Directories claimed per step. Large enough to amortize the claim, small enough to keep all
/// workers busy until the end.
pub const DIRECTORY_BATCH: usize = 64;

/// What the superblock of a filesystem says.
#[derive(Clone, Copy, Debug, Eq, PartialEq, Structural)]
pub struct Superblock {
    pub block_size: u32,
    pub first_inode: u32,
    pub inodes_per_group: u32,
    pub group_count: u32,
    pub inode_count: u64,
    pub allocated_inode_count: u64,
    pub feature_compat: u32,
    pub feature_incompat: u32,
    pub feature_ro_compat: u32,
    pub is_ext4: u8,
}

/// An inode as the filesystem library reports it.
#[derive(Clone, Copy, Debug, Eq, PartialEq, Structural)]
pub struct RawInode {
    pub inode: u64,
    pub logical_size: u64,
    pub allocated_size: u64,
    pub links: u32,
    pub mtime: i64,
    pub kind: u8,
}

/// The kind behind a reported number.
pub open spec fn kind_of(kind: u8) -> NodeKind {
    if kind == 0 {
        NodeKind::File
    } else if kind == 1 {
        NodeKind::Directory
    } else if kind == 2 {
        NodeKind::Symlink
    } else {
        NodeKind::Other
    }
}

/// What the tree takes from a reported inode.
pub open spec fn info_of(raw: RawInode) -> InodeInfo {
    InodeInfo {
        inode: raw.inode,
        kind: kind_of(raw.kind),
        logical_size: raw.logical_size,
        allocated_size: raw.allocated_size,
        links: raw.links,
        mtime: raw.mtime,
    }
}

impl vstd::std_specs::convert::FromSpecImpl<RawInode> for InodeInfo {
    open spec fn obeys_from_spec() -> bool {
        true
    }

    open spec fn from_spec(raw: RawInode) -> InodeInfo {
        info_of(raw)
    }
}

impl From<RawInode> for InodeInfo {
    fn from(raw: RawInode) -> (info: InodeInfo) {
        let kind = match raw.kind {
            0 => NodeKind::File,
            1 => NodeKind::Directory,
            2 => NodeKind::Symlink,
            _ => NodeKind::Other,
        };
        InodeInfo {
            inode: raw.inode,
            kind,
            logical_size: raw.logical_size,
            allocated_size: raw.allocated_size,
            links: raw.links,
            mtime: raw.mtime,
        }
    }
}

/// The root inode and the inodes behind the reserved ones belong to the tree.
pub open spec fn in_tree(raw: RawInode, first_inode: u32) -> bool {
    raw.inode == tree::ROOT_INODE || raw.inode >= first_inode
}

/// The inodes of a batch that belong to the tree.
pub open spec fn kept(batch: Seq<RawInode>, first_inode: u32) -> Seq<InodeInfo>
    decreases batch.len(),
{
    if batch.len() == 0 {
        Seq::empty()
    } else {
        let before = kept(batch.drop_last(), first_inode);
        if in_tree(batch.last(), first_inode) {
            before.push(info_of(batch.last()))
        } else {
            before
        }
    }
}

/// Adds the inodes of a batch that belong to the tree.
pub fn keep_inodes(batch: &[RawInode], first_inode: u32, inodes: &mut Vec<InodeInfo>)
    ensures
        final(inodes)@ == old(inodes)@ + kept(batch@, first_inode),
{
    let mut i: usize = 0;
    proof {
        assert(batch@.take(0) =~= Seq::empty());
        assert(inodes@ =~= old(inodes)@ + kept(batch@.take(0), first_inode));
    }
    while i < batch.len()
        invariant
            i <= batch.len(),
            inodes@ == old(inodes)@ + kept(batch@.take(i as int), first_inode),
        decreases batch.len() - i,
    {
        let raw = batch[i];
        proof {
            let longer = batch@.take(i + 1);
            assert(longer.drop_last() =~= batch@.take(i as int));
            assert(longer.last() == raw);
        }
        if raw.inode == tree::ROOT_INODE || raw.inode >= first_inode as u64 {
            inodes.push(InodeInfo::from(raw));
        }
        i = i + 1;
        assert(inodes@ =~= old(inodes)@ + kept(batch@.take(i as int), first_inode));
    }
    assert(batch@.take(i as int) =~= batch@);
}

/// As many workers as asked for, at least one, at most one per group.
pub open spec fn workers_for(threads: usize, group_count: u32) -> int {
    let wanted = if threads > 1 {
        threads as int
    } else {
        1
    };
    if wanted < group_count {
        wanted
    } else {
        group_count as int
    }
}

/// Number of workers for a scan.
pub fn worker_count(threads: usize, group_count: u32) -> (workers: usize)
    ensures
        workers == workers_for(threads, group_count),
{
    let wanted: usize = if threads > 1 {
        threads
    } else {
        1
    };
    let groups: usize = group_count as usize;
    if wanted < groups {
        wanted
    } else {
        groups
    }
}

/// What a worker does with a claimed group of inodes.
#[derive(Clone, Copy, Debug, Eq, PartialEq, Structural)]
pub enum GroupStep {
    /// There are no more groups.
    Finished,
    /// The group holds no inodes.
    Skip,
    /// Read the inodes `first..=last`.
    Read { first: u64, last: u64 },
}

/// The step for a group. The groups share the inodes out in runs of `inodes_per_group`, the last
/// of which may be shorter.
pub open spec fn step_of(
    group: int,
    group_count: u32,
    inodes_per_group: u32,
    inode_count: u64,
) -> GroupStep {
    let first = group * inodes_per_group + 1;
    let end = (group + 1) * inodes_per_group;
    let last = if end <= inode_count {
        end
    } else {
        inode_count as int
    };
    if group >= group_count {
        GroupStep::Finished
    } else if first > last {
        GroupStep::Skip
    } else {
        GroupStep::Read { first: first as u64, last: last as u64 }
    }
}

/// What to do with a group.
pub fn group_step(group: usize, group_count: u32, inodes_per_group: u32, inode_count: u64) -> (step:
    GroupStep)
    ensures
        step == step_of(group as int, group_count, inodes_per_group, inode_count),
{
    if group >= group_count as usize {
        return GroupStep::Finished;
    }
    proof {
        assert(group * inodes_per_group + 1 <= u64::MAX && (group + 1) * inodes_per_group
            <= u64::MAX) by (nonlinear_arith)
            requires
                group < group_count,
                group_count <= u32::MAX,
                inodes_per_group <= u32::MAX,
        ;
    }
    let first: u64 = group as u64 * inodes_per_group as u64 + 1;
    let end: u64 = (group as u64 + 1) * inodes_per_group as u64;
    let last: u64 = if end <= inode_count {
        end
    } else {
        inode_count
    };
    if first > last {
        GroupStep::Skip
    } else {
        GroupStep::Read { first, last }
    }
}

/// The directories that a claim at `base` covers.
pub fn directory_batch(base: usize, directories: usize) -> (batch: Option<(usize, usize)>)
    ensures
        batch == if base >= directories {
            None::<(usize, usize)>
        } else if base + DIRECTORY_BATCH <= directories {
            Some((base, (base + DIRECTORY_BATCH) as usize))
        } else {
            Some((base, directories))
        },
{
    if base >= directories {
        return None;
    }
    let end: usize = base.saturating_add(DIRECTORY_BATCH);
    if end <= directories {
        Some((base, end))
    } else {
        Some((base, directories))
    }
}

/// Inode numbers of the directories, in the order of the inodes.
pub open spec fn directory_numbers(inodes: Seq<InodeInfo>) -> Seq<u64>
    decreases inodes.len(),
{
    if inodes.len() == 0 {
        Seq::empty()
    } else {
        let before = directory_numbers(inodes.drop_last());
        if inodes.last().kind == NodeKind::Directory {
            before.push(inodes.last().inode)
        } else {
            before
        }
    }
}

/// The directories to read.
pub fn directories_of(inodes: &Vec<InodeInfo>) -> (numbers: Vec<u64>)
    ensures
        numbers@ == directory_numbers(inodes@),
{
    let mut numbers: Vec<u64> = Vec::new();
    let mut i: usize = 0;
    proof {
        assert(inodes@.take(0) =~= Seq::empty());
    }
    while i < inodes.len()
        invariant
            i <= inodes.len(),
            numbers@ == directory_numbers(inodes@.take(i as int)),
        decreases inodes.len() - i,
    {
        proof {
            let longer = inodes@.take(i + 1);
            assert(longer.drop_last() =~= inodes@.take(i as int));
            assert(longer.last() == inodes@[i as int]);
        }
        if inodes[i].kind == NodeKind::Directory {
            numbers.push(inodes[i].inode);
        }
        i = i + 1;
    }
    assert(inodes@.take(i as int) =~= inodes@);
    numbers
}

/// Positions by inode number, those of one number in their order.
struct ByNumber<'a> {
    inodes: &'a Vec<InodeInfo>,
}

impl<'a> Precedence for ByNumber<'a> {
    closed spec fn comparable(&self) -> bool {
        true
    }

    closed spec fn size(&self) -> nat {
        self.inodes@.len()
    }

    closed spec fn before(&self, a: int, b: int) -> bool {
        let left = self.inodes@[a].inode;
        let right = self.inodes@[b].inode;
        left < right || (left == right && a < b)
    }

    proof fn before_is_total(&self, a: int, b: int) {
    }

    proof fn before_is_transitive(&self, a: int, b: int, c: int) {
    }

    fn is_before(&self, a: usize, b: usize) -> (first: bool) {
        let left: u64 = self.inodes[a].inode;
        let right: u64 = self.inodes[b].inode;
        left < right || (left == right && a < b)
    }
}

/// `sorted` holds `inodes` at `places`, by number, those of one number in their order.
pub open spec fn sorted_at(
    inodes: Seq<InodeInfo>,
    sorted: Seq<InodeInfo>,
    places: Seq<usize>,
) -> bool {
    &&& order::lists_range(places, 0, inodes.len() as int)
    &&& sorted.len() == inodes.len()
    &&& forall|k: int| 0 <= k < inodes.len() ==> #[trigger] sorted[k] == inodes[places[k] as int]
    &&& forall|a: int, b: int|
        0 <= a < b < inodes.len() ==> {
            let left = (#[trigger] sorted[a]).inode;
            let right = (#[trigger] sorted[b]).inode;
            left < right || (left == right && places[a] < places[b])
        }
}

/// Puts inodes that were read in any order into the order of their numbers.
pub fn sort_inodes(inodes: Vec<InodeInfo>) -> (sorted: Vec<InodeInfo>)
    ensures
        exists|places: Seq<usize>| #[trigger] sorted_at(inodes@, sorted@, places),
{
    let order = ByNumber { inodes: &inodes };
    let places = order::sorted_positions(&order, inodes.len());
    let mut sorted: Vec<InodeInfo> = Vec::with_capacity(places.len());
    let mut k: usize = 0;
    while k < places.len()
        invariant
            k <= places.len(),
            places.len() == inodes.len(),
            sorted.len() == k,
            order::lists_range(places@, 0, inodes@.len() as int),
            forall|m: int| 0 <= m < k ==> #[trigger] sorted@[m] == inodes@[places@[m] as int],
        decreases places.len() - k,
    {
        assert(0 <= places@[k as int] < inodes.len());
        sorted.push(inodes[places[k]]);
        k = k + 1;
    }
    proof {
        assert forall|a: int, b: int| 0 <= a < b < inodes.len() implies {
            let left = (#[trigger] sorted@[a]).inode;
            let right = (#[trigger] sorted@[b]).inode;
            left < right || (left == right && places@[a] < places@[b])
        } by {
            assert(order.before(places@[a] as int, places@[b] as int));
        }
        assert(sorted_at(inodes@, sorted@, places@));
    }
    sorted
}

/// Rising positions below their number are the positions themselves.
proof fn lemma_rising_positions(at: Seq<int>, i: int)
    requires
        0 <= i < at.len(),
        forall|k: int| 0 <= k < at.len() ==> 0 <= #[trigger] at[k] < at.len(),
        forall|a: int, b: int| 0 <= a < b < at.len() ==> #[trigger] at[a] < #[trigger] at[b],
    ensures
        at[i] == i,
{
    lemma_positions_rise(at, i);
    lemma_positions_end(at, i);
}

proof fn lemma_positions_rise(at: Seq<int>, i: int)
    requires
        0 <= i < at.len(),
        forall|k: int| 0 <= k < at.len() ==> 0 <= #[trigger] at[k] < at.len(),
        forall|a: int, b: int| 0 <= a < b < at.len() ==> #[trigger] at[a] < #[trigger] at[b],
    ensures
        i <= at[i],
    decreases i,
{
    if i > 0 {
        lemma_positions_rise(at, i - 1);
        assert(at[i - 1] < at[i]);
    }
}

proof fn lemma_positions_end(at: Seq<int>, i: int)
    requires
        0 <= i < at.len(),
        forall|k: int| 0 <= k < at.len() ==> 0 <= #[trigger] at[k] < at.len(),
        forall|a: int, b: int| 0 <= a < b < at.len() ==> #[trigger] at[a] < #[trigger] at[b],
    ensures
        at[i] <= i,
    decreases at.len() - i,
{
    if i < at.len() - 1 {
        lemma_positions_end(at, i + 1);
        assert(at[i] < at[i + 1]);
    }
}

/// In whatever order the inodes were read: sorted, they are the inodes in the order of their
/// numbers.
pub proof fn law_reading_order_does_not_matter(
    read: Seq<InodeInfo>,
    sorted: Seq<InodeInfo>,
    places: Seq<usize>,
    inodes: Seq<InodeInfo>,
)
    requires
        sorted_at(read, sorted, places),
        tree::inodes_ascending(inodes),
        read.len() == inodes.len() <= usize::MAX,
        forall|i: int| 0 <= i < inodes.len() ==> read.contains(#[trigger] inodes[i]),
    ensures
        sorted == inodes,
{
    assert forall|i: int| 0 <= i < inodes.len() implies sorted.contains(#[trigger] inodes[i]) by {
        assert(read.contains(inodes[i]));
        let r = choose|r: int| 0 <= r < read.len() && read[r] == inodes[i];
        assert(places.contains(r as usize));
        let k = choose|k: int| 0 <= k < places.len() && places[k] == r as usize;
        assert(sorted[k] == read[places[k] as int]);
    }
    let at = Seq::new(
        inodes.len(),
        |i: int| choose|k: int| 0 <= k < sorted.len() && sorted[k] == inodes[i],
    );
    assert forall|i: int| 0 <= i < at.len() implies 0 <= #[trigger] at[i] < sorted.len()
        && sorted[at[i]] == inodes[i] by {
        assert(sorted.contains(inodes[i]));
    }
    assert forall|a: int, b: int| 0 <= a < b < at.len() implies #[trigger] at[a]
        < #[trigger] at[b] by {
        assert(inodes[a].inode < inodes[b].inode);
        assert(sorted[at[a]] == inodes[a]);
        assert(sorted[at[b]] == inodes[b]);
    }
    assert forall|i: int| 0 <= i < inodes.len() implies #[trigger] sorted[i] == inodes[i] by {
        lemma_rising_positions(at, i);
        assert(sorted[at[i]] == inodes[i]);
    }
    assert(sorted =~= inodes);
}

/// Whether the inodes are in strictly ascending order.
pub fn are_ascending(inodes: &Vec<InodeInfo>) -> (ascending: bool)
    ensures
        ascending == tree::inodes_ascending(inodes@),
{
    let mut i: usize = 1;
    while i < inodes.len()
        invariant
            1 <= i,
            i <= inodes.len() || inodes.len() == 0,
            tree::inodes_ascending(inodes@.take(i as int)) || inodes.len() == 0,
        decreases inodes.len() - i,
    {
        if inodes[i - 1].inode >= inodes[i].inode {
            proof {
                assert(inodes@[i - 1].inode >= inodes@[i as int].inode);
            }
            return false;
        }
        proof {
            let shorter = inodes@.take(i as int);
            let longer = inodes@.take(i + 1);
            assert forall|a: int, b: int| 0 <= a < b < longer.len() implies (
            #[trigger] longer[a]).inode < (#[trigger] longer[b]).inode by {
                if b < i {
                    assert(shorter[a].inode < shorter[b].inode);
                } else if a < i - 1 {
                    assert(shorter[a].inode < shorter[i - 1].inode);
                }
            }
        }
        i = i + 1;
    }
    proof {
        if inodes.len() > 0 {
            assert(inodes@.take(i as int) =~= inodes@);
        }
    }
    true
}

/// The step reads this inode.
pub open spec fn step_reads(step: GroupStep, inode: int) -> bool {
    step matches GroupStep::Read { first, last } && first <= inode <= last
}

/// Every inode is read with exactly one group, provided that the groups have room for all inodes.
pub proof fn law_groups_partition_inodes(
    inode: int,
    group_count: u32,
    inodes_per_group: u32,
    inode_count: u64,
)
    requires
        1 <= inode <= inode_count,
        group_count * inodes_per_group >= inode_count,
    ensures
        exists|group: int|
            {
                &&& 0 <= group < group_count
                &&& step_reads(
                    #[trigger] step_of(group, group_count, inodes_per_group, inode_count),
                    inode,
                )
                &&& forall|other: int|
                    0 <= other && step_reads(
                        #[trigger] step_of(other, group_count, inodes_per_group, inode_count),
                        inode,
                    ) ==> other == group
            },
{
    let size = inodes_per_group as int;
    assert(size > 0) by (nonlinear_arith)
        requires
            group_count * size >= inode_count,
            inode_count >= 1,
            size >= 0,
    ;
    let group = (inode - 1) / size;
    vstd::arithmetic::div_mod::lemma_fundamental_div_mod(inode - 1, size);
    vstd::arithmetic::div_mod::lemma_mod_bound(inode - 1, size);
    assert(group * size <= inode - 1 < (group + 1) * size && group >= 0) by (nonlinear_arith)
        requires
            inode - 1 == size * group + (inode - 1) % size,
            0 <= (inode - 1) % size < size,
            inode >= 1,
            size > 0,
    ;
    assert(group < group_count) by (nonlinear_arith)
        requires
            group * size <= inode - 1,
            inode - 1 < group_count * size,
            size > 0,
    ;
    assert((group + 1) * size <= u64::MAX && group * size + 1 <= u64::MAX) by (nonlinear_arith)
        requires
            0 <= group < group_count,
            group_count <= u32::MAX,
            0 < size <= u32::MAX,
    ;
    let step = step_of(group, group_count, inodes_per_group, inode_count);
    assert(step_reads(step, inode));
    assert forall|other: int|
        0 <= other && step_reads(
            #[trigger] step_of(other, group_count, inodes_per_group, inode_count),
            inode,
        ) implies other == group by {
        assert((other + 1) * size <= u64::MAX && other * size + 1 <= u64::MAX) by (nonlinear_arith)
            requires
                0 <= other < group_count,
                group_count <= u32::MAX,
                0 < size <= u32::MAX,
        ;
        assert(other * size <= inode - 1 < (other + 1) * size);
        assert(other == group) by (nonlinear_arith)
            requires
                other * size <= inode - 1 < (other + 1) * size,
                group * size <= inode - 1 < (group + 1) * size,
                size > 0,
        ;
    }
}

/// What a reader has collected, as values.
#[verifier::ext_equal]
pub struct Collected {
    pub entries: Seq<DirectoryEntry>,
    pub names: Seq<u8>,
}

/// The entries of one directory as the filesystem library hands them over: entry `i` names
/// `children[i]` by `lengths[i]` bytes of `names` from `offsets[i]` on.
pub open spec fn batch_located(
    children: Seq<u64>,
    offsets: Seq<u32>,
    lengths: Seq<u16>,
    names: Seq<u8>,
) -> bool {
    &&& children.len() <= offsets.len()
    &&& children.len() <= lengths.len()
    &&& forall|i: int|
        0 <= i < children.len() ==> #[trigger] offsets[i] + #[trigger] lengths[i] <= names.len()
}

/// What has been collected after the first `count` entries of a directory.
pub open spec fn collected(
    start: Collected,
    parent: u64,
    children: Seq<u64>,
    offsets: Seq<u32>,
    lengths: Seq<u16>,
    names: Seq<u8>,
    count: nat,
) -> Collected
    decreases count,
{
    if count == 0 {
        start
    } else {
        let i = count - 1;
        let before = collected(start, parent, children, offsets, lengths, names, i as nat);
        Collected {
            entries: before.entries.push(
                DirectoryEntry {
                    parent_inode: parent,
                    child_inode: children[i],
                    name: NameRef { offset: before.names.len() as u32, len: lengths[i] },
                },
            ),
            names: before.names + names.subrange(offsets[i] as int, offsets[i] + lengths[i])
                + seq![0u8],
        }
    }
}

/// Whether every entry of a batch lies inside the batch.
pub fn batch_fits(children: &[u64], offsets: &[u32], lengths: &[u16], names: &[u8]) -> (fits: bool)
    ensures
        fits == batch_located(children@, offsets@, lengths@, names@),
{
    if offsets.len() < children.len() || lengths.len() < children.len() {
        return false;
    }
    let mut i: usize = 0;
    while i < children.len()
        invariant
            i <= children.len() <= offsets.len(),
            children.len() <= lengths.len(),
            forall|k: int|
                0 <= k < i ==> #[trigger] offsets@[k] + #[trigger] lengths@[k] <= names@.len(),
        decreases children.len() - i,
    {
        let end: u64 = offsets[i] as u64 + lengths[i] as u64;
        if end > names.len() as u64 {
            assert(offsets@[i as int] + lengths@[i as int] > names@.len());
            return false;
        }
        i = i + 1;
    }
    true
}

impl DirWork {
    /// What has been collected.
    pub open spec fn so_far(self) -> Collected {
        Collected { entries: self.entries@, names: self.names@ }
    }

    /// Adds the entries of one directory. Where the name arena is full, the entries before the one
    /// that does not fit have been added.
    pub fn push_batch(
        &mut self,
        parent: u64,
        children: &[u64],
        offsets: &[u32],
        lengths: &[u16],
        names: &[u8],
    ) -> (result: Result<(), ArenaError>)
        requires
            batch_located(children@, offsets@, lengths@, names@),
        ensures
            final(self).warnings == old(self).warnings,
            match result {
                Ok(()) => final(self).so_far() == collected(
                    old(self).so_far(),
                    parent,
                    children@,
                    offsets@,
                    lengths@,
                    names@,
                    children@.len(),
                ) && (children@.len() > 0 ==> final(self).names@.len() <= u32::MAX),
                Err(error) => error == ArenaError::NamesTooLarge && exists|i: nat|
                    {
                        &&& i < children@.len()
                        &&& final(self).so_far() == #[trigger] collected(
                            old(self).so_far(),
                            parent,
                            children@,
                            offsets@,
                            lengths@,
                            names@,
                            i,
                        )
                        &&& final(self).names@.len() + lengths@[i as int] + 1 > u32::MAX
                    },
            },
    {
        let ghost start = self.so_far();
        let mut i: usize = 0;
        while i < children.len()
            invariant
                i <= children.len(),
                start == old(self).so_far(),
                batch_located(children@, offsets@, lengths@, names@),
                self.warnings == old(self).warnings,
                self.so_far() == collected(
                    start,
                    parent,
                    children@,
                    offsets@,
                    lengths@,
                    names@,
                    i as nat,
                ),
                i > 0 ==> self.names@.len() <= u32::MAX,
            decreases children.len() - i,
        {
            assert(offsets@[i as int] + lengths@[i as int] <= names@.len());
            let from: usize = offsets[i] as usize;
            let size: usize = names.len();
            assert(from + lengths@[i as int] <= size);
            let to: usize = from + lengths[i] as usize;
            let name = vstd::slice::slice_subrange(names, from, to);
            match self.names.push(name) {
                Ok(stored) => {
                    self.entries.push(
                        DirectoryEntry {
                            parent_inode: parent,
                            child_inode: children[i],
                            name: stored,
                        },
                    );
                },
                Err(error) => {
                    return Err(error);
                },
            }
            i = i + 1;
        }
        Ok(())
    }

    /// Closes a directory: `added` is what adding its entries gave, `read` what reading it gave.
    ///
    /// A directory that cannot be read is counted; one whose entries do not fit, or whose reading
    /// ended in a panic, ends the scan. `text` is the library's text for the error.
    pub fn finish_directory(
        &mut self,
        added: Result<(), ArenaError>,
        read: Result<(), NativeError>,
        text: &str,
    ) -> (result: Result<(), Ext4Error>)
        requires
            old(self).warnings.directory_scan_errors < u64::MAX,
        ensures
            final(self).so_far() == old(self).so_far(),
            final(self).warnings == (ScanWarnings {
                directory_scan_errors: if added is Ok && read is Err && read->Err_0
                    !is CallbackPanicked {
                    (old(self).warnings.directory_scan_errors + 1) as u64
                } else {
                    old(self).warnings.directory_scan_errors
                },
                ..old(self).warnings
            }),
            match (added, read, result) {
                (Err(error), _, Err(Ext4Error::Arena(reported))) => reported == error,
                (Ok(()), Err(NativeError::CallbackPanicked), Err(Ext4Error::Native { message, code }))
                => code is None && message@ == NativeError::CallbackPanicked.words(text@),
                (Ok(()), Ok(()), Ok(())) => true,
                (Ok(()), Err(error), Ok(())) => error !is CallbackPanicked,
                _ => false,
            },
    {
        if let Err(error) = added {
            return Err(Ext4Error::Arena(error));
        }
        match read {
            Ok(()) => Ok(()),
            Err(NativeError::CallbackPanicked) => {
                Err(Ext4Error::from_native(NativeError::CallbackPanicked, text))
            },
            Err(_) => {
                let errors: u64 = self.warnings.directory_scan_errors;
                self.warnings.directory_scan_errors = errors + 1;
                Ok(())
            },
        }
    }
}

/// How many inodes are of a kind.
pub open spec fn count_of(inodes: Seq<InodeInfo>, kind: NodeKind) -> nat
    decreases inodes.len(),
{
    if inodes.len() == 0 {
        0
    } else {
        count_of(inodes.drop_last(), kind) + if inodes.last().kind == kind {
            1nat
        } else {
            0nat
        }
    }
}

proof fn lemma_counts_are_bounded(inodes: Seq<InodeInfo>)
    ensures
        count_of(inodes, NodeKind::File) + count_of(inodes, NodeKind::Directory) + count_of(
            inodes,
            NodeKind::Symlink,
        ) + count_of(inodes, NodeKind::Other) == inodes.len(),
    decreases inodes.len(),
{
    if inodes.len() > 0 {
        lemma_counts_are_bounded(inodes.drop_last());
    }
}

/// Counts inodes by kind.
fn count_inodes(inodes: &Vec<InodeInfo>) -> (stats: ScanStats)
    ensures
        stats == (ScanStats {
            allocated_inodes: inodes@.len() as u64,
            files: count_of(inodes@, NodeKind::File) as u64,
            directories: count_of(inodes@, NodeKind::Directory) as u64,
            symlinks: count_of(inodes@, NodeKind::Symlink) as u64,
            other: count_of(inodes@, NodeKind::Other) as u64,
            nodes: 0,
            directory_entries: 0,
            hard_link_entries: 0,
        }),
{
    let mut stats = ScanStats::default();
    stats.allocated_inodes = inodes.len() as u64;
    let mut i: usize = 0;
    proof {
        assert(inodes@.take(0) =~= Seq::empty());
    }
    while i < inodes.len()
        invariant
            i <= inodes.len(),
            stats == (ScanStats {
                allocated_inodes: inodes@.len() as u64,
                files: count_of(inodes@.take(i as int), NodeKind::File) as u64,
                directories: count_of(inodes@.take(i as int), NodeKind::Directory) as u64,
                symlinks: count_of(inodes@.take(i as int), NodeKind::Symlink) as u64,
                other: count_of(inodes@.take(i as int), NodeKind::Other) as u64,
                nodes: 0,
                directory_entries: 0,
                hard_link_entries: 0,
            }),
        decreases inodes.len() - i,
    {
        proof {
            let longer = inodes@.take(i + 1);
            assert(longer.drop_last() =~= inodes@.take(i as int));
            assert(longer.last() == inodes@[i as int]);
            lemma_counts_are_bounded(longer);
            lemma_counts_are_bounded(inodes@.take(i as int));
        }
        match inodes[i].kind {
            NodeKind::File => {
                stats.files = stats.files + 1;
            },
            NodeKind::Directory => {
                stats.directories = stats.directories + 1;
            },
            NodeKind::Symlink => {
                stats.symlinks = stats.symlinks + 1;
            },
            NodeKind::Other => {
                stats.other = stats.other + 1;
            },
        }
        i = i + 1;
    }
    assert(inodes@.take(i as int) =~= inodes@);
    stats
}

/// What the tree of a scan is built from, with the root's name behind the other names.
pub open spec fn source_of(inodes: Seq<InodeInfo>, directories: DirectoryScan) -> TreeSource {
    TreeSource {
        inodes,
        entries: directories.entries@,
        ranges: directories.ranges@,
        root_name: NameRef { offset: directories.names@.len() as u32, len: 1 },
    }
}

/// `laid` is the tree of these inodes and directories, with what it holds counted.
pub open spec fn laid_out(
    inodes: Seq<InodeInfo>,
    directories: DirectoryScan,
    laid: LaidOut,
) -> bool {
    let source = source_of(inodes, directories);
    let tree = tree::tree_after(source, laid.arena.node_list().len());
    &&& directories.names@.len() + 2 <= u32::MAX
    &&& source.has_root()
    &&& !tree::outgrows_ids(source)
    &&& laid.arena.node_list() == tree.nodes
    &&& laid.arena.name_bytes() == directories.names@ + seq![text::SLASH, 0u8]
    &&& laid.stats == ScanStats {
        allocated_inodes: inodes.len() as u64,
        files: count_of(inodes, NodeKind::File) as u64,
        directories: count_of(inodes, NodeKind::Directory) as u64,
        symlinks: count_of(inodes, NodeKind::Symlink) as u64,
        other: count_of(inodes, NodeKind::Other) as u64,
        nodes: tree.nodes.len() as u64,
        directory_entries: directories.entries@.len() as u64,
        hard_link_entries: tree.hard_links as u64,
    }
    &&& laid.warnings == ScanWarnings {
        directory_scan_errors: directories.warnings.directory_scan_errors,
        ..tree::tree_warnings(source, tree)
    }
}

/// Builds the tree of a scan and counts what it holds.
pub fn lay_out(inodes: Vec<InodeInfo>, directories: DirectoryScan) -> (result: Result<
    LaidOut,
    Ext4Error,
>)
    requires
        tree::inodes_ascending(inodes@),
        tree::ranges_fit(directories.entries@, directories.ranges@),
    ensures
        ({
            let source = source_of(inodes@, directories);
            let full = directories.names@.len() + 2 > u32::MAX;
            match result {
                Ok(laid) => laid_out(inodes@, directories, laid),
                Err(Ext4Error::Arena(ArenaError::NamesTooLarge)) => full,
                Err(Ext4Error::MissingRoot) => !full && source.root() is None,
                Err(Ext4Error::RootNotDirectory) => !full && source.root() is Some
                    && !source.has_root(),
                Err(error) => error == Ext4Error::Arena(ArenaError::TooManyNodes) && !full
                    && source.has_root() && tree::outgrows_ids(source),
            }
        }),
{
    let ghost source = source_of(inodes@, directories);
    let mut stats = count_inodes(&inodes);
    let DirectoryScan { names, entries, ranges, warnings } = directories;
    stats.directory_entries = entries.len() as u64;
    let mut names = names;
    let mut slash: Vec<u8> = Vec::new();
    slash.push(text::SLASH);
    let ghost before = names@;
    let root_name: NameRef = match names.push(slash.as_slice()) {
        Ok(root_name) => root_name,
        Err(error) => return Err(Ext4Error::Arena(error)),
    };
    assert(names@ =~= before + seq![text::SLASH, 0u8]);
    match tree::build_tree(inodes, entries, ranges, names, root_name) {
        Ok((arena, tree_warnings, hard_link_entries)) => {
            stats.hard_link_entries = hard_link_entries;
            stats.nodes = arena.nodes().len() as u64;
            let mut warnings = warnings;
            warnings.missing_inode_references = tree_warnings.missing_inode_references;
            warnings.nodes_without_parent = tree_warnings.nodes_without_parent;
            warnings.directory_aliases = tree_warnings.directory_aliases;
            Ok(LaidOut { arena, stats, warnings })
        },
        Err(error) => Err(error),
    }
}

/// `scan` is a laid out tree with its totals.
pub open spec fn totalled(laid: LaidOut, scan: FilesystemScan) -> bool {
    &&& scan.result.arena == laid.arena
    &&& scan.result.sound()
    &&& scan.stats == laid.stats
    &&& scan.warnings == laid.warnings
}

/// Takes the totals of a laid out tree.
pub fn finish_scan(laid: LaidOut, timings: ScanTimings, workers: usize) -> (result: Result<
    FilesystemScan,
    Ext4Error,
>)
    ensures
        match result {
            Ok(scan) => {
                &&& totalled(laid, scan)
                &&& scan.timings == timings
                &&& scan.workers == workers
            },
            Err(Ext4Error::Aggregate(AggregateError::ParentCycle)) => aggregate::parents_exist(
                laid.arena.node_list(),
            ) && !aggregate::rooted(laid.arena.node_list()),
            Err(error) => error matches Ext4Error::Aggregate(inner)
                && aggregate::first_invalid_parent(laid.arena.node_list(), inner),
        },
{
    match laid.finish(timings, workers) {
        Ok(scan) => Ok(scan),
        Err(error) => Err(Ext4Error::Aggregate(error)),
    }
}

/// Taking the totals of a tree that `lay_out` gave never fails.
pub proof fn law_totals_always_exist(inodes: Seq<InodeInfo>, directories: DirectoryScan, laid: LaidOut)
    requires
        tree::inodes_ascending(inodes),
        tree::ranges_fit(directories.entries@, directories.ranges@),
        source_of(inodes, directories).has_root(),
        !tree::outgrows_ids(source_of(inodes, directories)),
        laid.arena.node_list() == tree::tree_after(
            source_of(inodes, directories),
            laid.arena.node_list().len(),
        ).nodes,
    ensures
        aggregate::parents_exist(laid.arena.node_list()),
        aggregate::rooted(laid.arena.node_list()),
        forall|error: AggregateError|
            !#[trigger] aggregate::first_invalid_parent(laid.arena.node_list(), error),
{
    let source = source_of(inodes, directories);
    let tree = tree::tree_after(source, laid.arena.node_list().len());
    tree::law_tree_is_sound(source, tree);
}

/// An open ext4 filesystem.
#[derive(Debug)]
pub struct Ext4Filesystem {
    pub info: FilesystemInfo,
    pub first_inode: u32,
    pub inodes_per_group: u32,
    pub group_count: u32,
    /// How long opening took, in nanoseconds.
    pub open_time: u128,
}

impl Ext4Filesystem {
    /// Only block devices and regular files can hold a filesystem.
    pub fn check_source(device: &[u8], is_block_device: bool, is_file: bool) -> (result: Result<
        (),
        Ext4Error,
    >)
        ensures
            match result {
                Ok(()) => is_block_device || is_file,
                Err(error) => !is_block_device && !is_file && (error
                    matches Ext4Error::UnsupportedPath(path) && path@ == device@),
            },
    {
        if !is_block_device && !is_file {
            return Err(Ext4Error::UnsupportedPath(text::copy_bytes(device)));
        }
        Ok(())
    }

    /// The filesystem that a superblock describes, unless it is an older one than ext4.
    pub fn open_source(device: &[u8], superblock: Superblock, open_time: u128) -> (result: Result<
        Ext4Filesystem,
        Ext4Error,
    >)
        ensures
            match result {
                Ok(filesystem) => {
                    &&& superblock.is_ext4 != 0
                    &&& filesystem.info.device@ == device@
                    &&& filesystem.info.filesystem_type@ == "ext4"@
                    &&& filesystem.info.block_size == superblock.block_size
                    &&& filesystem.info.inode_count == superblock.inode_count
                    &&& filesystem.info.reported_allocated_inodes
                        == superblock.allocated_inode_count
                    &&& filesystem.info.feature_compat == superblock.feature_compat
                    &&& filesystem.info.feature_incompat == superblock.feature_incompat
                    &&& filesystem.info.feature_ro_compat == superblock.feature_ro_compat
                    &&& filesystem.info.size_accounting@ == "allocated blocks"@
                    &&& filesystem.first_inode == superblock.first_inode
                    &&& filesystem.inodes_per_group == superblock.inodes_per_group
                    &&& filesystem.group_count == superblock.group_count
                    &&& filesystem.open_time == open_time
                },
                Err(error) => superblock.is_ext4 == 0 && (error matches Ext4Error::NotExt4(path)
                    && path@ == device@),
            },
    {
        if superblock.is_ext4 == 0 {
            return Err(Ext4Error::NotExt4(text::copy_bytes(device)));
        }
        Ok(
            Ext4Filesystem {
                info: FilesystemInfo {
                    device: text::copy_bytes(device),
                    filesystem_type: "ext4",
                    block_size: superblock.block_size,
                    inode_count: superblock.inode_count,
                    reported_allocated_inodes: superblock.allocated_inode_count,
                    feature_compat: superblock.feature_compat,
                    feature_incompat: superblock.feature_incompat,
                    feature_ro_compat: superblock.feature_ro_compat,
                    size_accounting: "allocated blocks",
                },
                first_inode: superblock.first_inode,
                inodes_per_group: superblock.inodes_per_group,
                group_count: superblock.group_count,
                open_time,
            },
        )
    }

    /// What is known of the filesystem.
    pub fn info(&self) -> (info: &FilesystemInfo)
        ensures
            *info == self.info,
    {
        &self.info
    }
}

/// An inode is kept with all that is reported of it.
pub proof fn law_inodes_are_taken_as_reported(raw: RawInode)
    ensures
        info_of(raw).inode == raw.inode,
        info_of(raw).logical_size == raw.logical_size,
        info_of(raw).allocated_size == raw.allocated_size,
        info_of(raw).links == raw.links,
        info_of(raw).mtime == raw.mtime,
        info_of(raw).kind == NodeKind::File <==> raw.kind == 0,
        info_of(raw).kind == NodeKind::Directory <==> raw.kind == 1,
        info_of(raw).kind == NodeKind::Symlink <==> raw.kind == 2,
{
}

/// Everything but the reserved inodes is kept, and of those the root alone.
pub proof fn law_all_but_reserved_inodes_are_kept(batch: Seq<RawInode>, first_inode: u32, i: int)
    requires
        0 <= i < batch.len(),
        batch[i].inode == 2 || batch[i].inode >= first_inode,
    ensures
        kept(batch, first_inode).contains(info_of(batch[i])),
    decreases batch.len(),
{
    let before = kept(batch.drop_last(), first_inode);
    let now = kept(batch, first_inode);
    if i < batch.len() - 1 {
        law_all_but_reserved_inodes_are_kept(batch.drop_last(), first_inode, i);
        let k = choose|k: int| 0 <= k < before.len() && before[k] == info_of(batch[i]);
        assert(now[k] == before[k]);
    } else {
        assert(now[before.len() as int] == info_of(batch[i]));
    }
}

/// Nothing else is kept: every kept inode was reported, and is the root or not reserved. The order
/// is that of the batch.
pub proof fn law_kept_inodes_were_reported(batch: Seq<RawInode>, first_inode: u32, k: int)
    requires
        0 <= k < kept(batch, first_inode).len(),
    ensures
        exists|i: int|
            {
                &&& 0 <= i < batch.len()
                &&& info_of(#[trigger] batch[i]) == kept(batch, first_inode)[k]
                &&& batch[i].inode == 2 || batch[i].inode >= first_inode
            },
        kept(batch, first_inode).len() <= batch.len(),
    decreases batch.len(),
{
    let before = kept(batch.drop_last(), first_inode);
    if k < before.len() {
        law_kept_inodes_were_reported(batch.drop_last(), first_inode, k);
        let i = choose|i: int|
            {
                &&& 0 <= i < batch.drop_last().len()
                &&& info_of(#[trigger] batch.drop_last()[i]) == before[k]
                &&& batch.drop_last()[i].inode == 2 || batch.drop_last()[i].inode >= first_inode
            };
        assert(info_of(batch[i]) == before[k]);
    } else {
        assert(info_of(batch[batch.len() - 1]) == kept(batch, first_inode)[k]);
        if before.len() > 0 {
            law_kept_inodes_were_reported(batch.drop_last(), first_inode, 0);
        }
    }
    if before.len() > 0 {
        law_kept_inodes_were_reported(batch.drop_last(), first_inode, 0);
    }
}

/// A scan has at least one worker where there are groups, never more than asked for or than there
/// are groups, and no fewer than both allow.
pub proof fn law_workers_are_bounded(threads: usize, group_count: u32)
    ensures
        group_count > 0 ==> workers_for(threads, group_count) >= 1,
        workers_for(threads, group_count) <= group_count,
        threads > 0 ==> workers_for(threads, group_count) <= threads,
        threads > 0 ==> workers_for(threads, group_count) == threads || workers_for(
            threads,
            group_count,
        ) == group_count,
        threads == 0 ==> workers_for(threads, group_count) <= 1,
{
}

/// Exactly the directories among the inodes are read, in their order.
pub proof fn law_exactly_the_directories_are_read(inodes: Seq<InodeInfo>)
    ensures
        directory_numbers(inodes) == inodes.filter(
            |inode: InodeInfo| inode.kind == NodeKind::Directory,
        ).map_values(|inode: InodeInfo| inode.inode),
    decreases inodes.len(),
{
    reveal(Seq::filter);
    let keep = |inode: InodeInfo| inode.kind == NodeKind::Directory;
    let number = |inode: InodeInfo| inode.inode;
    if inodes.len() > 0 {
        law_exactly_the_directories_are_read(inodes.drop_last());
        let before = inodes.drop_last().filter(keep);
        if inodes.last().kind == NodeKind::Directory {
            assert(inodes.filter(keep) == before.push(inodes.last()));
            assert(inodes.filter(keep).map_values(number) =~= before.map_values(number).push(
                inodes.last().inode,
            ));
        } else {
            assert(inodes.filter(keep) == before);
        }
    } else {
        assert(inodes.filter(keep).map_values(number) =~= Seq::empty());
    }
}

/// The count of a kind is the number of inodes of that kind.
pub proof fn law_counts_count_inodes(inodes: Seq<InodeInfo>, kind: NodeKind)
    ensures
        count_of(inodes, kind) == inodes.filter(|inode: InodeInfo| inode.kind == kind).len(),
    decreases inodes.len(),
{
    reveal(Seq::filter);
    if inodes.len() > 0 {
        law_counts_count_inodes(inodes.drop_last(), kind);
    }
}

/// Reading a directory adds its entries one for one behind those that are there: entry `i` names
/// child `i` in the directory, by its own bytes of the batch.
pub proof fn law_entries_are_collected_as_read(
    start: Collected,
    parent: u64,
    children: Seq<u64>,
    offsets: Seq<u32>,
    lengths: Seq<u16>,
    names: Seq<u8>,
    count: nat,
    i: int,
)
    requires
        batch_located(children, offsets, lengths, names),
        0 <= i < count <= children.len(),
        collected(start, parent, children, offsets, lengths, names, count).names.len()
            <= u32::MAX,
    ensures
        ({
            let after = collected(start, parent, children, offsets, lengths, names, count);
            let entry = after.entries[start.entries.len() + i];
            &&& after.entries.len() == start.entries.len() + count
            &&& start.entries.is_prefix_of(after.entries)
            &&& start.names.is_prefix_of(after.names)
            &&& entry.parent_inode == parent
            &&& entry.child_inode == children[i]
            &&& arena::name_at(after.names, entry.name) == names.subrange(
                offsets[i] as int,
                offsets[i] + lengths[i],
            )
        }),
    decreases count,
{
    let before = collected(start, parent, children, offsets, lengths, names, (count - 1) as nat);
    let after = collected(start, parent, children, offsets, lengths, names, count);
    let last = count - 1;
    let at = start.entries.len() + i;
    assert(offsets[last] + lengths[last] <= names.len());
    lemma_collecting_keeps(start, parent, children, offsets, lengths, names, (count - 1) as nat);
    assert(start.entries =~= after.entries.subrange(0, start.entries.len() as int));
    assert(start.names =~= after.names.subrange(0, start.names.len() as int));
    if i < last {
        law_entries_are_collected_as_read(
            start,
            parent,
            children,
            offsets,
            lengths,
            names,
            (count - 1) as nat,
            i,
        );
        let entry = before.entries[at];
        assert(after.entries[at] == entry);
        lemma_collected_name_inside(
            start,
            parent,
            children,
            offsets,
            lengths,
            names,
            (count - 1) as nat,
            i,
        );
        assert(arena::name_at(after.names, entry.name) =~= arena::name_at(before.names, entry.name));
    } else {
        let entry = after.entries[at];
        assert(arena::name_at(after.names, entry.name) =~= names.subrange(
            offsets[i] as int,
            offsets[i] + lengths[i],
        ));
    }
}

proof fn lemma_collecting_keeps(
    start: Collected,
    parent: u64,
    children: Seq<u64>,
    offsets: Seq<u32>,
    lengths: Seq<u16>,
    names: Seq<u8>,
    count: nat,
)
    requires
        batch_located(children, offsets, lengths, names),
        count <= children.len(),
    ensures
        ({
            let after = collected(start, parent, children, offsets, lengths, names, count);
            &&& after.entries.len() == start.entries.len() + count
            &&& start.entries.is_prefix_of(after.entries)
            &&& start.names.is_prefix_of(after.names)
        }),
    decreases count,
{
    let after = collected(start, parent, children, offsets, lengths, names, count);
    if count > 0 {
        lemma_collecting_keeps(
            start,
            parent,
            children,
            offsets,
            lengths,
            names,
            (count - 1) as nat,
        );
    }
    assert(start.entries =~= after.entries.subrange(0, start.entries.len() as int));
    assert(start.names =~= after.names.subrange(0, start.names.len() as int));
}

proof fn lemma_collected_name_inside(
    start: Collected,
    parent: u64,
    children: Seq<u64>,
    offsets: Seq<u32>,
    lengths: Seq<u16>,
    names: Seq<u8>,
    count: nat,
    i: int,
)
    requires
        batch_located(children, offsets, lengths, names),
        0 <= i < count <= children.len(),
        collected(start, parent, children, offsets, lengths, names, count).names.len()
            <= u32::MAX,
    ensures
        ({
            let after = collected(start, parent, children, offsets, lengths, names, count);
            arena::name_stored(after.names, after.entries[start.entries.len() + i].name)
        }),
    decreases count,
{
    let last = count - 1;
    assert(offsets[last] + lengths[last] <= names.len());
    lemma_collecting_keeps(start, parent, children, offsets, lengths, names, last as nat);
    if i < last {
        lemma_collected_name_inside(
            start,
            parent,
            children,
            offsets,
            lengths,
            names,
            last as nat,
            i,
        );
    }
}

/// The statistics of a scan count the inodes by kind, the nodes, the entries and the further hard
/// links, and the warnings keep the directories that could not be read.
pub proof fn law_statistics_count_the_scan(
    inodes: Seq<InodeInfo>,
    directories: DirectoryScan,
    laid: LaidOut,
)
    requires
        laid_out(inodes, directories, laid),
        tree::inodes_ascending(inodes),
        inodes.len() <= u64::MAX,
        directories.entries@.len() <= u64::MAX,
    ensures
        laid.stats.allocated_inodes == inodes.len(),
        laid.stats.files == inodes.filter(
            |inode: InodeInfo| inode.kind == NodeKind::File,
        ).len(),
        laid.stats.directories == inodes.filter(
            |inode: InodeInfo| inode.kind == NodeKind::Directory,
        ).len(),
        laid.stats.symlinks == inodes.filter(
            |inode: InodeInfo| inode.kind == NodeKind::Symlink,
        ).len(),
        laid.stats.other == inodes.filter(|inode: InodeInfo| inode.kind == NodeKind::Other).len(),
        laid.stats.nodes == laid.arena.node_list().len(),
        laid.stats.directory_entries == directories.entries@.len(),
        laid.warnings.directory_scan_errors == directories.warnings.directory_scan_errors,
        laid.warnings.missing_inode_references == directories.entries@.filter(
            tree::lacks_inode(inodes),
        ).len(),
        laid.stats.hard_link_entries + laid.stats.allocated_inodes
            == laid.arena.node_list().len() + laid.warnings.nodes_without_parent,
{
    let source = source_of(inodes, directories);
    let tree = tree::tree_after(source, laid.arena.node_list().len());
    lemma_counts_are_bounded(inodes);
    law_counts_count_inodes(inodes, NodeKind::File);
    law_counts_count_inodes(inodes, NodeKind::Directory);
    law_counts_count_inodes(inodes, NodeKind::Symlink);
    law_counts_count_inodes(inodes, NodeKind::Other);
    tree::law_nodes_are_inodes_and_links(source, laid.arena.node_list().len());
    tree::law_first_node_owns_allocation(source, laid.arena.node_list().len());
    assert(tree.nodes.len() <= u32::MAX + 1);
    tree::law_warnings_count_what_is_missing(
        source,
        tree::Tree { aliases: 0, ..tree },
    );
}

/// A scan keeps the names that were read, and calls its root `/`.
pub proof fn law_names_of_merged_scans_stay(directories: DirectoryScan, laid: LaidOut, inodes: Seq<InodeInfo>)
    requires
        laid_out(inodes, directories, laid),
    ensures
        directories.names@.is_prefix_of(laid.arena.name_bytes()),
        arena::name_at(laid.arena.name_bytes(), laid.arena.node_list()[0].name) == seq![0x2fu8],
{
    let bytes = laid.arena.name_bytes();
    assert(directories.names@ =~= bytes.subrange(0, directories.names@.len() as int));
    let source = source_of(inodes, directories);
    tree::lemma_first_name(source, laid.arena.node_list().len());
    assert(arena::name_at(bytes, source.root_name) =~= seq![0x2fu8]);
}

/// The root and what is not reserved is kept, one for one and in the order of the batch.
pub proof fn law_kept_inodes_keep_their_order(batch: Seq<RawInode>, first_inode: u32)
    ensures
        kept(batch, first_inode) == batch.filter(
            |raw: RawInode| raw.inode == 2 || raw.inode >= first_inode,
        ).map_values(|raw: RawInode| info_of(raw)),
    decreases batch.len(),
{
    reveal(Seq::filter);
    let keep = |raw: RawInode| raw.inode == 2 || raw.inode >= first_inode;
    let info = |raw: RawInode| info_of(raw);
    if batch.len() > 0 {
        law_kept_inodes_keep_their_order(batch.drop_last(), first_inode);
        let before = batch.drop_last().filter(keep);
        if keep(batch.last()) {
            assert(batch.filter(keep) == before.push(batch.last()));
            assert(batch.filter(keep).map_values(info) =~= before.map_values(info).push(
                info_of(batch.last()),
            ));
        } else {
            assert(batch.filter(keep) == before);
        }
    } else {
        assert(batch.filter(keep).map_values(info) =~= Seq::empty());
    }
}

} // verus!
