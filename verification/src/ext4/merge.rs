//! Merging what the directory readers of an ext4 scan have collected.

use vstd::prelude::*;

use crate::aggregate;
use crate::arena::{ArenaError, NameArena};
use crate::ext4::error::Ext4Error;
use crate::ext4::tree;
use crate::ext4::tree::{DirRange, DirectoryEntry};
use crate::node::NameRef;
use crate::order;
use crate::order::Precedence;
use crate::scan::ScanWarnings;

verus! {

/// What one directory reader has collected.
#[derive(Debug)]
pub struct DirWork {
    pub entries: Vec<DirectoryEntry>,
    pub names: NameArena,
    pub warnings: ScanWarnings,
}

/// The directories of a filesystem.
#[derive(Debug)]
pub struct DirectoryScan {
    pub names: NameArena,
    pub entries: Vec<DirectoryEntry>,
    pub ranges: Vec<DirRange>,
    pub warnings: ScanWarnings,
}

impl Default for DirWork {
    fn default() -> (work: DirWork)
        ensures
            work.entries@ == Seq::<DirectoryEntry>::empty(),
            work.names@ == Seq::<u8>::empty(),
            work.warnings.sum() == 0,
    {
        DirWork {
            entries: Vec::new(),
            names: NameArena::default(),
            warnings: ScanWarnings::default(),
        }
    }
}

/// The bytes of the first `count` chunks' names, back to back.
pub open spec fn gathered_names(chunks: Seq<DirWork>, count: nat) -> Seq<u8>
    decreases count,
{
    if count == 0 {
        Seq::empty()
    } else {
        gathered_names(chunks, (count - 1) as nat) + chunks[count - 1].names@
    }
}

/// An entry whose name has moved by `offset`.
pub open spec fn moved(entry: DirectoryEntry, offset: int) -> DirectoryEntry {
    DirectoryEntry {
        name: NameRef { offset: (entry.name.offset + offset) as u32, len: entry.name.len },
        ..entry
    }
}

/// Entries whose names have moved by `offset`.
pub open spec fn all_moved(entries: Seq<DirectoryEntry>, offset: int) -> Seq<DirectoryEntry> {
    Seq::new(entries.len(), |i: int| moved(entries[i], offset))
}

/// The entries of the first `count` chunks, chunk by chunk, with their names where the merged
/// arena has them.
pub open spec fn gathered(chunks: Seq<DirWork>, count: nat) -> Seq<DirectoryEntry>
    decreases count,
{
    if count == 0 {
        Seq::empty()
    } else {
        let last = (count - 1) as nat;
        gathered(chunks, last) + all_moved(
            chunks[count - 1].entries@,
            gathered_names(chunks, last).len() as int,
        )
    }
}

/// Sum of the directory errors of the first `count` chunks.
pub open spec fn gathered_errors(chunks: Seq<DirWork>, count: nat) -> nat
    decreases count,
{
    if count == 0 {
        0
    } else {
        gathered_errors(chunks, (count - 1) as nat) + chunks[count - 1].warnings.directory_scan_errors
            as nat
    }
}

/// The names of chunk `c` do not fit behind those of the chunks before it.
pub open spec fn overflows(chunks: Seq<DirWork>, c: int) -> bool {
    ||| gathered_names(chunks, (c + 1) as nat).len() > u32::MAX
    ||| exists|i: int|
        0 <= i < chunks[c].entries@.len() && (#[trigger] chunks[c].entries@[i]).name.offset
            + gathered_names(chunks, c as nat).len() > u32::MAX
}

/// The entries of one directory, in their order.
pub open spec fn of_directory(entries: Seq<DirectoryEntry>, directory: u64) -> Seq<DirectoryEntry> {
    entries.filter(|entry: DirectoryEntry| entry.parent_inode == directory)
}

/// The ranges are not empty and cover the entries without a gap.
pub open spec fn ranges_tile(entries: Seq<DirectoryEntry>, ranges: Seq<DirRange>) -> bool {
    &&& forall|i: int| 0 <= i < ranges.len() ==> (#[trigger] ranges[i]).start < ranges[i].end
    &&& ranges.len() > 0 ==> ranges[0].start == 0
    &&& forall|i: int, j: int|
        0 <= i < ranges.len() && j == i + 1 && j < ranges.len() ==> (#[trigger] ranges[i]).end == (
        #[trigger] ranges[j]).start
    &&& entries.len() == if ranges.len() == 0 {
        0
    } else {
        ranges.last().end as nat
    }
}

/// Positions by parent directory, those of one directory in their order.
struct ByParent<'a> {
    entries: &'a Vec<DirectoryEntry>,
}

impl<'a> Precedence for ByParent<'a> {
    closed spec fn comparable(&self) -> bool {
        true
    }

    closed spec fn size(&self) -> nat {
        self.entries@.len()
    }

    closed spec fn before(&self, a: int, b: int) -> bool {
        let left = self.entries@[a].parent_inode;
        let right = self.entries@[b].parent_inode;
        left < right || (left == right && a < b)
    }

    proof fn before_is_total(&self, a: int, b: int) {
    }

    proof fn before_is_transitive(&self, a: int, b: int, c: int) {
    }

    fn is_before(&self, a: usize, b: usize) -> (first: bool) {
        let left: u64 = self.entries[a].parent_inode;
        let right: u64 = self.entries[b].parent_inode;
        left < right || (left == right && a < b)
    }
}

/// The chunks' entries and names in one list and one arena.
fn gather(chunks: Vec<DirWork>) -> (result: Result<
    (NameArena, Vec<DirectoryEntry>, u64),
    ArenaError,
>)
    ensures
        match result {
            Ok((names, entries, errors)) => {
                &&& forall|c: int| 0 <= c < chunks.len() ==> !#[trigger] overflows(chunks@, c)
                &&& names@ == gathered_names(chunks@, chunks@.len())
                &&& entries@ == gathered(chunks@, chunks@.len())
                &&& errors == aggregate::capped(gathered_errors(chunks@, chunks@.len()))
            },
            Err(error) => {
                &&& error == ArenaError::NamesTooLarge
                &&& exists|c: int| 0 <= c < chunks.len() && #[trigger] overflows(chunks@, c)
            },
        },
{
    let mut names = NameArena::default();
    let mut entries: Vec<DirectoryEntry> = Vec::new();
    let mut errors: u64 = 0;
    let count: usize = chunks.len();
    let ghost all = chunks@;
    let mut rest = chunks;
    let mut c: usize = 0;
    while c < count
        invariant
            c <= count,
            all == chunks@,
            count == all.len(),
            rest.len() == count - c,
            forall|k: int| 0 <= k < rest.len() ==> #[trigger] rest@[k] == all[c + k],
            names@ == gathered_names(all, c as nat),
            entries@ == gathered(all, c as nat),
            errors == aggregate::capped(gathered_errors(all, c as nat)),
            forall|k: int| 0 <= k < c ==> !#[trigger] overflows(all, k),
        decreases count - c,
    {
        let chunk = rest.remove(0);
        assert(chunk == all[c as int]);
        let ghost before = names@;
        let DirWork { entries: found, names: more, warnings } = chunk;
        let offset: u32 = match names.append(more) {
            Ok(offset) => offset,
            Err(error) => {
                assert(overflows(all, c as int));
                return Err(error);
            },
        };
        let ghost early = entries@;
        let ghost shifted = all_moved(found@, offset as int);
        let mut i: usize = 0;
        proof {
            assert(early =~= early + shifted.take(0));
        }
        while i < found.len()
            invariant
                i <= found.len(),
                all == chunks@,
                0 <= c < count == all.len(),
                found@ == all[c as int].entries@,
                offset == gathered_names(all, c as nat).len(),
                shifted == all_moved(found@, offset as int),
                entries@ == early + shifted.take(i as int),
                forall|k: int|
                    0 <= k < i ==> (#[trigger] found@[k]).name.offset + offset <= u32::MAX,
            decreases found.len() - i,
        {
            let entry = found[i];
            let position: u32 = match entry.name.offset.checked_add(offset) {
                Some(position) => position,
                None => {
                    assert(all[c as int].entries@[i as int].name.offset + offset > u32::MAX);
                    assert(overflows(all, c as int));
                    return Err(ArenaError::NamesTooLarge);
                },
            };
            entries.push(
                DirectoryEntry {
                    parent_inode: entry.parent_inode,
                    child_inode: entry.child_inode,
                    name: NameRef { offset: position, len: entry.name.len },
                },
            );
            i = i + 1;
            assert(entries@ =~= early + shifted.take(i as int));
        }
        assert(shifted.take(found.len() as int) =~= shifted);
        errors = errors.saturating_add(warnings.directory_scan_errors);
        proof {
            assert(gathered_names(all, (c + 1) as nat) == before + more@);
            assert(!overflows(all, c as int)) by {
                assert forall|k: int| 0 <= k < all[c as int].entries@.len() implies (
                #[trigger] all[c as int].entries@[k]).name.offset + gathered_names(
                    all,
                    c as nat,
                ).len() <= u32::MAX by {
                    assert(found@[k].name.offset + offset <= u32::MAX);
                }
            }
        }
        c = c + 1;
    }
    Ok((names, entries, errors))
}

/// The entries stably sorted by parent directory.
fn sort_by_parent(entries: &Vec<DirectoryEntry>) -> (sorted: (Vec<DirectoryEntry>, Ghost<Seq<usize>>))
    ensures
        order::lists_range(sorted.1@, 0, entries@.len() as int),
        sorted.0.len() == entries.len(),
        forall|k: int|
            0 <= k < entries.len() ==> #[trigger] sorted.0@[k] == entries@[sorted.1@[k] as int],
        forall|a: int, b: int|
            0 <= a < b < entries.len() ==> {
                let left = (#[trigger] sorted.0@[a]).parent_inode;
                let right = (#[trigger] sorted.0@[b]).parent_inode;
                left < right || (left == right && sorted.1@[a] < sorted.1@[b])
            },
{
    let order = ByParent { entries };
    let places = order::sorted_positions(&order, entries.len());
    let mut sorted: Vec<DirectoryEntry> = Vec::with_capacity(places.len());
    let mut k: usize = 0;
    while k < places.len()
        invariant
            k <= places.len(),
            places.len() == entries.len(),
            sorted.len() == k,
            order::lists_range(places@, 0, entries@.len() as int),
            forall|m: int| 0 <= m < k ==> #[trigger] sorted@[m] == entries@[places@[m] as int],
        decreases places.len() - k,
    {
        assert(0 <= places@[k as int] < entries.len());
        sorted.push(entries[places[k]]);
        k = k + 1;
    }
    proof {
        assert forall|a: int, b: int| 0 <= a < b < entries.len() implies {
            let left = (#[trigger] sorted@[a]).parent_inode;
            let right = (#[trigger] sorted@[b]).parent_inode;
            left < right || (left == right && places@[a] < places@[b])
        } by {
            assert(order.before(places@[a] as int, places@[b] as int));
        }
    }
    (sorted, Ghost(places@))
}

/// The runs of entries with the same parent.
fn find_ranges(entries: &Vec<DirectoryEntry>) -> (ranges: Vec<DirRange>)
    requires
        forall|a: int, b: int|
            0 <= a < b < entries.len() ==> (#[trigger] entries@[a]).parent_inode <= (
            #[trigger] entries@[b]).parent_inode,
    ensures
        tree::ranges_fit(entries@, ranges@),
        ranges_tile(entries@, ranges@),
{
    let mut ranges: Vec<DirRange> = Vec::new();
    let mut index: usize = 0;
    while index < entries.len()
        invariant
            index <= entries.len(),
            forall|a: int, b: int|
                0 <= a < b < entries.len() ==> (#[trigger] entries@[a]).parent_inode <= (
                #[trigger] entries@[b]).parent_inode,
            tree::ranges_fit(entries@, ranges@),
            ranges_tile(entries@.take(index as int), ranges@),
            forall|i: int, q: int|
                0 <= i < ranges.len() && index <= q < entries.len() ==> (
                #[trigger] ranges@[i]).parent < (#[trigger] entries@[q]).parent_inode,
        decreases entries.len() - index,
    {
        let parent: u64 = entries[index].parent_inode;
        let mut end: usize = index + 1;
        while end < entries.len() && entries[end].parent_inode == parent
            invariant
                index < end <= entries.len(),
                parent == entries@[index as int].parent_inode,
                forall|q: int| index <= q < end ==> (#[trigger] entries@[q]).parent_inode == parent,
            decreases entries.len() - end,
        {
            end = end + 1;
        }
        let ghost before = ranges@;
        ranges.push(DirRange { parent, start: index, end });
        proof {
            let last = before.len() as int;
            assert forall|i: int, j: int| 0 <= i < j < ranges.len() implies (
            #[trigger] ranges@[i]).parent < (#[trigger] ranges@[j]).parent by {
                assert(ranges@[i] == before[i]);
                if j == last {
                    assert(before[i].parent < entries@[index as int].parent_inode);
                } else {
                    assert(ranges@[j] == before[j]);
                }
            }
            assert forall|i: int, q: int| 0 <= i < ranges.len() && end <= q < entries.len() implies (
            #[trigger] ranges@[i]).parent < (#[trigger] entries@[q]).parent_inode by {
                assert(entries@[index as int].parent_inode <= entries@[q].parent_inode);
                assert(entries@[end as int].parent_inode <= entries@[q].parent_inode || q == end);
                if i < last {
                    assert(ranges@[i] == before[i]);
                }
            }
        }
        index = end;
    }
    assert(entries@.take(index as int) =~= entries@);
    ranges
}

/// In a sorted list the range of a directory holds its entries in their given order.
proof fn lemma_range_is_directory(
    input: Seq<DirectoryEntry>,
    sorted: Seq<DirectoryEntry>,
    places: Seq<usize>,
    ranges: Seq<DirRange>,
    directory: u64,
)
    requires
        order::lists_range(places, 0, input.len() as int),
        sorted.len() == input.len(),
        input.len() <= usize::MAX,
        forall|k: int| 0 <= k < input.len() ==> #[trigger] sorted[k] == input[places[k] as int],
        forall|a: int, b: int|
            0 <= a < b < input.len() ==> {
                let left = (#[trigger] sorted[a]).parent_inode;
                let right = (#[trigger] sorted[b]).parent_inode;
                left < right || (left == right && places[a] < places[b])
            },
        tree::ranges_fit(sorted, ranges),
        ranges_tile(sorted, ranges),
    ensures
        tree::listing(sorted, ranges, directory) == of_directory(input, directory),
{
    let keep = |entry: DirectoryEntry| entry.parent_inode == directory;
    match tree::range_of(ranges, directory) {
        Some(i) => {
            let start = ranges[i].start as int;
            let end = ranges[i].end as int;
            let positions = Seq::new((end - start) as nat, |a: int| places[start + a] as int);
            assert forall|a: int, b: int| 0 <= a < b < positions.len() implies
                #[trigger] positions[a] < #[trigger] positions[b] by {
                assert(sorted[start + a].parent_inode == directory);
                assert(sorted[start + b].parent_inode == directory);
            }
            assert forall|a: int| 0 <= a < positions.len() implies 0 <= #[trigger] positions[a]
                < input.len() && keep(input[positions[a]]) by {
                assert(sorted[start + a].parent_inode == directory);
            }
            assert forall|q: int| 0 <= q < input.len() && keep(input[q]) implies #[trigger]
                positions.contains(q) by {
                assert(places.contains(q as usize));
                let k = choose|k: int| 0 <= k < places.len() && places[k] == q as usize;
                assert(sorted[k].parent_inode == directory);
                let r = lemma_tiled(sorted, ranges, k);
                assert(ranges[r].parent == directory);
                assert(r == i);
                assert(positions[k - start] == q);
            }
            order::lemma_filter_by_positions(input, keep, positions);
            assert(tree::listing(sorted, ranges, directory) =~= Seq::new(
                positions.len(),
                |a: int| input[positions[a]],
            ));
        },
        None => {
            let positions = Seq::<int>::empty();
            assert forall|q: int| 0 <= q < input.len() && keep(input[q]) implies #[trigger]
                positions.contains(q) by {
                assert(places.contains(q as usize));
                let k = choose|k: int| 0 <= k < places.len() && places[k] == q as usize;
                assert(sorted[k].parent_inode == directory);
                let r = lemma_tiled(sorted, ranges, k);
                assert(ranges[r].parent == directory);
            }
            order::lemma_filter_by_positions(input, keep, positions);
            assert(of_directory(input, directory) =~= Seq::empty());
        },
    }
}

/// The range that covers a position.
pub(crate) proof fn lemma_tiled(entries: Seq<DirectoryEntry>, ranges: Seq<DirRange>, k: int) -> (r: int)
    requires
        ranges_tile(entries, ranges),
        0 <= k < entries.len(),
    ensures
        0 <= r < ranges.len(),
        ranges[r].start <= k < ranges[r].end,
    decreases ranges.len(),
{
    let last = ranges.len() - 1;
    if k >= ranges[last].start {
        last
    } else {
        let fewer = ranges.drop_last();
        let shorter = entries.take(ranges[last].start as int);
        assert(ranges[last].start < ranges[last].end);
        if fewer.len() > 0 {
            assert(ranges[last - 1].end == ranges[last].start);
        }
        lemma_tiled(shorter, fewer, k)
    }
}

/// What merging chunks gives.
pub open spec fn merged(chunks: Seq<DirWork>, scan: DirectoryScan) -> bool {
    &&& scan.names@ == gathered_names(chunks, chunks.len())
    &&& scan.entries@.len() == gathered(chunks, chunks.len()).len()
    &&& tree::ranges_fit(scan.entries@, scan.ranges@)
    &&& ranges_tile(scan.entries@, scan.ranges@)
    &&& forall|directory: u64| #[trigger]
        tree::listing(scan.entries@, scan.ranges@, directory) == of_directory(
            gathered(chunks, chunks.len()),
            directory,
        )
    &&& scan.warnings == ScanWarnings {
        missing_inode_references: 0,
        nodes_without_parent: 0,
        directory_scan_errors: aggregate::capped(gathered_errors(chunks, chunks.len())),
        directory_aliases: 0,
    }
}

/// Joins the chunks, sorts their entries by directory and keeps the order inside each directory.
pub fn merge_dir_chunks(chunks: Vec<DirWork>) -> (result: Result<DirectoryScan, Ext4Error>)
    ensures
        match result {
            Ok(scan) => {
                &&& forall|c: int| 0 <= c < chunks.len() ==> !#[trigger] overflows(chunks@, c)
                &&& merged(chunks@, scan)
            },
            Err(error) => {
                &&& error == Ext4Error::Arena(ArenaError::NamesTooLarge)
                &&& exists|c: int| 0 <= c < chunks.len() && #[trigger] overflows(chunks@, c)
            },
        },
{
    let (names, unsorted, errors) = match gather(chunks) {
        Ok(all) => all,
        Err(error) => return Err(Ext4Error::Arena(error)),
    };
    let (entries, places) = sort_by_parent(&unsorted);
    let ranges = find_ranges(&entries);
    proof {
        assert(unsorted.len() <= usize::MAX);
        assert forall|directory: u64| #[trigger]
            tree::listing(entries@, ranges@, directory) == of_directory(unsorted@, directory) by {
            lemma_range_is_directory(unsorted@, entries@, places@, ranges@, directory);
        }
    }
    let mut warnings = ScanWarnings::default();
    warnings.directory_scan_errors = errors;
    Ok(DirectoryScan { names, entries, ranges, warnings })
}

} // verus!
