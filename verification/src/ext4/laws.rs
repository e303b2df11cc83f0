//! What holds of ext4 scans as a whole.

use vstd::prelude::*;

use crate::aggregate;
use crate::aggregate::Totals;
use crate::arena;
use crate::ext4::merge;
use crate::ext4::merge::{DirWork, DirectoryScan};
use crate::ext4::scan;
use crate::ext4::scan::Collected;
use crate::ext4::tree;
use crate::ext4::tree::{DirectoryEntry, InodeInfo, Tree, TreeSource};
use crate::node::{NameRef, Node};
use crate::scan::{totals_of_tree, FilesystemScan, LaidOut, ScanResult};
use crate::text;

verus! {

/// Two entries name the same inode by the same bytes.
pub open spec fn entry_alike(
    bytes: Seq<u8>,
    entry: DirectoryEntry,
    other_bytes: Seq<u8>,
    other: DirectoryEntry,
) -> bool {
    &&& entry.child_inode == other.child_inode
    &&& arena::name_at(bytes, entry.name) == arena::name_at(other_bytes, other.name)
}

/// Two lists of entries are alike, entry by entry.
pub open spec fn entries_alike(
    bytes: Seq<u8>,
    entries: Seq<DirectoryEntry>,
    other_bytes: Seq<u8>,
    others: Seq<DirectoryEntry>,
) -> bool {
    &&& entries.len() == others.len()
    &&& forall|i: int|
        0 <= i < entries.len() ==> entry_alike(
            bytes,
            #[trigger] entries[i],
            other_bytes,
            #[trigger] others[i],
        )
}

/// Two nodes differ at most in where their equal names are stored.
pub open spec fn node_alike(bytes: Seq<u8>, node: Node, other_bytes: Seq<u8>, other: Node) -> bool {
    &&& node == Node { name: node.name, ..other }
    &&& arena::name_at(bytes, node.name) == arena::name_at(other_bytes, other.name)
}

/// Two trees differ at most in where their names are stored.
pub open spec fn tree_alike(bytes: Seq<u8>, tree: Tree, other_bytes: Seq<u8>, other: Tree) -> bool {
    &&& tree.nodes.len() == other.nodes.len()
    &&& forall|i: int|
        0 <= i < tree.nodes.len() ==> node_alike(
            bytes,
            #[trigger] tree.nodes[i],
            other_bytes,
            #[trigger] other.nodes[i],
        )
    &&& tree.placed == other.placed
    &&& tree.aliases == other.aliases
    &&& tree.hard_links == other.hard_links
}

proof fn lemma_attach_alike(
    inodes: Seq<InodeInfo>,
    bytes: Seq<u8>,
    tree: Tree,
    entries: Seq<DirectoryEntry>,
    other_bytes: Seq<u8>,
    other: Tree,
    others: Seq<DirectoryEntry>,
    parent: int,
)
    requires
        tree_alike(bytes, tree, other_bytes, other),
        entries_alike(bytes, entries, other_bytes, others),
    ensures
        tree_alike(
            bytes,
            tree::attach_all(inodes, tree, entries, parent),
            other_bytes,
            tree::attach_all(inodes, other, others, parent),
        ),
    decreases entries.len(),
{
    if entries.len() > 0 {
        lemma_attach_alike(
            inodes,
            bytes,
            tree,
            entries.drop_last(),
            other_bytes,
            other,
            others.drop_last(),
            parent,
        );
        assert(entry_alike(bytes, entries.last(), other_bytes, others.last()));
    }
}

proof fn lemma_after_alike(
    one: TreeSource,
    bytes: Seq<u8>,
    other: TreeSource,
    other_bytes: Seq<u8>,
    count: nat,
)
    requires
        one.inodes == other.inodes,
        arena::name_at(bytes, one.root_name) == arena::name_at(other_bytes, other.root_name),
        forall|directory: u64|
            entries_alike(
                bytes,
                #[trigger] tree::listing(one.entries, one.ranges, directory),
                other_bytes,
                tree::listing(other.entries, other.ranges, directory),
            ),
    ensures
        tree_alike(
            bytes,
            tree::tree_after(one, count),
            other_bytes,
            tree::tree_after(other, count),
        ),
    decreases count,
{
    if count > 0 {
        lemma_after_alike(one, bytes, other, other_bytes, (count - 1) as nat);
        let left = tree::tree_after(one, (count - 1) as nat);
        let right = tree::tree_after(other, (count - 1) as nat);
        if count - 1 < left.nodes.len() {
            assert(node_alike(bytes, left.nodes[count - 1], other_bytes, right.nodes[count - 1]));
            let directory = left.nodes[count - 1].inode;
            lemma_attach_alike(
                one.inodes,
                bytes,
                left,
                tree::listing(one.entries, one.ranges, directory),
                other_bytes,
                right,
                tree::listing(other.entries, other.ranges, directory),
                count - 1,
            );
        }
    }
}

/// However the directories were shared out among readers: where they found the same entries in
/// every directory, the trees differ in nothing but where names are stored. No schedule changes
/// the shape of the tree or which of several hard links owns the allocation.
pub proof fn law_schedule_does_not_matter(
    inodes: Seq<InodeInfo>,
    chunks: Seq<DirWork>,
    scan: DirectoryScan,
    root_name: NameRef,
    bytes: Seq<u8>,
    tree: Tree,
    other_chunks: Seq<DirWork>,
    other_scan: DirectoryScan,
    other_root_name: NameRef,
    other_bytes: Seq<u8>,
    other: Tree,
)
    requires
        merge::merged(chunks, scan),
        merge::merged(other_chunks, other_scan),
        arena::name_at(bytes, root_name) == arena::name_at(other_bytes, other_root_name),
        forall|directory: u64|
            entries_alike(
                bytes,
                #[trigger] merge::of_directory(merge::gathered(chunks, chunks.len()), directory),
                other_bytes,
                merge::of_directory(
                    merge::gathered(other_chunks, other_chunks.len()),
                    directory,
                ),
            ),
        tree::complete(
            TreeSource {
                inodes,
                entries: scan.entries@,
                ranges: scan.ranges@,
                root_name,
            },
            tree,
        ),
        tree::complete(
            TreeSource {
                inodes,
                entries: other_scan.entries@,
                ranges: other_scan.ranges@,
                root_name: other_root_name,
            },
            other,
        ),
    ensures
        tree_alike(bytes, tree, other_bytes, other),
{
    let one = TreeSource {
        inodes,
        entries: scan.entries@,
        ranges: scan.ranges@,
        root_name,
    };
    let two = TreeSource {
        inodes,
        entries: other_scan.entries@,
        ranges: other_scan.ranges@,
        root_name: other_root_name,
    };
    assert forall|directory: u64|
        entries_alike(
            bytes,
            #[trigger] tree::listing(one.entries, one.ranges, directory),
            other_bytes,
            tree::listing(two.entries, two.ranges, directory),
        ) by {
        assert(tree::listing(two.entries, two.ranges, directory) == merge::of_directory(
            merge::gathered(other_chunks, other_chunks.len()),
            directory,
        ));
    }
    lemma_after_alike(one, bytes, two, other_bytes, tree.nodes.len());
    lemma_after_alike(one, bytes, two, other_bytes, other.nodes.len());
    let there = tree::tree_after(two, tree.nodes.len());
    assert(tree::complete(two, there));
    tree::law_tree_is_unique(two, there, other);
}

/// The names of all entries lie inside an arena of these bytes.
pub open spec fn entry_names_stored(entries: Seq<DirectoryEntry>, bytes: Seq<u8>) -> bool {
    forall|q: int| 0 <= q < entries.len() ==> arena::name_stored(bytes, (#[trigger] entries[q]).name)
}

proof fn lemma_attach_stored(
    inodes: Seq<InodeInfo>,
    tree: Tree,
    entries: Seq<DirectoryEntry>,
    parent: int,
    bytes: Seq<u8>,
)
    requires
        arena::names_stored(tree.nodes, bytes),
        entry_names_stored(entries, bytes),
    ensures
        arena::names_stored(tree::attach_all(inodes, tree, entries, parent).nodes, bytes),
    decreases entries.len(),
{
    if entries.len() > 0 {
        lemma_attach_stored(inodes, tree, entries.drop_last(), parent, bytes);
        assert(arena::name_stored(bytes, entries.last().name));
    }
}

/// Where the names of all entries and of the root are stored, so is the name of every node.
pub proof fn law_node_names_are_stored(source: TreeSource, count: nat, bytes: Seq<u8>)
    requires
        source.fit(),
        entry_names_stored(source.entries, bytes),
        arena::name_stored(bytes, source.root_name),
    ensures
        arena::names_stored(tree::tree_after(source, count).nodes, bytes),
    decreases count,
{
    if count > 0 {
        law_node_names_are_stored(source, (count - 1) as nat, bytes);
        let before = tree::tree_after(source, (count - 1) as nat);
        let entries = tree::listing(source.entries, source.ranges, before.nodes[count - 1].inode);
        assert forall|q: int| 0 <= q < entries.len() implies arena::name_stored(
            bytes,
            (#[trigger] entries[q]).name,
        ) by {
            let r = tree::range_of(source.ranges, before.nodes[count - 1].inode)->0;
            assert(entries[q] == source.entries[source.ranges[r].start + q]);
        }
        lemma_attach_stored(source.inodes, before, entries, count - 1, bytes);
    }
}

proof fn lemma_names_grow(chunks: Seq<DirWork>, early: nat, late: nat)
    requires
        early <= late <= chunks.len(),
    ensures
        merge::gathered_names(chunks, early).is_prefix_of(merge::gathered_names(chunks, late)),
    decreases late,
{
    if early < late {
        lemma_names_grow(chunks, early, (late - 1) as nat);
    }
}

/// Merging keeps every name: entry `i` of chunk `c` has the same name bytes in the merged arena.
pub proof fn law_merging_keeps_names(chunks: Seq<DirWork>, c: int, i: int)
    requires
        0 <= c < chunks.len(),
        0 <= i < chunks[c].entries@.len(),
        arena::name_stored(chunks[c].names@, chunks[c].entries@[i].name),
        !merge::overflows(chunks, c),
    ensures
        ({
            let bytes = merge::gathered_names(chunks, chunks.len());
            let entry = merge::moved(
                chunks[c].entries@[i],
                merge::gathered_names(chunks, c as nat).len() as int,
            );
            &&& arena::name_stored(bytes, entry.name)
            &&& arena::name_at(bytes, entry.name) == arena::name_at(
                chunks[c].names@,
                chunks[c].entries@[i].name,
            )
        }),
{
    let front = merge::gathered_names(chunks, c as nat);
    let bytes = merge::gathered_names(chunks, chunks.len());
    lemma_names_grow(chunks, (c + 1) as nat, chunks.len());
    let with = merge::gathered_names(chunks, (c + 1) as nat);
    assert(with == front + chunks[c].names@);
    let entry = chunks[c].entries@[i];
    assert(entry.name.offset + front.len() <= u32::MAX);
    let moved = merge::moved(entry, front.len() as int);
    assert(with == bytes.subrange(0, with.len() as int));
    assert(arena::name_at(with, moved.name) =~= arena::name_at(chunks[c].names@, entry.name));
    assert(arena::name_at(bytes, moved.name) =~= arena::name_at(with, moved.name));
}

proof fn lemma_gathered_stored(chunks: Seq<DirWork>, count: nat)
    requires
        count <= chunks.len(),
        forall|c: int|
            0 <= c < chunks.len() ==> entry_names_stored(
                (#[trigger] chunks[c]).entries@,
                chunks[c].names@,
            ),
        forall|c: int| 0 <= c < chunks.len() ==> !#[trigger] merge::overflows(chunks, c),
    ensures
        entry_names_stored(
            merge::gathered(chunks, count),
            merge::gathered_names(chunks, chunks.len()),
        ),
    decreases count,
{
    if count > 0 {
        let last = count - 1;
        lemma_gathered_stored(chunks, last as nat);
        let before = merge::gathered(chunks, last as nat);
        let all = merge::gathered(chunks, count);
        let bytes = merge::gathered_names(chunks, chunks.len());
        assert forall|q: int| 0 <= q < all.len() implies arena::name_stored(
            bytes,
            (#[trigger] all[q]).name,
        ) by {
            if q < before.len() {
                assert(all[q] == before[q]);
            } else {
                assert(entry_names_stored(chunks[last].entries@, chunks[last].names@));
                assert(arena::name_stored(
                    chunks[last].names@,
                    chunks[last].entries@[q - before.len()].name,
                ));
                law_merging_keeps_names(chunks, last, q - before.len());
            }
        }
    }
}

/// Where the readers stored the names of their entries, the merged entries have theirs stored.
pub proof fn law_merged_names_are_stored(chunks: Seq<DirWork>, scan: DirectoryScan)
    requires
        merge::merged(chunks, scan),
        forall|c: int| 0 <= c < chunks.len() ==> !#[trigger] merge::overflows(chunks, c),
        forall|c: int|
            0 <= c < chunks.len() ==> entry_names_stored(
                (#[trigger] chunks[c]).entries@,
                chunks[c].names@,
            ),
    ensures
        entry_names_stored(scan.entries@, scan.names@),
{
    let all = merge::gathered(chunks, chunks.len());
    lemma_gathered_stored(chunks, chunks.len());
    assert forall|q: int| 0 <= q < scan.entries@.len() implies arena::name_stored(
        scan.names@,
        (#[trigger] scan.entries@[q]).name,
    ) by {
        let r = merge::lemma_tiled(scan.entries@, scan.ranges@, q);
        let directory = scan.ranges@[r].parent;
        assert(tree::range_of(scan.ranges@, directory) == Some(r));
        let there = tree::listing(scan.entries@, scan.ranges@, directory);
        assert(there[q - scan.ranges@[r].start] == scan.entries@[q]);
        let keep = |entry: DirectoryEntry| entry.parent_inode == directory;
        assert(there == all.filter(keep));
        all.lemma_filter_contains_rev(keep, scan.entries@[q]);
        let k = choose|k: int| 0 <= k < all.len() && all[k] == scan.entries@[q];
        assert(arena::name_stored(scan.names@, all[k].name));
    }
}

/// Reading a directory stores the names of its entries and keeps those of the entries before them.
pub proof fn law_collected_names_are_stored(
    start: Collected,
    parent: u64,
    children: Seq<u64>,
    offsets: Seq<u32>,
    lengths: Seq<u16>,
    names: Seq<u8>,
    count: nat,
)
    requires
        scan::batch_located(children, offsets, lengths, names),
        count <= children.len(),
        entry_names_stored(start.entries, start.names),
        scan::collected(start, parent, children, offsets, lengths, names, count).names.len()
            <= u32::MAX,
    ensures
        ({
            let after = scan::collected(start, parent, children, offsets, lengths, names, count);
            entry_names_stored(after.entries, after.names)
        }),
    decreases count,
{
    if count > 0 {
        let i = count - 1;
        let before = scan::collected(start, parent, children, offsets, lengths, names, i as nat);
        let after = scan::collected(start, parent, children, offsets, lengths, names, count);
        assert(offsets[i] + lengths[i] <= names.len());
        law_collected_names_are_stored(
            start,
            parent,
            children,
            offsets,
            lengths,
            names,
            i as nat,
        );
        assert forall|q: int| 0 <= q < after.entries.len() implies arena::name_stored(
            after.names,
            (#[trigger] after.entries[q]).name,
        ) by {
            if q < before.entries.len() {
                assert(after.entries[q] == before.entries[q]);
            }
        }
    }
}

/// One name in one directory, with the bytes of the name.
pub struct Link {
    pub parent: u64,
    pub child: u64,
    pub name: Seq<u8>,
}

/// The link that an entry stands for in an arena of these bytes.
pub open spec fn link_of(bytes: Seq<u8>, entry: DirectoryEntry) -> Link {
    Link {
        parent: entry.parent_inode,
        child: entry.child_inode,
        name: arena::name_at(bytes, entry.name),
    }
}

/// The links of entries, one for one.
pub open spec fn links_of(bytes: Seq<u8>, entries: Seq<DirectoryEntry>) -> Seq<Link> {
    Seq::new(entries.len(), |i: int| link_of(bytes, entries[i]))
}

/// The links that the first `count` chunks hold, chunk by chunk, each with the names of its own
/// chunk.
pub open spec fn chunk_links(chunks: Seq<DirWork>, count: nat) -> Seq<Link>
    decreases count,
{
    if count == 0 {
        Seq::empty()
    } else {
        chunk_links(chunks, (count - 1) as nat) + links_of(
            chunks[count - 1].names@,
            chunks[count - 1].entries@,
        )
    }
}

/// Links of this directory.
pub open spec fn links_in(directory: u64) -> spec_fn(Link) -> bool {
    |link: Link| link.parent == directory
}

/// The chunks' names are stored, and together they fit into one arena.
pub open spec fn chunks_fit(chunks: Seq<DirWork>) -> bool {
    &&& forall|c: int|
        0 <= c < chunks.len() ==> entry_names_stored(
            (#[trigger] chunks[c]).entries@,
            chunks[c].names@,
        )
    &&& merge::gathered_names(chunks, chunks.len()).len() <= u32::MAX
}

/// Chunks whose names fit into one arena are merged without an error.
pub proof fn law_fitting_chunks_merge(chunks: Seq<DirWork>, c: int)
    requires
        chunks_fit(chunks),
        0 <= c < chunks.len(),
    ensures
        !merge::overflows(chunks, c),
{
    lemma_names_grow(chunks, (c + 1) as nat, chunks.len());
    let front = merge::gathered_names(chunks, c as nat);
    assert(merge::gathered_names(chunks, (c + 1) as nat) == front + chunks[c].names@);
    assert forall|i: int| 0 <= i < chunks[c].entries@.len() implies (
    #[trigger] chunks[c].entries@[i]).name.offset + front.len() <= u32::MAX by {
        assert(entry_names_stored(chunks[c].entries@, chunks[c].names@));
        assert(arena::name_stored(chunks[c].names@, chunks[c].entries@[i].name));
    }
}

proof fn lemma_gathered_links(chunks: Seq<DirWork>, count: nat)
    requires
        chunks_fit(chunks),
        count <= chunks.len(),
    ensures
        links_of(
            merge::gathered_names(chunks, chunks.len()),
            merge::gathered(chunks, count),
        ) == chunk_links(chunks, count),
    decreases count,
{
    let bytes = merge::gathered_names(chunks, chunks.len());
    if count == 0 {
        assert(links_of(bytes, merge::gathered(chunks, count)) =~= Seq::empty());
    } else {
        let last = count - 1;
        lemma_gathered_links(chunks, last as nat);
        law_fitting_chunks_merge(chunks, last);
        let offset = merge::gathered_names(chunks, last as nat).len() as int;
        let found = chunks[last].entries@;
        let shifted = merge::all_moved(found, offset);
        assert forall|i: int| 0 <= i < found.len() implies link_of(bytes, shifted[i]) == link_of(
            chunks[last].names@,
            #[trigger] found[i],
        ) by {
            assert(entry_names_stored(chunks[last].entries@, chunks[last].names@));
            assert(arena::name_stored(chunks[last].names@, found[i].name));
            law_merging_keeps_names(chunks, last, i);
        }
        assert(links_of(bytes, shifted) =~= links_of(chunks[last].names@, found));
        assert(links_of(bytes, merge::gathered(chunks, count)) =~= links_of(
            bytes,
            merge::gathered(chunks, last as nat),
        ) + links_of(bytes, shifted));
    }
}

/// Taking the entries of a directory and reading their names can be done in either order.
proof fn lemma_links_of_directory(bytes: Seq<u8>, entries: Seq<DirectoryEntry>, directory: u64)
    ensures
        links_of(bytes, merge::of_directory(entries, directory)) == links_of(
            bytes,
            entries,
        ).filter(links_in(directory)),
    decreases entries.len(),
{
    reveal(Seq::filter);
    let links = links_of(bytes, entries);
    let there = merge::of_directory(entries, directory);
    if entries.len() == 0 {
        assert(links_of(bytes, there) =~= links.filter(links_in(directory)));
    } else {
        lemma_links_of_directory(bytes, entries.drop_last(), directory);
        assert(links.drop_last() =~= links_of(bytes, entries.drop_last()));
        let before = merge::of_directory(entries.drop_last(), directory);
        if entries.last().parent_inode == directory {
            assert(there == before.push(entries.last()));
            assert(links_of(bytes, there) =~= links_of(bytes, before).push(links.last()));
        } else {
            assert(there == before);
        }
    }
}

/// What the listings of a merged scan hold.
proof fn lemma_listing_links(chunks: Seq<DirWork>, scan: DirectoryScan, directory: u64)
    requires
        chunks_fit(chunks),
        merge::merged(chunks, scan),
    ensures
        links_of(scan.names@, tree::listing(scan.entries@, scan.ranges@, directory)) == chunk_links(
            chunks,
            chunks.len(),
        ).filter(links_in(directory)),
{
    lemma_gathered_links(chunks, chunks.len());
    lemma_links_of_directory(scan.names@, merge::gathered(chunks, chunks.len()), directory);
}

/// Of two merged scans with the same listings, the range at `k` of one is that of the other.
proof fn lemma_same_ranges(one: DirectoryScan, other: DirectoryScan, k: int)
    requires
        tree::ranges_fit(one.entries@, one.ranges@),
        merge::ranges_tile(one.entries@, one.ranges@),
        tree::ranges_fit(other.entries@, other.ranges@),
        merge::ranges_tile(other.entries@, other.ranges@),
        forall|directory: u64|
            (#[trigger] tree::listing(one.entries@, one.ranges@, directory)).len()
                == tree::listing(other.entries@, other.ranges@, directory).len(),
        0 <= k < one.ranges@.len(),
    ensures
        k < other.ranges@.len(),
        one.ranges@[k] == other.ranges@[k],
    decreases k,
{
    let left = one.ranges@;
    let right = other.ranges@;
    if k > 0 {
        lemma_same_ranges(one, other, k - 1);
    }
    let directory = left[k].parent;
    assert(tree::range_of(left, directory) == Some(k));
    assert(tree::listing(one.entries@, left, directory).len() > 0);
    assert(tree::range_of(right, directory) is Some);
    let m = tree::range_of(right, directory)->0;
    assert(right[m].parent == directory);
    if m < k {
        lemma_same_ranges(one, other, m);
        assert(left[m].parent < left[k].parent);
    }
    let other_directory = right[k].parent;
    assert(tree::range_of(right, other_directory) == Some(k));
    assert(tree::listing(other.entries@, right, other_directory).len() > 0);
    assert(tree::listing(one.entries@, left, other_directory).len() > 0);
    let n = tree::range_of(left, other_directory)->0;
    assert(left[n].parent == other_directory);
    if n < k {
        lemma_same_ranges(one, other, n);
        assert(right[n].parent < right[k].parent);
    }
    assert(m == k) by {
        if m > k {
            assert(right[k].parent < right[m].parent);
            assert(n >= k);
            if n > k {
                assert(left[k].parent < left[n].parent);
            }
        }
    }
    if k > 0 {
        assert(left[k - 1].end == left[k].start);
        assert(right[k - 1].end == right[k].start);
    }
}

/// Two merged scans agree but for where names are stored: they list the same names of the same
/// inodes at the same positions, in the same ranges, with the same warnings.
pub open spec fn scans_alike(one: DirectoryScan, other: DirectoryScan) -> bool {
    &&& links_of(one.names@, one.entries@) == links_of(other.names@, other.entries@)
    &&& one.ranges@ == other.ranges@
    &&& one.warnings == other.warnings
}

/// However the directories are shared out among chunks: where each directory has the same entries
/// in the same order, and as many directories could not be read, merging gives the same entries,
/// ranges and warnings.
pub proof fn law_sharing_does_not_matter(
    chunks: Seq<DirWork>,
    scan: DirectoryScan,
    other_chunks: Seq<DirWork>,
    other_scan: DirectoryScan,
)
    requires
        chunks_fit(chunks),
        merge::merged(chunks, scan),
        chunks_fit(other_chunks),
        merge::merged(other_chunks, other_scan),
        forall|directory: u64|
            chunk_links(chunks, chunks.len()).filter(#[trigger] links_in(directory))
                == chunk_links(other_chunks, other_chunks.len()).filter(links_in(directory)),
        merge::gathered_errors(chunks, chunks.len()) == merge::gathered_errors(
            other_chunks,
            other_chunks.len(),
        ),
    ensures
        scans_alike(scan, other_scan),
{
    let left = scan.ranges@;
    let right = other_scan.ranges@;
    let links = links_of(scan.names@, scan.entries@);
    let other_links = links_of(other_scan.names@, other_scan.entries@);
    assert forall|directory: u64|
        links_of(scan.names@, #[trigger] tree::listing(scan.entries@, left, directory))
            == links_of(
            other_scan.names@,
            tree::listing(other_scan.entries@, right, directory),
        ) by {
        lemma_listing_links(chunks, scan, directory);
        lemma_listing_links(other_chunks, other_scan, directory);
        assert(chunk_links(chunks, chunks.len()).filter(links_in(directory)) == chunk_links(
            other_chunks,
            other_chunks.len(),
        ).filter(links_in(directory)));
    }
    assert forall|directory: u64|
        (#[trigger] tree::listing(scan.entries@, left, directory)).len() == tree::listing(
            other_scan.entries@,
            right,
            directory,
        ).len() by {
        assert(links_of(scan.names@, tree::listing(scan.entries@, left, directory)).len()
            == links_of(
            other_scan.names@,
            tree::listing(other_scan.entries@, right, directory),
        ).len());
    }
    assert forall|directory: u64|
        (#[trigger] tree::listing(other_scan.entries@, right, directory)).len() == tree::listing(
            scan.entries@,
            left,
            directory,
        ).len() by {
        assert(tree::listing(scan.entries@, left, directory).len() == tree::listing(
            other_scan.entries@,
            right,
            directory,
        ).len());
    }
    if left.len() > 0 {
        lemma_same_ranges(scan, other_scan, left.len() - 1);
    }
    if right.len() > 0 {
        lemma_same_ranges(other_scan, scan, right.len() - 1);
    }
    assert forall|k: int| 0 <= k < left.len() implies #[trigger] left[k] == right[k] by {
        lemma_same_ranges(scan, other_scan, k);
    }
    assert(left =~= right);
    assert(scan.entries@.len() == other_scan.entries@.len());
    assert forall|q: int| 0 <= q < links.len() implies #[trigger] links[q] == other_links[q] by {
        let r = merge::lemma_tiled(scan.entries@, left, q);
        let directory = left[r].parent;
        let start = left[r].start as int;
        assert(tree::range_of(left, directory) == Some(r));
        let there = tree::listing(scan.entries@, left, directory);
        let other_there = tree::listing(other_scan.entries@, right, directory);
        assert(there[q - start] == scan.entries@[q]);
        assert(other_there[q - start] == other_scan.entries@[q]);
        assert(links_of(scan.names@, there)[q - start] == links_of(
            other_scan.names@,
            other_there,
        )[q - start]);
    }
    assert(links =~= other_links);
}

/// `scan` is a whole scan with `threads` asked for: the readers found `inodes` and `chunks`, which
/// were merged, laid out and totalled.
pub open spec fn scanned(
    inodes: Seq<InodeInfo>,
    chunks: Seq<DirWork>,
    directories: DirectoryScan,
    laid: LaidOut,
    threads: usize,
    group_count: u32,
    scan: FilesystemScan,
) -> bool {
    &&& merge::merged(chunks, directories)
    &&& scan::laid_out(inodes, directories, laid)
    &&& scan::totalled(laid, scan)
    &&& scan.workers == scan::workers_for(threads, group_count)
}

/// The entries of a directory are alike where their links are.
proof fn lemma_listings_alike(
    chunks: Seq<DirWork>,
    directories: DirectoryScan,
    bytes: Seq<u8>,
    other_chunks: Seq<DirWork>,
    other_directories: DirectoryScan,
    other_bytes: Seq<u8>,
    directory: u64,
)
    requires
        chunks_fit(chunks),
        merge::merged(chunks, directories),
        directories.names@.is_prefix_of(bytes),
        chunks_fit(other_chunks),
        merge::merged(other_chunks, other_directories),
        other_directories.names@.is_prefix_of(other_bytes),
        chunk_links(chunks, chunks.len()).filter(links_in(directory)) == chunk_links(
            other_chunks,
            other_chunks.len(),
        ).filter(links_in(directory)),
    ensures
        entries_alike(
            bytes,
            merge::of_directory(merge::gathered(chunks, chunks.len()), directory),
            other_bytes,
            merge::of_directory(merge::gathered(other_chunks, other_chunks.len()), directory),
        ),
{
    let names = directories.names@;
    let other_names = other_directories.names@;
    let found = tree::listing(directories.entries@, directories.ranges@, directory);
    let others = tree::listing(other_directories.entries@, other_directories.ranges@, directory);
    lemma_listing_links(chunks, directories, directory);
    lemma_listing_links(other_chunks, other_directories, directory);
    assert(links_of(names, found).len() == links_of(other_names, others).len());
    assert forall|i: int| 0 <= i < found.len() implies entry_alike(
        bytes,
        #[trigger] found[i],
        other_bytes,
        #[trigger] others[i],
    ) by {
        assert(links_of(names, found)[i] == links_of(other_names, others)[i]);
        lemma_listed_name_is_stored(chunks, directories, directory, i);
        lemma_listed_name_is_stored(other_chunks, other_directories, directory, i);
        assert(arena::name_at(bytes, found[i].name) =~= arena::name_at(names, found[i].name));
        assert(arena::name_at(other_bytes, others[i].name) =~= arena::name_at(
            other_names,
            others[i].name,
        ));
    }
}

proof fn lemma_listed_name_is_stored(
    chunks: Seq<DirWork>,
    directories: DirectoryScan,
    directory: u64,
    i: int,
)
    requires
        chunks_fit(chunks),
        merge::merged(chunks, directories),
        0 <= i < tree::listing(directories.entries@, directories.ranges@, directory).len(),
    ensures
        arena::name_stored(
            directories.names@,
            tree::listing(directories.entries@, directories.ranges@, directory)[i].name,
        ),
{
    assert forall|c: int| 0 <= c < chunks.len() implies !#[trigger] merge::overflows(chunks, c) by {
        law_fitting_chunks_merge(chunks, c);
    }
    law_merged_names_are_stored(chunks, directories);
    let r = tree::range_of(directories.ranges@, directory)->0;
    let q = directories.ranges@[r].start + i;
    assert(arena::name_stored(directories.names@, directories.entries@[q].name));
}

/// Alike scans miss the same inodes.
proof fn lemma_same_dangling(inodes: Seq<InodeInfo>, one: DirectoryScan, other: DirectoryScan)
    requires
        scans_alike(one, other),
    ensures
        tree::dangling(inodes, one.entries@) == tree::dangling(inodes, other.entries@),
        one.entries@.len() == other.entries@.len(),
{
    let links = links_of(one.names@, one.entries@);
    let other_links = links_of(other.names@, other.entries@);
    assert(links.len() == other_links.len());
    assert forall|q: int| tree::dangling(inodes, one.entries@).contains(q) == tree::dangling(
        inodes,
        other.entries@,
    ).contains(q) by {
        if 0 <= q < one.entries@.len() {
            assert(links[q] == other_links[q]);
        }
    }
    assert(tree::dangling(inodes, one.entries@) =~= tree::dangling(inodes, other.entries@));
}

/// Trees that differ in names only have the same totals.
proof fn lemma_same_totals(
    nodes: Seq<Node>,
    totals: Seq<Totals>,
    others: Seq<Node>,
    other_totals: Seq<Totals>,
)
    requires
        totals_of_tree(nodes, totals),
        totals_of_tree(others, other_totals),
        nodes.len() == others.len(),
        forall|i: int|
            0 <= i < nodes.len() ==> #[trigger] nodes[i] == (Node {
                name: nodes[i].name,
                ..others[i]
            }),
    ensures
        totals == other_totals,
{
    let places = Seq::new(nodes.len(), |i: int| i);
    assert forall|i: int| 1 <= i < nodes.len() implies others[#[trigger] places[i]].parent.0
        == places[nodes[i].parent.0 as int] by {
        assert(nodes[i].parent.0 < nodes.len());
    }
    assert(aggregate::renumbered(nodes, places, others));
    assert forall|i: int| 0 <= i < nodes.len() implies #[trigger] totals[i] == other_totals[i] by {
        assert(places[i] == i);
        assert(aggregate::accounts_for(
            other_totals[i],
            others,
            i,
            aggregate::subtree(others, i),
        ));
        aggregate::law_renumbering_moves_totals(nodes, totals, places, others, other_totals, i);
    }
    assert(totals =~= other_totals);
}

/// However many workers scan a filesystem: where they find the same inodes and the same entries in
/// every directory, and as many directories cannot be read, the scans agree in statistics,
/// warnings, totals and, node by node, in everything but where names are stored.
pub proof fn law_worker_count_does_not_matter(
    inodes: Seq<InodeInfo>,
    chunks: Seq<DirWork>,
    directories: DirectoryScan,
    laid: LaidOut,
    threads: usize,
    scan: FilesystemScan,
    other_chunks: Seq<DirWork>,
    other_directories: DirectoryScan,
    other_laid: LaidOut,
    other_threads: usize,
    other_scan: FilesystemScan,
    group_count: u32,
)
    requires
        chunks_fit(chunks),
        chunks_fit(other_chunks),
        scanned(inodes, chunks, directories, laid, threads, group_count, scan),
        scanned(
            inodes,
            other_chunks,
            other_directories,
            other_laid,
            other_threads,
            group_count,
            other_scan,
        ),
        forall|directory: u64|
            chunk_links(chunks, chunks.len()).filter(#[trigger] links_in(directory))
                == chunk_links(other_chunks, other_chunks.len()).filter(links_in(directory)),
        merge::gathered_errors(chunks, chunks.len()) == merge::gathered_errors(
            other_chunks,
            other_chunks.len(),
        ),
    ensures
        scan.stats == other_scan.stats,
        scan.warnings == other_scan.warnings,
        scan.result.totals@ == other_scan.result.totals@,
        scan.result.arena.node_list().len() == other_scan.result.arena.node_list().len(),
        forall|i: int|
            0 <= i < scan.result.arena.node_list().len() ==> node_alike(
                scan.result.arena.name_bytes(),
                #[trigger] scan.result.arena.node_list()[i],
                other_scan.result.arena.name_bytes(),
                #[trigger] other_scan.result.arena.node_list()[i],
            ),
        threads == 1 && group_count >= 1 ==> scan.workers == 1,
{
    law_sharing_does_not_matter(chunks, directories, other_chunks, other_directories);
    let bytes = laid.arena.name_bytes();
    let other_bytes = other_laid.arena.name_bytes();
    let source = scan::source_of(inodes, directories);
    let other_source = scan::source_of(inodes, other_directories);
    let tree = tree::tree_after(source, laid.arena.node_list().len());
    let other = tree::tree_after(other_source, other_laid.arena.node_list().len());
    assert(directories.names@ =~= bytes.subrange(0, directories.names@.len() as int));
    assert(other_directories.names@ =~= other_bytes.subrange(
        0,
        other_directories.names@.len() as int,
    ));
    assert forall|directory: u64|
        entries_alike(
            bytes,
            #[trigger] merge::of_directory(merge::gathered(chunks, chunks.len()), directory),
            other_bytes,
            merge::of_directory(merge::gathered(other_chunks, other_chunks.len()), directory),
        ) by {
        assert(chunk_links(chunks, chunks.len()).filter(links_in(directory)) == chunk_links(
            other_chunks,
            other_chunks.len(),
        ).filter(links_in(directory)));
        lemma_listings_alike(
            chunks,
            directories,
            bytes,
            other_chunks,
            other_directories,
            other_bytes,
            directory,
        );
    }
    assert(arena::name_at(bytes, source.root_name) =~= seq![text::SLASH]);
    assert(arena::name_at(other_bytes, other_source.root_name) =~= seq![text::SLASH]);
    law_schedule_does_not_matter(
        inodes,
        chunks,
        directories,
        source.root_name,
        bytes,
        tree,
        other_chunks,
        other_directories,
        other_source.root_name,
        other_bytes,
        other,
    );
    lemma_same_dangling(inodes, directories, other_directories);
    let nodes = laid.arena.node_list();
    let others = other_laid.arena.node_list();
    assert forall|i: int| 0 <= i < nodes.len() implies #[trigger] nodes[i] == (Node {
        name: nodes[i].name,
        ..others[i]
    }) by {
        assert(node_alike(bytes, tree.nodes[i], other_bytes, other.nodes[i]));
    }
    lemma_same_totals(nodes, scan.result.totals@, others, other_scan.result.totals@);
}

/// The result of a scan can be browsed.
pub proof fn law_results_are_browsable(source: TreeSource, tree: Tree, result: ScanResult)
    requires
        source.fit(),
        source.has_root(),
        tree::complete(source, tree),
        tree.nodes.len() <= u32::MAX + 1,
        entry_names_stored(source.entries, result.arena.name_bytes()),
        arena::name_stored(result.arena.name_bytes(), source.root_name),
        result.arena.node_list() == tree.nodes,
        result.sound(),
    ensures
        result.browsable(),
{
    tree::law_tree_is_sound(source, tree);
    law_node_names_are_stored(source, tree.nodes.len(), result.arena.name_bytes());
}

/// Merging loses nothing and makes up nothing: a directory's listing holds exactly what the chunks
/// hold of it, chunk by chunk, with the names that the chunks store, and there are as many entries
/// as in all chunks together.
pub proof fn law_merged_listings_hold_the_chunks(
    chunks: Seq<DirWork>,
    scan: DirectoryScan,
    directory: u64,
)
    requires
        chunks_fit(chunks),
        merge::merged(chunks, scan),
    ensures
        links_of(scan.names@, tree::listing(scan.entries@, scan.ranges@, directory)) == chunk_links(
            chunks,
            chunks.len(),
        ).filter(|link: Link| link.parent == directory),
        scan.entries@.len() == chunk_links(chunks, chunks.len()).len(),
{
    lemma_listing_links(chunks, scan, directory);
    lemma_gathered_links(chunks, chunks.len());
    assert(links_of(scan.names@, merge::gathered(chunks, chunks.len())).len() == merge::gathered(
        chunks,
        chunks.len(),
    ).len());
    assert(links_in(directory) =~= (|link: Link| link.parent == directory));
}

/// One more chunk adds its links behind those of the chunks before it, and its directory errors to
/// theirs.
pub proof fn law_chunks_add_up(chunks: Seq<DirWork>, chunk: DirWork)
    ensures
        chunk_links(chunks.push(chunk), chunks.len() + 1) == chunk_links(chunks, chunks.len())
            + links_of(chunk.names@, chunk.entries@),
        merge::gathered_errors(chunks.push(chunk), chunks.len() + 1) == merge::gathered_errors(
            chunks,
            chunks.len(),
        ) + chunk.warnings.directory_scan_errors,
        chunk_links(Seq::empty(), 0).len() == 0,
        merge::gathered_errors(Seq::empty(), 0) == 0,
{
    lemma_chunks_agree(chunks, chunks.push(chunk), chunks.len());
}

proof fn lemma_chunks_agree(one: Seq<DirWork>, other: Seq<DirWork>, count: nat)
    requires
        count <= one.len(),
        count <= other.len(),
        forall|c: int| 0 <= c < count ==> one[c] == #[trigger] other[c],
    ensures
        chunk_links(one, count) == chunk_links(other, count),
        merge::gathered_errors(one, count) == merge::gathered_errors(other, count),
    decreases count,
{
    if count > 0 {
        lemma_chunks_agree(one, other, (count - 1) as nat);
        assert(one[count - 1] == other[count - 1]);
    }
}

} // verus!
