//! Reading inodes and directory entries out of the pages of a btrfs tree search.

use std::collections::HashMap;

use vstd::prelude::*;

use crate::btrfs::error::DirectError;
use crate::node::NodeKind;
use crate::text;

verus! {

broadcast use vstd::std_specs::hash::group_hash_axioms;

pub const INODE_ITEM_KEY: u32 = 1;

pub const DIR_ITEM_KEY: u32 = 84;

pub const DIR_INDEX_KEY: u32 = 96;

/// Size of the buffer that a search fills.
pub const SEARCH_BUFFER_SIZE: usize = 0x10_0000;

/// Size of the header in front of each item of a search.
pub const SEARCH_HEADER_SIZE: usize = 32;

/// Size of an inode item.
pub const INODE_ITEM_SIZE: usize = 176;

/// Size of a directory item without its data and its name.
pub const DIR_ITEM_SIZE: usize = 30;

pub const FILE_TYPE_MASK: u32 = 0xf000;

pub const FILE_TYPE_REGULAR: u32 = 0x8000;

pub const FILE_TYPE_DIRECTORY: u32 = 0x4000;

pub const FILE_TYPE_SYMLINK: u32 = 0xa000;

/// What a search looks for.
#[derive(Clone, Copy, Debug, Eq, PartialEq, Structural)]
pub struct SearchKey {
    pub tree_id: u64,
    pub min_objectid: u64,
    pub max_objectid: u64,
    pub min_offset: u64,
    pub max_offset: u64,
    pub min_transid: u64,
    pub max_transid: u64,
    pub min_type: u32,
    pub max_type: u32,
    pub nr_items: u32,
}

/// What the tree takes from an inode.
#[derive(Clone, Copy, Debug, Eq, PartialEq, Structural)]
pub struct InodeMeta {
    pub inode: u64,
    pub kind: NodeKind,
    pub logical_size: u64,
    pub allocated_size: u64,
    pub links: u32,
    pub mtime: i64,
}

/// One name in one directory.
#[derive(Debug)]
pub struct DirectoryEntry {
    pub parent: u64,
    pub child: u64,
    pub name: Vec<u8>,
}

/// A directory entry as a value.
#[verifier::ext_equal]
pub struct EntryView {
    pub parent: u64,
    pub child: u64,
    pub name: Seq<u8>,
}

impl View for DirectoryEntry {
    type V = EntryView;

    open spec fn view(&self) -> EntryView {
        EntryView { parent: self.parent, child: self.child, name: self.name@ }
    }
}

/// Directory entries as values.
pub open spec fn entry_views(entries: Seq<DirectoryEntry>) -> Seq<EntryView> {
    Seq::new(entries.len(), |i: int| entries[i]@)
}

/// The little-endian number of `count` bytes from `at` on.
pub open spec fn little_endian(bytes: Seq<u8>, at: int, count: nat) -> nat
    decreases count,
{
    if count == 0 {
        0
    } else {
        bytes[at] as nat + 256 * little_endian(bytes, at + 1, (count - 1) as nat)
    }
}

/// A number of 64 bits read as a signed one.
pub open spec fn signed(value: nat) -> int {
    if value <= i64::MAX {
        value as int
    } else {
        value - 0x1_0000_0000_0000_0000
    }
}

/// Reads 2 bytes.
pub fn read_u16(bytes: &[u8], offset: usize) -> (result: Result<u16, DirectError>)
    ensures
        match result {
            Ok(value) => offset + 2 <= bytes@.len() && value == little_endian(
                bytes@,
                offset as int,
                2,
            ),
            Err(error) => error == DirectError::InvalidItem && offset + 2 > bytes@.len(),
        },
{
    if offset > bytes.len() || bytes.len() - offset < 2 {
        return Err(DirectError::InvalidItem);
    }
    reveal_with_fuel(little_endian, 3);
    Ok(bytes[offset] as u16 + 256 * bytes[offset + 1] as u16)
}

/// Reads 4 bytes.
pub fn read_u32(bytes: &[u8], offset: usize) -> (result: Result<u32, DirectError>)
    ensures
        match result {
            Ok(value) => offset + 4 <= bytes@.len() && value == little_endian(
                bytes@,
                offset as int,
                4,
            ),
            Err(error) => error == DirectError::InvalidItem && offset + 4 > bytes@.len(),
        },
{
    if offset > bytes.len() || bytes.len() - offset < 4 {
        return Err(DirectError::InvalidItem);
    }
    reveal_with_fuel(little_endian, 5);
    Ok(
        bytes[offset] as u32 + 0x100 * bytes[offset + 1] as u32 + 0x1_0000 * bytes[offset + 2] as u32
            + 0x100_0000 * bytes[offset + 3] as u32,
    )
}

/// Reads 8 bytes.
pub fn read_u64(bytes: &[u8], offset: usize) -> (result: Result<u64, DirectError>)
    ensures
        match result {
            Ok(value) => offset + 8 <= bytes@.len() && value == little_endian(
                bytes@,
                offset as int,
                8,
            ),
            Err(error) => error == DirectError::InvalidItem && offset + 8 > bytes@.len(),
        },
{
    if offset > bytes.len() || bytes.len() - offset < 8 {
        return Err(DirectError::InvalidItem);
    }
    let low: u32 = match read_u32(bytes, offset) {
        Ok(low) => low,
        Err(error) => return Err(error),
    };
    let high: u32 = match read_u32(bytes, offset + 4) {
        Ok(high) => high,
        Err(error) => return Err(error),
    };
    reveal_with_fuel(little_endian, 9);
    Ok(low as u64 + 0x1_0000_0000 * high as u64)
}

/// Reads 8 bytes as a signed number.
pub fn read_i64(bytes: &[u8], offset: usize) -> (result: Result<i64, DirectError>)
    ensures
        match result {
            Ok(value) => offset + 8 <= bytes@.len() && value == signed(
                little_endian(bytes@, offset as int, 8),
            ),
            Err(error) => error == DirectError::InvalidItem && offset + 8 > bytes@.len(),
        },
{
    match read_u64(bytes, offset) {
        Ok(value) => {
            if value <= i64::MAX as u64 {
                Ok(value as i64)
            } else {
                let distance: i64 = (u64::MAX - value) as i64;
                Ok(-distance - 1)
            }
        },
        Err(error) => Err(error),
    }
}

/// The kind that a file mode names.
pub open spec fn kind_of_mode(mode: u32) -> NodeKind {
    if mode & FILE_TYPE_MASK == FILE_TYPE_REGULAR {
        NodeKind::File
    } else if mode & FILE_TYPE_MASK == FILE_TYPE_DIRECTORY {
        NodeKind::Directory
    } else if mode & FILE_TYPE_MASK == FILE_TYPE_SYMLINK {
        NodeKind::Symlink
    } else {
        NodeKind::Other
    }
}

/// What an inode item says.
pub open spec fn meta_of(inode: u64, item: Seq<u8>) -> InodeMeta {
    InodeMeta {
        inode,
        kind: kind_of_mode(little_endian(item, 52, 4) as u32),
        logical_size: little_endian(item, 16, 8) as u64,
        allocated_size: little_endian(item, 24, 8) as u64,
        links: little_endian(item, 40, 4) as u32,
        mtime: signed(little_endian(item, 144, 8)) as i64,
    }
}

/// Reads an inode item.
pub fn parse_inode(inode: u64, item: &[u8], inodes: &mut HashMap<u64, InodeMeta>) -> (result: Result<
    (),
    DirectError,
>)
    ensures
        match result {
            Ok(()) => item@.len() >= INODE_ITEM_SIZE && final(inodes)@ == old(inodes)@.insert(
                inode,
                meta_of(inode, item@),
            ),
            Err(error) => error == DirectError::InvalidItem && item@.len() < INODE_ITEM_SIZE
                && final(inodes)@ == old(inodes)@,
        },
{
    if item.len() < INODE_ITEM_SIZE {
        return Err(DirectError::InvalidItem);
    }
    let mode: u32 = match read_u32(item, 52) {
        Ok(mode) => mode,
        Err(error) => return Err(error),
    };
    let kind = match mode & FILE_TYPE_MASK {
        FILE_TYPE_REGULAR => NodeKind::File,
        FILE_TYPE_DIRECTORY => NodeKind::Directory,
        FILE_TYPE_SYMLINK => NodeKind::Symlink,
        _ => NodeKind::Other,
    };
    let logical_size: u64 = match read_u64(item, 16) {
        Ok(size) => size,
        Err(error) => return Err(error),
    };
    let allocated_size: u64 = match read_u64(item, 24) {
        Ok(size) => size,
        Err(error) => return Err(error),
    };
    let links: u32 = match read_u32(item, 40) {
        Ok(links) => links,
        Err(error) => return Err(error),
    };
    let mtime: i64 = match read_i64(item, 144) {
        Ok(mtime) => mtime,
        Err(error) => return Err(error),
    };
    inodes.insert(inode, InodeMeta { inode, kind, logical_size, allocated_size, links, mtime });
    Ok(())
}

/// Length of the first entry of a directory item.
pub open spec fn first_length(item: Seq<u8>) -> int {
    DIR_ITEM_SIZE + little_endian(item, 25, 2) + little_endian(item, 27, 2)
}

/// The first entry of a directory item: its name stands behind its data.
pub open spec fn first_entry(parent: u64, item: Seq<u8>) -> EntryView {
    EntryView {
        parent,
        child: little_endian(item, 0, 8) as u64,
        name: item.subrange(DIR_ITEM_SIZE + little_endian(item, 25, 2), first_length(item)),
    }
}

/// A directory item starts with a whole entry.
pub open spec fn starts_whole(item: Seq<u8>) -> bool {
    item.len() >= DIR_ITEM_SIZE && first_length(item) <= item.len()
}

/// The whole entries at the front of a directory item.
pub open spec fn directory_items(parent: u64, item: Seq<u8>) -> Seq<EntryView>
    decreases item.len(),
{
    if starts_whole(item) {
        seq![first_entry(parent, item)] + directory_items(parent, item.skip(first_length(item)))
    } else {
        Seq::empty()
    }
}

/// A directory item consists of whole entries.
pub open spec fn all_whole(item: Seq<u8>) -> bool
    decreases item.len(),
{
    if starts_whole(item) {
        all_whole(item.skip(first_length(item)))
    } else {
        item.len() == 0
    }
}

/// Reads a directory item. Of one that is cut short, the entries before the cut are read.
pub fn parse_directory_items(parent: u64, item: &[u8], entries: &mut Vec<DirectoryEntry>) -> (result:
    Result<(), DirectError>)
    ensures
        entry_views(final(entries)@) == entry_views(old(entries)@) + directory_items(parent, item@),
        result == if all_whole(item@) {
            Ok::<(), DirectError>(())
        } else {
            Err(DirectError::InvalidItem)
        },
{
    let mut start: usize = 0;
    let ghost before = entry_views(entries@);
    let ghost mut read: Seq<EntryView> = Seq::empty();
    proof {
        assert(item@.skip(0) =~= item@);
        assert(before =~= before + read);
        assert(read + directory_items(parent, item@) =~= directory_items(parent, item@));
    }
    while start < item.len()
        invariant
            start <= item.len(),
            before == entry_views(old(entries)@),
            entry_views(entries@) == before + read,
            directory_items(parent, item@) == read + directory_items(
                parent,
                item@.skip(start as int),
            ),
            all_whole(item@) == all_whole(item@.skip(start as int)),
        decreases item.len() - start,
    {
        let ghost rest = item@.skip(start as int);
        let left: usize = item.len() - start;
        if left < DIR_ITEM_SIZE {
            assert(read + Seq::empty() =~= read);
            return Err(DirectError::InvalidItem);
        }
        let here = vstd::slice::slice_subrange(item, start, item.len());
        assert(here@ =~= rest);
        let child: u64 = match read_u64(here, 0) {
            Ok(child) => child,
            Err(error) => return Err(error),
        };
        let data_len: u16 = match read_u16(here, 25) {
            Ok(length) => length,
            Err(error) => return Err(error),
        };
        let name_len: u16 = match read_u16(here, 27) {
            Ok(length) => length,
            Err(error) => return Err(error),
        };
        let name_start: usize = DIR_ITEM_SIZE + data_len as usize;
        let length: usize = name_start + name_len as usize;
        if length > left {
            assert(read + Seq::empty() =~= read);
            return Err(DirectError::InvalidItem);
        }
        let name = text::copy_bytes(vstd::slice::slice_subrange(here, name_start, length));
        let ghost earlier = entries@;
        entries.push(DirectoryEntry { parent, child, name });
        proof {
            let entry = first_entry(parent, rest);
            assert(entries@.last()@ == entry);
            assert(entry_views(entries@) =~= entry_views(earlier).push(entry));
            assert(item@.skip(start + length) =~= rest.skip(first_length(rest)));
            let tail = directory_items(parent, rest.skip(first_length(rest)));
            assert(read + (seq![entry] + tail) =~= read.push(entry) + tail);
            read = read.push(entry);
            assert(entry_views(entries@) =~= before + read);
        }
        start = start + length;
    }
    proof {
        assert(item@.skip(start as int) =~= Seq::empty());
        assert(read + Seq::empty() =~= read);
    }
    Ok(())
}

/// An item that a search found.
#[verifier::ext_equal]
pub struct FoundItem {
    pub objectid: u64,
    pub item_type: u32,
    pub offset: u64,
    pub data: Seq<u8>,
}

/// The header and the data at `cursor` lie inside the page.
pub open spec fn item_inside(page: Seq<u8>, cursor: int) -> bool {
    &&& cursor + SEARCH_HEADER_SIZE <= page.len()
    &&& next_cursor(page, cursor) <= page.len()
}

/// Where the item behind the one at `cursor` starts.
pub open spec fn next_cursor(page: Seq<u8>, cursor: int) -> int {
    cursor + SEARCH_HEADER_SIZE + little_endian(page, cursor + 28, 4)
}

/// The item at `cursor`.
pub open spec fn item_at(page: Seq<u8>, cursor: int) -> FoundItem {
    FoundItem {
        objectid: little_endian(page, cursor + 8, 8) as u64,
        item_type: little_endian(page, cursor + 24, 4) as u32,
        offset: little_endian(page, cursor + 16, 8) as u64,
        data: page.subrange(cursor + SEARCH_HEADER_SIZE, next_cursor(page, cursor)),
    }
}

/// An item can be used: what it is read as has the form of that.
pub open spec fn item_usable(item: FoundItem) -> bool {
    if item.item_type == INODE_ITEM_KEY {
        item.data.len() >= INODE_ITEM_SIZE
    } else if item.item_type == DIR_ITEM_KEY || item.item_type == DIR_INDEX_KEY {
        all_whole(item.data)
    } else {
        true
    }
}

/// Inodes and directory entries that have been found.
#[verifier::ext_equal]
pub struct FoundView {
    pub inodes: Map<u64, InodeMeta>,
    pub entries: Seq<EntryView>,
}

/// Adds what an item says. Items of other sorts say nothing.
pub open spec fn with_item(found: FoundView, item: FoundItem) -> FoundView {
    if item.item_type == INODE_ITEM_KEY {
        FoundView {
            inodes: found.inodes.insert(item.objectid, meta_of(item.objectid, item.data)),
            ..found
        }
    } else if item.item_type == DIR_ITEM_KEY || item.item_type == DIR_INDEX_KEY {
        FoundView {
            entries: found.entries + directory_items(item.objectid, item.data),
            ..found
        }
    } else {
        found
    }
}

/// `count` items from `cursor` on lie inside the page and can be used.
pub open spec fn page_usable(page: Seq<u8>, cursor: int, count: nat) -> bool
    decreases count,
{
    count == 0 || {
        &&& item_inside(page, cursor)
        &&& item_usable(item_at(page, cursor))
        &&& page_usable(page, next_cursor(page, cursor), (count - 1) as nat)
    }
}

/// What has been found after `count` items from `cursor` on.
pub open spec fn with_page(found: FoundView, page: Seq<u8>, cursor: int, count: nat) -> FoundView
    decreases count,
{
    if count == 0 {
        found
    } else {
        with_page(
            with_item(found, item_at(page, cursor)),
            page,
            next_cursor(page, cursor),
            (count - 1) as nat,
        )
    }
}

/// The last of `count` items from `cursor` on.
pub open spec fn last_item(page: Seq<u8>, cursor: int, count: nat) -> FoundItem
    decreases count,
{
    if count <= 1 {
        item_at(page, cursor)
    } else {
        last_item(page, next_cursor(page, cursor), (count - 1) as nat)
    }
}

/// A search through a whole tree, page by page.
#[derive(Debug)]
pub struct TreeSearch {
    pub key: SearchKey,
    pub inodes: HashMap<u64, InodeMeta>,
    pub entries: Vec<DirectoryEntry>,
}

/// The key that finds everything.
pub open spec fn whole_tree() -> SearchKey {
    SearchKey {
        tree_id: 0,
        min_objectid: 0,
        max_objectid: u64::MAX,
        min_offset: 0,
        max_offset: u64::MAX,
        min_transid: 0,
        max_transid: u64::MAX,
        min_type: 0,
        max_type: u32::MAX,
        nr_items: u32::MAX,
    }
}

impl TreeSearch {
    /// What has been found so far.
    pub open spec fn found(self) -> FoundView {
        FoundView { inodes: self.inodes@, entries: entry_views(self.entries@) }
    }

    /// A search that has not found anything yet.
    pub fn new() -> (search: TreeSearch)
        ensures
            search.key == whole_tree(),
            search.inodes@ == Map::<u64, InodeMeta>::empty(),
            search.entries@ == Seq::<DirectoryEntry>::empty(),
    {
        TreeSearch {
            key: SearchKey {
                tree_id: 0,
                min_objectid: 0,
                max_objectid: u64::MAX,
                min_offset: 0,
                max_offset: u64::MAX,
                min_transid: 0,
                max_transid: u64::MAX,
                min_type: 0,
                max_type: u32::MAX,
                nr_items: u32::MAX,
            },
            inodes: HashMap::new(),
            entries: Vec::new(),
        }
    }

    /// Takes in one item of a page.
    fn take_item(&mut self, objectid: u64, item_type: u32, data: &[u8]) -> (result: Result<
        (),
        DirectError,
    >)
        ensures
            final(self).key == old(self).key,
            ({
                let item = FoundItem { objectid, item_type, offset: 0, data: data@ };
                &&& result is Ok == item_usable(item)
                &&& result is Err ==> result->Err_0 == DirectError::InvalidItem
                &&& item_usable(item) ==> final(self).found() == with_item(old(self).found(), item)
            }),
    {
        let result = if item_type == INODE_ITEM_KEY {
            parse_inode(objectid, data, &mut self.inodes)
        } else if item_type == DIR_ITEM_KEY || item_type == DIR_INDEX_KEY {
            parse_directory_items(objectid, data, &mut self.entries)
        } else {
            Ok(())
        };
        proof {
            let item = FoundItem { objectid, item_type, offset: 0, data: data@ };
            if item_usable(item) {
                assert(self.found() =~= with_item(old(self).found(), item));
            }
        }
        result
    }

    /// Takes in the page that the search for `key` gave, with `count` items in it, and moves the
    /// key behind the last of them. Returns whether to search on; an empty page ends the search.
    pub fn take_page(&mut self, page: &[u8], count: u32) -> (result: Result<bool, DirectError>)
        ensures
            match result {
                Ok(more) => {
                    &&& more == (count > 0)
                    &&& count == 0 ==> final(self).key == old(self).key
                    &&& count > 0 ==> {
                        let last = last_item(page@, 0, count as nat);
                        &&& last.offset < u64::MAX
                        &&& final(self).key == (SearchKey {
                            min_objectid: last.objectid,
                            min_type: last.item_type,
                            min_offset: (last.offset + 1) as u64,
                            ..old(self).key
                        })
                    }
                    &&& page_usable(page@, 0, count as nat)
                    &&& final(self).found() == with_page(old(self).found(), page@, 0, count as nat)
                },
                Err(error) => {
                    &&& error == DirectError::InvalidItem
                    &&& !page_usable(page@, 0, count as nat) || (count > 0 && last_item(
                        page@,
                        0,
                        count as nat,
                    ).offset == u64::MAX)
                },
            },
    {
        if count == 0 {
            return Ok(false);
        }
        let mut cursor: usize = 0;
        let mut left: u32 = count;
        let mut objectid: u64 = 0;
        let mut item_type: u32 = 0;
        let mut offset: u64 = 0;
        while left > 0
            invariant
                cursor <= page.len(),
                left <= count,
                count > 0,
                self.key == old(self).key,
                page_usable(page@, 0, count as nat) == page_usable(
                    page@,
                    cursor as int,
                    left as nat,
                ),
                with_page(old(self).found(), page@, 0, count as nat) == with_page(
                    self.found(),
                    page@,
                    cursor as int,
                    left as nat,
                ),
                left > 0 ==> last_item(page@, 0, count as nat) == last_item(
                    page@,
                    cursor as int,
                    left as nat,
                ),
                left == 0 ==> {
                    let last = last_item(page@, 0, count as nat);
                    last.objectid == objectid && last.item_type == item_type && last.offset
                        == offset
                },
            decreases left,
        {
            if page.len() - cursor < SEARCH_HEADER_SIZE {
                return Err(DirectError::InvalidItem);
            }
            objectid = match read_u64(page, cursor + 8) {
                Ok(value) => value,
                Err(error) => return Err(error),
            };
            offset = match read_u64(page, cursor + 16) {
                Ok(value) => value,
                Err(error) => return Err(error),
            };
            item_type = match read_u32(page, cursor + 24) {
                Ok(value) => value,
                Err(error) => return Err(error),
            };
            let length: u32 = match read_u32(page, cursor + 28) {
                Ok(value) => value,
                Err(error) => return Err(error),
            };
            let start: usize = cursor + SEARCH_HEADER_SIZE;
            if page.len() - start < length as usize {
                return Err(DirectError::InvalidItem);
            }
            let end: usize = start + length as usize;
            let data = vstd::slice::slice_subrange(page, start, end);
            let ghost item = item_at(page@, cursor as int);
            let ghost before = self.found();
            match self.take_item(objectid, item_type, data) {
                Ok(()) => {},
                Err(error) => return Err(error),
            }
            proof {
                assert(data@ == item.data);
                assert(self.found() == with_item(before, item));
            }
            cursor = end;
            left = left - 1;
        }
        self.key.min_objectid = objectid;
        self.key.min_type = item_type;
        self.key.min_offset = match offset.checked_add(1) {
            Some(next) => next,
            None => return Err(DirectError::InvalidItem),
        };
        Ok(true)
    }
}

/// A number as `count` bytes, the lowest first.
pub open spec fn bytes_of(value: nat, count: nat) -> Seq<u8>
    decreases count,
{
    if count == 0 {
        Seq::empty()
    } else {
        seq![(value % 256) as u8] + bytes_of(value / 256, (count - 1) as nat)
    }
}

/// How many values `count` bytes have.
pub open spec fn byte_limit(count: nat) -> nat
    decreases count,
{
    if count == 0 {
        1
    } else {
        256 * byte_limit((count - 1) as nat)
    }
}

/// Numbers read back as they were written, wherever they stand.
pub proof fn law_numbers_read_back(bytes: Seq<u8>, at: int, value: nat, count: nat)
    requires
        0 <= at,
        at + count <= bytes.len(),
        bytes.subrange(at, at + count) == bytes_of(value, count),
        value < byte_limit(count),
    ensures
        little_endian(bytes, at, count) == value,
    decreases count,
{
    if count > 0 {
        let here = bytes.subrange(at, at + count);
        let rest = bytes_of(value / 256, (count - 1) as nat);
        lemma_bytes_length(value / 256, (count - 1) as nat);
        assert(here[0] == (value % 256) as u8);
        assert(bytes[at] == here[0]);
        assert(bytes.subrange(at + 1, at + 1 + (count - 1)) =~= rest) by {
            assert forall|k: int| 0 <= k < count - 1 implies bytes[at + 1 + k] == #[trigger] rest[k] by {
                assert(here[k + 1] == rest[k]);
            }
        }
        law_numbers_read_back(bytes, at + 1, value / 256, (count - 1) as nat);
    }
}

proof fn lemma_bytes_length(value: nat, count: nat)
    ensures
        bytes_of(value, count).len() == count,
    decreases count,
{
    if count > 0 {
        lemma_bytes_length(value / 256, (count - 1) as nat);
    }
}

proof fn lemma_limits()
    ensures
        byte_limit(2) == 0x1_0000,
        byte_limit(4) == 0x1_0000_0000,
        byte_limit(8) == 0x1_0000_0000_0000_0000,
{
    reveal_with_fuel(byte_limit, 9);
}

/// A number of 64 bits in two's complement.
pub open spec fn unsigned(value: i64) -> nat {
    if value >= 0 {
        value as nat
    } else {
        (value + 0x1_0000_0000_0000_0000) as nat
    }
}

/// Signed numbers read back as well.
pub proof fn law_signed_numbers_read_back(value: i64)
    ensures
        signed(unsigned(value)) == value,
        unsigned(value) < 0x1_0000_0000_0000_0000,
{
}

/// An inode item reads back: where the fields of an inode stand in an item, they are what the item
/// says. The size stands at 16, the bytes on disk at 24, the links at 40, the mode at 52 and the
/// modification time at 144.
pub proof fn law_inode_items_read_back(
    inode: u64,
    item: Seq<u8>,
    size: u64,
    allocated: u64,
    links: u32,
    mode: u32,
    mtime: i64,
)
    requires
        item.len() >= 176,
        item.subrange(16, 24) == bytes_of(size as nat, 8),
        item.subrange(24, 32) == bytes_of(allocated as nat, 8),
        item.subrange(40, 44) == bytes_of(links as nat, 4),
        item.subrange(52, 56) == bytes_of(mode as nat, 4),
        item.subrange(144, 152) == bytes_of(unsigned(mtime), 8),
    ensures
        meta_of(inode, item).inode == inode,
        meta_of(inode, item).logical_size == size,
        meta_of(inode, item).allocated_size == allocated,
        meta_of(inode, item).links == links,
        meta_of(inode, item).mtime == mtime,
        meta_of(inode, item).kind == NodeKind::File <==> mode & 0xf000 == 0x8000,
        meta_of(inode, item).kind == NodeKind::Directory <==> mode & 0xf000 == 0x4000,
        meta_of(inode, item).kind == NodeKind::Symlink <==> mode & 0xf000 == 0xa000,
{
    lemma_limits();
    law_numbers_read_back(item, 16, size as nat, 8);
    law_numbers_read_back(item, 24, allocated as nat, 8);
    law_numbers_read_back(item, 40, links as nat, 4);
    law_numbers_read_back(item, 52, mode as nat, 4);
    law_signed_numbers_read_back(mtime);
    law_numbers_read_back(item, 144, unsigned(mtime), 8);
}

/// An entry of a directory item: the child, more of its key, the lengths of data and name, a type,
/// then the data and the name.
pub open spec fn entry_bytes(
    child: u64,
    filling: Seq<u8>,
    file_type: u8,
    data: Seq<u8>,
    name: Seq<u8>,
) -> Seq<u8> {
    bytes_of(child as nat, 8) + filling + bytes_of(data.len(), 2) + bytes_of(name.len(), 2) + seq![
        file_type,
    ] + data + name
}

/// Directory items read back entry by entry: each gives its child and its name, and what follows it
/// is read as if it stood alone.
pub proof fn law_directory_items_read_back(
    parent: u64,
    child: u64,
    filling: Seq<u8>,
    file_type: u8,
    data: Seq<u8>,
    name: Seq<u8>,
    rest: Seq<u8>,
)
    requires
        filling.len() == 17,
        data.len() <= u16::MAX,
        name.len() <= u16::MAX,
    ensures
        ({
            let item = entry_bytes(child, filling, file_type, data, name) + rest;
            &&& directory_items(parent, item) == seq![EntryView { parent, child, name }]
                + directory_items(parent, rest)
            &&& all_whole(item) == all_whole(rest)
        }),
        directory_items(parent, Seq::empty()).len() == 0,
        all_whole(Seq::empty()),
{
    let first = entry_bytes(child, filling, file_type, data, name);
    let item = first + rest;
    lemma_limits();
    lemma_bytes_length(child as nat, 8);
    lemma_bytes_length(data.len(), 2);
    lemma_bytes_length(name.len(), 2);
    assert(item.subrange(0, 8) =~= bytes_of(child as nat, 8));
    assert(item.subrange(25, 27) =~= bytes_of(data.len(), 2));
    assert(item.subrange(27, 29) =~= bytes_of(name.len(), 2));
    law_numbers_read_back(item, 0, child as nat, 8);
    law_numbers_read_back(item, 25, data.len(), 2);
    law_numbers_read_back(item, 27, name.len(), 2);
    assert(first_length(item) == first.len());
    assert(item.subrange((30 + data.len()) as int, first.len() as int) =~= name);
    assert(item.skip(first.len() as int) =~= rest);
    assert(first_entry(parent, item) =~= (EntryView { parent, child, name }));
}

/// An item of a page: a header with the transaction, the key and the length, then the data.
pub open spec fn item_bytes(
    transaction: u64,
    objectid: u64,
    offset: u64,
    item_type: u32,
    data: Seq<u8>,
) -> Seq<u8> {
    bytes_of(transaction as nat, 8) + bytes_of(objectid as nat, 8) + bytes_of(offset as nat, 8)
        + bytes_of(item_type as nat, 4) + bytes_of(data.len(), 4) + data
}

/// The items of a page read back one by one, wherever they stand, and nothing between them is
/// skipped.
pub proof fn law_pages_read_back(
    front: Seq<u8>,
    transaction: u64,
    objectid: u64,
    offset: u64,
    item_type: u32,
    data: Seq<u8>,
    back: Seq<u8>,
)
    requires
        data.len() <= u32::MAX,
    ensures
        ({
            let item = item_bytes(transaction, objectid, offset, item_type, data);
            let page = front + item + back;
            &&& item_inside(page, front.len() as int)
            &&& item_at(page, front.len() as int) == FoundItem { objectid, item_type, offset, data }
            &&& next_cursor(page, front.len() as int) == front.len() + item.len()
        }),
{
    let item = item_bytes(transaction, objectid, offset, item_type, data);
    let page = front + item + back;
    let at = front.len() as int;
    lemma_limits();
    lemma_bytes_length(transaction as nat, 8);
    lemma_bytes_length(objectid as nat, 8);
    lemma_bytes_length(offset as nat, 8);
    lemma_bytes_length(item_type as nat, 4);
    lemma_bytes_length(data.len(), 4);
    assert(page.subrange(at + 8, at + 16) =~= bytes_of(objectid as nat, 8));
    assert(page.subrange(at + 16, at + 24) =~= bytes_of(offset as nat, 8));
    assert(page.subrange(at + 24, at + 28) =~= bytes_of(item_type as nat, 4));
    assert(page.subrange(at + 28, at + 32) =~= bytes_of(data.len(), 4));
    law_numbers_read_back(page, at + 8, objectid as nat, 8);
    law_numbers_read_back(page, at + 16, offset as nat, 8);
    law_numbers_read_back(page, at + 24, item_type as nat, 4);
    law_numbers_read_back(page, at + 28, data.len(), 4);
    assert(page.subrange(at + 32, at + 32 + data.len()) =~= data);
}

/// An inode item files its inode under its number, a directory item or directory index adds its
/// entries behind those found, and anything else changes nothing. Every item of a page counts.
pub proof fn law_every_item_counts(
    found: FoundView,
    page: Seq<u8>,
    cursor: int,
    count: nat,
    item: FoundItem,
)
    requires
        item == item_at(page, cursor),
        count > 0,
    ensures
        item.item_type == 1 ==> with_item(found, item).inodes == found.inodes.insert(
            item.objectid,
            meta_of(item.objectid, item.data),
        ) && with_item(found, item).entries == found.entries,
        item.item_type == 84 || item.item_type == 96 ==> with_item(found, item).entries
            == found.entries + directory_items(item.objectid, item.data) && with_item(
            found,
            item,
        ).inodes == found.inodes,
        item.item_type != 1 && item.item_type != 84 && item.item_type != 96 ==> with_item(
            found,
            item,
        ) == found,
        with_page(found, page, cursor, count) == with_page(
            with_item(found, item),
            page,
            next_cursor(page, cursor),
            (count - 1) as nat,
        ),
{
}

/// The first search leaves nothing out: every key lies in its bounds.
pub proof fn law_searches_start_with_everything(objectid: u64, item_type: u32, offset: u64, transid: u64)
    ensures
        whole_tree().min_objectid <= objectid <= whole_tree().max_objectid,
        whole_tree().min_type <= item_type <= whole_tree().max_type,
        whole_tree().min_offset <= offset <= whole_tree().max_offset,
        whole_tree().min_transid <= transid <= whole_tree().max_transid,
        whole_tree().nr_items > 0,
{
}

/// The last item of a page is the one behind all others.
pub proof fn law_the_last_item_ends_the_page(page: Seq<u8>, cursor: int, count: nat)
    requires
        count > 0,
    ensures
        count == 1 ==> last_item(page, cursor, count) == item_at(page, cursor),
        count > 1 ==> last_item(page, cursor, count) == last_item(
            page,
            next_cursor(page, cursor),
            (count - 1) as nat,
        ),
{
}

/// An inode item has at least 176 bytes, a directory item is whole entries, and any other item will
/// do.
pub proof fn law_usable_items_have_their_form(item: FoundItem)
    ensures
        item.item_type == 1 ==> (item_usable(item) <==> item.data.len() >= 176),
        item.item_type == 84 || item.item_type == 96 ==> (item_usable(item) <==> all_whole(
            item.data,
        )),
        item.item_type != 1 && item.item_type != 84 && item.item_type != 96 ==> item_usable(item),
{
}

/// A page can be used exactly if all of its items can.
pub proof fn law_usable_pages_hold_usable_items(page: Seq<u8>, cursor: int, count: nat)
    ensures
        count == 0 ==> page_usable(page, cursor, count),
        count > 0 ==> (page_usable(page, cursor, count) <==> cursor + 32 <= page.len()
            && next_cursor(page, cursor) <= page.len() && item_usable(item_at(page, cursor))
            && page_usable(page, next_cursor(page, cursor), (count - 1) as nat)),
{
}

} // verus!
