use std::collections::HashMap;

use akimi::btrfs::direct::{finish_scan, lay_out};
use akimi::btrfs::error::{BtrfsError, DirectError};
use akimi::btrfs::mount::{
    choose_scanner, is_btrfs_device, is_btrfs_magic, BtrfsFilesystem, MountMetadata, Scanner,
};
use akimi::btrfs::naive::{file_key, kind, FileMetadata, Walk};
use akimi::btrfs::search::{
    parse_directory_items, parse_inode, read_i64, read_u16, read_u32, read_u64, DirectoryEntry,
    InodeMeta, TreeSearch,
};
use akimi::failure::IoError;
use akimi::filesystem::{Filesystem, FilesystemError, Route};
use akimi::session::is_displayable;
use akimi::{AggregateError, ArenaError, NodeId, NodeKind};

fn failure(permission_denied: bool) -> IoError {
    IoError {
        permission_denied,
        message: "no luck".to_string(),
    }
}

fn metadata(inode: u64, is_dir: bool, blocks: u64) -> FileMetadata {
    FileMetadata {
        device: 1,
        inode,
        is_dir,
        is_file: !is_dir,
        is_symlink: false,
        len: 100,
        blocks,
        links: 1,
        mtime: 5,
    }
}

fn mounted() -> BtrfsFilesystem {
    BtrfsFilesystem::open(
        b"/mnt",
        MountMetadata {
            is_dir: true,
            block_size: 4096,
            on_btrfs: true,
        },
        3,
    )
    .unwrap()
}

#[test]
fn little_endian_numbers_are_read_inside_the_item() {
    let bytes = [1, 2, 3, 4, 5, 6, 7, 0xff, 9];
    assert_eq!(read_u16(&bytes, 0).unwrap(), 0x0201);
    assert_eq!(read_u32(&bytes, 1).unwrap(), 0x0504_0302);
    assert_eq!(read_u64(&bytes, 0).unwrap(), 0xff07_0605_0403_0201);
    assert_eq!(read_i64(&[0xfe, 255, 255, 255, 255, 255, 255, 255], 0).unwrap(), -2);
    assert!(matches!(read_u16(&bytes, 8), Err(DirectError::InvalidItem)));
    assert!(matches!(
        read_u64(&bytes, usize::MAX),
        Err(DirectError::InvalidItem)
    ));
}

fn inode_item(mode: u32, size: u64, allocated: u64, links: u32, mtime: i64) -> Vec<u8> {
    let mut item = vec![0_u8; 176];
    item[16..24].copy_from_slice(&size.to_le_bytes());
    item[24..32].copy_from_slice(&allocated.to_le_bytes());
    item[40..44].copy_from_slice(&links.to_le_bytes());
    item[52..56].copy_from_slice(&mode.to_le_bytes());
    item[144..152].copy_from_slice(&mtime.to_le_bytes());
    item
}

fn directory_item(child: u64, name: &[u8]) -> Vec<u8> {
    let mut item = vec![0_u8; 30];
    item[0..8].copy_from_slice(&child.to_le_bytes());
    item[27..29].copy_from_slice(&(name.len() as u16).to_le_bytes());
    item.extend_from_slice(name);
    item
}

fn found(page: &mut Vec<u8>, object: u64, kind: u32, offset: u64, data: &[u8]) {
    page.extend_from_slice(&0_u64.to_le_bytes());
    page.extend_from_slice(&object.to_le_bytes());
    page.extend_from_slice(&offset.to_le_bytes());
    page.extend_from_slice(&kind.to_le_bytes());
    page.extend_from_slice(&(data.len() as u32).to_le_bytes());
    page.extend_from_slice(data);
}

#[test]
fn inode_items_are_parsed() {
    let mut inodes = HashMap::new();
    parse_inode(300, &inode_item(0o100_644, 10, 4096, 2, -9), &mut inodes).unwrap();
    assert_eq!(
        inodes[&300],
        InodeMeta {
            inode: 300,
            kind: NodeKind::File,
            logical_size: 10,
            allocated_size: 4096,
            links: 2,
            mtime: -9
        }
    );
    parse_inode(301, &inode_item(0o120_777, 1, 1, 1, 0), &mut inodes).unwrap();
    assert_eq!(inodes[&301].kind, NodeKind::Symlink);
    parse_inode(302, &inode_item(0o010_000, 1, 1, 1, 0), &mut inodes).unwrap();
    assert_eq!(inodes[&302].kind, NodeKind::Other);
    assert!(parse_inode(303, &[0; 175], &mut inodes).is_err());
}

#[test]
fn directory_items_may_hold_several_names() {
    let mut item = directory_item(300, b"one");
    item.extend(directory_item(301, b"two"));
    let mut entries = Vec::new();
    parse_directory_items(256, &item, &mut entries).unwrap();
    assert_eq!(entries.len(), 2);
    assert_eq!(entries[1].parent, 256);
    assert_eq!(entries[1].child, 301);
    assert_eq!(entries[1].name, b"two");
    assert!(parse_directory_items(256, &item[..40], &mut Vec::new()).is_err());
}

#[test]
fn searches_go_on_behind_the_last_item() {
    let mut search = TreeSearch::new();
    let mut page = Vec::new();
    found(&mut page, 256, 1, 0, &inode_item(0o040_755, 0, 0, 1, 0));
    found(&mut page, 256, 96, 7, &directory_item(300, b"file"));
    found(&mut page, 256, 12, 9, b"ignored");
    assert!(search.take_page(&page, 3).unwrap());
    assert_eq!(search.inodes.len(), 1);
    assert_eq!(search.entries.len(), 1);
    assert_eq!(search.key.min_objectid, 256);
    assert_eq!(search.key.min_type, 12);
    assert_eq!(search.key.min_offset, 10);
    assert!(!search.take_page(&[], 0).unwrap());
    assert!(matches!(
        search.take_page(&page, 4),
        Err(DirectError::InvalidItem)
    ));
    let mut last = Vec::new();
    found(&mut last, 256, 12, u64::MAX, b"");
    assert!(search.take_page(&last, 1).is_err());
}

fn meta(inode: u64, kind: NodeKind, size: u64) -> InodeMeta {
    InodeMeta {
        inode,
        kind,
        logical_size: size,
        allocated_size: size,
        links: 1,
        mtime: 0,
    }
}

fn entry(parent: u64, child: u64, name: &[u8]) -> DirectoryEntry {
    DirectoryEntry {
        parent,
        child,
        name: name.to_vec(),
    }
}

#[test]
fn direct_scans_attribute_allocation_once() {
    let inodes = HashMap::from([
        (256, meta(256, NodeKind::Directory, 1)),
        (257, meta(257, NodeKind::Directory, 2)),
        (258, meta(258, NodeKind::File, 50)),
    ]);
    let entries = vec![
        entry(256, 257, b"sub"),
        entry(256, 257, b"sub"),
        entry(256, 258, b"file"),
        entry(257, 258, b"again"),
        entry(257, 999, b"gone"),
        entry(257, 256, b"loop"),
    ];
    let laid = lay_out(&inodes, &entries).unwrap();
    let mut filesystem = mounted();
    let scan = finish_scan(laid, &mut filesystem.info, 3, 4).unwrap();
    assert!(is_displayable(&scan.result));
    assert_eq!(filesystem.info.inode_count, 3);
    assert_eq!(scan.timings.inode_scan, 4);
    assert_eq!(scan.result.totals[0].recursive_allocated, 53);
    assert_eq!(scan.stats.hard_link_entries, 3);
    assert_eq!(
        scan.stats.hard_link_entries + filesystem.info.inode_count,
        scan.result.arena.nodes().len() as u64
    );
    assert_eq!(scan.warnings.directory_aliases, 2);
    assert_eq!(scan.warnings.missing_inode_references, 1);
    let mut paths = (0..scan.result.arena.nodes().len())
        .map(|id| scan.result.arena.display_path(NodeId(id as u32)))
        .collect::<Vec<_>>();
    paths.sort();
    assert_eq!(
        paths,
        vec!["/", "/file", "/sub", "/sub", "/sub/again", "/sub/loop"]
    );
    assert!(matches!(
        lay_out(&HashMap::new(), &Vec::new()),
        Err(DirectError::InvalidItem)
    ));
}

#[test]
fn walks_visit_directories_breadth_first() {
    let mut walk = Walk::start(b"/mnt".to_vec(), &metadata(256, true, 8));
    assert_eq!(walk.next_directory(), Some(b"/mnt".to_vec()));
    walk.add_entry(b"sub", b"/mnt/sub".to_vec(), &metadata(257, true, 1))
        .unwrap();
    walk.add_entry(b"file", b"/mnt/file".to_vec(), &metadata(258, false, 2))
        .unwrap();
    assert_eq!(walk.next_directory(), Some(b"/mnt/sub".to_vec()));
    walk.add_entry(b"link", b"/mnt/sub/link".to_vec(), &metadata(258, false, 2))
        .unwrap();
    walk.note_missing();
    walk.note_scan_error();
    assert_eq!(walk.warnings().directory_scan_errors, 1);
    assert_eq!(walk.warnings().missing_inode_references, 1);
    assert_eq!(walk.next_directory(), None);
    let mut filesystem = mounted();
    let scan = walk.finish(&mut filesystem.info, 3, 9).unwrap();
    assert!(is_displayable(&scan.result));
    assert_eq!(filesystem.info.inode_count, 3);
    assert_eq!(scan.result.totals[0].recursive_allocated, 11 * 512);
    assert_eq!(scan.stats.hard_link_entries, 1);
    assert_eq!(scan.warnings.missing_inode_references, 1);
    assert_eq!(scan.warnings.directory_scan_errors, 1);
    assert_eq!(scan.timings.directory_scan, 9);
    assert_eq!(scan.result.arena.display_path(NodeId(3)), "/sub/link");
}

#[test]
fn walks_refuse_names_that_are_too_long() {
    let mut walk = Walk::start(b"/".to_vec(), &metadata(256, true, 0));
    let result = walk.add_entry(&[b'x'; 70_000], b"/x".to_vec(), &metadata(3, false, 0));
    assert!(matches!(
        result,
        Err(BtrfsError::Arena(ArenaError::NameTooLong(70_000)))
    ));
}

#[test]
fn files_are_told_apart_by_device_and_inode() {
    let one = metadata(5, false, 0);
    let other = FileMetadata { device: 2, ..one };
    assert_ne!(file_key(&one), file_key(&other));
    assert_eq!(file_key(&one), (1_u128 << 64) + 5);
    assert_eq!(kind(&one), NodeKind::File);
    assert_eq!(kind(&metadata(1, true, 0)), NodeKind::Directory);
}

#[test]
fn btrfs_is_recognised() {
    assert!(is_btrfs_magic(0x9123_683e));
    assert!(!is_btrfs_magic(0xef53));
    assert!(is_btrfs_device(b"_BHRfS_M"));
    assert!(!is_btrfs_device(b"_BHRfS_X"));
    assert!(!is_btrfs_device(b""));
    assert_eq!(choose_scanner(Some(b"naive")), Scanner::Naive);
    assert_eq!(choose_scanner(Some(b"fast")), Scanner::Direct);
    assert_eq!(choose_scanner(None), Scanner::Naive);
    assert_eq!(mounted().info().filesystem_type, "btrfs");
    let refused = BtrfsFilesystem::open(
        b"/mnt",
        MountMetadata {
            is_dir: true,
            block_size: 4096,
            on_btrfs: false,
        },
        0,
    );
    assert!(matches!(
        refused,
        Err(BtrfsError::RequiresMountedDirectory(path)) if path == b"/mnt"
    ));
    let image = BtrfsFilesystem::open(
        b"/mnt/disk.img",
        MountMetadata {
            is_dir: false,
            block_size: 4096,
            on_btrfs: true,
        },
        0,
    );
    assert!(matches!(
        image,
        Err(BtrfsError::RequiresMountedDirectory(path)) if path == b"/mnt/disk.img"
    ));
}

#[test]
fn btrfs_errors_are_described() {
    assert_eq!(
        BtrfsError::RequiresMountedDirectory(b"/x".to_vec()).message(),
        "btrfs scanning requires a mounted btrfs directory: /x"
    );
    let inspect = BtrfsError::InspectPath {
        path: b"/x".to_vec(),
        source: failure(true),
    };
    assert!(inspect.is_permission_denied());
    assert_eq!(inspect.message(), "cannot inspect btrfs path /x: no luck");
    assert_eq!(
        BtrfsError::Aggregate(AggregateError::ParentCycle).message(),
        "node parent relationships contain a cycle"
    );
    assert_eq!(
        DirectError::Io(failure(false)).message(),
        "btrfs tree search failed: no luck"
    );
    assert_eq!(DirectError::InvalidItem.message(), "invalid btrfs tree item");
    let open = DirectError::Open {
        path: b"/x".to_vec(),
        source: failure(false),
    };
    assert_eq!(open.message(), "cannot open btrfs mount /x: no luck");
    let wrapped = BtrfsError::from_direct(DirectError::InvalidItem, b"/x");
    assert_eq!(
        wrapped.message(),
        "direct btrfs reader: invalid btrfs tree item"
    );
    let denied = BtrfsError::from_direct(DirectError::Io(failure(true)), b"/x");
    assert!(denied.is_permission_denied());
}

#[test]
fn filesystems_are_routed() {
    assert_eq!(Filesystem::route(true, true, false), Route::Btrfs);
    assert_eq!(Filesystem::route(true, false, false), Route::Unsupported);
    assert_eq!(Filesystem::route(false, false, false), Route::Ext4);
    assert_eq!(Filesystem::route(false, false, true), Route::Btrfs);
    assert_eq!(Filesystem::route(false, true, true), Route::Btrfs);
}

#[test]
fn ext4_images_stored_on_btrfs_go_to_ext4() {
    assert_eq!(Filesystem::route(false, true, false), Route::Ext4);
}

#[test]
fn filesystems_are_described() {
    let filesystem = Filesystem::Btrfs(mounted());
    assert!(filesystem.is_btrfs());
    assert_eq!(filesystem.info().block_size, 4096);
    let error = FilesystemError::UnsupportedPath {
        path: b"/x".to_vec(),
    };
    assert!(!error.is_permission_denied());
    assert_eq!(error.message(), "/x is not a supported filesystem path");
}
