use akimi::ext4::error::{check, Ext4Error, NativeError, ACCESS_DENIED};
use akimi::ext4::merge::{merge_dir_chunks, DirWork, DirectoryScan};
use akimi::ext4::scan::{
    are_ascending, batch_fits, directories_of, directory_batch, finish_scan, group_step,
    keep_inodes, lay_out, sort_inodes, worker_count, Ext4Filesystem, GroupStep, RawInode,
    Superblock,
};
use akimi::ext4::tree::{build_tree, DirRange, DirectoryEntry, InodeInfo};
use akimi::failure::IoError;
use akimi::{
    AggregateError, ArenaError, NameArena, NodeId, NodeKind, ScanResult, ScanTimings, ScanWarnings,
};

fn inode(inode: u64, kind: NodeKind, size: u64, links: u32) -> InodeInfo {
    InodeInfo {
        inode,
        kind,
        logical_size: size,
        allocated_size: size,
        links,
        mtime: 0,
    }
}

#[test]
fn builds_paths_and_attributes_a_hard_link_once() {
    let mut names = NameArena::default();
    let root_name = names.push(b"/").unwrap();
    let a = names.push(b"a").unwrap();
    let b = names.push(b"b").unwrap();
    let first = names.push(b"first").unwrap();
    let second = names.push(b"second").unwrap();
    let entries = vec![
        DirectoryEntry {
            parent_inode: 2,
            child_inode: 12,
            name: a,
        },
        DirectoryEntry {
            parent_inode: 2,
            child_inode: 13,
            name: b,
        },
        DirectoryEntry {
            parent_inode: 12,
            child_inode: 20,
            name: first,
        },
        DirectoryEntry {
            parent_inode: 13,
            child_inode: 20,
            name: second,
        },
    ];
    let ranges = vec![
        DirRange {
            parent: 2,
            start: 0,
            end: 2,
        },
        DirRange {
            parent: 12,
            start: 2,
            end: 3,
        },
        DirRange {
            parent: 13,
            start: 3,
            end: 4,
        },
    ];
    let inodes = vec![
        inode(2, NodeKind::Directory, 1, 2),
        inode(12, NodeKind::Directory, 1, 2),
        inode(13, NodeKind::Directory, 1, 2),
        inode(20, NodeKind::File, 100, 2),
    ];

    let (arena, warnings, hard_links) =
        build_tree(inodes, entries, ranges, names, root_name).unwrap();
    let scan = ScanResult::new(arena).unwrap();

    assert_eq!(scan.arena.display_path(NodeId(3)), "/a/first");
    assert_eq!(scan.arena.display_path(NodeId(4)), "/b/second");
    assert_eq!(scan.totals[0].recursive_allocated, 103);
    assert_eq!(hard_links, 1);
    assert_eq!(warnings.total(), 0);
}

#[test]
fn trees_need_a_root_directory() {
    let mut names = NameArena::default();
    let root = names.push(b"/").unwrap();
    let result = build_tree(Vec::new(), Vec::new(), Vec::new(), names, root);
    assert!(matches!(result, Err(Ext4Error::MissingRoot)));
    let mut names = NameArena::default();
    let root = names.push(b"/").unwrap();
    let result = build_tree(
        vec![inode(2, NodeKind::File, 1, 1)],
        Vec::new(),
        Vec::new(),
        names,
        root,
    );
    assert!(matches!(result, Err(Ext4Error::RootNotDirectory)));
}

fn work(parent: u64, children: &[(u64, &[u8])]) -> DirWork {
    let mut work = DirWork::default();
    let mut numbers = Vec::new();
    let mut offsets = Vec::new();
    let mut lengths = Vec::new();
    let mut bytes = Vec::new();
    for (child, name) in children {
        numbers.push(*child);
        offsets.push(bytes.len() as u32);
        lengths.push(name.len() as u16);
        bytes.extend_from_slice(name);
    }
    assert!(batch_fits(&numbers, &offsets, &lengths, &bytes));
    let added = work.push_batch(parent, &numbers, &offsets, &lengths, &bytes);
    work.finish_directory(added, Ok(()), "").unwrap();
    work
}

#[test]
fn merged_chunks_lay_out_like_one_scan() {
    let inodes = || {
        vec![
            inode(2, NodeKind::Directory, 1, 3),
            inode(11, NodeKind::Directory, 1, 2),
            inode(12, NodeKind::File, 50, 2),
            inode(13, NodeKind::Symlink, 5, 1),
            inode(14, NodeKind::File, 7, 1),
        ]
    };
    let one = [
        work(2, &[(11, b"dir"), (12, b"file"), (99, b"gone")]),
        work(11, &[(12, b"again"), (13, b"link"), (11, b"loop")]),
    ];
    let two = [
        work(11, &[(12, b"again"), (13, b"link"), (11, b"loop")]),
        work(2, &[(11, b"dir"), (12, b"file"), (99, b"gone")]),
    ];
    let mut paths = Vec::new();
    for chunks in [one, two] {
        let directories = merge_dir_chunks(chunks.into_iter().collect()).unwrap();
        assert_eq!(directories.entries.len(), 6);
        let laid = lay_out(inodes(), directories).unwrap();
        assert_eq!(laid.stats.allocated_inodes, 5);
        assert_eq!(laid.stats.files, 2);
        assert_eq!(laid.stats.symlinks, 1);
        assert_eq!(laid.stats.nodes, 5);
        assert_eq!(laid.stats.hard_link_entries, 1);
        assert_eq!(laid.warnings.missing_inode_references, 1);
        assert_eq!(laid.warnings.nodes_without_parent, 1);
        assert_eq!(laid.warnings.directory_aliases, 1);
        let scan = finish_scan(laid, ScanTimings::default(), 3).unwrap();
        assert_eq!(scan.workers, 3);
        assert_eq!(scan.result.totals[0].recursive_allocated, 57);
        paths.push(
            (0..5)
                .map(|id| scan.result.arena.display_path(NodeId(id)))
                .collect::<Vec<_>>(),
        );
    }
    assert_eq!(paths[0], vec!["/", "/dir", "/file", "/dir/again", "/dir/link"]);
    assert_eq!(paths[0], paths[1]);
}

fn links(scan: &DirectoryScan) -> Vec<(u64, u64, Vec<u8>)> {
    scan.entries
        .iter()
        .map(|entry| {
            (
                entry.parent_inode,
                entry.child_inode,
                scan.names.get(entry.name).to_vec(),
            )
        })
        .collect()
}

#[test]
fn sharing_directories_out_differently_changes_nothing() {
    let serial = || {
        let mut all = work(2, &[(11, b"dir"), (12, b"file")]);
        let added = all.push_batch(11, &[12, 13], &[0, 5], &[5, 4], b"againlink");
        all.finish_directory(added, Ok(()), "").unwrap();
        let added = all.push_batch(12, &[14], &[0], &[1], b"x");
        let failed = NativeError::Library {
            operation: "reading",
            code: 5,
        };
        all.finish_directory(added, Err(failed), "").unwrap();
        vec![all]
    };
    let parallel = || {
        let mut last = work(12, &[(14, b"x")]);
        let failed = NativeError::Library {
            operation: "reading",
            code: 5,
        };
        last.finish_directory(Ok(()), Err(failed), "").unwrap();
        vec![
            last,
            DirWork::default(),
            work(11, &[(12, b"again"), (13, b"link")]),
            work(2, &[(11, b"dir"), (12, b"file")]),
        ]
    };
    let one = merge_dir_chunks(serial()).unwrap();
    let other = merge_dir_chunks(parallel()).unwrap();
    assert_eq!(links(&one), links(&other));
    assert_eq!(
        links(&one)[2],
        (11, 12, b"again".to_vec())
    );
    assert_eq!(one.ranges, other.ranges);
    assert_eq!(one.warnings, other.warnings);
    assert_eq!(one.warnings.directory_scan_errors, 1);

    let inodes = || {
        vec![
            inode(2, NodeKind::Directory, 1, 3),
            inode(11, NodeKind::Directory, 1, 2),
            inode(12, NodeKind::File, 50, 2),
            inode(13, NodeKind::Symlink, 5, 1),
        ]
    };
    let mut shuffled = inodes();
    shuffled.rotate_left(2);
    let alone = finish_scan(
        lay_out(inodes(), one).unwrap(),
        ScanTimings::default(),
        worker_count(1, 4),
    )
    .unwrap();
    let together = finish_scan(
        lay_out(sort_inodes(shuffled), other).unwrap(),
        ScanTimings::default(),
        worker_count(3, 4),
    )
    .unwrap();
    assert_eq!(alone.workers, 1);
    assert_eq!(together.workers, 3);
    assert_eq!(alone.stats, together.stats);
    assert_eq!(alone.warnings, together.warnings);
    assert_eq!(alone.result.totals, together.result.totals);
    let nodes = alone.result.arena.nodes();
    assert_eq!(
        alone.stats.hard_link_entries + alone.stats.allocated_inodes,
        nodes.len() as u64
    );
    for (index, node) in nodes.iter().enumerate() {
        let id = NodeId(index as u32);
        let other = &together.result.arena.nodes()[index];
        assert_eq!(node.parent, other.parent);
        assert_eq!(node.allocated_size, other.allocated_size);
        assert_eq!(alone.result.arena.name(id), together.result.arena.name(id));
    }
}

#[test]
fn the_first_node_of_an_inode_carries_its_allocation() {
    let chunks = vec![
        work(2, &[(11, b"dir"), (12, b"file"), (12, b"twin")]),
        work(11, &[(12, b"again")]),
    ];
    let inodes = vec![
        inode(2, NodeKind::Directory, 1, 3),
        inode(11, NodeKind::Directory, 2, 2),
        inode(12, NodeKind::File, 50, 3),
    ];
    let laid = lay_out(inodes, merge_dir_chunks(chunks).unwrap()).unwrap();
    let sizes = laid
        .arena
        .nodes()
        .iter()
        .map(|node| (node.inode, node.allocated_size))
        .collect::<Vec<_>>();
    assert_eq!(sizes, vec![(2, 1), (11, 2), (12, 50), (12, 0), (12, 0)]);
    assert_eq!(laid.stats.hard_link_entries, 2);
}

#[test]
fn unreadable_directories_are_counted() {
    let mut work = DirWork::default();
    let failed = NativeError::Library {
        operation: "reading",
        code: 5,
    };
    assert!(work.finish_directory(Ok(()), Err(failed), "input error").is_ok());
    assert_eq!(work.warnings.directory_scan_errors, 1);
    let panicked = work.finish_directory(Ok(()), Err(NativeError::CallbackPanicked), "");
    assert!(matches!(panicked, Err(Ext4Error::Native { .. })));
    let added = work.finish_directory(Err(ArenaError::NamesTooLarge), Ok(()), "");
    assert!(matches!(
        added,
        Err(Ext4Error::Arena(ArenaError::NamesTooLarge))
    ));
}

#[test]
fn batches_are_checked_before_they_are_read() {
    assert!(batch_fits(&[1, 2], &[0, 1], &[1, 2], b"abc"));
    assert!(!batch_fits(&[1, 2], &[0], &[1, 2], b"abc"));
    assert!(!batch_fits(&[1], &[2], &[2], b"abc"));
    assert!(batch_fits(&[], &[], &[], b""));
}

#[test]
fn reserved_inodes_are_left_out() {
    let raw = |inode, kind| RawInode {
        inode,
        logical_size: 1,
        allocated_size: 2,
        links: 3,
        mtime: 4,
        kind,
    };
    let mut inodes = Vec::new();
    keep_inodes(
        &[raw(1, 0), raw(2, 1), raw(10, 0), raw(11, 2), raw(12, 9)],
        11,
        &mut inodes,
    );
    let kept = inodes
        .iter()
        .map(|inode| (inode.inode, inode.kind))
        .collect::<Vec<_>>();
    assert_eq!(
        kept,
        vec![
            (2, NodeKind::Directory),
            (11, NodeKind::Symlink),
            (12, NodeKind::Other)
        ]
    );
    assert_eq!(directories_of(&inodes), vec![2]);
    inodes.reverse();
    assert!(!are_ascending(&inodes));
    let sorted = sort_inodes(inodes);
    assert!(are_ascending(&sorted));
    assert_eq!(sorted[0].inode, 2);
}

#[test]
fn groups_cover_every_inode_once() {
    let mut next = 1;
    for group in 0..3 {
        match group_step(group, 3, 100, 250) {
            GroupStep::Read { first, last } => {
                assert_eq!(first, next);
                next = last + 1;
            }
            _ => panic!("group {group} is not read"),
        }
    }
    assert_eq!(next, 251);
    assert!(matches!(group_step(3, 3, 100, 250), GroupStep::Finished));
    assert!(matches!(group_step(3, 9, 100, 250), GroupStep::Skip));
    assert_eq!(worker_count(0, 10), 1);
    assert_eq!(worker_count(8, 4), 4);
    assert_eq!(worker_count(8, 0), 0);
    assert_eq!(directory_batch(0, 100), Some((0, 64)));
    assert_eq!(directory_batch(64, 100), Some((64, 100)));
    assert_eq!(directory_batch(128, 100), None);
}

#[test]
fn native_errors_are_described() {
    assert!(check("open", 0).is_ok());
    let error = check("open", 13).unwrap_err();
    assert_eq!(error.code(), Some(13));
    assert_eq!(
        error.message("Permission denied"),
        "open: Permission denied (libext2fs error 13)"
    );
    assert_eq!(NativeError::PathContainsNul.code(), None);
    assert_eq!(
        NativeError::PathContainsNul.message(""),
        "device path contains a NUL byte"
    );
    assert_eq!(
        NativeError::CallbackPanicked.message(""),
        "filesystem callback panicked"
    );
    let wrapped = Ext4Error::from_native(check("open", ACCESS_DENIED).unwrap_err(), "x");
    assert!(wrapped.is_permission_denied());
    assert_eq!(
        wrapped.message(),
        "libext2fs: open: x (libext2fs error 13)"
    );
    let negative = check("read", -7).unwrap_err();
    assert_eq!(negative.message("y"), "read: y (libext2fs error -7)");
}

#[test]
fn ext4_errors_are_described() {
    let source = IoError {
        permission_denied: true,
        message: "denied".to_string(),
    };
    let inspect = Ext4Error::InspectPath {
        path: b"/dev/x".to_vec(),
        source,
    };
    assert!(inspect.is_permission_denied());
    assert_eq!(inspect.message(), "cannot inspect /dev/x: denied");
    assert_eq!(
        Ext4Error::MissingRoot.message(),
        "filesystem has no live root inode"
    );
    assert_eq!(
        Ext4Error::RootNotDirectory.message(),
        "filesystem root inode is not a directory"
    );
    assert_eq!(
        Ext4Error::WorkerPanicked.message(),
        "filesystem scan worker panicked"
    );
    assert_eq!(
        Ext4Error::Arena(ArenaError::NamesTooLarge).message(),
        "name arena exceeds 4 GiB"
    );
    let cycle = Ext4Error::Aggregate(AggregateError::ParentCycle);
    assert!(!cycle.is_permission_denied());
    assert_eq!(cycle.message(), "node parent relationships contain a cycle");
}

fn superblock(is_ext4: u8) -> Superblock {
    Superblock {
        block_size: 4096,
        first_inode: 11,
        inodes_per_group: 8192,
        group_count: 2,
        inode_count: 16_384,
        allocated_inode_count: 100,
        feature_compat: 1,
        feature_incompat: 2,
        feature_ro_compat: 3,
        is_ext4,
    }
}

#[test]
fn only_ext4_is_opened() {
    assert!(Ext4Filesystem::check_source(b"/dev/x", true, false).is_ok());
    assert!(Ext4Filesystem::check_source(b"image", false, true).is_ok());
    let error = Ext4Filesystem::check_source(b"/dir", false, false).unwrap_err();
    assert_eq!(
        error.message(),
        "/dir is neither a block device nor a regular filesystem image"
    );
    let opened = Ext4Filesystem::open_source(b"/dev/x", superblock(1), 9).unwrap();
    assert_eq!(opened.info().device, b"/dev/x");
    assert_eq!(opened.info().filesystem_type, "ext4");
    assert_eq!(opened.info().inode_count, 16_384);
    assert_eq!(opened.info().reported_allocated_inodes, 100);
    assert_eq!(opened.info().size_accounting, "allocated blocks");
    assert_eq!(opened.open_time, 9);
    let error = Ext4Filesystem::open_source(b"/dev/x", superblock(0), 9).unwrap_err();
    assert!(matches!(error, Ext4Error::NotExt4(_)));
    assert_eq!(
        error.message(),
        "/dev/x is an ext2 or ext3 filesystem; Akimi requires ext4"
    );
    assert_eq!(ScanWarnings::default().total(), 0);
}
