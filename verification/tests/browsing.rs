use akimi::file_ops::DeleteMode;
use akimi::presentation;
use akimi::presentation::Crumb;
use akimi::session::{browsed_path, is_displayable, ReadyState, Session, Stage};
use akimi::tree_model::{ancestor_chain, TreeModel};
use akimi::volumes::Volume;
use akimi::{
    FilesystemScan, NameArena, NameRef, Node, NodeArena, NodeId, NodeKind, ScanResult, ScanStats,
    ScanTimings, ScanWarnings,
};

fn node(parent: NodeId, name: NameRef, kind: NodeKind, size: u64) -> Node {
    Node {
        parent,
        inode: 1,
        name,
        kind,
        logical_size: size,
        allocated_size: size,
        links: 1,
        mtime: 0,
    }
}

fn scan_of(nodes: Vec<Node>, names: NameArena) -> FilesystemScan {
    FilesystemScan {
        result: ScanResult::new(NodeArena::from_parts(nodes, names)).unwrap(),
        stats: ScanStats::default(),
        timings: ScanTimings::default(),
        warnings: ScanWarnings::default(),
        workers: 1,
    }
}

fn scan_with_nested_directory() -> FilesystemScan {
    let mut names = NameArena::with_capacity(32);
    let root = names.push(b"/").unwrap();
    let small = names.push(b"small.bin").unwrap();
    let directory = names.push(b"large").unwrap();
    let large = names.push(b"large.bin").unwrap();
    let nodes = vec![
        node(NodeId::root(), root, NodeKind::Directory, 0),
        node(NodeId::root(), small, NodeKind::File, 10),
        node(NodeId::root(), directory, NodeKind::Directory, 0),
        node(NodeId(2), large, NodeKind::File, 100),
    ];
    scan_of(nodes, names)
}

/// A chain of `depth` directories below the root.
fn deep_scan(depth: u32) -> FilesystemScan {
    let mut names = NameArena::default();
    let root = names.push(b"/").unwrap();
    let mut nodes = vec![node(NodeId::root(), root, NodeKind::Directory, 0)];
    for index in 0..depth {
        let name = names.push(format!("d{index}").as_bytes()).unwrap();
        nodes.push(node(NodeId(index), name, NodeKind::Directory, 1));
    }
    scan_of(nodes, names)
}

fn ready(scan: FilesystemScan) -> ReadyState {
    assert!(is_displayable(&scan.result));
    ReadyState::new(
        b"/dev/sda1".to_vec(),
        Some(b"/mnt/data".to_vec()),
        Some(7),
        scan,
        5,
    )
}

#[test]
fn expanded_rows_are_nested_and_sorted_by_allocated_size() {
    let scan = scan_with_nested_directory();
    let mut model = TreeModel::new(&scan);
    assert!(model.toggle(&scan, NodeId(2)));
    let rows = model.rows();
    let visible = rows
        .iter()
        .map(|row| (row.id, row.depth))
        .collect::<Vec<_>>();

    assert_eq!(
        visible,
        vec![
            (NodeId::root(), 0),
            (NodeId(2), 1),
            (NodeId(3), 2),
            (NodeId(1), 1),
        ]
    );
    assert!(rows[0].expanded);
    assert!(rows[1].expanded);
    assert!(!rows[2].expandable);
}

#[test]
fn toggling_twice_restores_the_rows() {
    let scan = scan_with_nested_directory();
    let mut model = TreeModel::new(&scan);
    let before = model.rows().to_vec();
    assert!(model.toggle(&scan, NodeId(2)));
    assert!(model.is_expanded(NodeId(2)));
    assert!(model.toggle(&scan, NodeId(2)));
    assert_eq!(model.rows(), &before[..]);
    assert!(!model.toggle(&scan, NodeId(1)));
}

#[test]
fn revealing_expands_only_what_is_above() {
    let scan = scan_with_nested_directory();
    let mut model = TreeModel::new(&scan);
    assert_eq!(model.reveal_node(&scan, NodeId(3)), Some(2));
    assert!(model.is_expanded(NodeId(2)));
    model.collapse_all(&scan);
    assert!(!model.is_expanded(NodeId(2)));
    assert_eq!(model.reveal_node(&scan, NodeId(2)), Some(1));
    assert!(!model.is_expanded(NodeId(2)));
}

#[test]
fn equal_siblings_stand_by_name() {
    let mut names = NameArena::default();
    let root = names.push(b"/").unwrap();
    let b = names.push(b"b").unwrap();
    let a = names.push(b"a").unwrap();
    let scan = scan_of(
        vec![
            node(NodeId::root(), root, NodeKind::Directory, 0),
            node(NodeId::root(), b, NodeKind::File, 5),
            node(NodeId::root(), a, NodeKind::File, 5),
        ],
        names,
    );
    let model = TreeModel::new(&scan);
    let ids = model.rows().iter().map(|row| row.id.0).collect::<Vec<_>>();
    assert_eq!(ids, vec![0, 2, 1]);
}

#[test]
fn chains_lead_from_the_root() {
    let scan = deep_scan(4);
    assert_eq!(
        ancestor_chain(&scan, NodeId(3)),
        vec![NodeId(0), NodeId(1), NodeId(2), NodeId(3)]
    );
    assert_eq!(ancestor_chain(&scan, NodeId::root()), vec![NodeId(0)]);
}

fn labels(crumbs: &[Crumb]) -> Vec<String> {
    crumbs
        .iter()
        .map(|crumb| match crumb {
            Crumb::Gap => "...".to_string(),
            Crumb::Step { label, last, .. } => {
                if *last {
                    format!("[{label}]")
                } else {
                    label.clone()
                }
            }
        })
        .collect()
}

#[test]
fn breadcrumbs_of_long_ways_show_their_ends() {
    let scan = deep_scan(8);
    assert_eq!(
        labels(&presentation::breadcrumb(&scan, NodeId(4))),
        vec!["/", "d0", "d1", "d2", "[d3]"]
    );
    assert_eq!(
        labels(&presentation::breadcrumb(&scan, NodeId(5))),
        vec!["/", "...", "d2", "d3", "[d4]"]
    );
    assert_eq!(
        labels(&presentation::breadcrumb(&scan, NodeId(8))),
        vec!["/", "...", "d5", "d6", "[d7]"]
    );
    assert_eq!(
        labels(&presentation::breadcrumb(&scan, NodeId::root())),
        vec!["[/]"]
    );
}

#[test]
fn status_line_mentions_the_logical_size_only_where_it_differs() {
    let mut scan = scan_with_nested_directory();
    assert_eq!(
        presentation::status_details(&scan, NodeId(0), "1.0 s"),
        "110 B allocated  ·  3 items  ·  2 files  ·  1 folders  ·  1.0 s scan"
    );
    assert_eq!(
        presentation::status_details(&scan, NodeId(1), "1.0 s"),
        "10 B allocated  ·  1.0 s scan"
    );
    scan.result.totals[1].recursive_logical = 2048;
    assert_eq!(
        presentation::status_details(&scan, NodeId(1), "1.0 s"),
        "10 B allocated  ·  2.00 KiB logical  ·  1.0 s scan"
    );
}

#[test]
fn row_cells_leave_counts_of_files_empty() {
    let scan = scan_with_nested_directory();
    let model = TreeModel::new(&scan);
    let rows = model.rows();
    let root = presentation::row_cells(&scan, rows[0]);
    assert_eq!(root.name, "/");
    assert_eq!(root.size, "110 B");
    assert_eq!(root.items, "3");
    assert_eq!(root.files, "2");
    assert_eq!(root.folders, "1");
    assert_eq!(root.share_of, 110);
    let file = presentation::row_cells(&scan, rows[2]);
    assert_eq!(file.name, "small.bin");
    assert_eq!(file.items, "");
    assert_eq!(file.allocated, 10);
    assert_eq!(file.share_of, 110);
    let empty = deep_scan(0);
    let cells = presentation::row_cells(&empty, TreeModel::new(&empty).rows()[0]);
    assert_eq!(cells.share_of, 1);
}

#[test]
fn volumes_are_described_with_their_mount_point() {
    let mut volume = Volume {
        device: b"/dev/sda1".to_vec(),
        mount_point: Some(b"/mnt".to_vec()),
        scan_path: None,
        filesystem: "ext4".to_string(),
    };
    assert_eq!(presentation::volume_text(&volume), "/dev/sda1  ·  /mnt");
    volume.mount_point = None;
    assert_eq!(presentation::mount_text(&volume), "not mounted");
    assert_eq!(presentation::scanning_text(b"/dev/x"), "Reading /dev/x");
    assert_eq!(
        presentation::failure_title(b"/dev/x"),
        "Could not read /dev/x"
    );
}

#[test]
fn deletions_are_put_into_words() {
    assert_eq!(
        presentation::progress_text(DeleteMode::Trash, "a"),
        "Moving a to Trash"
    );
    assert_eq!(
        presentation::progress_text(DeleteMode::Permanent, "a"),
        "Deleting a"
    );
    assert_eq!(
        presentation::deleted_text(DeleteMode::Trash, "a"),
        "Moved a to Trash"
    );
    assert_eq!(
        presentation::undeleted_text(DeleteMode::Trash, "a", "no"),
        "Could not move a to Trash: no"
    );
    assert_eq!(
        presentation::delete_description(false),
        "The file will be deleted. This cannot be undone."
    );
    assert_eq!(
        presentation::delete_description(true),
        "The folder and everything inside it will be deleted. This cannot be undone."
    );
}

#[test]
fn damaged_results_are_not_displayed() {
    let mut names = NameArena::default();
    let name = names.push(b"n").unwrap();
    let stray = NameRef { offset: 5, len: 9 };
    let scan = scan_of(
        vec![
            node(NodeId::root(), name, NodeKind::Directory, 0),
            node(NodeId::root(), stray, NodeKind::File, 0),
        ],
        names,
    );
    assert!(!is_displayable(&scan.result));
    let scan = scan_of(Vec::new(), NameArena::default());
    assert!(!is_displayable(&scan.result));
    let mut names = NameArena::default();
    let name = names.push(b"n").unwrap();
    let mut arena = NodeArena::from_parts(Vec::new(), names);
    for parent in [0, 2, 0] {
        arena
            .push_node(node(NodeId(parent), name, NodeKind::Directory, 0))
            .unwrap();
    }
    assert!(!is_displayable(&ScanResult::new(arena).unwrap()));
}

#[test]
fn selections_point_below_the_mount_point() {
    let ready = ready(scan_with_nested_directory());
    assert!(ready.delete_selection(NodeId::root()).is_none());
    assert!(ready.delete_selection(NodeId(9)).is_none());
    let selection = ready.delete_selection(NodeId(3)).unwrap();
    assert_eq!(selection.target.path(), b"/mnt/data/large/large.bin");
    assert_eq!(selection.name, "large.bin");
    assert!(!selection.is_directory);
    assert_eq!(
        ready.explorer_path(NodeId(3)),
        Some(b"/mnt/data/large/large.bin".to_vec())
    );
    assert_eq!(
        ready.explorer_path(NodeId::root()),
        Some(b"/mnt/data".to_vec())
    );
    assert!(ready.delete_selection(NodeId(2)).unwrap().is_directory);
}

#[test]
fn nothing_is_deleted_on_volumes_that_are_not_mounted() {
    let mut state = ready(scan_with_nested_directory());
    state.mount_device = None;
    assert!(state.delete_selection(NodeId(3)).is_none());
    state.mount_device = Some(7);
    state.mount_point = None;
    assert!(state.delete_selection(NodeId(3)).is_none());
    assert_eq!(state.explorer_path(NodeId(3)), None);
    state.mount_point = Some(b"relative".to_vec());
    assert!(state.delete_selection(NodeId(3)).is_none());
}

#[test]
fn names_that_lead_elsewhere_are_not_deletable() {
    let mut names = NameArena::default();
    let root = names.push(b"/").unwrap();
    let up = names.push(b"..").unwrap();
    let scan = scan_of(
        vec![
            node(NodeId::root(), root, NodeKind::Directory, 0),
            node(NodeId::root(), up, NodeKind::File, 0),
        ],
        names,
    );
    assert!(ready(scan).delete_selection(NodeId(1)).is_none());
}

#[test]
fn browsing_moves_the_selection() {
    let mut state = ready(scan_with_nested_directory());
    assert_eq!(state.selected, NodeId::root());
    state.select(NodeId(1));
    assert_eq!(state.selected, NodeId(1));
    assert!(!state.toggle_directory(NodeId(1)));
    assert_eq!(state.selected, NodeId(1));
    assert!(state.toggle_directory(NodeId(2)));
    assert_eq!(state.selected, NodeId(2));
    assert_eq!(state.reveal_node(NodeId(3)), Some(2));
    assert_eq!(state.selected, NodeId(3));
    state.collapse_all();
    assert_eq!(state.selected, NodeId::root());
    assert!(!state.tree.is_expanded(NodeId(2)));
}

fn session() -> Session {
    Session::new(vec![
        Volume {
            device: b"/dev/a".to_vec(),
            mount_point: Some(b"/".to_vec()),
            scan_path: Some(b"/".to_vec()),
            filesystem: "btrfs".to_string(),
        },
        Volume {
            device: b"/dev/b".to_vec(),
            mount_point: None,
            scan_path: None,
            filesystem: "ext4".to_string(),
        },
    ])
}

#[test]
fn scans_follow_the_selected_volume() {
    let mut session = session();
    assert_eq!(session.shown_device(), None);
    let request = session.start_scan().unwrap();
    assert_eq!(request.device, b"/dev/a");
    assert_eq!(request.scan_path, b"/");
    assert_eq!(request.mount_point, Some(b"/".to_vec()));
    assert!(matches!(&session.stage, Stage::Scanning { device } if device == b"/dev/a"));
    session.selected_volume = 1;
    let request = session.start_scan().unwrap();
    assert_eq!(request.scan_path, b"/dev/b");
    session.finish_scan(Err("unreadable".to_string()));
    assert!(matches!(
        &session.stage,
        Stage::Failed { device, message } if device == b"/dev/b" && message == "unreadable"
    ));
    assert_eq!(session.shown_device(), Some(b"/dev/b".to_vec()));
    session.show_picker();
    assert!(matches!(session.stage, Stage::Picker));
    session.finish_scan(Err("late".to_string()));
    assert!(matches!(&session.stage, Stage::Failed { device, .. } if device.is_empty()));
    session.selected_volume = 2;
    assert!(session.start_scan().is_none());
}

#[test]
fn one_deletion_runs_at_a_time() {
    let mut session = session();
    session.finish_scan(Ok(ready(scan_with_nested_directory())));
    let Stage::Ready(shown) = &session.stage else {
        panic!("the scan is not shown");
    };
    let selection = shown.delete_selection(NodeId(1)).unwrap();
    let state = session.menu_state(true, true);
    assert!(!state.open_disabled && !state.delete_disabled);
    session.request_permanent_delete(selection.duplicate());
    assert!(session.delete_confirmation.is_some());
    session.cancel_permanent_delete();
    assert!(session.delete_confirmation.is_none());
    session.request_permanent_delete(selection.duplicate());
    assert!(session.begin_delete(&selection, DeleteMode::Permanent));
    assert!(session.delete_confirmation.is_none());
    assert!(!session.begin_delete(&selection, DeleteMode::Trash));
    session.request_permanent_delete(selection.duplicate());
    assert!(session.delete_confirmation.is_none());
    assert!(session.menu_state(true, true).delete_disabled);
    let notice = session.finish_delete(&selection, DeleteMode::Permanent, Ok(()));
    assert!(notice.success && notice.rescan);
    assert_eq!(notice.message, "Permanently deleted small.bin");
    assert!(session.deletion.is_none());
    let notice = session.finish_delete(&selection, DeleteMode::Permanent, Err("busy".to_string()));
    assert!(!notice.success && !notice.rescan);
    assert_eq!(notice.message, "Could not delete small.bin: busy");
    session.show_picker();
    let notice = session.finish_delete(&selection, DeleteMode::Trash, Ok(()));
    assert!(notice.success && !notice.rescan);
}

#[test]
fn files_are_opened_where_they_lie() {
    let path = || b"/mnt/a/b".to_vec();
    let around = || Some(b"/mnt/a".to_vec());
    assert_eq!(browsed_path(path(), around(), true), b"/mnt/a/b");
    assert_eq!(browsed_path(path(), around(), false), b"/mnt/a");
    assert_eq!(browsed_path(b"/".to_vec(), None, false), b"/");
}
