use akimi::{
    aggregate, rank_largest, AggregateError, ArenaError, NameArena, NameRef, Node, NodeArena,
    NodeId, NodeKind, RankFilter, RankedNode, ScanResult, ScanTimings, ScanWarnings, Totals,
};

fn node(parent: u32, allocated: u64, logical: u64) -> Node {
    Node {
        parent: NodeId(parent),
        inode: 0,
        name: NameRef { offset: 0, len: 0 },
        kind: NodeKind::Directory,
        logical_size: logical,
        allocated_size: allocated,
        links: 1,
        mtime: 0,
    }
}

fn named(parent: u32, inode: u64, name: NameRef, kind: NodeKind, size: u64) -> Node {
    Node {
        parent: NodeId(parent),
        inode,
        name,
        kind,
        logical_size: size,
        allocated_size: size,
        links: 1,
        mtime: 0,
    }
}

#[test]
fn aggregates_nodes_without_requiring_tree_order() {
    let nodes = vec![node(0, 4, 4), node(2, 8, 10), node(0, 2, 2)];
    let totals = aggregate(&nodes).unwrap();

    assert_eq!(totals[0].recursive_allocated, 14);
    assert_eq!(totals[0].recursive_logical, 16);
    assert_eq!(totals[2].recursive_allocated, 10);
    assert_eq!(totals[0].recursive_items, 3);
}

#[test]
fn rejects_parent_cycles() {
    let nodes = vec![node(0, 0, 0), node(2, 0, 0), node(1, 0, 0)];
    assert!(aggregate(&nodes).is_err());
    let error = aggregate(&nodes).unwrap_err();
    assert!(matches!(error, AggregateError::ParentCycle));
    assert_eq!(error.message(), "node parent relationships contain a cycle");
}

#[test]
fn rejects_parents_that_do_not_exist() {
    let nodes = vec![node(0, 0, 0), node(7, 0, 0), node(9, 0, 0)];
    let error = aggregate(&nodes).unwrap_err();
    assert!(matches!(
        error,
        AggregateError::InvalidParent {
            node: NodeId(1),
            parent: NodeId(7)
        }
    ));
    assert_eq!(error.message(), "node 1 has invalid parent 7");
}

#[test]
fn aggregates_an_empty_tree() {
    assert!(aggregate(&[]).unwrap().is_empty());
}

#[test]
fn totals_stop_at_the_largest_value() {
    let nodes = vec![
        node(0, u64::MAX, u64::MAX - 1),
        node(0, 10, 1),
        node(1, 10, 1),
    ];
    let totals = aggregate(&nodes).unwrap();
    assert_eq!(totals[0].recursive_allocated, u64::MAX);
    assert_eq!(totals[0].recursive_logical, u64::MAX);
    assert_eq!(totals[0].self_allocated, u64::MAX);
    assert_eq!(totals[1].recursive_allocated, 20);
}

#[test]
fn totals_tell_files_and_directories_apart() {
    let mut nodes = vec![node(0, 1, 1), node(0, 1, 1), node(1, 1, 1), node(1, 1, 1)];
    nodes[2].kind = NodeKind::File;
    nodes[2].mtime = 50;
    nodes[3].kind = NodeKind::Symlink;
    nodes[3].mtime = -3;
    nodes[1].mtime = 7;
    let totals = aggregate(&nodes).unwrap();
    assert_eq!(totals[0].recursive_items, 4);
    assert_eq!(totals[0].recursive_files, 1);
    assert_eq!(totals[0].recursive_subdirs, 1);
    assert_eq!(totals[1].recursive_subdirs, 0);
    assert_eq!(totals[0].latest_mtime, 50);
    assert_eq!(totals[3].latest_mtime, -3);
}

#[test]
fn the_root_holds_every_node() {
    let nodes = vec![
        node(0, 1, 2),
        node(0, 3, 4),
        node(1, 5, 6),
        node(1, 7, 8),
        node(3, 9, 10),
    ];
    let totals = aggregate(&nodes).unwrap();
    let allocated: u64 = nodes.iter().map(|node| node.allocated_size).sum();
    assert_eq!(totals[0].recursive_allocated, allocated);
    assert_eq!(totals[0].recursive_items, nodes.len() as u64);
}

#[test]
fn renumbering_nodes_renumbers_their_totals() {
    let mut nodes = vec![
        node(0, 1, 2),
        node(0, 3, 4),
        node(1, 5, 6),
        node(1, 7, 8),
        node(3, 9, 10),
    ];
    nodes[2].kind = NodeKind::File;
    nodes[4].mtime = 12;
    let places = [0_usize, 4, 1, 3, 2];
    let mut others = nodes.clone();
    for (index, place) in places.iter().enumerate() {
        others[*place] = Node {
            parent: NodeId(places[nodes[index].parent.index()] as u32),
            ..nodes[index]
        };
    }
    assert_eq!(others[2].parent, NodeId(3));
    let totals = aggregate(&nodes).unwrap();
    let other_totals = aggregate(&others).unwrap();
    for (index, place) in places.iter().enumerate() {
        assert_eq!(other_totals[*place], totals[index]);
    }
    assert_eq!(other_totals[4].recursive_allocated, 24);
}

#[test]
fn stores_names_in_one_byte_arena() {
    let mut names = NameArena::default();
    let first = names.push(b"alpha").unwrap();
    let second = names.push(b"beta").unwrap();

    assert_eq!(names.get(first), b"alpha");
    assert_eq!(names.get(second), b"beta");
    assert_eq!(names.len(), 11);
}

#[test]
fn appends_name_arenas_and_returns_the_offset() {
    let mut first = NameArena::default();
    let alpha = first.push(b"alpha").unwrap();
    let mut second = NameArena::default();
    let beta = second.push(b"beta").unwrap();

    let offset = first.append(second).unwrap();
    let shifted_beta = NameRef {
        offset: beta.offset + offset,
        len: beta.len,
    };

    assert_eq!(first.get(alpha), b"alpha");
    assert_eq!(first.get(shifted_beta), b"beta");
}

#[test]
fn refuses_names_that_are_too_long() {
    let mut names = NameArena::with_capacity(8);
    assert!(names.is_empty());
    names.reserve(16);
    let longest = vec![b'x'; 65_535];
    let name = names.push(&longest).unwrap();
    assert_eq!(names.get(name).len(), 65_535);
    let error = names.push(&vec![b'x'; 65_536]).unwrap_err();
    assert!(matches!(error, ArenaError::NameTooLong(65_536)));
    assert_eq!(
        error.message(),
        "name is 65536 bytes; maximum is 65535"
    );
    assert_eq!(
        ArenaError::NamesTooLarge.message(),
        "name arena exceeds 4 GiB"
    );
    assert_eq!(
        ArenaError::TooManyNodes.message(),
        "node arena exceeds u32::MAX entries"
    );
}

#[test]
fn reconstructs_paths_from_parent_ids() {
    let mut names = NameArena::default();
    let root = names.push(b"/").unwrap();
    let foo = names.push(b"foo").unwrap();
    let file = names.push(b"file.bin").unwrap();
    let nodes = vec![
        named(0, 2, root, NodeKind::Directory, 0),
        named(0, 12, foo, NodeKind::Directory, 0),
        named(1, 13, file, NodeKind::File, 10),
    ];
    let arena = NodeArena::from_parts(nodes, names);

    assert_eq!(arena.path_bytes(NodeId::root()), b"/");
    assert_eq!(arena.path_bytes(NodeId(2)), b"/foo/file.bin");
}

#[test]
fn displays_paths_that_are_not_valid_text() {
    let mut names = NameArena::default();
    let root = names.push(b"/").unwrap();
    let broken = names.push(b"caf\xe9").unwrap();
    let accented = names.push("café".as_bytes()).unwrap();
    let nodes = vec![
        named(0, 2, root, NodeKind::Directory, 0),
        named(0, 12, broken, NodeKind::File, 0),
        named(0, 13, accented, NodeKind::File, 0),
    ];
    let arena = NodeArena::from_parts(nodes, names);
    assert_eq!(arena.display_path(NodeId(1)), "/caf\u{fffd}");
    assert_eq!(arena.display_path(NodeId(2)), "/café");
    assert_eq!(arena.path_bytes(NodeId(1)), b"/caf\xe9");
}

#[test]
fn paths_of_looping_parents_end() {
    let mut names = NameArena::default();
    let name = names.push(b"a").unwrap();
    let mut arena = NodeArena::from_parts(Vec::new(), names);
    for parent in [0, 2, 1] {
        arena
            .push_node(named(parent, 2, name, NodeKind::Directory, 0))
            .unwrap();
    }
    assert_eq!(arena.path_bytes(NodeId(1)), b"/a/a/a");
}

#[test]
fn finds_contiguous_children_without_an_index() {
    let mut names = NameArena::default();
    let root = names.push(b"/").unwrap();
    let child = names.push(b"child").unwrap();
    let leaf = names.push(b"leaf").unwrap();
    let nodes = vec![
        named(0, 2, root, NodeKind::Directory, 0),
        named(0, 12, child, NodeKind::Directory, 0),
        named(1, 13, leaf, NodeKind::File, 10),
    ];
    let arena = NodeArena::from_parts(nodes, names);

    assert_eq!(arena.child_range(NodeId::root()), 1..2);
    assert_eq!(arena.child_range(NodeId(1)), 2..3);
    assert_eq!(arena.child_range(NodeId(2)), 3..3);
}

#[test]
fn pushed_nodes_get_the_next_id() {
    let mut names = NameArena::default();
    let name = names.push(b"n").unwrap();
    let mut arena = NodeArena::from_parts(Vec::new(), names);
    let first = arena
        .push_node(named(0, 1, name, NodeKind::Directory, 0))
        .unwrap();
    let second = arena
        .push_node(named(0, 2, name, NodeKind::File, 5))
        .unwrap();
    assert_eq!(first, NodeId(0));
    assert_eq!(second, NodeId(1));
    assert_eq!(arena.nodes().len(), 2);
    assert_eq!(arena.name(second), b"n");
    assert_eq!(arena.names().len(), 2);
    assert_eq!(NodeId(9).index(), 9);
}

#[test]
fn ties_at_the_cutoff_follow_output_order() {
    let nodes = [Node {
        parent: NodeId::root(),
        inode: 0,
        name: NameRef { offset: 0, len: 0 },
        kind: NodeKind::File,
        logical_size: 10,
        allocated_size: 10,
        links: 1,
        mtime: 0,
    }; 3];
    let ranked = rank_largest(&nodes, &[], RankFilter::Files, 2);
    assert_eq!(
        ranked.iter().map(|node| node.id).collect::<Vec<_>>(),
        vec![NodeId(0), NodeId(1)]
    );
}

#[test]
fn accepts_limits_larger_than_the_scan() {
    assert!(rank_largest(&[], &[], RankFilter::Files, usize::MAX).is_empty());
}

#[test]
fn retains_only_the_largest_nodes() {
    let nodes = [5, 20, 10].map(|size| Node {
        parent: NodeId::root(),
        inode: 0,
        name: NameRef { offset: 0, len: 0 },
        kind: NodeKind::File,
        logical_size: size,
        allocated_size: size,
        links: 1,
        mtime: 0,
    });
    let totals = [Totals::default(); 3];
    let ranked = rank_largest(&nodes, &totals, RankFilter::Files, 2);

    assert_eq!(ranked[0].allocated_size, 20);
    assert_eq!(ranked[1].allocated_size, 10);
    assert_eq!(
        rank_largest(&nodes, &totals, RankFilter::Files, usize::MAX).len(),
        nodes.len()
    );
}

#[test]
fn bounded_ranking_matches_a_full_sort() {
    let nodes = (0..96)
        .map(|index| Node {
            parent: NodeId::root(),
            inode: index,
            name: NameRef { offset: 0, len: 0 },
            kind: match index % 3 {
                0 => NodeKind::Directory,
                1 => NodeKind::File,
                _ => NodeKind::Symlink,
            },
            logical_size: index * 10,
            allocated_size: index * 17 % 11,
            links: 1,
            mtime: 0,
        })
        .collect::<Vec<_>>();
    let totals = (0..nodes.len())
        .map(|index| Totals {
            recursive_allocated: (index * 7 % 13) as u64,
            recursive_logical: (index * 100) as u64,
            ..Totals::default()
        })
        .collect::<Vec<_>>();
    for filter in [
        RankFilter::Files,
        RankFilter::Directories,
        RankFilter::DirectoriesAndFiles,
    ] {
        let mut expected = nodes
            .iter()
            .enumerate()
            .filter(|(_, node)| filter.includes(node))
            .map(|(index, node)| RankedNode {
                id: NodeId(index as u32),
                allocated_size: if node.kind == NodeKind::Directory {
                    totals[index].recursive_allocated
                } else {
                    node.allocated_size
                },
                logical_size: if node.kind == NodeKind::Directory {
                    totals[index].recursive_logical
                } else {
                    node.logical_size
                },
            })
            .collect::<Vec<_>>();
        expected.sort_by(|left, right| {
            right
                .allocated_size
                .cmp(&left.allocated_size)
                .then_with(|| left.id.cmp(&right.id))
        });
        for limit in [0, 1, 7, 32, 95, 96, 97, usize::MAX] {
            let actual = rank_largest(&nodes, &totals, filter, limit);
            let wanted = expected.iter().take(limit).copied().collect::<Vec<_>>();
            assert_eq!(actual, wanted, "{filter:?} limited to {limit}");
        }
    }
}

#[test]
fn a_smaller_limit_keeps_the_front_of_the_ranking() {
    let nodes = (0..10)
        .map(|index| named(0, index, NameRef { offset: 0, len: 0 }, NodeKind::File, index % 4))
        .collect::<Vec<_>>();
    let all = rank_largest(&nodes, &[], RankFilter::Files, 10);
    let some = rank_largest(&nodes, &[], RankFilter::Files, 4);
    assert_eq!(&all[..4], &some[..]);
}

#[test]
fn results_carry_their_totals() {
    let mut names = NameArena::default();
    let name = names.push(b"n").unwrap();
    let nodes = vec![
        named(0, 1, name, NodeKind::Directory, 3),
        named(0, 2, name, NodeKind::File, 4),
    ];
    let result = ScanResult::new(NodeArena::from_parts(nodes, names)).unwrap();
    assert_eq!(result.totals[0].recursive_allocated, 7);
    let broken = NodeArena::from_parts(vec![node(0, 0, 0), node(1, 0, 0)], NameArena::default());
    assert!(matches!(
        ScanResult::new(broken),
        Err(AggregateError::ParentCycle)
    ));
}

#[test]
fn timings_and_warnings_add_up() {
    let timings = ScanTimings {
        open: 1,
        inode_scan: 20,
        directory_scan: 300,
        tree_build: 4_000,
        aggregation: 50_000,
    };
    assert_eq!(timings.scan_total(), 54_321);
    let warnings = ScanWarnings {
        missing_inode_references: 1,
        nodes_without_parent: 2,
        directory_scan_errors: 3,
        directory_aliases: 4,
    };
    assert_eq!(warnings.total(), 10);
    assert_eq!(ScanTimings::default().scan_total(), 0);
    assert_eq!(ScanWarnings::default().total(), 0);
}
