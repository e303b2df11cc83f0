use std::collections::HashMap;

use akimi::treemap::colors;
use akimi::treemap::colors::{
    file_type_index, share_color, tile_hue, type_color_index, ARCHIVE_COLOR, AUDIO_COLOR,
    CODE_COLOR, DIR_COLOR, DOC_COLOR, EXEC_COLOR, IMAGE_COLOR, LINK_COLOR, UNKNOWN_COLOR,
    VIDEO_COLOR,
};
use akimi::treemap::partition::{partition, Share};
use akimi::treemap::plan::{
    allowance, is_divisible, MapPlan, MapTile, TileKind, Treemap, MAP_MAX_TILES, MAP_MIN_NEST,
    MAP_MIN_SIDE,
};
use akimi::treemap::queue::{Candidate, Queue};
use akimi::treemap::rows::{are_cuts_fitting, PixelRect, RowTile, Rows};
use akimi::treemap::viewport::{next_directory_toward, TreemapViewport, MAX_CACHED_MAPS};
use akimi::{
    FilesystemScan, NameArena, Node, NodeArena, NodeId, NodeKind, ScanResult, ScanStats,
    ScanTimings, ScanWarnings,
};

const CANVAS: PixelRect = PixelRect {
    x: 0,
    y: 0,
    w: 400,
    h: 300,
};

fn area(rect: PixelRect) -> f32 {
    rect.w as f32 * rect.h as f32
}

fn share(id: u32, size: u64) -> Share {
    Share {
        id: NodeId(id),
        size,
        logical: size,
    }
}

/// The worst aspect ratio in a row.
fn worst_aspect(side: f64, sum: f64, max: f64, min: f64) -> f64 {
    if side <= 0.0 || sum <= 0.0 || min <= 0.0 {
        return f64::INFINITY;
    }
    let side2 = side * side;
    let sum2 = sum * sum;
    ((side2 * max) / sum2).max(sum2 / (side2 * min))
}

/// How thick the next row is and where its tiles end, or nothing where there is no further row.
fn measure_row(shares: &[Share], rows: &Rows, min_side: f32) -> Option<(u32, Vec<u32>)> {
    let rect = rows.rest;
    let scale = (rect.w as f64 * rect.h as f64) / rows.remaining as f64;
    if !scale.is_finite() || scale <= 0.0 {
        return None;
    }
    let side = rect.short_side() as f64;
    if side < min_side as f64 {
        return None;
    }
    let waiting = &shares[rows.placed..];
    let largest = waiting[0].size as f64 * scale;
    let mut sum = 0.0_f64;
    let mut count = 0_usize;
    let mut best = f64::INFINITY;
    while count < waiting.len() {
        let tile = waiting[count].size as f64 * scale;
        let ratio = worst_aspect(side, sum + tile, largest, tile);
        if tile <= 0.0 || (count > 0 && ratio > best) {
            break;
        }
        best = ratio;
        sum += tile;
        count += 1;
    }
    let thickness = ((sum / side).round() as f32).min(rect.long_side() as f32);
    if count == 0 || thickness < min_side {
        return None;
    }
    let mut offset = 0.0_f64;
    let cuts = waiting[..count]
        .iter()
        .map(|share| {
            offset += (share.size as f64 * scale / sum) * side;
            (offset.round() as u32).min(rect.short_side())
        })
        .collect();
    Some((thickness as u32, cuts))
}

fn squarify(shares: &[Share], rect: PixelRect, total: u64, min_side: f32) -> Rows {
    let mut rows = Rows::new(rect, total);
    while rows.placed < shares.len() {
        let Some((thickness, cuts)) = measure_row(shares, &rows, min_side) else {
            break;
        };
        assert!(are_cuts_fitting(&cuts, rows.rest.short_side()));
        rows.place_row(shares, thickness, &cuts);
    }
    rows
}

fn lay_out(items: &[(u32, u64)]) -> Vec<RowTile> {
    let total = items.iter().map(|(_, size)| size).sum::<u64>();
    let shares = items
        .iter()
        .map(|(id, size)| share(*id, *size))
        .collect::<Vec<_>>();
    squarify(&shares, CANVAS, total, 0.0).tiles
}

fn build_treemap(scan: &FilesystemScan, width: u32, height: u32) -> Treemap {
    let whole = width as f32 * height as f32;
    let mut plan = MapPlan::new(scan, NodeId::root(), width, height);
    while let Some(next) = plan.next_tile() {
        let tile = next.tile;
        let claim = (area(tile.rect) / whole * MAP_MAX_TILES as f32) as usize;
        let allowed = allowance(claim, next.remaining);
        if !is_divisible(scan, &tile) {
            continue;
        }
        let visible = (area(tile.rect) / 9.0).ceil() as usize;
        let files_only = tile.kind == TileKind::Files;
        let Some(part) = partition(scan, tile.id, visible, allowed, files_only) else {
            continue;
        };
        let scale = area(tile.rect) as f64 / part.total as f64;
        let keep = part
            .shares
            .iter()
            .position(|share| share.size as f64 * scale < 9.0)
            .unwrap_or(part.shares.len());
        if keep == 0 {
            continue;
        }
        let rows = squarify(
            &part.shares[..keep],
            tile.rect,
            part.total,
            MAP_MIN_SIDE as f32,
        );
        plan.divide(scan, next.position, &rows.tiles, rows.remainder());
    }
    plan.finish()
}

fn finished(nodes: Vec<Node>, names: NameArena) -> FilesystemScan {
    FilesystemScan {
        result: ScanResult::new(NodeArena::from_parts(nodes, names)).unwrap(),
        stats: ScanStats::default(),
        timings: ScanTimings::default(),
        warnings: ScanWarnings::default(),
        workers: 1,
    }
}

fn synthetic_scan(sizes: &[u64], leaves: u64) -> FilesystemScan {
    let mut names = NameArena::with_capacity(64);
    let root_name = names.push(b"/").unwrap();
    let dir_name = names.push(b"dir").unwrap();
    let file_name = names.push(b"file").unwrap();

    let dir = |parent: NodeId, name| Node {
        parent,
        inode: 0,
        name,
        kind: NodeKind::Directory,
        logical_size: 0,
        allocated_size: 0,
        links: 1,
        mtime: 0,
    };

    let mut nodes = vec![dir(NodeId::root(), root_name)];
    for _ in sizes {
        nodes.push(dir(NodeId::root(), dir_name));
    }
    for (index, total) in sizes.iter().enumerate() {
        let parent = NodeId(index as u32 + 1);
        for _ in 0..leaves {
            nodes.push(Node {
                parent,
                inode: 0,
                name: file_name,
                kind: NodeKind::File,
                logical_size: total / leaves,
                allocated_size: total / leaves,
                links: 1,
                mtime: 0,
            });
        }
    }
    finished(nodes, names)
}

fn renamed(mut nodes: Vec<Node>) -> FilesystemScan {
    let mut names = NameArena::default();
    for (index, node) in nodes.iter_mut().enumerate() {
        node.name = names.push(format!("item{index}").as_bytes()).unwrap();
    }
    finished(nodes, names)
}

fn mixed_scan() -> FilesystemScan {
    let source = synthetic_scan(&[60, 40], 1);
    let mut nodes = source.result.arena.nodes().to_vec();
    let file = nodes[3];
    nodes.splice(
        3..3,
        [45, 35].map(|size| Node {
            parent: NodeId::root(),
            allocated_size: size,
            logical_size: size,
            ..file
        }),
    );
    renamed(nodes)
}

/// The positions of the tiles that are found by their nodes.
fn index(map: &Treemap) -> HashMap<NodeId, usize> {
    map.tiles()
        .iter()
        .enumerate()
        .filter(|(_, tile)| matches!(tile.kind, TileKind::Leaf | TileKind::Frame))
        .map(|(position, tile)| (tile.id, position))
        .collect()
}

fn hit_test(map: &Treemap, x: u32, y: u32) -> Option<NodeId> {
    map.tiles()
        .iter()
        .rev()
        .find(|tile| {
            let rect = tile.rect;
            x >= rect.x && y >= rect.y && x < rect.x + rect.w && y < rect.y + rect.h
        })
        .map(|tile| tile.id)
}

fn painted(map: &Treemap) -> u64 {
    map.tiles()
        .iter()
        .filter(|tile| !tile.is_frame())
        .map(|tile| tile.rect.w as u64 * tile.rect.h as u64)
        .sum()
}

#[test]
fn row_rounding_uses_the_remaining_pixel_rectangle() {
    let rect = PixelRect {
        x: 0,
        y: 0,
        w: 101,
        h: 73,
    };
    let shares = [share(1, 6), share(2, 3), share(3, 2), share(4, 1)];
    let rows = squarify(&shares, rect, 12, 0.0);
    let rectangles = rows.tiles.iter().map(|tile| tile.rect).collect::<Vec<_>>();
    assert_eq!(
        rectangles,
        vec![
            PixelRect {
                x: 0,
                y: 0,
                w: 51,
                h: 73
            },
            PixelRect {
                x: 51,
                y: 0,
                w: 50,
                h: 37
            },
            PixelRect {
                x: 51,
                y: 37,
                w: 33,
                h: 36
            },
            PixelRect {
                x: 84,
                y: 37,
                w: 17,
                h: 36
            },
        ]
    );
}

#[test]
fn direct_files_form_one_rectangle_beside_subdirectories() {
    let scan = mixed_scan();
    let map = build_treemap(&scan, 900, 600);
    let first = map.rect_for(NodeId(3)).unwrap();
    let second = map.rect_for(NodeId(4)).unwrap();
    let width = (first.x + first.w).max(second.x + second.w) - first.x.min(second.x);
    let height = (first.y + first.h).max(second.y + second.h) - first.y.min(second.y);
    assert_eq!(
        width * height,
        first.w * first.h + second.w * second.h,
        "direct files are scattered between directories"
    );
    for id in [NodeId(3), NodeId(4)] {
        let rect = map.rect_for(id).unwrap();
        assert_eq!(
            hit_test(&map, rect.x + rect.w / 2, rect.y + rect.h / 2),
            Some(id)
        );
    }
    assert_eq!(
        map.rect_for(NodeId::root()),
        Some(PixelRect {
            x: 0,
            y: 0,
            w: 900,
            h: 600
        })
    );
    assert_eq!(painted(&map), 900 * 600);
}

#[test]
fn equal_allocations_sort_by_logical_size() {
    let source = synthetic_scan(&[100], 2);
    let mut nodes = source.result.arena.nodes().to_vec();
    nodes[2].logical_size = 10;
    nodes[3].logical_size = 40;
    let mut names = NameArena::default();
    for node in &mut nodes {
        node.name = names.push(b"file").unwrap();
    }
    let scan = finished(nodes, names);
    let map = build_treemap(&scan, 1600, 900);
    let larger = map.rect_for(NodeId(3)).unwrap();
    let smaller = map.rect_for(NodeId(2)).unwrap();
    assert!(
        larger.x <= smaller.x && larger.y <= smaller.y,
        "logical-size tie-breaker is reversed"
    );
}

#[test]
fn equal_tiles_stay_square_on_a_square_canvas() {
    let scan = synthetic_scan(&[100; 9], 1);
    let map = build_treemap(&scan, 1000, 1000);
    for id in 1..=9 {
        let rect = map.rect_for(NodeId(id)).unwrap();
        let width = rect.w as f32;
        let height = rect.h as f32;
        let aspect = (width / height).max(height / width);
        assert!(
            aspect < 1.5,
            "tile {id} is {width}x{height}, aspect {aspect}"
        );
    }
}

#[test]
fn tiny_tail_keeps_its_area_as_a_remainder() {
    let scan = synthetic_scan(&[1000, 1], 1);
    let map = build_treemap(&scan, 100, 100);
    assert_eq!(painted(&map), 100 * 100);
}

#[test]
fn layouts_preserve_area_and_hit_targets_across_panel_shapes() {
    let scan = synthetic_scan(&[900_000, 220_000, 120_000, 30_000], 200);
    for (width, height) in [(1250, 1000), (1600, 300), (300, 1200)] {
        let map = build_treemap(&scan, width, height);
        for tile in map.tiles().iter().filter(|tile| !tile.is_frame()) {
            let rect = tile.rect;
            assert!(rect.x + rect.w <= width && rect.y + rect.h <= height);
            assert_eq!(
                hit_test(&map, rect.x + rect.w / 2, rect.y + rect.h / 2),
                Some(tile.id)
            );
            if tile.kind == TileKind::Leaf {
                assert!(rect.w >= 3 && rect.h >= 3);
            }
        }
        assert_eq!(painted(&map), width as u64 * height as u64);
    }
}

#[test]
fn files_are_coloured_by_extension_case_insensitively() {
    assert_eq!(file_type_index(b"shot.png"), IMAGE_COLOR);
    assert_eq!(file_type_index(b"movie.MKV"), VIDEO_COLOR);
    assert_eq!(file_type_index(b"sound.Ogg"), AUDIO_COLOR);
    assert_eq!(file_type_index(b"bundle.PAK"), ARCHIVE_COLOR);
    assert_eq!(file_type_index(b"notes.md"), DOC_COLOR);
    assert_eq!(file_type_index(b"main.rs"), CODE_COLOR);
    assert_eq!(file_type_index(b"game.exe"), EXEC_COLOR);
    assert_eq!(file_type_index(b"README"), UNKNOWN_COLOR);
    assert_eq!(file_type_index(b"archive.tar.gz"), ARCHIVE_COLOR);
    assert_eq!(file_type_index(b".bashrc"), UNKNOWN_COLOR);
    assert_eq!(file_type_index(b"trailing."), UNKNOWN_COLOR);
}

#[test]
fn long_extensions_are_not_known() {
    assert_eq!(file_type_index(b"tool.AppImage"), EXEC_COLOR);
    assert_eq!(file_type_index(b"tool.appimages"), UNKNOWN_COLOR);
    assert_eq!(file_type_index(b"a.b/c.PnG"), IMAGE_COLOR);
    assert_eq!(file_type_index(b"x.p\xffg"), UNKNOWN_COLOR);
    assert_eq!(file_type_index(b""), UNKNOWN_COLOR);
}

#[test]
fn nodes_are_coloured_by_kind() {
    let mut names = NameArena::default();
    let name = names.push(b"photo.jpg").unwrap();
    let node = |kind| Node {
        parent: NodeId::root(),
        inode: 1,
        name,
        kind,
        logical_size: 1,
        allocated_size: 1,
        links: 1,
        mtime: 0,
    };
    let scan = finished(
        vec![
            node(NodeKind::Directory),
            node(NodeKind::File),
            node(NodeKind::Symlink),
            node(NodeKind::Other),
        ],
        names,
    );
    assert_eq!(type_color_index(&scan, NodeId(0)), DIR_COLOR);
    assert_eq!(type_color_index(&scan, NodeId(1)), IMAGE_COLOR);
    assert_eq!(type_color_index(&scan, NodeId(2)), LINK_COLOR);
    assert_eq!(type_color_index(&scan, NodeId(3)), DIR_COLOR);
    assert_eq!(type_color_index(&scan, NodeId(4)), UNKNOWN_COLOR);
}

#[test]
fn squarify_preserves_area_and_items() {
    let tiles = lay_out(&[(1, 60), (2, 30), (3, 10)]);
    assert_eq!(tiles.len(), 3);
    let covered = tiles.iter().map(|tile| area(tile.rect)).sum::<f32>();
    assert!(
        (covered - area(CANVAS)).abs() < 1.0,
        "laid out {covered} of {}",
        area(CANVAS)
    );
}

#[test]
fn squarify_areas_match_sizes() {
    let items = [(1, 60_u64), (2, 30), (3, 10)];
    let tiles = lay_out(&items);
    for (tile, (_, size)) in tiles.iter().zip(items.iter()) {
        let expected = area(CANVAS) * (*size as f32 / 100.0);
        assert!(
            (area(tile.rect) - expected).abs() < 1.0,
            "tile area {} != {expected}",
            area(tile.rect)
        );
    }
}

#[test]
fn squarify_tiles_do_not_overlap() {
    let tiles = lay_out(&[(1, 50), (2, 20), (3, 15), (4, 10), (5, 5)]);
    assert_eq!(tiles.len(), 5);
    for (index, left) in tiles.iter().enumerate() {
        for right in tiles.iter().skip(index + 1) {
            let (left, right) = (left.rect, right.rect);
            let overlap_w = (left.x + left.w).min(right.x + right.w) as f32
                - left.x.max(right.x) as f32;
            let overlap_h = (left.y + left.h).min(right.y + right.h) as f32
                - left.y.max(right.y) as f32;
            assert!(
                overlap_w <= 0.0001 || overlap_h <= 0.0001,
                "tiles {index} overlap by {overlap_w}x{overlap_h}"
            );
        }
    }
}

#[test]
fn squarify_keeps_tiles_near_square() {
    let items: Vec<(u32, u64)> = (1..=20).map(|n| (n, (21 - n as u64) * 10)).collect();
    let tiles = lay_out(&items);
    for tile in &tiles {
        let (w, h) = (tile.rect.w as f32, tile.rect.h as f32);
        let ratio = (w / h).max(h / w);
        assert!(ratio < 4.0, "aspect ratio {ratio} is a sliver");
    }
}

#[test]
fn squarify_stops_when_the_strip_gets_thin() {
    let mut shares = vec![share(1, 1_000_000)];
    shares.extend((2..500).map(|n| share(n, 1)));
    let total = shares.iter().map(|share| share.size).sum::<u64>();
    let rows = squarify(&shares, CANVAS, total, 3.0);
    assert!(rows.tiles.len() < shares.len());
    assert_eq!(rows.tiles[0].id, NodeId(1));
}

#[test]
fn rows_divide_the_rectangle() {
    let shares = [share(1, 5), share(2, 3), share(3, 2)];
    let whole = PixelRect {
        x: 2,
        y: 3,
        w: 10,
        h: 6,
    };
    let mut rows = Rows::new(whole, 12);
    rows.place_row(&shares, 4, &[4, 6]);
    assert_eq!(
        rows.rest,
        PixelRect {
            x: 6,
            y: 3,
            w: 6,
            h: 6
        }
    );
    assert_eq!(rows.remaining, 4);
    rows.place_row(&shares, 5, &[6]);
    assert_eq!(rows.remaining, 2);
    assert_eq!(
        rows.remainder(),
        Some(PixelRect {
            x: 11,
            y: 3,
            w: 1,
            h: 6
        })
    );
    for x in 2..12 {
        for y in 3..9 {
            let inside = |rect: PixelRect| {
                x >= rect.x && x < rect.x + rect.w && y >= rect.y && y < rect.y + rect.h
            };
            let covering = rows.tiles.iter().filter(|tile| inside(tile.rect)).count();
            assert_eq!(covering + usize::from(inside(rows.rest)), 1);
        }
    }
    assert!(!are_cuts_fitting(&[3, 2], 6));
    assert!(!are_cuts_fitting(&[3, 7], 6));
    assert!(are_cuts_fitting(&[], 0));
}

#[test]
fn every_top_level_folder_gets_tiles() {
    let sizes = [651_000, 114_000, 31_000, 1_900, 1_100, 700];
    let scan = synthetic_scan(&sizes, 100);
    let map = build_treemap(&scan, 1600, 900);
    for index in 0..sizes.len() {
        let id = NodeId(index as u32 + 1);
        assert!(
            map.rect_for(id).is_some(),
            "top-level folder {index} is missing from the map"
        );
    }
}

#[test]
fn large_folders_are_drawn_nested() {
    let scan = synthetic_scan(&[651_000, 114_000], 400);
    let map = build_treemap(&scan, 1600, 900);
    let index = index(&map);
    for id in [NodeId(1), NodeId(2)] {
        let tile = map.tiles()[index[&id]];
        assert_eq!(
            tile.kind,
            TileKind::Frame,
            "folder {id:?} was drawn as a flat leaf"
        );
    }
    let leaves = map.tiles().iter().filter(|tile| tile.depth == 2).count();
    assert!(leaves > 200, "only {leaves} files drawn");
}

#[test]
fn frames_are_fully_covered_by_their_children() {
    let scan = synthetic_scan(&[900_000, 250_000, 40_000], 20_000);
    let map = build_treemap(&scan, 1600, 900);
    let nodes = scan.result.arena.nodes();

    let mut covered: HashMap<NodeId, f32> = HashMap::new();
    for tile in map.tiles() {
        if tile.id == NodeId::root() && tile.kind != TileKind::Rest {
            continue;
        }
        let parent = if tile.kind == TileKind::Rest {
            tile.id
        } else {
            nodes[tile.id.index()].parent
        };
        *covered.entry(parent).or_default() += area(tile.rect);
    }

    let mut frames = 0;
    for tile in map.tiles() {
        if tile.kind != TileKind::Frame {
            continue;
        }
        frames += 1;
        let inner = area(tile.rect);
        let drawn = covered.get(&tile.id).copied().unwrap_or(0.0);
        assert!(
            drawn >= inner * 0.99,
            "{:?} covers {drawn} of {inner}, leaving dead space",
            tile.id
        );
    }
    assert!(frames >= 3, "only {frames} folders were subdivided");
    assert!(
        map.tiles().iter().any(|tile| tile.kind == TileKind::Rest),
        "the undrawable tail produced no remainder block"
    );
}

#[test]
fn nested_tiles_stay_inside_their_parent() {
    let scan = synthetic_scan(&[651_000, 114_000, 31_000], 200);
    let map = build_treemap(&scan, 1600, 900);
    let index = index(&map);
    let nodes = scan.result.arena.nodes();
    for tile in map.tiles() {
        if tile.id == NodeId::root() {
            continue;
        }
        let parent = if tile.kind == TileKind::Rest {
            tile.id
        } else {
            nodes[tile.id.index()].parent
        };
        let outer = map.tiles()[index[&parent]].rect;
        let rect = tile.rect;
        assert!(
            rect.x >= outer.x
                && rect.y >= outer.y
                && rect.x + rect.w <= outer.x + outer.w
                && rect.y + rect.h <= outer.y + outer.h,
            "{rect:?} escapes its parent"
        );
    }
}

#[test]
fn every_pixel_shows_one_tile() {
    let scan = mixed_scan();
    let map = build_treemap(&scan, 90, 60);
    let covers = |rect: PixelRect, x: u32, y: u32| {
        x >= rect.x && y >= rect.y && x < rect.x + rect.w && y < rect.y + rect.h
    };
    for y in 0..60 {
        for x in 0..90 {
            let seen = map
                .tiles()
                .iter()
                .filter(|tile| !tile.is_frame() && covers(tile.rect, x, y))
                .count();
            assert_eq!(seen, 1, "pixel {x}, {y}");
        }
    }
    let nodes = scan.result.arena.nodes();
    for (position, tile) in map.tiles().iter().enumerate().skip(1) {
        let framed = map.tiles()[..position].iter().any(|frame| {
            let belongs = if matches!(tile.kind, TileKind::Leaf | TileKind::Frame) {
                nodes[tile.id.index()].parent == frame.id
            } else {
                tile.id == frame.id
            };
            frame.is_frame()
                && frame.depth + 1 == tile.depth
                && belongs
                && tile.rect.x >= frame.rect.x
                && tile.rect.y >= frame.rect.y
                && tile.rect.x + tile.rect.w <= frame.rect.x + frame.rect.w
                && tile.rect.y + tile.rect.h <= frame.rect.y + frame.rect.h
        });
        assert!(framed, "tile {position} leaves its frame");
    }
}

#[test]
fn collapsed_directories_are_darker_than_unknown_files() {
    let brightness = |colour: u32| {
        (0..3)
            .map(|byte| (colour >> (byte * 8)) & 0xff)
            .sum::<u32>()
    };
    assert!(brightness(tile_hue(DIR_COLOR)) < brightness(tile_hue(UNKNOWN_COLOR)));
}

#[test]
fn same_type_tiles_share_one_colour() {
    let tile = |id: NodeId| MapTile {
        id,
        rect: PixelRect {
            x: 0,
            y: 0,
            w: 6,
            h: 6,
        },
        color: ARCHIVE_COLOR,
        depth: 2,
        kind: TileKind::Leaf,
    };
    assert_eq!(
        tile_hue(tile(NodeId(7)).color),
        tile_hue(tile(NodeId(19)).color)
    );
}

#[test]
fn colours_repeat_beyond_the_palette() {
    assert_eq!(tile_hue(0), 0x3f474e);
    assert_eq!(tile_hue(10), 0xc5a83e);
    assert_eq!(tile_hue(colors::TYPE_COLOR_COUNT + 5), 0xc88a38);
    assert_eq!(share_color(0), 0x5b6ee1);
    assert_eq!(share_color(7), 0xde6a4b);
    assert_eq!(share_color(10), 0xe0607e);
}

#[test]
fn small_folders_stop_nesting() {
    let mut sizes = vec![10_000_000_u64];
    sizes.extend(std::iter::repeat(500).take(1_500));
    let scan = synthetic_scan(&sizes, 4);
    let map = build_treemap(&scan, 1600, 900);
    let index = index(&map);

    let small = map.tiles()[index[&NodeId(1_000)]];
    let (width, height) = (small.rect.w, small.rect.h);
    assert!(
        width < MAP_MIN_NEST && height < MAP_MIN_NEST,
        "{width}x{height} is big enough to nest into"
    );
    assert_eq!(small.kind, TileKind::Leaf);

    assert_eq!(map.tiles()[index[&NodeId(1)]].kind, TileKind::Frame);
}

#[test]
fn tile_areas_track_folder_sizes() {
    let sizes = [651_000_u64, 114_000, 31_000];
    let scan = synthetic_scan(&sizes, 100);
    let map = build_treemap(&scan, 1600, 900);
    let total: u64 = sizes.iter().sum();
    for (index, size) in sizes.iter().enumerate() {
        let rect = map.rect_for(NodeId(index as u32 + 1)).unwrap();
        let share = area(rect) / (1600.0 * 900.0);
        let expected = *size as f32 / total as f32;
        assert!(
            (share - expected).abs() < 0.01,
            "folder {index} covers {share} of the map, expected {expected}"
        );
    }
}

#[test]
fn tile_budget_is_respected() {
    let scan = synthetic_scan(&[651_000, 114_000, 31_000], 40_000);
    let map = build_treemap(&scan, 1600, 900);
    assert!(map.tiles().len() <= MAP_MAX_TILES);
    assert!(
        map.tiles().len() > MAP_MAX_TILES / 2,
        "budget went unused: only {} tiles",
        map.tiles().len()
    );
}

#[test]
fn parents_are_stored_before_their_children() {
    let scan = synthetic_scan(&[651_000, 114_000, 31_000], 200);
    let map = build_treemap(&scan, 1600, 900);
    let index = index(&map);
    let nodes = scan.result.arena.nodes();
    for (position, tile) in map.tiles().iter().enumerate() {
        if tile.id == NodeId::root() {
            continue;
        }
        let parent = if tile.kind == TileKind::Rest {
            tile.id
        } else {
            nodes[tile.id.index()].parent
        };
        assert!(index[&parent] < position);
    }
}

#[test]
fn remainder_blocks_do_not_shadow_their_parent() {
    let scan = synthetic_scan(&[900_000, 250_000], 20_000);
    let map = build_treemap(&scan, 1600, 900);
    assert!(
        map.tiles().iter().any(|tile| tile.kind == TileKind::Rest),
        "expected a remainder block for the undrawable tail"
    );
    for (id, position) in &index(&map) {
        let tile = map.tiles()[*position];
        assert_ne!(tile.kind, TileKind::Rest);
        assert_eq!(tile.id, *id);
        assert_eq!(map.rect_for(*id), Some(tile.rect));
    }
}

#[test]
fn maps_of_missing_nodes_are_empty() {
    let scan = synthetic_scan(&[10], 1);
    let mut plan = MapPlan::new(&scan, NodeId(99), 100, 100);
    assert!(plan.next_tile().is_none());
    let map = plan.finish();
    assert!(map.is_empty());
    assert_eq!(map.rect_for(NodeId(99)), None);
}

#[test]
fn undivided_tiles_stay_leaves() {
    let scan = synthetic_scan(&[10], 1);
    let mut plan = MapPlan::new(&scan, NodeId::root(), 100, 100);
    let next = plan.next_tile().unwrap();
    assert_eq!(next.remaining, MAP_MAX_TILES - 1);
    assert!(!plan.divide(&scan, next.position, &[], None));
    assert!(plan.next_tile().is_none());
    assert_eq!(plan.finish().tiles()[0].kind, TileKind::Leaf);
}

#[test]
fn candidates_come_largest_first() {
    let mut queue = Queue::new();
    let areas = [5_u64, 9, 1, 9, 7, 3, 9, 2];
    for (position, area) in areas.iter().enumerate() {
        queue.push(Candidate {
            area: *area,
            position,
        });
    }
    let mut order = Vec::new();
    while let Some(candidate) = queue.pop() {
        order.push((candidate.area, candidate.position));
    }
    assert_eq!(
        order,
        vec![(9, 1), (9, 3), (9, 6), (7, 4), (5, 0), (3, 5), (2, 7), (1, 2)]
    );
    assert!(queue.pop().is_none());
}

#[test]
fn partitions_count_what_they_leave_out() {
    let scan = mixed_scan();
    let part = partition(&scan, NodeId::root(), 100, 3, false).unwrap();
    assert_eq!(part.total, 180);
    assert_eq!(
        part.shares,
        vec![
            Share {
                id: NodeId(0),
                size: 80,
                logical: 80
            },
            Share {
                id: NodeId(1),
                size: 60,
                logical: 60
            },
        ]
    );
    let files = partition(&scan, NodeId::root(), 100, 100, true).unwrap();
    assert_eq!(files.total, 80);
    assert_eq!(files.shares.len(), 2);
    assert_eq!(
        partition(&scan, NodeId::root(), 0, 0, false)
            .unwrap()
            .shares
            .len(),
        1
    );
    assert!(partition(&scan, NodeId(3), 100, 100, false).is_none());
    assert_eq!(allowance(0, 10), 2);
    assert_eq!(allowance(5, 10), 5);
    assert_eq!(allowance(50, 10), 10);
}

fn nested_scan() -> FilesystemScan {
    let mut names = NameArena::with_capacity(32);
    let root = names.push(b"/").unwrap();
    let first = names.push(b"first").unwrap();
    let second = names.push(b"second").unwrap();
    let file = names.push(b"file.bin").unwrap();
    let directory = |parent, name| Node {
        parent,
        inode: 1,
        name,
        kind: NodeKind::Directory,
        logical_size: 0,
        allocated_size: 0,
        links: 1,
        mtime: 0,
    };
    let nodes = vec![
        directory(NodeId::root(), root),
        directory(NodeId::root(), first),
        directory(NodeId(1), second),
        Node {
            parent: NodeId(2),
            inode: 2,
            name: file,
            kind: NodeKind::File,
            logical_size: 1_000,
            allocated_size: 1_000,
            links: 1,
            mtime: 0,
        },
    ];
    finished(nodes, names)
}

#[test]
fn zooms_one_directory_level_toward_the_item_under_the_pointer() {
    let scan = nested_scan();
    let map = build_treemap(&scan, 1600, 900);
    let mut viewport = TreemapViewport::new();
    let tile = map.rect_for(NodeId(3)).unwrap();
    let hit = hit_test(&map, tile.x + tile.w / 2, tile.y + tile.h / 2).unwrap();

    assert_eq!(viewport.zoom_in(&scan, hit), Some(NodeId(1)));
    assert_eq!(viewport.zoom_in(&scan, NodeId(3)), Some(NodeId(2)));
    assert_eq!(viewport.zoom_in(&scan, NodeId(3)), None);
}

#[test]
fn zooming_out_moves_to_one_parent_at_a_time() {
    let scan = nested_scan();
    let mut viewport = TreemapViewport::new();
    assert_eq!(viewport.zoom_to(&scan, NodeId(2)), Some(NodeId(2)));

    assert_eq!(viewport.zoom_out(&scan), Some(NodeId(1)));
    assert_eq!(viewport.zoom_out(&scan), Some(NodeId::root()));
    assert_eq!(viewport.zoom_out(&scan), None);
}

#[test]
fn zooming_stays_on_directories() {
    let scan = nested_scan();
    let mut viewport = TreemapViewport::new();
    assert_eq!(viewport.zoom_to(&scan, NodeId(3)), None);
    assert_eq!(viewport.zoom_to(&scan, NodeId(77)), None);
    assert_eq!(viewport.zoom_to(&scan, NodeId::root()), None);
    assert_eq!(
        next_directory_toward(&scan, NodeId(1), NodeId(3)),
        Some(NodeId(2))
    );
    assert_eq!(next_directory_toward(&scan, NodeId(2), NodeId(1)), None);
    assert_eq!(viewport.zoom_to(&scan, NodeId(2)), Some(NodeId(2)));
    assert_eq!(viewport.reset(&scan), Some(NodeId::root()));
    assert_eq!(viewport.root(), NodeId::root());
}

#[test]
fn kept_maps_are_bounded() {
    let scan = synthetic_scan(&[1; 12], 1);
    let mut viewport = TreemapViewport::new();
    for id in 1..=12 {
        assert_eq!(viewport.zoom_to(&scan, NodeId(id)), Some(NodeId(id)));
        assert!(viewport.is_cached(NodeId::root()));
        assert!(viewport.is_cached(NodeId(id)));
        assert!(viewport.kept.len() <= MAX_CACHED_MAPS);
    }
    assert!(!viewport.is_cached(NodeId(1)));
    assert!(viewport.is_cached(NodeId(6)));
    viewport.zoom_to(&scan, NodeId(6));
    viewport.zoom_to(&scan, NodeId(1));
    assert!(!viewport.is_cached(NodeId(7)));
    assert!(viewport.is_cached(NodeId(6)));
}
