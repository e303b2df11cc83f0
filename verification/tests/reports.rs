use akimi::formatting::{format_count, format_size, kind_name};
use akimi::report::{choose_filter, ranked_entries, text_report, TimingTexts};
use akimi::{
    rank_largest, FilesystemInfo, FilesystemScan, NameArena, Node, NodeArena, NodeId, NodeKind,
    RankFilter, ScanResult, ScanStats, ScanTimings, ScanWarnings,
};

#[test]
fn formats_binary_sizes() {
    assert_eq!(format_size(999), "999 B");
    assert_eq!(format_size(1536), "1.50 KiB");
    assert_eq!(format_size(1024 * 1024 * 3), "3.00 MiB");
}

#[test]
fn formats_counts_with_separators() {
    assert_eq!(format_count(12), "12");
    assert_eq!(format_count(1_234_567), "1,234,567");
}

#[test]
fn formats_the_edges_of_counts() {
    assert_eq!(format_count(0), "0");
    assert_eq!(format_count(999), "999");
    assert_eq!(format_count(1_000), "1,000");
    assert_eq!(format_count(100_000), "100,000");
    assert_eq!(format_count(u64::MAX), "18,446,744,073,709,551,615");
}

/// The size in floating point, with two digits behind the point.
fn floating_size(bytes: u64) -> String {
    let units = ["B", "KiB", "MiB", "GiB", "TiB", "PiB"];
    if bytes < 1024 {
        return format!("{bytes} B");
    }
    let mut size = bytes as f64;
    let mut unit = 0;
    while size >= 1024.0 && unit < units.len() - 1 {
        size /= 1024.0;
        unit += 1;
    }
    format!("{size:.2} {}", units[unit])
}

#[test]
fn sizes_agree_with_floating_point() {
    let mut samples = vec![0, 1, 1023, 1024, 1025, u64::MAX, u64::MAX - 1];
    for shift in 10..64 {
        let base = 1_u64 << shift;
        for delta in [0, 1, 2, 3, 511, 512, 513] {
            samples.push(base.saturating_add(delta));
            samples.push(base - delta);
            samples.push((base / 8 * 5).saturating_add(delta));
        }
    }
    // Exactly half way between two hundredths.
    for eighths in [1_u64, 3, 5, 7] {
        for whole in [1_u64, 2, 100, 1023] {
            samples.push(whole * 1024 + eighths * 128);
            samples.push((whole * 1024 + eighths * 128) * 1024);
            samples.push((whole * 1024 + eighths * 128) << 40);
        }
    }
    let mut state = 0x1234_5678_9abc_def0_u64;
    for _ in 0..20_000 {
        state = state.wrapping_mul(6_364_136_223_846_793_005).wrapping_add(1);
        samples.push(state >> (state % 60));
    }
    for bytes in samples {
        assert_eq!(format_size(bytes), floating_size(bytes), "{bytes} bytes");
    }
}

#[test]
fn kinds_have_names() {
    assert_eq!(kind_name(NodeKind::File), "file");
    assert_eq!(kind_name(NodeKind::Directory), "directory");
    assert_eq!(kind_name(NodeKind::Symlink), "symlink");
    assert_eq!(kind_name(NodeKind::Other), "other");
}

#[test]
fn filters_follow_the_options() {
    assert_eq!(choose_filter(false, false), RankFilter::Directories);
    assert_eq!(choose_filter(false, true), RankFilter::Directories);
    assert_eq!(choose_filter(true, false), RankFilter::Files);
    assert_eq!(choose_filter(true, true), RankFilter::DirectoriesAndFiles);
}

fn sample() -> (FilesystemInfo, FilesystemScan) {
    let mut names = NameArena::default();
    let root = names.push(b"/").unwrap();
    let file = names.push(b"data.bin").unwrap();
    let node = |inode, name, kind, size| Node {
        parent: NodeId::root(),
        inode,
        name,
        kind,
        logical_size: size / 2,
        allocated_size: size,
        links: 1,
        mtime: 0,
    };
    let nodes = vec![
        node(2, root, NodeKind::Directory, 4096),
        node(12, file, NodeKind::File, 10_000),
    ];
    let info = FilesystemInfo {
        device: b"/dev/sda1".to_vec(),
        filesystem_type: "ext4",
        block_size: 4096,
        inode_count: 65_536,
        reported_allocated_inodes: 13,
        feature_compat: 0x3c,
        feature_incompat: 0x2c2,
        feature_ro_compat: 0x46b,
        size_accounting: "allocated blocks",
    };
    let scan = FilesystemScan {
        result: ScanResult::new(NodeArena::from_parts(nodes, names)).unwrap(),
        stats: ScanStats {
            allocated_inodes: 2,
            files: 1,
            directories: 1,
            symlinks: 0,
            other: 0,
            nodes: 2,
            directory_entries: 1,
            hard_link_entries: 0,
        },
        timings: ScanTimings::default(),
        warnings: ScanWarnings::default(),
        workers: 4,
    };
    (info, scan)
}

fn timing_texts() -> TimingTexts {
    let text = |value: &str| value.to_string();
    TimingTexts {
        open: text("0.1 ms"),
        inode_scan: text("12.3 ms"),
        directory_scan: text("0.2 ms"),
        tree_build: text("0.3 ms"),
        aggregation: text("0.4 ms"),
        ranking: text("0.5 ms"),
        total: text("123456789.0 ms"),
    }
}

const REPORT: &str = "Filesystem
  type:                 ext4
  device:               /dev/sda1
  block size:           4,096 bytes
  inode slots:          65,536
  allocated reported:   13
  features:             compat=0x0000003c incompat=0x000002c2 ro=0x0000046b

  size accounting:      allocated blocks

Objects
  allocated inodes:     2
  files:                1
  directories:          1
  symlinks:             0
  other:                0
  tree nodes:           2
  directory entries:    1
  extra hard links:     0

Timing
  scan workers:         4
  filesystem open:          0.1 ms
  inode scan:              12.3 ms
  directory scan:           0.2 ms
  tree build:               0.3 ms
  aggregation:              0.4 ms
  ranking:                  0.5 ms
  total:                123456789.0 ms

";

#[test]
fn text_reports_list_what_was_found() {
    let (info, scan) = sample();
    let ranking = rank_largest(
        scan.result.arena.nodes(),
        &scan.result.totals,
        RankFilter::DirectoriesAndFiles,
        5,
    );
    let report = text_report(
        &info,
        &scan,
        &ranking,
        RankFilter::DirectoriesAndFiles,
        &timing_texts(),
    );
    let expected = format!(
        "{REPORT}Largest directories and files\n\n   13.77 KiB  /\n    9.77 KiB  /data.bin\n"
    );
    assert_eq!(report, expected);
}

#[test]
fn text_reports_mention_warnings() {
    let (info, mut scan) = sample();
    scan.warnings = ScanWarnings {
        missing_inode_references: 1,
        nodes_without_parent: 2,
        directory_scan_errors: 3,
        directory_aliases: 4_000,
    };
    let report = text_report(&info, &scan, &[], RankFilter::Files, &timing_texts());
    let expected = format!(
        "{REPORT}Warnings\n  missing inode refs:   1\n  nodes without parent: 2\n  directory read errs:  3\n  directory aliases:    4,000\n\nLargest files\n\n"
    );
    assert_eq!(report, expected);
}

#[test]
fn ranked_entries_carry_paths_and_inodes() {
    let (_, scan) = sample();
    let ranking = rank_largest(
        scan.result.arena.nodes(),
        &scan.result.totals,
        RankFilter::Files,
        5,
    );
    let entries = ranked_entries(&scan, &ranking);
    assert_eq!(entries.len(), 1);
    assert_eq!(entries[0].path, "/data.bin");
    assert_eq!(entries[0].kind, "file");
    assert_eq!(entries[0].allocated_bytes, 10_000);
    assert_eq!(entries[0].logical_bytes, 5_000);
    assert_eq!(entries[0].inode, 12);
}
