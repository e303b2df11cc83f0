//! The report of a scan.

use vstd::prelude::*;

use crate::aggregate;
use crate::arena;
use crate::formatting;
use crate::node::{NodeId, NodeKind};
use crate::rank;
use crate::rank::{RankFilter, RankedNode};
use crate::scan::{FilesystemInfo, FilesystemScan, ScanStats, ScanWarnings};
use crate::text;

verus! {

/// The filter that the options of the command line select: directories, unless only files are
/// asked for or both.
pub fn choose_filter(files: bool, dirs: bool) -> (filter: RankFilter)
    ensures
        filter == if files && dirs {
            RankFilter::DirectoriesAndFiles
        } else if files {
            RankFilter::Files
        } else {
            RankFilter::Directories
        },
{
    match (files, dirs) {
        (true, true) => RankFilter::DirectoriesAndFiles,
        (true, false) => RankFilter::Files,
        _ => RankFilter::Directories,
    }
}

/// How long the parts of a run took, as text.
#[derive(Debug)]
pub struct TimingTexts {
    pub open: String,
    pub inode_scan: String,
    pub directory_scan: String,
    pub tree_build: String,
    pub aggregation: String,
    pub ranking: String,
    pub total: String,
}

/// `count` spaces.
pub open spec fn spaces(count: nat) -> Seq<char> {
    Seq::new(count, |i: int| ' ')
}

/// `value` moved to the right in a column of `width` characters.
pub open spec fn right_aligned(value: Seq<char>, width: nat) -> Seq<char> {
    if value.len() >= width {
        value
    } else {
        spaces((width - value.len()) as nat) + value
    }
}

/// Width of the columns of sizes and times.
pub const COLUMN: usize = 10;

/// The character of a hexadecimal digit.
pub open spec fn hex_digit(value: nat) -> char {
    if value < 10 {
        text::digit(value)
    } else {
        ('a' as nat + value - 10) as char
    }
}

/// The lowest `count` hexadecimal digits of a number.
pub open spec fn hex_digits(value: nat, count: nat) -> Seq<char>
    decreases count,
{
    if count == 0 {
        Seq::empty()
    } else {
        hex_digits(value / 16, (count - 1) as nat).push(hex_digit(value % 16))
    }
}

/// A number of 32 bits in hexadecimal.
pub open spec fn hex_text(value: u32) -> Seq<char> {
    "0x"@ + hex_digits(value as nat, 8)
}

/// A line that says a value.
pub open spec fn line(label: Seq<char>, value: Seq<char>) -> Seq<char> {
    label + value + "\n"@
}

/// What the report says of the filesystem.
pub open spec fn filesystem_section(info: FilesystemInfo) -> Seq<char> {
    "Filesystem\n"@ + line("  type:                 "@, info.filesystem_type@) + line(
        "  device:               "@,
        text::lossy_text(info.device@),
    ) + line(
        "  block size:           "@,
        formatting::count_text(info.block_size as nat) + " bytes"@,
    ) + line("  inode slots:          "@, formatting::count_text(info.inode_count as nat)) + line(
        "  allocated reported:   "@,
        formatting::count_text(info.reported_allocated_inodes as nat),
    ) + line(
        "  features:             compat="@,
        hex_text(info.feature_compat) + " incompat="@ + hex_text(info.feature_incompat) + " ro="@
            + hex_text(info.feature_ro_compat) + "\n"@,
    ) + line("  size accounting:      "@, info.size_accounting@ + "\n"@)
}

/// What the report says of the objects found.
pub open spec fn objects_section(stats: ScanStats) -> Seq<char> {
    "Objects\n"@ + line(
        "  allocated inodes:     "@,
        formatting::count_text(stats.allocated_inodes as nat),
    ) + line("  files:                "@, formatting::count_text(stats.files as nat)) + line(
        "  directories:          "@,
        formatting::count_text(stats.directories as nat),
    ) + line("  symlinks:             "@, formatting::count_text(stats.symlinks as nat)) + line(
        "  other:                "@,
        formatting::count_text(stats.other as nat),
    ) + line("  tree nodes:           "@, formatting::count_text(stats.nodes as nat)) + line(
        "  directory entries:    "@,
        formatting::count_text(stats.directory_entries as nat),
    ) + line(
        "  extra hard links:     "@,
        formatting::count_text(stats.hard_link_entries as nat) + "\n"@,
    )
}

/// What the report says of the time taken.
pub open spec fn timing_section(workers: usize, timings: TimingTexts) -> Seq<char> {
    "Timing\n"@ + line("  scan workers:         "@, text::decimal(workers as nat)) + line(
        "  filesystem open:      "@,
        right_aligned(timings.open@, COLUMN as nat),
    ) + line(
        "  inode scan:           "@,
        right_aligned(timings.inode_scan@, COLUMN as nat),
    ) + line(
        "  directory scan:       "@,
        right_aligned(timings.directory_scan@, COLUMN as nat),
    ) + line(
        "  tree build:           "@,
        right_aligned(timings.tree_build@, COLUMN as nat),
    ) + line(
        "  aggregation:          "@,
        right_aligned(timings.aggregation@, COLUMN as nat),
    ) + line("  ranking:              "@, right_aligned(timings.ranking@, COLUMN as nat)) + line(
        "  total:                "@,
        right_aligned(timings.total@, COLUMN as nat) + "\n"@,
    )
}

/// What the report says of warnings: nothing where there are none.
pub open spec fn warnings_section(warnings: ScanWarnings) -> Seq<char> {
    if warnings.sum() > 0 {
        "Warnings\n"@ + line(
            "  missing inode refs:   "@,
            formatting::count_text(warnings.missing_inode_references as nat),
        ) + line(
            "  nodes without parent: "@,
            formatting::count_text(warnings.nodes_without_parent as nat),
        ) + line(
            "  directory read errs:  "@,
            formatting::count_text(warnings.directory_scan_errors as nat),
        ) + line(
            "  directory aliases:    "@,
            formatting::count_text(warnings.directory_aliases as nat) + "\n"@,
        )
    } else {
        Seq::empty()
    }
}

/// The heading of a ranking.
pub open spec fn ranking_heading(filter: RankFilter) -> Seq<char> {
    match filter {
        RankFilter::Directories => "Largest directories\n\n"@,
        RankFilter::Files => "Largest files\n\n"@,
        RankFilter::DirectoriesAndFiles => "Largest directories and files\n\n"@,
    }
}

/// Path of a node as text.
pub open spec fn path_text(scan: FilesystemScan, id: NodeId) -> Seq<char> {
    text::lossy_text(
        arena::path_of(
            scan.result.arena.node_list(),
            scan.result.arena.name_bytes(),
            id.0 as int,
        ),
    )
}

/// The lines of the first `count` places of a ranking.
pub open spec fn ranking_lines(
    scan: FilesystemScan,
    ranking: Seq<RankedNode>,
    count: nat,
) -> Seq<char>
    decreases count,
{
    if count == 0 {
        Seq::empty()
    } else {
        let ranked = ranking[count - 1];
        ranking_lines(scan, ranking, (count - 1) as nat) + "  "@ + right_aligned(
            formatting::size_text(ranked.allocated_size as nat),
            COLUMN as nat,
        ) + "  "@ + path_text(scan, ranked.id) + "\n"@
    }
}

/// The whole report.
pub open spec fn report_text(
    info: FilesystemInfo,
    scan: FilesystemScan,
    ranking: Seq<RankedNode>,
    filter: RankFilter,
    timings: TimingTexts,
) -> Seq<char> {
    filesystem_section(info) + objects_section(scan.stats) + timing_section(scan.workers, timings)
        + warnings_section(scan.warnings) + ranking_heading(filter) + ranking_lines(
        scan,
        ranking,
        ranking.len(),
    )
}

/// Every ranked node can be shown with its path.
pub open spec fn ranking_showable(scan: FilesystemScan, ranking: Seq<RankedNode>) -> bool {
    &&& aggregate::parents_exist(scan.result.arena.node_list())
    &&& arena::names_stored(scan.result.arena.node_list(), scan.result.arena.name_bytes())
    &&& forall|k: int|
        0 <= k < ranking.len() ==> (#[trigger] ranking[k]).id.0
            < scan.result.arena.node_list().len()
}

/// Appends `value` moved to the right in a column.
fn push_right_aligned(output: &mut String, value: &str)
    ensures
        final(output)@ == old(output)@ + right_aligned(value@, COLUMN as nat),
{
    let length: usize = value.unicode_len();
    let mut column: usize = length;
    let ghost before = output@;
    proof {
        reveal_strlit(" ");
        assert(" "@ =~= seq![' ']);
        assert(before + spaces(0) =~= before);
    }
    while column < COLUMN
        invariant
            length <= column,
            column <= COLUMN || column == length,
            " "@ == seq![' '],
            output@ == before + spaces((column - length) as nat),
        decreases COLUMN - column,
    {
        output.append(" ");
        column = column + 1;
        assert(output@ =~= before + spaces((column - length) as nat));
    }
    output.append(value);
    assert(output@ =~= before + right_aligned(value@, COLUMN as nat));
}

/// Appends the lowest hexadecimal digits of a number.
fn push_hex_digits(output: &mut String, value: u32, count: u32)
    ensures
        final(output)@ == old(output)@ + hex_digits(value as nat, count as nat),
    decreases count,
{
    if count > 0 {
        push_hex_digits(output, value / 16, count - 1);
        let low: u32 = value % 16;
        if low < 10 {
            text::push_digit(output, low as u64);
        } else {
            proof {
                reveal_strlit("a");
                reveal_strlit("b");
                reveal_strlit("c");
                reveal_strlit("d");
                reveal_strlit("e");
                reveal_strlit("f");
            }
            let digit = match low {
                10 => "a",
                11 => "b",
                12 => "c",
                13 => "d",
                14 => "e",
                _ => "f",
            };
            output.append(digit);
        }
    }
    assert(output@ =~= old(output)@ + hex_digits(value as nat, count as nat));
}

/// Appends a number of 32 bits in hexadecimal.
fn push_hex(output: &mut String, value: u32)
    ensures
        final(output)@ == old(output)@ + hex_text(value),
{
    output.append("0x");
    push_hex_digits(output, value, 8);
    assert(output@ =~= old(output)@ + hex_text(value));
}

/// Appends a line that says a value.
fn push_line(output: &mut String, label: &str, value: &str)
    ensures
        final(output)@ == old(output)@ + line(label@, value@),
{
    output.append(label);
    output.append(value);
    output.append("\n");
    assert(output@ =~= old(output)@ + line(label@, value@));
}

/// Appends a line that says a number.
fn push_count_line(output: &mut String, label: &str, value: u64)
    ensures
        final(output)@ == old(output)@ + line(label@, formatting::count_text(value as nat)),
{
    push_line(output, label, formatting::format_count(value).as_str());
}

/// Appends a line that says a number, and an empty line.
fn push_last_count_line(output: &mut String, label: &str, value: u64)
    ensures
        final(output)@ == old(output)@ + line(label@, formatting::count_text(value as nat) + "\n"@),
{
    let mut count = formatting::format_count(value);
    count.append("\n");
    push_line(output, label, count.as_str());
}

/// Appends a line that says a time.
fn push_time_line(output: &mut String, label: &str, value: &str)
    ensures
        final(output)@ == old(output)@ + line(label@, right_aligned(value@, COLUMN as nat)),
{
    let mut column = String::new();
    push_right_aligned(&mut column, value);
    assert(column@ =~= right_aligned(value@, COLUMN as nat));
    push_line(output, label, column.as_str());
}

fn push_filesystem(output: &mut String, info: &FilesystemInfo)
    ensures
        final(output)@ == old(output)@ + filesystem_section(*info),
{
    output.append("Filesystem\n");
    push_line(output, "  type:                 ", info.filesystem_type);
    push_line(
        output,
        "  device:               ",
        text::from_utf8_lossy(info.device.as_slice()).as_str(),
    );
    let mut block_size = formatting::format_count(info.block_size as u64);
    block_size.append(" bytes");
    push_line(output, "  block size:           ", block_size.as_str());
    push_count_line(output, "  inode slots:          ", info.inode_count);
    push_count_line(output, "  allocated reported:   ", info.reported_allocated_inodes);
    let mut features = String::new();
    push_hex(&mut features, info.feature_compat);
    features.append(" incompat=");
    push_hex(&mut features, info.feature_incompat);
    features.append(" ro=");
    push_hex(&mut features, info.feature_ro_compat);
    features.append("\n");
    assert(features@ =~= hex_text(info.feature_compat) + " incompat="@ + hex_text(
        info.feature_incompat,
    ) + " ro="@ + hex_text(info.feature_ro_compat) + "\n"@);
    push_line(output, "  features:             compat=", features.as_str());
    let mut accounting = String::from_str(info.size_accounting);
    accounting.append("\n");
    push_line(output, "  size accounting:      ", accounting.as_str());
    assert(output@ =~= old(output)@ + filesystem_section(*info));
}

fn push_objects(output: &mut String, stats: &ScanStats)
    ensures
        final(output)@ == old(output)@ + objects_section(*stats),
{
    output.append("Objects\n");
    push_count_line(output, "  allocated inodes:     ", stats.allocated_inodes);
    push_count_line(output, "  files:                ", stats.files);
    push_count_line(output, "  directories:          ", stats.directories);
    push_count_line(output, "  symlinks:             ", stats.symlinks);
    push_count_line(output, "  other:                ", stats.other);
    push_count_line(output, "  tree nodes:           ", stats.nodes);
    push_count_line(output, "  directory entries:    ", stats.directory_entries);
    push_last_count_line(output, "  extra hard links:     ", stats.hard_link_entries);
    assert(output@ =~= old(output)@ + objects_section(*stats));
}

fn push_timing(output: &mut String, workers: usize, timings: &TimingTexts)
    ensures
        final(output)@ == old(output)@ + timing_section(workers, *timings),
{
    output.append("Timing\n");
    let mut count = String::new();
    text::push_decimal(&mut count, workers as u64);
    assert(count@ =~= text::decimal(workers as nat));
    push_line(output, "  scan workers:         ", count.as_str());
    push_time_line(output, "  filesystem open:      ", timings.open.as_str());
    push_time_line(output, "  inode scan:           ", timings.inode_scan.as_str());
    push_time_line(output, "  directory scan:       ", timings.directory_scan.as_str());
    push_time_line(output, "  tree build:           ", timings.tree_build.as_str());
    push_time_line(output, "  aggregation:          ", timings.aggregation.as_str());
    push_time_line(output, "  ranking:              ", timings.ranking.as_str());
    let mut total = String::new();
    push_right_aligned(&mut total, timings.total.as_str());
    total.append("\n");
    assert(total@ =~= right_aligned(timings.total@, COLUMN as nat) + "\n"@);
    push_line(output, "  total:                ", total.as_str());
    assert(output@ =~= old(output)@ + timing_section(workers, *timings));
}

fn push_warnings(output: &mut String, warnings: &ScanWarnings)
    requires
        warnings.sum() <= u64::MAX,
    ensures
        final(output)@ == old(output)@ + warnings_section(*warnings),
{
    if warnings.total() > 0 {
        output.append("Warnings\n");
        push_count_line(output, "  missing inode refs:   ", warnings.missing_inode_references);
        push_count_line(output, "  nodes without parent: ", warnings.nodes_without_parent);
        push_count_line(output, "  directory read errs:  ", warnings.directory_scan_errors);
        push_last_count_line(output, "  directory aliases:    ", warnings.directory_aliases);
    }
    assert(output@ =~= old(output)@ + warnings_section(*warnings));
}

fn push_ranking(output: &mut String, scan: &FilesystemScan, ranking: &[RankedNode])
    requires
        ranking_showable(*scan, ranking@),
    ensures
        final(output)@ == old(output)@ + ranking_lines(*scan, ranking@, ranking@.len()),
{
    let ghost before = output@;
    let mut k: usize = 0;
    assert(output@ =~= before + ranking_lines(*scan, ranking@, 0));
    while k < ranking.len()
        invariant
            k <= ranking.len(),
            ranking_showable(*scan, ranking@),
            output@ == before + ranking_lines(*scan, ranking@, k as nat),
        decreases ranking.len() - k,
    {
        let ranked = ranking[k];
        output.append("  ");
        push_right_aligned(output, formatting::format_size(ranked.allocated_size).as_str());
        output.append("  ");
        proof {
            arena::law_trail_stored(
                scan.result.arena.node_list(),
                scan.result.arena.name_bytes(),
                ranked.id.0 as int,
                scan.result.arena.node_list().len(),
            );
        }
        output.append(scan.result.arena.display_path(ranked.id).as_str());
        output.append("\n");
        k = k + 1;
        assert(output@ =~= before + ranking_lines(*scan, ranking@, k as nat));
    }
}

/// The report of a scan.
pub fn text_report(
    info: &FilesystemInfo,
    scan: &FilesystemScan,
    ranking: &[RankedNode],
    filter: RankFilter,
    timings: &TimingTexts,
) -> (output: String)
    requires
        ranking_showable(*scan, ranking@),
        scan.warnings.sum() <= u64::MAX,
    ensures
        output@ == report_text(*info, *scan, ranking@, filter, *timings),
{
    let mut output = String::new();
    push_filesystem(&mut output, info);
    push_objects(&mut output, &scan.stats);
    push_timing(&mut output, scan.workers, timings);
    push_warnings(&mut output, &scan.warnings);
    let heading = match filter {
        RankFilter::Directories => "Largest directories\n\n",
        RankFilter::Files => "Largest files\n\n",
        RankFilter::DirectoriesAndFiles => "Largest directories and files\n\n",
    };
    output.append(heading);
    push_ranking(&mut output, scan, ranking);
    assert(output@ =~= report_text(*info, *scan, ranking@, filter, *timings));
    output
}

/// A place of a ranking with everything that is reported of it.
#[derive(Debug)]
pub struct RankedEntry {
    pub path: String,
    pub kind: &'static str,
    pub allocated_bytes: u64,
    pub logical_bytes: u64,
    pub inode: u64,
}

/// `entry` reports the place `ranked`.
pub open spec fn reports(scan: FilesystemScan, ranked: RankedNode, entry: RankedEntry) -> bool {
    let node = scan.result.arena.node_list()[ranked.id.0 as int];
    &&& entry.path@ == path_text(scan, ranked.id)
    &&& entry.kind@ == formatting::kind_text(node.kind)
    &&& entry.allocated_bytes == ranked.allocated_size
    &&& entry.logical_bytes == ranked.logical_size
    &&& entry.inode == node.inode
}

/// The places of a ranking with everything that is reported of them.
pub fn ranked_entries(scan: &FilesystemScan, ranking: &[RankedNode]) -> (entries: Vec<RankedEntry>)
    requires
        ranking_showable(*scan, ranking@),
    ensures
        entries@.len() == ranking@.len(),
        forall|k: int|
            0 <= k < ranking@.len() ==> reports(*scan, ranking@[k], #[trigger] entries@[k]),
{
    let mut entries: Vec<RankedEntry> = Vec::with_capacity(ranking.len());
    let mut k: usize = 0;
    while k < ranking.len()
        invariant
            k <= ranking.len(),
            ranking_showable(*scan, ranking@),
            entries.len() == k,
            forall|m: int| 0 <= m < k ==> reports(*scan, ranking@[m], #[trigger] entries@[m]),
        decreases ranking.len() - k,
    {
        let ranked = ranking[k];
        proof {
            arena::law_trail_stored(
                scan.result.arena.node_list(),
                scan.result.arena.name_bytes(),
                ranked.id.0 as int,
                scan.result.arena.node_list().len(),
            );
        }
        let node = scan.result.arena.nodes()[ranked.id.index()];
        entries.push(
            RankedEntry {
                path: scan.result.arena.display_path(ranked.id),
                kind: formatting::kind_name(node.kind),
                allocated_bytes: ranked.allocated_size,
                logical_bytes: ranked.logical_size,
                inode: node.inode,
            },
        );
        k = k + 1;
    }
    entries
}

/// The lines on the filesystem.
proof fn lemma_filesystem_lines(info: FilesystemInfo)
    ensures
        text::contains(
            filesystem_section(info),
            line("  type:                 "@, info.filesystem_type@),
        ),
        text::contains(
            filesystem_section(info),
            line("  device:               "@, text::lossy_text(info.device@)),
        ),
        text::contains(
            filesystem_section(info),
            line(
                "  block size:           "@,
                formatting::count_text(info.block_size as nat) + " bytes"@,
            ),
        ),
        text::contains(
            filesystem_section(info),
            line("  inode slots:          "@, formatting::count_text(info.inode_count as nat)),
        ),
        text::contains(
            filesystem_section(info),
            line(
                "  allocated reported:   "@,
                formatting::count_text(info.reported_allocated_inodes as nat),
            ),
        ),
        text::contains(
            filesystem_section(info),
            line(
                "  features:             compat="@,
                hex_text(info.feature_compat) + " incompat="@ + hex_text(info.feature_incompat)
                    + " ro="@ + hex_text(info.feature_ro_compat) + "\n"@,
            ),
        ),
        text::contains(
            filesystem_section(info),
            line("  size accounting:      "@, info.size_accounting@ + "\n"@),
        ),
{
    let s0 = "Filesystem\n"@;
    let l1 = line("  type:                 "@, info.filesystem_type@);
    let s1 = s0 + l1;
    text::lemma_contains_end(s0, l1);
    let l2 = line("  device:               "@, text::lossy_text(info.device@));
    let s2 = s1 + l2;
    text::lemma_contains_end(s1, l2);
    text::lemma_contains_more(Seq::empty(), s1, l2, l1);
    let l3 = line("  block size:           "@, formatting::count_text(info.block_size as nat) + " bytes"@);
    let s3 = s2 + l3;
    text::lemma_contains_end(s2, l3);
    text::lemma_contains_more(Seq::empty(), s2, l3, l1);
    text::lemma_contains_more(Seq::empty(), s2, l3, l2);
    let l4 = line("  inode slots:          "@, formatting::count_text(info.inode_count as nat));
    let s4 = s3 + l4;
    text::lemma_contains_end(s3, l4);
    text::lemma_contains_more(Seq::empty(), s3, l4, l1);
    text::lemma_contains_more(Seq::empty(), s3, l4, l2);
    text::lemma_contains_more(Seq::empty(), s3, l4, l3);
    let l5 = line(
        "  allocated reported:   "@,
        formatting::count_text(info.reported_allocated_inodes as nat),
    );
    let s5 = s4 + l5;
    text::lemma_contains_end(s4, l5);
    text::lemma_contains_more(Seq::empty(), s4, l5, l1);
    text::lemma_contains_more(Seq::empty(), s4, l5, l2);
    text::lemma_contains_more(Seq::empty(), s4, l5, l3);
    text::lemma_contains_more(Seq::empty(), s4, l5, l4);
    let l6 = line(
        "  features:             compat="@,
        hex_text(info.feature_compat) + " incompat="@ + hex_text(info.feature_incompat) + " ro="@
            + hex_text(info.feature_ro_compat) + "\n"@,
    );
    let s6 = s5 + l6;
    text::lemma_contains_end(s5, l6);
    text::lemma_contains_more(Seq::empty(), s5, l6, l1);
    text::lemma_contains_more(Seq::empty(), s5, l6, l2);
    text::lemma_contains_more(Seq::empty(), s5, l6, l3);
    text::lemma_contains_more(Seq::empty(), s5, l6, l4);
    text::lemma_contains_more(Seq::empty(), s5, l6, l5);
    let l7 = line("  size accounting:      "@, info.size_accounting@ + "\n"@);
    let s7 = s6 + l7;
    text::lemma_contains_end(s6, l7);
    text::lemma_contains_more(Seq::empty(), s6, l7, l1);
    text::lemma_contains_more(Seq::empty(), s6, l7, l2);
    text::lemma_contains_more(Seq::empty(), s6, l7, l3);
    text::lemma_contains_more(Seq::empty(), s6, l7, l4);
    text::lemma_contains_more(Seq::empty(), s6, l7, l5);
    text::lemma_contains_more(Seq::empty(), s6, l7, l6);
    assert(s7 == filesystem_section(info));
}

/// The lines on the objects found.
proof fn lemma_objects_lines(stats: ScanStats)
    ensures
        text::contains(
            objects_section(stats),
            line(
                "  allocated inodes:     "@,
                formatting::count_text(stats.allocated_inodes as nat),
            ),
        ),
        text::contains(
            objects_section(stats),
            line("  files:                "@, formatting::count_text(stats.files as nat)),
        ),
        text::contains(
            objects_section(stats),
            line("  directories:          "@, formatting::count_text(stats.directories as nat)),
        ),
        text::contains(
            objects_section(stats),
            line("  symlinks:             "@, formatting::count_text(stats.symlinks as nat)),
        ),
        text::contains(
            objects_section(stats),
            line("  other:                "@, formatting::count_text(stats.other as nat)),
        ),
        text::contains(
            objects_section(stats),
            line("  tree nodes:           "@, formatting::count_text(stats.nodes as nat)),
        ),
        text::contains(
            objects_section(stats),
            line(
                "  directory entries:    "@,
                formatting::count_text(stats.directory_entries as nat),
            ),
        ),
        text::contains(
            objects_section(stats),
            line(
                "  extra hard links:     "@,
                formatting::count_text(stats.hard_link_entries as nat) + "\n"@,
            ),
        ),
{
    let s0 = "Objects\n"@;
    let l1 = line("  allocated inodes:     "@, formatting::count_text(stats.allocated_inodes as nat));
    let s1 = s0 + l1;
    text::lemma_contains_end(s0, l1);
    let l2 = line("  files:                "@, formatting::count_text(stats.files as nat));
    let s2 = s1 + l2;
    text::lemma_contains_end(s1, l2);
    text::lemma_contains_more(Seq::empty(), s1, l2, l1);
    let l3 = line("  directories:          "@, formatting::count_text(stats.directories as nat));
    let s3 = s2 + l3;
    text::lemma_contains_end(s2, l3);
    text::lemma_contains_more(Seq::empty(), s2, l3, l1);
    text::lemma_contains_more(Seq::empty(), s2, l3, l2);
    let l4 = line("  symlinks:             "@, formatting::count_text(stats.symlinks as nat));
    let s4 = s3 + l4;
    text::lemma_contains_end(s3, l4);
    text::lemma_contains_more(Seq::empty(), s3, l4, l1);
    text::lemma_contains_more(Seq::empty(), s3, l4, l2);
    text::lemma_contains_more(Seq::empty(), s3, l4, l3);
    let l5 = line("  other:                "@, formatting::count_text(stats.other as nat));
    let s5 = s4 + l5;
    text::lemma_contains_end(s4, l5);
    text::lemma_contains_more(Seq::empty(), s4, l5, l1);
    text::lemma_contains_more(Seq::empty(), s4, l5, l2);
    text::lemma_contains_more(Seq::empty(), s4, l5, l3);
    text::lemma_contains_more(Seq::empty(), s4, l5, l4);
    let l6 = line("  tree nodes:           "@, formatting::count_text(stats.nodes as nat));
    let s6 = s5 + l6;
    text::lemma_contains_end(s5, l6);
    text::lemma_contains_more(Seq::empty(), s5, l6, l1);
    text::lemma_contains_more(Seq::empty(), s5, l6, l2);
    text::lemma_contains_more(Seq::empty(), s5, l6, l3);
    text::lemma_contains_more(Seq::empty(), s5, l6, l4);
    text::lemma_contains_more(Seq::empty(), s5, l6, l5);
    let l7 = line("  directory entries:    "@, formatting::count_text(stats.directory_entries as nat));
    let s7 = s6 + l7;
    text::lemma_contains_end(s6, l7);
    text::lemma_contains_more(Seq::empty(), s6, l7, l1);
    text::lemma_contains_more(Seq::empty(), s6, l7, l2);
    text::lemma_contains_more(Seq::empty(), s6, l7, l3);
    text::lemma_contains_more(Seq::empty(), s6, l7, l4);
    text::lemma_contains_more(Seq::empty(), s6, l7, l5);
    text::lemma_contains_more(Seq::empty(), s6, l7, l6);
    let l8 = line(
        "  extra hard links:     "@,
        formatting::count_text(stats.hard_link_entries as nat) + "\n"@,
    );
    let s8 = s7 + l8;
    text::lemma_contains_end(s7, l8);
    text::lemma_contains_more(Seq::empty(), s7, l8, l1);
    text::lemma_contains_more(Seq::empty(), s7, l8, l2);
    text::lemma_contains_more(Seq::empty(), s7, l8, l3);
    text::lemma_contains_more(Seq::empty(), s7, l8, l4);
    text::lemma_contains_more(Seq::empty(), s7, l8, l5);
    text::lemma_contains_more(Seq::empty(), s7, l8, l6);
    text::lemma_contains_more(Seq::empty(), s7, l8, l7);
    assert(s8 == objects_section(stats));
}

/// The lines on the time taken.
proof fn lemma_timing_lines(workers: usize, timings: TimingTexts)
    ensures
        text::contains(
            timing_section(workers, timings),
            line("  scan workers:         "@, text::decimal(workers as nat)),
        ),
        text::contains(
            timing_section(workers, timings),
            line("  filesystem open:      "@, right_aligned(timings.open@, COLUMN as nat)),
        ),
        text::contains(
            timing_section(workers, timings),
            line("  inode scan:           "@, right_aligned(timings.inode_scan@, COLUMN as nat)),
        ),
        text::contains(
            timing_section(workers, timings),
            line(
                "  directory scan:       "@,
                right_aligned(timings.directory_scan@, COLUMN as nat),
            ),
        ),
        text::contains(
            timing_section(workers, timings),
            line("  tree build:           "@, right_aligned(timings.tree_build@, COLUMN as nat)),
        ),
        text::contains(
            timing_section(workers, timings),
            line("  aggregation:          "@, right_aligned(timings.aggregation@, COLUMN as nat)),
        ),
        text::contains(
            timing_section(workers, timings),
            line("  ranking:              "@, right_aligned(timings.ranking@, COLUMN as nat)),
        ),
        text::contains(
            timing_section(workers, timings),
            line("  total:                "@, right_aligned(timings.total@, COLUMN as nat) + "\n"@),
        ),
{
    let s0 = "Timing\n"@;
    let l1 = line("  scan workers:         "@, text::decimal(workers as nat));
    let s1 = s0 + l1;
    text::lemma_contains_end(s0, l1);
    let l2 = line("  filesystem open:      "@, right_aligned(timings.open@, COLUMN as nat));
    let s2 = s1 + l2;
    text::lemma_contains_end(s1, l2);
    text::lemma_contains_more(Seq::empty(), s1, l2, l1);
    let l3 = line("  inode scan:           "@, right_aligned(timings.inode_scan@, COLUMN as nat));
    let s3 = s2 + l3;
    text::lemma_contains_end(s2, l3);
    text::lemma_contains_more(Seq::empty(), s2, l3, l1);
    text::lemma_contains_more(Seq::empty(), s2, l3, l2);
    let l4 = line("  directory scan:       "@, right_aligned(timings.directory_scan@, COLUMN as nat));
    let s4 = s3 + l4;
    text::lemma_contains_end(s3, l4);
    text::lemma_contains_more(Seq::empty(), s3, l4, l1);
    text::lemma_contains_more(Seq::empty(), s3, l4, l2);
    text::lemma_contains_more(Seq::empty(), s3, l4, l3);
    let l5 = line("  tree build:           "@, right_aligned(timings.tree_build@, COLUMN as nat));
    let s5 = s4 + l5;
    text::lemma_contains_end(s4, l5);
    text::lemma_contains_more(Seq::empty(), s4, l5, l1);
    text::lemma_contains_more(Seq::empty(), s4, l5, l2);
    text::lemma_contains_more(Seq::empty(), s4, l5, l3);
    text::lemma_contains_more(Seq::empty(), s4, l5, l4);
    let l6 = line("  aggregation:          "@, right_aligned(timings.aggregation@, COLUMN as nat));
    let s6 = s5 + l6;
    text::lemma_contains_end(s5, l6);
    text::lemma_contains_more(Seq::empty(), s5, l6, l1);
    text::lemma_contains_more(Seq::empty(), s5, l6, l2);
    text::lemma_contains_more(Seq::empty(), s5, l6, l3);
    text::lemma_contains_more(Seq::empty(), s5, l6, l4);
    text::lemma_contains_more(Seq::empty(), s5, l6, l5);
    let l7 = line("  ranking:              "@, right_aligned(timings.ranking@, COLUMN as nat));
    let s7 = s6 + l7;
    text::lemma_contains_end(s6, l7);
    text::lemma_contains_more(Seq::empty(), s6, l7, l1);
    text::lemma_contains_more(Seq::empty(), s6, l7, l2);
    text::lemma_contains_more(Seq::empty(), s6, l7, l3);
    text::lemma_contains_more(Seq::empty(), s6, l7, l4);
    text::lemma_contains_more(Seq::empty(), s6, l7, l5);
    text::lemma_contains_more(Seq::empty(), s6, l7, l6);
    let l8 = line("  total:                "@, right_aligned(timings.total@, COLUMN as nat) + "\n"@);
    let s8 = s7 + l8;
    text::lemma_contains_end(s7, l8);
    text::lemma_contains_more(Seq::empty(), s7, l8, l1);
    text::lemma_contains_more(Seq::empty(), s7, l8, l2);
    text::lemma_contains_more(Seq::empty(), s7, l8, l3);
    text::lemma_contains_more(Seq::empty(), s7, l8, l4);
    text::lemma_contains_more(Seq::empty(), s7, l8, l5);
    text::lemma_contains_more(Seq::empty(), s7, l8, l6);
    text::lemma_contains_more(Seq::empty(), s7, l8, l7);
    assert(s8 == timing_section(workers, timings));
}

/// The lines on warnings.
proof fn lemma_warnings_lines(warnings: ScanWarnings)
    requires
        warnings.sum() > 0,
    ensures
        text::contains(
            warnings_section(warnings),
            line(
                "  missing inode refs:   "@,
                formatting::count_text(warnings.missing_inode_references as nat),
            ),
        ),
        text::contains(
            warnings_section(warnings),
            line(
                "  nodes without parent: "@,
                formatting::count_text(warnings.nodes_without_parent as nat),
            ),
        ),
        text::contains(
            warnings_section(warnings),
            line(
                "  directory read errs:  "@,
                formatting::count_text(warnings.directory_scan_errors as nat),
            ),
        ),
        text::contains(
            warnings_section(warnings),
            line(
                "  directory aliases:    "@,
                formatting::count_text(warnings.directory_aliases as nat) + "\n"@,
            ),
        ),
{
    let s0 = "Warnings\n"@;
    let l1 = line(
        "  missing inode refs:   "@,
        formatting::count_text(warnings.missing_inode_references as nat),
    );
    let s1 = s0 + l1;
    text::lemma_contains_end(s0, l1);
    let l2 = line("  nodes without parent: "@, formatting::count_text(warnings.nodes_without_parent as nat));
    let s2 = s1 + l2;
    text::lemma_contains_end(s1, l2);
    text::lemma_contains_more(Seq::empty(), s1, l2, l1);
    let l3 = line(
        "  directory read errs:  "@,
        formatting::count_text(warnings.directory_scan_errors as nat),
    );
    let s3 = s2 + l3;
    text::lemma_contains_end(s2, l3);
    text::lemma_contains_more(Seq::empty(), s2, l3, l1);
    text::lemma_contains_more(Seq::empty(), s2, l3, l2);
    let l4 = line(
        "  directory aliases:    "@,
        formatting::count_text(warnings.directory_aliases as nat) + "\n"@,
    );
    let s4 = s3 + l4;
    text::lemma_contains_end(s3, l4);
    text::lemma_contains_more(Seq::empty(), s3, l4, l1);
    text::lemma_contains_more(Seq::empty(), s3, l4, l2);
    text::lemma_contains_more(Seq::empty(), s3, l4, l3);
    assert(s4 == warnings_section(warnings));
}

proof fn lemma_in_sum(
    a: Seq<char>,
    b: Seq<char>,
    c: Seq<char>,
    d: Seq<char>,
    e: Seq<char>,
    f: Seq<char>,
    part: Seq<char>,
)
    requires
        text::contains(a, part) || text::contains(b, part) || text::contains(c, part)
            || text::contains(d, part) || text::contains(f, part),
    ensures
        text::contains(a + b + c + d + e + f, part),
{
    if text::contains(f, part) {
        text::lemma_contains_more(a + b + c + d + e, f, Seq::empty(), part);
    } else {
        if text::contains(a, part) {
            text::lemma_contains_more(Seq::empty(), a, b, part);
        }
        if text::contains(b, part) {
            text::lemma_contains_more(a, b, Seq::empty(), part);
        }
        if text::contains(a + b, part) {
            text::lemma_contains_more(Seq::empty(), a + b, c, part);
        }
        if text::contains(c, part) {
            text::lemma_contains_more(a + b, c, Seq::empty(), part);
        }
        if text::contains(a + b + c, part) {
            text::lemma_contains_more(Seq::empty(), a + b + c, d, part);
        } else {
            text::lemma_contains_more(a + b + c, d, Seq::empty(), part);
        }
        text::lemma_contains_more(Seq::empty(), a + b + c + d, e, part);
        text::lemma_contains_more(Seq::empty(), a + b + c + d + e, f, part);
    }
}

/// What occurs in a section of the report occurs in the report.
proof fn lemma_in_report(
    info: FilesystemInfo,
    scan: FilesystemScan,
    ranking: Seq<RankedNode>,
    filter: RankFilter,
    timings: TimingTexts,
    part: Seq<char>,
)
    requires
        text::contains(filesystem_section(info), part) || text::contains(
            objects_section(scan.stats),
            part,
        ) || text::contains(timing_section(scan.workers, timings), part) || text::contains(
            warnings_section(scan.warnings),
            part,
        ) || text::contains(ranking_lines(scan, ranking, ranking.len()), part),
    ensures
        text::contains(report_text(info, scan, ranking, filter, timings), part),
{
    lemma_in_sum(
        filesystem_section(info),
        objects_section(scan.stats),
        timing_section(scan.workers, timings),
        warnings_section(scan.warnings),
        ranking_heading(filter),
        ranking_lines(scan, ranking, ranking.len()),
        part,
    );
}

proof fn lemma_ends_with_sum(front: Seq<char>, heading: Seq<char>, lines: Seq<char>)
    ensures
        text::ends_with(front + heading + lines, heading + lines),
{
    let whole = front + heading + lines;
    let tail = heading + lines;
    assert(whole.skip(whole.len() - tail.len()) =~= tail);
}

/// The report says of the filesystem its type, device, block size, inodes and features, each behind
/// its own label.
pub proof fn law_reports_describe_the_filesystem(
    info: FilesystemInfo,
    scan: FilesystemScan,
    ranking: Seq<RankedNode>,
    filter: RankFilter,
    timings: TimingTexts,
)
    ensures
        ({
            let report = report_text(info, scan, ranking, filter, timings);
            &&& text::contains(
                report,
                "  type:                 "@ + (info.filesystem_type@) + "\n"@,
            )
            &&& text::contains(
                report,
                "  device:               "@ + (text::lossy_text(info.device@)) + "\n"@,
            )
            &&& text::contains(
                report,
                "  block size:           "@
                    + (formatting::count_text(info.block_size as nat) + " bytes"@) + "\n"@,
            )
            &&& text::contains(
                report,
                "  inode slots:          "@ + (formatting::count_text(info.inode_count as nat))
                    + "\n"@,
            )
            &&& text::contains(
                report,
                "  allocated reported:   "@
                    + (formatting::count_text(info.reported_allocated_inodes as nat)) + "\n"@,
            )
            &&& text::contains(
                report,
                "  features:             compat="@
                    + (hex_text(info.feature_compat) + " incompat="@ + hex_text(info.feature_incompat) + " ro="@ + hex_text(info.feature_ro_compat) + "\n"@)
                    + "\n"@,
            )
            &&& text::contains(
                report,
                "  size accounting:      "@ + (info.size_accounting@ + "\n"@) + "\n"@,
            )
        }),
{
    lemma_filesystem_lines(info);
    lemma_in_report(
        info,
        scan,
        ranking,
        filter,
        timings,
        line("  type:                 "@, info.filesystem_type@),
    );
    lemma_in_report(
        info,
        scan,
        ranking,
        filter,
        timings,
        line("  device:               "@, text::lossy_text(info.device@)),
    );
    lemma_in_report(
        info,
        scan,
        ranking,
        filter,
        timings,
        line(
            "  block size:           "@,
            formatting::count_text(info.block_size as nat) + " bytes"@,
        ),
    );
    lemma_in_report(
        info,
        scan,
        ranking,
        filter,
        timings,
        line("  inode slots:          "@, formatting::count_text(info.inode_count as nat)),
    );
    lemma_in_report(
        info,
        scan,
        ranking,
        filter,
        timings,
        line(
            "  allocated reported:   "@,
            formatting::count_text(info.reported_allocated_inodes as nat),
        ),
    );
    lemma_in_report(
        info,
        scan,
        ranking,
        filter,
        timings,
        line(
            "  features:             compat="@,
            hex_text(info.feature_compat) + " incompat="@ + hex_text(info.feature_incompat)
                + " ro="@ + hex_text(info.feature_ro_compat) + "\n"@,
        ),
    );
    lemma_in_report(
        info,
        scan,
        ranking,
        filter,
        timings,
        line("  size accounting:      "@, info.size_accounting@ + "\n"@),
    );
}

/// The report says how many inodes, files, directories, links and others were found, each behind its
/// own label.
pub proof fn law_reports_count_the_objects(
    info: FilesystemInfo,
    scan: FilesystemScan,
    ranking: Seq<RankedNode>,
    filter: RankFilter,
    timings: TimingTexts,
)
    ensures
        ({
            let report = report_text(info, scan, ranking, filter, timings);
            &&& text::contains(
                report,
                "  allocated inodes:     "@
                    + (formatting::count_text(scan.stats.allocated_inodes as nat)) + "\n"@,
            )
            &&& text::contains(
                report,
                "  files:                "@ + (formatting::count_text(scan.stats.files as nat))
                    + "\n"@,
            )
            &&& text::contains(
                report,
                "  directories:          "@
                    + (formatting::count_text(scan.stats.directories as nat)) + "\n"@,
            )
            &&& text::contains(
                report,
                "  symlinks:             "@
                    + (formatting::count_text(scan.stats.symlinks as nat)) + "\n"@,
            )
            &&& text::contains(
                report,
                "  other:                "@ + (formatting::count_text(scan.stats.other as nat))
                    + "\n"@,
            )
            &&& text::contains(
                report,
                "  tree nodes:           "@ + (formatting::count_text(scan.stats.nodes as nat))
                    + "\n"@,
            )
            &&& text::contains(
                report,
                "  directory entries:    "@
                    + (formatting::count_text(scan.stats.directory_entries as nat)) + "\n"@,
            )
            &&& text::contains(
                report,
                "  extra hard links:     "@
                    + (formatting::count_text(scan.stats.hard_link_entries as nat) + "\n"@)
                    + "\n"@,
            )
        }),
{
    lemma_objects_lines(scan.stats);
    lemma_in_report(
        info,
        scan,
        ranking,
        filter,
        timings,
        line(
            "  allocated inodes:     "@,
            formatting::count_text(scan.stats.allocated_inodes as nat),
        ),
    );
    lemma_in_report(
        info,
        scan,
        ranking,
        filter,
        timings,
        line("  files:                "@, formatting::count_text(scan.stats.files as nat)),
    );
    lemma_in_report(
        info,
        scan,
        ranking,
        filter,
        timings,
        line("  directories:          "@, formatting::count_text(scan.stats.directories as nat)),
    );
    lemma_in_report(
        info,
        scan,
        ranking,
        filter,
        timings,
        line("  symlinks:             "@, formatting::count_text(scan.stats.symlinks as nat)),
    );
    lemma_in_report(
        info,
        scan,
        ranking,
        filter,
        timings,
        line("  other:                "@, formatting::count_text(scan.stats.other as nat)),
    );
    lemma_in_report(
        info,
        scan,
        ranking,
        filter,
        timings,
        line("  tree nodes:           "@, formatting::count_text(scan.stats.nodes as nat)),
    );
    lemma_in_report(
        info,
        scan,
        ranking,
        filter,
        timings,
        line(
            "  directory entries:    "@,
            formatting::count_text(scan.stats.directory_entries as nat),
        ),
    );
    lemma_in_report(
        info,
        scan,
        ranking,
        filter,
        timings,
        line(
            "  extra hard links:     "@,
            formatting::count_text(scan.stats.hard_link_entries as nat) + "\n"@,
        ),
    );
}

/// The report says how many workers there were and how long each part took, each behind its own
/// label.
pub proof fn law_reports_tell_the_times(
    info: FilesystemInfo,
    scan: FilesystemScan,
    ranking: Seq<RankedNode>,
    filter: RankFilter,
    timings: TimingTexts,
)
    ensures
        ({
            let report = report_text(info, scan, ranking, filter, timings);
            &&& text::contains(
                report,
                "  scan workers:         "@ + (text::decimal(scan.workers as nat)) + "\n"@,
            )
            &&& text::contains(
                report,
                "  filesystem open:      "@ + (right_aligned(timings.open@, COLUMN as nat))
                    + "\n"@,
            )
            &&& text::contains(
                report,
                "  inode scan:           "@
                    + (right_aligned(timings.inode_scan@, COLUMN as nat)) + "\n"@,
            )
            &&& text::contains(
                report,
                "  directory scan:       "@
                    + (right_aligned(timings.directory_scan@, COLUMN as nat)) + "\n"@,
            )
            &&& text::contains(
                report,
                "  tree build:           "@
                    + (right_aligned(timings.tree_build@, COLUMN as nat)) + "\n"@,
            )
            &&& text::contains(
                report,
                "  aggregation:          "@
                    + (right_aligned(timings.aggregation@, COLUMN as nat)) + "\n"@,
            )
            &&& text::contains(
                report,
                "  ranking:              "@ + (right_aligned(timings.ranking@, COLUMN as nat))
                    + "\n"@,
            )
            &&& text::contains(
                report,
                "  total:                "@
                    + (right_aligned(timings.total@, COLUMN as nat) + "\n"@) + "\n"@,
            )
        }),
{
    lemma_timing_lines(scan.workers, timings);
    lemma_in_report(
        info,
        scan,
        ranking,
        filter,
        timings,
        line("  scan workers:         "@, text::decimal(scan.workers as nat)),
    );
    lemma_in_report(
        info,
        scan,
        ranking,
        filter,
        timings,
        line("  filesystem open:      "@, right_aligned(timings.open@, COLUMN as nat)),
    );
    lemma_in_report(
        info,
        scan,
        ranking,
        filter,
        timings,
        line("  inode scan:           "@, right_aligned(timings.inode_scan@, COLUMN as nat)),
    );
    lemma_in_report(
        info,
        scan,
        ranking,
        filter,
        timings,
        line("  directory scan:       "@, right_aligned(timings.directory_scan@, COLUMN as nat)),
    );
    lemma_in_report(
        info,
        scan,
        ranking,
        filter,
        timings,
        line("  tree build:           "@, right_aligned(timings.tree_build@, COLUMN as nat)),
    );
    lemma_in_report(
        info,
        scan,
        ranking,
        filter,
        timings,
        line("  aggregation:          "@, right_aligned(timings.aggregation@, COLUMN as nat)),
    );
    lemma_in_report(
        info,
        scan,
        ranking,
        filter,
        timings,
        line("  ranking:              "@, right_aligned(timings.ranking@, COLUMN as nat)),
    );
    lemma_in_report(
        info,
        scan,
        ranking,
        filter,
        timings,
        line("  total:                "@, right_aligned(timings.total@, COLUMN as nat) + "\n"@),
    );
}

/// Where there are warnings, the report counts them, each sort behind its own label.
pub proof fn law_reports_tell_warnings(
    info: FilesystemInfo,
    scan: FilesystemScan,
    ranking: Seq<RankedNode>,
    filter: RankFilter,
    timings: TimingTexts,
)
    requires
        scan.warnings.sum() > 0,
    ensures
        ({
            let report = report_text(info, scan, ranking, filter, timings);
            &&& text::contains(
                report,
                "  missing inode refs:   "@
                    + (formatting::count_text(scan.warnings.missing_inode_references as nat))
                    + "\n"@,
            )
            &&& text::contains(
                report,
                "  nodes without parent: "@
                    + (formatting::count_text(scan.warnings.nodes_without_parent as nat))
                    + "\n"@,
            )
            &&& text::contains(
                report,
                "  directory read errs:  "@
                    + (formatting::count_text(scan.warnings.directory_scan_errors as nat))
                    + "\n"@,
            )
            &&& text::contains(
                report,
                "  directory aliases:    "@
                    + (formatting::count_text(scan.warnings.directory_aliases as nat) + "\n"@)
                    + "\n"@,
            )
        }),
{
    lemma_warnings_lines(scan.warnings);
    lemma_in_report(
        info,
        scan,
        ranking,
        filter,
        timings,
        line(
            "  missing inode refs:   "@,
            formatting::count_text(scan.warnings.missing_inode_references as nat),
        ),
    );
    lemma_in_report(
        info,
        scan,
        ranking,
        filter,
        timings,
        line(
            "  nodes without parent: "@,
            formatting::count_text(scan.warnings.nodes_without_parent as nat),
        ),
    );
    lemma_in_report(
        info,
        scan,
        ranking,
        filter,
        timings,
        line(
            "  directory read errs:  "@,
            formatting::count_text(scan.warnings.directory_scan_errors as nat),
        ),
    );
    lemma_in_report(
        info,
        scan,
        ranking,
        filter,
        timings,
        line(
            "  directory aliases:    "@,
            formatting::count_text(scan.warnings.directory_aliases as nat) + "\n"@,
        ),
    );
}

/// Without warnings the report has no section on them.
pub proof fn law_no_warnings_no_section(warnings: ScanWarnings)
    requires
        warnings.missing_inode_references == 0,
        warnings.nodes_without_parent == 0,
        warnings.directory_scan_errors == 0,
        warnings.directory_aliases == 0,
    ensures
        warnings_section(warnings).len() == 0,
{
}

proof fn lemma_ranking_line(scan: FilesystemScan, ranking: Seq<RankedNode>, count: nat, k: int)
    requires
        0 <= k < count,
    ensures
        text::contains(
            ranking_lines(scan, ranking, count),
            "  "@ + right_aligned(
                formatting::size_text(ranking[k].allocated_size as nat),
                COLUMN as nat,
            ) + "  "@ + path_text(scan, ranking[k].id) + "\n"@,
        ),
    decreases count,
{
    let before = ranking_lines(scan, ranking, (count - 1) as nat);
    let last = ranking[count - 1];
    let row = "  "@ + right_aligned(
        formatting::size_text(last.allocated_size as nat),
        COLUMN as nat,
    ) + "  "@ + path_text(scan, last.id) + "\n"@;
    assert(ranking_lines(scan, ranking, count) =~= before + row);
    if k == count - 1 {
        text::lemma_contains_end(before, row);
    } else {
        lemma_ranking_line(scan, ranking, (count - 1) as nat, k);
        text::lemma_contains_more(
            Seq::empty(),
            before,
            row,
            "  "@ + right_aligned(
                formatting::size_text(ranking[k].allocated_size as nat),
                COLUMN as nat,
            ) + "  "@ + path_text(scan, ranking[k].id) + "\n"@,
        );
    }
}

/// The report ends with the ranking under its heading, and every place of a ranking has its line: a
/// directory with what its subtree takes, a file with what it takes itself, and the path.
pub proof fn law_reports_list_the_ranking(
    info: FilesystemInfo,
    scan: FilesystemScan,
    ranking: Seq<RankedNode>,
    filter: RankFilter,
    timings: TimingTexts,
    k: int,
)
    requires
        rank::places_filled(
            scan.result.arena.node_list(),
            scan.result.totals@,
            filter,
            ranking,
        ),
        0 <= k < ranking.len(),
    ensures
        ({
            let nodes = scan.result.arena.node_list();
            let i = ranking[k].id.0 as int;
            let size = if nodes[i].kind == NodeKind::Directory {
                scan.result.totals@[i].recursive_allocated
            } else {
                nodes[i].allocated_size
            };
            text::contains(
                report_text(info, scan, ranking, filter, timings),
                "  "@ + right_aligned(formatting::size_text(size as nat), 10) + "  "@
                    + text::lossy_text(
                    arena::path_of(nodes, scan.result.arena.name_bytes(), i),
                ) + "\n"@,
            )
        }),
        text::ends_with(
            report_text(info, scan, ranking, filter, timings),
            (match filter {
                RankFilter::Directories => "Largest directories\n\n"@,
                RankFilter::Files => "Largest files\n\n"@,
                RankFilter::DirectoriesAndFiles => "Largest directories and files\n\n"@,
            }) + ranking_lines(scan, ranking, ranking.len()),
        ),
{
    rank::law_places_measure_their_nodes(
        scan.result.arena.node_list(),
        scan.result.totals@,
        filter,
        ranking,
        k,
    );
    lemma_ranking_line(scan, ranking, ranking.len(), k);
    lemma_in_report(
        info,
        scan,
        ranking,
        filter,
        timings,
        "  "@ + right_aligned(
            formatting::size_text(ranking[k].allocated_size as nat),
            COLUMN as nat,
        ) + "  "@ + path_text(scan, ranking[k].id) + "\n"@,
    );
    lemma_ends_with_sum(
        filesystem_section(info) + objects_section(scan.stats) + timing_section(
            scan.workers,
            timings,
        ) + warnings_section(scan.warnings),
        ranking_heading(filter),
        ranking_lines(scan, ranking, ranking.len()),
    );
}

/// A value in a column ends it, with nothing but spaces in front, and no value is cut.
pub proof fn law_columns_keep_their_values(value: Seq<char>, width: nat)
    ensures
        text::ends_with(right_aligned(value, width), value),
        right_aligned(value, width).len() >= width,
        right_aligned(value, width).len() == width || right_aligned(value, width) == value,
        forall|i: int|
            0 <= i < right_aligned(value, width).len() - value.len() ==> #[trigger] right_aligned(
                value,
                width,
            )[i] == ' ',
{
    let text = right_aligned(value, width);
    assert(text.skip(text.len() - value.len()) =~= value);
}

/// An entry of a ranking reports its node: a directory with what its subtree takes on disk and
/// holds, a file with its own sizes, both with their path, kind and inode.
pub proof fn law_entries_report_their_nodes(
    scan: FilesystemScan,
    filter: RankFilter,
    ranking: Seq<RankedNode>,
    entries: Seq<RankedEntry>,
    k: int,
)
    requires
        rank::places_filled(
            scan.result.arena.node_list(),
            scan.result.totals@,
            filter,
            ranking,
        ),
        entries.len() == ranking.len(),
        0 <= k < ranking.len(),
        reports(scan, ranking[k], entries[k]),
    ensures
        ({
            let nodes = scan.result.arena.node_list();
            let i = ranking[k].id.0 as int;
            let totals = scan.result.totals@[i];
            &&& nodes[i].kind == NodeKind::Directory ==> entries[k].allocated_bytes
                == totals.recursive_allocated && entries[k].logical_bytes
                == totals.recursive_logical && entries[k].kind@ == "directory"@
            &&& nodes[i].kind == NodeKind::File ==> entries[k].allocated_bytes
                == nodes[i].allocated_size && entries[k].logical_bytes == nodes[i].logical_size
                && entries[k].kind@ == "file"@
            &&& entries[k].inode == nodes[i].inode
            &&& entries[k].path@ == text::lossy_text(
                arena::path_of(nodes, scan.result.arena.name_bytes(), i),
            )
        }),
{
    rank::law_places_measure_their_nodes(
        scan.result.arena.node_list(),
        scan.result.totals@,
        filter,
        ranking,
        k,
    );
}

/// Along the entries of a ranking the bytes on disk never rise.
pub proof fn law_entries_go_largest_first(
    scan: FilesystemScan,
    ranking: Seq<RankedNode>,
    entries: Seq<RankedEntry>,
    a: int,
    b: int,
)
    requires
        rank::places_ordered(ranking),
        entries.len() == ranking.len(),
        0 <= a < b < ranking.len(),
        reports(scan, ranking[a], entries[a]),
        reports(scan, ranking[b], entries[b]),
    ensures
        entries[a].allocated_bytes >= entries[b].allocated_bytes,
{
    rank::law_rankings_go_largest_first(ranking, a, b);
}

/// The number that hexadecimal digits say.
pub open spec fn hex_value(text: Seq<char>) -> int
    decreases text.len(),
{
    if text.len() == 0 {
        0
    } else {
        let last = text.last();
        16 * hex_value(text.drop_last()) + if '0' <= last <= '9' {
            last as int - '0' as int
        } else {
            last as int - 'a' as int + 10
        }
    }
}

/// What `count` hexadecimal digits can say.
spec fn hex_limit(count: nat) -> nat
    decreases count,
{
    if count == 0 {
        1
    } else {
        16 * hex_limit((count - 1) as nat)
    }
}

proof fn lemma_hex_digits(value: nat, count: nat)
    requires
        value < hex_limit(count),
    ensures
        hex_digits(value, count).len() == count,
        hex_value(hex_digits(value, count)) == value,
    decreases count,
{
    if count > 0 {
        lemma_hex_digits(value / 16, (count - 1) as nat);
        assert(hex_digits(value, count).drop_last() =~= hex_digits(
            value / 16,
            (count - 1) as nat,
        ));
        assert(hex_digits(value, count).last() == hex_digit(value % 16));
    }
}

/// Features are given by eight hexadecimal digits that read back as the number.
pub proof fn law_hexadecimals_read_back(value: u32)
    ensures
        hex_text(value).len() == 10,
        hex_text(value).take(2) == "0x"@,
        hex_value(hex_text(value).skip(2)) == value,
{
    reveal_with_fuel(hex_limit, 9);
    assert(hex_limit(8) == 0x1_0000_0000);
    lemma_hex_digits(value as nat, 8);
    reveal_strlit("0x");
    assert("0x"@.len() == 2);
    assert(hex_text(value).take(2) =~= "0x"@);
    assert(hex_text(value).skip(2) =~= hex_digits(value as nat, 8));
}

} // verus!
