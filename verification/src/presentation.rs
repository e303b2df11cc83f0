//! What the graphical front end says of a scan.

use vstd::prelude::*;

use crate::aggregate;
use crate::arena;
use crate::file_ops::DeleteMode;
use crate::formatting;
use crate::node::{Node, NodeId, NodeKind};
use crate::scan::{FilesystemScan, ScanResult};
use crate::text;
use crate::tree_model;
use crate::tree_model::TreeRow;
use crate::volumes::Volume;

verus! {

/// A way of more steps than these is shown without its middle.
pub const LONGEST_BREADCRUMB: usize = 5;

/// What a node is called: its name, or a slash for the root.
pub open spec fn label_text(result: ScanResult, id: NodeId) -> Seq<char> {
    if id == NodeId(0) {
        "/"@
    } else {
        text::lossy_text(
            arena::name_at(result.arena.name_bytes(), result.arena.node_list()[id.0 as int].name),
        )
    }
}

/// What a node is called can be told: it is the root, or its name is stored.
pub open spec fn label_told(result: ScanResult, id: NodeId) -> bool {
    let nodes = result.arena.node_list();
    id == NodeId(0) || (id.0 < nodes.len() && arena::name_stored(
        result.arena.name_bytes(),
        nodes[id.0 as int].name,
    ))
}

/// What a node is called.
pub fn node_label(scan: &FilesystemScan, id: NodeId) -> (label: String)
    requires
        label_told(scan.result, id),
    ensures
        label@ == label_text(scan.result, id),
{
    if id == NodeId::root() {
        String::from_str("/")
    } else {
        text::from_utf8_lossy(scan.result.arena.name(id))
    }
}

/// One step of the way to a node.
#[derive(Debug)]
pub enum Crumb {
    /// Steps that are left out.
    Gap,
    Step {
        id: NodeId,
        label: String,
        /// The node that the way leads to.
        last: bool,
    },
}

/// A step as a value.
pub enum CrumbView {
    Gap,
    Step { id: NodeId, label: Seq<char>, last: bool },
}

impl View for Crumb {
    type V = CrumbView;

    open spec fn view(&self) -> CrumbView {
        match self {
            Crumb::Gap => CrumbView::Gap,
            Crumb::Step { id, label, last } => CrumbView::Step {
                id: *id,
                label: label@,
                last: *last,
            },
        }
    }
}

/// The steps as values.
pub open spec fn crumb_views(crumbs: Seq<Crumb>) -> Seq<CrumbView> {
    crumbs.map_values(|crumb: Crumb| crumb@)
}

/// Of a long way only the root and the last three steps are shown.
pub open spec fn is_hidden(length: nat, depth: nat) -> bool {
    length > LONGEST_BREADCRUMB && 0 < depth && depth + 3 < length
}

/// How the first `count` steps of a way are shown.
pub open spec fn crumbs_of(result: ScanResult, way: Seq<NodeId>, count: nat) -> Seq<CrumbView>
    decreases count,
{
    if count == 0 {
        Seq::empty()
    } else {
        let depth = (count - 1) as nat;
        let before = crumbs_of(result, way, depth);
        let marked = if way.len() > LONGEST_BREADCRUMB && depth == 1 {
            before.push(CrumbView::Gap)
        } else {
            before
        };
        if is_hidden(way.len(), depth) {
            marked
        } else {
            marked.push(
                CrumbView::Step {
                    id: way[depth as int],
                    label: label_text(result, way[depth as int]),
                    last: depth + 1 == way.len(),
                },
            )
        }
    }
}

/// The way from the root to a node passes nodes that exist.
proof fn lemma_climb_exists(nodes: Seq<Node>, id: NodeId, steps: nat, length: nat, k: int)
    requires
        aggregate::parents_exist(nodes),
        id.0 < nodes.len(),
        0 <= k < tree_model::climb(nodes, id, steps, length).len(),
    ensures
        tree_model::climb(nodes, id, steps, length)[k].0 < nodes.len(),
    decreases steps,
{
    let parent = nodes[id.0 as int].parent;
    if k > 0 {
        lemma_climb_exists(nodes, parent, (steps - 1) as nat, length + 1, k - 1);
    }
}

proof fn lemma_chain_exists(nodes: Seq<Node>, id: NodeId)
    requires
        aggregate::parents_exist(nodes),
        id.0 < nodes.len(),
    ensures
        forall|k: int|
            0 <= k < tree_model::chain_of(nodes, id).len() ==> (#[trigger] tree_model::chain_of(
                nodes,
                id,
            )[k]).0 < nodes.len(),
{
    let climbed = tree_model::climb(nodes, id, nodes.len() + 1, 1);
    let up = seq![id] + climbed;
    let chain = tree_model::chain_of(nodes, id);
    assert forall|m: int| 0 <= m < up.len() implies (#[trigger] up[m]).0 < nodes.len() by {
        if m > 0 {
            lemma_climb_exists(nodes, id, nodes.len() + 1, 1, m - 1);
            assert(up[m] == climbed[m - 1]);
        }
    }
    let way = up.reverse();
    assert forall|k: int| 0 <= k < chain.len() implies (#[trigger] chain[k]).0 < nodes.len() by {
        if way[0] == NodeId(0) {
            assert(chain[k] == up[up.len() - 1 - k]);
        } else if k > 0 {
            assert(chain[k] == way[k - 1]);
            assert(way[k - 1] == up[up.len() - k]);
        }
    }
}

/// Every step of a way that is shown can be told.
pub open spec fn steps_told(result: ScanResult, way: Seq<NodeId>) -> bool {
    forall|k: int|
        0 <= k < way.len() && !is_hidden(way.len(), k as nat) ==> label_told(
            result,
            #[trigger] way[k],
        )
}

/// Where every node has a parent and a stored name, every way can be told.
pub proof fn law_ways_can_be_told(result: ScanResult, id: NodeId)
    requires
        arena::names_stored(result.arena.node_list(), result.arena.name_bytes()),
        aggregate::parents_exist(result.arena.node_list()),
        id.0 < result.arena.node_list().len(),
    ensures
        steps_told(result, tree_model::chain_of(result.arena.node_list(), id)),
{
    lemma_chain_exists(result.arena.node_list(), id);
}

/// The way from the root to a node, without its middle where it is long.
pub fn breadcrumb(scan: &FilesystemScan, id: NodeId) -> (crumbs: Vec<Crumb>)
    requires
        scan.result.arena.node_list().len() <= u32::MAX + 1,
        steps_told(scan.result, tree_model::chain_of(scan.result.arena.node_list(), id)),
    ensures
        ({
            let way = tree_model::chain_of(scan.result.arena.node_list(), id);
            crumb_views(crumbs@) == crumbs_of(scan.result, way, way.len())
        }),
{
    let way = tree_model::ancestor_chain(scan, id);
    let length: usize = way.len();
    let mut crumbs: Vec<Crumb> = Vec::new();
    let mut depth: usize = 0;
    assert(crumb_views(crumbs@) =~= crumbs_of(scan.result, way@, 0));
    while depth < length
        invariant
            depth <= length,
            length == way@.len(),
            steps_told(scan.result, way@),
            crumb_views(crumbs@) == crumbs_of(scan.result, way@, depth as nat),
        decreases length - depth,
    {
        let ghost before = crumbs@;
        if length > LONGEST_BREADCRUMB && depth == 1 {
            crumbs.push(Crumb::Gap);
            assert(crumb_views(crumbs@) =~= crumb_views(before).push(CrumbView::Gap));
        }
        let ghost marked = crumbs@;
        if !(length > LONGEST_BREADCRUMB && 0 < depth && depth < length - 3) {
            let label = node_label(scan, way[depth]);
            crumbs.push(Crumb::Step { id: way[depth], label, last: depth == length - 1 });
            assert(crumb_views(crumbs@) =~= crumb_views(marked).push(crumbs@.last()@));
        }
        depth = depth + 1;
    }
    crumbs
}

/// How step `depth` of a way is shown.
pub open spec fn step_of(result: ScanResult, way: Seq<NodeId>, depth: int) -> CrumbView {
    CrumbView::Step {
        id: way[depth],
        label: label_text(result, way[depth]),
        last: depth + 1 == way.len(),
    }
}

proof fn lemma_middle_is_hidden(result: ScanResult, way: Seq<NodeId>, count: nat)
    requires
        way.len() > LONGEST_BREADCRUMB,
        2 <= count <= way.len() - 3,
    ensures
        crumbs_of(result, way, count) == seq![step_of(result, way, 0), CrumbView::Gap],
    decreases count,
{
    if count > 2 {
        lemma_middle_is_hidden(result, way, (count - 1) as nat);
    } else {
        reveal_with_fuel(crumbs_of, 3);
        assert(crumbs_of(result, way, 1) =~= seq![step_of(result, way, 0)]);
        assert(crumbs_of(result, way, 2) =~= seq![step_of(result, way, 0), CrumbView::Gap]);
    }
}

/// Of a long way the root, a gap and the last three steps are shown.
pub proof fn law_long_ways_show_their_ends(result: ScanResult, way: Seq<NodeId>)
    requires
        way.len() > 5,
    ensures
        crumbs_of(result, way, way.len()) == seq![
            step_of(result, way, 0),
            CrumbView::Gap,
            step_of(result, way, way.len() - 3),
            step_of(result, way, way.len() - 2),
            step_of(result, way, way.len() - 1),
        ],
{
    let count = way.len();
    lemma_middle_is_hidden(result, way, (count - 3) as nat);
    reveal_with_fuel(crumbs_of, 4);
    assert(crumbs_of(result, way, count) =~= seq![
        step_of(result, way, 0),
        CrumbView::Gap,
        step_of(result, way, count - 3),
        step_of(result, way, count - 2),
        step_of(result, way, count - 1),
    ]);
}

/// What stands between the parts of a description.
pub open spec fn separator() -> Seq<char> {
    "  ·  "@
}

/// How many items a directory holds, itself left out.
pub open spec fn items_inside(totals: aggregate::Totals) -> nat {
    if totals.recursive_items > 0 {
        (totals.recursive_items - 1) as nat
    } else {
        0
    }
}

/// The status line of a node: its sizes, the logical one only where it differs, what a directory
/// holds, and how long the scan took.
pub open spec fn status_text(totals: aggregate::Totals, is_dir: bool, elapsed: Seq<char>) -> Seq<
    char,
> {
    let sizes = formatting::size_text(totals.recursive_allocated as nat) + " allocated"@ + (
    if totals.recursive_logical != totals.recursive_allocated {
        separator() + formatting::size_text(totals.recursive_logical as nat) + " logical"@
    } else {
        Seq::empty()
    });
    let counts = if is_dir {
        separator() + formatting::count_text(items_inside(totals)) + " items"@ + separator()
            + formatting::count_text(totals.recursive_files as nat) + " files"@ + separator()
            + formatting::count_text(totals.recursive_subdirs as nat) + " folders"@
    } else {
        Seq::empty()
    };
    sizes + counts + separator() + elapsed + " scan"@
}

fn count_inside(totals: aggregate::Totals) -> (items: u64)
    ensures
        items == items_inside(totals),
{
    if totals.recursive_items > 0 {
        totals.recursive_items - 1
    } else {
        0
    }
}

/// The status line of a node.
pub fn status_details(scan: &FilesystemScan, id: NodeId, elapsed: &str) -> (details: String)
    requires
        id.0 < scan.result.arena.node_list().len(),
        id.0 < scan.result.totals@.len(),
    ensures
        details@ == status_text(
            scan.result.totals@[id.0 as int],
            scan.result.arena.node_list()[id.0 as int].kind == NodeKind::Directory,
            elapsed@,
        ),
{
    let totals = scan.result.totals[id.index()];
    let is_dir = scan.result.arena.nodes()[id.index()].kind == NodeKind::Directory;
    let mut details = formatting::format_size(totals.recursive_allocated);
    details.append(" allocated");
    if totals.recursive_logical != totals.recursive_allocated {
        details.append("  ·  ");
        details.append(formatting::format_size(totals.recursive_logical).as_str());
        details.append(" logical");
    }
    let ghost sizes = details@;
    if is_dir {
        details.append("  ·  ");
        details.append(formatting::format_count(count_inside(totals)).as_str());
        details.append(" items");
        details.append("  ·  ");
        details.append(formatting::format_count(totals.recursive_files).as_str());
        details.append(" files");
        details.append("  ·  ");
        details.append(formatting::format_count(totals.recursive_subdirs).as_str());
        details.append(" folders");
    }
    details.append("  ·  ");
    details.append(elapsed);
    details.append(" scan");
    assert(details@ =~= status_text(totals, is_dir, elapsed@));
    details
}

/// The cells of a row. The counts of what is not a directory are empty.
#[derive(Debug)]
pub struct RowCells {
    pub name: String,
    pub size: String,
    pub items: String,
    pub files: String,
    pub folders: String,
    /// When the node, or anything below it, was last modified.
    pub modified: i64,
    /// Allocated size of the node.
    pub allocated: u64,
    /// What the node is a share of: its parent, or itself for the root, and never nothing.
    pub share_of: u64,
}

/// A count, or nothing.
pub open spec fn count_cell(is_dir: bool, count: nat) -> Seq<char> {
    if is_dir {
        formatting::count_text(count)
    } else {
        Seq::empty()
    }
}

fn format_cell(is_dir: bool, count: u64) -> (cell: String)
    ensures
        cell@ == count_cell(is_dir, count as nat),
{
    if is_dir {
        formatting::format_count(count)
    } else {
        String::new()
    }
}

/// `cells` belong to the row of a node.
pub open spec fn cells_of(result: ScanResult, id: NodeId, cells: RowCells) -> bool {
    let node = result.arena.node_list()[id.0 as int];
    let totals = result.totals@[id.0 as int];
    let is_dir = node.kind == NodeKind::Directory;
    let whole = if id == NodeId(0) {
        totals.recursive_allocated
    } else {
        result.totals@[node.parent.0 as int].recursive_allocated
    };
    &&& cells.name@ == label_text(result, id)
    &&& cells.size@ == formatting::size_text(totals.recursive_allocated as nat)
    &&& cells.items@ == count_cell(is_dir, items_inside(totals))
    &&& cells.files@ == count_cell(is_dir, totals.recursive_files as nat)
    &&& cells.folders@ == count_cell(is_dir, totals.recursive_subdirs as nat)
    &&& cells.modified == if is_dir {
        totals.latest_mtime
    } else {
        node.mtime
    }
    &&& cells.allocated == totals.recursive_allocated
    &&& cells.share_of == if whole > 0 {
        whole
    } else {
        1
    }
}

/// The cells of a row.
pub fn row_cells(scan: &FilesystemScan, row: TreeRow) -> (cells: RowCells)
    requires
        row.id.0 < scan.result.arena.node_list().len(),
        row.id.0 < scan.result.totals@.len(),
        label_told(scan.result, row.id),
        row.id != NodeId(0) ==> aggregate::parent_of(
            scan.result.arena.node_list(),
            row.id.0 as int,
        ) < scan.result.totals@.len(),
    ensures
        cells_of(scan.result, row.id, cells),
{
    let id = row.id;
    let node = scan.result.arena.nodes()[id.index()];
    let totals = scan.result.totals[id.index()];
    let is_dir = node.kind == NodeKind::Directory;
    let whole: u64 = if id == NodeId::root() {
        totals.recursive_allocated
    } else {
        scan.result.totals[node.parent.index()].recursive_allocated
    };
    RowCells {
        name: node_label(scan, id),
        size: formatting::format_size(totals.recursive_allocated),
        items: format_cell(is_dir, count_inside(totals)),
        files: format_cell(is_dir, totals.recursive_files),
        folders: format_cell(is_dir, totals.recursive_subdirs),
        modified: if is_dir {
            totals.latest_mtime
        } else {
            node.mtime
        },
        allocated: totals.recursive_allocated,
        share_of: if whole > 0 {
            whole
        } else {
            1
        },
    }
}

/// Where a volume is mounted.
pub open spec fn mount_words(mount_point: Option<Seq<u8>>) -> Seq<char> {
    match mount_point {
        Some(path) => text::lossy_text(path),
        None => "not mounted"@,
    }
}

/// Where a volume is mounted, in words.
pub fn mount_text(volume: &Volume) -> (words: String)
    ensures
        words@ == mount_words(volume@.mount_point),
{
    match &volume.mount_point {
        Some(path) => text::from_utf8_lossy(path.as_slice()),
        None => String::from_str("not mounted"),
    }
}

/// A volume in words: its device and where it is mounted.
pub fn volume_text(volume: &Volume) -> (words: String)
    ensures
        words@ == text::lossy_text(volume@.device) + separator() + mount_words(volume@.mount_point),
{
    let mut words = text::from_utf8_lossy(volume.device.as_slice());
    words.append("  ·  ");
    words.append(mount_text(volume).as_str());
    words
}

/// What is being scanned.
pub fn scanning_text(device: &[u8]) -> (words: String)
    ensures
        words@ == "Reading "@ + text::lossy_text(device@),
{
    let mut words = String::from_str("Reading ");
    words.append(text::from_utf8_lossy(device).as_str());
    words
}

/// What could not be scanned.
pub fn failure_title(device: &[u8]) -> (words: String)
    ensures
        words@ == "Could not read "@ + text::lossy_text(device@),
{
    let mut words = String::from_str("Could not read ");
    words.append(text::from_utf8_lossy(device).as_str());
    words
}

/// What deleting for good means.
pub fn delete_description(is_directory: bool) -> (words: &'static str)
    ensures
        words@ == if is_directory {
            "The folder and everything inside it will be deleted. This cannot be undone."@
        } else {
            "The file will be deleted. This cannot be undone."@
        },
{
    if is_directory {
        "The folder and everything inside it will be deleted. This cannot be undone."
    } else {
        "The file will be deleted. This cannot be undone."
    }
}

/// What is said while an item is being deleted.
pub open spec fn progress_words(mode: DeleteMode, name: Seq<char>) -> Seq<char> {
    match mode {
        DeleteMode::Trash => "Moving "@ + name + " to Trash"@,
        DeleteMode::Permanent => "Deleting "@ + name,
    }
}

/// What is said while an item is being deleted.
pub fn progress_text(mode: DeleteMode, name: &str) -> (words: String)
    ensures
        words@ == progress_words(mode, name@),
{
    match mode {
        DeleteMode::Trash => {
            let mut words = String::from_str("Moving ");
            words.append(name);
            words.append(" to Trash");
            words
        },
        DeleteMode::Permanent => {
            let mut words = String::from_str("Deleting ");
            words.append(name);
            words
        },
    }
}

/// What is said of an item that was deleted.
pub open spec fn deleted_words(mode: DeleteMode, name: Seq<char>) -> Seq<char> {
    match mode {
        DeleteMode::Trash => "Moved "@ + name + " to Trash"@,
        DeleteMode::Permanent => "Permanently deleted "@ + name,
    }
}

/// What is said of an item that was deleted.
pub fn deleted_text(mode: DeleteMode, name: &str) -> (words: String)
    ensures
        words@ == deleted_words(mode, name@),
{
    match mode {
        DeleteMode::Trash => {
            let mut words = String::from_str("Moved ");
            words.append(name);
            words.append(" to Trash");
            words
        },
        DeleteMode::Permanent => {
            let mut words = String::from_str("Permanently deleted ");
            words.append(name);
            words
        },
    }
}

/// What is said of an item that could not be deleted.
pub open spec fn undeleted_words(mode: DeleteMode, name: Seq<char>, error: Seq<char>) -> Seq<char> {
    match mode {
        DeleteMode::Trash => "Could not move "@ + name + " to Trash: "@ + error,
        DeleteMode::Permanent => "Could not delete "@ + name + ": "@ + error,
    }
}

/// What is said of an item that could not be deleted.
pub fn undeleted_text(mode: DeleteMode, name: &str, error: &str) -> (words: String)
    ensures
        words@ == undeleted_words(mode, name@, error@),
{
    match mode {
        DeleteMode::Trash => {
            let mut words = String::from_str("Could not move ");
            words.append(name);
            words.append(" to Trash: ");
            words.append(error);
            words
        },
        DeleteMode::Permanent => {
            let mut words = String::from_str("Could not delete ");
            words.append(name);
            words.append(": ");
            words.append(error);
            words
        },
    }
}

/// A row says of its node the name, what its subtree takes on disk, and the share of its parent; of a
/// directory also how many items, files and folders lie below it and when any of them last changed,
/// of a file when it changed itself.
pub proof fn law_cells_describe_their_node(result: ScanResult, id: NodeId, cells: RowCells)
    requires
        cells_of(result, id, cells),
    ensures
        ({
            let node = result.arena.node_list()[id.0 as int];
            let totals = result.totals@[id.0 as int];
            let directory = node.kind == NodeKind::Directory;
            &&& cells.size@ == formatting::size_text(totals.recursive_allocated as nat)
            &&& cells.allocated == totals.recursive_allocated
            &&& id.0 == 0 ==> cells.name@ == "/"@
            &&& id.0 != 0 ==> cells.name@ == text::lossy_text(
                arena::name_at(result.arena.name_bytes(), node.name),
            )
            &&& directory && totals.recursive_items > 0 ==> cells.items@ == formatting::count_text(
                (totals.recursive_items - 1) as nat,
            )
            &&& directory ==> cells.files@ == formatting::count_text(totals.recursive_files as nat)
            &&& directory ==> cells.folders@ == formatting::count_text(
                totals.recursive_subdirs as nat,
            )
            &&& directory ==> cells.modified == totals.latest_mtime
            &&& !directory ==> cells.modified == node.mtime
            &&& !directory ==> cells.items@.len() == 0 && cells.files@.len() == 0
                && cells.folders@.len() == 0
            &&& cells.share_of >= 1
            &&& id.0 != 0 && result.totals@[node.parent.0 as int].recursive_allocated > 0
                ==> cells.share_of == result.totals@[node.parent.0 as int].recursive_allocated
            &&& id.0 == 0 && totals.recursive_allocated > 0 ==> cells.share_of
                == totals.recursive_allocated
        }),
{
}

proof fn lemma_status_parts(
    a: Seq<char>,
    b: Seq<char>,
    c: Seq<char>,
    d: Seq<char>,
)
    ensures
        text::contains(a + b + c + d, a),
        text::contains(a + b + c + d, b),
        text::contains(a + b + c + d, c),
{
    text::lemma_contains_end(Seq::empty(), a);
    assert(Seq::<char>::empty() + a =~= a);
    text::lemma_contains_more(Seq::empty(), a, b, a);
    text::lemma_contains_more(Seq::empty(), a + b, c, a);
    text::lemma_contains_more(Seq::empty(), a + b + c, d, a);
    text::lemma_contains_end(a, b);
    text::lemma_contains_more(Seq::empty(), a + b, c, b);
    text::lemma_contains_more(Seq::empty(), a + b + c, d, b);
    text::lemma_contains_end(a + b, c);
    text::lemma_contains_more(Seq::empty(), a + b + c, d, c);
}

/// The status line starts with what the selection takes on disk and ends with the time of the scan.
/// It tells the logical size where that differs, and of a directory what lies below it.
pub proof fn law_status_tells_sizes_and_counts(
    totals: aggregate::Totals,
    is_dir: bool,
    elapsed: Seq<char>,
)
    ensures
        ({
            let status = status_text(totals, is_dir, elapsed);
            &&& (formatting::size_text(totals.recursive_allocated as nat)
                + " allocated"@).is_prefix_of(status)
            &&& text::ends_with(status, elapsed + " scan"@)
            &&& totals.recursive_logical != totals.recursive_allocated ==> text::contains(
                status,
                formatting::size_text(totals.recursive_logical as nat) + " logical"@,
            )
            &&& is_dir && totals.recursive_items > 0 ==> text::contains(
                status,
                formatting::count_text((totals.recursive_items - 1) as nat) + " items"@,
            )
            &&& is_dir ==> text::contains(
                status,
                formatting::count_text(totals.recursive_files as nat) + " files"@,
            )
            &&& is_dir ==> text::contains(
                status,
                formatting::count_text(totals.recursive_subdirs as nat) + " folders"@,
            )
        }),
{
    let status = status_text(totals, is_dir, elapsed);
    let gap = separator();
    let allocated = formatting::size_text(totals.recursive_allocated as nat) + " allocated"@;
    let logical = formatting::size_text(totals.recursive_logical as nat) + " logical"@;
    let items = formatting::count_text(items_inside(totals)) + " items"@;
    let files = formatting::count_text(totals.recursive_files as nat) + " files"@;
    let folders = formatting::count_text(totals.recursive_subdirs as nat) + " folders"@;
    let tail = elapsed + " scan"@;
    let sizes = if totals.recursive_logical != totals.recursive_allocated {
        allocated + (gap + logical)
    } else {
        allocated
    };
    let counts = if is_dir {
        gap + items + gap + files + gap + folders
    } else {
        Seq::empty()
    };
    assert(status =~= sizes + counts + gap + tail);
    assert(status.subrange(0, allocated.len() as int) =~= allocated);
    assert(status.skip(status.len() - tail.len()) =~= tail);
    lemma_status_parts(sizes, counts, gap, tail);
    if totals.recursive_logical != totals.recursive_allocated {
        text::lemma_contains_end(gap, logical);
        text::lemma_contains_more(allocated, gap + logical, Seq::empty(), logical);
        text::lemma_contains_more(Seq::empty(), sizes, counts, logical);
        text::lemma_contains_more(Seq::empty(), sizes + counts, gap, logical);
        text::lemma_contains_more(Seq::empty(), sizes + counts + gap, tail, logical);
    }
    if is_dir {
        text::lemma_contains_end(gap, items);
        text::lemma_contains_more(Seq::empty(), gap + items, gap, items);
        text::lemma_contains_more(Seq::empty(), gap + items + gap, files, items);
        text::lemma_contains_more(Seq::empty(), gap + items + gap + files, gap, items);
        text::lemma_contains_more(Seq::empty(), gap + items + gap + files + gap, folders, items);
        text::lemma_contains_end(gap + items + gap, files);
        text::lemma_contains_more(Seq::empty(), gap + items + gap + files, gap, files);
        text::lemma_contains_more(Seq::empty(), gap + items + gap + files + gap, folders, files);
        text::lemma_contains_end(gap + items + gap + files + gap, folders);
        lemma_in_counts(sizes, counts, gap, tail, items);
        lemma_in_counts(sizes, counts, gap, tail, files);
        lemma_in_counts(sizes, counts, gap, tail, folders);
    }
}

proof fn lemma_in_counts(
    sizes: Seq<char>,
    counts: Seq<char>,
    gap: Seq<char>,
    tail: Seq<char>,
    part: Seq<char>,
)
    requires
        text::contains(counts, part),
    ensures
        text::contains(sizes + counts + gap + tail, part),
{
    text::lemma_contains_more(sizes, counts, Seq::empty(), part);
    text::lemma_contains_more(Seq::empty(), sizes + counts, gap, part);
    text::lemma_contains_more(Seq::empty(), sizes + counts + gap, tail, part);
}

/// What is said of a deletion names the item, tells the trash from deleting for good, and passes on
/// why it failed.
pub proof fn law_deletions_are_told(name: Seq<char>, error: Seq<char>)
    ensures
        progress_words(DeleteMode::Trash, name) == "Moving "@ + name + " to Trash"@,
        progress_words(DeleteMode::Permanent, name) == "Deleting "@ + name,
        deleted_words(DeleteMode::Trash, name) == "Moved "@ + name + " to Trash"@,
        deleted_words(DeleteMode::Permanent, name) == "Permanently deleted "@ + name,
        text::ends_with(undeleted_words(DeleteMode::Trash, name, error), error),
        text::ends_with(undeleted_words(DeleteMode::Permanent, name, error), error),
        text::contains(undeleted_words(DeleteMode::Trash, name, error), name),
        text::contains(undeleted_words(DeleteMode::Permanent, name, error), name),
{
    let trash = undeleted_words(DeleteMode::Trash, name, error);
    let permanent = undeleted_words(DeleteMode::Permanent, name, error);
    assert(trash.skip(trash.len() - error.len()) =~= error);
    assert(permanent.skip(permanent.len() - error.len()) =~= error);
    let front = "Could not move "@;
    text::lemma_contains_end(front, name);
    text::lemma_contains_more(Seq::empty(), front + name, " to Trash: "@, name);
    text::lemma_contains_more(Seq::empty(), front + name + " to Trash: "@, error, name);
    let front = "Could not delete "@;
    text::lemma_contains_end(front, name);
    text::lemma_contains_more(Seq::empty(), front + name, ": "@, name);
    text::lemma_contains_more(Seq::empty(), front + name + ": "@, error, name);
}

/// A volume is shown with its mount point, or as not mounted.
pub proof fn law_mounts_are_shown(mount_point: Option<Seq<u8>>)
    ensures
        mount_point is Some ==> mount_words(mount_point) == text::lossy_text(mount_point->0),
        mount_point is None ==> mount_words(mount_point) == "not mounted"@,
{
}

/// A way of at most as many steps as fit is shown whole, step by step.
pub proof fn law_short_ways_are_shown_whole(result: ScanResult, way: Seq<NodeId>, count: nat)
    requires
        way.len() <= 5,
        count <= way.len(),
    ensures
        crumbs_of(result, way, count).len() == count,
        forall|k: int|
            0 <= k < count ==> #[trigger] crumbs_of(result, way, count)[k] == (CrumbView::Step {
                id: way[k],
                label: label_text(result, way[k]),
                last: k + 1 == way.len(),
            }),
    decreases count,
{
    if count > 0 {
        law_short_ways_are_shown_whole(result, way, (count - 1) as nat);
        let before = crumbs_of(result, way, (count - 1) as nat);
        assert forall|k: int| 0 <= k < count implies #[trigger] crumbs_of(result, way, count)[k] == (
        CrumbView::Step {
            id: way[k],
            label: label_text(result, way[k]),
            last: k + 1 == way.len(),
        }) by {
            if k < count - 1 {
                assert(crumbs_of(result, way, count)[k] == before[k]);
            }
        }
    }
}

/// The root is called `/`, every other node by its own name.
pub proof fn law_labels_are_names(result: ScanResult, id: NodeId)
    ensures
        id.0 == 0 ==> label_text(result, id) == "/"@,
        id.0 != 0 ==> label_text(result, id) == text::lossy_text(
            arena::name_at(result.arena.name_bytes(), result.arena.node_list()[id.0 as int].name),
        ),
{
}

} // verus!
