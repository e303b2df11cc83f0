//! What a directory's tile is divided into.

use vstd::prelude::*;

use crate::aggregate;
use crate::arena;
use crate::node::{Node, NodeId, NodeKind};
use crate::order;
use crate::order::Precedence;
use crate::scan::{FilesystemScan, ScanResult};

verus! {

/// A share of a directory: a child, or all of its files together under the directory's own id.
#[derive(Clone, Copy, Debug, PartialEq, Eq, Structural)]
pub struct Share {
    pub id: NodeId,
    /// Allocated size of the subtree.
    pub size: u64,
    /// Logical size of the subtree.
    pub logical: u64,
}

/// The shares that get a tile of their own, and what all shares come to.
#[derive(Debug)]
pub struct Partition {
    pub shares: Vec<Share>,
    /// Includes what was left out of `shares`.
    pub total: u64,
}

/// A sum that stops at the largest value.
pub open spec fn capped(sum: nat) -> u64 {
    if sum > u64::MAX {
        u64::MAX
    } else {
        sum as u64
    }
}

fn add_capped(sum: u64, more: u64) -> (total: u64)
    ensures
        forall|x: nat, y: nat| sum == capped(x) && more == y ==> total == #[trigger] capped(x + y),
{
    if more > u64::MAX - sum {
        u64::MAX
    } else {
        sum + more
    }
}

/// Node `i` is a child of `parent`.
pub open spec fn child_at(nodes: Seq<Node>, parent: NodeId, i: int) -> bool {
    1 <= i < nodes.len() && nodes[i].parent == parent
}

/// Node `i` takes up space in the map of `parent`: it is not empty, and a directory only where
/// directories are shown.
pub open spec fn takes_space(result: ScanResult, parent: NodeId, files_only: bool, i: int) -> bool {
    let nodes = result.arena.node_list();
    &&& child_at(nodes, parent, i)
    &&& result.totals@[i].recursive_allocated > 0
    &&& !(files_only && nodes[i].kind == NodeKind::Directory)
}

/// Beside a directory that takes up space, the files are gathered into one share.
pub open spec fn gathers_files(result: ScanResult, parent: NodeId, files_only: bool) -> bool {
    exists|i: int| #[trigger]
        takes_space(result, parent, files_only, i) && !files_only
            && result.arena.node_list()[i].kind == NodeKind::Directory
}

/// Node `i` belongs to the gathered files.
pub open spec fn is_gathered(result: ScanResult, parent: NodeId, files_only: bool, i: int) -> bool {
    &&& takes_space(result, parent, files_only, i)
    &&& gathers_files(result, parent, files_only)
    &&& result.arena.node_list()[i].kind != NodeKind::Directory
}

/// The share of node `i`.
pub open spec fn share_of(result: ScanResult, i: int) -> Share {
    Share {
        id: NodeId(i as u32),
        size: result.totals@[i].recursive_allocated,
        logical: result.totals@[i].recursive_logical,
    }
}

/// The shares of those of the first `count` nodes that get one of their own.
pub open spec fn single_shares(
    result: ScanResult,
    parent: NodeId,
    files_only: bool,
    count: nat,
) -> Seq<Share>
    decreases count,
{
    if count == 0 {
        Seq::empty()
    } else {
        let before = single_shares(result, parent, files_only, (count - 1) as nat);
        let i = count - 1;
        if takes_space(result, parent, files_only, i) && !is_gathered(
            result,
            parent,
            files_only,
            i,
        ) {
            before.push(share_of(result, i))
        } else {
            before
        }
    }
}

/// The allocated size of those of the first `count` nodes that are gathered.
pub open spec fn gathered_size(
    result: ScanResult,
    parent: NodeId,
    files_only: bool,
    count: nat,
) -> nat
    decreases count,
{
    if count == 0 {
        0
    } else {
        gathered_size(result, parent, files_only, (count - 1) as nat) + if is_gathered(
            result,
            parent,
            files_only,
            count - 1,
        ) {
            result.totals@[count - 1].recursive_allocated as nat
        } else {
            0
        }
    }
}

/// The logical size of those of the first `count` nodes that are gathered.
pub open spec fn gathered_logical(
    result: ScanResult,
    parent: NodeId,
    files_only: bool,
    count: nat,
) -> nat
    decreases count,
{
    if count == 0 {
        0
    } else {
        gathered_logical(result, parent, files_only, (count - 1) as nat) + if is_gathered(
            result,
            parent,
            files_only,
            count - 1,
        ) {
            result.totals@[count - 1].recursive_logical as nat
        } else {
            0
        }
    }
}

/// Every share of `parent`: its children in the order of their ids, then the gathered files.
pub open spec fn shares_of(result: ScanResult, parent: NodeId, files_only: bool) -> Seq<Share> {
    let count = result.arena.node_list().len();
    let single = single_shares(result, parent, files_only, count);
    let size = gathered_size(result, parent, files_only, count);
    if size > 0 {
        single.push(
            Share {
                id: parent,
                size: capped(size),
                logical: capped(gathered_logical(result, parent, files_only, count)),
            },
        )
    } else {
        single
    }
}

/// The sizes of `shares` together.
pub open spec fn sizes(shares: Seq<Share>) -> nat
    decreases shares.len(),
{
    if shares.len() == 0 {
        0
    } else {
        sizes(shares.drop_last()) + shares.last().size as nat
    }
}

/// The larger share comes first, of equal ones the one of larger logical size, then the one of
/// smaller id, then the one that is listed first.
pub open spec fn share_before(shares: Seq<Share>, a: int, b: int) -> bool {
    let left = shares[a];
    let right = shares[b];
    ||| left.size > right.size
    ||| left.size == right.size && left.logical > right.logical
    ||| left.size == right.size && left.logical == right.logical && left.id.0 < right.id.0
    ||| left.size == right.size && left.logical == right.logical && left.id.0 == right.id.0 && a < b
}

/// `places` lists all positions of `shares` from the first share to the last.
pub open spec fn ranks_shares(shares: Seq<Share>, places: Seq<usize>) -> bool {
    &&& order::lists_range(places, 0, shares.len() as int)
    &&& forall|a: int, b: int|
        0 <= a < b < places.len() ==> share_before(
            shares,
            #[trigger] places[a] as int,
            #[trigger] places[b] as int,
        )
}

/// `chosen` are the first `capacity` of the ranked shares, or all where there are no more.
pub open spec fn chooses_first(shares: Seq<Share>, capacity: nat, chosen: Seq<Share>) -> bool {
    &&& chosen.len() == if capacity < shares.len() {
        capacity
    } else {
        shares.len()
    }
    &&& exists|places: Seq<usize>| #[trigger]
        ranks_shares(shares, places) && forall|k: int|
            0 <= k < chosen.len() ==> #[trigger] chosen[k] == shares[places[k] as int]
}

/// How many tiles a directory may be divided into, one of them left for what remains. `visible`
/// is how many tiles its area can show.
pub open spec fn tile_capacity(visible: nat, allowance: nat) -> nat {
    let room: nat = if allowance > 0 {
        (allowance - 1) as nat
    } else {
        0
    };
    if visible == 0 || room == 0 {
        1
    } else if visible < room {
        visible
    } else {
        room
    }
}

struct BySize<'a> {
    shares: &'a Vec<Share>,
}

impl<'a> Precedence for BySize<'a> {
    closed spec fn comparable(&self) -> bool {
        true
    }

    closed spec fn size(&self) -> nat {
        self.shares@.len()
    }

    closed spec fn before(&self, a: int, b: int) -> bool {
        share_before(self.shares@, a, b)
    }

    proof fn before_is_total(&self, a: int, b: int) {
    }

    proof fn before_is_transitive(&self, a: int, b: int, c: int) {
    }

    fn is_before(&self, a: usize, b: usize) -> (first: bool) {
        let left = self.shares[a];
        let right = self.shares[b];
        if left.size != right.size {
            left.size > right.size
        } else if left.logical != right.logical {
            left.logical > right.logical
        } else if left.id.0 != right.id.0 {
            left.id.0 < right.id.0
        } else {
            a < b
        }
    }
}

/// The first `capacity` shares.
fn choose_first(shares: &Vec<Share>, capacity: usize) -> (chosen: Vec<Share>)
    ensures
        chooses_first(shares@, capacity as nat, chosen@),
{
    let by_size = BySize { shares };
    let places = order::sorted_positions(&by_size, shares.len());
    proof {
        assert forall|a: int, b: int| 0 <= a < b < places@.len() implies share_before(
            shares@,
            #[trigger] places@[a] as int,
            #[trigger] places@[b] as int,
        ) by {
            assert(by_size.before(places@[a] as int, places@[b] as int));
        }
        assert(ranks_shares(shares@, places@));
    }
    let mut chosen: Vec<Share> = Vec::new();
    let count: usize = if capacity < shares.len() {
        capacity
    } else {
        shares.len()
    };
    while chosen.len() < count
        invariant
            chosen@.len() <= count <= shares@.len(),
            order::lists_range(places@, 0, shares@.len() as int),
            forall|k: int|
                0 <= k < chosen@.len() ==> #[trigger] chosen@[k] == shares@[places@[k] as int],
        decreases count - chosen@.len(),
    {
        let place: usize = places[chosen.len()];
        chosen.push(shares[place]);
    }
    chosen
}

/// Nodes that are not children of `parent` change nothing.
proof fn lemma_strangers_skipped(
    result: ScanResult,
    parent: NodeId,
    files_only: bool,
    from: nat,
    to: nat,
)
    requires
        from <= to,
        forall|i: int|
            from <= i < to ==> !#[trigger] child_at(result.arena.node_list(), parent, i),
    ensures
        single_shares(result, parent, files_only, to) == single_shares(
            result,
            parent,
            files_only,
            from,
        ),
        gathered_size(result, parent, files_only, to) == gathered_size(
            result,
            parent,
            files_only,
            from,
        ),
        gathered_logical(result, parent, files_only, to) == gathered_logical(
            result,
            parent,
            files_only,
            from,
        ),
    decreases to,
{
    if from < to {
        lemma_strangers_skipped(result, parent, files_only, from, (to - 1) as nat);
        assert(!child_at(result.arena.node_list(), parent, to - 1));
    }
}

/// The children of `parent` have ids and totals.
pub open spec fn children_measured(result: ScanResult, parent: NodeId) -> bool {
    forall|i: int| #[trigger]
        child_at(result.arena.node_list(), parent, i) ==> i < result.totals@.len() && i <= u32::MAX
}

/// Divides a directory among its children, largest first and at most as many as fit; `visible` is
/// how many tiles its area can show. Where `files_only` holds, only its files take part. Nothing
/// is returned where nothing takes up space.
pub fn partition(
    scan: &FilesystemScan,
    parent: NodeId,
    visible: usize,
    allowance: usize,
    files_only: bool,
) -> (partition: Option<Partition>)
    requires
        arena::children_grouped(scan.result.arena.node_list()),
        children_measured(scan.result, parent),
    ensures
        match partition {
            None => shares_of(scan.result, parent, files_only).len() == 0,
            Some(partition) => {
                let shares = shares_of(scan.result, parent, files_only);
                &&& shares.len() > 0
                &&& partition.total == capped(sizes(shares))
                &&& chooses_first(
                    shares,
                    tile_capacity(visible as nat, allowance as nat),
                    partition.shares@,
                )
            },
        },
{
    let ghost result = scan.result;
    let ghost list = result.arena.node_list();
    let nodes = scan.result.arena.nodes();
    let range = scan.result.arena.child_range(parent);
    let start: usize = range.start;
    let end: usize = range.end;
    let mut grouped = false;
    let mut index: usize = start;
    while index < end && !grouped
        invariant
            1 <= start <= index <= end,
            end <= nodes@.len() || end == 1,
            nodes@ == list,
            result == scan.result,
            children_measured(result, parent),
            list == result.arena.node_list(),
            forall|i: int| start <= i < end ==> #[trigger] child_at(list, parent, i),
            grouped ==> gathers_files(result, parent, files_only),
            !grouped ==> forall|i: int|
                start <= i < index ==> files_only || !(#[trigger] takes_space(
                    result,
                    parent,
                    files_only,
                    i,
                )) || list[i].kind != NodeKind::Directory,
        decreases end - index, if grouped { 0int } else { 1int },
    {
        assert(child_at(list, parent, index as int));
        if !files_only && nodes[index].kind == NodeKind::Directory
            && scan.result.totals[index].recursive_allocated > 0 {
            assert(takes_space(result, parent, files_only, index as int));
            grouped = true;
        }
        index = index + 1;
    }
    proof {
        if !grouped && gathers_files(result, parent, files_only) {
            let i = choose|i: int| #[trigger]
                takes_space(result, parent, files_only, i) && !files_only && list[i].kind
                    == NodeKind::Directory;
            assert(start <= i < end);
        }
        assert forall|i: int| 0 <= i < start implies !#[trigger] child_at(list, parent, i) by {}
        lemma_strangers_skipped(result, parent, files_only, 0, start as nat);
    }
    let mut files_size: u64 = 0;
    let mut files_logical: u64 = 0;
    let mut shares: Vec<Share> = Vec::new();
    let mut total: u64 = 0;
    let mut index: usize = start;
    while index < end
        invariant
            1 <= start <= index <= end,
            end <= nodes@.len() || end == 1,
            nodes@ == list,
            result == scan.result,
            children_measured(result, parent),
            list == result.arena.node_list(),
            forall|i: int| start <= i < end ==> #[trigger] child_at(list, parent, i),
            grouped == gathers_files(result, parent, files_only),
            shares@ == single_shares(result, parent, files_only, index as nat),
            files_size == capped(gathered_size(result, parent, files_only, index as nat)),
            files_logical == capped(gathered_logical(result, parent, files_only, index as nat)),
            total == capped(sizes(shares@)),
        decreases end - index,
    {
        assert(child_at(list, parent, index as int));
        let size: u64 = scan.result.totals[index].recursive_allocated;
        let logical: u64 = scan.result.totals[index].recursive_logical;
        let directory = nodes[index].kind == NodeKind::Directory;
        if size == 0 || (files_only && directory) {
            assert(!takes_space(result, parent, files_only, index as int));
        } else if grouped && !directory {
            assert(is_gathered(result, parent, files_only, index as int));
            files_size = add_capped(files_size, size);
            files_logical = add_capped(files_logical, logical);
        } else {
            let ghost before = shares@;
            shares.push(Share { id: NodeId(index as u32), size, logical });
            total = add_capped(total, size);
            assert(shares@.drop_last() =~= before);
        }
        index = index + 1;
    }
    proof {
        if list.len() >= end {
            assert forall|i: int| end <= i < list.len() implies !#[trigger] child_at(
                list,
                parent,
                i,
            ) by {}
            lemma_strangers_skipped(result, parent, files_only, end as nat, list.len());
        }
    }
    if files_size > 0 {
        let ghost before = shares@;
        shares.push(Share { id: parent, size: files_size, logical: files_logical });
        total = add_capped(total, files_size);
        assert(shares@.drop_last() =~= before);
        assert(total == capped(sizes(shares@))) by {
            assert(sizes(shares@) == sizes(before) + files_size as nat);
        }
    }
    assert(shares@ == shares_of(result, parent, files_only));
    if shares.len() == 0 {
        return None;
    }
    let room: usize = if allowance > 0 {
        allowance - 1
    } else {
        0
    };
    let fitting: usize = if visible < room {
        visible
    } else {
        room
    };
    let capacity: usize = if fitting == 0 {
        1
    } else {
        fitting
    };
    Some(Partition { shares: choose_first(&shares, capacity), total })
}

/// The space of the children of `parent` among the first `count` nodes, leaving out directories
/// where only files take part.
pub open spec fn space_of_children(
    result: ScanResult,
    parent: NodeId,
    files_only: bool,
    count: nat,
) -> nat
    decreases count,
{
    if count == 0 {
        0
    } else {
        let i = count - 1;
        let nodes = result.arena.node_list();
        space_of_children(result, parent, files_only, (count - 1) as nat) + if child_at(
            nodes,
            parent,
            i,
        ) && !(files_only && nodes[i].kind == NodeKind::Directory) {
            result.totals@[i].recursive_allocated as nat
        } else {
            0
        }
    }
}

proof fn lemma_shares_hold_space(result: ScanResult, parent: NodeId, files_only: bool, count: nat)
    ensures
        sizes(single_shares(result, parent, files_only, count)) + gathered_size(
            result,
            parent,
            files_only,
            count,
        ) == space_of_children(result, parent, files_only, count),
    decreases count,
{
    if count > 0 {
        lemma_shares_hold_space(result, parent, files_only, (count - 1) as nat);
        let before = single_shares(result, parent, files_only, (count - 1) as nat);
        assert(before.push(share_of(result, count - 1)).drop_last() =~= before);
    }
}

/// No space is lost: the shares of a directory together come to the space of all children that
/// may take part, whether they get a tile of their own or not.
pub proof fn law_shares_hold_all_space(result: ScanResult, parent: NodeId, files_only: bool)
    requires
        space_of_children(result, parent, files_only, result.arena.node_list().len())
            <= u64::MAX,
    ensures
        sizes(shares_of(result, parent, files_only)) == space_of_children(
            result,
            parent,
            files_only,
            result.arena.node_list().len(),
        ),
{
    let count = result.arena.node_list().len();
    lemma_shares_hold_space(result, parent, files_only, count);
    let single = single_shares(result, parent, files_only, count);
    if gathered_size(result, parent, files_only, count) > 0 {
        assert(shares_of(result, parent, files_only).drop_last() =~= single);
    }
}

/// A node belongs to a directory: it is one of its children, or the directory itself, which stands
/// for its gathered files.
pub open spec fn belongs_to(nodes: Seq<Node>, parent: NodeId, id: NodeId) -> bool {
    id == parent || child_at(nodes, parent, id.0 as int)
}

proof fn lemma_single_shares_belong(
    result: ScanResult,
    parent: NodeId,
    files_only: bool,
    count: nat,
    k: int,
)
    requires
        children_measured(result, parent),
        0 <= k < single_shares(result, parent, files_only, count).len(),
    ensures
        child_at(
            result.arena.node_list(),
            parent,
            single_shares(result, parent, files_only, count)[k].id.0 as int,
        ),
    decreases count,
{
    if count > 0 {
        let before = single_shares(result, parent, files_only, (count - 1) as nat);
        if k < before.len() {
            lemma_single_shares_belong(result, parent, files_only, (count - 1) as nat, k);
        } else {
            assert(child_at(result.arena.node_list(), parent, count - 1));
        }
    }
}

/// Every chosen share is that of a child of the directory, or that of its gathered files.
pub proof fn law_shares_belong(
    result: ScanResult,
    parent: NodeId,
    files_only: bool,
    capacity: nat,
    chosen: Seq<Share>,
    k: int,
)
    requires
        children_measured(result, parent),
        chooses_first(shares_of(result, parent, files_only), capacity, chosen),
        0 <= k < chosen.len(),
    ensures
        belongs_to(result.arena.node_list(), parent, chosen[k].id),
{
    let shares = shares_of(result, parent, files_only);
    let count = result.arena.node_list().len();
    let places = choose|places: Seq<usize>| #[trigger]
        ranks_shares(shares, places) && forall|k: int|
            0 <= k < chosen.len() ==> #[trigger] chosen[k] == shares[places[k] as int];
    let at = places[k] as int;
    assert(chosen[k] == shares[at]);
    if at < single_shares(result, parent, files_only, count).len() {
        lemma_single_shares_belong(result, parent, files_only, count, at);
    }
}

/// The chosen shares depend on nothing but the shares: two choices of the same size agree.
pub proof fn law_choice_is_unique(shares: Seq<Share>, capacity: nat, one: Seq<Share>, other: Seq<Share>)
    requires
        chooses_first(shares, capacity, one),
        chooses_first(shares, capacity, other),
    ensures
        one == other,
{
    let a = choose|places: Seq<usize>| #[trigger]
        ranks_shares(shares, places) && forall|k: int|
            0 <= k < one.len() ==> #[trigger] one[k] == shares[places[k] as int];
    let b = choose|places: Seq<usize>| #[trigger]
        ranks_shares(shares, places) && forall|k: int|
            0 <= k < other.len() ==> #[trigger] other[k] == shares[places[k] as int];
    assert forall|k: int| 0 <= k < one.len() implies one[k] == other[k] by {
        lemma_ranking_is_unique(shares, a, b, k);
    }
    assert(one =~= other);
}

proof fn lemma_ranking_is_unique(shares: Seq<Share>, a: Seq<usize>, b: Seq<usize>, k: int)
    requires
        ranks_shares(shares, a),
        ranks_shares(shares, b),
        0 <= k < shares.len(),
    ensures
        a[k] == b[k],
    decreases k,
{
    assert forall|j: int| 0 <= j < k implies a[j] == b[j] by {
        lemma_ranking_is_unique(shares, a, b, j);
    }
    if a[k] != b[k] {
        assert(b.contains(a[k]));
        assert(a.contains(b[k]));
        let x = choose|x: int| 0 <= x < b.len() && b[x] == a[k];
        let y = choose|y: int| 0 <= y < a.len() && a[y] == b[k];
        if x < k {
            assert(a[x] == a[k]);
        } else if y < k {
            assert(b[y] == b[k]);
        } else {
            assert(share_before(shares, b[k] as int, b[x] as int));
            assert(share_before(shares, a[k] as int, a[y] as int));
        }
    }
}

/// The choice goes largest first: sizes never rise along it, logical sizes decide only between
/// shares of one size, and ids only between shares of one size and one logical size.
pub proof fn law_shares_stand_largest_first(
    shares: Seq<Share>,
    capacity: nat,
    chosen: Seq<Share>,
    a: int,
    b: int,
)
    requires
        chooses_first(shares, capacity, chosen),
        0 <= a < b < chosen.len(),
    ensures
        chosen[a].size >= chosen[b].size,
        chosen[a].size == chosen[b].size ==> chosen[a].logical >= chosen[b].logical,
        chosen[a].size == chosen[b].size && chosen[a].logical == chosen[b].logical
            ==> chosen[a].id.0 <= chosen[b].id.0,
{
    let places = lemma_choice(shares, capacity, chosen);
    assert(chosen[a] == shares[places[a] as int]);
    assert(chosen[b] == shares[places[b] as int]);
    assert(share_before(shares, places[a] as int, places[b] as int));
}

/// The largest shares are chosen: what is left out is no larger than anything that is chosen.
pub proof fn law_left_shares_are_no_larger(
    shares: Seq<Share>,
    capacity: nat,
    chosen: Seq<Share>,
    k: int,
    other: int,
)
    requires
        chooses_first(shares, capacity, chosen),
        0 <= k < chosen.len(),
        0 <= other < shares.len() <= usize::MAX,
        !chosen.contains(shares[other]),
    ensures
        chosen[k].size >= shares[other].size,
        chosen[k].size == shares[other].size ==> chosen[k].logical >= shares[other].logical,
{
    let places = lemma_choice(shares, capacity, chosen);
    assert(places.contains(other as usize));
    let m = choose|m: int| 0 <= m < places.len() && places[m] == other as usize;
    if m < chosen.len() {
        assert(chosen[m] == shares[other]);
    }
    assert(chosen[k] == shares[places[k] as int]);
    assert(share_before(shares, places[k] as int, places[m] as int));
}

/// Every chosen share is one of the shares, and as many are chosen as fit.
pub proof fn law_choice_is_full(shares: Seq<Share>, capacity: nat, chosen: Seq<Share>, k: int)
    requires
        chooses_first(shares, capacity, chosen),
        0 <= k < chosen.len(),
    ensures
        shares.contains(chosen[k]),
        chosen.len() == capacity || chosen.len() == shares.len(),
        chosen.len() <= capacity,
        chosen.len() <= shares.len(),
{
    let places = lemma_choice(shares, capacity, chosen);
    assert(chosen[k] == shares[places[k] as int]);
}

/// At least one tile is shown, and no more than the area can show or the budget leaves beside the
/// block of what remains.
pub proof fn law_capacity_keeps_the_budget(visible: nat, allowance: nat)
    ensures
        tile_capacity(visible, allowance) >= 1,
        tile_capacity(visible, allowance) > 1 ==> tile_capacity(visible, allowance) <= visible,
        tile_capacity(visible, allowance) > 1 ==> tile_capacity(visible, allowance) + 1 <= allowance,
        visible > 0 && allowance > 1 ==> tile_capacity(visible, allowance) == visible
            || tile_capacity(visible, allowance) + 1 == allowance,
{
}

proof fn lemma_choice(shares: Seq<Share>, capacity: nat, chosen: Seq<Share>) -> (places: Seq<usize>)
    requires
        chooses_first(shares, capacity, chosen),
    ensures
        ranks_shares(shares, places),
        chosen.len() <= shares.len(),
        forall|k: int| 0 <= k < chosen.len() ==> #[trigger] chosen[k] == shares[places[k] as int],
{
    choose|places: Seq<usize>| #[trigger]
        ranks_shares(shares, places) && forall|k: int|
            0 <= k < chosen.len() ==> #[trigger] chosen[k] == shares[places[k] as int]
}

proof fn lemma_single_share(
    result: ScanResult,
    parent: NodeId,
    files_only: bool,
    count: nat,
    k: int,
)
    requires
        children_measured(result, parent),
        0 <= k < single_shares(result, parent, files_only, count).len(),
    ensures
        ({
            let share = single_shares(result, parent, files_only, count)[k];
            let i = share.id.0 as int;
            &&& 1 <= i < result.arena.node_list().len()
            &&& result.arena.node_list()[i].parent == parent
            &&& share.size == result.totals@[i].recursive_allocated
            &&& share.logical == result.totals@[i].recursive_logical
            &&& share.size > 0
            &&& files_only ==> result.arena.node_list()[i].kind != NodeKind::Directory
        }),
    decreases count,
{
    if count > 0 {
        let before = single_shares(result, parent, files_only, (count - 1) as nat);
        if k < before.len() {
            lemma_single_share(result, parent, files_only, (count - 1) as nat, k);
        } else {
            assert(child_at(result.arena.node_list(), parent, count - 1));
        }
    }
}

/// A share that is not that of the directory itself is that of a child, with the allocated and the
/// logical size of the child's subtree, and not empty. Where only files take part, it is no
/// directory.
pub proof fn law_shares_measure_children(
    result: ScanResult,
    parent: NodeId,
    files_only: bool,
    k: int,
)
    requires
        children_measured(result, parent),
        0 <= k < shares_of(result, parent, files_only).len(),
        shares_of(result, parent, files_only)[k].id != parent,
    ensures
        ({
            let share = shares_of(result, parent, files_only)[k];
            let i = share.id.0 as int;
            &&& 1 <= i < result.arena.node_list().len()
            &&& result.arena.node_list()[i].parent == parent
            &&& share.size == result.totals@[i].recursive_allocated
            &&& share.logical == result.totals@[i].recursive_logical
            &&& share.size > 0
            &&& files_only ==> result.arena.node_list()[i].kind != NodeKind::Directory
        }),
{
    let count = result.arena.node_list().len();
    if k < single_shares(result, parent, files_only, count).len() {
        lemma_single_share(result, parent, files_only, count, k);
    }
}

proof fn lemma_child_is_shared(
    result: ScanResult,
    parent: NodeId,
    files_only: bool,
    count: nat,
    i: int,
)
    requires
        0 <= i < count <= result.arena.node_list().len(),
        takes_space(result, parent, files_only, i),
    ensures
        is_gathered(result, parent, files_only, i) ==> gathered_size(
            result,
            parent,
            files_only,
            count,
        ) > 0,
        !is_gathered(result, parent, files_only, i) ==> single_shares(
            result,
            parent,
            files_only,
            count,
        ).contains(share_of(result, i)),
    decreases count,
{
    let before = single_shares(result, parent, files_only, (count - 1) as nat);
    let now = single_shares(result, parent, files_only, count);
    if i < count - 1 {
        lemma_child_is_shared(result, parent, files_only, (count - 1) as nat, i);
        if !is_gathered(result, parent, files_only, i) {
            let k = choose|k: int| 0 <= k < before.len() && before[k] == share_of(result, i);
            assert(now[k] == before[k]);
        }
    } else if !is_gathered(result, parent, files_only, i) {
        assert(now[before.len() as int] == share_of(result, i));
    }
}

/// Every child that takes up space is in the map of its directory: a directory with a share of its
/// own, a file with one of its own or among the gathered files. Files are gathered only beside a
/// directory that takes up space.
pub proof fn law_every_child_is_shared(
    result: ScanResult,
    parent: NodeId,
    i: int,
)
    requires
        1 <= i < result.arena.node_list().len() <= u32::MAX + 1,
        result.arena.node_list()[i].parent == parent,
        result.totals@[i].recursive_allocated > 0,
    ensures
        ({
            let all = shares_of(result, parent, false);
            let own = Share {
                id: NodeId(i as u32),
                size: result.totals@[i].recursive_allocated,
                logical: result.totals@[i].recursive_logical,
            };
            &&& all.contains(own) || (all.len() > 0 && all.last().id == parent)
            &&& result.arena.node_list()[i].kind == NodeKind::Directory ==> all.contains(own)
            &&& (forall|d: int|
                1 <= d < result.arena.node_list().len() && (
                #[trigger] result.arena.node_list()[d]).parent == parent
                    && result.arena.node_list()[d].kind == NodeKind::Directory
                    ==> result.totals@[d].recursive_allocated == 0) ==> all.contains(own)
        }),
        result.arena.node_list()[i].kind != NodeKind::Directory ==> shares_of(
            result,
            parent,
            true,
        ).contains(
            Share {
                id: NodeId(i as u32),
                size: result.totals@[i].recursive_allocated,
                logical: result.totals@[i].recursive_logical,
            },
        ),
{
    let count = result.arena.node_list().len();
    assert(takes_space(result, parent, false, i));
    lemma_child_is_shared(result, parent, false, count, i);
    let single = single_shares(result, parent, false, count);
    let all = shares_of(result, parent, false);
    if single.contains(share_of(result, i)) {
        let k = choose|k: int| 0 <= k < single.len() && single[k] == share_of(result, i);
        assert(all[k] == single[k]);
    } else {
        let d = choose|d: int| #[trigger]
            takes_space(result, parent, false, d) && result.arena.node_list()[d].kind
                == NodeKind::Directory;
        assert(result.arena.node_list()[d].parent == parent);
    }
    if result.arena.node_list()[i].kind != NodeKind::Directory {
        assert(takes_space(result, parent, true, i));
        assert(!gathers_files(result, parent, true));
        lemma_child_is_shared(result, parent, true, count, i);
        let single = single_shares(result, parent, true, count);
        let all = shares_of(result, parent, true);
        let k = choose|k: int| 0 <= k < single.len() && single[k] == share_of(result, i);
        assert(all[k] == single[k]);
    }
}

/// The files of a directory that take up space.
pub open spec fn shown_files(result: ScanResult, parent: NodeId) -> Set<int> {
    Set::new(
        |i: int|
            {
                &&& 1 <= i < result.arena.node_list().len()
                &&& result.arena.node_list()[i].parent == parent
                &&& result.arena.node_list()[i].kind != NodeKind::Directory
                &&& result.totals@[i].recursive_allocated > 0
            },
    )
}

proof fn lemma_gathered_sums(result: ScanResult, parent: NodeId, count: nat)
    requires
        count <= result.arena.node_list().len(),
        gathers_files(result, parent, false),
    ensures
        gathered_size(result, parent, false, count) == aggregate::sum_over(
            shown_files(result, parent),
            aggregate::allocated_total_at(result.totals@),
            count,
        ),
        gathered_logical(result, parent, false, count) == aggregate::sum_over(
            shown_files(result, parent),
            aggregate::logical_total_at(result.totals@),
            count,
        ),
    decreases count,
{
    if count > 0 {
        lemma_gathered_sums(result, parent, (count - 1) as nat);
        assert(is_gathered(result, parent, false, count - 1) == shown_files(
            result,
            parent,
        ).contains(count - 1));
    }
}

/// The gathered files are shown with what all of them together take on disk and hold.
pub proof fn law_gathered_files_add_up(result: ScanResult, parent: NodeId, d: int, f: int)
    requires
        1 <= d < result.arena.node_list().len(),
        result.arena.node_list()[d].parent == parent,
        result.arena.node_list()[d].kind == NodeKind::Directory,
        result.totals@[d].recursive_allocated > 0,
        shown_files(result, parent).contains(f),
    ensures
        ({
            let count = result.arena.node_list().len();
            let gathered = shares_of(result, parent, false).last();
            &&& gathered.id == parent
            &&& gathered.size == aggregate::capped(
                aggregate::sum_over(
                    shown_files(result, parent),
                    aggregate::allocated_total_at(result.totals@),
                    count,
                ),
            )
            &&& gathered.logical == aggregate::capped(
                aggregate::sum_over(
                    shown_files(result, parent),
                    aggregate::logical_total_at(result.totals@),
                    count,
                ),
            )
        }),
{
    let count = result.arena.node_list().len();
    assert(takes_space(result, parent, false, d));
    assert(gathers_files(result, parent, false));
    lemma_gathered_sums(result, parent, count);
    aggregate::lemma_sum_remove(
        shown_files(result, parent),
        aggregate::allocated_total_at(result.totals@),
        count,
        f,
    );
}

/// The total of a directory's shares is exact up to the largest value.
pub proof fn law_shares_total_is_capped(sum: nat)
    ensures
        sum <= 0xffff_ffff_ffff_ffff ==> capped(sum) == sum,
        sum > 0xffff_ffff_ffff_ffff ==> capped(sum) == 0xffff_ffff_ffff_ffff,
{
}

} // verus!
