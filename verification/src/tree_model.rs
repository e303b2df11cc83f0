//! The rows of a directory tree of which parts are expanded.

use std::collections::{HashMap, HashSet};

use vstd::prelude::*;

use crate::aggregate;
use crate::arena;
use crate::node::{Node, NodeId, NodeKind};
use crate::order;
use crate::order::Precedence;
use crate::scan::{FilesystemScan, ScanResult};

verus! {

broadcast use vstd::std_specs::hash::group_hash_axioms;

/// No more rows than these are listed.
pub const MAX_VISIBLE_ROWS: usize = 50_000;

/// No more ancestors than these are followed.
pub const LONGEST_CHAIN: usize = 4096;

/// One row of the tree.
#[derive(Clone, Copy, Debug, Eq, PartialEq, Structural)]
pub struct TreeRow {
    pub id: NodeId,
    pub depth: usize,
    pub expanded: bool,
    pub expandable: bool,
}

/// `id` is a child of `parent`.
pub open spec fn is_child(nodes: Seq<Node>, parent: NodeId, id: NodeId) -> bool {
    1 <= id.0 < nodes.len() && nodes[id.0 as int].parent == parent
}

/// A directory with children can be expanded.
pub open spec fn can_expand(nodes: Seq<Node>, id: NodeId) -> bool {
    nodes[id.0 as int].kind == NodeKind::Directory && exists|child: NodeId| #[trigger]
        is_child(nodes, id, child)
}

/// Name of a node.
pub open spec fn name_of(result: ScanResult, id: NodeId) -> Seq<u8> {
    arena::name_at(result.arena.name_bytes(), result.arena.node_list()[id.0 as int].name)
}

/// Siblings stand by descending allocated size, equal ones by name, those of one name by id.
pub open spec fn child_before(result: ScanResult, a: NodeId, b: NodeId) -> bool {
    let left = result.totals@[a.0 as int].recursive_allocated;
    let right = result.totals@[b.0 as int].recursive_allocated;
    ||| left > right
    ||| left == right && order::bytes_before(name_of(result, a), name_of(result, b))
    ||| left == right && name_of(result, a) == name_of(result, b) && a.0 < b.0
}

/// `list` holds the children of `parent` in their order.
pub open spec fn lists_children(result: ScanResult, parent: NodeId, list: Seq<NodeId>) -> bool {
    &&& forall|k: int|
        0 <= k < list.len() ==> is_child(result.arena.node_list(), parent, #[trigger] list[k])
    &&& forall|id: NodeId|
        is_child(result.arena.node_list(), parent, id) ==> #[trigger] list.contains(id)
    &&& forall|a: int, b: int|
        0 <= a < b < list.len() ==> child_before(result, #[trigger] list[a], #[trigger] list[b])
}

/// The children of `parent` in their order.
pub open spec fn children_of(result: ScanResult, parent: NodeId) -> Seq<NodeId> {
    choose|list: Seq<NodeId>| lists_children(result, parent, list)
}

/// The row of a node.
pub open spec fn row_of(result: ScanResult, expanded: Set<u32>, id: NodeId, depth: nat) -> TreeRow {
    let expandable = can_expand(result.arena.node_list(), id);
    TreeRow {
        id,
        depth: depth as usize,
        expanded: expandable && expanded.contains(id.0),
        expandable,
    }
}

/// The first `budget` rows of the subtree of a node.
pub open spec fn rows_of(
    result: ScanResult,
    expanded: Set<u32>,
    id: NodeId,
    depth: nat,
    budget: nat,
) -> Seq<TreeRow>
    decreases budget, 0nat,
{
    if budget == 0 {
        Seq::empty()
    } else {
        let row = row_of(result, expanded, id, depth);
        seq![row] + if row.expanded {
            rows_of_all(
                result,
                expanded,
                children_of(result, id),
                depth + 1,
                (budget - 1) as nat,
            )
        } else {
            Seq::empty()
        }
    }
}

/// The first `budget` rows of the subtrees of several nodes, one after the other.
pub open spec fn rows_of_all(
    result: ScanResult,
    expanded: Set<u32>,
    list: Seq<NodeId>,
    depth: nat,
    budget: nat,
) -> Seq<TreeRow>
    decreases budget, list.len() + 1,
{
    if list.len() == 0 {
        Seq::empty()
    } else {
        let first = rows_of(result, expanded, list[0], depth, budget);
        if first.len() >= budget {
            first
        } else {
            first + rows_of_all(
                result,
                expanded,
                list.drop_first(),
                depth,
                (budget - first.len()) as nat,
            )
        }
    }
}

/// The rows of a tree of which `expanded` is expanded.
pub open spec fn tree_rows(result: ScanResult, expanded: Set<u32>) -> Seq<TreeRow> {
    rows_of(result, expanded, NodeId(0), 0, MAX_VISIBLE_ROWS as nat)
}

/// The order of siblings is strict and total.
proof fn lemma_child_order(result: ScanResult, a: NodeId, b: NodeId)
    requires
        a != b,
    ensures
        child_before(result, a, b) != child_before(result, b, a),
        !child_before(result, a, a),
{
    order::lemma_bytes_total(name_of(result, a), name_of(result, b));
    order::lemma_bytes_total(name_of(result, a), name_of(result, a));
}

/// The children of a node stand in one order only.
proof fn lemma_children_unique(
    result: ScanResult,
    parent: NodeId,
    one: Seq<NodeId>,
    other: Seq<NodeId>,
)
    requires
        lists_children(result, parent, one),
        lists_children(result, parent, other),
    ensures
        one == other,
{
    assert forall|k: int| 0 <= k < one.len() && k < other.len() implies one[k] == other[k] by {
        lemma_same_child(result, parent, one, other, k);
    }
    if one.len() <= other.len() {
        lemma_no_more_children(result, parent, one, other);
    } else {
        lemma_no_more_children(result, parent, other, one);
    }
    assert(one =~= other);
}

proof fn lemma_no_more_children(
    result: ScanResult,
    parent: NodeId,
    shorter: Seq<NodeId>,
    longer: Seq<NodeId>,
)
    requires
        lists_children(result, parent, shorter),
        lists_children(result, parent, longer),
        shorter.len() <= longer.len(),
        forall|k: int| 0 <= k < shorter.len() ==> #[trigger] shorter[k] == longer[k],
    ensures
        shorter.len() == longer.len(),
{
    if shorter.len() < longer.len() {
        let extra = longer[shorter.len() as int];
        assert(is_child(result.arena.node_list(), parent, extra));
        assert(shorter.contains(extra));
        let k = choose|k: int| 0 <= k < shorter.len() && shorter[k] == extra;
        assert(longer[k] == extra);
        assert(child_before(result, longer[k], longer[shorter.len() as int]));
        order::lemma_bytes_total(name_of(result, extra), name_of(result, extra));
    }
}

proof fn lemma_same_child(
    result: ScanResult,
    parent: NodeId,
    one: Seq<NodeId>,
    other: Seq<NodeId>,
    k: int,
)
    requires
        lists_children(result, parent, one),
        lists_children(result, parent, other),
        0 <= k < one.len(),
        k < other.len(),
    ensures
        one[k] == other[k],
    decreases k,
{
    assert forall|j: int| 0 <= j < k implies one[j] == other[j] by {
        lemma_same_child(result, parent, one, other, j);
    }
    if one[k] != other[k] {
        let nodes = result.arena.node_list();
        assert(is_child(nodes, parent, other[k]));
        assert(is_child(nodes, parent, one[k]));
        assert(one.contains(other[k]));
        assert(other.contains(one[k]));
        let a = choose|a: int| 0 <= a < one.len() && one[a] == other[k];
        let b = choose|b: int| 0 <= b < other.len() && other[b] == one[k];
        if a < k {
            assert(other[a] == other[k]);
            assert(child_before(result, other[a], other[k]));
            order::lemma_bytes_total(name_of(result, other[k]), name_of(result, other[k]));
        }
        if b < k {
            assert(one[b] == one[k]);
            assert(child_before(result, one[b], one[k]));
            order::lemma_bytes_total(name_of(result, one[k]), name_of(result, one[k]));
        }
        assert(child_before(result, one[k], one[a]));
        assert(child_before(result, other[k], other[b]));
        lemma_child_order(result, one[k], other[k]);
    }
}

/// Siblings `start..start + count` in the order in which they are listed.
struct Siblings<'a> {
    result: &'a ScanResult,
    start: usize,
    count: usize,
}

impl<'a> Siblings<'a> {
    spec fn at(&self, a: int) -> NodeId {
        NodeId((self.start + a) as u32)
    }
}

impl<'a> Precedence for Siblings<'a> {
    closed spec fn comparable(&self) -> bool {
        self.result.browsable() && self.start + self.count <= self.result.arena.node_list().len()
    }

    closed spec fn size(&self) -> nat {
        self.count as nat
    }

    closed spec fn before(&self, a: int, b: int) -> bool {
        child_before(*self.result, self.at(a), self.at(b))
    }

    proof fn before_is_total(&self, a: int, b: int) {
        lemma_child_order(*self.result, self.at(a), self.at(b));
    }

    proof fn before_is_transitive(&self, a: int, b: int, c: int) {
        let x = name_of(*self.result, self.at(a));
        let y = name_of(*self.result, self.at(b));
        let z = name_of(*self.result, self.at(c));
        if order::bytes_before(x, y) && order::bytes_before(y, z) {
            order::lemma_bytes_transitive(x, y, z);
        }
    }

    fn is_before(&self, a: usize, b: usize) -> (first: bool) {
        let left: usize = self.start + a;
        let right: usize = self.start + b;
        let left_size: u64 = self.result.totals[left].recursive_allocated;
        let right_size: u64 = self.result.totals[right].recursive_allocated;
        if left_size != right_size {
            return left_size > right_size;
        }
        proof {
            order::lemma_bytes_total(
                name_of(*self.result, self.at(a as int)),
                name_of(*self.result, self.at(b as int)),
            );
        }
        let left_name = self.result.arena.name(NodeId(left as u32));
        let right_name = self.result.arena.name(NodeId(right as u32));
        if order::is_bytes_before(left_name, right_name) {
            return true;
        }
        if order::is_bytes_before(right_name, left_name) {
            return false;
        }
        left < right
    }
}

/// The children of a node in their order.
fn sort_children(result: &ScanResult, parent: NodeId) -> (children: Vec<NodeId>)
    requires
        result.browsable(),
    ensures
        lists_children(*result, parent, children@),
        children@ == children_of(*result, parent),
{
    let range = result.arena.child_range(parent);
    let count: usize = range.end - range.start;
    let siblings = Siblings { result, start: range.start, count };
    let places = order::sorted_positions(&siblings, count);
    let mut children: Vec<NodeId> = Vec::with_capacity(count);
    let mut k: usize = 0;
    while k < places.len()
        invariant
            k <= places.len(),
            places.len() == count,
            count == range.end - range.start,
            range.end <= result.arena.node_list().len() || range.end == range.start,
            result.browsable(),
            order::lists_range(places@, 0, count as int),
            children.len() == k,
            forall|m: int|
                0 <= m < k ==> (#[trigger] children@[m]).0 == range.start + places@[m],
        decreases places.len() - k,
    {
        assert(0 <= places@[k as int] < count);
        let index: usize = range.start + places[k];
        children.push(NodeId(index as u32));
        k = k + 1;
    }
    proof {
        let nodes = result.arena.node_list();
        assert forall|m: int| 0 <= m < children.len() implies is_child(
            nodes,
            parent,
            #[trigger] children@[m],
        ) by {
            assert(0 <= places@[m] < count);
            assert(nodes[children@[m].0 as int].parent == parent);
        }
        assert forall|id: NodeId| is_child(nodes, parent, id) implies #[trigger]
            children@.contains(id) by {
            assert(nodes[id.0 as int].parent == parent);
            assert(range.start <= id.0 < range.end);
            let offset = (id.0 - range.start) as usize;
            assert(places@.contains(offset));
            let m = choose|m: int| 0 <= m < places.len() && places@[m] == offset;
            assert(children@[m] == id);
        }
        assert forall|a: int, b: int| 0 <= a < b < children.len() implies child_before(
            *result,
            #[trigger] children@[a],
            #[trigger] children@[b],
        ) by {
            assert(siblings.before(places@[a] as int, places@[b] as int));
            assert(siblings.at(places@[a] as int) == children@[a]);
            assert(siblings.at(places@[b] as int) == children@[b]);
        }
        assert(lists_children(*result, parent, children@));
        lemma_children_unique(*result, parent, children@, children_of(*result, parent));
    }
    children
}

/// The cached lists are the children in their order.
spec fn cache_sound(result: ScanResult, cache: Map<u32, Vec<NodeId>>) -> bool {
    forall|parent: u32| #[trigger]
        cache.contains_key(parent) ==> cache[parent]@ == children_of(result, NodeId(parent))
            && lists_children(result, NodeId(parent), cache[parent]@)
}

/// Sees to it that the children of `parent` are cached.
fn cache_children(result: &ScanResult, cache: &mut HashMap<u32, Vec<NodeId>>, parent: NodeId)
    requires
        result.browsable(),
        cache_sound(*result, old(cache)@),
    ensures
        cache_sound(*result, final(cache)@),
        final(cache)@.contains_key(parent.0),
        old(cache)@.dom().subset_of(final(cache)@.dom()),
{
    if !cache.contains_key(&parent.0) {
        let children = sort_children(result, parent);
        cache.insert(parent.0, children);
    }
}

/// Lists at most `budget` rows.
proof fn lemma_rows_fit(
    result: ScanResult,
    expanded: Set<u32>,
    id: NodeId,
    depth: nat,
    budget: nat,
)
    ensures
        rows_of(result, expanded, id, depth, budget).len() <= budget,
    decreases budget, 0nat,
{
    if budget > 0 {
        lemma_all_rows_fit(
            result,
            expanded,
            children_of(result, id),
            depth + 1,
            (budget - 1) as nat,
        );
    }
}

proof fn lemma_all_rows_fit(
    result: ScanResult,
    expanded: Set<u32>,
    list: Seq<NodeId>,
    depth: nat,
    budget: nat,
)
    ensures
        rows_of_all(result, expanded, list, depth, budget).len() <= budget,
    decreases budget, list.len() + 1,
{
    if list.len() > 0 {
        let first = rows_of(result, expanded, list[0], depth, budget);
        lemma_rows_fit(result, expanded, list[0], depth, budget);
        if first.len() < budget {
            lemma_all_rows_fit(
                result,
                expanded,
                list.drop_first(),
                depth,
                (budget - first.len()) as nat,
            );
        }
    }
}

/// Once the budget is spent nothing is listed.
proof fn lemma_nothing_left(
    result: ScanResult,
    expanded: Set<u32>,
    list: Seq<NodeId>,
    depth: nat,
)
    ensures
        rows_of_all(result, expanded, list, depth, 0) == Seq::<TreeRow>::empty(),
{
    lemma_all_rows_fit(result, expanded, list, depth, 0);
}

/// Whether a directory has children.
fn is_expandable(result: &ScanResult, id: NodeId) -> (expandable: bool)
    requires
        result.browsable(),
        id.0 < result.arena.node_list().len(),
    ensures
        expandable == can_expand(result.arena.node_list(), id),
{
    let ghost nodes = result.arena.node_list();
    let kind = result.arena.nodes()[id.index()].kind;
    let range = result.arena.child_range(id);
    proof {
        if range.start < range.end {
            assert(nodes[range.start as int].parent == id);
            assert(is_child(nodes, id, NodeId(range.start as u32)));
        } else {
            assert forall|child: NodeId| !is_child(nodes, id, child) by {
                if is_child(nodes, id, child) {
                    assert(nodes[child.0 as int].parent == id);
                }
            }
        }
    }
    kind == NodeKind::Directory && range.start < range.end
}

/// Lists the rows of the subtree of a node behind those in `rows`.
fn push_node(
    result: &ScanResult,
    expanded: &HashSet<u32>,
    cache: &mut HashMap<u32, Vec<NodeId>>,
    id: NodeId,
    depth: usize,
    rows: &mut Vec<TreeRow>,
)
    requires
        result.browsable(),
        id.0 < result.arena.node_list().len(),
        cache_sound(*result, old(cache)@),
        depth <= old(rows).len() <= MAX_VISIBLE_ROWS,
    ensures
        cache_sound(*result, final(cache)@),
        old(cache)@.dom().subset_of(final(cache)@.dom()),
        final(rows)@ == old(rows)@ + rows_of(
            *result,
            expanded@,
            id,
            depth as nat,
            (MAX_VISIBLE_ROWS - old(rows).len()) as nat,
        ),
        final(rows).len() <= MAX_VISIBLE_ROWS,
    decreases MAX_VISIBLE_ROWS - old(rows).len(),
{
    let ghost before = rows@;
    let ghost budget = (MAX_VISIBLE_ROWS - rows.len()) as nat;
    if rows.len() >= MAX_VISIBLE_ROWS {
        assert(rows@ =~= before + Seq::<TreeRow>::empty());
        return;
    }
    let expandable: bool = is_expandable(result, id);
    let is_expanded: bool = expandable && expanded.contains(&id.0);
    rows.push(TreeRow { id, depth, expanded: is_expanded, expandable });
    if is_expanded {
        cache_children(result, cache, id);
        let ghost children = children_of(*result, id);
        let ghost row = row_of(*result, expanded@, id, depth as nat);
        let count: usize = match cache.get(&id.0) {
            Some(list) => list.len(),
            None => 0,
        };
        let mut k: usize = 0;
        proof {
            assert(children.skip(0) =~= children);
            let rest = rows_of_all(
                *result,
                expanded@,
                children,
                depth as nat + 1,
                (budget - 1) as nat,
            );
            assert(before + (seq![row] + rest) =~= rows@ + rest);
        }
        while k < count
            invariant
                k <= count,
                count == children.len(),
                result.browsable(),
                children == children_of(*result, id),
                lists_children(*result, id, children),
                cache_sound(*result, cache@),
                cache@.contains_key(id.0),
                old(cache)@.dom().subset_of(cache@.dom()),
                depth < rows.len() <= MAX_VISIBLE_ROWS,
                old(rows).len() < rows.len(),
                before + rows_of(*result, expanded@, id, depth as nat, budget) == rows@
                    + rows_of_all(
                    *result,
                    expanded@,
                    children.skip(k as int),
                    depth as nat + 1,
                    (MAX_VISIBLE_ROWS - rows.len()) as nat,
                ),
            decreases count - k,
        {
            let child: NodeId = match cache.get(&id.0) {
                Some(list) => list[k],
                None => id,
            };
            let ghost earlier = rows@;
            let ghost left = (MAX_VISIBLE_ROWS - rows.len()) as nat;
            let ghost rest = children.skip(k as int);
            proof {
                assert(child == children[k as int]);
                assert(is_child(result.arena.node_list(), id, children[k as int]));
                assert(rest[0] == child);
                assert(rest.drop_first() =~= children.skip(k + 1));
                lemma_rows_fit(*result, expanded@, child, depth as nat + 1, left);
            }
            push_node(result, expanded, cache, child, depth + 1, rows);
            proof {
                let first = rows_of(*result, expanded@, child, depth as nat + 1, left);
                if first.len() >= left {
                    lemma_nothing_left(
                        *result,
                        expanded@,
                        children.skip(k + 1),
                        depth as nat + 1,
                    );
                    assert(rows@ + Seq::<TreeRow>::empty() =~= earlier + first);
                } else {
                    let tail = rows_of_all(
                        *result,
                        expanded@,
                        children.skip(k + 1),
                        depth as nat + 1,
                        (left - first.len()) as nat,
                    );
                    assert(earlier + (first + tail) =~= rows@ + tail);
                }
            }
            k = k + 1;
        }
        proof {
            assert(children.skip(k as int) =~= Seq::empty());
            assert(rows@ + Seq::<TreeRow>::empty() =~= rows@);
        }
    } else {
        assert(rows@ =~= before + (seq![row_of(*result, expanded@, id, depth as nat)]
            + Seq::<TreeRow>::empty()));
    }
}

/// `id` is shown in row `position` and in none behind it.
pub open spec fn last_row_of(rows: Seq<TreeRow>, id: NodeId, position: int) -> bool {
    &&& 0 <= position < rows.len()
    &&& rows[position].id == id
    &&& forall|later: int| position < later < rows.len() ==> (#[trigger] rows[later]).id != id
}

/// `id` is shown in some row.
pub open spec fn is_listed(rows: Seq<TreeRow>, id: NodeId) -> bool {
    exists|position: int| 0 <= position < rows.len() && (#[trigger] rows[position]).id == id
}

/// `index` finds the rows of the nodes.
spec fn indexes(index: Map<u32, usize>, rows: Seq<TreeRow>) -> bool {
    forall|id: u32| #[trigger]
        index.contains_key(id) == is_listed(rows, NodeId(id)) && (index.contains_key(id)
            ==> last_row_of(rows, NodeId(id), index[id] as int))
}

/// The nodes above `id`, the nearest first, `length` nodes having been listed before. The walk ends
/// at the root, at a node that is its own parent, after `steps` nodes or when the list is too long.
pub open spec fn climb(nodes: Seq<Node>, id: NodeId, steps: nat, length: nat) -> Seq<NodeId>
    decreases steps,
{
    let parent = if id.0 < nodes.len() {
        nodes[id.0 as int].parent
    } else {
        NodeId(0)
    };
    if steps == 0 || id.0 == 0 || parent == id {
        Seq::empty()
    } else if length + 1 > LONGEST_CHAIN {
        seq![parent]
    } else {
        seq![parent] + climb(nodes, parent, (steps - 1) as nat, length + 1)
    }
}

/// The way from the root to a node.
pub open spec fn chain_of(nodes: Seq<Node>, id: NodeId) -> Seq<NodeId> {
    let way = (seq![id] + climb(nodes, id, nodes.len() + 1, 1)).reverse();
    if way[0] == NodeId(0) {
        way
    } else {
        seq![NodeId(0)] + way
    }
}

/// The way from the root to a node. It is bounded, so that damaged parents cannot hang the caller.
pub fn ancestor_chain(scan: &FilesystemScan, id: NodeId) -> (chain: Vec<NodeId>)
    requires
        scan.result.arena.node_list().len() <= u32::MAX + 1,
    ensures
        chain@ == chain_of(scan.result.arena.node_list(), id),
{
    let nodes = scan.result.arena.nodes();
    let mut up: Vec<NodeId> = Vec::new();
    up.push(id);
    let mut current: NodeId = id;
    let count: u64 = nodes.len() as u64 + 1;
    let mut step: u64 = 0;
    let mut stopped: bool = false;
    let ghost whole = seq![id] + climb(nodes@, id, nodes@.len() + 1, 1);
    proof {
        assert(up@ =~= seq![id]);
    }
    while step < count && !stopped
        invariant
            nodes@.len() <= u32::MAX + 1,
            count == nodes@.len() + 1,
            step <= count,
            1 <= up.len() <= LONGEST_CHAIN + 1,
            !stopped ==> up.len() <= LONGEST_CHAIN,
            whole == if stopped {
                up@
            } else {
                up@ + climb(nodes@, current, (count - step) as nat, up@.len())
            },
        decreases
                count - step + if stopped {
                    0int
                } else {
                    1int
                },
    {
        let parent: NodeId = if current.index() < nodes.len() {
            nodes[current.index()].parent
        } else {
            NodeId::root()
        };
        if current == NodeId::root() || parent == current {
            assert(up@ + Seq::<NodeId>::empty() =~= up@);
            stopped = true;
        } else {
            let ghost before = up@;
            let ghost rest = climb(nodes@, parent, (count - step - 1) as nat, up@.len() + 1);
            up.push(parent);
            current = parent;
            if up.len() > LONGEST_CHAIN {
                assert(before + seq![parent] =~= up@);
                stopped = true;
            } else {
                assert(before + (seq![parent] + rest) =~= up@ + rest);
            }
            step = step + 1;
        }
    }
    assert(up@ + Seq::<NodeId>::empty() =~= up@);
    let mut chain: Vec<NodeId> = Vec::new();
    let last: NodeId = up[up.len() - 1];
    if last != NodeId::root() {
        chain.push(NodeId::root());
    }
    let ghost front = chain@;
    let mut left: usize = up.len();
    assert(chain@ =~= front + Seq::new(0, |k: int| up@[up.len() - 1 - k]));
    while left > 0
        invariant
            left <= up.len(),
            whole == up@,
            chain@ == front + Seq::new(
                (up.len() - left) as nat,
                |k: int| up@[up.len() - 1 - k],
            ),
        decreases left,
    {
        left = left - 1;
        chain.push(up[left]);
        assert(chain@ =~= front + Seq::new(
            (up.len() - left) as nat,
            |k: int| up@[up.len() - 1 - k],
        ));
    }
    assert(chain@ =~= chain_of(nodes@, id));
    chain
}

/// The expanded directories of a scan and the rows that they give.
#[derive(Debug)]
pub struct TreeModel {
    expanded: HashSet<u32>,
    rows: Vec<TreeRow>,
    row_index: HashMap<u32, usize>,
    sorted_children: HashMap<u32, Vec<NodeId>>,
}

impl TreeModel {
    /// Ids of the expanded directories.
    pub closed spec fn expanded_ids(self) -> Set<u32> {
        self.expanded@
    }

    /// The rows.
    pub closed spec fn row_list(self) -> Seq<TreeRow> {
        self.rows@
    }

    /// The model shows this scan: its rows are those of its expanded directories.
    pub closed spec fn shows(self, result: ScanResult) -> bool {
        &&& cache_sound(result, self.sorted_children@)
        &&& self.rows@ == tree_rows(result, self.expanded@)
        &&& indexes(self.row_index@, self.rows@)
    }

    /// The rows of a model that shows a scan are those of its expanded directories.
    pub proof fn law_rows_follow_the_expanded(self, result: ScanResult)
        requires
            self.shows(result),
        ensures
            self.row_list() == tree_rows(result, self.expanded_ids()),
    {
    }

    /// The tree of a scan with its root expanded.
    pub fn new(scan: &FilesystemScan) -> (model: TreeModel)
        requires
            scan.result.browsable(),
        ensures
            model.shows(scan.result),
            model.expanded_ids() == Set::<u32>::empty().insert(0),
            model.row_list() == tree_rows(scan.result, model.expanded_ids()),
    {
        let mut expanded: HashSet<u32> = HashSet::new();
        expanded.insert(NodeId::root().0);
        let mut model = TreeModel {
            expanded,
            rows: Vec::new(),
            row_index: HashMap::new(),
            sorted_children: HashMap::new(),
        };
        model.rebuild(scan);
        model
    }

    /// The rows, top to bottom.
    pub fn rows(&self) -> (rows: &[TreeRow])
        ensures
            rows@ == self.row_list(),
    {
        self.rows.as_slice()
    }

    /// Whether a directory is expanded.
    pub fn is_expanded(&self, id: NodeId) -> (expanded: bool)
        ensures
            expanded == self.expanded_ids().contains(id.0),
    {
        self.expanded.contains(&id.0)
    }

    /// Expands or collapses a directory. Returns whether there was anything to do, which is not the
    /// case for a node without children.
    pub fn toggle(&mut self, scan: &FilesystemScan, id: NodeId) -> (toggled: bool)
        requires
            scan.result.browsable(),
            old(self).shows(scan.result),
            id.0 < scan.result.arena.node_list().len(),
        ensures
            final(self).shows(scan.result),
            toggled == can_expand(scan.result.arena.node_list(), id),
            final(self).expanded_ids() == if !toggled {
                old(self).expanded_ids()
            } else if old(self).expanded_ids().contains(id.0) {
                old(self).expanded_ids().remove(id.0)
            } else {
                old(self).expanded_ids().insert(id.0)
            },
            final(self).row_list() == tree_rows(scan.result, final(self).expanded_ids()),
    {
        if !is_expandable(&scan.result, id) {
            return false;
        }
        if !self.expanded.remove(&id.0) {
            self.expanded.insert(id.0);
        }
        self.rebuild(scan);
        true
    }

    /// Expands everything above a node, and returns the node's row if it is among those listed.
    pub fn reveal_node(&mut self, scan: &FilesystemScan, id: NodeId) -> (position: Option<usize>)
        requires
            scan.result.browsable(),
            old(self).shows(scan.result),
        ensures
            final(self).shows(scan.result),
            forall|other: u32|
                final(self).expanded_ids().contains(other) <==> old(self).expanded_ids().contains(
                    other,
                ) || (other != id.0 && chain_of(
                    scan.result.arena.node_list(),
                    id,
                ).contains(NodeId(other))),
            final(self).row_list() == tree_rows(scan.result, final(self).expanded_ids()),
            match position {
                Some(position) => last_row_of(final(self).row_list(), id, position as int),
                None => !is_listed(final(self).row_list(), id),
            },
    {
        let chain = ancestor_chain(scan, id);
        let mut changed: bool = false;
        let mut k: usize = 0;
        while k < chain.len()
            invariant
                k <= chain.len(),
                chain@ == chain_of(scan.result.arena.node_list(), id),
                self.rows@ == old(self).rows@,
                self.row_index@ == old(self).row_index@,
                self.sorted_children@ == old(self).sorted_children@,
                forall|other: u32|
                    self.expanded@.contains(other) <==> old(self).expanded@.contains(other) || (
                    other != id.0 && chain@.take(k as int).contains(NodeId(other))),
                !changed ==> self.expanded@ == old(self).expanded@,
            decreases chain.len() - k,
        {
            let ghost before = self.expanded@;
            let ancestor: NodeId = chain[k];
            if ancestor != id {
                let added: bool = self.expanded.insert(ancestor.0);
                if added {
                    changed = true;
                } else {
                    assert(self.expanded@ =~= before);
                }
            }
            proof {
                let shorter = chain@.take(k as int);
                let longer = chain@.take(k + 1);
                assert(longer =~= shorter.push(ancestor));
                assert forall|other: NodeId| longer.contains(other) <==> shorter.contains(other)
                    || other == ancestor by {
                    if shorter.contains(other) {
                        let m = choose|m: int| 0 <= m < shorter.len() && shorter[m] == other;
                        assert(longer[m] == other);
                    }
                    if other == ancestor {
                        assert(longer[k as int] == other);
                    }
                }
            }
            k = k + 1;
        }
        assert(chain@.take(k as int) =~= chain@);
        if changed {
            self.rebuild(scan);
        }
        match self.row_index.get(&id.0) {
            Some(position) => Some(*position),
            None => None,
        }
    }

    /// Collapses everything but the root.
    pub fn collapse_all(&mut self, scan: &FilesystemScan)
        requires
            scan.result.browsable(),
            old(self).shows(scan.result),
        ensures
            final(self).shows(scan.result),
            final(self).expanded_ids() == Set::<u32>::empty().insert(0),
            final(self).row_list() == tree_rows(scan.result, final(self).expanded_ids()),
    {
        self.expanded.clear();
        self.expanded.insert(NodeId::root().0);
        self.rebuild(scan);
    }

    /// Lists the rows anew.
    fn rebuild(&mut self, scan: &FilesystemScan)
        requires
            scan.result.browsable(),
            cache_sound(scan.result, old(self).sorted_children@),
        ensures
            final(self).shows(scan.result),
            final(self).expanded@ == old(self).expanded@,
    {
        let mut rows: Vec<TreeRow> = Vec::new();
        push_node(
            &scan.result,
            &self.expanded,
            &mut self.sorted_children,
            NodeId::root(),
            0,
            &mut rows,
        );
        proof {
            assert(rows@ =~= tree_rows(scan.result, self.expanded@));
        }
        self.row_index.clear();
        let mut position: usize = 0;
        while position < rows.len()
            invariant
                position <= rows.len(),
                self.expanded@ == old(self).expanded@,
                cache_sound(scan.result, self.sorted_children@),
                indexes(self.row_index@, rows@.take(position as int)),
            decreases rows.len() - position,
        {
            let ghost before = self.row_index@;
            let ghost shorter = rows@.take(position as int);
            let ghost longer = rows@.take(position + 1);
            let row = rows[position];
            self.row_index.insert(row.id.0, position);
            proof {
                assert(longer =~= shorter.push(row));
                assert forall|id: u32| #[trigger]
                    self.row_index@.contains_key(id) == is_listed(longer, NodeId(id)) && (
                    self.row_index@.contains_key(id) ==> last_row_of(
                        longer,
                        NodeId(id),
                        self.row_index@[id] as int,
                    )) by {
                    if id == row.id.0 {
                        assert(longer[position as int].id == NodeId(id));
                    } else {
                        if is_listed(shorter, NodeId(id)) {
                            let p = choose|p: int|
                                0 <= p < shorter.len() && (#[trigger] shorter[p]).id == NodeId(id);
                            assert(longer[p].id == NodeId(id));
                        }
                        if is_listed(longer, NodeId(id)) {
                            let p = choose|p: int|
                                0 <= p < longer.len() && (#[trigger] longer[p]).id == NodeId(id);
                            assert(shorter[p].id == NodeId(id));
                        }
                        if before.contains_key(id) {
                            assert(last_row_of(shorter, NodeId(id), before[id] as int));
                        }
                    }
                }
            }
            position = position + 1;
        }
        assert(rows@.take(position as int) =~= rows@);
        self.rows = rows;
    }
}

/// Toggling a directory twice gives the first rows back.
pub proof fn law_toggling_twice_changes_nothing(expanded: Set<u32>, id: u32, once: Set<u32>, twice: Set<u32>)
    requires
        once == if expanded.contains(id) {
            expanded.remove(id)
        } else {
            expanded.insert(id)
        },
        twice == if once.contains(id) {
            once.remove(id)
        } else {
            once.insert(id)
        },
    ensures
        twice == expanded,
        forall|result: ScanResult| #[trigger]
            tree_rows(result, twice) == tree_rows(result, expanded),
{
    assert(twice =~= expanded);
}

/// The rows begin with the root, unindented, and there are never more than the limit.
pub proof fn law_rows_start_at_the_root(result: ScanResult, expanded: Set<u32>)
    ensures
        1 <= tree_rows(result, expanded).len() <= 50_000,
        tree_rows(result, expanded)[0] == row_of(result, expanded, NodeId(0), 0),
{
    lemma_rows_fit(result, expanded, NodeId(0), 0, MAX_VISIBLE_ROWS as nat);
}

/// Two nodes stand in their order, or are the same.
spec fn child_order(result: ScanResult) -> spec_fn(NodeId, NodeId) -> bool {
    |a: NodeId, b: NodeId| a == b || child_before(result, a, b)
}

/// The tree is sorted by size: every child of a directory is listed once, and none stands behind a
/// smaller one.
pub proof fn law_children_stand_by_size(result: ScanResult, parent: NodeId)
    requires
        result.browsable(),
    ensures
        lists_children(result, parent, children_of(result, parent)),
        forall|a: int, b: int|
            0 <= a < b < children_of(result, parent).len() ==> result.totals@[(
            #[trigger] children_of(result, parent)[a]).0 as int].recursive_allocated
                >= result.totals@[(
            #[trigger] children_of(result, parent)[b]).0 as int].recursive_allocated,
{
    lemma_children_exist(result, parent);
    let list = children_of(result, parent);
    assert forall|a: int, b: int| 0 <= a < b < list.len() implies result.totals@[(
    #[trigger] list[a]).0 as int].recursive_allocated >= result.totals@[(
    #[trigger] list[b]).0 as int].recursive_allocated by {
        assert(child_before(result, list[a], list[b]));
    }
}

/// The children of a node can be put into their order.
proof fn lemma_children_exist(result: ScanResult, parent: NodeId)
    requires
        result.arena.node_list().len() <= u32::MAX + 1,
    ensures
        lists_children(result, parent, children_of(result, parent)),
{
    let nodes = result.arena.node_list();
    let all = Seq::new(nodes.len(), |i: int| NodeId(i as u32));
    let keep = |id: NodeId| is_child(nodes, parent, id);
    let unsorted = all.filter(keep);
    let leq = child_order(result);
    assert forall|a: NodeId, b: NodeId| a != b implies #[trigger] leq(a, b) != #[trigger] leq(
        b,
        a,
    ) by {
        lemma_child_order(result, a, b);
    }
    assert forall|a: NodeId, b: NodeId, c: NodeId| #[trigger] leq(a, b) && #[trigger] leq(
        b,
        c,
    ) implies leq(a, c) by {
        if a != b && b != c {
            if order::bytes_before(name_of(result, a), name_of(result, b)) && order::bytes_before(
                name_of(result, b),
                name_of(result, c),
            ) {
                order::lemma_bytes_transitive(
                    name_of(result, a),
                    name_of(result, b),
                    name_of(result, c),
                );
            }
        }
    }
    unsorted.lemma_sort_by_ensures(leq);
    let sorted = unsorted.sort_by(leq);
    assert forall|a: int, b: int| 0 <= a < b < all.len() implies all[a] != all[b] by {
        assert(all[a].0 == a);
    }
    assert(all.no_duplicates());
    lemma_filter_keeps_distinct(all, keep);
    unsorted.lemma_multiset_has_no_duplicates();
    sorted.lemma_multiset_has_no_duplicates_conv();
    unsorted.to_multiset_ensures();
    sorted.to_multiset_ensures();
    assert forall|k: int| 0 <= k < sorted.len() implies is_child(
        nodes,
        parent,
        #[trigger] sorted[k],
    ) by {
        assert(sorted.contains(sorted[k]));
        assert(unsorted.contains(sorted[k]));
        let m = choose|m: int| 0 <= m < unsorted.len() && unsorted[m] == sorted[k];
        all.lemma_filter_pred(keep, m);
    }
    assert forall|id: NodeId| is_child(nodes, parent, id) implies #[trigger]
        sorted.contains(id) by {
        assert(all[id.0 as int] == id);
        all.lemma_filter_contains(keep, id.0 as int);
        assert(unsorted.to_multiset().count(id) > 0);
    }
    assert forall|a: int, b: int| 0 <= a < b < sorted.len() implies child_before(
        result,
        #[trigger] sorted[a],
        #[trigger] sorted[b],
    ) by {
        assert(leq(sorted[a], sorted[b]));
        assert(sorted[a] != sorted[b]);
    }
    assert(lists_children(result, parent, sorted));
}

proof fn lemma_filter_keeps_distinct<T>(list: Seq<T>, keep: spec_fn(T) -> bool)
    requires
        list.no_duplicates(),
    ensures
        list.filter(keep).no_duplicates(),
    decreases list.len(),
{
    reveal(Seq::filter);
    if list.len() > 0 {
        let shorter = list.drop_last();
        lemma_filter_keeps_distinct(shorter, keep);
        if keep(list.last()) && shorter.filter(keep).contains(list.last()) {
            shorter.lemma_filter_contains_rev(keep, list.last());
            let k = choose|k: int| 0 <= k < shorter.len() && shorter[k] == list.last();
            assert(list[k] == list[list.len() - 1]);
        }
    }
}

/// With every expanded row come the rows of all its children.
pub open spec fn rows_closed(nodes: Seq<Node>, rows: Seq<TreeRow>) -> bool {
    forall|position: int, child: NodeId|
        0 <= position < rows.len() && (#[trigger] rows[position]).expanded && #[trigger] is_child(
            nodes,
            rows[position].id,
            child,
        ) ==> is_listed(rows, child)
}

proof fn lemma_listed_in_sum(front: Seq<TreeRow>, back: Seq<TreeRow>, id: NodeId)
    ensures
        is_listed(front + back, id) == (is_listed(front, id) || is_listed(back, id)),
{
    let all = front + back;
    if is_listed(front, id) {
        let p = choose|p: int| 0 <= p < front.len() && (#[trigger] front[p]).id == id;
        assert(all[p].id == id);
    }
    if is_listed(back, id) {
        let p = choose|p: int| 0 <= p < back.len() && (#[trigger] back[p]).id == id;
        assert(all[front.len() + p].id == id);
    }
    if is_listed(all, id) {
        let p = choose|p: int| 0 <= p < all.len() && (#[trigger] all[p]).id == id;
        if p < front.len() {
            assert(front[p].id == id);
        } else {
            assert(back[p - front.len()].id == id);
        }
    }
}

proof fn lemma_closed_sum(nodes: Seq<Node>, front: Seq<TreeRow>, back: Seq<TreeRow>)
    requires
        rows_closed(nodes, front),
        rows_closed(nodes, back),
    ensures
        rows_closed(nodes, front + back),
{
    let all = front + back;
    assert forall|position: int, child: NodeId|
        0 <= position < all.len() && (#[trigger] all[position]).expanded && #[trigger] is_child(
            nodes,
            all[position].id,
            child,
        ) implies is_listed(all, child) by {
        lemma_listed_in_sum(front, back, child);
        if position < front.len() {
            assert(front[position] == all[position]);
        } else {
            assert(back[position - front.len()] == all[position]);
        }
    }
}

proof fn lemma_rows_closed(
    result: ScanResult,
    expanded: Set<u32>,
    id: NodeId,
    depth: nat,
    budget: nat,
)
    requires
        result.arena.node_list().len() <= u32::MAX + 1,
        rows_of(result, expanded, id, depth, budget).len() < budget,
    ensures
        rows_closed(result.arena.node_list(), rows_of(result, expanded, id, depth, budget)),
    decreases budget, 0nat,
{
    let nodes = result.arena.node_list();
    let rows = rows_of(result, expanded, id, depth, budget);
    let row = row_of(result, expanded, id, depth);
    assert(rows[0] == row);
    if row.expanded {
        let children = children_of(result, id);
        let below = rows_of_all(result, expanded, children, depth + 1, (budget - 1) as nat);
        assert(rows =~= seq![row] + below);
        lemma_children_exist(result, id);
        lemma_all_rows_closed(result, expanded, children, depth + 1, (budget - 1) as nat);
        assert forall|position: int, child: NodeId|
            0 <= position < rows.len() && (#[trigger] rows[position]).expanded && #[trigger]
                is_child(nodes, rows[position].id, child) implies is_listed(rows, child) by {
            lemma_listed_in_sum(seq![row], below, child);
            if position == 0 {
                assert(children.contains(child));
                let k = choose|k: int| 0 <= k < children.len() && children[k] == child;
                assert(is_listed(below, children[k]));
            } else {
                assert(below[position - 1] == rows[position]);
            }
        }
    } else {
        assert(rows =~= seq![row]);
    }
}

proof fn lemma_all_rows_closed(
    result: ScanResult,
    expanded: Set<u32>,
    list: Seq<NodeId>,
    depth: nat,
    budget: nat,
)
    requires
        result.arena.node_list().len() <= u32::MAX + 1,
        rows_of_all(result, expanded, list, depth, budget).len() < budget,
    ensures
        rows_closed(
            result.arena.node_list(),
            rows_of_all(result, expanded, list, depth, budget),
        ),
        forall|k: int|
            0 <= k < list.len() ==> is_listed(
                rows_of_all(result, expanded, list, depth, budget),
                #[trigger] list[k],
            ),
    decreases budget, list.len() + 1,
{
    if list.len() > 0 {
        let first = rows_of(result, expanded, list[0], depth, budget);
        let left = (budget - first.len()) as nat;
        let rest = rows_of_all(result, expanded, list.drop_first(), depth, left);
        let rows = rows_of_all(result, expanded, list, depth, budget);
        assert(rows == first + rest);
        lemma_rows_closed(result, expanded, list[0], depth, budget);
        lemma_all_rows_closed(result, expanded, list.drop_first(), depth, left);
        lemma_closed_sum(result.arena.node_list(), first, rest);
        assert forall|k: int| 0 <= k < list.len() implies is_listed(rows, #[trigger] list[k]) by {
            lemma_listed_in_sum(first, rest, list[k]);
            if k == 0 {
                assert(first[0].id == list[0]);
            } else {
                assert(list.drop_first()[k - 1] == list[k]);
            }
        }
    }
}

/// The root and everything whose way from the root is expanded directories is listed, as long as
/// the rows do not reach their limit.
pub proof fn law_expanded_ways_are_listed(result: ScanResult, expanded: Set<u32>, way: Seq<NodeId>)
    requires
        result.arena.node_list().len() <= u32::MAX + 1,
        tree_rows(result, expanded).len() < 50_000,
        way.len() >= 1,
        way[0] == NodeId(0),
        forall|k: int|
            0 <= k < way.len() - 1 ==> {
                &&& expanded.contains((#[trigger] way[k]).0)
                &&& result.arena.node_list()[way[k].0 as int].kind == NodeKind::Directory
            },
        forall|k: int, next: int|
            0 <= k < way.len() - 1 && next == k + 1 ==> is_child(
                result.arena.node_list(),
                #[trigger] way[k],
                #[trigger] way[next],
            ),
    ensures
        is_listed(tree_rows(result, expanded), way.last()),
    decreases way.len(),
{
    let rows = tree_rows(result, expanded);
    let nodes = result.arena.node_list();
    if way.len() == 1 {
        assert(rows[0].id == NodeId(0));
    } else {
        let shorter = way.drop_last();
        law_expanded_ways_are_listed(result, expanded, shorter);
        let above = shorter.last();
        assert(above == way[way.len() - 2]);
        assert(is_child(nodes, above, way.last()));
        lemma_rows_closed(result, expanded, NodeId(0), 0, MAX_VISIBLE_ROWS as nat);
        let p = choose|p: int| 0 <= p < rows.len() && (#[trigger] rows[p]).id == above;
        lemma_rows_are_rows(result, expanded, NodeId(0), 0, MAX_VISIBLE_ROWS as nat);
        assert(rows[p].expanded);
    }
}

/// A row says of its node whether it can be and is expanded.
pub open spec fn row_true(result: ScanResult, expanded: Set<u32>, row: TreeRow) -> bool {
    &&& row.expandable == can_expand(result.arena.node_list(), row.id)
    &&& row.expanded == (row.expandable && expanded.contains(row.id.0))
}

proof fn lemma_rows_are_rows(
    result: ScanResult,
    expanded: Set<u32>,
    id: NodeId,
    depth: nat,
    budget: nat,
)
    ensures
        forall|p: int|
            0 <= p < rows_of(result, expanded, id, depth, budget).len() ==> row_true(
                result,
                expanded,
                #[trigger] rows_of(result, expanded, id, depth, budget)[p],
            ),
    decreases budget, 0nat,
{
    if budget > 0 {
        let children = children_of(result, id);
        lemma_all_rows_are_rows(result, expanded, children, depth + 1, (budget - 1) as nat);
        let below = rows_of_all(result, expanded, children, depth + 1, (budget - 1) as nat);
        let rows = rows_of(result, expanded, id, depth, budget);
        assert forall|p: int| 0 <= p < rows.len() implies row_true(
            result,
            expanded,
            #[trigger] rows[p],
        ) by {
            if p > 0 {
                assert(rows[p] == below[p - 1]);
            }
        }
    }
}

proof fn lemma_all_rows_are_rows(
    result: ScanResult,
    expanded: Set<u32>,
    list: Seq<NodeId>,
    depth: nat,
    budget: nat,
)
    ensures
        forall|p: int|
            0 <= p < rows_of_all(result, expanded, list, depth, budget).len() ==> row_true(
                result,
                expanded,
                #[trigger] rows_of_all(result, expanded, list, depth, budget)[p],
            ),
    decreases budget, list.len() + 1,
{
    if list.len() > 0 {
        let first = rows_of(result, expanded, list[0], depth, budget);
        lemma_rows_are_rows(result, expanded, list[0], depth, budget);
        if first.len() < budget {
            let left = (budget - first.len()) as nat;
            lemma_all_rows_are_rows(result, expanded, list.drop_first(), depth, left);
            let rest = rows_of_all(result, expanded, list.drop_first(), depth, left);
            let rows = rows_of_all(result, expanded, list, depth, budget);
            assert forall|p: int| 0 <= p < rows.len() implies row_true(
                result,
                expanded,
                #[trigger] rows[p],
            ) by {
                if p < first.len() {
                    assert(rows[p] == first[p]);
                } else {
                    assert(rows[p] == rest[p - first.len()]);
                }
            }
        }
    }
}

proof fn lemma_own_parent(nodes: Seq<Node>, i: int, k: nat)
    requires
        aggregate::parent_of(nodes, i) == i,
    ensures
        aggregate::ancestor(nodes, i, k) == i,
    decreases k,
{
    if k > 0 {
        lemma_own_parent(nodes, i, (k - 1) as nat);
    }
}

/// The ancestors of node `i`, the nearest first, up to the `k`th.
spec fn ancestors(nodes: Seq<Node>, i: int, k: nat) -> Seq<NodeId> {
    Seq::new(k, |m: int| NodeId(aggregate::ancestor(nodes, i, (m + 1) as nat) as u32))
}

proof fn lemma_climb(nodes: Seq<Node>, id: NodeId, k: nat, steps: nat, length: nat)
    requires
        aggregate::way_exists(nodes, id.0 as int, k),
        aggregate::reaches(nodes, id.0 as int, k),
        steps >= k,
        length + k <= LONGEST_CHAIN + 1,
    ensures
        climb(nodes, id, steps, length) == ancestors(nodes, id.0 as int, k),
    decreases k,
{
    let i = id.0 as int;
    if k == 0 {
        assert(climb(nodes, id, steps, length) =~= ancestors(nodes, i, 0));
    } else {
        if id.0 == 0 {
            aggregate::lemma_ancestor_of_root(nodes, (k - 1) as nat);
        }
        let parent = nodes[i].parent;
        assert(0 <= aggregate::ancestor(nodes, i, 0) < nodes.len());
        if parent == id {
            lemma_own_parent(nodes, i, k);
        }
        let up = parent.0 as int;
        if k > 1 {
            assert(aggregate::ancestor(nodes, i, (k - 1) as nat) == aggregate::ancestor(
                nodes,
                up,
                (k - 2) as nat,
            ));
        }
        assert(aggregate::reaches(nodes, up, (k - 1) as nat));
        assert forall|m: nat| m <= k - 1 implies 0 <= #[trigger] aggregate::ancestor(nodes, up, m)
            < nodes.len() by {
            assert(aggregate::ancestor(nodes, i, m + 1) == aggregate::ancestor(nodes, up, m));
        }
        lemma_climb(nodes, parent, (k - 1) as nat, (steps - 1) as nat, length + 1);
        let rest = ancestors(nodes, up, (k - 1) as nat);
        let whole = ancestors(nodes, i, k);
        assert(aggregate::ancestor(nodes, i, 1) == aggregate::ancestor(nodes, up, 0));
        assert(whole =~= seq![parent] + rest) by {
            assert forall|m: int| 1 <= m < k implies #[trigger] whole[m] == rest[m - 1] by {
                assert(aggregate::ancestor(nodes, i, (m + 1) as nat) == aggregate::ancestor(
                    nodes,
                    up,
                    m as nat,
                ));
            }
        }
        if length + 1 > LONGEST_CHAIN {
            assert(k == 1);
            assert(whole =~= seq![parent]);
        }
    }
}

/// The way to a node that is not too deep starts at the root, ends at the node and goes from parent
/// to child, as long as the nodes on it exist.
pub proof fn law_chain_is_the_way(nodes: Seq<Node>, id: NodeId, depth: nat)
    requires
        nodes.len() <= u32::MAX + 1,
        aggregate::way_exists(nodes, id.0 as int, depth),
        aggregate::reaches(nodes, id.0 as int, depth),
        depth <= 4096,
    ensures
        ({
            let chain = chain_of(nodes, id);
            &&& chain.len() == depth + 1
            &&& chain[0] == NodeId(0)
            &&& chain.last() == id
            &&& forall|k: int, next: int|
                0 <= k < chain.len() - 1 && next == k + 1 ==> is_child(
                    nodes,
                    #[trigger] chain[k],
                    #[trigger] chain[next],
                )
        }),
{
    let i = id.0 as int;
    let count = nodes.len();
    aggregate::law_depth_below_count(nodes, i, depth);
    lemma_climb(nodes, id, depth, count + 1, 1);
    let up = ancestors(nodes, i, depth);
    let all = seq![id] + up;
    let chain = chain_of(nodes, id);
    assert forall|m: int| 0 <= m <= depth implies (#[trigger] all[m]).0 == aggregate::ancestor(
        nodes,
        i,
        m as nat,
    ) && all[m].0 < count by {
        assert(0 <= aggregate::ancestor(nodes, i, m as nat) < nodes.len());
        if m > 0 {
            assert(all[m] == up[m - 1]);
        }
    }
    assert(all[depth as int].0 == 0);
    assert(all.reverse()[0] == all[depth as int]);
    assert(chain == all.reverse());
    assert forall|k: int, next: int| 0 <= k < chain.len() - 1 && next == k + 1 implies is_child(
        nodes,
        #[trigger] chain[k],
        #[trigger] chain[next],
    ) by {
        let m = depth - next;
        assert(chain[next] == all[m]);
        assert(chain[k] == all[m + 1]);
        aggregate::lemma_ancestor_add(nodes, i, m as nat, 1);
        let here = aggregate::ancestor(nodes, i, m as nat);
        if here == 0 {
            aggregate::lemma_ancestor_add(nodes, i, m as nat, (depth - 1 - m) as nat);
            aggregate::lemma_ancestor_of_root(nodes, (depth - 1 - m) as nat);
        }
        assert(aggregate::ancestor(nodes, here, 1) == aggregate::ancestor(
            nodes,
            aggregate::parent_of(nodes, here),
            0,
        ));
    }
}

/// Where everything above a node has been expanded, as `reveal_node` does, the node is listed, as
/// long as its ancestors are directories, the rows do not reach their limit and the node is not too
/// deep.
pub proof fn law_revealed_nodes_are_listed(
    result: ScanResult,
    expanded: Set<u32>,
    id: NodeId,
    depth: nat,
)
    requires
        result.arena.node_list().len() <= u32::MAX + 1,
        aggregate::way_exists(result.arena.node_list(), id.0 as int, depth),
        aggregate::reaches(result.arena.node_list(), id.0 as int, depth),
        depth <= 4096,
        forall|m: nat|
            1 <= m <= depth ==> result.arena.node_list()[#[trigger] aggregate::ancestor(
                result.arena.node_list(),
                id.0 as int,
                m,
            )].kind == NodeKind::Directory,
        forall|other: u32|
            other != id.0 && chain_of(result.arena.node_list(), id).contains(NodeId(other))
                ==> #[trigger] expanded.contains(other),
        tree_rows(result, expanded).len() < 50_000,
    ensures
        is_listed(tree_rows(result, expanded), id),
{
    let nodes = result.arena.node_list();
    let i = id.0 as int;
    law_chain_is_the_way(nodes, id, depth);
    let way = chain_of(nodes, id);
    assert forall|k: int| 0 <= k < way.len() - 1 implies {
        &&& expanded.contains((#[trigger] way[k]).0)
        &&& nodes[way[k].0 as int].kind == NodeKind::Directory
    } by {
        let m = (depth - k) as nat;
        lemma_chain_at(nodes, id, depth, k);
        assert(nodes[aggregate::ancestor(nodes, i, m)].kind == NodeKind::Directory);
        aggregate::lemma_way_is_distinct(nodes, i, depth, 0, m);
        assert(way.contains(way[k]));
    }
    law_expanded_ways_are_listed(result, expanded, way);
}

/// The node at a position of the way.
proof fn lemma_chain_at(nodes: Seq<Node>, id: NodeId, depth: nat, k: int)
    requires
        nodes.len() <= u32::MAX + 1,
        aggregate::way_exists(nodes, id.0 as int, depth),
        aggregate::reaches(nodes, id.0 as int, depth),
        depth <= LONGEST_CHAIN,
        0 <= k <= depth,
    ensures
        chain_of(nodes, id)[k].0 == aggregate::ancestor(nodes, id.0 as int, (depth - k) as nat),
{
    let i = id.0 as int;
    aggregate::law_depth_below_count(nodes, i, depth);
    lemma_climb(nodes, id, depth, nodes.len() + 1, 1);
    let all = seq![id] + ancestors(nodes, i, depth);
    assert(0 <= aggregate::ancestor(nodes, i, depth) < nodes.len());
    assert(0 <= aggregate::ancestor(nodes, i, (depth - k) as nat) < nodes.len());
    if depth > 0 {
        assert(all[depth as int] == ancestors(nodes, i, depth)[depth - 1]);
    }
    assert(all[depth as int] == NodeId(0));
    assert(all.reverse()[0] == all[depth as int]);
    if k < depth {
        assert(all[depth - k] == ancestors(nodes, i, depth)[depth - k - 1]);
    }
}

/// Row `p` hangs below row `q`: that is expanded and its parent's, and one step less indented.
pub open spec fn hangs_below(nodes: Seq<Node>, rows: Seq<TreeRow>, q: int, p: int) -> bool {
    &&& 0 <= q < p
    &&& rows[q].expanded
    &&& 1 <= rows[p].id.0 < nodes.len()
    &&& nodes[rows[p].id.0 as int].parent == rows[q].id
    &&& rows[p].depth == rows[q].depth + 1
}

/// Row `p` hangs below a row.
pub open spec fn hangs(nodes: Seq<Node>, rows: Seq<TreeRow>, p: int) -> bool {
    exists|q: int| #[trigger] hangs_below(nodes, rows, q, p)
}

proof fn lemma_rows_hang(result: ScanResult, expanded: Set<u32>, id: NodeId, depth: nat, budget: nat)
    requires
        result.arena.node_list().len() <= u32::MAX + 1,
        depth + budget <= u32::MAX,
    ensures
        ({
            let rows = rows_of(result, expanded, id, depth, budget);
            &&& rows.len() > 0 ==> rows[0].id == id && rows[0].depth == depth
            &&& forall|p: int|
                1 <= p < rows.len() ==> #[trigger] hangs(result.arena.node_list(), rows, p)
        }),
    decreases budget, 0nat,
{
    if budget > 0 {
        let nodes = result.arena.node_list();
        let rows = rows_of(result, expanded, id, depth, budget);
        let row = row_of(result, expanded, id, depth);
        let list = children_of(result, id);
        let below = rows_of_all(result, expanded, list, depth + 1, (budget - 1) as nat);
        lemma_children_exist(result, id);
        lemma_all_rows_hang(result, expanded, list, depth + 1, (budget - 1) as nat);
        assert forall|p: int| 1 <= p < rows.len() implies #[trigger] hangs(nodes, rows, p) by {
            assert(row.expanded);
            assert(rows == seq![row] + below);
            assert(rows[p] == below[p - 1]);
            if below[p - 1].depth == depth + 1 && list.contains(below[p - 1].id) {
                let k = choose|k: int| 0 <= k < list.len() && list[k] == below[p - 1].id;
                assert(is_child(nodes, id, list[k]));
                assert(hangs_below(nodes, rows, 0, p));
            } else {
                assert(placed_below(result, list, depth + 1, below, p - 1));
                let q = choose|q: int| #[trigger] hangs_below(nodes, below, q, p - 1);
                assert(rows[q + 1] == below[q]);
                assert(hangs_below(nodes, rows, q + 1, p));
            }
        }
    }
}

/// Row `p` is that of one of the listed nodes, or hangs below another row.
spec fn placed_below(
    result: ScanResult,
    list: Seq<NodeId>,
    depth: nat,
    rows: Seq<TreeRow>,
    p: int,
) -> bool {
    (rows[p].depth == depth && list.contains(rows[p].id)) || hangs(
        result.arena.node_list(),
        rows,
        p,
    )
}

proof fn lemma_all_rows_hang(
    result: ScanResult,
    expanded: Set<u32>,
    list: Seq<NodeId>,
    depth: nat,
    budget: nat,
)
    requires
        result.arena.node_list().len() <= u32::MAX + 1,
        depth + budget <= u32::MAX,
    ensures
        ({
            let rows = rows_of_all(result, expanded, list, depth, budget);
            forall|p: int|
                0 <= p < rows.len() ==> #[trigger] placed_below(result, list, depth, rows, p)
        }),
    decreases budget, list.len() + 1,
{
    if list.len() > 0 {
        let nodes = result.arena.node_list();
        let rows = rows_of_all(result, expanded, list, depth, budget);
        let first = rows_of(result, expanded, list[0], depth, budget);
        lemma_rows_hang(result, expanded, list[0], depth, budget);
        let left = (budget - first.len()) as nat;
        let rest = rows_of_all(result, expanded, list.drop_first(), depth, left);
        if first.len() < budget {
            lemma_all_rows_hang(result, expanded, list.drop_first(), depth, left);
        }
        assert forall|p: int| 0 <= p < rows.len() implies #[trigger] placed_below(
            result,
            list,
            depth,
            rows,
            p,
        ) by {
            if p < first.len() {
                assert(rows[p] == first[p]);
                if p == 0 {
                    assert(list.contains(list[0]));
                } else {
                    assert(hangs(nodes, first, p));
                    let q = choose|q: int| #[trigger] hangs_below(nodes, first, q, p);
                    assert(rows[q] == first[q]);
                    assert(hangs_below(nodes, rows, q, p));
                }
            } else {
                let m = p - first.len();
                assert(rows[p] == rest[m]);
                assert(placed_below(result, list.drop_first(), depth, rest, m));
                if rest[m].depth == depth && list.drop_first().contains(rest[m].id) {
                    let k = choose|k: int|
                        0 <= k < list.drop_first().len() && list.drop_first()[k] == rest[m].id;
                    assert(list[k + 1] == rest[m].id);
                } else {
                    let q = choose|q: int| #[trigger] hangs_below(nodes, rest, q, m);
                    assert(rows[first.len() + q] == rest[q]);
                    assert(hangs_below(nodes, rows, first.len() + q, p));
                }
            }
        }
    }
}

/// Nothing else is listed: every row but the root's stands behind the row of its node's parent, which
/// is expanded, and is indented one step more. The root's row comes first and is not indented.
pub proof fn law_rows_hang_below_their_parents(result: ScanResult, expanded: Set<u32>, p: int)
    requires
        result.arena.node_list().len() <= u32::MAX + 1,
        0 <= p < tree_rows(result, expanded).len(),
    ensures
        p > 0 ==> hangs(result.arena.node_list(), tree_rows(result, expanded), p),
        tree_rows(result, expanded)[0].id == NodeId(0),
        tree_rows(result, expanded)[0].depth == 0,
{
    lemma_rows_hang(result, expanded, NodeId(0), 0, MAX_VISIBLE_ROWS as nat);
}

/// A row can be expanded exactly if its node is a directory with a child, and is expanded exactly if
/// it can be and was.
pub proof fn law_rows_tell_their_nodes(result: ScanResult, expanded: Set<u32>, p: int)
    requires
        result.arena.node_list().len() <= u32::MAX + 1,
        0 <= p < tree_rows(result, expanded).len(),
    ensures
        ({
            let row = tree_rows(result, expanded)[p];
            let nodes = result.arena.node_list();
            &&& row.expandable <==> nodes[row.id.0 as int].kind == NodeKind::Directory && exists|i: int|
                1 <= i < nodes.len() && (#[trigger] nodes[i]).parent == row.id
            &&& row.expanded <==> row.expandable && expanded.contains(row.id.0)
        }),
{
    lemma_rows_are_rows(result, expanded, NodeId(0), 0, MAX_VISIBLE_ROWS as nat);
    let row = tree_rows(result, expanded)[p];
    let nodes = result.arena.node_list();
    assert(row_true(result, expanded, row));
    if exists|i: int| 1 <= i < nodes.len() && (#[trigger] nodes[i]).parent == row.id {
        let i = choose|i: int| 1 <= i < nodes.len() && (#[trigger] nodes[i]).parent == row.id;
        assert(is_child(nodes, row.id, NodeId(i as u32)));
    }
    if exists|child: NodeId| #[trigger] is_child(nodes, row.id, child) {
        let child = choose|child: NodeId| #[trigger] is_child(nodes, row.id, child);
        assert(nodes[child.0 as int].parent == row.id);
    }
}

/// The children of a directory are exactly the nodes that name it as their parent, each once; of
/// equally large ones the one whose name comes first stands first, then the one with the smaller id.
pub proof fn law_children_are_complete(result: ScanResult, parent: NodeId, a: int, b: int)
    requires
        result.arena.node_list().len() <= u32::MAX + 1,
        0 <= a < b < children_of(result, parent).len(),
    ensures
        ({
            let list = children_of(result, parent);
            let nodes = result.arena.node_list();
            let left = result.totals@[list[a].0 as int].recursive_allocated;
            let right = result.totals@[list[b].0 as int].recursive_allocated;
            let bytes = result.arena.name_bytes();
            let name = arena::name_at(bytes, nodes[list[a].0 as int].name);
            let other = arena::name_at(bytes, nodes[list[b].0 as int].name);
            &&& list[a] != list[b]
            &&& left >= right
            &&& left == right ==> order::bytes_before(name, other) || (name == other && list[a].0
                < list[b].0)
            &&& forall|i: int|
                1 <= i < nodes.len() && (#[trigger] nodes[i]).parent == parent ==> list.contains(
                    NodeId(i as u32),
                )
            &&& 1 <= list[a].0 < nodes.len()
            &&& nodes[list[a].0 as int].parent == parent
        }),
{
    lemma_children_exist(result, parent);
    let list = children_of(result, parent);
    let nodes = result.arena.node_list();
    assert(child_before(result, list[a], list[b]));
    if list[a] == list[b] {
        order::lemma_bytes_total(name_of(result, list[a]), name_of(result, list[a]));
    }
    assert forall|i: int| 1 <= i < nodes.len() && (#[trigger] nodes[i]).parent == parent implies
        list.contains(NodeId(i as u32)) by {
        assert(is_child(nodes, parent, NodeId(i as u32)));
    }
    assert(is_child(nodes, parent, list[a]));
}

/// A tree whose nodes have ids.
spec fn is_tree(nodes: Seq<Node>) -> bool {
    &&& 1 <= nodes.len() <= u32::MAX + 1
    &&& aggregate::parents_exist(nodes)
    &&& aggregate::rooted(nodes)
}

/// The rows of a subtree are those of nodes in it.
proof fn lemma_rows_inside(
    result: ScanResult,
    expanded: Set<u32>,
    id: NodeId,
    depth: nat,
    budget: nat,
    p: int,
)
    requires
        is_tree(result.arena.node_list()),
        id.0 < result.arena.node_list().len(),
        0 <= p < rows_of(result, expanded, id, depth, budget).len(),
    ensures
        ({
            let row = rows_of(result, expanded, id, depth, budget)[p];
            &&& row.id.0 < result.arena.node_list().len()
            &&& aggregate::within(result.arena.node_list(), id.0 as int, row.id.0 as int)
            &&& p > 0 ==> row.id != id
        }),
    decreases budget, 0nat,
{
    let nodes = result.arena.node_list();
    let rows = rows_of(result, expanded, id, depth, budget);
    if p == 0 {
        assert(aggregate::ancestor(nodes, id.0 as int, 0) == id.0 as int);
    } else {
        let list = children_of(result, id);
        let below = rows_of_all(result, expanded, list, depth + 1, (budget - 1) as nat);
        lemma_children_exist(result, id);
        assert(rows[p] == below[p - 1]);
        let k = lemma_all_rows_inside(
            result,
            expanded,
            list,
            id,
            depth + 1,
            (budget - 1) as nat,
            p - 1,
        );
        let child = list[k].0 as int;
        let i = below[p - 1].id.0 as int;
        assert(is_child(nodes, id, list[k]));
        assert(aggregate::child_of(nodes, id.0 as int, child));
        let steps = choose|steps: nat| #[trigger] aggregate::ancestor(nodes, i, steps) == child;
        aggregate::lemma_ancestor_add(nodes, i, steps, 1);
        assert(aggregate::ancestor(nodes, child, 1) == aggregate::ancestor(
            nodes,
            id.0 as int,
            0,
        ));
        assert(aggregate::ancestor(nodes, i, steps + 1) == id.0 as int);
        aggregate::lemma_parent_is_above(nodes, id.0 as int, child);
    }
}

/// The rows of several children are those of nodes below one of them.
proof fn lemma_all_rows_inside(
    result: ScanResult,
    expanded: Set<u32>,
    list: Seq<NodeId>,
    parent: NodeId,
    depth: nat,
    budget: nat,
    p: int,
) -> (k: int)
    requires
        is_tree(result.arena.node_list()),
        forall|k: int|
            0 <= k < list.len() ==> is_child(result.arena.node_list(), parent, #[trigger] list[k]),
        0 <= p < rows_of_all(result, expanded, list, depth, budget).len(),
    ensures
        0 <= k < list.len(),
        ({
            let row = rows_of_all(result, expanded, list, depth, budget)[p];
            &&& row.id.0 < result.arena.node_list().len()
            &&& aggregate::within(result.arena.node_list(), list[k].0 as int, row.id.0 as int)
        }),
    decreases budget, list.len() + 1,
{
    let rows = rows_of_all(result, expanded, list, depth, budget);
    let first = rows_of(result, expanded, list[0], depth, budget);
    assert(is_child(result.arena.node_list(), parent, list[0]));
    if p < first.len() {
        assert(rows[p] == first[p]);
        lemma_rows_inside(result, expanded, list[0], depth, budget, p);
        0
    } else {
        let tail = list.drop_first();
        let left = (budget - first.len()) as nat;
        assert(rows[p] == rows_of_all(result, expanded, tail, depth, left)[p - first.len()]);
        assert forall|k: int| 0 <= k < tail.len() implies is_child(
            result.arena.node_list(),
            parent,
            #[trigger] tail[k],
        ) by {
            assert(tail[k] == list[k + 1]);
        }
        let k = lemma_all_rows_inside(
            result,
            expanded,
            tail,
            parent,
            depth,
            left,
            p - first.len(),
        );
        k + 1
    }
}

/// Two nodes have the same parent.
spec fn siblings(nodes: Seq<Node>, a: NodeId, b: NodeId) -> bool {
    a.0 >= 1 && b.0 >= 1 && nodes[a.0 as int].parent == nodes[b.0 as int].parent
}

proof fn lemma_rows_in_order(
    result: ScanResult,
    expanded: Set<u32>,
    id: NodeId,
    depth: nat,
    budget: nat,
    p: int,
    q: int,
)
    requires
        is_tree(result.arena.node_list()),
        id.0 < result.arena.node_list().len(),
        0 <= p < q < rows_of(result, expanded, id, depth, budget).len(),
        siblings(
            result.arena.node_list(),
            rows_of(result, expanded, id, depth, budget)[p].id,
            rows_of(result, expanded, id, depth, budget)[q].id,
        ),
    ensures
        child_before(
            result,
            rows_of(result, expanded, id, depth, budget)[p].id,
            rows_of(result, expanded, id, depth, budget)[q].id,
        ),
    decreases budget, 0nat,
{
    let nodes = result.arena.node_list();
    let rows = rows_of(result, expanded, id, depth, budget);
    let list = children_of(result, id);
    let below = rows_of_all(result, expanded, list, depth + 1, (budget - 1) as nat);
    lemma_children_exist(result, id);
    assert(rows[q] == below[q - 1]);
    if p == 0 {
        lemma_rows_inside(result, expanded, id, depth, budget, q);
        let i = rows[q].id.0 as int;
        let up = nodes[i].parent.0 as int;
        assert(nodes[i].parent.0 < nodes.len());
        aggregate::law_within_goes_by_parents(nodes, id.0 as int, i);
        assert(aggregate::child_of(nodes, up, id.0 as int));
        aggregate::lemma_parent_is_above(nodes, up, id.0 as int);
    } else {
        assert(rows[p] == below[p - 1]);
        lemma_all_rows_in_order(
            result,
            expanded,
            list,
            id,
            depth + 1,
            (budget - 1) as nat,
            p - 1,
            q - 1,
        );
    }
}

proof fn lemma_all_rows_in_order(
    result: ScanResult,
    expanded: Set<u32>,
    list: Seq<NodeId>,
    parent: NodeId,
    depth: nat,
    budget: nat,
    p: int,
    q: int,
)
    requires
        is_tree(result.arena.node_list()),
        parent.0 < result.arena.node_list().len(),
        forall|k: int|
            0 <= k < list.len() ==> is_child(result.arena.node_list(), parent, #[trigger] list[k]),
        forall|a: int, b: int|
            0 <= a < b < list.len() ==> child_before(result, #[trigger] list[a], #[trigger] list[b]),
        0 <= p < q < rows_of_all(result, expanded, list, depth, budget).len(),
        siblings(
            result.arena.node_list(),
            rows_of_all(result, expanded, list, depth, budget)[p].id,
            rows_of_all(result, expanded, list, depth, budget)[q].id,
        ),
    ensures
        child_before(
            result,
            rows_of_all(result, expanded, list, depth, budget)[p].id,
            rows_of_all(result, expanded, list, depth, budget)[q].id,
        ),
    decreases budget, list.len() + 1,
{
    let nodes = result.arena.node_list();
    let rows = rows_of_all(result, expanded, list, depth, budget);
    let first = rows_of(result, expanded, list[0], depth, budget);
    assert(is_child(nodes, parent, list[0]));
    if q < first.len() {
        assert(rows[p] == first[p]);
        assert(rows[q] == first[q]);
        lemma_rows_in_order(result, expanded, list[0], depth, budget, p, q);
    } else {
        let tail = list.drop_first();
        let left = (budget - first.len()) as nat;
        let rest = rows_of_all(result, expanded, tail, depth, left);
        assert(rows[q] == rest[q - first.len()]);
        assert forall|k: int| 0 <= k < tail.len() implies is_child(
            nodes,
            parent,
            #[trigger] tail[k],
        ) by {
            assert(tail[k] == list[k + 1]);
        }
        assert forall|a: int, b: int| 0 <= a < b < tail.len() implies child_before(
            result,
            #[trigger] tail[a],
            #[trigger] tail[b],
        ) by {
            assert(child_before(result, list[a + 1], list[b + 1]));
        }
        if p >= first.len() {
            assert(rows[p] == rest[p - first.len()]);
            lemma_all_rows_in_order(
                result,
                expanded,
                tail,
                parent,
                depth,
                left,
                p - first.len(),
                q - first.len(),
            );
        } else {
            assert(rows[p] == first[p]);
            lemma_rows_inside(result, expanded, list[0], depth, budget, p);
            let k = lemma_all_rows_inside(
                result,
                expanded,
                tail,
                parent,
                depth,
                left,
                q - first.len(),
            );
            assert(tail[k] == list[k + 1]);
            lemma_across_children(result, parent, list[0], tail[k], rows[p].id, rows[q].id);
        }
    }
}

/// Siblings below two children of a directory are these children.
proof fn lemma_across_children(
    result: ScanResult,
    parent: NodeId,
    a: NodeId,
    b: NodeId,
    x: NodeId,
    y: NodeId,
)
    requires
        is_tree(result.arena.node_list()),
        parent.0 < result.arena.node_list().len(),
        is_child(result.arena.node_list(), parent, a),
        is_child(result.arena.node_list(), parent, b),
        child_before(result, a, b),
        x.0 < result.arena.node_list().len(),
        y.0 < result.arena.node_list().len(),
        aggregate::within(result.arena.node_list(), a.0 as int, x.0 as int),
        aggregate::within(result.arena.node_list(), b.0 as int, y.0 as int),
        siblings(result.arena.node_list(), x, y),
    ensures
        child_before(result, x, y),
{
    let nodes = result.arena.node_list();
    let up = nodes[x.0 as int].parent;
    let top = parent.0 as int;
    if a == b {
        order::lemma_bytes_total(name_of(result, a), name_of(result, a));
    }
    assert(aggregate::child_of(nodes, top, a.0 as int));
    assert(aggregate::child_of(nodes, top, b.0 as int));
    assert(nodes[x.0 as int].parent.0 < nodes.len());
    aggregate::law_within_goes_by_parents(nodes, a.0 as int, x.0 as int);
    aggregate::law_within_goes_by_parents(nodes, b.0 as int, y.0 as int);
    if up == parent {
        assert(aggregate::child_of(nodes, top, x.0 as int));
        assert(aggregate::child_of(nodes, top, y.0 as int));
        assert(aggregate::ancestor(nodes, x.0 as int, 0) == x.0 as int);
        assert(aggregate::ancestor(nodes, y.0 as int, 0) == y.0 as int);
        assert(aggregate::within(nodes, x.0 as int, x.0 as int));
        assert(aggregate::within(nodes, y.0 as int, y.0 as int));
        aggregate::lemma_children_are_apart(nodes, top, a.0 as int, x.0 as int, x.0 as int);
        aggregate::lemma_children_are_apart(nodes, top, b.0 as int, y.0 as int, y.0 as int);
    } else {
        assert(x != a && y != b);
        aggregate::lemma_children_are_apart(nodes, top, a.0 as int, b.0 as int, up.0 as int);
    }
}

/// The rows are sorted by size: of two rows of one directory the upper one takes at least as much on
/// disk, and of equally large ones its name comes first.
pub proof fn law_rows_are_sorted_by_size(result: ScanResult, expanded: Set<u32>, p: int, q: int)
    requires
        1 <= result.arena.node_list().len() <= u32::MAX + 1,
        aggregate::parents_exist(result.arena.node_list()),
        aggregate::rooted(result.arena.node_list()),
        0 <= p < q < tree_rows(result, expanded).len(),
        ({
            let rows = tree_rows(result, expanded);
            let nodes = result.arena.node_list();
            &&& rows[p].id.0 >= 1
            &&& rows[q].id.0 >= 1
            &&& nodes[rows[p].id.0 as int].parent == nodes[rows[q].id.0 as int].parent
        }),
    ensures
        ({
            let rows = tree_rows(result, expanded);
            let nodes = result.arena.node_list();
            let bytes = result.arena.name_bytes();
            let upper = rows[p].id.0 as int;
            let lower = rows[q].id.0 as int;
            &&& result.totals@[upper].recursive_allocated
                >= result.totals@[lower].recursive_allocated
            &&& result.totals@[upper].recursive_allocated
                == result.totals@[lower].recursive_allocated ==> !order::bytes_before(
                arena::name_at(bytes, nodes[lower].name),
                arena::name_at(bytes, nodes[upper].name),
            )
            &&& upper != lower
        }),
{
    lemma_rows_in_order(result, expanded, NodeId(0), 0, MAX_VISIBLE_ROWS as nat, p, q);
    let rows = tree_rows(result, expanded);
    order::lemma_bytes_total(name_of(result, rows[p].id), name_of(result, rows[q].id));
}

} // verus!
