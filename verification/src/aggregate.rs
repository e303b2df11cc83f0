//! Recursive size accounting over a node list.

use vstd::prelude::*;

use crate::node::{Node, NodeId, NodeKind};
use crate::text;

verus! {

/// What one node's subtree adds up to.
#[derive(Clone, Copy, Debug, Eq, PartialEq, Structural)]
pub struct Totals {
    pub self_allocated: u64,
    pub recursive_allocated: u64,
    pub recursive_logical: u64,
    pub recursive_items: u64,
    /// Number of regular files in this subtree.
    pub recursive_files: u64,
    /// Number of directories strictly below this node (excludes the node itself).
    pub recursive_subdirs: u64,
    /// Newest modification time anywhere in this subtree (Unix seconds).
    pub latest_mtime: i64,
}

impl Default for Totals {
    fn default() -> (totals: Totals)
        ensures
            totals == (Totals {
                self_allocated: 0,
                recursive_allocated: 0,
                recursive_logical: 0,
                recursive_items: 0,
                recursive_files: 0,
                recursive_subdirs: 0,
                latest_mtime: 0,
            }),
    {
        Totals {
            self_allocated: 0,
            recursive_allocated: 0,
            recursive_logical: 0,
            recursive_items: 0,
            recursive_files: 0,
            recursive_subdirs: 0,
            latest_mtime: 0,
        }
    }
}

/// Why a node list is not a tree.
#[derive(Clone, Debug, Eq, PartialEq, Structural)]
pub enum AggregateError {
    InvalidParent { node: NodeId, parent: NodeId },
    ParentCycle,
}

impl AggregateError {
    /// The error in words.
    pub open spec fn words(self) -> Seq<char> {
        match self {
            AggregateError::InvalidParent { node, parent } => "node "@ + text::decimal(
                node.0 as nat,
            ) + " has invalid parent "@ + text::decimal(parent.0 as nat),
            AggregateError::ParentCycle => "node parent relationships contain a cycle"@,
        }
    }

    /// Describes the error.
    pub fn message(&self) -> (message: String)
        ensures
            message@ == self.words(),
    {
        match self {
            AggregateError::InvalidParent { node, parent } => {
                let mut message = String::from_str("node ");
                text::push_decimal(&mut message, node.0 as u64);
                message.append(" has invalid parent ");
                text::push_decimal(&mut message, parent.0 as u64);
                message
            },
            AggregateError::ParentCycle => String::from_str(
                "node parent relationships contain a cycle",
            ),
        }
    }
}

/// Position of the parent of node `i`.
pub open spec fn parent_of(nodes: Seq<Node>, i: int) -> int {
    nodes[i].parent.0 as int
}

/// The node reached from `i` after `k` steps towards the root, where the walk stays.
pub open spec fn ancestor(nodes: Seq<Node>, i: int, k: nat) -> int
    decreases k,
{
    if k == 0 {
        i
    } else if i == 0 {
        0
    } else {
        ancestor(nodes, parent_of(nodes, i), (k - 1) as nat)
    }
}

/// Node `i` is `top` or lies below it.
pub open spec fn within(nodes: Seq<Node>, top: int, i: int) -> bool {
    exists|k: nat| #[trigger] ancestor(nodes, i, k) == top
}

/// Every node but the root names an existing parent.
pub open spec fn parents_exist(nodes: Seq<Node>) -> bool {
    forall|i: int| 1 <= i < nodes.len() ==> (#[trigger] nodes[i]).parent.0 < nodes.len()
}

/// Every node reaches the root.
pub open spec fn rooted(nodes: Seq<Node>) -> bool {
    forall|i: int| 0 <= i < nodes.len() ==> #[trigger] within(nodes, 0, i)
}

/// The positions of the nodes at or below `top`.
pub open spec fn subtree(nodes: Seq<Node>, top: int) -> Set<int> {
    Set::new(|i: int| 0 <= i < nodes.len() && within(nodes, top, i))
}

/// Sum of `value` over the members of `set` below `bound`.
pub open spec fn sum_over(set: Set<int>, value: spec_fn(int) -> nat, bound: nat) -> nat
    decreases bound,
{
    if bound == 0 {
        0
    } else {
        let last = bound - 1;
        sum_over(set, value, last as nat) + if set.contains(last) {
            value(last)
        } else {
            0
        }
    }
}

/// Counts every member once.
pub open spec fn each_once() -> spec_fn(int) -> nat {
    |i: int| 1nat
}

/// Allocated size of the node at a position.
pub open spec fn allocated_at(nodes: Seq<Node>) -> spec_fn(int) -> nat {
    |i: int| nodes[i].allocated_size as nat
}

/// Logical size of the node at a position.
pub open spec fn logical_at(nodes: Seq<Node>) -> spec_fn(int) -> nat {
    |i: int| nodes[i].logical_size as nat
}

/// One for each node of a kind.
pub open spec fn kind_at(nodes: Seq<Node>, kind: NodeKind) -> spec_fn(int) -> nat {
    |i: int|
        if nodes[i].kind == kind {
            1nat
        } else {
            0nat
        }
}

/// The largest representable total not above `sum`.
pub open spec fn capped(sum: nat) -> u64 {
    if sum > u64::MAX {
        u64::MAX
    } else {
        sum as u64
    }
}

/// `latest` is the newest modification time among `members`.
pub open spec fn newest(nodes: Seq<Node>, members: Set<int>, latest: i64) -> bool {
    &&& exists|i: int| #[trigger] members.contains(i) && nodes[i].mtime == latest
    &&& forall|i: int| #[trigger] members.contains(i) ==> nodes[i].mtime <= latest
}

/// `totals` accounts for `members`, of which `owner` is the topmost.
pub open spec fn accounts_for(totals: Totals, nodes: Seq<Node>, owner: int, members: Set<int>) -> bool {
    let count = nodes.len();
    &&& totals.self_allocated == nodes[owner].allocated_size
    &&& totals.recursive_allocated == capped(sum_over(members, allocated_at(nodes), count))
    &&& totals.recursive_logical == capped(sum_over(members, logical_at(nodes), count))
    &&& totals.recursive_items == capped(sum_over(members, each_once(), count))
    &&& totals.recursive_files == capped(
        sum_over(members, kind_at(nodes, NodeKind::File), count),
    )
    &&& totals.recursive_subdirs == capped(
        sum_over(members.remove(owner), kind_at(nodes, NodeKind::Directory), count),
    )
    &&& newest(nodes, members, totals.latest_mtime)
}

/// `error` names the first node whose parent does not exist.
pub open spec fn first_invalid_parent(nodes: Seq<Node>, error: AggregateError) -> bool {
    exists|i: int|
        {
            &&& 1 <= i < nodes.len()
            &&& (#[trigger] nodes[i]).parent.0 >= nodes.len()
            &&& forall|j: int| 1 <= j < i ==> (#[trigger] nodes[j]).parent.0 < nodes.len()
            &&& error == AggregateError::InvalidParent {
                node: NodeId(i as u32),
                parent: nodes[i].parent,
            }
        }
}

pub(crate) proof fn lemma_sum_remove(set: Set<int>, value: spec_fn(int) -> nat, bound: nat, i: int)
    requires
        set.contains(i),
        0 <= i < bound,
    ensures
        sum_over(set, value, bound) == sum_over(set.remove(i), value, bound) + value(i),
    decreases bound,
{
    let last = bound - 1;
    if last == i {
        lemma_sum_agrees(set, set.remove(i), value, last as nat);
    } else {
        lemma_sum_remove(set, value, last as nat, i);
    }
}

pub(crate) proof fn lemma_sum_agrees(a: Set<int>, b: Set<int>, value: spec_fn(int) -> nat, bound: nat)
    requires
        forall|i: int| 0 <= i < bound ==> a.contains(i) == b.contains(i),
    ensures
        sum_over(a, value, bound) == sum_over(b, value, bound),
    decreases bound,
{
    if bound > 0 {
        lemma_sum_agrees(a, b, value, (bound - 1) as nat);
    }
}

/// A sum depends on the values of its members only.
pub(crate) proof fn lemma_sum_values(
    set: Set<int>,
    a: spec_fn(int) -> nat,
    b: spec_fn(int) -> nat,
    bound: nat,
)
    requires
        forall|i: int| 0 <= i < bound && set.contains(i) ==> a(i) == b(i),
    ensures
        sum_over(set, a, bound) == sum_over(set, b, bound),
    decreases bound,
{
    if bound > 0 {
        lemma_sum_values(set, a, b, (bound - 1) as nat);
    }
}

pub(crate) proof fn lemma_sum_union(a: Set<int>, b: Set<int>, value: spec_fn(int) -> nat, bound: nat)
    requires
        a.disjoint(b),
    ensures
        sum_over(a.union(b), value, bound) == sum_over(a, value, bound) + sum_over(b, value, bound),
    decreases bound,
{
    if bound > 0 {
        let last = bound - 1;
        lemma_sum_union(a, b, value, last as nat);
        assert(!(a.contains(last) && b.contains(last)));
    }
}

pub(crate) proof fn lemma_count_bound(set: Set<int>, bound: nat)
    ensures
        sum_over(set, each_once(), bound) <= bound,
    decreases bound,
{
    if bound > 0 {
        lemma_count_bound(set, (bound - 1) as nat);
    }
}

pub(crate) proof fn lemma_count_zero(set: Set<int>, bound: nat, i: int)
    requires
        sum_over(set, each_once(), bound) == 0,
        0 <= i < bound,
    ensures
        !set.contains(i),
    decreases bound,
{
    if i < bound - 1 {
        lemma_count_zero(set, (bound - 1) as nat, i);
    }
}

pub(crate) proof fn lemma_count_positive(set: Set<int>, bound: nat) -> (i: int)
    requires
        sum_over(set, each_once(), bound) > 0,
    ensures
        0 <= i < bound,
        set.contains(i),
    decreases bound,
{
    if set.contains(bound - 1) {
        bound - 1
    } else {
        lemma_count_positive(set, (bound - 1) as nat)
    }
}

/// Walking `a` steps and then `b` more is walking `a + b` steps.
pub(crate) proof fn lemma_ancestor_add(nodes: Seq<Node>, i: int, a: nat, b: nat)
    ensures
        ancestor(nodes, i, a + b) == ancestor(nodes, ancestor(nodes, i, a), b),
    decreases a,
{
    if a > 0 {
        if i == 0 {
            lemma_ancestor_of_root(nodes, (a + b) as nat);
            lemma_ancestor_of_root(nodes, b);
        } else {
            lemma_ancestor_add(nodes, parent_of(nodes, i), (a - 1) as nat, b);
        }
    }
}

pub(crate) proof fn lemma_ancestor_of_root(nodes: Seq<Node>, k: nat)
    ensures
        ancestor(nodes, 0, k) == 0,
{
}

/// How far the leaves have been peeled off: `done` holds the nodes handed to their parents, and
/// `heir[j]`, `climb[j]` steps above `j`, is the node that now stands for `j`.
spec fn peeled(nodes: Seq<Node>, done: Set<int>, heir: Seq<int>, climb: Seq<nat>) -> bool {
    &&& heir.len() == nodes.len()
    &&& climb.len() == nodes.len()
    &&& forall|j: int| #[trigger] done.contains(j) ==> 1 <= j < nodes.len()
    &&& forall|j: int|
        1 <= j < nodes.len() && done.contains(parent_of(nodes, j)) ==> #[trigger] done.contains(j)
    &&& forall|j: int|
        0 <= j < nodes.len() ==> {
            &&& 0 <= #[trigger] heir[j] < nodes.len()
            &&& !done.contains(heir[j])
            &&& ancestor(nodes, j, climb[j]) == heir[j]
        }
    &&& forall|j: int, m: nat|
        0 <= j < nodes.len() && m < climb[j] ==> done.contains(#[trigger] ancestor(nodes, j, m))
}

/// The nodes that `i` stands for.
spec fn estate(heir: Seq<int>, i: int) -> Set<int> {
    Set::new(|j: int| 0 <= j < heir.len() && heir[j] == i)
}

/// The children of `i` that have not been handed over.
spec fn pending(nodes: Seq<Node>, done: Set<int>, i: int) -> Set<int> {
    Set::new(
        |j: int| 1 <= j < nodes.len() && parent_of(nodes, j) == i && !done.contains(j),
    )
}

/// Below a node whose children are all handed over, everything is handed over.
proof fn lemma_below_is_done(
    nodes: Seq<Node>,
    done: Set<int>,
    heir: Seq<int>,
    climb: Seq<nat>,
    top: int,
    i: int,
    k: nat,
)
    requires
        parents_exist(nodes),
        peeled(nodes, done, heir, climb),
        0 <= i < nodes.len(),
        1 <= top < nodes.len(),
        k >= 1,
        ancestor(nodes, i, k) == top,
        forall|j: int| !#[trigger] pending(nodes, done, top).contains(j),
    ensures
        done.contains(i),
    decreases k,
{
    assert(i != 0);
    let up = parent_of(nodes, i);
    if k == 1 {
        assert(ancestor(nodes, up, 0) == up);
        assert(!pending(nodes, done, top).contains(i));
    } else {
        assert(nodes[i].parent.0 < nodes.len());
        lemma_below_is_done(nodes, done, heir, climb, top, up, (k - 1) as nat);
    }
}

/// A node without pending children stands for its whole subtree.
proof fn lemma_estate_is_subtree(
    nodes: Seq<Node>,
    done: Set<int>,
    heir: Seq<int>,
    climb: Seq<nat>,
    top: int,
)
    requires
        parents_exist(nodes),
        peeled(nodes, done, heir, climb),
        1 <= top < nodes.len(),
        !done.contains(top),
        forall|j: int| !#[trigger] pending(nodes, done, top).contains(j),
    ensures
        estate(heir, top) == subtree(nodes, top),
{
    assert forall|j: int| #[trigger] estate(heir, top).contains(j) implies subtree(
        nodes,
        top,
    ).contains(j) by {
        assert(ancestor(nodes, j, climb[j]) == top);
    }
    assert forall|j: int| #[trigger] subtree(nodes, top).contains(j) implies estate(
        heir,
        top,
    ).contains(j) by {
        let k = choose|k: nat| #[trigger] ancestor(nodes, j, k) == top;
        if k < climb[j] {
            assert(done.contains(ancestor(nodes, j, k)));
        } else if k > climb[j] {
            let rest = (k - climb[j]) as nat;
            lemma_ancestor_add(nodes, j, climb[j], rest);
            lemma_below_is_done(nodes, done, heir, climb, top, heir[j], rest);
        }
    }
    assert(estate(heir, top) =~= subtree(nodes, top));
}

/// Hands `child`, whose children are all handed over, to its parent.
proof fn lemma_peel(
    nodes: Seq<Node>,
    done: Set<int>,
    heir: Seq<int>,
    climb: Seq<nat>,
    child: int,
) -> (next: (Seq<int>, Seq<nat>))
    requires
        parents_exist(nodes),
        peeled(nodes, done, heir, climb),
        1 <= child < nodes.len(),
        !done.contains(child),
        forall|j: int| !#[trigger] pending(nodes, done, child).contains(j),
    ensures
        parent_of(nodes, child) != child,
        !done.contains(parent_of(nodes, child)),
        peeled(nodes, done.insert(child), next.0, next.1),
        estate(next.0, parent_of(nodes, child)) == estate(heir, parent_of(nodes, child)).union(
            estate(heir, child),
        ),
        estate(heir, parent_of(nodes, child)).disjoint(estate(heir, child)),
        forall|i: int|
            i != child && i != parent_of(nodes, child) ==> #[trigger] estate(next.0, i) == estate(
                heir,
                i,
            ),
{
    let parent = parent_of(nodes, child);
    assert(nodes[child].parent.0 < nodes.len());
    assert(!pending(nodes, done, child).contains(child));
    let next_heir = Seq::new(
        nodes.len(),
        |j: int|
            if heir[j] == child {
                parent
            } else {
                heir[j]
            },
    );
    let next_climb = Seq::new(
        nodes.len(),
        |j: int|
            if heir[j] == child {
                climb[j] + 1
            } else {
                climb[j]
            },
    );
    let next_done = done.insert(child);
    assert forall|j: int| 1 <= j < nodes.len() && next_done.contains(parent_of(nodes, j)) implies
        #[trigger] next_done.contains(j) by {
        if parent_of(nodes, j) == child {
            assert(!pending(nodes, done, child).contains(j));
        } else {
            assert(done.contains(parent_of(nodes, j)));
            assert(done.contains(j));
        }
    }
    assert forall|j: int| 0 <= j < nodes.len() implies {
        &&& 0 <= #[trigger] next_heir[j] < nodes.len()
        &&& !next_done.contains(next_heir[j])
        &&& ancestor(nodes, j, next_climb[j]) == next_heir[j]
    } by {
        assert(0 <= heir[j] < nodes.len());
        if heir[j] == child {
            lemma_ancestor_add(nodes, j, climb[j], 1);
            assert(ancestor(nodes, child, 1) == ancestor(nodes, parent, 0));
        }
    }
    assert forall|j: int, m: nat| 0 <= j < nodes.len() && m < next_climb[j] implies
        next_done.contains(#[trigger] ancestor(nodes, j, m)) by {
        if m < climb[j] {
            assert(done.contains(ancestor(nodes, j, m)));
        } else {
            assert(heir[j] == child);
        }
    }
    assert(estate(next_heir, parent) =~= estate(heir, parent).union(estate(heir, child)));
    assert forall|i: int| i != child && i != parent implies #[trigger] estate(next_heir, i)
        == estate(heir, i) by {
        assert(estate(next_heir, i) =~= estate(heir, i));
    }
    (next_heir, next_climb)
}

/// Totals of a node after a child's totals are folded in.
spec fn folded(parent: Totals, child: Totals, kind: NodeKind) -> Totals {
    Totals {
        self_allocated: parent.self_allocated,
        recursive_allocated: capped(
            parent.recursive_allocated as nat + child.recursive_allocated as nat,
        ),
        recursive_logical: capped(parent.recursive_logical as nat + child.recursive_logical as nat),
        recursive_items: capped(parent.recursive_items as nat + child.recursive_items as nat),
        recursive_files: capped(parent.recursive_files as nat + child.recursive_files as nat),
        recursive_subdirs: capped(
            parent.recursive_subdirs as nat + child.recursive_subdirs as nat + (if kind
                == NodeKind::Directory {
                1nat
            } else {
                0nat
            }),
        ),
        latest_mtime: if parent.latest_mtime >= child.latest_mtime {
            parent.latest_mtime
        } else {
            child.latest_mtime
        },
    }
}

proof fn lemma_fold_accounts(
    nodes: Seq<Node>,
    parent: int,
    child: int,
    above: Set<int>,
    below: Set<int>,
    parent_totals: Totals,
    child_totals: Totals,
)
    requires
        0 <= parent < nodes.len(),
        0 <= child < nodes.len(),
        above.disjoint(below),
        above.contains(parent),
        below.contains(child),
        accounts_for(parent_totals, nodes, parent, above),
        accounts_for(child_totals, nodes, child, below),
    ensures
        accounts_for(
            folded(parent_totals, child_totals, nodes[child].kind),
            nodes,
            parent,
            above.union(below),
        ),
{
    let count = nodes.len();
    let both = above.union(below);
    let directories = kind_at(nodes, NodeKind::Directory);
    lemma_sum_union(above, below, allocated_at(nodes), count);
    lemma_sum_union(above, below, logical_at(nodes), count);
    lemma_sum_union(above, below, each_once(), count);
    lemma_sum_union(above, below, kind_at(nodes, NodeKind::File), count);
    assert(!below.contains(parent));
    assert(both.remove(parent) =~= above.remove(parent).union(below));
    lemma_sum_union(above.remove(parent), below, directories, count);
    lemma_sum_remove(below, directories, count, child);
    let total = folded(parent_totals, child_totals, nodes[child].kind);
    assert(newest(nodes, both, total.latest_mtime)) by {
        let a = choose|i: int|
            #[trigger] above.contains(i) && nodes[i].mtime == parent_totals.latest_mtime;
        let b = choose|i: int|
            #[trigger] below.contains(i) && nodes[i].mtime == child_totals.latest_mtime;
        assert(both.contains(a));
        assert(both.contains(b));
    }
}

/// Folds a child's totals into its parent's.
fn fold(parent: Totals, child: Totals, kind: NodeKind) -> (total: Totals)
    ensures
        total == folded(parent, child, kind),
{
    let step: u64 = if kind == NodeKind::Directory {
        1
    } else {
        0
    };
    Totals {
        self_allocated: parent.self_allocated,
        recursive_allocated: parent.recursive_allocated.saturating_add(child.recursive_allocated),
        recursive_logical: parent.recursive_logical.saturating_add(child.recursive_logical),
        recursive_items: parent.recursive_items.saturating_add(child.recursive_items),
        recursive_files: parent.recursive_files.saturating_add(child.recursive_files),
        recursive_subdirs: parent.recursive_subdirs.saturating_add(
            child.recursive_subdirs,
        ).saturating_add(step),
        latest_mtime: if parent.latest_mtime >= child.latest_mtime {
            parent.latest_mtime
        } else {
            child.latest_mtime
        },
    }
}

/// Node `i` reaches the root after `k` steps and not earlier.
pub open spec fn reaches(nodes: Seq<Node>, i: int, k: nat) -> bool {
    &&& ancestor(nodes, i, k) == 0
    &&& k > 0 ==> ancestor(nodes, i, (k - 1) as nat) != 0
}

pub(crate) proof fn lemma_reaches_exists(nodes: Seq<Node>, i: int, k: nat) -> (least: nat)
    requires
        ancestor(nodes, i, k) == 0,
    ensures
        reaches(nodes, i, least),
    decreases k,
{
    if k > 0 && ancestor(nodes, i, (k - 1) as nat) == 0 {
        lemma_reaches_exists(nodes, i, (k - 1) as nat)
    } else {
        k
    }
}

pub(crate) proof fn lemma_reaches_unique(nodes: Seq<Node>, i: int, k: nat, m: nat)
    requires
        reaches(nodes, i, k),
        reaches(nodes, i, m),
    ensures
        k == m,
{
    if m < k {
        lemma_ancestor_add(nodes, i, m, (k - 1 - m) as nat);
        lemma_ancestor_of_root(nodes, (k - 1 - m) as nat);
    } else if k < m {
        lemma_ancestor_add(nodes, i, k, (m - 1 - k) as nat);
        lemma_ancestor_of_root(nodes, (m - 1 - k) as nat);
    }
}

pub(crate) proof fn lemma_ancestor_exists(nodes: Seq<Node>, i: int, k: nat)
    requires
        parents_exist(nodes),
        0 <= i < nodes.len(),
    ensures
        0 <= ancestor(nodes, i, k) < nodes.len(),
    decreases k,
{
    if k > 0 && i != 0 {
        assert(nodes[i].parent.0 < nodes.len());
        lemma_ancestor_exists(nodes, parent_of(nodes, i), (k - 1) as nat);
    }
}

/// The nodes up to `k` steps from `i` towards the root exist.
pub open spec fn way_exists(nodes: Seq<Node>, i: int, k: nat) -> bool {
    forall|m: nat| m <= k ==> 0 <= #[trigger] ancestor(nodes, i, m) < nodes.len()
}

/// On the way to the root no node comes twice.
pub(crate) proof fn lemma_way_is_distinct(nodes: Seq<Node>, i: int, k: nat, a: nat, b: nat)
    requires
        reaches(nodes, i, k),
        a < b <= k,
    ensures
        ancestor(nodes, i, a) != ancestor(nodes, i, b),
{
    if ancestor(nodes, i, a) == ancestor(nodes, i, b) {
        lemma_ancestor_add(nodes, i, a, (k - b) as nat);
        lemma_ancestor_add(nodes, i, b, (k - b) as nat);
        let early = (a + k - b) as nat;
        assert(ancestor(nodes, i, early) == 0);
        lemma_ancestor_add(nodes, i, early, (k - 1 - early) as nat);
        lemma_ancestor_of_root(nodes, (k - 1 - early) as nat);
    }
}

/// The root is fewer steps away than there are nodes, as long as the nodes on the way exist.
pub proof fn law_depth_below_count(nodes: Seq<Node>, i: int, k: nat)
    requires
        reaches(nodes, i, k),
        way_exists(nodes, i, k),
    ensures
        k < nodes.len(),
{
    let visited = Seq::new(k + 1, |m: int| ancestor(nodes, i, m as nat));
    assert forall|a: int, b: int| 0 <= a < b < visited.len() implies visited[a] != visited[b] by {
        lemma_way_is_distinct(nodes, i, k, a as nat, b as nat);
    }
    assert(visited.no_duplicates());
    visited.unique_seq_to_set();
    let range = vstd::set_lib::set_int_range(0, nodes.len() as int);
    vstd::set_lib::lemma_int_range(0, nodes.len() as int);
    assert forall|x: int| visited.to_set().contains(x) implies range.contains(x) by {
        let m = choose|m: int| 0 <= m < visited.len() && visited[m] == x;
        assert(0 <= ancestor(nodes, i, m as nat) < nodes.len());
    }
    vstd::set_lib::lemma_len_subset(visited.to_set(), range);
}

/// Where every node's parent exists, so does every way.
pub proof fn law_ways_exist(nodes: Seq<Node>, i: int, k: nat)
    requires
        parents_exist(nodes),
        0 <= i < nodes.len(),
    ensures
        way_exists(nodes, i, k),
{
    assert forall|m: nat| m <= k implies 0 <= #[trigger] ancestor(nodes, i, m) < nodes.len() by {
        lemma_ancestor_exists(nodes, i, m);
    }
}

/// Of the members of `set` below `bound`, one that lies deepest.
proof fn lemma_deepest(nodes: Seq<Node>, set: Set<int>, bound: nat) -> (deepest: (int, nat))
    requires
        rooted(nodes),
        bound <= nodes.len(),
        exists|i: int| 0 <= i < bound && set.contains(i),
    ensures
        0 <= deepest.0 < bound,
        set.contains(deepest.0),
        reaches(nodes, deepest.0, deepest.1),
        forall|j: int, m: nat|
            0 <= j < bound && set.contains(j) && #[trigger] reaches(nodes, j, m) ==> m <= deepest.1,
    decreases bound,
{
    let last = bound - 1;
    if set.contains(last) {
        assert(within(nodes, 0, last));
        let k = choose|k: nat| #[trigger] ancestor(nodes, last, k) == 0;
        let depth = lemma_reaches_exists(nodes, last, k);
        assert forall|m: nat| #[trigger] reaches(nodes, last, m) implies m == depth by {
            lemma_reaches_unique(nodes, last, m, depth);
        }
        if exists|i: int| 0 <= i < last && set.contains(i) {
            let other = lemma_deepest(nodes, set, last as nat);
            if other.1 > depth {
                other
            } else {
                (last, depth)
            }
        } else {
            (last, depth)
        }
    } else {
        lemma_deepest(nodes, set, last as nat)
    }
}

/// Where every node that is left has a child that is left, some node does not reach the root.
proof fn lemma_stuck_is_cyclic(nodes: Seq<Node>, done: Set<int>)
    requires
        exists|i: int| 1 <= i < nodes.len() && !done.contains(i),
        forall|i: int|
            1 <= i < nodes.len() && !done.contains(i) ==> exists|j: int| #[trigger]
                pending(nodes, done, i).contains(j),
    ensures
        !rooted(nodes),
{
    if rooted(nodes) {
        let left = Set::new(|i: int| 1 <= i < nodes.len() && !done.contains(i));
        let first = choose|i: int| 1 <= i < nodes.len() && !done.contains(i);
        assert(left.contains(first));
        let (deepest, depth) = lemma_deepest(nodes, left, nodes.len());
        let below = choose|j: int| #[trigger] pending(nodes, done, deepest).contains(j);
        assert(left.contains(below));
        assert(ancestor(nodes, below, depth + 1) == ancestor(nodes, deepest, depth));
        if depth > 0 {
            assert(ancestor(nodes, below, depth) == ancestor(nodes, deepest, (depth - 1) as nat));
        }
        assert(reaches(nodes, below, depth + 1));
    }
}

pub(crate) proof fn lemma_sum_of_one(value: spec_fn(int) -> nat, bound: nat, i: int)
    requires
        0 <= i < bound,
    ensures
        sum_over(Set::empty().insert(i), value, bound) == value(i),
{
    let only = Set::empty().insert(i);
    lemma_sum_remove(only, value, bound, i);
    lemma_sum_of_none(only.remove(i), value, bound);
}

pub(crate) proof fn lemma_sum_of_none(set: Set<int>, value: spec_fn(int) -> nat, bound: nat)
    requires
        forall|i: int| 0 <= i < bound ==> !set.contains(i),
    ensures
        sum_over(set, value, bound) == 0,
    decreases bound,
{
    if bound > 0 {
        lemma_sum_of_none(set, value, (bound - 1) as nat);
    }
}

/// All of `1..count` is in `done` once `count - 1` of it are.
proof fn lemma_all_done(done: Set<int>, count: nat)
    requires
        count > 0,
        forall|j: int| #[trigger] done.contains(j) ==> 1 <= j < count,
        sum_over(done, each_once(), count) == count - 1,
    ensures
        forall|j: int| 1 <= j < count ==> #[trigger] done.contains(j),
{
    let rest = Set::new(|j: int| 0 <= j < count && !done.contains(j));
    let all = done.union(rest);
    lemma_sum_union(done, rest, each_once(), count);
    lemma_count_all(all, count);
    assert(rest.contains(0));
    lemma_sum_remove(rest, each_once(), count, 0);
    assert forall|j: int| 1 <= j < count implies #[trigger] done.contains(j) by {
        lemma_count_zero(rest.remove(0), count, j);
    }
}

pub(crate) proof fn lemma_count_all(set: Set<int>, bound: nat)
    requires
        forall|i: int| 0 <= i < bound ==> set.contains(i),
    ensures
        sum_over(set, each_once(), bound) == bound,
    decreases bound,
{
    if bound > 0 {
        lemma_count_all(set, (bound - 1) as nat);
    }
}

/// Totals of every node taken alone.
fn own_totals(nodes: &[Node]) -> (totals: Vec<Totals>)
    ensures
        totals.len() == nodes.len(),
        forall|i: int|
            0 <= i < nodes.len() ==> accounts_for(
                #[trigger] totals@[i],
                nodes@,
                i,
                Set::empty().insert(i),
            ),
{
    let mut totals: Vec<Totals> = Vec::with_capacity(nodes.len());
    let mut i: usize = 0;
    while i < nodes.len()
        invariant
            i <= nodes.len(),
            totals.len() == i,
            forall|j: int|
                0 <= j < i ==> accounts_for(
                    #[trigger] totals@[j],
                    nodes@,
                    j,
                    Set::empty().insert(j),
                ),
        decreases nodes.len() - i,
    {
        let node = nodes[i];
        let files: u64 = if node.kind == NodeKind::File {
            1
        } else {
            0
        };
        totals.push(
            Totals {
                self_allocated: node.allocated_size,
                recursive_allocated: node.allocated_size,
                recursive_logical: node.logical_size,
                recursive_items: 1,
                recursive_files: files,
                recursive_subdirs: 0,
                latest_mtime: node.mtime,
            },
        );
        proof {
            let count = nodes@.len();
            let only = Set::<int>::empty().insert(i as int);
            lemma_sum_of_one(allocated_at(nodes@), count, i as int);
            lemma_sum_of_one(logical_at(nodes@), count, i as int);
            lemma_sum_of_one(each_once(), count, i as int);
            lemma_sum_of_one(kind_at(nodes@, NodeKind::File), count, i as int);
            lemma_sum_of_none(
                only.remove(i as int),
                kind_at(nodes@, NodeKind::Directory),
                count,
            );
            assert(only.contains(i as int));
        }
        i = i + 1;
    }
    totals
}

/// Number of children of every node, or the first node whose parent does not exist.
fn count_children(nodes: &[Node]) -> (result: Result<Vec<usize>, AggregateError>)
    ensures
        match result {
            Ok(counts) => {
                &&& parents_exist(nodes@)
                &&& counts.len() == nodes.len()
                &&& forall|i: int|
                    0 <= i < nodes.len() ==> #[trigger] counts@[i] == sum_over(
                        pending(nodes@, Set::empty(), i),
                        each_once(),
                        nodes@.len(),
                    )
            },
            Err(error) => first_invalid_parent(nodes@, error),
        },
{
    let mut counts: Vec<usize> = vec![0; nodes.len()];
    let mut index: usize = 1;
    proof {
        assert forall|i: int| 0 <= i < nodes.len() implies #[trigger] counts@[i] == sum_over(
            pending(nodes@, Set::empty(), i),
            each_once(),
            1,
        ) by {
            lemma_sum_of_none(pending(nodes@, Set::empty(), i), each_once(), 1);
        }
    }
    while index < nodes.len()
        invariant
            1 <= index,
            index <= nodes.len() || nodes.len() == 0,
            counts.len() == nodes.len(),
            forall|i: int| 1 <= i < index ==> (#[trigger] nodes@[i]).parent.0 < nodes.len(),
            forall|i: int|
                0 <= i < nodes.len() ==> #[trigger] counts@[i] == sum_over(
                    pending(nodes@, Set::empty(), i),
                    each_once(),
                    index as nat,
                ),
        decreases nodes.len() - index,
    {
        let parent: usize = nodes[index].parent.index();
        if parent >= nodes.len() {
            return Err(
                AggregateError::InvalidParent {
                    node: NodeId(index as u32),
                    parent: nodes[index].parent,
                },
            );
        }
        proof {
            lemma_count_bound(pending(nodes@, Set::empty(), parent as int), index as nat);
        }
        let count: usize = counts[parent];
        counts[parent] = count + 1;
        index = index + 1;
    }
    if nodes.len() == 0 {
        assert(counts@.len() == 0);
    }
    Ok(counts)
}

/// Adds every node's sizes and counts to all of its ancestors.
///
/// The nodes may come in any order. Node zero is the root, whatever parent it names; every other
/// node has to reach it.
pub fn aggregate(nodes: &[Node]) -> (result: Result<Vec<Totals>, AggregateError>)
    ensures
        match result {
            Ok(totals) => {
                &&& parents_exist(nodes@)
                &&& rooted(nodes@)
                &&& totals.len() == nodes.len()
                &&& forall|i: int|
                    0 <= i < nodes.len() ==> accounts_for(
                        #[trigger] totals@[i],
                        nodes@,
                        i,
                        subtree(nodes@, i),
                    )
            },
            Err(AggregateError::ParentCycle) => parents_exist(nodes@) && !rooted(nodes@),
            Err(error) => first_invalid_parent(nodes@, error),
        },
{
    let mut totals = own_totals(nodes);
    let mut counts = match count_children(nodes) {
        Ok(counts) => counts,
        Err(error) => return Err(error),
    };
    if nodes.len() == 0 {
        return Ok(totals);
    }
    let count: usize = nodes.len();
    let mut leaves: Vec<usize> = Vec::new();
    let mut index: usize = 1;
    while index < count
        invariant
            1 <= index <= count,
            counts.len() == count,
            leaves@.no_duplicates(),
            forall|k: int|
                0 <= k < leaves.len() ==> 1 <= #[trigger] leaves@[k] < index
                    && counts@[leaves@[k] as int] == 0,
            forall|i: usize| 1 <= i < index && counts@[i as int] == 0 ==> #[trigger]
                leaves@.contains(i),
        decreases count - index,
    {
        if counts[index] == 0 {
            let ghost before = leaves@;
            leaves.push(index);
            proof {
                lemma_push_contains(before, index);
            }
        }
        index = index + 1;
    }
    let mut processed: usize = 0;
    let ghost mut done: Set<int> = Set::empty();
    let ghost mut heir: Seq<int> = Seq::new(nodes@.len(), |j: int| j);
    let ghost mut climb: Seq<nat> = Seq::new(nodes@.len(), |j: int| 0nat);
    proof {
        lemma_sum_of_none(done, each_once(), nodes@.len());
        assert forall|i: int| 0 <= i < nodes.len() implies estate(heir, i) == Set::empty().insert(
            i,
        ) by {
            assert(estate(heir, i) =~= Set::empty().insert(i));
        }
        assert(peeled(nodes@, done, heir, climb));
    }
    while leaves.len() > 0
        invariant
            count == nodes.len(),
            count > 0,
            parents_exist(nodes@),
            peeled(nodes@, done, heir, climb),
            counts.len() == count,
            totals.len() == count,
            processed == sum_over(done, each_once(), nodes@.len()),
            forall|i: int|
                0 <= i < count ==> #[trigger] counts@[i] == sum_over(
                    pending(nodes@, done, i),
                    each_once(),
                    nodes@.len(),
                ),
            forall|i: int|
                0 <= i < count ==> accounts_for(
                    #[trigger] totals@[i],
                    nodes@,
                    i,
                    if done.contains(i) {
                        subtree(nodes@, i)
                    } else {
                        estate(heir, i)
                    },
                ),
            forall|i: int|
                0 <= i < count && !done.contains(i) ==> #[trigger] estate(heir, i).contains(i),
            leaves@.no_duplicates(),
            forall|k: int|
                0 <= k < leaves.len() ==> 1 <= #[trigger] leaves@[k] < count && !done.contains(
                    leaves@[k] as int,
                ) && counts@[leaves@[k] as int] == 0,
            forall|i: usize|
                1 <= i < count && !done.contains(i as int) && counts@[i as int] == 0 ==> #[trigger]
                    leaves@.contains(i),
        decreases count - processed,
    {
        let ghost stack = leaves@;
        let child: usize = match leaves.pop() {
            Some(child) => child,
            None => 0,
        };
        let parent: usize = nodes[child].parent.index();
        let ghost before = done;
        let ghost earlier = heir;
        proof {
            assert(stack[stack.len() - 1] == child);
            assert forall|j: int| !#[trigger] pending(nodes@, done, child as int).contains(j) by {
                if pending(nodes@, done, child as int).contains(j) {
                    lemma_count_zero(pending(nodes@, done, child as int), nodes@.len(), j);
                }
            }
            lemma_estate_is_subtree(nodes@, done, heir, climb, child as int);
            let next = lemma_peel(nodes@, done, heir, climb, child as int);
            lemma_fold_accounts(
                nodes@,
                parent as int,
                child as int,
                estate(heir, parent as int),
                estate(heir, child as int),
                totals@[parent as int],
                totals@[child as int],
            );
            lemma_sum_remove(done.insert(child as int), each_once(), nodes@.len(), child as int);
            assert(done.insert(child as int).remove(child as int) =~= done);
            lemma_count_bound(done.insert(child as int), nodes@.len());
            lemma_pending_shrinks(nodes@, done, child as int);
            done = done.insert(child as int);
            heir = next.0;
            climb = next.1;
        }
        processed = processed + 1;
        let folded = fold(totals[parent], totals[child], nodes[child].kind);
        totals[parent] = folded;
        let left: usize = counts[parent] - 1;
        counts[parent] = left;
        let ghost shorter = leaves@;
        if parent != NodeId::root().index() && left == 0 {
            leaves.push(parent);
            proof {
                lemma_push_contains(shorter, parent);
            }
        }
        proof {
            assert forall|i: usize|
                1 <= i < count && !done.contains(i as int) && counts@[i as int]
                    == 0 implies #[trigger] leaves@.contains(i) by {
                if i != parent {
                    assert(stack.contains(i));
                    let k = choose|k: int| 0 <= k < stack.len() && stack[k] == i;
                    assert(shorter[k] == i);
                    assert(shorter.contains(i));
                }
            }
            assert forall|i: int| 0 <= i < count && !done.contains(i) implies #[trigger] estate(
                heir,
                i,
            ).contains(i) by {
                assert(estate(earlier, i).contains(i));
            }
        }
    }
    proof {
        if processed == count - 1 {
            lemma_all_done(done, nodes@.len());
            assert forall|j: int| 0 <= j < count implies #[trigger] within(nodes@, 0, j) by {
                assert(ancestor(nodes@, j, climb[j]) == heir[j]);
                assert(heir[j] == 0);
            }
            assert(estate(heir, 0) =~= subtree(nodes@, 0)) by {
                assert forall|j: int| 0 <= j < count implies heir[j] == 0 by {
                    assert(!done.contains(heir[j]));
                }
            }
        } else {
            if forall|i: int| 1 <= i < count ==> done.contains(i) {
                let all = done.insert(0);
                lemma_count_all(all, nodes@.len());
                lemma_sum_remove(all, each_once(), nodes@.len(), 0);
                assert(all.remove(0) =~= done);
            }
            assert forall|i: int| 1 <= i < count && !done.contains(i) implies exists|j: int|
                #[trigger] pending(nodes@, done, i).contains(j) by {
                assert(!leaves@.contains(i as usize));
                let j = lemma_count_positive(pending(nodes@, done, i), nodes@.len());
                assert(pending(nodes@, done, i).contains(j));
            }
            lemma_stuck_is_cyclic(nodes@, done);
        }
    }
    if processed != count - 1 {
        return Err(AggregateError::ParentCycle);
    }
    Ok(totals)
}

proof fn lemma_push_contains(list: Seq<usize>, last: usize)
    ensures
        list.push(last).contains(last),
        forall|x: usize| list.contains(x) ==> #[trigger] list.push(last).contains(x),
{
    let longer = list.push(last);
    assert(longer[list.len() as int] == last);
    assert forall|x: usize| list.contains(x) implies #[trigger] longer.contains(x) by {
        let k = choose|k: int| 0 <= k < list.len() && list[k] == x;
        assert(longer[k] == x);
    }
}

/// Handing over a child takes it, and nothing else, off its parent's pending children.
proof fn lemma_pending_shrinks(nodes: Seq<Node>, done: Set<int>, child: int)
    requires
        1 <= child < nodes.len(),
        !done.contains(child),
    ensures
        sum_over(
            pending(nodes, done, parent_of(nodes, child)),
            each_once(),
            nodes.len(),
        ) == sum_over(
            pending(nodes, done.insert(child), parent_of(nodes, child)),
            each_once(),
            nodes.len(),
        ) + 1,
        forall|i: int|
            i != parent_of(nodes, child) ==> #[trigger] pending(nodes, done.insert(child), i)
                == pending(nodes, done, i),
{
    let parent = parent_of(nodes, child);
    let before = pending(nodes, done, parent);
    assert(before.contains(child));
    lemma_sum_remove(before, each_once(), nodes.len(), child);
    assert(before.remove(child) =~= pending(nodes, done.insert(child), parent));
    assert forall|i: int| i != parent implies #[trigger] pending(nodes, done.insert(child), i)
        == pending(nodes, done, i) by {
        assert(pending(nodes, done.insert(child), i) =~= pending(nodes, done, i));
    }
}

/// Nodes that all stand behind their parents form a tree.
pub proof fn law_ordered_nodes_are_rooted(nodes: Seq<Node>)
    requires
        forall|i: int| 1 <= i < nodes.len() ==> (#[trigger] nodes[i]).parent.0 < i,
    ensures
        parents_exist(nodes),
        rooted(nodes),
{
    assert forall|i: int| 0 <= i < nodes.len() implies #[trigger] within(nodes, 0, i) by {
        lemma_ordered_reaches_root(nodes, i);
    }
}

proof fn lemma_ordered_reaches_root(nodes: Seq<Node>, i: int)
    requires
        forall|i: int| 1 <= i < nodes.len() ==> (#[trigger] nodes[i]).parent.0 < i,
        0 <= i < nodes.len(),
    ensures
        within(nodes, 0, i),
    decreases i,
{
    if i == 0 {
        assert(ancestor(nodes, 0, 0) == 0);
    } else {
        let up = parent_of(nodes, i);
        assert(nodes[i].parent.0 < i);
        lemma_ordered_reaches_root(nodes, up);
        let k = choose|k: nat| #[trigger] ancestor(nodes, up, k) == 0;
        assert(ancestor(nodes, i, k + 1) == 0);
    }
}

/// The subtree of the root of a tree is the whole tree.
pub proof fn law_root_holds_everything(nodes: Seq<Node>, i: int)
    requires
        rooted(nodes),
        0 <= i < nodes.len(),
    ensures
        subtree(nodes, 0).contains(i),
{
    assert(within(nodes, 0, i));
}

/// Two nodes differ in nothing that totals are made of.
pub open spec fn measures_alike(node: Node, other: Node) -> bool {
    &&& node.kind == other.kind
    &&& node.logical_size == other.logical_size
    &&& node.allocated_size == other.allocated_size
    &&& node.mtime == other.mtime
}

/// `places` puts every node at a place of its own and leaves the root where it is.
pub open spec fn reordering(places: Seq<int>) -> bool {
    &&& places.no_duplicates()
    &&& forall|i: int| 0 <= i < places.len() ==> 0 <= #[trigger] places[i] < places.len()
    &&& places.len() > 0 ==> places[0] == 0
}

/// `others` holds the nodes at `places`, and their parents are renumbered with them.
pub open spec fn renumbered(nodes: Seq<Node>, places: Seq<int>, others: Seq<Node>) -> bool {
    &&& others.len() == nodes.len()
    &&& places.len() == nodes.len()
    &&& reordering(places)
    &&& forall|i: int|
        0 <= i < nodes.len() ==> measures_alike(nodes[i], others[#[trigger] places[i]])
    &&& forall|i: int|
        1 <= i < nodes.len() ==> others[#[trigger] places[i]].parent.0
            == places[nodes[i].parent.0 as int]
}

/// Every place is taken.
proof fn lemma_every_place_is_taken(places: Seq<int>, q: int) -> (i: int)
    requires
        reordering(places),
        0 <= q < places.len(),
    ensures
        0 <= i < places.len(),
        places[i] == q,
{
    let count = places.len() as int;
    let range = vstd::set_lib::set_int_range(0, count);
    vstd::set_lib::lemma_int_range(0, count);
    places.unique_seq_to_set();
    assert forall|x: int| places.to_set().contains(x) implies range.contains(x) by {
        let k = choose|k: int| 0 <= k < places.len() && places[k] == x;
        assert(0 <= places[k] < places.len());
    }
    vstd::set_lib::lemma_subset_equality(places.to_set(), range);
    assert(places.to_set().contains(q));
    choose|k: int| 0 <= k < places.len() && places[k] == q
}

/// The places of the members of `set` among the first `count`.
spec fn moved_members(set: Set<int>, places: Seq<int>, count: int) -> Set<int> {
    Set::new(|q: int| exists|i: int| 0 <= i < count && set.contains(i) && #[trigger] places[i] == q)
}

proof fn lemma_sum_of_moved(
    set: Set<int>,
    value: spec_fn(int) -> nat,
    places: Seq<int>,
    other_value: spec_fn(int) -> nat,
    count: nat,
)
    requires
        reordering(places),
        count <= places.len(),
        forall|i: int|
            0 <= i < places.len() && set.contains(i) ==> value(i) == other_value(
                #[trigger] places[i],
            ),
    ensures
        sum_over(moved_members(set, places, count as int), other_value, places.len()) == sum_over(
            set,
            value,
            count,
        ),
    decreases count,
{
    let all = moved_members(set, places, count as int);
    if count == 0 {
        lemma_sum_of_none(all, other_value, places.len());
    } else {
        let last = count - 1;
        let fewer = moved_members(set, places, last);
        lemma_sum_of_moved(set, value, places, other_value, last as nat);
        let q = places[last];
        if set.contains(last) {
            assert(all.contains(q));
            lemma_sum_remove(all, other_value, places.len(), q);
            assert forall|x: int| all.remove(q).contains(x) == fewer.contains(x) by {
                if fewer.contains(x) {
                    let i = choose|i: int|
                        0 <= i < last && set.contains(i) && #[trigger] places[i] == x;
                    assert(places[i] != places[last]);
                }
            }
            assert(all.remove(q) =~= fewer);
        } else {
            assert(all =~= fewer);
        }
    }
}

/// A sum over places is the sum over what stands there.
proof fn lemma_sum_moves(
    set: Set<int>,
    value: spec_fn(int) -> nat,
    places: Seq<int>,
    other: Set<int>,
    other_value: spec_fn(int) -> nat,
)
    requires
        reordering(places),
        forall|i: int|
            0 <= i < places.len() ==> set.contains(i) == other.contains(#[trigger] places[i]),
        forall|i: int|
            0 <= i < places.len() && set.contains(i) ==> value(i) == other_value(
                #[trigger] places[i],
            ),
    ensures
        sum_over(other, other_value, places.len()) == sum_over(set, value, places.len()),
{
    let all = moved_members(set, places, places.len() as int);
    lemma_sum_of_moved(set, value, places, other_value, places.len());
    assert forall|q: int| 0 <= q < places.len() implies all.contains(q) == other.contains(q) by {
        let i = lemma_every_place_is_taken(places, q);
        assert(set.contains(i) == other.contains(places[i]));
    }
    lemma_sum_agrees(all, other, other_value, places.len());
}

proof fn lemma_ancestor_moves(
    nodes: Seq<Node>,
    places: Seq<int>,
    others: Seq<Node>,
    i: int,
    k: nat,
)
    requires
        parents_exist(nodes),
        renumbered(nodes, places, others),
        0 <= i < nodes.len(),
    ensures
        ancestor(others, places[i], k) == places[ancestor(nodes, i, k)],
    decreases k,
{
    if k > 0 && i != 0 {
        assert(nodes[i].parent.0 < nodes.len());
        assert(places[i] != places[0]);
        assert(parent_of(others, places[i]) == places[parent_of(nodes, i)]);
        lemma_ancestor_moves(nodes, places, others, parent_of(nodes, i), (k - 1) as nat);
    }
}

proof fn lemma_within_moves(
    nodes: Seq<Node>,
    places: Seq<int>,
    others: Seq<Node>,
    top: int,
    i: int,
)
    requires
        parents_exist(nodes),
        renumbered(nodes, places, others),
        0 <= top < nodes.len(),
        0 <= i < nodes.len(),
    ensures
        within(others, places[top], places[i]) == within(nodes, top, i),
{
    if within(nodes, top, i) {
        let k = choose|k: nat| #[trigger] ancestor(nodes, i, k) == top;
        lemma_ancestor_moves(nodes, places, others, i, k);
    }
    if within(others, places[top], places[i]) {
        let k = choose|k: nat| #[trigger] ancestor(others, places[i], k) == places[top];
        lemma_ancestor_moves(nodes, places, others, i, k);
        lemma_ancestor_exists(nodes, i, k);
        let up = ancestor(nodes, i, k);
        assert(places[up] == places[top]);
        assert(up == top);
    }
}

/// Renumbering the nodes of a list changes nothing of whether they form a tree: children may stand
/// in front of their parents.
pub proof fn law_renumbering_keeps_trees(nodes: Seq<Node>, places: Seq<int>, others: Seq<Node>)
    requires
        parents_exist(nodes),
        renumbered(nodes, places, others),
    ensures
        parents_exist(others),
        rooted(others) == rooted(nodes),
{
    assert forall|q: int| 1 <= q < others.len() implies (#[trigger] others[q]).parent.0
        < others.len() by {
        let i = lemma_every_place_is_taken(places, q);
        assert(nodes[i].parent.0 < nodes.len());
        assert(0 <= places[nodes[i].parent.0 as int] < places.len());
    }
    if rooted(nodes) {
        assert forall|q: int| 0 <= q < others.len() implies #[trigger] within(others, 0, q) by {
            let i = lemma_every_place_is_taken(places, q);
            assert(within(nodes, 0, i));
            lemma_within_moves(nodes, places, others, 0, i);
        }
    }
    if rooted(others) {
        assert forall|i: int| 0 <= i < nodes.len() implies #[trigger] within(nodes, 0, i) by {
            assert(0 <= places[i] < others.len());
            assert(within(others, 0, places[i]));
            lemma_within_moves(nodes, places, others, 0, i);
        }
    }
}

/// What accounts for the same members is the same.
proof fn lemma_one_account(
    one: Totals,
    other: Totals,
    nodes: Seq<Node>,
    owner: int,
    members: Set<int>,
)
    requires
        accounts_for(one, nodes, owner, members),
        accounts_for(other, nodes, owner, members),
    ensures
        one == other,
{
    let a = choose|i: int| #[trigger] members.contains(i) && nodes[i].mtime == one.latest_mtime;
    let b = choose|i: int| #[trigger] members.contains(i) && nodes[i].mtime == other.latest_mtime;
    assert(nodes[a].mtime <= other.latest_mtime);
    assert(nodes[b].mtime <= one.latest_mtime);
}

proof fn lemma_account_moves(
    totals: Totals,
    nodes: Seq<Node>,
    places: Seq<int>,
    others: Seq<Node>,
    top: int,
)
    requires
        parents_exist(nodes),
        renumbered(nodes, places, others),
        0 <= top < nodes.len(),
        accounts_for(totals, nodes, top, subtree(nodes, top)),
    ensures
        accounts_for(totals, others, places[top], subtree(others, places[top])),
{
    let set = subtree(nodes, top);
    let other = subtree(others, places[top]);
    assert forall|i: int| 0 <= i < places.len() implies set.contains(i) == other.contains(
        #[trigger] places[i],
    ) by {
        assert(0 <= places[i] < places.len());
        lemma_within_moves(nodes, places, others, top, i);
    }
    assert(measures_alike(nodes[top], others[places[top]]));
    lemma_sum_moves(set, allocated_at(nodes), places, other, allocated_at(others));
    lemma_sum_moves(set, logical_at(nodes), places, other, logical_at(others));
    lemma_sum_moves(set, each_once(), places, other, each_once());
    lemma_sum_moves(
        set,
        kind_at(nodes, NodeKind::File),
        places,
        other,
        kind_at(others, NodeKind::File),
    );
    let below = set.remove(top);
    let other_below = other.remove(places[top]);
    assert forall|i: int| 0 <= i < places.len() implies below.contains(i)
        == other_below.contains(#[trigger] places[i]) by {
        assert(set.contains(i) == other.contains(places[i]));
        assert(i != top ==> places[i] != places[top]);
    }
    lemma_sum_moves(
        below,
        kind_at(nodes, NodeKind::Directory),
        places,
        other_below,
        kind_at(others, NodeKind::Directory),
    );
    let a = choose|i: int| #[trigger] set.contains(i) && nodes[i].mtime == totals.latest_mtime;
    assert(other.contains(places[a]));
    assert forall|q: int| #[trigger] other.contains(q) implies others[q].mtime
        <= totals.latest_mtime by {
        let i = lemma_every_place_is_taken(places, q);
        assert(set.contains(i) == other.contains(places[i]));
        assert(measures_alike(nodes[i], others[places[i]]));
    }
}

/// Renumbering the nodes renumbers their totals and changes nothing else of them.
pub proof fn law_renumbering_moves_totals(
    nodes: Seq<Node>,
    totals: Seq<Totals>,
    places: Seq<int>,
    others: Seq<Node>,
    other_totals: Seq<Totals>,
    i: int,
)
    requires
        parents_exist(nodes),
        renumbered(nodes, places, others),
        0 <= i < nodes.len(),
        accounts_for(totals[i], nodes, i, subtree(nodes, i)),
        accounts_for(
            other_totals[places[i]],
            others,
            places[i],
            subtree(others, places[i]),
        ),
    ensures
        other_totals[places[i]] == totals[i],
{
    lemma_account_moves(totals[i], nodes, places, others, i);
    lemma_one_account(
        totals[i],
        other_totals[places[i]],
        others,
        places[i],
        subtree(others, places[i]),
    );
}

/// Node `c` is a child of `top`.
pub open spec fn child_of(nodes: Seq<Node>, top: int, c: int) -> bool {
    1 <= c < nodes.len() && nodes[c].parent.0 == top
}

/// The children of `top`.
pub open spec fn children(nodes: Seq<Node>, top: int) -> Set<int> {
    Set::new(|c: int| child_of(nodes, top, c))
}

/// A node below `top` lies in the subtree of one of its children.
proof fn lemma_below_a_child(nodes: Seq<Node>, top: int, i: int, k: nat) -> (c: int)
    requires
        parents_exist(nodes),
        0 <= i < nodes.len(),
        i != top,
        ancestor(nodes, i, k) == top,
    ensures
        child_of(nodes, top, c),
        within(nodes, c, i),
    decreases k,
{
    let up = parent_of(nodes, i);
    assert(i != 0) by {
        if i == 0 {
            lemma_ancestor_of_root(nodes, k);
        }
    }
    assert(nodes[i].parent.0 < nodes.len());
    if up == top {
        assert(ancestor(nodes, i, 0) == i);
        i
    } else {
        let c = lemma_below_a_child(nodes, top, up, (k - 1) as nat);
        let m = choose|m: nat| #[trigger] ancestor(nodes, up, m) == c;
        assert(ancestor(nodes, i, m + 1) == c);
        c
    }
}

/// No node lies below itself.
proof fn lemma_not_below_itself(nodes: Seq<Node>, top: int, m: nat)
    requires
        rooted(nodes),
        0 < top < nodes.len(),
        m > 0,
    ensures
        ancestor(nodes, top, m) != top,
{
    assert(within(nodes, 0, top));
    let far = choose|k: nat| #[trigger] ancestor(nodes, top, k) == 0;
    let depth = lemma_reaches_exists(nodes, top, far);
    if m <= depth {
        lemma_way_is_distinct(nodes, top, depth, 0, m);
    } else {
        lemma_ancestor_add(nodes, top, depth, (m - depth) as nat);
        lemma_ancestor_of_root(nodes, (m - depth) as nat);
    }
}

/// A node does not lie below its child.
pub(crate) proof fn lemma_parent_is_above(nodes: Seq<Node>, top: int, c: int)
    requires
        rooted(nodes),
        0 <= top < nodes.len(),
        child_of(nodes, top, c),
    ensures
        !within(nodes, c, top),
{
    if within(nodes, c, top) {
        let k = choose|k: nat| #[trigger] ancestor(nodes, top, k) == c;
        if top == 0 {
            lemma_ancestor_of_root(nodes, k);
        } else {
            lemma_ancestor_add(nodes, top, k, 1);
            assert(ancestor(nodes, c, 1) == ancestor(nodes, parent_of(nodes, c), 0));
            lemma_not_below_itself(nodes, top, k + 1);
        }
    }
}

/// The subtrees of two children have nothing in common.
pub(crate) proof fn lemma_children_are_apart(nodes: Seq<Node>, top: int, a: int, b: int, i: int)
    requires
        parents_exist(nodes),
        rooted(nodes),
        0 <= top < nodes.len(),
        child_of(nodes, top, a),
        child_of(nodes, top, b),
        within(nodes, a, i),
        within(nodes, b, i),
    ensures
        a == b,
{
    let x = choose|k: nat| #[trigger] ancestor(nodes, i, k) == a;
    let y = choose|k: nat| #[trigger] ancestor(nodes, i, k) == b;
    if x < y {
        lemma_above_sibling(nodes, top, a, b, (y - x) as nat, i, x);
    } else if y < x {
        lemma_above_sibling(nodes, top, b, a, (x - y) as nat, i, y);
    }
}

proof fn lemma_above_sibling(nodes: Seq<Node>, top: int, a: int, b: int, m: nat, i: int, x: nat)
    requires
        rooted(nodes),
        0 <= top < nodes.len(),
        child_of(nodes, top, a),
        child_of(nodes, top, b),
        m > 0,
        ancestor(nodes, i, x) == a,
    ensures
        ancestor(nodes, i, x + m) != b,
{
    lemma_ancestor_add(nodes, i, x, m);
    assert(ancestor(nodes, a, m) == ancestor(nodes, top, (m - 1) as nat));
    lemma_parent_is_above(nodes, top, b);
}

/// The subtrees of those children of `top` that stand before `count`, and `top` itself.
spec fn partial_subtree(nodes: Seq<Node>, top: int, count: int) -> Set<int> {
    Set::new(
        |i: int|
            0 <= i < nodes.len() && (i == top || exists|c: int|
                0 <= c < count && #[trigger] child_of(nodes, top, c) && within(nodes, c, i)),
    )
}

/// What a value comes to in the subtree of a node.
pub open spec fn subtree_sum(nodes: Seq<Node>, value: spec_fn(int) -> nat) -> spec_fn(int) -> nat {
    |i: int| sum_over(subtree(nodes, i), value, nodes.len())
}

proof fn lemma_partial_sum(nodes: Seq<Node>, top: int, value: spec_fn(int) -> nat, count: nat)
    requires
        parents_exist(nodes),
        rooted(nodes),
        0 <= top < nodes.len(),
        count <= nodes.len(),
    ensures
        sum_over(partial_subtree(nodes, top, count as int), value, nodes.len()) == value(top)
            + sum_over(children(nodes, top), subtree_sum(nodes, value), count),
    decreases count,
{
    let now = partial_subtree(nodes, top, count as int);
    if count == 0 {
        assert(now =~= Set::empty().insert(top));
        lemma_sum_of_one(value, nodes.len(), top);
    } else {
        let last = count - 1;
        let before = partial_subtree(nodes, top, last);
        lemma_partial_sum(nodes, top, value, last as nat);
        if child_of(nodes, top, last) {
            let below = subtree(nodes, last);
            assert(now =~= before.union(below)) by {
                assert forall|i: int| now.contains(i) == before.union(below).contains(i) by {
                    if now.contains(i) && i != top && !before.contains(i) {
                        let c = choose|c: int|
                            0 <= c < count && #[trigger] child_of(nodes, top, c) && within(
                                nodes,
                                c,
                                i,
                            );
                        assert(c == last);
                    }
                }
            }
            assert(before.disjoint(below)) by {
                assert forall|i: int| before.contains(i) implies !below.contains(i) by {
                    if below.contains(i) {
                        if i == top {
                            lemma_parent_is_above(nodes, top, last);
                        } else {
                            let c = choose|c: int|
                                0 <= c < last && #[trigger] child_of(nodes, top, c) && within(
                                    nodes,
                                    c,
                                    i,
                                );
                            lemma_children_are_apart(nodes, top, c, last, i);
                        }
                    }
                }
            }
            lemma_sum_union(before, below, value, nodes.len());
        } else {
            assert(now =~= before) by {
                assert forall|i: int| now.contains(i) == before.contains(i) by {
                    if now.contains(i) && i != top {
                        let c = choose|c: int|
                            0 <= c < count && #[trigger] child_of(nodes, top, c) && within(
                                nodes,
                                c,
                                i,
                            );
                        assert(c != last);
                    }
                }
            }
        }
    }
}

proof fn lemma_subtree_sum(nodes: Seq<Node>, top: int, value: spec_fn(int) -> nat)
    requires
        parents_exist(nodes),
        rooted(nodes),
        0 <= top < nodes.len(),
    ensures
        sum_over(subtree(nodes, top), value, nodes.len()) == value(top) + sum_over(
            children(nodes, top),
            subtree_sum(nodes, value),
            nodes.len(),
        ),
{
    let whole = partial_subtree(nodes, top, nodes.len() as int);
    assert(whole =~= subtree(nodes, top)) by {
        assert forall|i: int| whole.contains(i) == subtree(nodes, top).contains(i) by {
            if subtree(nodes, top).contains(i) && i != top {
                let k = choose|k: nat| #[trigger] ancestor(nodes, i, k) == top;
                let c = lemma_below_a_child(nodes, top, i, k);
                assert(child_of(nodes, top, c) && within(nodes, c, i));
            }
            if whole.contains(i) {
                if i == top {
                    assert(ancestor(nodes, top, 0) == top);
                } else {
                    let c = choose|c: int|
                        0 <= c < nodes.len() && #[trigger] child_of(nodes, top, c) && within(
                            nodes,
                            c,
                            i,
                        );
                    let k = choose|k: nat| #[trigger] ancestor(nodes, i, k) == c;
                    lemma_ancestor_add(nodes, i, k, 1);
                    assert(ancestor(nodes, c, 1) == ancestor(nodes, top, 0));
                    assert(ancestor(nodes, i, k + 1) == top);
                }
            }
        }
    }
    lemma_partial_sum(nodes, top, value, nodes.len());
}

/// A total of the node at a position.
pub open spec fn allocated_total_at(totals: Seq<Totals>) -> spec_fn(int) -> nat {
    |i: int| totals[i].recursive_allocated as nat
}

/// A total of the node at a position.
pub open spec fn logical_total_at(totals: Seq<Totals>) -> spec_fn(int) -> nat {
    |i: int| totals[i].recursive_logical as nat
}

/// A total of the node at a position.
pub open spec fn item_total_at(totals: Seq<Totals>) -> spec_fn(int) -> nat {
    |i: int| totals[i].recursive_items as nat
}

/// A total of the node at a position.
pub open spec fn file_total_at(totals: Seq<Totals>) -> spec_fn(int) -> nat {
    |i: int| totals[i].recursive_files as nat
}

/// Capped sums of capped values are the capped sums of the values.
proof fn lemma_capped_sum(
    set: Set<int>,
    value: spec_fn(int) -> nat,
    capped_value: spec_fn(int) -> nat,
    bound: nat,
)
    requires
        forall|i: int| 0 <= i < bound && set.contains(i) ==> capped_value(i) == capped(value(i)),
    ensures
        capped(sum_over(set, value, bound)) == capped(sum_over(set, capped_value, bound)),
    decreases bound,
{
    if bound > 0 {
        lemma_capped_sum(set, value, capped_value, (bound - 1) as nat);
    }
}

proof fn lemma_total_adds_up(
    nodes: Seq<Node>,
    top: int,
    value: spec_fn(int) -> nat,
    total: spec_fn(int) -> nat,
)
    requires
        parents_exist(nodes),
        rooted(nodes),
        0 <= top < nodes.len(),
        forall|i: int|
            0 <= i < nodes.len() ==> total(i) == capped(
                sum_over(subtree(nodes, i), value, nodes.len()),
            ),
    ensures
        total(top) == capped(value(top) + sum_over(children(nodes, top), total, nodes.len())),
{
    lemma_subtree_sum(nodes, top, value);
    lemma_capped_sum(children(nodes, top), subtree_sum(nodes, value), total, nodes.len());
}

/// Totals add up: what a node's subtree takes, holds and counts is what the node itself has and what
/// the totals of its children say, up to the largest value. A node without children has its own
/// sizes for totals.
pub proof fn law_totals_add_up(nodes: Seq<Node>, totals: Seq<Totals>, top: int)
    requires
        parents_exist(nodes),
        rooted(nodes),
        totals.len() == nodes.len(),
        forall|i: int|
            0 <= i < nodes.len() ==> accounts_for(
                #[trigger] totals[i],
                nodes,
                i,
                subtree(nodes, i),
            ),
        0 <= top < nodes.len(),
    ensures
        totals[top].self_allocated == nodes[top].allocated_size,
        totals[top].recursive_allocated == capped(
            nodes[top].allocated_size as nat + sum_over(
                children(nodes, top),
                allocated_total_at(totals),
                nodes.len(),
            ),
        ),
        totals[top].recursive_logical == capped(
            nodes[top].logical_size as nat + sum_over(
                children(nodes, top),
                logical_total_at(totals),
                nodes.len(),
            ),
        ),
        totals[top].recursive_items == capped(
            1 + sum_over(children(nodes, top), item_total_at(totals), nodes.len()),
        ),
        totals[top].recursive_files == capped(
            (if nodes[top].kind == NodeKind::File {
                1nat
            } else {
                0nat
            }) + sum_over(children(nodes, top), file_total_at(totals), nodes.len()),
        ),
{
    assert forall|i: int| 0 <= i < nodes.len() implies accounts_for(
        #[trigger] totals[i],
        nodes,
        i,
        subtree(nodes, i),
    ) by {}
    assert forall|i: int| 0 <= i < nodes.len() implies allocated_total_at(totals)(i) == capped(
        sum_over(subtree(nodes, i), allocated_at(nodes), nodes.len()),
    ) && logical_total_at(totals)(i) == capped(
        sum_over(subtree(nodes, i), logical_at(nodes), nodes.len()),
    ) && item_total_at(totals)(i) == capped(
        sum_over(subtree(nodes, i), each_once(), nodes.len()),
    ) && file_total_at(totals)(i) == capped(
        sum_over(subtree(nodes, i), kind_at(nodes, NodeKind::File), nodes.len()),
    ) by {
        assert(accounts_for(totals[i], nodes, i, subtree(nodes, i)));
    }
    lemma_total_adds_up(nodes, top, allocated_at(nodes), allocated_total_at(totals));
    lemma_total_adds_up(nodes, top, logical_at(nodes), logical_total_at(totals));
    lemma_total_adds_up(nodes, top, each_once(), item_total_at(totals));
    lemma_total_adds_up(nodes, top, kind_at(nodes, NodeKind::File), file_total_at(totals));
}

/// The directories below a node are its child directories and those below its children.
pub open spec fn folder_total_at(nodes: Seq<Node>, totals: Seq<Totals>) -> spec_fn(int) -> nat {
    |i: int|
        totals[i].recursive_subdirs as nat + if nodes[i].kind == NodeKind::Directory {
            1nat
        } else {
            0nat
        }
}

proof fn lemma_capped_folders(
    set: Set<int>,
    value: spec_fn(int) -> nat,
    nodes: Seq<Node>,
    totals: Seq<Totals>,
    bound: nat,
)
    requires
        forall|i: int|
            0 <= i < bound && #[trigger] set.contains(i) ==> capped(value(i)) == capped(
                folder_total_at(nodes, totals)(i),
            ),
    ensures
        capped(sum_over(set, value, bound)) == capped(
            sum_over(set, folder_total_at(nodes, totals), bound),
        ),
    decreases bound,
{
    if bound > 0 {
        lemma_capped_folders(set, value, nodes, totals, (bound - 1) as nat);
    }
}

/// Below a node lie the directories among its children and those below them; the node itself does
/// not count.
pub proof fn law_subdirectories_add_up(nodes: Seq<Node>, totals: Seq<Totals>, top: int)
    requires
        parents_exist(nodes),
        rooted(nodes),
        totals.len() == nodes.len(),
        forall|i: int|
            0 <= i < nodes.len() ==> accounts_for(
                #[trigger] totals[i],
                nodes,
                i,
                subtree(nodes, i),
            ),
        0 <= top < nodes.len(),
    ensures
        totals[top].recursive_subdirs == capped(
            sum_over(children(nodes, top), folder_total_at(nodes, totals), nodes.len()),
        ),
{
    let value = kind_at(nodes, NodeKind::Directory);
    assert forall|i: int| 0 <= i < nodes.len() implies sum_over(
        subtree(nodes, i),
        value,
        nodes.len(),
    ) == sum_over(subtree(nodes, i).remove(i), value, nodes.len()) + value(i) by {
        assert(ancestor(nodes, i, 0) == i);
        assert(subtree(nodes, i).contains(i));
        lemma_sum_remove(subtree(nodes, i), value, nodes.len(), i);
    }
    assert forall|i: int|
        0 <= i < nodes.len() && #[trigger] children(nodes, top).contains(i) implies capped(
        subtree_sum(nodes, value)(i),
    ) == capped(folder_total_at(nodes, totals)(i)) by {
        assert(accounts_for(totals[i], nodes, i, subtree(nodes, i)));
    }
    lemma_subtree_sum(nodes, top, value);
    lemma_capped_folders(
        children(nodes, top),
        subtree_sum(nodes, value),
        nodes,
        totals,
        nodes.len(),
    );
    assert(accounts_for(totals[top], nodes, top, subtree(nodes, top)));
}

/// The newest time of a subtree is at least that of every node in it, and is that of one of them.
pub proof fn law_newest_time_is_kept(nodes: Seq<Node>, totals: Totals, top: int, i: int)
    requires
        accounts_for(totals, nodes, top, subtree(nodes, top)),
        0 <= i < nodes.len(),
        within(nodes, top, i),
    ensures
        totals.latest_mtime >= nodes[i].mtime,
        exists|j: int|
            0 <= j < nodes.len() && within(nodes, top, j) && (#[trigger] nodes[j]).mtime
                == totals.latest_mtime,
{
    assert(subtree(nodes, top).contains(i));
    let j = choose|j: int|
        #[trigger] subtree(nodes, top).contains(j) && nodes[j].mtime == totals.latest_mtime;
    assert(nodes[j].mtime == totals.latest_mtime);
}

/// A node is within another exactly if it is the other, or its parent is within the other.
pub proof fn law_within_goes_by_parents(nodes: Seq<Node>, top: int, i: int)
    requires
        0 < i,
    ensures
        within(nodes, top, i) <==> i == top || within(nodes, top, nodes[i].parent.0 as int),
        within(nodes, top, 0) <==> top == 0,
{
    if within(nodes, top, i) && i != top {
        let k = choose|k: nat| #[trigger] ancestor(nodes, i, k) == top;
        assert(ancestor(nodes, parent_of(nodes, i), (k - 1) as nat) == top);
    }
    if i == top {
        assert(ancestor(nodes, i, 0) == top);
    }
    if within(nodes, top, parent_of(nodes, i)) {
        let k = choose|k: nat| #[trigger] ancestor(nodes, parent_of(nodes, i), k) == top;
        assert(ancestor(nodes, i, k + 1) == top);
    }
    if within(nodes, top, 0) {
        let k = choose|k: nat| #[trigger] ancestor(nodes, 0, k) == top;
        lemma_ancestor_of_root(nodes, k);
    }
    if top == 0 {
        assert(ancestor(nodes, 0, 0) == 0);
    }
}

/// Totals are exact as long as they can be represented, and stop at the largest value otherwise.
pub proof fn law_totals_stop_at_the_largest_value(sum: nat)
    ensures
        sum <= 0xffff_ffff_ffff_ffff ==> capped(sum) == sum,
        sum > 0xffff_ffff_ffff_ffff ==> capped(sum) == 0xffff_ffff_ffff_ffff,
{
}

} // verus!
