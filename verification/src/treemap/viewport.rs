//! Which directory the map shows, and which maps are kept.

use vstd::prelude::*;

use crate::aggregate;
use crate::node::{Node, NodeId, NodeKind};
use crate::scan::FilesystemScan;

verus! {

/// No more maps than these are kept.
pub const MAX_CACHED_MAPS: usize = 8;

/// The directory that is shown and the directories whose maps are kept, the one that was shown
/// longest ago first.
#[derive(Debug)]
pub struct TreemapViewport {
    pub root: NodeId,
    pub kept: Vec<NodeId>,
}

/// `ids` without the first that `drop` holds of.
pub open spec fn without_first(ids: Seq<NodeId>, drop: spec_fn(NodeId) -> bool) -> Seq<NodeId>
    decreases ids.len(),
{
    if ids.len() == 0 {
        ids
    } else if drop(ids[0]) {
        ids.drop_first()
    } else {
        seq![ids[0]] + without_first(ids.drop_first(), drop)
    }
}

/// Only `target`.
pub open spec fn is_that(target: NodeId) -> spec_fn(NodeId) -> bool {
    |id: NodeId| id == target
}

/// Any but the whole filesystem and the current directory.
pub open spec fn may_be_lost(current: NodeId) -> spec_fn(NodeId) -> bool {
    |id: NodeId| id != NodeId(0) && id != current
}

/// The maps that are kept once `target` is shown in place of `current`. A full list first loses
/// the map that was shown longest ago, but never that of the whole filesystem or the current one.
pub open spec fn kept_after(kept: Seq<NodeId>, current: NodeId, target: NodeId) -> Seq<NodeId> {
    let rest = if kept.contains(target) {
        without_first(kept, is_that(target))
    } else if kept.len() >= MAX_CACHED_MAPS {
        without_first(kept, may_be_lost(current))
    } else {
        kept
    };
    rest.push(target)
}

/// `target` can be shown: it is a directory other than the one that is.
pub open spec fn can_show(nodes: Seq<Node>, current: NodeId, target: NodeId) -> bool {
    &&& target.0 < nodes.len()
    &&& nodes[target.0 as int].kind == NodeKind::Directory
    &&& target != current
}

proof fn lemma_without_first(ids: Seq<NodeId>, drop: spec_fn(NodeId) -> bool, position: int)
    requires
        0 <= position < ids.len(),
        drop(ids[position]),
        forall|k: int| 0 <= k < position ==> !drop(#[trigger] ids[k]),
    ensures
        without_first(ids, drop) == ids.remove(position),
    decreases position,
{
    if position == 0 {
        assert(ids.remove(0) =~= ids.drop_first());
    } else {
        assert(!drop(ids[0]));
        let tail = ids.drop_first();
        assert forall|k: int| 0 <= k < position - 1 implies !drop(#[trigger] tail[k]) by {
            assert(tail[k] == ids[k + 1]);
        }
        lemma_without_first(tail, drop, position - 1);
        assert(ids.remove(position) =~= seq![ids[0]] + tail.remove(position - 1));
    }
}

/// Among distinct ids, a list with more than two holds one other than two given ones.
proof fn lemma_other_than_two(ids: Seq<NodeId>, one: NodeId, two: NodeId)
    requires
        ids.no_duplicates(),
        ids.len() >= 3,
    ensures
        exists|k: int| 0 <= k < ids.len() && #[trigger] ids[k] != one && ids[k] != two,
{
    assert(ids[0] != ids[1] && ids[1] != ids[2] && ids[0] != ids[2]);
}

impl TreemapViewport {
    /// Maps are kept at most once, the shown one and that of the whole filesystem among them, and
    /// not too many.
    pub open spec fn valid(&self) -> bool {
        &&& self.kept@.no_duplicates()
        &&& self.kept@.contains(NodeId(0))
        &&& self.kept@.contains(self.root)
        &&& self.kept@.len() <= MAX_CACHED_MAPS
    }

    /// Shows the whole filesystem.
    pub fn new() -> (viewport: TreemapViewport)
        ensures
            viewport.valid(),
            viewport.root == NodeId(0),
            viewport.kept@ == seq![NodeId(0)],
    {
        let mut kept: Vec<NodeId> = Vec::new();
        kept.push(NodeId::root());
        assert(kept@[0] == NodeId(0));
        TreemapViewport { root: NodeId::root(), kept }
    }

    /// The directory that is shown.
    pub fn root(&self) -> (root: NodeId)
        ensures
            root == self.root,
    {
        self.root
    }

    /// Whether the map of a directory is kept.
    pub fn is_cached(&self, id: NodeId) -> (cached: bool)
        ensures
            cached == self.kept@.contains(id),
    {
        let mut i: usize = 0;
        while i < self.kept.len()
            invariant
                i <= self.kept@.len(),
                forall|k: int| 0 <= k < i ==> self.kept@[k] != id,
            decreases self.kept@.len() - i,
        {
            if self.kept[i] == id {
                return true;
            }
            i = i + 1;
        }
        false
    }

    /// Shows another directory.
    pub fn zoom_to(&mut self, scan: &FilesystemScan, target: NodeId) -> (shown: Option<NodeId>)
        requires
            old(self).valid(),
        ensures
            final(self).valid(),
            if can_show(scan.result.arena.node_list(), old(self).root, target) {
                &&& shown == Some(target)
                &&& final(self).root == target
                &&& final(self).kept@ == kept_after(old(self).kept@, old(self).root, target)
            } else {
                &&& shown is None
                &&& final(self).root == old(self).root
                &&& final(self).kept@ == old(self).kept@
            },
    {
        let nodes = scan.result.arena.nodes();
        if target.index() >= nodes.len() {
            return None;
        }
        if nodes[target.index()].kind != NodeKind::Directory || target == self.root {
            return None;
        }
        self.keep(target);
        self.root = target;
        Some(target)
    }

    /// Puts the map of `target` last among those that are kept.
    fn keep(&mut self, target: NodeId)
        requires
            old(self).valid(),
            target != old(self).root,
        ensures
            final(self).root == old(self).root,
            final(self).kept@ == kept_after(old(self).kept@, old(self).root, target),
            final(self).kept@.no_duplicates(),
            final(self).kept@.contains(NodeId(0)),
            final(self).kept@.contains(target),
            final(self).kept@.len() <= MAX_CACHED_MAPS,
    {
        let ghost before = self.kept@;
        let current = self.root;
        let known = self.is_cached(target);
        if known || self.kept.len() >= MAX_CACHED_MAPS {
            let mut i: usize = 0;
            let count: usize = self.kept.len();
            proof {
                if !known {
                    lemma_other_than_two(before, NodeId(0), current);
                }
            }
            while !leaves(self.kept[i], known, target, current)
                invariant
                    i < count,
                    count == before.len(),
                    self.kept@ == before,
                    exists|k: int|
                        i <= k < before.len() && departs(#[trigger] before[k], known, target, current),
                    forall|k: int|
                        0 <= k < i ==> !departs(#[trigger] before[k], known, target, current),
                decreases before.len() - i,
            {
                i = i + 1;
            }
            proof {
                let drop = if known {
                    is_that(target)
                } else {
                    may_be_lost(current)
                };
                assert forall|k: int| 0 <= k < i implies !drop(#[trigger] before[k]) by {
                    assert(!departs(before[k], known, target, current));
                }
                assert(departs(before[i as int], known, target, current));
                lemma_without_first(before, drop, i as int);
            }
            self.kept.remove(i);
            proof {
                let place = choose|k: int| 0 <= k < before.len() && before[k] == NodeId(0);
                if before[i as int] != NodeId(0) {
                    let moved = if place < i {
                        place
                    } else {
                        place - 1
                    };
                    assert(self.kept@[moved] == NodeId(0));
                    assert(self.kept@.push(target)[moved] == NodeId(0));
                }
            }
        } else {
            let ghost place = choose|k: int| 0 <= k < before.len() && before[k] == NodeId(0);
            assert(self.kept@.push(target)[place] == NodeId(0));
        }
        let ghost rest = self.kept@;
        self.kept.push(target);
        proof {
            assert(self.kept@.last() == target);
            assert forall|a: int, b: int| 0 <= a < b < self.kept@.len() implies self.kept@[a]
                != self.kept@[b] by {
                if b == rest.len() {
                    assert(!rest.contains(target)) by {
                        if rest.contains(target) {
                            let k = choose|k: int| 0 <= k < rest.len() && rest[k] == target;
                            assert(before.contains(target));
                        }
                    }
                    assert(rest.contains(rest[a]));
                }
            }
        }
    }

    /// Shows the parent of the directory that is shown.
    pub fn zoom_out(&mut self, scan: &FilesystemScan) -> (shown: Option<NodeId>)
        requires
            old(self).valid(),
        ensures
            final(self).valid(),
            ({
                let nodes = scan.result.arena.node_list();
                let current = old(self).root;
                let parent = nodes[current.0 as int].parent;
                if current != NodeId(0) && current.0 < nodes.len() && can_show(
                    nodes,
                    current,
                    parent,
                ) {
                    &&& shown == Some(parent)
                    &&& final(self).root == parent
                    &&& final(self).kept@ == kept_after(old(self).kept@, current, parent)
                } else {
                    &&& shown is None
                    &&& final(self).root == current
                    &&& final(self).kept@ == old(self).kept@
                }
            }),
    {
        let nodes = scan.result.arena.nodes();
        if self.root == NodeId::root() || self.root.index() >= nodes.len() {
            return None;
        }
        let parent = nodes[self.root.index()].parent;
        self.zoom_to(scan, parent)
    }

    /// Shows the directory one level below that leads to the node under the pointer.
    pub fn zoom_in(&mut self, scan: &FilesystemScan, hit: NodeId) -> (shown: Option<NodeId>)
        requires
            old(self).valid(),
        ensures
            final(self).valid(),
            ({
                let nodes = scan.result.arena.node_list();
                let current = old(self).root;
                match directory_toward(nodes, current, hit) {
                    Some(target) if can_show(nodes, current, target) => {
                        &&& shown == Some(target)
                        &&& final(self).root == target
                        &&& final(self).kept@ == kept_after(old(self).kept@, current, target)
                    },
                    _ => {
                        &&& shown is None
                        &&& final(self).root == current
                        &&& final(self).kept@ == old(self).kept@
                    },
                }
            }),
    {
        match next_directory_toward(scan, self.root, hit) {
            None => None,
            Some(target) => self.zoom_to(scan, target),
        }
    }

    /// Shows the whole filesystem again.
    pub fn reset(&mut self, scan: &FilesystemScan) -> (shown: Option<NodeId>)
        requires
            old(self).valid(),
        ensures
            final(self).valid(),
            if can_show(scan.result.arena.node_list(), old(self).root, NodeId(0)) {
                &&& shown == Some(NodeId(0))
                &&& final(self).root == NodeId(0)
                &&& final(self).kept@ == kept_after(old(self).kept@, old(self).root, NodeId(0))
            } else {
                &&& shown is None
                &&& final(self).root == old(self).root
                &&& final(self).kept@ == old(self).kept@
            },
    {
        self.zoom_to(scan, NodeId::root())
    }
}

/// The map of `id` makes room: it is the one that is shown again, or one that may be lost.
spec fn departs(id: NodeId, known: bool, target: NodeId, current: NodeId) -> bool {
    if known {
        id == target
    } else {
        id != NodeId(0) && id != current
    }
}

fn leaves(id: NodeId, known: bool, target: NodeId, current: NodeId) -> (leaves: bool)
    ensures
        leaves == departs(id, known, target, current),
{
    if known {
        id == target
    } else {
        id != NodeId::root() && id != current
    }
}

/// The directory below `current` on the way from `candidate` towards the root, within `steps`
/// steps.
pub open spec fn step_toward(nodes: Seq<Node>, current: NodeId, candidate: NodeId, steps: nat) -> Option<
    NodeId,
>
    decreases steps,
{
    if steps == 0 || candidate.0 >= nodes.len() || nodes[candidate.0 as int].kind
        != NodeKind::Directory {
        None
    } else if nodes[candidate.0 as int].parent == current {
        Some(candidate)
    } else if candidate == NodeId(0) {
        None
    } else {
        step_toward(nodes, current, nodes[candidate.0 as int].parent, (steps - 1) as nat)
    }
}

/// The directory one level below `current` that leads to `hit`.
pub open spec fn directory_toward(nodes: Seq<Node>, current: NodeId, hit: NodeId) -> Option<NodeId> {
    if hit.0 >= nodes.len() {
        None
    } else {
        let first = if nodes[hit.0 as int].kind == NodeKind::Directory {
            hit
        } else {
            nodes[hit.0 as int].parent
        };
        if first == current {
            None
        } else {
            step_toward(nodes, current, first, nodes.len())
        }
    }
}

/// A node that is its own parent leads nowhere.
proof fn lemma_own_parent(nodes: Seq<Node>, current: NodeId, candidate: NodeId, steps: nat)
    requires
        candidate.0 < nodes.len(),
        nodes[candidate.0 as int].parent == candidate,
        candidate != current,
    ensures
        step_toward(nodes, current, candidate, steps) is None,
    decreases steps,
{
    if steps > 0 {
        lemma_own_parent(nodes, current, candidate, (steps - 1) as nat);
    }
}

/// The directory one level below `current_root` that leads to `hit`.
pub fn next_directory_toward(
    scan: &FilesystemScan,
    current_root: NodeId,
    hit: NodeId,
) -> (target: Option<NodeId>)
    ensures
        target == directory_toward(scan.result.arena.node_list(), current_root, hit),
{
    let nodes = scan.result.arena.nodes();
    if hit.index() >= nodes.len() {
        return None;
    }
    let mut candidate = if nodes[hit.index()].kind == NodeKind::Directory {
        hit
    } else {
        nodes[hit.index()].parent
    };
    if candidate == current_root {
        return None;
    }
    let mut steps: usize = nodes.len();
    while steps > 0
        invariant
            nodes@ == scan.result.arena.node_list(),
            step_toward(nodes@, current_root, candidate, steps as nat) == directory_toward(
                nodes@,
                current_root,
                hit,
            ),
        decreases steps,
    {
        if candidate.index() >= nodes.len() {
            return None;
        }
        let node = nodes[candidate.index()];
        if node.kind != NodeKind::Directory {
            return None;
        }
        if node.parent == current_root {
            return Some(candidate);
        }
        if candidate == NodeId::root() || node.parent == candidate {
            proof {
                if node.parent == candidate {
                    lemma_own_parent(nodes@, current_root, candidate, steps as nat);
                }
            }
            return None;
        }
        candidate = node.parent;
        steps = steps - 1;
    }
    None
}

proof fn lemma_step_toward(nodes: Seq<Node>, current: NodeId, candidate: NodeId, steps: nat)
    requires
        step_toward(nodes, current, candidate, steps) is Some,
    ensures
        ({
            let target = step_toward(nodes, current, candidate, steps)->0;
            &&& target.0 < nodes.len()
            &&& nodes[target.0 as int].kind == NodeKind::Directory
            &&& nodes[target.0 as int].parent == current
            &&& aggregate::within(nodes, target.0 as int, candidate.0 as int)
        }),
    decreases steps,
{
    let target = step_toward(nodes, current, candidate, steps)->0;
    if nodes[candidate.0 as int].parent == current {
        assert(aggregate::ancestor(nodes, candidate.0 as int, 0) == target.0);
    } else {
        let parent = nodes[candidate.0 as int].parent;
        lemma_step_toward(nodes, current, parent, (steps - 1) as nat);
        let k = choose|k: nat| #[trigger]
            aggregate::ancestor(nodes, parent.0 as int, k) == target.0;
        assert(aggregate::ancestor(nodes, candidate.0 as int, k + 1) == target.0);
    }
}

/// Zooming in goes down one level, into the directory that holds the node under the pointer.
pub proof fn law_zoom_leads_to_the_hit(nodes: Seq<Node>, current: NodeId, hit: NodeId)
    requires
        directory_toward(nodes, current, hit) is Some,
        nodes[0].kind == NodeKind::Directory,
    ensures
        ({
            let target = directory_toward(nodes, current, hit)->0;
            &&& target.0 < nodes.len()
            &&& nodes[target.0 as int].kind == NodeKind::Directory
            &&& nodes[target.0 as int].parent == current
            &&& aggregate::within(nodes, target.0 as int, hit.0 as int)
        }),
{
    let target = directory_toward(nodes, current, hit)->0;
    if nodes[hit.0 as int].kind == NodeKind::Directory {
        lemma_step_toward(nodes, current, hit, nodes.len());
    } else {
        let parent = nodes[hit.0 as int].parent;
        lemma_step_toward(nodes, current, parent, nodes.len());
        let k = choose|k: nat| #[trigger]
            aggregate::ancestor(nodes, parent.0 as int, k) == target.0;
        assert(aggregate::ancestor(nodes, hit.0 as int, k + 1) == target.0);
    }
}

/// Zooming out undoes zooming in: the parent of the directory that was zoomed into is the one that
/// was shown before, and it can be shown again.
pub proof fn law_zooming_out_undoes_zooming_in(
    nodes: Seq<Node>,
    current: NodeId,
    hit: NodeId,
    target: NodeId,
)
    requires
        nodes[0].kind == NodeKind::Directory,
        current.0 < nodes.len(),
        nodes[current.0 as int].kind == NodeKind::Directory,
        directory_toward(nodes, current, hit) == Some(target),
        can_show(nodes, current, target),
    ensures
        nodes[target.0 as int].parent == current,
        can_show(nodes, target, current),
{
    law_zoom_leads_to_the_hit(nodes, current, hit);
}

/// The map of the whole filesystem and that of the directory that was just left are never lost.
pub proof fn law_current_map_is_kept(kept: Seq<NodeId>, current: NodeId, target: NodeId, id: NodeId)
    requires
        kept.contains(id),
        id == NodeId(0) || id == current || id == target,
    ensures
        kept_after(kept, current, target).contains(id),
{
    let after = kept_after(kept, current, target);
    if id == target {
        assert(after.last() == target);
    } else if kept.contains(target) {
        lemma_others_stay(kept, is_that(target), id);
        let rest = without_first(kept, is_that(target));
        let k = choose|k: int| 0 <= k < rest.len() && rest[k] == id;
        assert(after[k] == id);
    } else if kept.len() >= MAX_CACHED_MAPS {
        lemma_others_stay(kept, may_be_lost(current), id);
        let rest = without_first(kept, may_be_lost(current));
        let k = choose|k: int| 0 <= k < rest.len() && rest[k] == id;
        assert(after[k] == id);
    } else {
        let k = choose|k: int| 0 <= k < kept.len() && kept[k] == id;
        assert(after[k] == id);
    }
}

proof fn lemma_others_stay(ids: Seq<NodeId>, drop: spec_fn(NodeId) -> bool, id: NodeId)
    requires
        ids.contains(id),
        !drop(id),
    ensures
        without_first(ids, drop).contains(id),
    decreases ids.len(),
{
    let k = choose|k: int| 0 <= k < ids.len() && ids[k] == id;
    let tail = ids.drop_first();
    if drop(ids[0]) {
        assert(tail[k - 1] == id);
    } else if k == 0 {
        assert(without_first(ids, drop)[0] == id);
    } else {
        assert(tail[k - 1] == id);
        lemma_others_stay(tail, drop, id);
        let rest = without_first(tail, drop);
        let j = choose|j: int| 0 <= j < rest.len() && rest[j] == id;
        assert(without_first(ids, drop)[j + 1] == id);
    }
}

/// Showing a directory keeps its map as the newest; all others stay in their order, but one may be
/// lost where there are eight: the oldest that is neither that of the whole filesystem nor the one
/// that was shown.
pub proof fn law_oldest_map_is_lost(kept: Seq<NodeId>, current: NodeId, target: NodeId, oldest: int)
    requires
        !kept.contains(target),
        kept.len() >= 8 ==> {
            &&& 0 <= oldest < kept.len()
            &&& kept[oldest] != NodeId(0)
            &&& kept[oldest] != current
            &&& forall|k: int|
                0 <= k < oldest ==> #[trigger] kept[k] == NodeId(0) || kept[k] == current
        },
    ensures
        kept_after(kept, current, target).last() == target,
        kept.len() < 8 ==> kept_after(kept, current, target) == kept.push(target),
        kept.len() >= 8 ==> kept_after(kept, current, target) == kept.remove(oldest).push(target),
{
    if kept.len() >= 8 {
        lemma_without_first(kept, may_be_lost(current), oldest);
    }
}

/// A directory whose map is kept becomes the newest, and nothing is lost.
pub proof fn law_known_maps_become_the_newest(
    kept: Seq<NodeId>,
    current: NodeId,
    target: NodeId,
    at: int,
)
    requires
        0 <= at < kept.len(),
        kept[at] == target,
        forall|k: int| 0 <= k < at ==> #[trigger] kept[k] != target,
    ensures
        kept_after(kept, current, target) == kept.remove(at).push(target),
{
    lemma_without_first(kept, is_that(target), at);
}

/// What can be shown is an existing directory, and any but the one that is shown.
pub proof fn law_every_other_directory_can_be_shown(
    nodes: Seq<Node>,
    current: NodeId,
    target: NodeId,
)
    ensures
        can_show(nodes, current, target) <==> target.0 < nodes.len() && nodes[target.0 as int].kind
            == NodeKind::Directory && target.0 != current.0,
{
}

proof fn lemma_step_finds(nodes: Seq<Node>, current: NodeId, first: NodeId, k: nat, steps: nat)
    requires
        first.0 < nodes.len(),
        k < steps,
        aggregate::way_exists(nodes, first.0 as int, k),
        aggregate::ancestor(nodes, first.0 as int, k) != 0 || k == 0,
        nodes[aggregate::ancestor(nodes, first.0 as int, k)].parent == current,
        forall|m: nat|
            m <= k ==> nodes[#[trigger] aggregate::ancestor(nodes, first.0 as int, m)].kind
                == NodeKind::Directory,
        forall|m: nat|
            m < k ==> nodes[#[trigger] aggregate::ancestor(nodes, first.0 as int, m)].parent
                != current,
    ensures
        step_toward(nodes, current, first, steps) matches Some(found) && found.0
            == aggregate::ancestor(nodes, first.0 as int, k),
    decreases k,
{
    let i = first.0 as int;
    assert(aggregate::ancestor(nodes, i, 0) == i);
    if k > 0 {
        if i == 0 {
            aggregate::lemma_ancestor_of_root(nodes, k);
        }
        let up = nodes[i].parent;
        assert(0 <= aggregate::ancestor(nodes, i, 1) < nodes.len());
        assert(aggregate::ancestor(nodes, i, 1) == aggregate::ancestor(nodes, up.0 as int, 0));
        assert forall|m: nat| m <= k - 1 implies 0 <= #[trigger] aggregate::ancestor(
            nodes,
            up.0 as int,
            m,
        ) < nodes.len() && nodes[aggregate::ancestor(nodes, up.0 as int, m)].kind
            == NodeKind::Directory by {
            assert(aggregate::ancestor(nodes, i, m + 1) == aggregate::ancestor(
                nodes,
                up.0 as int,
                m,
            ));
        }
        assert forall|m: nat| m < k - 1 implies nodes[#[trigger] aggregate::ancestor(
            nodes,
            up.0 as int,
            m,
        )].parent != current by {
            assert(aggregate::ancestor(nodes, i, m + 1) == aggregate::ancestor(
                nodes,
                up.0 as int,
                m,
            ));
        }
        lemma_step_finds(nodes, current, up, (k - 1) as nat, (steps - 1) as nat);
    }
}

/// Zooming in finds its way: where the node under the pointer lies below the directory that is shown,
/// through directories, the next of them is found. `first` is the node, or the directory that holds
/// it; the directory `k` steps above it is the first one right below the shown one.
pub proof fn law_zoom_finds_the_way(
    nodes: Seq<Node>,
    current: NodeId,
    hit: NodeId,
    first: NodeId,
    k: nat,
)
    requires
        hit.0 < nodes.len(),
        nodes[hit.0 as int].kind == NodeKind::Directory ==> first == hit,
        nodes[hit.0 as int].kind != NodeKind::Directory ==> first == nodes[hit.0 as int].parent,
        first != current,
        k < nodes.len(),
        aggregate::way_exists(nodes, first.0 as int, k),
        aggregate::ancestor(nodes, first.0 as int, k) != 0,
        nodes[aggregate::ancestor(nodes, first.0 as int, k)].parent == current,
        forall|m: nat|
            m <= k ==> nodes[#[trigger] aggregate::ancestor(nodes, first.0 as int, m)].kind
                == NodeKind::Directory,
        forall|m: nat|
            m < k ==> nodes[#[trigger] aggregate::ancestor(nodes, first.0 as int, m)].parent
                != current,
    ensures
        directory_toward(nodes, current, hit) matches Some(found) && found.0
            == aggregate::ancestor(nodes, first.0 as int, k),
{
    assert(0 <= aggregate::ancestor(nodes, first.0 as int, 0) < nodes.len());
    lemma_step_finds(nodes, current, first, k, nodes.len());
}

} // verus!
