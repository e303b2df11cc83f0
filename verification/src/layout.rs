//! Trees that are laid out breadth first: every node stands behind its parent, and the children of
//! a node stand side by side.

use vstd::prelude::*;

use crate::aggregate;
use crate::arena;
use crate::node::{Node, NodeKind};

verus! {

/// The parent of a node is a directory, stands in front of it and not behind `limit`.
pub open spec fn parent_sound(nodes: Seq<Node>, i: int, limit: int) -> bool {
    &&& nodes[i].parent.0 < i
    &&& nodes[i].parent.0 <= limit
    &&& nodes[nodes[i].parent.0 as int].kind == NodeKind::Directory
}

/// The parents of all nodes but the root are sound.
pub open spec fn parents_sound(nodes: Seq<Node>, limit: int) -> bool {
    forall|i: int| 1 <= i < nodes.len() ==> #[trigger] parent_sound(nodes, i, limit)
}

/// A node below the last expanded one keeps the parents sound and the children grouped.
pub(crate) proof fn lemma_parents_push(nodes: Seq<Node>, node: Node, parent: int)
    requires
        parents_sound(nodes, parent),
        arena::children_grouped(nodes),
        0 <= parent < nodes.len(),
        nodes[parent].kind == NodeKind::Directory,
        node.parent.0 == parent,
    ensures
        parents_sound(nodes.push(node), parent),
        arena::children_grouped(nodes.push(node)),
{
    let longer = nodes.push(node);
    let last = nodes.len() as int;
    assert forall|i: int| 1 <= i < longer.len() implies #[trigger] parent_sound(
        longer,
        i,
        parent,
    ) by {
        if i < last {
            assert(parent_sound(nodes, i, parent));
            assert(longer[i] == nodes[i]);
        }
    }
    assert forall|i: int, j: int| 1 <= i <= j < longer.len() implies (
    #[trigger] longer[i]).parent.0 <= (#[trigger] longer[j]).parent.0 by {
        if i < last {
            assert(longer[i] == nodes[i]);
            assert(parent_sound(nodes, i, parent));
        }
        if j < last {
            assert(longer[j] == nodes[j]);
        }
    }
}

pub(crate) proof fn lemma_limit_rises(nodes: Seq<Node>, low: int, high: int)
    requires
        parents_sound(nodes, low),
        low <= high,
    ensures
        parents_sound(nodes, high),
{
    assert forall|i: int| 1 <= i < nodes.len() implies #[trigger] parent_sound(nodes, i, high) by {
        assert(parent_sound(nodes, i, low));
    }
}

/// Nodes with sound parents form a tree.
pub proof fn law_sound_parents_root(nodes: Seq<Node>, limit: int)
    requires
        parents_sound(nodes, limit),
    ensures
        aggregate::parents_exist(nodes),
        aggregate::rooted(nodes),
{
    assert forall|i: int| 1 <= i < nodes.len() implies (#[trigger] nodes[i]).parent.0 < i by {
        assert(parent_sound(nodes, i, limit));
    }
    aggregate::law_ordered_nodes_are_rooted(nodes);
}

} // verus!
