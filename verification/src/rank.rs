//! The largest nodes of a scan.

use vstd::prelude::*;

use crate::aggregate;
use crate::aggregate::Totals;
use crate::node::{Node, NodeId, NodeKind};
use crate::order;
use crate::order::Precedence;

verus! {

/// Which nodes take part in a ranking.
#[derive(Clone, Copy, Debug, Eq, PartialEq, Structural)]
pub enum RankFilter {
    Directories,
    Files,
    DirectoriesAndFiles,
}

impl RankFilter {
    /// Nodes of this kind take part.
    pub open spec fn takes(self, kind: NodeKind) -> bool {
        match self {
            RankFilter::Directories => kind == NodeKind::Directory,
            RankFilter::Files => kind == NodeKind::File,
            RankFilter::DirectoriesAndFiles => kind == NodeKind::Directory || kind
                == NodeKind::File,
        }
    }

    /// Whether a node takes part.
    pub fn includes(self, node: &Node) -> (included: bool)
        ensures
            included == self.takes(node.kind),
    {
        match self {
            RankFilter::Directories => node.kind == NodeKind::Directory,
            RankFilter::Files => node.kind == NodeKind::File,
            RankFilter::DirectoriesAndFiles => matches!(
                node.kind,
                NodeKind::Directory | NodeKind::File
            ),
        }
    }
}

/// One place of a ranking.
#[derive(Clone, Copy, Debug, Eq, PartialEq, Structural)]
pub struct RankedNode {
    pub id: NodeId,
    pub allocated_size: u64,
    pub logical_size: u64,
}

/// The sizes a node is ranked with: those of its subtree for a directory, its own for a file.
pub open spec fn ranked_node(nodes: Seq<Node>, totals: Seq<Totals>, i: int) -> RankedNode {
    if nodes[i].kind == NodeKind::Directory {
        RankedNode {
            id: NodeId(i as u32),
            allocated_size: totals[i].recursive_allocated,
            logical_size: totals[i].recursive_logical,
        }
    } else {
        RankedNode {
            id: NodeId(i as u32),
            allocated_size: nodes[i].allocated_size,
            logical_size: nodes[i].logical_size,
        }
    }
}

/// Positions of the nodes that take part.
pub open spec fn eligible(nodes: Seq<Node>, filter: RankFilter) -> Set<int> {
    Set::new(|i: int| 0 <= i < nodes.len() && filter.takes(nodes[i].kind))
}

/// `a` ranks before `b`: it is larger, or as large with a smaller id.
pub open spec fn outranks(a: RankedNode, b: RankedNode) -> bool {
    a.allocated_size > b.allocated_size || (a.allocated_size == b.allocated_size && a.id.0 < b.id.0)
}

/// Every place holds a node that takes part, with its sizes.
pub open spec fn places_filled(
    nodes: Seq<Node>,
    totals: Seq<Totals>,
    filter: RankFilter,
    ranking: Seq<RankedNode>,
) -> bool {
    forall|k: int|
        0 <= k < ranking.len() ==> {
            let i = (#[trigger] ranking[k]).id.0 as int;
            eligible(nodes, filter).contains(i) && ranking[k] == ranked_node(nodes, totals, i)
        }
}

/// The places stand in the order of their rank.
pub open spec fn places_ordered(ranking: Seq<RankedNode>) -> bool {
    forall|a: int, b: int|
        0 <= a < b < ranking.len() ==> outranks(#[trigger] ranking[a], #[trigger] ranking[b])
}

/// The node at `i` is in the ranking.
pub open spec fn is_ranked(ranking: Seq<RankedNode>, i: int) -> bool {
    exists|k: int| 0 <= k < ranking.len() && (#[trigger] ranking[k]).id.0 == i
}

/// Nodes that take part and are not in the ranking rank behind all that are.
pub open spec fn rest_outranked(
    nodes: Seq<Node>,
    totals: Seq<Totals>,
    filter: RankFilter,
    ranking: Seq<RankedNode>,
) -> bool {
    forall|i: int, k: int|
        0 <= k < ranking.len() && #[trigger] eligible(nodes, filter).contains(i) && !is_ranked(
            ranking,
            i,
        ) ==> outranks(#[trigger] ranking[k], ranked_node(nodes, totals, i))
}

/// The candidates, the largest first and of equal ones the earlier first.
struct BySize<'a> {
    sizes: &'a Vec<u64>,
}

impl<'a> Precedence for BySize<'a> {
    closed spec fn comparable(&self) -> bool {
        true
    }

    closed spec fn size(&self) -> nat {
        self.sizes@.len()
    }

    closed spec fn before(&self, a: int, b: int) -> bool {
        self.sizes@[a] > self.sizes@[b] || (self.sizes@[a] == self.sizes@[b] && a < b)
    }

    proof fn before_is_total(&self, a: int, b: int) {
    }

    proof fn before_is_transitive(&self, a: int, b: int, c: int) {
    }

    fn is_before(&self, a: usize, b: usize) -> (first: bool) {
        self.sizes[a] > self.sizes[b] || (self.sizes[a] == self.sizes[b] && a < b)
    }
}

/// The `limit` largest nodes by allocated size that the filter lets take part, largest first.
pub fn rank_largest(
    nodes: &[Node],
    totals: &[Totals],
    filter: RankFilter,
    limit: usize,
) -> (ranking: Vec<RankedNode>)
    requires
        limit == 0 || nodes@.len() <= u32::MAX + 1,
        limit == 0 || forall|i: int|
            0 <= i < nodes@.len() && filter.takes(nodes@[i].kind) && (#[trigger] nodes@[i]).kind
                == NodeKind::Directory ==> i < totals@.len(),
    ensures
        ranking@.len() == {
            let count = aggregate::sum_over(
                eligible(nodes@, filter),
                aggregate::each_once(),
                nodes@.len(),
            );
            if limit < count {
                limit as nat
            } else {
                count
            }
        },
        places_filled(nodes@, totals@, filter, ranking@),
        places_ordered(ranking@),
        rest_outranked(nodes@, totals@, filter, ranking@),
{
    let mut ranking: Vec<RankedNode> = Vec::new();
    if limit == 0 {
        return ranking;
    }
    let mut candidates: Vec<RankedNode> = Vec::new();
    let mut sizes: Vec<u64> = Vec::new();
    let mut index: usize = 0;
    while index < nodes.len()
        invariant
            index <= nodes.len() <= u32::MAX + 1,
            forall|i: int|
                0 <= i < nodes@.len() && filter.takes(nodes@[i].kind) && (#[trigger] nodes@[i]).kind
                    == NodeKind::Directory ==> i < totals@.len(),
            candidates.len() == aggregate::sum_over(
                eligible(nodes@, filter),
                aggregate::each_once(),
                index as nat,
            ),
            sizes.len() == candidates.len(),
            forall|c: int|
                0 <= c < candidates.len() ==> #[trigger] sizes@[c] == candidates@[c].allocated_size,
            places_filled(nodes@, totals@, filter, candidates@),
            forall|a: int, b: int|
                0 <= a < b < candidates.len() ==> (#[trigger] candidates@[a]).id.0 < (
                #[trigger] candidates@[b]).id.0,
            forall|c: int| 0 <= c < candidates.len() ==> (#[trigger] candidates@[c]).id.0 < index,
            forall|i: int|
                0 <= i < index && #[trigger] eligible(nodes@, filter).contains(i) ==> is_ranked(
                    candidates@,
                    i,
                ),
        decreases nodes.len() - index,
    {
        let ghost before = candidates@;
        if filter.includes(&nodes[index]) {
            let node = nodes[index];
            let (allocated_size, logical_size) = if node.kind == NodeKind::Directory {
                (totals[index].recursive_allocated, totals[index].recursive_logical)
            } else {
                (node.allocated_size, node.logical_size)
            };
            candidates.push(RankedNode { id: NodeId(index as u32), allocated_size, logical_size });
            sizes.push(allocated_size);
            assert(candidates@.last().id.0 == index);
        }
        proof {
            assert forall|i: int|
                0 <= i < index + 1 && #[trigger] eligible(nodes@, filter).contains(
                    i,
                ) implies is_ranked(candidates@, i) by {
                if i < index {
                    let k = choose|k: int|
                        0 <= k < before.len() && (#[trigger] before[k]).id.0 == i;
                    assert(candidates@[k] == before[k]);
                } else {
                    assert(candidates@[candidates@.len() - 1].id.0 == i);
                }
            }
        }
        index = index + 1;
    }
    let order = BySize { sizes: &sizes };
    let places = order::sorted_positions(&order, sizes.len());
    let count: usize = if limit < places.len() {
        limit
    } else {
        places.len()
    };
    let mut k: usize = 0;
    while k < count
        invariant
            k <= count <= places.len(),
            places.len() == candidates.len(),
            order::lists_range(places@, 0, candidates@.len() as int),
            ranking.len() == k,
            forall|m: int|
                0 <= m < k ==> #[trigger] ranking@[m] == candidates@[places@[m] as int],
        decreases count - k,
    {
        assert(0 <= places@[k as int] < candidates.len());
        ranking.push(candidates[places[k]]);
        k = k + 1;
    }
    proof {
        assert forall|a: int, b: int| 0 <= a < b < places.len() implies outranks(
            candidates@[#[trigger] places@[a] as int],
            candidates@[#[trigger] places@[b] as int],
        ) by {
            assert(order.before(places@[a] as int, places@[b] as int));
            assert(0 <= places@[a] < candidates.len());
            assert(0 <= places@[b] < candidates.len());
            assert(sizes@[places@[a] as int] == candidates@[places@[a] as int].allocated_size);
            assert(sizes@[places@[b] as int] == candidates@[places@[b] as int].allocated_size);
        }
        assert forall|i: int, m: int|
            0 <= m < ranking.len() && #[trigger] eligible(nodes@, filter).contains(i) && !is_ranked(
                ranking@,
                i,
            ) implies outranks(#[trigger] ranking@[m], ranked_node(nodes@, totals@, i)) by {
            assert(is_ranked(candidates@, i));
            let c = choose|c: int| 0 <= c < candidates.len() && (#[trigger] candidates@[c]).id.0 == i;
            assert(places@.contains(c as usize));
            let p = choose|p: int| 0 <= p < places.len() && places@[p] == c as usize;
            if p < count {
                assert(ranking@[p].id.0 == i);
            }
            assert(places@[m] as int >= 0);
            assert(candidates@[c] == ranked_node(nodes@, totals@, i));
        }
    }
    ranking
}

/// A ranking is determined by its length: no other list of as many nodes meets the same terms.
pub proof fn law_ranking_is_unique(
    nodes: Seq<Node>,
    totals: Seq<Totals>,
    filter: RankFilter,
    one: Seq<RankedNode>,
    other: Seq<RankedNode>,
)
    requires
        one.len() == other.len(),
        places_filled(nodes, totals, filter, one),
        places_ordered(one),
        rest_outranked(nodes, totals, filter, one),
        places_filled(nodes, totals, filter, other),
        places_ordered(other),
        rest_outranked(nodes, totals, filter, other),
    ensures
        one == other,
{
    assert forall|k: int| 0 <= k < one.len() implies one[k] == other[k] by {
        lemma_same_place(nodes, totals, filter, one, other, k);
    }
    assert(one =~= other);
}

proof fn lemma_same_place(
    nodes: Seq<Node>,
    totals: Seq<Totals>,
    filter: RankFilter,
    one: Seq<RankedNode>,
    other: Seq<RankedNode>,
    k: int,
)
    requires
        one.len() == other.len(),
        0 <= k < one.len(),
        places_filled(nodes, totals, filter, one),
        places_ordered(one),
        rest_outranked(nodes, totals, filter, one),
        places_filled(nodes, totals, filter, other),
        places_ordered(other),
        rest_outranked(nodes, totals, filter, other),
    ensures
        one[k] == other[k],
    decreases k,
{
    assert forall|j: int| 0 <= j < k implies one[j] == other[j] by {
        lemma_same_place(nodes, totals, filter, one, other, j);
    }
    if one[k] != other[k] {
        let i = other[k].id.0 as int;
        assert(eligible(nodes, filter).contains(i));
        if is_ranked(one, i) {
            let at = choose|at: int| 0 <= at < one.len() && (#[trigger] one[at]).id.0 == i;
            assert(one[at] == other[k]);
            if at < k {
                assert(other[at] == other[k]);
                assert(outranks(other[at], other[k]));
            }
            assert(outranks(one[k], one[at]));
        } else {
            assert(outranks(one[k], ranked_node(nodes, totals, i)));
        }
        let j = one[k].id.0 as int;
        assert(eligible(nodes, filter).contains(j));
        if is_ranked(other, j) {
            let at = choose|at: int| 0 <= at < other.len() && (#[trigger] other[at]).id.0 == j;
            assert(other[at] == one[k]);
            if at < k {
                assert(one[at] == one[k]);
                assert(outranks(one[at], one[k]));
            }
            assert(outranks(other[k], other[at]));
        } else {
            assert(outranks(other[k], ranked_node(nodes, totals, j)));
        }
    }
}

/// A smaller limit keeps the front of the ranking.
pub proof fn law_smaller_limit_keeps_the_front(
    nodes: Seq<Node>,
    totals: Seq<Totals>,
    filter: RankFilter,
    ranking: Seq<RankedNode>,
    limit: int,
)
    requires
        places_filled(nodes, totals, filter, ranking),
        places_ordered(ranking),
        rest_outranked(nodes, totals, filter, ranking),
        0 <= limit <= ranking.len(),
    ensures
        places_filled(nodes, totals, filter, ranking.take(limit)),
        places_ordered(ranking.take(limit)),
        rest_outranked(nodes, totals, filter, ranking.take(limit)),
{
    let front = ranking.take(limit);
    assert forall|i: int, k: int|
        0 <= k < front.len() && #[trigger] eligible(nodes, filter).contains(i) && !is_ranked(
            front,
            i,
        ) implies outranks(#[trigger] front[k], ranked_node(nodes, totals, i)) by {
        assert(front[k] == ranking[k]);
        if is_ranked(ranking, i) {
            let at = choose|at: int| 0 <= at < ranking.len() && (#[trigger] ranking[at]).id.0 == i;
            if at < limit {
                assert(front[at].id.0 == i);
            }
            assert(outranks(ranking[k], ranking[at]));
        }
    }
}

/// A place holds a node that was asked for. A directory is ranked with the sizes of its subtree, a
/// file with its own.
pub proof fn law_places_measure_their_nodes(
    nodes: Seq<Node>,
    totals: Seq<Totals>,
    filter: RankFilter,
    ranking: Seq<RankedNode>,
    k: int,
)
    requires
        places_filled(nodes, totals, filter, ranking),
        0 <= k < ranking.len(),
    ensures
        ({
            let i = ranking[k].id.0 as int;
            &&& 0 <= i < nodes.len()
            &&& filter == RankFilter::Directories ==> nodes[i].kind == NodeKind::Directory
            &&& filter == RankFilter::Files ==> nodes[i].kind == NodeKind::File
            &&& nodes[i].kind == NodeKind::Directory || nodes[i].kind == NodeKind::File
            &&& nodes[i].kind == NodeKind::Directory ==> ranking[k].allocated_size
                == totals[i].recursive_allocated && ranking[k].logical_size
                == totals[i].recursive_logical
            &&& nodes[i].kind == NodeKind::File ==> ranking[k].allocated_size
                == nodes[i].allocated_size && ranking[k].logical_size == nodes[i].logical_size
        }),
{
    assert(eligible(nodes, filter).contains(ranking[k].id.0 as int));
}

/// Allocated sizes never rise along a ranking; of equal ones the smaller id comes first, and no node
/// comes twice.
pub proof fn law_rankings_go_largest_first(ranking: Seq<RankedNode>, a: int, b: int)
    requires
        places_ordered(ranking),
        0 <= a < b < ranking.len(),
    ensures
        ranking[a].allocated_size >= ranking[b].allocated_size,
        ranking[a].allocated_size == ranking[b].allocated_size ==> ranking[a].id.0
            < ranking[b].id.0,
{
}

/// No node that was asked for and left out is larger than one that is ranked.
pub proof fn law_left_nodes_are_no_larger(
    nodes: Seq<Node>,
    totals: Seq<Totals>,
    filter: RankFilter,
    ranking: Seq<RankedNode>,
    k: int,
    i: int,
)
    requires
        rest_outranked(nodes, totals, filter, ranking),
        0 <= k < ranking.len(),
        0 <= i < nodes.len() <= u32::MAX + 1,
        forall|m: int| 0 <= m < ranking.len() ==> (#[trigger] ranking[m]).id.0 != i,
        (nodes[i].kind == NodeKind::Directory && filter != RankFilter::Files) || (nodes[i].kind
            == NodeKind::File && filter != RankFilter::Directories),
    ensures
        nodes[i].kind == NodeKind::Directory ==> ranking[k].allocated_size
            >= totals[i].recursive_allocated,
        nodes[i].kind == NodeKind::File ==> ranking[k].allocated_size >= nodes[i].allocated_size,
{
    assert(eligible(nodes, filter).contains(i));
    assert(!is_ranked(ranking, i));
    assert(outranks(ranking[k], ranked_node(nodes, totals, i)));
}

/// Directories take part unless only files are asked for, files unless only directories are;
/// nothing else ever does.
pub proof fn law_filters_take_directories_and_files(filter: RankFilter, kind: NodeKind)
    ensures
        filter.takes(kind) <==> (kind == NodeKind::Directory && filter != RankFilter::Files) || (kind
            == NodeKind::File && filter != RankFilter::Directories),
{
}

} // verus!
