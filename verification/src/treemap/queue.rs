//! The tiles that may still be divided, largest first.

use vstd::multiset::Multiset;
use vstd::prelude::*;

verus! {

/// A tile queued for division.
#[derive(Clone, Copy, Debug, PartialEq, Eq, Structural)]
pub struct Candidate {
    /// Area of the tile in fixed point.
    pub area: u64,
    /// Position of the tile in the map.
    pub position: usize,
}

/// Larger tiles are divided first; of equal ones, the tile that was added first.
pub open spec fn ahead(a: Candidate, b: Candidate) -> bool {
    a.area > b.area || (a.area == b.area && a.position < b.position)
}

fn is_ahead(a: Candidate, b: Candidate) -> (first: bool)
    ensures
        first == ahead(a, b),
{
    a.area > b.area || (a.area == b.area && a.position < b.position)
}

spec fn above(i: int) -> int {
    (i - 1) / 2
}

/// The candidate at `i` is not ahead of the one above it.
spec fn in_order(heap: Seq<Candidate>, i: int) -> bool {
    !ahead(heap[i], heap[above(i)])
}

/// A binary heap of candidates.
#[derive(Debug)]
pub struct Queue {
    heap: Vec<Candidate>,
}

impl View for Queue {
    type V = Multiset<Candidate>;

    closed spec fn view(&self) -> Multiset<Candidate> {
        self.heap@.to_multiset()
    }
}

/// Replacing one element of a sequence replaces it in the multiset.
proof fn lemma_update_multiset(s: Seq<Candidate>, i: int, x: Candidate)
    requires
        0 <= i < s.len(),
    ensures
        s.update(i, x).to_multiset() == s.to_multiset().remove(s[i]).insert(x),
{
    assert(s.update(i, x) =~= s.remove(i).insert(i, x));
    vstd::seq_lib::to_multiset_remove(s, i);
    vstd::seq_lib::to_multiset_insert(s.remove(i), i, x);
}

/// Swapping two elements of a sequence keeps the multiset.
proof fn lemma_swap_multiset(s: Seq<Candidate>, i: int, j: int)
    requires
        0 <= i < s.len(),
        0 <= j < s.len(),
        i != j,
    ensures
        s.update(i, s[j]).update(j, s[i]).to_multiset() == s.to_multiset(),
{
    lemma_update_multiset(s, i, s[j]);
    lemma_update_multiset(s.update(i, s[j]), j, s[i]);
    vstd::seq_lib::to_multiset_contains(s, s[i]);
    vstd::seq_lib::to_multiset_contains(s, s[j]);
    assert(s.contains(s[i]));
    assert(s.contains(s[j]));
    assert(s.update(i, s[j]).update(j, s[i]).to_multiset() =~= s.to_multiset());
}

/// Nothing in an ordered heap is ahead of its first candidate.
proof fn lemma_first_leads(heap: Seq<Candidate>, i: int)
    requires
        forall|k: int| 0 < k < heap.len() ==> #[trigger] in_order(heap, k),
        0 <= i < heap.len(),
    ensures
        !ahead(heap[i], heap[0]),
    decreases i,
{
    if i > 0 {
        assert(in_order(heap, i));
        lemma_first_leads(heap, above(i));
    }
}

impl Queue {
    /// The candidates are arranged so that the next one is found at once.
    pub closed spec fn arranged(&self) -> bool {
        forall|i: int| 0 < i < self.heap@.len() ==> #[trigger] in_order(self.heap@, i)
    }

    /// An empty queue.
    pub fn new() -> (queue: Queue)
        ensures
            queue.arranged(),
            queue@ == Multiset::<Candidate>::empty(),
    {
        let heap: Vec<Candidate> = Vec::new();
        proof {
            vstd::seq_lib::to_multiset_len(heap@);
            assert(heap@.to_multiset() =~= Multiset::<Candidate>::empty());
        }
        Queue { heap }
    }

    /// Adds a candidate.
    pub fn push(&mut self, candidate: Candidate)
        requires
            old(self).arranged(),
        ensures
            final(self).arranged(),
            final(self)@ == old(self)@.insert(candidate),
    {
        proof {
            vstd::seq_lib::to_multiset_build(self.heap@, candidate);
            assert forall|k: int| 0 < k < self.heap@.len() implies #[trigger] in_order(
                self.heap@.push(candidate),
                k,
            ) by {
                assert(in_order(self.heap@, k));
            }
        }
        let ghost wanted = self.heap@.to_multiset().insert(candidate);
        self.heap.push(candidate);
        let mut i: usize = self.heap.len() - 1;
        while i > 0 && is_ahead(self.heap[i], self.heap[(i - 1) / 2])
            invariant
                i < self.heap@.len(),
                self.heap@.to_multiset() == wanted,
                forall|k: int|
                    0 < k < self.heap@.len() && k != i ==> #[trigger] in_order(self.heap@, k),
                forall|k: int|
                    0 < k < self.heap@.len() && above(k) == i && i > 0 ==> !ahead(
                        #[trigger] self.heap@[k],
                        self.heap@[above(i as int)],
                    ),
            decreases i,
        {
            let up: usize = (i - 1) / 2;
            let ghost before = self.heap@;
            let lower = self.heap[i];
            let upper = self.heap[up];
            self.heap.set(i, upper);
            self.heap.set(up, lower);
            proof {
                lemma_swap_multiset(before, i as int, up as int);
                assert forall|k: int| 0 < k < self.heap@.len() && k != up implies #[trigger] in_order(
                    self.heap@,
                    k,
                ) by {
                    if k != i {
                        assert(in_order(before, k));
                    }
                }
                assert forall|k: int|
                    0 < k < self.heap@.len() && above(k) == up && up > 0 implies !ahead(
                    #[trigger] self.heap@[k],
                    self.heap@[above(up as int)],
                ) by {
                    assert(in_order(before, up as int));
                    if k != i {
                        assert(in_order(before, k));
                    }
                }
            }
            i = up;
        }
        assert(i > 0 ==> in_order(self.heap@, i as int));
    }

    /// Takes out the candidate that comes first.
    pub fn pop(&mut self) -> (next: Option<Candidate>)
        requires
            old(self).arranged(),
        ensures
            final(self).arranged(),
            match next {
                None => old(self)@.len() == 0 && final(self)@ == old(self)@,
                Some(candidate) => {
                    &&& old(self)@.contains(candidate)
                    &&& final(self)@ == old(self)@.remove(candidate)
                    &&& forall|other: Candidate| #[trigger]
                        old(self)@.contains(other) ==> !ahead(other, candidate)
                },
            },
    {
        let ghost all = self.heap@;
        proof {
            vstd::seq_lib::to_multiset_len(all);
        }
        let last = match self.heap.pop() {
            None => {
                return None;
            },
            Some(last) => last,
        };
        proof {
            assert(all =~= all.drop_last().push(last));
            vstd::seq_lib::to_multiset_build(all.drop_last(), last);
            assert(all.contains(all[0]));
            vstd::seq_lib::to_multiset_contains(all, all[0]);
            assert forall|other: Candidate| #[trigger]
                all.to_multiset().contains(other) implies !ahead(other, all[0]) by {
                vstd::seq_lib::to_multiset_contains(all, other);
                let at = choose|at: int| 0 <= at < all.len() && all[at] == other;
                lemma_first_leads(all, at);
            }
        }
        if self.heap.len() == 0 {
            assert(self.heap@.to_multiset() =~= all.to_multiset().remove(last));
            return Some(last);
        }
        let first = self.heap[0];
        let ghost rest = self.heap@;
        self.heap.set(0, last);
        proof {
            lemma_update_multiset(rest, 0, last);
            assert(rest.contains(first));
            vstd::seq_lib::to_multiset_contains(rest, first);
            assert(self.heap@.to_multiset() =~= all.to_multiset().remove(first));
            assert forall|k: int| 0 < k < self.heap@.len() && above(k) != 0 implies #[trigger] in_order(
                self.heap@,
                k,
            ) by {
                assert(in_order(all, k));
            }
        }
        let ghost wanted = self.heap@.to_multiset();
        let count: usize = self.heap.len();
        let mut i: usize = 0;
        let mut settled = false;
        while !settled && i < count / 2
            invariant
                i < count,
                count == self.heap@.len(),
                self.heap@.to_multiset() == wanted,
                forall|k: int|
                    0 < k < count && (settled || above(k) != i) ==> #[trigger] in_order(
                        self.heap@,
                        k,
                    ),
                forall|k: int|
                    0 < k < count && above(k) == i && i > 0 && !settled ==> !ahead(
                        #[trigger] self.heap@[k],
                        self.heap@[above(i as int)],
                    ),
            decreases count - i, if settled { 0int } else { 1int },
        {
            let left: usize = 2 * i + 1;
            let mut down: usize = left;
            if left + 1 < count && is_ahead(self.heap[left + 1], self.heap[left]) {
                down = left + 1;
            }
            let ghost before = self.heap@;
            if is_ahead(self.heap[down], self.heap[i]) {
                let lower = self.heap[down];
                let upper = self.heap[i];
                self.heap.set(down, upper);
                self.heap.set(i, lower);
                proof {
                    lemma_swap_multiset(before, down as int, i as int);
                    assert forall|k: int| 0 < k < count && above(k) != down implies #[trigger] in_order(
                        self.heap@,
                        k,
                    ) by {
                        if k != i && above(k) != i {
                            assert(in_order(before, k));
                        } else if above(k) == i {
                            assert(k == left || k == left + 1);
                        } else {
                            assert(!ahead(before[down as int], before[above(i as int)]));
                        }
                    }
                    assert forall|k: int| 0 < k < count && above(k) == down implies !ahead(
                        #[trigger] self.heap@[k],
                        self.heap@[above(down as int)],
                    ) by {
                        assert(in_order(before, k));
                    }
                }
                i = down;
            } else {
                proof {
                    assert forall|k: int| 0 < k < count implies #[trigger] in_order(
                        self.heap@,
                        k,
                    ) by {
                        if above(k) == i {
                            assert(k == left || k == left + 1);
                        }
                    }
                }
                settled = true;
            }
        }
        Some(first)
    }
}

} // verus!
