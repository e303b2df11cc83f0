//! Stable sorting of positions by a strict total order.

use vstd::prelude::*;

verus! {

/// A strict total order on the positions `0..size()`.
pub(crate) trait Precedence {
    /// What comparing positions needs to hold.
    spec fn comparable(&self) -> bool;

    /// Number of positions that are ordered.
    spec fn size(&self) -> nat;

    /// Whether position `a` comes before position `b`.
    spec fn before(&self, a: int, b: int) -> bool;

    /// Of two distinct positions exactly one comes first.
    proof fn before_is_total(&self, a: int, b: int)
        requires
            self.comparable(),
            0 <= a < self.size(),
            0 <= b < self.size(),
            a != b,
        ensures
            self.before(a, b) != self.before(b, a),
    ;

    /// Coming before is transitive.
    proof fn before_is_transitive(&self, a: int, b: int, c: int)
        requires
            self.comparable(),
            0 <= a < self.size(),
            0 <= b < self.size(),
            0 <= c < self.size(),
            self.before(a, b),
            self.before(b, c),
        ensures
            self.before(a, c),
    ;

    /// Compares two distinct positions.
    fn is_before(&self, a: usize, b: usize) -> (first: bool)
        requires
            self.comparable(),
            a < self.size(),
            b < self.size(),
            a != b,
        ensures
            first == self.before(a as int, b as int),
    ;
}

/// `places` lists every position of `low..high` exactly once.
pub open spec fn lists_range(places: Seq<usize>, low: int, high: int) -> bool {
    &&& places.len() == high - low
    &&& forall|k: int| 0 <= k < places.len() ==> low <= #[trigger] places[k] < high
    &&& forall|x: usize| low <= x < high ==> #[trigger] places.contains(x)
    &&& places.no_duplicates()
}

/// The positions in `places` stand in ascending order.
pub(crate) open spec fn ascending<O: Precedence>(order: O, places: Seq<usize>) -> bool {
    forall|a: int, b: int|
        0 <= a < b < places.len() ==> order.before(#[trigger] places[a] as int, #[trigger] places[b] as int)
}

/// Merges two ascending lists of positions, `left` over `low..middle` and `right` over
/// `middle..high`.
fn merge<O: Precedence>(
    order: &O,
    left: &Vec<usize>,
    right: &Vec<usize>,
    Ghost(low): Ghost<int>,
    Ghost(middle): Ghost<int>,
    Ghost(high): Ghost<int>,
) -> (merged: Vec<usize>)
    requires
        order.comparable(),
        0 <= low <= middle <= high <= order.size(),
        lists_range(left@, low, middle),
        lists_range(right@, middle, high),
        ascending(*order, left@),
        ascending(*order, right@),
        high <= usize::MAX,
    ensures
        lists_range(merged@, low, high),
        ascending(*order, merged@),
{
    let total: usize = left.len() + right.len();
    let mut merged: Vec<usize> = Vec::with_capacity(total);
    let mut i: usize = 0;
    let mut j: usize = 0;
    while i < left.len() || j < right.len()
        invariant
            order.comparable(),
            0 <= low <= middle <= high <= order.size(),
            high <= usize::MAX,
            lists_range(left@, low, middle),
            lists_range(right@, middle, high),
            ascending(*order, left@),
            ascending(*order, right@),
            i <= left.len(),
            j <= right.len(),
            merged.len() == i + j,
            ascending(*order, merged@),
            forall|k: int| 0 <= k < merged.len() ==> low <= #[trigger] merged@[k] < high,
            forall|k: int, m: int|
                0 <= k < merged.len() && i <= m < left.len() ==> order.before(
                    #[trigger] merged@[k] as int,
                    #[trigger] left@[m] as int,
                ),
            forall|k: int, m: int|
                0 <= k < merged.len() && j <= m < right.len() ==> order.before(
                    #[trigger] merged@[k] as int,
                    #[trigger] right@[m] as int,
                ),
            forall|m: int| 0 <= m < i ==> merged@.contains(#[trigger] left@[m]),
            forall|m: int| 0 <= m < j ==> merged@.contains(#[trigger] right@[m]),
        decreases left.len() - i + right.len() - j,
    {
        let take_left = if i == left.len() {
            false
        } else if j == right.len() {
            true
        } else {
            order.is_before(left[i], right[j])
        };
        let ghost before = merged@;
        if take_left {
            proof {
                if j < right.len() {
                    assert forall|m: int| j <= m < right.len() implies order.before(
                        left@[i as int] as int,
                        #[trigger] right@[m] as int,
                    ) by {
                        if m > j {
                            order.before_is_transitive(
                                left@[i as int] as int,
                                right@[j as int] as int,
                                right@[m] as int,
                            );
                        }
                    }
                }
            }
            merged.push(left[i]);
            i = i + 1;
        } else {
            proof {
                if i < left.len() {
                    order.before_is_total(left@[i as int] as int, right@[j as int] as int);
                    assert forall|m: int| i <= m < left.len() implies order.before(
                        right@[j as int] as int,
                        #[trigger] left@[m] as int,
                    ) by {
                        if m > i {
                            order.before_is_transitive(
                                right@[j as int] as int,
                                left@[i as int] as int,
                                left@[m] as int,
                            );
                        }
                    }
                }
            }
            merged.push(right[j]);
            j = j + 1;
        }
        proof {
            assert forall|x: usize| before.contains(x) implies merged@.contains(x) by {
                let k = choose|k: int| 0 <= k < before.len() && before[k] == x;
                assert(merged@[k] == x);
            }
            assert(merged@[before.len() as int] == merged@.last());
            assert(merged@.contains(merged@.last()));
        }
    }
    proof {
        assert forall|x: usize| low <= x < high implies #[trigger] merged@.contains(x) by {
            if x < middle {
                assert(left@.contains(x));
                let m = choose|m: int| 0 <= m < left@.len() && left@[m] == x;
                assert(merged@.contains(left@[m]));
            } else {
                assert(right@.contains(x));
                let m = choose|m: int| 0 <= m < right@.len() && right@[m] == x;
                assert(merged@.contains(right@[m]));
            }
        }
        lemma_covering_is_duplicate_free(merged@, low, high);
    }
    merged
}

/// A list as long as the range it covers repeats nothing.
proof fn lemma_covering_is_duplicate_free(places: Seq<usize>, low: int, high: int)
    requires
        0 <= low <= high,
        places.len() == high - low,
        forall|x: usize| low <= x < high ==> #[trigger] places.contains(x),
        forall|k: int| 0 <= k < places.len() ==> low <= #[trigger] places[k] < high,
        high <= usize::MAX,
    ensures
        places.no_duplicates(),
{
    let range = vstd::set_lib::set_int_range(low, high);
    vstd::set_lib::lemma_int_range(low, high);
    let wide = places.map_values(|x: usize| x as int);
    assert(wide.to_set() =~= range) by {
        assert forall|x: int| range.contains(x) implies #[trigger] wide.to_set().contains(x) by {
            assert(places.contains(x as usize));
            let k = choose|k: int| 0 <= k < places.len() && places[k] == x as usize;
            assert(wide[k] == x);
        }
    }
    wide.lemma_no_dup_set_cardinality();
    assert forall|a: int, b: int| 0 <= a < places.len() && 0 <= b < places.len() && a != b implies
        places[a] != places[b] by {
        assert(wide[a] != wide[b]);
    }
}

/// The positions `low..high` in ascending order.
fn sort_range<O: Precedence>(order: &O, low: usize, high: usize) -> (places: Vec<usize>)
    requires
        order.comparable(),
        low <= high <= order.size(),
    ensures
        lists_range(places@, low as int, high as int),
        ascending(*order, places@),
    decreases high - low,
{
    let mut places: Vec<usize> = Vec::new();
    if low == high {
        return places;
    }
    if high - low == 1 {
        places.push(low);
        assert(places@[0] == low);
        return places;
    }
    let middle: usize = low + (high - low) / 2;
    let left = sort_range(order, low, middle);
    let right = sort_range(order, middle, high);
    merge(
        order,
        &left,
        &right,
        Ghost(low as int),
        Ghost(middle as int),
        Ghost(high as int),
    )
}

/// All positions of `order`, first to last.
pub(crate) fn sorted_positions<O: Precedence>(order: &O, count: usize) -> (places: Vec<usize>)
    requires
        order.comparable(),
        count == order.size(),
    ensures
        lists_range(places@, 0, count as int),
        ascending(*order, places@),
{
    sort_range(order, 0, count)
}

/// A filtered list is the list at the ascending positions of what the filter keeps.
pub(crate) proof fn lemma_filter_by_positions<T>(
    list: Seq<T>,
    keep: spec_fn(T) -> bool,
    positions: Seq<int>,
)
    requires
        forall|a: int, b: int|
            0 <= a < b < positions.len() ==> #[trigger] positions[a] < #[trigger] positions[b],
        forall|a: int|
            0 <= a < positions.len() ==> 0 <= #[trigger] positions[a] < list.len() && keep(
                list[positions[a]],
            ),
        forall|q: int| 0 <= q < list.len() && keep(list[q]) ==> #[trigger] positions.contains(q),
    ensures
        list.filter(keep) == Seq::new(positions.len(), |a: int| list[positions[a]]),
    decreases list.len(),
{
    reveal(Seq::filter);
    if list.len() == 0 {
        assert(positions.len() == 0) by {
            if positions.len() > 0 {
                assert(positions[0] < list.len());
            }
        }
    } else {
        let shorter = list.drop_last();
        let last = list.len() - 1;
        if keep(list[last]) {
            assert(positions.contains(last));
            let at = choose|a: int| 0 <= a < positions.len() && positions[a] == last;
            assert(at == positions.len() - 1) by {
                if at < positions.len() - 1 {
                    assert(positions[at] < positions[positions.len() - 1]);
                }
            }
            let fewer = positions.drop_last();
            assert forall|q: int| 0 <= q < shorter.len() && keep(shorter[q]) implies #[trigger]
                fewer.contains(q) by {
                assert(positions.contains(q));
                let a = choose|a: int| 0 <= a < positions.len() && positions[a] == q;
                assert(fewer[a] == q);
            }
            lemma_filter_by_positions(shorter, keep, fewer);
        } else {
            assert forall|a: int| 0 <= a < positions.len() implies 0 <= #[trigger] positions[a]
                < shorter.len() && keep(shorter[positions[a]]) by {
                assert(positions[a] != last);
            }
            lemma_filter_by_positions(shorter, keep, positions);
        }
        assert(list.filter(keep) =~= Seq::new(positions.len(), |a: int| list[positions[a]]));
    }
}

/// `a` comes before `b` in the order of byte strings: it is a proper prefix, or smaller at the first
/// byte in which they differ.
pub open spec fn bytes_before(a: Seq<u8>, b: Seq<u8>) -> bool
    decreases a.len(),
{
    if b.len() == 0 {
        false
    } else if a.len() == 0 {
        true
    } else if a[0] != b[0] {
        a[0] < b[0]
    } else {
        bytes_before(a.drop_first(), b.drop_first())
    }
}

/// Of two different byte strings exactly one comes first, of equal ones none.
pub(crate) proof fn lemma_bytes_total(a: Seq<u8>, b: Seq<u8>)
    ensures
        a == b ==> !bytes_before(a, b),
        a != b ==> bytes_before(a, b) != bytes_before(b, a),
    decreases a.len(),
{
    if a.len() > 0 && b.len() > 0 {
        if a[0] == b[0] {
            lemma_bytes_total(a.drop_first(), b.drop_first());
            if a.drop_first() == b.drop_first() {
                assert(a =~= seq![a[0]] + a.drop_first());
                assert(b =~= seq![b[0]] + b.drop_first());
            }
        }
    } else if a.len() == 0 && b.len() == 0 {
        assert(a =~= b);
    }
}

pub(crate) proof fn lemma_bytes_transitive(a: Seq<u8>, b: Seq<u8>, c: Seq<u8>)
    requires
        bytes_before(a, b),
        bytes_before(b, c),
    ensures
        bytes_before(a, c),
    decreases a.len(),
{
    if a.len() > 0 && a[0] == b[0] && b[0] == c[0] {
        lemma_bytes_transitive(a.drop_first(), b.drop_first(), c.drop_first());
    }
}

/// Compares byte strings.
pub(crate) fn is_bytes_before(a: &[u8], b: &[u8]) -> (first: bool)
    ensures
        first == bytes_before(a@, b@),
{
    let mut i: usize = 0;
    proof {
        assert(a@.skip(0) =~= a@);
        assert(b@.skip(0) =~= b@);
    }
    while i < a.len() && i < b.len()
        invariant
            i <= a.len(),
            i <= b.len(),
            bytes_before(a@, b@) == bytes_before(a@.skip(i as int), b@.skip(i as int)),
        decreases a.len() - i,
    {
        if a[i] != b[i] {
            return a[i] < b[i];
        }
        proof {
            assert(a@.skip(i as int).drop_first() =~= a@.skip(i + 1));
            assert(b@.skip(i as int).drop_first() =~= b@.skip(i + 1));
        }
        i = i + 1;
    }
    i < b.len()
}

/// A byte string comes before another exactly if it is a shorter front of it, or is smaller at the
/// first byte in which they differ.
pub proof fn law_bytes_are_ordered_by_the_first_difference(a: Seq<u8>, b: Seq<u8>, same: int)
    requires
        0 <= same <= a.len(),
        same <= b.len(),
        forall|i: int| 0 <= i < same ==> #[trigger] a[i] == b[i],
        same == a.len() || same == b.len() || a[same] != b[same],
    ensures
        bytes_before(a, b) <==> same < b.len() && (same == a.len() || a[same] < b[same]),
    decreases a.len(),
{
    if same > 0 {
        let x = a.drop_first();
        let y = b.drop_first();
        assert(a[0] == b[0]);
        assert forall|i: int| 0 <= i < same - 1 implies #[trigger] x[i] == y[i] by {
            assert(a[i + 1] == b[i + 1]);
        }
        law_bytes_are_ordered_by_the_first_difference(x, y, same - 1);
    }
}

} // verus!
