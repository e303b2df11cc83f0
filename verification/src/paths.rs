//! Unix paths as byte strings.

use vstd::prelude::*;

use crate::order;
use crate::text;
use crate::text::SLASH;

verus! {

/// The byte of a full stop.
pub const DOT: u8 = 0x2e;

/// A component of a path.
#[derive(Debug)]
pub enum Component {
    /// The root, in front of an absolute path.
    Root,
    /// The current directory, in front of a relative path only.
    Current,
    /// The parent directory.
    Parent,
    /// A name.
    Name(Vec<u8>),
}

/// A component as a value.
#[verifier::ext_equal]
pub enum Piece {
    Root,
    Current,
    Parent,
    Name(Seq<u8>),
}

impl View for Component {
    type V = Piece;

    open spec fn view(&self) -> Piece {
        match self {
            Component::Root => Piece::Root,
            Component::Current => Piece::Current,
            Component::Parent => Piece::Parent,
            Component::Name(name) => Piece::Name(name@),
        }
    }
}

/// Components as values.
pub open spec fn piece_views(components: Seq<Component>) -> Seq<Piece> {
    Seq::new(components.len(), |i: int| components[i]@)
}

/// Length of the part of a path in front of its first slash.
pub open spec fn segment_length(path: Seq<u8>) -> nat
    decreases path.len(),
{
    if path.len() == 0 || path[0] == SLASH {
        0
    } else {
        1 + segment_length(path.drop_first())
    }
}

/// What stands behind the first slash of a path.
pub open spec fn behind_segment(path: Seq<u8>) -> Seq<u8> {
    if segment_length(path) < path.len() {
        path.skip(segment_length(path) as int + 1)
    } else {
        Seq::empty()
    }
}

/// What a part of a path between slashes stands for. Nothing and a single full stop stand for
/// nothing.
pub open spec fn segment_pieces(segment: Seq<u8>) -> Seq<Piece> {
    if segment.len() == 0 || segment == seq![DOT] {
        Seq::empty()
    } else if segment == seq![DOT, DOT] {
        seq![Piece::Parent]
    } else {
        seq![Piece::Name(segment)]
    }
}

/// What the parts of a path between slashes stand for.
pub open spec fn inner_pieces(path: Seq<u8>) -> Seq<Piece>
    decreases path.len(),
{
    if path.len() == 0 {
        Seq::empty()
    } else {
        proof {
            law_segment_ends_at_slash(path);
        }
        segment_pieces(path.take(segment_length(path) as int)) + inner_pieces(behind_segment(path))
    }
}

/// The first part of a path holds no slash, and a slash or the end follows it.
pub proof fn law_segment_ends_at_slash(path: Seq<u8>)
    ensures
        segment_length(path) <= path.len(),
        segment_length(path) < path.len() ==> path[segment_length(path) as int] == SLASH,
        forall|i: int| 0 <= i < segment_length(path) ==> #[trigger] path[i] != SLASH,
    decreases path.len(),
{
    if path.len() > 0 && path[0] != SLASH {
        let rest = path.drop_first();
        law_segment_ends_at_slash(rest);
        assert forall|i: int| 0 <= i < segment_length(path) implies #[trigger] path[i] != SLASH by {
            if i > 0 {
                assert(rest[i - 1] == path[i]);
            }
        }
    }
}

/// The path is absolute.
pub open spec fn absolute(path: Seq<u8>) -> bool {
    path.len() > 0 && path[0] == SLASH
}

/// The path is relative and starts at the current directory.
pub open spec fn starts_here(path: Seq<u8>) -> bool {
    !absolute(path) && path.take(segment_length(path) as int) == seq![DOT]
}

/// The components of a path. Repeated and trailing slashes and full stops inside do not count.
pub open spec fn pieces(path: Seq<u8>) -> Seq<Piece> {
    if absolute(path) {
        seq![Piece::Root] + inner_pieces(path)
    } else if starts_here(path) {
        seq![Piece::Current] + inner_pieces(path)
    } else {
        inner_pieces(path)
    }
}

/// Whether a path is absolute.
pub fn is_absolute(path: &[u8]) -> (is: bool)
    ensures
        is == absolute(path@),
{
    path.len() > 0 && path[0] == SLASH
}

/// Where the part of `path` that starts at `start` ends.
fn segment_end(path: &[u8], start: usize) -> (end: usize)
    requires
        start <= path@.len(),
    ensures
        start <= end <= path@.len(),
        end == start + segment_length(path@.skip(start as int)),
{
    let mut end: usize = start;
    let ghost rest = path@.skip(start as int);
    proof {
        assert(rest.skip(0) =~= rest);
    }
    while end < path.len() && path[end] != SLASH
        invariant
            start <= end <= path@.len(),
            rest == path@.skip(start as int),
            segment_length(rest) == end - start + segment_length(rest.skip(end - start)),
        decreases path@.len() - end,
    {
        proof {
            assert(rest.skip(end - start)[0] == path@[end as int]);
            assert(rest.skip(end - start).drop_first() =~= rest.skip(end - start + 1));
        }
        end = end + 1;
    }
    proof {
        if end < path@.len() {
            assert(rest.skip(end - start)[0] == path@[end as int]);
        }
    }
    end
}

/// Whether the bytes `start..end` are a single full stop.
fn is_dot(path: &[u8], start: usize, end: usize) -> (is: bool)
    requires
        start <= end <= path@.len(),
    ensures
        is == (path@.subrange(start as int, end as int) == seq![DOT]),
{
    let is: bool = end - start == 1 && path[start] == DOT;
    proof {
        let segment = path@.subrange(start as int, end as int);
        if is {
            assert(segment =~= seq![DOT]);
        } else if segment =~= seq![DOT] {
            assert(segment.len() == 1);
            assert(path@[start as int] == segment[0]);
        }
    }
    is
}

/// Whether the bytes `start..end` are two full stops.
fn is_two_dots(path: &[u8], start: usize, end: usize) -> (is: bool)
    requires
        start <= end <= path@.len(),
    ensures
        is == (path@.subrange(start as int, end as int) == seq![DOT, DOT]),
{
    let is: bool = end - start == 2 && path[start] == DOT && path[start + 1] == DOT;
    proof {
        let segment = path@.subrange(start as int, end as int);
        if is {
            assert(segment =~= seq![DOT, DOT]);
        } else if segment =~= seq![DOT, DOT] {
            assert(segment.len() == 2);
            assert(path@[start as int] == segment[0]);
            assert(path@[start + 1] == segment[1]);
        }
    }
    is
}

/// The components of a path.
pub fn components(path: &[u8]) -> (components: Vec<Component>)
    ensures
        piece_views(components@) == pieces(path@),
{
    let mut components: Vec<Component> = Vec::new();
    if is_absolute(path) {
        components.push(Component::Root);
    } else {
        assert(path@.skip(0) =~= path@);
        let end: usize = segment_end(path, 0);
        assert(path@.subrange(0, end as int) =~= path@.take(end as int));
        if is_dot(path, 0, end) {
            components.push(Component::Current);
        }
    }
    let ghost front = piece_views(components@);
    let mut start: usize = 0;
    proof {
        assert(path@.skip(0) =~= path@);
        assert(front + inner_pieces(path@) =~= pieces(path@));
    }
    while start < path.len()
        invariant
            start <= path@.len(),
            piece_views(components@) + inner_pieces(path@.skip(start as int)) == pieces(path@),
        decreases path@.len() - start,
    {
        let ghost rest = path@.skip(start as int);
        let end: usize = segment_end(path, start);
        let ghost segment = path@.subrange(start as int, end as int);
        let ghost before = piece_views(components@);
        proof {
            law_segment_ends_at_slash(rest);
            assert(segment =~= rest.take(segment_length(rest) as int));
        }
        if end > start && !is_dot(path, start, end) {
            if is_two_dots(path, start, end) {
                components.push(Component::Parent);
            } else {
                let name = text::copy_bytes(vstd::slice::slice_subrange(path, start, end));
                components.push(Component::Name(name));
            }
        }
        assert(piece_views(components@) =~= before + segment_pieces(segment));
        let ghost now = piece_views(components@);
        if end < path.len() {
            start = end + 1;
            assert(path@.skip(start as int) =~= behind_segment(rest));
        } else {
            start = end;
            assert(path@.skip(start as int) =~= behind_segment(rest));
        }
        proof {
            assert(now + inner_pieces(behind_segment(rest)) =~= before + (segment_pieces(segment)
                + inner_pieces(behind_segment(rest))));
        }
    }
    proof {
        assert(path@.skip(start as int) =~= Seq::empty());
        assert(piece_views(components@) + Seq::<Piece>::empty() =~= piece_views(components@));
    }
    components
}

/// Components stand in the order root, current directory, parent directory, names.
pub open spec fn piece_rank(piece: Piece) -> int {
    match piece {
        Piece::Root => 0,
        Piece::Current => 1,
        Piece::Parent => 2,
        Piece::Name(_) => 3,
    }
}

/// One component comes before another.
pub open spec fn piece_before(a: Piece, b: Piece) -> bool {
    piece_rank(a) < piece_rank(b) || match (a, b) {
        (Piece::Name(left), Piece::Name(right)) => order::bytes_before(left, right),
        _ => false,
    }
}

/// One path comes before another: its components are the front of the other's, or the first that
/// differs comes before the other's.
pub open spec fn pieces_before(a: Seq<Piece>, b: Seq<Piece>) -> bool
    decreases a.len(),
{
    if b.len() == 0 {
        false
    } else if a.len() == 0 {
        true
    } else if a[0] != b[0] {
        piece_before(a[0], b[0])
    } else {
        pieces_before(a.drop_first(), b.drop_first())
    }
}

proof fn lemma_piece_total(a: Piece, b: Piece)
    ensures
        a == b ==> !piece_before(a, b),
        a != b ==> piece_before(a, b) != piece_before(b, a),
{
    match (a, b) {
        (Piece::Name(left), Piece::Name(right)) => {
            order::lemma_bytes_total(left, right);
        },
        _ => {},
    }
}

proof fn lemma_piece_transitive(a: Piece, b: Piece, c: Piece)
    requires
        piece_before(a, b),
        piece_before(b, c),
    ensures
        piece_before(a, c),
{
    match (a, b, c) {
        (Piece::Name(left), Piece::Name(middle), Piece::Name(right)) => {
            order::lemma_bytes_transitive(left, middle, right);
        },
        _ => {},
    }
}

/// Of two different paths exactly one comes first, of equal ones none.
pub(crate) proof fn lemma_pieces_total(a: Seq<Piece>, b: Seq<Piece>)
    ensures
        a == b ==> !pieces_before(a, b),
        a != b ==> pieces_before(a, b) != pieces_before(b, a),
    decreases a.len(),
{
    if a.len() > 0 && b.len() > 0 {
        if a[0] == b[0] {
            lemma_pieces_total(a.drop_first(), b.drop_first());
            if a.drop_first() == b.drop_first() {
                assert(a =~= seq![a[0]] + a.drop_first());
                assert(b =~= seq![b[0]] + b.drop_first());
            }
        } else {
            lemma_piece_total(a[0], b[0]);
        }
    } else if a.len() == 0 && b.len() == 0 {
        assert(a =~= b);
    }
}

pub(crate) proof fn lemma_pieces_transitive(a: Seq<Piece>, b: Seq<Piece>, c: Seq<Piece>)
    requires
        pieces_before(a, b),
        pieces_before(b, c),
    ensures
        pieces_before(a, c),
    decreases a.len(),
{
    if a.len() > 0 {
        lemma_piece_total(a[0], c[0]);
        if a[0] == b[0] && b[0] == c[0] {
            lemma_pieces_transitive(a.drop_first(), b.drop_first(), c.drop_first());
        } else if a[0] != b[0] && b[0] != c[0] {
            lemma_piece_total(a[0], b[0]);
            if a[0] != c[0] {
                lemma_piece_transitive(a[0], b[0], c[0]);
            }
        }
    }
}

/// How two components or paths compare.
#[derive(Clone, Copy, Debug, Eq, PartialEq, Structural)]
enum Relation {
    Before,
    Same,
    Behind,
}

/// Compares two components.
fn relate(a: &Component, b: &Component) -> (relation: Relation)
    ensures
        match relation {
            Relation::Before => piece_before(a@, b@) && a@ != b@,
            Relation::Same => a@ == b@,
            Relation::Behind => piece_before(b@, a@) && a@ != b@,
        },
{
    proof {
        lemma_piece_total(a@, b@);
    }
    match (a, b) {
        (Component::Root, Component::Root) => Relation::Same,
        (Component::Root, _) => Relation::Before,
        (_, Component::Root) => Relation::Behind,
        (Component::Current, Component::Current) => Relation::Same,
        (Component::Current, _) => Relation::Before,
        (_, Component::Current) => Relation::Behind,
        (Component::Parent, Component::Parent) => Relation::Same,
        (Component::Parent, _) => Relation::Before,
        (_, Component::Parent) => Relation::Behind,
        (Component::Name(left), Component::Name(right)) => {
            proof {
                order::lemma_bytes_total(left@, right@);
            }
            if order::is_bytes_before(left.as_slice(), right.as_slice()) {
                Relation::Before
            } else if order::is_bytes_before(right.as_slice(), left.as_slice()) {
                Relation::Behind
            } else {
                Relation::Same
            }
        },
    }
}

/// Compares two paths by their components.
fn relate_paths(a: &[u8], b: &[u8]) -> (relation: Relation)
    ensures
        match relation {
            Relation::Before => pieces_before(pieces(a@), pieces(b@)) && pieces(a@) != pieces(b@),
            Relation::Same => pieces(a@) == pieces(b@),
            Relation::Behind => pieces_before(pieces(b@), pieces(a@)) && pieces(a@) != pieces(b@),
        },
{
    let left = components(a);
    let right = components(b);
    let ghost one = pieces(a@);
    let ghost two = pieces(b@);
    let mut i: usize = 0;
    proof {
        assert(one.skip(0) =~= one);
        assert(two.skip(0) =~= two);
        lemma_pieces_total(one, two);
    }
    while i < left.len() && i < right.len()
        invariant
            i <= left.len(),
            i <= right.len(),
            piece_views(left@) == one,
            piece_views(right@) == two,
            one == pieces(a@),
            two == pieces(b@),
            one.take(i as int) == two.take(i as int),
            pieces_before(one, two) == pieces_before(one.skip(i as int), two.skip(i as int)),
            pieces_before(two, one) == pieces_before(two.skip(i as int), one.skip(i as int)),
        decreases left.len() - i,
    {
        assert(left@[i as int]@ == one[i as int]);
        assert(right@[i as int]@ == two[i as int]);
        assert(one.skip(i as int)[0] == one[i as int]);
        assert(two.skip(i as int)[0] == two[i as int]);
        match relate(&left[i], &right[i]) {
            Relation::Before => {
                assert(one[i as int] != two[i as int]);
                return Relation::Before;
            },
            Relation::Behind => {
                assert(one[i as int] != two[i as int]);
                return Relation::Behind;
            },
            Relation::Same => {},
        }
        proof {
            assert(one.skip(i as int).drop_first() =~= one.skip(i + 1));
            assert(two.skip(i as int).drop_first() =~= two.skip(i + 1));
            assert(one.take(i + 1) =~= one.take(i as int).push(one[i as int]));
            assert(two.take(i + 1) =~= two.take(i as int).push(two[i as int]));
        }
        i = i + 1;
    }
    proof {
        assert(one.len() == left.len());
        assert(two.len() == right.len());
    }
    if i < right.len() {
        assert(one != two);
        Relation::Before
    } else if i < left.len() {
        assert(one != two);
        Relation::Behind
    } else {
        assert(one.take(i as int) =~= one);
        assert(two.take(i as int) =~= two);
        Relation::Same
    }
}

/// Whether two paths have the same components.
pub fn same_path(a: &[u8], b: &[u8]) -> (same: bool)
    ensures
        same == (pieces(a@) == pieces(b@)),
{
    matches!(relate_paths(a, b), Relation::Same)
}

/// Whether one path comes before another.
pub fn path_before(a: &[u8], b: &[u8]) -> (before: bool)
    ensures
        before == pieces_before(pieces(a@), pieces(b@)),
{
    proof {
        lemma_pieces_total(pieces(a@), pieces(b@));
    }
    matches!(relate_paths(a, b), Relation::Before)
}

/// The path `relative` seen from `base`.
pub open spec fn joined(base: Seq<u8>, relative: Seq<u8>) -> Seq<u8> {
    if absolute(relative) || base.len() == 0 {
        relative
    } else if base.last() == SLASH {
        base + relative
    } else {
        base + seq![SLASH] + relative
    }
}

/// The path `relative` seen from `base`. An absolute path stays what it is.
pub fn join(base: &[u8], relative: &[u8]) -> (path: Vec<u8>)
    ensures
        path@ == joined(base@, relative@),
{
    if is_absolute(relative) || base.len() == 0 {
        return text::copy_bytes(relative);
    }
    let mut path = text::copy_bytes(base);
    if base[base.len() - 1] != SLASH {
        path.push(SLASH);
        assert(path@ =~= base@ + seq![SLASH]);
    }
    path.extend_from_slice(relative);
    path
}

proof fn lemma_segment_of_sum(front: Seq<u8>, back: Seq<u8>)
    requires
        back.len() > 0 ==> back[0] == SLASH,
    ensures
        segment_length(front + back) == segment_length(front),
    decreases front.len(),
{
    if front.len() > 0 {
        assert((front + back)[0] == front[0]);
        assert((front + back).drop_first() =~= front.drop_first() + back);
        lemma_segment_of_sum(front.drop_first(), back);
    } else {
        assert(front + back =~= back);
    }
}

/// The parts of two paths with a slash between them are the parts of the first and then those of
/// the second.
proof fn lemma_pieces_of_sum(front: Seq<u8>, back: Seq<u8>)
    ensures
        inner_pieces(front + seq![SLASH] + back) == inner_pieces(front) + inner_pieces(back),
    decreases front.len(),
{
    let tail = seq![SLASH] + back;
    let whole = front + seq![SLASH] + back;
    assert(whole =~= front + tail);
    lemma_segment_of_sum(front, tail);
    law_segment_ends_at_slash(front);
    let n = segment_length(front) as int;
    assert(whole.take(n) =~= front.take(n));
    if front.len() == 0 {
        assert(front.take(n) =~= Seq::empty());
        assert(behind_segment(whole) =~= back);
        assert(inner_pieces(whole) =~= inner_pieces(back));
        assert(inner_pieces(front) + inner_pieces(back) =~= inner_pieces(back));
    } else if n < front.len() {
        let rest = behind_segment(front);
        assert(behind_segment(whole) =~= rest + seq![SLASH] + back);
        lemma_pieces_of_sum(rest, back);
        assert(inner_pieces(whole) =~= inner_pieces(front) + inner_pieces(back));
    } else {
        assert(behind_segment(whole) =~= back);
        let none = Seq::<u8>::empty();
        assert(behind_segment(front) =~= none);
        assert(inner_pieces(none) == Seq::<Piece>::empty());
        assert(inner_pieces(front) == segment_pieces(front.take(n)) + inner_pieces(none));
        assert(inner_pieces(front) =~= segment_pieces(front.take(n)));
        assert(inner_pieces(whole) == segment_pieces(whole.take(n)) + inner_pieces(back));
    }
}

/// Below an absolute path, the components of a joined path are those of the path and then those of
/// the relative one.
pub proof fn law_join_adds_components(base: Seq<u8>, relative: Seq<u8>)
    requires
        absolute(base),
        !absolute(relative),
        !starts_here(relative),
    ensures
        absolute(joined(base, relative)),
        pieces(joined(base, relative)) == pieces(base) + pieces(relative),
{
    let path = joined(base, relative);
    if base.last() == SLASH {
        let front = base.drop_last();
        assert(base =~= front + seq![SLASH] + Seq::<u8>::empty());
        assert(path =~= front + seq![SLASH] + relative);
        lemma_pieces_of_sum(front, relative);
        lemma_pieces_of_sum(front, Seq::empty());
        assert(inner_pieces(base) =~= inner_pieces(front));
        assert(path[0] == base[0]);
    } else {
        lemma_pieces_of_sum(base, relative);
        assert(path[0] == base[0]);
    }
    assert(pieces(path) =~= pieces(base) + pieces(relative));
}

/// `start..end` is a part of the path between slashes or ends.
pub open spec fn is_segment(path: Seq<u8>, start: int, end: int) -> bool {
    &&& 0 <= start < end <= path.len()
    &&& start == 0 || path[start - 1] == 0x2f
    &&& end == path.len() || path[end] == 0x2f
    &&& forall|i: int| start <= i < end ==> #[trigger] path[i] != 0x2f
}

/// Every part of a path between slashes counts: two full stops lead up, a single one says nothing,
/// and everything else is a name, taken byte by byte.
pub proof fn law_every_segment_counts(path: Seq<u8>, start: int, end: int)
    requires
        is_segment(path, start, end),
    ensures
        ({
            let segment = path.subrange(start, end);
            &&& segment == seq![0x2eu8, 0x2eu8] ==> pieces(path).contains(Piece::Parent)
            &&& segment != seq![0x2eu8, 0x2eu8] && segment != seq![0x2eu8] ==> pieces(
                path,
            ).contains(Piece::Name(segment))
        }),
{
    lemma_segment_counts(path, start, end);
    let segment = path.subrange(start, end);
    let inner = inner_pieces(path);
    let all = pieces(path);
    if segment == seq![0x2eu8, 0x2eu8] {
        let k = choose|k: int| 0 <= k < inner.len() && inner[k] == Piece::Parent;
        assert(all[all.len() - inner.len() + k] == inner[k]);
    } else if segment != seq![0x2eu8] {
        let k = choose|k: int| 0 <= k < inner.len() && inner[k] == Piece::Name(segment);
        assert(all[all.len() - inner.len() + k] == inner[k]);
    }
}

proof fn lemma_segment_counts(path: Seq<u8>, start: int, end: int)
    requires
        is_segment(path, start, end),
    ensures
        ({
            let segment = path.subrange(start, end);
            &&& segment == seq![DOT, DOT] ==> inner_pieces(path).contains(Piece::Parent)
            &&& segment != seq![DOT, DOT] && segment != seq![DOT] ==> inner_pieces(path).contains(
                Piece::Name(segment),
            )
        }),
    decreases path.len(),
{
    law_segment_ends_at_slash(path);
    let length = segment_length(path) as int;
    let rest = behind_segment(path);
    let here = segment_pieces(path.take(length));
    let inner = inner_pieces(path);
    let segment = path.subrange(start, end);
    assert(inner == here + inner_pieces(rest));
    if start == 0 {
        assert(end == length) by {
            if end < length {
                assert(path[end] != SLASH);
            }
            if length < end {
                assert(path[length] != 0x2f);
            }
        }
        assert(path.take(length) =~= segment);
        if here.len() > 0 {
            assert(inner[0] == here[0]);
        }
    } else {
        assert(length < start) by {
            if start <= length {
                assert(path[start - 1] != SLASH);
            }
        }
        let skip = length + 1;
        assert forall|i: int| start - skip <= i < end - skip implies #[trigger] rest[i] != 0x2f by {
            assert(rest[i] == path[i + skip]);
        }
        assert(rest.subrange(start - skip, end - skip) =~= segment);
        lemma_segment_counts(rest, start - skip, end - skip);
        let tail = inner_pieces(rest);
        if segment == seq![DOT, DOT] {
            let k = choose|k: int| 0 <= k < tail.len() && tail[k] == Piece::Parent;
            assert(inner[here.len() + k] == tail[k]);
        } else if segment != seq![DOT] {
            let k = choose|k: int| 0 <= k < tail.len() && tail[k] == Piece::Name(segment);
            assert(inner[here.len() + k] == tail[k]);
        }
    }
}

/// A name that can stand in a path.
pub open spec fn is_name(name: Seq<u8>) -> bool {
    &&& name.len() > 0
    &&& name != seq![0x2eu8]
    &&& name != seq![0x2eu8, 0x2eu8]
    &&& forall|i: int| 0 <= i < name.len() ==> #[trigger] name[i] != 0x2f
}

/// Names, each behind a slash.
pub open spec fn path_of_names(names: Seq<Seq<u8>>) -> Seq<u8>
    decreases names.len(),
{
    if names.len() == 0 {
        Seq::empty()
    } else {
        seq![0x2fu8] + names[0] + path_of_names(names.drop_first())
    }
}

/// The names as components.
pub open spec fn name_pieces(names: Seq<Seq<u8>>) -> Seq<Piece> {
    Seq::new(names.len(), |i: int| Piece::Name(names[i]))
}

proof fn lemma_segment_of(name: Seq<u8>, rest: Seq<u8>)
    requires
        forall|i: int| 0 <= i < name.len() ==> #[trigger] name[i] != SLASH,
        rest.len() == 0 || rest[0] == SLASH,
    ensures
        segment_length(name + rest) == name.len(),
{
    let path = name + rest;
    law_segment_ends_at_slash(path);
    let length = segment_length(path) as int;
    if length < name.len() {
        assert(path[length] == name[length]);
    }
    if length > name.len() {
        assert(path[name.len() as int] == rest[0]);
    }
}

proof fn lemma_names_make_pieces(names: Seq<Seq<u8>>)
    requires
        forall|i: int| 0 <= i < names.len() ==> #[trigger] is_name(names[i]),
    ensures
        inner_pieces(path_of_names(names)) == name_pieces(names),
    decreases names.len(),
{
    if names.len() == 0 {
        assert(name_pieces(names) =~= Seq::empty());
    } else {
        let name = names[0];
        let rest = names.drop_first();
        let tail = path_of_names(rest);
        let path = path_of_names(names);
        assert(is_name(names[0]));
        assert forall|i: int| 0 <= i < rest.len() implies #[trigger] is_name(rest[i]) by {
            assert(is_name(names[i + 1]));
        }
        lemma_names_make_pieces(rest);
        assert(path == seq![0x2fu8] + name + tail);
        assert(path[0] == SLASH);
        assert(segment_length(path) == 0);
        assert(behind_segment(path) =~= name + tail);
        assert(path.take(0) =~= Seq::empty());
        assert(inner_pieces(path) =~= inner_pieces(name + tail));
        assert(tail.len() == 0 || tail[0] == SLASH);
        lemma_segment_of(name, tail);
        let after = name + tail;
        assert(after.take(name.len() as int) =~= name);
        assert(segment_pieces(name) =~= seq![Piece::Name(name)]);
        if tail.len() == 0 {
            assert(behind_segment(after) =~= Seq::empty());
            assert(rest.len() == 0);
            assert(inner_pieces(after) =~= seq![Piece::Name(name)]);
        } else {
            assert(behind_segment(after) =~= tail.drop_first());
            assert(segment_length(tail) == 0);
            assert(behind_segment(tail) =~= tail.drop_first());
            assert(tail.take(0) =~= Seq::empty());
            assert(inner_pieces(tail) =~= inner_pieces(tail.drop_first()));
            assert(inner_pieces(after) =~= seq![Piece::Name(name)] + inner_pieces(tail));
        }
        assert(name_pieces(names) =~= seq![Piece::Name(name)] + name_pieces(rest));
    }
}

/// A path of names has exactly these names for its components, behind the root: none is lost or
/// changed.
pub proof fn law_names_make_components(names: Seq<Seq<u8>>)
    requires
        names.len() > 0,
        forall|i: int| 0 <= i < names.len() ==> #[trigger] is_name(names[i]),
    ensures
        pieces(path_of_names(names)) == seq![Piece::Root] + name_pieces(names),
{
    lemma_names_make_pieces(names);
    assert(path_of_names(names)[0] == SLASH);
}

/// Paths are ordered by the first component in which they differ: the front of a longer path comes
/// first, and names go byte by byte.
pub proof fn law_paths_are_ordered_by_the_first_difference(a: Seq<Piece>, b: Seq<Piece>, same: int)
    requires
        0 <= same <= a.len(),
        same <= b.len(),
        forall|i: int| 0 <= i < same ==> #[trigger] a[i] == b[i],
        same == a.len() || same == b.len() || a[same] != b[same],
    ensures
        same == b.len() ==> !pieces_before(a, b),
        same == a.len() && same < b.len() ==> pieces_before(a, b),
        same < a.len() && same < b.len() && a[same] is Name && b[same] is Name ==> pieces_before(
            a,
            b,
        ) == order::bytes_before(a[same]->Name_0, b[same]->Name_0),
    decreases a.len(),
{
    if same > 0 {
        assert(a[0] == b[0]);
        let x = a.drop_first();
        let y = b.drop_first();
        assert forall|i: int| 0 <= i < same - 1 implies #[trigger] x[i] == y[i] by {
            assert(a[i + 1] == b[i + 1]);
        }
        law_paths_are_ordered_by_the_first_difference(x, y, same - 1);
    }
}

} // verus!
