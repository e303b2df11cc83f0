//! Rows of tiles that fill a rectangle of pixels without gap or overlap.

use vstd::prelude::*;

use crate::node::NodeId;
use crate::treemap::partition::Share;

verus! {

/// A rectangle whose edges lie between pixels.
#[derive(Clone, Copy, Debug, PartialEq, Eq, Structural)]
pub struct PixelRect {
    pub x: u32,
    pub y: u32,
    pub w: u32,
    pub h: u32,
}

impl PixelRect {
    /// The pixel in column `px` of line `py` lies inside.
    pub open spec fn covers(self, px: int, py: int) -> bool {
        self.x <= px < self.x + self.w && self.y <= py < self.y + self.h
    }

    /// The far edges have coordinates.
    pub open spec fn fits(self) -> bool {
        self.x + self.w <= u32::MAX && self.y + self.h <= u32::MAX
    }

    /// Rows run across the shorter side.
    pub open spec fn side(self) -> u32 {
        if self.w >= self.h {
            self.h
        } else {
            self.w
        }
    }

    /// Rows are stacked along the longer side.
    pub open spec fn length(self) -> u32 {
        if self.w >= self.h {
            self.w
        } else {
            self.h
        }
    }

    /// The length of the shorter side.
    pub fn short_side(self) -> (side: u32)
        ensures
            side == self.side(),
    {
        if self.w >= self.h {
            self.h
        } else {
            self.w
        }
    }

    /// The length of the longer side.
    pub fn long_side(self) -> (length: u32)
        ensures
            length == self.length(),
    {
        if self.w >= self.h {
            self.w
        } else {
            self.h
        }
    }
}

/// A tile of a row.
#[derive(Clone, Copy, Debug, PartialEq, Eq, Structural)]
pub struct RowTile {
    pub id: NodeId,
    pub rect: PixelRect,
}

/// The tiles that were placed, the rectangle that is still free, and what is still to go there.
#[derive(Debug)]
pub struct Rows {
    pub tiles: Vec<RowTile>,
    pub rest: PixelRect,
    /// How much of the size the free rectangle stands for.
    pub remaining: u64,
    /// How many shares were placed.
    pub placed: usize,
}

/// `cuts` are where the tiles of a row end, in ascending order and no farther than `side`.
pub open spec fn cuts_fit(cuts: Seq<u32>, side: u32) -> bool {
    &&& forall|i: int, j: int| 0 <= i <= j < cuts.len() ==> #[trigger] cuts[i] <= #[trigger] cuts[j]
    &&& forall|i: int| 0 <= i < cuts.len() ==> #[trigger] cuts[i] <= side
}

/// Where tile `k` of a row starts.
pub open spec fn cut_before(cuts: Seq<u32>, k: int) -> u32 {
    if k <= 0 {
        0
    } else {
        cuts[k - 1]
    }
}

/// The rectangle of tile `k` of a row along the near edge of `rect`.
pub open spec fn row_rect(rect: PixelRect, thickness: u32, cuts: Seq<u32>, k: int) -> PixelRect {
    let start = cut_before(cuts, k);
    let extent = (cuts[k] - start) as u32;
    if rect.w >= rect.h {
        PixelRect { x: rect.x, y: (rect.y + start) as u32, w: thickness, h: extent }
    } else {
        PixelRect { x: (rect.x + start) as u32, y: rect.y, w: extent, h: thickness }
    }
}

/// The tiles of a row.
pub open spec fn row_tiles(
    shares: Seq<Share>,
    from: int,
    rect: PixelRect,
    thickness: u32,
    cuts: Seq<u32>,
) -> Seq<RowTile> {
    Seq::new(
        cuts.len(),
        |k: int|
            RowTile { id: shares[from + k].id, rect: row_rect(rect, thickness, cuts, k) },
    )
}

/// What a row leaves of `rect`.
pub open spec fn beyond_row(rect: PixelRect, thickness: u32) -> PixelRect {
    if rect.w >= rect.h {
        PixelRect {
            x: (rect.x + thickness) as u32,
            y: rect.y,
            w: (rect.w - thickness) as u32,
            h: rect.h,
        }
    } else {
        PixelRect {
            x: rect.x,
            y: (rect.y + thickness) as u32,
            w: rect.w,
            h: (rect.h - thickness) as u32,
        }
    }
}

/// The sizes of the `count` shares from `from` on.
pub open spec fn row_sizes(shares: Seq<Share>, from: int, count: nat) -> nat
    decreases count,
{
    if count == 0 {
        0
    } else {
        row_sizes(shares, from, (count - 1) as nat) + shares[from + count - 1].size as nat
    }
}

/// What is left of `remaining`.
pub open spec fn left_of(remaining: u64, taken: nat) -> u64 {
    if taken >= remaining {
        0
    } else {
        (remaining - taken) as u64
    }
}

/// Whether the tiles of a row can end at `cuts`.
pub fn are_cuts_fitting(cuts: &[u32], side: u32) -> (fitting: bool)
    ensures
        fitting == cuts_fit(cuts@, side),
{
    let mut i: usize = 0;
    while i < cuts.len()
        invariant
            i <= cuts@.len(),
            forall|a: int, b: int| 0 <= a <= b < i ==> #[trigger] cuts@[a] <= #[trigger] cuts@[b],
            forall|a: int| 0 <= a < i ==> #[trigger] cuts@[a] <= side,
        decreases cuts@.len() - i,
    {
        if cuts[i] > side || (i > 0 && cuts[i] < cuts[i - 1]) {
            assert(cuts@[i as int] > side || cuts@[i - 1] > cuts@[i as int]);
            return false;
        }
        i = i + 1;
    }
    true
}

impl Rows {
    /// Nothing is placed yet.
    pub fn new(rect: PixelRect, total: u64) -> (rows: Rows)
        ensures
            rows.tiles@ == Seq::<RowTile>::empty(),
            rows.rest == rect,
            rows.remaining == total,
            rows.placed == 0,
            divides(rect, rows.tiles@, rows.rest),
    {
        Rows { tiles: Vec::new(), rest: rect, remaining: total, placed: 0 }
    }

    /// Places one tile for each of `cuts` along the near edge of the free rectangle.
    pub fn place_row(&mut self, shares: &[Share], thickness: u32, cuts: &[u32])
        requires
            old(self).rest.fits(),
            thickness <= old(self).rest.length(),
            cuts_fit(cuts@, old(self).rest.side()),
            old(self).placed + cuts@.len() <= shares@.len(),
        ensures
            final(self).tiles@ == old(self).tiles@ + row_tiles(
                shares@,
                old(self).placed as int,
                old(self).rest,
                thickness,
                cuts@,
            ),
            final(self).rest == beyond_row(old(self).rest, thickness),
            final(self).rest.fits(),
            final(self).placed == old(self).placed + cuts@.len(),
            final(self).remaining == left_of(
                old(self).remaining,
                row_sizes(shares@, old(self).placed as int, cuts@.len()),
            ),
            forall|whole: PixelRect| #[trigger]
                divides(whole, old(self).tiles@, old(self).rest) && cuts@.len() > 0
                    && cuts@.last() == old(self).rest.side() ==> divides(
                    whole,
                    final(self).tiles@,
                    final(self).rest,
                ),
    {
        let ghost before = *self;
        let rect = self.rest;
        let from: usize = self.placed;
        let count: usize = shares.len();
        let wide = rect.w >= rect.h;
        let ghost wanted = row_tiles(shares@, from as int, rect, thickness, cuts@);
        let mut k: usize = 0;
        while k < cuts.len()
            invariant
                k <= cuts@.len(),
                from == before.placed,
                rect == before.rest,
                rect.fits(),
                wide == (rect.w >= rect.h),
                cuts_fit(cuts@, rect.side()),
                from + cuts@.len() <= count,
                count == shares@.len(),
                wanted == row_tiles(shares@, from as int, rect, thickness, cuts@),
                self.tiles@ == before.tiles@ + wanted.take(k as int),
                self.rest == before.rest,
                self.placed == before.placed,
                self.remaining == left_of(
                    before.remaining,
                    row_sizes(shares@, from as int, k as nat),
                ),
            decreases cuts@.len() - k,
        {
            let start: u32 = if k == 0 {
                0
            } else {
                cuts[k - 1]
            };
            assert(start <= cuts@[k as int] <= rect.side());
            let extent: u32 = cuts[k] - start;
            let share = shares[from + k];
            let placed = if wide {
                PixelRect { x: rect.x, y: rect.y + start, w: thickness, h: extent }
            } else {
                PixelRect { x: rect.x + start, y: rect.y, w: extent, h: thickness }
            };
            self.tiles.push(RowTile { id: share.id, rect: placed });
            self.remaining = if share.size >= self.remaining {
                0
            } else {
                self.remaining - share.size
            };
            assert(wanted.take(k + 1) =~= wanted.take(k as int).push(wanted[k as int]));
            assert(self.tiles@ =~= before.tiles@ + wanted.take(k + 1));
            k = k + 1;
        }
        assert(wanted.take(k as int) =~= wanted);
        self.placed = from + cuts.len();
        self.rest = if wide {
            PixelRect { x: rect.x + thickness, y: rect.y, w: rect.w - thickness, h: rect.h }
        } else {
            PixelRect { x: rect.x, y: rect.y + thickness, w: rect.w, h: rect.h - thickness }
        };
        proof {
            assert forall|whole: PixelRect| #[trigger]
                divides(whole, before.tiles@, before.rest) && cuts@.len() > 0 && cuts@.last()
                    == before.rest.side() implies divides(whole, self.tiles@, self.rest) by {
                law_rows_divide(
                    whole,
                    before.tiles@,
                    before.rest,
                    shares@,
                    from as int,
                    thickness,
                    cuts@,
                );
            }
        }
    }

    /// The free rectangle, if something is still to go there.
    pub fn remainder(&self) -> (rect: Option<PixelRect>)
        ensures
            rect == (if self.remaining > 0 && self.rest.w > 0 && self.rest.h > 0 {
                Some(self.rest)
            } else {
                None
            }),
    {
        if self.remaining > 0 && self.rest.w > 0 && self.rest.h > 0 {
            Some(self.rest)
        } else {
            None
        }
    }
}

/// The pixel lies in the `k`-th tile.
pub open spec fn tile_covers(tiles: Seq<RowTile>, k: int, px: int, py: int) -> bool {
    tiles[k].rect.covers(px, py)
}

/// Every pixel of `whole` lies in exactly one of the tiles or in `rest`, and no other pixel does.
pub open spec fn divides(whole: PixelRect, tiles: Seq<RowTile>, rest: PixelRect) -> bool {
    &&& forall|px: int, py: int| #[trigger] rest.covers(px, py) ==> whole.covers(px, py)
    &&& forall|k: int, px: int, py: int|
        0 <= k < tiles.len() && #[trigger] tile_covers(tiles, k, px, py) ==> whole.covers(px, py)
            && !rest.covers(px, py)
    &&& forall|j: int, k: int, px: int, py: int|
        0 <= j < k < tiles.len() && #[trigger] tile_covers(tiles, j, px, py)
            ==> !#[trigger] tile_covers(tiles, k, px, py)
    &&& forall|px: int, py: int| #[trigger]
        whole.covers(px, py) ==> rest.covers(px, py) || exists|k: int|
            0 <= k < tiles.len() && #[trigger] tile_covers(tiles, k, px, py)
}

/// Before the first row the whole rectangle is free.
pub proof fn law_empty_layout_divides(whole: PixelRect)
    ensures
        divides(whole, Seq::empty(), whole),
{
}

/// Some tile of a row lies at each distance from the start of the row.
proof fn lemma_cut_holding(cuts: Seq<u32>, side: u32, at: int) -> (k: int)
    requires
        cuts_fit(cuts, side),
        0 <= at,
        cuts.len() > 0,
        at < cuts.last(),
    ensures
        0 <= k < cuts.len(),
        cut_before(cuts, k) <= at < cuts[k],
    decreases cuts.len(),
{
    let last = cuts.len() - 1;
    if cut_before(cuts, last) <= at {
        last
    } else {
        let shorter = cuts.drop_last();
        assert(shorter.last() == cuts[last - 1]);
        let k = lemma_cut_holding(shorter, side, at);
        assert(cut_before(shorter, k) == cut_before(cuts, k));
        k
    }
}

/// A row that reaches across the free rectangle keeps the division: tiles never overlap, never
/// leave the rectangle that is laid out, and leave no pixel of it uncovered.
pub proof fn law_rows_divide(
    whole: PixelRect,
    tiles: Seq<RowTile>,
    rest: PixelRect,
    shares: Seq<Share>,
    from: int,
    thickness: u32,
    cuts: Seq<u32>,
)
    requires
        rest.fits(),
        divides(whole, tiles, rest),
        thickness <= rest.length(),
        cuts_fit(cuts, rest.side()),
        cuts.len() > 0,
        cuts.last() == rest.side(),
    ensures
        divides(
            whole,
            tiles + row_tiles(shares, from, rest, thickness, cuts),
            beyond_row(rest, thickness),
        ),
{
    let row = row_tiles(shares, from, rest, thickness, cuts);
    let all = tiles + row;
    let beyond = beyond_row(rest, thickness);
    assert forall|px: int, py: int| #[trigger] beyond.covers(px, py) implies whole.covers(px, py) by {
        assert(rest.covers(px, py));
    }
    assert forall|k: int, px: int, py: int| 0 <= k < row.len() && #[trigger] tile_covers(
        row,
        k,
        px,
        py,
    ) implies rest.covers(px, py) && !beyond.covers(px, py) by {
        assert(cuts[k] <= rest.side());
        assert(cut_before(cuts, k) <= cuts[k]);
    }
    assert forall|k: int, px: int, py: int| 0 <= k < all.len() && #[trigger] tile_covers(
        all,
        k,
        px,
        py,
    ) implies whole.covers(px, py) && !beyond.covers(px, py) by {
        if k < tiles.len() {
            assert(tile_covers(tiles, k, px, py));
            assert(!rest.covers(px, py));
        } else {
            assert(tile_covers(row, k - tiles.len(), px, py));
            assert(rest.covers(px, py));
        }
    }
    assert forall|j: int, k: int, px: int, py: int|
        0 <= j < k < all.len() && #[trigger] tile_covers(all, j, px, py) implies !#[trigger] tile_covers(
        all,
        k,
        px,
        py,
    ) by {
        if k < tiles.len() {
            assert(tile_covers(tiles, j, px, py));
            assert(!tile_covers(tiles, k, px, py));
        } else if j < tiles.len() {
            assert(tile_covers(tiles, j, px, py));
            if tile_covers(all, k, px, py) {
                assert(tile_covers(row, k - tiles.len(), px, py));
            }
        } else {
            let a = j - tiles.len();
            let b = k - tiles.len();
            assert(tile_covers(row, a, px, py));
            assert(cuts[a] <= cut_before(cuts, b));
            assert(cut_before(cuts, a) <= cuts[a]);
            assert(cut_before(cuts, b) <= cuts[b]);
        }
    }
    assert forall|px: int, py: int| #[trigger] whole.covers(px, py) implies beyond.covers(px, py)
        || exists|k: int| 0 <= k < all.len() && #[trigger] tile_covers(all, k, px, py) by {
        if !rest.covers(px, py) {
            let k = choose|k: int| 0 <= k < tiles.len() && #[trigger] tile_covers(tiles, k, px, py);
            assert(tile_covers(all, k, px, py));
        } else if !beyond.covers(px, py) {
            let at = if rest.w >= rest.h {
                py - rest.y
            } else {
                px - rest.x
            };
            let k = lemma_cut_holding(cuts, rest.side(), at);
            assert(tile_covers(row, k, px, py));
            assert(tile_covers(all, tiles.len() + k, px, py));
        }
    }
}

/// A row takes the sizes of its shares off what is still to go, and no more than there is.
pub proof fn law_rows_take_their_sizes(shares: Seq<Share>, from: int, count: nat, remaining: u64)
    requires
        0 <= from,
        from + count <= shares.len(),
    ensures
        count == 0 ==> row_sizes(shares, from, count) == 0,
        count > 0 ==> row_sizes(shares, from, count) == shares[from].size + row_sizes(
            shares,
            from + 1,
            (count - 1) as nat,
        ),
        row_sizes(shares, from, count) <= remaining ==> left_of(
            remaining,
            row_sizes(shares, from, count),
        ) + row_sizes(shares, from, count) == remaining,
        row_sizes(shares, from, count) > remaining ==> left_of(
            remaining,
            row_sizes(shares, from, count),
        ) == 0,
    decreases count,
{
    if count > 1 {
        law_rows_take_their_sizes(shares, from, (count - 1) as nat, remaining);
    } else if count == 1 {
        assert(row_sizes(shares, from, 0) == 0);
        assert(row_sizes(shares, from + 1, 0) == 0);
    }
}

/// The tiles of a row stand in the order of their shares, side by side along the near edge, each as
/// thick as the row and as long as its part of the cuts.
pub proof fn law_rows_follow_their_cuts(
    shares: Seq<Share>,
    from: int,
    rect: PixelRect,
    thickness: u32,
    cuts: Seq<u32>,
    k: int,
)
    requires
        rect.fits(),
        cuts_fit(cuts, rect.side()),
        0 <= k < cuts.len(),
    ensures
        ({
            let tile = row_tiles(shares, from, rect, thickness, cuts)[k];
            let start = if k == 0 {
                0
            } else {
                cuts[k - 1] as int
            };
            &&& tile.id == shares[from + k].id
            &&& rect.w >= rect.h ==> {
                &&& tile.rect.x == rect.x
                &&& tile.rect.w == thickness
                &&& tile.rect.y == rect.y + start
                &&& tile.rect.h == cuts[k] - start
            }
            &&& rect.w < rect.h ==> {
                &&& tile.rect.y == rect.y
                &&& tile.rect.h == thickness
                &&& tile.rect.x == rect.x + start
                &&& tile.rect.w == cuts[k] - start
            }
        }),
{
    if k > 0 {
        assert(cuts[k - 1] <= cuts[k]);
    }
    assert(cuts[k] <= rect.side());
}

} // verus!
