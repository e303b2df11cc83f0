//! What holds of a map as it is drawn.

use vstd::prelude::*;

use crate::node::NodeId;
use crate::scan::ScanResult;
use crate::treemap::partition;
use crate::treemap::plan;
use crate::treemap::plan::MapTile;
use crate::treemap::rows;
use crate::treemap::rows::{PixelRect, RowTile};

verus! {

/// No pixel of `part` lies outside `whole`.
pub open spec fn is_part(part: PixelRect, whole: PixelRect) -> bool {
    forall|px: int, py: int| #[trigger] part.covers(px, py) ==> whole.covers(px, py)
}

/// A tile belongs to the directory of a frame: it stands for one of the directory's children, or
/// for the directory's files or what remains of it.
pub open spec fn belongs_to_frame(result: ScanResult, frame: MapTile, tile: MapTile) -> bool {
    if tile.indexed() {
        partition::child_at(result.arena.node_list(), frame.id, tile.id.0 as int)
    } else {
        tile.id == frame.id
    }
}

/// Tile `k` lies on a frame that stands before it, inside its rectangle and one level deeper, and
/// belongs to its directory.
pub open spec fn lies_on_frame(result: ScanResult, tiles: Seq<MapTile>, k: int) -> bool {
    exists|p: int|
        {
            &&& 0 <= p < k
            &&& (#[trigger] tiles[p]).frame()
            &&& tiles[k].depth == tiles[p].depth + 1
            &&& is_part(tiles[k].rect, tiles[p].rect)
            &&& belongs_to_frame(result, tiles[p], tiles[k])
        }
}

/// Tile `k` is seen at a pixel: it is no frame and covers it.
pub open spec fn seen_at(tiles: Seq<MapTile>, k: int, px: int, py: int) -> bool {
    0 <= k < tiles.len() && !tiles[k].frame() && tiles[k].rect.covers(px, py)
}

/// Every tile but the first lies on its frame, and at every pixel of the map exactly one tile is
/// seen.
pub open spec fn map_drawn(result: ScanResult, tiles: Seq<MapTile>) -> bool {
    &&& forall|k: int| 1 <= k < tiles.len() ==> #[trigger] lies_on_frame(result, tiles, k)
    &&& forall|px: int, py: int|
        tiles.len() > 0 && #[trigger] tiles[0].rect.covers(px, py) ==> exists|k: int| #[trigger]
            seen_at(tiles, k, px, py)
    &&& forall|j: int, k: int, px: int, py: int|
        j != k && #[trigger] seen_at(tiles, j, px, py) ==> !#[trigger] seen_at(tiles, k, px, py)
}

/// The pieces belong to the tile's directory and divide its rectangle, and what they leave of it is
/// drawn as a block or is empty.
pub open spec fn division_sound(
    result: ScanResult,
    tile: MapTile,
    placed: Seq<RowTile>,
    rest: PixelRect,
    remainder: Option<PixelRect>,
) -> bool {
    &&& rows::divides(tile.rect, placed, rest)
    &&& remainder == Some(rest) || (remainder is None && (rest.w == 0 || rest.h == 0))
    &&& forall|k: int|
        0 <= k < placed.len() ==> partition::belongs_to(
            result.arena.node_list(),
            tile.id,
            (#[trigger] placed[k]).id,
        )
}

/// A map of one tile is drawn.
pub proof fn law_new_maps_are_drawn(result: ScanResult, root: NodeId, width: u32, height: u32)
    ensures
        map_drawn(result, seq![plan::root_tile(root, width, height)]),
{
    let tiles = seq![plan::root_tile(root, width, height)];
    assert forall|px: int, py: int| #[trigger] tiles[0].rect.covers(px, py) implies exists|k: int|
        #[trigger] seen_at(tiles, k, px, py) by {
        assert(seen_at(tiles, 0, px, py));
    }
}

/// The tiles that a division adds: each lies on the divided tile and belongs to its directory.
proof fn lemma_inside(
    result: ScanResult,
    tile: MapTile,
    placed: Seq<RowTile>,
    rest: PixelRect,
    remainder: Option<PixelRect>,
    k: int,
)
    requires
        division_sound(result, tile, placed, rest, remainder),
        tile.depth < plan::MAP_MAX_DEPTH,
        0 <= k < plan::tiles_inside(result, tile, placed, remainder).len(),
    ensures
        ({
            let piece = plan::tiles_inside(result, tile, placed, remainder)[k];
            &&& !piece.frame()
            &&& piece.depth == tile.depth + 1
            &&& is_part(piece.rect, tile.rect)
            &&& belongs_to_frame(result, tile, piece)
        }),
{
    let piece = plan::tiles_inside(result, tile, placed, remainder)[k];
    assert forall|px: int, py: int| #[trigger] piece.rect.covers(px, py) implies tile.rect.covers(
        px,
        py,
    ) by {
        plan::law_tiles_stay_inside_their_frame(
            result,
            tile,
            placed,
            rest,
            remainder,
            k,
            px,
            py,
        );
    }
    if k < placed.len() {
        assert(partition::belongs_to(result.arena.node_list(), tile.id, placed[k].id));
    }
}

/// Two tiles that a division adds are not seen at the same pixel.
proof fn lemma_inside_apart(
    result: ScanResult,
    tile: MapTile,
    placed: Seq<RowTile>,
    rest: PixelRect,
    remainder: Option<PixelRect>,
    j: int,
    k: int,
    px: int,
    py: int,
)
    requires
        division_sound(result, tile, placed, rest, remainder),
        0 <= j < k < plan::tiles_inside(result, tile, placed, remainder).len(),
        plan::tiles_inside(result, tile, placed, remainder)[j].rect.covers(px, py),
    ensures
        !plan::tiles_inside(result, tile, placed, remainder)[k].rect.covers(px, py),
{
    assert(rows::tile_covers(placed, j, px, py));
    if k < placed.len() {
        assert(!rows::tile_covers(placed, k, px, py));
    }
}

/// Dividing a tile of a drawn map soundly gives a drawn map.
pub proof fn law_dividing_keeps_maps_drawn(
    result: ScanResult,
    tiles: Seq<MapTile>,
    position: int,
    placed: Seq<RowTile>,
    rest: PixelRect,
    remainder: Option<PixelRect>,
)
    requires
        map_drawn(result, tiles),
        0 <= position < tiles.len(),
        tiles[position].pending(),
        tiles[position].depth < plan::MAP_MAX_DEPTH,
        division_sound(result, tiles[position], placed, rest, remainder),
    ensures
        map_drawn(result, plan::divided_map(result, tiles, position, placed, remainder)),
{
    let tile = tiles[position];
    let inside = plan::tiles_inside(result, tile, placed, remainder);
    let base = tiles.update(position, plan::as_frame(tile));
    let next = plan::divided_map(result, tiles, position, placed, remainder);
    let count = tiles.len() as int;
    assert(next == base + inside);
    assert(next[position] == plan::as_frame(tile));
    assert forall|k: int| 1 <= k < next.len() implies #[trigger] lies_on_frame(result, next, k) by {
        if k < count {
            assert(lies_on_frame(result, tiles, k));
            let p = choose|p: int|
                {
                    &&& 0 <= p < k
                    &&& (#[trigger] tiles[p]).frame()
                    &&& tiles[k].depth == tiles[p].depth + 1
                    &&& is_part(tiles[k].rect, tiles[p].rect)
                    &&& belongs_to_frame(result, tiles[p], tiles[k])
                };
            assert(p != position);
            assert(next[p] == tiles[p]);
        } else {
            lemma_inside(result, tile, placed, rest, remainder, k - count);
            assert(next[k] == inside[k - count]);
            assert(next[position].frame());
        }
    }
    assert forall|px: int, py: int| #[trigger] next[0].rect.covers(px, py) implies exists|k: int|
        #[trigger] seen_at(next, k, px, py) by {
        assert(tiles[0].rect.covers(px, py));
        let k = choose|k: int| #[trigger] seen_at(tiles, k, px, py);
        if k == position {
            plan::law_frames_are_covered(result, tile, placed, rest, remainder, px, py);
            let m = choose|m: int|
                0 <= m < inside.len() && (#[trigger] inside[m]).rect.covers(px, py);
            lemma_inside(result, tile, placed, rest, remainder, m);
            assert(next[count + m] == inside[m]);
            assert(seen_at(next, count + m, px, py));
        } else {
            assert(next[k] == tiles[k]);
            assert(seen_at(next, k, px, py));
        }
    }
    assert forall|j: int, k: int, px: int, py: int|
        j < k && #[trigger] seen_at(next, j, px, py) implies !#[trigger] seen_at(
        next,
        k,
        px,
        py,
    ) by {
        if seen_at(next, k, px, py) {
            if j < count {
                assert(j != position);
                assert(next[j] == tiles[j]);
                assert(seen_at(tiles, j, px, py));
                if k < count {
                    assert(k != position);
                    assert(next[k] == tiles[k]);
                    assert(seen_at(tiles, k, px, py));
                } else {
                    assert(next[k] == inside[k - count]);
                    lemma_inside(result, tile, placed, rest, remainder, k - count);
                    assert(tile.rect.covers(px, py));
                    assert(seen_at(tiles, position, px, py));
                }
            } else {
                assert(next[j] == inside[j - count]);
                assert(next[k] == inside[k - count]);
                lemma_inside_apart(
                    result,
                    tile,
                    placed,
                    rest,
                    remainder,
                    j - count,
                    k - count,
                    px,
                    py,
                );
            }
        }
    }
    assert forall|j: int, k: int, px: int, py: int|
        j != k && #[trigger] seen_at(next, j, px, py) implies !#[trigger] seen_at(
        next,
        k,
        px,
        py,
    ) by {
        if k < j && seen_at(next, k, px, py) {
            assert(!seen_at(next, j, px, py));
        }
    }
}

/// One division of a tile.
pub struct Division {
    pub position: int,
    pub placed: Seq<RowTile>,
    pub rest: PixelRect,
    pub remainder: Option<PixelRect>,
}

/// The tiles of a map after these divisions.
pub open spec fn map_after(
    result: ScanResult,
    start: Seq<MapTile>,
    divisions: Seq<Division>,
) -> Seq<MapTile>
    decreases divisions.len(),
{
    if divisions.len() == 0 {
        start
    } else {
        let last = divisions.last();
        plan::divided_map(
            result,
            map_after(result, start, divisions.drop_last()),
            last.position,
            last.placed,
            last.remainder,
        )
    }
}

/// Division `k` divides a tile that may still be divided, and divides it soundly.
pub open spec fn divides_soundly(
    result: ScanResult,
    start: Seq<MapTile>,
    divisions: Seq<Division>,
    k: int,
) -> bool {
    let tiles = map_after(result, start, divisions.take(k));
    let division = divisions[k];
    &&& 0 <= division.position < tiles.len()
    &&& tiles[division.position].pending()
    &&& tiles[division.position].depth < plan::MAP_MAX_DEPTH
    &&& division_sound(
        result,
        tiles[division.position],
        division.placed,
        division.rest,
        division.remainder,
    )
}

/// However a map is grown by sound divisions: in the whole map every tile but the first lies
/// geometrically on its frame and belongs to its frame's directory, and the tiles that are no
/// frames cover the map without overlap.
pub proof fn law_whole_maps_are_drawn(
    result: ScanResult,
    root: NodeId,
    width: u32,
    height: u32,
    divisions: Seq<Division>,
)
    requires
        forall|k: int|
            0 <= k < divisions.len() ==> #[trigger] divides_soundly(
                result,
                seq![plan::root_tile(root, width, height)],
                divisions,
                k,
            ),
    ensures
        map_drawn(
            result,
            map_after(result, seq![plan::root_tile(root, width, height)], divisions),
        ),
    decreases divisions.len(),
{
    let start = seq![plan::root_tile(root, width, height)];
    if divisions.len() == 0 {
        law_new_maps_are_drawn(result, root, width, height);
    } else {
        let shorter = divisions.drop_last();
        assert forall|k: int| 0 <= k < shorter.len() implies #[trigger] divides_soundly(
            result,
            start,
            shorter,
            k,
        ) by {
            assert(divides_soundly(result, start, divisions, k));
            assert(shorter.take(k) =~= divisions.take(k));
        }
        law_whole_maps_are_drawn(result, root, width, height, shorter);
        let last = divisions.len() - 1;
        assert(divides_soundly(result, start, divisions, last));
        assert(divisions.take(last) =~= shorter);
        let division = divisions.last();
        law_dividing_keeps_maps_drawn(
            result,
            map_after(result, start, shorter),
            division.position,
            division.placed,
            division.rest,
            division.remainder,
        );
    }
}

} // verus!
