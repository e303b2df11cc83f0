//! Growing the tiles of a map, largest first, within a budget.

use std::collections::HashMap;

use vstd::multiset::Multiset;
use vstd::prelude::*;

use crate::node::{NodeId, NodeKind};
use crate::scan::{FilesystemScan, ScanResult};
use crate::treemap::colors;
use crate::treemap::colors::{DIR_COLOR, REST_COLOR};
use crate::treemap::drawing;
use crate::treemap::queue;
use crate::treemap::queue::{Candidate, Queue};
use crate::treemap::rows;
use crate::treemap::rows::{PixelRect, RowTile};

verus! {

broadcast use vstd::std_specs::hash::group_hash_axioms;

/// A child narrower than this is folded into the block of what remains.
pub const MAP_MIN_SIDE: u32 = 3;

/// A directory is only divided where its tile is at least this wide and high.
pub const MAP_MIN_NEST: u32 = 12;

/// No tile lies deeper than this.
pub const MAP_MAX_DEPTH: u16 = 40;

/// No map has more tiles than these.
pub const MAP_MAX_TILES: usize = 20_000;

/// What a tile is.
#[derive(Clone, Copy, Debug, PartialEq, Eq, Structural)]
pub enum TileKind {
    /// A directory whose children are drawn on top of it, covering it fully.
    Frame,
    /// The files directly inside a directory, gathered.
    Files,
    /// The gathered files once they are divided. It does not replace the directory's outline.
    FileFrame,
    /// A file, or a directory that stands for its whole subtree.
    Leaf,
    /// Everything in a directory that is too small to draw one by one.
    Rest,
}

/// A tile of the map.
#[derive(Clone, Copy, Debug, PartialEq, Eq, Structural)]
pub struct MapTile {
    /// The node this tile stands for. A `Rest` tile carries the id of its directory.
    pub id: NodeId,
    pub rect: PixelRect,
    /// What the tile is coloured by.
    pub color: usize,
    pub depth: u16,
    pub kind: TileKind,
}

impl MapTile {
    /// Other tiles cover this one.
    pub open spec fn frame(self) -> bool {
        self.kind == TileKind::Frame || self.kind == TileKind::FileFrame
    }

    /// The tile may still be divided.
    pub open spec fn pending(self) -> bool {
        self.kind == TileKind::Leaf || self.kind == TileKind::Files
    }

    /// The tile is found by the id of its node.
    pub open spec fn indexed(self) -> bool {
        self.kind == TileKind::Leaf || self.kind == TileKind::Frame
    }

    /// Whether other tiles cover this one.
    pub fn is_frame(&self) -> (is: bool)
        ensures
            is == self.frame(),
    {
        matches!(self.kind, TileKind::Frame | TileKind::FileFrame)
    }
}

/// The number of pixels of a tile.
pub open spec fn area_of(rect: PixelRect) -> int {
    rect.w as int * rect.h as int
}

fn measure(rect: PixelRect) -> (area: u64)
    ensures
        area == area_of(rect),
{
    assert(rect.w as int * rect.h as int <= u32::MAX as int * u32::MAX as int) by (nonlinear_arith)
        requires
            rect.w <= u32::MAX,
            rect.h <= u32::MAX,
    ;
    rect.w as u64 * rect.h as u64
}

/// The tile a map starts with.
pub open spec fn root_tile(root: NodeId, width: u32, height: u32) -> MapTile {
    MapTile {
        id: root,
        rect: PixelRect { x: 0, y: 0, w: width, h: height },
        color: DIR_COLOR,
        depth: 0,
        kind: TileKind::Leaf,
    }
}

/// The tile can be divided: it is a directory that lies not too deep and is large enough.
pub open spec fn divisible(result: ScanResult, tile: MapTile) -> bool {
    let nodes = result.arena.node_list();
    &&& tile.depth < MAP_MAX_DEPTH
    &&& tile.id.0 < nodes.len()
    &&& nodes[tile.id.0 as int].kind == NodeKind::Directory
    &&& tile.rect.w >= MAP_MIN_NEST
    &&& tile.rect.h >= MAP_MIN_NEST
}

/// Whether the tile can be divided.
pub fn is_divisible(scan: &FilesystemScan, tile: &MapTile) -> (divisible: bool)
    ensures
        divisible == self::divisible(scan.result, *tile),
{
    let nodes = scan.result.arena.nodes();
    tile.depth < MAP_MAX_DEPTH && tile.id.index() < nodes.len() && nodes[tile.id.index()].kind
        == NodeKind::Directory && tile.rect.w >= MAP_MIN_NEST && tile.rect.h >= MAP_MIN_NEST
}

/// How many tiles may be claimed of those that remain.
pub fn allowance(claim: usize, remaining: usize) -> (allowed: usize)
    requires
        remaining >= 2,
    ensures
        allowed == (if claim < 2 {
            2
        } else if claim > remaining {
            remaining
        } else {
            claim
        }),
{
    if claim < 2 {
        2
    } else if claim > remaining {
        remaining
    } else {
        claim
    }
}

/// The tile of a share that was placed inside `tile`.
pub open spec fn placed_tile(result: ScanResult, tile: MapTile, placed: RowTile) -> MapTile {
    let kind = if placed.rect.w < MAP_MIN_SIDE || placed.rect.h < MAP_MIN_SIDE {
        TileKind::Rest
    } else if placed.id == tile.id {
        TileKind::Files
    } else {
        TileKind::Leaf
    };
    MapTile {
        id: if kind == TileKind::Rest {
            tile.id
        } else {
            placed.id
        },
        rect: placed.rect,
        color: if kind == TileKind::Leaf {
            colors::node_color(result, placed.id)
        } else {
            REST_COLOR
        },
        depth: (tile.depth + 1) as u16,
        kind,
    }
}

/// The tiles that `tile` is divided into.
pub open spec fn tiles_inside(
    result: ScanResult,
    tile: MapTile,
    placed: Seq<RowTile>,
    remainder: Option<PixelRect>,
) -> Seq<MapTile> {
    let single = Seq::new(placed.len(), |k: int| placed_tile(result, tile, placed[k]));
    match remainder {
        None => single,
        Some(rect) => single.push(
            MapTile {
                id: tile.id,
                rect,
                color: REST_COLOR,
                depth: (tile.depth + 1) as u16,
                kind: TileKind::Rest,
            },
        ),
    }
}

/// The tile once it is divided.
pub open spec fn as_frame(tile: MapTile) -> MapTile {
    MapTile {
        kind: if tile.kind == TileKind::Files {
            TileKind::FileFrame
        } else {
            TileKind::Frame
        },
        ..tile
    }
}

/// The tiles once the one at `position` is divided.
pub open spec fn divided_map(
    result: ScanResult,
    tiles: Seq<MapTile>,
    position: int,
    placed: Seq<RowTile>,
    remainder: Option<PixelRect>,
) -> Seq<MapTile> {
    tiles.update(position, as_frame(tiles[position])) + tiles_inside(
        result,
        tiles[position],
        placed,
        remainder,
    )
}

/// The colours of the shares that get a tile of their own can be told.
pub open spec fn colors_told(result: ScanResult, tile: MapTile, placed: Seq<RowTile>) -> bool {
    forall|k: int|
        0 <= k < placed.len() && placed_tile(result, tile, #[trigger] placed[k]).kind
            == TileKind::Leaf ==> colors::color_told(result, placed[k].id)
}

/// The candidates among the tiles from position `from` up to `to`.
pub open spec fn candidates(tiles: Seq<MapTile>, from: nat, to: nat) -> Multiset<Candidate>
    decreases to,
{
    if to <= from {
        Multiset::empty()
    } else {
        let before = candidates(tiles, from, (to - 1) as nat);
        if tiles[to - 1].pending() {
            before.insert(candidate_at(tiles, to - 1))
        } else {
            before
        }
    }
}

/// A frame one level above tile `k` stands before it.
pub open spec fn follows_frame(tiles: Seq<MapTile>, k: int) -> bool {
    exists|p: int|
        0 <= p < k && (#[trigger] tiles[p]).frame() && tiles[k].depth == tiles[p].depth + 1
}

/// The candidate of the tile at `position`.
pub open spec fn candidate_at(tiles: Seq<MapTile>, position: int) -> Candidate {
    Candidate { area: area_of(tiles[position].rect) as u64, position: position as usize }
}

/// The candidate stands for one of the tiles that may be divided.
pub open spec fn is_candidate(tiles: Seq<MapTile>, candidate: Candidate) -> bool {
    &&& candidate.position < tiles.len()
    &&& candidate == candidate_at(tiles, candidate.position as int)
    &&& tiles[candidate.position as int].pending()
}

/// `candidate` was taken out of those that waited, and none of them was ahead of it.
pub open spec fn takes_first(
    before: Multiset<Candidate>,
    after: Multiset<Candidate>,
    candidate: Candidate,
) -> bool {
    &&& before.contains(candidate)
    &&& after == before.remove(candidate)
    &&& forall|other: Candidate| #[trigger]
        before.contains(other) ==> !queue::ahead(other, candidate)
}

/// A map that is being grown.
#[derive(Debug)]
pub struct MapPlan {
    tiles: Vec<MapTile>,
    queue: Queue,
}

/// The next tile to divide.
#[derive(Clone, Copy, Debug)]
pub struct NextTile {
    pub position: usize,
    pub tile: MapTile,
    /// How many tiles the budget still allows.
    pub remaining: usize,
}

impl MapPlan {
    /// The tiles so far.
    pub closed spec fn tile_list(&self) -> Seq<MapTile> {
        self.tiles@
    }

    /// The tiles that wait to be divided.
    pub closed spec fn waiting(&self) -> Multiset<Candidate> {
        self.queue@
    }

    /// The budget is kept, every waiting candidate is a tile that may be divided and waits once, and
    /// before every tile but the first stands a frame one level above it.
    pub closed spec fn valid(&self) -> bool {
        &&& self.queue.arranged()
        &&& self.tiles@.len() <= MAP_MAX_TILES
        &&& forall|candidate: Candidate| #[trigger]
            self.queue@.contains(candidate) ==> is_candidate(self.tiles@, candidate)
                && self.queue@.count(candidate) == 1
        &&& forall|k: int| 1 <= k < self.tiles@.len() ==> #[trigger] follows_frame(self.tiles@, k)
    }

    /// A map of one tile, or an empty map where there is no such node.
    pub fn new(scan: &FilesystemScan, root: NodeId, width: u32, height: u32) -> (plan: MapPlan)
        ensures
            plan.valid(),
            drawing::map_drawn(scan.result, plan.tile_list()),
            root.0 < scan.result.arena.node_list().len() ==> {
                &&& plan.tile_list() == seq![root_tile(root, width, height)]
                &&& plan.waiting() == candidates(plan.tile_list(), 0, 1)
            },
            root.0 >= scan.result.arena.node_list().len() ==> {
                &&& plan.tile_list() == Seq::<MapTile>::empty()
                &&& plan.waiting() == Multiset::<Candidate>::empty()
            },
    {
        let mut tiles: Vec<MapTile> = Vec::new();
        let mut queue = Queue::new();
        if root.index() < scan.result.arena.nodes().len() {
            let rect = PixelRect { x: 0, y: 0, w: width, h: height };
            let tile = MapTile { id: root, rect, color: DIR_COLOR, depth: 0, kind: TileKind::Leaf };
            tiles.push(tile);
            queue.push(Candidate { area: measure(rect), position: 0 });
            assert(candidates(tiles@, 0, 0) == Multiset::<Candidate>::empty());
            assert(queue@ == candidates(tiles@, 0, 1));
            proof {
                drawing::law_new_maps_are_drawn(scan.result, root, width, height);
                assert(tiles@ =~= seq![root_tile(root, width, height)]);
            }
        }
        MapPlan { tiles, queue }
    }

    /// The largest tile that waits, unless the budget is spent.
    pub fn next_tile(&mut self) -> (next: Option<NextTile>)
        requires
            old(self).valid(),
        ensures
            final(self).valid(),
            final(self).tile_list() == old(self).tile_list(),
            next is None <==> old(self).waiting().len() == 0 || MAP_MAX_TILES
                - old(self).tile_list().len() < 2,
            match next {
                None => final(self).waiting() == old(self).waiting(),
                Some(next) => {
                    &&& next.position < old(self).tile_list().len()
                    &&& next.tile == old(self).tile_list()[next.position as int]
                    &&& next.tile.pending()
                    &&& !final(self).waiting().contains(
                        candidate_at(old(self).tile_list(), next.position as int),
                    )
                    &&& next.remaining == MAP_MAX_TILES - old(self).tile_list().len()
                    &&& takes_first(
                        old(self).waiting(),
                        final(self).waiting(),
                        candidate_at(old(self).tile_list(), next.position as int),
                    )
                },
            },
    {
        let remaining: usize = MAP_MAX_TILES - self.tiles.len();
        if remaining < 2 {
            return None;
        }
        let ghost before = self.queue@;
        let candidate = match self.queue.pop() {
            None => {
                return None;
            },
            Some(candidate) => candidate,
        };
        proof {
            assert(before.contains(candidate));
            assert(candidate_at(self.tiles@, candidate.position as int) == candidate);
            assert forall|other: Candidate| #[trigger] self.queue@.contains(
                other,
            ) implies is_candidate(self.tiles@, other) && self.queue@.count(other) == 1 by {
                assert(before.contains(other));
                assert(before.count(other) == 1);
            }
        }
        Some(
            NextTile {
                position: candidate.position,
                tile: self.tiles[candidate.position],
                remaining,
            },
        )
    }

    /// Divides the tile at `position`, which no longer waits, into the tiles of the shares that were
    /// placed in it and a block for what remains. Where there is neither, the tile stays as it is.
    pub fn divide(
        &mut self,
        scan: &FilesystemScan,
        position: usize,
        placed: &[RowTile],
        remainder: Option<PixelRect>,
    ) -> (divided: bool)
        requires
            old(self).valid(),
            position < old(self).tile_list().len(),
            divisible(scan.result, old(self).tile_list()[position as int]),
            old(self).tile_list()[position as int].pending(),
            !old(self).waiting().contains(candidate_at(old(self).tile_list(), position as int)),
            colors_told(scan.result, old(self).tile_list()[position as int], placed@),
            old(self).tile_list().len() + placed@.len() + (if remainder is Some {
                1int
            } else {
                0
            }) <= MAP_MAX_TILES,
        ensures
            final(self).valid(),
            divided == (placed@.len() > 0 || remainder is Some),
            !divided ==> {
                &&& final(self).tile_list() == old(self).tile_list()
                &&& final(self).waiting() == old(self).waiting()
            },
            divided ==> {
                &&& final(self).tile_list() == divided_map(
                    scan.result,
                    old(self).tile_list(),
                    position as int,
                    placed@,
                    remainder,
                )
                &&& final(self).waiting() == old(self).waiting().add(
                    candidates(
                        final(self).tile_list(),
                        old(self).tile_list().len(),
                        final(self).tile_list().len(),
                    ),
                )
            },
            forall|rest: PixelRect| #[trigger]
                drawing::division_sound(
                    scan.result,
                    old(self).tile_list()[position as int],
                    placed@,
                    rest,
                    remainder,
                ) && drawing::map_drawn(scan.result, old(self).tile_list()) ==> drawing::map_drawn(
                    scan.result,
                    final(self).tile_list(),
                ),
    {
        if placed.len() == 0 && remainder.is_none() {
            return false;
        }
        let tile = self.tiles[position];
        let ghost start = self.tiles@;
        let ghost waiting = self.queue@;
        let ghost inside = tiles_inside(scan.result, tile, placed@, remainder);
        let mut framed = tile;
        framed.kind = if tile.kind == TileKind::Files {
            TileKind::FileFrame
        } else {
            TileKind::Frame
        };
        self.tiles.set(position, framed);
        let ghost base = start.update(position as int, as_frame(tile));
        proof {
            assert(framed == as_frame(tile));
            assert forall|other: Candidate| #[trigger] self.queue@.contains(
                other,
            ) implies is_candidate(self.tiles@, other) && self.queue@.count(other) == 1 by {
                assert(is_candidate(start, other));
                assert(other.position != position);
            }
            assert forall|k: int| 1 <= k < base.len() implies #[trigger] follows_frame(base, k) by {
                assert(follows_frame(start, k));
                let p = choose|p: int|
                    0 <= p < k && (#[trigger] start[p]).frame() && start[k].depth == start[p].depth + 1;
                assert(base[p].frame());
            }
            assert(self.tiles@ =~= base + inside.take(0));
            assert(waiting =~= waiting.add(candidates(self.tiles@, start.len(), start.len())));
        }
        let mut k: usize = 0;
        while k < placed.len()
            invariant
                k <= placed@.len(),
                colors_told(scan.result, tile, placed@),
                position < start.len(),
                base == start.update(position as int, as_frame(tile)),
                tile == start[position as int],
                tile.depth < MAP_MAX_DEPTH,
                inside == tiles_inside(scan.result, tile, placed@, remainder),
                start.len() + placed@.len() + (if remainder is Some {
                    1int
                } else {
                    0
                }) <= MAP_MAX_TILES,
                self.tiles@ == base + inside.take(k as int),
                self.queue@ == waiting.add(
                    candidates(self.tiles@, start.len(), (start.len() + k) as nat),
                ),
                self.valid(),
            decreases placed@.len() - k,
        {
            let piece = placed[k];
            let kind = if piece.rect.w < MAP_MIN_SIDE || piece.rect.h < MAP_MIN_SIDE {
                TileKind::Rest
            } else if piece.id == tile.id {
                TileKind::Files
            } else {
                TileKind::Leaf
            };
            assert(kind == placed_tile(scan.result, tile, placed@[k as int]).kind);
            let color: usize = match kind {
                TileKind::Leaf => colors::type_color_index(scan, piece.id),
                _ => REST_COLOR,
            };
            let id = if kind == TileKind::Rest {
                tile.id
            } else {
                piece.id
            };
            let child = MapTile { id, rect: piece.rect, color, depth: tile.depth + 1, kind };
            proof {
                assert(child == inside[k as int]);
                assert(inside.take(k + 1) =~= inside.take(k as int).push(child));
                assert(self.tiles@[position as int] == as_frame(tile));
            }
            let ghost before = *self;
            self.append(child, position);
            proof {
                assert(self.tiles@ =~= base + inside.take(k + 1));
                lemma_candidates_grow(before.tiles@, child, waiting, start.len());
            }
            k = k + 1;
        }
        if let Some(rect) = remainder {
            let child = MapTile {
                id: tile.id,
                rect,
                color: REST_COLOR,
                depth: tile.depth + 1,
                kind: TileKind::Rest,
            };
            proof {
                assert(child == inside[k as int]);
                assert(inside.take(k + 1) =~= inside.take(k as int).push(child));
                assert(self.tiles@[position as int] == as_frame(tile));
            }
            let ghost before = *self;
            self.append(child, position);
            proof {
                assert(self.tiles@ =~= base + inside.take(k + 1));
                assert(inside.take(k + 1) =~= inside);
                lemma_candidates_grow(before.tiles@, child, waiting, start.len());
            }
        } else {
            assert(inside.take(k as int) =~= inside);
        }
        proof {
            assert forall|rest: PixelRect| #[trigger]
                drawing::division_sound(scan.result, tile, placed@, rest, remainder)
                    && drawing::map_drawn(scan.result, start) implies drawing::map_drawn(
                scan.result,
                self.tiles@,
            ) by {
                drawing::law_dividing_keeps_maps_drawn(
                    scan.result,
                    start,
                    position as int,
                    placed@,
                    rest,
                    remainder,
                );
            }
        }
        true
    }

    /// The map once nothing more is divided.
    pub fn finish(self) -> (map: Treemap)
        requires
            self.valid(),
        ensures
            map.valid(),
            map.tile_list() == self.tile_list(),
    {
        let tiles = self.tiles;
        let mut index: HashMap<u32, usize> = HashMap::new();
        let mut position: usize = 0;
        while position < tiles.len()
            invariant
                position <= tiles@.len(),
                forall|id: u32| #[trigger]
                    index@.contains_key(id) ==> found_at(
                        tiles@,
                        NodeId(id),
                        index@[id] as int,
                        position as int,
                    ),
                forall|k: int|
                    0 <= k < position && (#[trigger] tiles@[k]).indexed()
                        ==> index@.contains_key(tiles@[k].id.0),
            decreases tiles@.len() - position,
        {
            let tile = tiles[position];
            if matches!(tile.kind, TileKind::Leaf | TileKind::Frame) {
                index.insert(tile.id.0, position);
            }
            position = position + 1;
        }
        Treemap { tiles, index }
    }

    /// Adds a tile on the frame at `under`, and lets it wait if it may be divided.
    fn append(&mut self, tile: MapTile, under: usize)
        requires
            old(self).valid(),
            old(self).tiles@.len() < MAP_MAX_TILES,
            under < old(self).tiles@.len(),
            old(self).tiles@[under as int].frame(),
            tile.depth == old(self).tiles@[under as int].depth + 1,
        ensures
            final(self).valid(),
            final(self).tiles@ == old(self).tiles@.push(tile),
            final(self).queue@ == (if tile.pending() {
                old(self).queue@.insert(
                    candidate_at(final(self).tiles@, old(self).tiles@.len() as int),
                )
            } else {
                old(self).queue@
            }),
    {
        let ghost before = self.tiles@;
        let ghost waiting = self.queue@;
        let position: usize = self.tiles.len();
        if matches!(tile.kind, TileKind::Leaf | TileKind::Files) {
            self.queue.push(Candidate { area: measure(tile.rect), position });
        }
        self.tiles.push(tile);
        proof {
            let after = self.tiles@;
            let added = candidate_at(after, before.len() as int);
            assert(!waiting.contains(added)) by {
                if waiting.contains(added) {
                    assert(is_candidate(before, added));
                }
            }
            assert forall|other: Candidate| #[trigger] self.queue@.contains(
                other,
            ) implies is_candidate(after, other) && self.queue@.count(other) == 1 by {
                if waiting.contains(other) {
                    assert(is_candidate(before, other));
                    assert(waiting.count(other) == 1);
                }
            }
            assert forall|k: int| 1 <= k < after.len() implies #[trigger] follows_frame(after, k) by {
                if k < before.len() {
                    assert(follows_frame(before, k));
                    let p = choose|p: int|
                        0 <= p < k && (#[trigger] before[p]).frame() && before[k].depth
                            == before[p].depth + 1;
                    assert(after[p].frame());
                } else {
                    assert(after[under as int].frame());
                }
            }
        }
    }
}

/// Among the first `count` tiles, the one at `position` is the last that is found by `id`.
pub open spec fn found_at(tiles: Seq<MapTile>, id: NodeId, position: int, count: int) -> bool {
    &&& 0 <= position < count <= tiles.len()
    &&& tiles[position].id == id
    &&& tiles[position].indexed()
    &&& forall|k: int|
        position < k < count ==> !((#[trigger] tiles[k]).id == id && tiles[k].indexed())
}

/// A finished map.
#[derive(Debug)]
pub struct Treemap {
    tiles: Vec<MapTile>,
    index: HashMap<u32, usize>,
}

impl Treemap {
    /// The tiles, each behind the frame it lies on.
    pub closed spec fn tile_list(&self) -> Seq<MapTile> {
        self.tiles@
    }

    /// The budget is kept, before every tile but the first stands a frame one level above it, and
    /// tiles are found by their nodes.
    pub closed spec fn valid(&self) -> bool {
        &&& self.tiles@.len() <= MAP_MAX_TILES
        &&& forall|k: int| 1 <= k < self.tiles@.len() ==> #[trigger] follows_frame(self.tiles@, k)
        &&& forall|id: u32| #[trigger]
            self.index@.contains_key(id) ==> found_at(
                self.tiles@,
                NodeId(id),
                self.index@[id] as int,
                self.tiles@.len() as int,
            )
        &&& forall|k: int|
            0 <= k < self.tiles@.len() && (#[trigger] self.tiles@[k]).indexed()
                ==> self.index@.contains_key(self.tiles@[k].id.0)
    }

    /// Whether there are no tiles.
    pub fn is_empty(&self) -> (empty: bool)
        ensures
            empty == (self.tile_list().len() == 0),
    {
        self.tiles.len() == 0
    }

    /// The tiles.
    pub fn tiles(&self) -> (tiles: &[MapTile])
        ensures
            tiles@ == self.tile_list(),
    {
        self.tiles.as_slice()
    }

    /// The rectangle of a node, if it has a tile.
    pub fn rect_for(&self, id: NodeId) -> (rect: Option<PixelRect>)
        requires
            self.valid(),
        ensures
            match rect {
                None => forall|k: int|
                    0 <= k < self.tile_list().len() ==> !((#[trigger] self.tile_list()[k]).id == id
                        && self.tile_list()[k].indexed()),
                Some(rect) => exists|position: int|
                    rect == (#[trigger] self.tile_list()[position]).rect && found_at(
                        self.tile_list(),
                        id,
                        position,
                        self.tile_list().len() as int,
                    ),
            },
    {
        match self.index.get(&id.0) {
            None => {
                assert forall|k: int| 0 <= k < self.tiles@.len() implies !((
                #[trigger] self.tiles@[k]).id == id && self.tiles@[k].indexed()) by {
                    if self.tiles@[k].id == id && self.tiles@[k].indexed() {
                        assert(self.index@.contains_key(id.0));
                    }
                }
                None
            },
            Some(position) => {
                assert(self.index@.contains_key(id.0));
                assert(found_at(self.tiles@, id, *position as int, self.tiles@.len() as int));
                Some(self.tiles[*position].rect)
            },
        }
    }
}

/// While a map grows, it keeps its budget, and what waits are tiles that may be divided.
pub proof fn law_growing_keeps_the_budget(plan: MapPlan, candidate: Candidate)
    requires
        plan.valid(),
    ensures
        plan.tile_list().len() <= 20_000,
        plan.waiting().contains(candidate) ==> is_candidate(plan.tile_list(), candidate)
            && plan.waiting().count(candidate) == 1,
{
}

/// The map keeps its budget.
pub proof fn law_budget_is_kept(map: Treemap)
    requires
        map.valid(),
    ensures
        map.tile_list().len() <= 20_000,
{
}

/// Before every tile but the first stands a frame one level above it.
pub proof fn law_frames_come_first(map: Treemap, k: int)
    requires
        map.valid(),
        1 <= k < map.tile_list().len(),
    ensures
        follows_frame(map.tile_list(), k),
{
}

/// Blocks of what remains do not shadow their directory: the tile that is found by a node is never
/// such a block.
pub proof fn law_remainders_shadow_nothing(map: Treemap, id: NodeId, position: int)
    requires
        map.valid(),
        found_at(map.tile_list(), id, position, map.tile_list().len() as int),
    ensures
        map.tile_list()[position].kind != TileKind::Rest,
        map.tile_list()[position].kind != TileKind::Files,
        map.tile_list()[position].id == id,
{
}

/// A frame is fully covered: where rows divide the rectangle of a tile and what they leave is
/// either drawn as a block or empty, every pixel of the tile lies in one of the tiles inside it.
pub proof fn law_frames_are_covered(
    result: ScanResult,
    tile: MapTile,
    placed: Seq<RowTile>,
    rest: PixelRect,
    remainder: Option<PixelRect>,
    px: int,
    py: int,
)
    requires
        rows::divides(tile.rect, placed, rest),
        remainder == Some(rest) || (remainder is None && (rest.w == 0 || rest.h == 0)),
        tile.rect.covers(px, py),
    ensures
        exists|k: int|
            0 <= k < tiles_inside(result, tile, placed, remainder).len() && (
            #[trigger] tiles_inside(result, tile, placed, remainder)[k]).rect.covers(px, py),
{
    let inside = tiles_inside(result, tile, placed, remainder);
    if rest.covers(px, py) {
        assert(inside.last().rect.covers(px, py));
        assert(inside[inside.len() - 1].rect.covers(px, py));
    } else {
        let k = choose|k: int|
            0 <= k < placed.len() && #[trigger] rows::tile_covers(placed, k, px, py);
        assert(inside[k].rect == placed[k].rect);
    }
}

/// The tiles inside a frame do not leave it.
pub proof fn law_tiles_stay_inside_their_frame(
    result: ScanResult,
    tile: MapTile,
    placed: Seq<RowTile>,
    rest: PixelRect,
    remainder: Option<PixelRect>,
    k: int,
    px: int,
    py: int,
)
    requires
        rows::divides(tile.rect, placed, rest),
        remainder is None || remainder == Some(rest),
        0 <= k < tiles_inside(result, tile, placed, remainder).len(),
        tiles_inside(result, tile, placed, remainder)[k].rect.covers(px, py),
    ensures
        tile.rect.covers(px, py),
{
    if k < placed.len() {
        assert(rows::tile_covers(placed, k, px, py));
    } else {
        assert(rest.covers(px, py));
    }
}

/// The next tile to be divided is the largest of those that wait.
pub proof fn law_largest_is_divided_first(
    tiles: Seq<MapTile>,
    before: Multiset<Candidate>,
    after: Multiset<Candidate>,
    position: int,
    other: int,
)
    requires
        tiles.len() <= MAP_MAX_TILES,
        0 <= position < tiles.len(),
        0 <= other < tiles.len(),
        takes_first(before, after, candidate_at(tiles, position)),
        before.contains(candidate_at(tiles, other)),
    ensures
        area_of(tiles[position].rect) >= area_of(tiles[other].rect),
{
    let one = tiles[position].rect;
    let two = tiles[other].rect;
    assert(0 <= one.w as int * one.h as int <= u32::MAX as int * u32::MAX as int)
        by (nonlinear_arith)
        requires
            0 <= one.w <= u32::MAX,
            0 <= one.h <= u32::MAX,
    ;
    assert(0 <= two.w as int * two.h as int <= u32::MAX as int * u32::MAX as int)
        by (nonlinear_arith)
        requires
            0 <= two.w <= u32::MAX,
            0 <= two.h <= u32::MAX,
    ;
    assert(!queue::ahead(candidate_at(tiles, other), candidate_at(tiles, position)));
}

/// One more tile makes at most one more candidate.
proof fn lemma_candidates_grow(
    tiles: Seq<MapTile>,
    tile: MapTile,
    rest: Multiset<Candidate>,
    from: nat,
)
    requires
        from <= tiles.len(),
    ensures
        rest.add(candidates(tiles.push(tile), from, tiles.len() + 1)) == (if tile.pending() {
            rest.add(candidates(tiles, from, tiles.len())).insert(
                candidate_at(tiles.push(tile), tiles.len() as int),
            )
        } else {
            rest.add(candidates(tiles, from, tiles.len()))
        }),
{
    lemma_candidates_kept(tiles, tiles.push(tile), from, tiles.len());
    assert(rest.add(candidates(tiles.push(tile), from, tiles.len() + 1)) =~= (if tile.pending() {
        rest.add(candidates(tiles, from, tiles.len())).insert(
            candidate_at(tiles.push(tile), tiles.len() as int),
        )
    } else {
        rest.add(candidates(tiles, from, tiles.len()))
    }));
}

/// The candidates among tiles that two lists have in common.
proof fn lemma_candidates_kept(a: Seq<MapTile>, b: Seq<MapTile>, from: nat, to: nat)
    requires
        to <= a.len(),
        to <= b.len(),
        forall|k: int| from <= k < to ==> a[k] == b[k],
    ensures
        candidates(a, from, to) == candidates(b, from, to),
    decreases to,
{
    if from < to {
        lemma_candidates_kept(a, b, from, (to - 1) as nat);
    }
}

/// A tile is divided only if it stands for a directory, is at least twelve pixels wide and high, and
/// lies less than forty levels deep; and then it is.
pub proof fn law_large_directories_are_divided(result: ScanResult, tile: MapTile)
    ensures
        divisible(result, tile) <==> {
            &&& tile.id.0 < result.arena.node_list().len()
            &&& result.arena.node_list()[tile.id.0 as int].kind == NodeKind::Directory
            &&& tile.rect.w >= 12
            &&& tile.rect.h >= 12
            &&& tile.depth < 40
        },
{
}

/// What is placed inside a tile gets a tile one level deeper with the rectangle it was given: for
/// itself if it is at least three pixels wide and high, otherwise as a part of what remains of the
/// directory. The gathered files stand for the directory.
pub proof fn law_placed_shares_become_tiles(result: ScanResult, tile: MapTile, placed: RowTile)
    requires
        tile.depth < 40,
    ensures
        ({
            let piece = placed_tile(result, tile, placed);
            let large = placed.rect.w >= 3 && placed.rect.h >= 3;
            &&& piece.rect == placed.rect
            &&& piece.depth == tile.depth + 1
            &&& !large ==> piece.kind == TileKind::Rest && piece.id == tile.id
            &&& large && placed.id == tile.id ==> piece.kind == TileKind::Files && piece.id
                == tile.id
            &&& large && placed.id != tile.id ==> piece.kind == TileKind::Leaf && piece.id
                == placed.id && piece.color == colors::node_color(result, placed.id)
        }),
{
}

/// Every share that is placed gets one tile, in the order of the shares, and what remains gets the
/// last, as a block of the directory.
pub proof fn law_every_placed_share_gets_a_tile(
    result: ScanResult,
    tile: MapTile,
    placed: Seq<RowTile>,
    remainder: Option<PixelRect>,
    k: int,
)
    requires
        tile.depth < 40,
        0 <= k < placed.len(),
    ensures
        ({
            let inside = tiles_inside(result, tile, placed, remainder);
            &&& inside.len() == placed.len() + (if remainder is Some {
                1int
            } else {
                0
            })
            &&& inside[k].rect == placed[k].rect
            &&& remainder is Some ==> inside.last().rect == remainder->0 && inside.last().kind
                == TileKind::Rest && inside.last().id == tile.id
        }),
{
}

/// A divided tile stays where it is and becomes a frame; of the other tiles nothing changes.
pub proof fn law_dividing_leaves_other_tiles(
    result: ScanResult,
    tiles: Seq<MapTile>,
    position: int,
    placed: Seq<RowTile>,
    remainder: Option<PixelRect>,
    k: int,
)
    requires
        0 <= position < tiles.len(),
        0 <= k < tiles.len(),
    ensures
        ({
            let next = divided_map(result, tiles, position, placed, remainder);
            &&& k != position ==> next[k] == tiles[k]
            &&& next[position].frame()
            &&& next[position].id == tiles[position].id
            &&& next[position].rect == tiles[position].rect
            &&& next[position].depth == tiles[position].depth
            &&& next[position].color == tiles[position].color
        }),
{
}

/// Of equally large tiles the one that was added first is divided first.
pub proof fn law_earlier_tiles_are_divided_first(
    before: Multiset<Candidate>,
    after: Multiset<Candidate>,
    next: Candidate,
    other: Candidate,
)
    requires
        takes_first(before, after, next),
        before.contains(other),
    ensures
        next.area > other.area || (next.area == other.area && next.position <= other.position),
{
    assert(!queue::ahead(other, next));
}

/// Every tile that may be divided waits once it is added, and nothing else does.
pub proof fn law_new_tiles_wait(tiles: Seq<MapTile>, from: nat, to: nat, k: int)
    requires
        from <= k < to <= tiles.len() <= MAP_MAX_TILES,
    ensures
        candidates(tiles, from, to).contains(candidate_at(tiles, k)) <==> (tiles[k].kind
            == TileKind::Leaf || tiles[k].kind == TileKind::Files),
    decreases to,
{
    if k < to - 1 {
        law_new_tiles_wait(tiles, from, (to - 1) as nat, k);
    } else {
        lemma_candidates_before(tiles, from, (to - 1) as nat, k);
    }
}

proof fn lemma_candidates_before(tiles: Seq<MapTile>, from: nat, to: nat, k: int)
    requires
        to <= k < tiles.len() <= MAP_MAX_TILES,
    ensures
        !candidates(tiles, from, to).contains(candidate_at(tiles, k)),
    decreases to,
{
    if from < to {
        lemma_candidates_before(tiles, from, (to - 1) as nat, k);
        assert(candidate_at(tiles, to - 1).position != candidate_at(tiles, k).position);
    }
}

/// The budget of a map is twenty thousand tiles: while fewer than that but one are there and any
/// tile waits, the next one is handed out.
pub proof fn law_budget_is_used(tiles: Seq<MapTile>)
    requires
        tiles.len() <= 19_998,
    ensures
        MAP_MAX_TILES - tiles.len() >= 2,
        MAP_MAX_TILES - tiles.len() == 20_000 - tiles.len(),
{
}

/// Frames are the tiles that others cover; files and directories that stand for themselves, and
/// gathered files, may still be divided; and a node is found by the tile that stands for it, divided
/// or not.
pub proof fn law_tiles_are_told_by_their_kind(tile: MapTile)
    ensures
        tile.frame() <==> tile.kind == TileKind::Frame || tile.kind == TileKind::FileFrame,
        tile.pending() <==> tile.kind == TileKind::Leaf || tile.kind == TileKind::Files,
        tile.indexed() <==> tile.kind == TileKind::Leaf || tile.kind == TileKind::Frame,
        tile.kind == TileKind::Leaf ==> as_frame(tile).kind == TileKind::Frame,
        tile.kind == TileKind::Files ==> as_frame(tile).kind == TileKind::FileFrame,
        as_frame(tile).id == tile.id,
        as_frame(tile).rect == tile.rect,
{
}

/// A map starts with one tile for its root that covers all of it and may be divided.
pub proof fn law_maps_start_with_their_root(root: NodeId, width: u32, height: u32)
    ensures
        ({
            let tile = root_tile(root, width, height);
            &&& tile.id == root
            &&& tile.rect.x == 0 && tile.rect.y == 0
            &&& tile.rect.w == width && tile.rect.h == height
            &&& tile.depth == 0
            &&& tile.pending()
            &&& tile.color == 0
        }),
{
}

/// What has no tile of its own is drawn in the colour of what remains.
pub proof fn law_remainders_share_a_colour(result: ScanResult, tile: MapTile, placed: RowTile)
    requires
        placed.rect.w < 3 || placed.rect.h < 3 || placed.id == tile.id,
    ensures
        placed_tile(result, tile, placed).color == 1,
{
}

} // verus!
