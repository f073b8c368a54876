use vstd::prelude::*;

use crate::domain::feature::{
    feature_info, fresh_nodes, graph_wf, has_key, lemma_append_fresh_wf, lemma_unions_from_wf,
    root_of, root_nodes, spec_add_tile, spec_collect, spec_place_meeple, FeatureGraph,
    MeepleError, NodeView, PlayerId, SegmentRef, MAX_NODES, seg_eq,
};
use crate::domain::scoring::{
    completed_event, completed_fits, farm_event, incomplete_event, incomplete_fits,
    monastery_event, score_completed_feature, score_completed_monastery, score_farm,
    score_incomplete_feature, score_incomplete_monastery, event_ok, lemma_events_ok, lemma_monastery_event_ok, EventView,
    ScoringEvent,
};
use crate::domain::tile::{
    edges_match, rotation_ok, side_at, side_index, spec_edge, spec_edges_match, spec_opposite,
    spec_segment, EdgeKind, PlacedTile, Side,
};

verus! {

/// A cell of the board: column and row, North being the direction of growing rows.
pub type Pos = (i32, i32);

#[derive(Debug, Clone, Copy, PartialEq, Eq, Structural)]
pub enum PlacementError {
    Occupied,
    NotAdjacent,
    EdgeMismatch(Side),
}

#[derive(Debug, Clone, Copy, PartialEq, Eq, Structural)]
pub enum MeeplePlaceError {
    NoTileJustPlaced,
    SegmentNotOnLastTile,
    NoMonasteryHere,
    Feature(MeepleError),
}

/// A placed monastery: who stands on it, and how many of the eight
/// surrounding cells hold a tile.
#[derive(Debug, Clone, Copy, PartialEq, Eq, Structural)]
pub struct MonasteryRecord {
    pub owner: Option<PlayerId>,
    pub neighbor_count: u8,
}

/// A follower standing on the board: its cell, the segment it stands on
/// (`None` for a monastery) and its owner.
#[derive(Debug, Clone, Copy, PartialEq, Eq)]
pub struct ActiveMeeple {
    pub pos: Pos,
    pub segment: Option<u8>,
    pub owner: PlayerId,
}

/// Most tiles a board holds: its feature counters, and the points one tile
/// earns a player, stay in range of their integer types.
pub const MAX_TILES: usize = 10_000_000;

// ---------------------------------------------------------------------------
// Geometry
// ---------------------------------------------------------------------------

/// Every cell around `p`, diagonal ones included, exists on the board.
pub open spec fn in_bounds(p: Pos) -> bool {
    i32::MIN < p.0 < i32::MAX && i32::MIN < p.1 < i32::MAX
}

/// The cell next to `p` across side `s` can be named.
pub open spec fn offset_ok(p: Pos, s: Side) -> bool {
    match s {
        Side::North => p.1 < i32::MAX,
        Side::East => p.0 < i32::MAX,
        Side::South => p.1 > i32::MIN,
        Side::West => p.0 > i32::MIN,
    }
}

pub open spec fn spec_offset(p: Pos, s: Side) -> Pos {
    match s {
        Side::North => (p.0, (p.1 + 1) as i32),
        Side::East => ((p.0 + 1) as i32, p.1),
        Side::South => (p.0, (p.1 - 1) as i32),
        Side::West => ((p.0 - 1) as i32, p.1),
    }
}

/// The eight surrounding directions, row by row from the south-west corner.
pub open spec fn cheb_dx(k: int) -> int {
    if k == 0 || k == 3 || k == 5 {
        -1
    } else if k == 1 || k == 6 {
        0
    } else {
        1
    }
}

pub open spec fn cheb_dy(k: int) -> int {
    if k <= 2 {
        -1
    } else if k <= 4 {
        0
    } else {
        1
    }
}

/// The eight surrounding directions as column and row offsets, in the order
/// of `cheb_dx` and `cheb_dy`.
fn chebyshev_offsets() -> (r: [(i32, i32); 8])
    ensures
        forall|k: int| 0 <= k < 8 ==> (#[trigger] r[k]).0 as int == cheb_dx(k) && r[k].1 as int == cheb_dy(k),
{
    [(-1, -1), (0, -1), (1, -1), (-1, 0), (1, 0), (-1, 1), (0, 1), (1, 1)]
}

pub open spec fn cheb_cell(p: Pos, k: int) -> Pos {
    ((p.0 + cheb_dx(k)) as i32, (p.1 + cheb_dy(k)) as i32)
}

/// The cell is far enough from the edge of the coordinate range that every
/// cell next to it has every neighbour of its own.
pub open spec fn roomy(p: Pos) -> bool {
    i32::MIN + 1 < p.0 < i32::MAX - 1 && i32::MIN + 1 < p.1 < i32::MAX - 1
}

/// Every placed tile lies on a roomy cell.
pub open spec fn board_roomy(b: BoardModel) -> bool {
    forall|i: int| 0 <= i < b.tiles.len() ==> roomy((#[trigger] b.tiles[i]).0)
}

/// `a` is one of the eight cells around `b`.
pub open spec fn surrounds(a: Pos, b: Pos) -> bool {
    a != b && -1 <= a.0 - b.0 <= 1 && -1 <= a.1 - b.1 <= 1
}

// ---------------------------------------------------------------------------
// The model of a board
// ---------------------------------------------------------------------------

pub struct BoardModel {
    pub tiles: Seq<(Pos, PlacedTile)>,
    pub features: Seq<NodeView>,
    pub monasteries: Seq<(Pos, MonasteryRecord)>,
    pub last_placed: Option<Pos>,
    pub meeples: Seq<ActiveMeeple>,
}

pub open spec fn occupied(tiles: Seq<(Pos, PlacedTile)>, p: Pos) -> bool {
    exists|i: int| 0 <= i < tiles.len() && tiles[i].0 == p
}

pub open spec fn tile_index(tiles: Seq<(Pos, PlacedTile)>, p: Pos) -> int {
    choose|i: int| 0 <= i < tiles.len() && tiles[i].0 == p
}

/// The tile at cell `p`, if any.
pub open spec fn tile_at(tiles: Seq<(Pos, PlacedTile)>, p: Pos) -> Option<PlacedTile> {
    if occupied(tiles, p) {
        Some(tiles[tile_index(tiles, p)].1)
    } else {
        None
    }
}

pub open spec fn positions_distinct(tiles: Seq<(Pos, PlacedTile)>) -> bool {
    forall|i: int, j: int| 0 <= i < tiles.len() && 0 <= j < tiles.len() && i != j ==> tiles[i].0 != tiles[j].0
}

/// How many of the eight cells around `p` hold a tile.
pub open spec fn surrounding_count(tiles: Seq<(Pos, PlacedTile)>, p: Pos) -> nat {
    (if occupied(tiles, cheb_cell(p, 0)) { 1nat } else { 0nat })
        + (if occupied(tiles, cheb_cell(p, 1)) { 1nat } else { 0nat })
        + (if occupied(tiles, cheb_cell(p, 2)) { 1nat } else { 0nat })
        + (if occupied(tiles, cheb_cell(p, 3)) { 1nat } else { 0nat })
        + (if occupied(tiles, cheb_cell(p, 4)) { 1nat } else { 0nat })
        + (if occupied(tiles, cheb_cell(p, 5)) { 1nat } else { 0nat })
        + (if occupied(tiles, cheb_cell(p, 6)) { 1nat } else { 0nat })
        + (if occupied(tiles, cheb_cell(p, 7)) { 1nat } else { 0nat })
}

pub open spec fn monastery_index(ms: Seq<(Pos, MonasteryRecord)>, p: Pos) -> int {
    choose|i: int| 0 <= i < ms.len() && ms[i].0 == p
}

pub open spec fn has_monastery(ms: Seq<(Pos, MonasteryRecord)>, p: Pos) -> bool {
    exists|i: int| 0 <= i < ms.len() && ms[i].0 == p
}

/// The monastery record at cell `p`, if any.
pub open spec fn monastery_at(ms: Seq<(Pos, MonasteryRecord)>, p: Pos) -> Option<MonasteryRecord> {
    if has_monastery(ms, p) {
        Some(ms[monastery_index(ms, p)].1)
    } else {
        None
    }
}

/// The monasteries agree with the tiles: one record for each monastery tile,
/// counting exactly the occupied cells around it.
pub open spec fn monasteries_ok(b: BoardModel) -> bool {
    &&& forall|i: int, j: int| 0 <= i < b.monasteries.len() && 0 <= j < b.monasteries.len() && i != j
        ==> b.monasteries[i].0 != b.monasteries[j].0
    &&& forall|j: int| 0 <= j < b.monasteries.len() ==> #[trigger] monastery_fits(b, j)
    &&& forall|i: int| 0 <= i < b.tiles.len() && (#[trigger] b.tiles[i]).1.spec.monastery
        ==> has_monastery(b.monasteries, b.tiles[i].0)
}

pub open spec fn monastery_fits(b: BoardModel, j: int) -> bool {
    let p = b.monasteries[j].0;
    &&& occupied(b.tiles, p)
    &&& tile_at(b.tiles, p).unwrap().spec.monastery
    &&& b.monasteries[j].1.neighbor_count == surrounding_count(b.tiles, p)
}

pub open spec fn board_wf(b: BoardModel) -> bool {
    &&& positions_distinct(b.tiles)
    &&& b.tiles.len() <= MAX_TILES
    &&& forall|i: int| 0 <= i < b.tiles.len() ==> in_bounds((#[trigger] b.tiles[i]).0) && rotation_ok(b.tiles[i].1)
    &&& graph_wf(b.features)
    &&& b.features.len() <= 4 * b.tiles.len()
    &&& forall|i: int| 0 <= i < b.features.len() ==> occupied(b.tiles, (#[trigger] b.features[i]).key.0)
    &&& forall|i: int, s: int| 0 <= i < b.tiles.len() && 0 <= s < 4
        ==> #[trigger] has_key(b.features, (b.tiles[i].0, spec_segment(b.tiles[i].1, side_at(s))))
    &&& monasteries_ok(b)
    &&& b.last_placed matches Some(p) ==> occupied(b.tiles, p)
    &&& forall|m: int| 0 <= m < b.meeples.len() ==> meeple_registered(b.features, #[trigger] b.meeples[m])
}

/// A follower on a segment stands on a registered one.
pub open spec fn meeple_registered(ns: Seq<NodeView>, m: ActiveMeeple) -> bool {
    match m.segment {
        Some(sid) => has_key(ns, (m.pos, sid)),
        None => true,
    }
}

// ---------------------------------------------------------------------------
// Placing a tile
// ---------------------------------------------------------------------------

/// The first side, from side number `s` on, where a neighbouring tile shows a
/// different terrain.
pub open spec fn first_mismatch(tiles: Seq<(Pos, PlacedTile)>, pos: Pos, tile: PlacedTile, s: nat) -> Option<Side>
    decreases 4 - s,
{
    if s >= 4 {
        None
    } else {
        let side = side_at(s as int);
        match tile_at(tiles, spec_offset(pos, side)) {
            Some(n) => if !spec_edges_match(tile, side, n) {
                Some(side)
            } else {
                first_mismatch(tiles, pos, tile, s + 1)
            },
            None => first_mismatch(tiles, pos, tile, s + 1),
        }
    }
}

pub open spec fn has_neighbor(tiles: Seq<(Pos, PlacedTile)>, pos: Pos) -> bool {
    ||| occupied(tiles, spec_offset(pos, Side::North))
    ||| occupied(tiles, spec_offset(pos, Side::East))
    ||| occupied(tiles, spec_offset(pos, Side::South))
    ||| occupied(tiles, spec_offset(pos, Side::West))
}

/// Whether `tile` may go to `pos`: the cell is free, and either the board is
/// empty or the tile touches a placed tile and matches every neighbour.
pub open spec fn spec_can_place(tiles: Seq<(Pos, PlacedTile)>, pos: Pos, tile: PlacedTile) -> Result<(), PlacementError> {
    if occupied(tiles, pos) {
        Err(PlacementError::Occupied)
    } else if tiles.len() == 0 {
        Ok(())
    } else {
        match first_mismatch(tiles, pos, tile, 0) {
            Some(side) => Err(PlacementError::EdgeMismatch(side)),
            None => if has_neighbor(tiles, pos) {
                Ok(())
            } else {
                Err(PlacementError::NotAdjacent)
            },
        }
    }
}

/// The neighbouring segment across side `s` of `pos`, if a tile lies there.
pub open spec fn neighbor_seg(tiles: Seq<(Pos, PlacedTile)>, pos: Pos, s: Side) -> Option<SegmentRef> {
    let np = spec_offset(pos, s);
    match tile_at(tiles, np) {
        Some(nt) => Some((np, spec_segment(nt, spec_opposite(s)))),
        None => None,
    }
}

pub open spec fn neighbor_segs(tiles: Seq<(Pos, PlacedTile)>, pos: Pos) -> Seq<Option<SegmentRef>> {
    seq![
        neighbor_seg(tiles, pos, Side::North),
        neighbor_seg(tiles, pos, Side::East),
        neighbor_seg(tiles, pos, Side::South),
        neighbor_seg(tiles, pos, Side::West),
    ]
}

/// Monasteries around a newly filled cell count one more neighbour.
pub open spec fn bump_monasteries(ms: Seq<(Pos, MonasteryRecord)>, pos: Pos) -> Seq<(Pos, MonasteryRecord)> {
    ms.map_values(
        |m: (Pos, MonasteryRecord)|
            if surrounds(m.0, pos) {
                (m.0, MonasteryRecord { neighbor_count: (m.1.neighbor_count + 1) as u8, ..m.1 })
            } else {
                m
            },
    )
}

/// The board after `tile` is put at `pos`.
pub open spec fn spec_place(b: BoardModel, pos: Pos, tile: PlacedTile) -> BoardModel {
    let added = if tile.spec.monastery {
        b.monasteries.push(
            (pos, MonasteryRecord { owner: None, neighbor_count: surrounding_count(b.tiles, pos) as u8 }),
        )
    } else {
        b.monasteries
    };
    BoardModel {
        tiles: b.tiles.push((pos, tile)),
        features: spec_add_tile(b.features, pos, tile, neighbor_segs(b.tiles, pos)),
        monasteries: bump_monasteries(added, pos),
        last_placed: Some(pos),
        meeples: b.meeples,
    }
}

// ---------------------------------------------------------------------------
// Standing followers
// ---------------------------------------------------------------------------

/// Standing a follower of `owner` on side `side` of the last tile placed.
pub open spec fn spec_meeple_on_segment(b: BoardModel, side: Side, owner: PlayerId) -> (BoardModel, Result<(), MeeplePlaceError>) {
    match b.last_placed {
        None => (b, Err(MeeplePlaceError::NoTileJustPlaced)),
        Some(pos) => {
            let sid = spec_segment(tile_at(b.tiles, pos).unwrap(), side);
            match spec_place_meeple(b.features, (pos, sid), owner) {
                None => (b, Err(MeeplePlaceError::Feature(MeepleError::FeatureOccupied))),
                Some(ns) => (
                    BoardModel {
                        features: ns,
                        meeples: b.meeples.push(ActiveMeeple { pos, segment: Some(sid), owner }),
                        ..b
                    },
                    Ok(()),
                ),
            }
        },
    }
}

/// Standing a follower of `owner` on the monastery of the last tile placed.
pub open spec fn spec_meeple_on_monastery(b: BoardModel, owner: PlayerId) -> (BoardModel, Result<(), MeeplePlaceError>) {
    match b.last_placed {
        None => (b, Err(MeeplePlaceError::NoTileJustPlaced)),
        Some(pos) => match monastery_at(b.monasteries, pos) {
            None => (b, Err(MeeplePlaceError::NoMonasteryHere)),
            Some(rec) => if rec.owner is Some {
                (b, Err(MeeplePlaceError::Feature(MeepleError::FeatureOccupied)))
            } else {
                (
                    BoardModel {
                        monasteries: b.monasteries.update(
                            monastery_index(b.monasteries, pos),
                            (pos, MonasteryRecord { owner: Some(owner), ..rec }),
                        ),
                        meeples: b.meeples.push(ActiveMeeple { pos, segment: None, owner }),
                        ..b
                    },
                    Ok(()),
                )
            },
        },
    }
}

// ---------------------------------------------------------------------------
// Scoring
// ---------------------------------------------------------------------------

pub open spec fn events_view(v: Seq<ScoringEvent>) -> Seq<EventView> {
    v.map_values(|e: ScoringEvent| e@)
}

/// The follower stands on a segment of the feature headed by `r`.
pub open spec fn on_feature(ns: Seq<NodeView>, m: ActiveMeeple, r: SegmentRef) -> bool {
    match m.segment {
        Some(sid) => root_of(ns, (m.pos, sid)) == r,
        None => false,
    }
}

/// The followers, without those standing on the feature headed by `r`.
pub open spec fn prune_feature(ms: Seq<ActiveMeeple>, ns: Seq<NodeView>, r: SegmentRef) -> Seq<ActiveMeeple>
    decreases ms.len(),
{
    if ms.len() == 0 {
        Seq::empty()
    } else {
        prune_feature(ms.drop_last(), ns, r) + if on_feature(ns, ms.last(), r) {
            Seq::empty()
        } else {
            seq![ms.last()]
        }
    }
}

/// The followers, without the one on the monastery at `p`.
pub open spec fn prune_monastery(ms: Seq<ActiveMeeple>, p: Pos) -> Seq<ActiveMeeple>
    decreases ms.len(),
{
    if ms.len() == 0 {
        Seq::empty()
    } else {
        prune_monastery(ms.drop_last(), p) + if ms.last().segment is None && ms.last().pos == p {
            Seq::empty()
        } else {
            seq![ms.last()]
        }
    }
}

/// Sending home every follower on the feature headed by `r`.
pub open spec fn collect_feature(b: BoardModel, r: SegmentRef) -> BoardModel {
    BoardModel {
        features: spec_collect(b.features, r),
        meeples: prune_feature(b.meeples, b.features, r),
        ..b
    }
}

/// Sending home the follower on the `k`-th monastery.
pub open spec fn clear_monastery(b: BoardModel, k: int) -> BoardModel {
    let (p, rec) = b.monasteries[k];
    BoardModel {
        monasteries: b.monasteries.update(k, (p, MonasteryRecord { owner: None, ..rec })),
        meeples: prune_monastery(b.meeples, p),
        ..b
    }
}

/// Scoring the features that the tile at `pos` touches, from side `s` on;
/// `seen` holds the features already looked at.
pub open spec fn resolve_features(b: BoardModel, pos: Pos, tile: PlacedTile, s: nat, seen: Seq<SegmentRef>) -> (BoardModel, Seq<EventView>)
    decreases 4 - s,
{
    if s >= 4 {
        (b, Seq::empty())
    } else {
        let root = root_of(b.features, (pos, spec_segment(tile, side_at(s as int))));
        if seen.contains(root) {
            resolve_features(b, pos, tile, s + 1, seen)
        } else {
            let info = feature_info(b.features, root);
            let ev = if info.open_count == 0 {
                completed_event(info)
            } else {
                None
            };
            match ev {
                None => resolve_features(b, pos, tile, s + 1, seen.push(root)),
                Some(e) => {
                    let rest = resolve_features(collect_feature(b, root), pos, tile, s + 1, seen.push(root));
                    (rest.0, seq![e] + rest.1)
                },
            }
        }
    }
}

/// The cells checked for finished monasteries: the eight around `pos`, then `pos`.
pub open spec fn scan_cell(pos: Pos, k: int) -> Pos {
    if k < 8 {
        cheb_cell(pos, k)
    } else {
        pos
    }
}

/// Scoring the finished, occupied monasteries among the scanned cells `k..9`.
pub open spec fn resolve_monasteries(b: BoardModel, pos: Pos, k: nat) -> (BoardModel, Seq<EventView>)
    decreases 9 - k,
{
    if k >= 9 {
        (b, Seq::empty())
    } else {
        let c = scan_cell(pos, k as int);
        match monastery_at(b.monasteries, c) {
            Some(rec) => if rec.owner is Some && rec.neighbor_count == 8 {
                let rest = resolve_monasteries(clear_monastery(b, monastery_index(b.monasteries, c)), pos, k + 1);
                (rest.0, seq![monastery_event(rec.owner.unwrap(), 9)] + rest.1)
            } else {
                resolve_monasteries(b, pos, k + 1)
            },
            None => resolve_monasteries(b, pos, k + 1),
        }
    }
}

/// Scoring after a tile is placed: every finished road or city it touches,
/// once each, then every finished, occupied monastery on or around it.
pub open spec fn spec_resolve(b: BoardModel) -> (BoardModel, Seq<EventView>) {
    match b.last_placed {
        None => (b, Seq::empty()),
        Some(pos) => {
            let f = resolve_features(b, pos, tile_at(b.tiles, pos).unwrap(), 0, Seq::empty());
            let m = resolve_monasteries(f.0, pos, 0);
            (m.0, f.1 + m.1)
        },
    }
}

/// End of game, first step: every unfinished road or city holding followers
/// scores, in root order (`rs` lists the roots as they were when the step began).
pub open spec fn incomplete_from(b: BoardModel, rs: Seq<NodeView>, k: nat) -> (BoardModel, Seq<EventView>)
    decreases rs.len() - k,
{
    if k >= rs.len() {
        (b, Seq::empty())
    } else {
        let n = rs[k as int];
        let ev = if n.info.kind != EdgeKind::Field && n.info.open_count != 0 {
            incomplete_event(n.info)
        } else {
            None
        };
        match ev {
            None => incomplete_from(b, rs, k + 1),
            Some(e) => {
                let rest = incomplete_from(collect_feature(b, n.key), rs, k + 1);
                (rest.0, seq![e] + rest.1)
            },
        }
    }
}

/// End of game, second step: every occupied monastery scores one point and one
/// for each filled cell around it, in record order `k..n`.
pub open spec fn monasteries_endgame(b: BoardModel, k: nat, n: nat) -> (BoardModel, Seq<EventView>)
    decreases n - k,
{
    if k >= n || k >= b.monasteries.len() {
        (b, Seq::empty())
    } else {
        let rec = b.monasteries[k as int].1;
        match rec.owner {
            Some(o) => {
                let rest = monasteries_endgame(clear_monastery(b, k as int), k + 1, n);
                (rest.0, seq![monastery_event(o, (1 + rec.neighbor_count) as u32)] + rest.1)
            },
            None => monasteries_endgame(b, k + 1, n),
        }
    }
}

/// On tile `i`, side `s1` is field of the farm headed by `r`, and side `s2`
/// belongs to the finished city headed by `c`.
pub open spec fn city_link(b: BoardModel, r: SegmentRef, i: int, s1: int, s2: int, c: SegmentRef) -> bool {
    let p = b.tiles[i].0;
    let t = b.tiles[i].1;
    &&& spec_edge(t, side_at(s1)) == EdgeKind::Field
    &&& root_of(b.features, (p, spec_segment(t, side_at(s1)))) == r
    &&& spec_edge(t, side_at(s2)) == EdgeKind::City
    &&& c == root_of(b.features, (p, spec_segment(t, side_at(s2))))
    &&& feature_info(b.features, c).kind == EdgeKind::City
    &&& feature_info(b.features, c).open_count == 0
}

/// The finished cities found on tiles before tile `i`, or on tile `i` before side `s`,
/// that share a tile with the farm headed by `r`.
pub open spec fn cities_upto(b: BoardModel, r: SegmentRef, i: int, s: int) -> Set<SegmentRef> {
    Set::new(
        |c: SegmentRef|
            exists|i2: int, s1: int, s2: int|
                0 <= i2 < b.tiles.len() && 0 <= s1 < 4 && 0 <= s2 < 4 && (i2 < i || (i2 == i && s2 < s))
                    && #[trigger] city_link(b, r, i2, s1, s2, c),
    )
}

/// The finished cities that share a tile with the farm headed by `r`.
pub open spec fn farm_cities(b: BoardModel, r: SegmentRef) -> Set<SegmentRef> {
    cities_upto(b, r, b.tiles.len() as int, 0)
}

/// End of game, third step: every farm holding followers scores three points
/// for each finished city it borders; a farm that borders none scores nothing,
/// and its followers leave the board all the same.
pub open spec fn farms_from(b: BoardModel, rs: Seq<NodeView>, k: nat) -> (BoardModel, Seq<EventView>)
    decreases rs.len() - k,
{
    if k >= rs.len() {
        (b, Seq::empty())
    } else {
        let r = rs[k as int].key;
        let info = feature_info(b.features, r);
        if info.meeples.len() == 0 {
            farms_from(b, rs, k + 1)
        } else {
            match farm_event(farm_cities(b, r).len() as u32, info.meeples) {
                None => if info.kind == EdgeKind::Field {
                    farms_from(collect_feature(b, r), rs, k + 1)
                } else {
                    farms_from(b, rs, k + 1)
                },
                Some(e) => {
                    let rest = farms_from(collect_feature(b, r), rs, k + 1);
                    (rest.0, seq![e] + rest.1)
                },
            }
        }
    }
}

/// The followers the farm step sends home with no event: those on farms that
/// border no finished city, farm by farm.
pub open spec fn farm_strays(b: BoardModel, rs: Seq<NodeView>, k: nat) -> Seq<PlayerId>
    decreases rs.len() - k,
{
    if k >= rs.len() {
        Seq::empty()
    } else {
        let r = rs[k as int].key;
        let info = feature_info(b.features, r);
        if info.meeples.len() == 0 {
            farm_strays(b, rs, k + 1)
        } else {
            match farm_event(farm_cities(b, r).len() as u32, info.meeples) {
                None => if info.kind == EdgeKind::Field {
                    info.meeples + farm_strays(collect_feature(b, r), rs, k + 1)
                } else {
                    farm_strays(b, rs, k + 1)
                },
                Some(_) => farm_strays(collect_feature(b, r), rs, k + 1),
            }
        }
    }
}

/// The followers the final scoring sends home with no event.
pub open spec fn endgame_strays(b: BoardModel) -> Seq<PlayerId> {
    let s1 = incomplete_from(b, root_nodes(b.features), 0);
    let s2 = monasteries_endgame(s1.0, 0, s1.0.monasteries.len());
    farm_strays(s2.0, root_nodes(s2.0.features), 0)
}

/// Scoring at the end of the game: unfinished roads and cities, then
/// monasteries, then farms.
pub open spec fn spec_endgame(b: BoardModel) -> (BoardModel, Seq<EventView>) {
    let s1 = incomplete_from(b, root_nodes(b.features), 0);
    let s2 = monasteries_endgame(s1.0, 0, s1.0.monasteries.len());
    let s3 = farms_from(s2.0, root_nodes(s2.0.features), 0);
    (s3.0, s1.1 + s2.1 + s3.1)
}

// ---------------------------------------------------------------------------
// Lemmas on the model
// ---------------------------------------------------------------------------

pub proof fn lemma_tile_at_index(tiles: Seq<(Pos, PlacedTile)>, i: int)
    requires
        positions_distinct(tiles),
        0 <= i < tiles.len(),
    ensures
        occupied(tiles, tiles[i].0),
        tile_index(tiles, tiles[i].0) == i,
        tile_at(tiles, tiles[i].0) == Some(tiles[i].1),
{
    assert(occupied(tiles, tiles[i].0));
}

/// Putting a tile on a free cell changes only what is read at that cell.
/// `tile` at `pos` shows, across side `side`, the terrain of the tile lying
/// there, or nothing lies there.
pub open spec fn side_fits(tiles: Seq<(Pos, PlacedTile)>, pos: Pos, tile: PlacedTile, side: Side) -> bool {
    match tile_at(tiles, spec_offset(pos, side)) {
        Some(n) => spec_edges_match(tile, side, n),
        None => true,
    }
}

proof fn lemma_first_mismatch_none(tiles: Seq<(Pos, PlacedTile)>, pos: Pos, tile: PlacedTile, s: nat)
    requires
        s <= 4,
    ensures
        first_mismatch(tiles, pos, tile, s) is None
            <==> forall|k: int| s <= k < 4 ==> #[trigger] side_fits(tiles, pos, tile, side_at(k)),
    decreases 4 - s,
{
    if s < 4 {
        lemma_first_mismatch_none(tiles, pos, tile, s + 1);
        if first_mismatch(tiles, pos, tile, s) is None {
            assert forall|k: int| s <= k < 4 implies #[trigger] side_fits(tiles, pos, tile, side_at(k)) by {
                if k > s {
                    assert(s + 1 <= k);
                }
            }
        } else {
            if forall|k: int| s <= k < 4 ==> #[trigger] side_fits(tiles, pos, tile, side_at(k)) {
                assert(side_fits(tiles, pos, tile, side_at(s as int)));
                assert forall|k: int| s + 1 <= k < 4 implies #[trigger] side_fits(tiles, pos, tile, side_at(k)) by {}
            }
        }
    }
}

/// A tile may go to a cell exactly when the cell is free and, unless the
/// board is empty, the tile borders a placed tile and matches the terrain of
/// every tile it borders.
pub proof fn lemma_can_place_iff(tiles: Seq<(Pos, PlacedTile)>, pos: Pos, tile: PlacedTile)
    ensures
        spec_can_place(tiles, pos, tile) is Ok <==> {
            &&& !occupied(tiles, pos)
            &&& tiles.len() == 0 || (has_neighbor(tiles, pos) && forall|s: Side| #[trigger] side_fits(tiles, pos, tile, s))
        },
{
    lemma_first_mismatch_none(tiles, pos, tile, 0);
    if forall|k: int| 0 <= k < 4 ==> #[trigger] side_fits(tiles, pos, tile, side_at(k)) {
        assert forall|s: Side| #[trigger] side_fits(tiles, pos, tile, s) by {
            lemma_side_roundtrip(s);
            assert(side_fits(tiles, pos, tile, side_at(side_index(s))));
        }
    }
    if forall|s: Side| #[trigger] side_fits(tiles, pos, tile, s) {
        assert forall|k: int| 0 <= k < 4 implies #[trigger] side_fits(tiles, pos, tile, side_at(k)) by {}
    }
}

/// Placing a tile keeps every monastery counting exactly the occupied cells
/// around it, registers a monastery the tile carries with no follower on it,
/// and changes no other monastery's follower.
pub proof fn lemma_place_monasteries(b: BoardModel, pos: Pos, tile: PlacedTile, q: Pos)
    requires
        board_wf(b),
        spec_can_place(b.tiles, pos, tile) is Ok,
        in_bounds(pos),
        rotation_ok(tile),
        b.tiles.len() < MAX_TILES,
    ensures
        monastery_at(spec_place(b, pos, tile).monasteries, q) matches Some(m)
            ==> m.neighbor_count == surrounding_count(spec_place(b, pos, tile).tiles, q),
        tile.spec.monastery ==> (monastery_at(spec_place(b, pos, tile).monasteries, pos) matches Some(m) && m.owner is None),
        q != pos ==> match monastery_at(spec_place(b, pos, tile).monasteries, q) {
            Some(m) => (monastery_at(b.monasteries, q) matches Some(m0) && m0.owner == m.owner),
            None => monastery_at(b.monasteries, q) is None,
        },
{
    lemma_place_wf(b, pos, tile);
    let nb = spec_place(b, pos, tile);
    let ms = nb.monasteries;
    let added = if tile.spec.monastery {
        b.monasteries.push((pos, MonasteryRecord { owner: None, neighbor_count: surrounding_count(b.tiles, pos) as u8 }))
    } else {
        b.monasteries
    };
    assert(ms.len() == added.len());
    assert forall|j: int| 0 <= j < ms.len() implies (#[trigger] ms[j]).0 == added[j].0 && ms[j].1.owner == added[j].1.owner by {}
    if has_monastery(ms, q) {
        let j = monastery_index(ms, q);
        assert(monastery_fits(nb, j));
    }
    if tile.spec.monastery {
        let last = added.len() - 1;
        assert(ms[last].0 == pos);
        assert(has_monastery(ms, pos));
        let j = monastery_index(ms, pos);
        assert(j == last);
    }
    if q != pos {
        if has_monastery(ms, q) {
            let j = monastery_index(ms, q);
            assert(j < b.monasteries.len());
            assert(b.monasteries[j].0 == q);
            assert(has_monastery(b.monasteries, q));
            let j0 = monastery_index(b.monasteries, q);
            assert(j0 == j);
        } else {
            if has_monastery(b.monasteries, q) {
                let j0 = monastery_index(b.monasteries, q);
                assert(ms[j0].0 == q);
            }
        }
    }
}

/// A tile placed is read back at its cell, every other cell reads as before,
/// and the board holds one tile more.
pub proof fn lemma_place_then_get(b: BoardModel, pos: Pos, t: PlacedTile, q: Pos)
    requires
        board_wf(b),
        spec_can_place(b.tiles, pos, t) is Ok,
    ensures
        tile_at(spec_place(b, pos, t).tiles, q) == if q == pos {
            Some(t)
        } else {
            tile_at(b.tiles, q)
        },
        spec_place(b, pos, t).tiles.len() == b.tiles.len() + 1,
        spec_place(b, pos, t).last_placed == Some(pos),
{
    lemma_tile_at_push(b.tiles, pos, t, q);
}

/// Standing a follower on the monastery of the last tile placed: refused when
/// no tile was just placed, when that tile has no monastery, or when the
/// monastery is taken, leaving the board as it was; otherwise the monastery
/// there is the owner's and every other cell's monastery reads as before.
pub proof fn lemma_meeple_on_monastery_law(b: BoardModel, owner: PlayerId, q: Pos)
    requires
        board_wf(b),
    ensures
        b.last_placed is None ==> spec_meeple_on_monastery(b, owner) == (b, Err::<(), MeeplePlaceError>(MeeplePlaceError::NoTileJustPlaced)),
        b.last_placed matches Some(pos) && monastery_at(b.monasteries, pos) is None
            ==> spec_meeple_on_monastery(b, owner) == (b, Err::<(), MeeplePlaceError>(MeeplePlaceError::NoMonasteryHere)),
        b.last_placed matches Some(pos) && monastery_at(b.monasteries, pos) matches Some(m) && m.owner is Some
            ==> spec_meeple_on_monastery(b, owner) == (b, Err::<(), MeeplePlaceError>(MeeplePlaceError::Feature(MeepleError::FeatureOccupied))),
        (match b.last_placed {
            Some(pos) => match monastery_at(b.monasteries, pos) {
                Some(m) => m.owner is None ==> {
                    let b2 = spec_meeple_on_monastery(b, owner).0;
                    &&& spec_meeple_on_monastery(b, owner).1 is Ok
                    &&& monastery_at(b2.monasteries, pos) == Some((MonasteryRecord { owner: Some(owner), ..m }))
                    &&& (q != pos ==> monastery_at(b2.monasteries, q) == monastery_at(b.monasteries, q))
                    &&& b2.tiles == b.tiles
                    &&& b2.features == b.features
                    &&& b2.last_placed == b.last_placed
                },
                None => true,
            },
            None => true,
        }),
{
    if let Some(pos) = b.last_placed {
        if let Some(m) = monastery_at(b.monasteries, pos) {
            if m.owner is None {
                let k = monastery_index(b.monasteries, pos);
                let ms = b.monasteries;
                let ms2 = ms.update(k, (pos, MonasteryRecord { owner: Some(owner), ..m }));
                assert(ms2[k].0 == pos);
                assert(has_monastery(ms2, pos));
                let k2 = monastery_index(ms2, pos);
                assert(k2 == k);
                if q != pos {
                    if has_monastery(ms2, q) {
                        let j = monastery_index(ms2, q);
                        assert(j != k);
                        assert(ms[j].0 == q);
                        assert(has_monastery(ms, q));
                        let j0 = monastery_index(ms, q);
                        assert(j0 == j);
                    } else if has_monastery(ms, q) {
                        let j0 = monastery_index(ms, q);
                        assert(j0 != k);
                        assert(ms2[j0].0 == q);
                    }
                }
            }
        }
    }
}

pub proof fn lemma_tile_at_push(tiles: Seq<(Pos, PlacedTile)>, pos: Pos, t: PlacedTile, q: Pos)
    requires
        positions_distinct(tiles),
        !occupied(tiles, pos),
    ensures
        positions_distinct(tiles.push((pos, t))),
        occupied(tiles.push((pos, t)), q) == (occupied(tiles, q) || q == pos),
        tile_at(tiles.push((pos, t)), q) == if q == pos {
            Some(t)
        } else {
            tile_at(tiles, q)
        },
{
    let nt = tiles.push((pos, t));
    assert forall|i: int, j: int| 0 <= i < nt.len() && 0 <= j < nt.len() && i != j implies nt[i].0 != nt[j].0 by {
        if i == tiles.len() {
            assert(nt[j] == tiles[j]);
        } else if j == tiles.len() {
            assert(nt[i] == tiles[i]);
        }
    }
    if q == pos {
        assert(nt[tiles.len() as int].0 == q);
        lemma_tile_at_index(nt, tiles.len() as int);
    } else if occupied(tiles, q) {
        let i = tile_index(tiles, q);
        assert(nt[i] == tiles[i]);
        lemma_tile_at_index(nt, i);
    } else {
        if occupied(nt, q) {
            let i = choose|i: int| 0 <= i < nt.len() && nt[i].0 == q;
            assert(nt[i] == tiles[i]);
        }
    }
}

/// Filling a free cell adds one to the count of every cell it surrounds.
pub proof fn lemma_surrounding_push(tiles: Seq<(Pos, PlacedTile)>, pos: Pos, t: PlacedTile, p: Pos)
    requires
        positions_distinct(tiles),
        !occupied(tiles, pos),
        in_bounds(p),
    ensures
        surrounding_count(tiles.push((pos, t)), p) == surrounding_count(tiles, p) + if surrounds(p, pos) {
            1nat
        } else {
            0nat
        },
        surrounding_count(tiles, p) <= 8,
{
    let nt = tiles.push((pos, t));
    assert forall|k: int| 0 <= k < 8 implies #[trigger] occupied(nt, cheb_cell(p, k)) == (occupied(tiles, cheb_cell(p, k)) || cheb_cell(p, k) == pos) by {
        lemma_tile_at_push(tiles, pos, t, cheb_cell(p, k));
    }
    assert(occupied(nt, cheb_cell(p, 0)) == (occupied(tiles, cheb_cell(p, 0)) || cheb_cell(p, 0) == pos));
    assert(occupied(nt, cheb_cell(p, 1)) == (occupied(tiles, cheb_cell(p, 1)) || cheb_cell(p, 1) == pos));
    assert(occupied(nt, cheb_cell(p, 2)) == (occupied(tiles, cheb_cell(p, 2)) || cheb_cell(p, 2) == pos));
    assert(occupied(nt, cheb_cell(p, 3)) == (occupied(tiles, cheb_cell(p, 3)) || cheb_cell(p, 3) == pos));
    assert(occupied(nt, cheb_cell(p, 4)) == (occupied(tiles, cheb_cell(p, 4)) || cheb_cell(p, 4) == pos));
    assert(occupied(nt, cheb_cell(p, 5)) == (occupied(tiles, cheb_cell(p, 5)) || cheb_cell(p, 5) == pos));
    assert(occupied(nt, cheb_cell(p, 6)) == (occupied(tiles, cheb_cell(p, 6)) || cheb_cell(p, 6) == pos));
    assert(occupied(nt, cheb_cell(p, 7)) == (occupied(tiles, cheb_cell(p, 7)) || cheb_cell(p, 7) == pos));
}

/// Replacing the features by a graph with the same keys in the same places,
/// and the followers by ones standing on registered segments, keeps the board
/// well formed.
pub proof fn lemma_same_shape_wf(b: BoardModel, b2: BoardModel)
    requires
        board_wf(b),
        b2.tiles == b.tiles,
        b2.monasteries.len() == b.monasteries.len(),
        forall|j: int| 0 <= j < b.monasteries.len() ==> (#[trigger] b2.monasteries[j]).0 == b.monasteries[j].0
            && b2.monasteries[j].1.neighbor_count == b.monasteries[j].1.neighbor_count,
        b2.last_placed == b.last_placed,
        graph_wf(b2.features),
        b2.features.len() == b.features.len(),
        forall|i: int| 0 <= i < b.features.len() ==> #[trigger] b2.features[i].key == b.features[i].key,
        forall|m: int| 0 <= m < b2.meeples.len() ==> meeple_registered(b.features, #[trigger] b2.meeples[m]),
    ensures
        board_wf(b2),
        forall|k: SegmentRef| #[trigger] has_key(b2.features, k) == has_key(b.features, k),
{
    assert forall|k: SegmentRef| #[trigger] has_key(b2.features, k) == has_key(b.features, k) by {
        crate::domain::feature::lemma_same_keys(b.features, b2.features, k);
    }
    assert forall|i: int| 0 <= i < b2.features.len() implies occupied(b2.tiles, (#[trigger] b2.features[i]).key.0) by {
        assert(b2.features[i].key == b.features[i].key);
    }
    assert forall|m: int| 0 <= m < b2.meeples.len() implies meeple_registered(b2.features, #[trigger] b2.meeples[m]) by {
        assert(meeple_registered(b.features, b2.meeples[m]));
    }
    assert forall|j: int| 0 <= j < b2.monasteries.len() implies #[trigger] monastery_fits(b2, j) by {
        assert(monastery_fits(b, j));
    }
    assert forall|i: int| 0 <= i < b2.tiles.len() && (#[trigger] b2.tiles[i]).1.spec.monastery implies has_monastery(b2.monasteries, b2.tiles[i].0) by {
        assert(has_monastery(b.monasteries, b.tiles[i].0));
        let j = choose|j: int| 0 <= j < b.monasteries.len() && b.monasteries[j].0 == b.tiles[i].0;
        assert(b2.monasteries[j].0 == b.monasteries[j].0);
    }
    assert forall|i: int, j: int| 0 <= i < b2.monasteries.len() && 0 <= j < b2.monasteries.len() && i != j implies b2.monasteries[i].0 != b2.monasteries[j].0 by {
        assert(b2.monasteries[i].0 == b.monasteries[i].0);
        assert(b2.monasteries[j].0 == b.monasteries[j].0);
    }
}

pub proof fn lemma_prune_feature_sub(ms: Seq<ActiveMeeple>, ns: Seq<NodeView>, r: SegmentRef)
    ensures
        forall|j: int| 0 <= j < prune_feature(ms, ns, r).len() ==> ms.contains(#[trigger] prune_feature(ms, ns, r)[j]),
        prune_feature(ms, ns, r).len() <= ms.len(),
    decreases ms.len(),
{
    if ms.len() > 0 {
        lemma_prune_feature_sub(ms.drop_last(), ns, r);
        let p0 = prune_feature(ms.drop_last(), ns, r);
        let p1 = prune_feature(ms, ns, r);
        assert forall|j: int| 0 <= j < p1.len() implies ms.contains(#[trigger] p1[j]) by {
            if j < p0.len() {
                assert(p1[j] == p0[j]);
                assert(ms.drop_last().contains(p0[j]));
                let i = choose|i: int| 0 <= i < ms.drop_last().len() && ms.drop_last()[i] == p0[j];
                assert(ms[i] == p0[j]);
            } else {
                assert(p1[j] == ms.last());
                assert(ms[ms.len() - 1] == ms.last());
            }
        }
    }
}

pub proof fn lemma_prune_monastery_sub(ms: Seq<ActiveMeeple>, p: Pos)
    ensures
        forall|j: int| 0 <= j < prune_monastery(ms, p).len() ==> ms.contains(#[trigger] prune_monastery(ms, p)[j]),
        prune_monastery(ms, p).len() <= ms.len(),
    decreases ms.len(),
{
    if ms.len() > 0 {
        lemma_prune_monastery_sub(ms.drop_last(), p);
        let p0 = prune_monastery(ms.drop_last(), p);
        let p1 = prune_monastery(ms, p);
        assert forall|j: int| 0 <= j < p1.len() implies ms.contains(#[trigger] p1[j]) by {
            if j < p0.len() {
                assert(p1[j] == p0[j]);
                assert(ms.drop_last().contains(p0[j]));
                let i = choose|i: int| 0 <= i < ms.drop_last().len() && ms.drop_last()[i] == p0[j];
                assert(ms[i] == p0[j]);
            } else {
                assert(p1[j] == ms.last());
                assert(ms[ms.len() - 1] == ms.last());
            }
        }
    }
}

/// Sending a feature's followers home keeps the board well formed, the tiles,
/// monasteries and feature membership unchanged.
pub proof fn lemma_collect_feature_wf(b: BoardModel, r: SegmentRef)
    requires
        board_wf(b),
        has_key(b.features, r),
    ensures
        board_wf(collect_feature(b, r)),
        forall|k: SegmentRef| #[trigger] has_key(collect_feature(b, r).features, k) == has_key(b.features, k),
        forall|k: SegmentRef| has_key(b.features, k) ==> #[trigger] root_of(collect_feature(b, r).features, k) == root_of(b.features, k),
{
    crate::domain::feature::lemma_collect_props(b.features, r);
    lemma_prune_feature_sub(b.meeples, b.features, r);
    let b2 = collect_feature(b, r);
    assert forall|m: int| 0 <= m < b2.meeples.len() implies meeple_registered(b.features, #[trigger] b2.meeples[m]) by {
        let i = choose|i: int| 0 <= i < b.meeples.len() && b.meeples[i] == b2.meeples[m];
        assert(meeple_registered(b.features, b.meeples[i]));
    }
    lemma_same_shape_wf(b, b2);
}

/// Sending a monastery's follower home keeps the board well formed.
pub proof fn lemma_clear_monastery_wf(b: BoardModel, k: int)
    requires
        board_wf(b),
        0 <= k < b.monasteries.len(),
    ensures
        board_wf(clear_monastery(b, k)),
        clear_monastery(b, k).features == b.features,
        clear_monastery(b, k).tiles == b.tiles,
{
    lemma_prune_monastery_sub(b.meeples, b.monasteries[k].0);
    let b2 = clear_monastery(b, k);
    assert forall|m: int| 0 <= m < b2.meeples.len() implies meeple_registered(b.features, #[trigger] b2.meeples[m]) by {
        let i = choose|i: int| 0 <= i < b.meeples.len() && b.meeples[i] == b2.meeples[m];
        assert(meeple_registered(b.features, b.meeples[i]));
    }
    assert forall|i: int| 0 <= i < b.features.len() implies #[trigger] b2.features[i].key == b.features[i].key by {
    }
    lemma_same_shape_wf(b, b2);
}

/// The side numbered as `s` is `s`.
pub proof fn lemma_side_roundtrip(s: Side)
    ensures
        side_at(side_index(s)) == s,
        0 <= side_index(s) < 4,
{
}

/// Adding a tile keeps every registered segment registered, and registers the
/// new tile's segments.
pub proof fn lemma_add_tile_keys(ns: Seq<NodeView>, pos: Pos, tile: PlacedTile, nbs: Seq<Option<SegmentRef>>)
    requires
        graph_wf(ns),
        forall|i: int| 0 <= i < ns.len() ==> #[trigger] ns[i].key.0 != pos,
        ns.len() + 4 <= MAX_NODES,
        nbs.len() == 4,
        forall|t: int| 0 <= t < 4 ==> (#[trigger] nbs[t] matches Some(nb) ==> has_key(ns, nb)),
    ensures
        graph_wf(spec_add_tile(ns, pos, tile, nbs)),
        spec_add_tile(ns, pos, tile, nbs).len() <= ns.len() + 4,
        forall|k: SegmentRef| has_key(ns, k) ==> #[trigger] has_key(spec_add_tile(ns, pos, tile, nbs), k),
        forall|s: int| 0 <= s < 4 ==> #[trigger] has_key(spec_add_tile(ns, pos, tile, nbs), (pos, spec_segment(tile, side_at(s)))),
        forall|i: int| 0 <= i < spec_add_tile(ns, pos, tile, nbs).len() ==>
            (#[trigger] spec_add_tile(ns, pos, tile, nbs)[i]).key.0 == pos || has_key(ns, spec_add_tile(ns, pos, tile, nbs)[i].key),
{
    lemma_append_fresh_wf(ns, pos, tile);
    let f = fresh_nodes(pos, tile, 4);
    let base = ns + f;
    assert forall|t: int| 0 <= t < 4 implies (#[trigger] nbs[t] matches Some(nb) ==> has_key(base, nb)) by {
        if let Some(nb) = nbs[t] {
            let j = choose|j: int| 0 <= j < ns.len() && ns[j].key == nb;
            assert(base[j] == ns[j]);
        }
    }
    lemma_unions_from_wf(base, pos, tile, nbs, 0);
    let res = spec_add_tile(ns, pos, tile, nbs);
    assert forall|k: SegmentRef| has_key(ns, k) implies #[trigger] has_key(res, k) by {
        let j = choose|j: int| 0 <= j < ns.len() && ns[j].key == k;
        assert(base[j] == ns[j]);
        assert(res[j].key == k);
    }
    assert forall|s: int| 0 <= s < 4 implies #[trigger] has_key(res, (pos, spec_segment(tile, side_at(s)))) by {
        assert(has_key(base, (pos, spec_segment(tile, side_at(s)))));
        let j = choose|j: int| 0 <= j < base.len() && base[j].key == (pos, spec_segment(tile, side_at(s)));
        assert(res[j].key == base[j].key);
    }
    assert forall|i: int| 0 <= i < res.len() implies (#[trigger] res[i]).key.0 == pos || has_key(ns, res[i].key) by {
        assert(res[i].key == base[i].key);
        if i < ns.len() {
            assert(base[i] == ns[i]);
        } else {
            assert(base[i] == f[i - ns.len()]);
        }
    }
}

/// Placing a tile where the rules allow keeps the board well formed.
pub proof fn lemma_place_wf(b: BoardModel, pos: Pos, tile: PlacedTile)
    requires
        board_wf(b),
        spec_can_place(b.tiles, pos, tile) is Ok,
        in_bounds(pos),
        rotation_ok(tile),
        b.tiles.len() < MAX_TILES,
    ensures
        board_wf(spec_place(b, pos, tile)),
        forall|t: int| 0 <= t < 4 ==> (#[trigger] neighbor_segs(b.tiles, pos)[t] matches Some(nb) ==> has_key(b.features, nb)),
        forall|i: int| 0 <= i < b.features.len() ==> #[trigger] b.features[i].key.0 != pos,
{
    let nb = spec_place(b, pos, tile);
    let nt = nb.tiles;
    assert(!occupied(b.tiles, pos));
    assert forall|q: Pos| #[trigger] occupied(nt, q) == (occupied(b.tiles, q) || q == pos) && tile_at(nt, q) == if q == pos { Some(tile) } else { tile_at(b.tiles, q) } by {
        lemma_tile_at_push(b.tiles, pos, tile, q);
    }
    lemma_tile_at_push(b.tiles, pos, tile, pos);
    // the features
    assert forall|i: int| 0 <= i < b.features.len() implies #[trigger] b.features[i].key.0 != pos by {
        assert(occupied(b.tiles, b.features[i].key.0));
    }
    let nbs = neighbor_segs(b.tiles, pos);
    assert forall|t: int| 0 <= t < 4 implies (#[trigger] nbs[t] matches Some(nb) ==> has_key(b.features, nb)) by {
        let s = side_at(t);
        if let Some(k) = nbs[t] {
            let np = spec_offset(pos, s);
            assert(nbs[t] == neighbor_seg(b.tiles, pos, s));
            assert(occupied(b.tiles, np));
            let i = tile_index(b.tiles, np);
            lemma_side_roundtrip(spec_opposite(s));
            assert(has_key(b.features, (b.tiles[i].0, spec_segment(b.tiles[i].1, side_at(side_index(spec_opposite(s)))))));
        }
    }
    lemma_add_tile_keys(b.features, pos, tile, nbs);
    assert forall|i: int| 0 <= i < nb.features.len() implies occupied(nt, (#[trigger] nb.features[i]).key.0) by {
        if nb.features[i].key.0 != pos {
            let k = nb.features[i].key;
            let j = choose|j: int| 0 <= j < b.features.len() && b.features[j].key == k;
            assert(occupied(b.tiles, b.features[j].key.0));
        }
    }
    assert forall|i: int, s: int| 0 <= i < nt.len() && 0 <= s < 4 implies #[trigger] has_key(nb.features, (nt[i].0, spec_segment(nt[i].1, side_at(s)))) by {
        if i < b.tiles.len() {
            assert(nt[i] == b.tiles[i]);
            assert(has_key(b.features, (b.tiles[i].0, spec_segment(b.tiles[i].1, side_at(s)))));
        }
    }
    assert forall|i: int| 0 <= i < nt.len() implies in_bounds((#[trigger] nt[i]).0) && rotation_ok(nt[i].1) by {
        if i < b.tiles.len() {
            assert(nt[i] == b.tiles[i]);
        }
    }
    // the monasteries
    let added = if tile.spec.monastery {
        b.monasteries.push((pos, MonasteryRecord { owner: None, neighbor_count: surrounding_count(b.tiles, pos) as u8 }))
    } else {
        b.monasteries
    };
    lemma_surrounding_push(b.tiles, pos, tile, pos);
    assert forall|j: int| 0 <= j < added.len() implies #[trigger] added[j].0 == pos || (monastery_fits(b, j) && j < b.monasteries.len() && added[j] == b.monasteries[j]) by {
        if j < b.monasteries.len() {
            assert(added[j] == b.monasteries[j]);
        }
    }
    let ms = nb.monasteries;
    assert forall|i: int, j: int| 0 <= i < ms.len() && 0 <= j < ms.len() && i != j implies ms[i].0 != ms[j].0 by {
        assert(ms[i].0 == added[i].0);
        assert(ms[j].0 == added[j].0);
        if added[i].0 == pos && added[j].0 == pos {
            if i < b.monasteries.len() {
                assert(monastery_fits(b, i));
            }
            if j < b.monasteries.len() {
                assert(monastery_fits(b, j));
            }
        }
    }
    assert forall|j: int| 0 <= j < ms.len() implies #[trigger] monastery_fits(nb, j) by {
        let p = added[j].0;
        assert(ms[j].0 == p);
        if p == pos {
            assert(tile.spec.monastery) by {
                if !tile.spec.monastery {
                    assert(added[j] == b.monasteries[j]);
                    assert(monastery_fits(b, j));
                }
            }
            if j < b.monasteries.len() {
                assert(added[j] == b.monasteries[j]);
                assert(monastery_fits(b, j));
            }
            assert(j == b.monasteries.len());
        } else {
            assert(monastery_fits(b, j));
            let i = tile_index(b.tiles, p);
            assert(in_bounds(b.tiles[i].0));
            lemma_surrounding_push(b.tiles, pos, tile, p);
        }
    }
    assert forall|i: int| 0 <= i < nt.len() && (#[trigger] nt[i]).1.spec.monastery implies has_monastery(ms, nt[i].0) by {
        if i < b.tiles.len() {
            assert(nt[i] == b.tiles[i]);
            assert(has_monastery(b.monasteries, b.tiles[i].0));
            let j = choose|j: int| 0 <= j < b.monasteries.len() && b.monasteries[j].0 == b.tiles[i].0;
            assert(ms[j].0 == added[j].0);
        } else {
            assert(ms[b.monasteries.len() as int].0 == pos);
        }
    }
}

/// Scoring the features a tile touches gives at most one event per side still
/// to look at, each worth at most four points per registered segment.
pub proof fn lemma_resolve_features_bounds(b: BoardModel, pos: Pos, tile: PlacedTile, s: nat, seen: Seq<SegmentRef>)
    requires
        board_wf(b),
        s <= 4,
        forall|k: int| 0 <= k < 4 ==> #[trigger] has_key(b.features, (pos, spec_segment(tile, side_at(k)))),
    ensures
        resolve_features(b, pos, tile, s, seen).1.len() <= 4 - s,
        forall|j: int| 0 <= j < resolve_features(b, pos, tile, s, seen).1.len()
            ==> (#[trigger] resolve_features(b, pos, tile, s, seen).1[j]).points <= 4 * b.features.len(),
    decreases 4 - s,
{
    if s < 4 {
        let x = (pos, spec_segment(tile, side_at(s as int)));
        assert(has_key(b.features, x));
        let root = root_of(b.features, x);
        crate::domain::feature::lemma_root_index(b.features, x);
        crate::domain::feature::lemma_info_bounds(b.features, x);
        if seen.contains(root) {
            lemma_resolve_features_bounds(b, pos, tile, s + 1, seen);
        } else {
            let info = feature_info(b.features, root);
            assert(info == feature_info(b.features, x));
            let ev = if info.open_count == 0 {
                completed_event(info)
            } else {
                None
            };
            match ev {
                None => {
                    lemma_resolve_features_bounds(b, pos, tile, s + 1, seen.push(root));
                },
                Some(e) => {
                    lemma_collect_feature_wf(b, root);
                    let b2 = collect_feature(b, root);
                    assert forall|k: int| 0 <= k < 4 implies #[trigger] has_key(b2.features, (pos, spec_segment(tile, side_at(k)))) by {
                        assert(has_key(b.features, (pos, spec_segment(tile, side_at(k)))));
                    }
                    lemma_resolve_features_bounds(b2, pos, tile, s + 1, seen.push(root));
                    let rest = resolve_features(b2, pos, tile, s + 1, seen.push(root));
                    assert(resolve_features(b, pos, tile, s, seen).1 == seq![e] + rest.1);
                    assert forall|j: int| 0 <= j < resolve_features(b, pos, tile, s, seen).1.len()
                        implies (#[trigger] resolve_features(b, pos, tile, s, seen).1[j]).points <= 4 * b.features.len() by {
                        if j > 0 {
                            assert(resolve_features(b, pos, tile, s, seen).1[j] == rest.1[j - 1]);
                        }
                    }
                },
            }
        }
    }
}

/// Scoring finished monasteries among the scanned cells `k..9` gives at most
/// one event per cell, each worth nine points.
pub proof fn lemma_resolve_monasteries_bounds(b: BoardModel, pos: Pos, k: nat)
    requires
        k <= 9,
    ensures
        resolve_monasteries(b, pos, k).1.len() <= 9 - k,
        forall|j: int| 0 <= j < resolve_monasteries(b, pos, k).1.len()
            ==> (#[trigger] resolve_monasteries(b, pos, k).1[j]).points == 9,
    decreases 9 - k,
{
    if k < 9 {
        let c = scan_cell(pos, k as int);
        match monastery_at(b.monasteries, c) {
            Some(rec) => if rec.owner is Some && rec.neighbor_count == 8 {
                let b2 = clear_monastery(b, monastery_index(b.monasteries, c));
                lemma_resolve_monasteries_bounds(b2, pos, k + 1);
                let rest = resolve_monasteries(b2, pos, k + 1);
                assert forall|j: int| 0 <= j < resolve_monasteries(b, pos, k).1.len()
                    implies (#[trigger] resolve_monasteries(b, pos, k).1[j]).points == 9 by {
                    if j > 0 {
                        assert(resolve_monasteries(b, pos, k).1[j] == rest.1[j - 1]);
                    }
                }
            } else {
                lemma_resolve_monasteries_bounds(b, pos, k + 1);
            },
            None => {
                lemma_resolve_monasteries_bounds(b, pos, k + 1);
            },
        }
    }
}

/// Scoring after a placement gives at most thirteen events, each worth at most
/// four points per registered segment, plus nine.
pub proof fn lemma_resolve_bounds(b: BoardModel)
    requires
        board_wf(b),
    ensures
        spec_resolve(b).1.len() <= 13,
        forall|j: int| 0 <= j < spec_resolve(b).1.len()
            ==> (#[trigger] spec_resolve(b).1[j]).points <= 4 * b.features.len() + 9,
{
    if let Some(pos) = b.last_placed {
        let i = tile_index(b.tiles, pos);
        assert(b.tiles[i].0 == pos);
        let tile = tile_at(b.tiles, pos).unwrap();
        assert forall|k: int| 0 <= k < 4 implies #[trigger] has_key(b.features, (pos, spec_segment(tile, side_at(k)))) by {
            assert(has_key(b.features, (b.tiles[i].0, spec_segment(b.tiles[i].1, side_at(k)))));
        }
        lemma_resolve_features_bounds(b, pos, tile, 0, Seq::empty());
        let f = resolve_features(b, pos, tile, 0, Seq::empty());
        lemma_resolve_monasteries_bounds(f.0, pos, 0);
        let m = resolve_monasteries(f.0, pos, 0);
        assert(spec_resolve(b).1 == f.1 + m.1);
        assert forall|j: int| 0 <= j < spec_resolve(b).1.len()
            implies (#[trigger] spec_resolve(b).1[j]).points <= 4 * b.features.len() + 9 by {
            if j < f.1.len() {
                assert(spec_resolve(b).1[j] == f.1[j]);
            } else {
                assert(spec_resolve(b).1[j] == m.1[j - f.1.len()]);
            }
        }
    }
}

// ---------------------------------------------------------------------------
// The board
// ---------------------------------------------------------------------------

pub fn offset(pos: Pos, side: Side) -> (r: Pos)
    requires
        offset_ok(pos, side),
    ensures
        r == spec_offset(pos, side),
{
    let (x, y) = pos;
    match side {
        Side::North => (x, y + 1),
        Side::East => (x + 1, y),
        Side::South => (x, y - 1),
        Side::West => (x - 1, y),
    }
}

/// Whether `r` occurs in `seen`.
fn contains_seg(seen: &Vec<SegmentRef>, r: SegmentRef) -> (b: bool)
    ensures
        b == seen@.contains(r),
{
    let mut i: usize = 0;
    while i < seen.len()
        invariant
            i <= seen@.len(),
            forall|j: int| 0 <= j < i ==> seen@[j] != r,
        decreases seen@.len() - i,
    {
        if seg_eq(seen[i], r) {
            assert(seen@[i as int] == r);
            return true;
        }
        i = i + 1;
    }
    false
}

/// Cells are equal when both coordinates are.
pub fn pos_eq(a: Pos, b: Pos) -> (r: bool)
    ensures
        r == (a == b),
{
    a.0 == b.0 && a.1 == b.1
}

/// The placed tiles, the features they form, the monasteries, the last tile
/// placed, and the followers standing on the board.
pub struct Board {
    tiles: Vec<(Pos, PlacedTile)>,
    pub features: FeatureGraph,
    monasteries: Vec<(Pos, MonasteryRecord)>,
    last_placed: Option<Pos>,
    meeples: Vec<ActiveMeeple>,
}

impl View for Board {
    type V = BoardModel;

    closed spec fn view(&self) -> BoardModel {
        BoardModel {
            tiles: self.tiles@,
            features: self.features@,
            monasteries: self.monasteries@,
            last_placed: self.last_placed,
            meeples: self.meeples@,
        }
    }
}

impl Board {
    pub open spec fn wf(&self) -> bool {
        board_wf(self@)
    }

    pub fn new() -> (r: Board)
        ensures
            r@.tiles.len() == 0,
            r@.features.len() == 0,
            r@.monasteries.len() == 0,
            r@.last_placed is None,
            r@.meeples.len() == 0,
            r.wf(),
    {
        Board {
            tiles: Vec::new(),
            features: FeatureGraph::new(),
            monasteries: Vec::new(),
            last_placed: None,
            meeples: Vec::new(),
        }
    }

    pub fn is_empty(&self) -> (r: bool)
        ensures
            r == (self@.tiles.len() == 0),
    {
        self.tiles.len() == 0
    }

    pub fn len(&self) -> (r: usize)
        ensures
            r == self@.tiles.len(),
    {
        self.tiles.len()
    }

    fn find_tile(&self, pos: Pos) -> (r: Option<usize>)
        requires
            self.wf(),
        ensures
            r matches Some(i) ==> i < self@.tiles.len() && self@.tiles[i as int].0 == pos
                && tile_index(self@.tiles, pos) == i,
            r is None <==> !occupied(self@.tiles, pos),
    {
        let mut i: usize = 0;
        while i < self.tiles.len()
            invariant
                self.wf(),
                i <= self@.tiles.len(),
                forall|j: int| 0 <= j < i ==> self@.tiles[j].0 != pos,
            decreases self@.tiles.len() - i,
        {
            if pos_eq(self.tiles[i].0, pos) {
                proof {
                    lemma_tile_at_index(self@.tiles, i as int);
                }
                return Some(i);
            }
            i = i + 1;
        }
        None
    }

    /// The tile at `pos`, if any.
    pub fn get(&self, pos: Pos) -> (r: Option<&PlacedTile>)
        requires
            self.wf(),
        ensures
            r matches Some(t) ==> tile_at(self@.tiles, pos) == Some(*t),
            r is None ==> tile_at(self@.tiles, pos) is None,
    {
        match self.find_tile(pos) {
            Some(i) => Some(&self.tiles[i].1),
            None => None,
        }
    }

    /// The tile across side `side` of `pos`, if any.
    pub fn neighbor(&self, pos: Pos, side: Side) -> (r: Option<&PlacedTile>)
        requires
            self.wf(),
            offset_ok(pos, side),
        ensures
            r matches Some(t) ==> tile_at(self@.tiles, spec_offset(pos, side)) == Some(*t),
            r is None ==> tile_at(self@.tiles, spec_offset(pos, side)) is None,
    {
        self.get(offset(pos, side))
    }

    /// Whether `tile` may be placed at `pos`, and if not, why.
    pub fn can_place(&self, pos: Pos, tile: &PlacedTile) -> (r: Result<(), PlacementError>)
        requires
            self.wf(),
            rotation_ok(*tile),
            occupied(self@.tiles, pos) || self@.tiles.len() == 0 || in_bounds(pos),
        ensures
            r == spec_can_place(self@.tiles, pos, *tile),
    {
        if self.find_tile(pos).is_some() {
            return Err(PlacementError::Occupied);
        }
        if self.tiles.len() == 0 {
            return Ok(());
        }
        let sides = Side::all();
        let mut has = false;
        let mut i: usize = 0;
        while i < 4
            invariant
                i <= 4,
                self.wf(),
                in_bounds(pos),
                !occupied(self@.tiles, pos),
                self@.tiles.len() > 0,
                rotation_ok(*tile),
                forall|k: int| 0 <= k < 4 ==> #[trigger] sides[k] == side_at(k),
                first_mismatch(self@.tiles, pos, *tile, 0) == first_mismatch(self@.tiles, pos, *tile, i as nat),
                has == (exists|k: int| 0 <= k < i && #[trigger] occupied(self@.tiles, spec_offset(pos, side_at(k)))),
            decreases 4 - i,
        {
            let side = sides[i];
            match self.neighbor(pos, side) {
                Some(n) => {
                    has = true;
                    proof {
                        let k = choose|k: int| 0 <= k < self@.tiles.len() && self@.tiles[k].0 == spec_offset(pos, side);
                        assert(rotation_ok(self@.tiles[k].1));
                    }
                    if !edges_match(tile, side, n) {
                        assert(first_mismatch(self@.tiles, pos, *tile, i as nat) == Some(side));
                        return Err(PlacementError::EdgeMismatch(side));
                    }
                },
                None => {},
            }
            i = i + 1;
        }
        proof {
            assert(has_neighbor(self@.tiles, pos) == has) by {
                assert(side_at(0) == Side::North);
                assert(side_at(1) == Side::East);
                assert(side_at(2) == Side::South);
                assert(side_at(3) == Side::West);
                if has {
                    let k = choose|k: int| 0 <= k < 4 && #[trigger] occupied(self@.tiles, spec_offset(pos, side_at(k)));
                }
            }
        }
        if has {
            Ok(())
        } else {
            Err(PlacementError::NotAdjacent)
        }
    }

    fn neighbor_seg_exec(&self, pos: Pos, side: Side) -> (r: Option<SegmentRef>)
        requires
            self.wf(),
            in_bounds(pos),
        ensures
            r == neighbor_seg(self@.tiles, pos, side),
    {
        let np = offset(pos, side);
        match self.find_tile(np) {
            Some(i) => {
                proof {
                    assert(rotation_ok(self@.tiles[i as int].1));
                }
                Some((np, self.tiles[i].1.segment_id(side.opposite())))
            },
            None => None,
        }
    }

    fn count_surrounding(&self, pos: Pos) -> (r: u8)
        requires
            self.wf(),
            in_bounds(pos),
        ensures
            r as nat == surrounding_count(self@.tiles, pos),
    {
        let mut c: u8 = 0;
        if self.find_tile((pos.0 - 1, pos.1 - 1)).is_some() { c = c + 1; }
        if self.find_tile((pos.0, pos.1 - 1)).is_some() { c = c + 1; }
        if self.find_tile((pos.0 + 1, pos.1 - 1)).is_some() { c = c + 1; }
        if self.find_tile((pos.0 - 1, pos.1)).is_some() { c = c + 1; }
        if self.find_tile((pos.0 + 1, pos.1)).is_some() { c = c + 1; }
        if self.find_tile((pos.0 - 1, pos.1 + 1)).is_some() { c = c + 1; }
        if self.find_tile((pos.0, pos.1 + 1)).is_some() { c = c + 1; }
        if self.find_tile((pos.0 + 1, pos.1 + 1)).is_some() { c = c + 1; }
        c
    }

    /// Puts `tile` at `pos` if the rules allow it: registers its segments,
    /// joins them to the neighbouring features, and keeps the monastery
    /// neighbour counts up to date.
    pub fn place(&mut self, pos: Pos, tile: PlacedTile) -> (r: Result<(), PlacementError>)
        requires
            old(self).wf(),
            rotation_ok(tile),
            occupied(old(self)@.tiles, pos) || in_bounds(pos),
            old(self)@.tiles.len() < MAX_TILES,
        ensures
            final(self).wf(),
            match spec_can_place(old(self)@.tiles, pos, tile) {
                Ok(()) => r is Ok && final(self)@ == spec_place(old(self)@, pos, tile),
                Err(e) => r == Err::<(), PlacementError>(e) && final(self)@ == old(self)@,
            },
    {
        match self.can_place(pos, &tile) {
            Ok(()) => {},
            Err(e) => return Err(e),
        }
        let ghost b = self@;
        proof {
            lemma_place_wf(b, pos, tile);
        }
        let nbs = [
            self.neighbor_seg_exec(pos, Side::North),
            self.neighbor_seg_exec(pos, Side::East),
            self.neighbor_seg_exec(pos, Side::South),
            self.neighbor_seg_exec(pos, Side::West),
        ];
        assert(nbs@ =~= neighbor_segs(b.tiles, pos));
        let count = self.count_surrounding(pos);
        self.features.add_tile(pos, &tile, nbs);
        if tile.spec.monastery {
            self.monasteries.push((pos, MonasteryRecord { owner: None, neighbor_count: count }));
        }
        let ghost added = self.monasteries@;
        proof {
            assert forall|t: int| 0 <= t < added.len() implies (#[trigger] added[t]).1.neighbor_count <= 8 by {
                if t < b.monasteries.len() {
                    assert(added[t] == b.monasteries[t]);
                    assert(monastery_fits(b, t));
                    let p = b.monasteries[t].0;
                    let i = tile_index(b.tiles, p);
                    assert(in_bounds(b.tiles[i].0));
                    lemma_surrounding_push(b.tiles, pos, tile, p);
                } else {
                    lemma_surrounding_push(b.tiles, pos, tile, pos);
                }
            }
        }
        let mut j: usize = 0;
        while j < self.monasteries.len()
            invariant
                j <= self.monasteries@.len(),
                self.monasteries@.len() == added.len(),
                forall|t: int| 0 <= t < j ==> #[trigger] self.monasteries@[t] == bump_monasteries(added, pos)[t],
                forall|t: int| j <= t < added.len() ==> #[trigger] self.monasteries@[t] == added[t],
                forall|t: int| 0 <= t < added.len() ==> (#[trigger] added[t]).1.neighbor_count <= 8,
                self@.tiles == b.tiles,
                self@.features == spec_add_tile(b.features, pos, tile, neighbor_segs(b.tiles, pos)),
                self@.meeples == b.meeples,
            decreases self.monasteries@.len() - j,
        {
            let mp = self.monasteries[j].0;
            let dx = mp.0 as i64 - pos.0 as i64;
            let dy = mp.1 as i64 - pos.1 as i64;
            let near = -1 <= dx && dx <= 1 && -1 <= dy && dy <= 1 && !(dx == 0 && dy == 0);
            if near {
                let c = self.monasteries[j].1.neighbor_count;
                self.monasteries.set(j, (mp, MonasteryRecord { neighbor_count: c + 1, ..self.monasteries[j].1 }));
            }
            j = j + 1;
        }
        self.tiles.push((pos, tile));
        self.last_placed = Some(pos);
        assert(self.monasteries@ =~= bump_monasteries(added, pos));
        assert(self@.tiles == spec_place(b, pos, tile).tiles);
        assert(self@.features == spec_place(b, pos, tile).features);
        assert(added == if tile.spec.monastery {
            b.monasteries.push((pos, MonasteryRecord { owner: None, neighbor_count: surrounding_count(b.tiles, pos) as u8 }))
        } else {
            b.monasteries
        });
        assert(self@.monasteries == spec_place(b, pos, tile).monasteries);
        assert(self@ == spec_place(b, pos, tile));
        Ok(())
    }

    /// Stands a follower of `owner` on the segment that side `side` of the last
    /// tile placed belongs to.
    pub fn place_meeple_on_segment(&mut self, side: Side, owner: PlayerId) -> (r: Result<(), MeeplePlaceError>)
        requires
            old(self).wf(),
        ensures
            final(self).wf(),
            (final(self)@, r) == spec_meeple_on_segment(old(self)@, side, owner),
    {
        let ghost b = self@;
        let pos = match self.last_placed {
            Some(p) => p,
            None => return Err(MeeplePlaceError::NoTileJustPlaced),
        };
        let i = self.find_tile(pos).unwrap();
        proof {
            lemma_tile_at_index(b.tiles, i as int);
            assert(rotation_ok(b.tiles[i as int].1));
        }
        let sid = self.tiles[i].1.segment_id(side);
        proof {
            lemma_side_roundtrip(side);
            assert(has_key(b.features, (b.tiles[i as int].0, spec_segment(b.tiles[i as int].1, side_at(side_index(side))))));
        }
        match self.features.place_meeple((pos, sid), owner) {
            Ok(()) => {},
            Err(e) => return Err(MeeplePlaceError::Feature(e)),
        }
        self.meeples.push(ActiveMeeple { pos, segment: Some(sid), owner });
        proof {
            let b2 = self@;
            crate::domain::feature::lemma_root_index(b.features, (pos, sid));
            assert(b2 == spec_meeple_on_segment(b, side, owner).0);
            assert forall|i: int| 0 <= i < b.features.len() implies #[trigger] b2.features[i].key == b.features[i].key by {
            }
            assert forall|m: int| 0 <= m < b2.meeples.len() implies meeple_registered(b.features, #[trigger] b2.meeples[m]) by {
                if m < b.meeples.len() {
                    assert(b2.meeples[m] == b.meeples[m]);
                }
            }
            lemma_same_shape_wf(b, b2);
        }
        Ok(())
    }

    /// Stands a follower of `owner` on the monastery of the last tile placed.
    pub fn place_meeple_on_monastery(&mut self, owner: PlayerId) -> (r: Result<(), MeeplePlaceError>)
        requires
            old(self).wf(),
        ensures
            final(self).wf(),
            (final(self)@, r) == spec_meeple_on_monastery(old(self)@, owner),
    {
        let ghost b = self@;
        let pos = match self.last_placed {
            Some(p) => p,
            None => return Err(MeeplePlaceError::NoTileJustPlaced),
        };
        let j = match self.find_monastery(pos) {
            Some(j) => j,
            None => return Err(MeeplePlaceError::NoMonasteryHere),
        };
        let rec = self.monasteries[j].1;
        if rec.owner.is_some() {
            return Err(MeeplePlaceError::Feature(MeepleError::FeatureOccupied));
        }
        self.monasteries.set(j, (pos, MonasteryRecord { owner: Some(owner), ..rec }));
        self.meeples.push(ActiveMeeple { pos, segment: None, owner });
        proof {
            let b2 = self@;
            assert(b2 == spec_meeple_on_monastery(b, owner).0);
            assert forall|m: int| 0 <= m < b2.meeples.len() implies meeple_registered(b.features, #[trigger] b2.meeples[m]) by {
                if m < b.meeples.len() {
                    assert(b2.meeples[m] == b.meeples[m]);
                }
            }
            lemma_same_shape_wf(b, b2);
        }
        Ok(())
    }

    fn collect_feature_exec(&mut self, r: SegmentRef)
        requires
            old(self).wf(),
            has_key(old(self)@.features, r),
        ensures
            final(self).wf(),
            final(self)@ == collect_feature(old(self)@, r),
    {
        let ghost b = self@;
        proof {
            lemma_collect_feature_wf(b, r);
        }
        let mut kept: Vec<ActiveMeeple> = Vec::new();
        let mut i: usize = 0;
        while i < self.meeples.len()
            invariant
                self@ == b,
                board_wf(b),
                i <= b.meeples.len(),
                kept@ == prune_feature(b.meeples.take(i as int), b.features, r),
            decreases b.meeples.len() - i,
        {
            let m = self.meeples[i];
            assert(b.meeples.take(i + 1).drop_last() =~= b.meeples.take(i as int));
            let on = match m.segment {
                Some(sid) => {
                    assert(meeple_registered(b.features, b.meeples[i as int]));
                    let root = self.features.find((m.pos, sid));
                    seg_eq(root, r)
                },
                None => false,
            };
            if !on {
                kept.push(m);
            }
            i = i + 1;
            assert(kept@ =~= prune_feature(b.meeples.take(i as int), b.features, r));
        }
        assert(b.meeples.take(i as int) =~= b.meeples);
        let _ = self.features.collect_meeples(r);
        self.meeples = kept;
        assert(self@ == collect_feature(b, r));
    }

    fn clear_monastery_exec(&mut self, k: usize)
        requires
            old(self).wf(),
            k < old(self)@.monasteries.len(),
        ensures
            final(self).wf(),
            final(self)@ == clear_monastery(old(self)@, k as int),
    {
        let ghost b = self@;
        proof {
            lemma_clear_monastery_wf(b, k as int);
        }
        let (p, rec) = self.monasteries[k];
        let mut kept: Vec<ActiveMeeple> = Vec::new();
        let mut i: usize = 0;
        while i < self.meeples.len()
            invariant
                self@ == b,
                i <= b.meeples.len(),
                kept@ == prune_monastery(b.meeples.take(i as int), p),
            decreases b.meeples.len() - i,
        {
            let m = self.meeples[i];
            assert(b.meeples.take(i + 1).drop_last() =~= b.meeples.take(i as int));
            if !(m.segment.is_none() && pos_eq(m.pos, p)) {
                kept.push(m);
            }
            i = i + 1;
            assert(kept@ =~= prune_monastery(b.meeples.take(i as int), p));
        }
        assert(b.meeples.take(i as int) =~= b.meeples);
        self.monasteries.set(k, (p, MonasteryRecord { owner: None, ..rec }));
        self.meeples = kept;
        assert(self@ == clear_monastery(b, k as int));
    }

    /// Scores what the last tile placed has finished: each finished road or city
    /// it touches (once, sending its followers home), then each occupied
    /// monastery on or around it whose eight neighbours are now all filled.
    pub fn resolve_scoring(&mut self) -> (events: Vec<ScoringEvent>)
        requires
            old(self).wf(),
        ensures
            final(self).wf(),
            (final(self)@, events_view(events@)) == spec_resolve(old(self)@),
            forall|j: int| 0 <= j < events@.len() ==> event_ok(#[trigger] events@[j]@),
            final(self)@.tiles == old(self)@.tiles,
            final(self)@.features.len() == old(self)@.features.len(),
            final(self)@.monasteries.len() == old(self)@.monasteries.len(),
            forall|q: Pos| old(self)@.last_placed is Some && -1 <= q.0 - old(self)@.last_placed.unwrap().0 <= 1
                && -1 <= q.1 - old(self)@.last_placed.unwrap().1 <= 1
                ==> #[trigger] crate::domain::closure::monastery_done(final(self)@.monasteries, q),
    {
        let ghost b0 = self@;
        let mut events: Vec<ScoringEvent> = Vec::new();
        let pos = match self.last_placed {
            Some(p) => p,
            None => {
                assert(events_view(events@) =~= Seq::<EventView>::empty());
                return events;
            },
        };
        let ti = self.find_tile(pos).unwrap();
        let tile = self.tiles[ti].1;
        proof {
            lemma_tile_at_index(b0.tiles, ti as int);
            assert(in_bounds(b0.tiles[ti as int].0) && rotation_ok(tile));
        }
        let ghost target = resolve_features(b0, pos, tile, 0, Seq::empty());
        let sides = Side::all();
        let mut seen: Vec<SegmentRef> = Vec::new();
        let mut s: usize = 0;
        assert(events_view(events@) =~= Seq::<EventView>::empty());
        while s < 4
            invariant
                s <= 4,
                self.wf(),
                self@.tiles == b0.tiles,
                self@.last_placed == Some(pos),
                self@.monasteries == b0.monasteries,
                self@.features.len() == b0.features.len(),
                tile_at(b0.tiles, pos) == Some(tile),
                rotation_ok(tile),
                in_bounds(pos),
                forall|k: int| 0 <= k < 4 ==> #[trigger] sides[k] == side_at(k),
                resolve_features(self@, pos, tile, s as nat, seen@).0 == target.0,
                events_view(events@) + resolve_features(self@, pos, tile, s as nat, seen@).1 == target.1,
                forall|j: int| 0 <= j < events@.len() ==> event_ok(#[trigger] events@[j]@),
            decreases 4 - s,
        {
            let ghost cur = self@;
            let ghost ev0 = events@;
            let sid = tile.segment_id(sides[s]);
            proof {
                let i = tile_index(cur.tiles, pos);
                assert(has_key(cur.features, (cur.tiles[i].0, spec_segment(cur.tiles[i].1, side_at(s as int)))));
            }
            let root = self.features.find((pos, sid));
            if !contains_seg(&seen, root) {
                seen.push(root);
                if self.features.is_complete(root) {
                    let info = self.features.info(root);
                    proof {
                        crate::domain::feature::lemma_info_bounds(cur.features, root);
                        lemma_events_ok(info@, 0);
                    }
                    match score_completed_feature(&info) {
                        Some(ev) => {
                            proof {
                                crate::domain::feature::lemma_collect_props(cur.features, root);
                            }
                            self.collect_feature_exec(root);
                            events.push(ev);
                            assert(events_view(events@) =~= events_view(ev0) + seq![ev@]);
                        },
                        None => {},
                    }
                }
            }
            s = s + 1;
        }
        let ghost b1 = self@;
        let ghost mtarget = resolve_monasteries(b1, pos, 0);
        let ghost f_events = events@;
        let around = chebyshev_offsets();
        let mut k: usize = 0;
        while k < 9
            invariant
                k <= 9,
                self.wf(),
                in_bounds(pos),
                self@.tiles == b0.tiles,
                self@.features.len() == b0.features.len(),
                self@.monasteries.len() == b0.monasteries.len(),
                forall|j: int| 0 <= j < 8 ==> (#[trigger] around[j]).0 as int == cheb_dx(j) && around[j].1 as int == cheb_dy(j),
                resolve_monasteries(self@, pos, k as nat).0 == mtarget.0,
                events_view(events@) + resolve_monasteries(self@, pos, k as nat).1 == events_view(f_events) + mtarget.1,
                forall|j: int| 0 <= j < events@.len() ==> event_ok(#[trigger] events@[j]@),
            decreases 9 - k,
        {
            let ghost cur = self@;
            let ghost ev0 = events@;
            let c = if k < 8 {
                (pos.0 + around[k].0, pos.1 + around[k].1)
            } else {
                pos
            };
            assert(c == scan_cell(pos, k as int));
            match self.find_monastery(c) {
                Some(j) => {
                    let rec = self.monasteries[j].1;
                    match rec.owner {
                        Some(o) => {
                            if rec.neighbor_count == 8 {
                                proof {
                                    lemma_monastery_event_ok(o, 9);
                                }
                                events.push(score_completed_monastery(o));
                                self.clear_monastery_exec(j);
                                assert(events_view(events@) =~= events_view(ev0) + seq![monastery_event(o, 9)]);
                            }
                        },
                        None => {},
                    }
                },
                None => {},
            }
            k = k + 1;
        }
        proof {
            assert(events_view(f_events) + mtarget.1 == target.1 + mtarget.1);
            assert forall|q: Pos| -1 <= q.0 - pos.0 <= 1 && -1 <= q.1 - pos.1 <= 1
                implies #[trigger] crate::domain::closure::monastery_done(self@.monasteries, q) by {
                crate::domain::closure::lemma_resolve_clears_around(b0, q);
            }
        }
        events
    }

    /// How many finished cities share a tile with the farm headed by `r`.
    fn count_farm_cities(&mut self, r: SegmentRef) -> (c: u32)
        requires
            old(self).wf(),
        ensures
            c as nat == farm_cities(old(self)@, r).len(),
            c <= 4 * old(self)@.tiles.len(),
            final(self)@ == old(self)@,
    {
        let ghost b = self@;
        let sides = Side::all();
        let mut acc: Vec<SegmentRef> = Vec::new();
        let mut i: usize = 0;
        assert(acc@.to_set() =~= cities_upto(b, r, 0, 0));
        while i < self.tiles.len()
            invariant
                self@ == b,
                board_wf(b),
                i <= b.tiles.len(),
                forall|k: int| 0 <= k < 4 ==> #[trigger] sides[k] == side_at(k),
                acc@.no_duplicates(),
                acc@.to_set() == cities_upto(b, r, i as int, 0),
                acc@.len() <= 4 * i,
            decreases b.tiles.len() - i,
        {
            let (p, t) = self.tiles[i];
            proof {
                assert(in_bounds(b.tiles[i as int].0) && rotation_ok(b.tiles[i as int].1));
            }
            let mut touches = false;
            let mut s1: usize = 0;
            while s1 < 4
                invariant
                    self@ == b,
                    board_wf(b),
                    i < b.tiles.len(),
                    b.tiles[i as int] == (p, t),
                    rotation_ok(t),
                    s1 <= 4,
                    forall|k: int| 0 <= k < 4 ==> #[trigger] sides[k] == side_at(k),
                    touches == exists|k: int| 0 <= k < s1 && spec_edge(t, side_at(k)) == EdgeKind::Field
                        && #[trigger] root_of(b.features, (p, spec_segment(t, side_at(k)))) == r,
                decreases 4 - s1,
            {
                if t.edge(sides[s1]) == EdgeKind::Field {
                    proof {
                        assert(has_key(b.features, (b.tiles[i as int].0, spec_segment(b.tiles[i as int].1, side_at(s1 as int)))));
                    }
                    let f = self.features.find((p, t.segment_id(sides[s1])));
                    if seg_eq(f, r) {
                        touches = true;
                    }
                }
                s1 = s1 + 1;
            }
            let mut s2: usize = 0;
            while s2 < 4
                invariant
                    self@ == b,
                    board_wf(b),
                    i < b.tiles.len(),
                    b.tiles[i as int] == (p, t),
                    rotation_ok(t),
                    s2 <= 4,
                    forall|k: int| 0 <= k < 4 ==> #[trigger] sides[k] == side_at(k),
                    touches == exists|k: int| 0 <= k < 4 && spec_edge(t, side_at(k)) == EdgeKind::Field
                        && #[trigger] root_of(b.features, (p, spec_segment(t, side_at(k)))) == r,
                    acc@.no_duplicates(),
                    acc@.to_set() == cities_upto(b, r, i as int, s2 as int),
                    acc@.len() <= 4 * i + s2,
                decreases 4 - s2,
            {
                let ghost acc0 = acc@;
                if touches && t.edge(sides[s2]) == EdgeKind::City {
                    proof {
                        assert(has_key(b.features, (b.tiles[i as int].0, spec_segment(b.tiles[i as int].1, side_at(s2 as int)))));
                        crate::domain::feature::lemma_root_index(b.features, (p, spec_segment(t, side_at(s2 as int))));
                    }
                    let c = self.features.find((p, t.segment_id(sides[s2])));
                    let (kind, open) = self.features.kind_and_open(c);
                    let fresh = kind == EdgeKind::City && open == 0 && !contains_seg(&acc, c);
                    if fresh {
                        acc.push(c);
                    }
                    proof {
                        assert forall|x: SegmentRef| #[trigger] acc@.contains(x)
                            == (acc0.contains(x) || (kind == EdgeKind::City && open == 0 && x == c)) by {
                            if fresh {
                                assert(acc@ == acc0.push(c));
                                if acc0.contains(x) {
                                    let j = choose|j: int| 0 <= j < acc0.len() && acc0[j] == x;
                                    assert(acc@[j] == x);
                                }
                                if acc@.contains(x) {
                                    let j = choose|j: int| 0 <= j < acc@.len() && acc@[j] == x;
                                    if j < acc0.len() {
                                        assert(acc0[j] == x);
                                    }
                                }
                                if x == c {
                                    assert(acc@[acc0.len() as int] == c);
                                }
                            }
                        }
                        if fresh {
                            assert forall|a: int, b2: int| 0 <= a < acc@.len() && 0 <= b2 < acc@.len() && a != b2
                                implies acc@[a] != acc@[b2] by {
                                if a < acc0.len() && b2 < acc0.len() {
                                } else if a < acc0.len() {
                                    assert(acc0.contains(acc@[a]));
                                } else {
                                    assert(acc0.contains(acc@[b2]));
                                }
                            }
                        }
                        let k1 = choose|k: int| 0 <= k < 4 && spec_edge(t, side_at(k)) == EdgeKind::Field
                            && #[trigger] root_of(b.features, (p, spec_segment(t, side_at(k)))) == r;
                        if kind == EdgeKind::City && open == 0 {
                            assert(city_link(b, r, i as int, k1, s2 as int, c));
                        }
                        assert forall|x: SegmentRef| #[trigger] cities_upto(b, r, i as int, (s2 + 1) as int).contains(x)
                            == (cities_upto(b, r, i as int, s2 as int).contains(x) || (kind == EdgeKind::City && open == 0 && x == c)) by {
                            if cities_upto(b, r, i as int, (s2 + 1) as int).contains(x) {
                                let (i2, a1, a2) = choose|i2: int, a1: int, a2: int|
                                    0 <= i2 < b.tiles.len() && 0 <= a1 < 4 && 0 <= a2 < 4 && (i2 < i || (i2 == i && a2 < s2 + 1))
                                        && #[trigger] city_link(b, r, i2, a1, a2, x);
                                if !(i2 < i || (i2 == i && a2 < s2)) {
                                    assert(a2 == s2);
                                }
                            }
                            if kind == EdgeKind::City && open == 0 && x == c {
                                assert(city_link(b, r, i as int, k1, s2 as int, x));
                            }
                        }
                        assert(acc@.to_set() =~= cities_upto(b, r, i as int, (s2 + 1) as int));
                    }
                } else {
                    proof {
                        assert forall|x: SegmentRef| #[trigger] cities_upto(b, r, i as int, (s2 + 1) as int).contains(x)
                            == cities_upto(b, r, i as int, s2 as int).contains(x) by {
                            if cities_upto(b, r, i as int, (s2 + 1) as int).contains(x) {
                                let (i2, a1, a2) = choose|i2: int, a1: int, a2: int|
                                    0 <= i2 < b.tiles.len() && 0 <= a1 < 4 && 0 <= a2 < 4 && (i2 < i || (i2 == i && a2 < s2 + 1))
                                        && #[trigger] city_link(b, r, i2, a1, a2, x);
                                if !(i2 < i || (i2 == i && a2 < s2)) {
                                    assert(a2 == s2);
                                    assert(i2 == i);
                                    assert(spec_edge(t, side_at(a1)) == EdgeKind::Field && root_of(b.features, (p, spec_segment(t, side_at(a1)))) == r);
                                }
                            }
                        }
                        assert(acc@.to_set() =~= cities_upto(b, r, i as int, (s2 + 1) as int));
                    }
                }
                s2 = s2 + 1;
            }
            proof {
                assert forall|x: SegmentRef| #[trigger] cities_upto(b, r, (i + 1) as int, 0).contains(x)
                    == cities_upto(b, r, i as int, 4).contains(x) by {
                    if cities_upto(b, r, (i + 1) as int, 0).contains(x) {
                        let (i2, a1, a2) = choose|i2: int, a1: int, a2: int|
                            0 <= i2 < b.tiles.len() && 0 <= a1 < 4 && 0 <= a2 < 4 && (i2 < i + 1 || (i2 == i + 1 && a2 < 0))
                                && #[trigger] city_link(b, r, i2, a1, a2, x);
                    }
                    if cities_upto(b, r, i as int, 4).contains(x) {
                        let (i2, a1, a2) = choose|i2: int, a1: int, a2: int|
                            0 <= i2 < b.tiles.len() && 0 <= a1 < 4 && 0 <= a2 < 4 && (i2 < i || (i2 == i && a2 < 4))
                                && #[trigger] city_link(b, r, i2, a1, a2, x);
                    }
                }
                assert(cities_upto(b, r, (i + 1) as int, 0) =~= cities_upto(b, r, i as int, 4));
            }
            i = i + 1;
        }
        proof {
            acc@.unique_seq_to_set();
        }
        acc.len() as u32
    }

    /// Scores the end of the game: unfinished roads and cities holding
    /// followers, occupied monasteries, then farms bordering finished cities.
    pub fn endgame_scoring(&mut self) -> (events: Vec<ScoringEvent>)
        requires
            old(self).wf(),
        ensures
            final(self).wf(),
            (final(self)@, events_view(events@)) == spec_endgame(old(self)@),
            events@.len() <= 2 * old(self)@.features.len() + old(self)@.monasteries.len(),
            forall|j: int| 0 <= j < events@.len() ==> (#[trigger] events@[j]).points
                <= 4 * old(self)@.features.len() + 12 * old(self)@.tiles.len() + 256,
            forall|j: int| 0 <= j < events@.len() ==> event_ok(#[trigger] events@[j]@),
            final(self)@.tiles == old(self)@.tiles,
            final(self)@.features.len() == old(self)@.features.len(),
            final(self)@.monasteries.len() == old(self)@.monasteries.len(),
            forall|k: SegmentRef| has_key(old(self)@.features, k)
                ==> crate::domain::endgame::settled(#[trigger] feature_info(final(self)@.features, k)),
            forall|j: int| 0 <= j < final(self)@.monasteries.len() ==> (#[trigger] final(self)@.monasteries[j]).1.owner is None,
            crate::domain::closure::closed_clear(old(self)@) && crate::domain::closure::list_linked(old(self)@)
                ==> final(self)@.meeples.len() == 0,
    {
        let ghost b0 = self@;
        let (events, _strays) = self.endgame_scoring_with_strays();
        proof {
            if crate::domain::closure::closed_clear(b0) {
                crate::domain::endgame::lemma_endgame_home(b0, 0);
            }
        }
        events
    }

    /// The final scoring, with the followers it sends home without an event
    /// (those on farms that border no finished city), farm by farm.
    pub fn endgame_scoring_with_strays(&mut self) -> (r: (Vec<ScoringEvent>, Vec<PlayerId>))
        requires
            old(self).wf(),
        ensures
            final(self).wf(),
            (final(self)@, events_view(r.0@)) == spec_endgame(old(self)@),
            r.1@ == endgame_strays(old(self)@),
            r.0@.len() <= 2 * old(self)@.features.len() + old(self)@.monasteries.len(),
            forall|j: int| 0 <= j < r.0@.len() ==> (#[trigger] r.0@[j]).points
                <= 4 * old(self)@.features.len() + 12 * old(self)@.tiles.len() + 256,
            forall|j: int| 0 <= j < r.0@.len() ==> event_ok(#[trigger] r.0@[j]@),
            final(self)@.tiles == old(self)@.tiles,
            final(self)@.features.len() == old(self)@.features.len(),
            final(self)@.monasteries.len() == old(self)@.monasteries.len(),
            forall|k: SegmentRef| has_key(old(self)@.features, k)
                ==> crate::domain::endgame::settled(#[trigger] feature_info(final(self)@.features, k)),
            forall|j: int| 0 <= j < final(self)@.monasteries.len() ==> (#[trigger] final(self)@.monasteries[j]).1.owner is None,
    {
        let ghost b0 = self@;
        proof {
            crate::domain::endgame::lemma_endgame_settles(b0);
        }
        let mut events: Vec<ScoringEvent> = Vec::new();
        // 1. unfinished roads and cities
        let roots = self.features.roots();
        let ghost rs = root_nodes(b0.features);
        let ghost t1 = incomplete_from(b0, rs, 0);
        let mut k: usize = 0;
        assert(events_view(events@) =~= Seq::<EventView>::empty());
        proof {
            crate::domain::feature::lemma_root_nodes_bounds(b0.features);
        }
        while k < roots.len()
            invariant
                k <= roots@.len(),
                roots@.len() == rs.len(),
                forall|j: int| 0 <= j < roots@.len() ==> (#[trigger] roots@[j]).0 == rs[j].key && roots@[j].1@ == rs[j].info,
                self.wf(),
                forall|j: int| 0 <= j < rs.len() ==> #[trigger] has_key(self@.features, rs[j].key),
                forall|j: int| 0 <= j < rs.len() ==> rs[j].info.tiles <= MAX_NODES && (#[trigger] rs[j]).info.shields <= rs[j].info.tiles,
                incomplete_from(self@, rs, k as nat).0 == t1.0,
                events_view(events@) + incomplete_from(self@, rs, k as nat).1 == t1.1,
                self@.features.len() == b0.features.len(),
                self@.tiles == b0.tiles,
                self@.monasteries.len() == b0.monasteries.len(),
                rs.len() <= b0.features.len(),
                forall|j: int| 0 <= j < rs.len() ==> (#[trigger] rs[j]).info.tiles <= b0.features.len(),
                events@.len() <= k,
                forall|t: int| 0 <= t < events@.len() ==> event_ok(#[trigger] events@[t]@),
                forall|j: int| 0 <= j < events@.len() ==> (#[trigger] events@[j]).points
                    <= 4 * b0.features.len() + 12 * b0.tiles.len() + 256,
            decreases roots@.len() - k,
        {
            let ghost cur = self@;
            let ghost ev0 = events@;
            let root = roots[k].0;
            let info = &roots[k].1;
            if info.kind != EdgeKind::Field && info.open_count != 0 {
                proof {
                    lemma_events_ok(info@, 0);
                }
                match score_incomplete_feature(info) {
                    Some(ev) => {
                        proof {
                            lemma_collect_feature_wf(cur, root);
                            crate::domain::feature::lemma_collect_props(cur.features, root);
                        }
                        self.collect_feature_exec(root);
                        events.push(ev);
                        assert(events_view(events@) =~= events_view(ev0) + seq![ev@]);
                    },
                    None => {},
                }
            }
            k = k + 1;
        }
        // 2. monasteries
        let ghost b1 = self@;
        let ghost e1 = events@;
        let n = self.monasteries.len();
        let ghost t2 = monasteries_endgame(b1, 0, n as nat);
        let mut j: usize = 0;
        while j < n
            invariant
                j <= n,
                self.wf(),
                self@.monasteries.len() == n,
                monasteries_endgame(self@, j as nat, n as nat).0 == t2.0,
                events_view(events@) + monasteries_endgame(self@, j as nat, n as nat).1 == events_view(e1) + t2.1,
                self@.features.len() == b0.features.len(),
                self@.tiles == b0.tiles,
                n == b0.monasteries.len(),
                events@.len() <= b0.features.len() + j,
                forall|t: int| 0 <= t < events@.len() ==> event_ok(#[trigger] events@[t]@),
                forall|t: int| 0 <= t < events@.len() ==> (#[trigger] events@[t]).points
                    <= 4 * b0.features.len() + 12 * b0.tiles.len() + 256,
            decreases n - j,
        {
            let ghost ev0 = events@;
            let rec = self.monasteries[j].1;
            match rec.owner {
                Some(o) => {
                    proof {
                        lemma_monastery_event_ok(o, (1 + rec.neighbor_count) as u32);
                    }
                    events.push(score_incomplete_monastery(o, rec.neighbor_count));
                    self.clear_monastery_exec(j);
                    assert(events_view(events@) =~= events_view(ev0) + seq![monastery_event(o, (1 + rec.neighbor_count) as u32)]);
                },
                None => {},
            }
            j = j + 1;
        }
        // 3. farms
        let ghost b2 = self@;
        let ghost e2 = events@;
        let roots2 = self.features.roots();
        let ghost rs2 = root_nodes(b2.features);
        let ghost t3 = farms_from(b2, rs2, 0);
        let ghost ts = farm_strays(b2, rs2, 0);
        let mut strays: Vec<PlayerId> = Vec::new();
        let mut f: usize = 0;
        proof {
            crate::domain::feature::lemma_root_nodes_bounds(b2.features);
        }
        while f < roots2.len()
            invariant
                f <= roots2@.len(),
                roots2@.len() == rs2.len(),
                forall|x: int| 0 <= x < roots2@.len() ==> (#[trigger] roots2@[x]).0 == rs2[x].key,
                self.wf(),
                self@.tiles == b2.tiles,
                forall|x: int| 0 <= x < rs2.len() ==> #[trigger] has_key(self@.features, rs2[x].key),
                farms_from(self@, rs2, f as nat).0 == t3.0,
                events_view(events@) + farms_from(self@, rs2, f as nat).1 == events_view(e2) + t3.1,
                strays@ + farm_strays(self@, rs2, f as nat) == ts,
                self@.features.len() == b0.features.len(),
                self@.monasteries.len() == b0.monasteries.len(),
                b2.tiles == b0.tiles,
                rs2.len() <= b0.features.len(),
                events@.len() <= b0.features.len() + b0.monasteries.len() + f,
                forall|t: int| 0 <= t < events@.len() ==> event_ok(#[trigger] events@[t]@),
                forall|t: int| 0 <= t < events@.len() ==> (#[trigger] events@[t]).points
                    <= 4 * b0.features.len() + 12 * b0.tiles.len() + 256,
            decreases roots2@.len() - f,
        {
            let ghost cur = self@;
            let ghost ev0 = events@;
            let r = roots2[f].0;
            let info = self.features.info(r);
            if info.meeples.len() > 0 {
                let completed = self.count_farm_cities(r);
                proof {
                    lemma_events_ok(info@, completed);
                }
                match score_farm(completed, info.meeples.as_slice()) {
                    Some(ev) => {
                        proof {
                            lemma_collect_feature_wf(cur, r);
                            crate::domain::feature::lemma_collect_props(cur.features, r);
                        }
                        self.collect_feature_exec(r);
                        events.push(ev);
                        assert(events_view(events@) =~= events_view(ev0) + seq![ev@]);
                    },
                    None => {
                        if info.kind == EdgeKind::Field {
                            proof {
                                lemma_collect_feature_wf(cur, r);
                                crate::domain::feature::lemma_collect_props(cur.features, r);
                            }
                            self.collect_feature_exec(r);
                            let ghost before = strays@;
                            let mut owners = info.meeples;
                            strays.append(&mut owners);
                            assert(strays@ =~= before + feature_info(cur.features, r).meeples);
                        }
                    },
                }
            }
            f = f + 1;
        }
        proof {
            assert(events_view(events@) =~= t1.1 + t2.1 + t3.1);
            assert(strays@ =~= ts);
        }
        (events, strays)
    }

    /// The cell of the last tile placed, if any.
    pub fn last_placed(&self) -> (r: Option<Pos>)
        ensures
            r == self@.last_placed,
    {
        self.last_placed
    }

    /// The occupied cells, in the order the tiles were placed.
    pub fn positions(&self) -> (r: Vec<Pos>)
        ensures
            r@.len() == self@.tiles.len(),
            forall|i: int| 0 <= i < r@.len() ==> #[trigger] r@[i] == self@.tiles[i].0,
    {
        let mut r: Vec<Pos> = Vec::new();
        let mut i: usize = 0;
        while i < self.tiles.len()
            invariant
                i <= self@.tiles.len(),
                r@.len() == i,
                forall|k: int| 0 <= k < i ==> #[trigger] r@[k] == self@.tiles[k].0,
            decreases self@.tiles.len() - i,
        {
            r.push(self.tiles[i].0);
            i = i + 1;
        }
        r
    }

    /// The monastery at `pos`, if any.
    pub fn monastery(&self, pos: Pos) -> (r: Option<&MonasteryRecord>)
        requires
            self.wf(),
        ensures
            r matches Some(m) ==> monastery_at(self@.monasteries, pos) == Some(*m),
            r is None ==> monastery_at(self@.monasteries, pos) is None,
    {
        match self.find_monastery(pos) {
            Some(i) => Some(&self.monasteries[i].1),
            None => None,
        }
    }

    fn find_monastery(&self, pos: Pos) -> (r: Option<usize>)
        requires
            self.wf(),
        ensures
            r matches Some(i) ==> i < self@.monasteries.len() && self@.monasteries[i as int].0 == pos
                && monastery_index(self@.monasteries, pos) == i && monastery_at(self@.monasteries, pos) == Some(self@.monasteries[i as int].1),
            r is None <==> !has_monastery(self@.monasteries, pos),
            r is None ==> monastery_at(self@.monasteries, pos) is None,
    {
        let mut i: usize = 0;
        while i < self.monasteries.len()
            invariant
                self.wf(),
                i <= self@.monasteries.len(),
                forall|j: int| 0 <= j < i ==> self@.monasteries[j].0 != pos,
            decreases self@.monasteries.len() - i,
        {
            if pos_eq(self.monasteries[i].0, pos) {
                proof {
                    assert(has_monastery(self@.monasteries, pos));
                    let k = monastery_index(self@.monasteries, pos);
                    assert(self@.monasteries[k].0 == pos);
                }
                return Some(i);
            }
            i = i + 1;
        }
        None
    }

    /// The followers standing on the board.
    pub fn meeples(&self) -> (r: &Vec<ActiveMeeple>)
        ensures
            r@ == self@.meeples,
    {
        &self.meeples
    }

    /// An independent copy of the board, to try moves on.
    pub fn duplicate(&self) -> (r: Board)
        ensures
            r@ == self@,
    {
        Board {
            tiles: copy_vec(&self.tiles),
            features: self.features.duplicate(),
            monasteries: copy_vec(&self.monasteries),
            last_placed: self.last_placed,
            meeples: copy_vec(&self.meeples),
        }
    }
}

fn copy_vec<T: Copy>(v: &Vec<T>) -> (r: Vec<T>)
    ensures
        r@ == v@,
{
    let mut r: Vec<T> = Vec::new();
    let mut i: usize = 0;
    while i < v.len()
        invariant
            i <= v@.len(),
            r@ == v@.take(i as int),
        decreases v@.len() - i,
    {
        r.push(v[i]);
        i = i + 1;
        assert(r@ =~= v@.take(i as int));
    }
    assert(v@.take(i as int) =~= v@);
    r
}

} // verus!
