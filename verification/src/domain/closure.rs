use vstd::prelude::*;

use crate::domain::board::{
    board_wf, clear_monastery, collect_feature, has_monastery, in_bounds, lemma_clear_monastery_wf,
    lemma_collect_feature_wf, lemma_meeple_on_monastery_law, lemma_place_monasteries, lemma_place_wf,
    lemma_side_roundtrip, monastery_at, monastery_index, occupied, on_feature, prune_feature, prune_monastery,
    resolve_features, resolve_monasteries, scan_cell, spec_can_place, spec_meeple_on_monastery,
    spec_meeple_on_segment, spec_place, spec_resolve, tile_at, tile_index, ActiveMeeple, BoardModel,
    MonasteryRecord, Pos, MAX_TILES,
};
use crate::domain::feature::{
    feature_info, graph_wf, has_key, index_of_key, lemma_add_tile_keeps_full, lemma_add_tile_outside,
    lemma_collect_info, lemma_index_of_key, lemma_root_index, lemma_same_keys, root_of, spec_place_meeple, touched,
    InfoView, NodeView, PlayerId, SegmentRef, MAX_NODES,
};
use crate::domain::scoring::{
    completed_event, count_of, lemma_count_index_positive, majority_upto, EventView, FeatureKind,
};
use crate::domain::tally::{graph_tally, monastery_tally, root_share};
use crate::domain::tile::{rotation_ok, side_at, side_index, spec_segment, EdgeKind, PlacedTile, Side};

verus! {

/// A finished road or city holds no follower.
pub open spec fn clear_if_closed(info: InfoView) -> bool {
    info.kind != EdgeKind::Field && info.open_count == 0 ==> info.meeples.len() == 0
}

/// No finished road or city on the board holds a follower: scoring sent them
/// home as the feature closed.
pub open spec fn closed_clear(b: BoardModel) -> bool {
    forall|k: SegmentRef| has_key(b.features, k) ==> #[trigger] clear_if_closed(feature_info(b.features, k))
}

/// The segment on side `t` of `tile` at `pos`.
pub open spec fn side_key(pos: Pos, tile: PlacedTile, t: int) -> SegmentRef {
    (pos, spec_segment(tile, side_at(t)))
}

/// From `b1` to `b2` the segments, their features and every feature's terrain
/// and open edges stay; only features touching `tile` at `pos` may change
/// their records.
pub open spec fn changes_near(b1: BoardModel, b2: BoardModel, pos: Pos, tile: PlacedTile) -> bool {
    &&& forall|k: SegmentRef| #[trigger] has_key(b2.features, k) == has_key(b1.features, k)
    &&& forall|k: SegmentRef| has_key(b1.features, k) ==> #[trigger] root_of(b2.features, k) == root_of(b1.features, k)
    &&& forall|k: SegmentRef| has_key(b1.features, k) ==> (#[trigger] feature_info(b2.features, k)).kind
        == feature_info(b1.features, k).kind && feature_info(b2.features, k).open_count == feature_info(b1.features, k).open_count
    &&& forall|k: SegmentRef| has_key(b1.features, k) && !touched(b1.features, pos, tile, k)
        ==> #[trigger] feature_info(b2.features, k) == feature_info(b1.features, k)
}

pub open spec fn sides_known(b: BoardModel, pos: Pos, tile: PlacedTile) -> bool {
    forall|t: int| 0 <= t < 4 ==> #[trigger] has_key(b.features, side_key(pos, tile, t))
}

proof fn lemma_near_refl(b: BoardModel, pos: Pos, tile: PlacedTile)
    ensures
        changes_near(b, b, pos, tile),
{
}

proof fn lemma_near_trans(b1: BoardModel, b2: BoardModel, b3: BoardModel, pos: Pos, tile: PlacedTile)
    requires
        sides_known(b1, pos, tile),
        changes_near(b1, b2, pos, tile),
        changes_near(b2, b3, pos, tile),
    ensures
        changes_near(b1, b3, pos, tile),
{
    assert forall|k: SegmentRef| has_key(b1.features, k) && !touched(b1.features, pos, tile, k)
        implies #[trigger] feature_info(b3.features, k) == feature_info(b1.features, k) by {
        if touched(b2.features, pos, tile, k) {
            let t = choose|t: int| 0 <= t < 4 && #[trigger] root_of(b2.features, k) == root_of(b2.features, (pos, spec_segment(tile, side_at(t))));
            assert(has_key(b1.features, side_key(pos, tile, t)));
            assert(root_of(b1.features, k) == root_of(b1.features, (pos, spec_segment(tile, side_at(t)))));
        }
    }
}

/// Sending home the followers of a feature touching the tile changes only
/// that feature, and empties it.
proof fn lemma_collect_near(b: BoardModel, r: SegmentRef, pos: Pos, tile: PlacedTile)
    requires
        board_wf(b),
        has_key(b.features, r),
        touched(b.features, pos, tile, r),
    ensures
        changes_near(b, collect_feature(b, r), pos, tile),
        forall|k: SegmentRef| has_key(b.features, k) && root_of(b.features, k) == root_of(b.features, r)
            ==> (#[trigger] feature_info(collect_feature(b, r).features, k)).meeples.len() == 0,
        forall|k: SegmentRef| has_key(b.features, k) && root_of(b.features, k) != root_of(b.features, r)
            ==> #[trigger] feature_info(collect_feature(b, r).features, k) == feature_info(b.features, k),
{
    lemma_collect_feature_wf(b, r);
    let b2 = collect_feature(b, r);
    assert forall|k: SegmentRef| has_key(b.features, k) implies #[trigger] feature_info(b2.features, k) == if root_of(b.features, k) == root_of(b.features, r) {
        InfoView { meeples: Seq::empty(), ..feature_info(b.features, k) }
    } else {
        feature_info(b.features, k)
    } by {
        lemma_collect_info(b.features, r, k);
    }
    assert forall|k: SegmentRef| has_key(b.features, k) && !touched(b.features, pos, tile, k)
        implies #[trigger] feature_info(b2.features, k) == feature_info(b.features, k) by {
        if root_of(b.features, k) == root_of(b.features, r) {
            let t = choose|t: int| 0 <= t < 4 && #[trigger] root_of(b.features, r) == root_of(b.features, (pos, spec_segment(tile, side_at(t))));
            assert(root_of(b.features, k) == root_of(b.features, (pos, spec_segment(tile, side_at(t)))));
        }
    }
}

/// Standing a follower on a side of the tile just placed changes only the
/// feature of that side.
pub proof fn lemma_segment_meeple_near(b: BoardModel, side: Side, owner: PlayerId, pos: Pos, tile: PlacedTile)
    requires
        board_wf(b),
        b.last_placed == Some(pos),
        tile_at(b.tiles, pos) == Some(tile),
        sides_known(b, pos, tile),
    ensures
        changes_near(b, spec_meeple_on_segment(b, side, owner).0, pos, tile),
{
    let sid = spec_segment(tile, side);
    lemma_side_roundtrip(side);
    let x = (pos, sid);
    assert(x == side_key(pos, tile, side_index(side)));
    assert(has_key(b.features, x));
    match spec_place_meeple(b.features, x, owner) {
        None => {},
        Some(ns) => {
            let b2 = spec_meeple_on_segment(b, side, owner).0;
            assert(b2.features == ns);
            lemma_root_index(b.features, x);
            let r = root_of(b.features, x);
            let i = index_of_key(b.features, r);
            assert forall|j: int| 0 <= j < b.features.len() implies #[trigger] ns[j].key == b.features[j].key
                && ns[j].parent == b.features[j].parent by {}
            assert forall|k: SegmentRef| #[trigger] has_key(ns, k) == has_key(b.features, k) by {
                lemma_same_keys(b.features, ns, k);
            }
            assert forall|k: SegmentRef| has_key(b.features, k) implies #[trigger] root_of(ns, k) == root_of(b.features, k)
                && (root_of(b.features, k) != r ==> feature_info(ns, k) == feature_info(b.features, k))
                && feature_info(ns, k).kind == feature_info(b.features, k).kind
                && feature_info(ns, k).open_count == feature_info(b.features, k).open_count by {
                lemma_same_keys(b.features, ns, k);
                lemma_root_index(b.features, k);
                lemma_same_keys(b.features, ns, root_of(b.features, k));
            }
            assert forall|k: SegmentRef| has_key(b.features, k) && !touched(b.features, pos, tile, k)
                implies #[trigger] feature_info(ns, k) == feature_info(b.features, k) by {
                if root_of(b.features, k) == r {
                    assert(root_of(b.features, k) == root_of(b.features, (pos, spec_segment(tile, side_at(side_index(side))))));
                }
            }
        },
    }
}

/// Placing a tile changes only the features that reach it: every other
/// feature is an old one with its record unchanged.
pub proof fn lemma_place_near(b: BoardModel, pos: Pos, tile: PlacedTile)
    requires
        board_wf(b),
        spec_can_place(b.tiles, pos, tile) is Ok,
        in_bounds(pos),
        rotation_ok(tile),
        b.tiles.len() < MAX_TILES,
    ensures
        forall|k: SegmentRef| #[trigger] has_key(spec_place(b, pos, tile).features, k)
            ==> touched(spec_place(b, pos, tile).features, pos, tile, k)
            || (has_key(b.features, k) && feature_info(spec_place(b, pos, tile).features, k) == feature_info(b.features, k)),
{
    lemma_place_wf(b, pos, tile);
    assert(b.features.len() + 4 <= MAX_NODES);
    let nbs = crate::domain::board::neighbor_segs(b.tiles, pos);
    assert forall|k: SegmentRef| #[trigger] has_key(spec_place(b, pos, tile).features, k)
        implies touched(spec_place(b, pos, tile).features, pos, tile, k)
        || (has_key(b.features, k) && feature_info(spec_place(b, pos, tile).features, k) == feature_info(b.features, k)) by {
        lemma_add_tile_outside(b.features, pos, tile, nbs, k);
    }
}

/// Scoring the features the tile touches, from side `s` on, changes only
/// those features, and leaves each of them, and each already looked at,
/// holding no follower if it is a finished road or city.
pub proof fn lemma_resolve_features_near(b: BoardModel, pos: Pos, tile: PlacedTile, s: nat, seen: Seq<SegmentRef>)
    requires
        board_wf(b),
        s <= 4,
        sides_known(b, pos, tile),
        forall|k: SegmentRef| has_key(b.features, k) && seen.contains(root_of(b.features, k))
            ==> #[trigger] clear_if_closed(feature_info(b.features, k)),
    ensures
        board_wf(resolve_features(b, pos, tile, s, seen).0),
        resolve_features(b, pos, tile, s, seen).0.tiles == b.tiles,
        resolve_features(b, pos, tile, s, seen).0.last_placed == b.last_placed,
        changes_near(b, resolve_features(b, pos, tile, s, seen).0, pos, tile),
        forall|k: SegmentRef| has_key(b.features, k) && seen.contains(root_of(b.features, k))
            ==> #[trigger] clear_if_closed(feature_info(resolve_features(b, pos, tile, s, seen).0.features, k)),
        forall|t: int| s <= t < 4 ==> #[trigger] clear_if_closed(feature_info(resolve_features(b, pos, tile, s, seen).0.features, side_key(pos, tile, t))),
    decreases 4 - s,
{
    let res = resolve_features(b, pos, tile, s, seen).0;
    if s >= 4 {
        lemma_near_refl(b, pos, tile);
    } else {
        let me = side_key(pos, tile, s as int);
        assert(has_key(b.features, me));
        let root = root_of(b.features, me);
        lemma_root_index(b.features, me);
        assert(has_key(b.features, root));
        assert(root_of(b.features, root) == root);
        if seen.contains(root) {
            lemma_resolve_features_near(b, pos, tile, s + 1, seen);
            assert(clear_if_closed(feature_info(res.features, me)));
        } else {
            let info = feature_info(b.features, root);
            let ev = if info.open_count == 0 {
                completed_event(info)
            } else {
                None
            };
            let seen2 = seen.push(root);
            assert forall|x: SegmentRef| #[trigger] seen2.contains(x) == (seen.contains(x) || x == root) by {
                if seen2.contains(x) {
                    let j = choose|j: int| 0 <= j < seen2.len() && seen2[j] == x;
                    if j < seen.len() {
                        assert(seen[j] == x);
                    }
                }
                if seen.contains(x) {
                    let j = choose|j: int| 0 <= j < seen.len() && seen[j] == x;
                    assert(seen2[j] == x);
                }
                if x == root {
                    assert(seen2[seen.len() as int] == x);
                }
            }
            assert(touched(b.features, pos, tile, root)) by {
                assert(root_of(b.features, root) == root_of(b.features, (pos, spec_segment(tile, side_at(s as int)))));
            }
            match ev {
                None => {
                    assert forall|k: SegmentRef| has_key(b.features, k) && seen2.contains(root_of(b.features, k))
                        implies #[trigger] clear_if_closed(feature_info(b.features, k)) by {
                        if root_of(b.features, k) == root {
                            lemma_root_index(b.features, k);
                            assert(feature_info(b.features, k) == info);
                        }
                    }
                    lemma_resolve_features_near(b, pos, tile, s + 1, seen2);
                    assert(res == resolve_features(b, pos, tile, s + 1, seen2).0);
                },
                Some(e) => {
                    let b2 = collect_feature(b, root);
                    lemma_collect_near(b, root, pos, tile);
                    lemma_collect_feature_wf(b, root);
                    assert forall|t: int| 0 <= t < 4 implies #[trigger] has_key(b2.features, side_key(pos, tile, t)) by {
                        assert(has_key(b.features, side_key(pos, tile, t)));
                    }
                    assert forall|k: SegmentRef| has_key(b2.features, k) && seen2.contains(root_of(b2.features, k))
                        implies #[trigger] clear_if_closed(feature_info(b2.features, k)) by {
                        assert(has_key(b.features, k));
                        assert(root_of(b2.features, k) == root_of(b.features, k));
                        if root_of(b.features, k) != root {
                            assert(clear_if_closed(feature_info(b.features, k)));
                        }
                    }
                    lemma_resolve_features_near(b2, pos, tile, s + 1, seen2);
                    assert(res == resolve_features(b2, pos, tile, s + 1, seen2).0);
                    lemma_near_trans(b, b2, res, pos, tile);
                    assert forall|k: SegmentRef| has_key(b.features, k) && seen.contains(root_of(b.features, k))
                        implies #[trigger] clear_if_closed(feature_info(res.features, k)) by {
                        assert(has_key(b2.features, k));
                        assert(root_of(b2.features, k) == root_of(b.features, k));
                    }
                    assert(has_key(b2.features, me));
                    assert(root_of(b2.features, me) == root);
                    assert(clear_if_closed(feature_info(res.features, me)));
                    assert forall|t: int| s <= t < 4 implies #[trigger] clear_if_closed(feature_info(res.features, side_key(pos, tile, t))) by {
                        if t > s {
                        }
                    }
                },
            }
        }
    }
}

/// Scoring monasteries leaves the features as they were.
pub proof fn lemma_resolve_monasteries_features(b: BoardModel, pos: Pos, k: nat)
    ensures
        resolve_monasteries(b, pos, k).0.features == b.features,
    decreases 9 - k,
{
    if k < 9 {
        let c = crate::domain::board::scan_cell(pos, k as int);
        match crate::domain::board::monastery_at(b.monasteries, c) {
            Some(rec) => if rec.owner is Some && rec.neighbor_count == 8 {
                let b2 = clear_monastery(b, crate::domain::board::monastery_index(b.monasteries, c));
                lemma_resolve_monasteries_features(b2, pos, k + 1);
            } else {
                lemma_resolve_monasteries_features(b, pos, k + 1);
            },
            None => lemma_resolve_monasteries_features(b, pos, k + 1),
        }
    }
}

/// Every feature holding no follower makes the feature graph hold none.
proof fn lemma_roots_empty_tally(ns: Seq<NodeView>, p: PlayerId)
    requires
        forall|i: int| 0 <= i < ns.len() && ns[i].parent == ns[i].key ==> (#[trigger] ns[i]).info.meeples.len() == 0,
    ensures
        graph_tally(ns, p) == 0,
    decreases ns.len(),
{
    if ns.len() > 0 {
        let prev = ns.drop_last();
        assert forall|i: int| 0 <= i < prev.len() && prev[i].parent == prev[i].key implies (#[trigger] prev[i]).info.meeples.len() == 0 by {
            assert(prev[i] == ns[i]);
        }
        lemma_roots_empty_tally(prev, p);
        assert(ns.last() == ns[ns.len() - 1]);
        if ns.last().parent == ns.last().key {
            assert(ns.last().info.meeples =~= Seq::<PlayerId>::empty());
        }
    }
}

proof fn lemma_share_le_tally(ns: Seq<NodeView>, p: PlayerId, i: int)
    requires
        0 <= i < ns.len(),
    ensures
        root_share(ns[i], p) <= graph_tally(ns, p),
    decreases ns.len(),
{
    if i < ns.len() - 1 {
        lemma_share_le_tally(ns.drop_last(), p, i);
        assert(ns.drop_last()[i] == ns[i]);
    }
}

/// A graph whose features hold no follower of anyone: every feature is empty.
pub proof fn lemma_tally_zero_empty(ns: Seq<NodeView>)
    requires
        graph_wf(ns),
        forall|p: PlayerId| #[trigger] graph_tally(ns, p) == 0,
    ensures
        forall|k: SegmentRef| has_key(ns, k) ==> (#[trigger] feature_info(ns, k)).meeples.len() == 0,
{
    assert forall|k: SegmentRef| has_key(ns, k) implies (#[trigger] feature_info(ns, k)).meeples.len() == 0 by {
        lemma_root_index(ns, k);
        let i = index_of_key(ns, root_of(ns, k));
        let m = ns[i].info.meeples;
        if m.len() > 0 {
            lemma_count_index_positive(m, 0);
            lemma_share_le_tally(ns, m[0], i);
            assert(graph_tally(ns, m[0]) == 0);
        }
    }
}

/// A graph whose features are all empty holds no follower of anyone.
pub proof fn lemma_empty_tally_zero(ns: Seq<NodeView>, p: PlayerId)
    requires
        graph_wf(ns),
        forall|k: SegmentRef| has_key(ns, k) ==> (#[trigger] feature_info(ns, k)).meeples.len() == 0,
    ensures
        graph_tally(ns, p) == 0,
{
    assert forall|i: int| 0 <= i < ns.len() && ns[i].parent == ns[i].key implies (#[trigger] ns[i]).info.meeples.len() == 0 by {
        lemma_index_of_key(ns, i);
        assert(feature_info(ns, ns[i].key).meeples.len() == 0);
    }
    lemma_roots_empty_tally(ns, p);
}

/// Monasteries with no follower on any hold none of anyone's.
pub proof fn lemma_monasteries_free_tally(ms: Seq<(Pos, MonasteryRecord)>, p: PlayerId)
    requires
        forall|j: int| 0 <= j < ms.len() ==> (#[trigger] ms[j]).1.owner is None,
    ensures
        monastery_tally(ms, p) == 0,
    decreases ms.len(),
{
    if ms.len() > 0 {
        let prev = ms.drop_last();
        assert forall|j: int| 0 <= j < prev.len() implies (#[trigger] prev[j]).1.owner is None by {
            assert(prev[j] == ms[j]);
        }
        lemma_monasteries_free_tally(prev, p);
        assert(ms.last() == ms[ms.len() - 1]);
    }
}

// ---------------------------------------------------------------------------
// The list of followers standing
// ---------------------------------------------------------------------------

/// A listed follower stands where the board records one: its feature holds
/// followers, or its monastery has an owner.
pub open spec fn meeple_linked(b: BoardModel, m: ActiveMeeple) -> bool {
    match m.segment {
        Some(sid) => has_key(b.features, (m.pos, sid)) && feature_info(b.features, (m.pos, sid)).meeples.len() > 0,
        None => monastery_at(b.monasteries, m.pos) matches Some(rec) && rec.owner is Some,
    }
}

/// Every listed follower stands where the board records one.
pub open spec fn list_linked(b: BoardModel) -> bool {
    forall|j: int| 0 <= j < b.meeples.len() ==> #[trigger] meeple_linked(b, b.meeples[j])
}

/// A board with no follower on any feature or monastery lists none.
pub proof fn lemma_linked_empty(b: BoardModel)
    requires
        list_linked(b),
        forall|k: SegmentRef| has_key(b.features, k) ==> (#[trigger] feature_info(b.features, k)).meeples.len() == 0,
        forall|j: int| 0 <= j < b.monasteries.len() ==> (#[trigger] b.monasteries[j]).1.owner is None,
    ensures
        b.meeples.len() == 0,
{
    if b.meeples.len() > 0 {
        let m = b.meeples[0];
        assert(meeple_linked(b, m));
        match m.segment {
            Some(sid) => {
                assert(feature_info(b.features, (m.pos, sid)).meeples.len() == 0);
            },
            None => {
                assert(has_monastery(b.monasteries, m.pos));
                let i = monastery_index(b.monasteries, m.pos);
                assert(b.monasteries[i].1.owner is None);
            },
        }
    }
}

/// Placing a tile keeps every listed follower where the board records one.
pub proof fn lemma_place_linked(b: BoardModel, pos: Pos, tile: PlacedTile)
    requires
        board_wf(b),
        list_linked(b),
        spec_can_place(b.tiles, pos, tile) is Ok,
        in_bounds(pos),
        rotation_ok(tile),
        b.tiles.len() < MAX_TILES,
    ensures
        list_linked(spec_place(b, pos, tile)),
{
    lemma_place_wf(b, pos, tile);
    assert(b.features.len() + 4 <= MAX_NODES);
    let b1 = spec_place(b, pos, tile);
    let nbs = crate::domain::board::neighbor_segs(b.tiles, pos);
    assert(!occupied(b.tiles, pos));
    assert forall|j: int| 0 <= j < b1.meeples.len() implies #[trigger] meeple_linked(b1, b1.meeples[j]) by {
        let m = b.meeples[j];
        assert(b1.meeples[j] == m);
        assert(meeple_linked(b, m));
        match m.segment {
            Some(sid) => {
                lemma_add_tile_keeps_full(b.features, pos, tile, nbs, (m.pos, sid));
            },
            None => {
                let i = monastery_index(b.monasteries, m.pos);
                assert(crate::domain::board::monastery_fits(b, i));
                assert(m.pos != pos);
                lemma_place_monasteries(b, pos, tile, m.pos);
            },
        }
    }
}

/// Standing a follower on a side of the tile just placed keeps every listed
/// follower, the new one too, where the board records one.
pub proof fn lemma_segment_meeple_linked(b: BoardModel, side: Side, owner: PlayerId)
    requires
        board_wf(b),
        list_linked(b),
    ensures
        list_linked(spec_meeple_on_segment(b, side, owner).0),
{
    if let Some(pos) = b.last_placed {
        let tile = tile_at(b.tiles, pos).unwrap();
        let sid = spec_segment(tile, side);
        let x = (pos, sid);
        match spec_place_meeple(b.features, x, owner) {
            None => {},
            Some(ns) => {
                let b2 = spec_meeple_on_segment(b, side, owner).0;
                let i0 = crate::domain::board::tile_index(b.tiles, pos);
                lemma_side_roundtrip(side);
                assert(has_key(b.features, (b.tiles[i0].0, spec_segment(b.tiles[i0].1, side_at(side_index(side))))));
                assert(has_key(b.features, x));
                lemma_root_index(b.features, x);
                let r = root_of(b.features, x);
                let i = index_of_key(b.features, r);
                assert forall|j: int| 0 <= j < b.features.len() implies #[trigger] ns[j].key == b.features[j].key
                    && ns[j].parent == b.features[j].parent by {}
                assert forall|k: SegmentRef| has_key(b.features, k) implies #[trigger] has_key(ns, k)
                    && (root_of(b.features, k) != r ==> feature_info(ns, k) == feature_info(b.features, k))
                    && (root_of(b.features, k) == r ==> feature_info(ns, k).meeples.len() > 0) by {
                    lemma_same_keys(b.features, ns, k);
                    lemma_root_index(b.features, k);
                    lemma_same_keys(b.features, ns, root_of(b.features, k));
                }
                assert(b2.features == ns);
                assert forall|j: int| 0 <= j < b2.meeples.len() implies #[trigger] meeple_linked(b2, b2.meeples[j]) by {
                    if j < b.meeples.len() {
                        let m = b.meeples[j];
                        assert(b2.meeples[j] == m);
                        assert(meeple_linked(b, m));
                        if let Some(s2) = m.segment {
                            assert(has_key(b.features, (m.pos, s2)));
                            assert(has_key(ns, (m.pos, s2)));
                        }
                    } else {
                        assert(b2.meeples[j] == ActiveMeeple { pos, segment: Some(sid), owner });
                        assert(has_key(ns, x));
                        assert(root_of(b.features, x) == r);
                    }
                }
            },
        }
    }
}

/// Standing a follower on the monastery of the tile just placed keeps every
/// listed follower, the new one too, where the board records one.
pub proof fn lemma_monastery_meeple_linked(b: BoardModel, owner: PlayerId)
    requires
        board_wf(b),
        list_linked(b),
    ensures
        list_linked(spec_meeple_on_monastery(b, owner).0),
{
    let b2 = spec_meeple_on_monastery(b, owner).0;
    if let Some(pos) = b.last_placed {
        if let Some(rec) = monastery_at(b.monasteries, pos) {
            if rec.owner is None {
                assert forall|j: int| 0 <= j < b2.meeples.len() implies #[trigger] meeple_linked(b2, b2.meeples[j]) by {
                    lemma_meeple_on_monastery_law(b, owner, b2.meeples[j].pos);
                    if j < b.meeples.len() {
                        assert(b2.meeples[j] == b.meeples[j]);
                        assert(meeple_linked(b, b.meeples[j]));
                    }
                }
            }
        }
    }
}

proof fn lemma_prune_feature_kept(ms: Seq<ActiveMeeple>, ns: Seq<NodeView>, r: SegmentRef)
    ensures
        forall|j: int| 0 <= j < prune_feature(ms, ns, r).len() ==> ms.contains(#[trigger] prune_feature(ms, ns, r)[j])
            && !on_feature(ns, prune_feature(ms, ns, r)[j], r),
    decreases ms.len(),
{
    if ms.len() > 0 {
        lemma_prune_feature_kept(ms.drop_last(), ns, r);
        let p0 = prune_feature(ms.drop_last(), ns, r);
        let p1 = prune_feature(ms, ns, r);
        assert forall|j: int| 0 <= j < p1.len() implies ms.contains(#[trigger] p1[j]) && !on_feature(ns, p1[j], r) by {
            if j < p0.len() {
                assert(p1[j] == p0[j]);
                let i = choose|i: int| 0 <= i < ms.drop_last().len() && ms.drop_last()[i] == p0[j];
                assert(ms[i] == p0[j]);
            } else {
                assert(p1[j] == ms.last());
                assert(ms[ms.len() - 1] == ms.last());
            }
        }
    }
}

proof fn lemma_prune_monastery_kept(ms: Seq<ActiveMeeple>, p: Pos)
    ensures
        forall|j: int| 0 <= j < prune_monastery(ms, p).len() ==> ms.contains(#[trigger] prune_monastery(ms, p)[j])
            && !(prune_monastery(ms, p)[j].segment is None && prune_monastery(ms, p)[j].pos == p),
    decreases ms.len(),
{
    if ms.len() > 0 {
        lemma_prune_monastery_kept(ms.drop_last(), p);
        let p0 = prune_monastery(ms.drop_last(), p);
        let p1 = prune_monastery(ms, p);
        assert forall|j: int| 0 <= j < p1.len() implies ms.contains(#[trigger] p1[j])
            && !(p1[j].segment is None && p1[j].pos == p) by {
            if j < p0.len() {
                assert(p1[j] == p0[j]);
                let i = choose|i: int| 0 <= i < ms.drop_last().len() && ms.drop_last()[i] == p0[j];
                assert(ms[i] == p0[j]);
            } else {
                assert(p1[j] == ms.last());
                assert(ms[ms.len() - 1] == ms.last());
            }
        }
    }
}

/// Sending home the followers of the feature headed by `r` keeps every
/// follower still listed where the board records one.
pub proof fn lemma_collect_linked(b: BoardModel, r: SegmentRef)
    requires
        board_wf(b),
        list_linked(b),
        has_key(b.features, r),
        root_of(b.features, r) == r,
    ensures
        list_linked(collect_feature(b, r)),
{
    let b2 = collect_feature(b, r);
    lemma_collect_feature_wf(b, r);
    lemma_prune_feature_kept(b.meeples, b.features, r);
    assert forall|j: int| 0 <= j < b2.meeples.len() implies #[trigger] meeple_linked(b2, b2.meeples[j]) by {
        let m = b2.meeples[j];
        let i = choose|i: int| 0 <= i < b.meeples.len() && b.meeples[i] == m;
        assert(meeple_linked(b, b.meeples[i]));
        if let Some(sid) = m.segment {
            lemma_collect_info(b.features, r, (m.pos, sid));
        }
    }
}

/// Sending home the follower of the `k`-th monastery keeps every follower
/// still listed where the board records one.
pub proof fn lemma_clear_monastery_linked(b: BoardModel, k: int)
    requires
        board_wf(b),
        list_linked(b),
        0 <= k < b.monasteries.len(),
    ensures
        list_linked(clear_monastery(b, k)),
{
    let b2 = clear_monastery(b, k);
    let p = b.monasteries[k].0;
    lemma_clear_monastery_wf(b, k);
    lemma_prune_monastery_kept(b.meeples, p);
    assert forall|j: int| 0 <= j < b2.meeples.len() implies #[trigger] meeple_linked(b2, b2.meeples[j]) by {
        let m = b2.meeples[j];
        let i = choose|i: int| 0 <= i < b.meeples.len() && b.meeples[i] == m;
        assert(meeple_linked(b, b.meeples[i]));
        if m.segment is None {
            let q = m.pos;
            assert(q != p);
            let ms = b.monasteries;
            let ms2 = b2.monasteries;
            let iq = monastery_index(ms, q);
            assert(ms2[iq].0 == q);
            assert(has_monastery(ms2, q));
            let iq2 = monastery_index(ms2, q);
            assert(iq2 != k);
            assert(ms[iq2].0 == q);
            assert(iq2 == iq);
        }
    }
}

/// Scoring the features the tile touches keeps the followers listed where
/// the board records them.
pub proof fn lemma_resolve_features_linked(b: BoardModel, pos: Pos, tile: PlacedTile, s: nat, seen: Seq<SegmentRef>)
    requires
        board_wf(b),
        list_linked(b),
        sides_known(b, pos, tile),
    ensures
        list_linked(resolve_features(b, pos, tile, s, seen).0),
    decreases 4 - s,
{
    if s < 4 {
        let me = side_key(pos, tile, s as int);
        assert(has_key(b.features, me));
        let root = root_of(b.features, me);
        lemma_root_index(b.features, me);
        if seen.contains(root) {
            lemma_resolve_features_linked(b, pos, tile, s + 1, seen);
        } else {
            let info = feature_info(b.features, root);
            let ev = if info.open_count == 0 {
                completed_event(info)
            } else {
                None
            };
            match ev {
                None => lemma_resolve_features_linked(b, pos, tile, s + 1, seen.push(root)),
                Some(e) => {
                    let b2 = collect_feature(b, root);
                    lemma_collect_linked(b, root);
                    lemma_collect_feature_wf(b, root);
                    assert forall|t: int| 0 <= t < 4 implies #[trigger] has_key(b2.features, side_key(pos, tile, t)) by {
                        assert(has_key(b.features, side_key(pos, tile, t)));
                    }
                    lemma_resolve_features_linked(b2, pos, tile, s + 1, seen.push(root));
                },
            }
        }
    }
}

/// Scoring the finished monasteries keeps the followers listed where the
/// board records them.
pub proof fn lemma_resolve_monasteries_linked(b: BoardModel, pos: Pos, k: nat)
    requires
        board_wf(b),
        list_linked(b),
    ensures
        list_linked(resolve_monasteries(b, pos, k).0),
    decreases 9 - k,
{
    if k < 9 {
        let c = crate::domain::board::scan_cell(pos, k as int);
        match monastery_at(b.monasteries, c) {
            Some(rec) => if rec.owner is Some && rec.neighbor_count == 8 {
                let i = monastery_index(b.monasteries, c);
                lemma_clear_monastery_linked(b, i);
                lemma_clear_monastery_wf(b, i);
                lemma_resolve_monasteries_linked(clear_monastery(b, i), pos, k + 1);
            } else {
                lemma_resolve_monasteries_linked(b, pos, k + 1);
            },
            None => lemma_resolve_monasteries_linked(b, pos, k + 1),
        }
    }
}

// ---------------------------------------------------------------------------
// Scoring twice
// ---------------------------------------------------------------------------

proof fn lemma_majority_of_none(n: nat)
    ensures
        majority_upto(Seq::<PlayerId>::empty(), n).len() == 0,
    decreases n,
{
    if n > 0 {
        lemma_majority_of_none((n - 1) as nat);
        assert(count_of(Seq::<PlayerId>::empty(), (n - 1) as u8) == 0);
    }
}

/// An event that hands out nothing: no winner, no follower sent home, and no
/// monastery.
pub open spec fn empty_handed(e: EventView) -> bool {
    e.kind != FeatureKind::Monastery && e.winners.len() == 0 && e.meeples_returned.len() == 0
}

/// Sending home the follower of the `k`-th monastery changes only that
/// record's owner.
proof fn lemma_clear_monastery_at(b: BoardModel, k: int, q: Pos)
    requires
        board_wf(b),
        0 <= k < b.monasteries.len(),
    ensures
        monastery_at(clear_monastery(b, k).monasteries, q) == if q == b.monasteries[k].0 {
            Some(MonasteryRecord { owner: None, ..b.monasteries[k].1 })
        } else {
            monastery_at(b.monasteries, q)
        },
{
    let ms = b.monasteries;
    let ms2 = clear_monastery(b, k).monasteries;
    let p = ms[k].0;
    assert(ms2[k].0 == p);
    if q == p {
        assert(has_monastery(ms2, p));
        let i = monastery_index(ms2, p);
        assert(i == k);
    } else {
        if has_monastery(ms2, q) {
            let i = monastery_index(ms2, q);
            assert(ms[i].0 == q);
            assert(has_monastery(ms, q));
            let i0 = monastery_index(ms, q);
            assert(i0 == i);
        } else if has_monastery(ms, q) {
            let i0 = monastery_index(ms, q);
            assert(ms2[i0].0 == q);
        }
    }
}

/// The monastery at `c`, if any, holds no follower once it is finished.
pub open spec fn monastery_done(ms: Seq<(Pos, MonasteryRecord)>, c: Pos) -> bool {
    match monastery_at(ms, c) {
        Some(rec) => rec.neighbor_count == 8 ==> rec.owner is None,
        None => true,
    }
}

/// Scoring the finished monasteries around `pos`: afterwards none of the
/// cells scanned holds a finished monastery with a follower, no monastery
/// appears, none changes its count, and none regains a follower.
proof fn lemma_resolve_monasteries_done(b: BoardModel, pos: Pos, k: nat)
    requires
        board_wf(b),
    ensures
        board_wf(resolve_monasteries(b, pos, k).0),
        resolve_monasteries(b, pos, k).0.features == b.features,
        resolve_monasteries(b, pos, k).0.tiles == b.tiles,
        resolve_monasteries(b, pos, k).0.last_placed == b.last_placed,
        forall|j: int| k <= j < 9 ==> monastery_done(resolve_monasteries(b, pos, k).0.monasteries, #[trigger] scan_cell(pos, j)),
        forall|q: Pos| #[trigger] monastery_at(resolve_monasteries(b, pos, k).0.monasteries, q) is Some
            == monastery_at(b.monasteries, q) is Some,
        forall|q: Pos| monastery_at(b.monasteries, q) is Some ==> (#[trigger] monastery_at(resolve_monasteries(b, pos, k).0.monasteries, q)).unwrap().neighbor_count
            == monastery_at(b.monasteries, q).unwrap().neighbor_count
            && (monastery_at(b.monasteries, q).unwrap().owner is None ==> monastery_at(resolve_monasteries(b, pos, k).0.monasteries, q).unwrap().owner is None),
    decreases 9 - k,
{
    let res = resolve_monasteries(b, pos, k).0;
    if k < 9 {
        let c = scan_cell(pos, k as int);
        match monastery_at(b.monasteries, c) {
            Some(rec) => if rec.owner is Some && rec.neighbor_count == 8 {
                let i = monastery_index(b.monasteries, c);
                let b2 = clear_monastery(b, i);
                lemma_clear_monastery_wf(b, i);
                lemma_resolve_monasteries_done(b2, pos, k + 1);
                assert forall|q: Pos| #[trigger] monastery_at(b2.monasteries, q) == if q == c {
                    Some(MonasteryRecord { owner: None, ..rec })
                } else {
                    monastery_at(b.monasteries, q)
                } by {
                    lemma_clear_monastery_at(b, i, q);
                }
                assert(monastery_at(b2.monasteries, c) is Some);
            } else {
                lemma_resolve_monasteries_done(b, pos, k + 1);
            },
            None => lemma_resolve_monasteries_done(b, pos, k + 1),
        }
    }
}

/// Scoring monasteries around `pos` where no finished one holds a follower
/// hands out nothing.
proof fn lemma_resolve_monasteries_quiet(b: BoardModel, pos: Pos, k: nat)
    requires
        forall|j: int| k <= j < 9 ==> monastery_done(b.monasteries, #[trigger] scan_cell(pos, j)),
    ensures
        resolve_monasteries(b, pos, k).1.len() == 0,
    decreases 9 - k,
{
    if k < 9 {
        assert(monastery_done(b.monasteries, scan_cell(pos, k as int)));
        lemma_resolve_monasteries_quiet(b, pos, k + 1);
    }
}

/// Scoring the features the tile touches, when none of them is a finished
/// road or city with followers, hands out only empty-handed events and
/// leaves the monasteries alone.
proof fn lemma_resolve_features_quiet(b: BoardModel, pos: Pos, tile: PlacedTile, s: nat, seen: Seq<SegmentRef>)
    requires
        board_wf(b),
        sides_known(b, pos, tile),
        forall|t: int| 0 <= t < 4 ==> #[trigger] clear_if_closed(feature_info(b.features, side_key(pos, tile, t))),
    ensures
        forall|j: int| 0 <= j < resolve_features(b, pos, tile, s, seen).1.len()
            ==> #[trigger] empty_handed(resolve_features(b, pos, tile, s, seen).1[j]),
        resolve_features(b, pos, tile, s, seen).0.monasteries == b.monasteries,
    decreases 4 - s,
{
    if s < 4 {
        let me = side_key(pos, tile, s as int);
        assert(has_key(b.features, me));
        let root = root_of(b.features, me);
        lemma_root_index(b.features, me);
        if seen.contains(root) {
            lemma_resolve_features_quiet(b, pos, tile, s + 1, seen);
        } else {
            let info = feature_info(b.features, root);
            assert(info == feature_info(b.features, me));
            let ev = if info.open_count == 0 {
                completed_event(info)
            } else {
                None
            };
            match ev {
                None => lemma_resolve_features_quiet(b, pos, tile, s + 1, seen.push(root)),
                Some(e) => {
                    assert(clear_if_closed(feature_info(b.features, me)));
                    assert(info.meeples =~= Seq::<PlayerId>::empty());
                    lemma_majority_of_none(256);
                    assert(empty_handed(e));
                    let b2 = collect_feature(b, root);
                    lemma_collect_feature_wf(b, root);
                    assert forall|t: int| 0 <= t < 4 implies #[trigger] has_key(b2.features, side_key(pos, tile, t)) by {
                        assert(has_key(b.features, side_key(pos, tile, t)));
                    }
                    assert forall|t: int| 0 <= t < 4 implies #[trigger] clear_if_closed(feature_info(b2.features, side_key(pos, tile, t))) by {
                        assert(has_key(b.features, side_key(pos, tile, t)));
                        assert(clear_if_closed(feature_info(b.features, side_key(pos, tile, t))));
                        lemma_collect_info(b.features, root, side_key(pos, tile, t));
                    }
                    lemma_resolve_features_quiet(b2, pos, tile, s + 1, seen.push(root));
                    let rest = resolve_features(b2, pos, tile, s + 1, seen.push(root));
                    let all = resolve_features(b, pos, tile, s, seen);
                    assert(all.1 == seq![e] + rest.1);
                    assert forall|j: int| 0 <= j < all.1.len() implies #[trigger] empty_handed(all.1[j]) by {
                        if j > 0 {
                            assert(all.1[j] == rest.1[j - 1]);
                        }
                    }
                },
            }
        }
    }
}

/// Scoring again right after scoring hands out nothing: every feature the
/// last tile finished has already sent its followers home, and every
/// finished monastery around it already scored; a closed road or city
/// touching the tile is reported again, with no winner and no follower.
pub proof fn lemma_resolve_twice(b: BoardModel)
    requires
        board_wf(b),
    ensures
        forall|j: int| 0 <= j < spec_resolve(spec_resolve(b).0).1.len()
            ==> #[trigger] empty_handed(spec_resolve(spec_resolve(b).0).1[j]),
{
    if let Some(pos) = b.last_placed {
        let i = tile_index(b.tiles, pos);
        assert(b.tiles[i].0 == pos);
        let tile = tile_at(b.tiles, pos).unwrap();
        assert forall|t: int| 0 <= t < 4 implies #[trigger] has_key(b.features, side_key(pos, tile, t)) by {
            assert(has_key(b.features, (b.tiles[i].0, spec_segment(b.tiles[i].1, side_at(t)))));
        }
        let f = resolve_features(b, pos, tile, 0, Seq::empty());
        lemma_resolve_features_near(b, pos, tile, 0, Seq::empty());
        crate::domain::board::lemma_resolve_features_bounds(b, pos, tile, 0, Seq::empty());
        let r1 = resolve_monasteries(f.0, pos, 0).0;
        lemma_resolve_monasteries_done(f.0, pos, 0);
        assert(spec_resolve(b).0 == r1);
        assert(r1.last_placed == Some(pos));
        assert(r1.tiles == b.tiles);
        assert(tile_at(r1.tiles, pos).unwrap() == tile);
        assert forall|t: int| 0 <= t < 4 implies #[trigger] has_key(r1.features, side_key(pos, tile, t)) by {
            assert(has_key(b.features, side_key(pos, tile, t)));
        }
        assert forall|t: int| 0 <= t < 4 implies #[trigger] clear_if_closed(feature_info(r1.features, side_key(pos, tile, t))) by {
            assert(clear_if_closed(feature_info(f.0.features, side_key(pos, tile, t))));
        }
        let f2 = resolve_features(r1, pos, tile, 0, Seq::empty());
        lemma_resolve_features_quiet(r1, pos, tile, 0, Seq::empty());
        lemma_resolve_monasteries_quiet(f2.0, pos, 0);
        let evs = spec_resolve(r1).1;
        assert(evs == f2.1 + resolve_monasteries(f2.0, pos, 0).1);
        assert forall|j: int| 0 <= j < evs.len() implies #[trigger] empty_handed(evs[j]) by {
            assert(evs[j] == f2.1[j]);
        }
    }
}

/// The nine cells scanned after a placement are the placed cell and the eight
/// around it.
pub proof fn lemma_scan_covers(pos: Pos, q: Pos)
    requires
        -1 <= q.0 - pos.0 <= 1,
        -1 <= q.1 - pos.1 <= 1,
    ensures
        exists|j: int| 0 <= j < 9 && #[trigger] scan_cell(pos, j) == q,
{
    let dx = q.0 - pos.0;
    let dy = q.1 - pos.1;
    let j: int = if dx == 0 && dy == 0 {
        8
    } else if dy == -1 {
        dx + 1
    } else if dy == 0 {
        if dx == -1 { 3 } else { 4 }
    } else {
        dx + 6
    };
    assert(0 <= j < 9);
    if j < 8 {
        assert(crate::domain::board::cheb_dx(j) == dx && crate::domain::board::cheb_dy(j) == dy);
        assert(pos.0 + dx == q.0 && pos.1 + dy == q.1);
        assert(crate::domain::board::cheb_cell(pos, j) == q);
    }
    assert(scan_cell(pos, j) == q);
}

/// After scoring a placement, no finished monastery on the placed cell or on
/// any of the eight cells around it still holds a follower.
pub proof fn lemma_resolve_clears_around(b: BoardModel, q: Pos)
    requires
        board_wf(b),
        b.last_placed is Some,
        -1 <= q.0 - b.last_placed.unwrap().0 <= 1,
        -1 <= q.1 - b.last_placed.unwrap().1 <= 1,
    ensures
        monastery_done(spec_resolve(b).0.monasteries, q),
        monastery_at(spec_resolve(b).0.monasteries, q) is Some && monastery_at(spec_resolve(b).0.monasteries, q).unwrap().neighbor_count == 8
            ==> monastery_at(spec_resolve(b).0.monasteries, q).unwrap().owner is None,
{
    let pos = b.last_placed.unwrap();
    let i = tile_index(b.tiles, pos);
    assert(b.tiles[i].0 == pos);
    let tile = tile_at(b.tiles, pos).unwrap();
    assert forall|t: int| 0 <= t < 4 implies #[trigger] has_key(b.features, side_key(pos, tile, t)) by {
        assert(has_key(b.features, (b.tiles[i].0, spec_segment(b.tiles[i].1, side_at(t)))));
    }
    let f = resolve_features(b, pos, tile, 0, Seq::empty());
    lemma_resolve_features_near(b, pos, tile, 0, Seq::empty());
    lemma_resolve_monasteries_done(f.0, pos, 0);
    lemma_scan_covers(pos, q);
    let j = choose|j: int| 0 <= j < 9 && #[trigger] scan_cell(pos, j) == q;
    assert(monastery_done(resolve_monasteries(f.0, pos, 0).0.monasteries, scan_cell(pos, j)));
}

} // verus!
