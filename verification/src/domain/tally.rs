use vstd::prelude::*;

use crate::domain::board::{
    board_wf, bump_monasteries, clear_monastery, collect_feature, endgame_strays, farm_strays, farms_from, in_bounds,
    incomplete_from, lemma_clear_monastery_wf, lemma_collect_feature_wf, monasteries_endgame, spec_endgame,
    lemma_place_wf, lemma_side_roundtrip, monastery_at, monastery_index, neighbor_segs,
    resolve_features, resolve_monasteries, scan_cell, spec_can_place, spec_meeple_on_monastery,
    spec_meeple_on_segment, spec_place, spec_resolve, tile_at, tile_index, BoardModel,
    MonasteryRecord, Pos, MAX_TILES,
};
use crate::domain::feature::{
    feature_info, fresh_node, fresh_nodes, graph_wf, has_key, index_of_key, keys_distinct,
    lemma_append_fresh_wf, lemma_has_key_index, lemma_index_of_key, lemma_root_index,
    lemma_same_keys, lemma_union_wf, node_of, parent_ok, relabel, root_nodes, root_of, spec_add_tile,
    spec_collect, spec_place_meeple, spec_union, unions_from, InfoView, NodeView, PlayerId,
    SegmentRef, MAX_NODES,
};
use crate::domain::scoring::{
    completed_event, count_of, farm_event, incomplete_event, monastery_event, EventView,
};
use crate::domain::tile::{rotation_ok, side_at, side_index, spec_segment, EdgeKind, PlacedTile};

verus! {

// ---------------------------------------------------------------------------
// Followers counted on the feature graph
// ---------------------------------------------------------------------------

/// `p`'s followers on the feature headed by node `n`, when `n` heads one.
pub open spec fn root_share(n: NodeView, p: PlayerId) -> nat {
    if n.parent == n.key {
        count_of(n.info.meeples, p)
    } else {
        0
    }
}

/// `p`'s followers standing on the features of the graph.
pub open spec fn graph_tally(ns: Seq<NodeView>, p: PlayerId) -> nat
    decreases ns.len(),
{
    if ns.len() == 0 {
        0
    } else {
        graph_tally(ns.drop_last(), p) + root_share(ns.last(), p)
    }
}

/// `p`'s followers counted on the nodes with key `k`.
pub open spec fn key_share(ns: Seq<NodeView>, k: SegmentRef, p: PlayerId) -> nat
    decreases ns.len(),
{
    if ns.len() == 0 {
        0
    } else {
        key_share(ns.drop_last(), k, p) + if ns.last().key == k {
            root_share(ns.last(), p)
        } else {
            0
        }
    }
}

pub proof fn lemma_count_concat(a: Seq<PlayerId>, b: Seq<PlayerId>, p: PlayerId)
    ensures
        count_of(a + b, p) == count_of(a, p) + count_of(b, p),
    decreases b.len(),
{
    if b.len() > 0 {
        assert((a + b).drop_last() =~= a + b.drop_last());
        lemma_count_concat(a, b.drop_last(), p);
    } else {
        assert(a + b =~= a);
    }
}

pub proof fn lemma_tally_update(ns: Seq<NodeView>, i: int, n: NodeView, p: PlayerId)
    requires
        0 <= i < ns.len(),
    ensures
        graph_tally(ns.update(i, n), p) + root_share(ns[i], p) == graph_tally(ns, p) + root_share(n, p),
    decreases ns.len(),
{
    if i < ns.len() - 1 {
        assert(ns.update(i, n).drop_last() =~= ns.drop_last().update(i, n));
        lemma_tally_update(ns.drop_last(), i, n, p);
    } else {
        assert(ns.update(i, n).drop_last() =~= ns.drop_last());
    }
}

pub proof fn lemma_tally_append(a: Seq<NodeView>, b: Seq<NodeView>, p: PlayerId)
    ensures
        graph_tally(a + b, p) == graph_tally(a, p) + graph_tally(b, p),
    decreases b.len(),
{
    if b.len() > 0 {
        assert((a + b).drop_last() =~= a + b.drop_last());
        lemma_tally_append(a, b.drop_last(), p);
    } else {
        assert(a + b =~= a);
    }
}

/// Relabelling the members of `from` as members of `to` loses exactly the
/// followers on `from`'s own node.
pub proof fn lemma_tally_relabel(ns: Seq<NodeView>, from: SegmentRef, to: SegmentRef, p: PlayerId)
    requires
        from != to,
        forall|i: int| 0 <= i < ns.len() && (#[trigger] ns[i]).key == to ==> ns[i].parent == to,
    ensures
        graph_tally(relabel(ns, from, to), p) + key_share(ns, from, p) == graph_tally(ns, p),
    decreases ns.len(),
{
    if ns.len() > 0 {
        let pre = ns.drop_last();
        assert(relabel(ns, from, to).drop_last() =~= relabel(pre, from, to));
        assert forall|i: int| 0 <= i < pre.len() && (#[trigger] pre[i]).key == to implies pre[i].parent == to by {
            assert(pre[i] == ns[i]);
        }
        lemma_tally_relabel(pre, from, to, p);
        let x = ns.last();
        assert(ns[ns.len() - 1] == x);
        assert(relabel(ns, from, to).last() == if x.parent == from {
            NodeView { parent: to, ..x }
        } else {
            x
        });
    }
}

/// With distinct keys, the count on key `k` is the count on its one node.
pub proof fn lemma_key_share(ns: Seq<NodeView>, k: SegmentRef, p: PlayerId)
    requires
        keys_distinct(ns),
    ensures
        key_share(ns, k, p) == if has_key(ns, k) {
            root_share(node_of(ns, k), p)
        } else {
            0
        },
    decreases ns.len(),
{
    if ns.len() > 0 {
        let pre = ns.drop_last();
        assert(keys_distinct(pre));
        lemma_key_share(pre, k, p);
        let last = ns.len() - 1;
        if ns.last().key == k {
            lemma_index_of_key(ns, last);
            assert(!has_key(pre, k)) by {
                if has_key(pre, k) {
                    let j = choose|j: int| 0 <= j < pre.len() && pre[j].key == k;
                    assert(ns[j].key == k);
                }
            }
        } else {
            if has_key(ns, k) {
                let j = index_of_key(ns, k);
                assert(j < last);
                assert(pre[j] == ns[j]);
                lemma_index_of_key(ns, j);
                lemma_index_of_key(pre, j);
            } else {
                assert(!has_key(pre, k)) by {
                    if has_key(pre, k) {
                        let j = choose|j: int| 0 <= j < pre.len() && pre[j].key == k;
                        assert(ns[j].key == k);
                    }
                }
            }
        }
    }
}

/// Merging two features keeps every player's followers on the graph.
pub proof fn lemma_tally_union(ns: Seq<NodeView>, a: SegmentRef, b: SegmentRef, p: PlayerId)
    requires
        graph_wf(ns),
        has_key(ns, a),
        has_key(ns, b),
    ensures
        graph_tally(spec_union(ns, a, b), p) == graph_tally(ns, p),
{
    lemma_root_index(ns, a);
    lemma_root_index(ns, b);
    let ra = root_of(ns, a);
    let rb = root_of(ns, b);
    if ra == rb {
        let i = index_of_key(ns, ra);
        let n = ns[i];
        let n2 = NodeView { info: InfoView { open_count: crate::domain::feature::sat_sub2(n.info.open_count), ..n.info }, ..n };
        lemma_tally_update(ns, i, n2, p);
    } else {
        let rank_a = node_of(ns, ra).rank;
        let rank_b = node_of(ns, rb).rank;
        let small = if rank_a < rank_b { ra } else { rb };
        let big = if rank_a < rank_b { rb } else { ra };
        let si = node_of(ns, small).info;
        let bi = index_of_key(ns, big);
        let bn = ns[bi];
        let rl = relabel(ns, small, big);
        assert forall|i: int| 0 <= i < ns.len() && (#[trigger] ns[i]).key == big implies ns[i].parent == big by {
            lemma_index_of_key(ns, i);
        }
        lemma_tally_relabel(ns, small, big, p);
        lemma_key_share(ns, small, p);
        let nb = NodeView {
            rank: if rank_a == rank_b {
                (bn.rank + 1) as u8
            } else {
                bn.rank
            },
            info: InfoView {
                kind: bn.info.kind,
                open_count: crate::domain::feature::sat_sub2((bn.info.open_count + si.open_count) as u32),
                tiles: (bn.info.tiles + si.tiles) as u32,
                shields: (bn.info.shields + si.shields) as u32,
                meeples: bn.info.meeples + si.meeples,
            },
            ..bn
        };
        assert(spec_union(ns, a, b) == rl.update(bi, nb));
        assert(rl[bi] == bn);
        lemma_tally_update(rl, bi, nb, p);
        lemma_count_concat(bn.info.meeples, si.meeples, p);
    }
}

/// Fresh segments carry no followers.
pub proof fn lemma_tally_fresh(pos: Pos, tile: PlacedTile, n: nat, p: PlayerId)
    ensures
        graph_tally(fresh_nodes(pos, tile, n), p) == 0,
    decreases n,
{
    if n > 0 {
        lemma_tally_fresh(pos, tile, (n - 1) as nat, p);
        let s = (n - 1) as int;
        let sid = spec_segment(tile, side_at(s));
        let pre = fresh_nodes(pos, tile, (n - 1) as nat);
        let extra = if crate::domain::feature::first_side_with(tile, sid) == s {
            seq![fresh_node(pos, tile, sid)]
        } else {
            Seq::empty()
        };
        lemma_tally_append(pre, extra, p);
        if extra.len() > 0 {
            assert(extra.drop_last() =~= Seq::<NodeView>::empty());
            assert(graph_tally(extra.drop_last(), p) == 0);
            assert(extra.last() == fresh_node(pos, tile, sid));
            assert(extra.last().info.meeples =~= Seq::<PlayerId>::empty());
            assert(count_of(extra.last().info.meeples, p) == 0);
            assert(graph_tally(extra, p) == 0);
        } else {
            assert(graph_tally(extra, p) == 0);
        }
    }
}

/// Joining the tile's segments to their neighbours keeps every player's followers.
pub proof fn lemma_tally_unions_from(ns: Seq<NodeView>, pos: Pos, tile: PlacedTile, nbs: Seq<Option<SegmentRef>>, s: nat, p: PlayerId)
    requires
        graph_wf(ns),
        nbs.len() == 4,
        forall|t: int| 0 <= t < 4 ==> #[trigger] has_key(ns, (pos, spec_segment(tile, side_at(t)))),
        forall|t: int| 0 <= t < 4 ==> (#[trigger] nbs[t] matches Some(nb) ==> has_key(ns, nb)),
    ensures
        graph_tally(unions_from(ns, pos, tile, nbs, s), p) == graph_tally(ns, p),
    decreases 4 - s,
{
    if s < 4 {
        let next = match nbs[s as int] {
            Some(nb) => spec_union(ns, (pos, spec_segment(tile, side_at(s as int))), nb),
            None => ns,
        };
        match nbs[s as int] {
            Some(nb) => {
                lemma_union_wf(ns, (pos, spec_segment(tile, side_at(s as int))), nb);
                lemma_tally_union(ns, (pos, spec_segment(tile, side_at(s as int))), nb, p);
            },
            None => {},
        }
        assert forall|k: SegmentRef| #[trigger] has_key(next, k) == has_key(ns, k) by {
            lemma_same_keys(ns, next, k);
        }
        assert forall|t: int| 0 <= t < 4 implies #[trigger] has_key(next, (pos, spec_segment(tile, side_at(t)))) by {
            assert(has_key(ns, (pos, spec_segment(tile, side_at(t)))));
        }
        assert forall|t: int| 0 <= t < 4 implies (#[trigger] nbs[t] matches Some(nb) ==> has_key(next, nb)) by {
            if let Some(nb) = nbs[t] {
                assert(has_key(ns, nb));
            }
        }
        lemma_tally_unions_from(next, pos, tile, nbs, s + 1, p);
    }
}

/// Adding a tile keeps every player's followers on the graph.
pub proof fn lemma_tally_add_tile(ns: Seq<NodeView>, pos: Pos, tile: PlacedTile, nbs: Seq<Option<SegmentRef>>, p: PlayerId)
    requires
        graph_wf(ns),
        forall|i: int| 0 <= i < ns.len() ==> #[trigger] ns[i].key.0 != pos,
        ns.len() + 4 <= MAX_NODES,
        nbs.len() == 4,
        forall|t: int| 0 <= t < 4 ==> (#[trigger] nbs[t] matches Some(nb) ==> has_key(ns, nb)),
    ensures
        graph_tally(spec_add_tile(ns, pos, tile, nbs), p) == graph_tally(ns, p),
{
    lemma_append_fresh_wf(ns, pos, tile);
    let f = fresh_nodes(pos, tile, 4);
    let base = ns + f;
    assert forall|t: int| 0 <= t < 4 implies (#[trigger] nbs[t] matches Some(nb) ==> has_key(base, nb)) by {
        if let Some(nb) = nbs[t] {
            let j = choose|j: int| 0 <= j < ns.len() && ns[j].key == nb;
            assert(base[j] == ns[j]);
        }
    }
    lemma_tally_unions_from(base, pos, tile, nbs, 0, p);
    lemma_tally_append(ns, f, p);
    lemma_tally_fresh(pos, tile, 4, p);
}

/// Standing a follower of `owner` adds one to `owner`'s count.
pub proof fn lemma_tally_place_meeple(ns: Seq<NodeView>, x: SegmentRef, owner: PlayerId, p: PlayerId)
    requires
        graph_wf(ns),
        has_key(ns, x),
        spec_place_meeple(ns, x, owner) is Some,
    ensures
        graph_tally(spec_place_meeple(ns, x, owner).unwrap(), p) == graph_tally(ns, p) + if owner == p {
            1nat
        } else {
            0nat
        },
{
    lemma_root_index(ns, x);
    let r = root_of(ns, x);
    let i = index_of_key(ns, r);
    let n = ns[i];
    let n2 = NodeView { info: InfoView { meeples: seq![owner], ..n.info }, ..n };
    lemma_tally_update(ns, i, n2, p);
    assert(n.info.meeples =~= Seq::<PlayerId>::empty());
    assert(seq![owner].drop_last() =~= Seq::<PlayerId>::empty());
}

/// Sending a feature's followers home takes exactly them off the count.
pub proof fn lemma_tally_collect(ns: Seq<NodeView>, x: SegmentRef, p: PlayerId)
    requires
        graph_wf(ns),
        has_key(ns, x),
    ensures
        graph_tally(spec_collect(ns, x), p) + count_of(feature_info(ns, x).meeples, p) == graph_tally(ns, p),
{
    lemma_root_index(ns, x);
    let r = root_of(ns, x);
    let i = index_of_key(ns, r);
    let n = ns[i];
    let n2 = NodeView { info: InfoView { meeples: Seq::empty(), ..n.info }, ..n };
    lemma_tally_update(ns, i, n2, p);
}

// ---------------------------------------------------------------------------
// Followers counted on the board, and sent home by scoring
// ---------------------------------------------------------------------------

/// `p`'s followers on monasteries.
pub open spec fn monastery_tally(ms: Seq<(Pos, MonasteryRecord)>, p: PlayerId) -> nat
    decreases ms.len(),
{
    if ms.len() == 0 {
        0
    } else {
        monastery_tally(ms.drop_last(), p) + if ms.last().1.owner == Some(p) {
            1nat
        } else {
            0nat
        }
    }
}

/// `p`'s followers standing on the board.
pub open spec fn board_tally(b: BoardModel, p: PlayerId) -> nat {
    graph_tally(b.features, p) + monastery_tally(b.monasteries, p)
}

/// `p`'s followers that the events send home.
pub open spec fn returned_tally(evs: Seq<EventView>, p: PlayerId) -> nat
    decreases evs.len(),
{
    if evs.len() == 0 {
        0
    } else {
        returned_tally(evs.drop_last(), p) + count_of(evs.last().meeples_returned, p)
    }
}

pub proof fn lemma_returned_concat(a: Seq<EventView>, b: Seq<EventView>, p: PlayerId)
    ensures
        returned_tally(a + b, p) == returned_tally(a, p) + returned_tally(b, p),
    decreases b.len(),
{
    if b.len() > 0 {
        assert((a + b).drop_last() =~= a + b.drop_last());
        lemma_returned_concat(a, b.drop_last(), p);
    } else {
        assert(a + b =~= a);
    }
}

pub proof fn lemma_returned_cons(e: EventView, rest: Seq<EventView>, p: PlayerId)
    ensures
        returned_tally(seq![e] + rest, p) == count_of(e.meeples_returned, p) + returned_tally(rest, p),
{
    lemma_returned_concat(seq![e], rest, p);
    assert(seq![e].drop_last() =~= Seq::<EventView>::empty());
    assert(returned_tally(seq![e].drop_last(), p) == 0);
    assert(seq![e].last() == e);
}

/// Each event sends home no more of `p`'s followers than all of them together.
pub proof fn lemma_returned_member(evs: Seq<EventView>, j: int, p: PlayerId)
    requires
        0 <= j < evs.len(),
    ensures
        count_of(evs[j].meeples_returned, p) <= returned_tally(evs, p),
    decreases evs.len(),
{
    if j < evs.len() - 1 {
        lemma_returned_member(evs.drop_last(), j, p);
    }
}

pub proof fn lemma_monastery_tally_update(ms: Seq<(Pos, MonasteryRecord)>, i: int, x: (Pos, MonasteryRecord), p: PlayerId)
    requires
        0 <= i < ms.len(),
    ensures
        monastery_tally(ms.update(i, x), p) + (if ms[i].1.owner == Some(p) { 1nat } else { 0nat })
            == monastery_tally(ms, p) + (if x.1.owner == Some(p) { 1nat } else { 0nat }),
    decreases ms.len(),
{
    if i < ms.len() - 1 {
        assert(ms.update(i, x).drop_last() =~= ms.drop_last().update(i, x));
        lemma_monastery_tally_update(ms.drop_last(), i, x, p);
    } else {
        assert(ms.update(i, x).drop_last() =~= ms.drop_last());
    }
}

pub proof fn lemma_monastery_tally_bump(ms: Seq<(Pos, MonasteryRecord)>, pos: Pos, p: PlayerId)
    ensures
        monastery_tally(bump_monasteries(ms, pos), p) == monastery_tally(ms, p),
    decreases ms.len(),
{
    if ms.len() > 0 {
        assert(bump_monasteries(ms, pos).drop_last() =~= bump_monasteries(ms.drop_last(), pos));
        lemma_monastery_tally_bump(ms.drop_last(), pos, p);
    }
}

/// Placing a tile moves no follower.
pub proof fn lemma_tally_place(b: BoardModel, pos: Pos, tile: PlacedTile, p: PlayerId)
    requires
        board_wf(b),
        spec_can_place(b.tiles, pos, tile) is Ok,
        in_bounds(pos),
        rotation_ok(tile),
        b.tiles.len() < MAX_TILES,
    ensures
        board_tally(spec_place(b, pos, tile), p) == board_tally(b, p),
{
    lemma_place_wf(b, pos, tile);
    lemma_tally_add_tile(b.features, pos, tile, neighbor_segs(b.tiles, pos), p);
    let added = if tile.spec.monastery {
        b.monasteries.push((pos, MonasteryRecord { owner: None, neighbor_count: crate::domain::board::surrounding_count(b.tiles, pos) as u8 }))
    } else {
        b.monasteries
    };
    if tile.spec.monastery {
        assert(added.drop_last() =~= b.monasteries);
    }
    lemma_monastery_tally_bump(added, pos, p);
}

/// Standing a follower on a segment counts it for its owner, when it stands.
pub proof fn lemma_tally_meeple_segment(b: BoardModel, side: crate::domain::tile::Side, owner: PlayerId, p: PlayerId)
    requires
        board_wf(b),
    ensures
        board_tally(spec_meeple_on_segment(b, side, owner).0, p) == board_tally(b, p)
            + if spec_meeple_on_segment(b, side, owner).1 is Ok && owner == p { 1nat } else { 0nat },
{
    if let Some(pos) = b.last_placed {
        let i = tile_index(b.tiles, pos);
        assert(b.tiles[i].0 == pos);
        let sid = spec_segment(tile_at(b.tiles, pos).unwrap(), side);
        lemma_side_roundtrip(side);
        assert(crate::domain::feature::has_key(b.features, (b.tiles[i].0, spec_segment(b.tiles[i].1, side_at(side_index(side))))));
        if spec_place_meeple(b.features, (pos, sid), owner) is Some {
            lemma_tally_place_meeple(b.features, (pos, sid), owner, p);
        }
    }
}

/// Standing a follower on a monastery counts it for its owner, when it stands.
pub proof fn lemma_tally_meeple_monastery(b: BoardModel, owner: PlayerId, p: PlayerId)
    ensures
        board_tally(spec_meeple_on_monastery(b, owner).0, p) == board_tally(b, p)
            + if spec_meeple_on_monastery(b, owner).1 is Ok && owner == p { 1nat } else { 0nat },
{
    if let Some(pos) = b.last_placed {
        if let Some(rec) = monastery_at(b.monasteries, pos) {
            if rec.owner is None {
                let k = monastery_index(b.monasteries, pos);
                lemma_monastery_tally_update(b.monasteries, k, (pos, MonasteryRecord { owner: Some(owner), ..rec }), p);
            }
        }
    }
}

/// Sending a feature's followers home takes exactly them off the board.
pub proof fn lemma_tally_collect_feature(b: BoardModel, r: SegmentRef, p: PlayerId)
    requires
        board_wf(b),
        has_key(b.features, r),
    ensures
        board_tally(collect_feature(b, r), p) + count_of(feature_info(b.features, r).meeples, p) == board_tally(b, p),
{
    lemma_tally_collect(b.features, r, p);
}

/// Sending a monastery's follower home takes it off the board.
pub proof fn lemma_tally_clear_monastery(b: BoardModel, k: int, o: PlayerId, p: PlayerId)
    requires
        0 <= k < b.monasteries.len(),
        b.monasteries[k].1.owner == Some(o),
    ensures
        board_tally(clear_monastery(b, k), p) + (if o == p { 1nat } else { 0nat }) == board_tally(b, p),
{
    let (q, rec) = b.monasteries[k];
    lemma_monastery_tally_update(b.monasteries, k, (q, MonasteryRecord { owner: None, ..rec }), p);
}

/// Scoring the features around a tile sends home exactly the followers its
/// events name.
pub proof fn lemma_tally_resolve_features(b: BoardModel, pos: Pos, tile: PlacedTile, s: nat, seen: Seq<SegmentRef>, p: PlayerId)
    requires
        board_wf(b),
        s <= 4,
        forall|k: int| 0 <= k < 4 ==> #[trigger] has_key(b.features, (pos, spec_segment(tile, side_at(k)))),
    ensures
        board_tally(resolve_features(b, pos, tile, s, seen).0, p) + returned_tally(resolve_features(b, pos, tile, s, seen).1, p)
            == board_tally(b, p),
    decreases 4 - s,
{
    if s < 4 {
        let x = (pos, spec_segment(tile, side_at(s as int)));
        assert(has_key(b.features, x));
        let root = root_of(b.features, x);
        lemma_root_index(b.features, x);
        if seen.contains(root) {
            lemma_tally_resolve_features(b, pos, tile, s + 1, seen, p);
        } else {
            let info = feature_info(b.features, root);
            let ev = if info.open_count == 0 {
                completed_event(info)
            } else {
                None
            };
            match ev {
                None => {
                    lemma_tally_resolve_features(b, pos, tile, s + 1, seen.push(root), p);
                },
                Some(e) => {
                    lemma_collect_feature_wf(b, root);
                    let b2 = collect_feature(b, root);
                    assert forall|k: int| 0 <= k < 4 implies #[trigger] has_key(b2.features, (pos, spec_segment(tile, side_at(k)))) by {
                        assert(has_key(b.features, (pos, spec_segment(tile, side_at(k)))));
                    }
                    lemma_tally_resolve_features(b2, pos, tile, s + 1, seen.push(root), p);
                    lemma_tally_collect_feature(b, root, p);
                    let rest = resolve_features(b2, pos, tile, s + 1, seen.push(root));
                    lemma_returned_cons(e, rest.1, p);
                    assert(e.meeples_returned == info.meeples);
                },
            }
        }
    }
}

/// Scoring finished monasteries sends home exactly the followers the events name.
pub proof fn lemma_tally_resolve_monasteries(b: BoardModel, pos: Pos, k: nat, p: PlayerId)
    requires
        k <= 9,
    ensures
        board_tally(resolve_monasteries(b, pos, k).0, p) + returned_tally(resolve_monasteries(b, pos, k).1, p)
            == board_tally(b, p),
    decreases 9 - k,
{
    if k < 9 {
        let c = scan_cell(pos, k as int);
        match monastery_at(b.monasteries, c) {
            Some(rec) => if rec.owner is Some && rec.neighbor_count == 8 {
                let idx = monastery_index(b.monasteries, c);
                let o = rec.owner.unwrap();
                let b2 = clear_monastery(b, idx);
                lemma_tally_resolve_monasteries(b2, pos, k + 1, p);
                lemma_tally_clear_monastery(b, idx, o, p);
                let rest = resolve_monasteries(b2, pos, k + 1);
                let e = monastery_event(o, 9);
                lemma_returned_cons(e, rest.1, p);
                assert(seq![o].drop_last() =~= Seq::<PlayerId>::empty());
                assert(count_of(seq![o].drop_last(), p) == 0);
                assert(seq![o].last() == o);
                assert(count_of(e.meeples_returned, p) == if o == p { 1nat } else { 0nat });
                assert(resolve_monasteries(b, pos, k).1 == seq![e] + rest.1);
                assert(resolve_monasteries(b, pos, k).0 == rest.0);
            } else {
                lemma_tally_resolve_monasteries(b, pos, k + 1, p);
            },
            None => {
                lemma_tally_resolve_monasteries(b, pos, k + 1, p);
            },
        }
    }
}

/// Scoring after a placement sends home exactly the followers its events name.
pub proof fn lemma_tally_resolve(b: BoardModel, p: PlayerId)
    requires
        board_wf(b),
    ensures
        board_tally(spec_resolve(b).0, p) + returned_tally(spec_resolve(b).1, p) == board_tally(b, p),
{
    if let Some(pos) = b.last_placed {
        let i = tile_index(b.tiles, pos);
        assert(b.tiles[i].0 == pos);
        let tile = tile_at(b.tiles, pos).unwrap();
        assert forall|k: int| 0 <= k < 4 implies #[trigger] has_key(b.features, (pos, spec_segment(tile, side_at(k)))) by {
            assert(has_key(b.features, (b.tiles[i].0, spec_segment(b.tiles[i].1, side_at(k)))));
        }
        lemma_tally_resolve_features(b, pos, tile, 0, Seq::empty(), p);
        let f = resolve_features(b, pos, tile, 0, Seq::empty());
        lemma_tally_resolve_monasteries(f.0, pos, 0, p);
        let m = resolve_monasteries(f.0, pos, 0);
        lemma_returned_concat(f.1, m.1, p);
    }
}

/// The roots of a graph with distinct keys have distinct keys.
pub proof fn lemma_root_nodes_distinct(ns: Seq<NodeView>)
    requires
        keys_distinct(ns),
    ensures
        forall|a: int, c: int| 0 <= a < root_nodes(ns).len() && 0 <= c < root_nodes(ns).len() && a != c
            ==> root_nodes(ns)[a].key != root_nodes(ns)[c].key,
    decreases ns.len(),
{
    if ns.len() > 0 {
        let pre = ns.drop_last();
        assert(keys_distinct(pre));
        lemma_root_nodes_distinct(pre);
        crate::domain::feature::lemma_root_nodes_props(pre);
        let rp = root_nodes(pre);
        let rs = root_nodes(ns);
        assert forall|a: int, c: int| 0 <= a < rs.len() && 0 <= c < rs.len() && a != c implies rs[a].key != rs[c].key by {
            if a < rp.len() && c < rp.len() {
                assert(rs[a] == rp[a] && rs[c] == rp[c]);
            } else if a < rp.len() {
                assert(rs[a] == rp[a]);
                let i = choose|i: int| 0 <= i < pre.len() && pre[i] == #[trigger] rp[a] && pre[i].parent == pre[i].key;
                assert(rs[c] == ns.last());
                assert(ns[i] == pre[i]);
                assert(ns[ns.len() - 1] == ns.last());
            } else if c < rp.len() {
                assert(rs[c] == rp[c]);
                let i = choose|i: int| 0 <= i < pre.len() && pre[i] == #[trigger] rp[c] && pre[i].parent == pre[i].key;
                assert(rs[a] == ns.last());
                assert(ns[i] == pre[i]);
                assert(ns[ns.len() - 1] == ns.last());
            }
        }
    }
}

/// Each listed root is the graph's node for its key.
pub proof fn lemma_root_nodes_current(ns: Seq<NodeView>)
    requires
        keys_distinct(ns),
    ensures
        forall|j: int| 0 <= j < root_nodes(ns).len() ==> has_key(ns, (#[trigger] root_nodes(ns)[j]).key)
            && node_of(ns, root_nodes(ns)[j].key) == root_nodes(ns)[j]
            && root_nodes(ns)[j].parent == root_nodes(ns)[j].key,
{
    crate::domain::feature::lemma_root_nodes_props(ns);
    let rs = root_nodes(ns);
    assert forall|j: int| 0 <= j < rs.len() implies has_key(ns, (#[trigger] rs[j]).key)
        && node_of(ns, rs[j].key) == rs[j] && rs[j].parent == rs[j].key by {
        let i = choose|i: int| 0 <= i < ns.len() && ns[i] == #[trigger] rs[j] && ns[i].parent == ns[i].key;
        lemma_index_of_key(ns, i);
    }
}

/// Scoring unfinished roads and cities sends home exactly the followers the
/// events name, and keeps the board well formed.
pub proof fn lemma_tally_incomplete(b: BoardModel, rs: Seq<NodeView>, k: nat, p: PlayerId)
    requires
        board_wf(b),
        forall|a: int, c: int| 0 <= a < rs.len() && 0 <= c < rs.len() && a != c ==> rs[a].key != rs[c].key,
        forall|j: int| k <= j < rs.len() ==> has_key(b.features, (#[trigger] rs[j]).key)
            && node_of(b.features, rs[j].key) == rs[j] && rs[j].parent == rs[j].key,
    ensures
        board_wf(incomplete_from(b, rs, k).0),
        board_tally(incomplete_from(b, rs, k).0, p) + returned_tally(incomplete_from(b, rs, k).1, p) == board_tally(b, p),
    decreases rs.len() - k,
{
    if k < rs.len() {
        let n = rs[k as int];
        assert(has_key(b.features, n.key));
        let ev = if n.info.kind != crate::domain::tile::EdgeKind::Field && n.info.open_count != 0 {
            incomplete_event(n.info)
        } else {
            None
        };
        match ev {
            None => {
                lemma_tally_incomplete(b, rs, k + 1, p);
            },
            Some(e) => {
                let b2 = collect_feature(b, n.key);
                lemma_collect_feature_wf(b, n.key);
                crate::domain::feature::lemma_collect_props(b.features, n.key);
                let i0 = index_of_key(b.features, n.key);
                assert forall|j: int| k + 1 <= j < rs.len() implies has_key(b2.features, (#[trigger] rs[j]).key)
                    && node_of(b2.features, rs[j].key) == rs[j] && rs[j].parent == rs[j].key by {
                    assert(has_key(b.features, rs[j].key));
                    lemma_same_keys(b.features, b2.features, rs[j].key);
                    let ij = index_of_key(b.features, rs[j].key);
                    lemma_has_key_index(b.features, rs[j].key);
                    lemma_has_key_index(b.features, n.key);
                    assert(rs[j].key != n.key);
                    assert(ij != i0);
                }
                lemma_tally_incomplete(b2, rs, k + 1, p);
                lemma_tally_collect_feature(b, n.key, p);
                lemma_root_index(b.features, n.key);
                assert(feature_info(b.features, n.key) == n.info);
                let rest = incomplete_from(b2, rs, k + 1);
                lemma_returned_cons(e, rest.1, p);
            },
        }
    }
}

/// Scoring occupied monasteries at the end sends home exactly their followers.
pub proof fn lemma_tally_monasteries_endgame(b: BoardModel, k: nat, n: nat, p: PlayerId)
    requires
        board_wf(b),
    ensures
        board_wf(monasteries_endgame(b, k, n).0),
        board_tally(monasteries_endgame(b, k, n).0, p) + returned_tally(monasteries_endgame(b, k, n).1, p) == board_tally(b, p),
    decreases n - k,
{
    if k < n && k < b.monasteries.len() {
        let rec = b.monasteries[k as int].1;
        match rec.owner {
            Some(o) => {
                let b2 = clear_monastery(b, k as int);
                lemma_clear_monastery_wf(b, k as int);
                lemma_tally_monasteries_endgame(b2, k + 1, n, p);
                lemma_tally_clear_monastery(b, k as int, o, p);
                let e = monastery_event(o, (1 + rec.neighbor_count) as u32);
                let rest = monasteries_endgame(b2, k + 1, n);
                lemma_returned_cons(e, rest.1, p);
                assert(seq![o].drop_last() =~= Seq::<PlayerId>::empty());
                assert(count_of(seq![o].drop_last(), p) == 0);
                assert(seq![o].last() == o);
            },
            None => {
                lemma_tally_monasteries_endgame(b, k + 1, n, p);
            },
        }
    }
}

/// Scoring farms sends home exactly the followers the events name.
pub proof fn lemma_tally_farms(b: BoardModel, rs: Seq<NodeView>, k: nat, p: PlayerId)
    requires
        board_wf(b),
        forall|j: int| k <= j < rs.len() ==> has_key(b.features, (#[trigger] rs[j]).key),
    ensures
        board_wf(farms_from(b, rs, k).0),
        board_tally(farms_from(b, rs, k).0, p) + returned_tally(farms_from(b, rs, k).1, p)
            + count_of(farm_strays(b, rs, k), p) == board_tally(b, p),
    decreases rs.len() - k,
{
    if k < rs.len() {
        let r = rs[k as int].key;
        assert(has_key(b.features, r));
        let info = feature_info(b.features, r);
        if info.meeples.len() == 0 {
            lemma_tally_farms(b, rs, k + 1, p);
        } else {
            match farm_event(crate::domain::board::farm_cities(b, r).len() as u32, info.meeples) {
                None => {
                    if info.kind == EdgeKind::Field {
                        let b2 = collect_feature(b, r);
                        lemma_collect_feature_wf(b, r);
                        assert forall|j: int| k + 1 <= j < rs.len() implies has_key(b2.features, (#[trigger] rs[j]).key) by {
                            assert(has_key(b.features, rs[j].key));
                        }
                        lemma_tally_farms(b2, rs, k + 1, p);
                        lemma_tally_collect_feature(b, r, p);
                        lemma_count_concat(info.meeples, farm_strays(b2, rs, k + 1), p);
                    } else {
                        lemma_tally_farms(b, rs, k + 1, p);
                    }
                },
                Some(e) => {
                    let b2 = collect_feature(b, r);
                    lemma_collect_feature_wf(b, r);
                    assert forall|j: int| k + 1 <= j < rs.len() implies has_key(b2.features, (#[trigger] rs[j]).key) by {
                        assert(has_key(b.features, rs[j].key));
                    }
                    lemma_tally_farms(b2, rs, k + 1, p);
                    lemma_tally_collect_feature(b, r, p);
                    let rest = farms_from(b2, rs, k + 1);
                    lemma_returned_cons(e, rest.1, p);
                },
            }
        }
    }
}

/// End-of-game scoring takes off the board exactly the followers its events
/// send home and those it sends home with no event.
pub proof fn lemma_tally_endgame(b: BoardModel, p: PlayerId)
    requires
        board_wf(b),
    ensures
        board_wf(spec_endgame(b).0),
        board_tally(spec_endgame(b).0, p) + returned_tally(spec_endgame(b).1, p)
            + count_of(endgame_strays(b), p) == board_tally(b, p),
{
    let rs = root_nodes(b.features);
    lemma_root_nodes_distinct(b.features);
    lemma_root_nodes_current(b.features);
    lemma_tally_incomplete(b, rs, 0, p);
    let s1 = incomplete_from(b, rs, 0);
    lemma_tally_monasteries_endgame(s1.0, 0, s1.0.monasteries.len(), p);
    let s2 = monasteries_endgame(s1.0, 0, s1.0.monasteries.len());
    let rs2 = root_nodes(s2.0.features);
    crate::domain::feature::lemma_root_nodes_bounds(s2.0.features);
    lemma_tally_farms(s2.0, rs2, 0, p);
    let s3 = farms_from(s2.0, rs2, 0);
    lemma_returned_concat(s1.1, s2.1, p);
    lemma_returned_concat(s1.1 + s2.1, s3.1, p);
}

} // verus!
