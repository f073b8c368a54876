use vstd::prelude::*;

use crate::domain::board::{
    board_wf, clear_monastery, collect_feature, farm_cities, farms_from, incomplete_from,
    lemma_clear_monastery_wf, lemma_collect_feature_wf, monasteries_endgame, spec_endgame, BoardModel,
    MonasteryRecord, Pos,
};
use crate::domain::closure::{
    clear_if_closed, closed_clear, lemma_clear_monastery_linked, lemma_collect_linked, lemma_empty_tally_zero,
    lemma_linked_empty, lemma_monasteries_free_tally, list_linked,
};
use crate::domain::feature::{
    feature_info, has_key, index_of_key, lemma_collect_info, lemma_root_index, lemma_root_nodes_complete,
    root_nodes, root_of, InfoView, NodeView, PlayerId, SegmentRef,
};
use crate::domain::scoring::{farm_event, incomplete_event, monastery_event, EventView, FeatureKind};
use crate::domain::tally::{board_tally, lemma_root_nodes_current, lemma_root_nodes_distinct};
use crate::domain::tile::EdgeKind;

verus! {

/// A feature that may still hold followers once the game is scored: one
/// holding none, or a finished road or city.
pub open spec fn settled(info: InfoView) -> bool {
    info.meeples.len() == 0 || (info.kind != EdgeKind::Field && info.open_count == 0)
}

/// `r` heads its own feature on board `b`.
pub open spec fn heads(b: BoardModel, r: SegmentRef) -> bool {
    has_key(b.features, r) && root_of(b.features, r) == r
}

/// The monastery step from record `k` to `n`: those records lose their
/// followers; the features and the other records stay as they were.
proof fn lemma_monasteries_settle(b: BoardModel, k: nat, n: nat)
    requires
        board_wf(b),
        n <= b.monasteries.len(),
    ensures
        board_wf(monasteries_endgame(b, k, n).0),
        monasteries_endgame(b, k, n).0.features == b.features,
        monasteries_endgame(b, k, n).0.monasteries.len() == b.monasteries.len(),
        forall|j: int| k <= j < n ==> (#[trigger] monasteries_endgame(b, k, n).0.monasteries[j]).1.owner is None,
        forall|j: int| 0 <= j < b.monasteries.len() && !(k <= j < n)
            ==> #[trigger] monasteries_endgame(b, k, n).0.monasteries[j] == b.monasteries[j],
    decreases n - k,
{
    if k < n && k < b.monasteries.len() {
        let rec = b.monasteries[k as int].1;
        match rec.owner {
            Some(o) => {
                let b2 = clear_monastery(b, k as int);
                lemma_clear_monastery_wf(b, k as int);
                lemma_monasteries_settle(b2, k + 1, n);
            },
            None => {
                lemma_monasteries_settle(b, k + 1, n);
            },
        }
    }
}

proof fn lemma_listed(b: BoardModel, r: SegmentRef)
    requires
        board_wf(b),
        heads(b, r),
    ensures
        exists|j: int| 0 <= j < root_nodes(b.features).len() && (#[trigger] root_nodes(b.features)[j]).key == r,
{
    lemma_root_index(b.features, r);
    lemma_root_nodes_complete(b.features, index_of_key(b.features, r));
}

/// The farm step from place `k` on, for the feature headed by `r` and the
/// segment `x`: the feature keeps its terrain and open edges and at most
/// loses its followers; it loses them if it is a farm listed at `j0`; it
/// stays as it was if it is not listed; `x` keeps its root.
proof fn lemma_farms_key(b: BoardModel, rs: Seq<NodeView>, k: nat, r: SegmentRef, j0: int, x: SegmentRef)
    requires
        board_wf(b),
        forall|j: int| k <= j < rs.len() ==> #[trigger] heads(b, rs[j].key),
        forall|a: int, c: int| k <= a < rs.len() && k <= c < rs.len() && a != c ==> rs[a].key != rs[c].key,
        heads(b, r),
        has_key(b.features, x),
    ensures
        ({
            let f = farms_from(b, rs, k).0;
            let i0 = feature_info(b.features, r);
            let i1 = feature_info(f.features, r);
            &&& board_wf(f)
            &&& f.monasteries == b.monasteries
            &&& heads(f, r)
            &&& has_key(f.features, x) && root_of(f.features, x) == root_of(b.features, x)
            &&& i1.kind == i0.kind && i1.open_count == i0.open_count
            &&& (i1.meeples == i0.meeples || i1.meeples.len() == 0)
            &&& ((forall|j: int| k <= j < rs.len() ==> #[trigger] rs[j].key != r) ==> i1 == i0)
            &&& (k <= j0 < rs.len() && rs[j0].key == r && i0.kind == EdgeKind::Field ==> i1.meeples.len() == 0)
        }),
    decreases rs.len() - k,
{
    if k < rs.len() {
        let r0 = rs[k as int].key;
        assert(heads(b, r0));
        let info = feature_info(b.features, r0);
        let collects = info.meeples.len() != 0 && (farm_event(farm_cities(b, r0).len() as u32, info.meeples) is Some
            || info.kind == EdgeKind::Field);
        let b2 = if collects { collect_feature(b, r0) } else { b };
        if collects {
            lemma_collect_feature_wf(b, r0);
            lemma_collect_info(b.features, r0, r);
            lemma_collect_info(b.features, r0, r0);
        }
        assert forall|j: int| k + 1 <= j < rs.len() implies #[trigger] heads(b2, rs[j].key) by {
            assert(heads(b, rs[j].key));
        }
        assert(heads(b2, r));
        lemma_farms_key(b2, rs, k + 1, r, j0, x);
        if j0 == k && rs[j0].key == r {
            assert(forall|j: int| k + 1 <= j < rs.len() ==> #[trigger] rs[j].key != r);
        }
        if forall|j: int| k <= j < rs.len() ==> #[trigger] rs[j].key != r {
            assert(rs[k as int].key != r);
            assert(forall|j: int| k + 1 <= j < rs.len() ==> #[trigger] rs[j].key != r);
        }
    }
}

/// The last step of the final scoring, seen from segment `k`: its feature
/// keeps its terrain and open edges, at most loses its followers, and holds
/// none if it is a farm.
proof fn lemma_farms_at(b: BoardModel, k: SegmentRef)
    requires
        board_wf(b),
        has_key(b.features, k),
    ensures
        ({
            let f = farms_from(b, root_nodes(b.features), 0).0;
            let r = root_of(b.features, k);
            let i0 = feature_info(b.features, r);
            let i1 = feature_info(f.features, r);
            &&& has_key(f.features, k)
            &&& root_of(f.features, k) == r
            &&& root_of(f.features, r) == r
            &&& i1.kind == i0.kind && i1.open_count == i0.open_count
            &&& (i1.meeples == i0.meeples || i1.meeples.len() == 0)
            &&& (i0.kind == EdgeKind::Field ==> i1.meeples.len() == 0)
            &&& f.monasteries == b.monasteries
        }),
{
    let rs = root_nodes(b.features);
    lemma_root_nodes_distinct(b.features);
    lemma_root_nodes_current(b.features);
    assert forall|j: int| 0 <= j < rs.len() implies #[trigger] heads(b, rs[j].key) by {
        lemma_root_index(b.features, rs[j].key);
    }
    let r = root_of(b.features, k);
    lemma_root_index(b.features, k);
    lemma_listed(b, r);
    let j = choose|j: int| 0 <= j < rs.len() && (#[trigger] rs[j]).key == r;
    lemma_farms_key(b, rs, 0, r, j, k);
}


/// The step for unfinished roads and cities from place `k` on, for the
/// feature headed by `r` and the segment `x`: the feature keeps its terrain
/// and open edges and at most loses its followers; if it is an unfinished
/// road or city listed at `j0` it loses them; `x` keeps its root.
proof fn lemma_incomplete_key(b: BoardModel, rs: Seq<NodeView>, k: nat, r: SegmentRef, j0: int, x: SegmentRef)
    requires
        board_wf(b),
        forall|j: int| k <= j < rs.len() ==> #[trigger] heads(b, rs[j].key),
        forall|j: int| k <= j < rs.len() ==> #[trigger] feature_info(b.features, rs[j].key) == rs[j].info,
        forall|a: int, c: int| k <= a < rs.len() && k <= c < rs.len() && a != c ==> rs[a].key != rs[c].key,
        heads(b, r),
        has_key(b.features, x),
    ensures
        ({
            let f = incomplete_from(b, rs, k).0;
            let i0 = feature_info(b.features, r);
            let i1 = feature_info(f.features, r);
            &&& board_wf(f)
            &&& f.monasteries == b.monasteries
            &&& heads(f, r)
            &&& has_key(f.features, x) && root_of(f.features, x) == root_of(b.features, x)
            &&& i1.kind == i0.kind && i1.open_count == i0.open_count
            &&& (i1.meeples == i0.meeples || i1.meeples.len() == 0)
            &&& (k <= j0 < rs.len() && rs[j0].key == r && i0.kind != EdgeKind::Field && i0.open_count != 0
                ==> i1.meeples.len() == 0)
        }),
    decreases rs.len() - k,
{
    if k < rs.len() {
        let n = rs[k as int];
        let r0 = n.key;
        assert(heads(b, r0));
        let collects = n.info.kind != EdgeKind::Field && n.info.open_count != 0 && incomplete_event(n.info) is Some;
        let b2 = if collects { collect_feature(b, r0) } else { b };
        if collects {
            lemma_collect_feature_wf(b, r0);
            lemma_collect_info(b.features, r0, r);
            lemma_collect_info(b.features, r0, r0);
        }
        assert forall|j: int| k + 1 <= j < rs.len() implies #[trigger] heads(b2, rs[j].key) by {
            assert(heads(b, rs[j].key));
        }
        assert forall|j: int| k + 1 <= j < rs.len() implies #[trigger] feature_info(b2.features, rs[j].key) == rs[j].info by {
            assert(heads(b, rs[j].key));
            assert(feature_info(b.features, rs[j].key) == rs[j].info);
            assert(rs[j].key != r0);
            if collects {
                lemma_collect_info(b.features, r0, rs[j].key);
            }
        }
        assert(heads(b2, r));
        lemma_incomplete_key(b2, rs, k + 1, r, j0, x);
        if j0 == k && rs[j0].key == r {
            assert(feature_info(b.features, r) == n.info);
        }
    }
}

proof fn lemma_monasteries_kept(b: BoardModel, rs: Seq<NodeView>, k: nat)
    requires
        board_wf(b),
        forall|j: int| k <= j < rs.len() ==> #[trigger] heads(b, rs[j].key),
    ensures
        farms_from(b, rs, k).0.monasteries == b.monasteries,
        board_wf(farms_from(b, rs, k).0),
        forall|x: SegmentRef| #[trigger] has_key(farms_from(b, rs, k).0.features, x) == has_key(b.features, x),
    decreases rs.len() - k,
{
    if k < rs.len() {
        let r0 = rs[k as int].key;
        assert(heads(b, r0));
        let info = feature_info(b.features, r0);
        let collects = info.meeples.len() != 0 && (farm_event(farm_cities(b, r0).len() as u32, info.meeples) is Some
            || info.kind == EdgeKind::Field);
        let b2 = if collects { collect_feature(b, r0) } else { b };
        if collects {
            lemma_collect_feature_wf(b, r0);
        }
        assert forall|j: int| k + 1 <= j < rs.len() implies #[trigger] heads(b2, rs[j].key) by {
            assert(heads(b, rs[j].key));
        }
        lemma_monasteries_kept(b2, rs, k + 1);
    }
}

proof fn lemma_key_settled(b: BoardModel, k: SegmentRef)
    requires
        board_wf(b),
        has_key(b.features, k),
    ensures
        settled(feature_info(spec_endgame(b).0.features, k)),
        has_key(spec_endgame(b).0.features, k),
        ({
            let i0 = feature_info(b.features, k);
            let i2 = feature_info(spec_endgame(b).0.features, k);
            &&& i2.kind == i0.kind
            &&& i2.open_count == i0.open_count
            &&& (i2.meeples == i0.meeples || i2.meeples.len() == 0)
        }),
{
    let rs = root_nodes(b.features);
    lemma_root_nodes_distinct(b.features);
    lemma_root_nodes_current(b.features);
    assert forall|j: int| 0 <= j < rs.len() implies #[trigger] heads(b, rs[j].key) by {
        lemma_root_index(b.features, rs[j].key);
    }
    assert forall|j: int| 0 <= j < rs.len() implies #[trigger] feature_info(b.features, rs[j].key) == rs[j].info by {
        lemma_root_index(b.features, rs[j].key);
    }
    let r = root_of(b.features, k);
    lemma_root_index(b.features, k);
    lemma_listed(b, r);
    let j = choose|j: int| 0 <= j < rs.len() && (#[trigger] rs[j]).key == r;
    lemma_incomplete_key(b, rs, 0, r, j, k);
    let s1 = incomplete_from(b, rs, 0).0;
    lemma_monasteries_settle(s1, 0, s1.monasteries.len());
    let s2 = monasteries_endgame(s1, 0, s1.monasteries.len()).0;
    assert(s2.features == s1.features);
    assert(root_of(s2.features, k) == r);
    lemma_farms_at(s2, k);
    let f = farms_from(s2, root_nodes(s2.features), 0).0;
    assert(f == spec_endgame(b).0);
    assert(feature_info(f.features, k) == feature_info(f.features, r));
    assert(feature_info(b.features, k) == feature_info(b.features, r));
    assert(feature_info(s2.features, r) == feature_info(s1.features, r));
}

/// Once the game is scored, no farm, monastery or unfinished road or city
/// holds a follower: the only followers left stand on finished roads and
/// cities whose scoring never ran.
pub proof fn lemma_endgame_settles(b: BoardModel)
    requires
        board_wf(b),
    ensures
        forall|k: SegmentRef| has_key(b.features, k) ==> settled(#[trigger] feature_info(spec_endgame(b).0.features, k)),
        forall|j: int| 0 <= j < spec_endgame(b).0.monasteries.len() ==> (#[trigger] spec_endgame(b).0.monasteries[j]).1.owner is None,
{
    assert forall|k: SegmentRef| has_key(b.features, k) implies settled(#[trigger] feature_info(spec_endgame(b).0.features, k)) by {
        lemma_key_settled(b, k);
    }
    let rs = root_nodes(b.features);
    lemma_root_nodes_distinct(b.features);
    lemma_root_nodes_current(b.features);
    assert forall|j: int| 0 <= j < rs.len() implies #[trigger] heads(b, rs[j].key) by {
        lemma_root_index(b.features, rs[j].key);
    }
    assert forall|j: int| 0 <= j < rs.len() implies #[trigger] feature_info(b.features, rs[j].key) == rs[j].info by {
        lemma_root_index(b.features, rs[j].key);
    }
    let s1 = incomplete_from(b, rs, 0).0;
    lemma_incomplete_monasteries(b, rs, 0);
    lemma_monasteries_settle(s1, 0, s1.monasteries.len());
    let s2 = monasteries_endgame(s1, 0, s1.monasteries.len()).0;
    let rs2 = root_nodes(s2.features);
    lemma_root_nodes_current(s2.features);
    assert forall|j: int| 0 <= j < rs2.len() implies #[trigger] heads(s2, rs2[j].key) by {
        lemma_root_index(s2.features, rs2[j].key);
    }
    lemma_monasteries_kept(s2, rs2, 0);
}

proof fn lemma_incomplete_monasteries(b: BoardModel, rs: Seq<NodeView>, k: nat)
    requires
        board_wf(b),
        forall|j: int| k <= j < rs.len() ==> #[trigger] heads(b, rs[j].key),
    ensures
        board_wf(incomplete_from(b, rs, k).0),
        incomplete_from(b, rs, k).0.monasteries == b.monasteries,
        forall|x: SegmentRef| #[trigger] has_key(incomplete_from(b, rs, k).0.features, x) == has_key(b.features, x),
    decreases rs.len() - k,
{
    if k < rs.len() {
        let n = rs[k as int];
        assert(heads(b, n.key));
        let collects = n.info.kind != EdgeKind::Field && n.info.open_count != 0 && incomplete_event(n.info) is Some;
        let b2 = if collects { collect_feature(b, n.key) } else { b };
        if collects {
            lemma_collect_feature_wf(b, n.key);
        }
        assert forall|j: int| k + 1 <= j < rs.len() implies #[trigger] heads(b2, rs[j].key) by {
            assert(heads(b, rs[j].key));
        }
        lemma_incomplete_monasteries(b2, rs, k + 1);
    }
}

/// The final-scoring events of the unfinished roads and cities among the
/// features headed by `rs[k..]`, in that order: one for each such feature
/// holding followers.
pub open spec fn unfinished_events(rs: Seq<NodeView>, k: nat) -> Seq<EventView>
    decreases rs.len() - k,
{
    if k >= rs.len() {
        Seq::empty()
    } else {
        let info = rs[k as int].info;
        let here = if info.kind != EdgeKind::Field && info.open_count != 0 && info.meeples.len() > 0 {
            seq![incomplete_event(info).unwrap()]
        } else {
            Seq::empty()
        };
        here + unfinished_events(rs, k + 1)
    }
}

/// The final-scoring events of the monasteries recorded at `ms[k..]`, in
/// record order: one for each monastery with a follower on it, worth one point
/// and one more for each filled cell around it.
pub open spec fn occupied_monastery_events(ms: Seq<(Pos, MonasteryRecord)>, k: nat) -> Seq<EventView>
    decreases ms.len() - k,
{
    if k >= ms.len() {
        Seq::empty()
    } else {
        let rec = ms[k as int].1;
        let here = match rec.owner {
            Some(o) => seq![monastery_event(o, (1 + rec.neighbor_count) as u32)],
            None => Seq::empty(),
        };
        here + occupied_monastery_events(ms, k + 1)
    }
}

proof fn lemma_unfinished_events(b: BoardModel, rs: Seq<NodeView>, k: nat)
    ensures
        incomplete_from(b, rs, k).1 == unfinished_events(rs, k),
    decreases rs.len() - k,
{
    if k < rs.len() {
        let n = rs[k as int];
        let b2 = if n.info.kind != EdgeKind::Field && n.info.open_count != 0 && incomplete_event(n.info) is Some {
            collect_feature(b, n.key)
        } else {
            b
        };
        lemma_unfinished_events(b2, rs, k + 1);
        if n.info.kind != EdgeKind::Field && n.info.open_count != 0 && n.info.meeples.len() > 0 {
            assert(incomplete_event(n.info) is Some);
        } else {
            assert(Seq::<EventView>::empty() + unfinished_events(rs, k + 1) =~= unfinished_events(rs, k + 1));
        }
    }
}

proof fn lemma_occupied_tail(a: Seq<(Pos, MonasteryRecord)>, c: Seq<(Pos, MonasteryRecord)>, k: nat)
    requires
        a.len() == c.len(),
        forall|j: int| k <= j < a.len() ==> a[j] == c[j],
    ensures
        occupied_monastery_events(a, k) == occupied_monastery_events(c, k),
    decreases a.len() - k,
{
    if k < a.len() {
        lemma_occupied_tail(a, c, k + 1);
    }
}

proof fn lemma_monastery_events(b: BoardModel, k: nat)
    ensures
        monasteries_endgame(b, k, b.monasteries.len()).1 == occupied_monastery_events(b.monasteries, k),
    decreases b.monasteries.len() - k,
{
    if k < b.monasteries.len() {
        let rec = b.monasteries[k as int].1;
        match rec.owner {
            Some(o) => {
                let b2 = clear_monastery(b, k as int);
                lemma_monastery_events(b2, k + 1);
                lemma_occupied_tail(b2.monasteries, b.monasteries, k + 1);
            },
            None => {
                lemma_monastery_events(b, k + 1);
                assert(Seq::<EventView>::empty() + occupied_monastery_events(b.monasteries, k + 1)
                    =~= occupied_monastery_events(b.monasteries, k + 1));
            },
        }
    }
}

proof fn lemma_farm_events(b: BoardModel, rs: Seq<NodeView>, k: nat)
    ensures
        forall|j: int| 0 <= j < farms_from(b, rs, k).1.len() ==> (#[trigger] farms_from(b, rs, k).1[j]).kind == FeatureKind::Farm,
    decreases rs.len() - k,
{
    if k < rs.len() {
        let r = rs[k as int].key;
        let info = feature_info(b.features, r);
        lemma_farm_events(b, rs, k + 1);
        lemma_farm_events(collect_feature(b, r), rs, k + 1);
    }
}

/// What the final scoring hands out, in order: one event for each unfinished
/// road or city holding followers (in the order the features are listed),
/// then one for each occupied monastery (in record order), then farm events
/// only.
pub proof fn lemma_endgame_events(b: BoardModel)
    requires
        board_wf(b),
    ensures
        ({
            let evs = spec_endgame(b).1;
            let u = unfinished_events(root_nodes(b.features), 0);
            let m = occupied_monastery_events(b.monasteries, 0);
            &&& u.len() + m.len() <= evs.len()
            &&& evs.take(u.len() as int) == u
            &&& evs.subrange(u.len() as int, (u.len() + m.len()) as int) == m
            &&& forall|j: int| u.len() + m.len() <= j < evs.len() ==> (#[trigger] evs[j]).kind == FeatureKind::Farm
        }),
{
    let rs = root_nodes(b.features);
    lemma_root_nodes_current(b.features);
    assert forall|j: int| 0 <= j < rs.len() implies #[trigger] heads(b, rs[j].key) by {
        lemma_root_index(b.features, rs[j].key);
    }
    let s1 = incomplete_from(b, rs, 0);
    lemma_unfinished_events(b, rs, 0);
    lemma_incomplete_monasteries(b, rs, 0);
    let s2 = monasteries_endgame(s1.0, 0, s1.0.monasteries.len());
    lemma_monastery_events(s1.0, 0);
    let s3 = farms_from(s2.0, root_nodes(s2.0.features), 0);
    lemma_farm_events(s2.0, root_nodes(s2.0.features), 0);
    let evs = spec_endgame(b).1;
    assert(evs == s1.1 + s2.1 + s3.1);
    assert(evs.take(s1.1.len() as int) =~= s1.1);
    assert(evs.subrange(s1.1.len() as int, (s1.1.len() + s2.1.len()) as int) =~= s2.1);
    assert forall|j: int| s1.1.len() + s2.1.len() <= j < evs.len() implies (#[trigger] evs[j]).kind == FeatureKind::Farm by {
        assert(evs[j] == s3.1[j - s1.1.len() - s2.1.len()]);
    }
}

proof fn lemma_incomplete_linked(b: BoardModel, rs: Seq<NodeView>, k: nat)
    requires
        board_wf(b),
        list_linked(b),
        forall|j: int| k <= j < rs.len() ==> #[trigger] heads(b, rs[j].key),
    ensures
        list_linked(incomplete_from(b, rs, k).0),
    decreases rs.len() - k,
{
    if k < rs.len() {
        let n = rs[k as int];
        assert(heads(b, n.key));
        let collects = n.info.kind != EdgeKind::Field && n.info.open_count != 0 && incomplete_event(n.info) is Some;
        let b2 = if collects { collect_feature(b, n.key) } else { b };
        if collects {
            lemma_collect_feature_wf(b, n.key);
            lemma_collect_linked(b, n.key);
        }
        assert forall|j: int| k + 1 <= j < rs.len() implies #[trigger] heads(b2, rs[j].key) by {
            assert(heads(b, rs[j].key));
        }
        lemma_incomplete_linked(b2, rs, k + 1);
    }
}

proof fn lemma_monasteries_linked(b: BoardModel, k: nat, n: nat)
    requires
        board_wf(b),
        list_linked(b),
    ensures
        list_linked(monasteries_endgame(b, k, n).0),
    decreases n - k,
{
    if k < n && k < b.monasteries.len() {
        let rec = b.monasteries[k as int].1;
        match rec.owner {
            Some(o) => {
                lemma_clear_monastery_wf(b, k as int);
                lemma_clear_monastery_linked(b, k as int);
                lemma_monasteries_linked(clear_monastery(b, k as int), k + 1, n);
            },
            None => lemma_monasteries_linked(b, k + 1, n),
        }
    }
}

proof fn lemma_farms_linked(b: BoardModel, rs: Seq<NodeView>, k: nat)
    requires
        board_wf(b),
        list_linked(b),
        forall|j: int| k <= j < rs.len() ==> #[trigger] heads(b, rs[j].key),
    ensures
        list_linked(farms_from(b, rs, k).0),
    decreases rs.len() - k,
{
    if k < rs.len() {
        let r0 = rs[k as int].key;
        assert(heads(b, r0));
        let info = feature_info(b.features, r0);
        let collects = info.meeples.len() != 0 && (farm_event(farm_cities(b, r0).len() as u32, info.meeples) is Some
            || info.kind == EdgeKind::Field);
        let b2 = if collects { collect_feature(b, r0) } else { b };
        if collects {
            lemma_collect_feature_wf(b, r0);
            lemma_collect_linked(b, r0);
        }
        assert forall|j: int| k + 1 <= j < rs.len() implies #[trigger] heads(b2, rs[j].key) by {
            assert(heads(b, rs[j].key));
        }
        lemma_farms_linked(b2, rs, k + 1);
    }
}

/// A board on which no finished road or city holds a follower is left with
/// none at all once the game is scored: every follower has gone home.
pub proof fn lemma_endgame_home(b: BoardModel, p: PlayerId)
    requires
        board_wf(b),
        closed_clear(b),
    ensures
        board_tally(spec_endgame(b).0, p) == 0,
        closed_clear(spec_endgame(b).0),
        list_linked(b) ==> list_linked(spec_endgame(b).0) && spec_endgame(b).0.meeples.len() == 0,
{
    let f = spec_endgame(b).0;
    lemma_endgame_settles(b);
    let rs = root_nodes(b.features);
    lemma_root_nodes_current(b.features);
    assert forall|j: int| 0 <= j < rs.len() implies #[trigger] heads(b, rs[j].key) by {
        lemma_root_index(b.features, rs[j].key);
    }
    let s1 = incomplete_from(b, rs, 0).0;
    lemma_incomplete_monasteries(b, rs, 0);
    lemma_monasteries_settle(s1, 0, s1.monasteries.len());
    let s2 = monasteries_endgame(s1, 0, s1.monasteries.len()).0;
    let rs2 = root_nodes(s2.features);
    lemma_root_nodes_current(s2.features);
    assert forall|j: int| 0 <= j < rs2.len() implies #[trigger] heads(s2, rs2[j].key) by {
        lemma_root_index(s2.features, rs2[j].key);
    }
    lemma_monasteries_kept(s2, rs2, 0);
    assert(f == farms_from(s2, rs2, 0).0);
    assert forall|k: SegmentRef| has_key(f.features, k) implies (#[trigger] feature_info(f.features, k)).meeples.len() == 0 by {
        assert(has_key(s2.features, k));
        assert(has_key(b.features, k));
        lemma_key_settled(b, k);
        assert(clear_if_closed(feature_info(b.features, k)));
    }
    lemma_empty_tally_zero(f.features, p);
    lemma_monasteries_free_tally(f.monasteries, p);
    assert forall|k: SegmentRef| has_key(f.features, k) implies #[trigger] clear_if_closed(feature_info(f.features, k)) by {
        assert(feature_info(f.features, k).meeples.len() == 0);
    }
    if list_linked(b) {
        lemma_incomplete_linked(b, rs, 0);
        lemma_monasteries_linked(s1, 0, s1.monasteries.len());
        lemma_farms_linked(s2, rs2, 0);
        lemma_linked_empty(f);
    }
}

} // verus!
