use vstd::arithmetic::power2::{lemma2_to64, lemma_pow2_strictly_increases, lemma_pow2_unfold, pow2};
use vstd::prelude::*;

use crate::domain::board::Pos;
use crate::domain::scoring::copy_ids;
use crate::domain::tile::{
    rotation_ok, side_at, side_index, spec_edge, spec_segment, EdgeKind, PlacedTile, Side,
};

verus! {

pub type PlayerId = u8;

/// A segment of one placed tile: the tile's cell and the segment number.
pub type SegmentRef = (Pos, u8);

#[derive(Debug, Clone, Copy, PartialEq, Eq, Structural)]
pub enum MeepleError {
    FeatureOccupied,
}

/// What is known of a connected feature: its terrain, how many of its edges
/// still face an empty cell, how many segments and shields it spans, and the
/// followers standing on it.
#[derive(Debug, Clone, PartialEq, Eq)]
pub struct FeatureInfo {
    pub kind: EdgeKind,
    pub open_count: u32,
    pub tiles: u32,
    pub shields: u32,
    pub meeples: Vec<PlayerId>,
}

pub struct InfoView {
    pub kind: EdgeKind,
    pub open_count: u32,
    pub tiles: u32,
    pub shields: u32,
    pub meeples: Seq<PlayerId>,
}

impl View for FeatureInfo {
    type V = InfoView;

    open spec fn view(&self) -> InfoView {
        InfoView {
            kind: self.kind,
            open_count: self.open_count,
            tiles: self.tiles,
            shields: self.shields,
            meeples: self.meeples@,
        }
    }
}

/// Segment references are equal when cell and segment number are.
pub fn seg_eq(a: SegmentRef, b: SegmentRef) -> (r: bool)
    ensures
        r == (a == b),
{
    a.0.0 == b.0.0 && a.0.1 == b.0.1 && a.1 == b.1
}

fn copy_info(info: &FeatureInfo) -> (r: FeatureInfo)
    ensures
        r@ == info@,
{
    FeatureInfo {
        kind: info.kind,
        open_count: info.open_count,
        tiles: info.tiles,
        shields: info.shields,
        meeples: copy_ids(info.meeples.as_slice()),
    }
}

// ---------------------------------------------------------------------------
// The model: a sequence of segment nodes. Every node names the root segment of
// the feature it belongs to; a root names itself and carries the feature's info.
// ---------------------------------------------------------------------------

pub struct NodeView {
    pub key: SegmentRef,
    pub parent: SegmentRef,
    pub rank: u8,
    pub info: InfoView,
}

/// The most segments a feature graph can hold while its counters stay in range.
pub const MAX_NODES: usize = 0x3fff_0000;

pub open spec fn has_key(ns: Seq<NodeView>, k: SegmentRef) -> bool {
    exists|i: int| 0 <= i < ns.len() && ns[i].key == k
}

pub open spec fn index_of_key(ns: Seq<NodeView>, k: SegmentRef) -> int {
    choose|i: int| 0 <= i < ns.len() && ns[i].key == k
}

pub open spec fn node_of(ns: Seq<NodeView>, k: SegmentRef) -> NodeView {
    ns[index_of_key(ns, k)]
}

/// The root segment of the feature that `k` belongs to.
pub open spec fn root_of(ns: Seq<NodeView>, k: SegmentRef) -> SegmentRef {
    node_of(ns, k).parent
}

/// What is known of the feature that `k` belongs to.
pub open spec fn feature_info(ns: Seq<NodeView>, k: SegmentRef) -> InfoView {
    node_of(ns, root_of(ns, k)).info
}

/// `k` heads its own feature.
pub open spec fn is_root(ns: Seq<NodeView>, k: SegmentRef) -> bool {
    has_key(ns, k) && root_of(ns, k) == k
}

pub open spec fn keys_distinct(ns: Seq<NodeView>) -> bool {
    forall|i: int, j: int| 0 <= i < ns.len() && 0 <= j < ns.len() && i != j ==> ns[i].key != ns[j].key
}

/// How many segments name `r` as their root.
pub open spec fn member_count(ns: Seq<NodeView>, r: SegmentRef) -> nat
    decreases ns.len(),
{
    if ns.len() == 0 {
        0
    } else {
        member_count(ns.drop_last(), r) + if ns.last().parent == r {
            1nat
        } else {
            0nat
        }
    }
}

pub open spec fn parent_ok(ns: Seq<NodeView>, i: int) -> bool {
    has_key(ns, ns[i].parent) && node_of(ns, ns[i].parent).parent == ns[i].parent
}

/// A root's counters agree with the segments it heads.
pub open spec fn root_ok(ns: Seq<NodeView>, i: int) -> bool {
    let n = ns[i];
    let m = member_count(ns, n.key);
    &&& n.info.tiles == m
    &&& n.info.open_count <= 4 * m
    &&& n.info.shields <= m
    &&& pow2(n.rank as nat) <= m
}

pub open spec fn graph_wf(ns: Seq<NodeView>) -> bool {
    &&& keys_distinct(ns)
    &&& ns.len() <= MAX_NODES
    &&& forall|i: int| 0 <= i < ns.len() ==> #[trigger] parent_ok(ns, i)
    &&& forall|i: int| 0 <= i < ns.len() && ns[i].parent == ns[i].key ==> #[trigger] root_ok(ns, i)
}

pub open spec fn sat_sub2(x: u32) -> u32 {
    if x >= 2 {
        (x - 2) as u32
    } else {
        0
    }
}

/// Merging the features of `a` and `b`: the root of lower rank joins the other
/// (`a`'s root absorbs on equal ranks, and then grows one rank); joining a
/// feature to itself closes two more edges.
pub open spec fn spec_union(ns: Seq<NodeView>, a: SegmentRef, b: SegmentRef) -> Seq<NodeView> {
    let ra = root_of(ns, a);
    let rb = root_of(ns, b);
    if ra == rb {
        let i = index_of_key(ns, ra);
        let n = ns[i];
        ns.update(
            i,
            NodeView { info: InfoView { open_count: sat_sub2(n.info.open_count), ..n.info }, ..n },
        )
    } else {
        let rank_a = node_of(ns, ra).rank;
        let rank_b = node_of(ns, rb).rank;
        let small = if rank_a < rank_b {
            ra
        } else {
            rb
        };
        let big = if rank_a < rank_b {
            rb
        } else {
            ra
        };
        let si = node_of(ns, small).info;
        let bi = index_of_key(ns, big);
        let bn = ns[bi];
        relabel(ns, small, big).update(
            bi,
            NodeView {
                rank: if rank_a == rank_b {
                    (bn.rank + 1) as u8
                } else {
                    bn.rank
                },
                info: InfoView {
                    kind: bn.info.kind,
                    open_count: sat_sub2((bn.info.open_count + si.open_count) as u32),
                    tiles: (bn.info.tiles + si.tiles) as u32,
                    shields: (bn.info.shields + si.shields) as u32,
                    meeples: bn.info.meeples + si.meeples,
                },
                ..bn
            },
        )
    }
}

/// Every segment headed by `from` is headed by `to` instead.
pub open spec fn relabel(ns: Seq<NodeView>, from: SegmentRef, to: SegmentRef) -> Seq<NodeView> {
    ns.map_values(|n: NodeView| if n.parent == from { NodeView { parent: to, ..n } } else { n })
}

/// The first side (clockwise from North) on which the tile shows segment `sid`.
pub open spec fn first_side_with(tile: PlacedTile, sid: u8) -> int {
    if spec_segment(tile, side_at(0)) == sid {
        0
    } else if spec_segment(tile, side_at(1)) == sid {
        1
    } else if spec_segment(tile, side_at(2)) == sid {
        2
    } else {
        3
    }
}

/// On how many sides the tile shows segment `sid`.
pub open spec fn sides_with(tile: PlacedTile, sid: u8) -> nat {
    (if spec_segment(tile, side_at(0)) == sid { 1nat } else { 0nat })
        + (if spec_segment(tile, side_at(1)) == sid { 1nat } else { 0nat })
        + (if spec_segment(tile, side_at(2)) == sid { 1nat } else { 0nat })
        + (if spec_segment(tile, side_at(3)) == sid { 1nat } else { 0nat })
}

/// The node a freshly placed segment starts as: its own feature, open on every
/// side it touches, one segment long, with the tile's shield if it is a city.
pub open spec fn fresh_node(pos: Pos, tile: PlacedTile, sid: u8) -> NodeView {
    let kind = spec_edge(tile, side_at(first_side_with(tile, sid)));
    NodeView {
        key: (pos, sid),
        parent: (pos, sid),
        rank: 0,
        info: InfoView {
            kind,
            open_count: sides_with(tile, sid) as u32,
            tiles: 1,
            shields: if tile.spec.shield && kind == EdgeKind::City {
                1
            } else {
                0
            },
            meeples: Seq::empty(),
        },
    }
}

/// The fresh nodes for the segments first met on sides `0..n`, in the order met.
pub open spec fn fresh_nodes(pos: Pos, tile: PlacedTile, n: nat) -> Seq<NodeView>
    decreases n,
{
    if n == 0 {
        Seq::empty()
    } else {
        let s = (n - 1) as int;
        let sid = spec_segment(tile, side_at(s));
        fresh_nodes(pos, tile, (n - 1) as nat) + if first_side_with(tile, sid) == s {
            seq![fresh_node(pos, tile, sid)]
        } else {
            Seq::empty()
        }
    }
}

/// Joining the tile's segment on each side `s..4` to the neighbouring segment, if any.
pub open spec fn unions_from(
    ns: Seq<NodeView>,
    pos: Pos,
    tile: PlacedTile,
    nbs: Seq<Option<SegmentRef>>,
    s: nat,
) -> Seq<NodeView>
    decreases 4 - s,
{
    if s >= 4 {
        ns
    } else {
        let next = match nbs[s as int] {
            Some(nb) => spec_union(ns, (pos, spec_segment(tile, side_at(s as int))), nb),
            None => ns,
        };
        unions_from(next, pos, tile, nbs, s + 1)
    }
}

/// The graph after a tile is added at `pos`, its side `s` touching segment `nbs[s]`.
pub open spec fn spec_add_tile(
    ns: Seq<NodeView>,
    pos: Pos,
    tile: PlacedTile,
    nbs: Seq<Option<SegmentRef>>,
) -> Seq<NodeView> {
    unions_from(ns + fresh_nodes(pos, tile, 4), pos, tile, nbs, 0)
}

/// Standing a follower of `owner` on the feature of `x`; refused when the
/// feature already holds one.
pub open spec fn spec_place_meeple(ns: Seq<NodeView>, x: SegmentRef, owner: PlayerId) -> Option<Seq<NodeView>> {
    let r = root_of(ns, x);
    let i = index_of_key(ns, r);
    let n = ns[i];
    if n.info.meeples.len() > 0 {
        None
    } else {
        Some(ns.update(i, NodeView { info: InfoView { meeples: seq![owner], ..n.info }, ..n }))
    }
}

/// Taking all followers off the feature of `x`.
pub open spec fn spec_collect(ns: Seq<NodeView>, x: SegmentRef) -> Seq<NodeView> {
    let r = root_of(ns, x);
    let i = index_of_key(ns, r);
    let n = ns[i];
    ns.update(i, NodeView { info: InfoView { meeples: Seq::empty(), ..n.info }, ..n })
}

/// The roots in node order.
pub open spec fn root_nodes(ns: Seq<NodeView>) -> Seq<NodeView>
    decreases ns.len(),
{
    if ns.len() == 0 {
        Seq::empty()
    } else {
        root_nodes(ns.drop_last()) + if ns.last().parent == ns.last().key {
            seq![ns.last()]
        } else {
            Seq::empty()
        }
    }
}

// ---------------------------------------------------------------------------
// Lemmas
// ---------------------------------------------------------------------------

pub proof fn lemma_index_of_key(ns: Seq<NodeView>, i: int)
    requires
        keys_distinct(ns),
        0 <= i < ns.len(),
    ensures
        has_key(ns, ns[i].key),
        index_of_key(ns, ns[i].key) == i,
        node_of(ns, ns[i].key) == ns[i],
{
    assert(has_key(ns, ns[i].key));
}

/// The root of a registered segment is registered and heads itself.
pub proof fn lemma_root_index(ns: Seq<NodeView>, x: SegmentRef)
    requires
        graph_wf(ns),
        has_key(ns, x),
    ensures
        has_key(ns, root_of(ns, x)),
        0 <= index_of_key(ns, root_of(ns, x)) < ns.len(),
        ns[index_of_key(ns, root_of(ns, x))].key == root_of(ns, x),
        ns[index_of_key(ns, root_of(ns, x))].parent == root_of(ns, x),
        root_of(ns, root_of(ns, x)) == root_of(ns, x),
{
    let i = index_of_key(ns, x);
    assert(parent_ok(ns, i));
    lemma_has_key_index(ns, ns[i].parent);
}

/// Sending followers home keeps the graph well formed and every segment in
/// its place and feature.
pub proof fn lemma_collect_props(ns: Seq<NodeView>, x: SegmentRef)
    requires
        graph_wf(ns),
        has_key(ns, x),
    ensures
        graph_wf(spec_collect(ns, x)),
        spec_collect(ns, x).len() == ns.len(),
        forall|i: int| 0 <= i < ns.len() ==> (#[trigger] spec_collect(ns, x)[i]).key == ns[i].key
            && spec_collect(ns, x)[i].parent == ns[i].parent,
        forall|k: SegmentRef| #[trigger] has_key(spec_collect(ns, x), k) == has_key(ns, k),
        forall|k: SegmentRef| has_key(ns, k) ==> #[trigger] root_of(spec_collect(ns, x), k) == root_of(ns, k),
{
    lemma_root_index(ns, x);
    let r = root_of(ns, x);
    let i = index_of_key(ns, r);
    let n = ns[i];
    let n2 = NodeView { info: InfoView { meeples: Seq::empty(), ..n.info }, ..n };
    lemma_update_info_wf(ns, i, n2);
    let res = spec_collect(ns, x);
    assert forall|k: SegmentRef| #[trigger] has_key(res, k) == has_key(ns, k) by {
        lemma_same_keys(ns, res, k);
    }
    assert forall|k: SegmentRef| has_key(ns, k) implies #[trigger] root_of(res, k) == root_of(ns, k) by {
        lemma_same_keys(ns, res, k);
    }
}

/// A feature's counters are bounded by the number of segments registered.
pub proof fn lemma_info_bounds(ns: Seq<NodeView>, x: SegmentRef)
    requires
        graph_wf(ns),
        has_key(ns, x),
    ensures
        feature_info(ns, x).tiles <= ns.len(),
        feature_info(ns, x).shields <= feature_info(ns, x).tiles,
        feature_info(ns, x).open_count <= 4 * feature_info(ns, x).tiles,
{
    lemma_root_index(ns, x);
    let i = index_of_key(ns, root_of(ns, x));
    assert(root_ok(ns, i));
    lemma_member_count_le(ns, root_of(ns, x));
}

pub proof fn lemma_has_key_index(ns: Seq<NodeView>, k: SegmentRef)
    requires
        has_key(ns, k),
    ensures
        0 <= index_of_key(ns, k) < ns.len(),
        ns[index_of_key(ns, k)].key == k,
{
}

/// Sending home the followers of `x`'s feature empties that feature and
/// leaves every other feature as it was.
pub proof fn lemma_collect_info(ns: Seq<NodeView>, x: SegmentRef, r: SegmentRef)
    requires
        graph_wf(ns),
        has_key(ns, x),
        has_key(ns, r),
    ensures
        feature_info(spec_collect(ns, x), r) == if root_of(ns, r) == root_of(ns, x) {
            InfoView { meeples: Seq::empty(), ..feature_info(ns, r) }
        } else {
            feature_info(ns, r)
        },
{
    lemma_collect_props(ns, x);
    lemma_root_index(ns, x);
    lemma_root_index(ns, r);
    let res = spec_collect(ns, x);
    lemma_same_keys(ns, res, root_of(ns, r));
}

/// Every node that heads its own feature is listed among the roots.
pub proof fn lemma_root_nodes_complete(ns: Seq<NodeView>, i: int)
    requires
        0 <= i < ns.len(),
        ns[i].parent == ns[i].key,
    ensures
        exists|j: int| 0 <= j < root_nodes(ns).len() && (#[trigger] root_nodes(ns)[j]).key == ns[i].key,
    decreases ns.len(),
{
    let pre = ns.drop_last();
    if i < ns.len() - 1 {
        assert(pre[i] == ns[i]);
        lemma_root_nodes_complete(pre, i);
        let j = choose|j: int| 0 <= j < root_nodes(pre).len() && (#[trigger] root_nodes(pre)[j]).key == pre[i].key;
        assert(root_nodes(ns)[j] == root_nodes(pre)[j]);
    } else {
        let j = root_nodes(pre).len() as int;
        assert(root_nodes(ns)[j] == ns.last());
    }
}

/// Every listed root is a node of the graph that heads its own feature.
pub proof fn lemma_root_nodes_props(ns: Seq<NodeView>)
    ensures
        root_nodes(ns).len() <= ns.len(),
        forall|j: int| 0 <= j < root_nodes(ns).len() ==> exists|i: int| 0 <= i < ns.len()
            && ns[i] == #[trigger] root_nodes(ns)[j] && ns[i].parent == ns[i].key,
    decreases ns.len(),
{
    if ns.len() > 0 {
        let pre = ns.drop_last();
        lemma_root_nodes_props(pre);
        let rs = root_nodes(ns);
        assert forall|j: int| 0 <= j < rs.len() implies exists|i: int| 0 <= i < ns.len()
            && ns[i] == #[trigger] rs[j] && ns[i].parent == ns[i].key by {
            if j < root_nodes(pre).len() {
                let i = choose|i: int| 0 <= i < pre.len() && pre[i] == #[trigger] root_nodes(pre)[j]
                    && pre[i].parent == pre[i].key;
                assert(ns[i] == pre[i]);
            } else {
                assert(ns[ns.len() - 1] == rs[j]);
            }
        }
    }
}

/// A root listed by `root_nodes` is registered, heads itself, and its
/// counters are bounded by the graph's size.
pub proof fn lemma_root_nodes_bounds(ns: Seq<NodeView>)
    requires
        graph_wf(ns),
    ensures
        forall|j: int| 0 <= j < root_nodes(ns).len() ==> #[trigger] has_key(ns, root_nodes(ns)[j].key),
        forall|j: int| 0 <= j < root_nodes(ns).len() ==> root_nodes(ns)[j].info.tiles <= MAX_NODES
            && root_nodes(ns)[j].info.tiles <= ns.len()
            && (#[trigger] root_nodes(ns)[j]).info.shields <= root_nodes(ns)[j].info.tiles,
        root_nodes(ns).len() <= ns.len(),
{
    lemma_root_nodes_props(ns);
    let rs = root_nodes(ns);
    assert forall|j: int| 0 <= j < rs.len() implies has_key(ns, (#[trigger] rs[j]).key)
        && rs[j].info.tiles <= MAX_NODES && rs[j].info.tiles <= ns.len() && rs[j].info.shields <= rs[j].info.tiles by {
        let i = choose|i: int| 0 <= i < ns.len() && ns[i] == #[trigger] rs[j] && ns[i].parent == ns[i].key;
        assert(root_ok(ns, i));
        lemma_member_count_le(ns, ns[i].key);
    }
}

/// Two node sequences with the same keys in the same places find every key at
/// the same index.
pub proof fn lemma_same_keys(a: Seq<NodeView>, b: Seq<NodeView>, k: SegmentRef)
    requires
        keys_distinct(a),
        a.len() == b.len(),
        forall|i: int| 0 <= i < a.len() ==> #[trigger] a[i].key == b[i].key,
    ensures
        keys_distinct(b),
        has_key(a, k) == has_key(b, k),
        has_key(a, k) ==> index_of_key(a, k) == index_of_key(b, k),
{
    assert forall|i: int, j: int| 0 <= i < b.len() && 0 <= j < b.len() && i != j implies b[i].key != b[j].key by {
        assert(a[i].key == b[i].key);
        assert(a[j].key == b[j].key);
    }
    if has_key(a, k) {
        let i = index_of_key(a, k);
        assert(b[i].key == k);
        lemma_index_of_key(a, i);
        lemma_index_of_key(b, i);
    }
    if has_key(b, k) {
        let i = index_of_key(b, k);
        assert(a[i].key == k);
    }
}

pub proof fn lemma_member_count_le(ns: Seq<NodeView>, r: SegmentRef)
    ensures
        member_count(ns, r) <= ns.len(),
    decreases ns.len(),
{
    if ns.len() > 0 {
        lemma_member_count_le(ns.drop_last(), r);
    }
}

pub proof fn lemma_member_count_append(a: Seq<NodeView>, b: Seq<NodeView>, r: SegmentRef)
    ensures
        member_count(a + b, r) == member_count(a, r) + member_count(b, r),
    decreases b.len(),
{
    if b.len() > 0 {
        assert((a + b).drop_last() =~= a + b.drop_last());
        lemma_member_count_append(a, b.drop_last(), r);
    } else {
        assert(a + b =~= a);
    }
}

/// A root counts itself among its members.
pub proof fn lemma_member_count_pos(ns: Seq<NodeView>, i: int)
    requires
        0 <= i < ns.len(),
    ensures
        member_count(ns, ns[i].parent) >= 1,
    decreases ns.len(),
{
    if i < ns.len() - 1 {
        lemma_member_count_pos(ns.drop_last(), i);
    }
}

/// Changing one node without changing whom it names as root keeps every count.
pub proof fn lemma_member_count_update(ns: Seq<NodeView>, i: int, n: NodeView, r: SegmentRef)
    requires
        0 <= i < ns.len(),
        n.parent == ns[i].parent,
    ensures
        member_count(ns.update(i, n), r) == member_count(ns, r),
    decreases ns.len(),
{
    if i < ns.len() - 1 {
        assert(ns.update(i, n).drop_last() =~= ns.drop_last().update(i, n));
        lemma_member_count_update(ns.drop_last(), i, n, r);
    } else {
        assert(ns.update(i, n).drop_last() =~= ns.drop_last());
    }
}

pub proof fn lemma_member_count_relabel(ns: Seq<NodeView>, from: SegmentRef, to: SegmentRef, r: SegmentRef)
    requires
        from != to,
    ensures
        member_count(relabel(ns, from, to), r) == if r == to {
            member_count(ns, to) + member_count(ns, from)
        } else if r == from {
            0
        } else {
            member_count(ns, r)
        },
    decreases ns.len(),
{
    if ns.len() > 0 {
        assert(relabel(ns, from, to).drop_last() =~= relabel(ns.drop_last(), from, to));
        lemma_member_count_relabel(ns.drop_last(), from, to, r);
    }
}

proof fn lemma_rank_bound(rank: u8, m: nat)
    requires
        pow2(rank as nat) <= m,
        m <= MAX_NODES,
    ensures
        rank <= 30,
{
    lemma2_to64();
    if rank > 30 {
        lemma_pow2_strictly_increases(30, rank as nat);
    }
}

/// Merging keeps the graph well formed.
pub proof fn lemma_union_wf(ns: Seq<NodeView>, a: SegmentRef, b: SegmentRef)
    requires
        graph_wf(ns),
        has_key(ns, a),
        has_key(ns, b),
    ensures
        graph_wf(spec_union(ns, a, b)),
        spec_union(ns, a, b).len() == ns.len(),
        forall|i: int| 0 <= i < ns.len() ==> #[trigger] spec_union(ns, a, b)[i].key == ns[i].key,
{
    let ra = root_of(ns, a);
    let rb = root_of(ns, b);
    let ia = index_of_key(ns, a);
    let ib = index_of_key(ns, b);
    assert(parent_ok(ns, ia));
    assert(parent_ok(ns, ib));
    let res = spec_union(ns, a, b);
    let xa = index_of_key(ns, ra);
    let xb = index_of_key(ns, rb);
    lemma_index_of_key(ns, xa);
    lemma_index_of_key(ns, xb);
    if ra == rb {
        let n = ns[xa];
        let n2 = NodeView { info: InfoView { open_count: sat_sub2(n.info.open_count), ..n.info }, ..n };
        assert(res == ns.update(xa, n2));
        assert forall|k: SegmentRef| #[trigger] has_key(res, k) == has_key(ns, k) && (has_key(ns, k) ==> index_of_key(res, k) == index_of_key(ns, k)) by {
            lemma_same_keys(ns, res, k);
        }
        assert forall|i: int| 0 <= i < res.len() implies #[trigger] parent_ok(res, i) by {
            assert(parent_ok(ns, i));
            let p = ns[i].parent;
            lemma_has_key_index(ns, p);
            lemma_same_keys(ns, res, p);
            let pi = index_of_key(ns, p);
            assert(res[i].parent == p);
            assert(res[pi].parent == ns[pi].parent);
        }
        assert forall|i: int| 0 <= i < res.len() && res[i].parent == res[i].key implies #[trigger] root_ok(res, i) by {
            assert(root_ok(ns, i));
            lemma_member_count_update(ns, xa, n2, res[i].key);
        }
    } else {
        let rank_a = node_of(ns, ra).rank;
        let rank_b = node_of(ns, rb).rank;
        let small = if rank_a < rank_b { ra } else { rb };
        let big = if rank_a < rank_b { rb } else { ra };
        let xs = index_of_key(ns, small);
        let bi = index_of_key(ns, big);
        let si = ns[xs].info;
        let bn = ns[bi];
        assert(ns[xs].parent == small);
        assert(ns[bi].parent == big);
        assert(root_ok(ns, xs));
        assert(root_ok(ns, bi));
        let rel = relabel(ns, small, big);
        let bn2 = NodeView {
            rank: if rank_a == rank_b { (bn.rank + 1) as u8 } else { bn.rank },
            info: InfoView {
                kind: bn.info.kind,
                open_count: sat_sub2((bn.info.open_count + si.open_count) as u32),
                tiles: (bn.info.tiles + si.tiles) as u32,
                shields: (bn.info.shields + si.shields) as u32,
                meeples: bn.info.meeples + si.meeples,
            },
            ..bn
        };
        assert(res == rel.update(bi, bn2));
        assert(rel[bi] == bn);
        let ms = member_count(ns, small);
        let mb = member_count(ns, big);
        assert(ms + mb <= ns.len()) by {
            lemma_member_count_relabel(ns, small, big, big);
            lemma_member_count_le(rel, big);
        }
        lemma_rank_bound(bn.rank, mb);
        assert(rank_a == rank_b ==> pow2((bn.rank + 1) as nat) <= ms + mb) by {
            if rank_a == rank_b {
                lemma_pow2_unfold((bn.rank + 1) as nat);
            }
        }
        assert forall|k: SegmentRef| #[trigger] has_key(res, k) == has_key(ns, k) && (has_key(ns, k) ==> index_of_key(res, k) == index_of_key(ns, k)) by {
            lemma_same_keys(ns, res, k);
        }
        assert forall|i: int| 0 <= i < res.len() implies #[trigger] parent_ok(res, i) by {
            assert(parent_ok(ns, i));
            lemma_has_key_index(ns, ns[i].parent);
            let p = ns[i].parent;
            let pi = index_of_key(ns, p);
            lemma_same_keys(ns, res, p);
            lemma_same_keys(ns, res, big);
            if p == small {
                assert(res[i].parent == big);
                assert(res[bi].parent == big);
            } else {
                assert(res[i].parent == p);
                assert(ns[pi].parent == p);
                if pi != bi {
                    assert(res[pi] == rel[pi]);
                }
            }
        }
        assert forall|i: int| 0 <= i < res.len() && res[i].parent == res[i].key implies #[trigger] root_ok(res, i) by {
            let k = res[i].key;
            lemma_member_count_update(rel, bi, bn2, k);
            lemma_member_count_relabel(ns, small, big, k);
            if i == bi {
            } else {
                assert(res[i] == rel[i]);
                if ns[i].parent == small {
                    assert(res[i].parent == big);
                    assert(ns[bi].key == big);
                } else {
                    assert(ns[i].parent == ns[i].key);
                    assert(root_ok(ns, i));
                    if k == small {
                        assert(ns[xs].key == small);
                        assert(i == xs);
                    }
                }
            }
        }
    }
}

/// Appending fresh root nodes under a cell no existing key uses keeps the
/// graph well formed.
pub proof fn lemma_append_fresh_wf(ns: Seq<NodeView>, pos: Pos, tile: PlacedTile)
    requires
        graph_wf(ns),
        forall|i: int| 0 <= i < ns.len() ==> #[trigger] ns[i].key.0 != pos,
        ns.len() + 4 <= MAX_NODES,
    ensures
        graph_wf(ns + fresh_nodes(pos, tile, 4)),
        fresh_nodes(pos, tile, 4).len() <= 4,
        forall|j: int| 0 <= j < fresh_nodes(pos, tile, 4).len() ==> #[trigger] fresh_nodes(pos, tile, 4)[j] == fresh_node(pos, tile, fresh_nodes(pos, tile, 4)[j].key.1),
        forall|s: int| 0 <= s < 4 ==> #[trigger] has_key(ns + fresh_nodes(pos, tile, 4), (pos, spec_segment(tile, side_at(s)))),
{
    lemma_fresh_nodes_props(pos, tile, 4);
    let f = fresh_nodes(pos, tile, 4);
    let all = ns + f;
    assert forall|i: int, j: int| 0 <= i < all.len() && 0 <= j < all.len() && i != j implies all[i].key != all[j].key by {
        if i < ns.len() && j >= ns.len() {
            assert(all[j].key.0 == pos);
        } else if i >= ns.len() && j < ns.len() {
            assert(all[i].key.0 == pos);
        }
    }
    assert forall|i: int| 0 <= i < all.len() implies #[trigger] parent_ok(all, i) by {
        if i < ns.len() {
            assert(parent_ok(ns, i));
            let p = ns[i].parent;
            let pi = index_of_key(ns, p);
            lemma_has_key_index(ns, p);
            assert(all[pi] == ns[pi]);
            lemma_index_of_key(all, pi);
        } else {
            assert(all[i].parent == all[i].key);
            lemma_index_of_key(all, i);
        }
    }
    assert forall|i: int| 0 <= i < all.len() && all[i].parent == all[i].key implies #[trigger] root_ok(all, i) by {
        let k = all[i].key;
        lemma_member_count_append(ns, f, k);
        lemma2_to64();
        if i < ns.len() {
            assert(root_ok(ns, i));
            assert(member_count(f, k) == 0) by {
                lemma_member_count_none(f, k);
            }
        } else {
            assert(member_count(ns, k) == 0) by {
                assert forall|j: int| 0 <= j < ns.len() implies #[trigger] ns[j].parent != k by {
                    assert(parent_ok(ns, j));
                    let p = ns[j].parent;
                    lemma_has_key_index(ns, p);
                }
                lemma_member_count_none(ns, k);
            }
            let jj = i - ns.len();
            assert(f[jj] == all[i]);
            assert forall|t: int| 0 <= t < f.len() && t != jj implies #[trigger] f[t].parent != k by {
                assert(f[t].parent == f[t].key);
            }
            lemma_member_count_single(f, jj, k);
            assert(f[jj] == fresh_node(pos, tile, f[jj].key.1));
        }
    }
    assert forall|s: int| 0 <= s < 4 implies #[trigger] has_key(all, (pos, spec_segment(tile, side_at(s)))) by {
        assert(has_key(f, (pos, spec_segment(tile, side_at(s)))));
        let jj = choose|jj: int| 0 <= jj < f.len() && f[jj].key == (pos, spec_segment(tile, side_at(s)));
        assert(all[ns.len() + jj] == f[jj]);
    }
}

pub proof fn lemma_member_count_single(ns: Seq<NodeView>, j: int, r: SegmentRef)
    requires
        0 <= j < ns.len(),
        ns[j].parent == r,
        forall|t: int| 0 <= t < ns.len() && t != j ==> #[trigger] ns[t].parent != r,
    ensures
        member_count(ns, r) == 1,
    decreases ns.len(),
{
    if j < ns.len() - 1 {
        lemma_member_count_single(ns.drop_last(), j, r);
    } else {
        assert forall|t: int| 0 <= t < ns.drop_last().len() implies #[trigger] ns.drop_last()[t].parent != r by {
            assert(ns[t].parent != r);
        }
        lemma_member_count_none(ns.drop_last(), r);
    }
}

pub proof fn lemma_member_count_none(ns: Seq<NodeView>, r: SegmentRef)
    requires
        forall|j: int| 0 <= j < ns.len() ==> #[trigger] ns[j].parent != r,
    ensures
        member_count(ns, r) == 0,
    decreases ns.len(),
{
    if ns.len() > 0 {
        assert(ns.last().parent != r);
        lemma_member_count_none(ns.drop_last(), r);
    }
}

/// The fresh nodes are roots under `pos` with distinct keys, one for each
/// segment met on sides `0..n`.
pub proof fn lemma_fresh_nodes_props(pos: Pos, tile: PlacedTile, n: nat)
    requires
        n <= 4,
    ensures
        fresh_nodes(pos, tile, n).len() <= n,
        forall|j: int| 0 <= j < fresh_nodes(pos, tile, n).len() ==> (#[trigger] fresh_nodes(pos, tile, n)[j]).key.0 == pos,
        forall|j: int| 0 <= j < fresh_nodes(pos, tile, n).len() ==> (#[trigger] fresh_nodes(pos, tile, n)[j]).parent == fresh_nodes(pos, tile, n)[j].key,
        forall|j: int| 0 <= j < fresh_nodes(pos, tile, n).len() ==> #[trigger] fresh_nodes(pos, tile, n)[j] == fresh_node(pos, tile, fresh_nodes(pos, tile, n)[j].key.1),
        forall|j: int| 0 <= j < fresh_nodes(pos, tile, n).len() ==> first_side_with(tile, (#[trigger] fresh_nodes(pos, tile, n)[j]).key.1) < n,
        forall|i: int, j: int| 0 <= i < fresh_nodes(pos, tile, n).len() && 0 <= j < fresh_nodes(pos, tile, n).len() && i != j
            ==> fresh_nodes(pos, tile, n)[i].key != fresh_nodes(pos, tile, n)[j].key,
        forall|s: int| 0 <= s < n ==> #[trigger] has_key(fresh_nodes(pos, tile, n), (pos, spec_segment(tile, side_at(s)))),
    decreases n,
{
    if n > 0 {
        lemma_fresh_nodes_props(pos, tile, (n - 1) as nat);
        let prev = fresh_nodes(pos, tile, (n - 1) as nat);
        let cur = fresh_nodes(pos, tile, n);
        let s = (n - 1) as int;
        let sid = spec_segment(tile, side_at(s));
        assert forall|t: int| 0 <= t < n implies #[trigger] has_key(cur, (pos, spec_segment(tile, side_at(t)))) by {
            if t < n - 1 {
                assert(has_key(prev, (pos, spec_segment(tile, side_at(t)))));
                let j = choose|j: int| 0 <= j < prev.len() && #[trigger] prev[j].key == (pos, spec_segment(tile, side_at(t)));
                assert(cur[j] == prev[j]);
            } else if first_side_with(tile, sid) == s {
                assert(cur[prev.len() as int].key == (pos, sid));
            } else {
                let f = first_side_with(tile, sid);
                assert(spec_segment(tile, side_at(f)) == sid);
                assert(has_key(prev, (pos, spec_segment(tile, side_at(f)))));
                let j = choose|j: int| 0 <= j < prev.len() && #[trigger] prev[j].key == (pos, spec_segment(tile, side_at(f)));
                assert(cur[j] == prev[j]);
            }
        }
        assert forall|i: int, j: int| 0 <= i < cur.len() && 0 <= j < cur.len() && i != j implies cur[i].key != cur[j].key by {
            if i < prev.len() && j < prev.len() {
                assert(cur[i] == prev[i]);
                assert(cur[j] == prev[j]);
            } else if i < prev.len() {
                assert(cur[i] == prev[i]);
                assert(first_side_with(tile, prev[i].key.1) < n - 1);
            } else if j < prev.len() {
                assert(cur[j] == prev[j]);
                assert(first_side_with(tile, prev[j].key.1) < n - 1);
            }
        }
    }
}

/// Joining the segments side by side keeps the graph well formed and the keys in place.
/// Joining the features of `a` and `b` puts every segment of either feature
/// under one root, and leaves every other segment's root as it was.
pub proof fn lemma_union_roots(ns: Seq<NodeView>, a: SegmentRef, b: SegmentRef, x: SegmentRef)
    requires
        graph_wf(ns),
        has_key(ns, a),
        has_key(ns, b),
        has_key(ns, x),
    ensures
        root_of(spec_union(ns, a, b), a) == root_of(spec_union(ns, a, b), b),
        root_of(ns, x) == root_of(ns, a) || root_of(ns, x) == root_of(ns, b)
            ==> root_of(spec_union(ns, a, b), x) == root_of(spec_union(ns, a, b), a),
        !(root_of(ns, x) == root_of(ns, a) || root_of(ns, x) == root_of(ns, b))
            ==> root_of(spec_union(ns, a, b), x) == root_of(ns, x),
{
    let res = spec_union(ns, a, b);
    lemma_union_wf(ns, a, b);
    lemma_same_keys(ns, res, a);
    lemma_same_keys(ns, res, b);
    lemma_same_keys(ns, res, x);
    lemma_root_index(ns, a);
    lemma_root_index(ns, b);
    let ra = root_of(ns, a);
    let rb = root_of(ns, b);
    if ra != rb {
        let rank_a = node_of(ns, ra).rank;
        let rank_b = node_of(ns, rb).rank;
        let small = if rank_a < rank_b { ra } else { rb };
        let big = if rank_a < rank_b { rb } else { ra };
        let bi = index_of_key(ns, big);
        assert forall|j: int| 0 <= j < ns.len() implies #[trigger] res[j].parent
            == if ns[j].parent == small { big } else { ns[j].parent } by {
            if j == bi {
                assert(ns[bi].parent == big);
            }
        }
    }
}

/// Joining two features keeps together the segments that were together.
pub proof fn lemma_union_keeps_joined(ns: Seq<NodeView>, a: SegmentRef, b: SegmentRef, x: SegmentRef, y: SegmentRef)
    requires
        graph_wf(ns),
        has_key(ns, a),
        has_key(ns, b),
        has_key(ns, x),
        has_key(ns, y),
        root_of(ns, x) == root_of(ns, y),
    ensures
        root_of(spec_union(ns, a, b), x) == root_of(spec_union(ns, a, b), y),
{
    lemma_union_roots(ns, a, b, x);
    lemma_union_roots(ns, a, b, y);
}

/// The joins still to come, for sides `s..4`, keep together what is together,
/// and leave each of those sides in the feature of the segment it touches.
proof fn lemma_unions_from_joins(ns: Seq<NodeView>, pos: Pos, tile: PlacedTile, nbs: Seq<Option<SegmentRef>>, s: nat)
    requires
        graph_wf(ns),
        nbs.len() == 4,
        forall|t: int| 0 <= t < 4 ==> #[trigger] has_key(ns, (pos, spec_segment(tile, side_at(t)))),
        forall|t: int| 0 <= t < 4 ==> (#[trigger] nbs[t] matches Some(nb) ==> has_key(ns, nb)),
    ensures
        forall|x: SegmentRef, y: SegmentRef| has_key(ns, x) && has_key(ns, y) && root_of(ns, x) == root_of(ns, y)
            ==> #[trigger] root_of(unions_from(ns, pos, tile, nbs, s), x) == #[trigger] root_of(unions_from(ns, pos, tile, nbs, s), y),
        forall|t: int| s <= t < 4 && (#[trigger] nbs[t]) is Some ==> root_of(unions_from(ns, pos, tile, nbs, s), (pos, spec_segment(tile, side_at(t))))
            == root_of(unions_from(ns, pos, tile, nbs, s), nbs[t].unwrap()),
    decreases 4 - s,
{
    if s < 4 {
        let me = (pos, spec_segment(tile, side_at(s as int)));
        let next = match nbs[s as int] {
            Some(nb) => spec_union(ns, me, nb),
            None => ns,
        };
        if let Some(nb) = nbs[s as int] {
            lemma_union_wf(ns, me, nb);
            assert forall|k: SegmentRef| #[trigger] has_key(next, k) == has_key(ns, k) by {
                lemma_same_keys(ns, next, k);
            }
            lemma_union_roots(ns, me, nb, me);
        }
        assert(forall|t: int| 0 <= t < 4 ==> #[trigger] has_key(next, (pos, spec_segment(tile, side_at(t))))
            == has_key(ns, (pos, spec_segment(tile, side_at(t)))));
        lemma_unions_from_joins(next, pos, tile, nbs, s + 1);
        let fin = unions_from(ns, pos, tile, nbs, s);
        assert(fin == unions_from(next, pos, tile, nbs, s + 1));
        assert forall|x: SegmentRef, y: SegmentRef| has_key(ns, x) && has_key(ns, y) && root_of(ns, x) == root_of(ns, y)
            implies #[trigger] root_of(fin, x) == #[trigger] root_of(fin, y) by {
            if let Some(nb) = nbs[s as int] {
                lemma_union_keeps_joined(ns, me, nb, x, y);
            }
        }
        if let Some(nb) = nbs[s as int] {
            assert(root_of(next, me) == root_of(next, nb));
            assert(root_of(fin, me) == root_of(fin, nb));
        }
    }
}

/// After a tile is added, each side that touches a placed segment belongs to
/// that segment's feature, and segments that shared a feature still do.
pub proof fn lemma_add_tile_joins(ns: Seq<NodeView>, pos: Pos, tile: PlacedTile, nbs: Seq<Option<SegmentRef>>, t: int)
    requires
        graph_wf(ns),
        forall|i: int| 0 <= i < ns.len() ==> #[trigger] ns[i].key.0 != pos,
        ns.len() + 4 <= MAX_NODES,
        nbs.len() == 4,
        forall|k: int| 0 <= k < 4 ==> (#[trigger] nbs[k] matches Some(nb) ==> has_key(ns, nb)),
        0 <= t < 4,
        nbs[t] is Some,
    ensures
        root_of(spec_add_tile(ns, pos, tile, nbs), (pos, spec_segment(tile, side_at(t))))
            == root_of(spec_add_tile(ns, pos, tile, nbs), nbs[t].unwrap()),
        forall|x: SegmentRef, y: SegmentRef| has_key(ns, x) && has_key(ns, y) && root_of(ns, x) == root_of(ns, y)
            ==> #[trigger] root_of(spec_add_tile(ns, pos, tile, nbs), x) == #[trigger] root_of(spec_add_tile(ns, pos, tile, nbs), y),
{
    lemma_append_fresh_wf(ns, pos, tile);
    let base = ns + fresh_nodes(pos, tile, 4);
    assert forall|x: SegmentRef| #[trigger] has_key(ns, x) implies has_key(base, x) && root_of(base, x) == root_of(ns, x) by {
        let i = index_of_key(ns, x);
        assert(base[i] == ns[i]);
        lemma_index_of_key(base, i);
    }
    assert forall|k: int| 0 <= k < 4 implies (#[trigger] nbs[k] matches Some(nb) ==> has_key(base, nb)) by {
        if let Some(nb) = nbs[k] {
            let j = choose|j: int| 0 <= j < ns.len() && ns[j].key == nb;
            assert(base[j] == ns[j]);
        }
    }
    lemma_unions_from_joins(base, pos, tile, nbs, 0);
}

pub proof fn lemma_unions_from_wf(ns: Seq<NodeView>, pos: Pos, tile: PlacedTile, nbs: Seq<Option<SegmentRef>>, s: nat)
    requires
        graph_wf(ns),
        nbs.len() == 4,
        forall|t: int| 0 <= t < 4 ==> #[trigger] has_key(ns, (pos, spec_segment(tile, side_at(t)))),
        forall|t: int| 0 <= t < 4 ==> (#[trigger] nbs[t] matches Some(nb) ==> has_key(ns, nb)),
    ensures
        graph_wf(unions_from(ns, pos, tile, nbs, s)),
        unions_from(ns, pos, tile, nbs, s).len() == ns.len(),
        forall|i: int| 0 <= i < ns.len() ==> #[trigger] unions_from(ns, pos, tile, nbs, s)[i].key == ns[i].key,
    decreases 4 - s,
{
    if s < 4 {
        let next = match nbs[s as int] {
            Some(nb) => spec_union(ns, (pos, spec_segment(tile, side_at(s as int))), nb),
            None => ns,
        };
        match nbs[s as int] {
            Some(nb) => {
                lemma_union_wf(ns, (pos, spec_segment(tile, side_at(s as int))), nb);
            },
            None => {},
        }
        assert forall|k: SegmentRef| #[trigger] has_key(next, k) == has_key(ns, k) by {
            lemma_same_keys(ns, next, k);
        }
        assert forall|t: int| 0 <= t < 4 implies #[trigger] has_key(next, (pos, spec_segment(tile, side_at(t)))) by {
            assert(has_key(ns, (pos, spec_segment(tile, side_at(t)))));
        }
        assert forall|t: int| 0 <= t < 4 implies (#[trigger] nbs[t] matches Some(nb) ==> has_key(next, nb)) by {
            if let Some(nb) = nbs[t] {
                assert(has_key(ns, nb));
            }
        }
        lemma_unions_from_wf(next, pos, tile, nbs, s + 1);
    }
}

// ---------------------------------------------------------------------------
// The graph itself
// ---------------------------------------------------------------------------

#[derive(Debug)]
struct Node {
    key: SegmentRef,
    parent: SegmentRef,
    rank: u8,
    info: FeatureInfo,
}

impl View for Node {
    type V = NodeView;

    closed spec fn view(&self) -> NodeView {
        NodeView { key: self.key, parent: self.parent, rank: self.rank, info: self.info@ }
    }
}

/// The connected features of a board: every placed segment, grouped into
/// features with their counters and followers.
#[derive(Debug)]
pub struct FeatureGraph {
    nodes: Vec<Node>,
}

impl View for FeatureGraph {
    type V = Seq<NodeView>;

    closed spec fn view(&self) -> Seq<NodeView> {
        self.nodes@.map_values(|n: Node| n@)
    }
}

impl FeatureGraph {
    pub open spec fn wf(&self) -> bool {
        graph_wf(self@)
    }

    pub fn new() -> (r: FeatureGraph)
        ensures
            r@ == Seq::<NodeView>::empty(),
            r.wf(),
    {
        let r = FeatureGraph { nodes: Vec::new() };
        assert(r@ =~= Seq::<NodeView>::empty());
        r
    }

    /// An independent copy of the graph.
    pub fn duplicate(&self) -> (r: FeatureGraph)
        ensures
            r@ == self@,
    {
        let mut nodes: Vec<Node> = Vec::new();
        let mut i: usize = 0;
        while i < self.nodes.len()
            invariant
                i <= self.nodes@.len(),
                nodes@.len() == i,
                forall|t: int| 0 <= t < i ==> #[trigger] nodes@[t]@ == self.nodes@[t]@,
            decreases self.nodes@.len() - i,
        {
            let n = &self.nodes[i];
            let info = copy_info(&n.info);
            nodes.push(Node { key: n.key, parent: n.parent, rank: n.rank, info });
            i = i + 1;
        }
        let r = FeatureGraph { nodes };
        assert(r@ =~= self@);
        r
    }

    /// The number of registered segments.
    pub fn len(&self) -> (r: usize)
        ensures
            r == self@.len(),
    {
        self.nodes.len()
    }

    /// Where segment `k` is stored, if it is registered.
    fn lookup(&self, k: SegmentRef) -> (r: Option<usize>)
        ensures
            r matches Some(i) ==> i < self@.len() && self@[i as int].key == k,
            r is None ==> !has_key(self@, k),
    {
        let mut i: usize = 0;
        while i < self.nodes.len()
            invariant
                i <= self.nodes@.len(),
                forall|j: int| 0 <= j < i ==> self@[j].key != k,
            decreases self.nodes@.len() - i,
        {
            if seg_eq(self.nodes[i].key, k) {
                return Some(i);
            }
            i = i + 1;
        }
        None
    }

    /// Whether segment `k` has been registered.
    pub fn contains(&self, k: SegmentRef) -> (r: bool)
        ensures
            r == has_key(self@, k),
    {
        self.lookup(k).is_some()
    }

    fn root_index(&self, x: SegmentRef) -> (r: usize)
        requires
            self.wf(),
            has_key(self@, x),
        ensures
            r < self@.len(),
            r == index_of_key(self@, root_of(self@, x)),
            self@[r as int].key == root_of(self@, x),
            self@[r as int].parent == root_of(self@, x),
    {
        let ghost ns = self@;
        let i = self.lookup(x).unwrap();
        proof {
            lemma_index_of_key(ns, i as int);
            assert(parent_ok(ns, i as int));
            lemma_has_key_index(ns, ns[i as int].parent);
        }
        let j = self.lookup(self.nodes[i].parent).unwrap();
        proof {
            lemma_index_of_key(ns, j as int);
        }
        j
    }

    /// The root segment of the feature that `x` belongs to.
    pub fn find(&mut self, x: SegmentRef) -> (r: SegmentRef)
        requires
            old(self).wf(),
            has_key(old(self)@, x),
        ensures
            r == root_of(old(self)@, x),
            is_root(old(self)@, r),
            final(self)@ == old(self)@,
    {
        let ghost ns = self@;
        let i = self.root_index(x);
        proof {
            lemma_index_of_key(ns, i as int);
        }
        self.nodes[i].key
    }

    /// What is known of the feature that `x` belongs to.
    pub fn info(&mut self, x: SegmentRef) -> (r: FeatureInfo)
        requires
            old(self).wf(),
            has_key(old(self)@, x),
        ensures
            r@ == feature_info(old(self)@, x),
            final(self)@ == old(self)@,
    {
        let i = self.root_index(x);
        copy_info(&self.nodes[i].info)
    }

    /// Whether the feature of `x` has no edge left facing an empty cell.
    pub fn is_complete(&mut self, x: SegmentRef) -> (r: bool)
        requires
            old(self).wf(),
            has_key(old(self)@, x),
        ensures
            r == (feature_info(old(self)@, x).open_count == 0),
            final(self)@ == old(self)@,
    {
        let i = self.root_index(x);
        self.nodes[i].info.open_count == 0
    }

    /// The terrain of the feature of `x` and how many of its edges are open.
    pub fn kind_and_open(&mut self, x: SegmentRef) -> (r: (EdgeKind, u32))
        requires
            old(self).wf(),
            has_key(old(self)@, x),
        ensures
            r.0 == feature_info(old(self)@, x).kind,
            r.1 == feature_info(old(self)@, x).open_count,
            final(self)@ == old(self)@,
    {
        let i = self.root_index(x);
        (self.nodes[i].info.kind, self.nodes[i].info.open_count)
    }

    fn union(&mut self, a: SegmentRef, b: SegmentRef)
        requires
            old(self).wf(),
            has_key(old(self)@, a),
            has_key(old(self)@, b),
        ensures
            final(self)@ == spec_union(old(self)@, a, b),
            final(self).wf(),
    {
        let ghost ns = self@;
        proof {
            lemma_union_wf(ns, a, b);
            assert(forall|t: int| 0 <= t < ns.len() ==> #[trigger] self.nodes@[t]@ == ns[t]);
        }
        let ia = self.root_index(a);
        let ib = self.root_index(b);
        let ra = self.nodes[ia].key;
        let rb = self.nodes[ib].key;
        if ia == ib {
            let oc = self.nodes[ia].info.open_count;
            self.nodes[ia].info.open_count = if oc >= 2 { oc - 2 } else { 0 };
            assert(self@ =~= spec_union(ns, a, b));
            return;
        }
        let rank_a = self.nodes[ia].rank;
        let rank_b = self.nodes[ib].rank;
        let (small, big, si, bi) = if rank_a < rank_b {
            (ra, rb, ia, ib)
        } else {
            (rb, ra, ib, ia)
        };
        proof {
            assert(root_ok(ns, bi as int));
            assert(root_ok(ns, si as int));
            lemma_member_count_relabel(ns, small, big, big);
            lemma_member_count_le(relabel(ns, small, big), big);
            lemma_rank_bound(ns[bi as int].rank, member_count(ns, big));
        }
        let s_open = self.nodes[si].info.open_count;
        let s_tiles = self.nodes[si].info.tiles;
        let s_shields = self.nodes[si].info.shields;
        let s_meeples = copy_ids(self.nodes[si].info.meeples.as_slice());
        let mut j: usize = 0;
        while j < self.nodes.len()
            invariant
                j <= self.nodes@.len(),
                self.nodes@.len() == ns.len(),
                forall|t: int| 0 <= t < j ==> #[trigger] self.nodes@[t]@ == relabel(ns, small, big)[t],
                forall|t: int| j <= t < ns.len() ==> #[trigger] self.nodes@[t]@ == ns[t],
            decreases self.nodes@.len() - j,
        {
            let ghost before = self.nodes@;
            assert(before[j as int]@ == ns[j as int]);
            if seg_eq(self.nodes[j].parent, small) {
                self.nodes[j].parent = big;
            }
            assert(self.nodes@[j as int]@ == relabel(ns, small, big)[j as int]);
            assert(forall|t: int| 0 <= t < ns.len() && t != j ==> self.nodes@[t] == before[t]);
            j = j + 1;
        }
        assert(self@ =~= relabel(ns, small, big));
        assert(self.nodes@[bi as int]@.info == ns[bi as int].info);
        assert(self.nodes@[bi as int]@.rank == ns[bi as int].rank);
        assert(self.nodes@[si as int]@.info == ns[si as int].info);
        let bo = self.nodes[bi].info.open_count + s_open;
        self.nodes[bi].info.open_count = if bo >= 2 { bo - 2 } else { 0 };
        self.nodes[bi].info.tiles = self.nodes[bi].info.tiles + s_tiles;
        self.nodes[bi].info.shields = self.nodes[bi].info.shields + s_shields;
        let mut k: usize = 0;
        let ghost m0 = self.nodes@[bi as int].info.meeples@;
        let ghost nb0 = self.nodes@[bi as int]@;
        let ghost before_loop = self.nodes@;
        while k < s_meeples.len()
            invariant
                k <= s_meeples@.len(),
                bi < self.nodes@.len(),
                self.nodes@.len() == before_loop.len(),
                self.nodes@[bi as int]@ == (NodeView { info: InfoView { meeples: m0 + s_meeples@.take(k as int), ..nb0.info }, ..nb0 }),
                forall|t: int| 0 <= t < before_loop.len() && t != bi ==> #[trigger] self.nodes@[t] == before_loop[t],
            decreases s_meeples@.len() - k,
        {
            self.nodes[bi].info.meeples.push(s_meeples[k]);
            k = k + 1;
            assert(self.nodes@[bi as int].info.meeples@ =~= m0 + s_meeples@.take(k as int));
            assert(self.nodes@[bi as int]@ =~= (NodeView { info: InfoView { meeples: m0 + s_meeples@.take(k as int), ..nb0.info }, ..nb0 }));
        }
        assert(s_meeples@.take(k as int) =~= s_meeples@);
        if rank_a == rank_b {
            self.nodes[bi].rank = self.nodes[bi].rank + 1;
        }
        proof {
            let rel = relabel(ns, small, big);
            let bn = ns[bi as int];
            assert(rel[bi as int] == bn);
            assert(small == root_of(ns, if rank_a < rank_b { a } else { b }));
            let bn2 = NodeView {
                rank: if rank_a == rank_b { (bn.rank + 1) as u8 } else { bn.rank },
                info: InfoView {
                    kind: bn.info.kind,
                    open_count: sat_sub2((bn.info.open_count + ns[si as int].info.open_count) as u32),
                    tiles: (bn.info.tiles + ns[si as int].info.tiles) as u32,
                    shields: (bn.info.shields + ns[si as int].info.shields) as u32,
                    meeples: bn.info.meeples + ns[si as int].info.meeples,
                },
                ..bn
            };
            assert(self.nodes@[bi as int]@ == bn2);
            assert(spec_union(ns, a, b) == rel.update(bi as int, bn2));
            assert forall|t: int| 0 <= t < ns.len() implies #[trigger] self@[t] == rel.update(bi as int, bn2)[t] by {
                if t != bi {
                    assert(self.nodes@[t] == before_loop[t]);
                }
            }
        }
        assert(self@ =~= spec_union(ns, a, b));
    }

    /// Registers the segments of `tile`, placed at `pos`, and joins the segment on
    /// each side `s` with `neighbors[s]` when that side touches a placed tile.
    pub fn add_tile(&mut self, pos: Pos, tile: &PlacedTile, neighbors: [Option<SegmentRef>; 4])
        requires
            old(self).wf(),
            rotation_ok(*tile),
            old(self)@.len() + 4 <= MAX_NODES,
            forall|i: int| 0 <= i < old(self)@.len() ==> #[trigger] old(self)@[i].key.0 != pos,
            forall|t: int| 0 <= t < 4 ==> (#[trigger] neighbors[t] matches Some(nb) ==> has_key(old(self)@, nb)),
        ensures
            final(self)@ == spec_add_tile(old(self)@, pos, *tile, neighbors@),
            final(self).wf(),
    {
        let ghost ns0 = self@;
        let sides = Side::all();
        let mut s: usize = 0;
        while s < 4
            invariant
                s <= 4,
                rotation_ok(*tile),
                forall|i: int| 0 <= i < 4 ==> #[trigger] sides[i] == side_at(i),
                self@ == ns0 + fresh_nodes(pos, *tile, s as nat),
            decreases 4 - s,
        {
            let sid = tile.segment_id(sides[s]);
            let first = first_side_index(tile, sid);
            let ghost before = self@;
            if first == s {
                let kind = tile.edge(sides[s]);
                let open = count_sides(tile, sid);
                let shields: u32 = if tile.spec.shield && kind == EdgeKind::City { 1 } else { 0 };
                let node = Node {
                    key: (pos, sid),
                    parent: (pos, sid),
                    rank: 0,
                    info: FeatureInfo { kind, open_count: open, tiles: 1, shields, meeples: Vec::new() },
                };
                assert(node.info.meeples@ =~= Seq::<PlayerId>::empty());
                assert(node@ == fresh_node(pos, *tile, sid));
                self.nodes.push(node);
                assert(self@ =~= before.push(fresh_node(pos, *tile, sid)));
            }
            assert(fresh_nodes(pos, *tile, (s + 1) as nat) == fresh_nodes(pos, *tile, s as nat) + if first_side_with(*tile, sid) == s {
                seq![fresh_node(pos, *tile, sid)]
            } else {
                Seq::empty()
            });
            s = s + 1;
            assert(self@ =~= ns0 + fresh_nodes(pos, *tile, s as nat));
        }
        proof {
            lemma_append_fresh_wf(ns0, pos, *tile);
            assert forall|i: int| 0 <= i < 4 implies (#[trigger] neighbors@[i] matches Some(nb) ==> has_key(self@, nb)) by {
                if let Some(nb) = neighbors@[i] {
                    assert(neighbors[i] matches Some(nb) ==> has_key(ns0, nb));
                    let j = choose|j: int| 0 <= j < ns0.len() && ns0[j].key == nb;
                    assert(self@[j] == ns0[j]);
                }
            }
        }
        let ghost base = self@;
        let ghost nbs = neighbors@;
        let mut t: usize = 0;
        while t < 4
            invariant
                t <= 4,
                rotation_ok(*tile),
                forall|i: int| 0 <= i < 4 ==> #[trigger] sides[i] == side_at(i),
                nbs == neighbors@,
                self.wf(),
                unions_from(self@, pos, *tile, nbs, t as nat) == unions_from(base, pos, *tile, nbs, 0),
                forall|i: int| 0 <= i < 4 ==> #[trigger] has_key(self@, (pos, spec_segment(*tile, side_at(i)))),
                forall|i: int| 0 <= i < 4 ==> (#[trigger] nbs[i] matches Some(nb) ==> has_key(self@, nb)),
            decreases 4 - t,
        {
            let ghost cur = self@;
            assert(has_key(cur, (pos, spec_segment(*tile, side_at(t as int)))));
            match neighbors[t] {
                Some(nb) => {
                    let me = (pos, tile.segment_id(sides[t]));
                    proof {
                        lemma_union_wf(cur, me, nb);
                    }
                    self.union(me, nb);
                },
                None => {},
            }
            proof {
                assert forall|k: SegmentRef| #[trigger] has_key(self@, k) == has_key(cur, k) by {
                    lemma_same_keys(cur, self@, k);
                }
                assert forall|i: int| 0 <= i < 4 implies #[trigger] has_key(self@, (pos, spec_segment(*tile, side_at(i)))) by {
                    assert(has_key(cur, (pos, spec_segment(*tile, side_at(i)))));
                }
                assert forall|i: int| 0 <= i < 4 implies (#[trigger] nbs[i] matches Some(nb) ==> has_key(self@, nb)) by {
                    if let Some(nb) = nbs[i] {
                        assert(has_key(cur, nb));
                    }
                }
            }
            t = t + 1;
        }
    }

    /// Stands a follower of `owner` on the feature of `x`, unless it already holds one.
    pub fn place_meeple(&mut self, x: SegmentRef, owner: PlayerId) -> (r: Result<(), MeepleError>)
        requires
            old(self).wf(),
            has_key(old(self)@, x),
        ensures
            final(self).wf(),
            match spec_place_meeple(old(self)@, x, owner) {
                Some(ns) => r is Ok && final(self)@ == ns,
                None => r == Err::<(), MeepleError>(MeepleError::FeatureOccupied) && final(self)@ == old(self)@,
            },
    {
        let ghost ns = self@;
        let i = self.root_index(x);
        if self.nodes[i].info.meeples.len() > 0 {
            return Err(MeepleError::FeatureOccupied);
        }
        self.nodes[i].info.meeples.push(owner);
        proof {
            let n = ns[i as int];
            let n2 = NodeView { info: InfoView { meeples: seq![owner], ..n.info }, ..n };
            assert(self.nodes@[i as int].info.meeples@ =~= seq![owner]);
            assert(self@ =~= ns.update(i as int, n2));
            lemma_update_info_wf(ns, i as int, n2);
        }
        Ok(())
    }

    /// Takes every follower off the feature of `x` and hands them back.
    pub fn collect_meeples(&mut self, x: SegmentRef) -> (r: Vec<PlayerId>)
        requires
            old(self).wf(),
            has_key(old(self)@, x),
        ensures
            final(self).wf(),
            final(self)@ == spec_collect(old(self)@, x),
            r@ == feature_info(old(self)@, x).meeples,
    {
        let ghost ns = self@;
        let i = self.root_index(x);
        let taken = copy_ids(self.nodes[i].info.meeples.as_slice());
        self.nodes[i].info.meeples = Vec::new();
        proof {
            let n = ns[i as int];
            let n2 = NodeView { info: InfoView { meeples: Seq::empty(), ..n.info }, ..n };
            assert(self.nodes@[i as int].info.meeples@ =~= Seq::<PlayerId>::empty());
            assert(self@ =~= ns.update(i as int, n2));
            lemma_update_info_wf(ns, i as int, n2);
        }
        taken
    }

    /// Every feature's root segment and what is known of it, in registration order.
    pub fn roots(&self) -> (r: Vec<(SegmentRef, FeatureInfo)>)
        ensures
            r@.len() == root_nodes(self@).len(),
            forall|i: int| 0 <= i < r@.len() ==> (#[trigger] r@[i]).0 == root_nodes(self@)[i].key && r@[i].1@ == root_nodes(self@)[i].info,
    {
        let mut r: Vec<(SegmentRef, FeatureInfo)> = Vec::new();
        let mut i: usize = 0;
        while i < self.nodes.len()
            invariant
                i <= self@.len(),
                r@.len() == root_nodes(self@.take(i as int)).len(),
                forall|j: int| 0 <= j < r@.len() ==> (#[trigger] r@[j]).0 == root_nodes(self@.take(i as int))[j].key && r@[j].1@ == root_nodes(self@.take(i as int))[j].info,
            decreases self@.len() - i,
        {
            assert(self@.take(i + 1).drop_last() =~= self@.take(i as int));
            let n = &self.nodes[i];
            if seg_eq(n.parent, n.key) {
                r.push((n.key, copy_info(&n.info)));
            }
            i = i + 1;
        }
        assert(self@.take(i as int) =~= self@);
        r
    }
} // impl FeatureGraph

fn first_side_index(tile: &PlacedTile, sid: u8) -> (r: usize)
    requires
        rotation_ok(*tile),
    ensures
        r as int == first_side_with(*tile, sid),
{
    if tile.segment_id(Side::North) == sid {
        0
    } else if tile.segment_id(Side::East) == sid {
        1
    } else if tile.segment_id(Side::South) == sid {
        2
    } else {
        3
    }
}

fn count_sides(tile: &PlacedTile, sid: u8) -> (r: u32)
    requires
        rotation_ok(*tile),
    ensures
        r as nat == sides_with(*tile, sid),
{
    let a: u32 = if tile.segment_id(Side::North) == sid { 1 } else { 0 };
    let b: u32 = if tile.segment_id(Side::East) == sid { 1 } else { 0 };
    let c: u32 = if tile.segment_id(Side::South) == sid { 1 } else { 0 };
    let d: u32 = if tile.segment_id(Side::West) == sid { 1 } else { 0 };
    a + b + c + d
}

/// Replacing one node by one with the same key, root, rank and counters keeps
/// the graph well formed.
pub proof fn lemma_update_info_wf(ns: Seq<NodeView>, i: int, n: NodeView)
    requires
        graph_wf(ns),
        0 <= i < ns.len(),
        n.key == ns[i].key,
        n.parent == ns[i].parent,
        n.rank == ns[i].rank,
        n.info.tiles == ns[i].info.tiles,
        n.info.open_count <= ns[i].info.open_count,
        n.info.shields == ns[i].info.shields,
    ensures
        graph_wf(ns.update(i, n)),
{
    let res = ns.update(i, n);
    assert forall|k: SegmentRef| #[trigger] has_key(res, k) == has_key(ns, k) && (has_key(ns, k) ==> index_of_key(res, k) == index_of_key(ns, k)) by {
        lemma_same_keys(ns, res, k);
    }
    assert forall|j: int| 0 <= j < res.len() implies #[trigger] parent_ok(res, j) by {
        assert(parent_ok(ns, j));
        let p = ns[j].parent;
        lemma_has_key_index(ns, p);
        lemma_same_keys(ns, res, p);
    }
    assert forall|j: int| 0 <= j < res.len() && res[j].parent == res[j].key implies #[trigger] root_ok(res, j) by {
        assert(root_ok(ns, j));
        lemma_member_count_update(ns, i, n, res[j].key);
    }
}


/// The feature of `x` touches the tile at `pos`: it holds the segment on one
/// of the tile's sides.
pub open spec fn touched(ns: Seq<NodeView>, pos: Pos, tile: PlacedTile, x: SegmentRef) -> bool {
    exists|t: int| 0 <= t < 4 && #[trigger] root_of(ns, x) == root_of(ns, (pos, spec_segment(tile, side_at(t))))
}

/// Merging two features leaves every other feature's record as it was.
pub proof fn lemma_union_info_outside(ns: Seq<NodeView>, a: SegmentRef, b: SegmentRef, x: SegmentRef)
    requires
        graph_wf(ns),
        has_key(ns, a),
        has_key(ns, b),
        has_key(ns, x),
        root_of(ns, x) != root_of(ns, a),
        root_of(ns, x) != root_of(ns, b),
    ensures
        feature_info(spec_union(ns, a, b), x) == feature_info(ns, x),
{
    let res = spec_union(ns, a, b);
    lemma_union_wf(ns, a, b);
    lemma_union_roots(ns, a, b, x);
    lemma_root_index(ns, x);
    lemma_root_index(ns, a);
    lemma_root_index(ns, b);
    let r = root_of(ns, x);
    lemma_same_keys(ns, res, r);
    let i = index_of_key(ns, r);
    let ra = root_of(ns, a);
    let rb = root_of(ns, b);
    lemma_same_keys(ns, res, ra);
    lemma_same_keys(ns, res, rb);
    assert(index_of_key(ns, ra) != i);
    assert(index_of_key(ns, rb) != i);
    assert(res[i].info == ns[i].info);
}

/// A fresh node's segment shows on the side first met.
proof fn lemma_fresh_keys_on_sides(pos: Pos, tile: PlacedTile, n: nat)
    requires
        n <= 4,
    ensures
        forall|j: int| 0 <= j < fresh_nodes(pos, tile, n).len() ==> {
            let k = (#[trigger] fresh_nodes(pos, tile, n)[j]).key;
            0 <= first_side_with(tile, k.1) < 4 && k == (pos, spec_segment(tile, side_at(first_side_with(tile, k.1))))
        },
    decreases n,
{
    if n > 0 {
        lemma_fresh_keys_on_sides(pos, tile, (n - 1) as nat);
        lemma_fresh_nodes_props(pos, tile, n);
        lemma_fresh_nodes_props(pos, tile, (n - 1) as nat);
        let prev = fresh_nodes(pos, tile, (n - 1) as nat);
        let cur = fresh_nodes(pos, tile, n);
        assert forall|j: int| 0 <= j < cur.len() implies {
            let k = (#[trigger] cur[j]).key;
            0 <= first_side_with(tile, k.1) < 4 && k == (pos, spec_segment(tile, side_at(first_side_with(tile, k.1))))
        } by {
            if j < prev.len() {
                assert(cur[j] == prev[j]);
            }
        }
    }
}

/// The joins for sides `s..4` leave alone every feature they do not bring to
/// the tile.
proof fn lemma_unions_from_outside(ns: Seq<NodeView>, pos: Pos, tile: PlacedTile, nbs: Seq<Option<SegmentRef>>, s: nat)
    requires
        graph_wf(ns),
        nbs.len() == 4,
        forall|t: int| 0 <= t < 4 ==> #[trigger] has_key(ns, (pos, spec_segment(tile, side_at(t)))),
        forall|t: int| 0 <= t < 4 ==> (#[trigger] nbs[t] matches Some(nb) ==> has_key(ns, nb)),
    ensures
        forall|x: SegmentRef| has_key(ns, x) ==> touched(unions_from(ns, pos, tile, nbs, s), pos, tile, x)
            || #[trigger] feature_info(unions_from(ns, pos, tile, nbs, s), x) == feature_info(ns, x),
    decreases 4 - s,
{
    if s < 4 {
        let me = (pos, spec_segment(tile, side_at(s as int)));
        let next = match nbs[s as int] {
            Some(nb) => spec_union(ns, me, nb),
            None => ns,
        };
        if let Some(nb) = nbs[s as int] {
            lemma_union_wf(ns, me, nb);
            assert forall|k: SegmentRef| #[trigger] has_key(next, k) == has_key(ns, k) by {
                lemma_same_keys(ns, next, k);
            }
        }
        assert(forall|t: int| 0 <= t < 4 ==> #[trigger] has_key(next, (pos, spec_segment(tile, side_at(t))))
            == has_key(ns, (pos, spec_segment(tile, side_at(t)))));
        lemma_unions_from_outside(next, pos, tile, nbs, s + 1);
        lemma_unions_from_joins(next, pos, tile, nbs, s + 1);
        let fin = unions_from(ns, pos, tile, nbs, s);
        assert(fin == unions_from(next, pos, tile, nbs, s + 1));
        assert forall|x: SegmentRef| has_key(ns, x) implies touched(fin, pos, tile, x)
            || #[trigger] feature_info(fin, x) == feature_info(ns, x) by {
            if let Some(nb) = nbs[s as int] {
                if root_of(ns, x) == root_of(ns, me) || root_of(ns, x) == root_of(ns, nb) {
                    lemma_union_roots(ns, me, nb, x);
                    assert(root_of(next, x) == root_of(next, me));
                    assert(root_of(fin, x) == root_of(fin, me));
                    assert(touched(fin, pos, tile, x));
                } else {
                    lemma_union_info_outside(ns, me, nb, x);
                }
            }
        }
    }
}

/// Adding a tile changes only the features that reach it: every other
/// feature is an old one with its record unchanged.
pub proof fn lemma_add_tile_outside(ns: Seq<NodeView>, pos: Pos, tile: PlacedTile, nbs: Seq<Option<SegmentRef>>, x: SegmentRef)
    requires
        graph_wf(ns),
        forall|i: int| 0 <= i < ns.len() ==> #[trigger] ns[i].key.0 != pos,
        ns.len() + 4 <= MAX_NODES,
        nbs.len() == 4,
        forall|k: int| 0 <= k < 4 ==> (#[trigger] nbs[k] matches Some(nb) ==> has_key(ns, nb)),
        has_key(spec_add_tile(ns, pos, tile, nbs), x),
    ensures
        touched(spec_add_tile(ns, pos, tile, nbs), pos, tile, x)
            || (has_key(ns, x) && feature_info(spec_add_tile(ns, pos, tile, nbs), x) == feature_info(ns, x)),
{
    lemma_append_fresh_wf(ns, pos, tile);
    lemma_fresh_nodes_props(pos, tile, 4);
    lemma_fresh_keys_on_sides(pos, tile, 4);
    let f = fresh_nodes(pos, tile, 4);
    let base = ns + f;
    assert forall|k: int| 0 <= k < 4 implies (#[trigger] nbs[k] matches Some(nb) ==> has_key(base, nb)) by {
        if let Some(nb) = nbs[k] {
            let j = choose|j: int| 0 <= j < ns.len() && ns[j].key == nb;
            assert(base[j] == ns[j]);
        }
    }
    lemma_unions_from_wf(base, pos, tile, nbs, 0);
    let fin = spec_add_tile(ns, pos, tile, nbs);
    assert(fin == unions_from(base, pos, tile, nbs, 0));
    lemma_same_keys(base, fin, x);
    lemma_unions_from_outside(base, pos, tile, nbs, 0);
    if has_key(ns, x) {
        let i = index_of_key(ns, x);
        assert(base[i] == ns[i]);
        lemma_index_of_key(base, i);
        lemma_root_index(ns, x);
        let r = root_of(ns, x);
        let ir = index_of_key(ns, r);
        assert(base[ir] == ns[ir]);
        lemma_index_of_key(base, ir);
        lemma_index_of_key(ns, ir);
        assert(feature_info(base, x) == feature_info(ns, x));
    } else {
        let i = index_of_key(base, x);
        assert(i >= ns.len());
        let j = i - ns.len();
        assert(base[i] == f[j]);
        let t = first_side_with(tile, x.1);
        assert(x == (pos, spec_segment(tile, side_at(t))));
        assert(touched(fin, pos, tile, x));
    }
}


/// Merging two features leaves every segment that had followers with them.
proof fn lemma_union_keeps_full(ns: Seq<NodeView>, a: SegmentRef, b: SegmentRef, k: SegmentRef)
    requires
        graph_wf(ns),
        has_key(ns, a),
        has_key(ns, b),
        has_key(ns, k),
        feature_info(ns, k).meeples.len() > 0,
    ensures
        feature_info(spec_union(ns, a, b), k).meeples.len() > 0,
{
    let res = spec_union(ns, a, b);
    let ra = root_of(ns, a);
    let rb = root_of(ns, b);
    let r = root_of(ns, k);
    if r != ra && r != rb {
        lemma_union_info_outside(ns, a, b, k);
    } else {
        lemma_union_wf(ns, a, b);
        lemma_union_roots(ns, a, b, k);
        lemma_root_index(ns, a);
        lemma_root_index(ns, b);
        lemma_root_index(ns, k);
        lemma_same_keys(ns, res, a);
        lemma_same_keys(ns, res, k);
        lemma_same_keys(ns, res, ra);
        lemma_same_keys(ns, res, rb);
        let ik = index_of_key(ns, k);
        let ia = index_of_key(ns, a);
        if ra == rb {
            let i = index_of_key(ns, ra);
            assert(res[ia].parent == ns[ia].parent);
            assert(root_of(res, a) == ra);
            assert(res[i].info.meeples == ns[i].info.meeples);
        } else {
            let rank_a = node_of(ns, ra).rank;
            let rank_b = node_of(ns, rb).rank;
            let small = if rank_a < rank_b { ra } else { rb };
            let big = if rank_a < rank_b { rb } else { ra };
            let bi = index_of_key(ns, big);
            let si = index_of_key(ns, small);
            lemma_same_keys(ns, res, big);
            assert(res[ia].parent == big);
            assert(root_of(res, a) == big);
            assert(res[bi].info.meeples == ns[bi].info.meeples + ns[si].info.meeples);
            assert(node_of(ns, small) == ns[si]);
            if r == big {
                assert(ns[bi].info.meeples.len() > 0);
            } else {
                assert(ns[si].info.meeples.len() > 0);
            }
        }
    }
}

proof fn lemma_unions_from_keeps_full(ns: Seq<NodeView>, pos: Pos, tile: PlacedTile, nbs: Seq<Option<SegmentRef>>, s: nat)
    requires
        graph_wf(ns),
        nbs.len() == 4,
        forall|t: int| 0 <= t < 4 ==> #[trigger] has_key(ns, (pos, spec_segment(tile, side_at(t)))),
        forall|t: int| 0 <= t < 4 ==> (#[trigger] nbs[t] matches Some(nb) ==> has_key(ns, nb)),
    ensures
        forall|k: SegmentRef| has_key(ns, k) && feature_info(ns, k).meeples.len() > 0
            ==> (#[trigger] feature_info(unions_from(ns, pos, tile, nbs, s), k)).meeples.len() > 0,
    decreases 4 - s,
{
    if s < 4 {
        let me = (pos, spec_segment(tile, side_at(s as int)));
        let next = match nbs[s as int] {
            Some(nb) => spec_union(ns, me, nb),
            None => ns,
        };
        if let Some(nb) = nbs[s as int] {
            lemma_union_wf(ns, me, nb);
            assert forall|k: SegmentRef| #[trigger] has_key(next, k) == has_key(ns, k) by {
                lemma_same_keys(ns, next, k);
            }
            assert forall|k: SegmentRef| has_key(ns, k) && feature_info(ns, k).meeples.len() > 0
                implies (#[trigger] feature_info(next, k)).meeples.len() > 0 by {
                lemma_union_keeps_full(ns, me, nb, k);
            }
        }
        assert(forall|t: int| 0 <= t < 4 ==> #[trigger] has_key(next, (pos, spec_segment(tile, side_at(t))))
            == has_key(ns, (pos, spec_segment(tile, side_at(t)))));
        lemma_unions_from_keeps_full(next, pos, tile, nbs, s + 1);
        assert(unions_from(ns, pos, tile, nbs, s) == unions_from(next, pos, tile, nbs, s + 1));
    }
}

/// Adding a tile leaves every old segment that had followers with them.
pub proof fn lemma_add_tile_keeps_full(ns: Seq<NodeView>, pos: Pos, tile: PlacedTile, nbs: Seq<Option<SegmentRef>>, k: SegmentRef)
    requires
        graph_wf(ns),
        forall|i: int| 0 <= i < ns.len() ==> #[trigger] ns[i].key.0 != pos,
        ns.len() + 4 <= MAX_NODES,
        nbs.len() == 4,
        forall|j: int| 0 <= j < 4 ==> (#[trigger] nbs[j] matches Some(nb) ==> has_key(ns, nb)),
        has_key(ns, k),
        feature_info(ns, k).meeples.len() > 0,
    ensures
        has_key(spec_add_tile(ns, pos, tile, nbs), k),
        feature_info(spec_add_tile(ns, pos, tile, nbs), k).meeples.len() > 0,
{
    lemma_append_fresh_wf(ns, pos, tile);
    let f = fresh_nodes(pos, tile, 4);
    let base = ns + f;
    assert forall|j: int| 0 <= j < 4 implies (#[trigger] nbs[j] matches Some(nb) ==> has_key(base, nb)) by {
        if let Some(nb) = nbs[j] {
            let i = choose|i: int| 0 <= i < ns.len() && ns[i].key == nb;
            assert(base[i] == ns[i]);
        }
    }
    lemma_unions_from_wf(base, pos, tile, nbs, 0);
    let fin = spec_add_tile(ns, pos, tile, nbs);
    assert(fin == unions_from(base, pos, tile, nbs, 0));
    let i = index_of_key(ns, k);
    assert(base[i] == ns[i]);
    lemma_index_of_key(base, i);
    lemma_same_keys(base, fin, k);
    lemma_root_index(ns, k);
    let ir = index_of_key(ns, root_of(ns, k));
    assert(base[ir] == ns[ir]);
    lemma_index_of_key(base, ir);
    lemma_index_of_key(ns, ir);
    assert(feature_info(base, k) == feature_info(ns, k));
    lemma_unions_from_keeps_full(base, pos, tile, nbs, 0);
}


/// A freshly placed segment carries a shield exactly when it is a city
/// segment of a tile with a shield, and then carries one.
pub proof fn lemma_fresh_shield(pos: Pos, tile: PlacedTile, sid: u8)
    ensures
        fresh_node(pos, tile, sid).info.shields <= 1,
        fresh_node(pos, tile, sid).info.shields > 0 ==> tile.spec.shield && fresh_node(pos, tile, sid).info.kind == EdgeKind::City,
        tile.spec.shield && fresh_node(pos, tile, sid).info.kind == EdgeKind::City ==> fresh_node(pos, tile, sid).info.shields == 1,
        fresh_node(pos, tile, sid).info.tiles == 1,
{
}

/// Merging two features keeps every segment's feature with at least the
/// shields it had.
proof fn lemma_union_keeps_shields(ns: Seq<NodeView>, a: SegmentRef, b: SegmentRef, k: SegmentRef)
    requires
        graph_wf(ns),
        has_key(ns, a),
        has_key(ns, b),
        has_key(ns, k),
    ensures
        feature_info(spec_union(ns, a, b), k).shields >= feature_info(ns, k).shields,
{
    let res = spec_union(ns, a, b);
    let ra = root_of(ns, a);
    let rb = root_of(ns, b);
    let r = root_of(ns, k);
    if r != ra && r != rb {
        lemma_union_info_outside(ns, a, b, k);
    } else {
        lemma_union_wf(ns, a, b);
        lemma_union_roots(ns, a, b, k);
        lemma_root_index(ns, a);
        lemma_root_index(ns, b);
        lemma_root_index(ns, k);
        lemma_same_keys(ns, res, a);
        lemma_same_keys(ns, res, k);
        lemma_same_keys(ns, res, ra);
        lemma_same_keys(ns, res, rb);
        let ia = index_of_key(ns, a);
        if ra == rb {
            let i = index_of_key(ns, ra);
            assert(res[ia].parent == ns[ia].parent);
            assert(root_of(res, a) == ra);
            assert(res[i].info.shields == ns[i].info.shields);
        } else {
            let rank_a = node_of(ns, ra).rank;
            let rank_b = node_of(ns, rb).rank;
            let small = if rank_a < rank_b { ra } else { rb };
            let big = if rank_a < rank_b { rb } else { ra };
            let bi = index_of_key(ns, big);
            let si = index_of_key(ns, small);
            lemma_same_keys(ns, res, big);
            assert(root_ok(ns, bi));
            assert(root_ok(ns, si));
            lemma_member_count_le(ns, big);
            lemma_member_count_le(ns, small);
            assert(res[ia].parent == big);
            assert(root_of(res, a) == big);
            assert(node_of(ns, small) == ns[si]);
            assert(res[bi].info.shields == ns[bi].info.shields + ns[si].info.shields);
        }
    }
}

proof fn lemma_unions_from_keeps_shields(ns: Seq<NodeView>, pos: Pos, tile: PlacedTile, nbs: Seq<Option<SegmentRef>>, s: nat)
    requires
        graph_wf(ns),
        nbs.len() == 4,
        forall|t: int| 0 <= t < 4 ==> #[trigger] has_key(ns, (pos, spec_segment(tile, side_at(t)))),
        forall|t: int| 0 <= t < 4 ==> (#[trigger] nbs[t] matches Some(nb) ==> has_key(ns, nb)),
    ensures
        forall|k: SegmentRef| has_key(ns, k)
            ==> (#[trigger] feature_info(unions_from(ns, pos, tile, nbs, s), k)).shields >= feature_info(ns, k).shields,
    decreases 4 - s,
{
    if s < 4 {
        let me = (pos, spec_segment(tile, side_at(s as int)));
        let next = match nbs[s as int] {
            Some(nb) => spec_union(ns, me, nb),
            None => ns,
        };
        if let Some(nb) = nbs[s as int] {
            lemma_union_wf(ns, me, nb);
            assert forall|k: SegmentRef| #[trigger] has_key(next, k) == has_key(ns, k) by {
                lemma_same_keys(ns, next, k);
            }
            assert forall|k: SegmentRef| has_key(ns, k)
                implies (#[trigger] feature_info(next, k)).shields >= feature_info(ns, k).shields by {
                lemma_union_keeps_shields(ns, me, nb, k);
            }
        }
        assert(forall|t: int| 0 <= t < 4 ==> #[trigger] has_key(next, (pos, spec_segment(tile, side_at(t))))
            == has_key(ns, (pos, spec_segment(tile, side_at(t)))));
        lemma_unions_from_keeps_shields(next, pos, tile, nbs, s + 1);
        assert(unions_from(ns, pos, tile, nbs, s) == unions_from(next, pos, tile, nbs, s + 1));
    }
}

/// Adding a tile with a shield gives the city it shows on side `t` at least
/// one shield.
pub proof fn lemma_add_tile_shield(ns: Seq<NodeView>, pos: Pos, tile: PlacedTile, nbs: Seq<Option<SegmentRef>>, t: int)
    requires
        graph_wf(ns),
        forall|i: int| 0 <= i < ns.len() ==> #[trigger] ns[i].key.0 != pos,
        ns.len() + 4 <= MAX_NODES,
        nbs.len() == 4,
        forall|j: int| 0 <= j < 4 ==> (#[trigger] nbs[j] matches Some(nb) ==> has_key(ns, nb)),
        0 <= t < 4,
        tile.spec.shield,
        spec_edge(tile, side_at(first_side_with(tile, spec_segment(tile, side_at(t))))) == EdgeKind::City,
    ensures
        feature_info(spec_add_tile(ns, pos, tile, nbs), (pos, spec_segment(tile, side_at(t)))).shields >= 1,
{
    lemma_append_fresh_wf(ns, pos, tile);
    lemma_fresh_nodes_props(pos, tile, 4);
    let f = fresh_nodes(pos, tile, 4);
    let base = ns + f;
    let x = (pos, spec_segment(tile, side_at(t)));
    assert forall|j: int| 0 <= j < 4 implies (#[trigger] nbs[j] matches Some(nb) ==> has_key(base, nb)) by {
        if let Some(nb) = nbs[j] {
            let i = choose|i: int| 0 <= i < ns.len() && ns[i].key == nb;
            assert(base[i] == ns[i]);
        }
    }
    assert(has_key(base, x));
    let i = index_of_key(base, x);
    lemma_has_key_index(base, x);
    if i < ns.len() {
        assert(base[i] == ns[i]);
        assert(ns[i].key.0 != pos);
    }
    assert(i >= ns.len());
    assert(base[i] == f[i - ns.len()]);
    assert(base[i] == fresh_node(pos, tile, x.1));
    lemma_index_of_key(base, i);
    assert(root_of(base, x) == x);
    assert(feature_info(base, x).shields == 1);
    lemma_unions_from_keeps_shields(base, pos, tile, nbs, 0);
    assert(spec_add_tile(ns, pos, tile, nbs) == unions_from(base, pos, tile, nbs, 0));
}

} // verus!
