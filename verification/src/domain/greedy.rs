use vstd::prelude::*;

use crate::domain::board::{MAX_TILES, 
    board_roomy, board_wf, events_view, has_neighbor, in_bounds, lemma_resolve_bounds, occupied,
    offset, roomy, spec_can_place, spec_meeple_on_monastery, spec_meeple_on_segment, spec_offset,
    spec_place, spec_resolve, Board, BoardModel, MeeplePlaceError, Pos,
};
use crate::domain::feature::{first_side_with, InfoView, PlayerId};
use crate::domain::scoring::{completed_event, count_of, EventView, ScoringEvent};
use crate::domain::tile::{
    rotation_ok, side_at, side_index, spec_opposite, spec_segment, PlacedTile, Side, TileSpec,
};

verus! {

/// Where a follower goes on the tile just placed: on the segment of one side,
/// or on the monastery.
#[derive(Debug, Clone, Copy, PartialEq, Eq, Structural)]
pub enum MeepleChoice {
    Segment(Side),
    Monastery,
}

/// A move: the cell, the quarter turns of the tile, and where a follower goes.
#[derive(Debug, Clone, Copy, Eq)]
pub struct GreedyMove {
    pub pos: Pos,
    pub rotation: u8,
    pub meeple: Option<MeepleChoice>,
}

impl PartialEq for GreedyMove {
    fn eq(&self, other: &Self) -> (r: bool) {
        self.pos.0 == other.pos.0 && self.pos.1 == other.pos.1 && self.rotation == other.rotation
            && match (self.meeple, other.meeple) {
            (None, None) => true,
            (Some(a), Some(b)) => a == b,
            _ => false,
        }
    }
}

impl vstd::std_specs::cmp::PartialEqSpecImpl for GreedyMove {
    open spec fn obeys_eq_spec() -> bool {
        true
    }

    open spec fn eq_spec(&self, other: &GreedyMove) -> bool {
        *self == *other
    }
}

// ---------------------------------------------------------------------------
// What a move is worth
// ---------------------------------------------------------------------------

/// The points of `evs` that go to `player`.
pub open spec fn spec_points_for(player: PlayerId, evs: Seq<EventView>) -> int
    decreases evs.len(),
{
    if evs.len() == 0 {
        0
    } else {
        spec_points_for(player, evs.drop_last()) + if evs.last().winners.contains(player) {
            evs.last().points as int
        } else {
            0
        }
    }
}

/// Points are counted only for the winners of an event: the points of `a`
/// then `b` are those of `a` plus those of `b`; one event gives a player its
/// points exactly when the player is among its winners, whoever else holds
/// followers on it; and a player who wins none of the events gets nothing,
/// even when followers of theirs are sent home.
pub proof fn lemma_points_for_winners(player: PlayerId, a: Seq<EventView>, b: Seq<EventView>, e: EventView)
    ensures
        spec_points_for(player, a + b) == spec_points_for(player, a) + spec_points_for(player, b),
        spec_points_for(player, seq![e]) == if e.winners.contains(player) { e.points as int } else { 0int },
        (forall|j: int| 0 <= j < a.len() ==> !(#[trigger] a[j]).winners.contains(player)) ==> spec_points_for(player, a) == 0,
        (forall|j: int| 0 <= j < a.len() ==> (#[trigger] a[j]).winners.contains(player))
            ==> spec_points_for(player, a) == spec_total_points(a),
    decreases b.len() + a.len(),
{
    if b.len() > 0 {
        assert((a + b).drop_last() =~= a + b.drop_last());
        lemma_points_for_winners(player, a, b.drop_last(), e);
    } else {
        assert(a + b =~= a);
    }
    assert(seq![e].drop_last() =~= Seq::<EventView>::empty());
    assert(spec_points_for(player, Seq::<EventView>::empty()) == 0);
    assert(seq![e].last() == e);
    assert(spec_points_for(player, seq![e]) == spec_points_for(player, seq![e].drop_last())
        + if e.winners.contains(player) { e.points as int } else { 0int });
    if a.len() > 0 {
        let a0 = a.drop_last();
        assert forall|j: int| 0 <= j < a0.len() implies a0[j] == a[j] by {}
        lemma_points_for_winners(player, a0, Seq::empty(), e);
        assert(a.last() == a[a.len() - 1]);
    }
}

/// A player holding fewer followers than another on a finished road or city
/// gets none of its points, though a follower of theirs is sent home from it.
pub proof fn lemma_minority_scores_nothing(player: PlayerId, other: PlayerId, info: InfoView)
    requires
        count_of(info.meeples, player) < count_of(info.meeples, other),
        completed_event(info) is Some,
    ensures
        spec_points_for(player, seq![completed_event(info).unwrap()]) == 0,
{
    let e = completed_event(info).unwrap();
    crate::domain::scoring::lemma_minority_loses(info.meeples, player, other);
    lemma_points_for_winners(player, Seq::empty(), Seq::empty(), e);
}

/// The points of all the events together.
pub open spec fn spec_total_points(evs: Seq<EventView>) -> int
    decreases evs.len(),
{
    if evs.len() == 0 {
        0
    } else {
        spec_total_points(evs.drop_last()) + evs.last().points
    }
}

/// The cells a tile may go to: the origin on an empty board, otherwise each
/// free cell next to a placed tile.
pub open spec fn is_candidate(tiles: Seq<(Pos, PlacedTile)>, p: Pos) -> bool {
    if tiles.len() == 0 {
        p == (0i32, 0i32)
    } else {
        in_bounds(p) && !occupied(tiles, p) && has_neighbor(tiles, p)
    }
}

/// The cell next to tile `i` across side number `k`.
pub open spec fn nb_cell(tiles: Seq<(Pos, PlacedTile)>, i: int, k: int) -> Pos {
    spec_offset(tiles[i].0, side_at(k))
}

/// The candidate cells found scanning tiles `0..i` on every side, then tile
/// `i` on sides `0..k`: each free cell met for the first time, in that order.
pub open spec fn cands_upto(tiles: Seq<(Pos, PlacedTile)>, i: nat, k: nat) -> Seq<Pos>
    decreases i, k,
{
    if k == 0 {
        if i == 0 {
            Seq::empty()
        } else {
            cands_upto(tiles, (i - 1) as nat, 4)
        }
    } else {
        let prev = cands_upto(tiles, i, (k - 1) as nat);
        let p = nb_cell(tiles, i as int, k - 1);
        if !occupied(tiles, p) && !prev.contains(p) {
            prev.push(p)
        } else {
            prev
        }
    }
}

/// The candidate cells in search order.
pub open spec fn spec_candidates(tiles: Seq<(Pos, PlacedTile)>) -> Seq<Pos> {
    if tiles.len() == 0 {
        seq![(0i32, 0i32)]
    } else {
        cands_upto(tiles, tiles.len(), 0)
    }
}

/// A follower may be offered on side `s` when it is the first side showing its
/// segment, and on the monastery when the tile has one.
pub open spec fn offered(t: PlacedTile, c: MeepleChoice) -> bool {
    match c {
        MeepleChoice::Segment(s) => first_side_with(t, spec_segment(t, s)) == side_index(s),
        MeepleChoice::Monastery => t.spec.monastery,
    }
}

/// The segment choices among sides `0..n`: each side whose segment no earlier
/// side shows.
pub open spec fn seg_options(t: PlacedTile, n: nat) -> Seq<MeepleChoice>
    decreases n,
{
    if n == 0 {
        Seq::empty()
    } else {
        let k = (n - 1) as int;
        seg_options(t, (n - 1) as nat) + if first_side_with(t, spec_segment(t, side_at(k))) == k {
            seq![MeepleChoice::Segment(side_at(k))]
        } else {
            Seq::empty()
        }
    }
}

/// Where a follower may go on a tile: one side per segment, clockwise from
/// North, then the monastery if there is one.
pub open spec fn spec_meeple_options(t: PlacedTile) -> Seq<MeepleChoice> {
    seg_options(t, 4) + if t.spec.monastery {
        seq![MeepleChoice::Monastery]
    } else {
        Seq::empty()
    }
}

/// Standing a follower of `player` as `c` says on the last tile placed.
pub open spec fn try_meeple(b: BoardModel, c: MeepleChoice, player: PlayerId) -> (BoardModel, Result<(), MeeplePlaceError>) {
    match c {
        MeepleChoice::Segment(s) => spec_meeple_on_segment(b, s, player),
        MeepleChoice::Monastery => spec_meeple_on_monastery(b, player),
    }
}

/// The points `player` gets from putting `t` at `pos` and then standing a
/// follower as `meeple` says, where it can stand.
pub open spec fn sim_points(b: BoardModel, pos: Pos, t: PlacedTile, player: PlayerId, meeple: Option<MeepleChoice>) -> int {
    let b1 = spec_place(b, pos, t);
    let b2 = match meeple {
        None => b1,
        Some(c) => try_meeple(b1, c, player).0,
    };
    spec_points_for(player, spec_resolve(b2).1)
}

/// `t` may go to `pos` as a move: a candidate cell where the rules allow it.
pub open spec fn legal_spot(b: BoardModel, pos: Pos, t: PlacedTile) -> bool {
    is_candidate(b.tiles, pos) && spec_can_place(b.tiles, pos, t) is Ok
}

/// The tile a move puts down.
pub open spec fn move_tile(spec: TileSpec, m: GreedyMove) -> PlacedTile {
    PlacedTile { spec, rotation: m.rotation }
}

/// What move `m` earns `player` right away, or `None` when it is not a move
/// open to him.
pub open spec fn move_score(b: BoardModel, spec: TileSpec, player: PlayerId, has_meeple: bool, m: GreedyMove) -> Option<int> {
    let t = move_tile(spec, m);
    if m.rotation >= 4 || !legal_spot(b, m.pos, t) {
        None
    } else {
        match m.meeple {
            None => Some(sim_points(b, m.pos, t, player, None)),
            Some(c) => if has_meeple && offered(t, c) && try_meeple(spec_place(b, m.pos, t), c, player).1 is Ok {
                Some(sim_points(b, m.pos, t, player, Some(c)))
            } else {
                None
            },
        }
    }
}

/// The order of follower choices among moves with the same cell and turns.
pub open spec fn spec_meeple_rank(m: Option<MeepleChoice>) -> int {
    match m {
        None => 0,
        Some(MeepleChoice::Segment(s)) => 1 + side_index(s),
        Some(MeepleChoice::Monastery) => 5,
    }
}

/// `a` comes before `b` ordering by column, row, turns, then follower choice.
pub open spec fn key_lt(a: GreedyMove, b: GreedyMove) -> bool {
    ||| a.pos.0 < b.pos.0
    ||| a.pos.0 == b.pos.0 && a.pos.1 < b.pos.1
    ||| a.pos.0 == b.pos.0 && a.pos.1 == b.pos.1 && a.rotation < b.rotation
    ||| a.pos == b.pos && a.rotation == b.rotation && spec_meeple_rank(a.meeple) < spec_meeple_rank(b.meeple)
}

/// Move `a` scoring `sa` is preferred to `b` scoring `sb`: more points, or as
/// many and earlier in key order.
pub open spec fn beats(a: GreedyMove, sa: int, b: GreedyMove, sb: int) -> bool {
    sa > sb || (sa == sb && key_lt(a, b))
}

/// `best` is the preferred move among those `within` admits, with its score;
/// `None` when none of them is open.
pub open spec fn best_among(
    b: BoardModel,
    spec: TileSpec,
    player: PlayerId,
    hm: bool,
    within: spec_fn(GreedyMove) -> bool,
    best: Option<(GreedyMove, i32)>,
) -> bool {
    match best {
        None => forall|m: GreedyMove| within(m) ==> #[trigger] move_score(b, spec, player, hm, m) is None,
        Some((m, s)) => {
            &&& within(m)
            &&& move_score(b, spec, player, hm, m) == Some(s as int)
            &&& forall|m2: GreedyMove| within(m2) && #[trigger] move_score(b, spec, player, hm, m2) is Some
                ==> !beats(m2, move_score(b, spec, player, hm, m2).unwrap(), m, s as int)
        },
    }
}

/// The greedy choice: the preferred move among all moves.
pub open spec fn greedy_best(b: BoardModel, spec: TileSpec, player: PlayerId, hm: bool, r: Option<(GreedyMove, i32)>) -> bool {
    best_among(b, spec, player, hm, |m: GreedyMove| true, r)
}

/// The greedy move alone.
pub open spec fn greedy_pick(b: BoardModel, spec: TileSpec, player: PlayerId, hm: bool) -> Option<GreedyMove> {
    if exists|m: GreedyMove| #[trigger] move_score(b, spec, player, hm, m) is Some {
        Some(choose|m: GreedyMove| greedy_best(b, spec, player, hm, Some((m, move_score(b, spec, player, hm, m).unwrap() as i32))))
    } else {
        None
    }
}

/// The preferred of `best` and `mv` scoring `s`.
pub open spec fn better(best: Option<(GreedyMove, i32)>, mv: GreedyMove, s: i32) -> Option<(GreedyMove, i32)> {
    match best {
        None => Some((mv, s)),
        Some((m, bs)) => if beats(mv, s as int, m, bs as int) {
            Some((mv, s))
        } else {
            best
        },
    }
}

// ---------------------------------------------------------------------------
// Lemmas
// ---------------------------------------------------------------------------

/// The key order is a strict total order on moves.
pub proof fn lemma_key_order(a: GreedyMove, b: GreedyMove, c: GreedyMove)
    ensures
        !key_lt(a, a),
        key_lt(a, b) && key_lt(b, c) ==> key_lt(a, c),
        a != b ==> key_lt(a, b) || key_lt(b, a),
        key_lt(a, b) ==> !key_lt(b, a),
{
    if a != b && !key_lt(a, b) && !key_lt(b, a) {
        assert(a.pos == b.pos && a.rotation == b.rotation);
        assert(spec_meeple_rank(a.meeple) == spec_meeple_rank(b.meeple));
        match a.meeple {
            None => {},
            Some(MeepleChoice::Segment(s)) => {
                match b.meeple {
                    Some(MeepleChoice::Segment(t)) => {
                        assert(s == t);
                    },
                    _ => {},
                }
            },
            Some(MeepleChoice::Monastery) => {},
        }
        assert(a.meeple == b.meeple);
    }
}

/// A search result stays the best when the admitted moves change only in
/// moves that are not open.
pub proof fn lemma_best_same(
    b: BoardModel,
    spec: TileSpec,
    player: PlayerId,
    hm: bool,
    w1: spec_fn(GreedyMove) -> bool,
    w2: spec_fn(GreedyMove) -> bool,
    best: Option<(GreedyMove, i32)>,
)
    requires
        best_among(b, spec, player, hm, w1, best),
        forall|m: GreedyMove| #[trigger] move_score(b, spec, player, hm, m) is Some ==> (w1(m) == w2(m)),
    ensures
        best_among(b, spec, player, hm, w2, best),
{
    match best {
        None => {
            assert forall|m: GreedyMove| w2(m) implies #[trigger] move_score(b, spec, player, hm, m) is None by {
                if move_score(b, spec, player, hm, m) is Some {
                    assert(w1(m));
                }
            }
        },
        Some((m, s)) => {},
    }
}

/// Admitting one more move `mv` scoring `s` makes the preferred of the old
/// result and `mv` the new result.
pub proof fn lemma_best_add(
    b: BoardModel,
    spec: TileSpec,
    player: PlayerId,
    hm: bool,
    w1: spec_fn(GreedyMove) -> bool,
    w2: spec_fn(GreedyMove) -> bool,
    best: Option<(GreedyMove, i32)>,
    mv: GreedyMove,
    s: i32,
)
    requires
        best_among(b, spec, player, hm, w1, best),
        move_score(b, spec, player, hm, mv) == Some(s as int),
        forall|m: GreedyMove| #[trigger] move_score(b, spec, player, hm, m) is Some ==> (w2(m) == (w1(m) || m == mv)),
    ensures
        best_among(b, spec, player, hm, w2, better(best, mv, s)),
{
    lemma_key_order(mv, mv, mv);
    match best {
        None => {
            assert forall|m2: GreedyMove| w2(m2) && #[trigger] move_score(b, spec, player, hm, m2) is Some
                implies !beats(m2, move_score(b, spec, player, hm, m2).unwrap(), mv, s as int) by {
                if m2 != mv {
                    assert(w1(m2));
                }
            }
        },
        Some((m, bs)) => {
            if beats(mv, s as int, m, bs as int) {
                assert forall|m2: GreedyMove| w2(m2) && #[trigger] move_score(b, spec, player, hm, m2) is Some
                    implies !beats(m2, move_score(b, spec, player, hm, m2).unwrap(), mv, s as int) by {
                    if m2 != mv {
                        assert(w1(m2));
                        lemma_key_order(m2, mv, m);
                    }
                }
            } else {
                assert forall|m2: GreedyMove| w2(m2) && #[trigger] move_score(b, spec, player, hm, m2) is Some
                    implies !beats(m2, move_score(b, spec, player, hm, m2).unwrap(), m, bs as int) by {
                    if m2 != mv {
                        assert(w1(m2));
                    }
                }
            }
        },
    }
}

/// Two results that are both the best among the same moves are the same.
pub proof fn lemma_best_unique(
    b: BoardModel,
    spec: TileSpec,
    player: PlayerId,
    hm: bool,
    w: spec_fn(GreedyMove) -> bool,
    r1: Option<(GreedyMove, i32)>,
    r2: Option<(GreedyMove, i32)>,
)
    requires
        best_among(b, spec, player, hm, w, r1),
        best_among(b, spec, player, hm, w, r2),
    ensures
        r1 == r2,
{
    match r1 {
        None => {
            match r2 {
                None => {},
                Some((m2, s2)) => {
                    assert(move_score(b, spec, player, hm, m2) is Some);
                },
            }
        },
        Some((m1, s1)) => {
            match r2 {
                None => {
                    assert(move_score(b, spec, player, hm, m1) is Some);
                },
                Some((m2, s2)) => {
                    assert(move_score(b, spec, player, hm, m1) is Some);
                    assert(move_score(b, spec, player, hm, m2) is Some);
                    lemma_key_order(m1, m2, m1);
                },
            }
        },
    }
}

/// The best move over all moves, when there is one, is the greedy pick.
pub proof fn lemma_greedy_pick(b: BoardModel, spec: TileSpec, player: PlayerId, hm: bool, r: Option<(GreedyMove, i32)>)
    requires
        greedy_best(b, spec, player, hm, r),
    ensures
        greedy_pick(b, spec, player, hm) == match r {
            Some((m, _)) => Some(m),
            None => None::<GreedyMove>,
        },
{
    match r {
        None => {
            if exists|m: GreedyMove| #[trigger] move_score(b, spec, player, hm, m) is Some {
                let m = choose|m: GreedyMove| #[trigger] move_score(b, spec, player, hm, m) is Some;
                assert((|x: GreedyMove| true)(m));
            }
        },
        Some((m, s)) => {
            assert(move_score(b, spec, player, hm, m) is Some);
            let c = choose|x: GreedyMove| greedy_best(b, spec, player, hm, Some((x, move_score(b, spec, player, hm, x).unwrap() as i32)));
            assert(greedy_best(b, spec, player, hm, Some((m, move_score(b, spec, player, hm, m).unwrap() as i32))));
            lemma_best_unique(
                b,
                spec,
                player,
                hm,
                |x: GreedyMove| true,
                r,
                Some((c, move_score(b, spec, player, hm, c).unwrap() as i32)),
            );
        },
    }
}

/// With every tile on a roomy cell, the candidate cells of a non-empty board
/// are exactly the cells next to some tile that hold none.
pub proof fn lemma_candidate_cells(tiles: Seq<(Pos, PlacedTile)>, p: Pos)
    requires
        forall|i: int| 0 <= i < tiles.len() ==> roomy((#[trigger] tiles[i]).0),
    ensures
        (in_bounds(p) && has_neighbor(tiles, p)) <==> exists|i: int, k: int|
            0 <= i < tiles.len() && 0 <= k < 4 && p == #[trigger] nb_cell(tiles, i, k),
{
    if in_bounds(p) && has_neighbor(tiles, p) {
        if occupied(tiles, spec_offset(p, Side::North)) {
            let i = choose|i: int| 0 <= i < tiles.len() && tiles[i].0 == spec_offset(p, Side::North);
            assert(roomy(tiles[i].0));
            assert(p == nb_cell(tiles, i, 2));
        } else if occupied(tiles, spec_offset(p, Side::East)) {
            let i = choose|i: int| 0 <= i < tiles.len() && tiles[i].0 == spec_offset(p, Side::East);
            assert(roomy(tiles[i].0));
            assert(p == nb_cell(tiles, i, 3));
        } else if occupied(tiles, spec_offset(p, Side::South)) {
            let i = choose|i: int| 0 <= i < tiles.len() && tiles[i].0 == spec_offset(p, Side::South);
            assert(roomy(tiles[i].0));
            assert(p == nb_cell(tiles, i, 0));
        } else {
            let i = choose|i: int| 0 <= i < tiles.len() && tiles[i].0 == spec_offset(p, Side::West);
            assert(roomy(tiles[i].0));
            assert(p == nb_cell(tiles, i, 1));
        }
    }
    if exists|i: int, k: int| 0 <= i < tiles.len() && 0 <= k < 4 && p == #[trigger] nb_cell(tiles, i, k) {
        let (i, k) = choose|i: int, k: int| 0 <= i < tiles.len() && 0 <= k < 4 && p == #[trigger] nb_cell(tiles, i, k);
        let q = tiles[i].0;
        assert(roomy(q));
        if k == 0 {
            assert(spec_offset(p, Side::South) == q);
        } else if k == 1 {
            assert(spec_offset(p, Side::West) == q);
        } else if k == 2 {
            assert(spec_offset(p, Side::North) == q);
        } else {
            assert(spec_offset(p, Side::East) == q);
        }
    }
}

/// The segment choices among sides `0..n` are the offered sides below `n`.
pub proof fn lemma_seg_options(t: PlacedTile, n: nat, c: MeepleChoice)
    requires
        n <= 4,
    ensures
        seg_options(t, n).contains(c) <==> (c matches MeepleChoice::Segment(s) && side_index(s) < n
            && first_side_with(t, spec_segment(t, s)) == side_index(s)),
    decreases n,
{
    if n > 0 {
        let k = (n - 1) as int;
        lemma_seg_options(t, (n - 1) as nat, c);
        let pre = seg_options(t, (n - 1) as nat);
        let cur = seg_options(t, n);
        if pre.contains(c) {
            let j = choose|j: int| 0 <= j < pre.len() && pre[j] == c;
            assert(cur[j] == c);
        }
        if cur.contains(c) {
            let j = choose|j: int| 0 <= j < cur.len() && cur[j] == c;
            if j < pre.len() {
                assert(pre[j] == c);
            } else {
                assert(c == MeepleChoice::Segment(side_at(k)));
            }
        }
        if let MeepleChoice::Segment(s) = c {
            if side_index(s) == k && first_side_with(t, spec_segment(t, s)) == side_index(s) {
                assert(side_at(k) == s);
                assert(cur[pre.len() as int] == c);
            }
        }
    }
}

/// The options listed are exactly the offered ones.
pub proof fn lemma_meeple_options(t: PlacedTile, c: MeepleChoice)
    ensures
        spec_meeple_options(t).contains(c) <==> offered(t, c),
{
    lemma_seg_options(t, 4, c);
    let segs = seg_options(t, 4);
    let opts = spec_meeple_options(t);
    if segs.contains(c) {
        let j = choose|j: int| 0 <= j < segs.len() && segs[j] == c;
        assert(opts[j] == c);
    }
    if opts.contains(c) {
        let j = choose|j: int| 0 <= j < opts.len() && opts[j] == c;
        if j < segs.len() {
            assert(segs[j] == c);
        }
    }
    if c == MeepleChoice::Monastery && t.spec.monastery {
        assert(opts[segs.len() as int] == c);
    }
}

// ---------------------------------------------------------------------------
// Searching
// ---------------------------------------------------------------------------

fn contains_pos(v: &Vec<Pos>, p: Pos) -> (r: bool)
    ensures
        r == v@.contains(p),
{
    let mut i: usize = 0;
    while i < v.len()
        invariant
            i <= v@.len(),
            forall|j: int| 0 <= j < i ==> v@[j] != p,
        decreases v@.len() - i,
    {
        if v[i].0 == p.0 && v[i].1 == p.1 {
            assert(v@[i as int] == p);
            return true;
        }
        i = i + 1;
    }
    false
}

fn contains_id(v: &Vec<u8>, x: u8) -> (r: bool)
    ensures
        r == v@.contains(x),
{
    let mut i: usize = 0;
    while i < v.len()
        invariant
            i <= v@.len(),
            forall|j: int| 0 <= j < i ==> v@[j] != x,
        decreases v@.len() - i,
    {
        if v[i] == x {
            assert(v@[i as int] == x);
            return true;
        }
        i = i + 1;
    }
    false
}

/// The cells a tile may go to: the origin on an empty board, otherwise every
/// free cell next to a placed tile, each once.
pub fn candidate_positions(board: &Board) -> (r: Vec<Pos>)
    requires
        board.wf(),
        board_roomy(board@),
    ensures
        r@ == spec_candidates(board@.tiles),
        r@.no_duplicates(),
        forall|p: Pos| #[trigger] r@.contains(p) <==> is_candidate(board@.tiles, p),
{
    let ghost tiles = board@.tiles;
    if board.is_empty() {
        let v = vec![(0i32, 0i32)];
        assert(v@ =~= spec_candidates(tiles));
        proof {
            assert forall|p: Pos| #[trigger] v@.contains(p) <==> is_candidate(tiles, p) by {
                if p == (0i32, 0i32) {
                    assert(v@[0] == p);
                }
            }
        }
        return v;
    }
    let occ = board.positions();
    let sides = Side::all();
    let mut out: Vec<Pos> = Vec::new();
    let mut i: usize = 0;
    while i < occ.len()
        invariant
            board.wf(),
            board_roomy(board@),
            tiles == board@.tiles,
            occ@.len() == tiles.len(),
            forall|t: int| 0 <= t < occ@.len() ==> #[trigger] occ@[t] == tiles[t].0,
            forall|t: int| 0 <= t < 4 ==> #[trigger] sides[t] == side_at(t),
            i <= occ@.len(),
            out@ == cands_upto(tiles, i as nat, 0),
            out@.no_duplicates(),
            forall|p: Pos| #[trigger] out@.contains(p) <==> (!occupied(tiles, p) && exists|i2: int, k2: int|
                0 <= i2 < i && 0 <= k2 < 4 && p == #[trigger] nb_cell(tiles, i2, k2)),
        decreases occ@.len() - i,
    {
        let q = occ[i];
        assert(roomy(tiles[i as int].0));
        let mut k: usize = 0;
        while k < 4
            invariant
                board.wf(),
                tiles == board@.tiles,
                i < tiles.len(),
                q == tiles[i as int].0,
                roomy(q),
                forall|t: int| 0 <= t < 4 ==> #[trigger] sides[t] == side_at(t),
                k <= 4,
                out@ == cands_upto(tiles, i as nat, k as nat),
                out@.no_duplicates(),
                forall|p: Pos| #[trigger] out@.contains(p) <==> (!occupied(tiles, p) && exists|i2: int, k2: int|
                    0 <= k2 < 4 && (0 <= i2 < i || (i2 == i && k2 < k)) && p == #[trigger] nb_cell(tiles, i2, k2)),
            decreases 4 - k,
        {
            let np = offset(q, sides[k]);
            assert(np == nb_cell(tiles, i as int, k as int));
            let free = board.get(np).is_none();
            let ghost before = out@;
            if free && !contains_pos(&out, np) {
                out.push(np);
            }
            proof {
                assert(out@ == cands_upto(tiles, i as nat, (k + 1) as nat));
                assert forall|p: Pos| #[trigger] out@.contains(p) <==> (!occupied(tiles, p) && exists|i2: int, k2: int|
                    0 <= k2 < 4 && (0 <= i2 < i || (i2 == i && k2 < k + 1)) && p == #[trigger] nb_cell(tiles, i2, k2)) by {
                    if out@.contains(p) {
                        let j = choose|j: int| 0 <= j < out@.len() && out@[j] == p;
                        if j < before.len() {
                            assert(before.contains(p));
                        } else {
                            assert(p == np);
                            assert(p == nb_cell(tiles, i as int, k as int));
                        }
                    }
                    if !occupied(tiles, p) && exists|i2: int, k2: int|
                        0 <= k2 < 4 && (0 <= i2 < i || (i2 == i && k2 < k + 1)) && p == #[trigger] nb_cell(tiles, i2, k2) {
                        if p == np {
                            if before.contains(p) {
                                let j = choose|j: int| 0 <= j < before.len() && before[j] == p;
                                assert(out@[j] == p);
                            } else {
                                assert(out@[out@.len() - 1] == p);
                            }
                        } else {
                            assert(before.contains(p));
                            let j = choose|j: int| 0 <= j < before.len() && before[j] == p;
                            assert(out@[j] == p);
                        }
                    }
                }
                if out@.len() > before.len() {
                    assert forall|a: int, b: int| 0 <= a < out@.len() && 0 <= b < out@.len() && a != b
                        implies out@[a] != out@[b] by {
                        if a < before.len() && b < before.len() {
                        } else if a < before.len() {
                            assert(before.contains(out@[a]));
                        } else {
                            assert(before.contains(out@[b]));
                        }
                    }
                }
            }
            k = k + 1;
        }
        assert(cands_upto(tiles, (i + 1) as nat, 0) == cands_upto(tiles, i as nat, 4));
        i = i + 1;
    }
    proof {
        assert forall|p: Pos| #[trigger] out@.contains(p) <==> is_candidate(tiles, p) by {
            lemma_candidate_cells(tiles, p);
        }
    }
    out
}

/// Where a follower may go on `tile`: one side per segment, clockwise from
/// North, then the monastery if the tile has one.
pub fn meeple_options(tile: &PlacedTile) -> (r: Vec<MeepleChoice>)
    requires
        rotation_ok(*tile),
    ensures
        r@ == spec_meeple_options(*tile),
{
    let sides = Side::all();
    let mut out: Vec<MeepleChoice> = Vec::new();
    let mut seen: Vec<u8> = Vec::new();
    let mut k: usize = 0;
    while k < 4
        invariant
            rotation_ok(*tile),
            forall|t: int| 0 <= t < 4 ==> #[trigger] sides[t] == side_at(t),
            k <= 4,
            out@ == seg_options(*tile, k as nat),
            forall|x: u8| #[trigger] seen@.contains(x) <==> exists|j: int| 0 <= j < k && x == spec_segment(*tile, side_at(j)),
        decreases 4 - k,
    {
        let sid = tile.segment_id(sides[k]);
        let ghost before = seen@;
        if !contains_id(&seen, sid) {
            seen.push(sid);
            out.push(MeepleChoice::Segment(sides[k]));
            proof {
                assert(first_side_with(*tile, sid) == k) by {
                    assert forall|j: int| 0 <= j < k implies spec_segment(*tile, side_at(j)) != sid by {
                        if spec_segment(*tile, side_at(j)) == sid {
                            assert(before.contains(sid));
                        }
                    }
                }
            }
        } else {
            proof {
                let j = choose|j: int| 0 <= j < k && sid == spec_segment(*tile, side_at(j));
                assert(first_side_with(*tile, sid) <= j);
            }
        }
        proof {
            assert(out@ =~= seg_options(*tile, (k + 1) as nat));
            assert forall|x: u8| #[trigger] seen@.contains(x) <==> exists|j: int| 0 <= j < k + 1 && x == spec_segment(*tile, side_at(j)) by {
                if seen@.contains(x) {
                    let j = choose|j: int| 0 <= j < seen@.len() && seen@[j] == x;
                    if j < before.len() {
                        assert(before.contains(x));
                    } else {
                        assert(x == spec_segment(*tile, side_at(k as int)));
                    }
                }
                if exists|j: int| 0 <= j < k + 1 && x == spec_segment(*tile, side_at(j)) {
                    let j = choose|j: int| 0 <= j < k + 1 && x == spec_segment(*tile, side_at(j));
                    if j < k {
                        assert(before.contains(x));
                        let t = choose|t: int| 0 <= t < before.len() && before[t] == x;
                        assert(seen@[t] == x);
                    } else if before.contains(x) {
                        let t = choose|t: int| 0 <= t < before.len() && before[t] == x;
                        assert(seen@[t] == x);
                    } else {
                        assert(seen@[seen@.len() - 1] == x);
                    }
                }
            }
        }
        k = k + 1;
    }
    if tile.spec.monastery {
        out.push(MeepleChoice::Monastery);
    }
    assert(out@ =~= spec_meeple_options(*tile));
    out
}

/// The points of `events` that go to `player`.
fn points_for(player: PlayerId, events: &Vec<ScoringEvent>) -> (r: i32)
    requires
        events@.len() <= 13,
        forall|j: int| 0 <= j < events@.len() ==> (#[trigger] events@[j]).points <= 165_000_000,
    ensures
        r == spec_points_for(player, events_view(events@)),
        0 <= r <= 2_145_000_000,
{
    let ghost evs = events_view(events@);
    let mut acc: i32 = 0;
    let mut k: usize = 0;
    while k < events.len()
        invariant
            events@.len() <= 13,
            forall|j: int| 0 <= j < events@.len() ==> (#[trigger] events@[j]).points <= 165_000_000,
            evs == events_view(events@),
            k <= events@.len(),
            acc == spec_points_for(player, evs.take(k as int)),
            0 <= acc <= k * 165_000_000,
        decreases events@.len() - k,
    {
        assert(evs.take(k + 1).drop_last() =~= evs.take(k as int));
        assert(evs.take(k + 1).last() == events@[k as int]@);
        if contains_id(&events[k].winners, player) {
            acc = acc + events[k].points as i32;
        }
        k = k + 1;
    }
    assert(evs.take(k as int) =~= evs);
    acc
}

/// The points `player` gets from putting `tile` at `pos` on a copy of the
/// board and then standing a follower as `meeple` says, where it can stand.
fn simulate(board: &Board, pos: Pos, tile: &PlacedTile, player: PlayerId, meeple: Option<MeepleChoice>) -> (r: i32)
    requires
        board.wf(),
        board@.tiles.len() < MAX_TILES,
        rotation_ok(*tile),
        in_bounds(pos),
        spec_can_place(board@.tiles, pos, *tile) is Ok,
    ensures
        r == sim_points(board@, pos, *tile, player, meeple),
{
    let mut sim = board.duplicate();
    let _ = sim.place(pos, *tile);
    let ghost b1 = sim@;
    match meeple {
        Some(MeepleChoice::Segment(s)) => {
            let _ = sim.place_meeple_on_segment(s, player);
        },
        Some(MeepleChoice::Monastery) => {
            let _ = sim.place_meeple_on_monastery(player);
        },
        None => {},
    }
    let ghost b2 = sim@;
    proof {
        lemma_resolve_bounds(b2);
        assert(b2.tiles.len() == board@.tiles.len() + 1);
    }
    let events = sim.resolve_scoring();
    proof {
        assert forall|j: int| 0 <= j < events@.len() implies (#[trigger] events@[j]).points <= 165_000_000 by {
            assert(events_view(events@)[j] == events@[j]@);
        }
    }
    points_for(player, &events)
}

/// Like `simulate` with a follower, or `None` when the follower cannot stand
/// where `choice` says.
fn simulate_with_meeple(board: &Board, pos: Pos, tile: &PlacedTile, player: PlayerId, choice: MeepleChoice) -> (r: Option<i32>)
    requires
        board.wf(),
        board@.tiles.len() < MAX_TILES,
        rotation_ok(*tile),
        in_bounds(pos),
        spec_can_place(board@.tiles, pos, *tile) is Ok,
    ensures
        match r {
            Some(s) => try_meeple(spec_place(board@, pos, *tile), choice, player).1 is Ok
                && s == sim_points(board@, pos, *tile, player, Some(choice)),
            None => try_meeple(spec_place(board@, pos, *tile), choice, player).1 is Err,
        },
{
    let mut sim = board.duplicate();
    let _ = sim.place(pos, *tile);
    let placed = match choice {
        MeepleChoice::Segment(s) => sim.place_meeple_on_segment(s, player).is_ok(),
        MeepleChoice::Monastery => sim.place_meeple_on_monastery(player).is_ok(),
    };
    if !placed {
        return None;
    }
    let ghost b2 = sim@;
    proof {
        lemma_resolve_bounds(b2);
        assert(b2.tiles.len() == board@.tiles.len() + 1);
    }
    let events = sim.resolve_scoring();
    proof {
        assert forall|j: int| 0 <= j < events@.len() implies (#[trigger] events@[j]).points <= 165_000_000 by {
            assert(events_view(events@)[j] == events@[j]@);
        }
    }
    Some(points_for(player, &events))
}

fn meeple_rank(m: Option<MeepleChoice>) -> (r: u8)
    ensures
        r as int == spec_meeple_rank(m),
{
    match m {
        None => 0,
        Some(MeepleChoice::Segment(s)) => 1 + s.index(),
        Some(MeepleChoice::Monastery) => 5,
    }
}

/// Whether `a` comes before `b` by column, row, turns and follower choice.
fn move_key_less(a: &GreedyMove, b: &GreedyMove) -> (r: bool)
    ensures
        r == key_lt(*a, *b),
{
    if a.pos.0 != b.pos.0 {
        return a.pos.0 < b.pos.0;
    }
    if a.pos.1 != b.pos.1 {
        return a.pos.1 < b.pos.1;
    }
    if a.rotation != b.rotation {
        return a.rotation < b.rotation;
    }
    meeple_rank(a.meeple) < meeple_rank(b.meeple)
}

/// Keeps the preferred of the current best and `mv` scoring `score`.
fn consider(best: &mut Option<(GreedyMove, i32)>, mv: GreedyMove, score: i32)
    ensures
        *final(best) == better(*old(best), mv, score),
{
    match *best {
        None => {
            *best = Some((mv, score));
        },
        Some((m, bs)) => {
            if score > bs || (score == bs && move_key_less(&mv, &m)) {
                *best = Some((mv, score));
            }
        },
    }
}

/// The moves `w` admits, and those at cell `pos` with `rot` turns.
spec fn with_spot(w: spec_fn(GreedyMove) -> bool, pos: Pos, rot: u8) -> spec_fn(GreedyMove) -> bool {
    |m: GreedyMove| w(m) || (m.pos == pos && m.rotation == rot)
}

/// The moves `w` admits, and those at cell `pos` with `rot` turns that stand
/// no follower or one of the first `o` choices of `opts`.
spec fn spot_opts(w: spec_fn(GreedyMove) -> bool, pos: Pos, rot: u8, opts: Seq<MeepleChoice>, o: int) -> spec_fn(GreedyMove) -> bool {
    |m: GreedyMove| w(m) || (m.pos == pos && m.rotation == rot && (m.meeple is None
        || exists|j: int| 0 <= j < o && m.meeple == Some(#[trigger] opts[j])))
}

/// The moves at the first `n` cells of `cells`.
spec fn at_cells(cells: Seq<Pos>, n: int) -> spec_fn(GreedyMove) -> bool {
    |m: GreedyMove| exists|j: int| 0 <= j < n && #[trigger] cells[j] == m.pos
}

/// The moves at the first `i` cells, and those at cell `i` with fewer than `rot` turns.
spec fn upto_rot(cells: Seq<Pos>, i: int, rot: int) -> spec_fn(GreedyMove) -> bool {
    |m: GreedyMove| at_cells(cells, i)(m) || (m.pos == cells[i] && (m.rotation as int) < rot)
}

/// Folds every move at cell `pos` with `rot` turns into `best`.
fn best_at_spot(
    board: &Board,
    spec: &TileSpec,
    player: PlayerId,
    has_meeple: bool,
    pos: Pos,
    rot: u8,
    best: &mut Option<(GreedyMove, i32)>,
    Ghost(w): Ghost<spec_fn(GreedyMove) -> bool>,
)
    requires
        board.wf(),
        board@.tiles.len() < MAX_TILES,
        rot < 4,
        is_candidate(board@.tiles, pos),
        best_among(board@, *spec, player, has_meeple, w, *old(best)),
    ensures
        best_among(board@, *spec, player, has_meeple, with_spot(w, pos, rot), *final(best)),
{
    let ghost b = board@;
    let tile = PlacedTile::new(*spec, rot);
    assert(tile == PlacedTile { spec: *spec, rotation: rot });
    if board.can_place(pos, &tile).is_err() {
        proof {
            assert forall|m: GreedyMove| #[trigger] move_score(b, *spec, player, has_meeple, m) is Some
                implies w(m) == with_spot(w, pos, rot)(m) by {
                if m.pos == pos && m.rotation == rot {
                    assert(move_tile(*spec, m) == tile);
                }
            }
            lemma_best_same(b, *spec, player, has_meeple, w, with_spot(w, pos, rot), *best);
        }
        return;
    }
    let opts = if has_meeple {
        meeple_options(&tile)
    } else {
        Vec::new()
    };
    let s0 = simulate(board, pos, &tile, player, None);
    let mv0 = GreedyMove { pos, rotation: rot, meeple: None };
    let ghost start = *best;
    consider(best, mv0, s0);
    proof {
        assert(move_tile(*spec, mv0) == tile);
        assert(move_score(b, *spec, player, has_meeple, mv0) == Some(s0 as int));
        assert forall|m: GreedyMove| #[trigger] move_score(b, *spec, player, has_meeple, m) is Some
            implies spot_opts(w, pos, rot, opts@, 0)(m) == (w(m) || m == mv0) by {
            if m.pos == pos && m.rotation == rot && m.meeple is None {
                assert(m == mv0);
            }
        }
        lemma_best_add(b, *spec, player, has_meeple, w, spot_opts(w, pos, rot, opts@, 0), start, mv0, s0);
    }
    let mut o: usize = 0;
    while o < opts.len()
        invariant
            board.wf(),
            b == board@,
            board@.tiles.len() < MAX_TILES,
            rot < 4,
            tile == (PlacedTile { spec: *spec, rotation: rot }),
            rotation_ok(tile),
            in_bounds(pos),
            legal_spot(b, pos, tile),
            has_meeple ==> opts@ == spec_meeple_options(tile),
            !has_meeple ==> opts@.len() == 0,
            o <= opts@.len(),
            best_among(b, *spec, player, has_meeple, spot_opts(w, pos, rot, opts@, o as int), *best),
        decreases opts@.len() - o,
    {
        let choice = opts[o];
        let mv = GreedyMove { pos, rotation: rot, meeple: Some(choice) };
        let ghost cur = *best;
        proof {
            assert(opts@.contains(choice) && opts@[o as int] == choice);
            lemma_meeple_options(tile, choice);
            assert(move_tile(*spec, mv) == tile);
            assert forall|m: GreedyMove| #[trigger] move_score(b, *spec, player, has_meeple, m) is Some
                implies spot_opts(w, pos, rot, opts@, o + 1)(m) == (spot_opts(w, pos, rot, opts@, o as int)(m) || m == mv) by {
                if m.pos == pos && m.rotation == rot && m.meeple is Some {
                    if exists|j: int| 0 <= j < o + 1 && m.meeple == Some(#[trigger] opts@[j]) {
                        let j = choose|j: int| 0 <= j < o + 1 && m.meeple == Some(#[trigger] opts@[j]);
                        if j == o {
                            assert(m == mv);
                        }
                    }
                    if m == mv {
                        assert(m.meeple == Some(opts@[o as int]));
                    }
                }
            }
        }
        match simulate_with_meeple(board, pos, &tile, player, choice) {
            Some(sc) => {
                consider(best, mv, sc);
                proof {
                    assert(move_score(b, *spec, player, has_meeple, mv) == Some(sc as int));
                    lemma_best_add(
                        b,
                        *spec,
                        player,
                        has_meeple,
                        spot_opts(w, pos, rot, opts@, o as int),
                        spot_opts(w, pos, rot, opts@, o + 1),
                        cur,
                        mv,
                        sc,
                    );
                }
            },
            None => {
                proof {
                    assert(move_score(b, *spec, player, has_meeple, mv) is None);
                    lemma_best_same(
                        b,
                        *spec,
                        player,
                        has_meeple,
                        spot_opts(w, pos, rot, opts@, o as int),
                        spot_opts(w, pos, rot, opts@, o + 1),
                        cur,
                    );
                }
            },
        }
        o = o + 1;
    }
    proof {
        assert forall|m: GreedyMove| #[trigger] move_score(b, *spec, player, has_meeple, m) is Some
            implies spot_opts(w, pos, rot, opts@, opts@.len() as int)(m) == with_spot(w, pos, rot)(m) by {
            if m.pos == pos && m.rotation == rot && m.meeple is Some {
                let c = m.meeple.unwrap();
                assert(move_tile(*spec, m) == tile);
                lemma_meeple_options(tile, c);
                let j = choose|j: int| 0 <= j < opts@.len() && opts@[j] == c;
                assert(m.meeple == Some(opts@[j]));
            }
        }
        lemma_best_same(
            b,
            *spec,
            player,
            has_meeple,
            spot_opts(w, pos, rot, opts@, opts@.len() as int),
            with_spot(w, pos, rot),
            *best,
        );
    }
}

/// The preferred move for `player` with tile type `spec`, and what it earns:
/// the most points scored at once, the earliest move by cell, turns and
/// follower choice among equals; `None` when the tile fits nowhere.
pub fn choose_move_with_score(board: &Board, spec: &TileSpec, player: PlayerId, has_meeple: bool) -> (r: Option<(GreedyMove, i32)>)
    requires
        board.wf(),
        board_roomy(board@),
        board@.tiles.len() < MAX_TILES,
    ensures
        greedy_best(board@, *spec, player, has_meeple, r),
{
    let ghost b = board@;
    let cands = candidate_positions(board);
    let mut best: Option<(GreedyMove, i32)> = None;
    let mut i: usize = 0;
    while i < cands.len()
        invariant
            board.wf(),
            b == board@,
            board@.tiles.len() < MAX_TILES,
            i <= cands@.len(),
            forall|p: Pos| #[trigger] cands@.contains(p) <==> is_candidate(b.tiles, p),
            best_among(b, *spec, player, has_meeple, at_cells(cands@, i as int), best),
        decreases cands@.len() - i,
    {
        let pos = cands[i];
        proof {
            assert(cands@.contains(pos));
            lemma_best_same(b, *spec, player, has_meeple, at_cells(cands@, i as int), upto_rot(cands@, i as int, 0), best);
        }
        let mut rot: u8 = 0;
        while rot < 4
            invariant
                board.wf(),
                b == board@,
                board@.tiles.len() < MAX_TILES,
                i < cands@.len(),
                pos == cands@[i as int],
                is_candidate(b.tiles, pos),
                rot <= 4,
                best_among(b, *spec, player, has_meeple, upto_rot(cands@, i as int, rot as int), best),
            decreases 4 - rot,
        {
            best_at_spot(board, spec, player, has_meeple, pos, rot, &mut best, Ghost(upto_rot(cands@, i as int, rot as int)));
            proof {
                lemma_best_same(
                    b,
                    *spec,
                    player,
                    has_meeple,
                    with_spot(upto_rot(cands@, i as int, rot as int), pos, rot),
                    upto_rot(cands@, i as int, rot + 1),
                    best,
                );
            }
            rot = rot + 1;
        }
        proof {
            assert forall|m: GreedyMove| #[trigger] move_score(b, *spec, player, has_meeple, m) is Some
                implies upto_rot(cands@, i as int, 4)(m) == at_cells(cands@, i + 1)(m) by {
                if at_cells(cands@, i + 1)(m) {
                    let j = choose|j: int| 0 <= j < i + 1 && #[trigger] cands@[j] == m.pos;
                    if j < i {
                        assert(at_cells(cands@, i as int)(m));
                    }
                }
                if at_cells(cands@, i as int)(m) {
                    let j = choose|j: int| 0 <= j < i && #[trigger] cands@[j] == m.pos;
                    assert(cands@[j] == m.pos);
                }
                if m.pos == cands@[i as int] {
                    assert(cands@[i as int] == m.pos);
                }
            }
            lemma_best_same(b, *spec, player, has_meeple, upto_rot(cands@, i as int, 4), at_cells(cands@, i + 1), best);
        }
        i = i + 1;
    }
    proof {
        assert forall|m: GreedyMove| #[trigger] move_score(b, *spec, player, has_meeple, m) is Some
            implies at_cells(cands@, cands@.len() as int)(m) == (|x: GreedyMove| true)(m) by {
            assert(cands@.contains(m.pos));
            let j = choose|j: int| 0 <= j < cands@.len() && cands@[j] == m.pos;
            assert(cands@[j] == m.pos);
        }
        lemma_best_same(b, *spec, player, has_meeple, at_cells(cands@, cands@.len() as int), |x: GreedyMove| true, best);
    }
    best
}

/// The preferred move for `player` with tile type `spec`; `None` when the
/// tile fits nowhere.
pub fn choose_move(board: &Board, spec: &TileSpec, player: PlayerId, has_meeple: bool) -> (r: Option<GreedyMove>)
    requires
        board.wf(),
        board_roomy(board@),
        board@.tiles.len() < MAX_TILES,
    ensures
        r == greedy_pick(board@, *spec, player, has_meeple),
        r matches Some(m) ==> m.rotation < 4 && legal_spot(board@, m.pos, move_tile(*spec, m))
            && (m.meeple is Some ==> has_meeple),
        r is None ==> forall|m: GreedyMove| #[trigger] move_score(board@, *spec, player, has_meeple, m) is None,
{
    let res = choose_move_with_score(board, spec, player, has_meeple);
    proof {
        lemma_greedy_pick(board@, *spec, player, has_meeple, res);
    }
    match res {
        Some((m, _)) => Some(m),
        None => None,
    }
}

} // verus!
