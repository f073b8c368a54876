use vstd::prelude::*;

use rand::rngs::StdRng;
use rand::seq::SliceRandom;
use rand::SeedableRng;

use crate::domain::board::{
    board_roomy, board_wf, endgame_strays, events_view, has_neighbor, in_bounds, lemma_resolve_bounds, occupied,
    resolve_features, spec_can_place, spec_endgame, spec_offset, spec_place, spec_resolve, Board, BoardModel,
    PlacementError, Pos, MAX_TILES,
};
use crate::domain::closure::{
    changes_near, clear_if_closed, closed_clear, lemma_monastery_meeple_linked, lemma_place_linked,
    lemma_place_near, lemma_resolve_features_linked, lemma_resolve_features_near,
    lemma_resolve_monasteries_features, lemma_resolve_monasteries_linked, lemma_segment_meeple_linked,
    lemma_segment_meeple_near, lemma_tally_zero_empty, list_linked, side_key,
};
use crate::domain::endgame::lemma_endgame_home;
use crate::domain::feature::{feature_info, has_key, root_of, touched, PlayerId, SegmentRef};
use crate::domain::greedy::{
    candidate_positions, choose_move_with_score, greedy_pick, is_candidate, legal_spot,
    lemma_greedy_pick, move_tile, try_meeple, GreedyMove, MeepleChoice,
};
use crate::domain::oracle::{choose_free_choice, lemma_oracle_pick, oracle_best, oracle_pick};
use crate::domain::player::{Player, STARTING_MEEPLES};
use crate::domain::random::{choose_move_seeded, enumerate_legal, seeded_move, spec_legal_moves};
use crate::domain::scoring::{
    count_of, event_ok, lemma_count_index_positive, lemma_count_positive_contains, EventView,
    ScoringEvent,
};
use crate::domain::tally::{
    board_tally, lemma_returned_member, lemma_tally_endgame, lemma_tally_meeple_monastery,
    lemma_tally_meeple_segment, lemma_tally_place, lemma_tally_resolve, returned_tally,
};
use crate::domain::tile::{side_at, spec_segment, PlacedTile, TileSpec};
use crate::domain::tile_set::{base_game_bag, copies, spec_base_game_bag, spec_city_n_road_ew, starter_tile};

verus! {

/// Tiles in a full game: the base set, starter included.
pub const FULL_SET: usize = 72;

#[derive(Debug, Clone, Copy, PartialEq, Eq, Structural)]
pub enum PlayMoveError {
    BagEmpty,
    GameFinished,
    Placement(PlacementError),
}

/// A game: the board, the players in turn order, the tiles still to draw (the
/// last one is drawn next), whose turn it is, and whether the final scoring
/// has been done.
pub struct Game {
    pub board: Board,
    pub players: Vec<Player>,
    pub bag: Vec<TileSpec>,
    pub current_player: usize,
    pub finished: bool,
}

pub struct GameModel {
    pub board: BoardModel,
    pub players: Seq<Player>,
    pub bag: Seq<TileSpec>,
    pub current: int,
    pub finished: bool,
}

impl View for Game {
    type V = GameModel;

    open spec fn view(&self) -> GameModel {
        GameModel {
            board: self.board@,
            players: self.players@,
            bag: self.bag@,
            current: self.current_player as int,
            finished: self.finished,
        }
    }
}

// ---------------------------------------------------------------------------
// Drawing and shuffling
// ---------------------------------------------------------------------------

/// The permutation that `rand`'s `SliceRandom::shuffle`, with a `StdRng`
/// seeded from `seed`, applies to a slice of length `n`: the item ending at
/// place `i` comes from place `perm[i]`.
pub uninterp spec fn shuffle_perm(seed: u64, n: nat) -> Seq<int>;

/// Place `k` is taken by `perm`.
pub open spec fn taken(perm: Seq<int>, k: int) -> bool {
    exists|i: int| 0 <= i < perm.len() && perm[i] == k
}

/// `perm` rearranges the places `0..n`: each place is taken exactly once.
pub open spec fn is_permutation(perm: Seq<int>, n: nat) -> bool {
    &&& perm.len() == n
    &&& forall|i: int| 0 <= i < n ==> 0 <= #[trigger] perm[i] < n
    &&& forall|i: int, j: int| 0 <= i < n && 0 <= j < n && i != j ==> perm[i] != perm[j]
    &&& forall|k: int| 0 <= k < n ==> #[trigger] taken(perm, k)
}

/// `r` is `items` rearranged by the permutation `perm`.
pub open spec fn rearranged(r: Seq<TileSpec>, items: Seq<TileSpec>, perm: Seq<int>) -> bool {
    &&& is_permutation(perm, items.len())
    &&& r.len() == items.len()
    &&& forall|i: int| 0 <= i < r.len() ==> r[i] == items[#[trigger] perm[i]]
}

/// The base set in the order a shuffle seeded with `seed` leaves it.
pub open spec fn shuffled_set(seed: u64) -> Seq<TileSpec> {
    Seq::new(FULL_SET as nat, |i: int| spec_base_game_bag()[shuffle_perm(seed, FULL_SET as nat)[i]])
}

/// `i` is the first place of `s` holding `x`.
pub open spec fn is_first_index(s: Seq<TileSpec>, x: TileSpec, i: int) -> bool {
    0 <= i < s.len() && s[i] == x && forall|j: int| 0 <= j < i ==> s[j] != x
}

/// `s` without the first `x` in it, if any.
pub open spec fn remove_first(s: Seq<TileSpec>, x: TileSpec) -> Seq<TileSpec> {
    if exists|i: int| is_first_index(s, x, i) {
        s.remove(choose|i: int| is_first_index(s, x, i))
    } else {
        s
    }
}

/// The empty board.
pub open spec fn empty_board() -> BoardModel {
    BoardModel {
        tiles: Seq::empty(),
        features: Seq::empty(),
        monasteries: Seq::empty(),
        last_placed: None,
        meeples: Seq::empty(),
    }
}

/// Players `0..n` with no points and every follower in hand.
pub open spec fn initial_players(n: nat) -> Seq<Player> {
    Seq::new(n, |i: int| Player { id: i as PlayerId, score: 0, meeples_remaining: STARTING_MEEPLES })
}

/// A new game for `n` players drawing from `bag`: the starter tile at the
/// origin, and `bag` without its first starter tile to draw.
pub open spec fn spec_from_bag(n: u8, bag: Seq<TileSpec>) -> GameModel {
    GameModel {
        board: spec_place(empty_board(), (0i32, 0i32), PlacedTile { spec: spec_city_n_road_ew(), rotation: 0 }),
        players: initial_players(n as nat),
        bag: remove_first(bag, spec_city_n_road_ew()),
        current: 0,
        finished: false,
    }
}

/// A new game for `n` players: the starter tile at the origin, and the rest of
/// the shuffled set to draw.
pub open spec fn spec_new_game(n: u8, seed: u64) -> GameModel {
    spec_from_bag(n, shuffled_set(seed))
}

/// A sequence holding `x` at some place has a first place holding it.
pub proof fn lemma_first_index_exists(s: Seq<TileSpec>, x: TileSpec, i: int)
    requires
        0 <= i < s.len(),
        s[i] == x,
    ensures
        exists|c: int| is_first_index(s, x, c),
    decreases i,
{
    if forall|j: int| 0 <= j < i ==> s[j] != x {
        assert(is_first_index(s, x, i));
    } else {
        let j = choose|j: int| 0 <= j < i && s[j] == x;
        lemma_first_index_exists(s, x, j);
    }
}

// ---------------------------------------------------------------------------
// What a turn does
// ---------------------------------------------------------------------------

/// Player `i` takes a follower from the supply, if one is left.
pub open spec fn take_meeple(ps: Seq<Player>, i: int) -> Seq<Player> {
    ps.update(
        i,
        Player {
            meeples_remaining: if ps[i].meeples_remaining > 0 {
                (ps[i].meeples_remaining - 1) as u8
            } else {
                0
            },
            ..ps[i]
        },
    )
}

/// Each player in `ws`, in order, scores `pts`.
pub open spec fn add_points(ps: Seq<Player>, ws: Seq<PlayerId>, pts: u32) -> Seq<Player>
    decreases ws.len(),
{
    if ws.len() == 0 {
        ps
    } else {
        let q = add_points(ps, ws.drop_last(), pts);
        let w = ws.last() as int;
        q.update(w, Player { score: (q[w].score + pts) as u32, ..q[w] })
    }
}

/// Each player in `os`, in order, gets a follower back.
pub open spec fn return_all(ps: Seq<Player>, os: Seq<PlayerId>) -> Seq<Player>
    decreases os.len(),
{
    if os.len() == 0 {
        ps
    } else {
        let q = return_all(ps, os.drop_last());
        let o = os.last() as int;
        q.update(o, Player { meeples_remaining: (q[o].meeples_remaining + 1) as u8, ..q[o] })
    }
}

/// The players after the events are applied in order: winners score, then the
/// followers sent home return to their owners.
pub open spec fn spec_apply(ps: Seq<Player>, evs: Seq<EventView>) -> Seq<Player>
    decreases evs.len(),
{
    if evs.len() == 0 {
        ps
    } else {
        let q = spec_apply(ps, evs.drop_last());
        let e = evs.last();
        return_all(add_points(q, e.winners, e.points), e.meeples_returned)
    }
}

/// Standing the current player's follower as `meeple` says on the tile just
/// placed: only a player with a follower in the supply stands one, and the
/// follower leaves the supply only when it stands.
pub open spec fn stand_meeple(b: BoardModel, ps: Seq<Player>, cur: int, meeple: Option<MeepleChoice>) -> (BoardModel, Seq<Player>) {
    match meeple {
        None => (b, ps),
        Some(c) => if ps[cur].meeples_remaining == 0 {
            (b, ps)
        } else {
            let t = try_meeple(b, c, cur as PlayerId);
            (t.0, if t.1 is Ok { take_meeple(ps, cur) } else { ps })
        },
    }
}

/// Putting `t` at `pos` for the current player: the follower, the scoring, and
/// the turn passing on.
pub open spec fn turn_model(g: GameModel, pos: Pos, t: PlacedTile, meeple: Option<MeepleChoice>) -> (GameModel, Seq<EventView>) {
    let b1 = spec_place(g.board, pos, t);
    let s = stand_meeple(b1, g.players, g.current, meeple);
    let r = spec_resolve(s.0);
    (
        GameModel {
            board: r.0,
            players: spec_apply(s.1, r.1),
            current: (g.current + 1) % (g.players.len() as int),
            ..g
        },
        r.1,
    )
}

/// Tile type `spec` fits somewhere.
pub open spec fn playable(b: BoardModel, spec: TileSpec) -> bool {
    exists|pos: Pos, rot: u8| rot < 4 && #[trigger] legal_spot(b, pos, PlacedTile { spec, rotation: rot })
}

/// The bag after dropping tiles from the top until one fits.
pub open spec fn drop_unplayable(b: BoardModel, bag: Seq<TileSpec>) -> Seq<TileSpec>
    decreases bag.len(),
{
    if bag.len() == 0 || playable(b, bag.last()) {
        bag
    } else {
        drop_unplayable(b, bag.drop_last())
    }
}

/// The final scoring, once: the events are applied, and the followers sent
/// home with no event go back to their owners.
pub open spec fn spec_finish(g: GameModel) -> (GameModel, Seq<EventView>) {
    if g.finished {
        (g, Seq::empty())
    } else {
        let r = spec_endgame(g.board);
        (
            GameModel {
                board: r.0,
                players: return_all(spec_apply(g.players, r.1), endgame_strays(g.board)),
                finished: true,
                ..g
            },
            r.1,
        )
    }
}

/// Where a placement of `t` at `pos` fails, if it does: a cell too near the
/// edge of the coordinate range has no neighbour.
pub open spec fn game_can_place(tiles: Seq<(Pos, PlacedTile)>, pos: Pos, t: PlacedTile) -> Result<(), PlacementError> {
    if !in_bounds(pos) && !occupied(tiles, pos) {
        Err(PlacementError::NotAdjacent)
    } else {
        spec_can_place(tiles, pos, t)
    }
}

/// Playing move `mv` with the tile on top of the bag.
pub open spec fn spec_play_move(g: GameModel, mv: GreedyMove) -> (GameModel, Result<Seq<EventView>, PlayMoveError>) {
    if g.finished {
        (g, Err(PlayMoveError::GameFinished))
    } else if g.bag.len() == 0 {
        (g, Err(PlayMoveError::BagEmpty))
    } else {
        let t = PlacedTile { spec: g.bag.last(), rotation: (mv.rotation % 4) as u8 };
        match game_can_place(g.board.tiles, mv.pos, t) {
            Err(e) => (g, Err(PlayMoveError::Placement(e))),
            Ok(()) => {
                let g1 = GameModel { bag: g.bag.drop_last(), ..g };
                let r = turn_model(g1, mv.pos, t, mv.meeple);
                let g2 = GameModel { bag: drop_unplayable(r.0.board, r.0.bag), ..r.0 };
                if g2.bag.len() == 0 {
                    let f = spec_finish(g2);
                    (f.0, Ok(r.1 + f.1))
                } else {
                    (g2, Ok(r.1))
                }
            },
        }
    }
}

// ---------------------------------------------------------------------------
// Robot players
// ---------------------------------------------------------------------------

/// A robot player: the greedy player, or one drawing among the open moves at
/// random, the draw fixed by a seed that moves on by one at each draw.
#[derive(Debug, Clone, Copy)]
pub enum BotFn {
    Greedy,
    Random { counter: u64 },
}

/// The free-choice player, who picks the tile as well as the move.
#[derive(Debug, Clone, Copy)]
pub struct OracleFn;

/// The move `bot` makes for player `pid` holding tile type `spec`.
pub open spec fn bot_choice(bot: BotFn, b: BoardModel, spec: TileSpec, pid: PlayerId, hm: bool) -> Option<GreedyMove> {
    match bot {
        BotFn::Greedy => greedy_pick(b, spec, pid, hm),
        BotFn::Random { counter } => seeded_move(spec_legal_moves(b, spec, hm), counter),
    }
}

/// The robot after one move: the random player's seed moves on by one, wrapping.
pub open spec fn bot_next(bot: BotFn) -> BotFn {
    match bot {
        BotFn::Greedy => BotFn::Greedy,
        BotFn::Random { counter } => BotFn::Random {
            counter: if counter == u64::MAX {
                0
            } else {
                (counter + 1) as u64
            },
        },
    }
}

/// The turn passing on to the next player, nothing else changed.
pub open spec fn pass_turn(g: GameModel) -> GameModel {
    GameModel { current: (g.current + 1) % (g.players.len() as int), ..g }
}

/// Drawing for a robot turn: the tile on top of the bag is drawn; when it
/// fits nowhere for the robot it is dropped and the next one drawn; the first
/// one the robot places is played, and the turn passes on. When the bag runs
/// out before the robot places a tile, the turn passes on all the same.
pub open spec fn spec_draws(g: GameModel, bot: BotFn) -> (GameModel, BotFn, Seq<EventView>)
    decreases g.bag.len(),
{
    if g.bag.len() == 0 {
        (pass_turn(g), bot, Seq::empty())
    } else {
        let tile = g.bag.last();
        let g1 = GameModel { bag: g.bag.drop_last(), ..g };
        let mv = bot_choice(bot, g.board, tile, g.current as PlayerId, g.players[g.current].meeples_remaining > 0);
        match mv {
            None => spec_draws(g1, bot_next(bot)),
            Some(m) => {
                let r = turn_model(g1, m.pos, PlacedTile { spec: tile, rotation: (m.rotation % 4) as u8 }, m.meeple);
                (r.0, bot_next(bot), r.1)
            },
        }
    }
}

/// One robot turn: with tiles in the bag, the robot draws until it places
/// one (or the bag runs out), and the turn passes on. An empty bag ends the
/// turn with nothing drawn and nothing changed.
pub open spec fn spec_one_turn(g: GameModel, bot: BotFn) -> (GameModel, BotFn, Seq<EventView>) {
    if g.bag.len() == 0 {
        (g, bot, Seq::empty())
    } else {
        spec_draws(g, bot)
    }
}

/// One free-choice turn: the chosen tile leaves the bag and is played; when
/// no tile fits anywhere the top one is dropped.
pub open spec fn spec_oracle_turn(g: GameModel) -> (GameModel, Seq<EventView>) {
    if g.bag.len() == 0 {
        (g, Seq::empty())
    } else {
        match oracle_pick(g.board, g.bag, g.current as PlayerId, g.players[g.current].meeples_remaining > 0) {
            Some((idx, m)) => {
                let tile = g.bag[idx as int];
                let g1 = GameModel { bag: g.bag.remove(idx as int), ..g };
                turn_model(g1, m.pos, PlacedTile { spec: tile, rotation: (m.rotation % 4) as u8 }, m.meeple)
            },
            None => (GameModel { bag: g.bag.drop_last(), ..g }, Seq::empty()),
        }
    }
}

/// Robot turns, each player with its own robot, until the bag is empty (at
/// most `fuel` turns), then the final scoring.
pub open spec fn spec_full_game(g: GameModel, bots: Seq<BotFn>, fuel: nat) -> (GameModel, Seq<BotFn>)
    decreases fuel,
{
    if fuel == 0 || g.bag.len() == 0 {
        (spec_finish(g).0, bots)
    } else {
        let t = spec_one_turn(g, bots[g.current]);
        spec_full_game(t.0, bots.update(g.current, t.1), (fuel - 1) as nat)
    }
}

proof fn lemma_draws_bag(g: GameModel, bot: BotFn)
    ensures
        spec_draws(g, bot).0.bag.len() <= g.bag.len(),
        g.bag.len() > 0 ==> spec_draws(g, bot).0.bag.len() < g.bag.len(),
        spec_draws(g, bot).0.finished == g.finished,
    decreases g.bag.len(),
{
    if g.bag.len() > 0 {
        let g1 = GameModel { bag: g.bag.drop_last(), ..g };
        lemma_draws_bag(g1, bot_next(bot));
    }
}

/// A robot turn with tiles in the bag draws at least one of them.
pub proof fn lemma_one_turn_bag(g: GameModel, bot: BotFn)
    ensures
        spec_one_turn(g, bot).0.bag.len() <= g.bag.len(),
        g.bag.len() > 0 ==> spec_one_turn(g, bot).0.bag.len() < g.bag.len(),
        spec_one_turn(g, bot).0.finished == g.finished,
{
    lemma_draws_bag(g, bot);
}

proof fn lemma_draws_greedy(g: GameModel)
    ensures
        spec_draws(g, BotFn::Greedy).1 == BotFn::Greedy,
    decreases g.bag.len(),
{
    if g.bag.len() > 0 {
        lemma_draws_greedy(GameModel { bag: g.bag.drop_last(), ..g });
    }
}

/// The greedy robot keeps no state: it is the same robot after a turn.
pub proof fn lemma_one_turn_greedy(g: GameModel)
    ensures
        spec_one_turn(g, BotFn::Greedy).1 == BotFn::Greedy,
{
    lemma_draws_greedy(g);
}

proof fn lemma_draws_pass(g: GameModel, bot: BotFn)
    ensures
        spec_draws(g, bot).0.current == (g.current + 1) % (g.players.len() as int),
    decreases g.bag.len(),
{
    if g.bag.len() > 0 {
        let g1 = GameModel { bag: g.bag.drop_last(), ..g };
        lemma_draws_pass(g1, bot_next(bot));
        let tile = g.bag.last();
        let mv = bot_choice(bot, g.board, tile, g.current as PlayerId, g.players[g.current].meeples_remaining > 0);
        if let Some(m) = mv {
            let r = turn_model(g1, m.pos, PlacedTile { spec: tile, rotation: (m.rotation % 4) as u8 }, m.meeple);
            assert(r.0.current == (g1.current + 1) % (g1.players.len() as int));
        }
    }
}

/// A robot turn that draws a tile passes the turn on to the next player.
pub proof fn lemma_one_turn_passes(g: GameModel, bot: BotFn)
    requires
        g.bag.len() > 0,
    ensures
        spec_one_turn(g, bot).0.current == (g.current + 1) % (g.players.len() as int),
{
    lemma_draws_pass(g, bot);
}

/// Fuel beyond the tiles in the bag changes nothing.
pub proof fn lemma_full_game_fuel(g: GameModel, bots: Seq<BotFn>, fuel: nat)
    requires
        fuel >= g.bag.len(),
    ensures
        spec_full_game(g, bots, fuel) == spec_full_game(g, bots, g.bag.len()),
    decreases fuel,
{
    if fuel > 0 && g.bag.len() > 0 {
        let t = spec_one_turn(g, bots[g.current]);
        let bots2 = bots.update(g.current, t.1);
        lemma_one_turn_bag(g, bots[g.current]);
        lemma_full_game_fuel(t.0, bots2, (fuel - 1) as nat);
        lemma_full_game_fuel(t.0, bots2, (g.bag.len() - 1) as nat);
    }
}

/// The final scoring runs once: finishing a finished game changes nothing.
pub proof fn lemma_finish_once(g: GameModel)
    ensures
        spec_finish(g).0.finished,
        spec_finish(spec_finish(g).0) == (spec_finish(g).0, Seq::<EventView>::empty()),
{
}

/// A refused move leaves the game as it was.
pub proof fn lemma_refused_move_changes_nothing(g: GameModel, mv: GreedyMove)
    ensures
        spec_play_move(g, mv).1 is Err ==> spec_play_move(g, mv).0 == g,
{
}

/// Dropping unplayable tiles keeps the bottom of the bag in order, drops only
/// tiles that fit nowhere, stops at a tile that fits or at an empty bag, and
/// changes nothing when repeated: the longest part of the bag from the bottom
/// whose top tile fits is kept.
pub proof fn lemma_drop_unplayable_settles(b: BoardModel, bag: Seq<TileSpec>)
    ensures
        drop_unplayable(b, bag).len() <= bag.len(),
        drop_unplayable(b, bag) == bag.take(drop_unplayable(b, bag).len() as int),
        drop_unplayable(b, bag).len() == 0 || playable(b, drop_unplayable(b, bag).last()),
        forall|j: int| drop_unplayable(b, bag).len() <= j < bag.len() ==> !playable(b, #[trigger] bag[j]),
        drop_unplayable(b, drop_unplayable(b, bag)) == drop_unplayable(b, bag),
    decreases bag.len(),
{
    if bag.len() == 0 || playable(b, bag.last()) {
        assert(bag.take(bag.len() as int) =~= bag);
    } else {
        let rest = bag.drop_last();
        lemma_drop_unplayable_settles(b, rest);
        let r = drop_unplayable(b, rest);
        assert(rest.take(r.len() as int) =~= bag.take(r.len() as int));
        assert forall|j: int| r.len() <= j < bag.len() implies !playable(b, #[trigger] bag[j]) by {
            if j < rest.len() {
                assert(bag[j] == rest[j]);
            }
        }
    }
}

/// The view of a move's result: its events, or why it was refused.
pub open spec fn result_view(r: Result<Vec<ScoringEvent>, PlayMoveError>) -> Result<Seq<EventView>, PlayMoveError> {
    match r {
        Ok(evs) => Ok(events_view(evs@)),
        Err(e) => Err(e),
    }
}

/// The moves open to the current player with the tile on top of the bag.
pub open spec fn spec_game_moves(g: GameModel) -> Seq<GreedyMove> {
    if g.bag.len() == 0 {
        Seq::empty()
    } else {
        spec_legal_moves(g.board, g.bag.last(), g.players[g.current].meeples_remaining > 0)
    }
}

/// The events can be applied to the players: few, each worth little, sending
/// home only followers of the players, and within every supply and score.
pub open spec fn apply_ok(ps: Seq<Player>, evs: Seq<EventView>) -> bool {
    &&& ps.len() <= 255
    &&& evs.len() <= 700
    &&& forall|j: int| 0 <= j < evs.len() ==> (#[trigger] evs[j]).points <= 2400
    &&& forall|j: int, k: int| 0 <= j < evs.len() && 0 <= k < evs[j].meeples_returned.len()
        ==> (#[trigger] evs[j].meeples_returned[k] as int) < ps.len()
    &&& forall|i: int| 0 <= i < ps.len() ==> (#[trigger] ps[i]).score + 2400 * evs.len() <= u32::MAX
    &&& forall|i: int| 0 <= i < ps.len() ==> (#[trigger] ps[i]).meeples_remaining + returned_tally(evs, i as PlayerId) <= 255
}

/// `after` is `ps` once the events are applied, with their effect on every
/// player's supply and score.
pub open spec fn applied(ps: Seq<Player>, evs: Seq<EventView>, after: Seq<Player>) -> bool {
    &&& after == spec_apply(ps, evs)
    &&& after.len() == ps.len()
    &&& forall|i: int| 0 <= i < ps.len() ==> (#[trigger] after[i]).score <= ps[i].score + 2400 * evs.len()
        && after[i].score >= ps[i].score
        && after[i].meeples_remaining == ps[i].meeples_remaining + returned_tally(evs, i as PlayerId)
}

// ---------------------------------------------------------------------------
// The game's invariant
// ---------------------------------------------------------------------------

/// Every tile lies within `len - 1` cells of the origin on each axis.
pub open spec fn near_origin(b: BoardModel) -> bool {
    forall|i: int| 0 <= i < b.tiles.len() ==> {
        let p = (#[trigger] b.tiles[i]).0;
        -(b.tiles.len() as int) < p.0 < b.tiles.len() && -(b.tiles.len() as int) < p.1 < b.tiles.len()
    }
}

/// The game is consistent: a well formed board grown from the origin, at most
/// a full set of tiles, one to 255 players, every follower on the board owned
/// by a player, supplies and scores bounded by the tiles played, no finished
/// road or city holding a follower, and every listed follower standing where
/// the board records one.
pub open spec fn game_wf(g: GameModel) -> bool {
    let b = g.board;
    let n = g.players.len();
    &&& board_wf(b)
    &&& 1 <= n <= 255
    &&& 0 <= g.current < n
    &&& 1 <= b.tiles.len()
    &&& b.tiles.len() + g.bag.len() <= FULL_SET
    &&& b.monasteries.len() <= b.tiles.len()
    &&& near_origin(b)
    &&& forall|p: PlayerId| (p as int) >= n ==> #[trigger] board_tally(b, p) == 0
    &&& forall|i: int| 0 <= i < n ==> (#[trigger] g.players[i]).meeples_remaining + board_tally(b, i as PlayerId)
        <= STARTING_MEEPLES + b.tiles.len()
    &&& forall|i: int| 0 <= i < n ==> (#[trigger] g.players[i]).score
        <= 32_000 * b.tiles.len() + if g.finished { 2_000_000int } else { 0int }
    &&& closed_clear(b)
    &&& list_linked(b)
}

/// `rand`'s `SliceRandom::shuffle` on `items`, with a `StdRng` seeded from
/// `seed`. The source swaps items at indices drawn from the generator and the
/// slice's length alone; `shuffle_perm` names the permutation that results,
/// and the claim is that it is a permutation and that the items are rearranged
/// by it.
#[verifier::external_body]
fn shuffle_seeded(items: Vec<TileSpec>, seed: u64) -> (r: Vec<TileSpec>)
    ensures
        rearranged(r@, items@, shuffle_perm(seed, items@.len())),
{
    let mut items = items;
    let mut rng = StdRng::seed_from_u64(seed);
    items.shuffle(&mut rng);
    items
}

/// The base set holds the starter tile type, at place 7.
pub proof fn lemma_set_has_starter()
    ensures
        spec_base_game_bag().len() == FULL_SET,
        spec_base_game_bag()[7] == spec_city_n_road_ew(),
{
    let a = copies(crate::domain::tile_set::spec_monastery_with_road(), 2) + copies(crate::domain::tile_set::spec_monastery_alone(), 4)
        + copies(crate::domain::tile_set::spec_all_city_shield(), 1);
    let b = a + copies(spec_city_n_road_ew(), 4);
    assert(a.len() == 7);
    assert(b[7] == spec_city_n_road_ew());
    assert(spec_base_game_bag().len() == FULL_SET);
    assert(spec_base_game_bag()[7] == b[7]);
}

/// A prefix holds no more of `p`'s followers than the whole.
pub proof fn lemma_count_prefix(s: Seq<PlayerId>, k: int, p: PlayerId)
    requires
        0 <= k <= s.len(),
    ensures
        count_of(s.take(k), p) <= count_of(s, p),
    decreases s.len(),
{
    if k < s.len() {
        assert(s.take(k) =~= s.drop_last().take(k));
        lemma_count_prefix(s.drop_last(), k, p);
    } else {
        assert(s.take(k) =~= s);
    }
}

/// The events of a prefix send home no more of `p`'s followers than all of them.
pub proof fn lemma_returned_prefix(evs: Seq<EventView>, k: int, p: PlayerId)
    requires
        0 <= k <= evs.len(),
    ensures
        returned_tally(evs.take(k), p) <= returned_tally(evs, p),
    decreases evs.len(),
{
    if k < evs.len() {
        assert(evs.take(k) =~= evs.drop_last().take(k));
        lemma_returned_prefix(evs.drop_last(), k, p);
    } else {
        assert(evs.take(k) =~= evs);
    }
}

/// Each player in `ws` scores `pts`.
fn award(players: &mut Vec<Player>, ws: &Vec<PlayerId>, pts: u32)
    requires
        old(players)@.len() <= 256,
        ws@.no_duplicates(),
        forall|t: int| 0 <= t < ws@.len() ==> (ws@[t] as int) < old(players)@.len(),
        forall|i: int| 0 <= i < old(players)@.len() ==> (#[trigger] old(players)@[i]).score + pts <= u32::MAX,
    ensures
        final(players)@ == add_points(old(players)@, ws@, pts),
        final(players)@.len() == old(players)@.len(),
        forall|i: int| 0 <= i < old(players)@.len() ==> (#[trigger] final(players)@[i]).score
            == old(players)@[i].score + (if ws@.contains(i as PlayerId) { pts as int } else { 0int })
            && final(players)@[i].meeples_remaining == old(players)@[i].meeples_remaining,
{
    let ghost ps0 = players@;
    let mut t: usize = 0;
    while t < ws.len()
        invariant
            ps0.len() <= 256,
            t <= ws@.len(),
            ws@.no_duplicates(),
            forall|k: int| 0 <= k < ws@.len() ==> (ws@[k] as int) < ps0.len(),
            forall|i: int| 0 <= i < ps0.len() ==> (#[trigger] ps0[i]).score + pts <= u32::MAX,
            players@ == add_points(ps0, ws@.take(t as int), pts),
            players@.len() == ps0.len(),
            forall|i: int| 0 <= i < ps0.len() ==> (#[trigger] players@[i]).score
                == ps0[i].score + (if ws@.take(t as int).contains(i as PlayerId) { pts as int } else { 0int })
                && players@[i].meeples_remaining == ps0[i].meeples_remaining,
        decreases ws@.len() - t,
    {
        let w = ws[t];
        let ghost before = players@;
        proof {
            assert(ws@.take(t + 1).drop_last() =~= ws@.take(t as int));
            assert(ws@.take(t + 1).last() == w);
            assert(!ws@.take(t as int).contains(w)) by {
                if ws@.take(t as int).contains(w) {
                    let k = choose|k: int| 0 <= k < t && ws@.take(t as int)[k] == w;
                    assert(ws@[k] == ws@[t as int]);
                }
            }
            assert((w as int) < ps0.len());
            assert(((w as int) as PlayerId) == w);
        }
        players[w as usize].add_score(pts);
        t = t + 1;
        proof {
            assert forall|i: int| 0 <= i < ps0.len() implies (#[trigger] players@[i]).score
                == ps0[i].score + (if ws@.take(t as int).contains(i as PlayerId) { pts as int } else { 0int })
                && players@[i].meeples_remaining == ps0[i].meeples_remaining by {
                let pre = ws@.take(t - 1);
                let cur = ws@.take(t as int);
                let x = i as PlayerId;
                assert(cur.contains(x) == (pre.contains(x) || w == x)) by {
                    if cur.contains(x) {
                        let k = choose|k: int| 0 <= k < cur.len() && cur[k] == x;
                        if k < t - 1 {
                            assert(pre[k] == x);
                        }
                    }
                    if pre.contains(x) {
                        let k = choose|k: int| 0 <= k < pre.len() && pre[k] == x;
                        assert(cur[k] == x);
                    }
                    if w == x {
                        assert(cur[t - 1] == w);
                    }
                }
                if i != w as int {
                    assert(players@[i] == before[i]);
                }
            }
        }
    }
    assert(ws@.take(t as int) =~= ws@);
}

/// Each player in `os` gets a follower back.
fn give_back(players: &mut Vec<Player>, os: &Vec<PlayerId>)
    requires
        old(players)@.len() <= 256,
        forall|t: int| 0 <= t < os@.len() ==> (os@[t] as int) < old(players)@.len(),
        forall|i: int| 0 <= i < old(players)@.len() ==> (#[trigger] old(players)@[i]).meeples_remaining
            + count_of(os@, i as PlayerId) <= 255,
    ensures
        final(players)@ == return_all(old(players)@, os@),
        final(players)@.len() == old(players)@.len(),
        forall|i: int| 0 <= i < old(players)@.len() ==> (#[trigger] final(players)@[i]).meeples_remaining
            == old(players)@[i].meeples_remaining + count_of(os@, i as PlayerId)
            && final(players)@[i].score == old(players)@[i].score,
{
    let ghost ps0 = players@;
    let mut t: usize = 0;
    while t < os.len()
        invariant
            ps0.len() <= 256,
            t <= os@.len(),
            forall|k: int| 0 <= k < os@.len() ==> (os@[k] as int) < ps0.len(),
            forall|i: int| 0 <= i < ps0.len() ==> (#[trigger] ps0[i]).meeples_remaining + count_of(os@, i as PlayerId) <= 255,
            players@ == return_all(ps0, os@.take(t as int)),
            players@.len() == ps0.len(),
            forall|i: int| 0 <= i < ps0.len() ==> (#[trigger] players@[i]).meeples_remaining
                == ps0[i].meeples_remaining + count_of(os@.take(t as int), i as PlayerId)
                && players@[i].score == ps0[i].score,
        decreases os@.len() - t,
    {
        let o = os[t];
        let ghost before = players@;
        proof {
            assert(os@.take(t + 1).drop_last() =~= os@.take(t as int));
            assert(os@.take(t + 1).last() == o);
            assert((o as int) < ps0.len());
            assert(((o as int) as PlayerId) == o);
            lemma_count_prefix(os@, t + 1, o);
        }
        players[o as usize].return_meeple();
        t = t + 1;
        proof {
            assert forall|i: int| 0 <= i < ps0.len() implies (#[trigger] players@[i]).meeples_remaining
                == ps0[i].meeples_remaining + count_of(os@.take(t as int), i as PlayerId)
                && players@[i].score == ps0[i].score by {
                if i != o as int {
                    assert(players@[i] == before[i]);
                }
            }
        }
    }
    assert(os@.take(t as int) =~= os@);
}

/// A tile placed next to the board stays within the bound grown by one.
pub proof fn lemma_near_origin_place(b: BoardModel, pos: Pos, t: PlacedTile)
    requires
        near_origin(b),
        b.tiles.len() >= 1,
        in_bounds(pos),
        spec_can_place(b.tiles, pos, t) is Ok,
    ensures
        near_origin(spec_place(b, pos, t)),
{
    let len = b.tiles.len() as int;
    assert(has_neighbor(b.tiles, pos));
    let q = if occupied(b.tiles, spec_offset(pos, crate::domain::tile::Side::North)) {
        spec_offset(pos, crate::domain::tile::Side::North)
    } else if occupied(b.tiles, spec_offset(pos, crate::domain::tile::Side::East)) {
        spec_offset(pos, crate::domain::tile::Side::East)
    } else if occupied(b.tiles, spec_offset(pos, crate::domain::tile::Side::South)) {
        spec_offset(pos, crate::domain::tile::Side::South)
    } else {
        spec_offset(pos, crate::domain::tile::Side::West)
    };
    assert(occupied(b.tiles, q));
    let i = choose|i: int| 0 <= i < b.tiles.len() && b.tiles[i].0 == q;
    assert(-len < q.0 < len && -len < q.1 < len);
    let nt = spec_place(b, pos, t).tiles;
    assert forall|k: int| 0 <= k < nt.len() implies {
        let p = (#[trigger] nt[k]).0;
        -(nt.len() as int) < p.0 < nt.len() && -(nt.len() as int) < p.1 < nt.len()
    } by {
        if k < b.tiles.len() {
            assert(nt[k] == b.tiles[k]);
        }
    }
}

/// A board near the origin with at most a full set of tiles is roomy.
pub proof fn lemma_near_origin_roomy(b: BoardModel)
    requires
        near_origin(b),
        b.tiles.len() <= FULL_SET,
    ensures
        board_roomy(b),
{
    assert forall|i: int| 0 <= i < b.tiles.len() implies crate::domain::board::roomy((#[trigger] b.tiles[i]).0) by {
        let p = b.tiles[i].0;
        assert(-(b.tiles.len() as int) < p.0 < b.tiles.len());
    }
}

/// Before a turn's scoring: the board stays well formed, the follower stood
/// is counted, and the scoring's events can be applied.
pub proof fn lemma_turn_pre(g0: GameModel, pos: Pos, t: PlacedTile, meeple: Option<MeepleChoice>)
    requires
        game_wf(g0),
        g0.board.tiles.len() + g0.bag.len() < FULL_SET,
        in_bounds(pos),
        crate::domain::tile::rotation_ok(t),
        spec_can_place(g0.board.tiles, pos, t) is Ok,
        board_wf(stand_meeple(spec_place(g0.board, pos, t), g0.players, g0.current, meeple).0),
    ensures
        ({
            let b1 = spec_place(g0.board, pos, t);
            let s = stand_meeple(b1, g0.players, g0.current, meeple);
            &&& near_origin(b1)
            &&& s.0.tiles == b1.tiles
            &&& s.0.monasteries.len() == b1.monasteries.len()
            &&& b1.monasteries.len() <= g0.board.monasteries.len() + 1
            &&& s.1.len() == g0.players.len()
            &&& forall|p: PlayerId| (p as int) >= g0.players.len() ==> #[trigger] board_tally(s.0, p) == 0
            &&& forall|i: int| 0 <= i < g0.players.len() ==> (#[trigger] s.1[i]).meeples_remaining
                + board_tally(s.0, i as PlayerId) <= STARTING_MEEPLES + b1.tiles.len()
            &&& forall|i: int| 0 <= i < g0.players.len() ==> (#[trigger] s.1[i]).score == g0.players[i].score
            &&& apply_ok(s.1, spec_resolve(s.0).1)
        }),
{
    let n = g0.players.len();
    let b0 = g0.board;
    let b1 = spec_place(b0, pos, t);
    let s = stand_meeple(b1, g0.players, g0.current, meeple);
    let b2 = s.0;
    let ps2 = s.1;
    let pid = g0.current as PlayerId;
    lemma_near_origin_place(b0, pos, t);
    crate::domain::board::lemma_place_wf(b0, pos, t);
    let placed_ok = match meeple {
        None => false,
        Some(c) => g0.players[g0.current].meeples_remaining > 0 && try_meeple(b1, c, pid).1 is Ok,
    };
    assert forall|p: PlayerId| #[trigger] board_tally(b2, p) == board_tally(b0, p) + if placed_ok && pid == p { 1nat } else { 0nat } by {
        lemma_tally_place(b0, pos, t, p);
        match meeple {
            None => {},
            Some(MeepleChoice::Segment(sd)) => lemma_tally_meeple_segment(b1, sd, pid, p),
            Some(MeepleChoice::Monastery) => lemma_tally_meeple_monastery(b1, pid, p),
        }
    }
    assert forall|i: int| 0 <= i < n implies (#[trigger] ps2[i]).meeples_remaining
        + board_tally(b2, i as PlayerId) <= STARTING_MEEPLES + b1.tiles.len() by {
        assert(g0.players[i].meeples_remaining + board_tally(b0, i as PlayerId) <= STARTING_MEEPLES + b0.tiles.len());
    }
    let evs = spec_resolve(b2).1;
    lemma_resolve_bounds(b2);
    assert forall|j: int, k: int| 0 <= j < evs.len() && 0 <= k < evs[j].meeples_returned.len()
        implies (#[trigger] evs[j].meeples_returned[k] as int) < n by {
        let o = evs[j].meeples_returned[k];
        lemma_count_index_positive(evs[j].meeples_returned, k);
        lemma_returned_member(evs, j, o);
        lemma_tally_resolve(b2, o);
        if (o as int) >= n {
            assert(board_tally(b0, o) == 0);
        }
    }
    assert forall|i: int| 0 <= i < n implies (#[trigger] ps2[i]).meeples_remaining + returned_tally(evs, i as PlayerId) <= 255 by {
        lemma_tally_resolve(b2, i as PlayerId);
    }
    assert forall|i: int| 0 <= i < n implies (#[trigger] ps2[i]).score + 2400 * evs.len() <= u32::MAX by {
        assert(g0.players[i].score <= 32_000 * b0.tiles.len() + 2_000_000);
    }
}

/// A turn leaves no follower on a finished road or city: the scoring sends
/// home those on the features the tile closes, and the others are untouched.
pub proof fn lemma_turn_closed(g0: GameModel, pos: Pos, t: PlacedTile, meeple: Option<MeepleChoice>)
    requires
        game_wf(g0),
        in_bounds(pos),
        crate::domain::tile::rotation_ok(t),
        spec_can_place(g0.board.tiles, pos, t) is Ok,
        g0.board.tiles.len() < MAX_TILES,
        board_wf(stand_meeple(spec_place(g0.board, pos, t), g0.players, g0.current, meeple).0),
    ensures
        closed_clear(turn_model(g0, pos, t, meeple).0.board),
{
    let b0 = g0.board;
    let b1 = spec_place(b0, pos, t);
    crate::domain::board::lemma_place_wf(b0, pos, t);
    lemma_place_near(b0, pos, t);
    crate::domain::board::lemma_place_then_get(b0, pos, t, pos);
    assert forall|s: int| 0 <= s < 4 implies #[trigger] has_key(b1.features, side_key(pos, t, s)) by {
        let i = b1.tiles.len() - 1;
        assert(b1.tiles[i] == (pos, t));
        assert(has_key(b1.features, (b1.tiles[i].0, spec_segment(b1.tiles[i].1, side_at(s)))));
    }
    let st = stand_meeple(b1, g0.players, g0.current, meeple);
    let b2 = st.0;
    match meeple {
        Some(MeepleChoice::Segment(sd)) => {
            if g0.players[g0.current].meeples_remaining != 0 {
                lemma_segment_meeple_near(b1, sd, g0.current as PlayerId, pos, t);
            }
        },
        _ => {},
    }
    assert(changes_near(b1, b2, pos, t));
    assert(b2.tiles == b1.tiles && b2.last_placed == Some(pos));
    assert forall|s: int| 0 <= s < 4 implies #[trigger] has_key(b2.features, side_key(pos, t, s)) by {
        assert(has_key(b1.features, side_key(pos, t, s)));
    }
    let f = resolve_features(b2, pos, t, 0, Seq::empty());
    lemma_resolve_features_near(b2, pos, t, 0, Seq::empty());
    lemma_resolve_monasteries_features(f.0, pos, 0);
    let fin = turn_model(g0, pos, t, meeple).0.board;
    assert(fin.features == f.0.features);
    assert forall|k: SegmentRef| has_key(fin.features, k) implies #[trigger] clear_if_closed(feature_info(fin.features, k)) by {
        assert(has_key(b2.features, k));
        assert(has_key(b1.features, k));
        if touched(b1.features, pos, t, k) {
            let s = choose|s: int| 0 <= s < 4 && #[trigger] root_of(b1.features, k) == root_of(b1.features, (pos, spec_segment(t, side_at(s))));
            assert(has_key(b1.features, side_key(pos, t, s)));
            assert(root_of(b2.features, k) == root_of(b2.features, side_key(pos, t, s)));
            assert(clear_if_closed(feature_info(f.0.features, side_key(pos, t, s))));
            assert(root_of(f.0.features, k) == root_of(f.0.features, side_key(pos, t, s)));
        } else {
            assert(touched(b2.features, pos, t, k) == touched(b1.features, pos, t, k)) by {
                if touched(b2.features, pos, t, k) {
                    let s = choose|s: int| 0 <= s < 4 && #[trigger] root_of(b2.features, k) == root_of(b2.features, (pos, spec_segment(t, side_at(s))));
                    assert(has_key(b1.features, side_key(pos, t, s)));
                }
            }
            assert(feature_info(b2.features, k) == feature_info(b1.features, k));
            assert(feature_info(fin.features, k) == feature_info(b2.features, k));
            assert(has_key(b0.features, k) && feature_info(b1.features, k) == feature_info(b0.features, k));
            assert(clear_if_closed(feature_info(b0.features, k)));
        }
    }
}

/// A turn keeps every listed follower standing where the board records one.
pub proof fn lemma_turn_linked(g0: GameModel, pos: Pos, t: PlacedTile, meeple: Option<MeepleChoice>)
    requires
        game_wf(g0),
        in_bounds(pos),
        crate::domain::tile::rotation_ok(t),
        spec_can_place(g0.board.tiles, pos, t) is Ok,
        g0.board.tiles.len() < MAX_TILES,
        board_wf(stand_meeple(spec_place(g0.board, pos, t), g0.players, g0.current, meeple).0),
    ensures
        list_linked(turn_model(g0, pos, t, meeple).0.board),
{
    let b0 = g0.board;
    let b1 = spec_place(b0, pos, t);
    crate::domain::board::lemma_place_wf(b0, pos, t);
    lemma_place_linked(b0, pos, t);
    crate::domain::board::lemma_place_then_get(b0, pos, t, pos);
    let b2 = stand_meeple(b1, g0.players, g0.current, meeple).0;
    match meeple {
        Some(MeepleChoice::Segment(sd)) => {
            if g0.players[g0.current].meeples_remaining != 0 {
                lemma_segment_meeple_linked(b1, sd, g0.current as PlayerId);
            }
        },
        Some(MeepleChoice::Monastery) => {
            if g0.players[g0.current].meeples_remaining != 0 {
                lemma_monastery_meeple_linked(b1, g0.current as PlayerId);
            }
        },
        None => {},
    }
    assert(list_linked(b2));
    assert(b2.tiles == b1.tiles && b2.last_placed == Some(pos));
    assert forall|s: int| 0 <= s < 4 implies #[trigger] has_key(b2.features, side_key(pos, t, s)) by {
        let i = b2.tiles.len() - 1;
        assert(b2.tiles[i] == (pos, t));
        assert(has_key(b2.features, (b2.tiles[i].0, spec_segment(b2.tiles[i].1, side_at(s)))));
    }
    let f = resolve_features(b2, pos, t, 0, Seq::empty());
    lemma_resolve_features_linked(b2, pos, t, 0, Seq::empty());
    lemma_resolve_features_near(b2, pos, t, 0, Seq::empty());
    lemma_resolve_monasteries_linked(f.0, pos, 0);
}

/// After a turn's scoring, the game is consistent again.
pub proof fn lemma_turn_post(g0: GameModel, pos: Pos, t: PlacedTile, meeple: Option<MeepleChoice>, ps3: Seq<Player>)
    requires
        game_wf(g0),
        g0.board.tiles.len() + g0.bag.len() < FULL_SET,
        in_bounds(pos),
        crate::domain::tile::rotation_ok(t),
        spec_can_place(g0.board.tiles, pos, t) is Ok,
        ({
            let s = stand_meeple(spec_place(g0.board, pos, t), g0.players, g0.current, meeple);
            &&& board_wf(s.0)
            &&& board_wf(spec_resolve(s.0).0)
            &&& spec_resolve(s.0).0.tiles == s.0.tiles
            &&& spec_resolve(s.0).0.monasteries.len() == s.0.monasteries.len()
            &&& applied(s.1, spec_resolve(s.0).1, ps3)
        }),
    ensures
        game_wf(turn_model(g0, pos, t, meeple).0),
        turn_model(g0, pos, t, meeple).0.players == ps3,
        turn_model(g0, pos, t, meeple).0.board.tiles.len() == g0.board.tiles.len() + 1,
{
    lemma_turn_pre(g0, pos, t, meeple);
    lemma_turn_closed(g0, pos, t, meeple);
    lemma_turn_linked(g0, pos, t, meeple);
    let n = g0.players.len();
    let b1 = spec_place(g0.board, pos, t);
    let s = stand_meeple(b1, g0.players, g0.current, meeple);
    let r = spec_resolve(s.0);
    let g = turn_model(g0, pos, t, meeple).0;
    assert(g.board == r.0);
    lemma_resolve_bounds(s.0);
    assert(g.board.tiles.len() == g0.board.tiles.len() + 1);
    assert forall|p: PlayerId| (p as int) >= n implies #[trigger] board_tally(g.board, p) == 0 by {
        lemma_tally_resolve(s.0, p);
    }
    assert forall|i: int| 0 <= i < n implies (#[trigger] g.players[i]).meeples_remaining + board_tally(g.board, i as PlayerId)
        <= STARTING_MEEPLES + g.board.tiles.len() by {
        lemma_tally_resolve(s.0, i as PlayerId);
        assert(s.1[i].meeples_remaining + board_tally(s.0, i as PlayerId) <= STARTING_MEEPLES + b1.tiles.len());
    }
    assert forall|i: int| 0 <= i < n implies (#[trigger] g.players[i]).score
        <= 32_000 * g.board.tiles.len() + if g.finished { 2_000_000int } else { 0int } by {
        assert(s.1[i].score == g0.players[i].score);
        assert(g0.players[i].score <= 32_000 * g0.board.tiles.len() + if g0.finished { 2_000_000int } else { 0int });
    }
}

/// No player's score went down from `before` to `after`.
pub open spec fn scores_grow(before: GameModel, after: GameModel) -> bool {
    &&& after.players.len() == before.players.len()
    &&& forall|i: int| 0 <= i < before.players.len() ==> (#[trigger] after.players[i]).score >= before.players[i].score
}

/// Every follower of every player is either in the supply or on the board:
/// the supply and the followers standing make up the starting number.
pub open spec fn followers_kept(g: GameModel) -> bool {
    forall|i: int| 0 <= i < g.players.len()
        ==> (#[trigger] g.players[i]).meeples_remaining + board_tally(g.board, i as PlayerId) == STARTING_MEEPLES
}

/// Every player has all of their followers back in the supply.
pub open spec fn all_home(g: GameModel) -> bool {
    forall|i: int| 0 <= i < g.players.len() ==> (#[trigger] g.players[i]).meeples_remaining == STARTING_MEEPLES
}

/// A turn keeps every follower in the supply or on the board.
pub proof fn lemma_turn_keeps_followers(g0: GameModel, pos: Pos, t: PlacedTile, meeple: Option<MeepleChoice>, ps3: Seq<Player>)
    requires
        game_wf(g0),
        followers_kept(g0),
        g0.board.tiles.len() + g0.bag.len() < FULL_SET,
        in_bounds(pos),
        crate::domain::tile::rotation_ok(t),
        spec_can_place(g0.board.tiles, pos, t) is Ok,
        ({
            let s = stand_meeple(spec_place(g0.board, pos, t), g0.players, g0.current, meeple);
            &&& board_wf(s.0)
            &&& applied(s.1, spec_resolve(s.0).1, ps3)
        }),
    ensures
        followers_kept(turn_model(g0, pos, t, meeple).0),
{
    lemma_turn_pre(g0, pos, t, meeple);
    let n = g0.players.len();
    let b0 = g0.board;
    let b1 = spec_place(b0, pos, t);
    let s = stand_meeple(b1, g0.players, g0.current, meeple);
    let pid = g0.current as PlayerId;
    let placed_ok = match meeple {
        None => false,
        Some(c) => g0.players[g0.current].meeples_remaining > 0 && try_meeple(b1, c, pid).1 is Ok,
    };
    let g = turn_model(g0, pos, t, meeple).0;
    crate::domain::board::lemma_place_wf(b0, pos, t);
    assert forall|i: int| 0 <= i < n implies (#[trigger] g.players[i]).meeples_remaining
        + board_tally(g.board, i as PlayerId) == STARTING_MEEPLES by {
        let p = i as PlayerId;
        lemma_tally_place(b0, pos, t, p);
        match meeple {
            None => {},
            Some(MeepleChoice::Segment(sd)) => lemma_tally_meeple_segment(b1, sd, pid, p),
            Some(MeepleChoice::Monastery) => lemma_tally_meeple_monastery(b1, pid, p),
        }
        assert(board_tally(s.0, p) == board_tally(b0, p) + if placed_ok && pid == p { 1nat } else { 0nat });
        assert(s.1[i].meeples_remaining + (if placed_ok && pid == p { 1int } else { 0int })
            == g0.players[i].meeples_remaining);
        lemma_tally_resolve(s.0, p);
        assert(g.players == ps3);
    }
}

impl Game {
    pub open spec fn wf(&self) -> bool {
        game_wf(self@)
    }

    /// A new game for `num_players` players: the base set shuffled by `seed`,
    /// the starter tile taken out of it and placed at the origin.
    pub fn new(num_players: u8, seed: u64) -> (r: Game)
        requires
            num_players > 0,
        ensures
            r@ == spec_new_game(num_players, seed),
            r.wf(),
            r@.bag.len() == FULL_SET - 1,
            followers_kept(r@),
    {
        let full = base_game_bag();
        let bag = shuffle_seeded(full, seed);
        let starter = starter_tile();
        proof {
            lemma_set_has_starter();
            assert(bag@ =~= shuffled_set(seed));
            let perm = shuffle_perm(seed, FULL_SET as nat);
            assert(taken(perm, 7));
            let i = choose|i: int| 0 <= i < perm.len() && perm[i] == 7;
            assert(bag@[i] == starter);
            lemma_first_index_exists(bag@, starter, i);
            let c = choose|c: int| is_first_index(bag@, starter, c);
            assert(bag@.remove(c).len() == FULL_SET - 1);
        }
        Game::from_shuffled_bag(num_players, bag)
    }

    /// A new game for `num_players` players drawing from `bag`, already in the
    /// order it is drawn in: the first starter tile in it is taken out and
    /// placed at the origin (with none in it, the starter is placed all the
    /// same and the bag is left whole).
    pub fn from_shuffled_bag(num_players: u8, bag: Vec<TileSpec>) -> (r: Game)
        requires
            num_players > 0,
        ensures
            r@ == spec_from_bag(num_players, bag@),
            r@.bag.len() < FULL_SET ==> r.wf(),
            followers_kept(r@),
    {
        let mut bag = bag;
        let starter = starter_tile();
        let mut idx: usize = 0;
        while idx < bag.len()
            invariant
                idx <= bag@.len(),
                forall|j: int| 0 <= j < idx ==> bag@[j] != starter,
            ensures
                idx <= bag@.len(),
                forall|j: int| 0 <= j < idx ==> bag@[j] != starter,
                idx < bag@.len() ==> bag@[idx as int] == starter,
            decreases bag@.len() - idx,
        {
            if bag[idx].same_as(&starter) {
                break;
            }
            idx = idx + 1;
        }
        let ghost shuffled = bag@;
        if idx < bag.len() {
            proof {
                assert(is_first_index(bag@, starter, idx as int));
                let c = choose|c: int| is_first_index(bag@, starter, c);
                assert(c == idx);
            }
            let _ = bag.remove(idx);
            assert(bag@ == remove_first(shuffled, starter));
        } else {
            proof {
                assert forall|c: int| !is_first_index(shuffled, starter, c) by {
                    if is_first_index(shuffled, starter, c) {
                        assert(shuffled[c] == starter);
                    }
                }
            }
            assert(bag@ == remove_first(shuffled, starter));
        }
        let mut board = Board::new();
        let tile = PlacedTile::new(starter, 0);
        proof {
            assert(board@.tiles =~= empty_board().tiles);
            assert(board@.features =~= empty_board().features);
            assert(board@.monasteries =~= empty_board().monasteries);
            assert(board@.meeples =~= empty_board().meeples);
            assert(board@ == empty_board());
            assert forall|p: PlayerId| board_tally(spec_place(empty_board(), (0i32, 0i32), tile), p) == 0 by {
                lemma_tally_place(empty_board(), (0i32, 0i32), tile, p);
            }
        }
        let _ = board.place((0, 0), tile);
        let mut players: Vec<Player> = Vec::new();
        let mut k: u8 = 0;
        while k < num_players
            invariant
                k <= num_players,
                players@ == initial_players(k as nat),
            decreases num_players - k,
        {
            players.push(Player::new(k));
            k = k + 1;
            assert(players@ =~= initial_players(k as nat));
        }
        let g = Game { board, players, bag, current_player: 0, finished: false };
        proof {
            assert(g@.board.monasteries =~= Seq::<(Pos, crate::domain::board::MonasteryRecord)>::empty());
            assert(g@ == spec_from_bag(num_players, shuffled));
            assert(followers_kept(g@));
            assert forall|p: PlayerId| #[trigger] crate::domain::tally::graph_tally(g@.board.features, p) == 0 by {
                assert(board_tally(spec_place(empty_board(), (0i32, 0i32), tile), p) == 0);
            }
            lemma_tally_zero_empty(g@.board.features);
            assert forall|k: SegmentRef| has_key(g@.board.features, k) implies #[trigger] clear_if_closed(feature_info(g@.board.features, k)) by {
                assert(feature_info(g@.board.features, k).meeples.len() == 0);
            }
        }
        g
    }

    /// Applies the events in order: winners score the points, and the
    /// followers sent home return to their owners' supplies.
    fn apply_scoring(&mut self, events: &Vec<ScoringEvent>)
        requires
            apply_ok(old(self).players@, events_view(events@)),
            forall|j: int| 0 <= j < events@.len() ==> event_ok(#[trigger] events@[j]@),
        ensures
            final(self)@ == (GameModel { players: final(self).players@, ..old(self)@ }),
            applied(old(self).players@, events_view(events@), final(self).players@),
    {
        let ghost g0 = self@;
        let ghost n = g0.players.len();
        let ghost evs = events_view(events@);
        proof {
            assert forall|a: int| 0 <= a < events@.len() implies (#[trigger] events@[a]).points <= 2400 by {
                assert(evs[a] == events@[a]@);
            }
            assert forall|a: int, t: int| 0 <= a < events@.len() && 0 <= t < events@[a].meeples_returned@.len()
                implies (#[trigger] events@[a].meeples_returned@[t] as int) < n by {
                assert(evs[a] == events@[a]@);
                assert(evs[a].meeples_returned[t] == events@[a].meeples_returned@[t]);
            }
        }
        let mut j: usize = 0;
        while j < events.len()
            invariant
                j <= events@.len(),
                evs == events_view(events@),
                n == g0.players.len(),
                n <= 255,
                events@.len() <= 700,
                forall|a: int| 0 <= a < events@.len() ==> (#[trigger] events@[a]).points <= 2400,
                forall|a: int| 0 <= a < events@.len() ==> event_ok(#[trigger] events@[a]@),
                forall|a: int, t: int| 0 <= a < events@.len() && 0 <= t < events@[a].meeples_returned@.len()
                    ==> (#[trigger] events@[a].meeples_returned@[t] as int) < n,
                forall|i: int| 0 <= i < n ==> (#[trigger] g0.players[i]).score + 2400 * events@.len() <= u32::MAX,
                forall|i: int| 0 <= i < n ==> (#[trigger] g0.players[i]).meeples_remaining
                    + returned_tally(evs, i as PlayerId) <= 255,
                self@ == (GameModel { players: self.players@, ..g0 }),
                self.players@ == spec_apply(g0.players, evs.take(j as int)),
                self.players@.len() == n,
                forall|i: int| 0 <= i < n ==> (#[trigger] self.players@[i]).score <= g0.players[i].score + 2400 * j
                    && self.players@[i].score >= g0.players[i].score
                    && self.players@[i].meeples_remaining
                    == g0.players[i].meeples_remaining + returned_tally(evs.take(j as int), i as PlayerId),
            decreases events@.len() - j,
        {
            let ghost p0 = self.players@;
            let ghost e = events@[j as int]@;
            proof {
                assert forall|t: int| 0 <= t < e.winners.len() implies (e.winners[t] as int) < n by {
                    let w = e.winners[t];
                    assert(e.winners.contains(w));
                    assert(count_of(e.meeples_returned, w) > 0);
                    lemma_count_positive_contains(e.meeples_returned, w);
                    let k = choose|k: int| 0 <= k < e.meeples_returned.len() && e.meeples_returned[k] == w;
                    assert(events@[j as int].meeples_returned@[k] == w);
                }
                assert forall|t: int| 0 <= t < e.meeples_returned.len() implies (e.meeples_returned[t] as int) < n by {
                    assert(events@[j as int].meeples_returned@[t] == e.meeples_returned[t]);
                }
            }
            award(&mut self.players, &events[j].winners, events[j].points);
            let ghost p1 = self.players@;
            proof {
                assert(evs.take(j + 1).drop_last() =~= evs.take(j as int));
                assert(evs.take(j + 1).last() == e);
                assert forall|i: int| 0 <= i < n implies (#[trigger] p1[i]).meeples_remaining
                    + count_of(e.meeples_returned, i as PlayerId) <= 255 by {
                    lemma_returned_prefix(evs, j + 1, i as PlayerId);
                }
            }
            give_back(&mut self.players, &events[j].meeples_returned);
            j = j + 1;
            proof {
                assert(self.players@ == spec_apply(g0.players, evs.take(j as int)));
            }
        }
        assert(evs.take(j as int) =~= evs);
    }

    /// Puts `t` at `pos` for the current player, stands the follower `meeple`
    /// asks for, scores what the tile finished, and passes the turn on.
    fn play_tile(&mut self, pos: Pos, t: PlacedTile, meeple: Option<MeepleChoice>) -> (events: Vec<ScoringEvent>)
        requires
            game_wf(old(self)@),
            old(self)@.board.tiles.len() + old(self)@.bag.len() < FULL_SET,
            in_bounds(pos),
            crate::domain::tile::rotation_ok(t),
            spec_can_place(old(self)@.board.tiles, pos, t) is Ok,
        ensures
            game_wf(final(self)@),
            (final(self)@, events_view(events@)) == turn_model(old(self)@, pos, t, meeple),
            final(self)@.players.len() == old(self)@.players.len(),
            followers_kept(old(self)@) ==> followers_kept(final(self)@),
            scores_grow(old(self)@, final(self)@),
            final(self)@.board.tiles.len() == old(self)@.board.tiles.len() + 1,
    {
        let ghost g0 = self@;
        let _ = self.board.place(pos, t);
        let cur = self.current_player;
        let pid = cur as PlayerId;
        match meeple {
            Some(choice) => {
                if self.players[cur].meeples_remaining > 0 {
                    let placed_ok = match choice {
                        MeepleChoice::Segment(s) => self.board.place_meeple_on_segment(s, pid).is_ok(),
                        MeepleChoice::Monastery => self.board.place_meeple_on_monastery(pid).is_ok(),
                    };
                    if placed_ok {
                        let _ = self.players[cur].try_take_meeple();
                    }
                }
            },
            None => {},
        }
        proof {
            lemma_turn_pre(g0, pos, t, meeple);
        }
        let events = self.board.resolve_scoring();
        self.apply_scoring(&events);
        self.current_player = (cur + 1) % self.players.len();
        proof {
            lemma_turn_post(g0, pos, t, meeple, self.players@);
            if followers_kept(g0) {
                lemma_turn_keeps_followers(g0, pos, t, meeple, self.players@);
            }
        }
        events
    }

    /// Runs the final scoring and marks the game finished.
    fn run_endgame(&mut self) -> (events: Vec<ScoringEvent>)
        requires
            game_wf(old(self)@),
            !old(self)@.finished,
        ensures
            game_wf(final(self)@),
            (final(self)@, events_view(events@)) == spec_finish(old(self)@),
            followers_kept(old(self)@) ==> followers_kept(final(self)@),
            followers_kept(old(self)@) ==> all_home(final(self)@),
            forall|p: PlayerId| #[trigger] board_tally(final(self)@.board, p) == 0,
            final(self)@.board.meeples.len() == 0,
            final(self)@.players.len() == old(self)@.players.len(),
            scores_grow(old(self)@, final(self)@),
            final(self)@.board.tiles == old(self)@.board.tiles,
    {
        let ghost g0 = self@;
        let ghost n = g0.players.len();
        let ghost b0 = g0.board;
        let ghost st = endgame_strays(b0);
        let (events, strays) = self.board.endgame_scoring_with_strays();
        let ghost evs = events_view(events@);
        proof {
            assert forall|j: int, k: int| 0 <= j < events@.len() && 0 <= k < events@[j].meeples_returned@.len()
                implies (#[trigger] events@[j].meeples_returned@[k] as int) < n by {
                let o = events@[j].meeples_returned@[k];
                assert(evs[j] == events@[j]@);
                lemma_count_index_positive(evs[j].meeples_returned, k);
                lemma_returned_member(evs, j, o);
                lemma_tally_endgame(b0, o);
                if (o as int) >= n {
                    assert(board_tally(b0, o) == 0);
                }
            }
            assert forall|i: int| 0 <= i < n implies (#[trigger] g0.players[i]).meeples_remaining
                + returned_tally(evs, i as PlayerId) <= 255 by {
                lemma_tally_endgame(b0, i as PlayerId);
                assert(g0.players[i].meeples_remaining + board_tally(b0, i as PlayerId) <= STARTING_MEEPLES + b0.tiles.len());
            }
        }
        self.apply_scoring(&events);
        let ghost ps1 = self.players@;
        proof {
            assert forall|t: int| 0 <= t < strays@.len() implies (strays@[t] as int) < n by {
                let o = strays@[t];
                lemma_count_index_positive(st, t);
                lemma_tally_endgame(b0, o);
                if (o as int) >= n {
                    assert(board_tally(b0, o) == 0);
                }
            }
            assert forall|i: int| 0 <= i < n implies (#[trigger] ps1[i]).meeples_remaining
                + count_of(strays@, i as PlayerId) <= 255 by {
                lemma_tally_endgame(b0, i as PlayerId);
                assert(g0.players[i].meeples_remaining + board_tally(b0, i as PlayerId) <= STARTING_MEEPLES + b0.tiles.len());
            }
        }
        give_back(&mut self.players, &strays);
        self.finished = true;
        proof {
            let g = self@;
            assert(g.players == return_all(spec_apply(g0.players, evs), st));
            assert forall|p: PlayerId| #[trigger] board_tally(g.board, p) == 0 by {
                lemma_endgame_home(b0, p);
            }
            lemma_endgame_home(b0, 0);
            if followers_kept(g0) {
                assert forall|i: int| 0 <= i < n implies (#[trigger] g.players[i]).meeples_remaining
                    + board_tally(g.board, i as PlayerId) == STARTING_MEEPLES by {
                    lemma_tally_endgame(b0, i as PlayerId);
                    assert(g0.players[i].meeples_remaining + board_tally(b0, i as PlayerId) == STARTING_MEEPLES);
                }
            }
            assert forall|p: PlayerId| (p as int) >= n implies #[trigger] board_tally(g.board, p) == 0 by {
                lemma_tally_endgame(b0, p);
            }
            assert forall|i: int| 0 <= i < n implies (#[trigger] g.players[i]).meeples_remaining + board_tally(g.board, i as PlayerId)
                <= STARTING_MEEPLES + g.board.tiles.len() by {
                lemma_tally_endgame(b0, i as PlayerId);
                assert(g0.players[i].meeples_remaining + board_tally(b0, i as PlayerId) <= STARTING_MEEPLES + b0.tiles.len());
            }
            assert forall|i: int| 0 <= i < n implies (#[trigger] g.players[i]).score
                <= 32_000 * g.board.tiles.len() + if g.finished { 2_000_000int } else { 0int } by {
                assert(g0.players[i].score <= 32_000 * b0.tiles.len());
            }
            assert forall|i: int| 0 <= i < n implies (#[trigger] g.players[i]).score >= g0.players[i].score by {
                assert(ps1[i].score >= g0.players[i].score);
            }
        }
        events
    }

    /// Runs the final scoring, unless it has been run already.
    pub fn finish(&mut self)
        requires
            old(self).wf(),
        ensures
            final(self).wf(),
            final(self)@ == spec_finish(old(self)@).0,
            followers_kept(old(self)@) ==> followers_kept(final(self)@),
            !old(self)@.finished ==> forall|p: PlayerId| #[trigger] board_tally(final(self)@.board, p) == 0,
            !old(self)@.finished && followers_kept(old(self)@) ==> all_home(final(self)@),
            !old(self)@.finished ==> final(self)@.board.meeples.len() == 0,
            final(self)@.players.len() == old(self)@.players.len(),
            scores_grow(old(self)@, final(self)@),
    {
        if self.finished {
            return;
        }
        let _ = self.run_endgame();
    }

    fn is_playable(&self, spec: &TileSpec) -> (r: bool)
        requires
            game_wf(self@),
        ensures
            r == playable(self.board@, *spec),
    {
        let ghost b = self.board@;
        proof {
            lemma_near_origin_roomy(b);
        }
        let cands = candidate_positions(&self.board);
        let mut i: usize = 0;
        while i < cands.len()
            invariant
                self.board.wf(),
                b == self.board@,
                i <= cands@.len(),
                forall|p: Pos| #[trigger] cands@.contains(p) <==> is_candidate(b.tiles, p),
                forall|j: int, rot: u8| 0 <= j < i && rot < 4 ==> !#[trigger] legal_spot(b, cands@[j], PlacedTile { spec: *spec, rotation: rot }),
            decreases cands@.len() - i,
        {
            let pos = cands[i];
            assert(cands@.contains(pos));
            let mut rot: u8 = 0;
            while rot < 4
                invariant
                    self.board.wf(),
                    b == self.board@,
                    i < cands@.len(),
                    pos == cands@[i as int],
                    is_candidate(b.tiles, pos),
                    rot <= 4,
                    forall|r2: u8| r2 < rot ==> !legal_spot(b, pos, PlacedTile { spec: *spec, rotation: r2 }),
                decreases 4 - rot,
            {
                let t = PlacedTile::new(*spec, rot);
                assert(t == PlacedTile { spec: *spec, rotation: rot });
                if self.board.can_place(pos, &t).is_ok() {
                    assert(legal_spot(b, pos, PlacedTile { spec: *spec, rotation: rot }));
                    return true;
                }
                rot = rot + 1;
            }
            i = i + 1;
        }
        proof {
            if playable(b, *spec) {
                let (pos, rot) = choose|pos: Pos, rot: u8| rot < 4 && #[trigger] legal_spot(b, pos, PlacedTile { spec: *spec, rotation: rot });
                assert(cands@.contains(pos));
                let j = choose|j: int| 0 <= j < cands@.len() && cands@[j] == pos;
                assert(!legal_spot(b, cands@[j], PlacedTile { spec: *spec, rotation: rot }));
            }
        }
        false
    }

    /// Drops tiles from the top of the bag until one fits somewhere; returns
    /// that tile, or `None` when the bag runs out.
    pub fn ensure_drawable(&mut self) -> (r: Option<&TileSpec>)
        requires
            old(self).wf(),
        ensures
            final(self).wf(),
            final(self)@ == (GameModel { bag: drop_unplayable(old(self)@.board, old(self)@.bag), ..old(self)@ }),
            r matches Some(t) ==> final(self)@.bag.len() > 0 && *t == final(self)@.bag.last(),
            r is None ==> final(self)@.bag.len() == 0,
    {
        let ghost g0 = self@;
        loop
            invariant
                self.wf(),
                g0 == old(self)@,
                self@ == (GameModel { bag: self.bag@, ..g0 }),
                drop_unplayable(g0.board, self.bag@) == drop_unplayable(g0.board, g0.bag),
            decreases self.bag@.len(),
        {
            if self.bag.len() == 0 {
                assert(drop_unplayable(g0.board, self.bag@) == self.bag@);
                return None;
            }
            let top = self.bag[self.bag.len() - 1];
            if self.is_playable(&top) {
                assert(top == self.bag@.last());
                assert(drop_unplayable(g0.board, self.bag@) == self.bag@);
                return Some(&self.bag[self.bag.len() - 1]);
            }
            assert(drop_unplayable(g0.board, self.bag@) == drop_unplayable(g0.board, self.bag@.drop_last()));
            let _ = self.bag.pop();
        }
    }

    /// Plays `mv` with the tile on top of the bag: places it, stands the
    /// follower asked for if it can stand, scores, passes the turn on, drops
    /// tiles that fit nowhere, and runs the final scoring once the bag is empty.
    pub fn play_move(&mut self, mv: GreedyMove) -> (r: Result<Vec<ScoringEvent>, PlayMoveError>)
        requires
            old(self).wf(),
        ensures
            final(self).wf(),
            (final(self)@, result_view(r)) == spec_play_move(old(self)@, mv),
            followers_kept(old(self)@) ==> followers_kept(final(self)@),
            scores_grow(old(self)@, final(self)@),
            r is Err ==> final(self)@ == old(self)@,
            r is Ok ==> {
                &&& final(self)@.current == (old(self)@.current + 1) % (old(self)@.players.len() as int)
                &&& final(self)@.bag.len() < old(self)@.bag.len()
                &&& final(self)@.board.tiles.len() == old(self)@.board.tiles.len() + 1
                &&& final(self)@.finished == (final(self)@.bag.len() == 0)
            },
    {
        let ghost g0 = self@;
        if self.finished {
            return Err(PlayMoveError::GameFinished);
        }
        if self.bag.len() == 0 {
            return Err(PlayMoveError::BagEmpty);
        }
        let spec = self.bag[self.bag.len() - 1];
        let placed = PlacedTile::new(spec, mv.rotation);
        let pos = mv.pos;
        let inside = pos.0 > i32::MIN && pos.0 < i32::MAX && pos.1 > i32::MIN && pos.1 < i32::MAX;
        if !inside && self.board.get(pos).is_none() {
            return Err(PlayMoveError::Placement(PlacementError::NotAdjacent));
        }
        match self.board.can_place(pos, &placed) {
            Err(e) => {
                return Err(PlayMoveError::Placement(e));
            },
            Ok(()) => {},
        }
        let _ = self.bag.pop();
        let mut events = self.play_tile(pos, placed, mv.meeple);
        let ghost e1 = events@;
        let ghost g1 = self@;
        let _ = self.ensure_drawable();
        proof {
            lemma_drop_unplayable_settles(g1.board, g1.bag);
        }
        if self.bag.len() == 0 {
            let mut end = self.run_endgame();
            let ghost e2 = end@;
            events.append(&mut end);
            assert(events_view(events@) =~= events_view(e1) + events_view(e2));
        }
        Ok(events)
    }

    /// Every move open to the current player with the tile on top of the bag.
    pub fn legal_moves(&self) -> (r: Vec<GreedyMove>)
        requires
            self.wf(),
        ensures
            r@ == spec_game_moves(self@),
    {
        if self.bag.len() == 0 {
            return Vec::new();
        }
        let spec = self.bag[self.bag.len() - 1];
        let has_meeple = self.players[self.current_player].meeples_remaining > 0;
        proof {
            lemma_near_origin_roomy(self.board@);
        }
        enumerate_legal(&self.board, &spec, has_meeple)
    }

    /// The game is over once the bag is empty.
    pub fn is_over(&self) -> (r: bool)
        ensures
            r == (self@.bag.len() == 0),
    {
        self.bag.len() == 0
    }

    /// Each player's score, in turn order.
    pub fn final_scores(&self) -> (r: Vec<u32>)
        ensures
            r@.len() == self@.players.len(),
            forall|i: int| 0 <= i < r@.len() ==> #[trigger] r@[i] == self@.players[i].score,
    {
        let mut r: Vec<u32> = Vec::new();
        let mut i: usize = 0;
        while i < self.players.len()
            invariant
                i <= self.players@.len(),
                r@.len() == i,
                forall|k: int| 0 <= k < i ==> #[trigger] r@[k] == self.players@[k].score,
            decreases self.players@.len() - i,
        {
            r.push(self.players[i].score);
            i = i + 1;
        }
        r
    }

    /// Plays one turn for the current player with `bot`: draws from the top of
    /// the bag, dropping each tile the robot cannot place, plays the first one
    /// it places, and passes the turn on.
    pub fn play_one_turn(&mut self, bot: &mut BotFn) -> (r: Vec<ScoringEvent>)
        requires
            old(self).wf(),
        ensures
            final(self).wf(),
            (final(self)@, *final(bot), events_view(r@)) == spec_one_turn(old(self)@, *old(bot)),
            final(self)@.players.len() == old(self)@.players.len(),
            followers_kept(old(self)@) ==> followers_kept(final(self)@),
            scores_grow(old(self)@, final(self)@),
            old(self)@.bag.len() > 0 ==> final(self)@.current == (old(self)@.current + 1) % (old(self)@.players.len() as int),
            old(self)@.bag.len() == 0 ==> final(self)@ == old(self)@ && r@.len() == 0,
    {
        let ghost target = spec_one_turn(self@, *bot);
        let ghost n = self@.players.len();
        proof {
            if self@.bag.len() > 0 {
                lemma_one_turn_passes(self@, *bot);
            }
        }
        if self.bag.len() == 0 {
            let none: Vec<ScoringEvent> = Vec::new();
            assert(events_view(none@) =~= Seq::<EventView>::empty());
            return none;
        }
        loop
            invariant
                self.wf(),
                self@.players.len() == n,
                followers_kept(old(self)@) ==> followers_kept(self@),
                self@.players == old(self)@.players,
                spec_draws(self@, *bot) == target,
                target == spec_one_turn(old(self)@, *old(bot)),
                target.0.current == (old(self)@.current + 1) % (n as int),
                n == old(self)@.players.len(),
            decreases self@.bag.len(),
        {
            let ghost g = self@;
            let ghost b0 = *bot;
            let tile_spec = match self.bag.pop() {
                Some(t) => t,
                None => {
                    self.current_player = (self.current_player + 1) % self.players.len();
                    let none: Vec<ScoringEvent> = Vec::new();
                    assert(events_view(none@) =~= Seq::<EventView>::empty());
                    assert(self@ == pass_turn(g));
                    return none;
                },
            };
            let pid = self.current_player as PlayerId;
            let has_meeple = self.players[self.current_player].meeples_remaining > 0;
            proof {
                lemma_near_origin_roomy(self.board@);
            }
            let mv = bot.pick(&self.board, &tile_spec, pid, has_meeple);
            match mv {
                Some(m) => {
                    let placed = PlacedTile::new(tile_spec, m.rotation);
                    proof {
                        assert(move_tile(tile_spec, m) == placed);
                    }
                    let events = self.play_tile(m.pos, placed, m.meeple);
                    return events;
                },
                None => {},
            }
        }
    }

    /// The oracle's choice for the current player, and that it can be played.
    fn oracle_move(&self, oracle: &mut OracleFn, pid: PlayerId, has_meeple: bool) -> (r: Option<(usize, GreedyMove)>)
        requires
            game_wf(self@),
        ensures
            r == oracle_pick(self@.board, self@.bag, pid, has_meeple),
            r matches Some((i, m)) ==> i < self@.bag.len() && m.rotation < 4
                && legal_spot(self@.board, m.pos, move_tile(self@.bag[i as int], m))
                && (m.meeple is Some ==> has_meeple),
    {
        proof {
            lemma_near_origin_roomy(self.board@);
        }
        let res = oracle.pick(&self.board, self.bag.as_slice(), pid, has_meeple);
        proof {
            lemma_oracle_pick(self@.board, self@.bag, pid, has_meeple, res);
        }
        res
    }

    /// Plays one turn for the current player choosing freely among the tiles
    /// in the bag; drops the top tile when none fits anywhere.
    pub fn play_one_oracle_turn(&mut self, oracle: &mut OracleFn) -> (r: Vec<ScoringEvent>)
        requires
            old(self).wf(),
        ensures
            final(self).wf(),
            (final(self)@, events_view(r@)) == spec_oracle_turn(old(self)@),
            final(self)@.players.len() == old(self)@.players.len(),
            old(self)@.bag.len() > 0 ==> final(self)@.bag.len() == old(self)@.bag.len() - 1,
            scores_grow(old(self)@, final(self)@),
            followers_kept(old(self)@) ==> followers_kept(final(self)@),
    {
        let ghost g = self@;
        if self.bag.len() == 0 {
            let none: Vec<ScoringEvent> = Vec::new();
            assert(events_view(none@) =~= Seq::<EventView>::empty());
            return none;
        }
        let pid = self.current_player as PlayerId;
        let has_meeple = self.players[self.current_player].meeples_remaining > 0;
        proof {
            lemma_near_origin_roomy(self.board@);
        }
        let res = self.oracle_move(oracle, pid, has_meeple);
        match res {
            Some((idx, m)) => {
                let tile_spec = self.bag.remove(idx);
                let placed = PlacedTile::new(tile_spec, m.rotation);
                proof {
                    assert(move_tile(tile_spec, m) == placed);
                    assert(legal_spot(g.board, m.pos, placed));
                }
                self.play_tile(m.pos, placed, m.meeple)
            },
            None => {
                let _ = self.bag.pop();
                let none: Vec<ScoringEvent> = Vec::new();
                assert(events_view(none@) =~= Seq::<EventView>::empty());
                none
            },
        }
    }

    /// Plays robot turns, each player with its own robot, until the bag is
    /// empty, then runs the final scoring.
    pub fn play_full_game(&mut self, bots: &mut Vec<BotFn>)
        requires
            old(self).wf(),
            old(bots)@.len() == old(self)@.players.len(),
        ensures
            final(self).wf(),
            (final(self)@, final(bots)@) == spec_full_game(old(self)@, old(bots)@, old(self)@.bag.len()),
            final(self)@.players.len() == old(self)@.players.len(),
            followers_kept(old(self)@) ==> followers_kept(final(self)@),
            !old(self)@.finished ==> forall|p: PlayerId| #[trigger] board_tally(final(self)@.board, p) == 0,
            !old(self)@.finished && followers_kept(old(self)@) ==> all_home(final(self)@),
            !old(self)@.finished ==> final(self)@.board.meeples.len() == 0,
            scores_grow(old(self)@, final(self)@),
    {
        let ghost target = spec_full_game(self@, bots@, self@.bag.len());
        let ghost n = self@.players.len();
        while self.bag.len() > 0
            invariant
                self.wf(),
                self@.players.len() == n,
                scores_grow(old(self)@, self@),
                n == old(self)@.players.len(),
                followers_kept(old(self)@) ==> followers_kept(self@),
                self@.finished == old(self)@.finished,
                bots@.len() == self@.players.len(),
                spec_full_game(self@, bots@, self@.bag.len()) == target,
            decreases self@.bag.len(),
        {
            let cp = self.current_player;
            let mut bot = bots[cp];
            let ghost g = self@;
            let ghost bs = bots@;
            let _ = self.play_one_turn(&mut bot);
            bots.set(cp, bot);
            proof {
                lemma_one_turn_bag(g, bs[cp as int]);
                lemma_full_game_fuel(self@, bots@, (g.bag.len() - 1) as nat);
                assert(bots@ == bs.update(cp as int, bot));
            }
        }
        self.finish();
    }
}

impl BotFn {
    /// The robot's move for `player` holding tile type `spec`; the random
    /// robot's seed moves on by one.
    pub fn pick(&mut self, board: &Board, spec: &TileSpec, player: PlayerId, has_meeple: bool) -> (r: Option<GreedyMove>)
        requires
            board.wf(),
            board_roomy(board@),
            board@.tiles.len() < MAX_TILES,
        ensures
            r == bot_choice(*old(self), board@, *spec, player, has_meeple),
            *final(self) == bot_next(*old(self)),
            r matches Some(m) ==> m.rotation < 4 && legal_spot(board@, m.pos, move_tile(*spec, m)),
            r matches Some(m) ==> (m.meeple is Some ==> has_meeple),
    {
        match *self {
            BotFn::Greedy => {
                let res = choose_move_with_score(board, spec, player, has_meeple);
                proof {
                    lemma_greedy_pick(board@, *spec, player, has_meeple, res);
                }
                match res {
                    Some((m, _)) => Some(m),
                    None => None,
                }
            },
            BotFn::Random { counter } => {
                let next = if counter == u64::MAX {
                    0
                } else {
                    counter + 1
                };
                *self = BotFn::Random { counter: next };
                choose_move_seeded(board, spec, player, has_meeple, counter)
            },
        }
    }
}

impl OracleFn {
    /// The free choice for `player` among the tiles in `bag`: the bag place of
    /// the tile and the move to play with it.
    pub fn pick(&mut self, board: &Board, bag: &[TileSpec], player: PlayerId, has_meeple: bool) -> (r: Option<(usize, GreedyMove)>)
        requires
            board.wf(),
            board_roomy(board@),
            board@.tiles.len() < MAX_TILES,
        ensures
            oracle_best(board@, bag@, player, has_meeple, r),
    {
        choose_free_choice(board, bag, player, has_meeple)
    }
}

/// The greedy robot.
pub fn greedy_bot() -> (r: BotFn)
    ensures
        r == BotFn::Greedy,
{
    BotFn::Greedy
}

/// The random robot whose first draw is fixed by `seed`.
pub fn random_bot(seed: u64) -> (r: BotFn)
    ensures
        r == (BotFn::Random { counter: seed }),
{
    BotFn::Random { counter: seed }
}

/// The free-choice player.
pub fn oracle_bot() -> (r: OracleFn)
    ensures
        r == OracleFn,
{
    OracleFn
}

} // verus!
