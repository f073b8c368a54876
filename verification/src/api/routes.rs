use vstd::prelude::*;

use crate::api::error::ApiError;
use crate::domain::board::{events_view, PlacementError};
use crate::domain::feature::PlayerId;
use crate::domain::game::{game_wf, spec_new_game, spec_play_move, drop_unplayable, Game, GameModel, PlayMoveError};
use crate::domain::greedy::{greedy_pick, choose_move, GreedyMove};
use crate::domain::scoring::{EventView, ScoringEvent};
use crate::domain::snapshot::{shows, GameView};
use crate::domain::tile::Side;

verus! {

/// A request for a new game: how many players, and optionally the seed that
/// shuffles the tiles.
#[derive(Debug, Clone, Copy)]
pub struct CreateGameRequest {
    pub num_players: u8,
    pub seed: Option<u64>,
}

/// The answer to a turn: the game after it, the scoring it caused, and
/// whether the game is finished.
#[derive(Debug, Clone)]
pub struct TurnResponse {
    pub state: GameView,
    pub events: Vec<ScoringEvent>,
    pub finished: bool,
}

/// The game once tiles that fit nowhere are dropped from the top of the bag.
pub open spec fn drawable(g: GameModel) -> GameModel {
    GameModel { bag: drop_unplayable(g.board, g.bag), ..g }
}

/// The text naming a refused move, as Rust's debug formatting writes it.
pub open spec fn debug_text(e: PlayMoveError) -> Seq<char> {
    match e {
        PlayMoveError::BagEmpty => "BagEmpty"@,
        PlayMoveError::GameFinished => "GameFinished"@,
        PlayMoveError::Placement(PlacementError::Occupied) => "Placement(Occupied)"@,
        PlayMoveError::Placement(PlacementError::NotAdjacent) => "Placement(NotAdjacent)"@,
        PlayMoveError::Placement(PlacementError::EdgeMismatch(Side::North)) => "Placement(EdgeMismatch(North))"@,
        PlayMoveError::Placement(PlacementError::EdgeMismatch(Side::East)) => "Placement(EdgeMismatch(East))"@,
        PlayMoveError::Placement(PlacementError::EdgeMismatch(Side::South)) => "Placement(EdgeMismatch(South))"@,
        PlayMoveError::Placement(PlacementError::EdgeMismatch(Side::West)) => "Placement(EdgeMismatch(West))"@,
    }
}

/// The answer to a game in state `g` after a turn that caused `evs`.
pub open spec fn turn_answer(r: TurnResponse, g: GameModel, evs: Seq<EventView>) -> bool {
    &&& shows(r.state, g)
    &&& events_view(r.events@) == evs
    &&& r.finished == g.finished
}

/// The answer to a move refused for reason `e`.
pub open spec fn refused(r: ApiError, e: PlayMoveError) -> bool {
    r matches ApiError::BadMove(msg) && msg@ == debug_text(e)
}

/// The refusal of a game for a number of players outside one to five.
pub open spec fn bad_players(e: ApiError) -> bool {
    e matches ApiError::BadRequest(msg) && msg@ == "num_players must be in 1..=5"@
}

/// The text naming a refused move, as Rust's debug formatting writes it.
pub fn describe(e: PlayMoveError) -> (r: String)
    ensures
        r@ == debug_text(e),
{
    match e {
        PlayMoveError::BagEmpty => "BagEmpty".to_owned(),
        PlayMoveError::GameFinished => "GameFinished".to_owned(),
        PlayMoveError::Placement(PlacementError::Occupied) => "Placement(Occupied)".to_owned(),
        PlayMoveError::Placement(PlacementError::NotAdjacent) => "Placement(NotAdjacent)".to_owned(),
        PlayMoveError::Placement(PlacementError::EdgeMismatch(Side::North)) => "Placement(EdgeMismatch(North))".to_owned(),
        PlayMoveError::Placement(PlacementError::EdgeMismatch(Side::East)) => "Placement(EdgeMismatch(East))".to_owned(),
        PlayMoveError::Placement(PlacementError::EdgeMismatch(Side::South)) => "Placement(EdgeMismatch(South))".to_owned(),
        PlayMoveError::Placement(PlacementError::EdgeMismatch(Side::West)) => "Placement(EdgeMismatch(West))".to_owned(),
    }
}

/// A seed drawn by `rand::random`, for a game created without one. Nothing is
/// claimed of its value.
#[verifier::external_body]
fn random_seed() -> (r: u64) {
    rand::random::<u64>()
}

/// A new game for one to five players with the tiles shuffled by `seed`, its
/// bag already rid of tiles that fit nowhere.
pub fn create_game_with_seed(num_players: u8, seed: u64) -> (r: Result<Game, ApiError>)
    ensures
        match r {
            Ok(g) => 1 <= num_players <= 5 && game_wf(g@) && g@ == drawable(spec_new_game(num_players, seed)),
            Err(e) => !(1 <= num_players <= 5) && bad_players(e),
        },
{
    if !(1 <= num_players && num_players <= 5) {
        return Err(ApiError::BadRequest("num_players must be in 1..=5".to_owned()));
    }
    let mut game = Game::new(num_players, seed);
    let _ = game.ensure_drawable();
    Ok(game)
}

/// A new game as requested: refused unless for one to five players; shuffled
/// by the seed given, or by a random one.
pub fn create_game(req: &CreateGameRequest) -> (r: Result<Game, ApiError>)
    ensures
        match r {
            Ok(g) => 1 <= req.num_players <= 5 && game_wf(g@) && match req.seed {
                Some(seed) => g@ == drawable(spec_new_game(req.num_players, seed)),
                None => exists|seed: u64| g@ == #[trigger] drawable(spec_new_game(req.num_players, seed)),
            },
            Err(e) => !(1 <= req.num_players <= 5) && bad_players(e),
        },
{
    if !(1 <= req.num_players && req.num_players <= 5) {
        return Err(ApiError::BadRequest("num_players must be in 1..=5".to_owned()));
    }
    let seed = match req.seed {
        Some(s) => s,
        None => random_seed(),
    };
    create_game_with_seed(req.num_players, seed)
}

/// The game as it stands, after dropping tiles that fit nowhere from the top
/// of the bag.
pub fn get_game(game: &mut Game) -> (r: GameView)
    requires
        game_wf(old(game)@),
    ensures
        game_wf(final(game)@),
        final(game)@ == drawable(old(game)@),
        shows(r, final(game)@),
{
    let _ = game.ensure_drawable();
    GameView::from_game(game)
}

/// Plays a move sent by a client.
pub fn play_turn(game: &mut Game, mv: GreedyMove) -> (r: Result<TurnResponse, ApiError>)
    requires
        game_wf(old(game)@),
    ensures
        game_wf(final(game)@),
        final(game)@ == spec_play_move(old(game)@, mv).0,
        match (r, spec_play_move(old(game)@, mv).1) {
            (Ok(tr), Ok(evs)) => turn_answer(tr, final(game)@, evs),
            (Err(e), Err(pe)) => refused(e, pe),
            _ => false,
        },
{
    match game.play_move(mv) {
        Ok(events) => {
            let finished = game.finished;
            Ok(TurnResponse { state: GameView::from_game(game), events, finished })
        },
        Err(e) => Err(ApiError::BadMove(describe(e))),
    }
}

/// Plays the greedy move for the current player: refused once the game is
/// finished or the bag is empty, or when the tile on top fits nowhere.
pub fn bot_turn(game: &mut Game) -> (r: Result<TurnResponse, ApiError>)
    requires
        game_wf(old(game)@),
    ensures
        game_wf(final(game)@),
        old(game)@.finished ==> r == Err::<TurnResponse, ApiError>(ApiError::GameFinished) && final(game)@ == old(game)@,
        !old(game)@.finished ==> {
            let g1 = drawable(old(game)@);
            if g1.bag.len() == 0 {
                r == Err::<TurnResponse, ApiError>(ApiError::GameFinished) && final(game)@ == g1
            } else {
                let hm = g1.players[g1.current].meeples_remaining > 0;
                match greedy_pick(g1.board, g1.bag.last(), g1.current as PlayerId, hm) {
                    None => r == Err::<TurnResponse, ApiError>(ApiError::NoLegalGreedyMove) && final(game)@ == g1,
                    Some(m) => final(game)@ == spec_play_move(g1, m).0 && match (r, spec_play_move(g1, m).1) {
                        (Ok(tr), Ok(evs)) => turn_answer(tr, final(game)@, evs),
                        (Err(e), Err(pe)) => refused(e, pe),
                        _ => false,
                    },
                }
            }
        },
{
    if game.finished {
        return Err(ApiError::GameFinished);
    }
    let _ = game.ensure_drawable();
    if game.bag.len() == 0 {
        return Err(ApiError::GameFinished);
    }
    let spec = game.bag[game.bag.len() - 1];
    let pid = game.current_player as PlayerId;
    let has_meeple = game.players[game.current_player].meeples_remaining > 0;
    proof {
        crate::domain::game::lemma_near_origin_roomy(game@.board);
    }
    let mv = match choose_move(&game.board, &spec, pid, has_meeple) {
        Some(m) => m,
        None => {
            return Err(ApiError::NoLegalGreedyMove);
        },
    };
    play_turn(game, mv)
}

/// The moves open to the current player, after dropping tiles that fit
/// nowhere from the top of the bag.
pub fn legal_moves(game: &mut Game) -> (r: Vec<GreedyMove>)
    requires
        game_wf(old(game)@),
    ensures
        game_wf(final(game)@),
        final(game)@ == drawable(old(game)@),
        r@ == crate::domain::game::spec_game_moves(final(game)@),
{
    let _ = game.ensure_drawable();
    game.legal_moves()
}

} // verus!
