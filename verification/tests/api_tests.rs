use carcassonne_backend::api::error::ApiError;
use carcassonne_backend::api::routes::{
    bot_turn, create_game, create_game_with_seed, describe, get_game, legal_moves, play_turn,
    CreateGameRequest,
};
use carcassonne_backend::domain::board::PlacementError;
use carcassonne_backend::domain::game::PlayMoveError;
use carcassonne_backend::domain::greedy::GreedyMove;
use carcassonne_backend::domain::tile::Side;

#[test]
fn created_game_is_shown_as_created() {
    let req = CreateGameRequest { num_players: 2, seed: Some(42) };
    let mut game = create_game(&req).unwrap();
    let view = get_game(&mut game);
    assert_eq!(view.players.len(), 2);
    assert_eq!(view.board.cells.len(), 1);
    assert_eq!(view.bag_remaining, game.bag.len());
    assert!(!view.finished);
}

#[test]
fn player_count_outside_one_to_five_is_a_bad_request() {
    for n in [0u8, 6, 200] {
        let err = create_game_with_seed(n, 1).err().unwrap();
        assert_eq!(err, ApiError::BadRequest("num_players must be in 1..=5".to_string()));
        assert_eq!(err.status_code(), 400);
    }
    let req = CreateGameRequest { num_players: 0, seed: None };
    assert!(create_game(&req).is_err());
    let req = CreateGameRequest { num_players: 5, seed: None };
    assert_eq!(create_game(&req).unwrap().players.len(), 5);
}

#[test]
fn bot_turn_advances_the_game() {
    let mut game = create_game_with_seed(2, 7).unwrap();
    let before = game.bag.len();
    let answer = bot_turn(&mut game).unwrap();
    assert!(answer.state.bag_remaining < before);
    assert_eq!(answer.state.board.cells.len(), 2);
    assert_eq!(answer.state.current_player, 1);
    assert!(!answer.finished);
}

#[test]
fn legal_moves_of_a_fresh_game_are_not_empty() {
    let mut game = create_game_with_seed(2, 1).unwrap();
    assert!(!legal_moves(&mut game).is_empty());
}

#[test]
fn refused_move_is_a_bad_move_naming_the_reason() {
    let mut game = create_game_with_seed(2, 3).unwrap();
    let far = GreedyMove { pos: (9, 9), rotation: 0, meeple: None };
    let err = play_turn(&mut game, far).err().unwrap();
    assert_eq!(err, ApiError::BadMove("Placement(NotAdjacent)".to_string()));
    assert_eq!(err.status_code(), 400);
}

#[test]
fn finished_game_refuses_bot_turns_with_conflict() {
    let mut game = create_game_with_seed(2, 4).unwrap();
    game.finished = true;
    let err = bot_turn(&mut game).err().unwrap();
    assert_eq!(err, ApiError::GameFinished);
    assert_eq!(err.status_code(), 409);
}

#[test]
fn status_codes_of_every_failure() {
    assert_eq!(ApiError::GameNotFound.status_code(), 404);
    assert_eq!(ApiError::NoLegalGreedyMove.status_code(), 409);
    assert_eq!(ApiError::GameFinished.status_code(), 409);
    assert_eq!(ApiError::BadMove(String::new()).status_code(), 400);
}

#[test]
fn refusals_are_named_as_debug_formatting_names_them() {
    let all = [
        PlayMoveError::BagEmpty,
        PlayMoveError::GameFinished,
        PlayMoveError::Placement(PlacementError::Occupied),
        PlayMoveError::Placement(PlacementError::NotAdjacent),
        PlayMoveError::Placement(PlacementError::EdgeMismatch(Side::North)),
        PlayMoveError::Placement(PlacementError::EdgeMismatch(Side::East)),
        PlayMoveError::Placement(PlacementError::EdgeMismatch(Side::South)),
        PlayMoveError::Placement(PlacementError::EdgeMismatch(Side::West)),
    ];
    for e in all {
        assert_eq!(describe(e), format!("{:?}", e));
    }
}

#[test]
fn failures_carry_their_text() {
    assert_eq!(ApiError::GameNotFound.message(), "game not found");
    assert_eq!(
        ApiError::BadMove("Placement(Occupied)".to_string()).message(),
        "illegal move: Placement(Occupied)"
    );
    assert_eq!(ApiError::GameFinished.message(), "game already finished");
    assert_eq!(ApiError::BadRequest("nope".to_string()).message(), "nope");
    assert_eq!(ApiError::NoLegalGreedyMove.message(), "no legal greedy move available");
}
