use carcassonne_backend::domain::game::{
    greedy_bot, oracle_bot, random_bot, BotFn, Game, PlayMoveError, FULL_SET,
};
use carcassonne_backend::domain::greedy::GreedyMove;
use carcassonne_backend::domain::player::STARTING_MEEPLES;
use carcassonne_backend::domain::board::Board;
use carcassonne_backend::domain::player::Player;
use carcassonne_backend::domain::tile::{EdgeKind, PlacedTile, Side, TileSpec};
use carcassonne_backend::domain::tile_set::{base_game_bag, monastery_alone, road_straight, starter_tile};

#[test]
fn new_game_places_starter_at_origin_and_drops_one_from_bag() {
    let game = Game::new(2, 42);
    assert_eq!(game.board.len(), 1);
    assert!(game.board.get((0, 0)).is_some());
    assert_eq!(game.bag.len(), 71);
    assert_eq!(game.players.len(), 2);
}

#[test]
fn greedy_vs_greedy_terminates_with_valid_scores() {
    let mut game = Game::new(2, 7);
    let mut bots: Vec<BotFn> = vec![greedy_bot(), greedy_bot()];
    game.play_full_game(&mut bots);
    assert!(game.is_over());
    let scores = game.final_scores();
    assert_eq!(scores.len(), 2);
    assert!(scores.iter().sum::<u32>() > 0);
}

#[test]
fn same_seed_produces_identical_scores() {
    let mut g1 = Game::new(2, 123);
    let mut g2 = Game::new(2, 123);
    let mut bots1: Vec<BotFn> = vec![greedy_bot(), greedy_bot()];
    let mut bots2: Vec<BotFn> = vec![greedy_bot(), greedy_bot()];
    g1.play_full_game(&mut bots1);
    g2.play_full_game(&mut bots2);
    assert_eq!(g1.final_scores(), g2.final_scores());
}

#[test]
fn play_move_advances_player_and_pops_bag() {
    let mut game = Game::new(2, 5);
    let before_bag = game.bag.len();
    let mvs = game.legal_moves();
    let mv = mvs.into_iter().next().expect("at least one legal move");
    let _events = game.play_move(mv).unwrap();
    assert_eq!(game.current_player, 1);
    assert!(game.bag.len() < before_bag);
}

#[test]
fn play_move_rejects_after_finished() {
    let mut game = Game::new(2, 9);
    let mut bots: Vec<BotFn> = vec![greedy_bot(), greedy_bot()];
    game.play_full_game(&mut bots);
    assert!(game.finished);
    let dummy = GreedyMove { pos: (10, 10), rotation: 0, meeple: None };
    assert_eq!(game.play_move(dummy), Err(PlayMoveError::GameFinished));
}

#[test]
fn legal_moves_lists_at_least_one_for_fresh_game() {
    let game = Game::new(2, 3);
    assert!(!game.legal_moves().is_empty());
}

#[test]
fn ensure_drawable_returns_some_for_fresh_game() {
    let mut game = Game::new(2, 4);
    assert!(game.ensure_drawable().is_some());
}

#[test]
fn different_seeds_produce_different_outcomes() {
    let mut g1 = Game::new(2, 1);
    let mut g2 = Game::new(2, 2);
    let mut bots1: Vec<BotFn> = vec![greedy_bot(), greedy_bot()];
    let mut bots2: Vec<BotFn> = vec![greedy_bot(), greedy_bot()];
    g1.play_full_game(&mut bots1);
    g2.play_full_game(&mut bots2);
    assert_ne!(g1.final_scores(), g2.final_scores());
}

#[test]
fn new_game_bag_is_a_shuffle_of_the_set_without_the_starter() {
    let game = Game::new(3, 42);
    let mut expected = base_game_bag();
    let starter = starter_tile();
    let at = expected.iter().position(|t| *t == starter).unwrap();
    expected.remove(at);
    assert_eq!(game.bag.len(), FULL_SET - 1);
    for t in expected.iter() {
        let want = expected.iter().filter(|x| *x == t).count();
        let got = game.bag.iter().filter(|x| *x == t).count();
        assert_eq!(want, got);
    }
    // A seeded shuffle of 71 tiles leaves them in another order.
    assert_ne!(game.bag, expected);
    assert_eq!(game.players.len(), 3);
    assert!(game.players.iter().all(|p| p.score == 0 && p.meeples_remaining == STARTING_MEEPLES));
    assert_eq!(game.current_player, 0);
    assert!(!game.finished);
}

#[test]
fn same_seed_gives_same_bag() {
    let a = Game::new(2, 77);
    let b = Game::new(2, 77);
    assert_eq!(a.bag, b.bag);
}

#[test]
fn illegal_move_is_refused_and_changes_nothing() {
    let mut game = Game::new(2, 5);
    let before = game.bag.clone();
    let far = GreedyMove { pos: (10, 10), rotation: 0, meeple: None };
    assert!(matches!(game.play_move(far), Err(PlayMoveError::Placement(_))));
    assert_eq!(game.bag, before);
    assert_eq!(game.current_player, 0);
    assert_eq!(game.board.len(), 1);
}

#[test]
fn followers_in_hand_and_on_board_always_add_up_to_seven() {
    let mut game = Game::new(2, 21);
    let mut bots: Vec<BotFn> = vec![greedy_bot(), random_bot(3)];
    for _ in 0..30 {
        if game.bag.is_empty() {
            break;
        }
        let cp = game.current_player;
        let _ = game.play_one_turn(&mut bots[cp]);
        for p in game.players.iter() {
            let on_board = game.board.meeples().iter().filter(|m| m.owner == p.id).count();
            assert_eq!(p.meeples_remaining as usize + on_board, STARTING_MEEPLES as usize);
        }
    }
}

#[test]
fn full_game_empties_the_bag_and_the_board_of_followers() {
    let mut game = Game::new(2, 8);
    let mut bots: Vec<BotFn> = vec![random_bot(1), random_bot(2)];
    game.play_full_game(&mut bots);
    assert!(game.bag.is_empty());
    assert!(game.finished);
    assert!(game.is_over());
    assert!(game.board.meeples().is_empty());
    for p in game.players.iter() {
        assert_eq!(p.meeples_remaining, STARTING_MEEPLES);
    }
    let scores = game.final_scores();
    assert_eq!(scores, game.players.iter().map(|p| p.score).collect::<Vec<u32>>());
}

#[test]
fn oracle_turn_places_a_tile_and_takes_it_from_the_bag() {
    let mut game = Game::new(2, 31);
    let mut oracle = oracle_bot();
    let before = game.bag.len();
    let _ = game.play_one_oracle_turn(&mut oracle);
    assert_eq!(game.bag.len(), before - 1);
    assert_eq!(game.board.len(), 2);
    assert_eq!(game.current_player, 1);
}

#[test]
fn scores_never_go_down_over_turns_and_the_final_scoring() {
    let mut game = Game::new(3, 17);
    let mut bots: Vec<BotFn> = vec![greedy_bot(), random_bot(4), greedy_bot()];
    let mut last = game.final_scores();
    while !game.is_over() {
        let cp = game.current_player;
        let _ = game.play_one_turn(&mut bots[cp]);
        let now = game.final_scores();
        assert!(now.iter().zip(last.iter()).all(|(a, b)| a >= b));
        last = now;
    }
    game.finish();
    let now = game.final_scores();
    assert!(now.iter().zip(last.iter()).all(|(a, b)| a >= b));
}

#[test]
fn finishing_twice_scores_once() {
    let mut game = Game::new(2, 6);
    let mut bot = greedy_bot();
    for _ in 0..10 {
        let _ = game.play_one_turn(&mut bot);
    }
    game.finish();
    let once = game.final_scores();
    let on_board = game.board.meeples().len();
    game.finish();
    assert_eq!(game.final_scores(), once);
    assert_eq!(game.board.meeples().len(), on_board);
    assert!(game.finished);
}

#[test]
fn ensure_drawable_is_settled_after_one_call() {
    let mut game = Game::new(2, 12);
    let top = game.ensure_drawable().copied();
    let bag = game.bag.clone();
    assert_eq!(game.ensure_drawable().copied(), top);
    assert_eq!(game.bag, bag);
    assert_eq!(game.bag.last().copied(), top);
}

#[test]
fn move_on_an_empty_bag_before_the_final_scoring_is_refused() {
    let mut game = Game::new(2, 14);
    let mut bot = greedy_bot();
    while !game.is_over() {
        let _ = game.play_one_turn(&mut bot);
    }
    assert!(!game.finished);
    let mv = GreedyMove { pos: (0, 1), rotation: 0, meeple: None };
    assert_eq!(game.play_move(mv), Err(PlayMoveError::BagEmpty));
}

#[test]
fn turn_passes_on_even_when_every_drawn_tile_is_refused() {
    let all_city = TileSpec {
        edges: [EdgeKind::City; 4],
        segments: [0; 4],
        monastery: false,
        shield: false,
    };
    let all_road = TileSpec {
        edges: [EdgeKind::Road; 4],
        segments: [0, 1, 2, 3],
        monastery: false,
        shield: false,
    };
    let mut board = Board::new();
    board.place((0, 0), PlacedTile::new(all_city, 0)).unwrap();
    let mut game = Game {
        board,
        players: vec![Player::new(0), Player::new(1)],
        bag: vec![all_road, all_road],
        current_player: 0,
        finished: false,
    };
    let mut bot = greedy_bot();
    let events = game.play_one_turn(&mut bot);
    assert!(events.is_empty());
    assert!(game.bag.is_empty());
    assert_eq!(game.board.len(), 1);
    assert_eq!(game.current_player, 1);
    // With nothing left to draw the turn changes nothing.
    let _ = game.play_one_turn(&mut bot);
    assert_eq!(game.current_player, 1);
}

#[test]
fn a_player_with_an_empty_supply_stands_no_follower() {
    let mut game = Game::new(2, 5);
    game.players[0].meeples_remaining = 0;
    let mv = game
        .legal_moves()
        .into_iter()
        .next()
        .expect("at least one legal move");
    let mv = GreedyMove { meeple: Some(carcassonne_backend::domain::greedy::MeepleChoice::Segment(Side::North)), ..mv };
    assert!(game.play_move(mv).is_ok());
    assert!(game.board.meeples().is_empty());
    assert_eq!(game.players[0].meeples_remaining, 0);
    assert_eq!(game.board.len(), 2);
}

#[test]
fn a_bag_without_the_starter_tile_is_left_whole() {
    let bag = vec![monastery_alone(), road_straight(), monastery_alone()];
    let game = Game::from_shuffled_bag(3, bag);
    assert_eq!(game.board.len(), 1);
    assert!(game.board.get((0, 0)).unwrap().spec.same_as(&starter_tile()));
    assert_eq!(game.bag.len(), 3);
    assert!(game.bag[0].same_as(&monastery_alone()));
    assert!(game.bag[1].same_as(&road_straight()));
    assert!(game.bag[2].same_as(&monastery_alone()));
    assert_eq!(game.players.len(), 3);
    assert!(game.players.iter().all(|p| p.meeples_remaining == STARTING_MEEPLES && p.score == 0));
}

#[test]
fn the_first_starter_tile_in_the_bag_is_the_one_taken_out() {
    let bag = vec![road_straight(), starter_tile(), monastery_alone(), starter_tile()];
    let game = Game::from_shuffled_bag(2, bag);
    assert_eq!(game.board.len(), 1);
    assert_eq!(game.bag.len(), 3);
    assert!(game.bag[0].same_as(&road_straight()));
    assert!(game.bag[1].same_as(&monastery_alone()));
    assert!(game.bag[2].same_as(&starter_tile()));
}

#[test]
fn a_full_game_sends_every_follower_home() {
    for seed in 1..4u64 {
        let mut game = Game::new(3, seed);
        let mut bots: Vec<BotFn> = vec![greedy_bot(), random_bot(seed), greedy_bot()];
        game.play_full_game(&mut bots);
        assert!(game.is_over());
        assert!(game.board.meeples().is_empty());
        assert!(game.players.iter().all(|p| p.meeples_remaining == STARTING_MEEPLES));
    }
}
