use carcassonne_backend::domain::game::{greedy_bot, oracle_bot, random_bot, BotFn, Game};
use carcassonne_backend::tools::dump_game::dump_state;
use carcassonne_backend::tools::eval_paired::{play_one as play_paired, BotKind};
use carcassonne_backend::tools::oracle_bound::play_one as play_against_oracle;

#[test]
fn bot_kinds_parse_and_label() {
    assert_eq!(BotKind::parse("greedy"), Some(BotKind::Greedy));
    assert_eq!(BotKind::parse("random"), Some(BotKind::Random));
    assert_eq!(BotKind::parse("Greedy"), None);
    assert_eq!(BotKind::parse(""), None);
    assert_eq!(BotKind::Greedy.label(), "greedy");
    assert_eq!(BotKind::Random.label(), "random");
    assert!(matches!(BotKind::Greedy.make(5), BotFn::Greedy));
    assert!(matches!(BotKind::Random.make(5), BotFn::Random { counter: 5 }));
}

#[test]
fn paired_game_matches_a_game_played_by_hand() {
    let (a, b) = play_paired(3, BotKind::Greedy, BotKind::Random);
    let mut game = Game::new(2, 3);
    let mut bots: Vec<BotFn> = vec![greedy_bot(), random_bot(7)];
    game.play_full_game(&mut bots);
    assert_eq!(game.final_scores(), vec![a, b]);
    assert_eq!(play_paired(3, BotKind::Greedy, BotKind::Random), (a, b));
}

#[test]
fn oracle_game_matches_a_game_played_by_hand() {
    let (o, g) = play_against_oracle(4, 1);
    let mut game = Game::new(2, 4);
    let mut greedy = greedy_bot();
    let mut oracle = oracle_bot();
    while !game.is_over() {
        if game.current_player == 1 {
            let _ = game.play_one_oracle_turn(&mut oracle);
        } else {
            let _ = game.play_one_turn(&mut greedy);
        }
    }
    game.finish();
    let s = game.final_scores();
    assert_eq!((o, g), (s[1], s[0]));
    assert!(game.finished);
}

#[test]
fn dump_after_some_turns_and_after_a_full_game() {
    let start = dump_state(1, Some(0));
    assert_eq!(start.board.cells.len(), 1);
    assert_eq!(start.bag_remaining, 71);
    let early = dump_state(1, Some(3));
    assert_eq!(early.board.cells.len(), 4);
    assert_eq!(early.current_player, 1);
    assert!(!early.is_over);
    let done = dump_state(1, None);
    assert!(done.is_over);
    assert!(done.finished);
    assert_eq!(done.bag_remaining, 0);
}
