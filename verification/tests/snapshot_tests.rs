use carcassonne_backend::domain::board::{Board, Pos};
use carcassonne_backend::domain::game::{greedy_bot, BotFn, Game};
use carcassonne_backend::domain::snapshot::{BoardView, GameView};
use carcassonne_backend::domain::tile::{EdgeKind, PlacedTile, Side, TileSpec};

#[test]
fn empty_game_snapshot_has_one_starter_cell_and_no_meeples() {
    let game = Game::new(2, 1);
    let view = GameView::from_game(&game);
    assert_eq!(view.board.cells.len(), 1);
    assert!(view.board.meeples.is_empty());
    assert_eq!(view.players.len(), 2);
    assert_eq!(view.bag_remaining, 71);
    assert_eq!(view.current_player, 0);
    assert!(view.current_draw.is_some());
    assert!(!view.is_over);
}

#[test]
fn snapshot_after_a_few_turns_has_more_cells() {
    let mut game = Game::new(2, 11);
    let mut bots: Vec<BotFn> = vec![greedy_bot(), greedy_bot()];
    for _ in 0..6 {
        let cp = game.current_player;
        let _ = game.play_one_turn(&mut bots[cp]);
    }
    let view = GameView::from_game(&game);
    assert!(view.board.cells.len() >= 3, "expected several tiles placed");
}

#[test]
fn meeples_are_tracked_after_greedy_play() {
    let mut game = Game::new(2, 13);
    let mut bots: Vec<BotFn> = vec![greedy_bot(), greedy_bot()];
    game.play_full_game(&mut bots);
    let view = GameView::from_game(&game);
    assert!(view.is_over);
    assert!(
        view.board.meeples.is_empty(),
        "endgame returns all meeples: {:?}",
        view.board.meeples
    );
}

fn straight_road() -> TileSpec {
    TileSpec {
        edges: [EdgeKind::Road, EdgeKind::Field, EdgeKind::Road, EdgeKind::Field],
        segments: [0, 1, 0, 2],
        monastery: false,
        shield: false,
    }
}

#[test]
fn board_view_lists_cells_by_column_then_row() {
    let mut board = Board::new();
    board.place((0, 0), PlacedTile::new(straight_road(), 0)).unwrap();
    board.place((0, 1), PlacedTile::new(straight_road(), 0)).unwrap();
    board.place((0, -1), PlacedTile::new(straight_road(), 0)).unwrap();
    board.place_meeple_on_segment(Side::East, 1).unwrap();
    let view = BoardView::from_board(&board);
    let order: Vec<Pos> = view.cells.iter().map(|c| c.pos).collect();
    assert_eq!(order, vec![(0, -1), (0, 0), (0, 1)]);
    assert_eq!(view.last_placed, Some((0, -1)));
    assert_eq!(view.meeples.len(), 1);
    assert_eq!(view.meeples[0].owner, 1);
    assert_eq!(view.meeples[0].pos, (0, -1));
}

#[test]
fn game_view_shows_the_next_draw_and_scores() {
    let game = Game::new(3, 2);
    let view = GameView::from_game(&game);
    assert_eq!(view.current_draw, game.bag.last().copied());
    assert_eq!(view.players, game.players);
    assert!(!view.finished);
}

#[test]
fn every_follower_leaves_the_board_at_the_end_of_a_game() {
    for seed in 1..7u64 {
        let mut game = Game::new(2, seed);
        let mut bots: Vec<BotFn> = vec![greedy_bot(), carcassonne_backend::domain::game::random_bot(seed)];
        game.play_full_game(&mut bots);
        let view = GameView::from_game(&game);
        assert!(view.is_over);
        assert!(view.board.meeples.is_empty(), "seed {seed}: {:?}", view.board.meeples);
    }
}
