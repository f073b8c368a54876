use carcassonne_backend::domain::board::{Board, Pos};
use carcassonne_backend::domain::greedy::{
    candidate_positions, choose_move, choose_move_with_score, meeple_options, MeepleChoice,
};
use carcassonne_backend::domain::tile::{EdgeKind, PlacedTile, Side, TileSpec};

fn straight_road() -> TileSpec {
    TileSpec {
        edges: [EdgeKind::Road, EdgeKind::Field, EdgeKind::Road, EdgeKind::Field],
        segments: [0, 1, 0, 2],
        monastery: false,
        shield: false,
    }
}

fn city_on_north() -> TileSpec {
    TileSpec {
        edges: [EdgeKind::City, EdgeKind::Field, EdgeKind::Field, EdgeKind::Field],
        segments: [0, 1, 1, 1],
        monastery: false,
        shield: false,
    }
}

fn road_end() -> TileSpec {
    TileSpec {
        edges: [EdgeKind::Road, EdgeKind::Field, EdgeKind::Field, EdgeKind::Field],
        segments: [0, 1, 1, 1],
        monastery: false,
        shield: false,
    }
}

#[test]
fn empty_board_picks_origin() {
    let board = Board::new();
    let mv = choose_move(&board, &straight_road(), 0, false).unwrap();
    assert_eq!(mv.pos, (0, 0));
}

#[test]
fn returns_none_when_no_legal_placement() {
    let all_city = TileSpec {
        edges: [EdgeKind::City; 4],
        segments: [0; 4],
        monastery: false,
        shield: false,
    };
    let all_road = TileSpec {
        edges: [EdgeKind::Road; 4],
        segments: [0, 1, 2, 3],
        monastery: false,
        shield: false,
    };
    let mut board = Board::new();
    board.place((0, 0), PlacedTile::new(all_city, 0)).unwrap();
    assert!(choose_move(&board, &all_road, 0, true).is_none());
}

#[test]
fn picks_move_that_closes_a_road_for_player_with_meeple() {
    let mut board = Board::new();
    board.place((0, 0), PlacedTile::new(straight_road(), 0)).unwrap();
    board.place_meeple_on_segment(Side::North, 1).unwrap();
    board.place((0, -1), PlacedTile::new(road_end(), 0)).unwrap();
    let _ = board.resolve_scoring();
    let mv = choose_move(&board, &road_end(), 1, false).unwrap();
    assert_eq!(mv.pos, (0, 1));
    assert_eq!(mv.rotation, 2);
}

#[test]
fn places_meeple_to_close_and_score() {
    let mut board = Board::new();
    board.place((0, 0), PlacedTile::new(straight_road(), 0)).unwrap();
    board.place((0, -1), PlacedTile::new(road_end(), 0)).unwrap();
    let _ = board.resolve_scoring();
    let mv = choose_move(&board, &road_end(), 1, true).unwrap();
    assert_eq!(mv.pos, (0, 1));
    assert_eq!(mv.rotation, 2);
    assert!(matches!(mv.meeple, Some(MeepleChoice::Segment(_))));
}

#[test]
fn does_not_place_meeple_when_player_has_none() {
    let mut board = Board::new();
    board.place((0, 0), PlacedTile::new(straight_road(), 0)).unwrap();
    board.place((0, -1), PlacedTile::new(road_end(), 0)).unwrap();
    let _ = board.resolve_scoring();
    let mv = choose_move(&board, &road_end(), 1, false).unwrap();
    assert!(mv.meeple.is_none());
}

#[test]
fn meeple_options_includes_monastery_when_present() {
    let monastery_spec = TileSpec {
        edges: [EdgeKind::Field; 4],
        segments: [0; 4],
        monastery: true,
        shield: false,
    };
    let placed = PlacedTile::new(monastery_spec, 0);
    let opts = meeple_options(&placed);
    assert!(opts.iter().any(|o| matches!(o, MeepleChoice::Monastery)));
    assert_eq!(opts.len(), 2);
}

#[test]
fn candidate_positions_are_orthogonal_neighbors() {
    let mut board = Board::new();
    board.place((0, 0), PlacedTile::new(city_on_north(), 0)).unwrap();
    let mut cands = candidate_positions(&board);
    cands.sort();
    let expected: Vec<Pos> = vec![(-1, 0), (0, -1), (0, 1), (1, 0)];
    assert_eq!(cands, expected);
}

#[test]
fn candidate_positions_of_empty_board_is_origin() {
    let board = Board::new();
    assert_eq!(candidate_positions(&board), vec![(0, 0)]);
}

#[test]
fn meeple_options_list_each_segment_once() {
    let placed = PlacedTile::new(straight_road(), 0);
    let opts = meeple_options(&placed);
    // Road (N and S), east field, west field.
    assert_eq!(opts.len(), 3);
    assert!(opts.iter().all(|o| matches!(o, MeepleChoice::Segment(_))));
}

#[test]
fn closing_move_reports_its_score() {
    let mut board = Board::new();
    board.place((0, 0), PlacedTile::new(straight_road(), 0)).unwrap();
    board.place_meeple_on_segment(Side::North, 1).unwrap();
    board.place((0, -1), PlacedTile::new(road_end(), 0)).unwrap();
    let _ = board.resolve_scoring();
    let (mv, score) = choose_move_with_score(&board, &road_end(), 1, false).unwrap();
    assert_eq!(mv.pos, (0, 1));
    assert_eq!(mv.rotation, 2);
    assert_eq!(score, 3);
    // Searching does not change the board.
    assert_eq!(board.len(), 2);
    assert_eq!(board.meeples().len(), 1);
}
