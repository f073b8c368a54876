use carcassonne_backend::domain::board::Board;
use carcassonne_backend::domain::oracle::choose_free_choice;
use carcassonne_backend::domain::tile::{EdgeKind, PlacedTile, Side, TileSpec};

fn straight_road() -> TileSpec {
    TileSpec {
        edges: [EdgeKind::Road, EdgeKind::Field, EdgeKind::Road, EdgeKind::Field],
        segments: [0, 1, 0, 2],
        monastery: false,
        shield: false,
    }
}

fn road_end() -> TileSpec {
    TileSpec {
        edges: [EdgeKind::Road, EdgeKind::Field, EdgeKind::Field, EdgeKind::Field],
        segments: [0, 1, 1, 1],
        monastery: false,
        shield: false,
    }
}

fn all_field() -> TileSpec {
    TileSpec {
        edges: [EdgeKind::Field; 4],
        segments: [0; 4],
        monastery: false,
        shield: false,
    }
}

#[test]
fn returns_none_on_empty_bag() {
    let board = Board::new();
    let bag: Vec<TileSpec> = Vec::new();
    assert!(choose_free_choice(&board, &bag, 0, false).is_none());
}

#[test]
fn picks_tile_that_closes_road_for_immediate_score() {
    let mut board = Board::new();
    board.place((0, 0), PlacedTile::new(straight_road(), 0)).unwrap();
    board.place_meeple_on_segment(Side::North, 1).unwrap();
    board.place((0, -1), PlacedTile::new(road_end(), 0)).unwrap();
    let _ = board.resolve_scoring();

    let bag = vec![all_field(), road_end()];
    let (idx, mv) = choose_free_choice(&board, &bag, 1, false).unwrap();
    assert_eq!(idx, 1);
    assert_eq!(mv.pos, (0, 1));
    assert_eq!(mv.rotation, 2);
}

#[test]
fn dedups_duplicate_specs_and_returns_first_occurrence() {
    let mut board = Board::new();
    board.place((0, 0), PlacedTile::new(straight_road(), 0)).unwrap();
    let bag = vec![straight_road(), straight_road()];
    let (idx, _) = choose_free_choice(&board, &bag, 0, false).unwrap();
    assert_eq!(idx, 0);
}

#[test]
fn unplaceable_bag_gives_no_choice() {
    let all_city = TileSpec {
        edges: [EdgeKind::City; 4],
        segments: [0; 4],
        monastery: false,
        shield: false,
    };
    let all_road = TileSpec {
        edges: [EdgeKind::Road; 4],
        segments: [0, 1, 2, 3],
        monastery: false,
        shield: false,
    };
    let mut board = Board::new();
    board.place((0, 0), PlacedTile::new(all_city, 0)).unwrap();
    assert!(choose_free_choice(&board, &[all_road, all_road], 0, true).is_none());
}

#[test]
fn first_occurrence_wins_a_tie_between_equal_tiles_later_in_the_bag() {
    let mut board = Board::new();
    board.place((0, 0), PlacedTile::new(straight_road(), 0)).unwrap();
    board.place_meeple_on_segment(Side::North, 1).unwrap();
    board.place((0, -1), PlacedTile::new(road_end(), 0)).unwrap();
    let _ = board.resolve_scoring();
    let bag = vec![all_field(), road_end(), all_field(), road_end()];
    let (idx, _) = choose_free_choice(&board, &bag, 1, false).unwrap();
    assert_eq!(idx, 1);
}
