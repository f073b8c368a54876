use carcassonne_backend::domain::board::Board;
use carcassonne_backend::domain::greedy::MeepleChoice;
use carcassonne_backend::domain::random::{choose_move_seeded, enumerate_legal};
use carcassonne_backend::domain::tile::{EdgeKind, PlacedTile, TileSpec};

fn straight_road() -> TileSpec {
    TileSpec {
        edges: [EdgeKind::Road, EdgeKind::Field, EdgeKind::Road, EdgeKind::Field],
        segments: [0, 1, 0, 2],
        monastery: false,
        shield: false,
    }
}

#[test]
fn returns_a_legal_move_on_empty_board() {
    let board = Board::new();
    let mv = choose_move_seeded(&board, &straight_road(), 0, false, 1).unwrap();
    assert_eq!(mv.pos, (0, 0));
}

#[test]
fn returns_legal_moves_when_constrained() {
    let mut board = Board::new();
    board.place((0, 0), PlacedTile::new(straight_road(), 0)).unwrap();
    for seed in 0..20u64 {
        let mv = choose_move_seeded(&board, &straight_road(), 0, false, seed).unwrap();
        let placed = PlacedTile::new(straight_road(), mv.rotation);
        assert!(
            board.can_place(mv.pos, &placed).is_ok(),
            "illegal random move at seed {seed}: {:?}",
            mv
        );
    }
}

#[test]
fn different_seeds_give_diverse_choices() {
    let mut board = Board::new();
    board.place((0, 0), PlacedTile::new(straight_road(), 0)).unwrap();
    let m1 = choose_move_seeded(&board, &straight_road(), 0, false, 1).unwrap();
    let m99 = choose_move_seeded(&board, &straight_road(), 0, false, 99).unwrap();
    assert!(m1 != m99 || m1 == m99);
}

#[test]
fn legal_moves_of_a_straight_road_next_to_the_origin() {
    let mut board = Board::new();
    board.place((0, 0), PlacedTile::new(straight_road(), 0)).unwrap();
    let moves = enumerate_legal(&board, &straight_road(), false);
    // North and south: the two road-to-road rotations; east and west: the two
    // field-to-field rotations.
    assert_eq!(moves.len(), 8);
    assert!(moves.iter().all(|m| m.meeple.is_none()));
    let with_meeple = enumerate_legal(&board, &straight_road(), true);
    // Each placement adds one move per segment (three).
    assert_eq!(with_meeple.len(), 8 * 4);
    assert!(with_meeple
        .iter()
        .any(|m| matches!(m.meeple, Some(MeepleChoice::Segment(_)))));
}

#[test]
fn same_seed_same_move_and_seeds_spread_over_the_moves() {
    let mut board = Board::new();
    board.place((0, 0), PlacedTile::new(straight_road(), 0)).unwrap();
    let a = choose_move_seeded(&board, &straight_road(), 0, true, 5).unwrap();
    let b = choose_move_seeded(&board, &straight_road(), 0, true, 5).unwrap();
    assert_eq!(a, b);
    let mut distinct = Vec::new();
    for seed in 0..40u64 {
        let m = choose_move_seeded(&board, &straight_road(), 0, true, seed).unwrap();
        if !distinct.contains(&m) {
            distinct.push(m);
        }
    }
    // A picker that ignored the seed would always return the same move.
    assert!(distinct.len() > 1);
}

#[test]
fn no_random_move_when_nothing_fits() {
    let all_city = TileSpec {
        edges: [EdgeKind::City; 4],
        segments: [0; 4],
        monastery: false,
        shield: false,
    };
    let all_road = TileSpec {
        edges: [EdgeKind::Road; 4],
        segments: [0, 1, 2, 3],
        monastery: false,
        shield: false,
    };
    let mut board = Board::new();
    board.place((0, 0), PlacedTile::new(all_city, 0)).unwrap();
    assert!(choose_move_seeded(&board, &all_road, 0, true, 3).is_none());
    assert!(enumerate_legal(&board, &all_road, true).is_empty());
}
