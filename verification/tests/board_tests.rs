use carcassonne_backend::domain::board::{offset, Board, MeeplePlaceError, PlacementError};
use carcassonne_backend::domain::feature::MeepleError;
use carcassonne_backend::domain::scoring::FeatureKind;
use carcassonne_backend::domain::tile::{EdgeKind, PlacedTile, Side, TileSpec};

fn straight_road() -> TileSpec {
    TileSpec {
        edges: [EdgeKind::Road, EdgeKind::Field, EdgeKind::Road, EdgeKind::Field],
        segments: [0, 1, 0, 2],
        monastery: false,
        shield: false,
    }
}

fn all_field() -> TileSpec {
    TileSpec {
        edges: [EdgeKind::Field; 4],
        segments: [0; 4],
        monastery: false,
        shield: false,
    }
}

fn city_on_north() -> TileSpec {
    TileSpec {
        edges: [EdgeKind::City, EdgeKind::Field, EdgeKind::Field, EdgeKind::Field],
        segments: [0, 1, 1, 1],
        monastery: false,
        shield: false,
    }
}

fn road_end() -> TileSpec {
    TileSpec {
        edges: [EdgeKind::Road, EdgeKind::Field, EdgeKind::Field, EdgeKind::Field],
        segments: [0, 1, 1, 1],
        monastery: false,
        shield: false,
    }
}

fn pure_monastery() -> TileSpec {
    TileSpec {
        edges: [EdgeKind::Field; 4],
        segments: [0; 4],
        monastery: true,
        shield: false,
    }
}

#[test]
fn empty_board_accepts_first_tile_anywhere() {
    let mut board = Board::new();
    assert!(board.place((0, 0), PlacedTile::new(straight_road(), 0)).is_ok());
    assert_eq!(board.len(), 1);
}

#[test]
fn cannot_place_on_occupied_position() {
    let mut board = Board::new();
    board.place((0, 0), PlacedTile::new(straight_road(), 0)).unwrap();
    let err = board.place((0, 0), PlacedTile::new(straight_road(), 0)).unwrap_err();
    assert_eq!(err, PlacementError::Occupied);
}

#[test]
fn second_tile_must_be_adjacent_to_existing() {
    let mut board = Board::new();
    board.place((0, 0), PlacedTile::new(straight_road(), 0)).unwrap();
    let err = board.place((5, 5), PlacedTile::new(straight_road(), 0)).unwrap_err();
    assert_eq!(err, PlacementError::NotAdjacent);
}

#[test]
fn second_tile_legal_when_edge_matches() {
    let mut board = Board::new();
    board.place((0, 0), PlacedTile::new(straight_road(), 0)).unwrap();
    assert!(board.place((0, 1), PlacedTile::new(straight_road(), 0)).is_ok());
}

#[test]
fn second_tile_rejected_when_edge_mismatches() {
    let mut board = Board::new();
    board.place((0, 0), PlacedTile::new(straight_road(), 0)).unwrap();
    let err = board
        .place((0, 1), PlacedTile::new(city_on_north(), 0))
        .unwrap_err();
    assert_eq!(err, PlacementError::EdgeMismatch(Side::South));
}

#[test]
fn placement_validates_all_neighboring_sides() {
    let mut board = Board::new();
    board.place((0, 0), PlacedTile::new(all_field(), 0)).unwrap();
    board.place((0, 1), PlacedTile::new(all_field(), 0)).unwrap();
    board.place((1, 0), PlacedTile::new(all_field(), 0)).unwrap();
    assert!(board.place((1, 1), PlacedTile::new(all_field(), 0)).is_ok());
}

#[test]
fn neighbor_returns_tile_at_offset() {
    let mut board = Board::new();
    board.place((0, 0), PlacedTile::new(straight_road(), 1)).unwrap();
    board.place((1, 0), PlacedTile::new(straight_road(), 1)).unwrap();
    let n = board.neighbor((0, 0), Side::East).unwrap();
    assert_eq!(n.edge(Side::West), EdgeKind::Road);
}

#[test]
fn neighbor_returns_none_when_empty() {
    let board = Board::new();
    assert!(board.neighbor((0, 0), Side::North).is_none());
}

#[test]
fn place_updates_feature_graph_and_merges_neighbors() {
    let mut board = Board::new();
    board.place((0, 0), PlacedTile::new(straight_road(), 0)).unwrap();
    board.place((0, 1), PlacedTile::new(straight_road(), 0)).unwrap();
    let r0 = board.features.find(((0, 0), 0));
    let r1 = board.features.find(((0, 1), 0));
    assert_eq!(r0, r1);
    let info = board.features.info(((0, 0), 0));
    assert_eq!(info.tiles, 2);
}

#[test]
fn closing_a_road_emits_scoring_event_and_returns_meeple() {
    let mut board = Board::new();
    board.place((0, 0), PlacedTile::new(straight_road(), 0)).unwrap();
    board.place_meeple_on_segment(Side::North, 1).unwrap();
    board.place((0, -1), PlacedTile::new(road_end(), 0)).unwrap();
    assert!(board.resolve_scoring().is_empty());
    board.place((0, 1), PlacedTile::new(road_end(), 2)).unwrap();
    let events = board.resolve_scoring();
    assert_eq!(events.len(), 1);
    let ev = &events[0];
    assert_eq!(ev.kind, FeatureKind::Road);
    assert_eq!(ev.points, 3);
    assert_eq!(ev.winners, vec![1]);
    assert_eq!(ev.meeples_returned, vec![1]);
}

#[test]
fn cannot_place_meeple_on_segment_when_no_tile_placed() {
    let mut board = Board::new();
    let err = board.place_meeple_on_segment(Side::North, 1).unwrap_err();
    assert_eq!(err, MeeplePlaceError::NoTileJustPlaced);
}

#[test]
fn cannot_place_meeple_on_monastery_when_tile_has_none() {
    let mut board = Board::new();
    board.place((0, 0), PlacedTile::new(straight_road(), 0)).unwrap();
    let err = board.place_meeple_on_monastery(1).unwrap_err();
    assert_eq!(err, MeeplePlaceError::NoMonasteryHere);
}

#[test]
fn monastery_neighbor_count_grows_as_tiles_placed_around() {
    let mut board = Board::new();
    board.place((0, 0), PlacedTile::new(pure_monastery(), 0)).unwrap();
    board.place_meeple_on_monastery(1).unwrap();
    assert_eq!(board.monastery((0, 0)).unwrap().neighbor_count, 0);
    board.place((0, 1), PlacedTile::new(pure_monastery(), 0)).unwrap();
    assert_eq!(board.monastery((0, 0)).unwrap().neighbor_count, 1);
    board.place((1, 1), PlacedTile::new(pure_monastery(), 0)).unwrap();
    assert_eq!(board.monastery((0, 0)).unwrap().neighbor_count, 2);
}

#[test]
fn endgame_scores_incomplete_road_with_meeple() {
    let mut board = Board::new();
    board.place((0, 0), PlacedTile::new(straight_road(), 0)).unwrap();
    board.place_meeple_on_segment(Side::North, 1).unwrap();
    let events = board.endgame_scoring();
    let roads: Vec<_> = events.iter().filter(|e| e.kind == FeatureKind::Road).collect();
    assert_eq!(roads.len(), 1);
    assert_eq!(roads[0].points, 1);
    assert_eq!(roads[0].winners, vec![1]);
}

#[test]
fn endgame_skips_incomplete_features_without_meeples() {
    let mut board = Board::new();
    board.place((0, 0), PlacedTile::new(straight_road(), 0)).unwrap();
    let events = board.endgame_scoring();
    assert!(events.is_empty());
}

#[test]
fn endgame_scores_incomplete_monastery() {
    let mut board = Board::new();
    board.place((0, 0), PlacedTile::new(pure_monastery(), 0)).unwrap();
    board.place_meeple_on_monastery(2).unwrap();
    board.place((0, 1), PlacedTile::new(all_field(), 0)).unwrap();
    board.place((0, -1), PlacedTile::new(all_field(), 0)).unwrap();
    board.place((1, 0), PlacedTile::new(all_field(), 0)).unwrap();
    let events = board.endgame_scoring();
    let monastery: Vec<_> = events
        .iter()
        .filter(|e| e.kind == FeatureKind::Monastery)
        .collect();
    assert_eq!(monastery.len(), 1);
    assert_eq!(monastery[0].points, 1 + 3);
    assert_eq!(monastery[0].winners, vec![2]);
}

#[test]
fn endgame_farm_scores_three_per_adjacent_completed_city() {
    let mut board = Board::new();
    board.place((0, 0), PlacedTile::new(city_on_north(), 0)).unwrap();
    board.place_meeple_on_segment(Side::South, 1).unwrap();
    let _ = board.resolve_scoring();
    board.place((0, 1), PlacedTile::new(city_on_north(), 2)).unwrap();
    let immediate = board.resolve_scoring();
    let cities: Vec<_> = immediate
        .iter()
        .filter(|e| e.kind == FeatureKind::City)
        .collect();
    assert_eq!(cities.len(), 1);
    assert_eq!(cities[0].points, 4);
    let endgame = board.endgame_scoring();
    let farms: Vec<_> = endgame.iter().filter(|e| e.kind == FeatureKind::Farm).collect();
    assert_eq!(farms.len(), 1);
    assert_eq!(farms[0].points, 3);
    assert_eq!(farms[0].winners, vec![1]);
}

#[test]
fn endgame_farm_does_not_score_for_incomplete_city() {
    let mut board = Board::new();
    board.place((0, 0), PlacedTile::new(city_on_north(), 0)).unwrap();
    board.place_meeple_on_segment(Side::South, 1).unwrap();
    let endgame = board.endgame_scoring();
    let farms: Vec<_> = endgame.iter().filter(|e| e.kind == FeatureKind::Farm).collect();
    assert!(farms.is_empty());
}

#[test]
fn completed_monastery_scores_nine_points() {
    let mut board = Board::new();
    board.place((0, 0), PlacedTile::new(pure_monastery(), 0)).unwrap();
    board.place_meeple_on_monastery(2).unwrap();
    let positions = [
        (1, 0), (-1, 0), (0, 1), (0, -1),
        (1, 1), (1, -1), (-1, 1), (-1, -1),
    ];
    for (i, p) in positions.iter().enumerate() {
        board.place(*p, PlacedTile::new(all_field(), 0)).unwrap();
        let events = board.resolve_scoring();
        if i < 7 {
            assert!(
                events.iter().all(|e| e.kind != FeatureKind::Monastery),
                "monastery should not score until all 8 neighbors placed (i={i})"
            );
        } else {
            let monastery_events: Vec<_> =
                events.iter().filter(|e| e.kind == FeatureKind::Monastery).collect();
            assert_eq!(monastery_events.len(), 1);
            assert_eq!(monastery_events[0].points, 9);
            assert_eq!(monastery_events[0].winners, vec![2]);
        }
    }
}

#[test]
fn offset_moves_one_cell_per_side() {
    assert_eq!(offset((2, 3), Side::North), (2, 4));
    assert_eq!(offset((2, 3), Side::East), (3, 3));
    assert_eq!(offset((2, 3), Side::South), (2, 2));
    assert_eq!(offset((2, 3), Side::West), (1, 3));
}

#[test]
fn meeple_on_occupied_feature_is_refused_and_board_keeps_followers() {
    let mut board = Board::new();
    board.place((0, 0), PlacedTile::new(straight_road(), 0)).unwrap();
    board.place_meeple_on_segment(Side::North, 1).unwrap();
    board.place((0, 1), PlacedTile::new(straight_road(), 0)).unwrap();
    let err = board.place_meeple_on_segment(Side::South, 0).unwrap_err();
    assert_eq!(err, MeeplePlaceError::Feature(MeepleError::FeatureOccupied));
    assert_eq!(board.meeples().len(), 1);
    assert_eq!(board.meeples()[0].owner, 1);
    assert_eq!(board.last_placed(), Some((0, 1)));
}

#[test]
fn refused_placement_leaves_board_unchanged() {
    let mut board = Board::new();
    board.place((0, 0), PlacedTile::new(straight_road(), 0)).unwrap();
    assert!(board.place((0, 1), PlacedTile::new(city_on_north(), 0)).is_err());
    assert_eq!(board.len(), 1);
    assert_eq!(board.positions(), vec![(0, 0)]);
    assert_eq!(board.last_placed(), Some((0, 0)));
}

#[test]
fn scored_followers_leave_the_board() {
    let mut board = Board::new();
    board.place((0, 0), PlacedTile::new(straight_road(), 0)).unwrap();
    board.place_meeple_on_segment(Side::North, 1).unwrap();
    board.place((0, -1), PlacedTile::new(road_end(), 0)).unwrap();
    board.place((0, 1), PlacedTile::new(road_end(), 2)).unwrap();
    let events = board.resolve_scoring();
    assert_eq!(events.len(), 1);
    assert!(board.meeples().is_empty());
    // Resolving again finds the road still closed, now with nobody on it.
    let again = board.resolve_scoring();
    assert_eq!(again.len(), 1);
    assert!(again[0].winners.is_empty());
    assert!(again[0].meeples_returned.is_empty());
}

#[test]
fn placed_tile_reads_back_and_other_cells_are_unchanged() {
    let mut board = Board::new();
    board.place((0, 0), PlacedTile::new(straight_road(), 0)).unwrap();
    board.place((0, 1), PlacedTile::new(road_end(), 2)).unwrap();
    let got = board.get((0, 1)).unwrap();
    assert_eq!(got.rotation, 2);
    assert_eq!(got.spec, road_end());
    let first = board.get((0, 0)).unwrap();
    assert_eq!(first.spec, straight_road());
    assert!(board.get((1, 1)).is_none());
    assert_eq!(board.len(), 2);
    assert_eq!(board.last_placed(), Some((0, 1)));
}

#[test]
fn endgame_sends_home_a_farmer_without_points() {
    let mut board = Board::new();
    board.place((0, 0), PlacedTile::new(city_on_north(), 0)).unwrap();
    board.place_meeple_on_segment(Side::South, 1).unwrap();
    assert_eq!(board.meeples().len(), 1);
    let endgame = board.endgame_scoring();
    assert!(endgame.iter().all(|e| e.kind != FeatureKind::Farm));
    assert!(board.meeples().is_empty());
    assert!(board.features.info(((0, 0), 1)).meeples.is_empty());
}

#[test]
fn scoring_again_right_after_scoring_hands_out_nothing() {
    let mut board = Board::new();
    board.place((0, 0), PlacedTile::new(straight_road(), 0)).unwrap();
    board.place_meeple_on_segment(Side::North, 1).unwrap();
    board.place((0, -1), PlacedTile::new(road_end(), 0)).unwrap();
    assert!(board.resolve_scoring().is_empty());
    board.place((0, 1), PlacedTile::new(road_end(), 2)).unwrap();
    let first = board.resolve_scoring();
    assert_eq!(first.len(), 1);
    assert_eq!(first[0].meeples_returned, vec![1]);
    let second = board.resolve_scoring();
    assert_eq!(second.len(), 1);
    assert_eq!(second[0].kind, FeatureKind::Road);
    assert!(second[0].winners.is_empty());
    assert!(second[0].meeples_returned.is_empty());
    assert!(board.meeples().is_empty());
}

#[test]
fn a_finished_monastery_scores_once() {
    let mut board = Board::new();
    board.place((0, 0), PlacedTile::new(pure_monastery(), 0)).unwrap();
    board.place_meeple_on_monastery(2).unwrap();
    let positions = [
        (1, 0), (-1, 0), (0, 1), (0, -1),
        (1, 1), (1, -1), (-1, 1), (-1, -1),
    ];
    for p in positions.iter() {
        board.place(*p, PlacedTile::new(all_field(), 0)).unwrap();
        let _ = board.resolve_scoring();
    }
    let again = board.resolve_scoring();
    assert!(again.iter().all(|e| e.kind != FeatureKind::Monastery && e.meeples_returned.is_empty()));
    assert!(board.monastery((0, 0)).unwrap().owner.is_none());
}

#[test]
fn final_scoring_lists_unfinished_roads_then_monasteries() {
    let mut board = Board::new();
    board.place((0, 0), PlacedTile::new(pure_monastery(), 0)).unwrap();
    board.place_meeple_on_monastery(3).unwrap();
    board.place((1, 0), PlacedTile::new(all_field(), 0)).unwrap();
    board.place((0, 1), PlacedTile::new(straight_road(), 1)).unwrap();
    let events = board.endgame_scoring();
    assert!(events.iter().all(|e| e.kind != FeatureKind::Road));
    let monastery: Vec<_> = events.iter().filter(|e| e.kind == FeatureKind::Monastery).collect();
    assert_eq!(monastery.len(), 1);
    assert_eq!(monastery[0].points, 3);
    assert_eq!(monastery[0].winners, vec![3]);
    assert!(board.meeples().is_empty());
}
