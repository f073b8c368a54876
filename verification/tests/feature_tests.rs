use carcassonne_backend::domain::feature::{FeatureGraph, MeepleError};
use carcassonne_backend::domain::tile::{EdgeKind, PlacedTile, TileSpec};

fn straight_road() -> TileSpec {
    TileSpec {
        edges: [EdgeKind::Road, EdgeKind::Field, EdgeKind::Road, EdgeKind::Field],
        segments: [0, 1, 0, 2],
        monastery: false,
        shield: false,
    }
}

fn road_end() -> TileSpec {
    TileSpec {
        edges: [EdgeKind::Road, EdgeKind::Field, EdgeKind::Field, EdgeKind::Field],
        segments: [0, 1, 1, 1],
        monastery: false,
        shield: false,
    }
}

fn city_on_north() -> TileSpec {
    TileSpec {
        edges: [EdgeKind::City, EdgeKind::Field, EdgeKind::Field, EdgeKind::Field],
        segments: [0, 1, 1, 1],
        monastery: false,
        shield: false,
    }
}

// Neighbour arrays are indexed North, East, South, West.

#[test]
fn single_tile_segment_has_open_count_equal_to_sides() {
    let mut g = FeatureGraph::new();
    let tile = PlacedTile::new(straight_road(), 0);
    g.add_tile((0, 0), &tile, [None, None, None, None]);
    let info = g.info(((0, 0), 0));
    assert_eq!(info.kind, EdgeKind::Road);
    assert_eq!(info.open_count, 2);
    assert_eq!(info.tiles, 1);
}

#[test]
fn two_adjacent_tiles_share_one_feature() {
    let mut g = FeatureGraph::new();
    let a = PlacedTile::new(straight_road(), 0);
    g.add_tile((0, 0), &a, [None, None, None, None]);
    let b = PlacedTile::new(straight_road(), 0);
    g.add_tile((0, 1), &b, [None, None, Some(((0, 0), 0)), None]);
    let info = g.info(((0, 1), 0));
    assert_eq!(info.tiles, 2);
    assert_eq!(info.open_count, 2);
    assert_eq!(g.find(((0, 0), 0)), g.find(((0, 1), 0)));
}

#[test]
fn road_closes_when_both_ends_are_capped() {
    let mut g = FeatureGraph::new();
    let a = PlacedTile::new(straight_road(), 0);
    g.add_tile((0, 0), &a, [None, None, None, None]);
    let south_cap = PlacedTile::new(road_end(), 2);
    g.add_tile((0, 1), &south_cap, [None, None, Some(((0, 0), 0)), None]);
    let north_cap = PlacedTile::new(road_end(), 0);
    g.add_tile((0, -1), &north_cap, [Some(((0, 0), 0)), None, None, None]);
    assert!(g.is_complete(((0, 0), 0)));
    assert_eq!(g.info(((0, 0), 0)).tiles, 3);
}

#[test]
fn cities_are_tracked_independently_from_roads() {
    let mut g = FeatureGraph::new();
    let road = PlacedTile::new(straight_road(), 0);
    g.add_tile((0, 0), &road, [None, None, None, None]);
    let city = PlacedTile::new(city_on_north(), 0);
    g.add_tile((1, 0), &city, [None, None, None, None]);
    assert_ne!(g.find(((0, 0), 0)), g.find(((1, 0), 0)));
    assert_eq!(g.info(((0, 0), 0)).kind, EdgeKind::Road);
    assert_eq!(g.info(((1, 0), 0)).kind, EdgeKind::City);
}

#[test]
fn loop_closure_decrements_open_count() {
    let mut g = FeatureGraph::new();
    let a = PlacedTile::new(straight_road(), 0);
    g.add_tile((0, 0), &a, [None, None, None, None]);
    let b = PlacedTile::new(straight_road(), 0);
    g.add_tile((0, 1), &b, [None, None, Some(((0, 0), 0)), None]);
    let c = PlacedTile::new(straight_road(), 0);
    g.add_tile((0, 2), &c, [None, None, Some(((0, 1), 0)), None]);
    let info = g.info(((0, 0), 0));
    assert_eq!(info.tiles, 3);
    assert_eq!(info.open_count, 2);
}

#[test]
fn one_segment_touching_the_same_feature_twice_closes_two_edges() {
    let mut g = FeatureGraph::new();
    let a = PlacedTile::new(straight_road(), 0);
    g.add_tile((0, 0), &a, [None, None, None, None]);
    let b = PlacedTile::new(straight_road(), 0);
    // Both road ends of b lead into the same feature.
    g.add_tile((0, 1), &b, [Some(((0, 0), 0)), None, Some(((0, 0), 0)), None]);
    let info = g.info(((0, 1), 0));
    assert_eq!(info.tiles, 2);
    assert_eq!(info.open_count, 0);
    assert!(g.is_complete(((0, 0), 0)));
}

#[test]
fn followers_follow_the_merged_feature_and_block_a_second_one() {
    let mut g = FeatureGraph::new();
    let a = PlacedTile::new(straight_road(), 0);
    g.add_tile((0, 0), &a, [None, None, None, None]);
    assert_eq!(g.place_meeple(((0, 0), 0), 1), Ok(()));
    assert_eq!(g.place_meeple(((0, 0), 0), 2), Err(MeepleError::FeatureOccupied));
    let b = PlacedTile::new(straight_road(), 0);
    g.add_tile((0, 1), &b, [None, None, None, None]);
    assert_eq!(g.place_meeple(((0, 1), 0), 0), Ok(()));
    let c = PlacedTile::new(straight_road(), 0);
    g.add_tile((0, 2), &c, [None, None, None, None]);
    // Joining the two owned roads through a third tile keeps both followers.
    let d = PlacedTile::new(straight_road(), 0);
    g.add_tile((0, 3), &d, [None, None, None, None]);
    let mut g2 = FeatureGraph::new();
    g2.add_tile((0, 0), &a, [None, None, None, None]);
    g2.place_meeple(((0, 0), 0), 1).unwrap();
    g2.add_tile((0, 2), &c, [None, None, None, None]);
    g2.place_meeple(((0, 2), 0), 0).unwrap();
    g2.add_tile((0, 1), &b, [Some(((0, 2), 0)), None, Some(((0, 0), 0)), None]);
    let mut owners = g2.info(((0, 1), 0)).meeples;
    owners.sort();
    assert_eq!(owners, vec![0, 1]);
    let mut collected = g2.collect_meeples(((0, 0), 0));
    collected.sort();
    assert_eq!(collected, vec![0, 1]);
    assert!(g2.info(((0, 2), 0)).meeples.is_empty());
}

#[test]
fn roots_lists_each_feature_once() {
    let mut g = FeatureGraph::new();
    let a = PlacedTile::new(straight_road(), 0);
    g.add_tile((0, 0), &a, [None, None, None, None]);
    let b = PlacedTile::new(straight_road(), 0);
    g.add_tile((0, 1), &b, [None, None, Some(((0, 0), 0)), None]);
    // a has 3 segments, b has 3; the two roads merged: 5 features.
    assert_eq!(g.roots().len(), 5);
    assert_eq!(g.len(), 6);
}
