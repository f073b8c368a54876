use carcassonne_backend::domain::feature::{FeatureInfo, PlayerId};
use carcassonne_backend::domain::scoring::{
    majority_owners, score_completed_feature, score_completed_monastery, score_farm,
    score_incomplete_feature, score_incomplete_monastery, FeatureKind,
};
use carcassonne_backend::domain::tile::EdgeKind;

fn road_info(tiles: u32, meeples: Vec<PlayerId>) -> FeatureInfo {
    FeatureInfo {
        kind: EdgeKind::Road,
        open_count: 0,
        tiles,
        shields: 0,
        meeples,
    }
}

fn city_info(tiles: u32, shields: u32, meeples: Vec<PlayerId>) -> FeatureInfo {
    FeatureInfo {
        kind: EdgeKind::City,
        open_count: 0,
        tiles,
        shields,
        meeples,
    }
}

#[test]
fn road_scores_one_point_per_tile() {
    let event = score_completed_feature(&road_info(3, vec![1])).unwrap();
    assert_eq!(event.kind, FeatureKind::Road);
    assert_eq!(event.points, 3);
    assert_eq!(event.winners, vec![1]);
    assert_eq!(event.meeples_returned, vec![1]);
}

#[test]
fn city_scores_two_per_tile_plus_two_per_shield() {
    let event = score_completed_feature(&city_info(4, 2, vec![1])).unwrap();
    assert_eq!(event.points, 4 * 2 + 2 * 2);
}

#[test]
fn tied_meeples_means_all_tied_winners_share_full_points() {
    let event = score_completed_feature(&city_info(3, 0, vec![1, 2])).unwrap();
    assert_eq!(event.points, 6);
    assert_eq!(event.winners, vec![1, 2]);
}

#[test]
fn majority_winner_takes_all() {
    let event = score_completed_feature(&road_info(5, vec![1, 1, 2])).unwrap();
    assert_eq!(event.winners, vec![1]);
}

#[test]
fn closed_feature_with_no_meeples_has_no_winners_but_still_scores() {
    let event = score_completed_feature(&road_info(3, vec![])).unwrap();
    assert_eq!(event.points, 3);
    assert!(event.winners.is_empty());
}

#[test]
fn incomplete_road_scores_one_per_tile_only_if_owned() {
    assert!(score_incomplete_feature(&road_info(3, vec![])).is_none());
    let event = score_incomplete_feature(&road_info(3, vec![1])).unwrap();
    assert_eq!(event.points, 3);
}

#[test]
fn incomplete_city_scores_one_per_tile_plus_one_per_shield() {
    let event = score_incomplete_feature(&city_info(3, 1, vec![1])).unwrap();
    assert_eq!(event.points, 3 + 1);
}

#[test]
fn completed_monastery_scores_nine() {
    let event = score_completed_monastery(2);
    assert_eq!(event.points, 9);
    assert_eq!(event.winners, vec![2]);
}

#[test]
fn incomplete_monastery_scores_one_plus_neighbors() {
    let event = score_incomplete_monastery(0, 5);
    assert_eq!(event.points, 6);
}

#[test]
fn field_features_do_not_score_via_immediate_or_incomplete() {
    let info = FeatureInfo {
        kind: EdgeKind::Field,
        open_count: 0,
        tiles: 5,
        shields: 0,
        meeples: vec![1],
    };
    assert!(score_completed_feature(&info).is_none());
    assert!(score_incomplete_feature(&info).is_none());
}

#[test]
fn majority_winners_come_out_sorted_and_unique() {
    assert_eq!(majority_owners(&[3, 1, 3, 1, 2]), vec![1, 3]);
    assert_eq!(majority_owners(&[]), Vec::<PlayerId>::new());
    assert_eq!(majority_owners(&[4]), vec![4]);
}

#[test]
fn every_returned_meeple_belongs_to_the_feature() {
    let event = score_completed_feature(&city_info(2, 1, vec![2, 0, 2])).unwrap();
    assert_eq!(event.meeples_returned, vec![2, 0, 2]);
    assert_eq!(event.winners, vec![2]);
    assert_eq!(event.kind, FeatureKind::City);
    assert_eq!(event.points, 6);
}

#[test]
fn farm_scores_three_per_completed_city() {
    let event = score_farm(2, &[1, 0, 1]).unwrap();
    assert_eq!(event.kind, FeatureKind::Farm);
    assert_eq!(event.points, 6);
    assert_eq!(event.winners, vec![1]);
    assert_eq!(event.meeples_returned, vec![1, 0, 1]);
    assert!(score_farm(0, &[1]).is_none());
    assert!(score_farm(3, &[]).is_none());
}

#[test]
fn incomplete_monastery_with_all_neighbours_scores_nine() {
    let event = score_incomplete_monastery(1, 8);
    assert_eq!(event.points, 9);
    assert_eq!(event.kind, FeatureKind::Monastery);
    assert_eq!(event.meeples_returned, vec![1]);
}
