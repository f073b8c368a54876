use carcassonne_backend::domain::tile::EdgeKind;
use carcassonne_backend::domain::tile_set::{
    all_city_shield, base_game_bag, city_corner_ne, city_corner_ne_shield, city_corner_se,
    city_n_only, city_n_road_ew, city_n_road_left_turn, city_n_road_right_turn, city_n_road_t,
    city_nw_road_se, city_nw_road_se_shield, monastery_alone, monastery_with_road, road_corner,
    road_crossroads, road_straight, road_t_junction, split_city_ew, starter_tile, three_side_city,
    three_side_city_road, three_side_city_road_shield, three_side_city_shield, through_city,
    through_city_shield,
};

#[test]
fn base_game_bag_contains_72_tiles() {
    assert_eq!(base_game_bag().len(), 72);
}

#[test]
fn shield_tiles_have_shield_flag() {
    assert!(all_city_shield().shield);
    assert!(through_city_shield().shield);
    assert!(city_corner_ne_shield().shield);
    assert!(city_nw_road_se_shield().shield);
    assert!(three_side_city_shield().shield);
    assert!(three_side_city_road_shield().shield);
}

#[test]
fn monastery_tiles_have_monastery_flag() {
    assert!(monastery_alone().monastery);
    assert!(monastery_with_road().monastery);
}

#[test]
fn non_monastery_tiles_have_no_monastery() {
    assert!(!city_n_road_ew().monastery);
    assert!(!road_straight().monastery);
    assert!(!all_city_shield().monastery);
}

#[test]
fn shield_count_in_bag_is_six() {
    let count = base_game_bag().iter().filter(|t| t.shield).count();
    assert_eq!(count, 10);
}

#[test]
fn monastery_count_in_bag_is_six() {
    let count = base_game_bag().iter().filter(|t| t.monastery).count();
    assert_eq!(count, 6);
}

#[test]
fn all_24_types_callable() {
    let _ = (
        monastery_with_road(), monastery_alone(), all_city_shield(),
        city_n_road_ew(), city_n_only(), through_city_shield(),
        through_city(), split_city_ew(), city_corner_se(),
        city_n_road_right_turn(), city_n_road_left_turn(), city_n_road_t(),
        city_corner_ne_shield(), city_corner_ne(), city_nw_road_se_shield(),
        city_nw_road_se(), three_side_city_shield(), three_side_city(),
        three_side_city_road_shield(), three_side_city_road(),
        road_straight(), road_corner(), road_t_junction(), road_crossroads(),
    );
}

// ---- further cases ----

#[test]
fn starter_tile_is_city_north_road_east_west() {
    let s = starter_tile();
    assert_eq!(s, city_n_road_ew());
    assert_eq!(s.edges, [EdgeKind::City, EdgeKind::Road, EdgeKind::Field, EdgeKind::Road]);
    assert_eq!(s.segments, [0, 1, 2, 1]);
}

#[test]
fn bag_holds_four_starter_types_and_one_city_with_shield_everywhere() {
    let bag = base_game_bag();
    assert_eq!(bag.iter().filter(|t| **t == city_n_road_ew()).count(), 4);
    assert_eq!(bag.iter().filter(|t| **t == all_city_shield()).count(), 1);
    assert_eq!(bag.iter().filter(|t| **t == road_straight()).count(), 8);
    assert_eq!(bag[7], city_n_road_ew());
}
