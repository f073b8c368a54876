use carcassonne_backend::domain::tile::{edges_match, EdgeKind, PlacedTile, Side, TileSpec};

fn straight_road() -> TileSpec {
    TileSpec {
        edges: [EdgeKind::Road, EdgeKind::Field, EdgeKind::Road, EdgeKind::Field],
        segments: [0, 1, 0, 2],
        monastery: false,
        shield: false,
    }
}

fn city_on_north() -> TileSpec {
    TileSpec {
        edges: [EdgeKind::City, EdgeKind::Field, EdgeKind::Field, EdgeKind::Field],
        segments: [0, 1, 1, 1],
        monastery: false,
        shield: false,
    }
}

#[test]
fn placed_tile_no_rotation_returns_canonical_edges() {
    let placed = PlacedTile::new(straight_road(), 0);
    assert_eq!(placed.edge(Side::North), EdgeKind::Road);
    assert_eq!(placed.edge(Side::East), EdgeKind::Field);
    assert_eq!(placed.edge(Side::South), EdgeKind::Road);
    assert_eq!(placed.edge(Side::West), EdgeKind::Field);
}

#[test]
fn rotation_90_cw_shifts_edges() {
    let placed = PlacedTile::new(city_on_north(), 1);
    assert_eq!(placed.edge(Side::North), EdgeKind::Field);
    assert_eq!(placed.edge(Side::East), EdgeKind::City);
    assert_eq!(placed.edge(Side::South), EdgeKind::Field);
    assert_eq!(placed.edge(Side::West), EdgeKind::Field);
}

#[test]
fn rotation_180_flips_edges() {
    let placed = PlacedTile::new(city_on_north(), 2);
    assert_eq!(placed.edge(Side::North), EdgeKind::Field);
    assert_eq!(placed.edge(Side::South), EdgeKind::City);
}

#[test]
fn rotation_270_cw() {
    let placed = PlacedTile::new(city_on_north(), 3);
    assert_eq!(placed.edge(Side::West), EdgeKind::City);
}

#[test]
fn rotation_4_equals_rotation_0() {
    let placed = PlacedTile::new(city_on_north(), 4);
    assert_eq!(placed.edge(Side::North), EdgeKind::City);
}

#[test]
fn opposite_side_is_involution() {
    for s in Side::all() {
        assert_eq!(s.opposite().opposite(), s);
    }
}

#[test]
fn adjacent_tiles_match_when_edge_kinds_align() {
    let left = PlacedTile::new(straight_road(), 1);
    let right = PlacedTile::new(straight_road(), 1);
    assert!(edges_match(&left, Side::East, &right));
}

#[test]
fn adjacent_tiles_mismatch_when_edge_kinds_differ() {
    let left = PlacedTile::new(straight_road(), 0);
    let right = PlacedTile::new(city_on_north(), 3);
    assert_eq!(left.edge(Side::East), EdgeKind::Field);
    assert_eq!(right.edge(Side::West), EdgeKind::City);
    assert!(!edges_match(&left, Side::East, &right));
}

#[test]
fn segment_id_rotates_with_edges() {
    let placed = PlacedTile::new(straight_road(), 1);
    assert_eq!(placed.segment_id(Side::East), placed.segment_id(Side::West));
}

// ---- further cases ----

#[test]
fn side_index_counts_clockwise_from_north() {
    assert_eq!(Side::North.index(), 0);
    assert_eq!(Side::East.index(), 1);
    assert_eq!(Side::South.index(), 2);
    assert_eq!(Side::West.index(), 3);
    assert_eq!(Side::all(), [Side::North, Side::East, Side::South, Side::West]);
}

#[test]
fn opposite_side_is_never_the_side_itself() {
    for s in Side::all() {
        assert_ne!(s.opposite(), s);
    }
    assert_eq!(Side::North.opposite(), Side::South);
    assert_eq!(Side::East.opposite(), Side::West);
}

#[test]
fn quarter_turn_moves_every_side_one_step_clockwise() {
    let spec = city_on_north();
    for rot in 0..4u8 {
        let a = PlacedTile::new(spec, rot);
        let b = PlacedTile::new(spec, (rot + 1) % 4);
        for s in Side::all() {
            let next = Side::all()[((s.index() + 1) % 4) as usize];
            assert_eq!(b.edge(next), a.edge(s));
            assert_eq!(b.segment_id(next), a.segment_id(s));
        }
    }
}

#[test]
fn rotation_is_taken_modulo_four() {
    let a = PlacedTile::new(city_on_north(), 6);
    assert_eq!(a.rotation, 2);
    assert_eq!(a.edge(Side::South), EdgeKind::City);
}

#[test]
fn same_as_compares_every_side_and_flag() {
    let a = straight_road();
    let mut b = straight_road();
    assert!(a.same_as(&b));
    b.shield = true;
    assert!(!a.same_as(&b));
    let mut c = straight_road();
    c.segments = [0, 1, 0, 3];
    assert!(!a.same_as(&c));
}

#[test]
fn edge_matching_reads_the_same_from_both_sides() {
    let a = PlacedTile::new(straight_road(), 1);
    let b = PlacedTile::new(city_on_north(), 3);
    for s in Side::all() {
        assert_eq!(edges_match(&a, s, &b), edges_match(&b, s.opposite(), &a));
    }
}
