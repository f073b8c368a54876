use vstd::prelude::*;

use crate::domain::tile::{side_at, side_index, spec_edge, spec_opposite, spec_segment, EdgeKind, PlacedTile, Side, TileSpec};

verus! {

/// The tile type with the given sides, segments and flags.
pub open spec fn spec_tile(edges: [EdgeKind; 4], segments: [u8; 4], monastery: bool, shield: bool) -> TileSpec {
    TileSpec { edges, segments, monastery, shield }
}

fn spec(edges: [EdgeKind; 4], segments: [u8; 4], monastery: bool, shield: bool) -> (r: TileSpec)
    ensures
        r == spec_tile(edges, segments, monastery, shield),
{
    TileSpec { edges, segments, monastery, shield }
}

/// Tile A: a monastery with a road leaving south.
pub open spec fn spec_monastery_with_road() -> TileSpec {
    spec_tile([EdgeKind::Field, EdgeKind::Field, EdgeKind::Road, EdgeKind::Field], [0, 0, 1, 0], true, false)
}

pub fn monastery_with_road() -> (r: TileSpec)
    ensures
        r == spec_monastery_with_road(),
{
    spec([EdgeKind::Field, EdgeKind::Field, EdgeKind::Road, EdgeKind::Field], [0, 0, 1, 0], true, false)
}

/// Tile B: a monastery surrounded by field.
pub open spec fn spec_monastery_alone() -> TileSpec {
    spec_tile([EdgeKind::Field, EdgeKind::Field, EdgeKind::Field, EdgeKind::Field], [0, 0, 0, 0], true, false)
}

pub fn monastery_alone() -> (r: TileSpec)
    ensures
        r == spec_monastery_alone(),
{
    spec([EdgeKind::Field, EdgeKind::Field, EdgeKind::Field, EdgeKind::Field], [0, 0, 0, 0], true, false)
}

/// Tile C: city on every side, with a shield (one closed city).
pub open spec fn spec_all_city_shield() -> TileSpec {
    spec_tile([EdgeKind::City, EdgeKind::City, EdgeKind::City, EdgeKind::City], [0, 0, 0, 0], false, true)
}

pub fn all_city_shield() -> (r: TileSpec)
    ensures
        r == spec_all_city_shield(),
{
    spec([EdgeKind::City, EdgeKind::City, EdgeKind::City, EdgeKind::City], [0, 0, 0, 0], false, true)
}

/// Tile D: city north, a straight road east-west, field south. The starting tile.
pub open spec fn spec_city_n_road_ew() -> TileSpec {
    spec_tile([EdgeKind::City, EdgeKind::Road, EdgeKind::Field, EdgeKind::Road], [0, 1, 2, 1], false, false)
}

pub fn city_n_road_ew() -> (r: TileSpec)
    ensures
        r == spec_city_n_road_ew(),
{
    spec([EdgeKind::City, EdgeKind::Road, EdgeKind::Field, EdgeKind::Road], [0, 1, 2, 1], false, false)
}

/// Tile E: city north only.
pub open spec fn spec_city_n_only() -> TileSpec {
    spec_tile([EdgeKind::City, EdgeKind::Field, EdgeKind::Field, EdgeKind::Field], [0, 1, 1, 1], false, false)
}

pub fn city_n_only() -> (r: TileSpec)
    ensures
        r == spec_city_n_only(),
{
    spec([EdgeKind::City, EdgeKind::Field, EdgeKind::Field, EdgeKind::Field], [0, 1, 1, 1], false, false)
}

/// Tile F: a city running east-west with a shield; fields north and south kept apart.
pub open spec fn spec_through_city_shield() -> TileSpec {
    spec_tile([EdgeKind::Field, EdgeKind::City, EdgeKind::Field, EdgeKind::City], [1, 0, 2, 0], false, true)
}

pub fn through_city_shield() -> (r: TileSpec)
    ensures
        r == spec_through_city_shield(),
{
    spec([EdgeKind::Field, EdgeKind::City, EdgeKind::Field, EdgeKind::City], [1, 0, 2, 0], false, true)
}

/// Tile G: a city running east-west, no shield.
pub open spec fn spec_through_city() -> TileSpec {
    spec_tile([EdgeKind::Field, EdgeKind::City, EdgeKind::Field, EdgeKind::City], [1, 0, 2, 0], false, false)
}

pub fn through_city() -> (r: TileSpec)
    ensures
        r == spec_through_city(),
{
    spec([EdgeKind::Field, EdgeKind::City, EdgeKind::Field, EdgeKind::City], [1, 0, 2, 0], false, false)
}

/// Tile H: two separate cities east and west, field joined north-south.
pub open spec fn spec_split_city_ew() -> TileSpec {
    spec_tile([EdgeKind::Field, EdgeKind::City, EdgeKind::Field, EdgeKind::City], [0, 1, 0, 2], false, false)
}

/// However the split-city tile is turned, its two city sides belong to two
/// different cities, its two field sides to one field, and it shows a city on
/// exactly two opposite sides.
pub proof fn lemma_split_city_apart(rotation: u8, s1: Side, s2: Side)
    requires
        rotation <= 4,
    ensures
        ({
            let t = PlacedTile { spec: spec_split_city_ew(), rotation };
            &&& (s1 != s2 && spec_edge(t, s1) == EdgeKind::City && spec_edge(t, s2) == EdgeKind::City
                ==> spec_segment(t, s1) != spec_segment(t, s2))
            &&& (spec_edge(t, s1) == EdgeKind::Field && spec_edge(t, s2) == EdgeKind::Field
                ==> spec_segment(t, s1) == spec_segment(t, s2))
            &&& (spec_edge(t, s1) == EdgeKind::City <==> spec_edge(t, spec_opposite(s1)) == EdgeKind::City)
            &&& (spec_edge(t, s1) != spec_edge(t, side_at(side_index(s1) + 1)))
        }),
{
    let t = PlacedTile { spec: spec_split_city_ew(), rotation };
    assert(t.spec.edges[0] == EdgeKind::Field && t.spec.edges[1] == EdgeKind::City);
    assert(t.spec.edges[2] == EdgeKind::Field && t.spec.edges[3] == EdgeKind::City);
    assert(t.spec.segments[0] == 0 && t.spec.segments[1] == 1 && t.spec.segments[2] == 0 && t.spec.segments[3] == 2);
}

pub fn split_city_ew() -> (r: TileSpec)
    ensures
        r == spec_split_city_ew(),
{
    spec([EdgeKind::Field, EdgeKind::City, EdgeKind::Field, EdgeKind::City], [0, 1, 0, 2], false, false)
}

/// Tile I: a city corner joining east and south.
pub open spec fn spec_city_corner_se() -> TileSpec {
    spec_tile([EdgeKind::Field, EdgeKind::City, EdgeKind::City, EdgeKind::Field], [0, 1, 1, 0], false, false)
}

pub fn city_corner_se() -> (r: TileSpec)
    ensures
        r == spec_city_corner_se(),
{
    spec([EdgeKind::Field, EdgeKind::City, EdgeKind::City, EdgeKind::Field], [0, 1, 1, 0], false, false)
}

/// Tile J: city north and a road turning east-south.
pub open spec fn spec_city_n_road_right_turn() -> TileSpec {
    spec_tile([EdgeKind::City, EdgeKind::Road, EdgeKind::Road, EdgeKind::Field], [0, 1, 1, 2], false, false)
}

pub fn city_n_road_right_turn() -> (r: TileSpec)
    ensures
        r == spec_city_n_road_right_turn(),
{
    spec([EdgeKind::City, EdgeKind::Road, EdgeKind::Road, EdgeKind::Field], [0, 1, 1, 2], false, false)
}

/// Tile K: city north and a road turning south-west.
pub open spec fn spec_city_n_road_left_turn() -> TileSpec {
    spec_tile([EdgeKind::City, EdgeKind::Field, EdgeKind::Road, EdgeKind::Road], [0, 1, 2, 2], false, false)
}

pub fn city_n_road_left_turn() -> (r: TileSpec)
    ensures
        r == spec_city_n_road_left_turn(),
{
    spec([EdgeKind::City, EdgeKind::Field, EdgeKind::Road, EdgeKind::Road], [0, 1, 2, 2], false, false)
}

/// Tile L: city north and three separate roads east, south and west.
pub open spec fn spec_city_n_road_t() -> TileSpec {
    spec_tile([EdgeKind::City, EdgeKind::Road, EdgeKind::Road, EdgeKind::Road], [0, 1, 2, 3], false, false)
}

pub fn city_n_road_t() -> (r: TileSpec)
    ensures
        r == spec_city_n_road_t(),
{
    spec([EdgeKind::City, EdgeKind::Road, EdgeKind::Road, EdgeKind::Road], [0, 1, 2, 3], false, false)
}

/// Tile M: a city corner north-east with a shield; field south and west joined.
pub open spec fn spec_city_corner_ne_shield() -> TileSpec {
    spec_tile([EdgeKind::City, EdgeKind::City, EdgeKind::Field, EdgeKind::Field], [0, 0, 1, 1], false, true)
}

pub fn city_corner_ne_shield() -> (r: TileSpec)
    ensures
        r == spec_city_corner_ne_shield(),
{
    spec([EdgeKind::City, EdgeKind::City, EdgeKind::Field, EdgeKind::Field], [0, 0, 1, 1], false, true)
}

/// Tile N: a city corner north-east, no shield.
pub open spec fn spec_city_corner_ne() -> TileSpec {
    spec_tile([EdgeKind::City, EdgeKind::City, EdgeKind::Field, EdgeKind::Field], [0, 0, 1, 1], false, false)
}

pub fn city_corner_ne() -> (r: TileSpec)
    ensures
        r == spec_city_corner_ne(),
{
    spec([EdgeKind::City, EdgeKind::City, EdgeKind::Field, EdgeKind::Field], [0, 0, 1, 1], false, false)
}

/// Tile O: a city corner north-west and a road corner south-east, with a shield.
pub open spec fn spec_city_nw_road_se_shield() -> TileSpec {
    spec_tile([EdgeKind::City, EdgeKind::Road, EdgeKind::Road, EdgeKind::City], [0, 1, 1, 0], false, true)
}

pub fn city_nw_road_se_shield() -> (r: TileSpec)
    ensures
        r == spec_city_nw_road_se_shield(),
{
    spec([EdgeKind::City, EdgeKind::Road, EdgeKind::Road, EdgeKind::City], [0, 1, 1, 0], false, true)
}

/// Tile P: a city corner north-west and a road corner south-east, no shield.
pub open spec fn spec_city_nw_road_se() -> TileSpec {
    spec_tile([EdgeKind::City, EdgeKind::Road, EdgeKind::Road, EdgeKind::City], [0, 1, 1, 0], false, false)
}

pub fn city_nw_road_se() -> (r: TileSpec)
    ensures
        r == spec_city_nw_road_se(),
{
    spec([EdgeKind::City, EdgeKind::Road, EdgeKind::Road, EdgeKind::City], [0, 1, 1, 0], false, false)
}

/// Tile Q: city on north, east and west, field south, with a shield.
pub open spec fn spec_three_side_city_shield() -> TileSpec {
    spec_tile([EdgeKind::City, EdgeKind::City, EdgeKind::Field, EdgeKind::City], [0, 0, 1, 0], false, true)
}

pub fn three_side_city_shield() -> (r: TileSpec)
    ensures
        r == spec_three_side_city_shield(),
{
    spec([EdgeKind::City, EdgeKind::City, EdgeKind::Field, EdgeKind::City], [0, 0, 1, 0], false, true)
}

/// Tile R: city on north, east and west, field south, no shield.
pub open spec fn spec_three_side_city() -> TileSpec {
    spec_tile([EdgeKind::City, EdgeKind::City, EdgeKind::Field, EdgeKind::City], [0, 0, 1, 0], false, false)
}

pub fn three_side_city() -> (r: TileSpec)
    ensures
        r == spec_three_side_city(),
{
    spec([EdgeKind::City, EdgeKind::City, EdgeKind::Field, EdgeKind::City], [0, 0, 1, 0], false, false)
}

/// Tile S: city on three sides and a road south, with a shield.
pub open spec fn spec_three_side_city_road_shield() -> TileSpec {
    spec_tile([EdgeKind::City, EdgeKind::City, EdgeKind::Road, EdgeKind::City], [0, 0, 1, 0], false, true)
}

pub fn three_side_city_road_shield() -> (r: TileSpec)
    ensures
        r == spec_three_side_city_road_shield(),
{
    spec([EdgeKind::City, EdgeKind::City, EdgeKind::Road, EdgeKind::City], [0, 0, 1, 0], false, true)
}

/// Tile T: city on three sides and a road south, no shield.
pub open spec fn spec_three_side_city_road() -> TileSpec {
    spec_tile([EdgeKind::City, EdgeKind::City, EdgeKind::Road, EdgeKind::City], [0, 0, 1, 0], false, false)
}

pub fn three_side_city_road() -> (r: TileSpec)
    ensures
        r == spec_three_side_city_road(),
{
    spec([EdgeKind::City, EdgeKind::City, EdgeKind::Road, EdgeKind::City], [0, 0, 1, 0], false, false)
}

/// Tile U: a straight road east-west, fields north and south.
pub open spec fn spec_road_straight() -> TileSpec {
    spec_tile([EdgeKind::Field, EdgeKind::Road, EdgeKind::Field, EdgeKind::Road], [0, 1, 2, 1], false, false)
}

pub fn road_straight() -> (r: TileSpec)
    ensures
        r == spec_road_straight(),
{
    spec([EdgeKind::Field, EdgeKind::Road, EdgeKind::Field, EdgeKind::Road], [0, 1, 2, 1], false, false)
}

/// Tile V: a road corner south-west; the field around it is joined.
pub open spec fn spec_road_corner() -> TileSpec {
    spec_tile([EdgeKind::Field, EdgeKind::Field, EdgeKind::Road, EdgeKind::Road], [0, 0, 1, 1], false, false)
}

pub fn road_corner() -> (r: TileSpec)
    ensures
        r == spec_road_corner(),
{
    spec([EdgeKind::Field, EdgeKind::Field, EdgeKind::Road, EdgeKind::Road], [0, 0, 1, 1], false, false)
}

/// Tile W: three separate roads east, south and west, field north.
pub open spec fn spec_road_t_junction() -> TileSpec {
    spec_tile([EdgeKind::Field, EdgeKind::Road, EdgeKind::Road, EdgeKind::Road], [0, 1, 2, 3], false, false)
}

pub fn road_t_junction() -> (r: TileSpec)
    ensures
        r == spec_road_t_junction(),
{
    spec([EdgeKind::Field, EdgeKind::Road, EdgeKind::Road, EdgeKind::Road], [0, 1, 2, 3], false, false)
}

/// Tile X: a crossroads of four separate roads.
pub open spec fn spec_road_crossroads() -> TileSpec {
    spec_tile([EdgeKind::Road, EdgeKind::Road, EdgeKind::Road, EdgeKind::Road], [0, 1, 2, 3], false, false)
}

pub fn road_crossroads() -> (r: TileSpec)
    ensures
        r == spec_road_crossroads(),
{
    spec([EdgeKind::Road, EdgeKind::Road, EdgeKind::Road, EdgeKind::Road], [0, 1, 2, 3], false, false)
}

/// The tile every game starts with.
pub fn starter_tile() -> (r: TileSpec)
    ensures
        r == spec_city_n_road_ew(),
{
    city_n_road_ew()
}

/// `n` copies of the tile `t`.
pub open spec fn copies(t: TileSpec, n: nat) -> Seq<TileSpec> {
    Seq::new(n, |i: int| t)
}

/// The base game's tiles, type by type in the order A to X, each as many
/// times as the box holds it.
pub open spec fn spec_base_game_bag() -> Seq<TileSpec> {
    copies(spec_monastery_with_road(), 2)
        + copies(spec_monastery_alone(), 4)
        + copies(spec_all_city_shield(), 1)
        + copies(spec_city_n_road_ew(), 4)
        + copies(spec_city_n_only(), 5)
        + copies(spec_through_city_shield(), 2)
        + copies(spec_through_city(), 1)
        + copies(spec_split_city_ew(), 3)
        + copies(spec_city_corner_se(), 2)
        + copies(spec_city_n_road_right_turn(), 3)
        + copies(spec_city_n_road_left_turn(), 3)
        + copies(spec_city_n_road_t(), 3)
        + copies(spec_city_corner_ne_shield(), 2)
        + copies(spec_city_corner_ne(), 3)
        + copies(spec_city_nw_road_se_shield(), 2)
        + copies(spec_city_nw_road_se(), 3)
        + copies(spec_three_side_city_shield(), 1)
        + copies(spec_three_side_city(), 3)
        + copies(spec_three_side_city_road_shield(), 2)
        + copies(spec_three_side_city_road(), 1)
        + copies(spec_road_straight(), 8)
        + copies(spec_road_corner(), 9)
        + copies(spec_road_t_junction(), 4)
        + copies(spec_road_crossroads(), 1)
}

fn push_copies(bag: &mut Vec<TileSpec>, t: TileSpec, n: u8)
    requires
        old(bag)@.len() + n <= usize::MAX,
    ensures
        final(bag)@ == old(bag)@ + copies(t, n as nat),
{
    let mut k: u8 = 0;
    while k < n
        invariant
            k <= n,
            bag@ == old(bag)@ + copies(t, k as nat),
            old(bag)@.len() + n <= usize::MAX,
        decreases n - k,
    {
        bag.push(t);
        k = k + 1;
        assert(bag@ =~= old(bag)@ + copies(t, k as nat));
    }
}

/// The standard base game: 72 tiles, the starting tile among them.
pub fn base_game_bag() -> (bag: Vec<TileSpec>)
    ensures
        bag@ == spec_base_game_bag(),
        bag@.len() == 72,
{
    let mut bag: Vec<TileSpec> = Vec::with_capacity(72);
    push_copies(&mut bag, monastery_with_road(), 2);
    push_copies(&mut bag, monastery_alone(), 4);
    push_copies(&mut bag, all_city_shield(), 1);
    push_copies(&mut bag, city_n_road_ew(), 4);
    push_copies(&mut bag, city_n_only(), 5);
    push_copies(&mut bag, through_city_shield(), 2);
    push_copies(&mut bag, through_city(), 1);
    push_copies(&mut bag, split_city_ew(), 3);
    push_copies(&mut bag, city_corner_se(), 2);
    push_copies(&mut bag, city_n_road_right_turn(), 3);
    push_copies(&mut bag, city_n_road_left_turn(), 3);
    push_copies(&mut bag, city_n_road_t(), 3);
    push_copies(&mut bag, city_corner_ne_shield(), 2);
    push_copies(&mut bag, city_corner_ne(), 3);
    push_copies(&mut bag, city_nw_road_se_shield(), 2);
    push_copies(&mut bag, city_nw_road_se(), 3);
    push_copies(&mut bag, three_side_city_shield(), 1);
    push_copies(&mut bag, three_side_city(), 3);
    push_copies(&mut bag, three_side_city_road_shield(), 2);
    push_copies(&mut bag, three_side_city_road(), 1);
    push_copies(&mut bag, road_straight(), 8);
    push_copies(&mut bag, road_corner(), 9);
    push_copies(&mut bag, road_t_junction(), 4);
    push_copies(&mut bag, road_crossroads(), 1);
    assert(bag@ =~= spec_base_game_bag());
    bag
}

} // verus!
