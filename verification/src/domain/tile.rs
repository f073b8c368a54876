use vstd::prelude::*;

verus! {

/// One of the four sides of a square tile, listed clockwise from the top.
#[derive(Debug, Clone, Copy, PartialEq, Eq, Hash, Structural)]
pub enum Side {
    North,
    East,
    South,
    West,
}

/// The number of a side, counted clockwise from North.
pub open spec fn side_index(s: Side) -> int {
    match s {
        Side::North => 0,
        Side::East => 1,
        Side::South => 2,
        Side::West => 3,
    }
}

/// The side with the given clockwise number (taken modulo 4).
pub open spec fn side_at(i: int) -> Side {
    let k = i % 4;
    if k == 0 {
        Side::North
    } else if k == 1 {
        Side::East
    } else if k == 2 {
        Side::South
    } else {
        Side::West
    }
}

/// The side facing `s`: two steps around the clock.
pub open spec fn spec_opposite(s: Side) -> Side {
    side_at(side_index(s) + 2)
}

impl Side {
    /// The clockwise number of this side (North = 0).
    pub fn index(self) -> (r: u8)
        ensures
            r as int == side_index(self),
    {
        match self {
            Side::North => 0,
            Side::East => 1,
            Side::South => 2,
            Side::West => 3,
        }
    }

    pub fn opposite(self) -> (r: Side)
        ensures
            r == spec_opposite(self),
            side_index(r) == (side_index(self) + 2) % 4,
    {
        match self {
            Side::North => Side::South,
            Side::East => Side::West,
            Side::South => Side::North,
            Side::West => Side::East,
        }
    }

    /// All four sides in clockwise order starting at North.
    pub fn all() -> (r: [Side; 4])
        ensures
            forall|i: int| 0 <= i < 4 ==> #[trigger] r[i] == side_at(i),
    {
        [Side::North, Side::East, Side::South, Side::West]
    }
}

/// Facing twice gets back to the side one started from.
pub proof fn lemma_opposite_involution(s: Side)
    ensures
        spec_opposite(spec_opposite(s)) == s,
        spec_opposite(s) != s,
{
}

#[derive(Debug, Clone, Copy, PartialEq, Eq, Hash, Structural)]
pub enum EdgeKind {
    Road,
    City,
    Field,
}

/// A tile type as printed, before rotation: the terrain on each side and the
/// segment each side belongs to (sides with the same number are connected).
#[derive(Debug, Clone, Copy, PartialEq, Eq)]
pub struct TileSpec {
    pub edges: [EdgeKind; 4],
    pub segments: [u8; 4],
    pub monastery: bool,
    pub shield: bool,
}

/// A tile type turned clockwise by `rotation` quarter turns.
#[derive(Debug, Clone, Copy)]
pub struct PlacedTile {
    pub spec: TileSpec,
    pub rotation: u8,
}

/// The printed side that ends up at side number `side` after `rot` quarter turns.
pub open spec fn canonical_index(side: int, rot: int) -> int {
    (side + 4 - rot) % 4
}

/// The terrain a placed tile shows on side `s`.
pub open spec fn spec_edge(t: PlacedTile, s: Side) -> EdgeKind {
    t.spec.edges[canonical_index(side_index(s), t.rotation as int)]
}

/// The segment number a placed tile has on side `s`.
pub open spec fn spec_segment(t: PlacedTile, s: Side) -> u8 {
    t.spec.segments[canonical_index(side_index(s), t.rotation as int)]
}

/// The rotation is at most a full turn, so that every side can be read.
pub open spec fn rotation_ok(t: PlacedTile) -> bool {
    t.rotation <= 4
}

/// Two tile types are the same on every side and in every flag.
pub open spec fn same_spec(a: TileSpec, b: TileSpec) -> bool {
    &&& forall|i: int| 0 <= i < 4 ==> a.edges[i] == b.edges[i]
    &&& forall|i: int| 0 <= i < 4 ==> a.segments[i] == b.segments[i]
    &&& a.monastery == b.monastery
    &&& a.shield == b.shield
}

impl TileSpec {
    /// Whether two tile types are identical.
    pub fn same_as(&self, other: &TileSpec) -> (r: bool)
        ensures
            r == same_spec(*self, *other),
            r == (*self == *other),
    {
        let mut i: usize = 0;
        while i < 4
            invariant
                i <= 4,
                forall|j: int| 0 <= j < i ==> self.edges[j] == other.edges[j],
                forall|j: int| 0 <= j < i ==> self.segments[j] == other.segments[j],
            decreases 4 - i,
        {
            if self.edges[i] != other.edges[i] || self.segments[i] != other.segments[i] {
                return false;
            }
            i = i + 1;
        }
        let r = self.monastery == other.monastery && self.shield == other.shield;
        proof {
            broadcast use vstd::array::group_array_axioms;
            if r {
                assert(self.edges =~= other.edges);
                assert(self.segments =~= other.segments);
            }
        }
        r
    }
}

impl PlacedTile {
    pub fn new(spec: TileSpec, rotation: u8) -> (r: PlacedTile)
        ensures
            r.spec == spec,
            r.rotation == rotation % 4,
            rotation_ok(r),
    {
        PlacedTile { spec, rotation: rotation % 4 }
    }

    pub fn edge(&self, side: Side) -> (r: EdgeKind)
        requires
            self.rotation <= side_index(side) + 4,
        ensures
            r == spec_edge(*self, side),
    {
        let canonical = (side.index() + 4 - self.rotation) % 4;
        self.spec.edges[canonical as usize]
    }

    pub fn segment_id(&self, side: Side) -> (r: u8)
        requires
            self.rotation <= side_index(side) + 4,
        ensures
            r == spec_segment(*self, side),
    {
        let canonical = (side.index() + 4 - self.rotation) % 4;
        self.spec.segments[canonical as usize]
    }
}

/// Whether `a` shows on side `side_of_a` the same terrain that `b` shows on the facing side.
pub open spec fn spec_edges_match(a: PlacedTile, side_of_a: Side, b: PlacedTile) -> bool {
    spec_edge(a, side_of_a) == spec_edge(b, spec_opposite(side_of_a))
}

pub fn edges_match(a: &PlacedTile, side_of_a: Side, b: &PlacedTile) -> (r: bool)
    requires
        a.rotation <= side_index(side_of_a) + 4,
        b.rotation <= side_index(spec_opposite(side_of_a)) + 4,
    ensures
        r == spec_edges_match(*a, side_of_a, *b),
{
    a.edge(side_of_a) == b.edge(side_of_a.opposite())
}

/// Two tiles match across a border seen from either side.
pub proof fn lemma_edges_match_symmetric(a: PlacedTile, s: Side, b: PlacedTile)
    ensures
        spec_edges_match(a, s, b) == spec_edges_match(b, spec_opposite(s), a),
{
    lemma_opposite_involution(s);
}

/// Turning a tile by a full turn shows the same terrain and segments on every side.
pub proof fn lemma_full_turn(spec: TileSpec, rotation: u8, s: Side)
    requires
        rotation <= 251,
    ensures
        spec_edge(PlacedTile { spec, rotation: ((rotation + 4) % 256) as u8 % 4 }, s)
            == spec_edge(PlacedTile { spec, rotation: rotation % 4 }, s),
        spec_segment(PlacedTile { spec, rotation: ((rotation + 4) % 256) as u8 % 4 }, s)
            == spec_segment(PlacedTile { spec, rotation: rotation % 4 }, s),
{
}

/// A quarter turn moves what was on side `i` to side `i + 1`.
pub proof fn lemma_quarter_turn(spec: TileSpec, rotation: u8, s: Side)
    requires
        rotation < 4,
    ensures
        spec_edge(PlacedTile { spec, rotation: ((rotation + 1) % 4) as u8 }, side_at(side_index(s) + 1))
            == spec_edge(PlacedTile { spec, rotation }, s),
        spec_segment(PlacedTile { spec, rotation: ((rotation + 1) % 4) as u8 }, side_at(side_index(s) + 1))
            == spec_segment(PlacedTile { spec, rotation }, s),
{
}

} // verus!
