use vstd::prelude::*;

use rand::rngs::StdRng;
use rand::seq::SliceRandom;
use rand::SeedableRng;

use crate::domain::board::{board_roomy, spec_can_place, Board, BoardModel, Pos};
use crate::domain::feature::PlayerId;
use crate::domain::greedy::{
    candidate_positions, is_candidate, legal_spot, lemma_meeple_options, meeple_options, move_tile,
    offered, spec_candidates, spec_meeple_options, GreedyMove, MeepleChoice,
};
use crate::domain::tile::{rotation_ok, PlacedTile, TileSpec};

verus! {

// ---------------------------------------------------------------------------
// The moves open to a tile, in search order
// ---------------------------------------------------------------------------

/// The moves at cell `pos` with `rot` turns, when the tile fits there: without
/// a follower, then with each follower choice the tile offers, if the player
/// has a follower left.
pub open spec fn moves_at(b: BoardModel, spec: TileSpec, hm: bool, pos: Pos, rot: u8) -> Seq<GreedyMove> {
    let t = PlacedTile { spec, rotation: rot };
    if spec_can_place(b.tiles, pos, t) is Ok {
        seq![GreedyMove { pos, rotation: rot, meeple: None }] + if hm {
            spec_meeple_options(t).map_values(|c: MeepleChoice| GreedyMove { pos, rotation: rot, meeple: Some(c) })
        } else {
            Seq::empty()
        }
    } else {
        Seq::empty()
    }
}

/// The moves at cell `pos` with fewer than `r` turns, turns in increasing order.
pub open spec fn rots_upto(b: BoardModel, spec: TileSpec, hm: bool, pos: Pos, r: nat) -> Seq<GreedyMove>
    decreases r,
{
    if r == 0 {
        Seq::empty()
    } else {
        rots_upto(b, spec, hm, pos, (r - 1) as nat) + moves_at(b, spec, hm, pos, (r - 1) as u8)
    }
}

/// The moves at the first `n` cells of `cells`, cell by cell.
pub open spec fn moves_upto(b: BoardModel, spec: TileSpec, hm: bool, cells: Seq<Pos>, n: nat) -> Seq<GreedyMove>
    decreases n,
{
    if n == 0 {
        Seq::empty()
    } else {
        moves_upto(b, spec, hm, cells, (n - 1) as nat) + rots_upto(b, spec, hm, cells[n - 1], 4)
    }
}

/// Every move open to tile type `spec`, in search order: candidate cell by
/// candidate cell, turn by turn, without a follower and then with each one offered.
pub open spec fn spec_legal_moves(b: BoardModel, spec: TileSpec, hm: bool) -> Seq<GreedyMove> {
    let cells = spec_candidates(b.tiles);
    moves_upto(b, spec, hm, cells, cells.len())
}

/// A move the enumeration lists: a legal spot, and a follower only where the
/// tile offers one and the player has one.
pub open spec fn listed_move(b: BoardModel, spec: TileSpec, hm: bool, m: GreedyMove) -> bool {
    let t = move_tile(spec, m);
    &&& m.rotation < 4
    &&& legal_spot(b, m.pos, t)
    &&& (m.meeple matches Some(c) ==> hm && offered(t, c))
}

/// Every listed move can be played: its tile goes to its cell by the rules,
/// and a follower comes with it only when the player has one.
pub proof fn lemma_listed_moves_fit(b: BoardModel, spec: TileSpec, hm: bool, m: GreedyMove)
    requires
        listed_move(b, spec, hm, m),
    ensures
        spec_can_place(b.tiles, m.pos, move_tile(spec, m)) is Ok,
        m.rotation < 4,
        m.meeple is Some ==> hm,
{
}

/// The move a seeded draw takes from `moves`, `None` from an empty list.
pub open spec fn seeded_move(moves: Seq<GreedyMove>, seed: u64) -> Option<GreedyMove> {
    if moves.len() == 0 {
        None
    } else {
        Some(moves[seeded_index(seed, moves.len())])
    }
}

/// The index that `rand`'s `SliceRandom::choose` draws, with a `StdRng` seeded
/// from `seed`, from a slice of length `len`.
pub uninterp spec fn seeded_index(seed: u64, len: nat) -> int;

// ---------------------------------------------------------------------------
// Lemmas
// ---------------------------------------------------------------------------

pub proof fn lemma_moves_at_contains(b: BoardModel, spec: TileSpec, hm: bool, pos: Pos, rot: u8, m: GreedyMove)
    ensures
        moves_at(b, spec, hm, pos, rot).contains(m) <==> {
            let t = PlacedTile { spec, rotation: rot };
            &&& m.pos == pos
            &&& m.rotation == rot
            &&& spec_can_place(b.tiles, pos, t) is Ok
            &&& (m.meeple matches Some(c) ==> hm && spec_meeple_options(t).contains(c))
        },
{
    let t = PlacedTile { spec, rotation: rot };
    let s = moves_at(b, spec, hm, pos, rot);
    let opts = spec_meeple_options(t);
    let f = |c: MeepleChoice| GreedyMove { pos, rotation: rot, meeple: Some(c) };
    if spec_can_place(b.tiles, pos, t) is Ok {
        let tail: Seq<GreedyMove> = if hm {
            opts.map_values(f)
        } else {
            Seq::empty()
        };
        assert(s == seq![GreedyMove { pos, rotation: rot, meeple: None }] + tail);
        if s.contains(m) {
            let j = choose|j: int| 0 <= j < s.len() && s[j] == m;
            if j > 0 {
                assert(tail[j - 1] == m);
                assert(hm);
                assert(opts[j - 1] == m.meeple.unwrap());
            }
        }
        if m.pos == pos && m.rotation == rot {
            match m.meeple {
                None => {
                    assert(s[0] == m);
                },
                Some(c) => {
                    if hm && opts.contains(c) {
                        let j = choose|j: int| 0 <= j < opts.len() && opts[j] == c;
                        assert(tail[j] == m);
                        assert(s[j + 1] == m);
                    }
                },
            }
        }
    }
}

pub proof fn lemma_rots_upto_contains(b: BoardModel, spec: TileSpec, hm: bool, pos: Pos, r: nat, m: GreedyMove)
    requires
        r <= 4,
    ensures
        rots_upto(b, spec, hm, pos, r).contains(m) <==> (m.rotation < r
            && moves_at(b, spec, hm, pos, m.rotation).contains(m)),
    decreases r,
{
    if r > 0 {
        lemma_rots_upto_contains(b, spec, hm, pos, (r - 1) as nat, m);
        let pre = rots_upto(b, spec, hm, pos, (r - 1) as nat);
        let last = moves_at(b, spec, hm, pos, (r - 1) as u8);
        let s = rots_upto(b, spec, hm, pos, r);
        lemma_moves_at_contains(b, spec, hm, pos, (r - 1) as u8, m);
        if s.contains(m) {
            let j = choose|j: int| 0 <= j < s.len() && s[j] == m;
            if j < pre.len() {
                assert(pre[j] == m);
            } else {
                assert(last[j - pre.len()] == m);
            }
        }
        if m.rotation < r && moves_at(b, spec, hm, pos, m.rotation).contains(m) {
            if m.rotation < r - 1 {
                let j = choose|j: int| 0 <= j < pre.len() && pre[j] == m;
                assert(s[j] == m);
            } else {
                let j = choose|j: int| 0 <= j < last.len() && last[j] == m;
                assert(s[pre.len() + j] == m);
            }
        }
    }
}

pub proof fn lemma_moves_upto_contains(b: BoardModel, spec: TileSpec, hm: bool, cells: Seq<Pos>, n: nat, m: GreedyMove)
    requires
        n <= cells.len(),
    ensures
        moves_upto(b, spec, hm, cells, n).contains(m) <==> exists|j: int| 0 <= j < n && cells[j] == m.pos
            && #[trigger] rots_upto(b, spec, hm, cells[j], 4).contains(m),
    decreases n,
{
    if n > 0 {
        lemma_moves_upto_contains(b, spec, hm, cells, (n - 1) as nat, m);
        let pre = moves_upto(b, spec, hm, cells, (n - 1) as nat);
        let last = rots_upto(b, spec, hm, cells[n - 1], 4);
        let s = moves_upto(b, spec, hm, cells, n);
        lemma_rots_upto_contains(b, spec, hm, cells[n - 1], 4, m);
        if moves_at(b, spec, hm, cells[n - 1], m.rotation).contains(m) {
            lemma_moves_at_contains(b, spec, hm, cells[n - 1], m.rotation, m);
        }
        if s.contains(m) {
            let j = choose|j: int| 0 <= j < s.len() && s[j] == m;
            if j < pre.len() {
                assert(pre[j] == m);
            } else {
                assert(last[j - pre.len()] == m);
                assert(last.contains(m));
            }
        }
        if exists|j: int| 0 <= j < n && cells[j] == m.pos && #[trigger] rots_upto(b, spec, hm, cells[j], 4).contains(m) {
            let j = choose|j: int| 0 <= j < n && cells[j] == m.pos && #[trigger] rots_upto(b, spec, hm, cells[j], 4).contains(m);
            if j < n - 1 {
                assert(pre.contains(m));
                let t = choose|t: int| 0 <= t < pre.len() && pre[t] == m;
                assert(s[t] == m);
            } else {
                let t = choose|t: int| 0 <= t < last.len() && last[t] == m;
                assert(s[pre.len() + t] == m);
            }
        }
    }
}

/// A move is in the enumeration exactly when it is a listed move.
pub proof fn lemma_legal_moves_contains(b: BoardModel, spec: TileSpec, hm: bool, m: GreedyMove)
    requires
        forall|p: Pos| #[trigger] spec_candidates(b.tiles).contains(p) <==> is_candidate(b.tiles, p),
    ensures
        spec_legal_moves(b, spec, hm).contains(m) <==> listed_move(b, spec, hm, m),
{
    let cells = spec_candidates(b.tiles);
    let t = move_tile(spec, m);
    lemma_moves_upto_contains(b, spec, hm, cells, cells.len(), m);
    lemma_rots_upto_contains(b, spec, hm, m.pos, 4, m);
    lemma_moves_at_contains(b, spec, hm, m.pos, m.rotation, m);
    if let Some(c) = m.meeple {
        lemma_meeple_options(t, c);
    }
    if spec_legal_moves(b, spec, hm).contains(m) {
        let j = choose|j: int| 0 <= j < cells.len() && cells[j] == m.pos
            && #[trigger] rots_upto(b, spec, hm, cells[j], 4).contains(m);
        assert(cells.contains(m.pos));
        assert(t == PlacedTile { spec, rotation: m.rotation });
    }
    if listed_move(b, spec, hm, m) {
        assert(cells.contains(m.pos));
        let j = choose|j: int| 0 <= j < cells.len() && cells[j] == m.pos;
        assert(rots_upto(b, spec, hm, cells[j], 4).contains(m));
    }
}

// ---------------------------------------------------------------------------
// Enumerating and drawing
// ---------------------------------------------------------------------------

/// Every move open to tile type `spec`, in search order.
pub fn enumerate_legal(board: &Board, spec: &TileSpec, has_meeple: bool) -> (r: Vec<GreedyMove>)
    requires
        board.wf(),
        board_roomy(board@),
    ensures
        r@ == spec_legal_moves(board@, *spec, has_meeple),
        forall|m: GreedyMove| #[trigger] r@.contains(m) <==> listed_move(board@, *spec, has_meeple, m),
{
    let ghost b = board@;
    let cands = candidate_positions(board);
    let mut legal: Vec<GreedyMove> = Vec::new();
    let mut i: usize = 0;
    while i < cands.len()
        invariant
            board.wf(),
            b == board@,
            cands@ == spec_candidates(b.tiles),
            forall|p: Pos| #[trigger] cands@.contains(p) <==> is_candidate(b.tiles, p),
            i <= cands@.len(),
            legal@ == moves_upto(b, *spec, has_meeple, cands@, i as nat),
        decreases cands@.len() - i,
    {
        let pos = cands[i];
        assert(cands@.contains(pos));
        let mut rot: u8 = 0;
        while rot < 4
            invariant
                board.wf(),
                b == board@,
                i < cands@.len(),
                pos == cands@[i as int],
                is_candidate(b.tiles, pos),
                rot <= 4,
                legal@ == moves_upto(b, *spec, has_meeple, cands@, i as nat) + rots_upto(b, *spec, has_meeple, pos, rot as nat),
            decreases 4 - rot,
        {
            let ghost base = legal@;
            let tile = PlacedTile::new(*spec, rot);
            assert(tile == PlacedTile { spec: *spec, rotation: rot });
            if board.can_place(pos, &tile).is_ok() {
                let mv0 = GreedyMove { pos, rotation: rot, meeple: None };
                legal.push(mv0);
                if has_meeple {
                    let opts = meeple_options(&tile);
                    let ghost f = |c: MeepleChoice| GreedyMove { pos, rotation: rot, meeple: Some(c) };
                    let mut o: usize = 0;
                    assert(opts@.take(0).map_values(f) =~= Seq::<GreedyMove>::empty());
                    assert(legal@ =~= base + seq![mv0] + opts@.take(0).map_values(f));
                    while o < opts.len()
                        invariant
                            o <= opts@.len(),
                            forall|c: MeepleChoice| #[trigger] f(c) == (GreedyMove { pos, rotation: rot, meeple: Some(c) }),
                            legal@ == base + seq![mv0] + opts@.take(o as int).map_values(f),
                        decreases opts@.len() - o,
                    {
                        legal.push(GreedyMove { pos, rotation: rot, meeple: Some(opts[o]) });
                        o = o + 1;
                        assert(opts@.take(o as int).map_values(f) =~= opts@.take(o - 1).map_values(f).push(f(opts@[o - 1])));
                        assert(legal@ =~= base + seq![mv0] + opts@.take(o as int).map_values(f));
                    }
                    assert(opts@.take(o as int) =~= opts@);
                    assert(legal@ =~= base + moves_at(b, *spec, has_meeple, pos, rot));
                } else {
                    assert(legal@ =~= base + moves_at(b, *spec, has_meeple, pos, rot));
                }
            } else {
                assert(legal@ =~= base + moves_at(b, *spec, has_meeple, pos, rot));
            }
            assert(rots_upto(b, *spec, has_meeple, pos, (rot + 1) as nat)
                == rots_upto(b, *spec, has_meeple, pos, rot as nat) + moves_at(b, *spec, has_meeple, pos, rot));
            assert(legal@ =~= moves_upto(b, *spec, has_meeple, cands@, i as nat) + rots_upto(b, *spec, has_meeple, pos, (rot + 1) as nat));
            rot = rot + 1;
        }
        assert(legal@ =~= moves_upto(b, *spec, has_meeple, cands@, (i + 1) as nat));
        i = i + 1;
    }
    proof {
        assert forall|m: GreedyMove| #[trigger] legal@.contains(m) <==> listed_move(b, *spec, has_meeple, m) by {
            lemma_legal_moves_contains(b, *spec, has_meeple, m);
        }
    }
    legal
}

/// `rand`'s `SliceRandom::choose` on `moves`, drawing with a `StdRng` seeded
/// from `seed`. The source draws the index from the generator and the slice's
/// length alone; `seeded_index` names that index, and the claim is that it is
/// in range and that the move at it is returned.
#[verifier::external_body]
fn pick_seeded(moves: &Vec<GreedyMove>, seed: u64) -> (r: Option<GreedyMove>)
    ensures
        match r {
            None => moves@.len() == 0,
            Some(m) => 0 <= seeded_index(seed, moves@.len()) < moves@.len()
                && m == moves@[seeded_index(seed, moves@.len())],
        },
{
    let mut rng = StdRng::seed_from_u64(seed);
    moves.choose(&mut rng).copied()
}

/// A move drawn at random, with the draw fixed by `seed`, among every move
/// open to tile type `spec`; `None` when the tile fits nowhere.
pub fn choose_move_seeded(board: &Board, spec: &TileSpec, player: PlayerId, has_meeple: bool, seed: u64) -> (r: Option<GreedyMove>)
    requires
        board.wf(),
        board_roomy(board@),
    ensures
        r == seeded_move(spec_legal_moves(board@, *spec, has_meeple), seed),
        r is None <==> spec_legal_moves(board@, *spec, has_meeple).len() == 0,
        r matches Some(m) ==> listed_move(board@, *spec, has_meeple, m),
{
    let legal = enumerate_legal(board, spec, has_meeple);
    let r = pick_seeded(&legal, seed);
    proof {
        if let Some(m) = r {
            assert(legal@.contains(m));
        }
    }
    r
}

} // verus!
