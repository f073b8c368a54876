use vstd::prelude::*;

use crate::domain::board::{MAX_TILES, board_roomy, Board, BoardModel};
use crate::domain::feature::PlayerId;
use crate::domain::greedy::{
    choose_move_with_score, greedy_pick, lemma_greedy_pick, move_score, GreedyMove,
};
use crate::domain::tile::TileSpec;

verus! {

/// Place `i` is the first place in `bag` holding its tile type.
pub open spec fn first_occurrence(bag: Seq<TileSpec>, i: int) -> bool {
    0 <= i < bag.len() && forall|j: int| 0 <= j < i ==> bag[j] != bag[i]
}

/// What the greedy move for the tile at place `i` earns.
pub open spec fn pick_score(b: BoardModel, bag: Seq<TileSpec>, player: PlayerId, hm: bool, i: int) -> int {
    move_score(b, bag[i], player, hm, greedy_pick(b, bag[i], player, hm).unwrap()).unwrap()
}

/// `r` is the free choice among the tile types in `bag`: the tile (at its first
/// place) and greedy move that earn the most points at once, the earliest
/// place among equals; `None` when no tile fits anywhere.
pub open spec fn oracle_best(b: BoardModel, bag: Seq<TileSpec>, player: PlayerId, hm: bool, r: Option<(usize, GreedyMove)>) -> bool {
    match r {
        None => forall|i: int| first_occurrence(bag, i) ==> #[trigger] greedy_pick(b, bag[i], player, hm) is None,
        Some((i, m)) => {
            &&& first_occurrence(bag, i as int)
            &&& greedy_pick(b, bag[i as int], player, hm) == Some(m)
            &&& move_score(b, bag[i as int], player, hm, m) is Some
            &&& forall|j: int| first_occurrence(bag, j) && #[trigger] greedy_pick(b, bag[j], player, hm) is Some
                ==> pick_score(b, bag, player, hm, j) < pick_score(b, bag, player, hm, i as int)
                    || (pick_score(b, bag, player, hm, j) == pick_score(b, bag, player, hm, i as int) && j >= i)
        },
    }
}

/// What the scan of places `0..n` has found: the preferred choice so far with
/// its score, or `None` when no tile type met so far fits anywhere.
#[verifier::opaque]
spec fn oracle_prefix(b: BoardModel, bag: Seq<TileSpec>, player: PlayerId, hm: bool, n: int, best: Option<(usize, GreedyMove, i32)>) -> bool {
    match best {
        None => forall|j: int| 0 <= j < n && first_occurrence(bag, j) ==> #[trigger] greedy_pick(b, bag[j], player, hm) is None,
        Some((bi, bm, bs)) => {
            &&& bi < n
            &&& first_occurrence(bag, bi as int)
            &&& greedy_pick(b, bag[bi as int], player, hm) == Some(bm)
            &&& move_score(b, bag[bi as int], player, hm, bm) is Some
            &&& pick_score(b, bag, player, hm, bi as int) == bs
            &&& forall|j: int| 0 <= j < n && first_occurrence(bag, j) && #[trigger] greedy_pick(b, bag[j], player, hm) is Some
                ==> pick_score(b, bag, player, hm, j) < bs || (pick_score(b, bag, player, hm, j) == bs && j >= bi)
        },
    }
}

/// The scan's choice after place `i` yields `res`.
spec fn oracle_update(best: Option<(usize, GreedyMove, i32)>, i: usize, res: Option<(GreedyMove, i32)>) -> Option<(usize, GreedyMove, i32)> {
    match res {
        None => best,
        Some((mv, s)) => match best {
            None => Some((i, mv, s)),
            Some((bi, bm, bs)) => if s > bs || (s == bs && i < bi) {
                Some((i, mv, s))
            } else {
                best
            },
        },
    }
}

proof fn lemma_oracle_start(b: BoardModel, bag: Seq<TileSpec>, player: PlayerId, hm: bool)
    ensures
        oracle_prefix(b, bag, player, hm, 0, None),
{
    reveal(oracle_prefix);
}

proof fn lemma_oracle_step(
    b: BoardModel,
    bag: Seq<TileSpec>,
    player: PlayerId,
    hm: bool,
    i: usize,
    best: Option<(usize, GreedyMove, i32)>,
    res: Option<(GreedyMove, i32)>,
)
    requires
        i < bag.len(),
        oracle_prefix(b, bag, player, hm, i as int, best),
        first_occurrence(bag, i as int) ==> greedy_pick(b, bag[i as int], player, hm) == match res {
            Some((m, _)) => Some(m),
            None => None::<GreedyMove>,
        },
        res matches Some((m, s)) ==> first_occurrence(bag, i as int) && pick_score(b, bag, player, hm, i as int) == s
            && move_score(b, bag[i as int], player, hm, m) is Some,
    ensures
        oracle_prefix(b, bag, player, hm, i + 1, oracle_update(best, i, res)),
{
    reveal(oracle_prefix);
    let n1 = i + 1;
    let nb = oracle_update(best, i, res);
    match nb {
        None => {
            assert forall|j: int| 0 <= j < n1 && first_occurrence(bag, j)
                implies #[trigger] greedy_pick(b, bag[j], player, hm) is None by {
                if j == i {
                    assert(res is None);
                }
            }
        },
        Some((bi, bm, bs)) => {
            assert forall|j: int| 0 <= j < n1 && first_occurrence(bag, j) && #[trigger] greedy_pick(b, bag[j], player, hm) is Some
                implies pick_score(b, bag, player, hm, j) < bs || (pick_score(b, bag, player, hm, j) == bs && j >= bi) by {
                if j < i {
                    match best {
                        None => {},
                        Some((ob, om, os)) => {},
                    }
                } else {
                    assert(j == i);
                    assert(res is Some);
                }
            }
        },
    }
}

proof fn lemma_oracle_end(b: BoardModel, bag: Seq<TileSpec>, player: PlayerId, hm: bool, best: Option<(usize, GreedyMove, i32)>)
    requires
        oracle_prefix(b, bag, player, hm, bag.len() as int, best),
    ensures
        oracle_best(b, bag, player, hm, match best {
            Some((bi, bm, _)) => Some((bi, bm)),
            None => None,
        }),
{
    reveal(oracle_prefix);
}

/// Sees the whole bag and picks the tile and move earning `player` the most
/// points at once: returns the bag place of the tile (its first place when the
/// type occurs more than once) and the move to play with it.
pub fn choose_free_choice(board: &Board, bag: &[TileSpec], player: PlayerId, has_meeple: bool) -> (r: Option<(usize, GreedyMove)>)
    requires
        board.wf(),
        board_roomy(board@),
        board@.tiles.len() < MAX_TILES,
    ensures
        oracle_best(board@, bag@, player, has_meeple, r),
{
    let ghost b = board@;
    let mut best: Option<(usize, GreedyMove, i32)> = None;
    let mut i: usize = 0;
    proof {
        lemma_oracle_start(b, bag@, player, has_meeple);
    }
    while i < bag.len()
        invariant
            board.wf(),
            b == board@,
            board_roomy(board@),
            board@.tiles.len() < MAX_TILES,
            i <= bag@.len(),
            oracle_prefix(b, bag@, player, has_meeple, i as int, best),
        decreases bag@.len() - i,
    {
        let mut first = true;
        let mut j: usize = 0;
        while j < i
            invariant
                i < bag@.len(),
                j <= i,
                first == forall|t: int| 0 <= t < j ==> bag@[t] != bag@[i as int],
            decreases i - j,
        {
            if bag[j].same_as(&bag[i]) {
                first = false;
            }
            j = j + 1;
        }
        assert(first == first_occurrence(bag@, i as int));
        let res = if first {
            choose_move_with_score(board, &bag[i], player, has_meeple)
        } else {
            None
        };
        proof {
            if first {
                lemma_greedy_pick(b, bag@[i as int], player, has_meeple, res);
            }
            lemma_oracle_step(b, bag@, player, has_meeple, i, best, res);
        }
        match res {
            Some((mv, s)) => match best {
                None => {
                    best = Some((i, mv, s));
                },
                Some((bi, bm, bs)) => {
                    if s > bs || (s == bs && i < bi) {
                        best = Some((i, mv, s));
                    }
                },
            },
            None => {},
        }
        i = i + 1;
    }
    proof {
        lemma_oracle_end(b, bag@, player, has_meeple, best);
    }
    match best {
        Some((bi, bm, _)) => Some((bi, bm)),
        None => None,
    }
}

/// The free choice is unique.
pub proof fn lemma_oracle_unique(b: BoardModel, bag: Seq<TileSpec>, player: PlayerId, hm: bool, r1: Option<(usize, GreedyMove)>, r2: Option<(usize, GreedyMove)>)
    requires
        oracle_best(b, bag, player, hm, r1),
        oracle_best(b, bag, player, hm, r2),
    ensures
        r1 == r2,
{
    match r1 {
        None => {
            if let Some((i2, m2)) = r2 {
                assert(greedy_pick(b, bag[i2 as int], player, hm) is None);
            }
        },
        Some((i1, m1)) => {
            match r2 {
                None => {
                    assert(greedy_pick(b, bag[i1 as int], player, hm) is None);
                },
                Some((i2, m2)) => {
                    assert(greedy_pick(b, bag[i1 as int], player, hm) is Some);
                    assert(greedy_pick(b, bag[i2 as int], player, hm) is Some);
                },
            }
        },
    }
}

/// The free choice, when one has been found to exist.
pub open spec fn oracle_pick(b: BoardModel, bag: Seq<TileSpec>, player: PlayerId, hm: bool) -> Option<(usize, GreedyMove)> {
    choose|r: Option<(usize, GreedyMove)>| oracle_best(b, bag, player, hm, r)
}

/// A free choice found by a search is the free choice.
pub proof fn lemma_oracle_pick(b: BoardModel, bag: Seq<TileSpec>, player: PlayerId, hm: bool, r: Option<(usize, GreedyMove)>)
    requires
        oracle_best(b, bag, player, hm, r),
    ensures
        oracle_pick(b, bag, player, hm) == r,
{
    let c = oracle_pick(b, bag, player, hm);
    assert(oracle_best(b, bag, player, hm, c));
    lemma_oracle_unique(b, bag, player, hm, r, c);
}

} // verus!
