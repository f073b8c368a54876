use vstd::prelude::*;

use crate::domain::board::{lemma_tile_at_index, tile_at, ActiveMeeple, Board, Pos};
use crate::domain::game::{game_wf, Game, GameModel};
use crate::domain::player::Player;
use crate::domain::tile::{PlacedTile, TileSpec};

verus! {

/// One cell of the board and the tile on it.
#[derive(Debug, Clone, Copy)]
pub struct CellView {
    pub pos: Pos,
    pub tile: PlacedTile,
}

/// What a client sees of the board: the cells by column then row, the
/// followers standing, and the last tile placed.
#[derive(Debug, Clone)]
pub struct BoardView {
    pub cells: Vec<CellView>,
    pub meeples: Vec<ActiveMeeple>,
    pub last_placed: Option<Pos>,
}

/// What a client sees of a game.
#[derive(Debug, Clone)]
pub struct GameView {
    pub board: BoardView,
    pub players: Vec<Player>,
    pub bag_remaining: usize,
    pub current_player: u8,
    pub current_draw: Option<TileSpec>,
    pub is_over: bool,
    pub finished: bool,
}

/// Cell `a` comes before cell `b`: by column, then by row.
pub open spec fn pos_lt(a: Pos, b: Pos) -> bool {
    a.0 < b.0 || (a.0 == b.0 && a.1 < b.1)
}

/// The cell of placed tile `j`.
pub open spec fn cell_of(tiles: Seq<(Pos, PlacedTile)>, j: int) -> CellView {
    CellView { pos: tiles[j].0, tile: tiles[j].1 }
}

/// `c` is the cell of one of the first `n` placed tiles.
pub open spec fn listed(tiles: Seq<(Pos, PlacedTile)>, n: int, c: CellView) -> bool {
    exists|j: int| 0 <= j < n && #[trigger] cell_of(tiles, j) == c
}

/// `cells` lists the first `n` placed tiles, each once, ordered by cell.
pub open spec fn sorted_prefix(cells: Seq<CellView>, tiles: Seq<(Pos, PlacedTile)>, n: int) -> bool {
    &&& cells.len() == n
    &&& forall|a: int, b: int| 0 <= a < b < cells.len() ==> pos_lt(cells[a].pos, cells[b].pos)
    &&& forall|a: int| 0 <= a < cells.len() ==> #[trigger] listed(tiles, n, cells[a])
    &&& forall|j: int| 0 <= j < n ==> cells.contains(#[trigger] cell_of(tiles, j))
}

/// `cells` lists the placed tiles, each once, ordered by cell.
pub open spec fn sorted_cells(cells: Seq<CellView>, tiles: Seq<(Pos, PlacedTile)>) -> bool {
    sorted_prefix(cells, tiles, tiles.len() as int)
}

/// Inserting the cell of tile `i` in order extends the sorted prefix.
proof fn lemma_cells_step(tiles: Seq<(Pos, PlacedTile)>, i: int, old_cells: Seq<CellView>, nc: Seq<CellView>)
    requires
        0 <= i < tiles.len(),
        sorted_prefix(old_cells, tiles, i),
        nc.len() == old_cells.len() + 1,
        forall|a: int, b: int| 0 <= a < b < nc.len() ==> pos_lt(nc[a].pos, nc[b].pos),
        nc.contains(cell_of(tiles, i)),
        forall|b: int| 0 <= b < old_cells.len() ==> nc.contains(#[trigger] old_cells[b]),
        forall|a: int| 0 <= a < nc.len() ==> #[trigger] nc[a] == cell_of(tiles, i) || old_cells.contains(nc[a]),
    ensures
        sorted_prefix(nc, tiles, i + 1),
{
    assert forall|a: int| 0 <= a < nc.len() implies #[trigger] listed(tiles, i + 1, nc[a]) by {
        if nc[a] == cell_of(tiles, i) {
        } else {
            let b = choose|b: int| 0 <= b < old_cells.len() && old_cells[b] == nc[a];
            assert(listed(tiles, i, old_cells[b]));
            let j = choose|j: int| 0 <= j < i && #[trigger] cell_of(tiles, j) == old_cells[b];
            assert(cell_of(tiles, j) == nc[a]);
        }
    }
    assert forall|j: int| 0 <= j < i + 1 implies nc.contains(#[trigger] cell_of(tiles, j)) by {
        if j < i {
            assert(old_cells.contains(cell_of(tiles, j)));
            let b = choose|b: int| 0 <= b < old_cells.len() && old_cells[b] == cell_of(tiles, j);
            assert(nc.contains(old_cells[b]));
        }
    }
}

fn copy_meeples(v: &Vec<ActiveMeeple>) -> (r: Vec<ActiveMeeple>)
    ensures
        r@ == v@,
{
    let mut r: Vec<ActiveMeeple> = Vec::new();
    let mut i: usize = 0;
    while i < v.len()
        invariant
            i <= v@.len(),
            r@ == v@.take(i as int),
        decreases v@.len() - i,
    {
        r.push(v[i]);
        i = i + 1;
        assert(r@ =~= v@.take(i as int));
    }
    assert(v@.take(i as int) =~= v@);
    r
}

fn copy_players(v: &Vec<Player>) -> (r: Vec<Player>)
    ensures
        r@ == v@,
{
    let mut r: Vec<Player> = Vec::new();
    let mut i: usize = 0;
    while i < v.len()
        invariant
            i <= v@.len(),
            r@ == v@.take(i as int),
        decreases v@.len() - i,
    {
        r.push(v[i]);
        i = i + 1;
        assert(r@ =~= v@.take(i as int));
    }
    assert(v@.take(i as int) =~= v@);
    r
}

/// Inserts `c` into `cells`, kept in cell order.
fn insert_cell(cells: &mut Vec<CellView>, c: CellView)
    requires
        forall|a: int, b: int| 0 <= a < b < old(cells)@.len() ==> pos_lt(old(cells)@[a].pos, old(cells)@[b].pos),
        forall|a: int| 0 <= a < old(cells)@.len() ==> (#[trigger] old(cells)@[a]).pos != c.pos,
    ensures
        final(cells)@.len() == old(cells)@.len() + 1,
        forall|a: int, b: int| 0 <= a < b < final(cells)@.len() ==> pos_lt(final(cells)@[a].pos, final(cells)@[b].pos),
        final(cells)@.contains(c),
        forall|b: int| 0 <= b < old(cells)@.len() ==> final(cells)@.contains(#[trigger] old(cells)@[b]),
        forall|a: int| 0 <= a < final(cells)@.len() ==> #[trigger] final(cells)@[a] == c || old(cells)@.contains(final(cells)@[a]),
{
    let ghost old_cells = cells@;
    let p = c.pos;
    let mut k: usize = 0;
    while k < cells.len() && !(p.0 < cells[k].pos.0 || (p.0 == cells[k].pos.0 && p.1 < cells[k].pos.1))
        invariant
            k <= cells@.len(),
            cells@ == old_cells,
            forall|a: int| 0 <= a < k ==> !pos_lt(p, #[trigger] cells@[a].pos),
        decreases cells@.len() - k,
    {
        k = k + 1;
    }
    assert(k < old_cells.len() ==> pos_lt(p, old_cells[k as int].pos));
    cells.insert(k, c);
    proof {
        let nc = cells@;
        assert(nc == old_cells.insert(k as int, c));
        assert forall|a: int, b: int| 0 <= a < b < nc.len() implies pos_lt(nc[a].pos, nc[b].pos) by {
            if b < k {
                assert(nc[a] == old_cells[a] && nc[b] == old_cells[b]);
            } else if b == k {
                assert(nc[a] == old_cells[a]);
                assert(old_cells[a].pos != p);
                assert(!pos_lt(p, old_cells[a].pos));
            } else if a < k {
                assert(nc[a] == old_cells[a] && nc[b] == old_cells[b - 1]);
                assert(!pos_lt(p, old_cells[a].pos));
                assert(old_cells[a].pos != p);
                if b - 1 > k {
                    assert(pos_lt(old_cells[k as int].pos, old_cells[b - 1].pos));
                }
            } else if a == k {
                assert(nc[b] == old_cells[b - 1]);
                if b - 1 > k {
                    assert(pos_lt(old_cells[k as int].pos, old_cells[b - 1].pos));
                }
            } else {
                assert(nc[a] == old_cells[a - 1] && nc[b] == old_cells[b - 1]);
            }
        }
        assert(nc[k as int] == c);
        assert forall|b: int| 0 <= b < old_cells.len() implies nc.contains(#[trigger] old_cells[b]) by {
            if b < k {
                assert(nc[b] == old_cells[b]);
            } else {
                assert(nc[b + 1] == old_cells[b]);
            }
        }
        assert forall|a: int| 0 <= a < nc.len() implies #[trigger] nc[a] == c || old_cells.contains(nc[a]) by {
            if a < k {
                assert(nc[a] == old_cells[a]);
            } else if a > k {
                assert(nc[a] == old_cells[a - 1]);
            }
        }
    }
}

impl BoardView {
    /// The board as a client sees it.
    pub fn from_board(board: &Board) -> (r: BoardView)
        requires
            board.wf(),
        ensures
            sorted_cells(r.cells@, board@.tiles),
            r.meeples@ == board@.meeples,
            r.last_placed == board@.last_placed,
    {
        let ghost tiles = board@.tiles;
        let ps = board.positions();
        let mut cells: Vec<CellView> = Vec::new();
        let mut i: usize = 0;
        while i < ps.len()
            invariant
                board.wf(),
                tiles == board@.tiles,
                ps@.len() == tiles.len(),
                forall|t: int| 0 <= t < ps@.len() ==> #[trigger] ps@[t] == tiles[t].0,
                i <= ps@.len(),
                sorted_prefix(cells@, tiles, i as int),
            decreases ps@.len() - i,
        {
            let p = ps[i];
            proof {
                lemma_tile_at_index(tiles, i as int);
            }
            let t = *board.get(p).unwrap();
            let c = CellView { pos: p, tile: t };
            assert(c == cell_of(tiles, i as int));
            let ghost old_cells = cells@;
            proof {
                assert forall|a: int| 0 <= a < old_cells.len() implies (#[trigger] old_cells[a]).pos != c.pos by {
                    assert(listed(tiles, i as int, old_cells[a]));
                    let j = choose|j: int| 0 <= j < i && #[trigger] cell_of(tiles, j) == old_cells[a];
                    assert(tiles[j].0 != tiles[i as int].0);
                }
            }
            insert_cell(&mut cells, c);
            proof {
                lemma_cells_step(tiles, i as int, old_cells, cells@);
            }
            i = i + 1;
        }
        BoardView { cells, meeples: copy_meeples(board.meeples()), last_placed: board.last_placed() }
    }
}

/// `v` shows game `g`: its board cell by cell, its players, how many tiles are
/// left, whose turn it is, the next tile drawn (the last in the bag), and
/// whether it is over and finished.
pub open spec fn shows(v: GameView, g: GameModel) -> bool {
    &&& sorted_cells(v.board.cells@, g.board.tiles)
    &&& v.board.meeples@ == g.board.meeples
    &&& v.board.last_placed == g.board.last_placed
    &&& v.players@ == g.players
    &&& v.bag_remaining == g.bag.len()
    &&& v.current_player == g.current
    &&& v.current_draw == if g.bag.len() == 0 {
        None
    } else {
        Some(g.bag.last())
    }
    &&& v.is_over == (g.bag.len() == 0)
    &&& v.finished == g.finished
}

impl GameView {
    /// The game as a client sees it; the next tile drawn is the last in the bag.
    pub fn from_game(game: &Game) -> (r: GameView)
        requires
            game_wf(game@),
        ensures
            shows(r, game@),
    {
        let current_draw = if game.bag.len() == 0 {
            None
        } else {
            Some(game.bag[game.bag.len() - 1])
        };
        GameView {
            board: BoardView::from_board(&game.board),
            players: copy_players(&game.players),
            bag_remaining: game.bag.len(),
            current_player: game.current_player as u8,
            current_draw,
            is_over: game.is_over(),
            finished: game.finished,
        }
    }
}

} // verus!
