use vstd::prelude::*;

use crate::domain::game::{
    greedy_bot, lemma_one_turn_greedy, spec_full_game, spec_new_game, spec_one_turn, BotFn, Game, GameModel, FULL_SET,
};
use crate::domain::snapshot::{shows, GameView};

verus! {

/// Greedy turns until `n` have been played or the bag is empty.
pub open spec fn greedy_turns(g: GameModel, n: nat) -> GameModel
    decreases n,
{
    if n == 0 || g.bag.len() == 0 {
        g
    } else {
        greedy_turns(spec_one_turn(g, BotFn::Greedy).0, (n - 1) as nat)
    }
}

/// A two-player greedy game shuffled by `seed`, after `turns` turns, or
/// played out and scored when no number is given.
pub open spec fn dumped_game(seed: u64, turns: Option<usize>) -> GameModel {
    match turns {
        Some(n) => greedy_turns(spec_new_game(2, seed), n as nat),
        None => spec_full_game(spec_new_game(2, seed), seq![BotFn::Greedy, BotFn::Greedy], (FULL_SET - 1) as nat).0,
    }
}

/// What a client sees of `dumped_game(seed, turns)`.
pub fn dump_state(seed: u64, turns: Option<usize>) -> (r: GameView)
    ensures
        shows(r, dumped_game(seed, turns)),
{
    let mut game = Game::new(2, seed);
    let mut bots: Vec<BotFn> = vec![greedy_bot(), greedy_bot()];
    assert(bots@ =~= seq![BotFn::Greedy, BotFn::Greedy]);
    match turns {
        Some(n) => {
            let ghost target = greedy_turns(game@, n as nat);
            let mut k: usize = 0;
            while k < n
                invariant
                    game.wf(),
                    bots@.len() == game@.players.len(),
                    forall|i: int| 0 <= i < bots@.len() ==> bots@[i] == BotFn::Greedy,
                    k <= n,
                    greedy_turns(game@, (n - k) as nat) == target,
                ensures
                    game.wf(),
                    greedy_turns(game@, (n - k) as nat) == target,
                    k == n || game@.bag.len() == 0,
                decreases n - k,
            {
                if game.is_over() {
                    break;
                }
                let cp = game.current_player;
                let mut bot = bots[cp];
                proof {
                    lemma_one_turn_greedy(game@);
                }
                let _ = game.play_one_turn(&mut bot);
                bots.set(cp, bot);
                k = k + 1;
            }
        },
        None => game.play_full_game(&mut bots),
    }
    assert(game@ == dumped_game(seed, turns));
    GameView::from_game(&game)
}

} // verus!
