use vstd::prelude::*;

use crate::domain::game::{
    greedy_bot, lemma_one_turn_bag, lemma_one_turn_greedy, oracle_bot, spec_finish, spec_new_game, spec_one_turn,
    spec_oracle_turn, BotFn, Game, GameModel, FULL_SET,
};

verus! {

/// Turns of a game in which the player in seat `seat` chooses freely from the
/// bag and the other plays greedily, until the bag is empty (at most `fuel`
/// turns).
pub open spec fn oracle_match(g: GameModel, seat: int, fuel: nat) -> GameModel
    decreases fuel,
{
    if fuel == 0 || g.bag.len() == 0 {
        g
    } else {
        let next = if g.current == seat {
            spec_oracle_turn(g).0
        } else {
            spec_one_turn(g, BotFn::Greedy).0
        };
        oracle_match(next, seat, (fuel - 1) as nat)
    }
}

/// A two-player game shuffled by `seed` with the free-choice player in seat
/// `seat`, played out and scored.
pub open spec fn oracle_game(seed: u64, seat: int) -> GameModel {
    spec_finish(oracle_match(spec_new_game(2, seed), seat, (FULL_SET - 1) as nat)).0
}

/// Plays `oracle_game(seed, oracle_player)` and gives the free-choice
/// player's final score, then the greedy player's.
pub fn play_one(seed: u64, oracle_player: usize) -> (r: (u32, u32))
    requires
        oracle_player < 2,
    ensures
        r == (oracle_game(seed, oracle_player as int).players[oracle_player as int].score,
            oracle_game(seed, oracle_player as int).players[1 - oracle_player].score),
{
    let mut game = Game::new(2, seed);
    let mut greedy: BotFn = greedy_bot();
    let mut oracle = oracle_bot();
    let ghost seat = oracle_player as int;
    let ghost target = oracle_match(game@, seat, game@.bag.len());
    let ghost mut fuel: nat = game@.bag.len();
    while !game.is_over()
        invariant
            game.wf(),
            game@.players.len() == 2,
            greedy == BotFn::Greedy,
            seat == oracle_player as int,
            game@.bag.len() <= fuel,
            oracle_match(game@, seat, fuel) == target,
        decreases game@.bag.len(),
    {
        let ghost g = game@;
        if game.current_player == oracle_player {
            let _ = game.play_one_oracle_turn(&mut oracle);
        } else {
            let _ = game.play_one_turn(&mut greedy);
            proof {
                lemma_one_turn_bag(g, BotFn::Greedy);
                lemma_one_turn_greedy(g);
            }
        }
        proof {
            fuel = (fuel - 1) as nat;
        }
    }
    game.finish();
    let s = game.final_scores();
    (s[oracle_player], s[1 - oracle_player])
}

} // verus!
