use vstd::prelude::*;

use crate::domain::game::{spec_full_game, spec_new_game, BotFn, Game, GameModel, FULL_SET};

verus! {

/// The robots a paired evaluation can seat.
#[derive(Debug, Clone, Copy, PartialEq, Eq, Structural)]
pub enum BotKind {
    Greedy,
    Random,
}

/// The robot kind a command-line word names, if any.
pub open spec fn spec_parse(s: Seq<char>) -> Option<BotKind> {
    if s == "greedy"@ {
        Some(BotKind::Greedy)
    } else if s == "random"@ {
        Some(BotKind::Random)
    } else {
        None
    }
}

/// The robot of kind `k` seeded with `seed`.
pub open spec fn spec_make(k: BotKind, seed: u64) -> BotFn {
    match k {
        BotKind::Greedy => BotFn::Greedy,
        BotKind::Random => BotFn::Random { counter: seed },
    }
}

/// The word naming kind `k`.
pub open spec fn spec_label(k: BotKind) -> Seq<char> {
    match k {
        BotKind::Greedy => "greedy"@,
        BotKind::Random => "random"@,
    }
}

impl BotKind {
    /// The robot kind named `s`: `greedy` or `random`.
    pub fn parse(s: &str) -> (r: Option<BotKind>)
        ensures
            r == spec_parse(s@),
    {
        let word = s.to_owned();
        let greedy = "greedy".to_owned();
        let random = "random".to_owned();
        if word == greedy {
            Some(BotKind::Greedy)
        } else if word == random {
            Some(BotKind::Random)
        } else {
            None
        }
    }

    /// A robot of this kind; a random one draws from `seed`.
    pub fn make(self, seed: u64) -> (r: BotFn)
        ensures
            r == spec_make(self, seed),
    {
        match self {
            BotKind::Greedy => BotFn::Greedy,
            BotKind::Random => BotFn::Random { counter: seed },
        }
    }

    /// The word naming this kind.
    pub fn label(self) -> (r: &'static str)
        ensures
            r@ == spec_label(self),
    {
        match self {
            BotKind::Greedy => "greedy",
            BotKind::Random => "random",
        }
    }
}

/// A two-player game shuffled by `seed`, played to the end by a robot of kind
/// `p0` seeded `2 * seed` and one of kind `p1` seeded `2 * seed + 1`.
pub open spec fn paired_game(seed: u64, p0: BotKind, p1: BotKind) -> GameModel {
    spec_full_game(
        spec_new_game(2, seed),
        seq![spec_make(p0, (2 * seed) as u64), spec_make(p1, (2 * seed + 1) as u64)],
        (FULL_SET - 1) as nat,
    ).0
}

/// Plays `paired_game(seed, p0, p1)` and gives the two final scores, first
/// player first.
pub fn play_one(seed: u64, p0: BotKind, p1: BotKind) -> (r: (u32, u32))
    requires
        2 * seed + 1 <= u64::MAX,
    ensures
        r == (paired_game(seed, p0, p1).players[0].score, paired_game(seed, p0, p1).players[1].score),
{
    let mut game = Game::new(2, seed);
    let mut bots: Vec<BotFn> = vec![p0.make(seed * 2), p1.make(seed * 2 + 1)];
    assert(bots@ =~= seq![spec_make(p0, (2 * seed) as u64), spec_make(p1, (2 * seed + 1) as u64)]);
    game.play_full_game(&mut bots);
    let s = game.final_scores();
    (s[0], s[1])
}

} // verus!
