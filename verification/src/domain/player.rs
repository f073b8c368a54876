use vstd::prelude::*;

use crate::domain::feature::PlayerId;

verus! {

/// Followers each player owns at the start of a game.
pub const STARTING_MEEPLES: u8 = 7;

#[derive(Debug, Clone, Copy, PartialEq, Eq)]
pub struct Player {
    pub id: PlayerId,
    pub score: u32,
    pub meeples_remaining: u8,
}

impl Player {
    pub fn new(id: PlayerId) -> (r: Player)
        ensures
            r == (Player { id, score: 0, meeples_remaining: STARTING_MEEPLES }),
    {
        Player { id, score: 0, meeples_remaining: STARTING_MEEPLES }
    }

    /// Takes a follower from the supply if one is left.
    pub fn try_take_meeple(&mut self) -> (r: bool)
        ensures
            r == (old(self).meeples_remaining > 0),
            final(self).meeples_remaining == if r {
                (old(self).meeples_remaining - 1) as u8
            } else {
                old(self).meeples_remaining
            },
            final(self).id == old(self).id,
            final(self).score == old(self).score,
    {
        if self.meeples_remaining == 0 {
            false
        } else {
            self.meeples_remaining -= 1;
            true
        }
    }

    pub fn return_meeple(&mut self)
        requires
            old(self).meeples_remaining < u8::MAX,
        ensures
            *final(self) == (Player { meeples_remaining: (old(self).meeples_remaining + 1) as u8, ..*old(self) }),
    {
        self.meeples_remaining += 1;
    }

    pub fn add_score(&mut self, pts: u32)
        requires
            old(self).score + pts <= u32::MAX,
        ensures
            *final(self) == (Player { score: (old(self).score + pts) as u32, ..*old(self) }),
    {
        self.score += pts;
    }
}

} // verus!
