//! The Iterated Prisoner's Dilemma.
//!
//! A population of [`entity::Entity`] agents, each with a fixed
//! [`entity::Personality`], meets in a round-robin: every pair of agents plays
//! once per pass, each agent choosing to [`Choice::COOPERATE`] or to
//! [`Choice::CHEAT`] from what it remembers of earlier games. Passing more than
//! one round to [`game::play_game`] starts a tournament, in which the pass is
//! repeated and memory carries over from one pass to the next.
//!
//! This file holds the payoff rules: the two choices, the four outcomes, the
//! scoring schemes, and [`determine`], which resolves a pair of choices.
use vstd::prelude::*;

pub mod entity;
pub mod game;
pub mod laws;
pub mod memory;
pub mod schedule;
pub mod source;
pub mod text;

pub use crate::game::{make_players, play_game};

verus! {

/// In every round a player can only make one of two choices.
#[derive(Clone, Copy, PartialEq, Eq, Debug, Structural)]
pub enum Choice {
    /// Attempt to betray the other player
    CHEAT,
    /// Attempt to work with the other player
    COOPERATE,
}

/// Outcome represents the results of one game for one of its two players.
/// There can only be these four results.
///
/// Every scoring scheme orders them `T > R > P > S`, see
/// [`lemma_schemes_are_dilemmas`].
#[derive(Clone, Copy, PartialEq, Eq, Debug, Structural)]
pub enum Outcome {
    /// The result if both players CHEAT
    PUNISH,
    /// The result if a player COOPERATEs, and their opponent CHEATs
    SUCKER,
    /// The result if both players COOPERATE
    REWARD,
    /// The result if the player CHEATs and their opponent COOPERATEs
    TEMPTATION,
}

impl Outcome {
    /// The score of an outcome under the traditional scheme (years lost).
    pub open spec fn spec_traditional(self) -> int {
        match self {
            Outcome::PUNISH => -2,
            Outcome::SUCKER => -3,
            Outcome::REWARD => -1,
            Outcome::TEMPTATION => 0,
        }
    }

    /// The score of an outcome under the "positive" scheme, the one by which
    /// agents are scored.
    pub open spec fn spec_positive(self) -> int {
        match self {
            Outcome::PUNISH => 0,
            Outcome::SUCKER => -1,
            Outcome::REWARD => 2,
            Outcome::TEMPTATION => 3,
        }
    }

    /// The letter that stands for an outcome in `T, R, P, S`.
    pub open spec fn spec_algebraic(self) -> char {
        match self {
            Outcome::PUNISH => 'P',
            Outcome::SUCKER => 'S',
            Outcome::REWARD => 'R',
            Outcome::TEMPTATION => 'T',
        }
    }

    /// Traditional scoring
    pub fn traditional(o: &Outcome) -> (score: i32)
        ensures
            score == o.spec_traditional(),
    {
        match o {
            Outcome::PUNISH => -2,
            Outcome::SUCKER => -3,
            Outcome::REWARD => -1,
            Outcome::TEMPTATION => 0,
        }
    }

    /// A "positive" scoring system
    pub fn positive(o: &Outcome) -> (score: i32)
        ensures
            score == o.spec_positive(),
    {
        match o {
            Outcome::PUNISH => 0,
            Outcome::SUCKER => -1,
            Outcome::REWARD => 2,
            Outcome::TEMPTATION => 3,
        }
    }

    /// Get results as symbols (ie "`T, R, P, S`")
    pub fn algebraic(o: &Outcome) -> (symbol: char)
        ensures
            symbol == o.spec_algebraic(),
    {
        match o {
            Outcome::PUNISH => 'P',
            Outcome::SUCKER => 'S',
            Outcome::REWARD => 'R',
            Outcome::TEMPTATION => 'T',
        }
    }
}

/// The outcomes of one game, the first for the player who chose `m1` and the
/// second for the player who chose `m2`.
pub open spec fn spec_determine(m1: Choice, m2: Choice) -> (Outcome, Outcome) {
    match (m1, m2) {
        (Choice::COOPERATE, Choice::COOPERATE) => (Outcome::REWARD, Outcome::REWARD),
        (Choice::COOPERATE, Choice::CHEAT) => (Outcome::SUCKER, Outcome::TEMPTATION),
        (Choice::CHEAT, Choice::COOPERATE) => (Outcome::TEMPTATION, Outcome::SUCKER),
        (Choice::CHEAT, Choice::CHEAT) => (Outcome::PUNISH, Outcome::PUNISH),
    }
}

/// At the heart of the prisoner's dilemma is the choice between two players:
/// they can choose to COOPERATE or CHEAT (or BETRAY, etc). The possible outcomes
/// can be found here: https://en.wikipedia.org/wiki/Prisoner%27s_dilemma
pub fn determine(m1: Choice, m2: Choice) -> (outcomes: (Outcome, Outcome))
    ensures
        outcomes == spec_determine(m1, m2),
{
    match m1 {
        Choice::COOPERATE => {
            if m1 == m2 {
                (Outcome::REWARD, Outcome::REWARD)
            } else {
                (Outcome::SUCKER, Outcome::TEMPTATION)
            }
        },
        Choice::CHEAT => {
            if m1 == m2 {
                (Outcome::PUNISH, Outcome::PUNISH)
            } else {
                (Outcome::TEMPTATION, Outcome::SUCKER)
            }
        },
    }
}

/// Swapping the two choices swaps the two outcomes: neither seat is favoured.
pub proof fn lemma_determine_is_symmetric(m1: Choice, m2: Choice)
    ensures
        spec_determine(m2, m1).0 == spec_determine(m1, m2).1,
        spec_determine(m2, m1).1 == spec_determine(m1, m2).0,
{
}

/// Both scoring schemes make the game a dilemma: temptation beats reward,
/// reward beats punishment, and punishment beats the sucker's payoff.
pub proof fn lemma_schemes_are_dilemmas()
    ensures
        Outcome::TEMPTATION.spec_positive() > Outcome::REWARD.spec_positive(),
        Outcome::REWARD.spec_positive() > Outcome::PUNISH.spec_positive(),
        Outcome::PUNISH.spec_positive() > Outcome::SUCKER.spec_positive(),
        Outcome::TEMPTATION.spec_traditional() > Outcome::REWARD.spec_traditional(),
        Outcome::REWARD.spec_traditional() > Outcome::PUNISH.spec_traditional(),
        Outcome::PUNISH.spec_traditional() > Outcome::SUCKER.spec_traditional(),
{
}

} // verus!
