//! Solving engine for a code-breaking guessing game.
//!
//! A hidden sequence of symbols, each drawn from the pool `1..=pool_size`,
//! must be discovered within a bounded number of attempts. After every guess
//! the game reports a [`checks::Hint`]: how many positions are exactly right
//! (`exact`), how many symbols are right but misplaced (`exist`), and how many
//! are unaccounted for (`null`). The library provides the hint calculator, the
//! search-space generators, the consistency filter that narrows the hypothesis
//! set after every turn, the entropy-based guess selector, and the autoplay
//! loop that drives a whole game.

use vstd::prelude::*;

pub mod autoplay;
pub mod checks;
pub mod entropy;
pub mod filtering;
pub mod space;

verus! {

/// Who drives the game. `Assist` means that a human plays, but with the
/// engine's suggestions shown.
#[derive(PartialEq, Debug)]
pub enum ModePlayer {
    Robot,
    RobotBenchmark,
    Human,
    Assist,
}

/// Pieces of text used to render the three hint buckets.
pub struct UiHints<'a> {
    pub exact: &'a str,
    pub exist: &'a str,
    pub null: &'a str,
}

/// How much information to show while a game runs.
#[derive(PartialEq, Debug)]
pub enum UiLevel {
    All,
    Minimal,
    Silent,
}

/// Default number of symbol values in the pool.
pub const DEFAULT_POOL_SIZE: u32 = 8;

/// Default length of the hidden sequence.
pub const DEFAULT_SET_LENGTH: usize = 4;

/// Default maximum number of tries before the game is lost.
pub const DEFAULT_MAX_TRIES: u32 = 8;

/// The two fatal error classes of the engine. Exhausting the attempt budget
/// is a normal outcome, not an error, and is reported as a result value.
#[derive(Clone, Copy, PartialEq, Eq, Structural, Debug)]
pub enum GameError {
    /// A degenerate configuration was supplied: `pool_size == 0` or
    /// `set_length == 0`.
    Config,
    /// Filtering emptied the candidate set although every recorded hint came
    /// from scoring against the hidden sequence. This indicates a scoring or
    /// bookkeeping defect and never a valid game outcome.
    Inconsistency,
}

} // verus!
