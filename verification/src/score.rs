//! The tri-state outcome tag produced by applying a move, and saturating
//! arithmetic on the fixed-point scores it carries.
//!
//! Scores are plain integers; a game chooses its own unit (the bundled
//! games use half-points, so that a drawn game can be worth half a win).

use vstd::prelude::*;

verus! {

/// Result of applying one move: the game ended with a finally realized
/// score, continues with an intermediate reward, or carries no score at
/// all (the placeholder attached to the root before any move is made).
#[derive(Debug, Clone, Copy, PartialEq, Eq, Structural)]
pub enum MoveScore {
    Terminal(i64),
    NonTerminal(i64),
    Unscored,
}

impl MoveScore {
    /// Whether this outcome stops selection and rollout.
    pub fn is_terminal(&self) -> (r: bool)
        ensures
            r == (*self is Terminal),
    {
        match self {
            MoveScore::Terminal(_) => true,
            _ => false,
        }
    }

    /// The numeric score carried by this outcome.
    pub open spec fn spec_score(self) -> int {
        match self {
            MoveScore::Terminal(s) => s as int,
            MoveScore::NonTerminal(s) => s as int,
            MoveScore::Unscored => 0,
        }
    }

    pub fn score(&self) -> (r: i64)
        ensures
            r as int == self.spec_score(),
    {
        match self {
            MoveScore::Terminal(s) => *s,
            MoveScore::NonTerminal(s) => *s,
            MoveScore::Unscored => 0,
        }
    }
}

/// Addition of two scores, clamped at the representable range.
pub open spec fn sat_add_spec(a: int, b: int) -> int {
    if a + b > i64::MAX {
        i64::MAX as int
    } else if a + b < i64::MIN {
        i64::MIN as int
    } else {
        a + b
    }
}

/// Saturating score addition.
pub fn sat_add(a: i64, b: i64) -> (r: i64)
    ensures
        r as int == sat_add_spec(a as int, b as int),
{
    let wide: i128 = a as i128 + b as i128;
    if wide > i64::MAX as i128 {
        i64::MAX
    } else if wide < i64::MIN as i128 {
        i64::MIN
    } else {
        wide as i64
    }
}

} // verus!
