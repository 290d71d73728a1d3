//! Constraint priorities.
//!
//! A strength combines three graded weights, each clamped to `[0, 1000]`,
//! into one comparable magnitude `w1 * 1_000_000 + w2 * 1_000 + w3`, so a
//! higher-named level lexicographically dominates the lower ones.  The
//! required level is a sentinel strictly above every combined magnitude: a
//! required constraint is a hard constraint and never enters the weighted
//! objective.

use vstd::prelude::*;

verus! {

/// The sentinel magnitude of the required level, strictly above every
/// combined magnitude of the three graded weights.
pub const REQUIRED_MAGNITUDE: u64 = 1_001_001_001;

/// A constraint priority.
#[derive(Clone, Copy, Debug, PartialEq, Eq, Structural)]
pub struct Strength {
    pub value: u64,
}

/// A graded weight clamped to `[0, 1000]`.
pub open spec fn clamped(w: u64) -> u64 {
    if w > 1000 { 1000 } else { w }
}

impl Strength {
    /// Whether this is the required level.
    pub open spec fn is_required(self) -> bool {
        self.value >= REQUIRED_MAGNITUDE
    }

    /// Combines three graded weights into one magnitude, clamping each to
    /// `[0, 1000]`.  The result is always strictly below the required level.
    pub fn create(w1: u64, w2: u64, w3: u64) -> (s: Strength)
        ensures
            s.value == clamped(w1) * 1_000_000 + clamped(w2) * 1_000 + clamped(w3),
            !s.is_required(),
    {
        let c1: u64 = if w1 > 1000 { 1000 } else { w1 };
        let c2: u64 = if w2 > 1000 { 1000 } else { w2 };
        let c3: u64 = if w3 > 1000 { 1000 } else { w3 };
        Strength { value: c1 * 1_000_000 + c2 * 1_000 + c3 }
    }

    /// The required level: a hard constraint that must never be violated.
    pub fn required() -> (s: Strength)
        ensures
            s.value == REQUIRED_MAGNITUDE,
            s.is_required(),
    {
        Strength { value: REQUIRED_MAGNITUDE }
    }

    /// The strong level, `create(1, 0, 0)`.
    pub fn strong() -> (s: Strength)
        ensures
            s.value == 1_000_000,
            !s.is_required(),
    {
        Strength { value: 1_000_000 }
    }

    /// The medium level, `create(0, 1, 0)`.
    pub fn medium() -> (s: Strength)
        ensures
            s.value == 1_000,
            !s.is_required(),
    {
        Strength { value: 1_000 }
    }

    /// The weak level, `create(0, 0, 1)`.
    pub fn weak() -> (s: Strength)
        ensures
            s.value == 1,
            !s.is_required(),
    {
        Strength { value: 1 }
    }
}

} // verus!
