//! Similarity values and thresholds, both kept as integers.
//!
//! A similarity is the share of MinHash slots on which two signatures agree. It is kept as
//! the fraction `num / den`, and a threshold on it is kept as the counts of matching slots at
//! which the fraction starts to reach it and starts to exceed it.
use vstd::prelude::*;

verus! {

/// The similarity value `num / den`.
#[derive(Clone, Copy, Debug, PartialEq, Eq, Structural)]
pub struct Fraction {
    pub num: usize,
    pub den: usize,
}

impl Fraction {
    /// The value one, the similarity given to the first record of a group.
    pub open spec fn spec_one() -> Fraction {
        Fraction { num: 1, den: 1 }
    }

    /// The value one, the similarity given to the first record of a group.
    pub fn one() -> (f: Fraction)
        ensures
            f == Fraction::spec_one(),
    {
        Fraction { num: 1, den: 1 }
    }
}

/// A similarity threshold `t` for signatures of a fixed number of slots, seen through the
/// number `m` of matching slots: the similarity of `m` matches is at least `t` exactly when
/// `m >= min_at_least`, and at most `t` exactly when `m < min_above`.
#[derive(Clone, Copy, Debug, PartialEq, Eq, Structural)]
pub struct Threshold {
    pub min_at_least: usize,
    pub min_above: usize,
}

/// `matching` matching slots give a similarity of at least the threshold.
pub open spec fn reaches(matching: int, t: Threshold) -> bool {
    matching >= t.min_at_least
}

/// `matching` matching slots give a similarity of at most the threshold.
pub open spec fn stays_within(matching: int, t: Threshold) -> bool {
    matching < t.min_above
}

impl Threshold {
    /// Whether `matching` matching slots give a similarity of at least this threshold.
    pub fn is_reached_by(&self, matching: usize) -> (b: bool)
        ensures
            b == reaches(matching as int, *self),
    {
        matching >= self.min_at_least
    }

    /// Whether `matching` matching slots give a similarity of at most this threshold.
    pub fn is_not_exceeded_by(&self, matching: usize) -> (b: bool)
        ensures
            b == stays_within(matching as int, *self),
    {
        matching < self.min_above
    }
}

} // verus!
