//! The range evaluator: inclusive lower and upper bounds under the
//! precedence order.

use vstd::prelude::*;
use crate::semver::{SemVer, SemVerView, Comparison, spec_cmp, compare};

verus! {

/// A range failure: the lower bound compares greater than the upper one.
#[derive(Clone, Copy, Debug, PartialEq, Eq, Structural)]
pub enum RangeError {
    Inverted,
}

/// An inclusive version range `[min, max]`. Construction refuses inverted
/// bounds, so `min` never compares greater than `max`.
#[derive(Debug, Clone)]
pub struct RangeSemVer {
    min: SemVer,
    max: SemVer,
}

impl RangeSemVer {
    /// The lower bound.
    pub closed spec fn spec_min(&self) -> SemVerView {
        self.min@
    }

    /// The upper bound.
    pub closed spec fn spec_max(&self) -> SemVerView {
        self.max@
    }

    /// A range from `min` to `max`, both inclusive; fails with `Inverted`
    /// exactly when `min` compares greater than `max`.
    pub fn new(min: SemVer, max: SemVer) -> (r: Result<RangeSemVer, RangeError>)
        ensures
            match r {
                Ok(rg) => spec_cmp(min@, max@) != Comparison::Greater && rg.spec_min() == min@
                    && rg.spec_max() == max@,
                Err(e) => spec_cmp(min@, max@) == Comparison::Greater && e == RangeError::Inverted,
            },
    {
        let c = compare(&min, &max);
        if matches!(c, Comparison::Greater) {
            Err(RangeError::Inverted)
        } else {
            Ok(RangeSemVer { min, max })
        }
    }

    /// Whether `v` lies within the range: neither below `min` nor above
    /// `max` under the precedence order. Build metadata plays no part.
    pub fn contains(&self, v: &SemVer) -> (r: bool)
        ensures
            r == (spec_cmp(self.spec_min(), v@) != Comparison::Greater && spec_cmp(
                v@,
                self.spec_max(),
            ) != Comparison::Greater),
    {
        let lo = compare(&self.min, v);
        let hi = compare(v, &self.max);
        !matches!(lo, Comparison::Greater) && !matches!(hi, Comparison::Greater)
    }
}

} // verus!
