//! Running statistics of a stream of observations.
use crate::scalar::{Scalar, INFINITY_BITS};
use vstd::prelude::*;

verus! {

/// Mean and spread of a stream in which old observations fade by `gamma`.
#[derive(Clone, Copy, Debug, PartialEq, Eq, Structural)]
pub struct OnlineStats {
    /// Faded number of observations.
    pub count: Scalar,
    /// Running mean.
    pub mean: Scalar,
    /// Faded sum of squared deviations.
    pub m2: Scalar,
    /// Factor by which the past fades at each observation.
    pub gamma: Scalar,
}

impl OnlineStats {
    /// Statistics of an empty stream.
    pub open spec fn empty(gamma: Scalar) -> Self {
        OnlineStats { count: Scalar::zero(), mean: Scalar::zero(), m2: Scalar::zero(), gamma }
    }

    /// Statistics of an empty stream that fades by 0.99.
    pub open spec fn standard() -> Self {
        Self::empty(Scalar { bits: 0x3f7d_70a4 })
    }

    /// Whether more than one observation is in.
    pub open spec fn seasoned(self) -> bool {
        Scalar::one().below(self.count)
    }

    /// The statistics after `value`, given the count, mean and sum that it leads to. A
    /// value that is no finite number is not counted.
    pub open spec fn observed(self, value: Scalar, updated: Self) -> Self {
        if value.magnitude() < INFINITY_BITS {
            OnlineStats { gamma: self.gamma, ..updated }
        } else {
            self
        }
    }

    /// Statistics of an empty stream.
    pub fn new(gamma: Scalar) -> (r: Self)
        ensures
            r == Self::empty(gamma),
    {
        OnlineStats { count: Scalar::zero(), mean: Scalar::zero(), m2: Scalar::zero(), gamma }
    }

    /// Takes in `value`, given the count, mean and sum that it leads to.
    pub fn observe(&mut self, value: Scalar, updated: OnlineStats)
        ensures
            *final(self) == old(self).observed(value, updated),
    {
        if !value.is_finite() {
            return;
        }
        self.count = updated.count;
        self.mean = updated.mean;
        self.m2 = updated.m2;
    }

    /// Whether more than one observation is in.
    pub fn has_history(&self) -> (r: bool)
        ensures
            r == self.seasoned(),
    {
        Scalar::one().lt(self.count)
    }
}

impl Default for OnlineStats {
    fn default() -> (r: Self)
        ensures
            r == Self::standard(),
    {
        OnlineStats::new(Scalar { bits: 0x3f7d_70a4 })
    }
}

/// A finite value takes its count, mean and sum of squares in and keeps the fading. One that
/// is infinite or no number leaves everything as it was.
pub proof fn law_only_finite_values_count(stats: OnlineStats, value: Scalar, updated: OnlineStats)
    ensures
        value.bits % 0x8000_0000 < 0x7f80_0000 ==> {
            let after = stats.observed(value, updated);
            &&& after.count == updated.count
            &&& after.mean == updated.mean
            &&& after.m2 == updated.m2
            &&& after.gamma == stats.gamma
        },
        value.bits % 0x8000_0000 >= 0x7f80_0000 ==> stats.observed(value, updated) == stats,
{
}

/// An empty stream has seen nothing, whatever it fades by, and has no history. It has one as
/// soon as its count exceeds one.
pub proof fn law_history_takes_two(stats: OnlineStats, gamma: Scalar)
    ensures
        OnlineStats::empty(gamma).count.units() == 0,
        OnlineStats::empty(gamma).mean.units() == 0,
        OnlineStats::empty(gamma).m2.units() == 0,
        OnlineStats::empty(gamma).gamma == gamma,
        !OnlineStats::empty(gamma).seasoned(),
        OnlineStats::standard() == OnlineStats::empty(OnlineStats::standard().gamma),
        stats.count.bits % 0x8000_0000 < 0x7f80_0000 ==> (stats.seasoned()
            <==> stats.count.units() > Scalar::one().units()),
        stats.count.bits % 0x8000_0000 > 0x7f80_0000 ==> !stats.seasoned(),
{
    if stats.count.bits % 0x8000_0000 < 0x7f80_0000 {
        crate::scalar::law_order_is_by_value(Scalar::one(), stats.count);
    }
}


} // verus!
