//! A production-reachability solver: given a catalog of items with tiered
//! production recipes and a set of planets carrying raw resources, it computes
//! for each planet the closure of items producible by repeatedly applying
//! recipes below a tier ceiling, and optionally searches all fixed-size planet
//! subsets for the goods a combined factory stage could manufacture.

use vstd::prelude::*;

pub mod error;
pub mod item;
pub mod solver;
pub mod system;

verus! {

/// Processing tier of an item: `R0` is a raw, unprocessed resource; `P1`
/// through `P4` are increasingly processed goods. The order is total.
#[derive(Clone, Copy, Debug, PartialEq, Eq, Structural, Hash)]
pub enum Tier {
    R0,
    P1,
    P2,
    P3,
    P4,
}

impl Tier {
    /// Position of the tier in the total order, `R0` lowest.
    pub open spec fn rank(self) -> int {
        match self {
            Tier::R0 => 0,
            Tier::P1 => 1,
            Tier::P2 => 2,
            Tier::P3 => 3,
            Tier::P4 => 4,
        }
    }

    /// Executable form of `rank`.
    pub fn level(self) -> (r: u8)
        ensures
            r as int == self.rank(),
    {
        match self {
            Tier::R0 => 0,
            Tier::P1 => 1,
            Tier::P2 => 2,
            Tier::P3 => 3,
            Tier::P4 => 4,
        }
    }

    /// `self` is at or below `other` in the tier order.
    pub fn le(self, other: Tier) -> (r: bool)
        ensures
            r == (self.rank() <= other.rank()),
    {
        self.level() <= other.level()
    }

    /// `self` is strictly below `other` in the tier order.
    pub fn lt(self, other: Tier) -> (r: bool)
        ensures
            r == (self.rank() < other.rank()),
    {
        self.level() < other.level()
    }
}

} // verus!
