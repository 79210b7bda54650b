//! How a connection between two intersections is laid out in lanes.

use vstd::prelude::*;

verus! {

/// Whether traffic runs one way or both ways along a connection.
#[derive(Clone, Copy, Debug, PartialEq, Eq, Structural)]
pub enum LaneDirection {
    OneWay,
    TwoWay,
}

/// Directionality and lane count of a connection. The value is fixed once a
/// connection carries it.
#[derive(Clone, Copy, Debug, PartialEq, Eq, Structural)]
pub struct LanePattern {
    direction: LaneDirection,
    lanes_per_direction: u32,
}

impl LanePattern {
    #[verifier::type_invariant]
    spec fn has_a_lane(self) -> bool {
        self.lanes_per_direction >= 1
    }

    pub closed spec fn direction(self) -> LaneDirection {
        self.direction
    }

    pub closed spec fn lanes(self) -> nat {
        self.lanes_per_direction as nat
    }

    /// Lanes over both directions: a two-way connection carries its lane
    /// count once each way.
    pub open spec fn total_lanes(self) -> nat {
        match self.direction() {
            LaneDirection::OneWay => self.lanes(),
            LaneDirection::TwoWay => 2 * self.lanes(),
        }
    }

    /// The pattern that [`LanePattern::one_way`] builds.
    pub closed spec fn spec_one_way(lanes: u32) -> Self {
        LanePattern { direction: LaneDirection::OneWay, lanes_per_direction: lanes }
    }

    /// The pattern that [`LanePattern::two_way`] builds.
    pub closed spec fn spec_two_way(lanes: u32) -> Self {
        LanePattern { direction: LaneDirection::TwoWay, lanes_per_direction: lanes }
    }

    /// A pattern is what its direction and its lane count say.
    pub proof fn lemma_built(lanes: u32)
        ensures
            Self::spec_one_way(lanes).direction() == LaneDirection::OneWay,
            Self::spec_one_way(lanes).lanes() == lanes,
            Self::spec_two_way(lanes).direction() == LaneDirection::TwoWay,
            Self::spec_two_way(lanes).lanes() == lanes,
    {
    }

    /// A pattern with `lanes` lanes, all running the same way.
    #[verifier::when_used_as_spec(spec_one_way)]
    pub fn one_way(lanes: u32) -> (p: Self)
        requires
            lanes >= 1,
        ensures
            p == Self::spec_one_way(lanes),
            p.direction() == LaneDirection::OneWay,
            p.lanes() == lanes,
    {
        LanePattern { direction: LaneDirection::OneWay, lanes_per_direction: lanes }
    }

    /// A pattern with `lanes` lanes in each of the two directions.
    #[verifier::when_used_as_spec(spec_two_way)]
    pub fn two_way(lanes: u32) -> (p: Self)
        requires
            lanes >= 1,
        ensures
            p == Self::spec_two_way(lanes),
            p.direction() == LaneDirection::TwoWay,
            p.lanes() == lanes,
    {
        LanePattern { direction: LaneDirection::TwoWay, lanes_per_direction: lanes }
    }

    /// A pattern of the given direction, if `lanes` is a lane count: a
    /// pattern has at least one lane.
    pub fn new(direction: LaneDirection, lanes: u32) -> (p: Option<Self>)
        ensures
            p is Some <==> lanes >= 1,
            p matches Some(pattern) ==> pattern.direction() == direction && pattern.lanes()
                == lanes,
            p matches Some(pattern) ==> pattern == (match direction {
                LaneDirection::OneWay => Self::spec_one_way(lanes),
                LaneDirection::TwoWay => Self::spec_two_way(lanes),
            }),
    {
        if lanes >= 1 {
            Some(LanePattern { direction, lanes_per_direction: lanes })
        } else {
            None
        }
    }

    pub fn get_direction(&self) -> (d: LaneDirection)
        ensures
            d == self.direction(),
    {
        self.direction
    }

    /// The lane count per direction, which is never zero.
    pub fn lanes_per_direction(&self) -> (n: u32)
        ensures
            n == self.lanes(),
            n >= 1,
    {
        proof {
            use_type_invariant(self);
        }
        self.lanes_per_direction
    }

    pub fn is_one_way(&self) -> (r: bool)
        ensures
            r == (self.direction() == LaneDirection::OneWay),
    {
        match self.direction {
            LaneDirection::OneWay => true,
            LaneDirection::TwoWay => false,
        }
    }

    /// The number of lanes the connection is wide, over both directions.
    pub fn lane_count(&self) -> (n: u64)
        ensures
            n == self.total_lanes(),
            n >= 1,
    {
        proof {
            use_type_invariant(self);
        }
        let per_direction: u64 = self.lanes_per_direction as u64;
        match self.direction {
            LaneDirection::OneWay => per_direction,
            LaneDirection::TwoWay => 2 * per_direction,
        }
    }
}

} // verus!
