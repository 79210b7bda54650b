//! Right-of-way policies and the signal each one shows at a given clock value.
//!
//! A policy carries no running state: the signal is a function of the clock
//! alone, so it can be asked for any tick, past or future, by any number of
//! readers.

use vstd::prelude::*;

verus! {

/// The colour class under which a signal is displayed.
#[allow(non_camel_case_types)]
#[derive(Clone, Copy, Debug, PartialEq, Eq, Structural)]
pub enum Color {
    RED,
    ORANGE,
    GREEN,
}

/// The discrete right-of-way signal in effect at an intersection.
#[allow(non_camel_case_types)]
#[derive(Clone, Copy, Debug, PartialEq, Eq, Structural)]
pub enum TrafficBehavior {
    RED,
    ORANGE,
    GREEN,
    STOP,
}

impl TrafficBehavior {
    /// The colour a behaviour is drawn with. A stop sign is drawn like a red
    /// light, although the two remain distinct signals.
    pub open spec fn render_color(self) -> Color {
        match self {
            TrafficBehavior::RED | TrafficBehavior::STOP => Color::RED,
            TrafficBehavior::ORANGE => Color::ORANGE,
            TrafficBehavior::GREEN => Color::GREEN,
        }
    }

    pub fn as_render_color(self) -> (c: Color)
        ensures
            c == self.render_color(),
    {
        match self {
            TrafficBehavior::RED | TrafficBehavior::STOP => Color::RED,
            TrafficBehavior::ORANGE => Color::ORANGE,
            TrafficBehavior::GREEN => Color::GREEN,
        }
    }

    /// Only the timed red counts; a stop sign is a different obligation and
    /// is not reported here.
    pub fn is_red(self) -> (r: bool)
        ensures
            r == (self is RED),
    {
        match self {
            TrafficBehavior::RED => true,
            _ => false,
        }
    }
}

/// The phase durations of a traffic light, in simulation time units, and the
/// offset by which its cycle is shifted against the clock.
#[derive(Clone, Copy, Debug)]
pub struct TrafficLightSchedule {
    period: usize,
    green: usize,
    orange: usize,
    red: usize,
    offset: usize,
}

impl TrafficLightSchedule {
    #[verifier::type_invariant]
    spec fn period_is_sum(self) -> bool {
        self.period == self.green + self.orange + self.red
    }

    pub closed spec fn green(self) -> nat {
        self.green as nat
    }

    pub closed spec fn orange(self) -> nat {
        self.orange as nat
    }

    pub closed spec fn red(self) -> nat {
        self.red as nat
    }

    pub closed spec fn offset(self) -> nat {
        self.offset as nat
    }

    /// Length of one full cycle: the three phase durations together.
    pub open spec fn period(self) -> nat {
        self.green() + self.orange() + self.red()
    }

    /// Position of clock value `time` inside the cycle.
    pub open spec fn remainder(self, time: nat) -> nat
        recommends
            self.period() > 0,
    {
        (time + self.offset()) % self.period()
    }

    /// The phase shown at clock value `time`: green first, then orange, then
    /// red until the cycle wraps.
    pub open spec fn phase_at(self, time: nat) -> TrafficBehavior
        recommends
            self.period() > 0,
    {
        let remainder = self.remainder(time);
        if remainder < self.green() {
            TrafficBehavior::GREEN
        } else if remainder < self.green() + self.orange() {
            TrafficBehavior::ORANGE
        } else {
            TrafficBehavior::RED
        }
    }

    /// Builds a schedule from its three phase durations and its offset.
    /// The durations together must fit the machine word that holds the period.
    pub fn from_basic(green: usize, orange: usize, red: usize, offset: usize) -> (s: Self)
        requires
            green + orange + red <= usize::MAX,
        ensures
            s.green() == green,
            s.orange() == orange,
            s.red() == red,
            s.offset() == offset,
    {
        Self { period: green + orange + red, green, orange, red, offset }
    }

    /// A schedule repeats itself after every full period.
    pub proof fn lemma_phase_periodic(self, time: nat)
        requires
            self.period() > 0,
        ensures
            self.phase_at(time + self.period()) == self.phase_at(time),
    {
        let p = self.period() as int;
        vstd::arithmetic::div_mod::lemma_mod_add_multiples_vanish((time + self.offset()) as int, p);
        assert(time + self.period() + self.offset() == p + (time + self.offset()));
    }

    /// Shifting the clock by any whole number of periods changes nothing.
    pub proof fn lemma_phase_periodic_multiple(self, time: nat, cycles: nat)
        requires
            self.period() > 0,
        ensures
            self.phase_at(time + cycles * self.period()) == self.phase_at(time),
        decreases cycles,
    {
        if cycles > 0 {
            let before = (cycles - 1) as nat;
            self.lemma_phase_periodic_multiple(time, before);
            self.lemma_phase_periodic(time + before * self.period());
            assert(time + cycles * self.period() == time + before * self.period()
                + self.period()) by (nonlinear_arith)
                requires
                    before == cycles - 1,
            ;
        }
    }
}

/// The policy that governs right of way at an intersection.
#[derive(Clone, Copy, Debug)]
pub enum TrafficControl {
    /// Always open.
    Always,
    /// A light cycling through green, orange and red.
    Periodic(TrafficLightSchedule),
    /// A stop sign; who goes first is settled elsewhere.
    StopSign,
}

impl TrafficControl {
    /// The signal shown at clock value `time`.
    pub open spec fn behavior_at(self, time: nat) -> TrafficBehavior {
        match self {
            TrafficControl::Always => TrafficBehavior::GREEN,
            TrafficControl::Periodic(schedule) => schedule.phase_at(time),
            TrafficControl::StopSign => TrafficBehavior::STOP,
        }
    }

    /// Whether a clock query is defined: a periodic light needs a cycle of
    /// positive length.
    pub open spec fn spec_can_query(&self) -> bool {
        *self matches TrafficControl::Periodic(schedule) ==> schedule.period() > 0
    }

    /// Whether [`TrafficControl::get_behavior`] can be asked: a periodic
    /// light needs a cycle of positive length.
    #[verifier::when_used_as_spec(spec_can_query)]
    pub fn can_query(&self) -> (r: bool)
        ensures
            r == self.spec_can_query(),
    {
        match self {
            TrafficControl::Periodic(schedule) => {
                proof {
                    use_type_invariant(schedule);
                }
                schedule.period > 0
            },
            _ => true,
        }
    }

    pub fn is_always(&self) -> (r: bool)
        ensures
            r == (*self is Always),
    {
        match self {
            TrafficControl::Always => true,
            _ => false,
        }
    }

    pub fn is_stop(&self) -> (r: bool)
        ensures
            r == (*self is StopSign),
    {
        match self {
            TrafficControl::StopSign => true,
            _ => false,
        }
    }

    /// The signal in effect at `time_seconds`. The sum of clock and offset is
    /// taken in a width that cannot overflow, so every clock value is served.
    pub fn get_behavior(&self, time_seconds: u64) -> (b: TrafficBehavior)
        requires
            self.can_query(),
        ensures
            b == self.behavior_at(time_seconds as nat),
    {
        match self {
            TrafficControl::Always => TrafficBehavior::GREEN,
            TrafficControl::Periodic(schedule) => {
                proof {
                    use_type_invariant(schedule);
                }
                let shifted: u128 = time_seconds as u128 + schedule.offset as u128;
                let remainder: u128 = shifted % (schedule.period as u128);
                if remainder < schedule.green as u128 {
                    TrafficBehavior::GREEN
                } else if remainder < schedule.green as u128 + schedule.orange as u128 {
                    TrafficBehavior::ORANGE
                } else {
                    TrafficBehavior::RED
                }
            },
            TrafficControl::StopSign => TrafficBehavior::STOP,
        }
    }

    /// A periodic control shows the same signal one period later.
    pub proof fn lemma_behavior_periodic(self, time: nat)
        requires
            self.can_query(),
        ensures
            self matches TrafficControl::Periodic(schedule) ==> self.behavior_at(
                time + schedule.period(),
            ) == self.behavior_at(time),
    {
        if let TrafficControl::Periodic(schedule) = self {
            schedule.lemma_phase_periodic(time);
        }
    }

    /// The two constant policies show the same signal at every clock value.
    pub proof fn lemma_behavior_constant(self, time: nat, other_time: nat)
        requires
            !(self is Periodic),
        ensures
            self.behavior_at(time) == self.behavior_at(other_time),
            self is Always ==> self.behavior_at(time) is GREEN,
            self is StopSign ==> self.behavior_at(time) is STOP,
    {
    }
}

} // verus!
