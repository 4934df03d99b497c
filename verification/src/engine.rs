//! The simulation engine that a configuration selects, and a single run of
//! it.

use crate::cli::{Cli, Config, Strategy};
use crate::continuous_simulator::ContinuousHeapSimulator;
use crate::event_simulator::{ArrivalSchedule, EventSimulator};
use crate::faithful::FaithfulSimulator;
use crate::parking_lot::VecParkingLot;
use crate::random_generator::RandomSource;
use crate::simulator::Simulator;
use vstd::prelude::*;

verus! {

/// One of the four simulation strategies, ready to run.
pub enum Engine {
    /// The tick-faithful simulator.
    Faithful(FaithfulSimulator<VecParkingLot>),
    /// The simulator with discrete or continuous timing.
    Standard(Simulator<VecParkingLot>),
    /// The simulator with departures scheduled on parking.
    ContinuousHeap(ContinuousHeapSimulator),
    /// The simulator that jumps between events.
    EventJump(EventSimulator),
}

impl Engine {
    /// The invariant of the simulator held.
    pub open spec fn wf(&self) -> bool {
        match self {
            Engine::Faithful(sim) => sim.wf(),
            Engine::Standard(sim) => sim.wf(),
            Engine::ContinuousHeap(sim) => sim.wf(),
            Engine::EventJump(sim) => sim.wf(),
        }
    }

    /// The strategy of the simulator held.
    pub open spec fn strategy(&self) -> Strategy {
        match self {
            Engine::Faithful(_) => Strategy::Faithful,
            Engine::Standard(_) => Strategy::Standard,
            Engine::ContinuousHeap(_) => Strategy::ContinuousHeap,
            Engine::EventJump(_) => Strategy::EventJump,
        }
    }

    /// The capacity of the lot.
    pub open spec fn capacity(&self) -> nat {
        match self {
            Engine::Faithful(sim) => sim.capacity(),
            Engine::Standard(sim) => sim.capacity(),
            Engine::ContinuousHeap(sim) => sim.capacity(),
            Engine::EventJump(sim) => sim.capacity(),
        }
    }

    /// The tick at which the simulation ends.
    pub open spec fn horizon(&self) -> nat {
        match self {
            Engine::Faithful(sim) => sim.horizon(),
            Engine::Standard(sim) => sim.horizon(),
            Engine::ContinuousHeap(sim) => sim.horizon(),
            Engine::EventJump(sim) => sim.horizon(),
        }
    }

    /// The longest stay.
    pub open spec fn max_stay(&self) -> nat {
        match self {
            Engine::Faithful(sim) => sim.max_stay(),
            Engine::Standard(sim) => sim.max_stay(),
            Engine::ContinuousHeap(sim) => sim.max_stay(),
            Engine::EventJump(sim) => sim.max_stay(),
        }
    }

    /// The number of cars that arrived and have not parked.
    pub open spec fn queued(&self) -> nat {
        match self {
            Engine::Faithful(sim) => sim.queue().len(),
            Engine::Standard(sim) => sim.queued(),
            Engine::ContinuousHeap(sim) => sim.queued(),
            Engine::EventJump(sim) => sim.queued(),
        }
    }

    /// The number of cars that arrived so far.
    pub open spec fn arrived(&self) -> nat {
        match self {
            Engine::Faithful(sim) => sim.arrived(),
            Engine::Standard(sim) => sim.arrived(),
            Engine::ContinuousHeap(sim) => sim.arrived(),
            Engine::EventJump(sim) => sim.arrived(),
        }
    }

    /// Whether the simulator held samples stay durations.
    pub open spec fn continuous(&self) -> bool {
        match self {
            Engine::Faithful(_) => false,
            Engine::Standard(sim) => sim.continuous(),
            Engine::ContinuousHeap(_) => true,
            Engine::EventJump(_) => true,
        }
    }

    /// The engine holds the simulator that the options select, fresh for a
    /// lot of the given capacity and, where the clock jumps, for the given
    /// arrivals.
    pub open spec fn fresh(&self, options: Cli, capacity: usize, arrivals: Seq<u32>) -> bool {
        &&& self.strategy() == options.selected()
        &&& match self {
            Engine::Faithful(sim) => sim.fresh(
                capacity as nat,
                options.max_stay,
                options.duration,
                options.cars_per_hour,
            ),
            Engine::Standard(sim) => sim.fresh(
                capacity as nat,
                options.max_stay,
                options.duration,
                options.cars_per_hour,
                options.continuous,
                options.skew,
            ),
            Engine::ContinuousHeap(sim) => sim.fresh(
                capacity as nat,
                options.max_stay,
                options.duration,
                options.cars_per_hour,
                options.skew,
            ),
            Engine::EventJump(sim) => sim.fresh(
                capacity as nat,
                options.max_stay,
                options.duration,
                options.skew,
                arrivals,
            ),
        }
    }

    /// `end` is the state in which a run from this state ends: the same
    /// simulator, after the ticks that were left or, where the clock jumps,
    /// after some number of events.
    pub open spec fn ran(&self, end: &Engine) -> bool {
        match (*self, *end) {
            (Engine::Faithful(a), Engine::Faithful(b)) => a.reaches(
                &b,
                (a.horizon() - a.now()) as nat,
            ),
            (Engine::Standard(a), Engine::Standard(b)) => a.reaches(
                &b,
                (a.horizon() - a.now()) as nat,
            ),
            (Engine::ContinuousHeap(a), Engine::ContinuousHeap(b)) => a.reaches(
                &b,
                (a.horizon() - a.now()) as nat,
            ),
            (Engine::EventJump(a), Engine::EventJump(b)) => exists|events: nat| #[trigger]
                a.reaches(&b, events),
            _ => false,
        }
    }

    /// Where the capacity decides the outcome, the strategies agree: with a
    /// capacity of at least the horizon or of at least the longest stay no
    /// engine leaves a car, and with a
    /// capacity of zero two engines that saw as many arrivals leave as many
    /// cars.
    pub proof fn lemma_agree_at_extremes(&self, other: &Engine)
        requires
            self.wf(),
            other.wf(),
            self.capacity() == other.capacity(),
            self.horizon() == other.horizon(),
        ensures
            self.capacity() >= self.horizon() ==> self.queued() == 0 && other.queued() == 0,
            self.capacity() >= self.max_stay() && other.capacity() >= other.max_stay()
                ==> self.queued() == 0 && other.queued() == 0,
            self.capacity() == 0 && self.arrived() == other.arrived() ==> self.queued()
                == other.queued(),
    {
        self.lemma_extremes();
        other.lemma_extremes();
    }

    /// With a capacity of zero every car that arrived is left, and with a
    /// capacity of at least the horizon or of at least the longest stay none
    /// is.
    pub proof fn lemma_extremes(&self)
        requires
            self.wf(),
        ensures
            self.queued() <= self.arrived(),
            self.capacity() == 0 ==> self.queued() == self.arrived(),
            self.capacity() >= self.horizon() ==> self.queued() == 0,
            self.capacity() >= self.max_stay() ==> self.queued() == 0,
    {
        match self {
            Engine::Faithful(sim) => sim.lemma_bounds(),
            Engine::Standard(sim) => sim.lemma_bounds(),
            Engine::ContinuousHeap(sim) => sim.lemma_bounds(),
            Engine::EventJump(sim) => sim.lemma_bounds(),
        }
    }

    /// The engine that the configuration selects, at tick zero with an empty
    /// lot of the given capacity. The arrivals are those of the run; only the
    /// event-jump strategy reads them.
    pub fn new(config: &Config, capacity: usize, arrivals: ArrivalSchedule) -> (engine: Engine)
        requires
            arrivals.wf(),
            arrivals.horizon() == config@.duration,
        ensures
            engine.fresh(config@, capacity, arrivals@),
            engine.wf(),
            engine.capacity() == capacity,
            engine.horizon() == config@.duration,
            engine.max_stay() == config@.max_stay,
            engine.queued() == 0,
            engine.arrived() == 0,
    {
        let options = config.options();
        match config.strategy() {
            Strategy::Faithful => Engine::Faithful(
                FaithfulSimulator::new(
                    VecParkingLot::new(capacity),
                    options.max_stay,
                    options.duration,
                    options.cars_per_hour,
                ).unwrap(),
            ),
            Strategy::Standard => Engine::Standard(
                Simulator::new(
                    VecParkingLot::new(capacity),
                    options.max_stay,
                    options.duration,
                    options.cars_per_hour,
                    options.continuous,
                    options.skew,
                ).unwrap(),
            ),
            Strategy::ContinuousHeap => Engine::ContinuousHeap(
                ContinuousHeapSimulator::new(
                    capacity,
                    options.max_stay,
                    options.duration,
                    options.cars_per_hour,
                    options.skew,
                ).unwrap(),
            ),
            Strategy::EventJump => Engine::EventJump(
                EventSimulator::new(
                    capacity,
                    options.max_stay,
                    options.duration,
                    options.skew,
                    arrivals,
                ).unwrap(),
            ),
        }
    }

    /// Runs the simulation to its end.
    pub fn simulate(&mut self, rng: &mut RandomSource)
        requires
            old(self).wf(),
        ensures
            final(self).wf(),
            old(self).ran(final(self)),
            final(self).strategy() == old(self).strategy(),
            final(self).capacity() == old(self).capacity(),
            final(self).horizon() == old(self).horizon(),
            final(self).max_stay() == old(self).max_stay(),
            final(self).continuous() == old(self).continuous(),
            old(self).arrived() <= final(self).arrived(),
    {
        match self {
            Engine::Faithful(sim) => sim.simulate(rng),
            Engine::Standard(sim) => sim.simulate(rng),
            Engine::ContinuousHeap(sim) => sim.simulate(rng),
            Engine::EventJump(sim) => sim.simulate(rng),
        }
    }

    /// The number of cars that arrived and found no spot so far: never more
    /// than one per tick of the horizon. With a capacity of zero these are
    /// all the cars that arrived; with a capacity of at least the horizon or
    /// of at least the longest stay there are none.
    pub fn cars_left(&self) -> (left: usize)
        requires
            self.wf(),
        ensures
            left == self.queued(),
            left <= self.arrived(),
            left <= self.horizon(),
            self.capacity() == 0 ==> left == self.arrived(),
            self.capacity() >= self.horizon() ==> left == 0,
            self.capacity() >= self.max_stay() ==> left == 0,
    {
        match self {
            Engine::Faithful(sim) => {
                proof {
                    sim.lemma_bounds();
                }
                sim.cars_left()
            },
            Engine::Standard(sim) => {
                proof {
                    sim.lemma_bounds();
                }
                sim.cars_left()
            },
            Engine::ContinuousHeap(sim) => {
                proof {
                    sim.lemma_bounds();
                }
                sim.cars_left()
            },
            Engine::EventJump(sim) => {
                proof {
                    sim.lemma_bounds();
                }
                sim.cars_left()
            },
        }
    }
}

/// One independent run: builds the engine that the configuration selects for
/// a lot of the given capacity, runs it to its end with draws from `rng`, and
/// returns the number of cars left in the queue. Whatever is drawn, the
/// result is the queue at the end of a run from the fresh state.
pub fn run_once(
    config: &Config,
    capacity: usize,
    arrivals: ArrivalSchedule,
    rng: &mut RandomSource,
) -> (left: usize)
    requires
        arrivals.wf(),
        arrivals.horizon() == config@.duration,
    ensures
        exists|start: Engine, end: Engine|
            start.fresh(config@, capacity, arrivals@) && #[trigger] start.ran(&end) && left
                == end.queued(),
        left <= config@.duration,
        capacity >= config@.duration ==> left == 0,
        capacity >= config@.max_stay ==> left == 0,
{
    let mut engine = Engine::new(config, capacity, arrivals);
    let ghost start = engine;
    engine.simulate(rng);
    assert(start.ran(&engine));
    engine.cars_left()
}

} // verus!
