//! The tick-by-tick simulator that schedules each departure when the car
//! parks, so that no tick scans the parked cars.

use crate::departure_schedule::{
    lemma_spread_empty, lemma_spread_next, lemma_spread_without, lemma_without_due, none_before,
    pop_due, spread, without_due, DepartureSchedule,
};
use crate::probability::{Probability, Ratio, TICKS_PER_HOUR};
use crate::random_generator::{event_occurred, RandomSource, DRAW_RANGE};
use crate::simulator::{count_of, parked_for, parked_ticks};
use crate::triangular_distribution::{DistributionError, TriangularPdfSampler};
use vstd::multiset::Multiset;
use vstd::prelude::*;

verus! {

/// Simulates a lot one tick at a time with departures held in a schedule.
/// Each tick at most one car arrives, the cars scheduled to leave at the tick
/// are removed, and one queued car is admitted if a spot is free; its
/// departure is scheduled at once.
pub struct ContinuousHeapSimulator {
    occupancy: usize,
    capacity: usize,
    clock: u32,
    steps: u32,
    max_time: u32,
    departure_times: DepartureSchedule,
    incoming: usize,
    arrivals: usize,
    pdf: TriangularPdfSampler,
    cars_per_second: Probability,
}

impl ContinuousHeapSimulator {
    /// The scheduled departure times, one for each parked car.
    pub closed spec fn schedule(&self) -> Multiset<u32> {
        self.departure_times@
    }

    /// The capacity of the lot.
    pub closed spec fn capacity(&self) -> nat {
        self.capacity as nat
    }

    /// The current tick.
    pub closed spec fn now(&self) -> nat {
        self.clock as nat
    }

    /// The tick at which the simulation ends.
    pub closed spec fn horizon(&self) -> nat {
        self.steps as nat
    }

    /// The longest stay.
    pub closed spec fn max_stay(&self) -> nat {
        self.max_time as nat
    }

    /// The number of cars that arrived and have not parked.
    pub closed spec fn queued(&self) -> nat {
        self.incoming as nat
    }

    /// The number of cars that arrived so far.
    pub closed spec fn arrived(&self) -> nat {
        self.arrivals as nat
    }

    /// The probability that a car arrives in a tick.
    pub closed spec fn arrival_probability(&self) -> Probability {
        self.cars_per_second
    }

    /// The sampler of stay durations.
    pub closed spec fn sampler(&self) -> TriangularPdfSampler {
        self.pdf
    }

    /// What holds of the lot and the schedule at every moment.
    spec fn sound(&self) -> bool {
        &&& self.departure_times.wf()
        &&& self.occupancy == self.departure_times@.len()
        &&& self.occupancy <= self.capacity
        &&& self.clock <= self.steps
        &&& self.steps + self.max_time <= u32::MAX
        &&& self.cars_per_second.wf()
        &&& self.pdf.wf()
        &&& self.pdf.a() == 0
        &&& self.pdf.c() == self.max_time / 2
        &&& self.pdf.b() == self.max_time
        &&& self.occupancy + self.incoming <= self.arrivals
        &&& self.capacity == 0 ==> self.incoming == self.arrivals
    }

    /// Every scheduled departure lies at `from` or later and less than the
    /// longest stay after the clock.
    pub open spec fn pending(&self, from: int) -> bool {
        forall|x: u32|
            self.schedule().count(x) > 0 ==> from <= x < self.now() + self.max_stay()
    }

    /// The simulator's invariant. It holds between ticks.
    pub closed spec fn wf(&self) -> bool {
        &&& self.sound()
        &&& self.arrivals <= self.clock
        &&& self.capacity >= self.steps ==> self.incoming == 0
        &&& self.capacity >= self.max_time ==> self.incoming == 0
        &&& self.pending(self.clock as int)
        &&& spread(self.departure_times@, self.clock as int, self.max_time as int)
    }

    /// What holds within a tick, once its arrival and its departures are
    /// handled and before a car is admitted.
    pub closed spec fn settling(&self) -> bool {
        &&& self.sound()
        &&& self.clock < self.steps
        &&& self.arrivals <= self.clock + 1
        &&& self.capacity >= self.steps ==> self.incoming <= 1
        &&& self.capacity >= self.max_time ==> self.incoming <= 1
        &&& self.pending(self.clock + 1)
        &&& spread(self.departure_times@, self.clock as int, self.max_time as int)
    }

    /// Whether a queued car is admitted: a car waits and a spot is free.
    pub open spec fn admits(&self) -> bool {
        self.queued() > 0 && self.schedule().len() < self.capacity()
    }

    /// A car arrives by an event of the arrival probability: whether one
    /// `arrived` is what some draw decides.
    pub open spec fn arrival_possible(&self, arrived: bool) -> bool {
        exists|draw: u32|
            draw < DRAW_RANGE && arrived == #[trigger] self.arrival_probability().covers_spec(draw)
    }

    /// The stay of an admitted car is the sample of some draw.
    pub open spec fn stay_possible(&self, stay: u32) -> bool {
        exists|draw: int|
            0 <= draw < DRAW_RANGE && #[trigger] self.sampler().is_sample(draw, stay as int)
    }

    /// `next` is the state one tick after this one, given the tick's events:
    /// a car `arrived` or not, and a car admitted has the sampled stay
    /// `stay`, which some draw samples. The departures due now leave the
    /// schedule, and a car is admitted if one waits and a spot is free then;
    /// it leaves at least one tick from now.
    pub open spec fn advanced(&self, next: &Self, arrived: bool, stay: u32) -> bool {
        let due = without_due(self.schedule(), self.now() as u32);
        let waiting = self.queued() + count_of(arrived);
        let admitted = waiting > 0 && due.len() < self.capacity();
        &&& admitted ==> self.stay_possible(stay)
        &&& next.arrival_probability() == self.arrival_probability()
        &&& next.sampler() == self.sampler()
        &&& next.now() == self.now() + 1
        &&& next.horizon() == self.horizon()
        &&& next.capacity() == self.capacity()
        &&& next.max_stay() == self.max_stay()
        &&& next.arrived() == self.arrived() + count_of(arrived)
        &&& next.queued() == waiting - count_of(admitted)
        &&& next.schedule() == if admitted {
            due.insert((self.now() + parked_for(stay)) as u32)
        } else {
            due
        }
    }

    /// `next` is the state one tick after this one, for some events that
    /// can occur in the tick: an arrival that some draw decides, and for a
    /// car admitted a stay that some draw samples.
    pub open spec fn ticked(&self, next: &Self) -> bool {
        exists|arrived: bool, stay: u32|
            self.arrival_possible(arrived) && stay <= self.max_stay() && #[trigger] self.advanced(
                next,
                arrived,
                stay,
            )
    }

    /// `next` is reached from this state by `ticks` ticks, each between
    /// well-formed states.
    pub open spec fn reaches(&self, next: &Self, ticks: nat) -> bool
        decreases ticks,
    {
        if ticks == 0 {
            *next == *self
        } else {
            exists|mid: Self|
                mid.wf() && #[trigger] mid.ticked(next) && self.reaches(&mid, (ticks - 1) as nat)
        }
    }

    /// The clock, the horizon and the longest stay are timestamps.
    pub proof fn lemma_in_range(&self)
        ensures
            self.now() <= u32::MAX,
            self.horizon() <= u32::MAX,
            self.max_stay() <= u32::MAX,
    {
    }

    /// Between ticks the lot holds no more cars than its capacity, every
    /// parked or queued car has arrived, at most one car arrived per tick,
    /// and every parked car leaves at a tick still to come, less than the
    /// longest stay from now.
    pub proof fn lemma_bounds(&self)
        requires
            self.wf(),
        ensures
            self.schedule().len() <= self.capacity(),
            self.schedule().len() + self.queued() <= self.arrived(),
            self.arrived() <= self.now() <= self.horizon(),
            self.horizon() + self.max_stay() <= u32::MAX,
            self.sampler().wf() && self.sampler().a() == 0 && self.sampler().c() == self.max_stay()
                / 2 && self.sampler().b() == self.max_stay(),
            self.max_stay() >= 2,
            self.pending(self.now() as int),
            self.capacity() == 0 ==> self.queued() == self.arrived(),
            self.capacity() >= self.horizon() ==> self.queued() == 0,
            self.capacity() >= self.max_stay() ==> self.queued() == 0,
    {
        self.pdf.lemma_ordered();
    }

    /// The simulator is at tick zero, well-formed, with an empty lot of the
    /// given capacity and nothing queued, and set up as the parameters say.
    pub open spec fn fresh(
        &self,
        capacity: nat,
        max_time: u32,
        steps: u32,
        cars_per_hour: Ratio,
        skew: bool,
    ) -> bool {
        &&& self.wf()
        &&& self.schedule() == Multiset::<u32>::empty()
        &&& self.capacity() == capacity
        &&& self.now() == 0
        &&& self.horizon() == steps
        &&& self.max_stay() == max_time
        &&& self.queued() == 0
        &&& self.arrived() == 0
        &&& self.sampler().skew() == skew
        &&& self.arrival_probability().num() == cars_per_hour.num()
        &&& self.arrival_probability().den() == cars_per_hour.den() * TICKS_PER_HOUR
    }

    /// A simulator at tick zero with an empty lot and nothing queued, for a
    /// stay duration distributed between zero and `max_time` around
    /// `max_time / 2`. The distribution is malformed when `max_time` is
    /// below two.
    pub fn new(capacity: usize, max_time: u32, steps: u32, cars_per_hour: Ratio, skew: bool) -> (r:
        Result<Self, DistributionError>)
        requires
            steps + max_time <= u32::MAX,
        ensures
            r.is_ok() <==> max_time >= 2,
            r matches Ok(sim) ==> sim.fresh(capacity as nat, max_time, steps, cars_per_hour, skew),
            r matches Err(e) ==> e == DistributionError::MalformedParameters,
    {
        broadcast use vstd::multiset::group_multiset_axioms;

        proof {
            lemma_spread_empty(0, max_time as int);
        }
        match TriangularPdfSampler::new(0, max_time / 2, max_time, skew) {
            Ok(pdf) => Ok(
                Self {
                    occupancy: 0,
                    capacity,
                    clock: 0,
                    steps,
                    max_time,
                    departure_times: DepartureSchedule::new(),
                    incoming: 0,
                    arrivals: 0,
                    pdf,
                    cars_per_second: Probability::per_second(&cars_per_hour),
                },
            ),
            Err(e) => Err(e),
        }
    }

    /// Whether a spot is free.
    fn can_park(&self) -> (free: bool)
        ensures
            free == (self.occupancy != self.capacity),
    {
        self.occupancy != self.capacity
    }

    /// Schedules the departure of a car that parks now with the sampled stay
    /// `stay`, at least one tick from now. The queue is left as it is.
    fn park_car(&mut self, stay: u32)
        requires
            old(self).settling(),
            old(self).occupancy < old(self).capacity,
            old(self).incoming > 0,
            stay <= old(self).max_time,
        ensures
            final(self).departure_times.wf(),
            final(self).departure_times@ == old(self).departure_times@.insert(
                (old(self).clock + parked_for(stay)) as u32,
            ),
            final(self).occupancy == old(self).occupancy + 1,
            final(self).capacity == old(self).capacity,
            final(self).clock == old(self).clock,
            final(self).steps == old(self).steps,
            final(self).max_time == old(self).max_time,
            final(self).incoming == old(self).incoming,
            final(self).arrivals == old(self).arrivals,
            final(self).pdf == old(self).pdf,
            final(self).cars_per_second == old(self).cars_per_second,
    {
        proof {
            self.pdf.lemma_ordered();
        }
        let departure_time: u32 = self.clock + parked_ticks(stay);
        self.occupancy += 1;
        self.departure_times.push(departure_time);
    }

    /// Takes the departures due at `timestamp` out of the schedule and frees
    /// their spots.
    fn handle_departures(&mut self, timestamp: u32)
        requires
            old(self).departure_times.wf(),
            old(self).occupancy == old(self).departure_times@.len(),
            none_before(old(self).departure_times@, timestamp as int),
        ensures
            final(self).departure_times.wf(),
            final(self).departure_times@ == without_due(old(self).departure_times@, timestamp),
            final(self).occupancy == final(self).departure_times@.len(),
            final(self).occupancy <= old(self).occupancy,
            final(self).capacity == old(self).capacity,
            final(self).clock == old(self).clock,
            final(self).steps == old(self).steps,
            final(self).max_time == old(self).max_time,
            final(self).incoming == old(self).incoming,
            final(self).arrivals == old(self).arrivals,
            final(self).pdf == old(self).pdf,
            final(self).cars_per_second == old(self).cars_per_second,
    {
        let removed: usize = pop_due(&mut self.departure_times, timestamp);
        self.occupancy -= removed;
    }

    /// Opens a tick whose arrival is given: a car `arrived` or not. The
    /// arrival joins the queue and the departures due at the current tick
    /// leave the schedule.
    pub fn begin_tick(&mut self, arrived: bool)
        requires
            old(self).wf(),
            old(self).now() < old(self).horizon(),
        ensures
            final(self).settling(),
            final(self).now() == old(self).now(),
            final(self).horizon() == old(self).horizon(),
            final(self).capacity() == old(self).capacity(),
            final(self).max_stay() == old(self).max_stay(),
            final(self).arrival_probability() == old(self).arrival_probability(),
            final(self).sampler() == old(self).sampler(),
            final(self).arrived() == old(self).arrived() + count_of(arrived),
            final(self).queued() == old(self).queued() + count_of(arrived),
            final(self).schedule() == without_due(old(self).schedule(), old(self).now() as u32),
    {
        if arrived {
            self.incoming += 1;
            self.arrivals += 1;
        }
        proof {
            lemma_without_due(self.departure_times@, self.clock);
            lemma_spread_without(
                self.departure_times@,
                self.clock as int,
                self.max_time as int,
                self.clock,
            );
            assert(old(self).pending(self.clock as int));
            assert forall|x: u32| self.departure_times@.count(x) > 0 implies x >= self.clock by {
                assert(old(self).schedule().count(x) > 0);
            }
        }
        self.handle_departures(self.clock);
        proof {
            assert forall|x: u32| self.schedule().count(x) > 0 implies self.clock + 1 <= x
                < self.now() + self.max_stay() by {
                assert(old(self).schedule().count(x) > 0);
            }
        }
    }

    /// Whether the tick that was opened admits a queued car.
    pub fn will_admit(&self) -> (admitted: bool)
        requires
            self.settling(),
        ensures
            admitted == self.admits(),
    {
        self.incoming != 0 && self.can_park()
    }

    /// Closes a tick: one queued car parks if a spot is free, its departure
    /// is scheduled `stay` ticks from now and at least one, and the clock
    /// moves on by one.
    pub fn finish_tick(&mut self, stay: u32)
        requires
            old(self).settling(),
            stay <= old(self).max_stay(),
        ensures
            final(self).wf(),
            final(self).now() == old(self).now() + 1,
            final(self).horizon() == old(self).horizon(),
            final(self).capacity() == old(self).capacity(),
            final(self).max_stay() == old(self).max_stay(),
            final(self).arrival_probability() == old(self).arrival_probability(),
            final(self).sampler() == old(self).sampler(),
            final(self).arrived() == old(self).arrived(),
            final(self).queued() == old(self).queued() - count_of(old(self).admits()),
            final(self).schedule() == if old(self).admits() {
                old(self).schedule().insert((old(self).now() + parked_for(stay)) as u32)
            } else {
                old(self).schedule()
            },
    {
        broadcast use vstd::multiset::group_multiset_axioms;

        proof {
            self.pdf.lemma_ordered();
            assert(self.pending(self.clock + 1));
            assert(none_before(self.departure_times@, self.clock + 1)) by {
                assert forall|x: u32| self.departure_times@.count(x) > 0 implies x >= self.clock
                    + 1 by {
                    assert(self.schedule().count(x) > 0);
                }
            }
            lemma_spread_next(
                self.departure_times@,
                self.clock as int,
                self.max_time as int,
                parked_for(stay) as int,
            );
        }
        if self.incoming != 0 && self.can_park() {
            self.park_car(stay);
            self.incoming -= 1;
        }
        self.clock += 1;
        proof {
            assert forall|x: u32| self.schedule().count(x) > 0 implies self.clock <= x
                < self.now() + self.max_stay() by {
                if old(self).schedule().count(x) > 0 {
                } else {
                    assert(x == old(self).clock + parked_for(stay));
                }
            }
        }
    }

    /// Carries out one tick with events drawn from `rng`: the arrival by an
    /// event of the per-tick arrival probability, and the stay of an admitted
    /// car by the sampler. Whatever is drawn, the tick is one that
    /// `begin_tick` and `finish_tick` carry out for some events.
    pub fn tick(&mut self, rng: &mut RandomSource)
        requires
            old(self).wf(),
            old(self).now() < old(self).horizon(),
        ensures
            final(self).wf(),
            old(self).ticked(final(self)),
            final(self).now() == old(self).now() + 1,
            final(self).horizon() == old(self).horizon(),
            final(self).capacity() == old(self).capacity(),
            final(self).max_stay() == old(self).max_stay(),
            old(self).arrived() <= final(self).arrived() <= old(self).arrived() + 1,
            final(self).queued() <= old(self).queued() + (final(self).arrived() - old(self).arrived()),
    {
        let arrived: bool = event_occurred(rng, &self.cars_per_second);
        proof {
            let draw = choose|draw: u32|
                draw < DRAW_RANGE && arrived == #[trigger] self.cars_per_second.covers_spec(draw);
            assert(arrived == self.arrival_probability().covers_spec(draw));
        }
        self.begin_tick(arrived);
        let mut stay: u32 = 0;
        if self.will_admit() {
            stay = self.pdf.sample(rng);
            assert(old(self).stay_possible(stay));
        }
        self.finish_tick(stay);
        assert(old(self).advanced(self, arrived, stay));
    }

    /// Runs the simulation to its horizon, tick by tick: the state at the
    /// end is reached by as many ticks as were left.
    pub fn simulate(&mut self, rng: &mut RandomSource)
        requires
            old(self).wf(),
        ensures
            final(self).wf(),
            old(self).reaches(final(self), (old(self).horizon() - old(self).now()) as nat),
            final(self).now() == final(self).horizon(),
            final(self).horizon() == old(self).horizon(),
            final(self).capacity() == old(self).capacity(),
            final(self).max_stay() == old(self).max_stay(),
            old(self).arrived() <= final(self).arrived(),
            final(self).arrived() - old(self).arrived() <= old(self).horizon() - old(self).now(),
            final(self).queued() <= old(self).queued() + (final(self).arrived() - old(self).arrived()),
    {
        proof {
            old(self).lemma_bounds();
        }
        while self.clock < self.steps
            invariant
                self.wf(),
                self.horizon() == old(self).horizon(),
                self.capacity() == old(self).capacity(),
                self.max_stay() == old(self).max_stay(),
                old(self).arrived() <= self.arrived(),
                old(self).now() <= self.now(),
                self.arrived() - old(self).arrived() <= self.now() - old(self).now(),
                self.queued() <= old(self).queued() + (self.arrived() - old(self).arrived()),
                old(self).reaches(self, (self.now() - old(self).now()) as nat),
            decreases self.steps - self.clock,
        {
            let ghost before = *self;
            self.tick(rng);
            assert(before.wf() && before.ticked(self));
        }
    }

    /// The current tick.
    pub fn clock(&self) -> (clock: u32)
        ensures
            clock == self.now(),
    {
        self.clock
    }

    /// The number of cars that arrived so far: at most one per tick.
    pub fn arrivals(&self) -> (arrivals: usize)
        requires
            self.wf(),
        ensures
            arrivals == self.arrived(),
            arrivals <= self.now(),
    {
        self.arrivals
    }

    /// The number of parked cars, which never exceeds the capacity.
    pub fn occupancy(&self) -> (occupancy: usize)
        requires
            self.wf(),
        ensures
            occupancy == self.schedule().len(),
            occupancy <= self.capacity(),
    {
        self.occupancy
    }

    /// The number of cars that arrived and found no spot so far. With a
    /// capacity of zero these are all the cars that arrived; with a capacity
    /// of at least the horizon, or of at least the longest stay, there are
    /// none.
    pub fn cars_left(&self) -> (left: usize)
        requires
            self.wf(),
        ensures
            left == self.queued(),
            left <= self.arrived(),
            self.capacity() == 0 ==> left == self.arrived(),
            self.capacity() >= self.horizon() ==> left == 0,
            self.capacity() >= self.max_stay() ==> left == 0,
    {
        self.incoming
    }
}

} // verus!
