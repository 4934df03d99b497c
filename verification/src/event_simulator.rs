//! The event-jump simulator: arrivals are fixed before the run, departures
//! are scheduled when cars park, and the clock jumps from event to event.

use crate::departure_schedule::{
    earliest, is_least, lemma_earliest, lemma_spread_empty, lemma_spread_later, lemma_spread_next,
    lemma_spread_without, lemma_without_due, none_before, pop_due, spread, without_due,
    DepartureSchedule,
};
use crate::simulator::{count_of, parked_for, parked_ticks};
use crate::random_generator::{RandomSource, DRAW_RANGE};
use crate::triangular_distribution::{DistributionError, TriangularPdfSampler};
use vstd::multiset::Multiset;
use vstd::prelude::*;

verus! {

/// Arrival times are strictly ascending and lie before the horizon `steps`.
pub open spec fn valid_arrivals(times: Seq<u32>, steps: nat) -> bool {
    &&& forall|i: int| 0 <= i < times.len() ==> (#[trigger] times[i]) < steps
    &&& forall|i: int, j: int| 0 <= i < j < times.len() ==> times[i] < times[j]
}

/// The sum of `a` and `b`, or the largest `u32` if the sum exceeds it.
pub open spec fn saturating_sum(a: u32, b: u32) -> u32 {
    if a + b > u32::MAX {
        u32::MAX
    } else {
        (a + b) as u32
    }
}

/// The arrival times of a run, built from the gaps between arrivals. No two
/// cars arrive in the same tick.
pub struct ArrivalSchedule {
    times: Vec<u32>,
    clock: u32,
    steps: u32,
}

impl View for ArrivalSchedule {
    type V = Seq<u32>;

    closed spec fn view(&self) -> Seq<u32> {
        self.times@
    }
}

impl ArrivalSchedule {
    /// The earliest tick at which the next car can arrive.
    pub closed spec fn cursor(&self) -> nat {
        self.clock as nat
    }

    /// The tick at which the simulation ends.
    pub closed spec fn horizon(&self) -> nat {
        self.steps as nat
    }

    /// The schedule's invariant: its times are valid arrivals before the
    /// cursor.
    pub closed spec fn wf(&self) -> bool {
        &&& valid_arrivals(self.times@, self.steps as nat)
        &&& forall|i: int| 0 <= i < self.times@.len() ==> (#[trigger] self.times@[i]) < self.clock
        &&& self.times@.len() <= self.clock
        &&& self.times@.len() <= self.steps
    }

    /// No further arrival fits before the horizon.
    pub open spec fn is_complete(&self) -> bool {
        self.cursor() >= self.horizon()
    }

    /// The cursor and the horizon are timestamps.
    pub proof fn lemma_in_range(&self)
        ensures
            self.cursor() <= u32::MAX,
            self.horizon() <= u32::MAX,
    {
    }

    /// A schedule without arrivals, for a run of `steps` ticks.
    pub fn new(steps: u32) -> (schedule: Self)
        ensures
            schedule.wf(),
            schedule@ == Seq::<u32>::empty(),
            schedule.cursor() == 0,
            schedule.horizon() == steps,
    {
        Self { times: Vec::new(), clock: 0, steps }
    }

    /// Whether no further arrival fits before the horizon.
    pub fn complete(&self) -> (done: bool)
        ensures
            done == self.is_complete(),
    {
        self.clock >= self.steps
    }

    /// Places the next arrival `delta` ticks after the cursor. If that tick
    /// lies before the horizon the arrival is recorded and the cursor moves
    /// one tick past it; if not, nothing is recorded and the schedule is
    /// complete.
    pub fn push_gap(&mut self, delta: u32)
        requires
            old(self).wf(),
        ensures
            final(self).wf(),
            final(self).horizon() == old(self).horizon(),
            ({
                let t = saturating_sum(old(self).cursor() as u32, delta);
                if t < old(self).horizon() {
                    final(self)@ == old(self)@.push(t) && final(self).cursor() == t + 1
                } else {
                    final(self)@ == old(self)@ && final(self).cursor() == t
                }
            }),
    {
        let t: u32 = self.clock.saturating_add(delta);
        if t >= self.steps {
            self.clock = t;
        } else {
            self.times.push(t);
            self.clock = t + 1;
        }
    }

    /// The recorded arrival times.
    pub fn into_times(self) -> (times: Vec<u32>)
        requires
            self.wf(),
        ensures
            times@ == self@,
            valid_arrivals(times@, self.horizon()),
            times@.len() <= self.horizon(),
    {
        self.times
    }
}

/// Simulates a lot by jumping from event to event. The clock moves to the
/// earlier of the next arrival and the next departure; while a queued car can
/// park it moves by one tick only, so that the free spot is used first. No
/// event at or after the horizon is handled.
pub struct EventSimulator {
    occupancy: usize,
    capacity: usize,
    clock: u32,
    steps: u32,
    max_time: u32,
    arrival_times: Vec<u32>,
    arrival_index: usize,
    departure_times: DepartureSchedule,
    incoming: usize,
    pdf: TriangularPdfSampler,
}

impl EventSimulator {
    /// The scheduled departure times, one for each parked car.
    pub closed spec fn schedule(&self) -> Multiset<u32> {
        self.departure_times@
    }

    /// The capacity of the lot.
    pub closed spec fn capacity(&self) -> nat {
        self.capacity as nat
    }

    /// The current tick.
    pub closed spec fn now(&self) -> nat {
        self.clock as nat
    }

    /// The tick at which the simulation ends.
    pub closed spec fn horizon(&self) -> nat {
        self.steps as nat
    }

    /// The longest stay.
    pub closed spec fn max_stay(&self) -> nat {
        self.max_time as nat
    }

    /// The number of cars that arrived and have not parked.
    pub closed spec fn queued(&self) -> nat {
        self.incoming as nat
    }

    /// The arrival times of the run.
    pub closed spec fn arrival_times(&self) -> Seq<u32> {
        self.arrival_times@
    }

    /// The number of cars that arrived so far.
    pub closed spec fn arrived(&self) -> nat {
        self.arrival_index as nat
    }

    /// The sampler of stay durations.
    pub closed spec fn sampler(&self) -> TriangularPdfSampler {
        self.pdf
    }

    /// A bound on the number of events still to come. Every event lowers
    /// it.
    pub closed spec fn work(&self) -> nat {
        (3 * (self.arrival_times@.len() - self.arrival_index) + 2 * self.incoming
            + self.occupancy) as nat
    }

    /// What holds of the lot, the schedule and the arrivals at every moment.
    spec fn sound(&self) -> bool {
        &&& self.departure_times.wf()
        &&& self.occupancy == self.departure_times@.len()
        &&& self.occupancy <= self.capacity
        &&& self.steps + self.max_time <= u32::MAX
        &&& self.clock < self.steps || self.clock == 0
        &&& self.pdf.wf()
        &&& self.pdf.a() == 0
        &&& self.pdf.c() == self.max_time / 2
        &&& self.pdf.b() == self.max_time
        &&& self.arrival_index <= self.arrival_times@.len()
        &&& valid_arrivals(self.arrival_times@, self.steps as nat)
        &&& self.arrival_times@.len() <= self.steps
        &&& self.occupancy + self.incoming <= self.arrival_index
        &&& self.capacity == 0 ==> self.incoming == self.arrival_index
        &&& self.pending()
        &&& forall|i: int|
            0 <= i < self.arrival_index ==> (#[trigger] self.arrival_times@[i]) <= self.clock
    }

    /// Every scheduled departure lies after the clock, at most the longest
    /// stay after it.
    pub open spec fn pending(&self) -> bool {
        forall|x: u32|
            self.schedule().count(x) > 0 ==> self.now() < x <= self.now() + self.max_stay()
    }

    /// Every arrival still to come lies at `from` or later.
    pub open spec fn arrivals_from(&self, from: int) -> bool {
        forall|i: int|
            self.arrived() <= i < self.arrival_times().len() ==> (
            #[trigger] self.arrival_times()[i]) >= from
    }

    /// The simulator's invariant. It holds between events.
    pub closed spec fn wf(&self) -> bool {
        &&& self.sound()
        &&& self.capacity >= self.arrival_times@.len() ==> self.incoming == 0
        &&& if self.arrival_index == 0 {
            self.clock == 0
        } else {
            self.arrivals_from(self.clock + 1)
        }
        &&& self.incoming > 0 && self.occupancy < self.capacity ==> self.occupancy > 0
        &&& self.capacity >= self.max_time ==> self.incoming == 0
        &&& spread(self.departure_times@, self.clock + 1, self.max_time as int)
    }

    /// What holds within an event, once its arrival and its departures are
    /// handled and before a car is admitted.
    pub closed spec fn settling(&self) -> bool {
        &&& self.sound()
        &&& self.clock < self.steps
        &&& self.arrival_index > 0
        &&& self.arrivals_from(self.clock + 1)
        &&& self.capacity >= self.arrival_times@.len() ==> self.incoming <= 1
        &&& self.capacity >= self.max_time ==> self.incoming <= 1
        &&& spread(self.departure_times@, self.clock as int, self.max_time as int)
    }

    /// Whether a queued car can park: a car waits and a spot is free.
    pub open spec fn admits(&self) -> bool {
        self.queued() > 0 && self.schedule().len() < self.capacity()
    }

    /// The next arrival, if any is left.
    pub open spec fn next_arrival(&self) -> Option<u32> {
        if self.arrived() < self.arrival_times().len() {
            Some(self.arrival_times()[self.arrived() as int])
        } else {
            None
        }
    }

    /// The earlier of the next arrival and the next departure, with whether
    /// an arrival and whether a departure falls on it; `None` when neither is
    /// left.
    pub open spec fn next_event(&self) -> Option<(u32, bool, bool)> {
        match (self.next_arrival(), earliest(self.schedule())) {
            (Some(a), Some(d)) => if a <= d {
                Some((a, true, a == d))
            } else {
                Some((d, false, true))
            },
            (Some(a), None) => Some((a, true, false)),
            (None, Some(d)) => Some((d, false, true)),
            (None, None) => None,
        }
    }

    /// The tick to which the clock moves next, with whether an arrival and
    /// whether a departure is handled there; `None` when no event is left
    /// before the horizon. The run handles no event at or after the horizon.
    pub open spec fn jump_target(&self) -> Option<(u32, bool, bool)> {
        match self.next_jump() {
            Some((time, has_arrival, has_departure)) => if time < self.horizon() {
                Some((time, has_arrival, has_departure))
            } else {
                None
            },
            None => None,
        }
    }

    /// The tick to which the clock would move next were there no horizon,
    /// with whether an arrival and whether a departure falls on it. While a
    /// queued car can park the clock moves by one tick, and an event is
    /// handled only if it falls on that tick.
    pub open spec fn next_jump(&self) -> Option<(u32, bool, bool)> {
        match self.next_event() {
            Some((time, has_arrival, has_departure)) => if self.admits() {
                let next = (self.now() + 1) as u32;
                if time != next {
                    Some((next, false, false))
                } else {
                    Some((next, has_arrival, has_departure))
                }
            } else {
                Some((time, has_arrival, has_departure))
            },
            None => None,
        }
    }

    /// The stay of an admitted car is the sample of some draw.
    pub open spec fn stay_possible(&self, stay: u32) -> bool {
        exists|draw: int|
            0 <= draw < DRAW_RANGE && #[trigger] self.sampler().is_sample(draw, stay as int)
    }

    /// `next` is the state one event after this one, where a car admitted
    /// has the sampled stay `stay`, which some draw samples. The clock moves
    /// to the jump target, the departures due there leave the schedule, an
    /// arrival there joins the queue, and a car is admitted if one waits and
    /// a spot is free then; it leaves at least one tick later. Where no
    /// event is left before the horizon, nothing changes.
    pub open spec fn stepped(&self, next: &Self, stay: u32) -> bool {
        &&& next.sampler() == self.sampler()
        &&& next.horizon() == self.horizon()
        &&& next.capacity() == self.capacity()
        &&& next.max_stay() == self.max_stay()
        &&& next.arrival_times() == self.arrival_times()
        &&& match self.jump_target() {
            Some((time, has_arrival, has_departure)) => {
                let due = without_due(self.schedule(), time);
                let waiting = self.queued() + count_of(has_arrival);
                let admitted = waiting > 0 && due.len() < self.capacity();
                &&& admitted ==> self.stay_possible(stay)
                &&& next.now() == time
                &&& next.arrived() == self.arrived() + count_of(has_arrival)
                &&& next.queued() == waiting - count_of(admitted)
                &&& next.schedule() == if admitted {
                    due.insert((time + parked_for(stay)) as u32)
                } else {
                    due
                }
            },
            None => {
                &&& next.now() == self.now()
                &&& next.arrived() == self.arrived()
                &&& next.queued() == self.queued()
                &&& next.schedule() == self.schedule()
            },
        }
    }

    /// `next` is the state one event after this one, for some stay up to
    /// the longest; an event is left before the horizon.
    pub open spec fn moved(&self, next: &Self) -> bool {
        &&& self.jump_target().is_some()
        &&& exists|stay: u32| stay <= self.max_stay() && #[trigger] self.stepped(next, stay)
    }

    /// `next` is reached from this state by `events` events, each between
    /// well-formed states.
    pub open spec fn reaches(&self, next: &Self, events: nat) -> bool
        decreases events,
    {
        if events == 0 {
            *next == *self
        } else {
            exists|mid: Self|
                mid.wf() && #[trigger] mid.moved(next) && self.reaches(&mid, (events - 1) as nat)
        }
    }

    /// The clock, the horizon and the longest stay are timestamps.
    pub proof fn lemma_in_range(&self)
        ensures
            self.now() <= u32::MAX,
            self.horizon() <= u32::MAX,
            self.max_stay() <= u32::MAX,
    {
    }

    /// Between events the lot holds no more cars than its capacity, every
    /// parked or queued car has arrived, the clock lies before the horizon,
    /// every parked car leaves after the clock and at most the longest stay
    /// after it, and the arrivals handled are those up to the clock.
    pub proof fn lemma_bounds(&self)
        requires
            self.wf(),
        ensures
            self.schedule().len() <= self.capacity(),
            self.schedule().len() + self.queued() <= self.arrived(),
            self.arrived() <= self.arrival_times().len() <= self.horizon(),
            valid_arrivals(self.arrival_times(), self.horizon()),
            self.horizon() + self.max_stay() <= u32::MAX,
            self.now() < self.horizon() || self.now() == 0,
            self.admits() ==> self.schedule().len() > 0,
            self.pending(),
            self.arrivals_from(self.now() as int),
            self.arrived() > 0 ==> self.arrivals_from(self.now() as int + 1),
            forall|i: int|
                0 <= i < self.arrived() ==> (#[trigger] self.arrival_times()[i]) <= self.now(),
            self.sampler().wf() && self.sampler().a() == 0 && self.sampler().c() == self.max_stay()
                / 2 && self.sampler().b() == self.max_stay(),
            self.max_stay() >= 2,
            self.schedule().len() > 0 ==> earliest(self.schedule()) is Some && is_least(
                self.schedule(),
                earliest(self.schedule()).unwrap(),
            ),
            self.capacity() == 0 ==> self.queued() == self.arrived(),
            self.capacity() >= self.horizon() ==> self.queued() == 0,
            self.capacity() >= self.max_stay() ==> self.queued() == 0,
    {
        self.pdf.lemma_ordered();
        self.departure_times.lemma_has_least();
    }

    /// The simulator is at tick zero, well-formed, with an empty lot of the
    /// given capacity and nothing queued, and set up as the parameters say.
    pub open spec fn fresh(
        &self,
        capacity: nat,
        max_time: u32,
        steps: u32,
        skew: bool,
        arrivals: Seq<u32>,
    ) -> bool {
        &&& self.wf()
        &&& self.schedule() == Multiset::<u32>::empty()
        &&& self.capacity() == capacity
        &&& self.now() == 0
        &&& self.horizon() == steps
        &&& self.max_stay() == max_time
        &&& self.queued() == 0
        &&& self.arrived() == 0
        &&& self.arrival_times() == arrivals
        &&& self.sampler().skew() == skew
    }

    /// A simulator at tick zero with an empty lot and nothing queued, for
    /// the given arrivals and a stay duration distributed between zero and
    /// `max_time` around `max_time / 2`. The distribution is malformed when
    /// `max_time` is below two.
    pub fn new(capacity: usize, max_time: u32, steps: u32, skew: bool, arrivals: ArrivalSchedule) -> (r:
        Result<Self, DistributionError>)
        requires
            arrivals.wf(),
            arrivals.horizon() == steps,
            steps + max_time <= u32::MAX,
        ensures
            r.is_ok() <==> max_time >= 2,
            r matches Ok(sim) ==> sim.fresh(capacity as nat, max_time, steps, skew, arrivals@),
            r matches Err(e) ==> e == DistributionError::MalformedParameters,
    {
        broadcast use vstd::multiset::group_multiset_axioms;

        proof {
            lemma_spread_empty(1, max_time as int);
        }
        match TriangularPdfSampler::new(0, max_time / 2, max_time, skew) {
            Ok(pdf) => Ok(
                Self {
                    occupancy: 0,
                    capacity,
                    clock: 0,
                    steps,
                    max_time,
                    arrival_times: arrivals.into_times(),
                    arrival_index: 0,
                    departure_times: DepartureSchedule::new(),
                    incoming: 0,
                    pdf,
                },
            ),
            Err(e) => Err(e),
        }
    }

    /// Moves the clock to the next event before the horizon and handles what
    /// falls on it: an arrival joins the queue, and the departures due leave
    /// the schedule. Returns `false`, and changes nothing, when no event is
    /// left before the horizon.
    pub fn begin_event(&mut self) -> (found: bool)
        requires
            old(self).wf(),
        ensures
            found == old(self).jump_target().is_some(),
            final(self).sampler() == old(self).sampler(),
            final(self).horizon() == old(self).horizon(),
            final(self).capacity() == old(self).capacity(),
            final(self).max_stay() == old(self).max_stay(),
            final(self).arrival_times() == old(self).arrival_times(),
            !found ==> *final(self) == *old(self),
            old(self).jump_target() matches Some((time, has_arrival, has_departure)) ==> {
                &&& final(self).settling()
                &&& old(self).now() <= time < old(self).horizon()
                &&& final(self).now() == time
                &&& final(self).arrived() == old(self).arrived() + count_of(has_arrival)
                &&& final(self).queued() == old(self).queued() + count_of(has_arrival)
                &&& final(self).schedule() == without_due(old(self).schedule(), time)
                &&& has_arrival <==> old(self).next_arrival() == Some(time)
                &&& has_departure <==> old(self).schedule().count(time) > 0
                &&& final(self).work() <= old(self).work()
                &&& !old(self).admits() ==> final(self).work() < old(self).work()
                &&& old(self).admits() ==> final(self).admits()
            },
    {
        broadcast use vstd::multiset::group_multiset_axioms;

        proof {
            self.pdf.lemma_ordered();
            self.departure_times.lemma_has_least();
        }
        let cars_can_park: bool = self.incoming != 0 && self.occupancy != self.capacity;
        let next_arrival: Option<u32> = if self.arrival_index < self.arrival_times.len() {
            Some(self.arrival_times[self.arrival_index])
        } else {
            None
        };
        let next_departure: Option<u32> = self.departure_times.peek();
        let mut next_time: u32;
        let mut has_arrival: bool;
        let mut has_departure: bool;
        match (next_arrival, next_departure) {
            (Some(arrival), Some(departure)) => {
                let min: u32 = if arrival <= departure {
                    arrival
                } else {
                    departure
                };
                next_time = min;
                has_arrival = arrival == min;
                has_departure = departure == min;
            },
            (Some(arrival), None) => {
                next_time = arrival;
                has_arrival = true;
                has_departure = false;
            },
            (None, Some(departure)) => {
                next_time = departure;
                has_arrival = false;
                has_departure = true;
            },
            (None, None) => {
                return false;
            },
        }
        if cars_can_park {
            let actual_next_time: u32 = self.clock + 1;
            if next_time != actual_next_time {
                has_arrival = false;
                has_departure = false;
            }
            next_time = actual_next_time;
        }
        assert(old(self).next_jump() == Some((next_time, has_arrival, has_departure)));
        if next_time >= self.steps {
            return false;
        }
        proof {
            // Neither the next arrival nor an entry of the schedule lies
            // before the tick to which the clock moves.
            if next_arrival is Some {
                assert(self.arrival_times@[self.arrival_index as int] >= self.clock);
                if self.arrival_index > 0 {
                    assert(self.arrival_times@[self.arrival_index as int] >= self.clock + 1);
                }
            }
            if next_departure is Some {
                assert(self.schedule().count(next_departure.unwrap()) > 0);
            }
            assert(self.clock <= next_time);
            assert(self.pending());
            assert forall|x: u32| self.departure_times@.count(x) > 0 implies x >= next_time by {
                assert(self.schedule().count(x) > 0);
                if next_departure is Some {
                    assert(is_least(self.departure_times@, next_departure.unwrap()));
                }
            }
            assert(has_departure <==> self.departure_times@.count(next_time) > 0) by {
                if self.departure_times@.count(next_time) > 0 {
                    lemma_earliest(self.departure_times@, next_time);
                }
            }
            assert(has_arrival <==> next_arrival == Some(next_time));
            lemma_without_due(self.departure_times@, next_time);
            if self.arrival_index == 0 {
                assert(self.departure_times@.len() == 0);
                assert(self.departure_times@ =~= Multiset::<u32>::empty());
                lemma_spread_empty(next_time as int, self.max_time as int);
            } else {
                lemma_spread_later(
                    self.departure_times@,
                    self.clock + 1,
                    next_time as int,
                    self.max_time as int,
                );
            }
            lemma_spread_without(
                self.departure_times@,
                next_time as int,
                self.max_time as int,
                next_time,
            );
        }
        self.clock = next_time;
        if has_arrival {
            self.arrival_index += 1;
            self.incoming += 1;
        }
        if has_departure {
            let removed: usize = pop_due(&mut self.departure_times, self.clock);
            self.occupancy -= removed;
        }
        proof {
            assert forall|x: u32| self.schedule().count(x) > 0 implies self.now() < x
                <= self.now() + self.max_stay() by {
                assert(old(self).schedule().count(x) > 0);
            }
            assert forall|i: int|
                self.arrived() <= i < self.arrival_times().len() implies (
            #[trigger] self.arrival_times()[i]) >= self.clock + 1 by {
                let first = old(self).arrival_index as int;
                assert(self.arrival_times@[first] >= old(self).clock);
                if i > first {
                    assert(self.arrival_times@[first] < self.arrival_times@[i]);
                }
            }
            assert forall|i: int| 0 <= i < self.arrival_index implies (
            #[trigger] self.arrival_times@[i]) <= self.clock by {
                if i < old(self).arrival_index {
                    assert(old(self).arrival_times@[i] <= old(self).clock);
                }
            }
        }
        true
    }

    /// Whether the event that was begun admits a queued car.
    pub fn will_admit(&self) -> (admitted: bool)
        requires
            self.settling(),
        ensures
            admitted == self.admits(),
    {
        self.incoming != 0 && self.occupancy != self.capacity
    }

    /// Ends an event: one queued car parks if a spot is free, and its
    /// departure is scheduled `stay` ticks from now and at least one.
    pub fn finish_event(&mut self, stay: u32)
        requires
            old(self).settling(),
            stay <= old(self).max_stay(),
        ensures
            final(self).wf(),
            final(self).sampler() == old(self).sampler(),
            final(self).now() == old(self).now(),
            final(self).horizon() == old(self).horizon(),
            final(self).capacity() == old(self).capacity(),
            final(self).max_stay() == old(self).max_stay(),
            final(self).arrival_times() == old(self).arrival_times(),
            final(self).arrived() == old(self).arrived(),
            final(self).queued() == old(self).queued() - count_of(old(self).admits()),
            final(self).schedule() == if old(self).admits() {
                old(self).schedule().insert((old(self).now() + parked_for(stay)) as u32)
            } else {
                old(self).schedule()
            },
            final(self).work() == old(self).work() - count_of(old(self).admits()),
    {
        broadcast use vstd::multiset::group_multiset_axioms;

        proof {
            self.pdf.lemma_ordered();
            assert(self.pending());
            assert(self.arrivals_from(self.clock + 1));
            assert(none_before(self.departure_times@, self.clock + 1)) by {
                assert forall|x: u32| self.departure_times@.count(x) > 0 implies x >= self.clock
                    + 1 by {
                    assert(self.schedule().count(x) > 0);
                }
            }
            lemma_spread_next(
                self.departure_times@,
                self.clock as int,
                self.max_time as int,
                parked_for(stay) as int,
            );
        }
        if self.incoming != 0 && self.occupancy != self.capacity {
            let departure_time: u32 = self.clock + parked_ticks(stay);
            self.occupancy += 1;
            self.departure_times.push(departure_time);
            self.incoming -= 1;
        }
        proof {
            assert forall|x: u32| self.schedule().count(x) > 0 implies self.now() < x
                <= self.now() + self.max_stay() by {
                if old(self).schedule().count(x) > 0 {
                } else {
                    assert(x == old(self).clock + parked_for(stay));
                }
            }
            assert forall|i: int|
                self.arrived() <= i < self.arrival_times().len() implies (
            #[trigger] self.arrival_times()[i]) >= self.clock + 1 by {
                assert(old(self).arrival_times()[i] >= old(self).clock + 1);
            }
        }
    }

    /// Handles the next event, with the stay of an admitted car drawn from
    /// `rng` by the sampler. Returns `false`, and changes nothing, when no
    /// event is left before the horizon. Whatever is drawn, the step is one that `begin_event`
    /// and `finish_event` carry out for some stay.
    pub fn step(&mut self, rng: &mut RandomSource) -> (found: bool)
        requires
            old(self).wf(),
        ensures
            final(self).wf(),
            found == old(self).jump_target().is_some(),
            exists|stay: u32|
                stay <= old(self).max_stay() && #[trigger] old(self).stepped(final(self), stay),
            final(self).horizon() == old(self).horizon(),
            final(self).capacity() == old(self).capacity(),
            final(self).max_stay() == old(self).max_stay(),
            final(self).arrival_times() == old(self).arrival_times(),
            old(self).arrived() <= final(self).arrived() <= old(self).arrived() + 1,
            final(self).queued() <= old(self).queued() + (final(self).arrived() - old(
                self,
            ).arrived()),
            found ==> final(self).work() < old(self).work(),
            !found ==> *final(self) == *old(self),
    {
        if !self.begin_event() {
            assert(old(self).stepped(self, 0));
            return false;
        }
        let mut stay: u32 = 0;
        if self.will_admit() {
            stay = self.pdf.sample(rng);
            assert(old(self).stay_possible(stay));
        }
        self.finish_event(stay);
        assert(old(self).stepped(self, stay));
        true
    }

    /// Runs the simulation until no event is left before the horizon: the
    /// state at the end is reached by some number of events, each before the
    /// horizon, and nothing is handled at or after it.
    pub fn simulate(&mut self, rng: &mut RandomSource)
        requires
            old(self).wf(),
        ensures
            final(self).wf(),
            exists|events: nat| #[trigger] old(self).reaches(final(self), events),
            final(self).jump_target().is_none(),
            old(self).jump_target().is_none() ==> *final(self) == *old(self),
            final(self).horizon() == old(self).horizon(),
            final(self).capacity() == old(self).capacity(),
            final(self).max_stay() == old(self).max_stay(),
            final(self).arrival_times() == old(self).arrival_times(),
            old(self).arrived() <= final(self).arrived(),
            final(self).queued() <= old(self).queued() + (final(self).arrived() - old(
                self,
            ).arrived()),
            final(self).capacity() == 0 ==> final(self).arrived() == final(self).arrival_times().len(),
    {
        let ghost mut events: nat = 0;
        while self.clock < self.steps
            invariant
                self.wf(),
                old(self).reaches(self, events),
                events == 0 ==> *self == *old(self),
                events > 0 ==> old(self).jump_target().is_some(),
                self.horizon() == old(self).horizon(),
                self.capacity() == old(self).capacity(),
                self.max_stay() == old(self).max_stay(),
                self.arrival_times() == old(self).arrival_times(),
                old(self).arrived() <= self.arrived(),
                self.queued() <= old(self).queued() + (self.arrived() - old(self).arrived()),
            ensures
                self.wf(),
                old(self).reaches(self, events),
                events == 0 ==> *self == *old(self),
                events > 0 ==> old(self).jump_target().is_some(),
                self.jump_target().is_none(),
                self.horizon() == old(self).horizon(),
                self.capacity() == old(self).capacity(),
                self.max_stay() == old(self).max_stay(),
                self.arrival_times() == old(self).arrival_times(),
                old(self).arrived() <= self.arrived(),
                self.queued() <= old(self).queued() + (self.arrived() - old(self).arrived()),
            decreases self.work(),
        {
            let ghost before = *self;
            if !self.step(rng) {
                break ;
            }
            proof {
                assert(before.wf() && before.moved(self));
                events = events + 1;
            }
        }
    }

    /// The current tick.
    pub fn clock(&self) -> (clock: u32)
        ensures
            clock == self.now(),
    {
        self.clock
    }

    /// The number of cars that arrived so far.
    pub fn arrivals(&self) -> (arrivals: usize)
        requires
            self.wf(),
        ensures
            arrivals == self.arrived(),
            arrivals <= self.arrival_times().len(),
    {
        self.arrival_index
    }

    /// The number of parked cars, which never exceeds the capacity.
    pub fn occupancy(&self) -> (occupancy: usize)
        requires
            self.wf(),
        ensures
            occupancy == self.schedule().len(),
            occupancy <= self.capacity(),
    {
        self.occupancy
    }

    /// The number of cars that arrived and found no spot so far. With a
    /// capacity of zero these are all the cars that arrived; with a capacity
    /// of at least the number of arrivals of the run, and so with one of at
    /// least the horizon, or of at least the longest stay, there are none.
    pub fn cars_left(&self) -> (left: usize)
        requires
            self.wf(),
        ensures
            left == self.queued(),
            left <= self.arrived(),
            self.capacity() == 0 ==> left == self.arrived(),
            self.capacity() >= self.arrival_times().len() ==> left == 0,
            self.capacity() >= self.horizon() ==> left == 0,
            self.capacity() >= self.max_stay() ==> left == 0,
    {
        self.incoming
    }
}

} // verus!
