//! The tick-faithful simulator: discrete departure timing, with the queue of
//! waiting cars and the log of departed cars kept in arrival order.

use crate::parking_lot::{is_marked, kept, remove_marked, spots_at, valid_marks, ParkingLot, Spot};
use crate::probability::{Probability, Ratio, TICKS_PER_HOUR};
use crate::random_generator::{event_occurred, RandomSource, DRAW_RANGE};
use crate::simulator::{
    count_of, lemma_parked_now, lemma_room_after_departures, parked_apart, stay_density,
    within_stay,
};
use crate::triangular_distribution::{DistributionError, TriangularPdf};
use std::collections::VecDeque;
use vstd::multiset::Multiset;
use vstd::prelude::*;

verus! {

/// `n` copies of the tick `t`.
pub open spec fn repeated(t: u32, n: nat) -> Seq<u32> {
    Seq::new(n, |i: int| t)
}

/// `s` without its first element, if it has one.
pub open spec fn without_first(s: Seq<u32>) -> Seq<u32> {
    if s.len() > 0 {
        s.drop_first()
    } else {
        s
    }
}

/// Simulates a lot one tick at a time. Each tick at most one car arrives and
/// joins the queue with its arrival tick, every parked car leaves with the
/// probability that the density gives for its duration, and the car at the
/// head of the queue is admitted if a spot is free.
pub struct FaithfulSimulator<P: ParkingLot> {
    lot: P,
    clock: u32,
    steps: u32,
    max_time: u32,
    incoming: VecDeque<u32>,
    outgoing: VecDeque<u32>,
    arrivals: usize,
    pdf: TriangularPdf,
    cars_per_second: Probability,
}

impl<P: ParkingLot> FaithfulSimulator<P> {
    /// The occupants of the lot, each the tick at which the car parked.
    pub closed spec fn spots(&self) -> Seq<Spot> {
        self.lot@
    }

    /// The capacity of the lot.
    pub closed spec fn capacity(&self) -> nat {
        self.lot.capacity()
    }

    /// The current tick.
    pub closed spec fn now(&self) -> nat {
        self.clock as nat
    }

    /// The tick at which the simulation ends.
    pub closed spec fn horizon(&self) -> nat {
        self.steps as nat
    }

    /// The longest stay.
    pub closed spec fn max_stay(&self) -> nat {
        self.max_time as nat
    }

    /// The arrival ticks of the cars that wait, the first to arrive first.
    pub closed spec fn queue(&self) -> Seq<u32> {
        self.incoming@
    }

    /// The departure ticks logged and not yet discarded.
    pub closed spec fn departed(&self) -> Seq<u32> {
        self.outgoing@
    }

    /// The number of cars that arrived so far.
    pub closed spec fn arrived(&self) -> nat {
        self.arrivals as nat
    }

    /// The probability that a car arrives in a tick.
    pub closed spec fn arrival_probability(&self) -> Probability {
        self.cars_per_second
    }

    /// The simulator's invariant. It holds between ticks.
    pub closed spec fn wf(&self) -> bool {
        &&& self.lot.wf()
        &&& self.clock <= self.steps
        &&& self.cars_per_second.wf()
        &&& self.pdf.wf()
        &&& self.pdf.a() == 0
        &&& self.pdf.c() == self.max_time / 2
        &&& self.pdf.b() == self.max_time
        &&& self.arrivals <= self.clock
        &&& self.lot@.len() + self.incoming@.len() <= self.arrivals
        &&& self.lot.capacity() == 0 ==> self.incoming@.len() == self.arrivals
        &&& self.lot.capacity() >= self.steps ==> self.incoming@.len() == 0
        &&& forall|i: int|
            0 <= i < self.lot@.len() ==> within_stay(
                #[trigger] self.lot@[i],
                self.clock as int,
                self.max_time as int,
            )
        &&& parked_apart(self.lot@, self.clock as int)
        &&& self.lot.capacity() >= self.max_time ==> self.incoming@.len() == 0
        &&& forall|i: int| 0 <= i < self.incoming@.len() ==> (#[trigger] self.incoming@[i]) < self.clock
        &&& forall|i: int, j: int|
            0 <= i < j < self.incoming@.len() ==> self.incoming@[i] < self.incoming@[j]
    }

    /// Whether the head of the queue is admitted in a tick in which a car
    /// `arrived` or not and `departures` cars left: a car waits and a spot is
    /// free.
    pub open spec fn admits(&self, arrived: bool, departures: nat) -> bool {
        self.queue().len() + count_of(arrived) > 0 && self.spots().len() - departures
            < self.capacity()
    }

    /// A car that has stayed for the longest stay must leave: its position
    /// is marked.
    pub open spec fn marks_forced(&self, marked: Seq<usize>) -> bool {
        forall|i: int|
            0 <= i < self.spots().len() && self.now() - (#[trigger] self.spots()[i])
                == self.max_stay() ==> is_marked(marked, i)
    }

    /// Each car leaves by an event whose probability is the density at its
    /// duration: a car that is marked has stayed for the longest stay or has
    /// a density above zero, and a car whose density is one or more is
    /// marked.
    pub open spec fn marks_possible(&self, marked: Seq<usize>) -> bool {
        forall|i: int|
            0 <= i < self.spots().len() ==> {
                let duration = self.now() - (#[trigger] self.spots()[i]);
                let density = stay_density(self.max_stay() as int, duration);
                &&& is_marked(marked, i) ==> duration == self.max_stay() || density.0 > 0
                &&& density.0 >= density.1 ==> is_marked(marked, i)
            }
    }

    /// A car arrives by an event of the arrival probability: whether one
    /// `arrived` is what some draw decides.
    pub open spec fn arrival_possible(&self, arrived: bool) -> bool {
        exists|draw: u32|
            draw < DRAW_RANGE && arrived == #[trigger] self.arrival_probability().covers_spec(draw)
    }

    /// The multiset of occupants after a tick in which a car `arrived` or
    /// not and the cars at the `marked` positions left.
    pub open spec fn spots_after(&self, arrived: bool, marked: Seq<usize>) -> Multiset<Spot> {
        let remaining = self.spots().to_multiset().sub(spots_at(self.spots(), marked));
        if self.admits(arrived, marked.len()) {
            remaining.insert(self.now() as u32)
        } else {
            remaining
        }
    }

    /// The queue after a tick in which a car `arrived` or not and
    /// `departures` cars left: the arrival joins at the back, and the head
    /// leaves the queue if it is admitted.
    pub open spec fn queue_after(&self, arrived: bool, departures: nat) -> Seq<u32> {
        let joined = if arrived {
            self.queue().push(self.now() as u32)
        } else {
            self.queue()
        };
        if self.admits(arrived, departures) {
            joined.drop_first()
        } else {
            joined
        }
    }

    /// `next` is the state one tick after this one, given the tick's events:
    /// a car `arrived` or not, and the cars at the `marked` positions left.
    pub open spec fn advanced(&self, next: &Self, arrived: bool, marked: Seq<usize>) -> bool {
        &&& next.now() == self.now() + 1
        &&& next.horizon() == self.horizon()
        &&& next.capacity() == self.capacity()
        &&& next.max_stay() == self.max_stay()
        &&& next.arrival_probability() == self.arrival_probability()
        &&& next.arrived() == self.arrived() + count_of(arrived)
        &&& next.queue() == self.queue_after(arrived, marked.len())
        &&& next.departed() == without_first(
            self.departed() + repeated(self.now() as u32, marked.len()),
        )
        &&& next.spots().to_multiset() == self.spots_after(arrived, marked)
    }

    /// `next` is the state one tick after this one, for some events that
    /// can occur in the tick: an arrival that some draw decides, and
    /// departures that include the forced ones and are possible for the
    /// densities.
    pub open spec fn ticked(&self, next: &Self) -> bool {
        exists|arrived: bool, marked: Seq<usize>|
            {
                &&& self.arrival_possible(arrived)
                &&& valid_marks(marked, self.spots().len())
                &&& self.marks_forced(marked)
                &&& self.marks_possible(marked)
                &&& #[trigger] self.advanced(next, arrived, marked)
            }
    }

    /// `next` is reached from this state by `ticks` ticks, each between
    /// well-formed states.
    pub open spec fn reaches(&self, next: &Self, ticks: nat) -> bool
        decreases ticks,
    {
        if ticks == 0 {
            *next == *self
        } else {
            exists|mid: Self|
                mid.wf() && #[trigger] mid.ticked(next) && self.reaches(&mid, (ticks - 1) as nat)
        }
    }

    /// The clock, the horizon and the longest stay are timestamps.
    pub proof fn lemma_in_range(&self)
        ensures
            self.now() <= u32::MAX,
            self.horizon() <= u32::MAX,
            self.max_stay() <= u32::MAX,
    {
    }

    /// Between ticks the lot holds no more cars than its capacity, every
    /// parked or queued car has arrived, at most one car arrived per tick,
    /// the queue is in order of arrival, and every car parked at most the
    /// longest stay ago.
    pub proof fn lemma_bounds(&self)
        requires
            self.wf(),
        ensures
            self.spots().len() <= self.capacity(),
            self.spots().len() + self.queue().len() <= self.arrived(),
            self.arrived() <= self.now() <= self.horizon(),
            self.max_stay() >= 2,
            self.horizon() <= u32::MAX,
            forall|i: int|
                0 <= i < self.spots().len() ==> within_stay(
                    #[trigger] self.spots()[i],
                    self.now() as int,
                    self.max_stay() as int,
                ),
            self.capacity() == 0 ==> self.queue().len() == self.arrived(),
            self.capacity() >= self.horizon() ==> self.queue().len() == 0,
            self.capacity() >= self.max_stay() ==> self.queue().len() == 0,
            parked_apart(self.spots(), self.now() as int),
            forall|i: int, j: int|
                0 <= i < j < self.queue().len() ==> self.queue()[i] < self.queue()[j],
            forall|i: int| 0 <= i < self.queue().len() ==> (#[trigger] self.queue()[i]) < self.now(),
    {
        self.lot.lemma_within_capacity();
        self.pdf.lemma_ordered();
    }

    /// The simulator is at tick zero, well-formed, with an empty lot of the
    /// given capacity and nothing queued or logged, and set up as the
    /// parameters say.
    pub open spec fn fresh(&self, capacity: nat, max_time: u32, steps: u32, cars_per_hour: Ratio) -> bool {
        &&& self.wf()
        &&& self.spots() == Seq::<Spot>::empty()
        &&& self.capacity() == capacity
        &&& self.now() == 0
        &&& self.horizon() == steps
        &&& self.max_stay() == max_time
        &&& self.queue() == Seq::<u32>::empty()
        &&& self.departed() == Seq::<u32>::empty()
        &&& self.arrived() == 0
        &&& self.arrival_probability().num() == cars_per_hour.num()
        &&& self.arrival_probability().den() == cars_per_hour.den() * TICKS_PER_HOUR
    }

    /// A simulator at tick zero with nothing queued, for a stay duration
    /// distributed between zero and `max_time` around `max_time / 2`. The
    /// distribution is malformed when `max_time` is below two.
    pub fn new(lot: P, max_time: u32, steps: u32, cars_per_hour: Ratio) -> (r: Result<
        Self,
        DistributionError,
    >)
        requires
            lot.wf(),
            lot@.len() == 0,
        ensures
            r.is_ok() <==> max_time >= 2,
            r matches Ok(sim) ==> sim.fresh(lot.capacity(), max_time, steps, cars_per_hour),
            r matches Err(e) ==> e == DistributionError::MalformedParameters,
    {
        proof {
            assert(lot@ =~= Seq::<Spot>::empty());
            lot@.to_multiset_ensures();
            assert forall|x: Spot| lot@.to_multiset().count(x) <= 1 by {
                vstd::multiset::axiom_count_le_len(lot@.to_multiset(), x);
            }
        }
        match TriangularPdf::new(0, max_time / 2, max_time) {
            Ok(pdf) => Ok(
                Self {
                    lot,
                    steps,
                    max_time,
                    clock: 0,
                    incoming: VecDeque::new(),
                    outgoing: VecDeque::new(),
                    arrivals: 0,
                    pdf,
                    cars_per_second: Probability::per_second(&cars_per_hour),
                },
            ),
            Err(e) => Err(e),
        }
    }

    /// Marks the positions of the cars that leave in this tick. A car that
    /// has stayed for the longest stay leaves, and each other car leaves if
    /// an event with the density at its duration as probability occurs.
    pub fn scan_departures(&self, rng: &mut RandomSource) -> (marked: Vec<usize>)
        requires
            self.wf(),
        ensures
            valid_marks(marked@, self.spots().len()),
            marked@.len() <= self.spots().len(),
            self.marks_forced(marked@),
            self.marks_possible(marked@),
    {
        let spots = self.lot.iter();
        let mut marked: Vec<usize> = Vec::new();
        let mut i: usize = 0;
        while i < spots.len()
            invariant
                self.wf(),
                spots@ == self.lot@,
                i <= spots@.len(),
                valid_marks(marked@, i as nat),
                marked@.len() <= i,
                forall|k: int|
                    0 <= k < i && self.now() - (#[trigger] self.spots()[k]) == self.max_stay()
                        ==> is_marked(marked@, k),
                forall|k: int|
                    0 <= k < i ==> {
                        let duration = self.now() - (#[trigger] self.spots()[k]);
                        let density = stay_density(self.max_stay() as int, duration);
                        &&& is_marked(marked@, k) ==> duration == self.max_stay() || density.0 > 0
                        &&& density.0 >= density.1 ==> is_marked(marked@, k)
                    },
            decreases spots@.len() - i,
        {
            let leave_time: Spot = spots[i];
            assert(within_stay(self.lot@[i as int], self.clock as int, self.max_time as int));
            let duration: u32 = self.clock - leave_time;
            let car_leaves = if duration == self.max_time {
                true
            } else {
                assert(self.pdf.density(duration as int) == stay_density(
                    self.max_time as int,
                    duration as int,
                ));
                event_occurred(rng, &self.pdf.pdf(duration))
            };
            let ghost before = marked@;
            if car_leaves {
                marked.push(i);
                proof {
                    assert(marked@[before.len() as int] == i);
                    assert forall|k: int| 0 <= k < i && is_marked(before, k) implies is_marked(
                        marked@,
                        k,
                    ) by {
                        let m = choose|m: int| 0 <= m < before.len() && before[m] == k;
                        assert(marked@[m] == k);
                    }
                    assert forall|k: int| 0 <= k < i && is_marked(marked@, k) implies is_marked(
                        before,
                        k,
                    ) by {
                        let m = choose|m: int| 0 <= m < marked@.len() && marked@[m] == k;
                        assert(before[m] == k);
                    }
                }
            } else {
                proof {
                    if is_marked(marked@, i as int) {
                        let m = choose|m: int| 0 <= m < marked@.len() && marked@[m] == i;
                        assert(marked@[m] < i);
                    }
                }
            }
            i += 1;
        }
        marked
    }

    /// Carries out one tick whose events are given: a car `arrived` or not,
    /// and the cars at the `marked` positions leave. The arrival joins the
    /// queue with the current tick, the marked cars are removed and logged,
    /// the oldest entry of the log is discarded, the head of the queue parks
    /// if a spot is free, and the clock moves on by one.
    pub fn advance(&mut self, arrived: bool, marked: &Vec<usize>)
        requires
            old(self).wf(),
            old(self).now() < old(self).horizon(),
            valid_marks(marked@, old(self).spots().len()),
            old(self).marks_forced(marked@),
        ensures
            final(self).wf(),
            old(self).advanced(final(self), arrived, marked@),
    {
        proof {
            self.lemma_bounds();
        }
        if arrived {
            self.incoming.push_back(self.clock);
            self.arrivals += 1;
        }
        let ghost joined = self.incoming@;
        remove_marked(&mut self.lot, marked);
        let ghost remaining = self.lot@;
        proof {
            lemma_room_after_departures(
                old(self).lot@,
                marked@,
                remaining,
                self.clock as int,
                self.max_time as int,
            );
            assert forall|k: int| 0 <= k < remaining.len() implies within_stay(
                #[trigger] remaining[k],
                self.clock + 1,
                self.max_time as int,
            ) by {
                assert(kept(old(self).lot@, marked@, remaining[k]));
                let i = choose|i: int|
                    0 <= i < old(self).lot@.len() && !is_marked(marked@, i) && old(self).lot@[i]
                        == remaining[k];
                assert(within_stay(old(self).spots()[i], self.clock as int, self.max_time as int));
            }
        }
        let mut logged: usize = 0;
        while logged < marked.len()
            invariant
                logged <= marked@.len(),
                self.outgoing@ == old(self).outgoing@ + repeated(self.clock, logged as nat),
                self.clock == old(self).clock,
                self.steps == old(self).steps,
                self.max_time == old(self).max_time,
                self.arrivals == old(self).arrivals + count_of(arrived),
                self.incoming@ == joined,
                self.lot@ == remaining,
                self.lot.wf(),
                self.lot.capacity() == old(self).lot.capacity(),
                self.pdf == old(self).pdf,
                self.cars_per_second == old(self).cars_per_second,
            decreases marked@.len() - logged,
        {
            self.outgoing.push_back(self.clock);
            logged += 1;
            assert(self.outgoing@ =~= old(self).outgoing@ + repeated(self.clock, logged as nat));
        }
        let _ = self.outgoing.pop_front();
        assert(self.outgoing@ =~= without_first(
            old(self).outgoing@ + repeated(self.clock, marked@.len()),
        ));
        if self.incoming.len() != 0 && self.lot.can_park() {
            let _ = self.lot.try_park(self.clock);
            let _ = self.incoming.pop_front();
            proof {
                remaining.to_multiset_ensures();
                lemma_parked_now(remaining, self.clock);
                assert(self.incoming@ =~= joined.drop_first());
                assert forall|k: int| 0 <= k < self.lot@.len() implies within_stay(
                    #[trigger] self.lot@[k],
                    self.clock + 1,
                    self.max_time as int,
                ) by {
                    if k < remaining.len() {
                        assert(self.lot@[k] == remaining[k]);
                    }
                }
            }
        }
        self.clock += 1;
    }

    /// Carries out one tick with events drawn from `rng`: the arrival by an
    /// event of the per-tick arrival probability and the departures as
    /// `scan_departures` marks them. Whatever is drawn, the tick is one that
    /// `advance` carries out for some events.
    pub fn tick(&mut self, rng: &mut RandomSource)
        requires
            old(self).wf(),
            old(self).now() < old(self).horizon(),
        ensures
            final(self).wf(),
            old(self).ticked(final(self)),
            final(self).now() == old(self).now() + 1,
            final(self).horizon() == old(self).horizon(),
            final(self).capacity() == old(self).capacity(),
            final(self).max_stay() == old(self).max_stay(),
            old(self).arrived() <= final(self).arrived() <= old(self).arrived() + 1,
            final(self).queue().len() <= old(self).queue().len() + (final(self).arrived() - old(self).arrived()),
    {
        let arrived: bool = event_occurred(rng, &self.cars_per_second);
        proof {
            let draw = choose|draw: u32|
                draw < DRAW_RANGE && arrived == #[trigger] self.cars_per_second.covers_spec(draw);
            assert(arrived == self.arrival_probability().covers_spec(draw));
        }
        let marked: Vec<usize> = self.scan_departures(rng);
        self.advance(arrived, &marked);
        assert(old(self).advanced(self, arrived, marked@));
    }

    /// Runs the simulation to its horizon, tick by tick: the state at the
    /// end is reached by as many ticks as were left.
    pub fn simulate(&mut self, rng: &mut RandomSource)
        requires
            old(self).wf(),
        ensures
            final(self).wf(),
            old(self).reaches(final(self), (old(self).horizon() - old(self).now()) as nat),
            final(self).now() == final(self).horizon(),
            final(self).horizon() == old(self).horizon(),
            final(self).capacity() == old(self).capacity(),
            final(self).max_stay() == old(self).max_stay(),
            old(self).arrived() <= final(self).arrived(),
            final(self).arrived() - old(self).arrived() <= old(self).horizon() - old(self).now(),
            final(self).queue().len() <= old(self).queue().len() + (final(self).arrived() - old(self).arrived()),
    {
        proof {
            old(self).lemma_bounds();
        }
        while self.clock < self.steps
            invariant
                self.wf(),
                self.horizon() == old(self).horizon(),
                self.capacity() == old(self).capacity(),
                self.max_stay() == old(self).max_stay(),
                old(self).arrived() <= self.arrived(),
                old(self).now() <= self.now(),
                self.arrived() - old(self).arrived() <= self.now() - old(self).now(),
                self.queue().len() <= old(self).queue().len() + (self.arrived() - old(self).arrived()),
                old(self).reaches(self, (self.now() - old(self).now()) as nat),
            decreases self.steps - self.clock,
        {
            let ghost before = *self;
            self.tick(rng);
            assert(before.wf() && before.ticked(self));
        }
    }

    /// The current tick.
    pub fn clock(&self) -> (clock: u32)
        ensures
            clock == self.now(),
    {
        self.clock
    }

    /// The number of cars that arrived so far: at most one per tick.
    pub fn arrivals(&self) -> (arrivals: usize)
        requires
            self.wf(),
        ensures
            arrivals == self.arrived(),
            arrivals <= self.now(),
    {
        self.arrivals
    }

    /// The number of parked cars, which never exceeds the capacity.
    pub fn occupancy(&self) -> (occupancy: usize)
        requires
            self.wf(),
        ensures
            occupancy == self.spots().len(),
            occupancy <= self.capacity(),
    {
        self.lot.get_occupancy()
    }

    /// The number of cars that arrived and found no spot so far. With a
    /// capacity of zero these are all the cars that arrived; with a capacity
    /// of at least the horizon, or of at least the longest stay, there are
    /// none.
    pub fn cars_left(&self) -> (left: usize)
        requires
            self.wf(),
        ensures
            left == self.queue().len(),
            left <= self.arrived(),
            self.capacity() == 0 ==> left == self.arrived(),
            self.capacity() >= self.horizon() ==> left == 0,
            self.capacity() >= self.max_stay() ==> left == 0,
    {
        self.incoming.len()
    }
}

} // verus!
