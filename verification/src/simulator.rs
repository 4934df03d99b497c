//! The tick-by-tick simulator with discrete or continuous departure timing.

use crate::departure_schedule::{
    lemma_spread_empty, lemma_spread_next, lemma_spread_without, spread, without_due,
};
use crate::parking_lot::{is_marked, kept, remove_marked, spots_at, valid_marks, ParkingLot, Spot};
use crate::probability::{Probability, Ratio, TICKS_PER_HOUR};
use crate::random_generator::{event_occurred, RandomSource, DRAW_RANGE};
use crate::triangular_distribution::{DistributionError, TriangularPdf, TriangularPdfSampler};
use vstd::multiset::Multiset;
use vstd::prelude::*;

verus! {

/// How departures are timed: by a per-tick probability, or by a duration
/// sampled when the car parks.
enum Pdf {
    Discrete(TriangularPdf),
    Continuous(TriangularPdfSampler),
}

/// A car that parked at `spot` has stayed no longer than `max_time` at
/// `clock`.
pub open spec fn within_stay(spot: Spot, clock: int, max_time: int) -> bool {
    spot <= clock && clock - spot <= max_time
}

/// One if the event occurred, else zero.
pub open spec fn count_of(occurred: bool) -> nat {
    if occurred {
        1
    } else {
        0
    }
}

/// The number of ticks for which a car with the sampled stay `stay` is
/// parked: at least one, since the departures of the tick in which it parks
/// are handled before it parks.
pub open spec fn parked_for(stay: u32) -> u32 {
    if stay == 0 {
        1
    } else {
        stay
    }
}

/// The number of ticks for which a car with the sampled stay `stay` is
/// parked.
pub fn parked_ticks(stay: u32) -> (ticks: u32)
    ensures
        ticks == parked_for(stay),
{
    if stay == 0 {
        1
    } else {
        stay
    }
}

/// A car that leaves at `spot` is still parked at `clock` and leaves less
/// than `max_time` ticks from then.
pub open spec fn leaves_in_time(spot: Spot, clock: int, max_time: int) -> bool {
    clock <= spot < clock + max_time
}

/// The cars parked at distinct ticks before `clock`: every spot lies before
/// `clock` and none occurs twice.
pub open spec fn parked_apart(spots: Seq<Spot>, clock: int) -> bool {
    &&& forall|i: int| 0 <= i < spots.len() ==> (#[trigger] spots[i]) < clock
    &&& forall|x: Spot| spots.to_multiset().count(x) <= 1
}

/// Values that occur at most once each and lie from `lo` up to but not
/// including `hi` are at most `hi - lo` in number.
pub proof fn lemma_distinct_in_range(m: Multiset<Spot>, lo: int, hi: int)
    requires
        lo <= hi,
        forall|x: Spot| m.count(x) > 0 ==> lo <= x < hi,
        forall|x: Spot| m.count(x) <= 1,
    ensures
        m.len() <= hi - lo,
    decreases hi - lo,
{
    broadcast use vstd::multiset::group_multiset_axioms;

    if lo == hi {
        assert forall|x: Spot| m.count(x) == 0 by {
            if m.count(x) > 0 {
                assert(lo <= x < hi);
            }
        }
        assert(m =~= Multiset::<Spot>::empty());
    } else {
        let top = hi - 1;
        if 0 <= top <= u32::MAX && m.count(top as u32) > 0 {
            let t = top as u32;
            let rest = m.remove(t);
            assert(Multiset::<Spot>::singleton(t).subset_of(m));
            assert forall|x: Spot| rest.count(x) > 0 implies lo <= x < hi - 1 by {
                assert(m.count(x) > 0);
            }
            assert forall|x: Spot| rest.count(x) <= 1 by {
                assert(m.count(x) <= 1);
            }
            lemma_distinct_in_range(rest, lo, hi - 1);
        } else {
            assert forall|x: Spot| m.count(x) > 0 implies lo <= x < hi - 1 by {
                assert(lo <= x < hi);
            }
            lemma_distinct_in_range(m, lo, hi - 1);
        }
    }
}

/// Once the cars that have stayed for the longest stay are removed from
/// cars parked at distinct ticks before `clock`, none longer ago than the
/// longest stay, the cars that remain parked at distinct ticks, each less
/// than the longest stay ago: they are fewer than the longest stay.
pub proof fn lemma_room_after_departures(
    before: Seq<Spot>,
    marked: Seq<usize>,
    remaining: Seq<Spot>,
    clock: int,
    max_time: int,
)
    requires
        max_time >= 1,
        parked_apart(before, clock),
        forall|i: int| 0 <= i < before.len() ==> within_stay(#[trigger] before[i], clock, max_time),
        forall|i: int|
            0 <= i < before.len() && clock - (#[trigger] before[i]) == max_time ==> is_marked(
                marked,
                i,
            ),
        remaining.to_multiset() == before.to_multiset().sub(spots_at(before, marked)),
        forall|k: int| 0 <= k < remaining.len() ==> kept(before, marked, #[trigger] remaining[k]),
    ensures
        remaining.len() < max_time,
        parked_apart(remaining, clock),
{
    broadcast use vstd::multiset::group_multiset_axioms;

    remaining.to_multiset_ensures();
    let m = remaining.to_multiset();
    assert forall|x: Spot| m.count(x) <= 1 by {
        assert(before.to_multiset().count(x) <= 1);
    }
    assert forall|x: Spot| m.count(x) > 0 implies clock - max_time + 1 <= x < clock by {
        assert(remaining.contains(x));
        let k = choose|k: int| 0 <= k < remaining.len() && remaining[k] == x;
        assert(kept(before, marked, remaining[k]));
        let i = choose|i: int|
            0 <= i < before.len() && !is_marked(marked, i) && before[i] == remaining[k];
        assert(within_stay(before[i], clock, max_time));
    }
    assert forall|k: int| 0 <= k < remaining.len() implies (#[trigger] remaining[k]) < clock by {
        assert(remaining.contains(remaining[k]));
        assert(m.count(remaining[k]) > 0);
    }
    lemma_distinct_in_range(m, clock - max_time + 1, clock);
}

/// A car parked now joins cars parked at distinct ticks before now: the
/// cars are parked at distinct ticks before the next tick.
pub proof fn lemma_parked_now(remaining: Seq<Spot>, clock: Spot)
    requires
        parked_apart(remaining, clock as int),
    ensures
        parked_apart(remaining.push(clock), clock + 1),
{
    broadcast use vstd::multiset::group_multiset_axioms;

    remaining.to_multiset_ensures();
    let lot = remaining.push(clock);
    assert forall|x: Spot| lot.to_multiset().count(x) <= 1 by {
        assert(remaining.to_multiset().count(x) <= 1);
        if x == clock && remaining.to_multiset().count(x) > 0 {
            assert(remaining.contains(x));
        }
    }
    assert forall|i: int| 0 <= i < lot.len() implies (#[trigger] lot[i]) < clock + 1 by {
        if i < remaining.len() {
            assert(lot[i] == remaining[i]);
        }
    }
}

/// Where every marked position holds `t`, the marked occupants are as many
/// copies of `t` as there are marks.
proof fn lemma_spots_at_all(lot: Seq<Spot>, marked: Seq<usize>, t: Spot)
    requires
        forall|j: int| 0 <= j < marked.len() ==> (#[trigger] marked[j]) < lot.len() && lot[marked[j] as int] == t,
    ensures
        spots_at(lot, marked).count(t) == marked.len(),
        forall|x: Spot| x != t ==> spots_at(lot, marked).count(x) == 0,
    decreases marked.len(),
{
    broadcast use vstd::multiset::group_multiset_axioms;

    if marked.len() > 0 {
        let rest = marked.drop_first();
        assert forall|j: int| 0 <= j < rest.len() implies (#[trigger] rest[j]) < lot.len()
            && lot[rest[j] as int] == t by {
            assert(rest[j] == marked[j + 1]);
        }
        lemma_spots_at_all(lot, rest, t);
        assert(lot[marked.first() as int] == t);
    }
}

/// Where exactly the positions that hold `t` are marked, there are as many
/// marks as `t` occurs in the lot.
proof fn lemma_marks_count(lot: Seq<Spot>, marked: Seq<usize>, t: Spot)
    requires
        valid_marks(marked, lot.len()),
        forall|i: int| 0 <= i < lot.len() ==> (is_marked(marked, i) <==> (#[trigger] lot[i]) == t),
    ensures
        lot.to_multiset().count(t) == marked.len(),
    decreases lot.len(),
{
    broadcast use vstd::multiset::group_multiset_axioms;

    lot.to_multiset_ensures();
    if lot.len() == 0 {
        if marked.len() > 0 {
            assert(marked[0] < 0);
        }
        assert(lot.to_multiset().len() == 0);
    } else {
        let n = lot.len() - 1;
        let front = lot.drop_last();
        assert(lot =~= front.push(lot.last()));
        front.to_multiset_ensures();
        assert(lot.to_multiset() =~= front.to_multiset().insert(lot.last()));
        if lot[n] == t {
            assert(is_marked(marked, n));
            let m = choose|m: int| 0 <= m < marked.len() && marked[m] == n;
            if m < marked.len() - 1 {
                assert(marked[m] < marked[marked.len() - 1]);
            }
            let rest = marked.drop_last();
            assert forall|j: int| 0 <= j < rest.len() implies (#[trigger] rest[j]) < front.len() by {
                assert(rest[j] == marked[j]);
                assert(marked[j] < marked[m]);
            }
            assert forall|i: int| 0 <= i < front.len() implies (is_marked(rest, i) <==> (
            #[trigger] front[i]) == t) by {
                assert(front[i] == lot[i]);
                if is_marked(rest, i) {
                    let k = choose|k: int| 0 <= k < rest.len() && rest[k] == i;
                    assert(marked[k] == i);
                }
                if is_marked(marked, i) {
                    let k = choose|k: int| 0 <= k < marked.len() && marked[k] == i;
                    assert(k != m);
                    assert(rest[k] == i);
                }
            }
            assert forall|j: int, k: int| 0 <= j < k < rest.len() implies rest[j] < rest[k] by {
                assert(rest[j] == marked[j] && rest[k] == marked[k]);
            }
            lemma_marks_count(front, rest, t);
        } else {
            assert forall|j: int| 0 <= j < marked.len() implies (#[trigger] marked[j]) < front.len() by {
                assert(is_marked(marked, marked[j] as int));
                if marked[j] == n {
                    assert(lot[n] == t);
                }
            }
            assert forall|i: int| 0 <= i < front.len() implies (is_marked(marked, i) <==> (
            #[trigger] front[i]) == t) by {
                assert(front[i] == lot[i]);
            }
            lemma_marks_count(front, marked, t);
        }
    }
}

/// Removing the occupants at the positions that hold `t`, where exactly
/// those are marked, leaves the lot without any `t`.
pub proof fn lemma_due_removed(lot: Seq<Spot>, marked: Seq<usize>, t: Spot)
    requires
        valid_marks(marked, lot.len()),
        forall|i: int| 0 <= i < lot.len() ==> (is_marked(marked, i) <==> (#[trigger] lot[i]) == t),
    ensures
        lot.to_multiset().sub(spots_at(lot, marked)) == without_due(lot.to_multiset(), t),
        lot.to_multiset().count(t) == marked.len(),
{
    broadcast use vstd::multiset::group_multiset_axioms;

    assert forall|j: int| 0 <= j < marked.len() implies (#[trigger] marked[j]) < lot.len()
        && lot[marked[j] as int] == t by {
        assert(is_marked(marked, marked[j] as int));
    }
    lemma_spots_at_all(lot, marked, t);
    lemma_marks_count(lot, marked, t);
    let left = lot.to_multiset().sub(spots_at(lot, marked));
    let right = lot.to_multiset().update(t, 0);
    assert forall|x: Spot| left.count(x) == right.count(x) by {
        if x == t {
            vstd::multiset::lemma_update_same(lot.to_multiset(), t, 0);
        } else {
            vstd::multiset::lemma_update_different(lot.to_multiset(), t, 0, x);
        }
    }
    assert(left =~= right);
}

/// The density of the stay duration at `x`, as numerator and denominator:
/// triangular between zero and `max_stay`, with its mode at half of
/// `max_stay`.
pub open spec fn stay_density(max_stay: int, x: int) -> (int, int) {
    let mode = max_stay / 2;
    if x < 0 {
        (0, 1)
    } else if x < mode {
        (2 * x, max_stay * mode)
    } else if x == mode {
        (2, max_stay)
    } else if x <= max_stay {
        (2 * (max_stay - x), max_stay * (max_stay - mode))
    } else {
        (0, 1)
    }
}

/// Simulates a lot one tick at a time. Each tick at most one car arrives,
/// cars due to leave are removed, and one queued car is admitted if a spot is
/// free.
pub struct Simulator<P: ParkingLot> {
    lot: P,
    clock: u32,
    steps: u32,
    max_time: u32,
    incoming: usize,
    arrivals: usize,
    pdf: Pdf,
    cars_per_second: Probability,
}

impl<P: ParkingLot> Simulator<P> {
    /// The occupants of the lot. In discrete mode a spot is the tick at
    /// which the car parked, in continuous mode the tick at which it leaves.
    pub closed spec fn spots(&self) -> Seq<Spot> {
        self.lot@
    }

    /// The capacity of the lot.
    pub closed spec fn capacity(&self) -> nat {
        self.lot.capacity()
    }

    /// The current tick.
    pub closed spec fn now(&self) -> nat {
        self.clock as nat
    }

    /// The tick at which the simulation ends.
    pub closed spec fn horizon(&self) -> nat {
        self.steps as nat
    }

    /// The longest stay.
    pub closed spec fn max_stay(&self) -> nat {
        self.max_time as nat
    }

    /// The number of cars that arrived and have not parked.
    pub closed spec fn queued(&self) -> nat {
        self.incoming as nat
    }

    /// The number of cars that arrived so far.
    pub closed spec fn arrived(&self) -> nat {
        self.arrivals as nat
    }

    /// Whether departures are timed by a sampled duration.
    pub closed spec fn continuous(&self) -> bool {
        self.pdf is Continuous
    }

    /// The probability that a car arrives in a tick.
    pub closed spec fn arrival_probability(&self) -> Probability {
        self.cars_per_second
    }

    /// The sampler of stay durations, in continuous mode.
    pub closed spec fn sampler(&self) -> TriangularPdfSampler {
        match self.pdf {
            Pdf::Continuous(s) => s,
            Pdf::Discrete(_) => arbitrary(),
        }
    }

    /// The simulator's invariant. It holds between ticks.
    pub closed spec fn wf(&self) -> bool {
        &&& self.lot.wf()
        &&& self.clock <= self.steps
        &&& self.pdf is Continuous ==> self.steps + self.max_time <= u32::MAX
        &&& self.cars_per_second.wf()
        &&& match self.pdf {
            Pdf::Discrete(d) => d.wf() && d.a() == 0 && d.c() == self.max_time / 2 && d.b()
                == self.max_time,
            Pdf::Continuous(s) => s.wf() && s.a() == 0 && s.c() == self.max_time / 2 && s.b()
                == self.max_time,
        }
        &&& self.arrivals <= self.clock
        &&& self.lot@.len() + self.incoming <= self.arrivals
        &&& self.lot.capacity() == 0 ==> self.incoming == self.arrivals
        &&& self.lot.capacity() >= self.steps ==> self.incoming == 0
        &&& self.pdf is Discrete ==> forall|i: int|
            0 <= i < self.lot@.len() ==> within_stay(
                #[trigger] self.lot@[i],
                self.clock as int,
                self.max_time as int,
            )
        &&& self.pdf is Continuous ==> forall|i: int|
            0 <= i < self.lot@.len() ==> leaves_in_time(
                #[trigger] self.lot@[i],
                self.clock as int,
                self.max_time as int,
            )
        &&& self.pdf is Discrete ==> parked_apart(self.lot@, self.clock as int)
        &&& self.pdf is Continuous ==> spread(
            self.lot@.to_multiset(),
            self.clock as int,
            self.max_time as int,
        )
        &&& self.lot.capacity() >= self.max_time ==> self.incoming == 0
    }

    /// Whether a queued car is admitted in a tick in which a car `arrived`
    /// or not and `departures` cars left: a car waits and a spot is free.
    pub open spec fn admits(&self, arrived: bool, departures: nat) -> bool {
        self.queued() + count_of(arrived) > 0 && self.spots().len() - departures < self.capacity()
    }

    /// The spot recorded for a car admitted now with the sampled stay
    /// `stay`: in continuous mode the tick at which it leaves, at least one
    /// tick from now, and in discrete mode the current tick.
    pub open spec fn stamp(&self, stay: u32) -> Spot {
        if self.continuous() {
            (self.now() + parked_for(stay)) as u32
        } else {
            self.now() as u32
        }
    }

    /// The multiset of occupants after a tick in which a car `arrived` or
    /// not, the cars at the `marked` positions left, and a car admitted
    /// stays for `stay` ticks.
    pub open spec fn spots_after(&self, arrived: bool, marked: Seq<usize>, stay: u32) -> Multiset<
        Spot,
    > {
        let remaining = self.spots().to_multiset().sub(spots_at(self.spots(), marked));
        if self.admits(arrived, marked.len()) {
            remaining.insert(self.stamp(stay))
        } else {
            remaining
        }
    }

    /// In discrete mode a car that has stayed for the longest stay must
    /// leave: its position is marked.
    pub open spec fn marks_forced(&self, marked: Seq<usize>) -> bool {
        !self.continuous() ==> forall|i: int|
            0 <= i < self.spots().len() && self.now() - (#[trigger] self.spots()[i])
                == self.max_stay() ==> is_marked(marked, i)
    }

    /// In discrete mode each car leaves by an event whose probability is the
    /// density at its duration: a car that is marked has stayed for the
    /// longest stay or has a density above zero, and a car whose density is
    /// one or more is marked.
    pub open spec fn marks_possible(&self, marked: Seq<usize>) -> bool {
        !self.continuous() ==> forall|i: int|
            0 <= i < self.spots().len() ==> {
                let duration = self.now() - (#[trigger] self.spots()[i]);
                let density = stay_density(self.max_stay() as int, duration);
                &&& is_marked(marked, i) ==> duration == self.max_stay() || density.0 > 0
                &&& density.0 >= density.1 ==> is_marked(marked, i)
            }
    }

    /// A car arrives by an event of the arrival probability: whether one
    /// `arrived` is what some draw decides.
    pub open spec fn arrival_possible(&self, arrived: bool) -> bool {
        exists|draw: u32|
            draw < DRAW_RANGE && arrived == #[trigger] self.arrival_probability().covers_spec(draw)
    }

    /// In continuous mode the stay of an admitted car is the sample of some
    /// draw.
    pub open spec fn stay_possible(&self, stay: u32) -> bool {
        self.continuous() ==> exists|draw: int|
            0 <= draw < DRAW_RANGE && #[trigger] self.sampler().is_sample(draw, stay as int)
    }

    /// In continuous mode the cars whose spot is the current tick leave, and
    /// no others: exactly their positions are marked.
    pub open spec fn marks_due(&self, marked: Seq<usize>) -> bool {
        self.continuous() ==> forall|i: int|
            0 <= i < self.spots().len() ==> (is_marked(marked, i) <==> (#[trigger] self.spots()[i])
                == self.now())
    }

    /// `next` is the state one tick after this one, given the tick's events:
    /// a car `arrived` or not, the cars at the `marked` positions left, and a
    /// car admitted stays for `stay` ticks.
    pub open spec fn advanced(&self, next: &Self, arrived: bool, marked: Seq<usize>, stay: u32) -> bool {
        &&& next.now() == self.now() + 1
        &&& next.horizon() == self.horizon()
        &&& next.capacity() == self.capacity()
        &&& next.max_stay() == self.max_stay()
        &&& next.continuous() == self.continuous()
        &&& next.arrival_probability() == self.arrival_probability()
        &&& next.sampler() == self.sampler()
        &&& next.arrived() == self.arrived() + count_of(arrived)
        &&& next.queued() == self.queued() + count_of(arrived) - count_of(
            self.admits(arrived, marked.len()),
        )
        &&& next.spots().to_multiset() == self.spots_after(arrived, marked, stay)
    }

    /// `next` is the state one tick after this one, for some events that
    /// can occur in the tick: an arrival that some draw decides; departures
    /// that in discrete mode include the forced ones and are possible for
    /// the densities, and in continuous mode are the due ones; and for a car
    /// admitted in continuous mode, a stay that some draw samples.
    pub open spec fn ticked(&self, next: &Self) -> bool {
        exists|arrived: bool, marked: Seq<usize>, stay: u32|
            {
                &&& self.arrival_possible(arrived)
                &&& valid_marks(marked, self.spots().len())
                &&& self.marks_forced(marked)
                &&& self.marks_possible(marked)
                &&& self.marks_due(marked)
                &&& stay <= self.max_stay()
                &&& self.admits(arrived, marked.len()) ==> self.stay_possible(stay)
                &&& #[trigger] self.advanced(next, arrived, marked, stay)
            }
    }

    /// `next` is reached from this state by `ticks` ticks, each between
    /// well-formed states.
    pub open spec fn reaches(&self, next: &Self, ticks: nat) -> bool
        decreases ticks,
    {
        if ticks == 0 {
            *next == *self
        } else {
            exists|mid: Self|
                mid.wf() && #[trigger] mid.ticked(next) && self.reaches(&mid, (ticks - 1) as nat)
        }
    }

    /// The clock, the horizon and the longest stay are timestamps.
    pub proof fn lemma_in_range(&self)
        ensures
            self.now() <= u32::MAX,
            self.horizon() <= u32::MAX,
            self.max_stay() <= u32::MAX,
    {
    }

    /// Between ticks the lot holds no more cars than its capacity, every
    /// parked or queued car has arrived, at most one car arrived per tick,
    /// and no car is parked beyond the longest stay: in discrete mode every
    /// car parked at most that long ago, and in continuous mode every car
    /// leaves at a tick still to come, less than the longest stay from now.
    pub proof fn lemma_bounds(&self)
        requires
            self.wf(),
        ensures
            self.spots().len() <= self.capacity(),
            self.spots().len() + self.queued() <= self.arrived(),
            self.arrived() <= self.now() <= self.horizon(),
            self.continuous() ==> self.horizon() + self.max_stay() <= u32::MAX,
            self.continuous() ==> self.sampler().wf() && self.sampler().a() == 0
                && self.sampler().c() == self.max_stay() / 2 && self.sampler().b()
                == self.max_stay(),
            self.max_stay() >= 2,
            self.horizon() <= u32::MAX,
            self.capacity() == 0 ==> self.queued() == self.arrived(),
            self.capacity() >= self.horizon() ==> self.queued() == 0,
            self.capacity() >= self.max_stay() ==> self.queued() == 0,
            !self.continuous() ==> parked_apart(self.spots(), self.now() as int),
            !self.continuous() ==> forall|i: int|
                0 <= i < self.spots().len() ==> within_stay(
                    #[trigger] self.spots()[i],
                    self.now() as int,
                    self.max_stay() as int,
                ),
            self.continuous() ==> forall|i: int|
                0 <= i < self.spots().len() ==> leaves_in_time(
                    #[trigger] self.spots()[i],
                    self.now() as int,
                    self.max_stay() as int,
                ),
    {
        self.lot.lemma_within_capacity();
        match self.pdf {
            Pdf::Discrete(d) => {
                d.lemma_ordered();
            },
            Pdf::Continuous(s) => {
                s.lemma_ordered();
            },
        }
    }

    /// The simulator is at tick zero, well-formed, with an empty lot of the
    /// given capacity and nothing queued, and set up as the parameters say.
    pub open spec fn fresh(
        &self,
        capacity: nat,
        max_time: u32,
        steps: u32,
        cars_per_hour: Ratio,
        continuous: bool,
        skew: bool,
    ) -> bool {
        &&& self.wf()
        &&& self.spots() == Seq::<Spot>::empty()
        &&& self.capacity() == capacity
        &&& self.now() == 0
        &&& self.horizon() == steps
        &&& self.max_stay() == max_time
        &&& self.queued() == 0
        &&& self.arrived() == 0
        &&& self.continuous() == continuous
        &&& continuous ==> self.sampler().skew() == skew
        &&& self.arrival_probability().num() == cars_per_hour.num()
        &&& self.arrival_probability().den() == cars_per_hour.den() * TICKS_PER_HOUR
    }

    /// A simulator at tick zero with nothing queued, for a stay duration
    /// distributed between zero and `max_time` around `max_time / 2`. The
    /// distribution is malformed when `max_time` is below two.
    pub fn new(
        lot: P,
        max_time: u32,
        steps: u32,
        cars_per_hour: Ratio,
        continuous: bool,
        skew: bool,
    ) -> (r: Result<Self, DistributionError>)
        requires
            lot.wf(),
            lot@.len() == 0,
            continuous ==> steps + max_time <= u32::MAX,
        ensures
            r.is_ok() <==> max_time >= 2,
            r matches Ok(sim) ==> sim.fresh(
                lot.capacity(),
                max_time,
                steps,
                cars_per_hour,
                continuous,
                skew,
            ),
            r matches Err(e) ==> e == DistributionError::MalformedParameters,
    {
        let pdf = if continuous {
            match TriangularPdfSampler::new(0, max_time / 2, max_time, skew) {
                Ok(sampler) => Pdf::Continuous(sampler),
                Err(e) => {
                    return Err(e);
                },
            }
        } else {
            match TriangularPdf::new(0, max_time / 2, max_time) {
                Ok(density) => Pdf::Discrete(density),
                Err(e) => {
                    return Err(e);
                },
            }
        };
        proof {
            assert(lot@ =~= Seq::<Spot>::empty());
            lot@.to_multiset_ensures();
            assert forall|x: Spot| lot@.to_multiset().count(x) <= 1 by {
                vstd::multiset::axiom_count_le_len(lot@.to_multiset(), x);
            }
            assert(lot@.to_multiset() =~= Multiset::<Spot>::empty()) by {
                vstd::multiset::lemma_multiset_empty_len(lot@.to_multiset());
            }
            lemma_spread_empty(0, max_time as int);
        }
        Ok(
            Self {
                lot,
                steps,
                max_time,
                clock: 0,
                incoming: 0,
                arrivals: 0,
                pdf,
                cars_per_second: Probability::per_second(&cars_per_hour),
            },
        )
    }

    /// Marks the positions of the cars that leave in this tick. In
    /// continuous mode these are the cars whose spot is the current tick. In
    /// discrete mode a car that has stayed for the longest stay leaves, and
    /// each other car leaves if an event with the density at its duration as
    /// probability occurs.
    pub fn scan_departures(&self, rng: &mut RandomSource) -> (marked: Vec<usize>)
        requires
            self.wf(),
        ensures
            valid_marks(marked@, self.spots().len()),
            marked@.len() <= self.spots().len(),
            self.marks_forced(marked@),
            self.marks_possible(marked@),
            self.marks_due(marked@),
    {
        let spots = self.lot.iter();
        let mut marked: Vec<usize> = Vec::new();
        let mut i: usize = 0;
        while i < spots.len()
            invariant
                self.wf(),
                spots@ == self.lot@,
                i <= spots@.len(),
                valid_marks(marked@, i as nat),
                marked@.len() <= i,
                !self.continuous() ==> forall|k: int|
                    0 <= k < i && self.now() - (#[trigger] self.spots()[k]) == self.max_stay()
                        ==> is_marked(marked@, k),
                !self.continuous() ==> forall|k: int|
                    0 <= k < i ==> {
                        let duration = self.now() - (#[trigger] self.spots()[k]);
                        let density = stay_density(self.max_stay() as int, duration);
                        &&& is_marked(marked@, k) ==> duration == self.max_stay() || density.0 > 0
                        &&& density.0 >= density.1 ==> is_marked(marked@, k)
                    },
                self.continuous() ==> forall|k: int|
                    0 <= k < i ==> (is_marked(marked@, k) <==> (#[trigger] self.spots()[k])
                        == self.now()),
            decreases spots@.len() - i,
        {
            let leave_time: Spot = spots[i];
            let car_leaves = match &self.pdf {
                Pdf::Discrete(pdf) => {
                    assert(within_stay(self.lot@[i as int], self.clock as int, self.max_time as int));
                    let duration: u32 = self.clock - leave_time;
                    if duration == self.max_time {
                        true
                    } else {
                        assert(pdf.density(duration as int) == stay_density(
                            self.max_time as int,
                            duration as int,
                        ));
                        event_occurred(rng, &pdf.pdf(duration))
                    }
                },
                Pdf::Continuous(_) => self.clock == leave_time,
            };
            let ghost before = marked@;
            if car_leaves {
                marked.push(i);
                proof {
                    assert(marked@[before.len() as int] == i);
                    assert forall|k: int| 0 <= k < i && is_marked(before, k) implies is_marked(
                        marked@,
                        k,
                    ) by {
                        let m = choose|m: int| 0 <= m < before.len() && before[m] == k;
                        assert(marked@[m] == k);
                    }
                    assert forall|k: int| 0 <= k < i && is_marked(marked@, k) implies is_marked(
                        before,
                        k,
                    ) by {
                        let m = choose|m: int| 0 <= m < marked@.len() && marked@[m] == k;
                        assert(before[m] == k);
                    }
                }
            } else {
                proof {
                    if is_marked(marked@, i as int) {
                        let m = choose|m: int| 0 <= m < marked@.len() && marked@[m] == i;
                        assert(marked@[m] < i);
                    }
                }
            }
            i += 1;
        }
        marked
    }

    /// Whether a queued car is admitted in the current tick, given whether a
    /// car arrived in it and how many cars leave in it.
    pub fn admits_after(&self, arrived: bool, departures: usize) -> (admitted: bool)
        requires
            self.wf(),
            departures <= self.spots().len(),
        ensures
            admitted == self.admits(arrived, departures as nat),
    {
        proof {
            self.lot.lemma_within_capacity();
        }
        let waiting: bool = arrived || self.incoming != 0;
        waiting && (departures > 0 || self.lot.can_park())
    }

    /// Carries out one tick whose events are given: a car `arrived` or not,
    /// the cars at the `marked` positions leave, and a car admitted in this
    /// tick has the sampled stay `stay`. The arrival joins the queue, the
    /// marked cars are removed, one queued car parks if a spot is free, and
    /// the clock moves on by one. In continuous mode the marked cars are
    /// those due now, and the admitted car leaves `stay` ticks from now and
    /// at least one.
    pub fn advance(&mut self, arrived: bool, marked: &Vec<usize>, stay: u32)
        requires
            old(self).wf(),
            old(self).now() < old(self).horizon(),
            valid_marks(marked@, old(self).spots().len()),
            old(self).marks_forced(marked@),
            old(self).marks_due(marked@),
            stay <= old(self).max_stay(),
        ensures
            final(self).wf(),
            old(self).advanced(final(self), arrived, marked@, stay),
    {
        proof {
            self.lemma_bounds();
        }
        if arrived {
            self.incoming += 1;
            self.arrivals += 1;
        }
        remove_marked(&mut self.lot, marked);
        let ghost remaining = self.lot@;
        proof {
            if self.pdf is Discrete {
                lemma_room_after_departures(
                    old(self).lot@,
                    marked@,
                    remaining,
                    self.clock as int,
                    self.max_time as int,
                );
            } else {
                let before = old(self).lot@.to_multiset();
                lemma_due_removed(old(self).lot@, marked@, self.clock);
                lemma_spread_without(before, self.clock as int, self.max_time as int, self.clock);
                remaining.to_multiset_ensures();
                assert forall|x: Spot| remaining.to_multiset().count(x) > 0 implies x
                    >= self.clock + 1 by {
                    assert(remaining.contains(x));
                    let k = choose|k: int| 0 <= k < remaining.len() && remaining[k] == x;
                    assert(kept(old(self).lot@, marked@, remaining[k]));
                    let i = choose|i: int|
                        0 <= i < old(self).lot@.len() && !is_marked(marked@, i) && old(
                            self,
                        ).lot@[i] == remaining[k];
                    assert(leaves_in_time(
                        old(self).spots()[i],
                        self.clock as int,
                        self.max_time as int,
                    ));
                }
                lemma_spread_next(
                    remaining.to_multiset(),
                    self.clock as int,
                    self.max_time as int,
                    parked_for(stay) as int,
                );
            }
            assert forall|k: int| 0 <= k < remaining.len() implies if self.pdf is Discrete {
                within_stay(#[trigger] remaining[k], self.clock + 1, self.max_time as int)
            } else {
                leaves_in_time(remaining[k], self.clock + 1, self.max_time as int)
            } by {
                assert(kept(old(self).lot@, marked@, remaining[k]));
                let i = choose|i: int|
                    0 <= i < old(self).lot@.len() && !is_marked(marked@, i) && old(self).lot@[i]
                        == remaining[k];
                if self.pdf is Discrete {
                    assert(within_stay(
                        old(self).spots()[i],
                        self.clock as int,
                        self.max_time as int,
                    ));
                } else {
                    assert(leaves_in_time(
                        old(self).spots()[i],
                        self.clock as int,
                        self.max_time as int,
                    ));
                }
            }
        }
        if self.incoming != 0 && self.lot.can_park() {
            let stamp: u32 = match &self.pdf {
                Pdf::Continuous(_) => self.clock + parked_ticks(stay),
                Pdf::Discrete(_) => self.clock,
            };
            let _ = self.lot.try_park(stamp);
            self.incoming -= 1;
            proof {
                remaining.to_multiset_ensures();
                assert(self.lot@ == remaining.push(stamp));
                if self.pdf is Discrete {
                    lemma_parked_now(remaining, self.clock);
                }
                assert forall|k: int| 0 <= k < self.lot@.len() implies if self.pdf is Discrete {
                    within_stay(#[trigger] self.lot@[k], self.clock + 1, self.max_time as int)
                } else {
                    leaves_in_time(self.lot@[k], self.clock + 1, self.max_time as int)
                } by {
                    if k < remaining.len() {
                        assert(self.lot@[k] == remaining[k]);
                    }
                }
            }
        }
        self.clock += 1;
    }

    /// Carries out one tick with events drawn from `rng`: the arrival by an
    /// event of the per-tick arrival probability, the departures as
    /// `scan_departures` marks them, and the stay of an admitted car by the
    /// sampler. Whatever is drawn, the tick is one that `advance` carries out
    /// for some events.
    pub fn tick(&mut self, rng: &mut RandomSource)
        requires
            old(self).wf(),
            old(self).now() < old(self).horizon(),
        ensures
            final(self).wf(),
            old(self).ticked(final(self)),
            final(self).now() == old(self).now() + 1,
            final(self).horizon() == old(self).horizon(),
            final(self).capacity() == old(self).capacity(),
            final(self).max_stay() == old(self).max_stay(),
            final(self).continuous() == old(self).continuous(),
            old(self).arrived() <= final(self).arrived() <= old(self).arrived() + 1,
            final(self).queued() <= old(self).queued() + (final(self).arrived() - old(self).arrived()),
    {
        let arrived: bool = event_occurred(rng, &self.cars_per_second);
        proof {
            let draw = choose|draw: u32|
                draw < DRAW_RANGE && arrived == #[trigger] self.cars_per_second.covers_spec(draw);
            assert(arrived == self.arrival_probability().covers_spec(draw));
        }
        let marked: Vec<usize> = self.scan_departures(rng);
        let mut stay: u32 = 0;
        if self.admits_after(arrived, marked.len()) {
            match &self.pdf {
                Pdf::Continuous(sampler) => {
                    stay = sampler.sample(rng);
                    assert(*sampler == self.sampler());
                    assert(self.stay_possible(stay));
                },
                Pdf::Discrete(_) => {},
            }
        }
        self.advance(arrived, &marked, stay);
        assert(old(self).advanced(self, arrived, marked@, stay));
    }

    /// Runs the simulation to its horizon, tick by tick: the state at the
    /// end is reached by as many ticks as were left.
    pub fn simulate(&mut self, rng: &mut RandomSource)
        requires
            old(self).wf(),
        ensures
            final(self).wf(),
            old(self).reaches(final(self), (old(self).horizon() - old(self).now()) as nat),
            final(self).now() == final(self).horizon(),
            final(self).horizon() == old(self).horizon(),
            final(self).capacity() == old(self).capacity(),
            final(self).max_stay() == old(self).max_stay(),
            final(self).continuous() == old(self).continuous(),
            old(self).arrived() <= final(self).arrived(),
            final(self).arrived() - old(self).arrived() <= old(self).horizon() - old(self).now(),
            final(self).queued() <= old(self).queued() + (final(self).arrived() - old(self).arrived()),
    {
        proof {
            old(self).lemma_bounds();
        }
        while self.clock < self.steps
            invariant
                self.wf(),
                self.horizon() == old(self).horizon(),
                self.capacity() == old(self).capacity(),
                self.max_stay() == old(self).max_stay(),
                self.continuous() == old(self).continuous(),
                old(self).arrived() <= self.arrived(),
                old(self).now() <= self.now(),
                self.arrived() - old(self).arrived() <= self.now() - old(self).now(),
                self.queued() <= old(self).queued() + (self.arrived() - old(self).arrived()),
                old(self).reaches(self, (self.now() - old(self).now()) as nat),
            decreases self.steps - self.clock,
        {
            let ghost before = *self;
            self.tick(rng);
            assert(before.wf() && before.ticked(self));
        }
    }

    /// The current tick.
    pub fn clock(&self) -> (clock: u32)
        ensures
            clock == self.now(),
    {
        self.clock
    }

    /// The number of cars that arrived so far: at most one per tick.
    pub fn arrivals(&self) -> (arrivals: usize)
        requires
            self.wf(),
        ensures
            arrivals == self.arrived(),
            arrivals <= self.now(),
    {
        self.arrivals
    }

    /// The number of parked cars, which never exceeds the capacity.
    pub fn occupancy(&self) -> (occupancy: usize)
        requires
            self.wf(),
        ensures
            occupancy == self.spots().len(),
            occupancy <= self.capacity(),
    {
        self.lot.get_occupancy()
    }

    /// The number of cars that arrived and found no spot so far. With a
    /// capacity of zero these are all the cars that arrived; with a capacity
    /// of at least the horizon, or of at least the longest stay, there are
    /// none.
    pub fn cars_left(&self) -> (left: usize)
        requires
            self.wf(),
        ensures
            left == self.queued(),
            left <= self.arrived(),
            self.capacity() == 0 ==> left == self.arrived(),
            self.capacity() >= self.horizon() ==> left == 0,
            self.capacity() >= self.max_stay() ==> left == 0,
    {
        self.incoming
    }
}

} // verus!
