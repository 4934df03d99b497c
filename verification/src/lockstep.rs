//! The strategies against one another: given the same events, they move in
//! step.
//!
//! The faithful simulator and the tick-by-tick simulator with discrete
//! timing agree tick by tick. With continuous timing the tick-by-tick
//! simulator agrees tick by tick with the simulator that schedules
//! departures, and over a whole run with the simulator that jumps between
//! events.

use crate::continuous_simulator::ContinuousHeapSimulator;
use crate::departure_schedule::{earliest, lemma_earliest, lemma_without_due, none_before};
use crate::event_simulator::EventSimulator;
use crate::faithful::FaithfulSimulator;
use crate::parking_lot::{is_marked, spots_at, valid_marks, ParkingLot};
use crate::probability::Ratio;
use crate::simulator::{lemma_due_removed, Simulator};
use vstd::prelude::*;

verus! {

/// The tick simulator `s` with discrete timing and the faithful simulator
/// `f` are in step: they are at the same tick and hold the same cars, as
/// many queued cars and the same count of arrivals.
pub open spec fn in_step_discrete<P: ParkingLot, Q: ParkingLot>(
    s: &Simulator<P>,
    f: &FaithfulSimulator<Q>,
) -> bool {
    &&& !s.continuous()
    &&& s.now() == f.now()
    &&& s.horizon() == f.horizon()
    &&& s.capacity() == f.capacity()
    &&& s.max_stay() == f.max_stay()
    &&& s.queued() == f.queue().len()
    &&& s.arrived() == f.arrived()
    &&& s.spots().to_multiset() == f.spots().to_multiset()
}

/// A tick with the same arrival and the departure of the same cars keeps
/// the tick simulator with discrete timing and the faithful simulator in
/// step.
pub proof fn lemma_discrete_tick_keeps_step<P: ParkingLot, Q: ParkingLot>(
    s: &Simulator<P>,
    next: &Simulator<P>,
    f: &FaithfulSimulator<Q>,
    after: &FaithfulSimulator<Q>,
    arrived: bool,
    marked: Seq<usize>,
    given: Seq<usize>,
    stay: u32,
)
    requires
        in_step_discrete(s, f),
        marked.len() == given.len(),
        spots_at(s.spots(), marked) == spots_at(f.spots(), given),
        s.advanced(next, arrived, marked, stay),
        f.advanced(after, arrived, given),
    ensures
        in_step_discrete(next, after),
{
    s.spots().to_multiset_ensures();
    f.spots().to_multiset_ensures();
}

/// The tick simulator `s` with continuous timing and the simulator `h` that
/// schedules departures are in step: they are at the same tick and hold the
/// same departure times, the same queue and the same count of arrivals.
pub open spec fn in_step_scheduled<P: ParkingLot>(
    s: &Simulator<P>,
    h: &ContinuousHeapSimulator,
) -> bool {
    &&& s.continuous()
    &&& s.now() == h.now()
    &&& s.horizon() == h.horizon()
    &&& s.capacity() == h.capacity()
    &&& s.max_stay() == h.max_stay()
    &&& s.queued() == h.queued()
    &&& s.arrived() == h.arrived()
    &&& s.spots().to_multiset() == h.schedule()
}

/// A tick with the same arrival, in which the tick simulator removes the
/// cars that are due and an admitted car gets the same stay, keeps the tick
/// simulator with continuous timing and the simulator that schedules
/// departures in step.
pub proof fn lemma_scheduled_tick_keeps_step<P: ParkingLot>(
    s: &Simulator<P>,
    next: &Simulator<P>,
    h: &ContinuousHeapSimulator,
    after: &ContinuousHeapSimulator,
    arrived: bool,
    marked: Seq<usize>,
    stay: u32,
)
    requires
        in_step_scheduled(s, h),
        valid_marks(marked, s.spots().len()),
        s.marks_due(marked),
        s.advanced(next, arrived, marked, stay),
        h.advanced(after, arrived, stay),
    ensures
        in_step_scheduled(next, after),
{
    broadcast use vstd::multiset::group_multiset_axioms;

    h.lemma_in_range();
    let now = h.now() as u32;
    s.spots().to_multiset_ensures();
    next.spots().to_multiset_ensures();
    lemma_due_removed(s.spots(), marked, now);
    lemma_without_due(h.schedule(), now);
}

/// A car arrives at `tick` by the arrival times `times`.
pub open spec fn arrives_at(times: Seq<u32>, tick: nat) -> bool {
    exists|i: int| 0 <= i < times.len() && #[trigger] times[i] == tick
}

/// The tick simulator `s`, about to carry out tick `tick`, and the event
/// simulator `e`, which has handled every event before `tick` and none from
/// `tick` on, are in step: they hold the same queue, the same departure
/// times and the same count of arrivals.
pub open spec fn in_step<P: ParkingLot>(s: &Simulator<P>, e: &EventSimulator, tick: nat) -> bool {
    &&& s.continuous()
    &&& s.now() == tick
    &&& s.horizon() == e.horizon()
    &&& s.capacity() == e.capacity()
    &&& s.max_stay() == e.max_stay()
    &&& s.queued() == e.queued()
    &&& s.arrived() == e.arrived()
    &&& s.spots().to_multiset() == e.schedule()
    &&& none_before(e.schedule(), tick as int)
    &&& forall|i: int| 0 <= i < e.arrived() ==> (#[trigger] e.arrival_times()[i]) < tick
    &&& e.arrivals_from(tick as int)
    &&& e.admits() ==> e.now() + 1 == tick
}

/// Fresh simulators for the same lot are in step at tick zero.
pub proof fn lemma_fresh_in_step<P: ParkingLot>(
    s: &Simulator<P>,
    e: &EventSimulator,
    capacity: nat,
    max_time: u32,
    steps: u32,
    cars_per_hour: Ratio,
    skew: bool,
    arrivals: Seq<u32>,
)
    requires
        s.fresh(capacity, max_time, steps, cars_per_hour, true, skew),
        e.fresh(capacity, max_time, steps, skew, arrivals),
    ensures
        in_step(s, e, 0),
{
    broadcast use vstd::multiset::group_multiset_axioms;

    s.spots().to_multiset_ensures();
    assert(s.spots().to_multiset() =~= e.schedule());
}

/// What the next jump of an event simulator in step is: it does not lie
/// before the tick, an arrival falls on it exactly if the arrival times give
/// one for it, and a departure exactly if the schedule holds one for it.
proof fn lemma_next_jump<P: ParkingLot>(s: &Simulator<P>, e: &EventSimulator, tick: nat)
    requires
        e.wf(),
        in_step(s, e, tick),
    ensures
        e.admits() ==> e.next_jump() is Some,
        e.next_jump() matches Some((time, has_arrival, has_departure)) ==> {
            &&& time >= tick
            &&& e.admits() ==> time == tick
            &&& has_arrival <==> arrives_at(e.arrival_times(), time as nat)
            &&& has_departure <==> e.schedule().count(time) > 0
        },
        e.next_jump() is None ==> e.arrived() == e.arrival_times().len() && e.schedule().len()
            == 0,
{
    broadcast use vstd::multiset::group_multiset_axioms;

    e.lemma_bounds();
    e.lemma_in_range();
    let schedule = e.schedule();
    let times = e.arrival_times();
    if e.next_arrival() is Some {
        assert(times[e.arrived() as int] >= tick);
    }
    if earliest(schedule) is Some {
        assert(schedule.len() > 0);
        assert(schedule.count(earliest(schedule).unwrap()) > 0);
    }
    if e.next_jump() is Some {
        let time = e.next_jump().unwrap().0;
        let has_arrival = e.next_jump().unwrap().1;
        let has_departure = e.next_jump().unwrap().2;
        assert(has_arrival <==> e.next_arrival() == Some(time));
        assert(e.next_arrival() == Some(time) <==> arrives_at(times, time as nat)) by {
            if arrives_at(times, time as nat) {
                let i = choose|i: int| 0 <= i < times.len() && #[trigger] times[i] == time;
                if i > e.arrived() {
                    assert(times[e.arrived() as int] < times[i]);
                }
                assert(i == e.arrived());
            }
            if e.next_arrival() == Some(time) {
                assert(times[e.arrived() as int] == time);
            }
        }
        assert(has_departure <==> earliest(schedule) == Some(time));
        assert(earliest(schedule) == Some(time) <==> schedule.count(time) > 0) by {
            if schedule.count(time) > 0 {
                lemma_earliest(schedule, time);
            }
        }
    }
}

/// A tick before the horizon on which no event of the event simulator
/// falls, in which the tick simulator sees the arrival that the arrival
/// times give and removes the cars that are due, changes nothing but the
/// clock: the two stay in step.
pub proof fn lemma_idle_tick_keeps_step<P: ParkingLot>(
    s: &Simulator<P>,
    next: &Simulator<P>,
    e: &EventSimulator,
    tick: nat,
    marked: Seq<usize>,
    stay: u32,
)
    requires
        e.wf(),
        in_step(s, e, tick),
        tick < e.horizon(),
        e.jump_target() matches Some((time, has_arrival, has_departure)) ==> tick < time,
        valid_marks(marked, s.spots().len()),
        s.marks_due(marked),
        s.advanced(next, arrives_at(e.arrival_times(), tick), marked, stay),
    ensures
        in_step(next, e, tick + 1),
        next.queued() == s.queued(),
{
    broadcast use vstd::multiset::group_multiset_axioms;

    e.lemma_bounds();
    lemma_next_jump(s, e, tick);
    let schedule = e.schedule();
    let times = e.arrival_times();
    s.spots().to_multiset_ensures();
    assert(!e.admits());
    // No departure falls on the tick.
    assert forall|x: u32| schedule.count(x) > 0 implies x > tick by {
        if x == tick {
            lemma_earliest(schedule, x);
        }
    }
    if marked.len() > 0 {
        let v = s.spots()[marked[0] as int];
        assert(is_marked(marked, marked[0] as int));
        assert(v == tick);
        assert(s.spots().contains(v));
        assert(schedule.count(v) > 0);
    }
    // No arrival falls on the tick.
    if arrives_at(times, tick) {
        let i = choose|i: int| 0 <= i < times.len() && #[trigger] times[i] == tick;
        if i >= e.arrived() {
            if e.arrived() < i {
                assert(times[e.arrived() as int] < times[i]);
            }
            assert(times[e.arrived() as int] <= tick);
        }
    }
    assert forall|i: int| e.arrived() <= i < times.len() implies (#[trigger] times[i]) >= tick
        + 1 by {
        assert(times[i] >= tick);
        if times[i] == tick {
            assert(arrives_at(times, tick));
        }
    }
    assert(marked =~= Seq::<usize>::empty());
    assert(s.spots().to_multiset().sub(spots_at(s.spots(), marked)) =~= s.spots().to_multiset());
    next.spots().to_multiset_ensures();
}

/// The tick on which the next event of the event simulator falls, in which
/// the tick simulator sees the arrival that the arrival times give, removes
/// the cars that are due and gives an admitted car the same stay, takes the
/// two to states that are in step again.
pub proof fn lemma_event_tick_keeps_step<P: ParkingLot>(
    s: &Simulator<P>,
    next: &Simulator<P>,
    e: &EventSimulator,
    after: &EventSimulator,
    marked: Seq<usize>,
    stay: u32,
)
    requires
        e.wf(),
        e.jump_target() matches Some((time, has_arrival, has_departure)) && in_step(
            s,
            e,
            time as nat,
        ),
        stay <= e.max_stay(),
        e.stepped(after, stay),
        valid_marks(marked, s.spots().len()),
        s.marks_due(marked),
        s.advanced(next, arrives_at(e.arrival_times(), s.now()), marked, stay),
    ensures
        in_step(next, after, s.now() + 1),
        next.queued() == after.queued(),
{
    broadcast use vstd::multiset::group_multiset_axioms;

    e.lemma_bounds();
    e.lemma_in_range();
    let target = e.jump_target().unwrap();
    let time = target.0;
    let has_arrival = target.1;
    let schedule = e.schedule();
    let times = e.arrival_times();
    lemma_next_jump(s, e, time as nat);
    s.spots().to_multiset_ensures();
    next.spots().to_multiset_ensures();
    lemma_due_removed(s.spots(), marked, time);
    lemma_without_due(schedule, time);
    assert forall|x: u32| after.schedule().count(x) > 0 implies x >= time + 1 by {
        if x != time && schedule.count(x) > 0 {
            assert(x >= time);
        }
    }
    assert forall|i: int| 0 <= i < after.arrived() implies (#[trigger] after.arrival_times()[i])
        < time + 1 by {
        if i >= e.arrived() {
            assert(times[e.arrived() as int] == time);
        }
    }
    assert forall|i: int| after.arrived() <= i < after.arrival_times().len() implies (
    #[trigger] after.arrival_times()[i]) >= time + 1 by {
        if has_arrival {
            assert(times[e.arrived() as int] == time);
            assert(times[e.arrived() as int] < times[i]);
        } else {
            assert(times[i] >= time);
            if times[i] == time {
                assert(arrives_at(times, time as nat));
            }
        }
    }
}

/// `next` is the state one tick after `s`, where the tick simulator sees the
/// arrival that the arrival times `times` give, removes the cars that are
/// due, and gives an admitted car the stay that `stays` gives for the tick.
pub open spec fn driven_tick<P: ParkingLot>(
    s: &Simulator<P>,
    next: &Simulator<P>,
    times: Seq<u32>,
    stays: spec_fn(nat) -> u32,
) -> bool {
    exists|marked: Seq<usize>|
        valid_marks(marked, s.spots().len()) && s.marks_due(marked) && #[trigger] s.advanced(
            next,
            arrives_at(times, s.now()),
            marked,
            stays(s.now()),
        )
}

/// `end` is the state that the tick simulator reaches from `s` by `ticks`
/// driven ticks.
pub open spec fn driven_ticks<P: ParkingLot>(
    s: &Simulator<P>,
    end: &Simulator<P>,
    times: Seq<u32>,
    stays: spec_fn(nat) -> u32,
    ticks: nat,
) -> bool
    decreases ticks,
{
    if ticks == 0 {
        *end == *s
    } else {
        exists|mid: Simulator<P>| #[trigger]
            driven_tick(s, &mid, times, stays) && driven_ticks(
                &mid,
                end,
                times,
                stays,
                (ticks - 1) as nat,
            )
    }
}

/// `next` is the well-formed state one event after `e`, where an admitted
/// car gets the stay that `stays` gives for the tick of the event.
pub open spec fn driven_event(e: &EventSimulator, next: &EventSimulator, stays: spec_fn(nat) -> u32) -> bool {
    &&& e.jump_target() is Some
    &&& next.wf()
    &&& e.stepped(next, stays(e.jump_target().unwrap().0 as nat))
}

/// `end` is the state that the event simulator reaches from `e` by `events`
/// driven events.
pub open spec fn driven_events(
    e: &EventSimulator,
    end: &EventSimulator,
    stays: spec_fn(nat) -> u32,
    events: nat,
) -> bool
    decreases events,
{
    if events == 0 {
        *end == *e
    } else {
        exists|mid: EventSimulator| #[trigger]
            driven_event(e, &mid, stays) && driven_events(&mid, end, stays, (events - 1) as nat)
    }
}

/// Given the same arrivals and the same stays, a run of the tick simulator
/// with continuous timing to the horizon and a run of the event simulator
/// to where no event is left before the horizon end with the same queue and
/// the same count of arrivals, from any states in step.
pub proof fn lemma_runs_agree_from<P: ParkingLot>(
    s: &Simulator<P>,
    s_end: &Simulator<P>,
    e: &EventSimulator,
    e_end: &EventSimulator,
    stays: spec_fn(nat) -> u32,
    tick: nat,
    events: nat,
)
    requires
        e.wf(),
        in_step(s, e, tick),
        tick <= e.horizon(),
        forall|t: nat| #[trigger] stays(t) <= e.max_stay(),
        driven_ticks(s, s_end, e.arrival_times(), stays, (e.horizon() - tick) as nat),
        driven_events(e, e_end, stays, events),
        e_end.jump_target() is None,
    ensures
        s_end.queued() == e_end.queued(),
        s_end.arrived() == e_end.arrived(),
        s_end.spots().to_multiset() == e_end.schedule(),
    decreases e.horizon() - tick,
{
    let times = e.arrival_times();
    lemma_next_jump(s, e, tick);
    if tick == e.horizon() {
        if events > 0 {
            let mid = choose|mid: EventSimulator| #[trigger]
                driven_event(e, &mid, stays) && driven_events(
                    &mid,
                    e_end,
                    stays,
                    (events - 1) as nat,
                );
            assert(e.jump_target() is Some);
        }
    } else {
        let s1 = choose|mid: Simulator<P>| #[trigger]
            driven_tick(s, &mid, times, stays) && driven_ticks(
                &mid,
                s_end,
                times,
                stays,
                (e.horizon() - tick - 1) as nat,
            );
        let marked = choose|marked: Seq<usize>|
            valid_marks(marked, s.spots().len()) && s.marks_due(marked) && #[trigger] s.advanced(
                &s1,
                arrives_at(times, s.now()),
                marked,
                stays(s.now()),
            );
        let falls = e.jump_target() is Some && e.jump_target().unwrap().0 == tick;
        if events > 0 && falls {
            let e1 = choose|mid: EventSimulator| #[trigger]
                driven_event(e, &mid, stays) && driven_events(
                    &mid,
                    e_end,
                    stays,
                    (events - 1) as nat,
                );
            lemma_event_tick_keeps_step(s, &s1, e, &e1, marked, stays(tick));
            lemma_runs_agree_from(&s1, s_end, &e1, e_end, stays, tick + 1, (events - 1) as nat);
        } else {
            if events == 0 {
                assert(e.jump_target() is None);
            }
            lemma_idle_tick_keeps_step(s, &s1, e, tick, marked, stays(tick));
            lemma_runs_agree_from(&s1, s_end, e, e_end, stays, tick + 1, events);
        }
    }
}

/// The event-jump strategy and the tick-by-tick strategy with continuous
/// timing agree: from fresh simulators for the same lot, given the same
/// arrivals and the same stays, the run of the one to the horizon and the
/// run of the other to where no event is left before the horizon leave as
/// many cars in the queue.
pub proof fn lemma_strategies_agree<P: ParkingLot>(
    s: &Simulator<P>,
    s_end: &Simulator<P>,
    e: &EventSimulator,
    e_end: &EventSimulator,
    stays: spec_fn(nat) -> u32,
    events: nat,
    capacity: nat,
    max_time: u32,
    steps: u32,
    cars_per_hour: Ratio,
    skew: bool,
)
    requires
        s.fresh(capacity, max_time, steps, cars_per_hour, true, skew),
        e.fresh(capacity, max_time, steps, skew, e.arrival_times()),
        forall|t: nat| #[trigger] stays(t) <= max_time,
        driven_ticks(s, s_end, e.arrival_times(), stays, steps as nat),
        driven_events(e, e_end, stays, events),
        e_end.jump_target() is None,
    ensures
        s_end.queued() == e_end.queued(),
        s_end.arrived() == e_end.arrived(),
{
    lemma_fresh_in_step(s, e, capacity, max_time, steps, cars_per_hour, skew, e.arrival_times());
    lemma_runs_agree_from(s, s_end, e, e_end, stays, 0, events);
}

} // verus!
