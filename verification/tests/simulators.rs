use lot_simulator::cli::{Cli, Config};
use lot_simulator::continuous_simulator::ContinuousHeapSimulator;
use lot_simulator::engine::{run_once, Engine};
use lot_simulator::event_simulator::{ArrivalSchedule, EventSimulator};
use lot_simulator::faithful::FaithfulSimulator;
use lot_simulator::parking_lot::{ArrayParkingLot, VecParkingLot};
use lot_simulator::probability::Ratio;
use lot_simulator::random_generator::{RandomSource, DRAW_RANGE};
use lot_simulator::simulator::Simulator;
use lot_simulator::triangular_distribution::DistributionError;

fn rate(cars_per_hour: u32) -> Ratio {
    Ratio::new(cars_per_hour, 1).unwrap()
}

fn options() -> Cli {
    Cli {
        cars_per_hour: rate(60),
        runs: 4,
        threshold: Ratio::new(5, 1).unwrap(),
        continuous: false,
        continuous_heap: false,
        event_based: false,
        skew: false,
        binary_search: false,
        faithful: false,
        max_stay: 600,
        duration: 4000,
        verbose: false,
    }
}

/// Arrival times with geometric gaps: `floor(ln(x) / ln(1 - p))` for a
/// uniform `x`.
fn geometric_arrivals(steps: u32, cars_per_hour: f64, rng: &mut RandomSource) -> ArrivalSchedule {
    let ln_1_p = (1.0 - cars_per_hour / 3600.0).ln();
    let mut arrivals = ArrivalSchedule::new(steps);
    while !arrivals.complete() {
        let x = rng.draw() as f64 / DRAW_RANGE as f64;
        let gap = (x.ln() / ln_1_p).floor().clamp(0.0, u32::MAX as f64) as u32;
        arrivals.push_gap(gap);
    }
    arrivals
}

fn arrivals_at(steps: u32, times: &[u32]) -> ArrivalSchedule {
    let mut arrivals = ArrivalSchedule::new(steps);
    let mut cursor = 0;
    for &t in times {
        arrivals.push_gap(t - cursor);
        cursor = t + 1;
    }
    arrivals
}

#[test]
fn max_stay_below_two_is_malformed() {
    for max_time in [0, 1] {
        for continuous in [false, true] {
            assert_eq!(
                Simulator::new(VecParkingLot::new(3), max_time, 100, rate(3), continuous, false)
                    .err(),
                Some(DistributionError::MalformedParameters)
            );
        }
        assert_eq!(
            FaithfulSimulator::new(VecParkingLot::new(3), max_time, 100, rate(3)).err(),
            Some(DistributionError::MalformedParameters)
        );
        assert_eq!(
            ContinuousHeapSimulator::new(3, max_time, 100, rate(3), false).err(),
            Some(DistributionError::MalformedParameters)
        );
        assert_eq!(
            EventSimulator::new(3, max_time, 100, false, ArrivalSchedule::new(100)).err(),
            Some(DistributionError::MalformedParameters)
        );
    }
    assert!(Simulator::new(VecParkingLot::new(3), 2, 100, rate(3), true, false).is_ok());
}

#[test]
fn standard_continuous_scenario() {
    let mut rng = RandomSource::from_seed(0);
    let mut sim = Simulator::new(VecParkingLot::new(1), 10, 100, rate(3), true, false).unwrap();
    assert!(sim.admits_after(true, 0));
    assert!(!sim.admits_after(false, 0));
    sim.advance(true, &vec![], 3);
    assert_eq!((sim.clock(), sim.arrivals(), sim.occupancy(), sim.cars_left()), (1, 1, 1, 0));
    assert!(!sim.admits_after(true, 0));
    assert!(sim.admits_after(true, 1));
    sim.advance(true, &vec![], 0);
    assert_eq!((sim.clock(), sim.arrivals(), sim.occupancy(), sim.cars_left()), (2, 2, 1, 1));
    assert_eq!(sim.scan_departures(&mut rng), Vec::<usize>::new());
    sim.advance(false, &vec![], 0);
    // The parked car leaves at tick 3, and the queued car takes its spot.
    assert_eq!(sim.scan_departures(&mut rng), vec![0]);
    sim.advance(false, &vec![0], 2);
    assert_eq!((sim.clock(), sim.arrivals(), sim.occupancy(), sim.cars_left()), (4, 2, 1, 0));
    assert_eq!(sim.scan_departures(&mut rng), Vec::<usize>::new());
    sim.advance(false, &vec![], 0);
    assert_eq!(sim.scan_departures(&mut rng), vec![0]);
    sim.advance(true, &vec![0], 1);
    assert_eq!((sim.clock(), sim.arrivals(), sim.occupancy(), sim.cars_left()), (6, 3, 1, 0));
}

#[test]
fn standard_discrete_forces_departure_at_max_stay() {
    let mut rng = RandomSource::from_seed(0);
    // With this slow arrival of draws the density never decides alone: a
    // car parked at tick 0 must be gone after the scan at tick 4.
    let mut sim = Simulator::new(ArrayParkingLot::new(2), 4, 100, rate(3), false, false).unwrap();
    sim.advance(true, &vec![], 0);
    assert_eq!(sim.occupancy(), 1);
    for _ in 1..4 {
        let marked = sim.scan_departures(&mut rng);
        sim.advance(false, &marked, 0);
    }
    assert_eq!(sim.clock(), 4);
    if sim.occupancy() == 1 {
        assert_eq!(sim.scan_departures(&mut rng), vec![0]);
    }
    let marked = sim.scan_departures(&mut rng);
    sim.advance(false, &marked, 0);
    assert_eq!(sim.occupancy(), 0);
}

#[test]
fn faithful_scenario() {
    let mut sim = FaithfulSimulator::new(VecParkingLot::new(1), 10, 100, rate(3)).unwrap();
    sim.advance(true, &vec![]);
    assert_eq!((sim.clock(), sim.arrivals(), sim.occupancy(), sim.cars_left()), (1, 1, 1, 0));
    sim.advance(true, &vec![]);
    sim.advance(true, &vec![]);
    assert_eq!((sim.clock(), sim.arrivals(), sim.occupancy(), sim.cars_left()), (3, 3, 1, 2));
    sim.advance(false, &vec![0]);
    assert_eq!((sim.clock(), sim.arrivals(), sim.occupancy(), sim.cars_left()), (4, 3, 1, 1));
    sim.advance(false, &vec![0]);
    sim.advance(false, &vec![0]);
    assert_eq!((sim.clock(), sim.arrivals(), sim.occupancy(), sim.cars_left()), (6, 3, 0, 0));
}

#[test]
fn continuous_heap_scenario() {
    let mut sim = ContinuousHeapSimulator::new(1, 10, 100, rate(3), false).unwrap();
    sim.begin_tick(true);
    assert!(sim.will_admit());
    sim.finish_tick(2);
    assert_eq!((sim.clock(), sim.arrivals(), sim.occupancy(), sim.cars_left()), (1, 1, 1, 0));
    sim.begin_tick(true);
    assert!(!sim.will_admit());
    sim.finish_tick(0);
    assert_eq!((sim.clock(), sim.arrivals(), sim.occupancy(), sim.cars_left()), (2, 2, 1, 1));
    // The departure scheduled for tick 2 frees the spot for the queued car.
    sim.begin_tick(false);
    assert!(sim.will_admit());
    sim.finish_tick(5);
    assert_eq!((sim.clock(), sim.arrivals(), sim.occupancy(), sim.cars_left()), (3, 2, 1, 0));
    for _ in 3..7 {
        sim.begin_tick(false);
        assert!(!sim.will_admit());
        sim.finish_tick(0);
        assert_eq!(sim.occupancy(), 1);
    }
    sim.begin_tick(false);
    sim.finish_tick(0);
    assert_eq!((sim.clock(), sim.occupancy(), sim.cars_left()), (8, 0, 0));
}

#[test]
fn event_jump_scenario() {
    let arrivals = arrivals_at(100, &[2, 3, 20]);
    let mut sim = EventSimulator::new(1, 10, 100, false, arrivals).unwrap();
    assert!(sim.begin_event());
    assert_eq!((sim.clock(), sim.arrivals(), sim.cars_left()), (2, 1, 1));
    assert!(sim.will_admit());
    sim.finish_event(5);
    assert_eq!((sim.occupancy(), sim.cars_left()), (1, 0));
    assert!(sim.begin_event());
    assert_eq!((sim.clock(), sim.arrivals(), sim.cars_left()), (3, 2, 1));
    assert!(!sim.will_admit());
    sim.finish_event(0);
    // The clock jumps to the departure at tick 7.
    assert!(sim.begin_event());
    assert_eq!((sim.clock(), sim.occupancy(), sim.cars_left()), (7, 0, 1));
    assert!(sim.will_admit());
    sim.finish_event(1);
    assert_eq!((sim.occupancy(), sim.cars_left()), (1, 0));
    assert!(sim.begin_event());
    assert_eq!((sim.clock(), sim.occupancy()), (8, 0));
    sim.finish_event(0);
    assert!(sim.begin_event());
    assert_eq!((sim.clock(), sim.arrivals(), sim.cars_left()), (20, 3, 1));
    sim.finish_event(10);
    assert!(sim.begin_event());
    assert_eq!((sim.clock(), sim.occupancy()), (30, 0));
    sim.finish_event(0);
    assert!(!sim.begin_event());
    assert_eq!((sim.clock(), sim.arrivals(), sim.occupancy(), sim.cars_left()), (30, 3, 0, 0));
}

#[test]
fn event_jump_moves_one_tick_while_a_car_can_park() {
    // Two spots, two cars queued at once is impossible, so queue two cars
    // behind a full lot and free both spots at the same tick.
    let arrivals = arrivals_at(100, &[0, 1, 2, 3, 50]);
    let mut sim = EventSimulator::new(2, 10, 100, false, arrivals).unwrap();
    assert!(sim.begin_event());
    sim.finish_event(9);
    assert!(sim.begin_event());
    sim.finish_event(8);
    assert!(sim.begin_event());
    sim.finish_event(0);
    assert!(sim.begin_event());
    sim.finish_event(0);
    assert_eq!((sim.clock(), sim.occupancy(), sim.cars_left()), (3, 2, 2));
    // Both departures fall on tick 9; one queued car parks there.
    assert!(sim.begin_event());
    assert_eq!((sim.clock(), sim.occupancy(), sim.cars_left()), (9, 0, 2));
    sim.finish_event(5);
    assert_eq!((sim.occupancy(), sim.cars_left()), (1, 1));
    // The other parks one tick later, though the next event is at tick 14.
    assert!(sim.will_admit());
    assert!(sim.begin_event());
    assert_eq!((sim.clock(), sim.arrivals(), sim.occupancy()), (10, 4, 1));
    sim.finish_event(5);
    assert_eq!((sim.occupancy(), sim.cars_left()), (2, 0));
    assert!(sim.begin_event());
    assert_eq!((sim.clock(), sim.occupancy()), (14, 1));
    sim.finish_event(0);
}

#[test]
fn capacity_zero_leaves_every_arrival() {
    for seed in 0..5 {
        let mut rng = RandomSource::from_seed(seed);
        let mut sim =
            Simulator::new(VecParkingLot::new(0), 600, 4000, rate(60), seed % 2 == 0, false)
                .unwrap();
        sim.simulate(&mut rng);
        assert_eq!(sim.cars_left(), sim.arrivals());
        assert!(sim.arrivals() > 20 && sim.arrivals() < 150, "{}", sim.arrivals());
        assert_eq!(sim.occupancy(), 0);

        let mut sim = FaithfulSimulator::new(VecParkingLot::new(0), 600, 4000, rate(60)).unwrap();
        sim.simulate(&mut rng);
        assert_eq!(sim.cars_left(), sim.arrivals());
        assert!(sim.arrivals() > 20);

        let mut sim = ContinuousHeapSimulator::new(0, 600, 4000, rate(60), false).unwrap();
        sim.simulate(&mut rng);
        assert_eq!(sim.cars_left(), sim.arrivals());
        assert!(sim.arrivals() > 20);

        let arrivals = geometric_arrivals(4000, 60.0, &mut rng);
        let mut sim = EventSimulator::new(0, 600, 4000, false, arrivals).unwrap();
        sim.simulate(&mut rng);
        assert_eq!(sim.cars_left(), sim.arrivals());
        assert!(sim.arrivals() > 20 && sim.arrivals() < 150, "{}", sim.arrivals());
    }
}

#[test]
fn ample_capacity_leaves_no_car() {
    for seed in 0..5 {
        let mut rng = RandomSource::from_seed(100 + seed);
        let mut sim =
            Simulator::new(VecParkingLot::new(4000), 600, 4000, rate(600), seed % 2 == 0, true)
                .unwrap();
        sim.simulate(&mut rng);
        assert_eq!(sim.cars_left(), 0);
        assert!(sim.arrivals() > 400);

        let mut sim = FaithfulSimulator::new(VecParkingLot::new(4000), 600, 4000, rate(600)).unwrap();
        sim.simulate(&mut rng);
        assert_eq!(sim.cars_left(), 0);

        let mut sim = ContinuousHeapSimulator::new(4000, 600, 4000, rate(600), true).unwrap();
        sim.simulate(&mut rng);
        assert_eq!(sim.cars_left(), 0);

        let arrivals = geometric_arrivals(4000, 600.0, &mut rng);
        let mut sim = EventSimulator::new(4000, 600, 4000, true, arrivals).unwrap();
        sim.simulate(&mut rng);
        assert_eq!(sim.cars_left(), 0);
        assert!(sim.arrivals() > 400);
    }
}

#[test]
fn occupancy_never_exceeds_capacity() {
    let mut rng = RandomSource::from_seed(9);
    let mut standard =
        Simulator::new(ArrayParkingLot::new(3), 600, 3000, rate(120), true, false).unwrap();
    let mut discrete =
        Simulator::new(VecParkingLot::new(3), 600, 3000, rate(120), false, false).unwrap();
    let mut faithful = FaithfulSimulator::new(VecParkingLot::new(3), 600, 3000, rate(120)).unwrap();
    let mut heap = ContinuousHeapSimulator::new(3, 600, 3000, rate(120), false).unwrap();
    let mut filled = false;
    for tick in 0..3000 {
        standard.tick(&mut rng);
        discrete.tick(&mut rng);
        faithful.tick(&mut rng);
        heap.tick(&mut rng);
        for occupancy in
            [standard.occupancy(), discrete.occupancy(), faithful.occupancy(), heap.occupancy()]
        {
            assert!(occupancy <= 3);
        }
        filled |= standard.occupancy() == 3;
        assert_eq!(standard.clock(), tick + 1);
        assert!(standard.cars_left() + standard.occupancy() <= standard.arrivals());
        assert!(heap.cars_left() + heap.occupancy() <= heap.arrivals());
    }
    assert!(filled);
    let arrivals = geometric_arrivals(3000, 120.0, &mut rng);
    let mut event = EventSimulator::new(3, 600, 3000, false, arrivals).unwrap();
    while event.clock() < 3000 && event.step(&mut rng) {
        assert!(event.occupancy() <= 3);
        assert!(event.cars_left() + event.occupancy() <= event.arrivals());
    }
}

#[test]
fn runs_follow_the_seed() {
    let run = |seed: u64| {
        let mut rng = RandomSource::from_seed(seed);
        let mut sim =
            Simulator::new(VecParkingLot::new(5), 600, 4000, rate(120), false, false).unwrap();
        sim.simulate(&mut rng);
        (sim.cars_left(), sim.arrivals(), sim.occupancy())
    };
    assert_eq!(run(1), run(1));
    assert_eq!(run(2), run(2));
}

#[test]
fn more_capacity_leaves_fewer_cars_on_average() {
    let mean = |capacity: usize, continuous: bool| {
        let mut total = 0;
        for seed in 0..20 {
            let mut rng = RandomSource::from_seed(seed);
            let mut sim = Simulator::new(
                VecParkingLot::new(capacity),
                600,
                4000,
                rate(120),
                continuous,
                false,
            )
            .unwrap();
            sim.simulate(&mut rng);
            total += sim.cars_left();
        }
        total as f64 / 20.0
    };
    for continuous in [false, true] {
        let scarce = mean(2, continuous);
        let some = mean(8, continuous);
        let plenty = mean(40, continuous);
        assert!(scarce > some && some > plenty, "{scarce} {some} {plenty}");
        assert_eq!(plenty, 0.0);
    }
}

#[test]
fn event_jump_agrees_with_the_tick_simulators() {
    // The strategies differ in how they consume draws, so their means are
    // compared over many runs.
    let runs = 60;
    let mut standard = 0;
    let mut heap = 0;
    let mut event = 0;
    for seed in 0..runs {
        let mut rng = RandomSource::from_seed(1000 + seed);
        let mut sim =
            Simulator::new(VecParkingLot::new(6), 600, 6000, rate(120), true, false).unwrap();
        sim.simulate(&mut rng);
        standard += sim.cars_left();
        let mut sim = ContinuousHeapSimulator::new(6, 600, 6000, rate(120), false).unwrap();
        sim.simulate(&mut rng);
        heap += sim.cars_left();
        let arrivals = geometric_arrivals(6000, 120.0, &mut rng);
        let mut sim = EventSimulator::new(6, 600, 6000, false, arrivals).unwrap();
        sim.simulate(&mut rng);
        event += sim.cars_left();
    }
    let standard = standard as f64 / runs as f64;
    let heap = heap as f64 / runs as f64;
    let event = event as f64 / runs as f64;
    assert!(standard > 20.0, "{standard}");
    assert!((standard - heap).abs() < 0.25 * standard, "{standard} {heap}");
    assert!((standard - event).abs() < 0.25 * standard, "{standard} {event}");
}

#[test]
fn engine_follows_the_configuration() {
    let mut rng = RandomSource::from_seed(77);
    let variants = [
        Cli { faithful: true, ..options() },
        options(),
        Cli { continuous: true, skew: true, ..options() },
        Cli { continuous_heap: true, ..options() },
        Cli { event_based: true, ..options() },
    ];
    for options in variants {
        let config = Config::new(options).unwrap();
        for (capacity, expect_none) in [(0usize, false), (3, false), (4000, true)] {
            let arrivals = geometric_arrivals(4000, 60.0, &mut rng);
            let mut engine = Engine::new(&config, capacity, arrivals);
            assert!(matches!(
                (&engine, options.faithful, options.event_based, options.continuous_heap),
                (Engine::Faithful(_), true, _, _)
                    | (Engine::EventJump(_), false, true, _)
                    | (Engine::ContinuousHeap(_), false, false, true)
                    | (Engine::Standard(_), false, false, false)
            ));
            engine.simulate(&mut rng);
            let left = engine.cars_left();
            assert!(left <= 4000);
            if expect_none {
                assert_eq!(left, 0);
            }
            if capacity == 0 {
                assert!(left > 20);
            }
            let arrivals = geometric_arrivals(4000, 60.0, &mut rng);
            let again = run_once(&config, capacity, arrivals, &mut rng);
            assert!(again <= 4000);
            if expect_none {
                assert_eq!(again, 0);
            }
        }
    }
}

#[test]
fn roomy_lot_leaves_no_car() {
    // About ten cars park at once; a lot of two hundred never fills.
    for seed in 0..5 {
        let mut rng = RandomSource::from_seed(500 + seed);
        let mut sim =
            Simulator::new(VecParkingLot::new(200), 600, 20000, rate(60), true, false).unwrap();
        sim.simulate(&mut rng);
        assert_eq!(sim.cars_left(), 0);
        assert!(sim.occupancy() < 60);
        let mut sim = ContinuousHeapSimulator::new(200, 600, 20000, rate(60), false).unwrap();
        sim.simulate(&mut rng);
        assert_eq!(sim.cars_left(), 0);
    }
}

#[test]
fn event_jump_with_no_capacity_leaves_every_scheduled_arrival() {
    let arrivals = arrivals_at(100, &[0, 5, 6, 50, 99]);
    let mut rng = RandomSource::from_seed(0);
    let mut sim = EventSimulator::new(0, 10, 100, false, arrivals).unwrap();
    sim.simulate(&mut rng);
    assert_eq!((sim.cars_left(), sim.arrivals(), sim.occupancy(), sim.clock()), (5, 5, 0, 99));
    assert!(!sim.step(&mut rng));
}

#[test]
fn no_event_is_handled_past_the_horizon() {
    // One spot, arrivals at ticks 0 and 1, stays of twenty ticks, a horizon
    // of ten ticks: the second car is still queued when the horizon ends,
    // whatever the strategy.
    let mut ticks = Simulator::new(VecParkingLot::new(1), 40, 10, rate(3), true, false).unwrap();
    let mut rng = RandomSource::from_seed(0);
    for tick in 0..10 {
        let marked = ticks.scan_departures(&mut rng);
        ticks.advance(tick < 2, &marked, 20);
    }
    assert_eq!((ticks.clock(), ticks.arrivals(), ticks.cars_left()), (10, 2, 1));

    let mut heap = ContinuousHeapSimulator::new(1, 40, 10, rate(3), false).unwrap();
    for tick in 0..10 {
        heap.begin_tick(tick < 2);
        heap.finish_tick(20);
    }
    assert_eq!((heap.clock(), heap.arrivals(), heap.cars_left()), (10, 2, 1));

    let mut events = EventSimulator::new(1, 40, 10, false, arrivals_at(10, &[0, 1])).unwrap();
    while events.begin_event() {
        events.finish_event(20);
    }
    assert_eq!(
        (events.clock(), events.arrivals(), events.occupancy(), events.cars_left()),
        (1, 2, 1, 1)
    );
    let mut events = EventSimulator::new(1, 40, 10, false, arrivals_at(10, &[0, 1])).unwrap();
    events.simulate(&mut rng);
    assert_eq!((events.clock(), events.arrivals(), events.cars_left()), (1, 2, 1));
    assert!(!events.step(&mut rng));
}

#[test]
fn strategies_agree_on_the_same_events() {
    // The same arrivals and stays, and every car gone before the horizon.
    let arrivals = [3u32, 4, 5, 30, 31, 60];
    let stays = [7u32, 2, 9, 4, 4, 5];
    let mut ticks = Simulator::new(VecParkingLot::new(2), 40, 100, rate(3), true, false).unwrap();
    let mut heap = ContinuousHeapSimulator::new(2, 40, 100, rate(3), false).unwrap();
    let mut rng = RandomSource::from_seed(0);
    let mut admitted = 0;
    let mut trace = Vec::new();
    for tick in 0..100u32 {
        let arrived = arrivals.contains(&tick);
        let marked = ticks.scan_departures(&mut rng);
        let stay = stays[admitted.min(stays.len() - 1)];
        if ticks.admits_after(arrived, marked.len()) {
            admitted += 1;
        }
        ticks.advance(arrived, &marked, stay);
        heap.begin_tick(arrived);
        heap.finish_tick(stay);
        assert_eq!(
            (ticks.occupancy(), ticks.cars_left(), ticks.arrivals()),
            (heap.occupancy(), heap.cars_left(), heap.arrivals())
        );
        trace.push((ticks.occupancy(), ticks.cars_left()));
    }
    assert_eq!(admitted, 6);
    let mut events = EventSimulator::new(2, 40, 100, false, arrivals_at(100, &arrivals)).unwrap();
    let mut admitted = 0;
    while events.clock() < 100 && events.begin_event() {
        let stay = stays[admitted.min(stays.len() - 1)];
        if events.will_admit() {
            admitted += 1;
        }
        events.finish_event(stay);
        let tick = events.clock() as usize;
        assert_eq!((events.occupancy(), events.cars_left()), trace[tick], "at tick {tick}");
    }
    assert_eq!(admitted, 6);
    assert_eq!(events.cars_left(), ticks.cars_left());
    assert_eq!(events.arrivals(), ticks.arrivals());
}

#[test]
fn a_sampled_stay_of_zero_lasts_one_tick() {
    // A car cannot leave in the tick in which it parks, whose departures
    // are handled already: it leaves one tick later, whatever the strategy.
    let mut rng = RandomSource::from_seed(0);
    let mut ticks = Simulator::new(VecParkingLot::new(1), 40, 10, rate(3), true, false).unwrap();
    let mut heap = ContinuousHeapSimulator::new(1, 40, 10, rate(3), false).unwrap();
    let mut trace = Vec::new();
    for tick in 0..10 {
        let marked = ticks.scan_departures(&mut rng);
        assert_eq!(marked.len(), usize::from(tick == 1 || tick == 2));
        ticks.advance(tick < 2, &marked, 0);
        heap.begin_tick(tick < 2);
        heap.finish_tick(0);
        assert_eq!((heap.occupancy(), heap.cars_left()), (ticks.occupancy(), ticks.cars_left()));
        trace.push((ticks.occupancy(), ticks.cars_left()));
    }
    assert_eq!(&trace[..4], &[(1, 0), (1, 0), (0, 0), (0, 0)]);
    assert_eq!((ticks.occupancy(), ticks.cars_left()), (0, 0));

    let mut events = EventSimulator::new(1, 40, 10, false, arrivals_at(10, &[0, 1])).unwrap();
    let mut clocks = Vec::new();
    while events.begin_event() {
        events.finish_event(0);
        clocks.push(events.clock());
        assert_eq!((events.occupancy(), events.cars_left()), trace[events.clock() as usize]);
    }
    assert_eq!(clocks, vec![0, 1, 2]);
    assert_eq!((events.occupancy(), events.cars_left()), (0, 0));
}

#[test]
fn strategies_agree_up_to_the_horizon_with_any_stays() {
    // Random arrivals and stays, zero among them, and a short horizon, so
    // that cars are queued and parked when it ends.
    for seed in 0..40u64 {
        let mut source = RandomSource::from_seed(seed);
        let horizon = 60u32;
        let capacity = 1 + (seed % 3) as usize;
        let mut times = Vec::new();
        for tick in 0..horizon {
            if source.draw() % 3 == 0 {
                times.push(tick);
            }
        }
        let stays: Vec<u32> = (0..horizon).map(|_| source.draw() % 12).collect();
        let mut ticks =
            Simulator::new(VecParkingLot::new(capacity), 12, horizon, rate(3), true, false)
                .unwrap();
        let mut heap = ContinuousHeapSimulator::new(capacity, 12, horizon, rate(3), false).unwrap();
        for tick in 0..horizon {
            let arrived = times.contains(&tick);
            let marked = ticks.scan_departures(&mut source);
            ticks.advance(arrived, &marked, stays[tick as usize]);
            heap.begin_tick(arrived);
            heap.finish_tick(stays[tick as usize]);
            assert_eq!(
                (heap.occupancy(), heap.cars_left(), heap.arrivals()),
                (ticks.occupancy(), ticks.cars_left(), ticks.arrivals())
            );
        }
        let mut events =
            EventSimulator::new(capacity, 12, horizon, false, arrivals_at(horizon, &times))
                .unwrap();
        while events.begin_event() {
            assert!(events.clock() < horizon);
            events.finish_event(stays[events.clock() as usize]);
        }
        assert_eq!(events.cars_left(), ticks.cars_left(), "seed {seed}");
        assert_eq!(events.arrivals(), ticks.arrivals(), "seed {seed}");
        assert_eq!(events.occupancy(), ticks.occupancy(), "seed {seed}");
    }
}

#[test]
fn capacity_of_the_longest_stay_leaves_no_car() {
    // A car arrives in every tick; a lot with as many spots as the longest
    // stay has ticks always has one free.
    let every_tick = rate(3600);
    for seed in 0..3 {
        let mut rng = RandomSource::from_seed(seed);
        for continuous in [false, true] {
            let mut sim =
                Simulator::new(VecParkingLot::new(20), 20, 2000, every_tick, continuous, false)
                    .unwrap();
            sim.simulate(&mut rng);
            assert_eq!((sim.arrivals(), sim.cars_left()), (2000, 0));
        }
        let mut sim = FaithfulSimulator::new(VecParkingLot::new(20), 20, 2000, every_tick).unwrap();
        sim.simulate(&mut rng);
        assert_eq!((sim.arrivals(), sim.cars_left()), (2000, 0));
        let mut sim = ContinuousHeapSimulator::new(20, 20, 2000, every_tick, true).unwrap();
        sim.simulate(&mut rng);
        assert_eq!((sim.arrivals(), sim.cars_left()), (2000, 0));
        let every: Vec<u32> = (0..2000).collect();
        let mut sim = EventSimulator::new(20, 20, 2000, false, arrivals_at(2000, &every)).unwrap();
        sim.simulate(&mut rng);
        assert_eq!((sim.arrivals(), sim.cars_left()), (2000, 0));
    }
}

#[test]
fn one_spot_less_than_the_longest_stay_can_leave_cars() {
    // Every car stays for the longest stay and one arrives in every tick.
    let mut heap = ContinuousHeapSimulator::new(19, 20, 200, rate(3), false).unwrap();
    let mut enough = ContinuousHeapSimulator::new(20, 20, 200, rate(3), false).unwrap();
    for _ in 0..200 {
        heap.begin_tick(true);
        heap.finish_tick(20);
        enough.begin_tick(true);
        enough.finish_tick(20);
        assert!(enough.occupancy() <= 20);
        assert_eq!(enough.cars_left(), 0);
    }
    assert!(heap.cars_left() > 0);
}
