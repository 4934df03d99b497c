use lot_simulator::departure_schedule::{pop_due, DepartureSchedule};
use lot_simulator::event_simulator::ArrivalSchedule;
use lot_simulator::random_generator::RandomSource;

#[test]
fn schedule_hands_out_the_earliest_first() {
    let mut schedule = DepartureSchedule::new();
    assert!(schedule.is_empty());
    assert_eq!(schedule.peek(), None);
    assert_eq!(schedule.pop(), None);
    for t in [5, 3, 8, 3, 9, 1, 7] {
        schedule.push(t);
    }
    assert_eq!(schedule.len(), 7);
    assert_eq!(schedule.peek(), Some(1));
    let mut out = Vec::new();
    while let Some(t) = schedule.pop() {
        out.push(t);
    }
    assert_eq!(out, vec![1, 3, 3, 5, 7, 8, 9]);
    assert!(schedule.is_empty());
}

#[test]
fn schedule_sorts_random_times() {
    let mut rng = RandomSource::from_seed(1);
    let mut schedule = DepartureSchedule::new();
    let mut expected = Vec::new();
    for round in 0..2000u32 {
        let t = rng.draw() % 500;
        schedule.push(t);
        expected.push(t);
        if round % 3 == 0 {
            expected.sort();
            assert_eq!(schedule.pop(), Some(expected.remove(0)));
        }
        assert_eq!(schedule.len(), expected.len());
    }
    expected.sort();
    for t in expected {
        assert_eq!(schedule.peek(), Some(t));
        assert_eq!(schedule.pop(), Some(t));
    }
    assert_eq!(schedule.pop(), None);
}

#[test]
fn pop_due_takes_every_entry_at_the_earliest_time() {
    let mut schedule = DepartureSchedule::new();
    for t in [5, 3, 3, 8, 3] {
        schedule.push(t);
    }
    assert_eq!(pop_due(&mut schedule, 4), 0);
    assert_eq!(schedule.len(), 5);
    assert_eq!(pop_due(&mut schedule, 5), 0);
    assert_eq!(schedule.len(), 5);
    assert_eq!(pop_due(&mut schedule, 3), 3);
    assert_eq!(schedule.len(), 2);
    assert_eq!(schedule.peek(), Some(5));
    assert_eq!(pop_due(&mut schedule, 5), 1);
    assert_eq!(pop_due(&mut schedule, 8), 1);
    assert_eq!(pop_due(&mut schedule, 8), 0);
    assert!(schedule.is_empty());
}

#[test]
fn arrivals_from_gaps() {
    let mut arrivals = ArrivalSchedule::new(10);
    assert!(!arrivals.complete());
    arrivals.push_gap(2);
    arrivals.push_gap(0);
    arrivals.push_gap(4);
    assert!(!arrivals.complete());
    arrivals.push_gap(100);
    assert!(arrivals.complete());
    arrivals.push_gap(0);
    assert_eq!(arrivals.into_times(), vec![2, 3, 8]);
}

#[test]
fn arrivals_never_share_a_tick() {
    let mut arrivals = ArrivalSchedule::new(5);
    while !arrivals.complete() {
        arrivals.push_gap(0);
    }
    assert_eq!(arrivals.into_times(), vec![0, 1, 2, 3, 4]);
}

#[test]
fn arrivals_saturate_at_the_largest_tick() {
    let mut arrivals = ArrivalSchedule::new(u32::MAX);
    arrivals.push_gap(u32::MAX - 1);
    assert!(arrivals.complete());
    let mut arrivals = ArrivalSchedule::new(u32::MAX);
    arrivals.push_gap(7);
    arrivals.push_gap(u32::MAX);
    assert!(arrivals.complete());
    assert_eq!(arrivals.into_times(), vec![7]);
    let arrivals = ArrivalSchedule::new(0);
    assert!(arrivals.complete());
    assert_eq!(arrivals.into_times(), Vec::<u32>::new());
}

#[test]
fn pop_due_takes_all_that_is_due_where_nothing_is_overdue() {
    let mut schedule = DepartureSchedule::new();
    for t in [9, 7, 7, 12, 7, 9] {
        schedule.push(t);
    }
    assert_eq!(pop_due(&mut schedule, 6), 0);
    assert_eq!(pop_due(&mut schedule, 7), 3);
    assert_eq!(pop_due(&mut schedule, 8), 0);
    assert_eq!(pop_due(&mut schedule, 9), 2);
    assert_eq!(schedule.len(), 1);
    assert_eq!(schedule.peek(), Some(12));
}
