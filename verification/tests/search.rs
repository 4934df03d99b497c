use lot_simulator::capacity_search::{BinarySearch, LinearScan, Score};
use lot_simulator::cli::{
    Cli, Config, ConfigError, Strategy, DEFAULT_DURATION, DEFAULT_MAX_STAY, DEFAULT_RUNS,
};
use lot_simulator::probability::Ratio;

fn options() -> Cli {
    Cli {
        cars_per_hour: Ratio::new(3, 1).unwrap(),
        runs: 10,
        threshold: Ratio::new(5, 1).unwrap(),
        continuous: false,
        continuous_heap: false,
        event_based: false,
        skew: false,
        binary_search: false,
        faithful: false,
        max_stay: 28800,
        duration: 86400,
        verbose: false,
    }
}

fn binary_search(accepts: impl Fn(usize) -> bool) -> (usize, Vec<usize>) {
    let mut search = BinarySearch::new();
    let mut tried = Vec::new();
    while let Some(capacity) = search.next_capacity() {
        tried.push(capacity);
        let accepted = accepts(capacity);
        assert!(accepted || search.has_room());
        search.report(accepted);
    }
    (search.result().unwrap(), tried)
}

#[test]
fn score_is_compared_exactly() {
    let threshold = Ratio::new(5, 1).unwrap();
    assert!(Score::new(0, 10).unwrap().within(&threshold));
    assert!(Score::new(50, 10).unwrap().within(&threshold));
    assert!(!Score::new(51, 10).unwrap().within(&threshold));
    let threshold = Ratio::new(1, 3).unwrap();
    assert!(Score::new(1, 3).unwrap().within(&threshold));
    assert!(!Score::new(2, 5).unwrap().within(&threshold));
    assert!(Score::new(u64::MAX, u32::MAX).unwrap().within(&Ratio::new(u32::MAX, 1).unwrap())
        == false);
    assert!(Score::new(3, 0).is_none());
    let score = Score::new(7, 2).unwrap();
    assert_eq!((score.total_left(), score.run_count()), (7, 2));
}

#[test]
fn linear_scan_issues_capacities_until_one_is_accepted() {
    let mut scan = LinearScan::new();
    assert_eq!(scan.result(), None);
    assert_eq!(scan.next_capacity(), Some(1));
    assert_eq!(scan.next_capacity(), Some(2));
    assert_eq!(scan.next_capacity(), Some(3));
    scan.record(1, false);
    assert_eq!(scan.result(), None);
    assert_eq!(scan.next_capacity(), Some(4));
    scan.record(3, true);
    assert_eq!(scan.next_capacity(), None);
    assert_eq!(scan.result(), Some(3));
    // Capacities in flight still count.
    scan.record(4, true);
    assert_eq!(scan.result(), Some(3));
    scan.record(2, true);
    assert_eq!(scan.result(), Some(2));
    assert_eq!(scan.next_capacity(), None);
}

#[test]
fn linear_scan_does_not_depend_on_the_order() {
    let verdicts = [(5, true), (2, false), (4, true), (7, true), (3, false), (6, true)];
    let mut orders = vec![verdicts.to_vec()];
    let mut reversed = verdicts.to_vec();
    reversed.reverse();
    orders.push(reversed);
    let mut rotated = verdicts.to_vec();
    rotated.rotate_left(2);
    orders.push(rotated);
    for order in orders {
        let mut scan = LinearScan::new();
        for (capacity, accepted) in order {
            scan.record(capacity, accepted);
        }
        assert_eq!(scan.result(), Some(4));
        assert_eq!(scan, LinearScan { next: 1, smallest: 4, done: true });
    }
}

#[test]
fn linear_scan_stops_at_the_largest_capacity() {
    let mut scan = LinearScan { next: usize::MAX - 1, smallest: usize::MAX, done: false };
    assert_eq!(scan.next_capacity(), Some(usize::MAX - 1));
    assert_eq!(scan.next_capacity(), None);
}

#[test]
fn binary_search_finds_the_least_accepted_capacity() {
    let (result, tried) = binary_search(|c| c >= 37);
    assert_eq!(result, 37);
    assert_eq!(&tried[..7], &[1, 2, 4, 8, 16, 32, 64]);
    assert_eq!(&tried[7..], &[48, 40, 36, 38, 37]);
    for least in 1..200 {
        assert_eq!(binary_search(|c| c >= least).0, least);
    }
}

#[test]
fn binary_search_tries_one_again() {
    let (result, tried) = binary_search(|_| true);
    assert_eq!(result, 1);
    assert_eq!(tried, vec![1, 1]);
}

#[test]
fn binary_search_steps() {
    let mut search = BinarySearch::new();
    assert_eq!(search, BinarySearch::Doubling { upper: 1 });
    search.report(false);
    search.report(false);
    assert_eq!(search, BinarySearch::Doubling { upper: 4 });
    search.report(true);
    assert_eq!(search, BinarySearch::Bisecting { low: 3, high: 4 });
    assert_eq!(search.next_capacity(), Some(3));
    assert_eq!(search.result(), None);
    search.report(false);
    assert_eq!(search, BinarySearch::Bisecting { low: 4, high: 4 });
    search.report(false);
    assert_eq!(search, BinarySearch::Done { result: 5 });
    assert_eq!(search.next_capacity(), None);
    assert_eq!(search.result(), Some(5));
    search.report(true);
    assert_eq!(search, BinarySearch::Done { result: 5 });
}

#[test]
fn binary_search_knows_when_it_cannot_double() {
    assert!(BinarySearch::Doubling { upper: usize::MAX / 2 }.has_room());
    assert!(!BinarySearch::Doubling { upper: usize::MAX / 2 + 1 }.has_room());
    assert!(BinarySearch::Bisecting { low: 1, high: 2 }.has_room());
}

#[test]
fn policies_agree_on_a_monotone_curve() {
    for least in [1usize, 2, 3, 17, 64, 65, 100] {
        let accepts = |c: usize| c >= least;
        let mut scan = LinearScan::new();
        while let Some(capacity) = scan.next_capacity() {
            scan.record(capacity, accepts(capacity));
        }
        assert_eq!(scan.result(), Some(binary_search(accepts).0));
    }
}

#[test]
fn valid_options_are_accepted() {
    let config = Config::new(options()).unwrap();
    assert_eq!(config.strategy(), Strategy::Standard);
    assert_eq!(config.options().runs, 10);
    assert_eq!(config.options().max_stay, 28800);
    let config = Config::new(Cli { faithful: true, ..options() }).unwrap();
    assert_eq!(config.strategy(), Strategy::Faithful);
    let config = Config::new(Cli { continuous_heap: true, ..options() }).unwrap();
    assert_eq!(config.strategy(), Strategy::ContinuousHeap);
    let config = Config::new(Cli { event_based: true, ..options() }).unwrap();
    assert_eq!(config.strategy(), Strategy::EventJump);
    let config = Config::new(Cli { continuous: true, skew: true, ..options() }).unwrap();
    assert_eq!(config.strategy(), Strategy::Standard);
}

#[test]
fn faulty_options_are_refused() {
    let cases = [
        (Cli { cars_per_hour: Ratio::new(0, 1).unwrap(), ..options() }, ConfigError::NonPositiveRate),
        (
            Cli { threshold: Ratio::new(0, 7).unwrap(), ..options() },
            ConfigError::NonPositiveThreshold,
        ),
        (Cli { runs: 0, ..options() }, ConfigError::NoRuns),
        (
            Cli { continuous_heap: true, event_based: true, ..options() },
            ConfigError::HeapWithEventBased,
        ),
        (Cli { skew: true, ..options() }, ConfigError::SkewWithoutContinuous),
        (Cli { faithful: true, continuous: true, ..options() }, ConfigError::FaithfulConflict),
        (Cli { faithful: true, binary_search: true, ..options() }, ConfigError::FaithfulConflict),
        (Cli { max_stay: 1, ..options() }, ConfigError::MalformedDistribution),
        (Cli { max_stay: 0, ..options() }, ConfigError::MalformedDistribution),
        (
            Cli { continuous: true, duration: u32::MAX - 28800 + 1, ..options() },
            ConfigError::TimeOutOfRange,
        ),
        (
            Cli { continuous_heap: true, duration: u32::MAX, ..options() },
            ConfigError::TimeOutOfRange,
        ),
        (
            Cli { event_based: true, duration: u32::MAX - 28800 + 1, ..options() },
            ConfigError::TimeOutOfRange,
        ),
        (
            Cli { runs: 0, cars_per_hour: Ratio::new(0, 1).unwrap(), ..options() },
            ConfigError::NonPositiveRate,
        ),
    ];
    for (options, fault) in cases {
        assert_eq!(Config::new(options).err(), Some(fault));
    }
    assert!(Config::new(Cli { duration: u32::MAX, ..options() }).is_ok());
    assert!(Config::new(Cli { faithful: true, duration: u32::MAX, ..options() }).is_ok());
    assert!(
        Config::new(Cli { continuous: true, duration: u32::MAX - 28800, ..options() }).is_ok()
    );
    assert!(
        Config::new(Cli { event_based: true, duration: u32::MAX - 28800, ..options() }).is_ok()
    );
}

#[test]
fn default_options() {
    let options = Cli::new(Ratio::new(3, 1).unwrap());
    assert_eq!((options.cars_per_hour.numerator(), options.cars_per_hour.denominator()), (3, 1));
    assert_eq!((options.threshold.numerator(), options.threshold.denominator()), (5, 1));
    assert_eq!((options.runs, options.max_stay, options.duration), (10, 28800, 86400));
    assert_eq!((DEFAULT_RUNS, DEFAULT_MAX_STAY, DEFAULT_DURATION), (10, 28800, 86400));
    assert!(!options.continuous && !options.continuous_heap && !options.event_based);
    assert!(!options.skew && !options.binary_search && !options.faithful && !options.verbose);
    let config = Config::new(options).unwrap();
    assert_eq!(config.strategy(), Strategy::Standard);
}

#[test]
fn faults_have_messages() {
    assert_eq!(
        ConfigError::NonPositiveRate.message(),
        "There must be a positive number of cars per hour."
    );
    assert_eq!(
        ConfigError::NonPositiveThreshold.message(),
        "The threshold must be a positive number."
    );
    let all = [
        ConfigError::NonPositiveRate,
        ConfigError::NonPositiveThreshold,
        ConfigError::NoRuns,
        ConfigError::HeapWithEventBased,
        ConfigError::SkewWithoutContinuous,
        ConfigError::FaithfulConflict,
        ConfigError::MalformedDistribution,
        ConfigError::TimeOutOfRange,
    ];
    for (i, fault) in all.iter().enumerate() {
        assert!(!fault.message().is_empty());
        for other in &all[i + 1..] {
            assert_ne!(fault.message(), other.message());
        }
    }
}

#[test]
fn score_counts_every_run_once() {
    let score = Score::from_runs(&vec![3, 0, 7, 7, 1]).unwrap();
    assert_eq!((score.total_left(), score.run_count()), (18, 5));
    let score = Score::from_runs(&vec![0]).unwrap();
    assert_eq!((score.total_left(), score.run_count()), (0, 1));
    assert!(Score::from_runs(&vec![]).is_none());
    let score = Score::from_runs(&vec![usize::MAX / 2, usize::MAX / 2, 1]).unwrap();
    assert_eq!(score.total_left(), (usize::MAX / 2) as u64 * 2 + 1);
    assert!(Score::from_runs(&vec![usize::MAX, 1]).is_none());
    assert!(Score::from_runs(&vec![5, 5]).unwrap().within(&Ratio::new(5, 1).unwrap()));
    assert!(!Score::from_runs(&vec![5, 6]).unwrap().within(&Ratio::new(5, 1).unwrap()));
}

#[test]
fn binary_search_never_tries_capacity_zero() {
    for least in [1usize, 2, 5, 33, 1000] {
        let (_, tried) = binary_search(|c| c >= least);
        assert!(tried.iter().all(|&c| c >= 1));
    }
}
