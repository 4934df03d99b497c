use lot_simulator::capacity_search::{BinarySearch, LinearScan, Score};
use lot_simulator::cli::{Cli, Config};
use lot_simulator::engine::run_once;
use lot_simulator::event_simulator::ArrivalSchedule;
use lot_simulator::probability::Ratio;
use lot_simulator::random_generator::RandomSource;

fn config() -> Config {
    Config::new(Cli {
        cars_per_hour: Ratio::new(60, 1).unwrap(),
        runs: 30,
        threshold: Ratio::new(5, 1).unwrap(),
        continuous: true,
        continuous_heap: true,
        event_based: false,
        skew: false,
        binary_search: false,
        faithful: false,
        max_stay: 1200,
        duration: 6000,
        verbose: false,
    })
    .unwrap()
}

fn accepted(config: &Config, capacity: usize, rng: &mut RandomSource) -> bool {
    let options = config.options();
    let mut total = 0u64;
    for _ in 0..options.runs {
        total += run_once(config, capacity, ArrivalSchedule::new(options.duration), rng) as u64;
    }
    Score::new(total, options.runs).unwrap().within(&options.threshold)
}

fn linear(config: &Config, rng: &mut RandomSource) -> usize {
    let mut scan = LinearScan::new();
    while let Some(capacity) = scan.next_capacity() {
        let verdict = accepted(config, capacity, rng);
        scan.record(capacity, verdict);
    }
    scan.result().unwrap()
}

fn binary(config: &Config, rng: &mut RandomSource) -> usize {
    let mut search = BinarySearch::new();
    while let Some(capacity) = search.next_capacity() {
        let verdict = accepted(config, capacity, rng);
        assert!(verdict || search.has_room());
        search.report(verdict);
    }
    search.result().unwrap()
}

#[test]
fn searches_converge_to_the_same_capacity() {
    let config = config();
    let mut rng = RandomSource::from_seed(2024);
    let mut results = Vec::new();
    for _ in 0..3 {
        results.push(linear(&config, &mut rng));
        results.push(binary(&config, &mut rng));
    }
    let low = *results.iter().min().unwrap();
    let high = *results.iter().max().unwrap();
    assert!(high - low <= 2, "{results:?}");
    assert!(low >= 2 && high <= 40, "{results:?}");
}

#[test]
fn ample_capacity_is_always_accepted() {
    let config = config();
    let mut rng = RandomSource::from_seed(1);
    assert!(accepted(&config, 6000, &mut rng));
    assert!(!accepted(&config, 0, &mut rng));
}
