//! The options of a capacity search and their checked form.

use crate::probability::Ratio;
use vstd::prelude::*;

verus! {

/// Why a configuration is refused.
#[derive(Clone, Copy, Debug, PartialEq, Eq, Structural)]
pub enum ConfigError {
    /// The number of cars per hour is not positive.
    NonPositiveRate,
    /// The threshold is not positive.
    NonPositiveThreshold,
    /// There is no run per capacity.
    NoRuns,
    /// The heap-scheduled and the event-based strategy are both chosen.
    HeapWithEventBased,
    /// The skew is chosen without the continuous timing.
    SkewWithoutContinuous,
    /// The faithful strategy is chosen together with the continuous timing
    /// or with the binary search.
    FaithfulConflict,
    /// The longest stay is below two ticks, so that the stay distribution
    /// is degenerate.
    MalformedDistribution,
    /// A departure could be scheduled beyond the range of a timestamp.
    TimeOutOfRange,
}

impl ConfigError {
    /// The message that describes the fault.
    pub open spec fn message_spec(self) -> Seq<char> {
        match self {
            ConfigError::NonPositiveRate => "There must be a positive number of cars per hour."@,
            ConfigError::NonPositiveThreshold => "The threshold must be a positive number."@,
            ConfigError::NoRuns => "There must be at least one run per capacity."@,
            ConfigError::HeapWithEventBased => "The heap-based and the event-based strategy cannot be used together."@,
            ConfigError::SkewWithoutContinuous => "The skew requires the continuous method."@,
            ConfigError::FaithfulConflict => "The faithful strategy cannot be used with the continuous method or the binary search."@,
            ConfigError::MalformedDistribution => "The maximum stay must be at least two seconds."@,
            ConfigError::TimeOutOfRange => "The duration and the maximum stay are too long."@,
        }
    }

    /// The message that describes the fault.
    pub fn message(&self) -> (text: &'static str)
        ensures
            text@ == self.message_spec(),
    {
        match self {
            ConfigError::NonPositiveRate => "There must be a positive number of cars per hour.",
            ConfigError::NonPositiveThreshold => "The threshold must be a positive number.",
            ConfigError::NoRuns => "There must be at least one run per capacity.",
            ConfigError::HeapWithEventBased => "The heap-based and the event-based strategy cannot be used together.",
            ConfigError::SkewWithoutContinuous => "The skew requires the continuous method.",
            ConfigError::FaithfulConflict => "The faithful strategy cannot be used with the continuous method or the binary search.",
            ConfigError::MalformedDistribution => "The maximum stay must be at least two seconds.",
            ConfigError::TimeOutOfRange => "The duration and the maximum stay are too long.",
        }
    }
}

/// The number of runs per capacity where none is given.
pub const DEFAULT_RUNS: u32 = 10;

/// The longest stay where none is given: eight hours.
pub const DEFAULT_MAX_STAY: u32 = 28800;

/// The horizon of a run where none is given: one day.
pub const DEFAULT_DURATION: u32 = 86400;

/// The simulation strategy that a configuration selects.
#[derive(Clone, Copy, Debug, PartialEq, Eq, Structural)]
pub enum Strategy {
    /// Per-tick, with a per-occupant departure probability and ordered
    /// queues.
    Faithful,
    /// Per-tick, with discrete or continuous timing.
    Standard,
    /// Per-tick, with departures scheduled on parking.
    ContinuousHeap,
    /// Clock jumps between precomputed arrivals and scheduled departures.
    EventJump,
}

/// The options of a capacity search, as given before they are checked.
#[derive(Clone, Copy, Debug)]
pub struct Cli {
    /// The number of cars that arrive per hour.
    pub cars_per_hour: Ratio,
    /// The number of runs per capacity.
    pub runs: u32,
    /// The largest acceptable mean number of cars left in the queue.
    pub threshold: Ratio,
    /// Sample stay durations instead of testing departure per tick.
    pub continuous: bool,
    /// Use the heap-scheduled continuous strategy.
    pub continuous_heap: bool,
    /// Use the event-based strategy.
    pub event_based: bool,
    /// Transform the sampler's draws by the cube root.
    pub skew: bool,
    /// Search capacities by bisection instead of a linear scan.
    pub binary_search: bool,
    /// Use the tick-faithful strategy.
    pub faithful: bool,
    /// The longest stay, in ticks.
    pub max_stay: u32,
    /// The horizon of a run, in ticks.
    pub duration: u32,
    /// Report every run.
    pub verbose: bool,
}

impl Cli {
    /// The options for the given arrival rate where nothing else is chosen:
    /// ten runs per capacity, a threshold of five cars, the standard
    /// strategy with discrete timing and a linear scan, a longest stay of
    /// eight hours and a horizon of one day.
    pub fn new(cars_per_hour: Ratio) -> (options: Cli)
        ensures
            options == (Cli {
                cars_per_hour,
                runs: DEFAULT_RUNS,
                threshold: options.threshold,
                continuous: false,
                continuous_heap: false,
                event_based: false,
                skew: false,
                binary_search: false,
                faithful: false,
                max_stay: DEFAULT_MAX_STAY,
                duration: DEFAULT_DURATION,
                verbose: false,
            }),
            options.threshold.num() == 5,
            options.threshold.den() == 1,
    {
        Cli {
            cars_per_hour,
            runs: DEFAULT_RUNS,
            threshold: Ratio::new(5, 1).unwrap(),
            continuous: false,
            continuous_heap: false,
            event_based: false,
            skew: false,
            binary_search: false,
            faithful: false,
            max_stay: DEFAULT_MAX_STAY,
            duration: DEFAULT_DURATION,
            verbose: false,
        }
    }

    /// The first reason to refuse these options, if there is one.
    pub open spec fn fault(self) -> Option<ConfigError> {
        if self.cars_per_hour.num() == 0 {
            Some(ConfigError::NonPositiveRate)
        } else if self.threshold.num() == 0 {
            Some(ConfigError::NonPositiveThreshold)
        } else if self.runs == 0 {
            Some(ConfigError::NoRuns)
        } else if self.continuous_heap && self.event_based {
            Some(ConfigError::HeapWithEventBased)
        } else if self.skew && !self.continuous {
            Some(ConfigError::SkewWithoutContinuous)
        } else if self.faithful && (self.continuous || self.binary_search) {
            Some(ConfigError::FaithfulConflict)
        } else if self.max_stay < 2 {
            Some(ConfigError::MalformedDistribution)
        } else if self.duration + self.latest_stay() > u32::MAX {
            Some(ConfigError::TimeOutOfRange)
        } else {
            None
        }
    }

    /// How far past the horizon the selected strategy can schedule a
    /// departure: not at all where departures are decided tick by tick, and
    /// by the longest stay where the duration of a stay is sampled.
    pub open spec fn latest_stay(self) -> int {
        match self.selected() {
            Strategy::Faithful => 0,
            Strategy::Standard => if self.continuous {
                self.max_stay as int
            } else {
                0
            },
            Strategy::ContinuousHeap => self.max_stay as int,
            Strategy::EventJump => self.max_stay as int,
        }
    }

    /// The strategy these options select: the faithful one if chosen, else
    /// the event-based one if chosen, else the heap-scheduled one if chosen,
    /// else the standard one.
    pub open spec fn selected(self) -> Strategy {
        if self.faithful {
            Strategy::Faithful
        } else if self.event_based {
            Strategy::EventJump
        } else if self.continuous_heap {
            Strategy::ContinuousHeap
        } else {
            Strategy::Standard
        }
    }
}

/// The checked configuration of a capacity search.
#[derive(Clone, Copy, Debug)]
pub struct Config {
    options: Cli,
}

impl View for Config {
    type V = Cli;

    closed spec fn view(&self) -> Cli {
        self.options
    }
}

impl Config {
    /// The invariant of a configuration: its options have no fault.
    #[verifier::type_invariant]
    pub closed spec fn wf(self) -> bool {
        self.options.fault().is_none()
    }

    /// Checks the options, and refuses them with their first fault.
    pub fn new(options: Cli) -> (r: Result<Config, ConfigError>)
        ensures
            r matches Ok(config) ==> options.fault().is_none() && config@ == options && config.wf(),
            r matches Err(e) ==> options.fault() == Some(e),
    {
        if !options.cars_per_hour.is_positive() {
            Err(ConfigError::NonPositiveRate)
        } else if !options.threshold.is_positive() {
            Err(ConfigError::NonPositiveThreshold)
        } else if options.runs == 0 {
            Err(ConfigError::NoRuns)
        } else if options.continuous_heap && options.event_based {
            Err(ConfigError::HeapWithEventBased)
        } else if options.skew && !options.continuous {
            Err(ConfigError::SkewWithoutContinuous)
        } else if options.faithful && (options.continuous || options.binary_search) {
            Err(ConfigError::FaithfulConflict)
        } else if options.max_stay < 2 {
            Err(ConfigError::MalformedDistribution)
        } else {
            let stay: u64 = options.max_stay as u64;
            let latest: u64 = if options.faithful {
                0
            } else if options.event_based || options.continuous_heap || options.continuous {
                stay
            } else {
                0
            };
            if options.duration as u64 + latest > u32::MAX as u64 {
                Err(ConfigError::TimeOutOfRange)
            } else {
                Ok(Config { options })
            }
        }
    }

    /// The options that were checked.
    pub fn options(&self) -> (options: Cli)
        ensures
            options == self@,
            options.fault().is_none(),
    {
        proof {
            use_type_invariant(self);
        }
        self.options
    }

    /// The strategy that the configuration selects.
    pub fn strategy(&self) -> (strategy: Strategy)
        ensures
            strategy == self@.selected(),
    {
        if self.options.faithful {
            Strategy::Faithful
        } else if self.options.event_based {
            Strategy::EventJump
        } else if self.options.continuous_heap {
            Strategy::ContinuousHeap
        } else {
            Strategy::Standard
        }
    }
}

} // verus!
