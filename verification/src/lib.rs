//! Estimates the smallest parking lot that keeps the queue of arriving cars
//! short, by simulating the lot over a fixed horizon.
//!
//! Time advances in ticks of one second. Randomness enters as uniform draws
//! of 24 bits, and every quantity derived from a draw is computed in exact
//! integer arithmetic.
//!
//! - [`probability`] and [`random_generator`]: rates, per-tick
//!   probabilities, draws and Bernoulli events.
//! - [`triangular_distribution`] and [`roots`]: the density of stay
//!   durations and its sampler.
//! - [`parking_lot`] and [`departure_schedule`]: the occupancy containers
//!   and the schedule of pending departures.
//! - [`faithful`], [`simulator`], [`continuous_simulator`] and
//!   [`event_simulator`]: the four simulation strategies.
//! - [`lockstep`]: the event-jump strategy and the tick-by-tick strategy
//!   with continuous timing agree on the same arrivals and stays.
//! - [`cli`], [`engine`] and [`capacity_search`]: the configuration, a
//!   single run of the strategy it selects, and the search over capacities.

pub mod capacity_search;
pub mod cli;
pub mod continuous_simulator;
pub mod departure_schedule;
pub mod engine;
pub mod event_simulator;
pub mod faithful;
pub mod lockstep;
pub mod parking_lot;
pub mod probability;
pub mod random_generator;
pub mod roots;
pub mod simulator;
pub mod triangular_distribution;
