//! Cooperative futures and a round-robin executor for them.
//!
//! A [`SimpleFuture`] is a state machine that is advanced by polling. The
//! executor in [`executor`] drives a collection of such tasks to completion,
//! giving every unfinished task one poll per pass; [`schedule`] is the
//! mathematical model of the order in which it polls them.

pub mod executor;
pub mod real_future;
pub mod schedule;
pub mod simple_future;
pub mod traffic_light;

pub use executor::{example_round_robin_executor, fake_main, run_round_robin};
pub use real_future::{RealFuture, RealPoll};
pub use simple_future::SimpleFuture;
pub use traffic_light::TrafficLightFuture;
