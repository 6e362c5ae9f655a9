//! A day-planning library: it turns a bounded time horizon, a set of busy
//! intervals, and a pool of prioritized, dependency-linked tasks into a
//! single, time-ordered plan.
//!
//! Instants are whole seconds since the Unix epoch (`i64`); durations are
//! whole seconds. Urgency scores and configuration coefficients are
//! fixed-point numbers in millionths (micro-units), so that the urgency
//! model is exact integer arithmetic.

pub mod caldotcom;
pub mod config;
pub mod dates;
pub mod free_time;
pub mod scheduler;
pub mod strutil;
pub mod task;
pub mod taskwarrior;
