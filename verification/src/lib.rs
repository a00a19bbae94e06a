//! A work-hours log: timed sessions under free-form tags, of which at most one
//! is running at any moment, and per-tag totals over the current day, ISO week
//! or calendar month.
//!
//! Every operation takes the current time as an argument, so that its outcome
//! is a function of its inputs; reading the clock is left to the caller.

pub mod calendar;
pub mod display;
pub mod report;
pub mod session;
pub mod store;
