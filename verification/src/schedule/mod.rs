//! Schedules: systems run in an order that respects their constraints.
pub mod schedule;
pub mod system_config;
