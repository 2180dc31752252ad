//! The decisions of the runner that drives an application from a windowing event loop: which
//! windows exist, when their surfaces are configured, and when the loop exits.
pub mod event_loop;
pub mod windows;
