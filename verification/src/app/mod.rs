//! The state of an application: its global resources, commands and events.
pub mod globals;
pub mod commands;
pub mod event;
pub mod app;
