//! Utilities around configuration loading and logging configuration.

pub mod configuration;
pub mod logging;
