//! What can be configured.

pub mod config;
