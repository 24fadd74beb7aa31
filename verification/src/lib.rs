//! A proxy that turns the event stream of the Kiro service into the Anthropic
//! messages protocol, together with the bookkeeping around it.
//!
//! Every function of this crate carries a contract that Verus proves.

pub mod outside;
pub mod text;
pub mod anthropic;
pub mod kiro;
pub mod metrics;
pub mod common;
pub mod model;
pub mod model_stats;
pub mod admin;
pub mod app;
pub mod desktop;
