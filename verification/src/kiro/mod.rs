//! The Kiro side: the events that the upstream service sends.

pub mod events;
pub mod provider;
pub mod call;
pub mod call_laws;
pub mod request;
pub mod usage_limits;
