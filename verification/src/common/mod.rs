//! What the protocols have in common.

pub mod passthrough_stats;
pub mod provider_error;
