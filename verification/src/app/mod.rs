//! How the service starts.

pub mod paths;
pub mod startup;
pub mod sso_scan;
pub mod host_info;
