//! What the administrator of the service can see and change.

pub mod types;
pub mod service;
pub mod app_config;
pub mod model_table;
