//! The decisions of the desktop shell around the service.

pub mod lightweight;
pub mod log_buffer;
pub mod settings;
pub mod shell;
