//! The Anthropic side: thinking tags, server-sent events, the response stream.

pub mod upstream;
pub mod thinking;
pub mod sse;
pub mod state_manager;
pub mod stream_model;
pub mod stream;
pub mod protocol;
pub mod stream_laws;
pub mod stream_counts;
pub mod stream_ends;
pub mod stream_calls;
pub mod stream_texts;
pub mod stream_kinds;
pub mod stream_faults;
pub mod session;
pub mod session_laws;
pub mod handlers;
pub mod complete;
pub mod agreement;
