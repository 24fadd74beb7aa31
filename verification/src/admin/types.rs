//! What goes between the administrator and the service.

use vstd::prelude::*;
use vstd::string::*;
use crate::model::config::{ChunkedWritePolicy, ModelDef};

verus! {

/// The credentials and how they fare. `R` is what the pool says of their requests in the
/// last minute.
#[derive(Debug)]
pub struct CredentialsStatusResponse<R> {
    pub total: usize,
    pub available: usize,
    pub current_id: u64,
    pub credentials: Vec<CredentialStatusItem<R>>,
}

/// A credential and how it fares.
#[derive(Debug)]
pub struct CredentialStatusItem<R> {
    pub id: u64,
    /// A lower number comes first.
    pub priority: u32,
    pub disabled: bool,
    pub failure_count: u32,
    pub is_current: bool,
    pub expires_at: Option<String>,
    pub auth_method: Option<String>,
    pub has_profile_arn: bool,
    pub refresh_token_hash: Option<String>,
    pub api_key_hash: Option<String>,
    pub masked_api_key: Option<String>,
    pub email: Option<String>,
    pub success_count: u64,
    pub last_used_at: Option<String>,
    pub has_proxy: bool,
    pub proxy_url: Option<String>,
    pub refresh_failure_count: u32,
    pub disabled_reason: Option<String>,
    pub endpoint: String,
    /// Its requests in the last minute and their limits, as the pool gives them.
    pub rpm: R,
    pub kind: Option<String>,
    pub base_url: Option<String>,
}

/// Switches a credential off or on.
#[derive(Debug, Clone, Copy)]
pub struct SetDisabledRequest {
    pub disabled: bool,
}

/// Gives a credential another priority.
#[derive(Debug, Clone, Copy)]
pub struct SetPriorityRequest {
    pub priority: u32,
}

/// Adds a credential.
#[derive(Debug)]
pub struct AddCredentialRequest {
    pub refresh_token: Option<String>,
    pub auth_method: String,
    pub client_id: Option<String>,
    pub client_secret: Option<String>,
    pub priority: u32,
    pub region: Option<String>,
    pub auth_region: Option<String>,
    pub api_region: Option<String>,
    pub machine_id: Option<String>,
    pub email: Option<String>,
    /// The word `direct` stands for no proxy.
    pub proxy_url: Option<String>,
    pub proxy_username: Option<String>,
    pub proxy_password: Option<String>,
    pub kiro_api_key: Option<String>,
    pub endpoint: Option<String>,
    /// The protocol of a credential that forwards requests as they came.
    pub kind: Option<String>,
    pub base_url: Option<String>,
    pub upstream_api_key: Option<String>,
}

/// How a credential authenticates where nothing else is said.
pub fn default_auth_method() -> (r: String)
    ensures
        r@ == "social"@,
{
    "social".to_owned()
}

/// A credential was added.
#[derive(Debug)]
pub struct AddCredentialResponse {
    pub success: bool,
    pub message: String,
    pub credential_id: u64,
    pub email: Option<String>,
}

/// How credentials are picked.
#[derive(Debug)]
pub struct LoadBalancingModeResponse {
    pub mode: String,
}

/// Sets how credentials are picked.
#[derive(Debug)]
pub struct SetLoadBalancingModeRequest {
    pub mode: String,
}

/// The part of the configuration that can be edited.
#[derive(Debug)]
pub struct AppConfigResponse {
    pub api_key: String,
    pub admin_api_key: String,
    pub credential_rpm: u32,
    pub credential_rpm_opus: Option<u32>,
    pub credential_rpm_sonnet: Option<u32>,
    pub credential_rpm_haiku: Option<u32>,
    pub credential_rpm_max_wait_ms: u64,
    pub kiro_version: String,
    pub machine_id: Option<String>,
    pub system_version: String,
    pub node_version: String,
    pub streaming_sdk_version: String,
    pub models: Vec<ModelDef>,
    pub default_model: Option<String>,
    pub model_aliases: Vec<(String, String)>,
    pub chunked_write_policy: ChunkedWritePolicy,
    pub codex_truncation_correction: bool,
    pub proxy_url: Option<String>,
    pub proxy_username: Option<String>,
    pub proxy_password_set: bool,
}

/// Edits the configuration. What is missing stays as it is; an empty text clears what
/// can be cleared.
#[derive(Debug)]
pub struct UpdateAppConfigRequest {
    pub api_key: String,
    pub admin_api_key: Option<String>,
    pub credential_rpm: u32,
    pub credential_rpm_opus: Option<u32>,
    pub credential_rpm_sonnet: Option<u32>,
    pub credential_rpm_haiku: Option<u32>,
    pub credential_rpm_max_wait_ms: Option<u64>,
    pub kiro_version: String,
    pub machine_id: Option<String>,
    pub system_version: String,
    pub node_version: String,
    pub streaming_sdk_version: String,
    pub models: Vec<ModelDef>,
    pub default_model: Option<String>,
    pub model_aliases: Vec<(String, String)>,
    pub chunked_write_policy: Option<ChunkedWritePolicy>,
    pub codex_truncation_correction: Option<bool>,
    pub proxy_url: Option<String>,
    pub proxy_username: Option<String>,
    pub proxy_password: Option<String>,
}

/// The counters of the process and of the credentials.
#[derive(Debug, Clone, Copy)]
pub struct MetricsResponse {
    pub requests_success: u64,
    pub requests_error: u64,
    pub local_rpm_rejected: u64,
    pub stream_decode_failures: u64,
    pub upstream_rate_limited: u64,
    pub stream_interrupted: u64,
    pub stream_restarted: u64,
    pub uptime_seconds: u64,
    pub credentials_available: usize,
    pub credentials_total: usize,
    pub current_id: u64,
}

/// Asks for counts over time.
#[derive(Debug)]
pub struct TimeseriesQuery {
    /// In seconds since 1970, as `to` is.
    pub from: Option<i64>,
    pub to: Option<i64>,
    /// `hour` or `day`.
    pub bucket: Option<String>,
}

/// Something was done.
#[derive(Debug)]
pub struct SuccessResponse {
    pub success: bool,
    pub message: String,
}

impl SuccessResponse {
    pub fn new(message: String) -> (r: Self)
        ensures
            r.success,
            r.message == message,
    {
        SuccessResponse { success: true, message }
    }
}

/// Something was not done.
#[derive(Debug)]
pub struct AdminErrorResponse {
    pub error: AdminError,
}

/// Why something was not done.
#[derive(Debug)]
pub struct AdminError {
    pub error_type: String,
    pub message: String,
}

impl AdminErrorResponse {
    pub fn new(error_type: &str, message: &str) -> (r: Self)
        ensures
            r.error.error_type@ == error_type@,
            r.error.message@ == message@,
    {
        AdminErrorResponse {
            error: AdminError { error_type: error_type.to_owned(), message: message.to_owned() },
        }
    }

    /// The request makes no sense.
    pub fn invalid_request(message: &str) -> (r: Self)
        ensures
            r.error.error_type@ == "invalid_request"@,
            r.error.message@ == message@,
    {
        Self::new("invalid_request", message)
    }

    /// The administrator's key is wrong or missing.
    pub fn authentication_error() -> (r: Self)
        ensures
            r.error.error_type@ == "authentication_error"@,
            r.error.message@ == "Invalid or missing admin API key"@,
    {
        Self::new("authentication_error", "Invalid or missing admin API key")
    }

    /// There is no such thing.
    pub fn not_found(message: &str) -> (r: Self)
        ensures
            r.error.error_type@ == "not_found"@,
            r.error.message@ == message@,
    {
        Self::new("not_found", message)
    }

    /// The upstream service failed.
    pub fn api_error(message: &str) -> (r: Self)
        ensures
            r.error.error_type@ == "api_error"@,
            r.error.message@ == message@,
    {
        Self::new("api_error", message)
    }

    /// This service failed.
    pub fn internal_error(message: &str) -> (r: Self)
        ensures
            r.error.error_type@ == "internal_error"@,
            r.error.message@ == message@,
    {
        Self::new("internal_error", message)
    }
}

} // verus!
