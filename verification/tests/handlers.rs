//! The decisions of the request handlers.

use kiro_rs::anthropic::handlers::{
    accept_messages, count_tokens, get_models, healthz, map_provider_error,
    override_thinking_from_model_name, plan_messages, readyz, MessagesRequest, Thinking,
};
use kiro_rs::kiro::provider::{ProviderError, UpstreamApiError};
use kiro_rs::kiro::request::ConversationState;
use kiro_rs::model::config::{default_models, ModelLine};

fn request(model: &str) -> MessagesRequest {
    MessagesRequest {
        model: model.to_string(),
        max_tokens: 1000,
        stream: true,
        thinking: None,
        output_config: None,
    }
}

#[test]
fn test_map_provider_error_passes_through_429() {
    let err = ProviderError::Upstream(UpstreamApiError {
        status: 429,
        message: "流式 API 请求失败: 429 Too Many Requests".to_string(),
        retry_after: Some(30),
    });
    let resp = map_provider_error(&err, true);
    assert_eq!(resp.status, 429);
    assert_eq!(resp.retry_after.as_deref(), Some("30"));
}

#[test]
fn test_map_provider_error_429_omits_retry_after_when_disabled() {
    let err = ProviderError::Upstream(UpstreamApiError {
        status: 429,
        message: "流式 API 请求失败: 429 Too Many Requests".to_string(),
        retry_after: Some(30),
    });
    let resp = map_provider_error(&err, false);
    assert_eq!(resp.status, 429);
    assert!(resp.retry_after.is_none());
}

#[test]
fn test_map_provider_error_local_rpm_429_includes_retry_after() {
    let err = ProviderError::Upstream(UpstreamApiError {
        status: 429,
        message: "local credential RPM limit exceeded (8/min)".to_string(),
        retry_after: Some(12),
    });
    let resp = map_provider_error(&err, true);
    assert_eq!(resp.status, 429);
    assert_eq!(resp.retry_after.as_deref(), Some("12"));
}

#[test]
fn test_map_provider_error_passes_through_402() {
    let err = ProviderError::Upstream(UpstreamApiError {
        status: 402,
        message: "流式 API 请求失败（所有凭据已用尽）: 402".to_string(),
        retry_after: None,
    });
    let resp = map_provider_error(&err, true);
    assert_eq!(resp.status, 402);
}

#[test]
fn test_map_provider_error_other_upstream_status_is_502() {
    // 401/403 等凭据/权限类状态不应透传，仍按 502 处理
    let err = ProviderError::Upstream(UpstreamApiError {
        status: 403,
        message: "流式 API 请求失败: 403 Forbidden".to_string(),
        retry_after: None,
    });
    let resp = map_provider_error(&err, true);
    assert_eq!(resp.status, 502);
    assert_eq!(resp.message, "上游 API 调用失败");
}

#[test]
fn test_map_provider_error_plain_error_is_502() {
    let err = ProviderError::Other("网络发送失败".to_string());
    let resp = map_provider_error(&err, true);
    assert_eq!(resp.status, 502);
    assert_eq!(resp.message, "上游 API 调用失败: 网络发送失败");
}

#[test]
fn test_map_provider_error_context_full_is_400() {
    let err = ProviderError::Other("xxx CONTENT_LENGTH_EXCEEDS_THRESHOLD yyy".to_string());
    let resp = map_provider_error(&err, true);
    assert_eq!(resp.status, 400);
}

#[test]
fn a_request_that_is_too_long_is_the_clients_fault() {
    let err = ProviderError::Other("400 Input is too long.".to_string());
    let resp = map_provider_error(&err, true);
    assert_eq!(resp.status, 400);
    assert_eq!(resp.error_type, "invalid_request_error");
    assert_eq!(
        resp.message,
        "Input is too long. Reduce the size of your messages."
    );
}

#[test]
fn a_wait_of_no_seconds_is_told_as_one() {
    let err = ProviderError::Upstream(UpstreamApiError {
        status: 429,
        message: String::new(),
        retry_after: Some(0),
    });
    assert_eq!(
        map_provider_error(&err, true).retry_after.as_deref(),
        Some("1")
    );
}

#[test]
fn probes() {
    assert_eq!(healthz(), r#"{"status":"ok"}"#);
    assert_eq!(
        readyz(None),
        (
            503,
            r#"{"reason":"kiro_provider_not_configured","status":"not_ready"}"#.to_string()
        )
    );
    assert_eq!(
        readyz(Some((0, 2))),
        (
            503,
            r#"{"available":0,"reason":"no_available_credentials","status":"not_ready","total":2}"#
                .to_string()
        )
    );
    assert_eq!(
        readyz(Some((1, 2))),
        (
            200,
            r#"{"available":1,"status":"ready","total":2}"#.to_string()
        )
    );
}

#[test]
fn each_model_is_listed_twice() {
    let line = ModelLine {
        id: "acme".to_string(),
        title: "Acme".to_string(),
    };
    let models = get_models(&default_models(&line));
    assert_eq!(models.len(), 18);
    assert_eq!(models[0].id, "acme-opus-4-8");
    assert_eq!(models[1].id, "acme-opus-4-8-thinking");
    assert_eq!(models[1].display_name, "Acme Opus 4.8 (Thinking)");
    assert_eq!(models[1].created_at, models[0].created);
    assert_eq!(models[17].max_tokens, 64000);
}

#[test]
fn thinking_follows_the_name_of_the_model() {
    let mut r = request("Acme-OPUS-4-6-Thinking");
    override_thinking_from_model_name(&mut r);
    let thinking = r.thinking.as_ref().unwrap();
    assert_eq!(thinking.thinking_type, "adaptive");
    assert_eq!(thinking.budget_tokens, 20000);
    assert_eq!(r.output_config.as_ref().unwrap().effort, "high");

    let mut r = request("acme-sonnet-4-6-thinking");
    override_thinking_from_model_name(&mut r);
    assert_eq!(r.thinking.as_ref().unwrap().thinking_type, "enabled");
    assert!(r.output_config.is_none());

    let mut r = request("acme-opus-4-6");
    override_thinking_from_model_name(&mut r);
    assert!(r.thinking.is_none());
}

#[test]
fn without_anybody_to_ask_a_request_is_refused() {
    let mut r = request("acme-sonnet-4-6-thinking");
    let reply = accept_messages(false, &mut r).unwrap();
    assert_eq!(reply.status, 503);
    assert_eq!(reply.error_type, "service_unavailable");
    assert!(r.thinking.is_none());
    assert!(accept_messages(true, &mut r).is_none());
    assert!(r.thinking.is_some());
}

#[test]
fn a_request_is_planned_from_its_conversion() {
    let mut r = request("m");
    r.thinking = Some(Thinking {
        thinking_type: "disabled".to_string(),
        budget_tokens: 0,
    });
    let state = ConversationState {
        json: r#"{"a":1}"#.to_string(),
    };
    let plan = plan_messages(&r, Ok(state), true).unwrap();
    assert_eq!(
        plan.request_body,
        r#"{"conversationState":{"a":1},"agentMode":"vibe"}"#
    );
    assert!(plan.stream);
    assert!(!plan.thinking_enabled);
    assert!(!plan.extract_thinking);

    let fault = ("invalid_request_error".to_string(), "empty".to_string());
    let reply = plan_messages(&r, Err(fault), true).unwrap_err();
    assert_eq!(reply.status, 400);
    assert_eq!(reply.message, "empty");
}

#[test]
fn thinking_is_set_apart_only_where_it_is_configured() {
    let mut r = request("m");
    r.thinking = Some(Thinking {
        thinking_type: "enabled".to_string(),
        budget_tokens: 1000,
    });
    let state = || ConversationState {
        json: "{}".to_string(),
    };
    let plan = plan_messages(&r, Ok(state()), true).unwrap();
    assert!(plan.thinking_enabled && plan.extract_thinking);
    let plan = plan_messages(&r, Ok(state()), false).unwrap();
    assert!(plan.thinking_enabled && !plan.extract_thinking);
}

#[test]
fn a_count_of_tokens_is_at_least_one() {
    assert_eq!(count_tokens(0), 1);
    assert_eq!(count_tokens(17), 17);
    assert_eq!(count_tokens(0x1_0000_0005), 5);
    assert_eq!(count_tokens(0xffff_ffff), 1);
}
