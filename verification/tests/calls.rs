//! Calls of the upstream service and their retries.

use kiro_rs::kiro::call::{CallAction, CallEvent, CallKind, UpstreamCall, Wait};
use kiro_rs::kiro::provider::{
    build_passthrough_request, call_model, endpoint_for, extract_model_from_request,
    max_retries, parse_retry_after, rate_limit_delay, rate_limit_delay_with, retry_delay,
    retry_delay_with, PassthroughProtocol, ProviderError, RpmChargeMode,
};
use kiro_rs::metrics::Metrics;

fn rejected(status: u16, body: &str) -> CallEvent {
    CallEvent::Rejected {
        status,
        status_text: status.to_string(),
        body: body.to_string(),
        retry_after: None,
        monthly_limit: false,
        token_invalid: false,
    }
}

fn acquired(id: u64) -> CallEvent {
    CallEvent::Acquired {
        id,
        passthrough: false,
    }
}

#[test]
fn a_call_that_succeeds_at_once() {
    let mut m = Metrics::new();
    let (mut call, first) = UpstreamCall::start(CallKind::Stream, 1, &mut m);
    match first {
        CallAction::Acquire { rpm, wait } => {
            assert_eq!(rpm, RpmChargeMode::Charge);
            assert_eq!(wait, Wait::No);
        }
        other => panic!("{other:?}"),
    }
    assert!(matches!(call.step(acquired(4), &mut m), CallAction::Send { id: 4 }));
    assert!(matches!(
        call.step(CallEvent::Succeeded, &mut m),
        CallAction::Succeed {
            id: 4,
            passthrough: false
        }
    ));
    assert_eq!(m.requests_success, 1);
    assert_eq!(m.requests_error, 0);
}

#[test]
fn tries_are_bounded_and_the_last_error_stands() {
    let mut m = Metrics::new();
    let (mut call, mut action) = UpstreamCall::start(CallKind::Stream, 1, &mut m);
    let mut tries = 0;
    loop {
        match action {
            CallAction::Acquire { rpm, .. } => {
                tries += 1;
                if tries == 1 {
                    assert_eq!(rpm, RpmChargeMode::Charge);
                } else {
                    assert_eq!(rpm, RpmChargeMode::Reuse(4));
                }
                action = call.step(acquired(4), &mut m);
            }
            CallAction::Send { .. } => {
                action = call.step(
                    CallEvent::Rejected {
                        status: 429,
                        status_text: "429 Too Many Requests".to_string(),
                        body: "slow".to_string(),
                        retry_after: Some(3),
                        monthly_limit: false,
                        token_invalid: false,
                    },
                    &mut m,
                );
            }
            CallAction::Fail(e) => {
                match e {
                    ProviderError::Upstream(u) => {
                        assert_eq!(u.status, 429);
                        assert_eq!(u.retry_after, Some(3));
                        assert_eq!(
                            u.message,
                            "流式 API 请求失败: 429 Too Many Requests slow"
                        );
                    }
                    other => panic!("{other:?}"),
                }
                break;
            }
            other => panic!("{other:?}"),
        }
    }
    assert_eq!(tries, 3);
    assert_eq!(m.requests_error, 1);
    assert_eq!(m.upstream_rate_limited, 1);
}

#[test]
fn waits_follow_the_kind_of_failure() {
    let mut m = Metrics::new();
    let (mut call, _) = UpstreamCall::start(CallKind::NonStream, 2, &mut m);
    call.step(acquired(1), &mut m);
    match call.step(rejected(503, ""), &mut m) {
        CallAction::Acquire { wait, .. } => assert_eq!(wait, Wait::Retry { attempt: 0 }),
        other => panic!("{other:?}"),
    }
    call.step(acquired(1), &mut m);
    match call.step(rejected(429, ""), &mut m) {
        CallAction::Acquire { wait, .. } => assert_eq!(
            wait,
            Wait::RateLimit {
                attempt: 1,
                retry_after: None
            }
        ),
        other => panic!("{other:?}"),
    }
    call.step(acquired(1), &mut m);
    let event = CallEvent::NotSent {
        message: "broken pipe".to_string(),
    };
    match call.step(event, &mut m) {
        CallAction::Acquire { wait, .. } => assert_eq!(wait, Wait::Retry { attempt: 2 }),
        other => panic!("{other:?}"),
    }
}

#[test]
fn a_credential_that_cannot_be_used_is_reported() {
    let mut m = Metrics::new();
    let (mut call, _) = UpstreamCall::start(CallKind::NonStream, 1, &mut m);
    for attempt in 0..3 {
        call.step(acquired(7), &mut m);
        let event = CallEvent::NotBuilt {
            message: "no url".to_string(),
        };
        assert!(matches!(
            call.step(event, &mut m),
            CallAction::ReportFailure { id: 7 }
        ));
        match call.step(CallEvent::Available(false), &mut m) {
            CallAction::Acquire { wait, .. } => {
                assert!(attempt < 2);
                assert_eq!(wait, Wait::No);
            }
            CallAction::Fail(ProviderError::Other(s)) => {
                assert_eq!((attempt, s.as_str()), (2, "no url"))
            }
            other => panic!("{other:?}"),
        }
    }
    assert_eq!(m.requests_error, 1);
}

#[test]
fn a_token_is_renewed_once() {
    let mut m = Metrics::new();
    let (mut call, _) = UpstreamCall::start(CallKind::Stream, 1, &mut m);
    let refused = || CallEvent::Rejected {
        status: 403,
        status_text: "403 Forbidden".to_string(),
        body: "b".to_string(),
        retry_after: None,
        monthly_limit: false,
        token_invalid: true,
    };
    call.step(acquired(4), &mut m);
    assert!(matches!(
        call.step(refused(), &mut m),
        CallAction::ForceRefresh { id: 4 }
    ));
    assert!(matches!(
        call.step(CallEvent::Refreshed(true), &mut m),
        CallAction::Acquire { .. }
    ));
    call.step(acquired(4), &mut m);
    assert!(matches!(
        call.step(refused(), &mut m),
        CallAction::ReportFailure { id: 4 }
    ));
    match call.step(CallEvent::Available(false), &mut m) {
        CallAction::Fail(ProviderError::Upstream(e)) => {
            assert_eq!(e.status, 403);
            assert_eq!(
                e.message,
                "流式 API 请求失败（所有凭据已用尽）: 403 Forbidden b"
            );
        }
        other => panic!("{other:?}"),
    }
    assert_eq!(m.requests_error, 1);
}

#[test]
fn a_refresh_that_fails_is_held_against_the_credential() {
    let mut m = Metrics::new();
    let (mut call, _) = UpstreamCall::start(CallKind::Mcp, 1, &mut m);
    call.step(acquired(4), &mut m);
    let event = CallEvent::Rejected {
        status: 401,
        status_text: "401 Unauthorized".to_string(),
        body: String::new(),
        retry_after: None,
        monthly_limit: false,
        token_invalid: true,
    };
    call.step(event, &mut m);
    assert!(matches!(
        call.step(CallEvent::Refreshed(false), &mut m),
        CallAction::ReportFailure { id: 4 }
    ));
    assert!(matches!(
        call.step(CallEvent::Available(true), &mut m),
        CallAction::Acquire { .. }
    ));
}

#[test]
fn a_quota_that_is_used_up() {
    let mut m = Metrics::new();
    let exhausted = || CallEvent::Rejected {
        status: 402,
        status_text: "402 Payment Required".to_string(),
        body: "q".to_string(),
        retry_after: None,
        monthly_limit: true,
        token_invalid: false,
    };
    let (mut call, _) = UpstreamCall::start(CallKind::NonStream, 1, &mut m);
    call.step(acquired(9), &mut m);
    assert!(matches!(
        call.step(exhausted(), &mut m),
        CallAction::ReportQuotaExhausted { id: 9 }
    ));
    match call.step(CallEvent::Available(false), &mut m) {
        CallAction::Fail(ProviderError::Upstream(e)) => {
            assert_eq!(e.status, 402);
            assert_eq!(
                e.message,
                "非流式 API 请求失败（所有凭据已用尽）: 402 Payment Required q"
            );
        }
        other => panic!("{other:?}"),
    }
    assert_eq!(m.requests_error, 1);

    let (mut call, _) = UpstreamCall::start(CallKind::Mcp, 1, &mut m);
    call.step(acquired(9), &mut m);
    call.step(exhausted(), &mut m);
    match call.step(CallEvent::Available(false), &mut m) {
        CallAction::Fail(ProviderError::Other(s)) => {
            assert_eq!(s, "MCP 请求失败（所有凭据已用尽）: 402 Payment Required q")
        }
        other => panic!("{other:?}"),
    }
    assert_eq!(m.requests_error, 2);
}

#[test]
fn a_forwarding_credential_without_a_balance() {
    let mut m = Metrics::new();
    let (mut call, _) = UpstreamCall::start(CallKind::Stream, 1, &mut m);
    let event = CallEvent::Acquired {
        id: 2,
        passthrough: true,
    };
    call.step(event, &mut m);
    assert!(matches!(
        call.step(rejected(403, "x INSUFFICIENT_BALANCE y"), &mut m),
        CallAction::ReportQuotaExhausted { id: 2 }
    ));
}

#[test]
fn a_fault_of_the_request_ends_the_call() {
    for status in [400, 404, 422] {
        let mut m = Metrics::new();
        let (mut call, _) = UpstreamCall::start(CallKind::Stream, 3, &mut m);
        call.step(acquired(1), &mut m);
        match call.step(rejected(status, "bad"), &mut m) {
            CallAction::Fail(ProviderError::Other(s)) => {
                assert_eq!(s, format!("流式 API 请求失败: {status} bad"))
            }
            other => panic!("{other:?}"),
        }
        assert_eq!(m.requests_error, 1);
    }
}

#[test]
fn a_local_limit_ends_the_call() {
    let mut m = Metrics::new();
    let (mut call, _) = UpstreamCall::start(CallKind::Stream, 3, &mut m);
    let event = CallEvent::RpmExceeded {
        message: "limit".to_string(),
        retry_after: 12,
    };
    match call.step(event, &mut m) {
        CallAction::Fail(ProviderError::Upstream(e)) => {
            assert_eq!((e.status, e.retry_after), (429, Some(12)))
        }
        other => panic!("{other:?}"),
    }
    assert_eq!(m.local_rpm_rejected, 1);
    assert_eq!(m.requests_error, 0);
}

#[test]
fn without_credentials_there_is_no_try() {
    let mut m = Metrics::new();
    let (_, action) = UpstreamCall::start(CallKind::Mcp, 0, &mut m);
    match action {
        CallAction::Fail(ProviderError::Other(s)) => {
            assert_eq!(s, "MCP 请求失败：已达到最大重试次数（0次）")
        }
        other => panic!("{other:?}"),
    }
    assert_eq!(m.requests_error, 1);
}

#[test]
fn no_client_ends_the_call() {
    let mut m = Metrics::new();
    let (mut call, _) = UpstreamCall::start(CallKind::Stream, 3, &mut m);
    call.step(acquired(1), &mut m);
    let event = CallEvent::NoClient {
        message: "tls".to_string(),
    };
    assert!(matches!(
        call.step(event, &mut m),
        CallAction::Fail(ProviderError::Other(_))
    ));
    assert_eq!(m.requests_error, 1);
}

#[test]
fn a_credential_is_sent_on_three_times() {
    let mut m = Metrics::new();
    let (mut call, mut action) = UpstreamCall::start(CallKind::Stream, 3, &mut m);
    let mut sends = 0;
    let mut picks = 0;
    loop {
        action = match action {
            CallAction::Acquire { .. } => {
                picks += 1;
                call.step(acquired(5), &mut m)
            }
            CallAction::Send { id } => {
                assert_eq!(id, 5);
                sends += 1;
                call.step(rejected(503, "busy"), &mut m)
            }
            CallAction::Fail(ProviderError::Upstream(e)) => {
                assert_eq!(e.status, 503);
                break;
            }
            other => panic!("{other:?}"),
        };
    }
    assert_eq!((sends, picks), (3, 9));
    assert_eq!(m.requests_error, 1);
}

#[test]
fn other_credentials_take_over() {
    let mut m = Metrics::new();
    let (mut call, _) = UpstreamCall::start(CallKind::Stream, 2, &mut m);
    for _ in 0..3 {
        assert!(matches!(
            call.step(acquired(1), &mut m),
            CallAction::Send { id: 1 }
        ));
        call.step(rejected(503, "busy"), &mut m);
    }
    assert!(matches!(
        call.step(acquired(1), &mut m),
        CallAction::Acquire { wait: Wait::No, .. }
    ));
    assert!(matches!(
        call.step(acquired(2), &mut m),
        CallAction::Send { id: 2 }
    ));
    call.step(CallEvent::Succeeded, &mut m);
    assert_eq!((m.requests_success, m.requests_error), (1, 0));
}

#[test]
fn a_credential_that_cannot_be_had_is_tried_again() {
    let mut m = Metrics::new();
    let (mut call, _) = UpstreamCall::start(CallKind::Stream, 1, &mut m);
    for _ in 0..2 {
        let event = CallEvent::NotAcquired {
            message: "none".to_string(),
        };
        assert!(matches!(
            call.step(event, &mut m),
            CallAction::Acquire { .. }
        ));
    }
    let event = CallEvent::NotAcquired {
        message: "none".to_string(),
    };
    match call.step(event, &mut m) {
        CallAction::Fail(ProviderError::Other(s)) => assert_eq!(s, "none"),
        other => panic!("{other:?}"),
    }
}

#[test]
fn tries_for_a_pool() {
    assert_eq!(max_retries(0), 0);
    assert_eq!(max_retries(2), 6);
    assert_eq!(max_retries(3), 9);
    assert_eq!(max_retries(100), 9);
}

#[test]
fn waits() {
    assert_eq!(retry_delay_with(0, 0), 200);
    assert_eq!(retry_delay_with(3, 7), 1607);
    assert_eq!(retry_delay_with(9, 0), 2000);
    assert_eq!(rate_limit_delay_with(0, None, 5), 1005);
    assert_eq!(rate_limit_delay_with(6, None, 0), 30000);
    assert_eq!(rate_limit_delay_with(0, Some(2), 250), 2250);
    assert_eq!(rate_limit_delay_with(0, Some(60), 0), 30000);
    let d = retry_delay(0);
    assert!((200..=250).contains(&d));
    let d = rate_limit_delay(0, Some(1));
    assert!((1000..=1250).contains(&d));
}

#[test]
fn a_wait_that_is_asked_for() {
    assert_eq!(parse_retry_after(" 30 "), Some(30));
    assert_eq!(parse_retry_after("+5"), Some(5));
    assert_eq!(parse_retry_after("Wed, 21 Oct 2015 07:28:00 GMT"), None);
    assert_eq!(parse_retry_after(""), None);
    assert_eq!(parse_retry_after("18446744073709551616"), None);
}

#[test]
fn the_model_of_a_request() {
    let body = r#"{"conversationState":{"currentMessage":{"userInputMessage":{"modelId":"opus-x"}}}}"#;
    assert_eq!(
        extract_model_from_request(body).as_deref(),
        Some("opus-x")
    );
    assert_eq!(extract_model_from_request("{}"), None);
    assert_eq!(extract_model_from_request("no json"), None);
    assert_eq!(call_model(None, body).as_deref(), Some("opus-x"));
    assert_eq!(
        call_model(Some("hint".to_string()), body).as_deref(),
        Some("hint")
    );
}

#[test]
fn a_request_that_is_forwarded() {
    let r = build_passthrough_request(
        Some("https://a.example//"),
        Some("key"),
        PassthroughProtocol::Openai,
    )
    .unwrap();
    assert_eq!(r.url, "https://a.example/v1/responses");
    assert_eq!(r.authorization, "Bearer key");
    let e = build_passthrough_request(None, Some("key"), PassthroughProtocol::Anthropic);
    assert_eq!(e.unwrap_err().to_string(), "透传凭据缺少 baseUrl");
    let e = build_passthrough_request(Some("u"), None, PassthroughProtocol::Anthropic);
    assert_eq!(e.unwrap_err().to_string(), "透传凭据缺少 upstreamApiKey");
}

#[test]
fn the_endpoint_of_a_credential() {
    let known = vec!["ide".to_string()];
    assert_eq!(endpoint_for(None, "ide", &known).unwrap(), "ide");
    assert_eq!(
        endpoint_for(Some("cli"), "ide", &known)
            .unwrap_err()
            .to_string(),
        "未知端点: cli"
    );
}
