//! Token counts, sniffed or reported, and the counters of the process.

use kiro_rs::common::passthrough_stats::{
    sniff_anthropic_usage, sniff_openai_usage, PassthroughKind, PassthroughUsageSniffer,
    TAIL_BUFFER_MAX,
};
use kiro_rs::kiro::events::{InvalidStateEvent, MetadataEvent, TokenUsage};
use kiro_rs::metrics::{inc_request_success, init_start_time, Metrics};

fn usage_of(value: &serde_json::Value) -> TokenUsage {
    TokenUsage {
        uncached_input_tokens: value["uncachedInputTokens"].as_i64(),
        output_tokens: value["outputTokens"].as_i64(),
        total_tokens: value["totalTokens"].as_i64(),
        cache_read_input_tokens: value["cacheReadInputTokens"].as_i64(),
        cache_write_input_tokens: value["cacheWriteInputTokens"].as_i64(),
    }
}

fn usage(json: &str) -> TokenUsage {
    usage_of(&serde_json::from_str(json).unwrap())
}

fn invalid_state(json: &str) -> InvalidStateEvent {
    let value: serde_json::Value = serde_json::from_str(json).unwrap();
    InvalidStateEvent {
        reason: value["reason"].as_str().unwrap_or("").to_string(),
        message: value["message"].as_str().unwrap_or("").to_string(),
    }
}

#[test]
fn test_sniff_anthropic_usage() {
    let sse = "event: message_start\ndata: {\"type\":\"message_start\",\"message\":{\"usage\":{\"input_tokens\":100,\"cache_read_input_tokens\":20,\"cache_creation_input_tokens\":5,\"output_tokens\":1}}}\n\nevent: message_delta\ndata: {\"type\":\"message_delta\",\"usage\":{\"output_tokens\":250}}\n\n";
    let (i, o, cr, cw) = sniff_anthropic_usage(sse).unwrap();
    assert_eq!(i, 100);
    assert_eq!(o, 250);
    assert_eq!(cr, 20);
    assert_eq!(cw, 5);
}

#[test]
fn only_the_message_tells_what_went_in() {
    let sse = "data: {\"message\":{\"usage\":{\"input_tokens\":100}}}\n\ndata: {\"usage\":{\"input_tokens\":7,\"cache_read_input_tokens\":3,\"output_tokens\":9}}\n\n";
    assert_eq!(sniff_anthropic_usage(sse), Some((100, 9, 0, 0)));
}

#[test]
fn test_sniff_anthropic_usage_none() {
    let sse = "event: ping\ndata: {\"type\":\"ping\"}\n\n";
    assert!(sniff_anthropic_usage(sse).is_none());
}

#[test]
fn test_sniff_openai_usage() {
    let sse = "event: response.completed\ndata: {\"type\":\"response.completed\",\"response\":{\"usage\":{\"input_tokens\":300,\"output_tokens\":80}}}\n\n";
    let (i, o, _, _) = sniff_openai_usage(sse).unwrap();
    assert_eq!(i, 300);
    assert_eq!(o, 80);
}

#[test]
fn test_tail_buffer_truncation() {
    let mut sniffer =
        PassthroughUsageSniffer::new("m".to_string(), 1, PassthroughKind::Anthropic);
    // 喂入超过上限的数据，确认不 panic 且尾部保留
    let big = vec![b'x'; TAIL_BUFFER_MAX + 1000];
    sniffer.feed(&big);
    assert!(sniffer.tail.len() <= TAIL_BUFFER_MAX);
    assert_eq!(sniffer.tail.len(), TAIL_BUFFER_MAX);
}

#[test]
fn sniffer_reads_the_end_of_a_long_answer_once() {
    let mut sniffer =
        PassthroughUsageSniffer::new("m".to_string(), 7, PassthroughKind::Anthropic);
    sniffer.feed(&vec![b'x'; TAIL_BUFFER_MAX]);
    sniffer.feed(b"\ndata: {\"type\":\"message_delta\",\"usage\":{\"output_tokens\":9}}\n");
    let report = sniffer.finalize().expect("a report");
    assert_eq!(report.model, "m");
    assert_eq!(report.credential_id, 7);
    assert_eq!(report.output_tokens, 9);
    assert!(sniffer.finalize().is_none());
}

#[test]
fn sniffer_takes_bytes_that_are_no_text() {
    let mut sniffer = PassthroughUsageSniffer::new("m".to_string(), 1, PassthroughKind::Openai);
    sniffer.feed(&[b'a', 0xff, b'b']);
    assert_eq!(sniffer.tail, "a\u{fffd}b");
}

#[test]
fn test_uncached_input_tokens_preferred() {
    let usage = usage(
        r#"{"uncachedInputTokens":100,"outputTokens":50,"totalTokens":900,
                "cacheReadInputTokens":750,"cacheWriteInputTokens":0}"#,
    );
    // 直接用 uncachedInputTokens，不做减法
    assert_eq!(usage.anthropic_input_tokens(), Some(100));
    assert_eq!(usage.anthropic_output_tokens(), Some(50));
    assert!(usage.has_counts());
}

#[test]
fn test_input_tokens_derived_from_total() {
    // 缺 uncachedInputTokens 时用 total 减去输出与缓存部分
    let usage = usage(
        r#"{"outputTokens":50,"totalTokens":900,"cacheReadInputTokens":700,
                "cacheWriteInputTokens":50}"#,
    );
    assert_eq!(usage.anthropic_input_tokens(), Some(100));
}

#[test]
fn test_derived_input_tokens_never_negative() {
    let usage = usage(r#"{"outputTokens":500,"totalTokens":100}"#);
    assert_eq!(usage.anthropic_input_tokens(), Some(0));
}

#[test]
fn test_empty_usage_has_no_counts() {
    let usage = usage("{}");
    assert!(!usage.has_counts());
    assert_eq!(usage.anthropic_input_tokens(), None);
    assert_eq!(usage.anthropic_output_tokens(), None);
}

#[test]
fn test_metadata_event_unknown_fields_ignored() {
    // 上游新增字段不应导致解析失败
    let value: serde_json::Value = serde_json::from_str(
        r#"{"tokenUsage":{"outputTokens":7,"normalizedTokenUsage":{"x":1}},"somethingNew":true}"#,
    )
    .unwrap();
    let event = MetadataEvent {
        token_usage: value.get("tokenUsage").map(usage_of),
    };
    let usage = event.token_usage.expect("应解析出 tokenUsage");
    assert_eq!(usage.anthropic_output_tokens(), Some(7));
}

#[test]
fn test_invalid_state_event_display() {
    let event = invalid_state(r#"{"reason":"INVALID_TOOL_RESULT","message":"missing id"}"#);
    assert_eq!(event.to_string(), "INVALID_TOOL_RESULT: missing id");

    let bare = invalid_state(r#"{"reason":"OTHER"}"#);
    assert_eq!(bare.to_string(), "OTHER");
}

#[test]
fn counts_that_cannot_be_worked_with_are_told() {
    let far = TokenUsage {
        total_tokens: Some(i64::MIN),
        output_tokens: Some(1),
        ..TokenUsage::default()
    };
    assert!(!far.is_in_range());
    assert!(TokenUsage::default().is_in_range());
}

#[test]
fn test_render_prometheus_contains_counters() {
    let mut metrics = Metrics::new();
    inc_request_success(&mut metrics);
    let body = metrics.render_prometheus(2, 3);
    assert!(body.contains("kiro_requests_success_total 1"));
    assert!(body.contains("kiro_credentials_available 2"));
    assert!(body.contains("kiro_credentials_total 3"));
}

#[test]
fn test_snapshot_serializes_camel_case() {
    let snap = Metrics::new().snapshot(0);
    let json = snap.to_json();
    assert!(json.contains("requestsSuccess"));
    assert!(json.contains("uptimeSeconds"));
    assert!(json.contains("streamRestarted"));
    let value: serde_json::Value = serde_json::from_str(&json).unwrap();
    assert_eq!(value["requestsSuccess"], 0);
}

#[test]
fn the_start_is_noted_once() {
    let mut start = None;
    assert_eq!(init_start_time(&mut start, 5), 5);
    assert_eq!(init_start_time(&mut start, 9), 5);
    assert_eq!(start, Some(5));
}
