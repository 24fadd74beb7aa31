//! What holds of the library as a whole, on chosen values.

use kiro_rs::admin::app_config::{get_app_config, update_app_config};
use kiro_rs::admin::types::UpdateAppConfigRequest;
use kiro_rs::anthropic::complete::Answer;
use kiro_rs::anthropic::session::{
    Decoded, SseSession, StreamRestarter, MAX_STREAM_RESTARTS,
};
use kiro_rs::anthropic::stream::StreamContext;
use kiro_rs::anthropic::thinking::{
    find_char_boundary, find_real_thinking_end_tag_at_buffer_end, is_quote_char,
};
use kiro_rs::app::startup::{
    desktop_configured_port, desktop_import_config, desktop_set_configured_port,
};
use kiro_rs::common::passthrough_stats::{PassthroughKind, PassthroughUsageSniffer};
use kiro_rs::kiro::events::{AssistantResponseEvent, Event, ToolUseEvent};
use kiro_rs::kiro::provider::{rate_limit_delay, retry_delay};
use kiro_rs::metrics::Metrics;
use kiro_rs::model::config::{default_models, Config, ModelLine};
use kiro_rs::text::{parse_u64, u64_text};

fn answer(s: &str) -> Decoded {
    Decoded::Event(Event::AssistantResponse(AssistantResponseEvent {
        content: s.to_string(),
    }))
}

fn tool(id: &str, input: &str, stop: bool) -> Decoded {
    Decoded::Event(Event::ToolUse(ToolUseEvent {
        name: "Write".to_string(),
        tool_use_id: id.to_string(),
        input: input.to_string(),
        stop,
    }))
}

fn session(delayed: bool) -> SseSession {
    let restarter = StreamRestarter {
        model: "m".to_string(),
        input_tokens: 10,
        thinking_enabled: true,
        tool_name_map: Vec::new(),
        delay_message_start: delayed,
        remaining: MAX_STREAM_RESTARTS,
    };
    SseSession::new(restarter.build_ctx(), restarter)
}

/// The names of events on the wire.
fn names(wire: &[String]) -> Vec<&str> {
    wire.iter()
        .map(|t| t.lines().next().unwrap().strip_prefix("event: ").unwrap())
        .collect()
}

#[test]
fn a_session_with_a_replay_is_one_message() {
    let mut m = Metrics::new();
    let mut s = session(true);
    assert!(s.body_failed("eof", false, &mut m).is_none());
    s.replayed(&mut m);
    let mut sent = s.take_item(&answer("<thinking>\nwhy</thinking>\n\nbecause"), &mut m);
    sent.extend(s.take_item(&tool("t", "{\"cut", false), &mut m));
    s.end_chunk();
    sent.extend(s.body_failed("eof", false, &mut m).unwrap());
    assert_eq!(
        names(&sent),
        [
            "message_start",
            "content_block_start",
            "content_block_delta",
            "content_block_delta",
            "content_block_delta",
            "content_block_stop",
            "content_block_start",
            "content_block_delta",
            "content_block_stop",
            "message_delta",
            "message_stop",
        ]
    );
    assert!(sent[9].contains("\"stop_reason\":\"max_tokens\""));
    assert!(sent.iter().all(|t| !t.contains("cut")));
}

#[test]
fn a_payload_stands_on_one_line() {
    let mut m = Metrics::new();
    let mut s = session(false);
    s.take_item(&answer("<thinking>"), &mut m);
    let sent = s.take_item(&answer("a\nb\rc\u{1}d</thinking>\n\n"), &mut m);
    for t in &sent {
        let lines: Vec<&str> = t.split('\n').collect();
        assert_eq!(lines.len(), 4);
        assert!(lines[0].starts_with("event: "));
        assert!(lines[1].starts_with("data: {"));
        assert_eq!((lines[2], lines[3]), ("", ""));
    }
    assert!(sent[0].contains(r"a\nb\rc\u0001d"));
}

#[test]
fn usage_is_reported_once() {
    let mut ctx = StreamContext::new_with_thinking("m", 10, false, Vec::new(), false);
    ctx.set_credential_id(3);
    let event = Event::AssistantResponse(AssistantResponseEvent {
        content: "abcdefgh".to_string(),
    });
    ctx.take_events_for_kiro(&event);
    assert!(ctx.take_usage_report().is_none());
    ctx.finalize_stream();
    let u = ctx.take_usage_report().unwrap();
    assert_eq!(
        (u.model.as_str(), u.credential_id, u.input_tokens, u.output_tokens),
        ("m", 3, 10, 2)
    );
    ctx.finalize_stream_on_failure();
    assert!(ctx.take_usage_report().is_none());
}

#[test]
fn an_answer_in_pieces_is_the_whole_answer() {
    let mut a = Answer::new(Vec::new());
    let mut b = Answer::new(Vec::new());
    a.take_item(&answer("one two"));
    a.take_item(&tool("t", "{\"a\":1}", true));
    for piece in ["one", " ", "two"] {
        b.take_item(&answer(piece));
    }
    b.take_item(&tool("u", "{\"never", false));
    b.take_item(&tool("t", "{\"a\"", false));
    b.take_item(&tool("t", ":1}", true));
    assert_eq!(
        a.finish(false, 1).to_json("id", "m", 2),
        b.finish(false, 1).to_json("id", "m", 2)
    );
}

#[test]
fn the_end_is_kept_piece_by_piece() {
    let new = || PassthroughUsageSniffer::new("m".to_string(), 1, PassthroughKind::Openai);
    let (mut whole, mut pieces) = (new(), new());
    let text: Vec<u8> = (0..70_000u32).map(|i| b'a' + (i % 26) as u8).collect();
    whole.feed(&text);
    for piece in text.chunks(999) {
        pieces.feed(piece);
    }
    assert_eq!(whole.tail, pieces.tail);
    assert_eq!(whole.tail.as_bytes(), &text[70_000 - whole.tail.len()..]);
}

#[test]
fn a_number_is_read_as_it_was_written() {
    for n in [0, 7, 10, 65_535, u64::MAX] {
        assert_eq!(parse_u64(&u64_text(n)), Some(n));
    }
}

#[test]
fn a_port_is_read_as_it_was_written() {
    let json = desktop_set_configured_port(4321, r#"{"apiKey":"k","port":1,"x":[2]}"#).unwrap();
    assert_eq!(desktop_configured_port(Some(&json)), 4321);
    let value: serde_json::Value = serde_json::from_str(&json).unwrap();
    assert_eq!(value["apiKey"], "k");
    assert_eq!(value["x"][0], 2);
    let keys = Ok((Some("k".to_string()), Some("a".to_string())));
    let (json, port) = desktop_import_config(&json, keys).unwrap();
    assert_eq!(port, 4321);
    assert_eq!(desktop_configured_port(Some(&json)), 4321);
}

#[test]
fn waits_stay_short() {
    for attempt in 0..20 {
        assert!(retry_delay(attempt) <= 2500);
        assert!(rate_limit_delay(attempt, None) <= 37_500);
        assert!(rate_limit_delay(attempt, Some(u64::MAX)) <= 37_500);
    }
}

fn line() -> ModelLine {
    ModelLine {
        id: "acme".to_string(),
        title: "Acme".to_string(),
    }
}

fn edit() -> UpdateAppConfigRequest {
    UpdateAppConfigRequest {
        api_key: " key ".to_string(),
        admin_api_key: None,
        credential_rpm: 8,
        credential_rpm_opus: None,
        credential_rpm_sonnet: None,
        credential_rpm_haiku: None,
        credential_rpm_max_wait_ms: Some(5),
        kiro_version: "1".to_string(),
        machine_id: None,
        system_version: "s".to_string(),
        node_version: "n".to_string(),
        streaming_sdk_version: "x".to_string(),
        models: default_models(&line()),
        default_model: None,
        model_aliases: vec![("A".to_string(), "b".to_string())],
        chunked_write_policy: None,
        codex_truncation_correction: Some(false),
        proxy_url: Some(" http://p ".to_string()),
        proxy_username: None,
        proxy_password: None,
    }
}

#[test]
fn the_same_edit_again_changes_nothing() {
    let once = update_app_config(edit(), Ok(Config::default()), None).unwrap();
    let shown = format!("{:?}", get_app_config(&once, "k", "a", &line()));
    let kept = format!("{once:?}");
    let twice = update_app_config(edit(), Ok(once), None).unwrap();
    assert_eq!(format!("{twice:?}"), kept);
    assert_eq!(
        format!("{:?}", get_app_config(&twice, "k", "a", &line())),
        shown
    );
}

#[test]
fn the_built_in_models_of_a_line() {
    let models = default_models(&line());
    let ids: Vec<&str> = models.iter().map(|m| m.kiro_id.as_str()).collect();
    assert_eq!(
        ids,
        [
            "acme-opus-4.8",
            "acme-opus-4.7",
            "acme-opus-4.6",
            "acme-opus-4.5",
            "acme-opus-5",
            "acme-sonnet-4.6",
            "acme-sonnet-4.5",
            "acme-sonnet-5",
            "acme-haiku-4.5",
        ]
    );
    assert_eq!(models[3].display_id, "acme-opus-4-5-20251101");
    assert_eq!(models[3].display_name, "Acme Opus 4.5");
    assert_eq!(models[3].created, 1763942400);
    assert_eq!(models[0].max_tokens, 128_000);
    assert_eq!(models[8].context_window, 200_000);
    assert!(models[8].version.is_none());
    for (i, family) in [(4, "opus"), (7, "sonnet")] {
        assert_eq!(models[i].family, family);
        assert_eq!(models[i].version.as_deref(), Some("5"));
    }
    assert_eq!(models[4].display_name, "Acme Opus 5");
    assert_eq!(models[7].display_id, "acme-sonnet-5");
}

#[test]
fn boundaries_and_quotes() {
    assert_eq!(find_char_boundary("aé", 9), 3);
    assert_eq!(find_char_boundary("aé", 2), 1);
    assert_eq!(find_char_boundary("aé", 0), 0);
    assert!(is_quote_char("a`", 1));
    assert!(!is_quote_char("a`", 2));
    assert!(!is_quote_char("é", 1));
    let tag = find_real_thinking_end_tag_at_buffer_end;
    assert_eq!(tag("é</thinking> \n"), Some(2));
    assert_eq!(tag("a</thinking> b"), None);
    assert_eq!(tag("`</thinking>` </thinking>"), Some(14));
}
