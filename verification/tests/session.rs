//! Response streams with their upstream body.

use kiro_rs::anthropic::session::{
    create_ping_sse, Decoded, SseSession, StreamRestarter, MAX_STREAM_RESTARTS,
};
use kiro_rs::kiro::events::{AssistantResponseEvent, Event};
use kiro_rs::metrics::Metrics;

fn session(delayed: bool) -> SseSession {
    let restarter = StreamRestarter {
        model: "m".to_string(),
        input_tokens: 10,
        thinking_enabled: false,
        tool_name_map: Vec::new(),
        delay_message_start: delayed,
        remaining: MAX_STREAM_RESTARTS,
    };
    SseSession::new(restarter.build_ctx(), restarter)
}

fn answer(s: &str) -> Decoded {
    Decoded::Event(Event::AssistantResponse(AssistantResponseEvent {
        content: s.to_string(),
    }))
}

#[test]
fn a_stream_from_its_start_to_its_end() {
    let mut m = Metrics::new();
    let mut s = session(false);
    let out = s.take_item(&answer("hi"), &mut m);
    assert!(out[0].starts_with("event: message_start\ndata: {"));
    assert!(out.iter().any(|t| t.contains("\"text\":\"hi\"")));
    s.end_chunk();
    assert!(!s.finished);
    let out = s.body_ended();
    assert!(out.last().unwrap().starts_with("event: message_stop\n"));
    assert!(s.finished);
}

#[test]
fn a_body_that_breaks_off_early_is_replayed_twice() {
    let mut m = Metrics::new();
    let mut s = session(true);
    let first_id = s.ctx.message_id.clone();
    for _ in 0..2 {
        assert!(s.body_failed("eof", false, &mut m).is_none());
        s.replayed(&mut m);
        assert!(!s.finished);
    }
    assert_ne!(s.ctx.message_id, first_id);
    assert_eq!(s.ctx.message_id.len(), 36);
    assert!(s.ctx.message_id.starts_with("msg_"));
    let out = s.body_failed("eof", false, &mut m).unwrap();
    assert!(out[0].starts_with("event: error\n"));
    assert!(out[0].contains("Upstream stream error: eof"));
    assert!(s.finished);
    assert_eq!(m.stream_interrupted, 3);
    assert_eq!(m.stream_restarted, 2);
}

#[test]
fn a_wait_that_took_too_long_is_not_replayed() {
    let mut m = Metrics::new();
    let mut s = session(true);
    let out = s.body_failed("timeout", true, &mut m).unwrap();
    assert!(out[0].contains("Upstream stream error: timeout"));
}

#[test]
fn a_replay_that_fails_ends_the_stream() {
    let mut m = Metrics::new();
    let mut s = session(true);
    assert!(s.body_failed("eof", false, &mut m).is_none());
    let out = s.replay_failed();
    assert!(out[0].contains("Upstream stream error: eof"));
    assert!(s.finished);
    assert_eq!(m.stream_restarted, 0);
}

#[test]
fn an_answer_that_has_begun_ends_as_cut_short() {
    let mut m = Metrics::new();
    let mut s = session(false);
    s.take_item(&answer("hi"), &mut m);
    s.end_chunk();
    let out = s.body_failed("eof", false, &mut m).unwrap();
    assert!(out.iter().all(|t| !t.starts_with("event: error")));
    assert!(out.iter().any(|t| t.contains("\"stop_reason\":\"max_tokens\"")));
}

#[test]
fn a_body_that_cannot_be_read_ends_the_stream() {
    let mut m = Metrics::new();
    let mut s = session(false);
    let passing = Decoded::Failure {
        fatal: false,
        message: "crc".to_string(),
    };
    assert!(s.take_item(&passing, &mut m).is_empty());
    let fatal = Decoded::Failure {
        fatal: true,
        message: "too many".to_string(),
    };
    let out = s.take_item(&fatal, &mut m);
    assert_eq!(out.len(), 1);
    assert!(out[0].contains("Stream decode failed: too many"));
    assert!(s.take_item(&answer("late"), &mut m).is_empty());
    s.end_chunk();
    assert!(s.finished);
    assert_eq!(m.stream_decode_failures, 1);
}

#[test]
fn a_ping() {
    assert_eq!(
        create_ping_sse(),
        "event: ping\ndata: {\"type\": \"ping\"}\n\n"
    );
}
