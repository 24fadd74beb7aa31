//! Answers that are sent as a whole.

use kiro_rs::anthropic::complete::{handle_non_stream_request, Answer};
use kiro_rs::anthropic::session::Decoded;
use kiro_rs::anthropic::stream::{message_id_from, new_message_id, StreamContext};
use kiro_rs::anthropic::thinking::{
    compute_thinking_signature, estimate_tokens, extract_thinking_from_complete_text,
};
use kiro_rs::kiro::events::{
    AssistantResponseEvent, ContextUsageEvent, Event, InvalidStateEvent, MetadataEvent, TokenUsage,
    ToolUseEvent,
};

fn text(s: &str) -> Decoded {
    Decoded::Event(Event::AssistantResponse(AssistantResponseEvent {
        content: s.to_string(),
    }))
}

fn tool(id: &str, input: &str, stop: bool) -> Decoded {
    Decoded::Event(Event::ToolUse(ToolUseEvent {
        name: "short".to_string(),
        tool_use_id: id.to_string(),
        input: input.to_string(),
        stop,
    }))
}

fn names() -> Vec<(String, String)> {
    vec![("short".to_string(), "long".to_string())]
}

#[test]
fn a_plain_answer() {
    let mut a = Answer::new(Vec::new());
    assert!(a.take_item(&text("Hel")).is_none());
    assert!(a.take_item(&text("lo")).is_none());
    let message = a.finish(false, 5);
    let json = message.to_json("msg_1", "m", 3);
    assert_eq!(
        json,
        r#"{"content":[{"text":"Hello","type":"text"}],"id":"msg_1","model":"m","role":"assistant","stop_reason":"end_turn","stop_sequence":null,"type":"message","usage":{"input_tokens":5,"output_tokens":3}}"#
    );
}

#[test]
fn an_answer_from_all_that_was_read() {
    let items = vec![
        text("<thinking>\nabc</thinking>\n\n"),
        Decoded::Failure {
            fatal: false,
            message: "bad frame".to_string(),
        },
        text("done"),
        tool("t1", "{}", true),
    ];
    let m = handle_non_stream_request(&items, names(), true, 7).unwrap();
    assert_eq!((m.content.len(), m.input_tokens), (3, 7));
    assert_eq!(m.stop_reason, "tool_use");
    assert!(m.output_tokens.is_none());
    let m = handle_non_stream_request(&items, names(), false, 7).unwrap();
    assert_eq!(m.content.len(), 2);

    let items = vec![
        text("lost"),
        Decoded::Event(Event::Error {
            error_code: "E".to_string(),
            error_message: "down".to_string(),
        }),
        text("unread"),
    ];
    let reply = handle_non_stream_request(&items, names(), true, 7).unwrap_err();
    assert_eq!((reply.status, reply.message.as_str()), (502, "E: down"));
}

#[test]
fn thinking_and_tools_in_an_answer() {
    let mut a = Answer::new(names());
    a.take_item(&text("<thinking>\nabc</thinking>\n\ndone"));
    a.take_item(&tool("t1", "{ \"b\" : 1,", false));
    a.take_item(&tool("t1", " \"a\" : [ ] }", true));
    a.take_item(&tool("t2", "", true));
    a.take_item(&tool("t3", "{broken", true));
    a.take_item(&tool("t4", "{\"cut\":", false));
    let message = a.finish(true, 5);
    let json = message.to_json("id", "m", 3);
    let value: serde_json::Value = serde_json::from_str(&json).unwrap();
    let content = value["content"].as_array().unwrap();
    assert_eq!(content.len(), 5);
    assert_eq!(content[0]["thinking"], "abc");
    assert_eq!(
        content[0]["signature"],
        "ba7816bf8f01cfea414140de5dae2223b00361a396177a9cb410ff61f20015ad"
    );
    assert_eq!(content[1]["text"], "done");
    assert_eq!(content[2]["name"], "long");
    assert!(json.contains(r#""input":{"a":[],"b":1}"#));
    assert!(json.contains(r#"{"id":"t2","input":{},"name":"long","type":"tool_use"}"#));
    assert!(json.contains(r#"{"id":"t3","input":{},"#));
    assert!(!json.contains("t4"));
    assert_eq!(value["stop_reason"], "tool_use");
}

#[test]
fn counts_of_an_answer() {
    let mut a = Answer::new(Vec::new());
    a.take_item(&Decoded::Event(Event::ContextUsage(ContextUsageEvent {
        input_tokens: 77,
        window_full: true,
    })));
    a.take_item(&Decoded::Event(Event::Metadata(MetadataEvent {
        token_usage: Some(TokenUsage::default()),
    })));
    let message = a.finish(false, 5);
    assert_eq!(message.stop_reason, "model_context_window_exceeded");
    assert_eq!(message.input_tokens, 77);
    assert_eq!(message.output_tokens, None);

    let mut a = Answer::new(Vec::new());
    a.take_item(&Decoded::Event(Event::Metadata(MetadataEvent {
        token_usage: Some(TokenUsage {
            uncached_input_tokens: Some(8),
            output_tokens: Some(9),
            cache_read_input_tokens: Some(4),
            cache_write_input_tokens: Some(-1),
            ..TokenUsage::default()
        }),
    })));
    let message = a.finish(false, 5);
    assert_eq!(message.input_tokens, 8);
    assert_eq!(message.output_tokens, Some(9));
    let u = message.usage_report("m", 6, 100);
    assert_eq!((u.model.as_str(), u.credential_id), ("m", 6));
    assert_eq!((u.input_tokens, u.output_tokens), (8, 9));
    assert_eq!((u.cache_read, u.cache_write), (4, 0));

    let message = Answer::new(Vec::new()).finish(false, 5);
    let u = message.usage_report("m", u64::MAX, 100);
    assert_eq!((u.credential_id, u.input_tokens, u.output_tokens), (-1, 5, 100));
    assert_eq!((u.cache_read, u.cache_write), (0, 0));
}

#[test]
fn answers_that_fail() {
    let mut a = Answer::new(Vec::new());
    let e = a
        .take_item(&Decoded::Event(Event::InvalidState(InvalidStateEvent {
            reason: "R".to_string(),
            message: "why".to_string(),
        })))
        .unwrap();
    assert_eq!(
        (e.status, e.message.as_str()),
        (502, "Upstream reported invalid state: R: why")
    );
    let e = a
        .take_item(&Decoded::Event(Event::Error {
            error_code: "C".to_string(),
            error_message: "m".to_string(),
        }))
        .unwrap();
    assert_eq!(e.message, "C: m");
    let e = a
        .take_item(&Decoded::Event(Event::Exception {
            exception_type: "T".to_string(),
            message: "m".to_string(),
        }))
        .unwrap();
    assert_eq!(e.message, "T: m");
    let e = a
        .take_item(&Decoded::Failure {
            fatal: true,
            message: "x".to_string(),
        })
        .unwrap();
    assert_eq!(e.message, "Upstream stream decode failed: x");
    assert!(a
        .take_item(&Decoded::Event(Event::Exception {
            exception_type: "ContentLengthExceededException".to_string(),
            message: "m".to_string(),
        }))
        .is_none());
    assert_eq!(a.finish(false, 1).stop_reason, "max_tokens");
}

#[test]
fn thinking_in_a_complete_text() {
    let (thinking, rest) = extract_thinking_from_complete_text("no tags");
    assert_eq!((thinking, rest.as_str()), (None, "no tags"));
    let (thinking, rest) =
        extract_thinking_from_complete_text("<thinking>\nabc</thinking>\n\ntext");
    assert_eq!(thinking.as_deref(), Some("abc"));
    assert_eq!(rest, "text");
}

/// The thinking and the text that a stream sends of an answer in one piece.
fn streamed(answer: &str) -> (String, String) {
    let mut ctx = StreamContext::new_with_thinking("test-model", 1, true, Vec::new(), false);
    let mut events = ctx.generate_initial_events();
    events.extend(ctx.process_assistant_response(answer));
    events.extend(ctx.generate_final_events());
    let mut thinking = String::new();
    let mut text = String::new();
    for e in &events {
        let data: serde_json::Value = serde_json::from_str(&e.data.json()).unwrap();
        thinking.push_str(data["delta"]["thinking"].as_str().unwrap_or(""));
        text.push_str(data["delta"]["text"].as_str().unwrap_or(""));
    }
    (thinking, text)
}

#[test]
fn a_stream_splits_an_answer_alike() {
    for answer in [
        "",
        "  ",
        "no tags in this answer",
        "a `<thinking>` in quotes",
        "<thinking>\nabc</thinking>\n\ntext",
        " \n<thinking>abc</thinking>\n\nmore <thinking>x</thinking>\n\n",
        "first <thinking></thinking>\n\nthen",
        "<thinking>\na long thought, é</thinking>",
        "hi <thinking>`</thinking>` x</thinking> \n",
    ] {
        let (thinking, rest) = extract_thinking_from_complete_text(answer);
        let (sent_thinking, sent_text) = streamed(answer);
        assert_eq!(thinking.unwrap_or_default(), sent_thinking, "{answer:?}");
        if rest.is_empty() && !answer.is_empty() {
            assert_eq!(sent_text, " ");
        } else {
            assert_eq!(sent_text, rest, "{answer:?}");
        }
    }
    // A closing tag whose start is sent before its end is there is thinking to a stream.
    let (thinking, _) = extract_thinking_from_complete_text("<thinking>ab</thinking>   ");
    assert_eq!(thinking.as_deref(), Some("ab"));
    assert_eq!(
        streamed("<thinking>ab</thinking>   ").0,
        "ab</thinking>   "
    );
}

#[test]
fn signatures_and_estimates() {
    assert_eq!(
        compute_thinking_signature(""),
        "e3b0c44298fc1c149afbf4c8996fb92427ae41e4649b934ca495991b7852b855"
    );
    assert_eq!(estimate_tokens(""), 1);
    assert_eq!(estimate_tokens("你好你"), 2);
    assert_eq!(estimate_tokens("abcde"), 2);
}

#[test]
fn message_ids() {
    assert_eq!(
        message_id_from("0a1b2c3d-0000-4000-8000-000000000001"),
        "msg_0a1b2c3d000040008000000000000001"
    );
    let a = new_message_id();
    assert_eq!(a.len(), 36);
    assert_ne!(a, new_message_id());
}
