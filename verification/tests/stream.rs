//! The translation of upstream events into the response stream.

use kiro_rs::anthropic::sse::{Scalar, SseData, SseEvent};
use kiro_rs::anthropic::state_manager::SseStateManager;
use kiro_rs::anthropic::stream::StreamContext;
use kiro_rs::anthropic::thinking::{
    estimate_tokens, find_real_thinking_end_tag, find_real_thinking_start_tag,
};
use kiro_rs::kiro::events::{
    AssistantResponseEvent, ContextUsageEvent, Event, InvalidStateEvent, MetadataEvent, TokenUsage,
    ToolUseEvent,
};

/// The payload of an event as JSON.
fn data(e: &SseEvent) -> serde_json::Value {
    serde_json::from_str(&e.data.json()).unwrap()
}

/// A piece of the answer, from its JSON.
fn response(json: &str) -> AssistantResponseEvent {
    let value: serde_json::Value = serde_json::from_str(json).unwrap();
    AssistantResponseEvent {
        content: value["content"].as_str().unwrap().to_string(),
    }
}

/// The use of a context window of 200,000 tokens, in percent.
fn context_usage(percentage: f64) -> ContextUsageEvent {
    ContextUsageEvent {
        input_tokens: (percentage * 200_000.0 / 100.0) as i32,
        window_full: percentage >= 100.0,
    }
}

/// Token counts, from their JSON.
fn metadata_event(json: &str) -> MetadataEvent {
    let value: serde_json::Value = serde_json::from_str(json).unwrap();
    let usage = &value["tokenUsage"];
    MetadataEvent {
        token_usage: Some(TokenUsage {
            uncached_input_tokens: usage["uncachedInputTokens"].as_i64(),
            output_tokens: usage["outputTokens"].as_i64(),
            total_tokens: usage["totalTokens"].as_i64(),
            cache_read_input_tokens: usage["cacheReadInputTokens"].as_i64(),
            cache_write_input_tokens: usage["cacheWriteInputTokens"].as_i64(),
        }),
    }
}

fn message_start_payload() -> SseData {
    SseData::Object(vec![(
        "type".to_string(),
        Scalar::Text("message_start".to_string()),
    )])
}

fn empty_payload() -> SseData {
    SseData::Object(Vec::new())
}

#[test]
fn test_sse_event_format() {
    let event = SseEvent::new("message_start", message_start_payload());
    let sse_str = event.to_sse_string();

    assert!(sse_str.starts_with("event: message_start\n"));
    assert!(sse_str.contains("data: "));
    assert!(sse_str.ends_with("\n\n"));
}

#[test]
fn test_sse_state_manager_message_start() {
    let mut manager = SseStateManager::new();

    // 第一次应该成功
    let event = manager.handle_message_start(message_start_payload());
    assert!(event.is_some());

    // 第二次应该被跳过
    let event = manager.handle_message_start(message_start_payload());
    assert!(event.is_none());
}

#[test]
fn test_sse_state_manager_block_lifecycle() {
    let mut manager = SseStateManager::new();

    // 创建块
    let events = manager.handle_content_block_start(0, "text", empty_payload());
    assert_eq!(events.len(), 1);

    // delta
    let event = manager.handle_content_block_delta(0, empty_payload());
    assert!(event.is_some());

    // stop
    let event = manager.handle_content_block_stop(0);
    assert!(event.is_some());

    // 重复 stop 应该被跳过
    let event = manager.handle_content_block_stop(0);
    assert!(event.is_none());
}

#[test]
fn test_tool_name_reverse_mapping_in_stream() {

    let map = vec![(
        "short_abc12345".to_string(),
        "mcp__very_long_original_tool_name".to_string(),
    )];

    let mut ctx = StreamContext::new_with_thinking("test-model", 1, false, map, false);
    let _ = ctx.generate_initial_events();

    // 模拟 Kiro 返回短名称的 tool_use
    let tool_event = Event::ToolUse(ToolUseEvent {
        name: "short_abc12345".to_string(),
        tool_use_id: "toolu_01".to_string(),
        input: r#"{"key":"value"}"#.to_string(),
        stop: true,
    });

    let events = ctx.process_kiro_event(&tool_event);

    // content_block_start 中的 name 应该是原始长名称
    let start_event = events
        .iter()
        .find(|e| e.event == "content_block_start")
        .unwrap();
    assert_eq!(
        data(&start_event)["content_block"]["name"], "mcp__very_long_original_tool_name",
        "应还原为原始工具名称"
    );
}

/// 走真实入口 take_events_for_kiro 的完整 /cc 序列：
/// text_delta → tool_use（分帧 + stop）→ contextUsage → finalize。
/// 校验最终 SSE 序列结构合法：message_start 唯一、块 start/stop 配对、
/// tool_use 的 partial_json 拼起来是合法 JSON。
#[test]
fn test_cc_full_sequence_via_real_entry_produces_valid_tool_json() {

    let mut ctx =
        StreamContext::new_with_thinking("test-model", 1, false, Vec::new(), true);

    let mut all: Vec<SseEvent> = Vec::new();

    // 1. 先来一段助手文本
    all.extend(ctx.take_events_for_kiro(&Event::AssistantResponse(
        response(r#"{"content":"我来写文件"}"#),
    )));

    // 2. tool_use 参数分三帧到达，最后一帧 stop
    all.extend(ctx.take_events_for_kiro(&Event::ToolUse(ToolUseEvent {
        name: "Write".to_string(),
        tool_use_id: "toolu_01".to_string(),
        input: r#"{"file_path":"/a.rs","#.to_string(),
        stop: false,
    })));
    all.extend(ctx.take_events_for_kiro(&Event::ToolUse(ToolUseEvent {
        name: "Write".to_string(),
        tool_use_id: "toolu_01".to_string(),
        input: r#""content":"fn main"#.to_string(),
        stop: false,
    })));
    all.extend(ctx.take_events_for_kiro(&Event::ToolUse(ToolUseEvent {
        name: "Write".to_string(),
        tool_use_id: "toolu_01".to_string(),
        input: r#"() {}"}"#.to_string(),
        stop: true,
    })));

    // 3. contextUsage 到达
    all.extend(
        ctx.take_events_for_kiro(&Event::ContextUsage(context_usage(12.5))),
    );

    // 4. 收尾
    all.extend(ctx.finalize_stream());

    // message_start 必须恰好一次
    let starts = all.iter().filter(|e| e.event == "message_start").count();
    assert_eq!(
        starts, 1,
        "message_start 应恰好一次，实际 {starts}: {all:?}"
    );

    // 收集 tool_use 块的 partial_json，拼起来必须是合法 JSON
    let tool_json: String = all
        .iter()
        .filter(|e| e.event == "content_block_delta")
        .filter_map(|e| data(e)["delta"]["partial_json"].as_str().map(|s| s.to_string()))
        .collect();
    assert!(
        !tool_json.is_empty(),
        "应有 tool_use 参数增量放行，实际序列: {all:?}"
    );
    let parsed: Result<serde_json::Value, _> = serde_json::from_str(&tool_json);
    assert!(
        parsed.is_ok(),
        "tool_use 参数拼接后应是合法 JSON，实际 = {tool_json:?}，序列 = {all:?}"
    );

    // 块 start/stop 必须配对：每个 index 的 start 都要有对应 stop，反之亦然
    let mut opened: std::collections::HashMap<i64, i64> = std::collections::HashMap::new();
    for e in &all {
        if e.event == "content_block_start" {
            if let Some(idx) = data(e)["index"].as_i64() {
                *opened.entry(idx).or_insert(0) += 1;
            }
        } else if e.event == "content_block_stop" {
            if let Some(idx) = data(e)["index"].as_i64() {
                *opened.entry(idx).or_insert(0) -= 1;
            }
        }
    }
    for (idx, bal) in &opened {
        assert_eq!(
            *bal, 0,
            "块 {idx} 的 start/stop 不配对（差值 {bal}）: {all:?}"
        );
    }
}

/// 走真实入口的截断路径：tool_use 缓冲后从未收到 stop，流结束。
/// 校验发给客户端的纠正文本序列结构合法（有 message_start、text 块配对、
/// 没有孤立的 tool_use 块或半截 partial_json 外泄）。
#[test]
fn test_cc_truncated_via_real_entry_no_orphan_and_no_leak() {

    let mut ctx =
        StreamContext::new_with_thinking("test-model", 1, false, Vec::new(), true);

    let mut all: Vec<SseEvent> = Vec::new();

    // tool_use 参数流开始但永远收不到 stop（模型输出被截断）
    all.extend(ctx.take_events_for_kiro(&Event::ToolUse(ToolUseEvent {
        name: "Write".to_string(),
        tool_use_id: "toolu_01".to_string(),
        input: r#"{"file_path":"/big.rs","content":"line1"#.to_string(),
        stop: false,
    })));
    // 收尾
    all.extend(ctx.finalize_stream());

    // message_start 必须恰好一次
    let starts = all.iter().filter(|e| e.event == "message_start").count();
    assert_eq!(
        starts, 1,
        "message_start 应恰好一次，实际 {starts}: {all:?}"
    );

    // 不应外泄任何 partial_json（半截参数）
    let leaked: Vec<String> = all
        .iter()
        .filter(|e| e.event == "content_block_delta")
        .filter_map(|e| data(e)["delta"]["partial_json"].as_str().map(|s| s.to_string()))
        .collect();
    assert!(
        leaked.is_empty(),
        "不应外泄 tool_use 半截参数，实际: {leaked:?}"
    );

    // 应发出纠正文本
    let text: String = all
        .iter()
        .filter(|e| e.event == "content_block_delta")
        .filter_map(|e| data(e)["delta"]["text"].as_str().map(|s| s.to_string()))
        .collect();
    assert!(
        text.contains("output was truncated"),
        "应有纠正文本: {all:?}"
    );

    // 块 start/stop 必须配对
    let mut opened: std::collections::HashMap<i64, i64> = std::collections::HashMap::new();
    for e in &all {
        if e.event == "content_block_start" {
            if let Some(idx) = data(e)["index"].as_i64() {
                *opened.entry(idx).or_insert(0) += 1;
            }
        } else if e.event == "content_block_stop" {
            if let Some(idx) = data(e)["index"].as_i64() {
                *opened.entry(idx).or_insert(0) -= 1;
            }
        }
    }
    for (idx, bal) in &opened {
        assert_eq!(
            *bal, 0,
            "块 {idx} 的 start/stop 不配对（差值 {bal}）: {all:?}"
        );
    }

    // 纠正文本用的 text 块必须真的发过 content_block_start
    let text_delta_indices: std::collections::HashSet<i64> = all
        .iter()
        .filter(|e| e.event == "content_block_delta" && data(e)["delta"]["type"] == "text_delta")
        .filter_map(|e| data(e)["index"].as_i64())
        .collect();
    let text_start_indices: std::collections::HashSet<i64> = all
        .iter()
        .filter(|e| {
            e.event == "content_block_start" && data(e)["content_block"]["type"] == "text"
        })
        .filter_map(|e| data(e)["index"].as_i64())
        .collect();
    for idx in &text_delta_indices {
        assert!(
            text_start_indices.contains(idx),
            "text_delta 用的块 {idx} 从未发过 content_block_start（孤立 delta）: {all:?}"
        );
    }
}

/// 超时兜底：/cc 等待期强制放行 message_start，用估算 input_tokens 填充，
/// 且不影响后续正文事件的正常转发
#[test]
fn test_cc_force_release_message_start_on_timeout() {
    let mut ctx =
        StreamContext::new_with_thinking("test-model", 42, false, Vec::new(), true);

    // 尚未收到任何事件：处于等待期
    assert!(ctx.awaiting_message_start_release());

    let released = ctx.force_release_message_start();
    // 应放行 message_start，且 input_tokens 取估算值 42
    let msg_start = released
        .iter()
        .find(|e| e.event == "message_start")
        .expect("应放行 message_start");
    assert_eq!(
        data(&msg_start)["message"]["usage"]["input_tokens"], 42,
        "强制放行时应使用估算 input_tokens，实际: {msg_start:?}"
    );
    // 放行后不再处于等待期
    assert!(!ctx.awaiting_message_start_release());

    // 放行后正文事件应实时转发（不再缓冲）
    let text = ctx.process_assistant_response("hello");
    assert!(
        text.iter()
            .any(|e| e.event == "content_block_delta" && data(e)["delta"]["text"] == "hello"),
        "放行后正文应实时转发，实际: {text:?}"
    );
}

/// 强制放行对「非延迟模式」与「已放行」都是幂等 no-op
#[test]
fn test_force_release_message_start_is_noop_when_not_waiting() {
    // 非 /cc（delay = false）：从不进入等待期
    let mut v1 =
        StreamContext::new_with_thinking("test-model", 1, false, Vec::new(), false);
    assert!(!v1.awaiting_message_start_release());
    assert!(
        v1.force_release_message_start().is_empty(),
        "非延迟模式强制放行应为空"
    );

    // /cc 已放行后再次调用应为空
    let mut cc = StreamContext::new_with_thinking("test-model", 1, false, Vec::new(), true);
    let _ = ctx_release(&mut cc);
    assert!(!cc.awaiting_message_start_release());
    assert!(
        cc.force_release_message_start().is_empty(),
        "已放行后再次强制放行应为空"
    );
}

/// 触发一次正常放行（收到 contextUsageEvent）
fn ctx_release(ctx: &mut StreamContext) -> Vec<SseEvent> {
    ctx.take_events_for_kiro(&Event::ContextUsage(
        context_usage(10.0),
    ))
}

/// 缓冲模式（/cc）下，完整的 tool_use（收到 stop）应正常放行
#[test]
fn test_cc_buffered_complete_tool_use_is_released() {
    // delay_message_start = true 即 /cc 路径
    let mut ctx =
        StreamContext::new_with_thinking("test-model", 1, false, Vec::new(), true);
    let _ = ctx.generate_initial_events();

    // 参数分两次到达，最后一次带 stop
    let partial = ctx.process_tool_use(&ToolUseEvent {
        name: "Write".to_string(),
        tool_use_id: "toolu_01".to_string(),
        input: r#"{"path":"/a.rs","#.to_string(),
        stop: false,
    });
    // 第一帧会关闭初始 text 块（index 0），该 content_block_stop 属于已放行的
    // text 块，应立即放行；但不应放行任何 tool_use 块（index 1）的事件。
    assert!(
        partial
            .iter()
            .all(|e| e.event == "content_block_stop" && data(e)["index"] == 0),
        "stop 之前只应放行关闭前置 text 块的事件，实际: {partial:?}"
    );
    assert!(
        !partial.iter().any(|e| e.event == "content_block_start"),
        "tool_use 块的 start 不应在 stop 前放行，实际: {partial:?}"
    );

    let released = ctx.process_tool_use(&ToolUseEvent {
        name: "Write".to_string(),
        tool_use_id: "toolu_01".to_string(),
        input: r#""content":"x"}"#.to_string(),
        stop: true,
    });

    // 完整的一组事件应在 stop 时整体放行
    assert!(
        released.iter().any(|e| e.event == "content_block_start"),
        "应放行 content_block_start，实际: {released:?}"
    );
    assert!(
        released.iter().any(|e| e.event == "content_block_stop"),
        "应放行 content_block_stop，实际: {released:?}"
    );
    // 两段参数增量都应保留
    let deltas: Vec<String> = released
        .iter()
        .filter(|e| e.event == "content_block_delta")
        .filter_map(|e| data(e)["delta"]["partial_json"].as_str().map(|s| s.to_string()))
        .collect();
    assert_eq!(deltas.len(), 2, "两段参数增量都应放行，实际: {deltas:?}");

    // 收尾不应再产生纠正文本
    let final_events = ctx.finalize_stream();
    let text: String = final_events
        .iter()
        .filter(|e| e.event == "content_block_delta")
        .filter_map(|e| data(e)["delta"]["text"].as_str().map(|s| s.to_string()))
        .collect();
    assert!(
        !text.contains("truncated"),
        "完整调用不应触发纠正文本，实际: {text}"
    );
}

/// 复现假设：/cc 缓冲模式下，多个 tool_use 交错到达、且**完成（stop）顺序与
/// start 顺序相反**时，放行的 content_block_start 的 index 是否保持单调递增。
///
/// Anthropic 协议要求 content_block 的 index 按递增顺序开始。若放行时按“谁先
/// 收到 stop”排序，会先发 index 2 的 start 再发 index 1 的 start → 乱序 →
/// 客户端会报 "Invalid tool parameters"。此测试断言放行顺序按 index 递增。
#[test]
fn test_cc_interleaved_tools_release_in_index_order() {
    let mut ctx =
        StreamContext::new_with_thinking("test-model", 1, false, Vec::new(), true);
    let _ = ctx.generate_initial_events();

    // 按放行先后顺序记录所有 content_block_start 的 index
    let mut start_order: Vec<i64> = Vec::new();
    let collect = |events: Vec<SseEvent>, out: &mut Vec<i64>| {
        for e in &events {
            if e.event == "content_block_start" && data(e)["content_block"]["type"] == "tool_use" {
                if let Some(i) = data(e)["index"].as_i64() {
                    out.push(i);
                }
            }
        }
    };

    // 工具 A 先开始（占 index 1），参数未写完，暂不 stop
    collect(
        ctx.process_tool_use(&ToolUseEvent {
            name: "Read".to_string(),
            tool_use_id: "toolu_A".to_string(),
            input: r#"{"path":"/a"#.to_string(),
            stop: false,
        }),
        &mut start_order,
    );
    // 工具 B 后开始（占 index 2），且先完成（stop）
    collect(
        ctx.process_tool_use(&ToolUseEvent {
            name: "Read".to_string(),
            tool_use_id: "toolu_B".to_string(),
            input: r#"{"path":"/b"}"#.to_string(),
            stop: true,
        }),
        &mut start_order,
    );
    // 工具 A 后完成
    collect(
        ctx.process_tool_use(&ToolUseEvent {
            name: "Read".to_string(),
            tool_use_id: "toolu_A".to_string(),
            input: r#""}"#.to_string(),
            stop: true,
        }),
        &mut start_order,
    );

    // 断言：放行的 tool_use start 的 index 必须单调递增（先 1 后 2）。
    // 若实现按“谁先 stop”放行，会得到 [2, 1] → 违反协议 → 客户端报错。
    let mut sorted = start_order.clone();
    sorted.sort();
    assert_eq!(
        start_order, sorted,
        "tool_use 的 content_block_start 放行顺序未按 index 递增（交错完成导致乱序）: {start_order:?}"
    );
}

/// 缓冲模式下中途断流：未收到 stop 的 tool_use 块只进了缓冲、从未发给客户端，
/// 优雅收尾时不能为其补发孤立的 content_block_stop（否则客户端报
/// "Content block not found"）。
#[test]
fn test_cc_interrupt_discards_buffered_tool_block() {
    let mut ctx =
        StreamContext::new_with_thinking("test-model", 1, false, Vec::new(), true);
    let _ = ctx.generate_initial_events();

    // tool_use 参数流开始但收不到 stop —— 被截断，事件全进缓冲
    let buffered = ctx.process_tool_use(&ToolUseEvent {
        name: "Write".to_string(),
        tool_use_id: "toolu_01".to_string(),
        input: r#"{"path":"/big.rs","content":"line1"#.to_string(),
        stop: false,
    });
    // tool_use 块的 start 必须没放行（否则不是「未发出」的前提）
    assert!(
        !buffered.iter().any(|e| e.event == "content_block_start"),
        "tool_use start 不应在 stop 前放行，实际: {buffered:?}"
    );
    // 记下 tool_use 块的 index，用于校验收尾不为它补 stop
    let tool_idx = ctx
        .tool_block_indices
        .iter()
        .find(|(id, _)| id == "toolu_01")
        .expect("tool_use 块应有 index")
        .1;

    // 中途断流 → 优雅收尾
    let final_events = ctx.finalize_stream_on_interrupt();

    // 不能出现该 tool_use 块 index 的 content_block_stop（它从未 start 过）
    assert!(
        !final_events
            .iter()
            .any(|e| e.event == "content_block_stop" && data(e)["index"] == tool_idx),
        "不应为未发出的 tool_use 块补发孤立 content_block_stop，实际: {final_events:?}"
    );
    // 仍应正常封口
    let delta = final_events
        .iter()
        .find(|e| e.event == "message_delta")
        .expect("应有 message_delta");
    assert_eq!(data(delta)["delta"]["stop_reason"], "max_tokens");
    assert!(
        final_events.iter().any(|e| e.event == "message_stop"),
        "应有 message_stop，实际: {final_events:?}"
    );
}

/// 缓冲模式下，未收到 stop 的 tool_use 应被丢弃并替换为纠正文本
#[test]
fn test_cc_buffered_truncated_tool_use_replaced_with_correction() {
    let mut ctx =
        StreamContext::new_with_thinking("test-model", 1, false, Vec::new(), true);
    let _ = ctx.generate_initial_events();

    // 参数流开始但永远收不到 stop —— 即模型输出被截断
    let buffered = ctx.process_tool_use(&ToolUseEvent {
        name: "Write".to_string(),
        tool_use_id: "toolu_01".to_string(),
        input: r#"{"path":"/big.rs","content":"line1\nline2"#.to_string(),
        stop: false,
    });
    // 第一帧可能放行「关闭前置 text 块」的 content_block_stop（index 0），
    // 但绝不能外泄 tool_use 块的任何事件（start / partial_json）。
    assert!(
        !buffered
            .iter()
            .any(|e| e.event == "content_block_start"
                || data(e)["delta"]["partial_json"].is_string()),
        "不完整的 tool_use 不应外泄 start 或参数增量，实际: {buffered:?}"
    );

    let final_events = ctx.finalize_stream();

    // 不应出现任何 tool_use 块的事件
    assert!(
        !final_events.iter().any(|e| e.event == "content_block_start"
            && data(e)["content_block"]["type"] == "tool_use"),
        "被截断的 tool_use 不应发给客户端，实际: {final_events:?}"
    );
    // 不应出现孤立的 content_block_stop（start 从未发出）
    let stops = final_events
        .iter()
        .filter(|e| e.event == "content_block_stop")
        .count();
    let starts = final_events
        .iter()
        .filter(|e| e.event == "content_block_start")
        .count();
    assert!(
        stops <= starts,
        "content_block_stop 不应多于 start，start={starts} stop={stops}"
    );

    // 应改为发出纠正文本，且带上生效的行数
    let text: String = final_events
        .iter()
        .filter(|e| e.event == "content_block_delta")
        .filter_map(|e| data(e)["delta"]["text"].as_str().map(|s| s.to_string()))
        .collect();
    assert!(
        text.contains("output was truncated"),
        "应发出截断纠正文本，实际: {text}"
    );
    assert!(
        text.contains("The tool was NOT executed"),
        "应说明工具未执行，实际: {text}"
    );
    assert!(text.contains("50 lines"), "应带上默认行数，实际: {text}");

    // stop_reason 应为 max_tokens
    let delta = final_events
        .iter()
        .find(|e| e.event == "message_delta")
        .expect("应有 message_delta");
    assert_eq!(data(&delta)["delta"]["stop_reason"], "max_tokens");
}

/// 非缓冲模式（/v1）不应缓冲 tool_use —— 保持实时转发
#[test]
fn test_v1_does_not_buffer_tool_use() {
    let mut ctx =
        StreamContext::new_with_thinking("test-model", 1, false, Vec::new(), false);
    let _ = ctx.generate_initial_events();

    let events = ctx.process_tool_use(&ToolUseEvent {
        name: "Write".to_string(),
        tool_use_id: "toolu_01".to_string(),
        input: r#"{"path":"/a.rs""#.to_string(),
        stop: false,
    });
    assert!(
        events.iter().any(|e| e.event == "content_block_start"),
        "/v1 应实时转发 tool_use，实际: {events:?}"
    );
}

#[test]
fn test_text_delta_after_tool_use_restarts_text_block() {
    let mut ctx =
        StreamContext::new_with_thinking("test-model", 1, false, Vec::new(), false);

    let initial_events = ctx.generate_initial_events();
    assert!(
        initial_events
            .iter()
            .any(|e| e.event == "content_block_start"
                && data(e)["content_block"]["type"] == "text")
    );

    let initial_text_index = ctx
        .text_block_index
        .expect("initial text block index should exist");

    // tool_use 开始会自动关闭现有 text block
    let tool_events = ctx.process_tool_use(&ToolUseEvent {
        name: "test_tool".to_string(),
        tool_use_id: "tool_1".to_string(),
        input: "{}".to_string(),
        stop: false,
    });
    assert!(
        tool_events.iter().any(|e| {
            e.event == "content_block_stop"
                && data(e)["index"].as_i64() == Some(initial_text_index as i64)
        }),
        "tool_use should stop the previous text block"
    );

    // 之后再来文本增量，应自动创建新的 text block 而不是往已 stop 的块里写 delta
    let text_events = ctx.process_assistant_response("hello");
    let new_text_start_index = text_events.iter().find_map(|e| {
        if e.event == "content_block_start" && data(e)["content_block"]["type"] == "text" {
            data(e)["index"].as_i64()
        } else {
            None
        }
    });
    assert!(
        new_text_start_index.is_some(),
        "should start a new text block"
    );
    assert_ne!(
        new_text_start_index.unwrap(),
        initial_text_index as i64,
        "new text block index should differ from the stopped one"
    );
    assert!(
        text_events.iter().any(|e| {
            e.event == "content_block_delta"
                && data(e)["delta"]["type"] == "text_delta"
                && data(e)["delta"]["text"] == "hello"
        }),
        "should emit text_delta after restarting text block"
    );
}

#[test]
fn test_tool_use_flushes_pending_thinking_buffer_text_before_tool_block() {
    // thinking 模式下，短文本可能被暂存在 thinking_buffer 以等待 `<thinking>` 的跨 chunk 匹配。
    // 当紧接着出现 tool_use 时，应先 flush 这段文本，再开始 tool_use block。
    let mut ctx =
        StreamContext::new_with_thinking("test-model", 1, true, Vec::new(), false);
    let _initial_events = ctx.generate_initial_events();

    // 两段短文本（各 2 个中文字符），总长度仍可能不足以满足 safe_len>0 的输出条件，
    // 因而会留在 thinking_buffer 中等待后续 chunk。
    let ev1 = ctx.process_assistant_response("有修");
    assert!(
        ev1.iter().all(|e| e.event != "content_block_delta"),
        "short prefix should be buffered under thinking mode"
    );
    let ev2 = ctx.process_assistant_response("改：");
    assert!(
        ev2.iter().all(|e| e.event != "content_block_delta"),
        "short prefix should still be buffered under thinking mode"
    );

    let events = ctx.process_tool_use(&ToolUseEvent {
        name: "Write".to_string(),
        tool_use_id: "tool_1".to_string(),
        input: "{}".to_string(),
        stop: false,
    });

    let text_start_index = events.iter().find_map(|e| {
        if e.event == "content_block_start" && data(e)["content_block"]["type"] == "text" {
            data(e)["index"].as_i64()
        } else {
            None
        }
    });
    let pos_text_delta = events.iter().position(|e| {
        e.event == "content_block_delta" && data(e)["delta"]["type"] == "text_delta"
    });
    let pos_text_stop = text_start_index.and_then(|idx| {
        events.iter().position(|e| {
            e.event == "content_block_stop" && data(e)["index"].as_i64() == Some(idx)
        })
    });
    let pos_tool_start = events.iter().position(|e| {
        e.event == "content_block_start" && data(e)["content_block"]["type"] == "tool_use"
    });

    assert!(
        text_start_index.is_some(),
        "should start a text block to flush buffered text"
    );
    assert!(
        pos_text_delta.is_some(),
        "should flush buffered text as text_delta"
    );
    assert!(
        pos_text_stop.is_some(),
        "should stop text block before tool_use block starts"
    );
    assert!(pos_tool_start.is_some(), "should start tool_use block");

    let pos_text_delta = pos_text_delta.unwrap();
    let pos_text_stop = pos_text_stop.unwrap();
    let pos_tool_start = pos_tool_start.unwrap();

    assert!(
        pos_text_delta < pos_text_stop && pos_text_stop < pos_tool_start,
        "ordering should be: text_delta -> text_stop -> tool_use_start"
    );

    assert!(
        events.iter().any(|e| {
            e.event == "content_block_delta"
                && data(e)["delta"]["type"] == "text_delta"
                && data(e)["delta"]["text"] == "有修改："
        }),
        "flushed text should equal the buffered prefix"
    );
}

#[test]
fn test_estimate_tokens() {
    assert!(estimate_tokens("Hello") > 0);
    assert!(estimate_tokens("你好") > 0);
    assert!(estimate_tokens("Hello 你好") > 0);
}

#[test]
fn test_find_real_thinking_start_tag_basic() {
    // 基本情况：正常的开始标签
    assert_eq!(find_real_thinking_start_tag("<thinking>"), Some(0));
    assert_eq!(find_real_thinking_start_tag("prefix<thinking>"), Some(6));
}

#[test]
fn test_find_real_thinking_start_tag_with_backticks() {
    // 被反引号包裹的应该被跳过
    assert_eq!(find_real_thinking_start_tag("`<thinking>`"), None);
    assert_eq!(find_real_thinking_start_tag("use `<thinking>` tag"), None);

    // 先有被包裹的，后有真正的开始标签
    assert_eq!(
        find_real_thinking_start_tag("about `<thinking>` tag<thinking>content"),
        Some(22)
    );
}

#[test]
fn test_find_real_thinking_start_tag_with_quotes() {
    // 被双引号包裹的应该被跳过
    assert_eq!(find_real_thinking_start_tag("\"<thinking>\""), None);
    assert_eq!(find_real_thinking_start_tag("the \"<thinking>\" tag"), None);

    // 被单引号包裹的应该被跳过
    assert_eq!(find_real_thinking_start_tag("'<thinking>'"), None);

    // 混合情况
    assert_eq!(
        find_real_thinking_start_tag("about \"<thinking>\" and '<thinking>' then<thinking>"),
        Some(40)
    );
}

#[test]
fn test_find_real_thinking_end_tag_basic() {
    // 基本情况：正常的结束标签后面有双换行符
    assert_eq!(find_real_thinking_end_tag("</thinking>\n\n"), Some(0));
    assert_eq!(
        find_real_thinking_end_tag("content</thinking>\n\n"),
        Some(7)
    );
    assert_eq!(
        find_real_thinking_end_tag("some text</thinking>\n\nmore text"),
        Some(9)
    );

    // 没有双换行符的情况
    assert_eq!(find_real_thinking_end_tag("</thinking>"), None);
    assert_eq!(find_real_thinking_end_tag("</thinking>\n"), None);
    assert_eq!(find_real_thinking_end_tag("</thinking> more"), None);
}

#[test]
fn test_find_real_thinking_end_tag_with_backticks() {
    // 被反引号包裹的应该被跳过
    assert_eq!(find_real_thinking_end_tag("`</thinking>`\n\n"), None);
    assert_eq!(
        find_real_thinking_end_tag("mention `</thinking>` in code\n\n"),
        None
    );

    // 只有前面有反引号
    assert_eq!(find_real_thinking_end_tag("`</thinking>\n\n"), None);

    // 只有后面有反引号
    assert_eq!(find_real_thinking_end_tag("</thinking>`\n\n"), None);
}

#[test]
fn test_find_real_thinking_end_tag_with_quotes() {
    // 被双引号包裹的应该被跳过
    assert_eq!(find_real_thinking_end_tag("\"</thinking>\"\n\n"), None);
    assert_eq!(
        find_real_thinking_end_tag("the string \"</thinking>\" is a tag\n\n"),
        None
    );

    // 被单引号包裹的应该被跳过
    assert_eq!(find_real_thinking_end_tag("'</thinking>'\n\n"), None);
    assert_eq!(
        find_real_thinking_end_tag("use '</thinking>' as marker\n\n"),
        None
    );

    // 混合情况：双引号包裹后有真正的标签
    assert_eq!(
        find_real_thinking_end_tag("about \"</thinking>\" tag</thinking>\n\n"),
        Some(23)
    );

    // 混合情况：单引号包裹后有真正的标签
    assert_eq!(
        find_real_thinking_end_tag("about '</thinking>' tag</thinking>\n\n"),
        Some(23)
    );
}

#[test]
fn test_find_real_thinking_end_tag_mixed() {
    // 先有被包裹的，后有真正的结束标签
    assert_eq!(
        find_real_thinking_end_tag("discussing `</thinking>` tag</thinking>\n\n"),
        Some(28)
    );

    // 多个被包裹的，最后一个是真正的
    assert_eq!(
        find_real_thinking_end_tag("`</thinking>` and `</thinking>` done</thinking>\n\n"),
        Some(36)
    );

    // 多种引用字符混合
    assert_eq!(
        find_real_thinking_end_tag(
            "`</thinking>` and \"</thinking>\" and '</thinking>' done</thinking>\n\n"
        ),
        Some(54)
    );
}

#[test]
fn test_tool_use_immediately_after_thinking_filters_end_tag_and_closes_thinking_block() {
    let mut ctx =
        StreamContext::new_with_thinking("test-model", 1, true, Vec::new(), false);
    let _initial_events = ctx.generate_initial_events();

    let mut all_events = Vec::new();

    // thinking 内容以 `</thinking>` 结尾，但后面没有 `\n\n`（模拟紧跟 tool_use 的场景）
    all_events.extend(ctx.process_assistant_response("<thinking>abc</thinking>"));

    let tool_events = ctx.process_tool_use(&ToolUseEvent {
        name: "Write".to_string(),
        tool_use_id: "tool_1".to_string(),
        input: "{}".to_string(),
        stop: false,
    });
    all_events.extend(tool_events);

    all_events.extend(ctx.generate_final_events());

    // 不应把 `</thinking>` 当作 thinking 内容输出
    assert!(
        all_events.iter().all(|e| {
            !(e.event == "content_block_delta"
                && data(e)["delta"]["type"] == "thinking_delta"
                && data(e)["delta"]["thinking"] == "</thinking>")
        }),
        "`</thinking>` should be filtered from output"
    );

    // thinking block 必须在 tool_use block 之前关闭
    let thinking_index = ctx
        .thinking_block_index
        .expect("thinking block index should exist");
    let pos_thinking_stop = all_events.iter().position(|e| {
        e.event == "content_block_stop"
            && data(e)["index"].as_i64() == Some(thinking_index as i64)
    });
    let pos_tool_start = all_events.iter().position(|e| {
        e.event == "content_block_start" && data(e)["content_block"]["type"] == "tool_use"
    });
    assert!(
        pos_thinking_stop.is_some(),
        "thinking block should be stopped"
    );
    assert!(pos_tool_start.is_some(), "tool_use block should be started");
    assert!(
        pos_thinking_stop.unwrap() < pos_tool_start.unwrap(),
        "thinking block should stop before tool_use block starts"
    );
}

#[test]
fn test_final_flush_filters_standalone_thinking_end_tag() {
    let mut ctx =
        StreamContext::new_with_thinking("test-model", 1, true, Vec::new(), false);
    let _initial_events = ctx.generate_initial_events();

    let mut all_events = Vec::new();
    all_events.extend(ctx.process_assistant_response("<thinking>abc</thinking>"));
    all_events.extend(ctx.generate_final_events());

    assert!(
        all_events.iter().all(|e| {
            !(e.event == "content_block_delta"
                && data(e)["delta"]["type"] == "thinking_delta"
                && data(e)["delta"]["thinking"] == "</thinking>")
        }),
        "`</thinking>` should be filtered during final flush"
    );
}

#[test]
fn test_thinking_strips_leading_newline_same_chunk() {
    // <thinking>\n 在同一个 chunk 中，\n 应被剥离
    let mut ctx =
        StreamContext::new_with_thinking("test-model", 1, true, Vec::new(), false);
    let _initial_events = ctx.generate_initial_events();

    let events = ctx.process_assistant_response("<thinking>\nHello world");

    // 找到所有 thinking_delta 事件
    let thinking_deltas: Vec<_> = events
        .iter()
        .filter(|e| {
            e.event == "content_block_delta" && data(e)["delta"]["type"] == "thinking_delta"
        })
        .collect();

    // 拼接所有 thinking 内容
    let full_thinking: String = thinking_deltas
        .iter()
        .map(|e| data(e)["delta"]["thinking"].as_str().unwrap_or("").to_string())
        .collect();

    assert!(
        !full_thinking.starts_with('\n'),
        "thinking content should not start with \\n, got: {:?}",
        full_thinking
    );
}

#[test]
fn test_thinking_strips_leading_newline_cross_chunk() {
    // <thinking> 在第一个 chunk 末尾，\n 在第二个 chunk 开头
    let mut ctx =
        StreamContext::new_with_thinking("test-model", 1, true, Vec::new(), false);
    let _initial_events = ctx.generate_initial_events();

    let events1 = ctx.process_assistant_response("<thinking>");
    let events2 = ctx.process_assistant_response("\nHello world");

    let mut all_events = Vec::new();
    all_events.extend(events1);
    all_events.extend(events2);

    let thinking_deltas: Vec<_> = all_events
        .iter()
        .filter(|e| {
            e.event == "content_block_delta" && data(e)["delta"]["type"] == "thinking_delta"
        })
        .collect();

    let full_thinking: String = thinking_deltas
        .iter()
        .map(|e| data(e)["delta"]["thinking"].as_str().unwrap_or("").to_string())
        .collect();

    assert!(
        !full_thinking.starts_with('\n'),
        "thinking content should not start with \\n across chunks, got: {:?}",
        full_thinking
    );
}

#[test]
fn test_thinking_no_strip_when_no_leading_newline() {
    // <thinking> 后直接跟内容（无 \n），内容应完整保留
    let mut ctx =
        StreamContext::new_with_thinking("test-model", 1, true, Vec::new(), false);
    let _initial_events = ctx.generate_initial_events();

    let events = ctx.process_assistant_response("<thinking>abc</thinking>\n\ntext");

    let thinking_deltas: Vec<_> = events
        .iter()
        .filter(|e| {
            e.event == "content_block_delta" && data(e)["delta"]["type"] == "thinking_delta"
        })
        .collect();

    let full_thinking: String = thinking_deltas
        .iter()
        .filter(|e| {
            !data(e)["delta"]["thinking"]
                .as_str()
                .unwrap_or("")
                .is_empty()
        })
        .map(|e| data(e)["delta"]["thinking"].as_str().unwrap_or("").to_string())
        .collect();

    assert_eq!(full_thinking, "abc", "thinking content should be 'abc'");
}

#[test]
fn test_text_after_thinking_strips_leading_newlines() {
    // `</thinking>\n\n` 后的文本不应以 \n\n 开头
    let mut ctx =
        StreamContext::new_with_thinking("test-model", 1, true, Vec::new(), false);
    let _initial_events = ctx.generate_initial_events();

    let events = ctx.process_assistant_response("<thinking>\nabc</thinking>\n\n你好");

    let text_deltas: Vec<_> = events
        .iter()
        .filter(|e| e.event == "content_block_delta" && data(e)["delta"]["type"] == "text_delta")
        .collect();

    let full_text: String = text_deltas
        .iter()
        .map(|e| data(e)["delta"]["text"].as_str().unwrap_or("").to_string())
        .collect();

    assert!(
        !full_text.starts_with('\n'),
        "text after thinking should not start with \\n, got: {:?}",
        full_text
    );
    assert_eq!(full_text, "你好");
}

/// 辅助函数：从事件列表中提取所有 thinking_delta 的拼接内容
fn collect_thinking_content(events: &[SseEvent]) -> String {
    events
        .iter()
        .filter(|e| {
            e.event == "content_block_delta" && data(e)["delta"]["type"] == "thinking_delta"
        })
        .map(|e| data(e)["delta"]["thinking"].as_str().unwrap_or("").to_string())
        .filter(|s| !s.is_empty())
        .collect()
}

/// 辅助函数：从事件列表中提取所有 text_delta 的拼接内容
fn collect_text_content(events: &[SseEvent]) -> String {
    events
        .iter()
        .filter(|e| e.event == "content_block_delta" && data(e)["delta"]["type"] == "text_delta")
        .map(|e| data(e)["delta"]["text"].as_str().unwrap_or("").to_string())
        .collect()
}

#[test]
fn test_end_tag_newlines_split_across_events() {
    // `</thinking>\n` 在 chunk 1，`\n` 在 chunk 2，`text` 在 chunk 3
    // 确保 `</thinking>` 不会被部分当作 thinking 内容发出
    let mut ctx =
        StreamContext::new_with_thinking("test-model", 1, true, Vec::new(), false);
    let _initial_events = ctx.generate_initial_events();

    let mut all = Vec::new();
    all.extend(ctx.process_assistant_response("<thinking>\nabc</thinking>\n"));
    all.extend(ctx.process_assistant_response("\n"));
    all.extend(ctx.process_assistant_response("你好"));
    all.extend(ctx.generate_final_events());

    let thinking = collect_thinking_content(&all);
    assert_eq!(
        thinking, "abc",
        "thinking should be 'abc', got: {:?}",
        thinking
    );

    let text = collect_text_content(&all);
    assert_eq!(text, "你好", "text should be '你好', got: {:?}", text);
}

#[test]
fn test_end_tag_alone_in_chunk_then_newlines_in_next() {
    // `</thinking>` 单独在一个 chunk，`\n\ntext` 在下一个 chunk
    let mut ctx =
        StreamContext::new_with_thinking("test-model", 1, true, Vec::new(), false);
    let _initial_events = ctx.generate_initial_events();

    let mut all = Vec::new();
    all.extend(ctx.process_assistant_response("<thinking>\nabc</thinking>"));
    all.extend(ctx.process_assistant_response("\n\n你好"));
    all.extend(ctx.generate_final_events());

    let thinking = collect_thinking_content(&all);
    assert_eq!(
        thinking, "abc",
        "thinking should be 'abc', got: {:?}",
        thinking
    );

    let text = collect_text_content(&all);
    assert_eq!(text, "你好", "text should be '你好', got: {:?}", text);
}

#[test]
fn test_start_tag_newline_split_across_events() {
    // `\n\n` 在 chunk 1，`<thinking>` 在 chunk 2，`\n` 在 chunk 3
    let mut ctx =
        StreamContext::new_with_thinking("test-model", 1, true, Vec::new(), false);
    let _initial_events = ctx.generate_initial_events();

    let mut all = Vec::new();
    all.extend(ctx.process_assistant_response("\n\n"));
    all.extend(ctx.process_assistant_response("<thinking>"));
    all.extend(ctx.process_assistant_response("\n"));
    all.extend(ctx.process_assistant_response("abc</thinking>\n\ntext"));
    all.extend(ctx.generate_final_events());

    let thinking = collect_thinking_content(&all);
    assert_eq!(
        thinking, "abc",
        "thinking should be 'abc', got: {:?}",
        thinking
    );

    let text = collect_text_content(&all);
    assert_eq!(text, "text", "text should be 'text', got: {:?}", text);
}

#[test]
fn test_full_flow_maximally_split() {
    // 极端拆分：每个关键边界都在不同 chunk
    let mut ctx =
        StreamContext::new_with_thinking("test-model", 1, true, Vec::new(), false);
    let _initial_events = ctx.generate_initial_events();

    let mut all = Vec::new();
    // \n\n<thinking>\n 拆成多段
    all.extend(ctx.process_assistant_response("\n"));
    all.extend(ctx.process_assistant_response("\n"));
    all.extend(ctx.process_assistant_response("<thin"));
    all.extend(ctx.process_assistant_response("king>"));
    all.extend(ctx.process_assistant_response("\n"));
    all.extend(ctx.process_assistant_response("hello"));
    // </thinking>\n\n 拆成多段
    all.extend(ctx.process_assistant_response("</thi"));
    all.extend(ctx.process_assistant_response("nking>"));
    all.extend(ctx.process_assistant_response("\n"));
    all.extend(ctx.process_assistant_response("\n"));
    all.extend(ctx.process_assistant_response("world"));
    all.extend(ctx.generate_final_events());

    let thinking = collect_thinking_content(&all);
    assert_eq!(
        thinking, "hello",
        "thinking should be 'hello', got: {:?}",
        thinking
    );

    let text = collect_text_content(&all);
    assert_eq!(text, "world", "text should be 'world', got: {:?}", text);
}

#[test]
fn test_thinking_only_sets_max_tokens_stop_reason() {
    // 整个流只有 thinking 块，没有 text 也没有 tool_use，stop_reason 应为 max_tokens
    let mut ctx =
        StreamContext::new_with_thinking("test-model", 1, true, Vec::new(), false);
    let _initial_events = ctx.generate_initial_events();

    let mut all_events = Vec::new();
    all_events.extend(ctx.process_assistant_response("<thinking>\nabc</thinking>"));
    all_events.extend(ctx.generate_final_events());

    let message_delta = all_events
        .iter()
        .find(|e| e.event == "message_delta")
        .expect("should have message_delta event");

    assert_eq!(
        data(&message_delta)["delta"]["stop_reason"], "max_tokens",
        "stop_reason should be max_tokens when only thinking is produced"
    );

    // 应补发一套完整的 text 事件（content_block_start + delta 空格 + content_block_stop）
    assert!(
        all_events.iter().any(|e| {
            e.event == "content_block_start" && data(e)["content_block"]["type"] == "text"
        }),
        "should emit text content_block_start"
    );
    assert!(
        all_events.iter().any(|e| {
            e.event == "content_block_delta"
                && data(e)["delta"]["type"] == "text_delta"
                && data(e)["delta"]["text"] == " "
        }),
        "should emit text_delta with a single space"
    );
    // text block 应被 generate_final_events 自动关闭
    let text_block_index = all_events
        .iter()
        .find_map(|e| {
            if e.event == "content_block_start" && data(e)["content_block"]["type"] == "text" {
                data(e)["index"].as_i64()
            } else {
                None
            }
        })
        .expect("text block should exist");
    assert!(
        all_events.iter().any(|e| {
            e.event == "content_block_stop"
                && data(e)["index"].as_i64() == Some(text_block_index)
        }),
        "text block should be stopped"
    );
}

#[test]
fn test_thinking_with_text_keeps_end_turn_stop_reason() {
    // thinking + text 的情况，stop_reason 应为 end_turn
    let mut ctx =
        StreamContext::new_with_thinking("test-model", 1, true, Vec::new(), false);
    let _initial_events = ctx.generate_initial_events();

    let mut all_events = Vec::new();
    all_events.extend(ctx.process_assistant_response("<thinking>\nabc</thinking>\n\nHello"));
    all_events.extend(ctx.generate_final_events());

    let message_delta = all_events
        .iter()
        .find(|e| e.event == "message_delta")
        .expect("should have message_delta event");

    assert_eq!(
        data(&message_delta)["delta"]["stop_reason"], "end_turn",
        "stop_reason should be end_turn when text is also produced"
    );
}

#[test]
fn test_thinking_with_tool_use_keeps_tool_use_stop_reason() {
    // thinking + tool_use 的情况，stop_reason 应为 tool_use
    let mut ctx =
        StreamContext::new_with_thinking("test-model", 1, true, Vec::new(), false);
    let _initial_events = ctx.generate_initial_events();

    let mut all_events = Vec::new();
    all_events.extend(ctx.process_assistant_response("<thinking>\nabc</thinking>"));
    all_events.extend(
        ctx.process_tool_use(&ToolUseEvent {
            name: "test_tool".to_string(),
            tool_use_id: "tool_1".to_string(),
            input: "{}".to_string(),
            stop: true,
        }),
    );
    all_events.extend(ctx.generate_final_events());

    let message_delta = all_events
        .iter()
        .find(|e| e.event == "message_delta")
        .expect("should have message_delta event");

    assert_eq!(
        data(&message_delta)["delta"]["stop_reason"], "tool_use",
        "stop_reason should be tool_use when tool_use is present"
    );
}

#[test]
fn test_finalize_stream_on_failure_emits_message_stop() {
    let mut ctx = StreamContext::new_with_thinking(
        "sonnet-4-6",
        100,
        false,
        Vec::new(),
        false,
    );
    ctx.stream_failed = true;
    let events = ctx.finalize_stream_on_failure();
    assert!(
        events.iter().any(|e| e.event == "message_start"),
        "failure finalize should emit message_start when stream never started"
    );
    assert!(
        events.iter().any(|e| e.event == "message_stop"),
        "failure finalize should emit message_stop"
    );
    assert!(
        events.iter().any(|e| e.event == "message_delta"),
        "failure finalize should emit message_delta"
    );
}

/// 直通模式（/v1）：首个事件一到就已发给客户端，此后不可重放
#[test]
fn test_client_saw_output_passthrough() {
    let mut ctx =
        StreamContext::new_with_thinking("test-model", 1, false, Vec::new(), false);
    assert!(!ctx.client_saw_output(), "尚未处理任何事件时应可重放");

    let out = ctx.take_events_for_kiro(&Event::AssistantResponse(
        response(r#"{"content":"hi"}"#),
    ));
    assert!(
        out.iter().any(|e| e.event == "message_start"),
        "直通模式首个事件应带 message_start，实际: {out:?}"
    );
    assert!(ctx.client_saw_output(), "message_start 已发出后不可重放");
}

/// 缓冲模式（/cc）：message_start 释放前仍可重放
#[test]
fn test_client_saw_output_delayed() {

    let mut ctx =
        StreamContext::new_with_thinking("test-model", 1, false, Vec::new(), true);
    assert!(!ctx.client_saw_output());

    // 不产出任何 SSE 的事件（metering 等）只会触发内部初始化，
    // 客户端什么也没收到，仍应允许重放
    let out = ctx.take_events_for_kiro(&Event::Unknown);
    assert!(out.is_empty(), "该事件不应产出 SSE，实际: {out:?}");
    assert!(
        !ctx.client_saw_output(),
        "缓冲模式下未释放 message_start 前应仍可重放"
    );

    // contextUsage 到达 → 释放 message_start
    let out = ctx.take_events_for_kiro(&Event::ContextUsage(context_usage(10.0)));
    assert!(
        out.iter().any(|e| e.event == "message_start"),
        "contextUsage 应释放 message_start，实际: {out:?}"
    );
    assert!(ctx.client_saw_output(), "message_start 已释放后不可重放");
}

/// 中途断流的优雅收尾：不发 error，以 stop_reason=max_tokens 正常封口
#[test]
fn test_finalize_on_interrupt_no_error_max_tokens() {
    let mut ctx =
        StreamContext::new_with_thinking("test-model", 1, false, Vec::new(), false);

    // 先输出一段正文，模拟「已向客户端发过内容后中途断流」
    let _ = ctx.take_events_for_kiro(&Event::AssistantResponse(
        response(r#"{"content":"hello"}"#),
    ));
    assert!(ctx.client_saw_output(), "输出正文后应视为已输出");

    let events = ctx.finalize_stream_on_interrupt();

    assert!(
        !events.iter().any(|e| e.event == "error"),
        "优雅收尾不应发送 error 事件，实际: {events:?}"
    );
    let delta = events
        .iter()
        .find(|e| e.event == "message_delta")
        .expect("应有 message_delta");
    assert_eq!(
        data(&delta)["delta"]["stop_reason"], "max_tokens",
        "中途断流收尾 stop_reason 应为 max_tokens"
    );
    assert!(
        events.iter().any(|e| e.event == "message_stop"),
        "优雅收尾应有 message_stop，实际: {events:?}"
    );
}

/// 从 message_delta 里取出 usage
fn usage_from_delta(events: &[SseEvent]) -> serde_json::Value {
    let delta = events
        .iter()
        .find(|e| e.event == "message_delta")
        .expect("应有 message_delta");
    data(delta)["usage"].clone()
}

#[test]
fn test_metadata_event_overrides_estimated_tokens() {

    // 传入一个明显错误的估算值，验证被 metadataEvent 覆盖
    let mut ctx =
        StreamContext::new_with_thinking("test-model", 99999, false, Vec::new(), false);
    let _ = ctx.generate_initial_events();
    let _ = ctx.process_kiro_event(&Event::AssistantResponse(
        response(r#"{"content":"hi"}"#),
    ));

    let metadata: MetadataEvent = metadata_event(r#"{"tokenUsage":{"uncachedInputTokens":123,"outputTokens":45,"totalTokens":168}}"#);
    let events = ctx.process_kiro_event(&Event::Metadata(metadata));
    assert!(events.is_empty(), "metadataEvent 本身不产生 SSE 事件");

    let usage = usage_from_delta(&ctx.finalize_stream());
    assert_eq!(usage["input_tokens"], 123);
    assert_eq!(usage["output_tokens"], 45);
}

#[test]
fn test_metadata_takes_priority_over_context_usage() {

    let mut ctx =
        StreamContext::new_with_thinking("test-model", 1, false, Vec::new(), false);
    let _ = ctx.generate_initial_events();

    // contextUsageEvent 先到（反推值），metadataEvent 后到（精确值）
    let _ = ctx.process_kiro_event(&Event::ContextUsage(context_usage(50.0)));
    let reverse_derived = ctx.context_input_tokens.expect("应有反推值");

    let metadata: MetadataEvent = metadata_event(r#"{"tokenUsage":{"uncachedInputTokens":777}}"#);
    let _ = ctx.process_kiro_event(&Event::Metadata(metadata));

    let usage = usage_from_delta(&ctx.finalize_stream());
    assert_eq!(usage["input_tokens"], 777, "精确值应优先于反推值");
    assert_ne!(reverse_derived, 777, "测试前提：两者本应不同");
}

#[test]
fn test_context_usage_still_used_without_metadata() {

    // 没有 metadataEvent 时保持原有行为（回退到反推值）
    let mut ctx =
        StreamContext::new_with_thinking("test-model", 1, false, Vec::new(), false);
    let _ = ctx.generate_initial_events();
    let _ = ctx.process_kiro_event(&Event::ContextUsage(context_usage(50.0)));
    let expected = ctx.context_input_tokens.expect("应有反推值");

    let usage = usage_from_delta(&ctx.finalize_stream());
    assert_eq!(usage["input_tokens"], expected);
}

#[test]
fn test_invalid_state_event_emits_error_and_fails_stream() {

    let mut ctx =
        StreamContext::new_with_thinking("test-model", 1, false, Vec::new(), false);
    let _ = ctx.generate_initial_events();

    let events = ctx.process_kiro_event(&Event::InvalidState(InvalidStateEvent {
        reason: "INVALID_TOOL_RESULT".to_string(),
        message: "missing id".to_string(),
    }));

    assert_eq!(events.len(), 1);
    assert_eq!(events[0].event, "error");
    let payload = data(&events[0]);
    let msg = payload["error"]["message"]
        .as_str()
        .expect("error.message 应为字符串");
    assert!(msg.contains("INVALID_TOOL_RESULT"), "实际: {msg}");
    assert!(msg.contains("missing id"), "实际: {msg}");
    assert!(ctx.stream_failed, "invalidStateEvent 应标记流失败");

    // 标记失败后不再处理后续事件
    assert!(
        ctx.take_events_for_kiro(&Event::AssistantResponse(
            response(r#"{"content":"ignored"}"#),
        ))
        .is_empty(),
        "流失败后应忽略后续事件"
    );
}
