//! What a response stream tells besides its content, as it follows from what the upstream
//! service said: the counts of tokens, the stop reason, errors; and when `message_start` is let
//! go.

use vstd::prelude::*;
use crate::anthropic::protocol;
use crate::anthropic::sse;
use crate::anthropic::state_manager;
use crate::anthropic::stream;
use crate::anthropic::stream_laws;
use crate::anthropic::stream_laws::{Action, Ending};
use crate::anthropic::stream_model;
use crate::anthropic::stream_model::StreamView;
use crate::anthropic::thinking;
use crate::anthropic::upstream;
use crate::kiro::events;
use crate::kiro::events::KiroEventView;
use crate::text;

verus! {

/// Whether the last event is a fault.
pub open spec fn faulted(ev: Seq<KiroEventView>) -> bool {
    ev.len() > 0 && upstream::is_fault(ev.last())
}

/// The events that a stream hears: all up to the first fault, and nothing after it.
pub open spec fn heard(actions: Seq<Action>) -> Seq<KiroEventView>
    decreases actions.len(),
{
    if actions.len() == 0 {
        Seq::empty()
    } else {
        let before = heard(actions.drop_last());
        match actions.last() {
            Action::Event(e) => if faulted(before) {
                before
            } else {
                before.push(e)
            },
            Action::Timeout => before,
        }
    }
}

/// What the output is estimated at, by the text and the pieces of tool calls.
pub open spec fn output_estimate(ev: Seq<KiroEventView>) -> int
    decreases ev.len(),
{
    if ev.len() == 0 {
        0
    } else {
        output_estimate(ev.drop_last()) + match ev.last() {
            KiroEventView::AssistantResponse { content } => if content.len() == 0 {
                0
            } else {
                thinking::estimated_tokens(content)
            },
            KiroEventView::ToolUse(t) => (text::byte_len(t.input) as int + 3) / 4,
            _ => 0,
        }
    }
}

/// The output tokens: as reported, or else as estimated.
pub open spec fn output_tokens(ev: Seq<KiroEventView>) -> int {
    match upstream::output_tokens(ev) {
        Some(n) => n,
        None => output_estimate(ev),
    }
}

/// Whether two state machines differ in their blocks alone.
pub open spec fn flags_kept(
    m: state_manager::ManagerView,
    m2: state_manager::ManagerView,
) -> bool {
    m2 == (state_manager::ManagerView {
        blocks: m2.blocks,
        next_block_index: m2.next_block_index,
        ..m
    })
}

/// Whether a state differs from another in its blocks and in how far its content has come
/// alone.
pub open spec fn counts_kept(v: StreamView, w: StreamView) -> bool {
    &&& flags_kept(v.manager, w.manager)
    &&& w == (StreamView {
        manager: w.manager,
        buffer: w.buffer,
        in_thinking: w.in_thinking,
        thinking_extracted: w.thinking_extracted,
        thinking_index: w.thinking_index,
        text_index: w.text_index,
        strip_newline: w.strip_newline,
        ..v
    })
}

pub proof fn lemma_open_counts(v: StreamView, kind: Seq<char>, block: sse::ContentBlockView)
    requires
        kind == "text"@ || kind == "thinking"@,
    ensures
        counts_kept(v, v.open_block(kind, block).0),
{
    reveal(StreamView::open_block);
    reveal(state_manager::ManagerView::start_block);
    protocol::lemma_kinds();
}

pub proof fn lemma_text_counts(v: StreamView, t: Seq<char>)
    ensures
        counts_kept(v, v.text_delta(t).0),
{
    reveal(StreamView::text_delta);
    lemma_open_counts(v, "text"@, sse::ContentBlockView::Text);
}

pub proof fn lemma_close_counts(v: StreamView, content: Seq<char>)
    ensures
        counts_kept(v, v.close_thinking_if_any(content).0),
{
    reveal(StreamView::close_thinking);
    stream_model::lemma_close_thinking(v, content);
    if let Some(i) = v.thinking_index {
        lemma_stop_flags(v.manager, i);
    }
}

pub proof fn lemma_stop_flags(m: state_manager::ManagerView, index: int)
    ensures
        flags_kept(m, m.stop_block(index).0),
{
    reveal(state_manager::ManagerView::stop_block);
}

pub proof fn lemma_start_flags(
    m: state_manager::ManagerView,
    index: int,
    kind: Seq<char>,
    data: sse::DataView,
)
    requires
        m.has_tool_use,
    ensures
        flags_kept(m, m.start_block(index, kind, data).0),
{
    reveal(state_manager::ManagerView::start_block);
}

proof fn lemma_feed_counts(v: StreamView, index: int, e: events::ToolUseView)
    requires
        v.manager.has_tool_use,
    ensures
        ({
            let w = v.feed_tool(index, e).0;
            &&& flags_kept(v.manager, w.manager)
            &&& w == (StreamView {
                manager: w.manager,
                output_tokens: v.output_tokens + (text::byte_len(e.input) + 3) / 4,
                completed: w.completed,
                ..v
            })
        }),
{
    reveal(StreamView::feed_tool);
    let data = sse::DataView::BlockStart {
        index,
        block: sse::ContentBlockView::ToolUse { id: e.id, name: v.tool_name(e.name) },
    };
    lemma_start_flags(v.manager, index, "tool_use"@, data);
    lemma_stop_flags(v.manager.start_block(index, "tool_use"@, data).0, index);
    if e.input.len() == 0 {
        assert(e.input =~= Seq::empty());
        assert(text::byte_len(e.input) == 0);
    }
}

pub proof fn lemma_leave_counts(v: StreamView, e: int)
    ensures
        counts_kept(v, v.leave_thinking_at(e).0),
{
    let rest = text::trim_start(v.buffer.skip(e + 11));
    let x = StreamView { in_thinking: false, thinking_extracted: true, ..v };
    lemma_close_counts(x, v.buffer.take(e));
    let y = StreamView { buffer: Seq::empty(), ..x.close_thinking_if_any(v.buffer.take(e)).0 };
    lemma_text_counts(y, rest);
}

pub proof fn lemma_inside_counts(v: StreamView)
    ensures
        counts_kept(v, v.inside_thinking().0),
{
    let x = v.drop_newline();
    match thinking::first_end_tag(x.buffer) {
        Some(e) => {
            let y = StreamView { in_thinking: false, thinking_extracted: true, ..x };
            lemma_close_counts(y, x.buffer.take(e));
            let z = StreamView {
                buffer: x.buffer.skip(e + 13),
                ..y.close_thinking_if_any(x.buffer.take(e)).0
            };
            lemma_text_counts(StreamView { buffer: Seq::empty(), ..z }, z.buffer);
        },
        None => {},
    }
}

pub proof fn lemma_before_counts(v: StreamView)
    ensures
        counts_kept(v, v.before_thinking().0),
{
    match thinking::first_start_tag(v.buffer) {
        Some(a) => {
            let before = v.buffer.take(a);
            lemma_text_counts(v, before);
            let x = if text::all_white(before) {
                v
            } else {
                v.text_delta(before).0
            };
            lemma_open_counts(x, "thinking"@, sse::ContentBlockView::Thinking);
            lemma_inside_counts(
                StreamView {
                    in_thinking: true,
                    strip_newline: true,
                    buffer: v.buffer.skip(a + 10),
                    thinking_index: Some(x.manager.next_block_index),
                    ..x.open_block("thinking"@, sse::ContentBlockView::Thinking).0
                },
            );
        },
        None => {
            lemma_text_counts(v, v.buffer.take(stream_model::sendable(v.buffer, 10)));
        },
    }
}

pub proof fn lemma_answer_counts(v: StreamView, content: Seq<char>)
    ensures
        counts_kept(
            StreamView {
                output_tokens: v.output_tokens + if content.len() == 0 {
                    0
                } else {
                    thinking::estimated_tokens(content)
                },
                ..v
            },
            v.assistant_response(content).0,
        ),
{
    reveal(StreamView::assistant_response);
    let x = StreamView {
        output_tokens: v.output_tokens + thinking::estimated_tokens(content),
        ..v
    };
    lemma_text_counts(x, content);
    let y = StreamView { buffer: x.buffer + content, ..x };
    lemma_before_counts(y);
    lemma_inside_counts(y);
    lemma_text_counts(StreamView { buffer: Seq::empty(), ..y }, y.buffer);
}

pub proof fn lemma_settle_counts(v: StreamView)
    ensures
        counts_kept(v, v.settle_for_tool().0),
{
    reveal(StreamView::settle_for_tool);
    match thinking::first_last_end_tag(v.buffer) {
        Some(e) => {
            lemma_leave_counts(v, e);
            let x = v.leave_thinking_at(e).0;
            lemma_text_counts(StreamView { buffer: Seq::empty(), ..x }, x.buffer);
        },
        None => {},
    }
    lemma_text_counts(StreamView { buffer: Seq::empty(), ..v }, v.buffer);
}

/// What a piece of a tool call does to the counts.
pub proof fn lemma_tool_counts(v: StreamView, e: events::ToolUseView)
    ensures
        ({
            let w = v.tool_use(e).0;
            let x = StreamView {
                manager: state_manager::ManagerView { has_tool_use: true, ..v.manager },
                output_tokens: v.output_tokens + (text::byte_len(e.input) + 3) / 4,
                tool_indices: w.tool_indices,
                completed: w.completed,
                buffered: w.buffered,
                ..v
            };
            counts_kept(x, w)
        }),
{
    reveal(StreamView::tool_use);
    let v0 = StreamView {
        manager: state_manager::ManagerView { has_tool_use: true, ..v.manager },
        ..v
    };
    lemma_settle_counts(v0);
    let v1 = v0.settle_for_tool().0;
    let (v2, index) = v1.tool_block(e.id);
    lemma_feed_counts(v2, index, e);
}

/// Whether a state holds what was heard, but for the content.
pub open spec fn reflects(w: StreamView, ev: Seq<KiroEventView>) -> bool {
    &&& w.failed == faulted(ev)
    &&& w.context_input_tokens == upstream::context_in(ev)
    &&& w.token_usage == upstream::counts_in(ev)
    &&& w.manager.stop_reason == upstream::cut_short(ev)
    &&& w.manager.has_tool_use == upstream::calls_tools(ev)
    &&& w.output_tokens == output_estimate(ev)
    &&& !w.manager.message_delta_sent
    &&& !w.manager.message_ended
}

/// Whether a state is that of the same stream as another.
pub open spec fn same_stream(v: StreamView, w: StreamView) -> bool {
    &&& w.model == v.model
    &&& w.message_id == v.message_id
    &&& w.input_tokens == v.input_tokens
    &&& w.tool_names == v.tool_names
    &&& w.thinking_enabled == v.thinking_enabled
    &&& w.delayed == v.delayed
    &&& w.usage_reported == v.usage_reported
    &&& w.usage_report == v.usage_report
    &&& w.credential_id == v.credential_id
    &&& w.chunk_lines == v.chunk_lines
}

pub proof fn lemma_initial_counts(v: StreamView)
    ensures
        ({
            let w = v.initial().0;
            let x = StreamView {
                manager: state_manager::ManagerView { message_started: true, ..v.manager },
                ..v
            };
            counts_kept(x, w)
        }),
{
    reveal(StreamView::initial);
    let x = StreamView {
        manager: state_manager::ManagerView { message_started: true, ..v.manager },
        ..v
    };
    lemma_open_counts(x, "text"@, sse::ContentBlockView::Text);
}

/// An event is reflected in the state.
pub proof fn lemma_event_reflects(v: StreamView, ev: Seq<KiroEventView>, e: KiroEventView)
    requires
        reflects(v, ev),
        !v.failed,
    ensures
        ({
            let w = v.kiro_event(e).0;
            &&& reflects(w, ev.push(e))
            &&& same_stream(v, w)
            &&& w.initialized == v.initialized
            &&& w.released == v.released
            &&& w.pending == v.pending
            &&& w.manager.message_started == v.manager.message_started
        }),
{
    let n = ev.push(e);
    assert(n.drop_last() =~= ev);
    assert(n.last() == e);
    upstream::lemma_ended_step(n, Seq::empty());
    match e {
        KiroEventView::AssistantResponse { content } => {
            lemma_answer_counts(v, content);
        },
        KiroEventView::ToolUse(t) => {
            lemma_tool_counts(v, t);
        },
        _ => {},
    }
}

/// What was heard is reflected in the state of a stream.
pub proof fn lemma_perform_reflects(v: StreamView, actions: Seq<Action>)
    requires
        reflects(v, Seq::empty()),
    ensures
        reflects(stream_laws::perform(v, actions).0, heard(actions)),
        same_stream(v, stream_laws::perform(v, actions).0),
    decreases actions.len(),
{
    if actions.len() > 0 {
        lemma_perform_reflects(v, actions.drop_last());
        let w = stream_laws::perform(v, actions.drop_last()).0;
        let ev = heard(actions.drop_last());
        lemma_initial_counts(w);
        match actions.last() {
            Action::Event(e) => {
                if !w.failed {
                    if w.waiting() {
                        lemma_event_reflects(w.prepared(), ev, e);
                    } else if w.initialized {
                        lemma_event_reflects(w, ev, e);
                    } else {
                        lemma_event_reflects(
                            StreamView { initialized: true, ..w.initial().0 },
                            ev,
                            e,
                        );
                    }
                }
            },
            Action::Timeout => {},
        }
    }
}

/// A stream that has not begun has heard nothing.
pub proof fn lemma_unheard(v: StreamView, actions: Seq<Action>)
    requires
        !v.initialized,
        !v.failed,
        stream_laws::fresh(v),
        !stream_laws::perform(v, actions).0.initialized,
    ensures
        heard(actions) == Seq::<KiroEventView>::empty(),
    decreases actions.len(),
{
    if actions.len() > 0 {
        stream_laws::lemma_perform_follows(v, actions);
        match actions.last() {
            Action::Event(_) => {
                assert(actions[actions.len() - 1] is Event);
            },
            Action::Timeout => {
                let w = stream_laws::perform(v, actions.drop_last()).0;
                stream_model::lemma_initial(w);
                lemma_unheard(v, actions.drop_last());
            },
        }
    }
}

/// The event that opens a message.
pub open spec fn opening(id: Seq<char>, model: Seq<char>, input_tokens: int) -> sse::EventView {
    sse::EventView {
        event: "message_start"@,
        data: sse::DataView::MessageStart { id, model, input_tokens },
    }
}

/// Whether an event opens the message of a stream, whatever count it holds.
spec fn opens(e: sse::EventView, v: StreamView) -> bool {
    exists|n: int| #[trigger] opening(v.message_id, v.model, n) == e
}

/// The input tokens that a stream tells at the beginning: at once the estimate, and in a
/// delayed stream what is known by then.
pub open spec fn told_at_first(delayed: bool, ev: Seq<KiroEventView>, estimate: int) -> int {
    if delayed {
        upstream::input_tokens(ev, estimate)
    } else {
        estimate
    }
}

/// The first events of a stream that has heard nothing begin with the opening.
proof fn lemma_initial_opens(v: StreamView)
    requires
        !v.manager.message_started,
    ensures
        v.initial().1.len() > 0,
        v.initial().1[0] == opening(v.message_id, v.model, v.effective_input()),
        v.initial().0.manager.message_started,
{
    reveal(StreamView::initial);
    lemma_initial_counts(v);
}

/// The opening is let go with the count that is set.
proof fn lemma_let_go(kept: Seq<sse::EventView>, v: StreamView, n: int)
    requires
        kept.len() > 0,
        opens(kept[0], v),
    ensures
        stream_model::with_input_tokens(kept, n).len() == kept.len(),
        stream_model::with_input_tokens(kept, n)[0] == opening(v.message_id, v.model, n),
{
}

/// Whether a stream keeps its opening back as long as it waits.
spec fn keeps_opening(v: StreamView, w: StreamView) -> bool {
    &&& w.manager.message_started == w.initialized
    &&& w.waiting() && w.initialized ==> w.pending.len() > 0 && opens(w.pending[0], v)
    &&& !w.initialized || !w.waiting() ==> w.pending.len() == 0
    &&& w.failed ==> !w.waiting()
    &&& w.failed ==> w.initialized
}

#[verifier::rlimit(40)]
#[verifier::spinoff_prover]
proof fn lemma_perform_opening(v: StreamView, actions: Seq<Action>)
    requires
        stream_laws::fresh(v),
        !v.initialized,
        !v.failed,
        reflects(v, Seq::empty()),
    ensures
        keeps_opening(v, stream_laws::perform(v, actions).0),
        actions.len() > 0 && stream_laws::perform(v, actions.drop_last()).1.len() == 0
            && stream_laws::perform(v, actions).1.len() > 0 ==> stream_laws::perform(
            v,
            actions,
        ).1[0] == opening(
            v.message_id,
            v.model,
            told_at_first(v.delayed, heard(actions), v.input_tokens),
        ),
    decreases actions.len(),
{
    if actions.len() > 0 {
        let rest = actions.drop_last();
        lemma_perform_opening(v, rest);
        lemma_perform_reflects(v, rest);
        lemma_perform_reflects(v, actions);
        stream_laws::lemma_nothing_sent(v, rest);
        stream_laws::lemma_perform_follows(v, rest);
        let (w, sent) = stream_laws::perform(v, rest);
        let ev = heard(rest);
        let x = stream_laws::perform(v, actions).0;
        if !w.initialized {
            lemma_unheard(v, rest);
            lemma_initial_counts(w);
            lemma_initial_opens(w);
            stream_model::lemma_initial(w);
            assert(opens(w.initial().1[0], v));
        }
        match actions.last() {
            Action::Event(e) => {
                if w.failed {
                } else if w.waiting() {
                    let y = w.prepared();
                    lemma_event_reflects(y, ev, e);
                    let (z, out) = y.kiro_event(e);
                    if e is ContextUsage || out.len() > 0 {
                        lemma_let_go(z.pending, v, z.effective_input());
                        assert(sent =~= Seq::empty());
                        let kept = z.release_pending().1;
                        assert((sent + (kept + out))[0] == kept[0]);
                    } else {
                        assert(!z.failed);
                    }
                } else if w.initialized {
                    lemma_event_reflects(w, ev, e);
                } else {
                    let y = StreamView { initialized: true, ..w.initial().0 };
                    lemma_event_reflects(y, ev, e);
                    let first = w.initial().1;
                    let out = y.kiro_event(e).1;
                    assert(sent =~= Seq::empty());
                    assert((sent + (first + out))[0] == first[0]);
                }
            },
            Action::Timeout => {
                if w.waiting() {
                    let y = w.prepared();
                    lemma_let_go(y.pending, v, y.effective_input());
                    assert(sent =~= Seq::empty());
                }
            },
        }
    }
}

/// The opening at the end of a stream that has sent nothing.
proof fn lemma_late_opening(v: StreamView, w: StreamView, ev: Seq<KiroEventView>)
    requires
        keeps_opening(v, w),
        w.effective_input() == upstream::input_tokens(ev, v.input_tokens),
        w.message_id == v.message_id,
        w.model == v.model,
        w.waiting(),
    ensures
        w.release_at_end().1.len() > 0,
        w.release_at_end().1[0] == opening(
            v.message_id,
            v.model,
            upstream::input_tokens(ev, v.input_tokens),
        ),
{
    reveal(StreamView::release_at_end);
    if w.initialized {
        lemma_let_go(w.pending, v, w.effective_input());
        let kept = w.release_pending().1;
        assert(Seq::<sse::EventView>::empty() + kept =~= kept);
    } else {
        lemma_initial_opens(w);
    }
}

/// The first event that the client gets opens the message, with the id and the model of the
/// stream, and with the input tokens that are known when it is let go: in a delayed stream the
/// exact count of the upstream service, or else what the last report on the context window
/// says, or else the estimate; in any other stream the estimate.
///
/// A stream that is not delayed and comes to its end without a single event sends no opening.
pub proof fn law_opening_tells_input_tokens(
    message_id: Seq<char>,
    model: Seq<char>,
    input_tokens: int,
    thinking_enabled: bool,
    tool_names: Seq<(Seq<char>, Seq<char>)>,
    delayed: bool,
    actions: Seq<Action>,
    ending: Ending,
)
    ensures
        ({
            let v = stream::new_stream(
                message_id,
                model,
                input_tokens,
                thinking_enabled,
                tool_names,
                delayed,
            );
            let sent = stream_laws::perform(v, actions).1;
            let trace = stream_laws::whole_trace(v, actions, ending);
            let first = opening(
                message_id,
                model,
                told_at_first(delayed, heard(actions), input_tokens),
            );
            &&& actions.len() > 0 && stream_laws::perform(v, actions.drop_last()).1.len() == 0
                && sent.len() > 0 ==> sent[0] == first
            &&& sent.len() == 0 && (delayed || !(ending is Complete)) ==> trace.len() > 0
                && trace[0] == first
        }),
{
    let v = stream::new_stream(
        message_id,
        model,
        input_tokens,
        thinking_enabled,
        tool_names,
        delayed,
    );
    lemma_perform_opening(v, actions);
    lemma_perform_reflects(v, actions);
    let (w, sent) = stream_laws::perform(v, actions);
    let ev = heard(actions);
    if sent.len() == 0 {
        assert(sent =~= Seq::empty());
        stream_laws::law_replay_before_output(
            message_id,
            model,
            input_tokens,
            thinking_enabled,
            tool_names,
            delayed,
            actions,
        );
        assert(!w.client_saw_output());
        if !w.initialized {
            lemma_unheard(v, actions);
        }
        let u = w.report_usage();
        let t = w.with_stop_reason("max_tokens"@).report_usage();
        if delayed {
            lemma_late_opening(v, u, ev);
            lemma_late_opening(v, t, ev);
            let first = u.release_at_end().1;
            match ending {
                Ending::Complete => {
                    assert(w.finalize().1[0] == first[0]);
                },
                Ending::Failure => {
                    assert(w.finalize_on_failure().1[0] == first[0]);
                },
                Ending::Interrupt => {
                    assert(w.finalize_on_interrupt().1[0] == t.release_at_end().1[0]);
                },
            }
        } else {
            stream_laws::lemma_nothing_sent(v, actions);
            lemma_initial_opens(u);
            lemma_initial_opens(t);
        }
    }
}

/// Whether an event gives the client nothing and tells nothing of the input tokens that a
/// stream would wait for.
pub open spec fn is_quiet(e: KiroEventView) -> bool {
    match e {
        KiroEventView::Metadata(_) => true,
        KiroEventView::Metering => true,
        KiroEventView::Unknown => true,
        KiroEventView::AssistantResponse { content } => content.len() == 0,
        KiroEventView::Exception { .. } => !upstream::is_fault(e),
        _ => false,
    }
}

/// Whether nothing happens for which a stream would let its opening go.
pub open spec fn all_quiet(actions: Seq<Action>) -> bool {
    forall|k: int|
        0 <= k < actions.len() ==> ((#[trigger] actions[k]) matches Action::Event(e)
            && is_quiet(e))
}

/// Whether the wait for the use of the context window is over: it was told, or it has taken too
/// long, or there is a fault to tell.
pub open spec fn wait_is_over(actions: Seq<Action>) -> bool {
    ||| exists|k: int| 0 <= k < actions.len() && (#[trigger] actions[k]) is Timeout
    ||| exists|k: int| 0 <= k < heard(actions).len() && (#[trigger] heard(actions)[k]) is ContextUsage
    ||| faulted(heard(actions))
}

#[verifier::rlimit(40)]
#[verifier::spinoff_prover]
proof fn lemma_wait(v: StreamView, actions: Seq<Action>)
    requires
        stream_laws::fresh(v),
        !v.initialized,
        !v.failed,
        reflects(v, Seq::empty()),
    ensures
        v.delayed && wait_is_over(actions) ==> stream_laws::perform(v, actions).0.released,
        v.delayed && all_quiet(actions) ==> !stream_laws::perform(v, actions).0.released,
    decreases actions.len(),
{
    if actions.len() > 0 {
        let rest = actions.drop_last();
        lemma_wait(v, rest);
        lemma_perform_opening(v, rest);
        lemma_perform_reflects(v, rest);
        let w = stream_laws::perform(v, rest).0;
        let ev = heard(rest);
        let now = heard(actions);
        stream_model::lemma_initial(w);
        lemma_initial_counts(w);
        match actions.last() {
            Action::Event(e) => {
                stream_model::lemma_kiro_event(w, e);
                stream_model::lemma_kiro_event(w.prepared(), e);
                stream_model::lemma_kiro_event(
                    StreamView { initialized: true, ..w.initial().0 },
                    e,
                );
                if v.delayed && wait_is_over(actions) && !w.released {
                    assert(!wait_is_over(rest));
                    if exists|k: int| 0 <= k < actions.len() && (#[trigger] actions[k]) is Timeout {
                        let k = choose|k: int|
                            0 <= k < actions.len() && (#[trigger] actions[k]) is Timeout;
                        assert(rest[k] is Timeout);
                    } else if exists|k: int|
                        0 <= k < now.len() && (#[trigger] now[k]) is ContextUsage {
                        let k = choose|k: int|
                            0 <= k < now.len() && (#[trigger] now[k]) is ContextUsage;
                        assert(k < ev.len() ==> ev[k] is ContextUsage);
                        assert(e is ContextUsage);
                    } else {
                        assert(upstream::is_fault(e));
                    }
                }
                if v.delayed && all_quiet(actions) {
                    assert(all_quiet(rest)) by {
                        assert forall|k: int| 0 <= k < rest.len() implies ((
                        #[trigger] rest[k]) matches Action::Event(e) && is_quiet(e)) by {
                            assert(actions[k] == rest[k]);
                        }
                    }
                    assert(actions[actions.len() - 1] is Event);
                    assert(is_quiet(e));
                    reveal(StreamView::assistant_response);
                }
            },
            Action::Timeout => {
                if all_quiet(actions) {
                    assert(actions[actions.len() - 1] is Event);
                }
            },
        }
    }
}

/// When the opening is let go. A stream that is not delayed sends it with the first event that
/// it takes. A delayed stream has sent it once the use of the context window was told, or the
/// wait has taken too long, or there was a fault; and as long as all that came is quiet, it has
/// sent nothing.
pub proof fn law_opening_waits(
    message_id: Seq<char>,
    model: Seq<char>,
    input_tokens: int,
    thinking_enabled: bool,
    tool_names: Seq<(Seq<char>, Seq<char>)>,
    delayed: bool,
    actions: Seq<Action>,
)
    ensures
        ({
            let v = stream::new_stream(
                message_id,
                model,
                input_tokens,
                thinking_enabled,
                tool_names,
                delayed,
            );
            let sent = stream_laws::perform(v, actions).1;
            &&& delayed && wait_is_over(actions) ==> sent.len() > 0
            &&& delayed && all_quiet(actions) ==> sent.len() == 0
            &&& !delayed ==> (sent.len() > 0 <==> exists|k: int|
                0 <= k < actions.len() && (#[trigger] actions[k]) is Event)
        }),
{
    let v = stream::new_stream(
        message_id,
        model,
        input_tokens,
        thinking_enabled,
        tool_names,
        delayed,
    );
    lemma_wait(v, actions);
    lemma_perform_reflects(v, actions);
    stream_laws::lemma_perform_follows(v, actions);
    stream_laws::law_replay_before_output(
        message_id,
        model,
        input_tokens,
        thinking_enabled,
        tool_names,
        delayed,
        actions,
    );
    if !delayed && !(exists|k: int| 0 <= k < actions.len() && (#[trigger] actions[k]) is Event) {
        lemma_nothing_begins(v, actions);
    }
}

proof fn lemma_nothing_begins(v: StreamView, actions: Seq<Action>)
    requires
        !v.delayed,
        !v.initialized,
        forall|k: int| 0 <= k < actions.len() ==> !((#[trigger] actions[k]) is Event),
    ensures
        stream_laws::perform(v, actions).0 == v,
    decreases actions.len(),
{
    if actions.len() > 0 {
        let rest = actions.drop_last();
        assert forall|k: int| 0 <= k < rest.len() implies !((#[trigger] rest[k]) is Event) by {
            assert(rest[k] == actions[k]);
        }
        lemma_nothing_begins(v, rest);
        assert(!(actions[actions.len() - 1] is Event));
    }
}

} // verus!
