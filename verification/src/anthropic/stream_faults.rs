//! What the client is told of faults of the upstream service in a response stream.

use vstd::prelude::*;
use crate::anthropic::protocol;
use crate::anthropic::sse;
use crate::anthropic::state_manager;
use crate::anthropic::stream;
use crate::anthropic::stream_counts;
use crate::anthropic::stream_counts::{faulted, heard};
use crate::anthropic::stream_laws;
use crate::anthropic::stream_laws::{Action, Ending};
use crate::anthropic::stream_model;
use crate::anthropic::stream_model::StreamView;
use crate::anthropic::thinking;
use crate::anthropic::upstream;
use crate::kiro::events;
use crate::kiro::events::KiroEventView;
use crate::text;

verus! {

/// Whether an event tells no error.
pub open spec fn is_calm(e: sse::EventView) -> bool {
    !(e.data is Error)
}

/// Whether no event tells an error.
pub open spec fn calm(ev: Seq<sse::EventView>) -> bool {
    forall|k: int| 0 <= k < ev.len() ==> is_calm(#[trigger] ev[k])
}

/// The event that tells an error.
pub open spec fn error_told(message: Seq<char>) -> sse::EventView {
    sse::EventView { event: "error"@, data: sse::DataView::Error { message } }
}

proof fn lemma_initial_calm(v: StreamView)
    ensures
        calm(v.initial().1),
{
    reveal(StreamView::initial);
    reveal(StreamView::open_block);
    reveal(state_manager::ManagerView::start_block);
    protocol::lemma_kinds();
    let x = StreamView {
        manager: state_manager::ManagerView { message_started: true, ..v.manager },
        ..v
    };
    let opened = x.open_block("text"@, sse::ContentBlockView::Text).1;
    assert(calm(opened));
    let start = if v.manager.message_started {
        Seq::empty()
    } else {
        seq![state_manager::message_start_event(v.message_start_data())]
    };
    assert(calm(start));
    lemma_calm_concat(start, opened);
}

proof fn lemma_calm_concat(a: Seq<sse::EventView>, b: Seq<sse::EventView>)
    requires
        calm(a),
        calm(b),
    ensures
        calm(a + b),
{
    let t = a + b;
    assert forall|k: int| 0 <= k < t.len() implies is_calm(#[trigger] t[k]) by {
        if k < a.len() {
            assert(t[k] == a[k]);
        } else {
            assert(t[k] == b[k - a.len()]);
        }
    }
}

proof fn lemma_text_calm(v: StreamView, t: Seq<char>)
    ensures
        calm(v.text_delta(t).1),
{
    reveal(StreamView::text_delta);
    reveal(StreamView::open_block);
    reveal(state_manager::ManagerView::start_block);
    reveal(state_manager::ManagerView::delta);
    protocol::lemma_kinds();
}

proof fn lemma_close_calm(v: StreamView, content: Seq<char>)
    ensures
        calm(v.close_thinking_if_any(content).1),
{
    reveal(StreamView::close_thinking);
    reveal(state_manager::ManagerView::stop_block);
}

proof fn lemma_leave_calm(v: StreamView, e: int)
    ensures
        calm(v.leave_thinking_at(e).1),
{
    let rest = text::trim_start(v.buffer.skip(e + 11));
    let x = StreamView { in_thinking: false, thinking_extracted: true, ..v };
    lemma_close_calm(x, v.buffer.take(e));
    let (y, ev) = x.close_thinking_if_any(v.buffer.take(e));
    let z = StreamView { buffer: Seq::empty(), ..y };
    lemma_text_calm(z, rest);
    lemma_calm_concat(ev, z.text_delta(rest).1);
}

proof fn lemma_finish_calm(v: StreamView, input: int, output: int)
    ensures
        calm(v.finish(input, output).1),
{
    reveal(StreamView::finish);
    reveal(state_manager::ManagerView::finish);
    let p = state_manager::open_blocks(false);
    let stops = state_manager::stops_for(v.manager.blocks, p);
    assert forall|k: int| 0 <= k < stops.len() implies is_calm(#[trigger] stops[k]) by {
        stream_laws::lemma_stops_content(v.manager.blocks, p, k);
    }
}

/// The end of a stream sends no error, if it keeps none back from its beginning.
proof fn lemma_end_calm(v: StreamView)
    requires
        calm(v.pending),
    ensures
        calm(v.finalize().1),
        calm(v.finalize_on_failure().1),
{
    let u = v.report_usage();
    lemma_initial_calm(u);
    stream_model::lemma_initial(u);
    let first = u.release_at_end().1;
    assert(calm(first)) by {
        reveal(StreamView::release_at_end);
        let x = if u.initialized {
            u
        } else {
            StreamView { initialized: true, ..u.initial().0 }
        };
        let kept = x.release_pending().1;
        assert forall|k: int| 0 <= k < kept.len() implies is_calm(#[trigger] kept[k]) by {
            assert(is_calm(v.pending[k]));
        }
        if !u.initialized {
            lemma_calm_concat(u.initial().1, kept);
        } else {
            assert(Seq::<sse::EventView>::empty() + kept =~= kept);
        }
    }
    lemma_failure_calm(v);
    if !v.failed {
        let x = if u.waiting() {
            u.release_at_end().0
        } else {
            u
        };
        let before = if u.waiting() {
            first
        } else {
            Seq::empty()
        };
        let (y, correction) = x.correct_truncation();
        if x.buffered.len() > 0 {
            lemma_text_calm(
                StreamView {
                    manager: stream_model::discard_held(x.manager, x.buffered, x.tool_indices),
                    buffered: Seq::empty(),
                    ..x
                },
                stream_model::correction_text(x.chunk_lines),
            );
        }
        lemma_final_calm(y);
        lemma_calm_concat(before, correction);
        lemma_calm_concat(before + correction, y.final_events().1);
    }
}

proof fn lemma_failure_calm(v: StreamView)
    requires
        calm(v.pending),
    ensures
        calm(v.finalize_on_failure().1),
{
    let u = v.report_usage();
    lemma_initial_calm(u);
    stream_model::lemma_initial(u);
    let (x, first) = if u.waiting() {
        u.release_at_end()
    } else if !u.manager.message_started {
        let (y, ev) = u.initial();
        (StreamView { initialized: true, ..y }, ev)
    } else {
        (u, Seq::empty())
    };
    assert(calm(first)) by {
        reveal(StreamView::release_at_end);
        let y = if u.initialized {
            u
        } else {
            StreamView { initialized: true, ..u.initial().0 }
        };
        let kept = y.release_pending().1;
        assert forall|k: int| 0 <= k < kept.len() implies is_calm(#[trigger] kept[k]) by {
            assert(is_calm(v.pending[k]));
        }
        if !u.initialized {
            lemma_calm_concat(u.initial().1, kept);
        } else {
            assert(Seq::<sse::EventView>::empty() + kept =~= kept);
        }
    }
    let w = StreamView {
        manager: stream_model::discard_held(x.manager, x.buffered, x.tool_indices),
        buffered: Seq::empty(),
        ..x
    };
    let output = if w.effective_output() < 1 {
        1
    } else {
        w.effective_output()
    };
    lemma_finish_calm(w, w.effective_input(), output);
    lemma_calm_concat(first, w.finish(w.effective_input(), output).1);
}

proof fn lemma_final_calm(v: StreamView)
    ensures
        calm(v.final_events().1),
{
    let (x, ev1) = v.flush_buffer();
    assert(calm(ev1)) by {
        reveal(StreamView::flush_buffer);
        lemma_text_calm(v, v.buffer);
        lemma_close_calm(v, v.buffer);
        match thinking::first_last_end_tag(v.buffer) {
            Some(e) => {
                lemma_leave_calm(v, e);
            },
            None => {},
        }
    }
    let (y, ev2) = x.fill_in_text();
    assert(calm(ev2)) by {
        reveal(StreamView::fill_in_text);
        lemma_text_calm(x.with_stop_reason("max_tokens"@), " "@);
    }
    lemma_finish_calm(y, y.effective_input(), y.effective_output());
    lemma_calm_concat(ev1, ev2);
    lemma_calm_concat(ev1 + ev2, y.finish(y.effective_input(), y.effective_output()).1);
}

/// Whether held-back events tell no error.
spec fn held_calm(held: Seq<(Seq<char>, sse::EventView)>) -> bool {
    forall|k: int| 0 <= k < held.len() ==> is_calm((#[trigger] held[k]).1)
}

proof fn lemma_release_calm(
    held: Seq<(Seq<char>, sse::EventView)>,
    indices: Seq<(Seq<char>, int)>,
    completed: Set<Seq<char>>,
)
    requires
        held_calm(held),
    ensures
        held_calm(stream_model::release_held(held, indices, completed).0),
        calm(stream_model::release_held(held, indices, completed).1),
    decreases held.len(),
{
    if let Some((_, id)) = stream_model::lowest_held(held, indices) {
        if completed.contains(id) {
            stream_model::lemma_lowest_held(held, indices);
            stream_model::lemma_held_besides_shorter(held, id);
            lemma_held_parts_calm(held, id);
            lemma_release_calm(stream_model::held_besides(held, id), indices, completed);
            lemma_calm_concat(
                stream_model::held_of(held, id),
                stream_model::release_held(
                    stream_model::held_besides(held, id),
                    indices,
                    completed,
                ).1,
            );
        }
    }
}

proof fn lemma_held_parts_calm(held: Seq<(Seq<char>, sse::EventView)>, id: Seq<char>)
    requires
        held_calm(held),
    ensures
        calm(stream_model::held_of(held, id)),
        held_calm(stream_model::held_besides(held, id)),
    decreases held.len(),
{
    if held.len() > 0 {
        let rest = held.drop_last();
        assert forall|k: int| 0 <= k < rest.len() implies is_calm((#[trigger] rest[k]).1) by {
            assert(held[k] == rest[k]);
        }
        lemma_held_parts_calm(rest, id);
        assert(is_calm(held[held.len() - 1].1));
    }
}

proof fn lemma_parts_calm(ev: Seq<sse::EventView>, index: int)
    requires
        calm(ev),
    ensures
        calm(stream_model::about(ev, index)),
        calm(stream_model::not_about(ev, index)),
    decreases ev.len(),
{
    if ev.len() > 0 {
        let rest = ev.drop_last();
        assert forall|k: int| 0 <= k < rest.len() implies is_calm(#[trigger] rest[k]) by {
            assert(ev[k] == rest[k]);
        }
        lemma_parts_calm(rest, index);
        assert(is_calm(ev[ev.len() - 1]));
    }
}

/// Events about blocks tell no error.
proof fn lemma_blocks_calm(ev: Seq<sse::EventView>)
    requires
        forall|k: int| 0 <= k < ev.len() ==> stream_model::block_of(#[trigger] ev[k]) is Some,
    ensures
        calm(ev),
{
    assert forall|k: int| 0 <= k < ev.len() implies is_calm(#[trigger] ev[k]) by {
        assert(stream_model::block_of(ev[k]) is Some);
    }
}

/// An event of the upstream service that is no fault tells no error; a fault tells the client
/// what it is.
#[verifier::rlimit(30)]
proof fn lemma_event_calm(v: StreamView, a: protocol::Client, e: KiroEventView)
    requires
        stream_laws::live(v, a),
        held_calm(v.buffered),
    ensures
        ({
            let (w, out) = v.kiro_event(e);
            &&& held_calm(w.buffered)
            &&& match upstream::fault_in(e) {
                Some(message) => out == seq![error_told(message)],
                None => calm(out),
            }
        }),
{
    let (w, out) = v.kiro_event(e);
    match e {
        KiroEventView::AssistantResponse { content } => {
            stream_laws::lemma_answer_fine(v, content);
            stream_laws::lemma_answer_keeps_books(v, content);
            lemma_blocks_calm(out);
        },
        KiroEventView::ToolUse(t) => {
            reveal(StreamView::tool_use);
            stream_laws::lemma_tool_events_ok(v, t);
            let (x, all, index) = v.tool_events(t);
            lemma_blocks_calm(all);
            lemma_parts_calm(all, index);
            let about = stream_model::about(all, index);
            let held = x.buffered + stream_model::tagged(t.id, about);
            assert(held_calm(held)) by {
                assert forall|k: int| 0 <= k < held.len() implies is_calm(
                    (#[trigger] held[k]).1,
                ) by {
                    if k < x.buffered.len() {
                        assert(held[k] == x.buffered[k]);
                    } else {
                        assert(held[k].1 == about[k - x.buffered.len()]);
                    }
                }
            }
            lemma_release_calm(held, x.tool_indices, x.completed);
            lemma_calm_concat(
                stream_model::not_about(all, index),
                stream_model::release_held(held, x.tool_indices, x.completed).1,
            );
        },
        KiroEventView::InvalidState { reason, message } => {
            let told = "Upstream reported invalid state: "@ + events::invalid_state_text(
                reason,
                message,
            );
            assert(told =~= upstream::fault_in(e).unwrap());
        },
        _ => {},
    }
}

/// Whether events tell one error, last of all, or none.
pub open spec fn tells_fault(ev: Seq<sse::EventView>, fault: Option<Seq<char>>) -> bool {
    match fault {
        Some(message) => {
            &&& ev.len() > 0
            &&& ev.last() == error_told(message)
            &&& calm(ev.drop_last())
        },
        None => calm(ev),
    }
}

/// The fault that was heard, if any.
pub open spec fn fault_heard(ev: Seq<KiroEventView>) -> Option<Seq<char>> {
    if faulted(ev) {
        upstream::fault_in(ev.last())
    } else {
        None
    }
}

proof fn lemma_with_tokens_calm(ev: Seq<sse::EventView>, n: int)
    requires
        calm(ev),
    ensures
        calm(stream_model::with_input_tokens(ev, n)),
{
    let t = stream_model::with_input_tokens(ev, n);
    assert forall|k: int| 0 <= k < t.len() implies is_calm(#[trigger] t[k]) by {
        assert(is_calm(ev[k]));
    }
}

proof fn lemma_calm_in_front(a: Seq<sse::EventView>, b: Seq<sse::EventView>, fault: Option<Seq<char>>)
    requires
        calm(a),
        tells_fault(b, fault),
    ensures
        tells_fault(a + b, fault),
{
    if fault is Some {
        assert((a + b).drop_last() =~= a + b.drop_last());
        lemma_calm_concat(a, b.drop_last());
    } else {
        lemma_calm_concat(a, b);
    }
}

/// A fault is told when it is heard, and nothing is sent after it.
#[verifier::rlimit(60)]
#[verifier::spinoff_prover]
proof fn lemma_perform_tells(v: StreamView, actions: Seq<Action>)
    requires
        stream_laws::fresh(v),
        !v.initialized,
        !v.failed,
        stream_counts::reflects(v, Seq::empty()),
    ensures
        ({
            let (w, sent) = stream_laws::perform(v, actions);
            &&& tells_fault(sent, fault_heard(heard(actions)))
            &&& calm(w.pending)
            &&& held_calm(w.buffered)
            &&& w.failed ==> !w.waiting()
        }),
    decreases actions.len(),
{
    let none = Seq::<sse::EventView>::empty();
    if actions.len() > 0 {
        let rest = actions.drop_last();
        lemma_perform_tells(v, rest);
        stream_laws::lemma_perform_follows(v, rest);
        stream_laws::lemma_nothing_sent(v, rest);
        stream_counts::lemma_perform_reflects(v, rest);
        let (w, sent) = stream_laws::perform(v, rest);
        let ev = heard(rest);
        let a = protocol::new_client().run(sent).unwrap();
        if !w.initialized {
            lemma_initial_calm(w);
            stream_model::lemma_initial(w);
        }
        match actions.last() {
            Action::Event(e) => {
                let fault = upstream::fault_in(e);
                if w.failed {
                    assert(sent + none =~= sent);
                } else if w.waiting() {
                    stream_laws::lemma_prepared_live(w, a);
                    let y = w.prepared();
                    let b = protocol::new_client().run(y.pending).unwrap();
                    lemma_event_calm(y, b, e);
                    stream_model::lemma_kiro_event(y, e);
                    stream_counts::lemma_initial_counts(w);
                    stream_counts::lemma_event_reflects(y, ev, e);
                    let (z, out) = y.kiro_event(e);
                    assert(fault is Some ==> out.drop_last() =~= none);
                    let kept = stream_model::with_input_tokens(z.pending, z.effective_input());
                    lemma_with_tokens_calm(z.pending, z.effective_input());
                    lemma_calm_in_front(kept, out, fault);
                    if e is ContextUsage || out.len() > 0 {
                        lemma_calm_in_front(sent, kept + out, fault);
                    } else {
                        lemma_calm_concat(sent, none);
                    }
                } else if w.initialized {
                    stream_model::lemma_kiro_event(w, e);
                    lemma_event_calm(w, a, e);
                    let out = w.kiro_event(e).1;
                    assert(fault is Some ==> out.drop_last() =~= none);
                    lemma_calm_in_front(sent, out, fault);
                } else {
                    stream_laws::lemma_initial_live(w);
                    let (x, first) = w.initial();
                    let y = StreamView { initialized: true, ..x };
                    let c = a.run(first).unwrap();
                    stream_laws::lemma_live_fields(x, y, c);
                    lemma_event_calm(y, c, e);
                    stream_model::lemma_kiro_event(y, e);
                    let out = y.kiro_event(e).1;
                    assert(fault is Some ==> out.drop_last() =~= none);
                    lemma_calm_in_front(first, out, fault);
                    lemma_calm_in_front(sent, first + out, fault);
                }
            },
            Action::Timeout => {
                if w.waiting() {
                    let y = w.prepared();
                    let kept = stream_model::with_input_tokens(y.pending, y.effective_input());
                    lemma_with_tokens_calm(y.pending, y.effective_input());
                    lemma_calm_concat(sent, kept);
                } else {
                    assert(sent + none =~= sent);
                }
            },
        }
    }
}

/// The client is told a fault of the upstream service once, in its own words, at the moment it
/// is heard; nothing that comes after it is sent, and what ends the message tells no error. A
/// stream without a fault tells none, not even where it broke off.
pub proof fn law_fault_is_told_once(
    message_id: Seq<char>,
    model: Seq<char>,
    input_tokens: int,
    thinking_enabled: bool,
    tool_names: Seq<(Seq<char>, Seq<char>)>,
    delayed: bool,
    actions: Seq<Action>,
    ending: Ending,
)
    ensures
        ({
            let v = stream::new_stream(
                message_id,
                model,
                input_tokens,
                thinking_enabled,
                tool_names,
                delayed,
            );
            let sent = stream_laws::perform(v, actions).1;
            let trace = stream_laws::whole_trace(v, actions, ending);
            &&& tells_fault(sent, fault_heard(heard(actions)))
            &&& sent.len() <= trace.len()
            &&& trace.take(sent.len() as int) == sent
            &&& calm(trace.skip(sent.len() as int))
        }),
{
    let v = stream::new_stream(
        message_id,
        model,
        input_tokens,
        thinking_enabled,
        tool_names,
        delayed,
    );
    let (w, sent) = stream_laws::perform(v, actions);
    lemma_perform_tells(v, actions);
    lemma_end_calm(w);
    lemma_failure_calm(w.with_stop_reason("max_tokens"@));
    let last = match ending {
        Ending::Complete => w.finalize().1,
        Ending::Failure => w.finalize_on_failure().1,
        Ending::Interrupt => w.finalize_on_interrupt().1,
    };
    let trace = stream_laws::whole_trace(v, actions, ending);
    assert(trace.take(sent.len() as int) =~= sent);
    assert(trace.skip(sent.len() as int) =~= last);
}

} // verus!
