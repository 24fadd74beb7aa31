//! How a response stream ends: what the client is told at the end, and what is reported of the
//! request, as it follows from what the upstream service said.

use vstd::prelude::*;
use crate::anthropic::sse;
use crate::anthropic::state_manager;
use crate::anthropic::stream;
use crate::anthropic::stream_calls;
use crate::anthropic::stream_counts;
use crate::anthropic::stream_counts::{counts_kept, faulted, heard};
use crate::anthropic::stream_laws;
use crate::anthropic::stream_laws::{Action, Ending};
use crate::anthropic::stream_model;
use crate::anthropic::stream_model::{StreamView, UsageView};
use crate::anthropic::thinking;
use crate::anthropic::upstream;
use crate::kiro::events::KiroEventView;

verus! {

/// Whether the stream ends in a failure.
pub open spec fn fails(ev: Seq<KiroEventView>, ending: Ending) -> bool {
    faulted(ev) || !(ending is Complete)
}

/// The stop reason that what was heard calls for.
pub open spec fn due_reason(
    ev: Seq<KiroEventView>,
    ending: Ending,
    delayed: bool,
) -> Seq<char> {
    if ending is Interrupt {
        "max_tokens"@
    } else if !fails(ev, ending) && delayed && upstream::cut_off(ev) {
        "max_tokens"@
    } else {
        upstream::stop_reason(ev)
    }
}

/// The output tokens that the client is told. After a failure there is at least one.
pub open spec fn due_output(ev: Seq<KiroEventView>, ending: Ending) -> int {
    let n = stream_counts::output_tokens(ev);
    if fails(ev, ending) && n < 1 {
        1
    } else {
        n
    }
}

/// The event that tells how a message ends.
pub open spec fn closing(reason: Seq<char>, input_tokens: int, output_tokens: int) -> sse::EventView {
    sse::EventView {
        event: "message_delta"@,
        data: sse::DataView::MessageDelta {
            stop_reason: reason,
            input_tokens,
            output_tokens,
        },
    }
}

/// The last event of a message.
pub open spec fn end_of_message() -> sse::EventView {
    sse::EventView { event: "message_stop"@, data: sse::DataView::MessageStop }
}

/// Whether events end with the two that end a message.
pub open spec fn closes(
    ev: Seq<sse::EventView>,
    reason: Seq<char>,
    input_tokens: int,
    output_tokens: int,
) -> bool {
    &&& ev.len() >= 2
    &&& ev[ev.len() - 1] == end_of_message()
    &&& ev[ev.len() - 2] == closing(reason, input_tokens, output_tokens)
}

proof fn lemma_finish_closes(v: StreamView, input: int, output: int)
    requires
        !v.manager.message_delta_sent,
        !v.manager.message_ended,
    ensures
        closes(v.finish(input, output).1, v.manager.final_stop_reason(), input, output),
        v.finish(input, output).0.usage_report == v.usage_report,
{
    reveal(StreamView::finish);
    reveal(state_manager::ManagerView::finish);
}

pub proof fn lemma_closes_behind(
    a: Seq<sse::EventView>,
    b: Seq<sse::EventView>,
    reason: Seq<char>,
    input: int,
    output: int,
)
    requires
        closes(b, reason, input, output),
    ensures
        closes(a + b, reason, input, output),
{
    assert((a + b)[(a + b).len() - 1] == b[b.len() - 1]);
    assert((a + b)[(a + b).len() - 2] == b[b.len() - 2]);
}

pub proof fn lemma_flush_counts(v: StreamView)
    ensures
        counts_kept(v, v.flush_buffer().0),
{
    reveal(StreamView::flush_buffer);
    stream_counts::lemma_text_counts(v, v.buffer);
    stream_counts::lemma_close_counts(v, v.buffer);
    match thinking::first_last_end_tag(v.buffer) {
        Some(e) => {
            stream_counts::lemma_leave_counts(v, e);
        },
        None => {},
    }
}

/// The text that stands for a missing one is sent with a stop reason, or nothing happens.
proof fn lemma_fill_counts(v: StreamView)
    ensures
        ({
            let w = v.fill_in_text().0;
            if lacks_text(v) {
                counts_kept(v.with_stop_reason("max_tokens"@), w)
            } else {
                w == v
            }
        }),
{
    reveal(StreamView::fill_in_text);
    stream_counts::lemma_text_counts(v.with_stop_reason("max_tokens"@), " "@);
}

proof fn lemma_correct_counts(v: StreamView)
    ensures
        ({
            let w = v.correct_truncation().0;
            let x = StreamView { buffered: Seq::empty(), ..v };
            if v.buffered.len() == 0 {
                w == v
            } else {
                counts_kept(x.with_stop_reason("max_tokens"@), w)
            }
        }),
{
    if v.buffered.len() > 0 {
        stream_model::lemma_discard_held(v.manager, v.buffered, v.tool_indices);
        let x = StreamView {
            manager: stream_model::discard_held(v.manager, v.buffered, v.tool_indices),
            buffered: Seq::empty(),
            ..v
        };
        stream_counts::lemma_text_counts(x, stream_model::correction_text(v.chunk_lines));
    }
}

pub proof fn lemma_release_counts(v: StreamView)
    ensures
        ({
            let w = v.release_at_end().0;
            let x = StreamView {
                manager: state_manager::ManagerView {
                    message_started: w.manager.message_started,
                    ..v.manager
                },
                initialized: true,
                released: true,
                pending: Seq::empty(),
                ..v
            };
            counts_kept(x, w)
        }),
{
    reveal(StreamView::release_at_end);
    stream_counts::lemma_initial_counts(v);
}

/// The end of a stream that failed.
proof fn lemma_failure_closes(v: StreamView)
    requires
        !v.manager.message_delta_sent,
        !v.manager.message_ended,
        !v.usage_reported,
    ensures
        closes(
            v.finalize_on_failure().1,
            v.manager.final_stop_reason(),
            v.effective_input(),
            if v.effective_output() < 1 {
                1
            } else {
                v.effective_output()
            },
        ),
        v.finalize_on_failure().0.usage_report == Some(v.usage()),
{
    let u = v.report_usage();
    lemma_release_counts(u);
    stream_counts::lemma_initial_counts(u);
    let (x, first) = if u.waiting() {
        u.release_at_end()
    } else if !u.manager.message_started {
        let (x, ev) = u.initial();
        (StreamView { initialized: true, ..x }, ev)
    } else {
        (u, Seq::empty())
    };
    stream_model::lemma_discard_held(x.manager, x.buffered, x.tool_indices);
    let w = StreamView {
        manager: stream_model::discard_held(x.manager, x.buffered, x.tool_indices),
        buffered: Seq::empty(),
        ..x
    };
    let output = if w.effective_output() < 1 {
        1
    } else {
        w.effective_output()
    };
    lemma_finish_closes(w, w.effective_input(), output);
    lemma_closes_behind(
        first,
        w.finish(w.effective_input(), output).1,
        w.manager.final_stop_reason(),
        w.effective_input(),
        output,
    );
}

/// The state of a stream that comes to its end, once all that was kept back is dealt with.
pub open spec fn at_last(v: StreamView) -> StreamView {
    let u = v.report_usage();
    let x = if u.waiting() {
        u.release_at_end().0
    } else {
        u
    };
    x.correct_truncation().0.flush_buffer().0
}

/// Whether there is nothing but thinking to send.
pub open spec fn lacks_text(z: StreamView) -> bool {
    z.thinking_enabled && z.thinking_index is Some && !z.has_other_blocks()
}

/// The end of a stream that came to its end.
#[verifier::rlimit(30)]
pub proof fn lemma_complete_closes(v: StreamView)
    requires
        !v.failed,
        !v.manager.message_delta_sent,
        !v.manager.message_ended,
        !v.usage_reported,
    ensures
        at_last(v).thinking_enabled == v.thinking_enabled,
        closes(
            v.finalize().1,
            if lacks_text(at_last(v)) || v.buffered.len() > 0 {
                "max_tokens"@
            } else {
                v.manager.final_stop_reason()
            },
            v.effective_input(),
            v.effective_output(),
        ),
        v.finalize().0.usage_report == Some(v.usage()),
{
    let u = v.report_usage();
    lemma_release_counts(u);
    let (x, first) = if u.waiting() {
        u.release_at_end()
    } else {
        (u, Seq::empty())
    };
    assert(x.buffered == v.buffered);
    lemma_correct_counts(x);
    let (y, correction) = x.correct_truncation();
    lemma_flush_counts(y);
    let (z, ev1) = y.flush_buffer();
    lemma_fill_counts(z);
    let (w, ev2) = z.fill_in_text();
    lemma_finish_closes(w, w.effective_input(), w.effective_output());
    let ev3 = w.finish(w.effective_input(), w.effective_output()).1;
    let reason = w.manager.final_stop_reason();
    lemma_closes_behind(ev1 + ev2, ev3, reason, w.effective_input(), w.effective_output());
    lemma_closes_behind(
        first + correction,
        ev1 + ev2 + ev3,
        reason,
        w.effective_input(),
        w.effective_output(),
    );
}

/// Tool calls are held back at the end if and only if one was cut off.
pub proof fn lemma_held_if_cut_off(
    w: StreamView,
    sent: Seq<sse::EventView>,
    ev: Seq<KiroEventView>,
)
    requires
        stream_calls::calls_ok(w, sent, ev),
    ensures
        w.buffered.len() > 0 <==> w.delayed && upstream::cut_off(ev),
{
    let indices = w.tool_indices;
    if w.delayed {
        let f = choose|f: int| stream_calls::held_up_to(w, sent, f);
        if w.buffered.len() > 0 {
            let id = w.buffered[0].0;
            assert(stream_model::holds(w.buffered, id));
            let a = stream_calls::lemma_lookup_found(indices, id);
            assert(stream_model::holds(w.buffered, indices[a].0));
            assert(f < indices.len());
            assert(!w.completed.contains(indices[f].0));
            stream_calls::lemma_lookup_at(indices, f);
            assert(stream_model::lookup(indices, indices[f].0) is Some);
            assert(upstream::begun(ev, indices[f].0));
        }
        if upstream::cut_off(ev) {
            let id = choose|id: Seq<char>| #[trigger] upstream::begun(ev, id) && !upstream::ended(
                ev,
                id,
            );
            assert(stream_model::lookup(indices, id) is Some);
            let a = stream_calls::lemma_lookup_found(indices, id);
            assert(!w.completed.contains(id));
            assert(stream_model::holds(w.buffered, indices[a].0));
        }
    }
}

/// How a message ends. The last event is `message_stop`, and right before it stands one
/// `message_delta`. It holds the input tokens as the upstream service told them last, or else
/// the estimate; the output tokens as they were reported, or else as estimated, and at least
/// one after a failure; and the stop reason. The reason is the one that the upstream service
/// gave for cutting the answer short, or else `tool_use` where a tool was called, or else
/// `end_turn`. A stream that broke off, and a delayed one that came to its end with a tool call
/// cut off, ends with `max_tokens`. Only a stream that came to its end and may hold thinking
/// can end so for another reason.
pub proof fn law_end_is_told(
    message_id: Seq<char>,
    model: Seq<char>,
    input_tokens: int,
    thinking_enabled: bool,
    tool_names: Seq<(Seq<char>, Seq<char>)>,
    delayed: bool,
    actions: Seq<Action>,
    ending: Ending,
)
    ensures
        ({
            let v = stream::new_stream(
                message_id,
                model,
                input_tokens,
                thinking_enabled,
                tool_names,
                delayed,
            );
            let trace = stream_laws::whole_trace(v, actions, ending);
            let ev = heard(actions);
            let input = upstream::input_tokens(ev, input_tokens);
            let output = due_output(ev, ending);
            ||| closes(trace, due_reason(ev, ending, delayed), input, output)
            ||| thinking_enabled && !fails(ev, ending) && closes(
                trace,
                "max_tokens"@,
                input,
                output,
            )
        }),
{
    let v = stream::new_stream(
        message_id,
        model,
        input_tokens,
        thinking_enabled,
        tool_names,
        delayed,
    );
    let (w, sent) = stream_laws::perform(v, actions);
    let ev = heard(actions);
    stream_counts::lemma_perform_reflects(v, actions);
    stream_calls::lemma_perform_calls(v, actions);
    lemma_held_if_cut_off(w, sent, ev);
    let input = upstream::input_tokens(ev, input_tokens);
    let output = due_output(ev, ending);
    let reason = due_reason(ev, ending, delayed);
    let x = w.with_stop_reason("max_tokens"@);
    lemma_failure_closes(w);
    lemma_failure_closes(x);
    if !w.failed {
        lemma_complete_closes(w);
    }
    let last = match ending {
        Ending::Complete => w.finalize().1,
        Ending::Failure => w.finalize_on_failure().1,
        Ending::Interrupt => w.finalize_on_interrupt().1,
    };
    if closes(last, reason, input, output) {
        lemma_closes_behind(sent, last, reason, input, output);
    } else {
        lemma_closes_behind(sent, last, "max_tokens"@, input, output);
    }
}

/// A count that is told, if any, and not below zero.
pub open spec fn told_or_zero(n: Option<i64>) -> int {
    match n {
        Some(k) => if k > 0 {
            k as int
        } else {
            0
        },
        None => 0,
    }
}

/// What is reported of a request once it is over, however it ends: the model, the credential
/// that was used, the input and output tokens as in the answer, and the tokens that were read
/// from the cache and written to it as the upstream service told them.
pub proof fn law_usage_is_reported(
    message_id: Seq<char>,
    model: Seq<char>,
    input_tokens: int,
    thinking_enabled: bool,
    tool_names: Seq<(Seq<char>, Seq<char>)>,
    delayed: bool,
    credential_id: int,
    actions: Seq<Action>,
    ending: Ending,
)
    ensures
        ({
            let v = StreamView {
                credential_id,
                ..stream::new_stream(
                    message_id,
                    model,
                    input_tokens,
                    thinking_enabled,
                    tool_names,
                    delayed,
                )
            };
            let w = stream_laws::perform(v, actions).0;
            let ev = heard(actions);
            let end = match ending {
                Ending::Complete => w.finalize().0,
                Ending::Failure => w.finalize_on_failure().0,
                Ending::Interrupt => w.finalize_on_interrupt().0,
            };
            &&& w.usage_report is None
            &&& end.usage_report == Some(
                UsageView {
                    model,
                    credential_id,
                    input_tokens: upstream::input_tokens(ev, input_tokens),
                    output_tokens: stream_counts::output_tokens(ev),
                    cache_read: match upstream::counts_in(ev) {
                        Some(u) => told_or_zero(u.cache_read_input_tokens),
                        None => 0,
                    },
                    cache_write: match upstream::counts_in(ev) {
                        Some(u) => told_or_zero(u.cache_write_input_tokens),
                        None => 0,
                    },
                },
            )
        }),
{
    let v = StreamView {
        credential_id,
        ..stream::new_stream(
            message_id,
            model,
            input_tokens,
            thinking_enabled,
            tool_names,
            delayed,
        )
    };
    let w = stream_laws::perform(v, actions).0;
    stream_counts::lemma_perform_reflects(v, actions);
    lemma_failure_closes(w);
    lemma_failure_closes(w.with_stop_reason("max_tokens"@));
    if !w.failed {
        lemma_complete_closes(w);
    }
}

} // verus!
