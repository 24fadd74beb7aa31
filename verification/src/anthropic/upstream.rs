//! What the upstream service has said, told by its events alone: the text, the tool calls,
//! the counts, the faults. Nothing here depends on how an answer is made of it.

use vstd::prelude::*;
use crate::kiro::events::{KiroEventView, TokenUsage};

verus! {

/// All the text.
pub open spec fn text_of(ev: Seq<KiroEventView>) -> Seq<char>
    decreases ev.len(),
{
    if ev.len() == 0 {
        Seq::empty()
    } else {
        text_of(ev.drop_last()) + match ev.last() {
            KiroEventView::AssistantResponse { content } => content,
            _ => Seq::empty(),
        }
    }
}

/// Whether an event is a piece of a tool call.
pub open spec fn is_piece(e: KiroEventView, id: Seq<char>) -> bool {
    e matches KiroEventView::ToolUse(t) && t.id == id
}

/// Whether an event is the last piece of a tool call.
pub open spec fn is_last_piece(e: KiroEventView, id: Seq<char>) -> bool {
    e matches KiroEventView::ToolUse(t) && t.id == id && t.stop
}

/// Whether a tool call has begun.
pub open spec fn begun(ev: Seq<KiroEventView>, id: Seq<char>) -> bool {
    exists|k: int| 0 <= k < ev.len() && is_piece(#[trigger] ev[k], id)
}

/// Whether a tool call has come to its end.
pub open spec fn ended(ev: Seq<KiroEventView>, id: Seq<char>) -> bool {
    exists|k: int| 0 <= k < ev.len() && is_last_piece(#[trigger] ev[k], id)
}

/// The input of a tool call: its pieces, joined, up to its end.
pub open spec fn input_of(ev: Seq<KiroEventView>, id: Seq<char>) -> Seq<char>
    decreases ev.len(),
{
    if ev.len() == 0 {
        Seq::empty()
    } else {
        let before = input_of(ev.drop_last(), id);
        match ev.last() {
            KiroEventView::ToolUse(t) => if t.id == id && !ended(ev.drop_last(), id) {
                before + t.input
            } else {
                before
            },
            _ => before,
        }
    }
}

/// All pieces of a tool call, joined, those after its end too.
pub open spec fn pieces_of(ev: Seq<KiroEventView>, id: Seq<char>) -> Seq<char>
    decreases ev.len(),
{
    if ev.len() == 0 {
        Seq::empty()
    } else {
        let before = pieces_of(ev.drop_last(), id);
        match ev.last() {
            KiroEventView::ToolUse(t) => if t.id == id {
                before + t.input
            } else {
                before
            },
            _ => before,
        }
    }
}

/// The name under which a tool was called first in a call.
pub open spec fn name_of(ev: Seq<KiroEventView>, id: Seq<char>) -> Option<Seq<char>>
    decreases ev.len(),
{
    if ev.len() == 0 {
        None
    } else if begun(ev.drop_last(), id) {
        name_of(ev.drop_last(), id)
    } else {
        match ev.last() {
            KiroEventView::ToolUse(t) => if t.id == id {
                Some(t.name)
            } else {
                None
            },
            _ => None,
        }
    }
}

/// Whether one tool call began before another.
pub open spec fn began_before(ev: Seq<KiroEventView>, a: Seq<char>, b: Seq<char>) -> bool {
    exists|k: int|
        0 <= k < ev.len() && is_piece(#[trigger] ev[k], a) && forall|j: int|
            0 <= j <= k ==> !is_piece(#[trigger] ev[j], b)
}

/// Whether a tool call was cut off: it began and did not come to its end.
pub open spec fn cut_off(ev: Seq<KiroEventView>) -> bool {
    exists|id: Seq<char>| #[trigger] begun(ev, id) && !ended(ev, id)
}

/// Whether any tool was called.
pub open spec fn calls_tools(ev: Seq<KiroEventView>) -> bool {
    exists|k: int| 0 <= k < ev.len() && (#[trigger] ev[k]) is ToolUse
}

/// The token counts that were reported last, of those that hold any that matters.
pub open spec fn counts_in(ev: Seq<KiroEventView>) -> Option<TokenUsage>
    decreases ev.len(),
{
    if ev.len() == 0 {
        None
    } else {
        match ev.last() {
            KiroEventView::Metadata(Some(u)) => if u.uncached_input_tokens is Some
                || u.output_tokens is Some || u.total_tokens is Some {
                Some(u)
            } else {
                counts_in(ev.drop_last())
            },
            _ => counts_in(ev.drop_last()),
        }
    }
}

/// The input tokens that follow from the use of the context window, as it was reported last.
pub open spec fn context_in(ev: Seq<KiroEventView>) -> Option<int>
    decreases ev.len(),
{
    if ev.len() == 0 {
        None
    } else {
        match ev.last() {
            KiroEventView::ContextUsage { input_tokens, .. } => Some(input_tokens),
            _ => context_in(ev.drop_last()),
        }
    }
}

/// The input tokens: the exact count where one was reported, or else what follows from the
/// use of the context window, or else an estimate.
pub open spec fn input_tokens(ev: Seq<KiroEventView>, estimate: int) -> int {
    match counts_in(ev) {
        Some(u) if u.input() is Some => u.input().unwrap(),
        _ => match context_in(ev) {
            Some(n) => n,
            None => estimate,
        },
    }
}

/// The output tokens, where they were reported.
pub open spec fn output_tokens(ev: Seq<KiroEventView>) -> Option<int> {
    match counts_in(ev) {
        Some(u) => u.output(),
        None => None,
    }
}

/// Why the answer was cut short, where it was: the window is full, or the answer too long.
/// The last word counts.
pub open spec fn cut_short(ev: Seq<KiroEventView>) -> Option<Seq<char>>
    decreases ev.len(),
{
    if ev.len() == 0 {
        None
    } else {
        match ev.last() {
            KiroEventView::ContextUsage { window_full: true, .. } => Some(
                "model_context_window_exceeded"@,
            ),
            KiroEventView::Exception { exception_type, .. } => if exception_type
                == "ContentLengthExceededException"@ {
                Some("max_tokens"@)
            } else {
                cut_short(ev.drop_last())
            },
            _ => cut_short(ev.drop_last()),
        }
    }
}

/// Why an answer ends: it was cut short, or it calls a tool, or it is complete.
pub open spec fn stop_reason(ev: Seq<KiroEventView>) -> Seq<char> {
    match cut_short(ev) {
        Some(r) => r,
        None => if calls_tools(ev) {
            "tool_use"@
        } else {
            "end_turn"@
        },
    }
}

/// What a client is told of an event that is a fault of the upstream service. An answer that
/// is too long is none.
pub open spec fn fault_in(e: KiroEventView) -> Option<Seq<char>> {
    match e {
        KiroEventView::InvalidState { reason, message } => Some(
            "Upstream reported invalid state: "@ + reason + (if message.len() == 0 {
                Seq::empty()
            } else {
                ": "@ + message
            }),
        ),
        KiroEventView::Error { error_code, error_message } => Some(
            error_code + ": "@ + error_message,
        ),
        KiroEventView::Exception { exception_type, message } => if exception_type
            == "ContentLengthExceededException"@ {
            None
        } else {
            Some(exception_type + ": "@ + message)
        },
        _ => None,
    }
}

/// Whether an event is a fault.
pub open spec fn is_fault(e: KiroEventView) -> bool {
    fault_in(e) is Some
}

/// Whether a tool that goes by one name upstream goes by another with the client: the first
/// pair with that name says how, and without one it is the same.
pub open spec fn goes_by(
    names: Seq<(Seq<char>, Seq<char>)>,
    upstream: Seq<char>,
    client: Seq<char>,
) -> bool {
    ||| exists|j: int|
        0 <= j < names.len() && (#[trigger] names[j]) == (upstream, client) && forall|i: int|
            0 <= i < j ==> (#[trigger] names[i]).0 != upstream
    ||| client == upstream && forall|i: int| 0 <= i < names.len() ==> (#[trigger] names[i]).0
        != upstream
}

pub proof fn lemma_ended_step(ev: Seq<KiroEventView>, id: Seq<char>)
    requires
        ev.len() > 0,
    ensures
        ended(ev, id) <==> ended(ev.drop_last(), id) || is_last_piece(ev.last(), id),
        begun(ev, id) <==> begun(ev.drop_last(), id) || is_piece(ev.last(), id),
        calls_tools(ev) <==> calls_tools(ev.drop_last()) || ev.last() is ToolUse,
        ended(ev, id) ==> begun(ev, id),
{
    let before = ev.drop_last();
    if ended(ev, id) {
        let k = choose|k: int| 0 <= k < ev.len() && is_last_piece(#[trigger] ev[k], id);
        assert(is_piece(ev[k], id));
        if k < before.len() {
            assert(is_last_piece(before[k], id));
        }
    }
    if ended(before, id) {
        let k = choose|k: int| 0 <= k < before.len() && is_last_piece(#[trigger] before[k], id);
        assert(is_last_piece(ev[k], id));
    }
    if begun(ev, id) {
        let k = choose|k: int| 0 <= k < ev.len() && is_piece(#[trigger] ev[k], id);
        if k < before.len() {
            assert(is_piece(before[k], id));
        }
    }
    if begun(before, id) {
        let k = choose|k: int| 0 <= k < before.len() && is_piece(#[trigger] before[k], id);
        assert(is_piece(ev[k], id));
    }
    if calls_tools(ev) {
        let k = choose|k: int| 0 <= k < ev.len() && (#[trigger] ev[k]) is ToolUse;
        if k < before.len() {
            assert(before[k] is ToolUse);
        }
    }
    if calls_tools(before) {
        let k = choose|k: int| 0 <= k < before.len() && (#[trigger] before[k]) is ToolUse;
        assert(ev[k] is ToolUse);
    }
    assert(ev[ev.len() - 1] == ev.last());
}

/// Of two calls that have begun, one began before the other.
pub proof fn lemma_began_before(ev: Seq<KiroEventView>, a: Seq<char>, b: Seq<char>)
    ensures
        began_before(ev, a, b) ==> begun(ev, a) && !began_before(ev, b, a) && a != b,
{
    if began_before(ev, a, b) {
        let k = choose|k: int|
            0 <= k < ev.len() && is_piece(#[trigger] ev[k], a) && forall|j: int|
                0 <= j <= k ==> !is_piece(#[trigger] ev[j], b);
        assert(is_piece(ev[k], a));
        if began_before(ev, b, a) {
            let l = choose|l: int|
                0 <= l < ev.len() && is_piece(#[trigger] ev[l], b) && forall|j: int|
                    0 <= j <= l ==> !is_piece(#[trigger] ev[j], a);
            if l <= k {
                assert(!is_piece(ev[l], b));
            } else {
                assert(!is_piece(ev[k], a));
            }
        }
    }
}

pub proof fn lemma_began_before_step(ev: Seq<KiroEventView>, a: Seq<char>, b: Seq<char>)
    requires
        ev.len() > 0,
    ensures
        began_before(ev.drop_last(), a, b) ==> began_before(ev, a, b),
        begun(ev.drop_last(), a) && !begun(ev.drop_last(), b) ==> began_before(ev, a, b),
{
    let before = ev.drop_last();
    assert forall|j: int| 0 <= j < before.len() implies ev[j] == #[trigger] before[j] by {}
    if began_before(before, a, b) {
        let k = choose|k: int|
            0 <= k < before.len() && is_piece(#[trigger] before[k], a) && forall|j: int|
                0 <= j <= k ==> !is_piece(#[trigger] before[j], b);
        assert forall|j: int| 0 <= j <= k implies !is_piece(#[trigger] ev[j], b) by {
            assert(ev[j] == before[j]);
        }
        assert(is_piece(ev[k], a));
    }
    if begun(before, a) && !begun(before, b) {
        let k = choose|k: int| 0 <= k < before.len() && is_piece(#[trigger] before[k], a);
        assert forall|j: int| 0 <= j <= k implies !is_piece(#[trigger] ev[j], b) by {
            assert(ev[j] == before[j]);
        }
        assert(is_piece(ev[k], a));
    }
}

} // verus!
