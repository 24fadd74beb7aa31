//! What holds of every response stream: whatever the upstream service sends, the
//! client gets a sequence of events that keeps to the protocol.

use vstd::prelude::*;
use crate::anthropic::protocol;
use crate::anthropic::sse;
use crate::anthropic::state_manager;
use crate::anthropic::stream;
use crate::anthropic::stream_model;
use crate::anthropic::thinking;
use crate::kiro::events;
use crate::text;

verus! {

/// Whether an event is neither the start nor a piece of the input of a tool call.
pub open spec fn no_tool_event(e: sse::EventView) -> bool {
    match e.data {
        sse::DataView::BlockStart { block, .. } => !(block is ToolUse),
        sse::DataView::BlockDelta { delta, .. } => !(delta is InputJson),
        _ => true,
    }
}

/// Whether a block is that of a tool call.
pub open spec fn is_tool_block(m: state_manager::ManagerView, j: int) -> bool {
    m.block(j) is Some && m.block(j).unwrap().kind == "tool_use"@
}

/// Events that are about blocks of text and thinking alone.
pub open spec fn off_tools(ev: Seq<sse::EventView>, m: state_manager::ManagerView) -> bool {
    forall|k: int|
        0 <= k < ev.len() ==> {
            &&& stream_model::block_of(#[trigger] ev[k]) is Some
            &&& !is_tool_block(m, stream_model::block_of(ev[k]).unwrap())
            &&& no_tool_event(ev[k])
        }
}

/// Whether the books of a state machine are in order inside a message.
pub open spec fn synced(m: state_manager::ManagerView) -> bool {
    protocol::in_step(m, protocol::full_client(m))
}

/// The type of a block, in words.
pub open spec fn kind_of_block(block: sse::ContentBlockView) -> Seq<char> {
    match block {
        sse::ContentBlockView::Text => "text"@,
        sse::ContentBlockView::Thinking => "thinking"@,
        sse::ContentBlockView::ToolUse { .. } => "tool_use"@,
    }
}

/// The type of the blocks that an addition is for.
pub open spec fn kind_of_delta(delta: sse::DeltaView) -> Seq<char> {
    match delta {
        sse::DeltaView::Text(_) => "text"@,
        sse::DeltaView::Thinking(_) => "thinking"@,
        sse::DeltaView::Signature(_) => "thinking"@,
        sse::DeltaView::InputJson(_) => "tool_use"@,
    }
}

/// Whether a block is known to be of a type.
pub open spec fn is_of_kind(m: state_manager::ManagerView, j: int, kind: Seq<char>) -> bool {
    m.block(j) is Some && m.block(j).unwrap().kind == kind
}

/// Whether an event starts a block of the type that it is known to be of, or adds to one what
/// is for that type.
pub open spec fn fits(e: sse::EventView, m: state_manager::ManagerView) -> bool {
    match e.data {
        sse::DataView::BlockStart { index, block } => is_of_kind(m, index, kind_of_block(block)),
        sse::DataView::BlockDelta { index, delta } => is_of_kind(m, index, kind_of_delta(delta)),
        _ => true,
    }
}

/// Whether all events do.
pub open spec fn typed(ev: Seq<sse::EventView>, m: state_manager::ManagerView) -> bool {
    forall|k: int| 0 <= k < ev.len() ==> fits(#[trigger] ev[k], m)
}

/// Whether all blocks stay known, with their types.
pub open spec fn kinds_kept(m: state_manager::ManagerView, m2: state_manager::ManagerView) -> bool {
    forall|j: int|
        (#[trigger] m.block(j)) is Some ==> is_of_kind(m2, j, m.block(j).unwrap().kind)
}

pub proof fn lemma_typed_later(
    ev: Seq<sse::EventView>,
    m: state_manager::ManagerView,
    m2: state_manager::ManagerView,
)
    requires
        typed(ev, m),
        kinds_kept(m, m2),
    ensures
        typed(ev, m2),
{
    assert forall|k: int| 0 <= k < ev.len() implies fits(#[trigger] ev[k], m2) by {
        assert(fits(ev[k], m));
        if let Some(j) = stream_model::block_of(ev[k]) {
            if m.block(j) is Some {
                assert(is_of_kind(m2, j, m.block(j).unwrap().kind));
            }
        }
    }
}

pub proof fn lemma_typed_concat(
    a: Seq<sse::EventView>,
    b: Seq<sse::EventView>,
    m: state_manager::ManagerView,
)
    requires
        typed(a, m),
        typed(b, m),
    ensures
        typed(a + b, m),
{
    let ev = a + b;
    assert forall|k: int| 0 <= k < ev.len() implies fits(#[trigger] ev[k], m) by {
        if k < a.len() {
            assert(ev[k] == a[k]);
        } else {
            assert(ev[k] == b[k - a.len()]);
        }
    }
}

pub proof fn lemma_grows_kinds(m: state_manager::ManagerView, m2: state_manager::ManagerView)
    requires
        protocol::grows(m, m2),
    ensures
        kinds_kept(m, m2),
{
    assert forall|j: int| (#[trigger] m.block(j)) is Some implies is_of_kind(
        m2,
        j,
        m.block(j).unwrap().kind,
    ) by {}
}

/// A step that a client follows who has seen everything so far, and that is about
/// text and thinking alone.
pub open spec fn fine(
    m: state_manager::ManagerView,
    m2: state_manager::ManagerView,
    ev: Seq<sse::EventView>,
) -> bool {
    &&& synced(m2)
    &&& protocol::full_client(m).run(ev) == Some(protocol::full_client(m2))
    &&& protocol::grows(m, m2)
    &&& off_tools(ev, m)
    &&& typed(ev, m2)
}

proof fn lemma_fine_concat(
    m: state_manager::ManagerView,
    m1: state_manager::ManagerView,
    m2: state_manager::ManagerView,
    a: Seq<sse::EventView>,
    b: Seq<sse::EventView>,
)
    requires
        fine(m, m1, a),
        fine(m1, m2, b),
    ensures
        fine(m, m2, a + b),
{
    protocol::lemma_run_concat(protocol::full_client(m), a, b);
    lemma_grows_kinds(m1, m2);
    lemma_typed_later(a, m1, m2);
    lemma_typed_concat(a, b, m2);
    assert(off_tools(a + b, m)) by {
        let ev = a + b;
        assert forall|k: int| 0 <= k < ev.len() implies {
            &&& stream_model::block_of(#[trigger] ev[k]) is Some
            &&& !is_tool_block(m, stream_model::block_of(ev[k]).unwrap())
            &&& no_tool_event(ev[k])
        } by {
            if k < a.len() {
                assert(ev[k] == a[k]);
            } else {
                assert(ev[k] == b[k - a.len()]);
                let j = stream_model::block_of(ev[k]).unwrap();
                if is_tool_block(m, j) {
                    assert(is_tool_block(m1, j));
                }
            }
        }
    }
    assert(protocol::grows(m, m2)) by {
        assert forall|j: int| (#[trigger] m.block(j)) is Some implies {
            &&& m2.block(j) is Some
            &&& m2.block(j).unwrap().kind == m.block(j).unwrap().kind
            &&& m.block(j).unwrap().kind == "tool_use"@ ==> m2.block(j) == m.block(j)
        } by {
            assert(m1.block(j) is Some);
        }
    }
}

proof fn lemma_keeps_trans(
    m: state_manager::ManagerView,
    m1: state_manager::ManagerView,
    m2: state_manager::ManagerView,
)
    requires
        protocol::keeps(m, m1),
        protocol::keeps(m1, m2),
    ensures
        protocol::keeps(m, m2),
{
    assert forall|j: int| (#[trigger] m.block(j)) is Some implies {
        &&& m2.block(j) is Some
        &&& m2.block(j).unwrap().kind == m.block(j).unwrap().kind
        &&& m.block(j).unwrap().kind != "text"@ ==> m2.block(j) == m.block(j)
    } by {
        assert(m1.block(j) is Some);
    }
}

pub proof fn lemma_fine_none(m: state_manager::ManagerView)
    requires
        synced(m),
    ensures
        fine(m, m, Seq::empty()),
        protocol::keeps(m, m),
{
}

/// Two state machines with the same blocks and flags are the same to a client.
pub proof fn lemma_same_books(m: state_manager::ManagerView, m2: state_manager::ManagerView)
    requires
        synced(m),
        m2 == (state_manager::ManagerView {
            next_block_index: m2.next_block_index,
            stop_reason: m2.stop_reason,
            has_tool_use: m2.has_tool_use,
            ..m
        }),
        m.next_block_index <= m2.next_block_index,
    ensures
        synced(m2),
        protocol::full_client(m2) == protocol::full_client(m),
        protocol::keeps(m, m2),
        protocol::grows(m, m2),
        fine(m, m2, Seq::empty()),
        forall|j: int| #[trigger] m2.block(j) == m.block(j),
{
    assert forall|j: int| #[trigger] m2.block(j) == m.block(j) by {}
    assert(protocol::full_client(m2).blocks =~= protocol::full_client(m).blocks);
    protocol::lemma_keeps_grows(m, m2);
}

pub proof fn lemma_open_fine(
    v: stream_model::StreamView,
    kind: Seq<char>,
    block: sse::ContentBlockView,
)
    requires
        synced(v.manager),
        kind == "text"@ || kind == "thinking"@,
        kind == kind_of_block(block),
    ensures
        ({
            let (w, ev) = v.open_block(kind, block);
            let i = v.manager.next_block_index;
            &&& fine(v.manager, w.manager, ev)
            &&& protocol::keeps(v.manager, w.manager)
            &&& w.manager.block(i) == Some(
                state_manager::BlockView { index: i, kind, started: true, stopped: false },
            )
            &&& v.manager.block(i) is None
        }),
{
    reveal(stream_model::StreamView::open_block);
    protocol::lemma_kinds();
    let m = v.manager;
    let i = m.next_block_index;
    let m1 = state_manager::ManagerView { next_block_index: i + 1, ..m };
    lemma_same_books(m, m1);
    assert(m.block(i) is None);
    let c = protocol::full_client(m1);
    protocol::lemma_start_in_step(m1, c, i, kind, block);
    let (w, ev) = v.open_block(kind, block);
    protocol::lemma_in_step_full(w.manager, c.run(ev).unwrap());
    lemma_keeps_trans(m, m1, w.manager);
    protocol::lemma_keeps_grows(m, w.manager);
    assert(off_tools(ev, m) && typed(ev, w.manager)) by {
        reveal(state_manager::ManagerView::start_block);
        assert(ev =~= seq![
            state_manager::start_event(sse::DataView::BlockStart { index: i, block }),
        ]);
    }
}

proof fn lemma_delta_fine(m: state_manager::ManagerView, i: int, delta: sse::DeltaView)
    requires
        synced(m),
        !is_tool_block(m, i),
        !(delta is InputJson),
        m.block(i) is Some ==> m.block(i).unwrap().kind == kind_of_delta(delta),
    ensures
        fine(m, m, m.delta(i, sse::DataView::BlockDelta { index: i, delta })),
{
    protocol::lemma_delta_in_step(m, protocol::full_client(m), i, delta);
    reveal(state_manager::ManagerView::delta);
    lemma_fine_none(m);
}

/// Sending text keeps to the protocol.
pub proof fn lemma_text_fine(v: stream_model::StreamView, t: Seq<char>)
    requires
        synced(v.manager),
    ensures
        ({
            let (w, ev) = v.text_delta(t);
            &&& fine(v.manager, w.manager, ev)
            &&& protocol::keeps(v.manager, w.manager)
        }),
{
    reveal(stream_model::StreamView::text_delta);
    protocol::lemma_kinds();
    if v.text_open() {
        let i = v.text_index.unwrap();
        lemma_delta_fine(v.manager, i, sse::DeltaView::Text(t));
        lemma_fine_none(v.manager);
    } else {
        let i = v.manager.next_block_index;
        lemma_open_fine(v, "text"@, sse::ContentBlockView::Text);
        let (w, starts) = v.open_block("text"@, sse::ContentBlockView::Text);
        lemma_delta_fine(w.manager, i, sse::DeltaView::Text(t));
        lemma_fine_concat(
            v.manager,
            w.manager,
            w.manager,
            starts,
            w.manager.delta(i, stream_model::text_data(i, t)),
        );
    }
}

/// Whether a thinking block is open.
pub open spec fn thinking_block_open(m: state_manager::ManagerView, i: Option<int>) -> bool {
    match i {
        Some(k) => match m.block(k) {
            Some(b) => b.kind == "thinking"@ && b.started && !b.stopped,
            None => false,
        },
        None => false,
    }
}

proof fn lemma_thinking_event_fine(m: state_manager::ManagerView, i: int, e: sse::EventView)
    requires
        synced(m),
        thinking_block_open(m, Some(i)),
        exists|t: Seq<char>|
            e == stream_model::thinking_event(i, t) || e == stream_model::signature_event(i, t),
    ensures
        fine(m, m, seq![e]),
{
    protocol::lemma_kinds();
    protocol::lemma_run_one(protocol::full_client(m), e);
    lemma_fine_none(m);
}

/// Ending an open thinking block keeps to the protocol.
pub proof fn lemma_close_fine(v: stream_model::StreamView, content: Seq<char>)
    requires
        synced(v.manager),
        thinking_block_open(v.manager, v.thinking_index),
    ensures
        ({
            let (w, ev) = v.close_thinking_if_any(content);
            fine(v.manager, w.manager, ev)
        }),
{
    reveal(stream_model::StreamView::close_thinking);
    protocol::lemma_kinds();
    let m = v.manager;
    let i = v.thinking_index.unwrap();
    let e0 = stream_model::thinking_event(i, content);
    let e1 = stream_model::thinking_event(i, Seq::empty());
    let e2 = stream_model::signature_event(i, thinking::thinking_signature(content));
    lemma_thinking_event_fine(m, i, e0);
    lemma_thinking_event_fine(m, i, e1);
    lemma_thinking_event_fine(m, i, e2);
    lemma_fine_none(m);
    let head = if content.len() == 0 {
        Seq::empty()
    } else {
        seq![e0]
    };
    lemma_fine_concat(m, m, m, seq![e1], seq![e2]);
    assert(seq![e1] + seq![e2] =~= seq![e1, e2]);
    lemma_fine_concat(m, m, m, head, seq![e1, e2]);
    let c = protocol::full_client(m);
    protocol::lemma_stop_in_step(m, c, i);
    let (m2, stops) = m.stop_block(i);
    protocol::lemma_in_step_full(m2, c.run(stops).unwrap());
    assert(fine(m, m2, stops)) by {
        reveal(state_manager::ManagerView::stop_block);
        assert forall|k: int| 0 <= k < stops.len() implies stream_model::block_of(
            #[trigger] stops[k],
        ) == Some(i) by {}
    }
    lemma_fine_concat(m, m, m2, head + seq![e1, e2], stops);
}

/// That the thinking block is open as long as the stream is inside it.
pub open spec fn thinking_ok(v: stream_model::StreamView) -> bool {
    v.in_thinking ==> thinking_block_open(v.manager, v.thinking_index)
}

proof fn lemma_keeps_thinking(
    m: state_manager::ManagerView,
    m2: state_manager::ManagerView,
    i: Option<int>,
)
    requires
        protocol::keeps(m, m2),
        thinking_block_open(m, i),
    ensures
        thinking_block_open(m2, i),
{
    protocol::lemma_kinds();
    assert(m.block(i.unwrap()) is Some);
}

proof fn lemma_after_fine(v: stream_model::StreamView)
    requires
        synced(v.manager),
    ensures
        ({
            let (w, ev) = v.after_thinking();
            fine(v.manager, w.manager, ev) && w.in_thinking == v.in_thinking
        }),
{
    lemma_fine_none(v.manager);
    let x = stream_model::StreamView { buffer: Seq::empty(), ..v };
    lemma_text_fine(x, v.buffer);
    stream_model::lemma_text_delta(x, v.buffer);
}

pub proof fn lemma_inside_fine(v: stream_model::StreamView)
    requires
        synced(v.manager),
        v.in_thinking,
        thinking_ok(v),
    ensures
        ({
            let (w, ev) = v.inside_thinking();
            fine(v.manager, w.manager, ev) && thinking_ok(w)
        }),
{
    let m = v.manager;
    let x = v.drop_newline();
    lemma_fine_none(m);
    match thinking::first_end_tag(x.buffer) {
        Some(e) => {
            let y = stream_model::StreamView { in_thinking: false, thinking_extracted: true, ..x };
            lemma_close_fine(y, x.buffer.take(e));
            stream_model::lemma_close_thinking(y, x.buffer.take(e));
            let (z, ev) = y.close_thinking_if_any(x.buffer.take(e));
            let z2 = stream_model::StreamView { buffer: x.buffer.skip(e + 13), ..z };
            lemma_after_fine(z2);
            let (w, more) = z2.after_thinking();
            lemma_fine_concat(m, z.manager, w.manager, ev, more);
        },
        None => {
            let k = stream_model::sendable(x.buffer, 13);
            let i = x.thinking_index.unwrap();
            lemma_thinking_event_fine(m, i, stream_model::thinking_event(i, x.buffer.take(k)));
        },
    }
}

proof fn lemma_before_fine(v: stream_model::StreamView)
    requires
        synced(v.manager),
        !v.in_thinking,
    ensures
        ({
            let (w, ev) = v.before_thinking();
            fine(v.manager, w.manager, ev) && thinking_ok(w)
        }),
{
    let m = v.manager;
    lemma_fine_none(m);
    match thinking::first_start_tag(v.buffer) {
        Some(a) => {
            let before = v.buffer.take(a);
            lemma_text_fine(v, before);
            let (x, ev) = if text::all_white(before) {
                (v, Seq::empty())
            } else {
                v.text_delta(before)
            };
            let i = x.manager.next_block_index;
            lemma_open_fine(x, "thinking"@, sse::ContentBlockView::Thinking);
            let (y, starts) = x.open_block("thinking"@, sse::ContentBlockView::Thinking);
            lemma_fine_concat(m, x.manager, y.manager, ev, starts);
            let z = stream_model::StreamView {
                in_thinking: true,
                strip_newline: true,
                buffer: v.buffer.skip(a + 10),
                thinking_index: Some(i),
                ..y
            };
            lemma_inside_fine(z);
            let (w, more) = z.inside_thinking();
            lemma_fine_concat(m, y.manager, w.manager, ev + starts, more);
        },
        None => {
            let safe = v.buffer.take(stream_model::sendable(v.buffer, 10));
            lemma_text_fine(v, safe);
            stream_model::lemma_text_delta(v, safe);
        },
    }
}

/// A piece of the answer keeps to the protocol.
pub proof fn lemma_answer_fine(v: stream_model::StreamView, content: Seq<char>)
    requires
        synced(v.manager),
        thinking_ok(v),
    ensures
        ({
            let (w, ev) = v.assistant_response(content);
            fine(v.manager, w.manager, ev) && thinking_ok(w)
        }),
{
    reveal(stream_model::StreamView::assistant_response);
    lemma_fine_none(v.manager);
    if content.len() > 0 {
        let x = stream_model::StreamView {
            output_tokens: v.output_tokens + thinking::estimated_tokens(content),
            ..v
        };
        if x.thinking_enabled {
            let y = stream_model::StreamView { buffer: x.buffer + content, ..x };
            if !y.in_thinking && !y.thinking_extracted {
                lemma_before_fine(y);
            } else if y.in_thinking {
                lemma_inside_fine(y);
            } else {
                lemma_after_fine(y);
            }
        } else {
            lemma_text_fine(x, content);
            stream_model::lemma_text_delta(x, content);
            if x.in_thinking {
                lemma_keeps_thinking(
                    x.manager,
                    x.text_delta(content).0.manager,
                    x.thinking_index,
                );
            }
        }
    }
}

pub proof fn lemma_leave_fine(v: stream_model::StreamView, e: int)
    requires
        synced(v.manager),
        thinking_block_open(v.manager, v.thinking_index),
    ensures
        ({
            let (w, ev) = v.leave_thinking_at(e);
            fine(v.manager, w.manager, ev) && !w.in_thinking
        }),
{
    let rest = text::trim_start(v.buffer.skip(e + 11));
    let x = stream_model::StreamView { in_thinking: false, thinking_extracted: true, ..v };
    lemma_close_fine(x, v.buffer.take(e));
    stream_model::lemma_close_thinking(x, v.buffer.take(e));
    let (y, ev) = x.close_thinking_if_any(v.buffer.take(e));
    let z = stream_model::StreamView { buffer: Seq::empty(), ..y };
    if rest.len() > 0 {
        lemma_text_fine(z, rest);
        stream_model::lemma_text_delta(z, rest);
        let (w, more) = z.text_delta(rest);
        lemma_fine_concat(v.manager, y.manager, w.manager, ev, more);
    }
}

/// Getting ready for a tool call keeps to the protocol.
pub proof fn lemma_settle_fine(v: stream_model::StreamView)
    requires
        synced(v.manager),
        thinking_ok(v),
    ensures
        ({
            let (w, ev) = v.settle_for_tool();
            fine(v.manager, w.manager, ev) && thinking_ok(w)
        }),
{
    reveal(stream_model::StreamView::settle_for_tool);
    let m = v.manager;
    lemma_fine_none(m);
    let (x, ev) = if v.thinking_enabled && v.in_thinking {
        match thinking::first_last_end_tag(v.buffer) {
            Some(e) => v.leave_thinking_at(e),
            None => (v, Seq::empty()),
        }
    } else {
        (v, Seq::empty())
    };
    if v.thinking_enabled && v.in_thinking {
        match thinking::first_last_end_tag(v.buffer) {
            Some(e) => {
                lemma_leave_fine(v, e);
                stream_model::lemma_leave_thinking(v, e);
            },
            None => {},
        }
    }
    if x.thinking_enabled && !x.in_thinking && !x.thinking_extracted && x.buffer.len() > 0 {
        let y = stream_model::StreamView { buffer: Seq::empty(), ..x };
        lemma_text_fine(y, x.buffer);
        stream_model::lemma_text_delta(y, x.buffer);
        lemma_fine_concat(m, x.manager, y.text_delta(x.buffer).0.manager, ev, y.text_delta(x.buffer).1);
    }
}

/// What `lookup` finds.
pub proof fn lemma_lookup<V>(pairs: Seq<(Seq<char>, V)>, key: Seq<char>)
    ensures
        match stream_model::lookup(pairs, key) {
            Some(v) => exists|k: int| 0 <= k < pairs.len() && #[trigger] pairs[k] == (key, v),
            None => forall|k: int| 0 <= k < pairs.len() ==> (#[trigger] pairs[k]).0 != key,
        },
{
    let p = stream_model::has_key(pairs, key);
    text::lemma_search(p, 0, pairs.len() as int);
    match text::search(p, 0, pairs.len() as int) {
        Some(i) => {
            assert(pairs[i] == (key, pairs[i].1));
        },
        None => {
            assert forall|k: int| 0 <= k < pairs.len() implies (#[trigger] pairs[k]).0 != key by {
                assert(!p(k));
            }
        },
    }
}

/// The books on tool calls: each call has a block of its own, and that of a
/// complete call has stopped.
pub open spec fn tools_ok(v: stream_model::StreamView) -> bool {
    &&& forall|a: int, b: int|
        0 <= a < b < v.tool_indices.len() ==> {
            &&& (#[trigger] v.tool_indices[a]).0 != (#[trigger] v.tool_indices[b]).0
            &&& v.tool_indices[a].1 != v.tool_indices[b].1
        }
    &&& forall|a: int|
        0 <= a < v.tool_indices.len() ==> is_tool_block(
            v.manager,
            (#[trigger] v.tool_indices[a]).1,
        )
    &&& forall|id: Seq<char>| #[trigger]
        v.completed.contains(id) ==> {
            &&& stream_model::lookup(v.tool_indices, id) is Some
            &&& v.manager.block(
                stream_model::lookup(v.tool_indices, id).unwrap(),
            ).unwrap().stopped
        }
}

pub proof fn lemma_lookup_tool(v: stream_model::StreamView, id: Seq<char>)
    requires
        tools_ok(v),
    ensures
        stream_model::lookup(v.tool_indices, id) is Some ==> is_tool_block(
            v.manager,
            stream_model::lookup(v.tool_indices, id).unwrap(),
        ),
{
    lemma_lookup(v.tool_indices, id);
}

pub proof fn lemma_lookup_injective(v: stream_model::StreamView, a: Seq<char>, b: Seq<char>)
    requires
        tools_ok(v),
        stream_model::lookup(v.tool_indices, a) is Some,
        stream_model::lookup(v.tool_indices, a) == stream_model::lookup(v.tool_indices, b),
    ensures
        a == b,
{
    lemma_lookup(v.tool_indices, a);
    lemma_lookup(v.tool_indices, b);
    let i = stream_model::lookup(v.tool_indices, a).unwrap();
    let x: int = choose|k: int|
        0 <= k < v.tool_indices.len() && #[trigger] v.tool_indices[k] == (a, i);
    let y: int = choose|k: int|
        0 <= k < v.tool_indices.len() && #[trigger] v.tool_indices[k] == (b, i);
    if x < y {
        assert(v.tool_indices[x].1 != v.tool_indices[y].1);
    } else if y < x {
        assert(v.tool_indices[y].1 != v.tool_indices[x].1);
    }
}

/// The blocks whose start is held back.
pub open spec fn hidden_blocks(
    held: Seq<(Seq<char>, sse::EventView)>,
    indices: Seq<(Seq<char>, int)>,
) -> Set<int> {
    Set::new(
        |i: int|
            exists|id: Seq<char>| #[trigger]
                stream_model::holds(held, id) && stream_model::lookup(indices, id) == Some(i),
    )
}

/// The books on held-back events: the client knows every block but those that are
/// held back, and what is held back of a call is all that there is of it.
pub open spec fn held_ok(v: stream_model::StreamView, a: protocol::Client) -> bool {
    &&& a == protocol::lacking(
        protocol::full_client(v.manager),
        hidden_blocks(v.buffered, v.tool_indices),
    )
    &&& forall|id: Seq<char>| #[trigger]
        stream_model::holds(v.buffered, id) ==> {
            let i = stream_model::lookup(v.tool_indices, id);
            &&& i is Some
            &&& protocol::block_run(
                None,
                i.unwrap(),
                stream_model::held_of(v.buffered, id),
            ) == Some(protocol::status(protocol::full_client(v.manager), i.unwrap()))
        }
    &&& v.delayed ==> forall|k: int|
        0 <= k < v.tool_indices.len() ==> stream_model::holds(
            v.buffered,
            (#[trigger] v.tool_indices[k]).0,
        ) || v.manager.block(v.tool_indices[k].1).unwrap().stopped
    &&& !v.delayed ==> v.buffered.len() == 0
}

/// The state of a stream inside its message, and the client that follows it.
pub open spec fn live(v: stream_model::StreamView, a: protocol::Client) -> bool {
    &&& synced(v.manager)
    &&& thinking_ok(v)
    &&& tools_ok(v)
    &&& held_ok(v, a)
}

proof fn lemma_hidden_are_tools(v: stream_model::StreamView, i: int)
    requires
        tools_ok(v),
        hidden_blocks(v.buffered, v.tool_indices).contains(i),
    ensures
        is_tool_block(v.manager, i),
{
    let id: Seq<char> = choose|id: Seq<char>| #[trigger]
        stream_model::holds(v.buffered, id) && stream_model::lookup(v.tool_indices, id) == Some(i);
    lemma_lookup_tool(v, id);
}

/// A step about text and thinking alone keeps the client with the stream.
proof fn lemma_fine_live(
    v: stream_model::StreamView,
    w: stream_model::StreamView,
    a: protocol::Client,
    ev: Seq<sse::EventView>,
)
    requires
        live(v, a),
        fine(v.manager, w.manager, ev),
        thinking_ok(w),
        w.tool_indices == v.tool_indices,
        w.completed == v.completed,
        w.buffered == v.buffered,
        w.delayed == v.delayed,
    ensures
        a.run(ev) is Some,
        live(w, a.run(ev).unwrap()),
{
    let cv = protocol::full_client(v.manager);
    let hidden = hidden_blocks(v.buffered, v.tool_indices);
    assert forall|k: int| 0 <= k < ev.len() implies match stream_model::block_of(
        #[trigger] ev[k],
    ) {
        Some(j) => !hidden.contains(j),
        None => ev[k].data is Error,
    } by {
        let j = stream_model::block_of(ev[k]).unwrap();
        if hidden.contains(j) {
            lemma_hidden_are_tools(v, j);
        }
    }
    protocol::lemma_run_hidden(cv, ev, hidden);
    assert forall|k: int| 0 <= k < w.tool_indices.len() implies is_tool_block(
        w.manager,
        (#[trigger] w.tool_indices[k]).1,
    ) && w.manager.block(w.tool_indices[k].1) == v.manager.block(w.tool_indices[k].1) by {
        assert(is_tool_block(v.manager, v.tool_indices[k].1));
    }
    assert forall|id: Seq<char>| #[trigger] w.completed.contains(id) implies {
        &&& stream_model::lookup(w.tool_indices, id) is Some
        &&& w.manager.block(stream_model::lookup(w.tool_indices, id).unwrap()).unwrap().stopped
    } by {
        assert(v.completed.contains(id));
        lemma_lookup_tool(v, id);
    }
    assert forall|id: Seq<char>| #[trigger] stream_model::holds(w.buffered, id) implies {
        let i = stream_model::lookup(w.tool_indices, id);
        &&& i is Some
        &&& protocol::block_run(None, i.unwrap(), stream_model::held_of(w.buffered, id)) == Some(
            protocol::status(protocol::full_client(w.manager), i.unwrap()),
        )
    } by {
        assert(stream_model::holds(v.buffered, id));
        lemma_lookup_tool(v, id);
    }
}

pub proof fn lemma_stops_content(
    blocks: Seq<state_manager::BlockView>,
    p: spec_fn(state_manager::BlockView) -> bool,
    k: int,
)
    requires
        0 <= k < state_manager::stops_for(blocks, p).len(),
    ensures
        exists|i: int|
            0 <= i < blocks.len() && p(#[trigger] blocks[i]) && state_manager::stops_for(
                blocks,
                p,
            )[k] == state_manager::stop_event(blocks[i].index),
    decreases blocks.len(),
{
    let rest = blocks.drop_last();
    let n = state_manager::stops_for(rest, p).len();
    if p(blocks.last()) && k == n {
        assert(p(blocks[blocks.len() - 1]));
    } else {
        lemma_stops_content(rest, p, k);
        let i: int = choose|i: int|
            0 <= i < rest.len() && p(#[trigger] rest[i]) && state_manager::stops_for(
                rest,
                p,
            )[k] == state_manager::stop_event(rest[i].index);
        assert(p(blocks[i]));
    }
}

/// Events about one block of a tool call, or about text and thinking.
pub open spec fn about_or_off(
    ev: Seq<sse::EventView>,
    m: state_manager::ManagerView,
    index: int,
) -> bool {
    forall|k: int|
        0 <= k < ev.len() ==> {
            let j = stream_model::block_of(#[trigger] ev[k]);
            &&& j is Some
            &&& j == Some(index) || (!is_tool_block(m, j.unwrap()) && no_tool_event(ev[k]))
        }
}

/// A piece of a tool call, as a client follows it who has seen everything.
pub proof fn lemma_feed_ok(v: stream_model::StreamView, index: int, e: events::ToolUseView)
    requires
        synced(v.manager),
        thinking_ok(v),
        v.manager.block(index) is None ==> 0 <= index < v.manager.next_block_index,
        v.manager.block(index) is Some ==> is_tool_block(v.manager, index),
    ensures
        ({
            let (w, ev) = v.feed_tool(index, e);
            &&& synced(w.manager)
            &&& thinking_ok(w)
            &&& protocol::full_client(v.manager).run(ev) == Some(protocol::full_client(w.manager))
            &&& about_or_off(ev, v.manager, index)
            &&& is_tool_block(w.manager, index)
            &&& e.stop ==> w.manager.block(index).unwrap().stopped
            &&& forall|j: int|
                j != index && is_tool_block(v.manager, j) ==> #[trigger] w.manager.block(j)
                    == v.manager.block(j)
            &&& v.manager.block(index) is Some && v.manager.block(index).unwrap().stopped
                ==> w.manager.block(index).unwrap().stopped
            &&& kinds_kept(v.manager, w.manager)
            &&& typed(ev, w.manager)
        }),
{
    reveal(stream_model::StreamView::feed_tool);
    protocol::lemma_kinds();
    let m = v.manager;
    let c = protocol::full_client(m);
    let block = sse::ContentBlockView::ToolUse { id: e.id, name: v.tool_name(e.name) };
    let data = sse::DataView::BlockStart { index, block };
    let (m1, starts) = m.start_block(index, "tool_use"@, data);
    if m.block(index) is None {
        protocol::lemma_start_in_step(m, c, index, "tool_use"@, block);
    } else {
        protocol::lemma_restart_in_step(m, c, index, data);
    }
    let c1 = c.run(starts).unwrap();
    protocol::lemma_in_step_full(m1, c1);
    assert(protocol::keeps(m, m1));
    assert(is_tool_block(m1, index));
    let delta = sse::DeltaView::InputJson(e.input);
    let ddata = sse::DataView::BlockDelta { index, delta };
    let deltas = if e.input.len() == 0 {
        Seq::empty()
    } else {
        m1.delta(index, ddata)
    };
    protocol::lemma_delta_in_step(m1, c1, index, delta);
    assert(c1.run(deltas) == Some(c1));
    let (m2, stops) = if e.stop {
        m1.stop_block(index)
    } else {
        (m1, Seq::empty())
    };
    protocol::lemma_stop_in_step(m1, c1, index);
    let c2 = c1.run(stops).unwrap();
    protocol::lemma_in_step_full(m2, c2);
    let ev = starts + deltas + stops;
    protocol::lemma_run_concat(c, starts + deltas, stops);
    protocol::lemma_run_concat(c, starts, deltas);
    assert(about_or_off(ev, m, index)) by {
        reveal(state_manager::ManagerView::start_block);
        reveal(state_manager::ManagerView::stop_block);
        reveal(state_manager::ManagerView::delta);
        let p = state_manager::open_blocks(true);
        let texts = state_manager::stops_for(m.blocks, p);
        assert(starts == texts || starts == texts.push(state_manager::start_event(data)));
        assert forall|k: int| 0 <= k < ev.len() implies {
            let j = stream_model::block_of(#[trigger] ev[k]);
            &&& j is Some
            &&& j == Some(index) || (!is_tool_block(m, j.unwrap()) && no_tool_event(ev[k]))
        } by {
            if k < texts.len() {
                assert(ev[k] == texts[k]);
                lemma_stops_content(m.blocks, p, k);
                let i: int = choose|i: int|
                    0 <= i < m.blocks.len() && p(#[trigger] m.blocks[i]) && texts[k]
                        == state_manager::stop_event(m.blocks[i].index);
                protocol::lemma_find_at(m, i);
            } else if k < starts.len() {
                assert(ev[k] == starts[k]);
            } else if k < starts.len() + deltas.len() {
                assert(ev[k] == deltas[k - starts.len()]);
            } else {
                assert(ev[k] == stops[k - starts.len() - deltas.len()]);
            }
        }
    }
    assert forall|j: int| j != index && is_tool_block(m, j) implies #[trigger] m2.block(j)
        == m.block(j) by {
        assert(m.block(j) is Some);
        assert(m1.block(j) == m.block(j));
    }
    assert(kinds_kept(m, m2)) by {
        assert forall|j: int| (#[trigger] m.block(j)) is Some implies is_of_kind(
            m2,
            j,
            m.block(j).unwrap().kind,
        ) by {
            assert(m1.block(j) is Some);
            if j != index {
                assert(m2.block(j) == m1.block(j));
            }
        }
    }
    assert(typed(ev, m2)) by {
        reveal(state_manager::ManagerView::start_block);
        reveal(state_manager::ManagerView::stop_block);
        reveal(state_manager::ManagerView::delta);
        let p = state_manager::open_blocks(true);
        let texts = state_manager::stops_for(m.blocks, p);
        assert(starts == texts || starts == texts.push(state_manager::start_event(data)));
        assert forall|k: int| 0 <= k < ev.len() implies fits(#[trigger] ev[k], m2) by {
            if k < texts.len() {
                assert(ev[k] == texts[k]);
                lemma_stops_content(m.blocks, p, k);
            } else if k < starts.len() {
                assert(ev[k] == starts[k]);
            } else if k < starts.len() + deltas.len() {
                assert(ev[k] == deltas[k - starts.len()]);
            } else {
                assert(ev[k] == stops[k - starts.len() - deltas.len()]);
            }
        }
    }
    if v.in_thinking {
        lemma_keeps_thinking(m, m1, v.thinking_index);
        let t = v.thinking_index.unwrap();
        assert(t != index) by {
            assert(m.block(t) is Some);
        }
        assert(m2.block(t) == m1.block(t));
    }
}

pub proof fn lemma_held_of_tagged(
    held: Seq<(Seq<char>, sse::EventView)>,
    id: Seq<char>,
    ev: Seq<sse::EventView>,
    other: Seq<char>,
)
    ensures
        stream_model::held_of(held + stream_model::tagged(id, ev), other) == if id == other {
            stream_model::held_of(held, other) + ev
        } else {
            stream_model::held_of(held, other)
        },
        stream_model::holds(held + stream_model::tagged(id, ev), other) == (stream_model::holds(
            held,
            other,
        ) || (id == other && ev.len() > 0)),
    decreases ev.len(),
{
    let all = held + stream_model::tagged(id, ev);
    if ev.len() == 0 {
        assert(all =~= held);
        assert(stream_model::held_of(held, other) + ev =~= stream_model::held_of(held, other));
    } else {
        let rest = ev.drop_last();
        lemma_held_of_tagged(held, id, rest, other);
        let part = held + stream_model::tagged(id, rest);
        assert(all.drop_last() =~= part);
        assert(all.last() == (id, ev.last()));
        assert((stream_model::held_of(held, other) + rest).push(ev.last())
            =~= stream_model::held_of(held, other) + ev);
        assert(all =~= part.push((id, ev.last())));
        if stream_model::holds(part, other) {
            let i: int = choose|i: int| 0 <= i < part.len() && (#[trigger] part[i]).0 == other;
            assert(all[i].0 == other);
        }
        if id == other {
            assert(all[all.len() - 1].0 == other);
        }
        if stream_model::holds(all, other) {
            let i: int = choose|i: int| 0 <= i < all.len() && (#[trigger] all[i]).0 == other;
            if i < part.len() {
                assert(part[i].0 == other);
            }
        }
    }
}

pub proof fn lemma_held_besides(
    held: Seq<(Seq<char>, sse::EventView)>,
    id: Seq<char>,
    other: Seq<char>,
)
    ensures
        stream_model::held_of(stream_model::held_besides(held, id), other) == if id == other {
            Seq::empty()
        } else {
            stream_model::held_of(held, other)
        },
        stream_model::holds(stream_model::held_besides(held, id), other) == (stream_model::holds(
            held,
            other,
        ) && id != other),
    decreases held.len(),
{
    if held.len() > 0 {
        let rest = held.drop_last();
        let last = held.last();
        lemma_held_besides(rest, id, other);
        let b = stream_model::held_besides(held, id);
        let c = stream_model::held_besides(rest, id);
        if last.0 != id {
            assert(b.drop_last() =~= c);
            if stream_model::holds(c, other) {
                let i: int = choose|i: int| 0 <= i < c.len() && (#[trigger] c[i]).0 == other;
                assert(b[i].0 == other);
            }
            if last.0 == other {
                assert(b[b.len() - 1].0 == other);
            }
            if stream_model::holds(b, other) {
                let i: int = choose|i: int| 0 <= i < b.len() && (#[trigger] b[i]).0 == other;
                if i < c.len() {
                    assert(c[i].0 == other);
                }
            }
        }
        if stream_model::holds(rest, other) {
            let i: int = choose|i: int| 0 <= i < rest.len() && (#[trigger] rest[i]).0 == other;
            assert(held[i].0 == other);
        }
        if last.0 == other {
            assert(held[held.len() - 1].0 == other);
        }
        if stream_model::holds(held, other) {
            let i: int = choose|i: int| 0 <= i < held.len() && (#[trigger] held[i]).0 == other;
            if i < rest.len() {
                assert(rest[i].0 == other);
            }
        }
    }
}

pub proof fn lemma_held_of_none(held: Seq<(Seq<char>, sse::EventView)>, id: Seq<char>)
    requires
        !stream_model::holds(held, id),
    ensures
        stream_model::held_of(held, id).len() == 0,
    decreases held.len(),
{
    if held.len() > 0 {
        assert(held[held.len() - 1].0 != id);
        let rest = held.drop_last();
        if stream_model::holds(rest, id) {
            let i: int = choose|i: int| 0 <= i < rest.len() && (#[trigger] rest[i]).0 == id;
            assert(held[i].0 == id);
        }
        lemma_held_of_none(rest, id);
    }
}

pub proof fn lemma_not_about(events: Seq<sse::EventView>, index: int)
    ensures
        stream_model::about(events, index).len() == 0 ==> stream_model::not_about(events, index)
            == events,
        forall|k: int|
            0 <= k < stream_model::not_about(events, index).len() ==> exists|i: int|
                0 <= i < events.len() && #[trigger] stream_model::not_about(events, index)[k]
                    == #[trigger] events[i] && stream_model::block_of(events[i]) != Some(index),
    decreases events.len(),
{
    if events.len() > 0 {
        let rest = events.drop_last();
        lemma_not_about(rest, index);
        let n = stream_model::not_about(events, index);
        let r = stream_model::not_about(rest, index);
        if stream_model::about(events, index).len() == 0 {
            assert(n =~= events);
        }
        assert forall|k: int| 0 <= k < n.len() implies exists|i: int|
            0 <= i < events.len() && #[trigger] n[k] == #[trigger] events[i]
                && stream_model::block_of(events[i]) != Some(index) by {
            if k < r.len() {
                assert(n[k] == r[k]);
                let i: int = choose|i: int|
                    0 <= i < rest.len() && #[trigger] r[k] == #[trigger] rest[i]
                        && stream_model::block_of(rest[i]) != Some(index);
                assert(events[i] == rest[i]);
            } else {
                assert(n[k] == events[events.len() - 1]);
            }
        }
    }
}

/// Releasing complete calls keeps the client with the stream.
proof fn lemma_release_live(v: stream_model::StreamView, a: protocol::Client)
    requires
        live(v, a),
        v.delayed,
    ensures
        ({
            let (rest, out) = stream_model::release_held(v.buffered, v.tool_indices, v.completed);
            let w = stream_model::StreamView { buffered: rest, ..v };
            &&& a.run(out) is Some
            &&& live(w, a.run(out).unwrap())
        }),
    decreases v.buffered.len(),
{
    let held = v.buffered;
    let cv = protocol::full_client(v.manager);
    stream_model::lemma_lowest_held(held, v.tool_indices);
    match stream_model::lowest_held(held, v.tool_indices) {
        None => {},
        Some((i, id)) => {
            if v.completed.contains(id) {
                stream_model::lemma_held_besides_shorter(held, id);
                lemma_lookup_tool(v, id);
                let part = stream_model::held_besides(held, id);
                let first = stream_model::held_of(held, id);
                let hidden = hidden_blocks(held, v.tool_indices);
                let hidden2 = hidden_blocks(part, v.tool_indices);
                assert(hidden.contains(i));
                assert(!a.blocks.contains_key(i));
                assert(protocol::status(cv, i) == Some(false));
                protocol::lemma_run_block(a, i, first);
                let b = protocol::Client { blocks: a.blocks.insert(i, false), ..a };
                assert(a.run(first) == Some(b));
                let x = stream_model::StreamView { buffered: part, ..v };
                assert forall|j: int| hidden2.contains(j) == (hidden.contains(j) && j != i) by {
                    if hidden2.contains(j) {
                        let d: Seq<char> = choose|d: Seq<char>| #[trigger]
                            stream_model::holds(part, d) && stream_model::lookup(
                                v.tool_indices,
                                d,
                            ) == Some(j);
                        lemma_held_besides(held, id, d);
                        assert(stream_model::holds(held, d));
                        if j == i {
                            lemma_lookup_injective(v, d, id);
                        }
                    }
                    if hidden.contains(j) && j != i {
                        let d: Seq<char> = choose|d: Seq<char>| #[trigger]
                            stream_model::holds(held, d) && stream_model::lookup(
                                v.tool_indices,
                                d,
                            ) == Some(j);
                        lemma_held_besides(held, id, d);
                        assert(stream_model::holds(part, d));
                    }
                }
                assert(b.blocks =~= protocol::lacking(cv, hidden2).blocks);
                assert forall|d: Seq<char>| #[trigger] stream_model::holds(part, d) implies {
                    let k = stream_model::lookup(v.tool_indices, d);
                    &&& k is Some
                    &&& protocol::block_run(
                        None,
                        k.unwrap(),
                        stream_model::held_of(part, d),
                    ) == Some(protocol::status(cv, k.unwrap()))
                } by {
                    lemma_held_besides(held, id, d);
                    assert(stream_model::holds(held, d));
                }
                assert forall|k: int| 0 <= k < v.tool_indices.len() implies stream_model::holds(
                    part,
                    (#[trigger] v.tool_indices[k]).0,
                ) || v.manager.block(v.tool_indices[k].1).unwrap().stopped by {
                    let d = v.tool_indices[k].0;
                    lemma_held_besides(held, id, d);
                    if d == id {
                        lemma_lookup(v.tool_indices, id);
                        let y: int = choose|y: int|
                            0 <= y < v.tool_indices.len() && #[trigger] v.tool_indices[y] == (
                                id,
                                i,
                            );
                        if y < k {
                            assert(v.tool_indices[y].0 != v.tool_indices[k].0);
                        } else if k < y {
                            assert(v.tool_indices[k].0 != v.tool_indices[y].0);
                        }
                        assert(v.tool_indices[k].1 == i);
                    }
                }
                assert(live(x, b));
                lemma_release_live(x, b);
                let (rest, more) = stream_model::release_held(part, v.tool_indices, v.completed);
                protocol::lemma_run_concat(a, first, more);
            }
        },
    }
}

/// The events of a piece of a tool call, as a client follows them who has seen
/// everything.
pub proof fn lemma_tool_events_ok(v: stream_model::StreamView, e: events::ToolUseView)
    requires
        synced(v.manager),
        thinking_ok(v),
        tools_ok(v),
    ensures
        ({
            let (w, all, index) = v.tool_events(e);
            let known = stream_model::lookup(v.tool_indices, e.id);
            &&& synced(w.manager)
            &&& thinking_ok(w)
            &&& w.buffered == v.buffered
            &&& w.delayed == v.delayed
            &&& w.completed == (if e.stop {
                v.completed.insert(e.id)
            } else {
                v.completed
            })
            &&& protocol::full_client(v.manager).run(all) == Some(protocol::full_client(w.manager))
            &&& about_or_off(all, v.manager, index)
            &&& known is Some ==> known == Some(index) && w.tool_indices == v.tool_indices
            &&& known is None ==> v.manager.block(index) is None && w.tool_indices
                == v.tool_indices.push((e.id, index))
            &&& is_tool_block(w.manager, index)
            &&& e.stop ==> w.manager.block(index).unwrap().stopped
            &&& v.manager.block(index) is Some && v.manager.block(index).unwrap().stopped
                ==> w.manager.block(index).unwrap().stopped
            &&& forall|j: int|
                j != index && is_tool_block(v.manager, j) ==> #[trigger] w.manager.block(j)
                    == v.manager.block(j)
            &&& kinds_kept(v.manager, w.manager)
            &&& typed(all, w.manager)
        }),
{
    let m = v.manager;
    let cv = protocol::full_client(m);
    let v0 = stream_model::StreamView {
        manager: state_manager::ManagerView { has_tool_use: true, ..m },
        ..v
    };
    lemma_same_books(m, v0.manager);
    lemma_settle_fine(v0);
    stream_model::lemma_settle_for_tool(v0);
    let (v1, settled) = v0.settle_for_tool();
    let m1 = v1.manager;
    assert(protocol::grows(m, m1)) by {
        assert forall|j: int| (#[trigger] m.block(j)) is Some implies {
            &&& m1.block(j) is Some
            &&& m1.block(j).unwrap().kind == m.block(j).unwrap().kind
            &&& m.block(j).unwrap().kind == "tool_use"@ ==> m1.block(j) == m.block(j)
        } by {
            assert(v0.manager.block(j) == m.block(j));
        }
    }
    lemma_lookup(v.tool_indices, e.id);
    lemma_lookup_tool(v, e.id);
    let known = stream_model::lookup(v.tool_indices, e.id) is Some;
    let (v2, index) = v1.tool_block(e.id);
    let m2 = v2.manager;
    lemma_same_books(m1, m2);
    assert(known ==> is_tool_block(m2, index));
    assert(!known ==> m2.block(index) is None && m.block(index) is None) by {
        if m.block(index) is Some {
            assert(m1.block(index) is Some);
        }
    }
    lemma_feed_ok(v2, index, e);
    stream_model::lemma_feed_tool(v2, index, e);
    let (v3, fed) = v2.feed_tool(index, e);
    let m3 = v3.manager;
    let dv = protocol::full_client(m3);
    let all = settled + fed;
    protocol::lemma_run_concat(cv, settled, fed);
    assert(cv.run(all) == Some(dv));
    assert(kinds_kept(m1, m3)) by {
        assert forall|j: int| (#[trigger] m1.block(j)) is Some implies is_of_kind(
            m3,
            j,
            m1.block(j).unwrap().kind,
        ) by {
            assert(m2.block(j) == m1.block(j));
        }
    }
    assert(kinds_kept(m, m3)) by {
        assert forall|j: int| (#[trigger] m.block(j)) is Some implies is_of_kind(
            m3,
            j,
            m.block(j).unwrap().kind,
        ) by {
            assert(m1.block(j) is Some);
        }
    }
    lemma_typed_later(settled, m1, m3);
    lemma_typed_concat(settled, fed, m3);
    assert forall|j: int| j != index && is_tool_block(m, j) implies #[trigger] m3.block(j)
        == m.block(j) by {
        assert(m.block(j) is Some);
        assert(m1.block(j) == m.block(j));
        assert(is_tool_block(m2, j));
    }
    assert(about_or_off(all, m, index)) by {
        assert forall|k: int| 0 <= k < all.len() implies {
            let j = stream_model::block_of(#[trigger] all[k]);
            &&& j is Some
            &&& j == Some(index) || (!is_tool_block(m, j.unwrap()) && no_tool_event(all[k]))
        } by {
            if k < settled.len() {
                assert(all[k] == settled[k]);
                let j = stream_model::block_of(all[k]).unwrap();
                assert(v0.manager.block(j) == m.block(j));
            } else {
                assert(all[k] == fed[k - settled.len()]);
                let j = stream_model::block_of(all[k]).unwrap();
                if is_tool_block(m, j) {
                    assert(m.block(j) is Some);
                    assert(is_tool_block(m1, j));
                    assert(is_tool_block(m2, j));
                }
            }
        }
    }
}

/// A piece of a tool call keeps the client with the stream.
proof fn lemma_tool_live(v: stream_model::StreamView, a: protocol::Client, e: events::ToolUseView)
    requires
        live(v, a),
    ensures
        ({
            let (w, ev) = v.tool_use(e);
            &&& a.run(ev) is Some
            &&& live(w, a.run(ev).unwrap())
        }),
{
    reveal(stream_model::StreamView::tool_use);
    lemma_tool_events_ok(v, e);
    let (w, all, index) = v.tool_events(e);
    lemma_tools_after(v, w, index, e);
    lemma_tool_client(v, w, a, all, index, e);
}

/// The books on tool calls after a piece of a call.
pub proof fn lemma_tools_after(
    v: stream_model::StreamView,
    w: stream_model::StreamView,
    index: int,
    e: events::ToolUseView,
)
    requires
        tools_ok(v),
        stream_model::lookup(v.tool_indices, e.id) is Some ==> {
            &&& stream_model::lookup(v.tool_indices, e.id) == Some(index)
            &&& w.tool_indices == v.tool_indices
        },
        stream_model::lookup(v.tool_indices, e.id) is None ==> {
            &&& v.manager.block(index) is None
            &&& w.tool_indices == v.tool_indices.push((e.id, index))
        },
        is_tool_block(w.manager, index),
        e.stop ==> w.manager.block(index).unwrap().stopped,
        v.manager.block(index) is Some && v.manager.block(index).unwrap().stopped
            ==> w.manager.block(index).unwrap().stopped,
        forall|j: int|
            j != index && is_tool_block(v.manager, j) ==> #[trigger] w.manager.block(j)
                == v.manager.block(j),
        w.completed == (if e.stop {
            v.completed.insert(e.id)
        } else {
            v.completed
        }),
    ensures
        tools_ok(w),
        stream_model::lookup(w.tool_indices, e.id) == Some(index),
        forall|d: Seq<char>|
            d != e.id ==> #[trigger] stream_model::lookup(w.tool_indices, d)
                == stream_model::lookup(v.tool_indices, d),
{
    lemma_lookup(v.tool_indices, e.id);
    assert forall|a: int, b: int| 0 <= a < b < w.tool_indices.len() implies {
        &&& (#[trigger] w.tool_indices[a]).0 != (#[trigger] w.tool_indices[b]).0
        &&& w.tool_indices[a].1 != w.tool_indices[b].1
    } by {
        if b < v.tool_indices.len() {
            assert(v.tool_indices[a].0 != v.tool_indices[b].0);
        } else {
            assert(v.tool_indices[a].0 != e.id);
            assert(is_tool_block(v.manager, v.tool_indices[a].1));
        }
    }
    assert forall|a: int| 0 <= a < w.tool_indices.len() implies is_tool_block(
        w.manager,
        (#[trigger] w.tool_indices[a]).1,
    ) by {
        if a < v.tool_indices.len() && w.tool_indices[a].1 != index {
            assert(is_tool_block(v.manager, v.tool_indices[a].1));
            assert(w.manager.block(w.tool_indices[a].1) == v.manager.block(w.tool_indices[a].1));
        }
    }
    assert forall|d: Seq<char>| d != e.id implies #[trigger] stream_model::lookup(
        w.tool_indices,
        d,
    ) == stream_model::lookup(v.tool_indices, d) by {
        if stream_model::lookup(v.tool_indices, e.id) is None {
            lemma_lookup_push(v.tool_indices, e.id, index, d);
        }
    }
    if stream_model::lookup(v.tool_indices, e.id) is None {
        lemma_lookup_push(v.tool_indices, e.id, index, e.id);
    }
    assert forall|id: Seq<char>| #[trigger] w.completed.contains(id) implies {
        &&& stream_model::lookup(w.tool_indices, id) is Some
        &&& w.manager.block(stream_model::lookup(w.tool_indices, id).unwrap()).unwrap().stopped
    } by {
        if id == e.id {
            if !e.stop {
                assert(v.completed.contains(id));
            }
        } else {
            assert(v.completed.contains(id));
            lemma_lookup_tool(v, id);
            let i = stream_model::lookup(v.tool_indices, id).unwrap();
            if i == index {
                if stream_model::lookup(v.tool_indices, e.id) is Some {
                    lemma_lookup_injective(v, id, e.id);
                }
            }
            assert(w.manager.block(i) == v.manager.block(i));
        }
    }
}

proof fn lemma_lookup_push(
    pairs: Seq<(Seq<char>, int)>,
    key: Seq<char>,
    value: int,
    other: Seq<char>,
)
    requires
        stream_model::lookup(pairs, key) is None,
    ensures
        stream_model::lookup(pairs.push((key, value)), other) == if other == key {
            Some(value)
        } else {
            stream_model::lookup(pairs, other)
        },
{
    let after = pairs.push((key, value));
    let p = stream_model::has_key(pairs, other);
    let q = stream_model::has_key(after, other);
    text::lemma_search(p, 0, pairs.len() as int);
    text::lemma_search(q, 0, after.len() as int);
    assert forall|k: int| 0 <= k < pairs.len() implies #[trigger] p(k) == q(k) by {
        assert(after[k] == pairs[k]);
    }
    assert(q(pairs.len() as int) == (other == key));
    lemma_lookup(pairs, key);
    match text::search(q, 0, after.len() as int) {
        Some(j) => {
            if j < pairs.len() {
                assert(p(j));
                match text::search(p, 0, pairs.len() as int) {
                    Some(i) => {
                        assert(q(i));
                        assert(i == j);
                    },
                    None => {},
                }
                assert(pairs[j].0 == other);
            } else {
                assert(q(j));
                match text::search(p, 0, pairs.len() as int) {
                    Some(i) => {
                        assert(q(i));
                    },
                    None => {},
                }
            }
        },
        None => {
            match text::search(p, 0, pairs.len() as int) {
                Some(i) => {
                    assert(q(i));
                },
                None => {},
            }
        },
    }
}

/// A piece of a tool call and the client: what is not about the call is sent,
/// what is about it is held back in a delayed stream.
pub proof fn lemma_tool_client(
    v: stream_model::StreamView,
    w: stream_model::StreamView,
    a: protocol::Client,
    all: Seq<sse::EventView>,
    index: int,
    e: events::ToolUseView,
)
    requires
        live(v, a),
        synced(w.manager),
        thinking_ok(w),
        tools_ok(w),
        w.buffered == v.buffered,
        w.delayed == v.delayed,
        protocol::full_client(v.manager).run(all) == Some(protocol::full_client(w.manager)),
        about_or_off(all, v.manager, index),
        stream_model::lookup(w.tool_indices, e.id) == Some(index),
        forall|d: Seq<char>|
            d != e.id ==> #[trigger] stream_model::lookup(w.tool_indices, d)
                == stream_model::lookup(v.tool_indices, d),
        stream_model::lookup(v.tool_indices, e.id) is Some ==> {
            &&& stream_model::lookup(v.tool_indices, e.id) == Some(index)
            &&& w.tool_indices == v.tool_indices
        },
        stream_model::lookup(v.tool_indices, e.id) is None ==> {
            &&& v.manager.block(index) is None
            &&& w.tool_indices == v.tool_indices.push((e.id, index))
        },
        forall|j: int|
            j != index && is_tool_block(v.manager, j) ==> #[trigger] w.manager.block(j)
                == v.manager.block(j),
        v.manager.block(index) is Some && v.manager.block(index).unwrap().stopped
            ==> w.manager.block(index).unwrap().stopped,
    ensures
        ({
            let held = v.buffered + stream_model::tagged(e.id, stream_model::about(all, index));
            let passed = stream_model::not_about(all, index);
            let x = stream_model::StreamView { buffered: held, ..w };
            let (rest, out) = stream_model::release_held(held, w.tool_indices, w.completed);
            let y = stream_model::StreamView { buffered: rest, ..w };
            &&& !w.delayed ==> a.run(all) is Some && live(w, a.run(all).unwrap())
            &&& w.delayed ==> a.run(passed) is Some && live(x, a.run(passed).unwrap())
            &&& w.delayed ==> a.run(passed + out) is Some && live(y, a.run(passed + out).unwrap())
        }),
{
    let m = v.manager;
    let cv = protocol::full_client(m);
    let dv = protocol::full_client(w.manager);
    let hidden = hidden_blocks(v.buffered, v.tool_indices);
    let mine = stream_model::about(all, index);
    let passed = stream_model::not_about(all, index);
    let held = v.buffered + stream_model::tagged(e.id, mine);
    let x = stream_model::StreamView { buffered: held, ..w };
    let hidden2 = hidden_blocks(held, w.tool_indices);
    lemma_lookup_tool(v, e.id);
    lemma_lookup(v.tool_indices, e.id);
    lemma_not_about(all, index);
    protocol::lemma_run_about(cv, all, index);
    let known = stream_model::lookup(v.tool_indices, e.id) is Some;
    let was_held = stream_model::holds(v.buffered, e.id);
    assert forall|d: Seq<char>| true implies (#[trigger] stream_model::holds(held, d) == (
    stream_model::holds(v.buffered, d) || (d == e.id && mine.len() > 0))) by {
        lemma_held_of_tagged(v.buffered, e.id, mine, d);
    }
    assert(is_tool_block(w.manager, index)) by {
        lemma_lookup_tool(w, e.id);
    }
    if !w.delayed {
        assert(v.buffered.len() == 0);
        assert(hidden =~= Set::empty()) by {
            assert forall|i: int| !hidden.contains(i) by {}
        }
        assert(cv.blocks.remove_keys(hidden) =~= cv.blocks);
        assert(a == cv);
        assert(hidden_blocks(w.buffered, w.tool_indices) =~= Set::empty()) by {
            assert forall|i: int| !hidden_blocks(w.buffered, w.tool_indices).contains(i) by {}
        }
        assert(dv.blocks.remove_keys(hidden_blocks(w.buffered, w.tool_indices)) =~= dv.blocks);
    } else {
        // The hidden blocks, as the client lacks them.
        assert forall|j: int| hidden.contains(j) implies is_tool_block(m, j) by {
            lemma_hidden_are_tools(v, j);
        }
        if known && !was_held {
            // The call was complete and released: nothing about it can come.
            let k: int = choose|k: int|
                0 <= k < v.tool_indices.len() && #[trigger] v.tool_indices[k] == (e.id, index);
            assert(v.tool_indices[k].0 == e.id);
            assert(m.block(index).unwrap().stopped);
            assert(protocol::status(cv, index) == Some(false));
            protocol::lemma_block_run_stopped(index, mine);
            assert(mine.len() == 0);
            assert(passed == all);
            assert(!hidden.contains(index)) by {
                if hidden.contains(index) {
                    let d: Seq<char> = choose|d: Seq<char>| #[trigger]
                        stream_model::holds(v.buffered, d) && stream_model::lookup(
                            v.tool_indices,
                            d,
                        ) == Some(index);
                    lemma_lookup_injective(v, d, e.id);
                }
            }
            assert forall|k: int| 0 <= k < all.len() implies match stream_model::block_of(
                #[trigger] all[k],
            ) {
                Some(j) => !hidden.contains(j),
                None => all[k].data is Error,
            } by {}
            protocol::lemma_run_hidden(cv, all, hidden);
            assert(hidden2 =~= hidden) by {
                assert forall|i: int| hidden2.contains(i) == hidden.contains(i) by {
                    if hidden2.contains(i) {
                        let d: Seq<char> = choose|d: Seq<char>| #[trigger]
                            stream_model::holds(held, d) && stream_model::lookup(
                                w.tool_indices,
                                d,
                            ) == Some(i);
                        assert(stream_model::holds(v.buffered, d));
                    }
                    if hidden.contains(i) {
                        let d: Seq<char> = choose|d: Seq<char>| #[trigger]
                            stream_model::holds(v.buffered, d) && stream_model::lookup(
                                v.tool_indices,
                                d,
                            ) == Some(i);
                        assert(stream_model::holds(held, d));
                    }
                }
            }
            assert(a.run(passed) == Some(protocol::lacking(dv, hidden2)));
        } else {
            // The call is new or held back: its block is unknown to the client.
            assert(cv.blocks.contains_key(index) ==> hidden.contains(index)) by {
                if known {
                    assert(stream_model::holds(v.buffered, e.id));
                }
            }
            protocol::lemma_run_not_about(cv, all, index);
            let cw = cv.without(index);
            assert forall|k: int| 0 <= k < passed.len() implies match stream_model::block_of(
                #[trigger] passed[k],
            ) {
                Some(j) => !hidden.contains(j),
                None => passed[k].data is Error,
            } by {
                let i: int = choose|i: int|
                    0 <= i < all.len() && #[trigger] passed[k] == #[trigger] all[i]
                        && stream_model::block_of(all[i]) != Some(index);
                assert(stream_model::block_of(all[i]) is Some);
            }
            protocol::lemma_run_hidden(cw, passed, hidden);
            assert(protocol::lacking(cw, hidden).blocks =~= a.blocks);
            // The call is held back now.
            if !known {
                assert(protocol::status(cv, index) is None);
                assert(protocol::status(dv, index) is Some);
                assert(mine.len() > 0);
            }
            assert(stream_model::holds(held, e.id));
            assert(hidden2 =~= hidden.insert(index)) by {
                assert forall|i: int| hidden2.contains(i) == hidden.insert(index).contains(i) by {
                    if hidden2.contains(i) {
                        let d: Seq<char> = choose|d: Seq<char>| #[trigger]
                            stream_model::holds(held, d) && stream_model::lookup(
                                w.tool_indices,
                                d,
                            ) == Some(i);
                        if d != e.id {
                            assert(stream_model::holds(v.buffered, d));
                            assert(stream_model::lookup(v.tool_indices, d) == Some(i));
                        }
                    }
                    if hidden.contains(i) {
                        let d: Seq<char> = choose|d: Seq<char>| #[trigger]
                            stream_model::holds(v.buffered, d) && stream_model::lookup(
                                v.tool_indices,
                                d,
                            ) == Some(i);
                        assert(stream_model::holds(held, d));
                        assert(stream_model::lookup(w.tool_indices, d) == Some(i));
                    }
                    if i == index {
                        assert(stream_model::holds(held, e.id));
                    }
                }
            }
            assert(protocol::lacking(dv.without(index), hidden).blocks =~= protocol::lacking(
                dv,
                hidden2,
            ).blocks);
            assert(a.run(passed) == Some(protocol::lacking(dv, hidden2)));
        }
        assert forall|d: Seq<char>| #[trigger] stream_model::holds(held, d) implies {
            let i = stream_model::lookup(w.tool_indices, d);
            &&& i is Some
            &&& protocol::block_run(None, i.unwrap(), stream_model::held_of(held, d)) == Some(
                protocol::status(dv, i.unwrap()),
            )
        } by {
            lemma_held_of_tagged(v.buffered, e.id, mine, d);
            if d == e.id {
                let before = stream_model::held_of(v.buffered, d);
                protocol::lemma_block_run_concat(None, index, before, mine);
                if was_held {
                    assert(protocol::block_run(None, index, before) == Some(
                        protocol::status(cv, index),
                    ));
                } else {
                    lemma_held_of_none(v.buffered, d);
                    assert(before =~= Seq::empty());
                    if known {
                        assert(mine.len() == 0);
                        assert(false);
                    }
                    assert(protocol::status(cv, index) is None);
                    assert(protocol::block_run(None, index, before) == Some(None::<bool>));
                }
            } else {
                assert(stream_model::holds(v.buffered, d));
                lemma_lookup_tool(v, d);
                let i = stream_model::lookup(v.tool_indices, d).unwrap();
                if i == index {
                    if known {
                        lemma_lookup_injective(v, d, e.id);
                    }
                }
                assert(w.manager.block(i) == m.block(i));
            }
        }
        assert forall|k: int| 0 <= k < w.tool_indices.len() implies stream_model::holds(
            held,
            (#[trigger] w.tool_indices[k]).0,
        ) || w.manager.block(w.tool_indices[k].1).unwrap().stopped by {
            let d = w.tool_indices[k].0;
            if k < v.tool_indices.len() {
                assert(v.tool_indices[k] == w.tool_indices[k]);
                let i = v.tool_indices[k].1;
                assert(is_tool_block(m, i));
                if i != index {
                    assert(w.manager.block(i) == m.block(i));
                }
                if stream_model::holds(v.buffered, d) {
                    assert(stream_model::holds(held, d));
                }
            } else {
                assert(d == e.id);
                assert(!known);
            }
        }
        let b = a.run(passed).unwrap();
        assert(live(x, b));
        lemma_release_live(x, b);
        let (rest, out) = stream_model::release_held(held, w.tool_indices, w.completed);
        protocol::lemma_run_concat(a, passed, out);
    }
}

/// A stream that has sent nothing and holds nothing.
pub open spec fn fresh(v: stream_model::StreamView) -> bool {
    &&& v.manager.blocks.len() == 0
    &&& v.manager.next_block_index == 0
    &&& !v.manager.message_started
    &&& !v.manager.message_delta_sent
    &&& !v.manager.message_ended
    &&& !v.in_thinking
    &&& v.tool_indices.len() == 0
    &&& v.completed == Set::<Seq<char>>::empty()
    &&& v.buffered.len() == 0
    &&& v.pending.len() == 0
    &&& !v.released
}

/// The client and the stream, whatever the stream has sent so far: nothing, only
/// events that are kept back, or the beginning of its message.
pub open spec fn follows(v: stream_model::StreamView, a: protocol::Client) -> bool {
    if !v.initialized {
        fresh(v) && a == protocol::new_client()
    } else if v.waiting() {
        &&& a == protocol::new_client()
        &&& protocol::new_client().run(v.pending) is Some
        &&& live(v, protocol::new_client().run(v.pending).unwrap())
    } else {
        live(v, a) && v.pending.len() == 0
    }
}

/// The number of input tokens in `message_start` means nothing to the protocol.
proof fn lemma_run_with_tokens(c: protocol::Client, ev: Seq<sse::EventView>, n: int)
    ensures
        c.run(stream_model::with_input_tokens(ev, n)) == c.run(ev),
    decreases ev.len(),
{
    let t = stream_model::with_input_tokens(ev, n);
    if ev.len() > 0 {
        lemma_run_with_tokens(c, ev.drop_last(), n);
        assert(t.drop_last() =~= stream_model::with_input_tokens(ev.drop_last(), n));
    }
}

/// The first events bring client and stream together.
pub proof fn lemma_initial_live(v: stream_model::StreamView)
    requires
        fresh(v),
    ensures
        ({
            let (w, ev) = v.initial();
            &&& protocol::new_client().run(ev) is Some
            &&& live(w, protocol::new_client().run(ev).unwrap())
            &&& w.initialized == v.initialized
        }),
{
    reveal(stream_model::StreamView::initial);
    let x = stream_model::StreamView {
        manager: state_manager::ManagerView { message_started: true, ..v.manager },
        ..v
    };
    let m = x.manager;
    assert forall|j: int| (#[trigger] m.block(j)) is None by {
        protocol::lemma_find_block(m.blocks, j);
    }
    let c = protocol::full_client(m);
    let d = protocol::Client { started: true, ..protocol::new_client() };
    assert(c.blocks =~= d.blocks);
    assert(synced(m));
    let e = state_manager::message_start_event(v.message_start_data());
    protocol::lemma_run_one(protocol::new_client(), e);
    assert(protocol::new_client().run(seq![e]) == Some(c));
    let (w, ev) = v.initial();
    if !x.thinking_enabled {
        lemma_open_fine(x, "text"@, sse::ContentBlockView::Text);
        stream_model::lemma_open_block(x, "text"@, sse::ContentBlockView::Text);
        protocol::lemma_run_concat(
            protocol::new_client(),
            seq![e],
            x.open_block("text"@, sse::ContentBlockView::Text).1,
        );
    }
    assert(w.buffered =~= Seq::empty());
    let hidden = hidden_blocks(w.buffered, w.tool_indices);
    assert(hidden =~= Set::empty()) by {
        assert forall|i: int| !hidden.contains(i) by {}
    }
    let f = protocol::full_client(w.manager);
    assert(f.blocks.remove_keys(hidden) =~= f.blocks);
    assert(protocol::lacking(f, hidden) == f);
}

/// An upstream event keeps the client with the stream.
pub proof fn lemma_event_live(
    v: stream_model::StreamView,
    a: protocol::Client,
    e: events::KiroEventView,
)
    requires
        live(v, a),
    ensures
        ({
            let (w, ev) = v.kiro_event(e);
            &&& a.run(ev) is Some
            &&& live(w, a.run(ev).unwrap())
        }),
{
    let (w, ev) = v.kiro_event(e);
    match e {
        events::KiroEventView::AssistantResponse { content } => {
            lemma_answer_fine(v, content);
            lemma_answer_keeps_books(v, content);
            lemma_fine_live(v, w, a, ev);
        },
        events::KiroEventView::ToolUse(t) => {
            lemma_tool_live(v, a, t);
        },
        _ => {
            stream_model::lemma_other_event(v, e);
            lemma_quiet_live(v, w, a, ev);
        },
    }
}

/// A step that sends at most an error keeps the client with the stream.
proof fn lemma_quiet_live(
    v: stream_model::StreamView,
    w: stream_model::StreamView,
    a: protocol::Client,
    ev: Seq<sse::EventView>,
)
    requires
        live(v, a),
        stream_model::same_books(v, w),
        stream_model::at_most_an_error(ev),
    ensures
        a.run(ev) == Some(a),
        live(w, a),
{
    lemma_same_books(v.manager, w.manager);
    lemma_fine_live(v, w, a, Seq::empty());
    if ev.len() > 0 {
        protocol::lemma_run_one(a, ev[0]);
        assert(ev =~= seq![ev[0]]);
    }
}

pub proof fn lemma_answer_keeps_books(v: stream_model::StreamView, content: Seq<char>)
    ensures
        ({
            let w = v.assistant_response(content).0;
            &&& w.tool_indices == v.tool_indices
            &&& w.completed == v.completed
            &&& w.buffered == v.buffered
            &&& w.delayed == v.delayed
        }),
{
    reveal(stream_model::StreamView::assistant_response);
    let x = stream_model::StreamView {
        output_tokens: v.output_tokens + thinking::estimated_tokens(content),
        ..v
    };
    stream_model::lemma_text_delta(x, content);
    let y = stream_model::StreamView { buffer: x.buffer + content, ..x };
    stream_model::lemma_before_thinking(y);
    stream_model::lemma_inside_thinking(y);
    stream_model::lemma_text_delta(
        stream_model::StreamView { buffer: Seq::empty(), ..y },
        y.buffer,
    );
}

pub proof fn lemma_prepared_live(v: stream_model::StreamView, a: protocol::Client)
    requires
        follows(v, a),
        v.waiting(),
    ensures
        ({
            let w = v.prepared();
            &&& protocol::new_client().run(w.pending) is Some
            &&& live(w, protocol::new_client().run(w.pending).unwrap())
            &&& w.initialized
            &&& w.waiting()
            &&& a == protocol::new_client()
        }),
{
    if !v.initialized {
        lemma_initial_live(v);
        stream_model::lemma_initial(v);
        let (w, ev) = v.initial();
        lemma_live_fields(
            w,
            stream_model::StreamView { pending: ev, initialized: true, ..w },
            protocol::new_client().run(ev).unwrap(),
        );
    }
}

/// The fields that say how far a stream has come are not in the books.
pub proof fn lemma_live_fields(
    v: stream_model::StreamView,
    w: stream_model::StreamView,
    a: protocol::Client,
)
    requires
        live(v, a),
        w.manager == v.manager,
        w.in_thinking == v.in_thinking,
        w.thinking_index == v.thinking_index,
        w.tool_indices == v.tool_indices,
        w.completed == v.completed,
        w.buffered == v.buffered,
        w.delayed == v.delayed,
    ensures
        live(w, a),
{
}

/// An upstream event, as the client sees it, keeps the client with the stream.
pub proof fn lemma_take_follows(
    v: stream_model::StreamView,
    a: protocol::Client,
    e: events::KiroEventView,
)
    requires
        follows(v, a),
    ensures
        ({
            let (w, ev) = v.take_events(e);
            &&& a.run(ev) is Some
            &&& follows(w, a.run(ev).unwrap())
        }),
{
    if v.failed {
    } else if v.waiting() {
        lemma_prepared_live(v, a);
        let x = v.prepared();
        let c = protocol::new_client().run(x.pending).unwrap();
        lemma_event_live(x, c, e);
        stream_model::lemma_kiro_event(x, e);
        let (y, ev) = x.kiro_event(e);
        if e is ContextUsage || ev.len() > 0 {
            let (z, out) = y.release_pending();
            lemma_run_with_tokens(a, y.pending, y.effective_input());
            protocol::lemma_run_concat(a, out, ev);
            lemma_live_fields(
                y,
                stream_model::StreamView { released: true, ..z },
                c.run(ev).unwrap(),
            );
        } else {
            assert(ev =~= Seq::empty());
        }
    } else if v.initialized {
        lemma_event_live(v, a, e);
        stream_model::lemma_kiro_event(v, e);
    } else {
        lemma_initial_live(v);
        stream_model::lemma_initial(v);
        let (x, first) = v.initial();
        let y = stream_model::StreamView { initialized: true, ..x };
        let c = a.run(first).unwrap();
        lemma_live_fields(x, y, c);
        lemma_event_live(y, c, e);
        stream_model::lemma_kiro_event(y, e);
        protocol::lemma_run_concat(a, first, y.kiro_event(e).1);
    }
}

/// Letting `message_start` go keeps the client with the stream.
pub proof fn lemma_force_follows(v: stream_model::StreamView, a: protocol::Client)
    requires
        follows(v, a),
    ensures
        ({
            let (w, ev) = v.force_release();
            &&& a.run(ev) is Some
            &&& follows(w, a.run(ev).unwrap())
        }),
{
    if v.waiting() {
        lemma_prepared_live(v, a);
        let x = v.prepared();
        let (y, out) = x.release_pending();
        lemma_run_with_tokens(a, x.pending, x.effective_input());
        lemma_live_fields(
            x,
            stream_model::StreamView { released: true, ..y },
            a.run(out).unwrap(),
        );
    }
}

/// Dropping the held-back calls leaves the blocks that the client knows.
proof fn lemma_discard_held_blocks(
    m: state_manager::ManagerView,
    held: Seq<(Seq<char>, sse::EventView)>,
    indices: Seq<(Seq<char>, int)>,
)
    requires
        m.wf(),
    ensures
        stream_model::discard_held(m, held, indices).wf(),
        forall|j: int| #[trigger]
            stream_model::discard_held(m, held, indices).block(j) == if hidden_blocks(
                held,
                indices,
            ).contains(j) {
                None
            } else {
                m.block(j)
            },
    decreases held.len(),
{
    let r = stream_model::discard_held(m, held, indices);
    if held.len() == 0 {
        assert forall|j: int| #[trigger] r.block(j) == (if hidden_blocks(held, indices).contains(
            j,
        ) {
            None
        } else {
            m.block(j)
        }) by {
            assert(!hidden_blocks(held, indices).contains(j));
        }
    } else {
        let rest = held.drop_last();
        lemma_discard_held_blocks(m, rest, indices);
        let q = stream_model::discard_held(m, rest, indices);
        let last = stream_model::lookup(indices, held.last().0);
        match last {
            Some(i) => {
                protocol::lemma_block_after_discard(q, i);
            },
            None => {},
        }
        assert forall|j: int| #[trigger] r.block(j) == (if hidden_blocks(held, indices).contains(
            j,
        ) {
            None
        } else {
            m.block(j)
        }) by {
            if hidden_blocks(held, indices).contains(j) {
                let d: Seq<char> = choose|d: Seq<char>| #[trigger]
                    stream_model::holds(held, d) && stream_model::lookup(indices, d) == Some(j);
                let k: int = choose|k: int| 0 <= k < held.len() && (#[trigger] held[k]).0 == d;
                if k < rest.len() {
                    assert(rest[k].0 == d);
                    assert(stream_model::holds(rest, d));
                    assert(hidden_blocks(rest, indices).contains(j));
                }
                assert(q.block(j) is None || last == Some(j));
            } else {
                if hidden_blocks(rest, indices).contains(j) {
                    let d: Seq<char> = choose|d: Seq<char>| #[trigger]
                        stream_model::holds(rest, d) && stream_model::lookup(indices, d) == Some(j);
                    let k: int = choose|k: int| 0 <= k < rest.len() && (#[trigger] rest[k]).0 == d;
                    assert(held[k].0 == d);
                    assert(stream_model::holds(held, d));
                }
                if last == Some(j) {
                    assert(held[held.len() - 1].0 == held.last().0);
                    assert(stream_model::holds(held, held.last().0));
                }
                assert(q.block(j) == m.block(j));
            }
        }
    }
}

/// Without the held-back calls, the client knows all there is.
proof fn lemma_discard_in_step(v: stream_model::StreamView, a: protocol::Client)
    requires
        live(v, a),
    ensures
        ({
            let m = stream_model::discard_held(v.manager, v.buffered, v.tool_indices);
            &&& protocol::in_step(m, a)
            &&& v.in_thinking ==> thinking_block_open(m, v.thinking_index)
        }),
{
    protocol::lemma_kinds();
    let m = stream_model::discard_held(v.manager, v.buffered, v.tool_indices);
    lemma_discard_held_blocks(v.manager, v.buffered, v.tool_indices);
    stream_model::lemma_discard_held(v.manager, v.buffered, v.tool_indices);
    let hidden = hidden_blocks(v.buffered, v.tool_indices);
    assert forall|j: int| #[trigger] a.blocks.contains_key(j) == (m.block(j) is Some) by {}
    assert forall|j: int| #[trigger] a.blocks.contains_key(j) implies a.blocks[j] == !m.block(
        j,
    ).unwrap().stopped by {
        assert(m.block(j) == v.manager.block(j));
    }
    assert forall|j: int| (#[trigger] m.block(j)) is Some implies m.block(j).unwrap().started && 0
        <= j < m.next_block_index by {
        assert(v.manager.block(j) is Some);
    }
    if v.in_thinking {
        let t = v.thinking_index.unwrap();
        if hidden.contains(t) {
            lemma_hidden_are_tools(v, t);
        }
        assert(m.block(t) == v.manager.block(t));
    }
}

/// The end of a stream that failed ends the message.
pub proof fn lemma_failure_ends(v: stream_model::StreamView, a: protocol::Client)
    requires
        follows(v, a),
    ensures
        ({
            let (w, ev) = v.finalize_on_failure();
            &&& a.run(ev) is Some
            &&& a.run(ev).unwrap().ended
            &&& a.run(ev).unwrap().all_closed()
        }),
{
    let u = v.report_usage();
    let (x, first) = if u.waiting() {
        u.release_at_end()
    } else if !u.manager.message_started {
        let (y, ev) = u.initial();
        (stream_model::StreamView { initialized: true, ..y }, ev)
    } else {
        (u, Seq::empty())
    };
    lemma_first_at_end(v, u, a);
    if !u.waiting() && u.initialized {
        assert(u.manager.message_started);
    }
    let b = a.run(first).unwrap();
    assert(live(x, b));
    lemma_discard_in_step(x, b);
    let m = stream_model::discard_held(x.manager, x.buffered, x.tool_indices);
    let w = stream_model::StreamView { manager: m, buffered: Seq::empty(), ..x };
    let output = if w.effective_output() < 1 {
        1
    } else {
        w.effective_output()
    };
    reveal(stream_model::StreamView::finish);
    protocol::lemma_finish_in_step(m, b, w.effective_input(), output);
    protocol::lemma_run_concat(a, first, w.finish(w.effective_input(), output).1);
}

/// What is owed at the end brings client and stream together.
proof fn lemma_first_at_end(
    v: stream_model::StreamView,
    u: stream_model::StreamView,
    a: protocol::Client,
)
    requires
        follows(v, a),
        u == v.report_usage() || u == v,
    ensures
        u.waiting() ==> {
            let (x, first) = u.release_at_end();
            a.run(first) is Some && live(x, a.run(first).unwrap())
        },
        !u.waiting() && !u.initialized ==> {
            let (x, first) = u.initial();
            a.run(first) is Some && live(
                stream_model::StreamView { initialized: true, ..x },
                a.run(first).unwrap(),
            )
        },
        !u.waiting() && u.initialized ==> live(u, a) && a.run(Seq::empty()) == Some(a),
{
    reveal(stream_model::StreamView::release_at_end);
    if u.initialized {
        if u.waiting() {
            let c = protocol::new_client().run(v.pending).unwrap();
            lemma_live_fields(v, u, c);
            let (x, kept) = u.release_pending();
            lemma_run_with_tokens(a, u.pending, u.effective_input());
            lemma_live_fields(u, stream_model::StreamView { released: true, ..x }, c);
            assert(Seq::<sse::EventView>::empty() + kept =~= kept);
        } else {
            lemma_live_fields(v, u, a);
        }
    } else {
        assert(fresh(u));
        lemma_initial_live(u);
        stream_model::lemma_initial(u);
        let (x, first) = u.initial();
        let y = stream_model::StreamView { initialized: true, ..x };
        let c = a.run(first).unwrap();
        lemma_live_fields(x, y, c);
        let (z, kept) = y.release_pending();
        assert(kept =~= Seq::empty());
        assert(first + kept =~= first);
        lemma_live_fields(y, stream_model::StreamView { released: true, ..z }, c);
    }
}

/// The last events of a stream end the message.
proof fn lemma_final_events_end(v: stream_model::StreamView, a: protocol::Client)
    requires
        protocol::in_step(v.manager, a),
        thinking_ok(v),
    ensures
        ({
            let (w, ev) = v.final_events();
            &&& a.run(ev) is Some
            &&& a.run(ev).unwrap().ended
            &&& a.run(ev).unwrap().all_closed()
        }),
{
    protocol::lemma_in_step_full(v.manager, a);
    let m = v.manager;
    lemma_fine_none(m);
    let (x, ev1) = v.flush_buffer();
    assert(fine(m, x.manager, ev1)) by {
        reveal(stream_model::StreamView::flush_buffer);
        if v.thinking_enabled && v.buffer.len() > 0 {
            if v.in_thinking {
                match thinking::first_last_end_tag(v.buffer) {
                    Some(e) => {
                        lemma_leave_fine(v, e);
                    },
                    None => {
                        lemma_close_fine(v, v.buffer);
                    },
                }
            } else {
                lemma_text_fine(v, v.buffer);
            }
        }
    }
    let (y, ev2) = x.fill_in_text();
    assert(fine(x.manager, y.manager, ev2)) by {
        reveal(stream_model::StreamView::fill_in_text);
        lemma_fine_none(x.manager);
        let z = x.with_stop_reason("max_tokens"@);
        lemma_same_books(x.manager, z.manager);
        lemma_text_fine(z, " "@);
        lemma_fine_concat(
            x.manager,
            z.manager,
            z.text_delta(" "@).0.manager,
            Seq::empty(),
            z.text_delta(" "@).1,
        );
        assert(Seq::empty() + z.text_delta(" "@).1 =~= z.text_delta(" "@).1);
    }
    lemma_fine_concat(m, x.manager, y.manager, ev1, ev2);
    reveal(stream_model::StreamView::finish);
    let b = protocol::full_client(y.manager);
    protocol::lemma_finish_in_step(y.manager, b, y.effective_input(), y.effective_output());
    protocol::lemma_run_concat(
        a,
        ev1 + ev2,
        y.finish(y.effective_input(), y.effective_output()).1,
    );
}

/// The end of a stream ends the message.
pub proof fn lemma_finalize_ends(v: stream_model::StreamView, a: protocol::Client)
    requires
        follows(v, a),
        v.delayed || v.initialized,
    ensures
        ({
            let (w, ev) = v.finalize();
            &&& a.run(ev) is Some
            &&& a.run(ev).unwrap().ended
            &&& a.run(ev).unwrap().all_closed()
        }),
{
    if v.failed {
        lemma_failure_ends(v, a);
    } else {
        let u = v.report_usage();
        lemma_first_at_end(v, u, a);
        let (x, first) = if u.waiting() {
            u.release_at_end()
        } else {
            (u, Seq::empty())
        };
        let b = a.run(first).unwrap();
        assert(live(x, b));
        lemma_discard_in_step(x, b);
        let (y, correction) = x.correct_truncation();
        let m = stream_model::discard_held(x.manager, x.buffered, x.tool_indices);
        protocol::lemma_in_step_full(m, b);
        if x.buffered.len() == 0 {
            assert(m == x.manager);
        } else {
            let z = stream_model::StreamView { manager: m, buffered: Seq::empty(), ..x };
            let t = stream_model::correction_text(x.chunk_lines);
            lemma_text_fine(z, t);
            stream_model::lemma_text_delta(z, t);
            let n = z.text_delta(t).0.manager;
            if x.in_thinking {
                lemma_keeps_thinking(m, n, x.thinking_index);
            }
            lemma_same_books(n, y.manager);
        }
        let c = b.run(correction).unwrap();
        assert(protocol::in_step(y.manager, c));
        lemma_final_events_end(y, c);
        protocol::lemma_run_concat(a, first, correction);
        protocol::lemma_run_concat(a, first + correction, y.final_events().1);
    }
}

/// What can happen to a stream before its end.
pub enum Action {
    /// An event of the upstream service.
    Event(events::KiroEventView),
    /// The wait for the use of the context window has taken too long.
    Timeout,
}

/// How a stream can end.
pub enum Ending {
    /// The upstream stream came to its end.
    Complete,
    /// The upstream stream failed.
    Failure,
    /// The upstream stream broke off.
    Interrupt,
}

/// What happens to a stream, one thing after the other: its state and all that it
/// has sent.
pub open spec fn perform(v: stream_model::StreamView, actions: Seq<Action>) -> (
    stream_model::StreamView,
    Seq<sse::EventView>,
)
    decreases actions.len(),
{
    if actions.len() == 0 {
        (v, Seq::empty())
    } else {
        let (w, sent) = perform(v, actions.drop_last());
        let (x, ev) = match actions.last() {
            Action::Event(e) => w.take_events(e),
            Action::Timeout => w.force_release(),
        };
        (x, sent + ev)
    }
}

/// All that a stream sends, with its end.
pub open spec fn whole_trace(
    v: stream_model::StreamView,
    actions: Seq<Action>,
    ending: Ending,
) -> Seq<sse::EventView> {
    let (w, sent) = perform(v, actions);
    sent + match ending {
        Ending::Complete => w.finalize().1,
        Ending::Failure => w.finalize_on_failure().1,
        Ending::Interrupt => w.finalize_on_interrupt().1,
    }
}

pub proof fn lemma_perform_follows(v: stream_model::StreamView, actions: Seq<Action>)
    requires
        fresh(v),
        !v.initialized,
        !v.failed,
    ensures
        ({
            let (w, sent) = perform(v, actions);
            &&& protocol::new_client().run(sent) is Some
            &&& follows(w, protocol::new_client().run(sent).unwrap())
            &&& w.delayed == v.delayed
            &&& (exists|k: int| 0 <= k < actions.len() && (#[trigger] actions[k]) is Event)
                ==> w.initialized
        }),
    decreases actions.len(),
{
    if actions.len() > 0 {
        let rest = actions.drop_last();
        lemma_perform_follows(v, rest);
        let (w, sent) = perform(v, rest);
        let a = protocol::new_client().run(sent).unwrap();
        match actions.last() {
            Action::Event(e) => {
                lemma_take_follows(w, a, e);
                protocol::lemma_run_concat(protocol::new_client(), sent, w.take_events(e).1);
                stream_model::lemma_initial(w);
                stream_model::lemma_kiro_event(w, e);
                stream_model::lemma_kiro_event(w.prepared(), e);
                stream_model::lemma_kiro_event(
                    stream_model::StreamView { initialized: true, ..w.initial().0 },
                    e,
                );
                assert(w.failed ==> w.initialized) by {
                    lemma_failed_initialized(v, rest);
                }
            },
            Action::Timeout => {
                lemma_force_follows(w, a);
                protocol::lemma_run_concat(protocol::new_client(), sent, w.force_release().1);
                stream_model::lemma_initial(w);
                if exists|k: int| 0 <= k < actions.len() && (#[trigger] actions[k]) is Event {
                    let k: int = choose|k: int|
                        0 <= k < actions.len() && (#[trigger] actions[k]) is Event;
                    assert(rest[k] is Event);
                }
            },
        }
    }
}

pub proof fn lemma_failed_initialized(v: stream_model::StreamView, actions: Seq<Action>)
    requires
        !v.initialized,
        !v.failed,
    ensures
        perform(v, actions).0.failed ==> perform(v, actions).0.initialized,
    decreases actions.len(),
{
    if actions.len() > 0 {
        lemma_failed_initialized(v, actions.drop_last());
        let w = perform(v, actions.drop_last()).0;
        stream_model::lemma_initial(w);
        match actions.last() {
            Action::Event(e) => {
                stream_model::lemma_kiro_event(w, e);
                stream_model::lemma_kiro_event(w.prepared(), e);
                stream_model::lemma_kiro_event(
                    stream_model::StreamView { initialized: true, ..w.initial().0 },
                    e,
                );
            },
            Action::Timeout => {},
        }
    }
}

/// Whatever the upstream service sends and however its stream ends, the client
/// gets a sequence of events that keeps to the protocol and ends the message:
/// one `message_start`, first of all; each block started once, filled while it is
/// open, stopped once; then one `message_delta`, with no block left open, and one
/// `message_stop`, last of all.
///
/// A stream that is not delayed and comes to its end without a single event sends
/// no `message_start`; it is left out.
pub proof fn law_protocol(
    message_id: Seq<char>,
    model: Seq<char>,
    input_tokens: int,
    thinking_enabled: bool,
    tool_names: Seq<(Seq<char>, Seq<char>)>,
    delayed: bool,
    actions: Seq<Action>,
    ending: Ending,
)
    requires
        delayed || !(ending is Complete) || exists|k: int|
            0 <= k < actions.len() && (#[trigger] actions[k]) is Event,
    ensures
        ({
            let v = stream::new_stream(
                message_id,
                model,
                input_tokens,
                thinking_enabled,
                tool_names,
                delayed,
            );
            let end = protocol::new_client().run(whole_trace(v, actions, ending));
            &&& end is Some
            &&& end.unwrap().ended
            &&& end.unwrap().all_closed()
        }),
{
    let v = stream::new_stream(
        message_id,
        model,
        input_tokens,
        thinking_enabled,
        tool_names,
        delayed,
    );
    lemma_perform_follows(v, actions);
    let (w, sent) = perform(v, actions);
    let a = protocol::new_client().run(sent).unwrap();
    match ending {
        Ending::Complete => {
            lemma_finalize_ends(w, a);
            protocol::lemma_run_concat(protocol::new_client(), sent, w.finalize().1);
        },
        Ending::Failure => {
            lemma_failure_ends(w, a);
            protocol::lemma_run_concat(protocol::new_client(), sent, w.finalize_on_failure().1);
        },
        Ending::Interrupt => {
            let x = w.with_stop_reason("max_tokens"@);
            lemma_interrupt_follows(w, a);
            lemma_failure_ends(x, a);
            protocol::lemma_run_concat(protocol::new_client(), sent, w.finalize_on_interrupt().1);
        },
    }
}

/// A stop reason is not in the books.
pub proof fn lemma_interrupt_follows(v: stream_model::StreamView, a: protocol::Client)
    requires
        follows(v, a),
    ensures
        follows(v.with_stop_reason("max_tokens"@), a),
{
    let x = v.with_stop_reason("max_tokens"@);
    if v.initialized {
        lemma_same_books(v.manager, x.manager);
        let c = if v.waiting() {
            protocol::new_client().run(v.pending).unwrap()
        } else {
            a
        };
        lemma_fine_live(v, x, c, Seq::empty());
    }
}

/// A failed stream sends nothing more for upstream events and stays as it is.
pub proof fn law_failed_stream_is_silent(v: stream_model::StreamView, e: events::KiroEventView)
    requires
        v.failed,
    ensures
        v.take_events(e) == (v, Seq::<sse::EventView>::empty()),
{
}

/// Letting `message_start` go does nothing unless it is kept back, and after it
/// nothing is kept back any more.
pub proof fn law_force_release_once(v: stream_model::StreamView)
    ensures
        !v.waiting() ==> v.force_release() == (v, Seq::<sse::EventView>::empty()),
        !v.force_release().0.waiting(),
{
    stream_model::lemma_initial(v);
}

/// As long as the client has seen no output, nothing has been sent, so the request
/// can be made again without the client knowing. Once it has, the first event it
/// got is `message_start`.
pub proof fn law_replay_before_output(
    message_id: Seq<char>,
    model: Seq<char>,
    input_tokens: int,
    thinking_enabled: bool,
    tool_names: Seq<(Seq<char>, Seq<char>)>,
    delayed: bool,
    actions: Seq<Action>,
)
    ensures
        ({
            let v = stream::new_stream(
                message_id,
                model,
                input_tokens,
                thinking_enabled,
                tool_names,
                delayed,
            );
            let (w, sent) = perform(v, actions);
            &&& w.client_saw_output() == (sent.len() > 0)
            &&& sent.len() > 0 ==> sent[0].data is MessageStart
        }),
{
    let v = stream::new_stream(
        message_id,
        model,
        input_tokens,
        thinking_enabled,
        tool_names,
        delayed,
    );
    lemma_perform_follows(v, actions);
    lemma_nothing_sent(v, actions);
    let (w, sent) = perform(v, actions);
    if sent.len() == 0 {
        assert(sent =~= Seq::empty());
        if w.client_saw_output() {
            assert(live(w, protocol::new_client()));
            assert(protocol::new_client().started);
        }
    } else {
        lemma_first_event(sent);
    }
}

pub proof fn lemma_first_event(t: Seq<sse::EventView>)
    requires
        protocol::new_client().run(t) is Some,
        t.len() > 0,
    ensures
        t[0].data is MessageStart,
    decreases t.len(),
{
    if t.len() == 1 {
        protocol::lemma_run_one(protocol::new_client(), t[0]);
        assert(t =~= seq![t[0]]);
    } else {
        lemma_first_event(t.drop_last());
    }
}

pub proof fn lemma_nothing_sent(v: stream_model::StreamView, actions: Seq<Action>)
    requires
        !v.initialized,
        !v.released,
        !v.failed,
    ensures
        ({
            let (w, sent) = perform(v, actions);
            &&& !w.client_saw_output() ==> sent.len() == 0
            &&& w.delayed == v.delayed
            &&& !w.delayed ==> !w.released
        }),
    decreases actions.len(),
{
    if actions.len() > 0 {
        lemma_nothing_sent(v, actions.drop_last());
        lemma_failed_initialized(v, actions.drop_last());
        let w = perform(v, actions.drop_last()).0;
        stream_model::lemma_initial(w);
        match actions.last() {
            Action::Event(e) => {
                stream_model::lemma_kiro_event(w, e);
                stream_model::lemma_kiro_event(w.prepared(), e);
                stream_model::lemma_kiro_event(
                    stream_model::StreamView { initialized: true, ..w.initial().0 },
                    e,
                );
            },
            Action::Timeout => {},
        }
    }
}

/// The order in which calls are released: their blocks.
pub open spec fn release_order(
    held: Seq<(Seq<char>, sse::EventView)>,
    indices: Seq<(Seq<char>, int)>,
    completed: Set<Seq<char>>,
) -> Seq<int>
    decreases held.len(),
{
    match stream_model::lowest_held(held, indices) {
        None => Seq::empty(),
        Some((i, id)) => if completed.contains(id) {
            proof {
                stream_model::lemma_lowest_held(held, indices);
                stream_model::lemma_held_besides_shorter(held, id);
            }
            seq![i] + release_order(stream_model::held_besides(held, id), indices, completed)
        } else {
            Seq::empty()
        },
    }
}

/// Complete tool calls are released in the strictly increasing order of their
/// blocks, and none is released while one with a lower block is held back: what is
/// left has higher blocks only.
pub proof fn law_release_in_block_order(
    held: Seq<(Seq<char>, sse::EventView)>,
    indices: Seq<(Seq<char>, int)>,
    completed: Set<Seq<char>>,
)
    requires
        forall|a: int, b: int|
            0 <= a < b < indices.len() ==> (#[trigger] indices[a]).1 != (#[trigger] indices[b]).1,
    ensures
        ({
            let order = release_order(held, indices, completed);
            let rest = stream_model::release_held(held, indices, completed).0;
            &&& forall|p: int, q: int|
                0 <= p < q < order.len() ==> #[trigger] order[p] < #[trigger] order[q]
            &&& forall|p: int, k: int|
                0 <= p < order.len() && 0 <= k < rest.len() && stream_model::lookup(
                    indices,
                    (#[trigger] rest[k]).0,
                ) is Some ==> #[trigger] order[p] < stream_model::lookup(
                    indices,
                    rest[k].0,
                ).unwrap()
            &&& forall|k: int| 0 <= k < rest.len() ==> stream_model::holds(
                held,
                (#[trigger] rest[k]).0,
            )
            &&& forall|p: int|
                0 <= p < order.len() ==> exists|id: Seq<char>|
                    {
                        &&& #[trigger] stream_model::holds(held, id)
                        &&& stream_model::lookup(indices, id) == Some(#[trigger] order[p])
                        &&& completed.contains(id)
                    }
        }),
    decreases held.len(),
{
    stream_model::lemma_lowest_held(held, indices);
    match stream_model::lowest_held(held, indices) {
        None => {
            assert forall|k: int| 0 <= k < held.len() implies stream_model::holds(
                held,
                (#[trigger] held[k]).0,
            ) by {}
        },
        Some((i, id)) => {
            if completed.contains(id) {
                stream_model::lemma_held_besides_shorter(held, id);
                let part = stream_model::held_besides(held, id);
                law_release_in_block_order(part, indices, completed);
                let order = release_order(held, indices, completed);
                let more = release_order(part, indices, completed);
                let rest = stream_model::release_held(held, indices, completed).0;
                assert forall|d: Seq<char>| #[trigger] stream_model::holds(part, d) implies {
                    &&& stream_model::holds(held, d)
                    &&& d != id
                    &&& stream_model::lookup(indices, d) is Some ==> i < stream_model::lookup(
                        indices,
                        d,
                    ).unwrap()
                } by {
                    lemma_held_besides(held, id, d);
                    assert(stream_model::holds(held, d));
                    let k: int = choose|k: int| 0 <= k < held.len() && (#[trigger] held[k]).0 == d;
                    assert(held[k].0 == d);
                    if stream_model::lookup(indices, d) is Some {
                        let j = stream_model::lookup(indices, d).unwrap();
                        if j == i {
                            lemma_lookup(indices, d);
                            lemma_lookup(indices, id);
                            let x: int = choose|x: int|
                                0 <= x < indices.len() && #[trigger] indices[x] == (d, i);
                            let y: int = choose|y: int|
                                0 <= y < indices.len() && #[trigger] indices[y] == (id, i);
                            if x < y {
                                assert(indices[x].1 != indices[y].1);
                            } else if y < x {
                                assert(indices[y].1 != indices[x].1);
                            }
                        }
                    }
                }
                assert forall|p: int| 0 <= p < order.len() implies exists|d: Seq<char>|
                    {
                        &&& #[trigger] stream_model::holds(held, d)
                        &&& stream_model::lookup(indices, d) == Some(#[trigger] order[p])
                        &&& completed.contains(d)
                    } by {
                    if p == 0 {
                        assert(stream_model::holds(held, id));
                    } else {
                        assert(order[p] == more[p - 1]);
                        let d: Seq<char> = choose|d: Seq<char>|
                            {
                                &&& #[trigger] stream_model::holds(part, d)
                                &&& stream_model::lookup(indices, d) == Some(more[p - 1])
                                &&& completed.contains(d)
                            };
                        assert(stream_model::holds(held, d));
                    }
                }
                assert forall|p: int, q: int| 0 <= p < q < order.len() implies #[trigger] order[p]
                    < #[trigger] order[q] by {
                    assert(order[q] == more[q - 1]);
                    if p == 0 {
                        let d: Seq<char> = choose|d: Seq<char>|
                            {
                                &&& #[trigger] stream_model::holds(part, d)
                                &&& stream_model::lookup(indices, d) == Some(more[q - 1])
                                &&& completed.contains(d)
                            };
                        assert(stream_model::holds(part, d));
                    } else {
                        assert(order[p] == more[p - 1]);
                    }
                }
                assert forall|p: int, k: int|
                    0 <= p < order.len() && 0 <= k < rest.len() && stream_model::lookup(
                        indices,
                        (#[trigger] rest[k]).0,
                    ) is Some implies #[trigger] order[p] < stream_model::lookup(
                    indices,
                    rest[k].0,
                ).unwrap() by {
                    assert(stream_model::holds(part, rest[k].0));
                    if p > 0 {
                        assert(order[p] == more[p - 1]);
                    }
                }
            } else {
                assert forall|k: int| 0 <= k < held.len() implies stream_model::holds(
                    held,
                    (#[trigger] held[k]).0,
                ) by {}
            }
        },
    }
}

/// The usage of a request is reported at its end, and once: a later end of the
/// same stream leaves the report alone.
pub proof fn law_usage_reported_once(v: stream_model::StreamView)
    ensures
        !v.usage_reported ==> {
            &&& v.finalize().0.usage_report == Some(v.usage())
            &&& v.finalize_on_failure().0.usage_report == Some(v.usage())
            &&& v.finalize_on_interrupt().0.usage_report == Some(v.usage())
        },
        v.usage_reported ==> {
            &&& v.finalize().0.usage_report == v.usage_report
            &&& v.finalize_on_failure().0.usage_report == v.usage_report
            &&& v.finalize_on_interrupt().0.usage_report == v.usage_report
        },
        v.finalize().0.usage_reported,
        v.finalize_on_failure().0.usage_reported,
        v.finalize_on_interrupt().0.usage_reported,
{
    lemma_failure_usage(v);
    lemma_failure_usage(v.with_stop_reason("max_tokens"@));
    assert(v.with_stop_reason("max_tokens"@).usage() == v.usage());
    let u = v.report_usage();
    stream_model::lemma_release_at_end(u);
    let x = if u.waiting() {
        u.release_at_end().0
    } else {
        u
    };
    stream_model::lemma_correct_truncation(x);
    lemma_final_events_usage(x.correct_truncation().0);
}

proof fn lemma_failure_usage(v: stream_model::StreamView)
    ensures
        v.finalize_on_failure().0.usage_report == v.report_usage().usage_report,
        v.finalize_on_failure().0.usage_reported,
{
    reveal(stream_model::StreamView::finish);
    let u = v.report_usage();
    stream_model::lemma_release_at_end(u);
    stream_model::lemma_initial(u);
}

proof fn lemma_final_events_usage(v: stream_model::StreamView)
    ensures
        v.final_events().0.usage_report == v.usage_report,
        v.final_events().0.usage_reported == v.usage_reported,
{
    reveal(stream_model::StreamView::finish);
    let x = v.flush_buffer().0;
    assert(x.usage_report == v.usage_report && x.usage_reported == v.usage_reported) by {
        reveal(stream_model::StreamView::flush_buffer);
        stream_model::lemma_text_delta(v, v.buffer);
        stream_model::lemma_close_thinking(v, v.buffer);
        match thinking::first_last_end_tag(v.buffer) {
            Some(e) => {
                stream_model::lemma_leave_thinking(v, e);
            },
            None => {},
        }
    }
    let y = x.fill_in_text().0;
    assert(y.usage_report == x.usage_report && y.usage_reported == x.usage_reported) by {
        reveal(stream_model::StreamView::fill_in_text);
        stream_model::lemma_text_delta(x.with_stop_reason("max_tokens"@), " "@);
    }
}

/// Whether every start and every piece of input of a tool call belongs to a call
/// that is complete.
pub open spec fn only_complete_calls(
    ev: Seq<sse::EventView>,
    indices: Seq<(Seq<char>, int)>,
    completed: Set<Seq<char>>,
) -> bool {
    forall|k: int|
        0 <= k < ev.len() && !no_tool_event(#[trigger] ev[k]) ==> of_complete_call(
            ev[k],
            indices,
            completed,
        )
}

/// Whether an event is about the block of a complete call.
pub open spec fn of_complete_call(
    e: sse::EventView,
    indices: Seq<(Seq<char>, int)>,
    completed: Set<Seq<char>>,
) -> bool {
    exists|id: Seq<char>| #[trigger]
        completed.contains(id) && stream_model::lookup(indices, id) is Some
            && stream_model::block_of(e) == stream_model::lookup(indices, id)
}

proof fn lemma_only_complete_concat(
    a: Seq<sse::EventView>,
    b: Seq<sse::EventView>,
    indices: Seq<(Seq<char>, int)>,
    completed: Set<Seq<char>>,
)
    requires
        only_complete_calls(a, indices, completed),
        only_complete_calls(b, indices, completed),
    ensures
        only_complete_calls(a + b, indices, completed),
{
    let t = a + b;
    assert forall|k: int| 0 <= k < t.len() && !no_tool_event(#[trigger] t[k]) implies
        of_complete_call(t[k], indices, completed) by {
        if k < a.len() {
            assert(t[k] == a[k]);
        } else {
            assert(t[k] == b[k - a.len()]);
        }
    }
}

/// Whether the calls that are complete stay so, in the same blocks.
pub open spec fn calls_grow(v: stream_model::StreamView, w: stream_model::StreamView) -> bool {
    &&& v.completed.subset_of(w.completed)
    &&& forall|id: Seq<char>|
        (#[trigger] stream_model::lookup(v.tool_indices, id)) is Some ==> stream_model::lookup(
            w.tool_indices,
            id,
        ) == stream_model::lookup(v.tool_indices, id)
}

proof fn lemma_only_complete_grows(
    ev: Seq<sse::EventView>,
    v: stream_model::StreamView,
    w: stream_model::StreamView,
)
    requires
        only_complete_calls(ev, v.tool_indices, v.completed),
        calls_grow(v, w),
    ensures
        only_complete_calls(ev, w.tool_indices, w.completed),
{
    assert forall|k: int| 0 <= k < ev.len() && !no_tool_event(#[trigger] ev[k]) implies
        of_complete_call(ev[k], w.tool_indices, w.completed) by {
        assert(of_complete_call(ev[k], v.tool_indices, v.completed));
        let id: Seq<char> = choose|id: Seq<char>| #[trigger]
            v.completed.contains(id) && stream_model::lookup(v.tool_indices, id) is Some
                && stream_model::block_of(ev[k]) == stream_model::lookup(v.tool_indices, id);
        assert(w.completed.contains(id));
        assert(stream_model::lookup(w.tool_indices, id) == stream_model::lookup(
            v.tool_indices,
            id,
        ));
    }
}

pub proof fn lemma_block_run_about(
    st: Option<bool>,
    index: int,
    ev: Seq<sse::EventView>,
    k: int,
)
    requires
        protocol::block_run(st, index, ev) is Some,
        0 <= k < ev.len(),
    ensures
        stream_model::block_of(ev[k]) == Some(index),
    decreases ev.len(),
{
    if k < ev.len() - 1 {
        lemma_block_run_about(st, index, ev.drop_last(), k);
    }
}

/// What is released is of complete calls.
pub proof fn lemma_release_complete(
    held: Seq<(Seq<char>, sse::EventView)>,
    indices: Seq<(Seq<char>, int)>,
    completed: Set<Seq<char>>,
)
    requires
        forall|id: Seq<char>| #[trigger]
            stream_model::holds(held, id) ==> {
                let i = stream_model::lookup(indices, id);
                &&& i is Some
                &&& protocol::block_run(None, i.unwrap(), stream_model::held_of(held, id)) is Some
            },
    ensures
        only_complete_calls(
            stream_model::release_held(held, indices, completed).1,
            indices,
            completed,
        ),
    decreases held.len(),
{
    stream_model::lemma_lowest_held(held, indices);
    match stream_model::lowest_held(held, indices) {
        None => {},
        Some((i, id)) => {
            if completed.contains(id) {
                stream_model::lemma_held_besides_shorter(held, id);
                let part = stream_model::held_besides(held, id);
                assert forall|d: Seq<char>| #[trigger] stream_model::holds(part, d) implies {
                    let j = stream_model::lookup(indices, d);
                    &&& j is Some
                    &&& protocol::block_run(None, j.unwrap(), stream_model::held_of(part, d)) is Some
                } by {
                    lemma_held_besides(held, id, d);
                    assert(stream_model::holds(held, d));
                }
                lemma_release_complete(part, indices, completed);
                let first = stream_model::held_of(held, id);
                assert(only_complete_calls(first, indices, completed)) by {
                    assert(stream_model::holds(held, id));
                    assert forall|k: int|
                        0 <= k < first.len() && !no_tool_event(#[trigger] first[k]) implies
                        of_complete_call(first[k], indices, completed) by {
                        lemma_block_run_about(None, i, first, k);
                        assert(completed.contains(id));
                    }
                }
                lemma_only_complete_concat(
                    first,
                    stream_model::release_held(part, indices, completed).1,
                    indices,
                    completed,
                );
            }
        },
    }
}

/// In a delayed stream, an upstream event sends tool events of complete calls alone.
proof fn lemma_event_complete(
    v: stream_model::StreamView,
    a: protocol::Client,
    e: events::KiroEventView,
)
    requires
        live(v, a),
        v.delayed,
    ensures
        ({
            let (w, ev) = v.kiro_event(e);
            &&& only_complete_calls(ev, w.tool_indices, w.completed)
            &&& calls_grow(v, w)
        }),
{
    let (w, ev) = v.kiro_event(e);
    match e {
        events::KiroEventView::AssistantResponse { content } => {
            lemma_answer_fine(v, content);
            lemma_answer_keeps_books(v, content);
        },
        events::KiroEventView::ToolUse(t) => {
            lemma_tool_complete(v, a, t);
        },
        _ => {
            stream_model::lemma_other_event(v, e);
        },
    }
}

proof fn lemma_tool_complete(
    v: stream_model::StreamView,
    a: protocol::Client,
    e: events::ToolUseView,
)
    requires
        live(v, a),
        v.delayed,
    ensures
        ({
            let (w, ev) = v.tool_use(e);
            &&& only_complete_calls(ev, w.tool_indices, w.completed)
            &&& calls_grow(v, w)
        }),
{
    reveal(stream_model::StreamView::tool_use);
    lemma_tool_events_ok(v, e);
    let (w, all, index) = v.tool_events(e);
    lemma_tools_after(v, w, index, e);
    lemma_tool_client(v, w, a, all, index, e);
    let passed = stream_model::not_about(all, index);
    let held = v.buffered + stream_model::tagged(e.id, stream_model::about(all, index));
    lemma_not_about(all, index);
    assert(only_complete_calls(passed, w.tool_indices, w.completed)) by {
        assert forall|k: int| 0 <= k < passed.len() implies no_tool_event(#[trigger] passed[k]) by {
            let i: int = choose|i: int|
                0 <= i < all.len() && #[trigger] passed[k] == #[trigger] all[i]
                    && stream_model::block_of(all[i]) != Some(index);
            assert(no_tool_event(all[i]));
        }
    }
    let x = stream_model::StreamView { buffered: held, ..w };
    assert(live(x, a.run(passed).unwrap()));
    lemma_release_complete(held, w.tool_indices, w.completed);
    lemma_only_complete_concat(
        passed,
        stream_model::release_held(held, w.tool_indices, w.completed).1,
        w.tool_indices,
        w.completed,
    );
    assert(calls_grow(v, w)) by {
        assert forall|id: Seq<char>|
            (#[trigger] stream_model::lookup(v.tool_indices, id)) is Some implies
            stream_model::lookup(w.tool_indices, id) == stream_model::lookup(
            v.tool_indices,
            id,
        ) by {
            assert(id != e.id || stream_model::lookup(v.tool_indices, e.id) is Some);
        }
    }
}

pub proof fn lemma_initial_no_tools(v: stream_model::StreamView)
    ensures
        forall|k: int|
            0 <= k < v.initial().1.len() ==> no_tool_event(#[trigger] v.initial().1[k]),
{
    reveal(stream_model::StreamView::initial);
    reveal(stream_model::StreamView::open_block);
    reveal(state_manager::ManagerView::start_block);
    protocol::lemma_kinds();
}

/// All that a delayed stream has sent is of complete calls; what is kept back at
/// its start is of no call.
proof fn lemma_perform_complete(v: stream_model::StreamView, actions: Seq<Action>)
    requires
        fresh(v),
        !v.initialized,
        !v.failed,
        v.delayed,
    ensures
        ({
            let (w, sent) = perform(v, actions);
            &&& only_complete_calls(sent, w.tool_indices, w.completed)
            &&& forall|k: int| 0 <= k < w.pending.len() ==> no_tool_event(#[trigger] w.pending[k])
        }),
    decreases actions.len(),
{
    if actions.len() > 0 {
        let rest = actions.drop_last();
        lemma_perform_complete(v, rest);
        lemma_perform_follows(v, rest);
        let (w, sent) = perform(v, rest);
        let a = protocol::new_client().run(sent).unwrap();
        stream_model::lemma_initial(w);
        lemma_initial_no_tools(w);
        match actions.last() {
            Action::Event(e) => {
                let (x, ev) = w.take_events(e);
                if w.failed {
                    assert(sent + ev =~= sent);
                } else {
                    let y = if w.waiting() {
                        w.prepared()
                    } else {
                        w
                    };
                    let b = if w.waiting() {
                        lemma_prepared_live(w, a);
                        protocol::new_client().run(y.pending).unwrap()
                    } else {
                        a
                    };
                    assert(live(y, b));
                    lemma_event_complete(y, b, e);
                    stream_model::lemma_kiro_event(y, e);
                    let z = y.kiro_event(e).0;
                    let kept = stream_model::with_input_tokens(z.pending, z.effective_input());
                    assert(only_complete_calls(kept, z.tool_indices, z.completed)) by {
                        assert forall|k: int| 0 <= k < kept.len() implies no_tool_event(
                            #[trigger] kept[k],
                        ) by {
                            assert(no_tool_event(z.pending[k]));
                        }
                    }
                    lemma_only_complete_concat(
                        kept,
                        y.kiro_event(e).1,
                        z.tool_indices,
                        z.completed,
                    );
                    assert(only_complete_calls(ev, x.tool_indices, x.completed));
                    assert(calls_grow(w, x));
                    lemma_only_complete_grows(sent, w, x);
                    lemma_only_complete_concat(sent, ev, x.tool_indices, x.completed);
                }
            },
            Action::Timeout => {
                let (x, ev) = w.force_release();
                assert(only_complete_calls(ev, x.tool_indices, x.completed)) by {
                    let y = w.prepared();
                    assert forall|k: int| 0 <= k < ev.len() implies no_tool_event(
                        #[trigger] ev[k],
                    ) by {
                        assert(no_tool_event(y.pending[k]));
                    }
                }
                assert(calls_grow(w, x));
                lemma_only_complete_grows(sent, w, x);
                lemma_only_complete_concat(sent, ev, x.tool_indices, x.completed);
            },
        }
    }
}

/// Whether no event is the start or a piece of the input of a tool call.
pub open spec fn no_tool_events(ev: Seq<sse::EventView>) -> bool {
    forall|k: int| 0 <= k < ev.len() ==> no_tool_event(#[trigger] ev[k])
}

proof fn lemma_no_tools_concat(a: Seq<sse::EventView>, b: Seq<sse::EventView>)
    requires
        no_tool_events(a),
        no_tool_events(b),
    ensures
        no_tool_events(a + b),
{
    let t = a + b;
    assert forall|k: int| 0 <= k < t.len() implies no_tool_event(#[trigger] t[k]) by {
        if k < a.len() {
            assert(t[k] == a[k]);
        } else {
            assert(t[k] == b[k - a.len()]);
        }
    }
}

proof fn lemma_text_no_tools(v: stream_model::StreamView, t: Seq<char>)
    ensures
        no_tool_events(v.text_delta(t).1),
{
    reveal(stream_model::StreamView::text_delta);
    reveal(stream_model::StreamView::open_block);
    reveal(state_manager::ManagerView::start_block);
    reveal(state_manager::ManagerView::delta);
    protocol::lemma_kinds();
}

proof fn lemma_close_no_tools(v: stream_model::StreamView, content: Seq<char>)
    ensures
        no_tool_events(v.close_thinking_if_any(content).1),
{
    reveal(stream_model::StreamView::close_thinking);
    reveal(state_manager::ManagerView::stop_block);
}

proof fn lemma_leave_no_tools(v: stream_model::StreamView, e: int)
    ensures
        no_tool_events(v.leave_thinking_at(e).1),
{
    let rest = text::trim_start(v.buffer.skip(e + 11));
    let x = stream_model::StreamView { in_thinking: false, thinking_extracted: true, ..v };
    lemma_close_no_tools(x, v.buffer.take(e));
    let (y, ev) = x.close_thinking_if_any(v.buffer.take(e));
    let z = stream_model::StreamView { buffer: Seq::empty(), ..y };
    lemma_text_no_tools(z, rest);
    lemma_no_tools_concat(ev, z.text_delta(rest).1);
}

proof fn lemma_finish_no_tools(v: stream_model::StreamView, input: int, output: int)
    ensures
        no_tool_events(v.finish(input, output).1),
{
    reveal(stream_model::StreamView::finish);
    reveal(state_manager::ManagerView::finish);
    let p = state_manager::open_blocks(false);
    let stops = state_manager::stops_for(v.manager.blocks, p);
    assert forall|k: int| 0 <= k < stops.len() implies no_tool_event(#[trigger] stops[k]) by {
        lemma_stops_content(v.manager.blocks, p, k);
    }
}

/// The end of a stream sends no start and no input of a tool call, if it holds no
/// such event back from its beginning.
pub proof fn lemma_end_no_tools(v: stream_model::StreamView)
    requires
        no_tool_events(v.pending),
    ensures
        no_tool_events(v.finalize().1),
        no_tool_events(v.finalize_on_failure().1),
{
    let u = v.report_usage();
    lemma_initial_no_tools(u);
    stream_model::lemma_initial(u);
    let first = u.release_at_end().1;
    assert(no_tool_events(first)) by {
        reveal(stream_model::StreamView::release_at_end);
        let x = if u.initialized {
            u
        } else {
            stream_model::StreamView { initialized: true, ..u.initial().0 }
        };
        let kept = x.release_pending().1;
        assert forall|k: int| 0 <= k < kept.len() implies no_tool_event(#[trigger] kept[k]) by {
            assert(no_tool_event(v.pending[k]));
        }
        if !u.initialized {
            lemma_no_tools_concat(u.initial().1, kept);
        } else {
            assert(Seq::<sse::EventView>::empty() + kept =~= kept);
        }
    }
    lemma_failure_no_tools(v);
    if !v.failed {
        let x = if u.waiting() {
            u.release_at_end().0
        } else {
            u
        };
        let before = if u.waiting() {
            first
        } else {
            Seq::empty()
        };
        let (y, correction) = x.correct_truncation();
        if x.buffered.len() > 0 {
            lemma_text_no_tools(
                stream_model::StreamView {
                    manager: stream_model::discard_held(x.manager, x.buffered, x.tool_indices),
                    buffered: Seq::empty(),
                    ..x
                },
                stream_model::correction_text(x.chunk_lines),
            );
        }
        lemma_final_no_tools(y);
        lemma_no_tools_concat(before, correction);
        lemma_no_tools_concat(before + correction, y.final_events().1);
    }
}

pub proof fn lemma_failure_no_tools(v: stream_model::StreamView)
    requires
        no_tool_events(v.pending),
    ensures
        no_tool_events(v.finalize_on_failure().1),
{
    let u = v.report_usage();
    lemma_initial_no_tools(u);
    stream_model::lemma_initial(u);
    let (x, first) = if u.waiting() {
        u.release_at_end()
    } else if !u.manager.message_started {
        let (y, ev) = u.initial();
        (stream_model::StreamView { initialized: true, ..y }, ev)
    } else {
        (u, Seq::empty())
    };
    assert(no_tool_events(first)) by {
        reveal(stream_model::StreamView::release_at_end);
        let y = if u.initialized {
            u
        } else {
            stream_model::StreamView { initialized: true, ..u.initial().0 }
        };
        let kept = y.release_pending().1;
        assert forall|k: int| 0 <= k < kept.len() implies no_tool_event(#[trigger] kept[k]) by {
            assert(no_tool_event(v.pending[k]));
        }
        if !u.initialized {
            lemma_no_tools_concat(u.initial().1, kept);
        } else {
            assert(Seq::<sse::EventView>::empty() + kept =~= kept);
        }
    }
    let w = stream_model::StreamView {
        manager: stream_model::discard_held(x.manager, x.buffered, x.tool_indices),
        buffered: Seq::empty(),
        ..x
    };
    let output = if w.effective_output() < 1 {
        1
    } else {
        w.effective_output()
    };
    lemma_finish_no_tools(w, w.effective_input(), output);
    lemma_no_tools_concat(first, w.finish(w.effective_input(), output).1);
}

proof fn lemma_final_no_tools(v: stream_model::StreamView)
    ensures
        no_tool_events(v.final_events().1),
{
    let (x, ev1) = v.flush_buffer();
    assert(no_tool_events(ev1)) by {
        reveal(stream_model::StreamView::flush_buffer);
        lemma_text_no_tools(v, v.buffer);
        lemma_close_no_tools(v, v.buffer);
        match thinking::first_last_end_tag(v.buffer) {
            Some(e) => {
                lemma_leave_no_tools(v, e);
            },
            None => {},
        }
    }
    let (y, ev2) = x.fill_in_text();
    assert(no_tool_events(ev2)) by {
        reveal(stream_model::StreamView::fill_in_text);
        lemma_text_no_tools(x.with_stop_reason("max_tokens"@), " "@);
    }
    lemma_finish_no_tools(y, y.effective_input(), y.effective_output());
    lemma_no_tools_concat(ev1, ev2);
    lemma_no_tools_concat(ev1 + ev2, y.finish(y.effective_input(), y.effective_output()).1);
}

/// A tool call that is cut off leaves no trace: in all that a delayed stream sends,
/// each start of a tool call and each piece of its input belongs to a call whose
/// last piece has come.
pub proof fn law_no_partial_tool_call(
    message_id: Seq<char>,
    model: Seq<char>,
    input_tokens: int,
    thinking_enabled: bool,
    tool_names: Seq<(Seq<char>, Seq<char>)>,
    actions: Seq<Action>,
    ending: Ending,
)
    ensures
        ({
            let v = stream::new_stream(
                message_id,
                model,
                input_tokens,
                thinking_enabled,
                tool_names,
                true,
            );
            let w = perform(v, actions).0;
            only_complete_calls(whole_trace(v, actions, ending), w.tool_indices, w.completed)
        }),
{
    let v = stream::new_stream(
        message_id,
        model,
        input_tokens,
        thinking_enabled,
        tool_names,
        true,
    );
    lemma_perform_complete(v, actions);
    let (w, sent) = perform(v, actions);
    lemma_end_no_tools(w);
    lemma_failure_no_tools(w.with_stop_reason("max_tokens"@));
    let last = match ending {
        Ending::Complete => w.finalize().1,
        Ending::Failure => w.finalize_on_failure().1,
        Ending::Interrupt => w.finalize_on_interrupt().1,
    };
    assert(no_tool_events(last));
    lemma_only_complete_concat(sent, last, w.tool_indices, w.completed);
}

} // verus!
