//! What is added to a block of a response is what is for a block of its type.

use vstd::prelude::*;
use crate::anthropic::protocol;
use crate::anthropic::sse;
use crate::anthropic::state_manager;
use crate::anthropic::stream;
use crate::anthropic::stream_laws;
use crate::anthropic::stream_laws::{fits, is_of_kind, kind_of_block, kind_of_delta, kinds_kept, typed, Action};
use crate::anthropic::stream_model;
use crate::anthropic::stream_model::StreamView;
use crate::kiro::events::KiroEventView;

verus! {

/// Whether held-back events fit their blocks.
spec fn held_typed(
    held: Seq<(Seq<char>, sse::EventView)>,
    m: state_manager::ManagerView,
) -> bool {
    forall|k: int| 0 <= k < held.len() ==> fits((#[trigger] held[k]).1, m)
}

proof fn lemma_held_later(
    held: Seq<(Seq<char>, sse::EventView)>,
    m: state_manager::ManagerView,
    m2: state_manager::ManagerView,
)
    requires
        held_typed(held, m),
        kinds_kept(m, m2),
    ensures
        held_typed(held, m2),
{
    assert forall|k: int| 0 <= k < held.len() implies fits((#[trigger] held[k]).1, m2) by {
        assert(fits(held[k].1, m));
        if let Some(j) = stream_model::block_of(held[k].1) {
            if m.block(j) is Some {
                assert(is_of_kind(m2, j, m.block(j).unwrap().kind));
            }
        }
    }
}

proof fn lemma_release_typed(
    held: Seq<(Seq<char>, sse::EventView)>,
    indices: Seq<(Seq<char>, int)>,
    completed: Set<Seq<char>>,
    m: state_manager::ManagerView,
)
    requires
        held_typed(held, m),
    ensures
        held_typed(stream_model::release_held(held, indices, completed).0, m),
        typed(stream_model::release_held(held, indices, completed).1, m),
    decreases held.len(),
{
    if let Some((_, id)) = stream_model::lowest_held(held, indices) {
        if completed.contains(id) {
            stream_model::lemma_lowest_held(held, indices);
            stream_model::lemma_held_besides_shorter(held, id);
            lemma_held_parts_typed(held, id, m);
            lemma_release_typed(stream_model::held_besides(held, id), indices, completed, m);
            stream_laws::lemma_typed_concat(
                stream_model::held_of(held, id),
                stream_model::release_held(
                    stream_model::held_besides(held, id),
                    indices,
                    completed,
                ).1,
                m,
            );
        }
    }
}

proof fn lemma_held_parts_typed(
    held: Seq<(Seq<char>, sse::EventView)>,
    id: Seq<char>,
    m: state_manager::ManagerView,
)
    requires
        held_typed(held, m),
    ensures
        typed(stream_model::held_of(held, id), m),
        held_typed(stream_model::held_besides(held, id), m),
    decreases held.len(),
{
    if held.len() > 0 {
        let rest = held.drop_last();
        assert forall|k: int| 0 <= k < rest.len() implies fits((#[trigger] rest[k]).1, m) by {
            assert(held[k] == rest[k]);
        }
        lemma_held_parts_typed(rest, id, m);
        assert(fits(held[held.len() - 1].1, m));
    }
}

proof fn lemma_parts_typed(ev: Seq<sse::EventView>, index: int, m: state_manager::ManagerView)
    requires
        typed(ev, m),
    ensures
        typed(stream_model::about(ev, index), m),
        typed(stream_model::not_about(ev, index), m),
    decreases ev.len(),
{
    if ev.len() > 0 {
        let rest = ev.drop_last();
        assert forall|k: int| 0 <= k < rest.len() implies fits(#[trigger] rest[k], m) by {
            assert(ev[k] == rest[k]);
        }
        lemma_parts_typed(rest, index, m);
        assert(fits(ev[ev.len() - 1], m));
    }
}

/// An event of the upstream service.
proof fn lemma_event_typed(v: StreamView, a: protocol::Client, e: KiroEventView)
    requires
        stream_laws::live(v, a),
        held_typed(v.buffered, v.manager),
    ensures
        ({
            let (w, out) = v.kiro_event(e);
            &&& kinds_kept(v.manager, w.manager)
            &&& held_typed(w.buffered, w.manager)
            &&& typed(out, w.manager)
        }),
{
    let (w, out) = v.kiro_event(e);
    match e {
        KiroEventView::AssistantResponse { content } => {
            stream_laws::lemma_answer_fine(v, content);
            stream_laws::lemma_answer_keeps_books(v, content);
            stream_laws::lemma_grows_kinds(v.manager, w.manager);
            lemma_held_later(v.buffered, v.manager, w.manager);
        },
        KiroEventView::ToolUse(t) => {
            reveal(StreamView::tool_use);
            stream_laws::lemma_tool_events_ok(v, t);
            let (x, all, index) = v.tool_events(t);
            let m = x.manager;
            lemma_held_later(v.buffered, v.manager, m);
            lemma_parts_typed(all, index, m);
            let about = stream_model::about(all, index);
            let held = x.buffered + stream_model::tagged(t.id, about);
            assert(held_typed(held, m)) by {
                assert forall|k: int| 0 <= k < held.len() implies fits(
                    (#[trigger] held[k]).1,
                    m,
                ) by {
                    if k < x.buffered.len() {
                        assert(held[k] == x.buffered[k]);
                    } else {
                        assert(held[k].1 == about[k - x.buffered.len()]);
                    }
                }
            }
            lemma_release_typed(held, x.tool_indices, x.completed, m);
            stream_laws::lemma_typed_concat(
                stream_model::not_about(all, index),
                stream_model::release_held(held, x.tool_indices, x.completed).1,
                m,
            );
        },
        _ => {
            lemma_same_blocks(v.manager, w.manager);
            lemma_held_later(v.buffered, v.manager, w.manager);
        },
    }
}

proof fn lemma_same_blocks(m: state_manager::ManagerView, m2: state_manager::ManagerView)
    requires
        m2.blocks == m.blocks,
    ensures
        kinds_kept(m, m2),
{
    assert forall|j: int| (#[trigger] m.block(j)) is Some implies is_of_kind(
        m2,
        j,
        m.block(j).unwrap().kind,
    ) by {
        assert(m2.block(j) == m.block(j));
    }
}

/// The first events.
proof fn lemma_initial_typed(v: StreamView)
    requires
        stream_laws::fresh(v),
    ensures
        typed(v.initial().1, v.initial().0.manager),
{
    reveal(StreamView::initial);
    let x = StreamView {
        manager: state_manager::ManagerView { message_started: true, ..v.manager },
        ..v
    };
    let m = x.manager;
    assert forall|j: int| (#[trigger] m.block(j)) is None by {
        protocol::lemma_find_block(m.blocks, j);
    }
    if !v.thinking_enabled {
        let c = protocol::full_client(m);
        assert(stream_laws::synced(m));
        stream_laws::lemma_open_fine(x, "text"@, sse::ContentBlockView::Text);
        let (w, opened) = x.open_block("text"@, sse::ContentBlockView::Text);
        let start = seq![state_manager::message_start_event(v.message_start_data())];
        assert(typed(start, w.manager));
        stream_laws::lemma_typed_concat(start, opened, w.manager);
    }
}

proof fn lemma_with_tokens_typed(
    ev: Seq<sse::EventView>,
    n: int,
    m: state_manager::ManagerView,
)
    requires
        typed(ev, m),
    ensures
        typed(stream_model::with_input_tokens(ev, n), m),
{
    let t = stream_model::with_input_tokens(ev, n);
    assert forall|k: int| 0 <= k < t.len() implies fits(#[trigger] t[k], m) by {
        assert(fits(ev[k], m));
    }
}

#[verifier::rlimit(60)]
#[verifier::spinoff_prover]
proof fn lemma_perform_typed(v: StreamView, actions: Seq<Action>)
    requires
        stream_laws::fresh(v),
        !v.initialized,
        !v.failed,
    ensures
        ({
            let (w, sent) = stream_laws::perform(v, actions);
            &&& typed(sent, w.manager)
            &&& typed(w.pending, w.manager)
            &&& held_typed(w.buffered, w.manager)
        }),
    decreases actions.len(),
{
    let none = Seq::<sse::EventView>::empty();
    if actions.len() > 0 {
        let rest = actions.drop_last();
        lemma_perform_typed(v, rest);
        stream_laws::lemma_perform_follows(v, rest);
        stream_laws::lemma_nothing_sent(v, rest);
        let (w, sent) = stream_laws::perform(v, rest);
        let a = protocol::new_client().run(sent).unwrap();
        if !w.initialized {
            lemma_initial_typed(w);
            stream_model::lemma_initial(w);
        }
        match actions.last() {
            Action::Event(e) => {
                if w.failed {
                    assert(sent + none =~= sent);
                } else if w.waiting() {
                    stream_laws::lemma_prepared_live(w, a);
                    let y = w.prepared();
                    let b = protocol::new_client().run(y.pending).unwrap();
                    lemma_event_typed(y, b, e);
                    stream_model::lemma_kiro_event(y, e);
                    let (z, out) = y.kiro_event(e);
                    stream_laws::lemma_typed_later(y.pending, y.manager, z.manager);
                    let kept = stream_model::with_input_tokens(z.pending, z.effective_input());
                    lemma_with_tokens_typed(z.pending, z.effective_input(), z.manager);
                    stream_laws::lemma_typed_concat(kept, out, z.manager);
                    assert(sent =~= none);
                    assert(sent + (kept + out) =~= kept + out);
                    assert(sent + none =~= none);
                } else if w.initialized {
                    stream_model::lemma_kiro_event(w, e);
                    lemma_event_typed(w, a, e);
                    let (z, out) = w.kiro_event(e);
                    stream_laws::lemma_typed_later(sent, w.manager, z.manager);
                    stream_laws::lemma_typed_concat(sent, out, z.manager);
                } else {
                    stream_laws::lemma_initial_live(w);
                    let (x, first) = w.initial();
                    let y = StreamView { initialized: true, ..x };
                    let c = a.run(first).unwrap();
                    stream_laws::lemma_live_fields(x, y, c);
                    lemma_event_typed(y, c, e);
                    stream_model::lemma_kiro_event(y, e);
                    let (z, out) = y.kiro_event(e);
                    assert(sent =~= none);
                    stream_laws::lemma_typed_later(first, y.manager, z.manager);
                    stream_laws::lemma_typed_concat(first, out, z.manager);
                    assert(sent + (first + out) =~= first + out);
                }
            },
            Action::Timeout => {
                if w.waiting() {
                    let y = w.prepared();
                    let kept = stream_model::with_input_tokens(y.pending, y.effective_input());
                    lemma_with_tokens_typed(y.pending, y.effective_input(), y.manager);
                    assert(sent =~= none);
                    assert(sent + kept =~= kept);
                } else {
                    assert(sent + none =~= sent);
                }
            },
        }
    }
}

/// A client that follows events got the start of each block that it knows.
proof fn lemma_started(ev: Seq<sse::EventView>, index: int)
    requires
        protocol::new_client().run(ev) is Some,
        protocol::new_client().run(ev).unwrap().blocks.contains_key(index),
    ensures
        exists|j: int| 0 <= j < ev.len() && starts(#[trigger] ev[j], index),
    decreases ev.len(),
{
    if ev.len() > 0 {
        let rest = ev.drop_last();
        let last = ev.len() - 1;
        if starts(ev[last], index) {
        } else {
            lemma_started(rest, index);
            let j = choose|j: int| 0 <= j < rest.len() && starts(#[trigger] rest[j], index);
            assert(starts(ev[j], index));
        }
    }
}

/// Whether an event starts a block.
pub open spec fn starts(e: sse::EventView, i: int) -> bool {
    e.data matches sse::DataView::BlockStart { index, .. } && index == i
}

/// Every addition that a stream sends goes to a block that was started before, and of the type
/// that it is for: text to a text block, thinking and its signature to a thinking block, a
/// piece of input to the block of a tool call.
pub proof fn law_additions_fit_their_blocks(
    message_id: Seq<char>,
    model: Seq<char>,
    input_tokens: int,
    thinking_enabled: bool,
    tool_names: Seq<(Seq<char>, Seq<char>)>,
    delayed: bool,
    actions: Seq<Action>,
    k: int,
)
    ensures
        ({
            let v = stream::new_stream(
                message_id,
                model,
                input_tokens,
                thinking_enabled,
                tool_names,
                delayed,
            );
            let sent = stream_laws::perform(v, actions).1;
            0 <= k < sent.len() ==> (sent[k].data matches sse::DataView::BlockDelta { index, delta }
                ==> exists|j: int|
                {
                    &&& 0 <= j < k
                    &&& starts(#[trigger] sent[j], index)
                    &&& kind_of_block(sent[j].data->block) == kind_of_delta(delta)
                })
        }),
{
    let v = stream::new_stream(
        message_id,
        model,
        input_tokens,
        thinking_enabled,
        tool_names,
        delayed,
    );
    let (w, sent) = stream_laws::perform(v, actions);
    if 0 <= k < sent.len() && sent[k].data is BlockDelta {
        lemma_perform_typed(v, actions);
        stream_laws::lemma_perform_follows(v, actions);
        let index = sent[k].data->BlockDelta_index;
        let head = sent.take(k + 1);
        let tail = sent.skip(k + 1);
        assert(sent =~= head + tail);
        protocol::lemma_run_concat(protocol::new_client(), head, tail);
        assert(head.last() == sent[k]);
        let before = sent.take(k);
        assert(head.drop_last() =~= before);
        lemma_started(before, index);
        let j = choose|j: int| 0 <= j < before.len() && starts(#[trigger] before[j], index);
        assert(before[j] == sent[j]);
        assert(starts(sent[j], index));
        assert(fits(sent[j], w.manager));
        assert(fits(sent[k], w.manager));
    }
}

} // verus!
