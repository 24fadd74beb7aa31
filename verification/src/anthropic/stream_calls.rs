//! The tool calls of a response stream: what the client gets of a call is what the upstream
//! service sent of it.

use vstd::prelude::*;
use crate::anthropic::protocol;
use crate::anthropic::sse;
use crate::anthropic::state_manager;
use crate::anthropic::stream;
use crate::anthropic::stream_counts;
use crate::anthropic::stream_counts::heard;
use crate::anthropic::stream_laws;
use crate::anthropic::stream_laws::{Action, Ending};
use crate::anthropic::stream_model;
use crate::anthropic::stream_model::StreamView;
use crate::anthropic::upstream;
use crate::kiro::events;
use crate::kiro::events::KiroEventView;
use crate::text;

verus! {

/// The input that events send to a block, joined.
pub open spec fn json_at(ev: Seq<sse::EventView>, i: int) -> Seq<char>
    decreases ev.len(),
{
    if ev.len() == 0 {
        Seq::empty()
    } else {
        json_at(ev.drop_last(), i) + match ev.last().data {
            sse::DataView::BlockDelta { index, delta: sse::DeltaView::InputJson(s) } => if index
                == i {
                s
            } else {
                Seq::empty()
            },
            _ => Seq::empty(),
        }
    }
}

/// The tool calls that events start in a block: their ids and the names of the tools.
pub open spec fn starts_at(ev: Seq<sse::EventView>, i: int) -> Seq<(Seq<char>, Seq<char>)>
    decreases ev.len(),
{
    if ev.len() == 0 {
        Seq::empty()
    } else {
        match ev.last().data {
            sse::DataView::BlockStart {
                index,
                block: sse::ContentBlockView::ToolUse { id, name },
            } => if index == i {
                starts_at(ev.drop_last(), i).push((id, name))
            } else {
                starts_at(ev.drop_last(), i)
            },
            _ => starts_at(ev.drop_last(), i),
        }
    }
}

/// Whether events send nothing of a tool call to a block.
pub open spec fn silent_at(ev: Seq<sse::EventView>, i: int) -> bool {
    json_at(ev, i) == Seq::<char>::empty() && starts_at(ev, i) == Seq::<
        (Seq<char>, Seq<char>),
    >::empty()
}

pub proof fn lemma_at_concat(a: Seq<sse::EventView>, b: Seq<sse::EventView>, i: int)
    ensures
        json_at(a + b, i) == json_at(a, i) + json_at(b, i),
        starts_at(a + b, i) == starts_at(a, i) + starts_at(b, i),
    decreases b.len(),
{
    if b.len() == 0 {
        assert(a + b =~= a);
        assert(json_at(a, i) + json_at(b, i) =~= json_at(a, i));
        assert(starts_at(a, i) + starts_at(b, i) =~= starts_at(a, i));
    } else {
        lemma_at_concat(a, b.drop_last(), i);
        assert((a + b).drop_last() =~= a + b.drop_last());
        assert((a + b).last() == b.last());
        assert(json_at(a + b, i) =~= json_at(a, i) + json_at(b, i));
        assert(starts_at(a + b, i) =~= starts_at(a, i) + starts_at(b, i));
    }
}

/// Events that are of no call, or about other blocks, send nothing of a call to a block.
pub proof fn lemma_silent(ev: Seq<sse::EventView>, i: int)
    requires
        forall|k: int|
            0 <= k < ev.len() ==> stream_laws::no_tool_event(#[trigger] ev[k])
                || stream_model::block_of(ev[k]) != Some(i),
    ensures
        silent_at(ev, i),
    decreases ev.len(),
{
    if ev.len() > 0 {
        let rest = ev.drop_last();
        assert forall|k: int| 0 <= k < rest.len() implies stream_laws::no_tool_event(
            #[trigger] rest[k],
        ) || stream_model::block_of(rest[k]) != Some(i) by {
            assert(rest[k] == ev[k]);
        }
        lemma_silent(rest, i);
        let e = ev[ev.len() - 1];
        assert(stream_laws::no_tool_event(e) || stream_model::block_of(e) != Some(i));
        assert(Seq::<char>::empty() + Seq::<char>::empty() =~= Seq::<char>::empty());
    }
}

pub proof fn lemma_add_silent(a: Seq<sse::EventView>, b: Seq<sse::EventView>, i: int)
    requires
        silent_at(b, i),
    ensures
        json_at(a + b, i) == json_at(a, i),
        starts_at(a + b, i) == starts_at(a, i),
{
    lemma_at_concat(a, b, i);
    assert(json_at(a, i) + json_at(b, i) =~= json_at(a, i));
    assert(starts_at(a, i) + starts_at(b, i) =~= starts_at(a, i));
}

/// Taking the events about a block out of others keeps what they send.
proof fn lemma_about(ev: Seq<sse::EventView>, index: int, i: int)
    ensures
        json_at(stream_model::about(ev, index), index) == json_at(ev, index),
        starts_at(stream_model::about(ev, index), index) == starts_at(ev, index),
        i != index ==> silent_at(stream_model::about(ev, index), i),
        i != index ==> json_at(stream_model::not_about(ev, index), i) == json_at(ev, i),
        i != index ==> starts_at(stream_model::not_about(ev, index), i) == starts_at(ev, i),
        silent_at(stream_model::not_about(ev, index), index),
    decreases ev.len(),
{
    if ev.len() > 0 {
        lemma_about(ev.drop_last(), index, i);
        let a = stream_model::about(ev.drop_last(), index);
        let n = stream_model::not_about(ev.drop_last(), index);
        assert(a.push(ev.last()).drop_last() =~= a);
        assert(n.push(ev.last()).drop_last() =~= n);
        let none = Seq::<char>::empty();
        assert(none + none =~= none);
        assert(json_at(ev.drop_last(), index) + none =~= json_at(ev.drop_last(), index));
        assert(json_at(ev.drop_last(), i) + none =~= json_at(ev.drop_last(), i));
    }
}

/// What a piece of a call sends to its block, and that it sends nothing of a call elsewhere.
proof fn lemma_fed(v: StreamView, index: int, e: events::ToolUseView)
    requires
        stream_laws::synced(v.manager),
        stream_laws::thinking_ok(v),
        v.manager.block(index) is None ==> 0 <= index < v.manager.next_block_index,
        v.manager.block(index) is Some ==> stream_laws::is_tool_block(v.manager, index),
    ensures
        ({
            let (w, fed) = v.feed_tool(index, e);
            let open = v.manager.block(index) is None || !v.manager.block(index).unwrap().stopped;
            &&& json_at(fed, index) == if open {
                e.input
            } else {
                Seq::empty()
            }
            &&& starts_at(fed, index) == if v.manager.block(index) is None {
                seq![(e.id, v.tool_name(e.name))]
            } else {
                Seq::empty()
            }
            &&& forall|j: int| j != index ==> #[trigger] silent_at(fed, j)
            &&& w.manager.block(index) is Some
            &&& w.manager.block(index).unwrap().stopped == (e.stop || !open)
        }),
{
    reveal(StreamView::feed_tool);
    protocol::lemma_kinds();
    let m = v.manager;
    let c = protocol::full_client(m);
    let block = sse::ContentBlockView::ToolUse { id: e.id, name: v.tool_name(e.name) };
    let data = sse::DataView::BlockStart { index, block };
    let (m1, starts) = m.start_block(index, "tool_use"@, data);
    let open = m.block(index) is None || !m.block(index).unwrap().stopped;
    if m.block(index) is None {
        protocol::lemma_start_in_step(m, c, index, "tool_use"@, block);
    } else {
        protocol::lemma_restart_in_step(m, c, index, data);
        assert(m1.block(index) == m.block(index));
    }
    let c1 = c.run(starts).unwrap();
    assert(m1.block(index).unwrap().is_open() == open) by {
        if m.block(index) is Some {
            assert(m.block(index).unwrap().started);
        }
    }
    let delta = sse::DeltaView::InputJson(e.input);
    let ddata = sse::DataView::BlockDelta { index, delta };
    let deltas = if e.input.len() == 0 {
        Seq::empty()
    } else {
        m1.delta(index, ddata)
    };
    protocol::lemma_stop_in_step(m1, c1, index);
    let (m2, stops) = if e.stop {
        m1.stop_block(index)
    } else {
        (m1, Seq::empty())
    };
    let p = state_manager::open_blocks(true);
    let texts = state_manager::stops_for(m.blocks, p);
    let first = if m.block(index) is None {
        seq![state_manager::start_event(data)]
    } else {
        Seq::empty()
    };
    assert(starts =~= texts + first) by {
        reveal(state_manager::ManagerView::start_block);
        lemma_start_or_not(m, index);
    }
    assert(stops.len() <= 1 && (stops.len() == 1 ==> stops[0] == state_manager::stop_event(
        index,
    ))) by {
        reveal(state_manager::ManagerView::stop_block);
    }
    let added = if open && e.input.len() > 0 {
        seq![state_manager::delta_event(ddata)]
    } else {
        Seq::empty()
    };
    assert(deltas =~= added) by {
        reveal(state_manager::ManagerView::delta);
    }
    let fed = starts + deltas + stops;
    assert forall|i: int| true implies {
        &&& #[trigger] json_at(fed, i) == if i == index && open {
            e.input
        } else {
            Seq::empty()
        }
        &&& starts_at(fed, i) == if i == index && m.block(index) is None {
            seq![(e.id, v.tool_name(e.name))]
        } else {
            Seq::empty()
        }
    } by {
        reveal_with_fuel(json_at, 2);
        reveal_with_fuel(starts_at, 2);
        assert forall|k: int| 0 <= k < texts.len() implies stream_laws::no_tool_event(
            #[trigger] texts[k],
        ) by {
            stream_laws::lemma_stops_content(m.blocks, p, k);
        }
        lemma_silent(texts, i);
        lemma_silent(stops, i);
        lemma_at_concat(texts, first, i);
        lemma_at_concat(texts + first, added, i);
        lemma_add_silent(texts + first + added, stops, i);
        let none = Seq::<char>::empty();
        let no = Seq::<(Seq<char>, Seq<char>)>::empty();
        if first.len() > 0 {
            assert(first.drop_last() =~= Seq::empty());
        }
        if added.len() > 0 {
            assert(added.drop_last() =~= Seq::empty());
        }
        assert(none + none =~= none);
        assert(none + none + (none + e.input) =~= e.input);
        assert(none + none + none =~= none);
        assert(none + (none + none) + (none + none) =~= none);
        assert(no.push((e.id, v.tool_name(e.name))) =~= seq![(e.id, v.tool_name(e.name))]);
        assert(no + starts_at(first, i) + no =~= starts_at(first, i));
        if e.input.len() == 0 {
            assert(e.input =~= none);
        }
        assert(json_at(first, i) =~= none);
        assert(json_at(texts, i) + json_at(first, i) + json_at(added, i) =~= json_at(added, i));
        assert(starts_at(added, i) =~= no);
    }
    assert forall|j: int| j != index implies #[trigger] silent_at(fed, j) by {
        assert(json_at(fed, j) == Seq::<char>::empty());
    }
    assert(json_at(fed, index) == json_at(fed, index));
}

/// A block that is known is not started again.
proof fn lemma_start_or_not(m: state_manager::ManagerView, index: int)
    requires
        stream_laws::synced(m),
    ensures
        ({
            let blocks = state_manager::stopped_where(
                m.blocks,
                state_manager::open_blocks(true),
            );
            let k = state_manager::find_block(blocks, index);
            &&& k is Some <==> m.block(index) is Some
            &&& k is Some ==> blocks[k.unwrap()].started
        }),
{
    let blocks = state_manager::stopped_where(m.blocks, state_manager::open_blocks(true));
    let p = |i: int| blocks[i].index == index;
    let q = |i: int| m.blocks[i].index == index;
    text::lemma_search(p, 0, blocks.len() as int);
    text::lemma_search(q, 0, m.blocks.len() as int);
    assert forall|i: int| 0 <= i < blocks.len() implies #[trigger] p(i) == q(i) && blocks[i].started
        == m.blocks[i].started by {}
    if let Some(k) = state_manager::find_block(blocks, index) {
        assert(p(k));
        assert(q(k));
        protocol::lemma_find_at(m, k);
        assert(m.block(index) is Some);
    }
    if let Some(k) = state_manager::find_block(m.blocks, index) {
        assert(q(k));
        assert(p(k));
    }
}

/// Whether calls are numbered in their order.
pub open spec fn numbered(indices: Seq<(Seq<char>, int)>) -> bool {
    forall|a: int, b: int|
        0 <= a < b < indices.len() ==> {
            &&& (#[trigger] indices[a]).0 != (#[trigger] indices[b]).0
            &&& indices[a].1 < indices[b].1
        }
}

/// Whether events are held back of the calls from one on, and of no others, each with events
/// about its own block alone.
pub open spec fn held_from(
    held: Seq<(Seq<char>, sse::EventView)>,
    indices: Seq<(Seq<char>, int)>,
    f: int,
) -> bool {
    &&& 0 <= f <= indices.len()
    &&& forall|a: int|
        0 <= a < indices.len() ==> (stream_model::holds(held, (#[trigger] indices[a]).0) <==> a
            >= f)
    &&& forall|k: int|
        0 <= k < held.len() ==> {
            let i = stream_model::lookup(indices, (#[trigger] held[k]).0);
            i is Some && stream_model::block_of(held[k].1) == i
        }
}

pub proof fn lemma_lookup_at(indices: Seq<(Seq<char>, int)>, a: int)
    requires
        numbered(indices),
        0 <= a < indices.len(),
    ensures
        stream_model::lookup(indices, indices[a].0) == Some(indices[a].1),
{
    let p = stream_model::has_key(indices, indices[a].0);
    assert(p(a));
    assert forall|j: int| 0 <= j < a implies !(#[trigger] p(j)) by {
        assert(indices[j].0 != indices[a].0);
    }
    text::lemma_search_first(p, 0, indices.len() as int, a);
}

pub proof fn lemma_lookup_found(indices: Seq<(Seq<char>, int)>, id: Seq<char>) -> (a: int)
    requires
        stream_model::lookup(indices, id) is Some,
    ensures
        0 <= a < indices.len(),
        indices[a] == (id, stream_model::lookup(indices, id).unwrap()),
{
    stream_laws::lemma_lookup(indices, id);
    let i = stream_model::lookup(indices, id).unwrap();
    choose|k: int| 0 <= k < indices.len() && #[trigger] indices[k] == (id, i)
}

/// The events of a call that are held back are about its block.
proof fn lemma_held_silent(
    held: Seq<(Seq<char>, sse::EventView)>,
    indices: Seq<(Seq<char>, int)>,
    id: Seq<char>,
    i: int,
)
    requires
        forall|k: int|
            0 <= k < held.len() && (#[trigger] held[k]).0 == id ==> stream_model::block_of(
                held[k].1,
            ) == stream_model::lookup(indices, id),
        stream_model::lookup(indices, id) != Some(i),
    ensures
        silent_at(stream_model::held_of(held, id), i),
    decreases held.len(),
{
    if held.len() > 0 {
        let rest = held.drop_last();
        assert forall|k: int| 0 <= k < rest.len() && (#[trigger] rest[k]).0 == id implies
            stream_model::block_of(rest[k].1) == stream_model::lookup(indices, id) by {
            assert(rest[k] == held[k]);
        }
        lemma_held_silent(rest, indices, id, i);
        if held.last().0 == id {
            let e = held[held.len() - 1];
            assert(stream_model::block_of(e.1) == stream_model::lookup(indices, id));
            let h = stream_model::held_of(rest, id);
            assert(h.push(e.1).drop_last() =~= h);
            assert(Seq::<char>::empty() + Seq::<char>::empty() =~= Seq::<char>::empty());
        }
    }
}

proof fn lemma_besides_elements(
    held: Seq<(Seq<char>, sse::EventView)>,
    id: Seq<char>,
    k: int,
)
    requires
        0 <= k < stream_model::held_besides(held, id).len(),
    ensures
        exists|j: int|
            0 <= j < held.len() && #[trigger] held[j] == stream_model::held_besides(held, id)[k],
    decreases held.len(),
{
    if held.len() > 0 {
        let rest = held.drop_last();
        let b = stream_model::held_besides(rest, id);
        if held.last().0 != id && k == b.len() {
            assert(held[held.len() - 1] == stream_model::held_besides(held, id)[k]);
        } else {
            lemma_besides_elements(rest, id, k);
            let j = choose|j: int| 0 <= j < rest.len() && #[trigger] rest[j] == b[k];
            assert(held[j] == b[k]);
        }
    }
}

/// What is let go: the calls from the first that is held back up to the first that is not
/// complete, each with all that was held back of it.
proof fn lemma_release_from(
    held: Seq<(Seq<char>, sse::EventView)>,
    indices: Seq<(Seq<char>, int)>,
    completed: Set<Seq<char>>,
    f: int,
) -> (g: int)
    requires
        numbered(indices),
        held_from(held, indices, f),
    ensures
        f <= g <= indices.len(),
        forall|a: int| f <= a < g ==> completed.contains((#[trigger] indices[a]).0),
        g < indices.len() ==> !completed.contains(indices[g].0),
        ({
            let (rest, out) = stream_model::release_held(held, indices, completed);
            &&& held_from(rest, indices, g)
            &&& forall|a: int|
                0 <= a < indices.len() ==> {
                    let (id, i) = #[trigger] indices[a];
                    &&& json_at(out, i) + json_at(stream_model::held_of(rest, id), i) == json_at(
                        stream_model::held_of(held, id),
                        i,
                    )
                    &&& starts_at(out, i) + starts_at(stream_model::held_of(rest, id), i)
                        == starts_at(stream_model::held_of(held, id), i)
                    &&& a >= g ==> silent_at(out, i)
                }
            &&& forall|i: int|
                (forall|a: int| 0 <= a < indices.len() ==> (#[trigger] indices[a]).1 != i)
                    ==> #[trigger] silent_at(out, i)
        }),
    decreases held.len(),
{
    stream_model::lemma_lowest_held(held, indices);
    let none = Seq::<sse::EventView>::empty();
    let (rest, out) = stream_model::release_held(held, indices, completed);
    match stream_model::lowest_held(held, indices) {
        None => {
            if f < indices.len() {
                assert(stream_model::holds(held, indices[f].0));
                let k = choose|k: int|
                    0 <= k < held.len() && (#[trigger] held[k]).0 == indices[f].0;
                assert(stream_model::lookup(indices, held[k].0) is Some);
            }
            lemma_nothing_let_go(held, indices);
            f
        },
        Some((i, id)) => {
            let a = lemma_lookup_found(indices, id);
            assert(a >= f);
            assert(stream_model::holds(held, indices[f].0));
            let k = choose|k: int| 0 <= k < held.len() && (#[trigger] held[k]).0 == indices[f].0;
            lemma_lookup_at(indices, f);
            assert(stream_model::lookup(indices, held[k].0) is Some);
            assert(i <= indices[f].1);
            if f < a {
                assert(indices[f].1 < indices[a].1);
            }
            assert(a == f);
            if completed.contains(id) {
                stream_model::lemma_held_besides_shorter(held, id);
                let part = stream_model::held_besides(held, id);
                assert(held_from(part, indices, f + 1)) by {
                    assert forall|b: int| 0 <= b < indices.len() implies (stream_model::holds(
                        part,
                        (#[trigger] indices[b]).0,
                    ) <==> b >= f + 1) by {
                        stream_laws::lemma_held_besides(held, id, indices[b].0);
                        if b < f {
                            assert(indices[b].0 != indices[f].0);
                        } else if b > f {
                            assert(indices[f].0 != indices[b].0);
                        }
                    }
                    assert forall|k: int| 0 <= k < part.len() implies {
                        let j = stream_model::lookup(indices, (#[trigger] part[k]).0);
                        j is Some && stream_model::block_of(part[k].1) == j
                    } by {
                        lemma_besides_elements(held, id, k);
                        let j = choose|j: int| 0 <= j < held.len() && #[trigger] held[j] == part[k];
                        assert(held[j] == part[k]);
                    }
                }
                let g = lemma_release_from(part, indices, completed, f + 1);
                let (rest2, more) = stream_model::release_held(part, indices, completed);
                let first = stream_model::held_of(held, id);
                assert(out == first + more && rest == rest2);
                assert forall|b: int| 0 <= b < indices.len() implies {
                    let (d, j) = #[trigger] indices[b];
                    &&& json_at(out, j) + json_at(stream_model::held_of(rest, d), j) == json_at(
                        stream_model::held_of(held, d),
                        j,
                    )
                    &&& starts_at(out, j) + starts_at(stream_model::held_of(rest, d), j)
                        == starts_at(stream_model::held_of(held, d), j)
                    &&& b >= g ==> silent_at(out, j)
                } by {
                    let (d, j) = indices[b];
                    lemma_at_concat(first, more, j);
                    stream_laws::lemma_held_besides(held, id, d);
                    if b == f {
                        // All of this call is in `first`, nothing of it is left.
                        let h = stream_model::held_of(part, d);
                        assert(h.len() == 0);
                        assert(json_at(h, j) =~= Seq::empty());
                        assert(starts_at(h, j) =~= Seq::empty());
                        assert(json_at(more, j) + json_at(stream_model::held_of(rest, d), j)
                            == json_at(h, j));
                        assert(starts_at(more, j) + starts_at(stream_model::held_of(rest, d), j)
                            == starts_at(h, j));
                        lemma_empty_sum(
                            json_at(more, j),
                            json_at(stream_model::held_of(rest, d), j),
                        );
                        lemma_empty_sum(
                            starts_at(more, j),
                            starts_at(stream_model::held_of(rest, d), j),
                        );
                        assert(json_at(out, j) + json_at(stream_model::held_of(rest, d), j)
                            =~= json_at(first, j));
                        assert(starts_at(out, j) + starts_at(stream_model::held_of(rest, d), j)
                            =~= starts_at(first, j));
                    } else {
                        assert(d != id) by {
                            if b < f {
                                assert(indices[b].0 != indices[f].0);
                            } else {
                                assert(indices[f].0 != indices[b].0);
                            }
                        }
                        assert(j != i) by {
                            if b < f {
                                assert(indices[b].1 < indices[f].1);
                            } else {
                                assert(indices[f].1 < indices[b].1);
                            }
                        }
                        lemma_held_silent(held, indices, id, j);
                        assert(json_at(out, j) =~= json_at(more, j));
                        assert(starts_at(out, j) =~= starts_at(more, j));
                    }
                }
                assert forall|j: int|
                    (forall|b: int| 0 <= b < indices.len() ==> (#[trigger] indices[b]).1 != j)
                        implies #[trigger] silent_at(out, j) by {
                    assert(indices[f].1 != j);
                    lemma_held_silent(held, indices, id, j);
                    assert(silent_at(more, j));
                    lemma_add_silent(first, more, j);
                }
                assert forall|b: int| f <= b < g implies completed.contains(
                    (#[trigger] indices[b]).0,
                ) by {}
                g
            } else {
                lemma_nothing_let_go(held, indices);
                f
            }
        },
    }
}

proof fn lemma_empty_sum<T>(a: Seq<T>, b: Seq<T>)
    requires
        (a + b).len() == 0,
    ensures
        a == Seq::<T>::empty(),
        b == Seq::<T>::empty(),
{
    assert(a.len() == 0 && b.len() == 0);
    assert(a =~= Seq::empty());
    assert(b =~= Seq::empty());
}

proof fn lemma_nothing_let_go(
    held: Seq<(Seq<char>, sse::EventView)>,
    indices: Seq<(Seq<char>, int)>,
)
    ensures
        forall|a: int|
            0 <= a < indices.len() ==> {
                let (id, i) = #[trigger] indices[a];
                let h = stream_model::held_of(held, id);
                let out = Seq::<sse::EventView>::empty();
                &&& json_at(out, i) + json_at(h, i) == json_at(h, i)
                &&& starts_at(out, i) + starts_at(h, i) == starts_at(h, i)
            },
        forall|i: int| #[trigger] silent_at(Seq::empty(), i),
{
    assert forall|a: int| 0 <= a < indices.len() implies {
        let (id, i) = #[trigger] indices[a];
        let h = stream_model::held_of(held, id);
        let out = Seq::<sse::EventView>::empty();
        &&& json_at(out, i) + json_at(h, i) == json_at(h, i)
        &&& starts_at(out, i) + starts_at(h, i) == starts_at(h, i)
    } by {
        let (id, i) = indices[a];
        let h = stream_model::held_of(held, id);
        let out = Seq::<sse::EventView>::empty();
        assert(json_at(out, i) + json_at(h, i) =~= json_at(h, i));
        assert(starts_at(out, i) + starts_at(h, i) =~= starts_at(h, i));
    }
}

/// What all events of a piece of a call send to its block, and that they send nothing of a
/// call elsewhere.
#[verifier::rlimit(60)]
#[verifier::spinoff_prover]
proof fn lemma_tool_all(v: StreamView, e: events::ToolUseView)
    requires
        stream_laws::synced(v.manager),
        stream_laws::thinking_ok(v),
        stream_laws::tools_ok(v),
    ensures
        ({
            let (w, all, index) = v.tool_events(e);
            let open = v.manager.block(index) is None || !v.manager.block(index).unwrap().stopped;
            &&& json_at(all, index) == if open {
                e.input
            } else {
                Seq::empty()
            }
            &&& starts_at(all, index) == if v.manager.block(index) is None {
                seq![(e.id, v.tool_name(e.name))]
            } else {
                Seq::empty()
            }
            &&& forall|j: int| j != index ==> #[trigger] silent_at(all, j)
            &&& w.manager.block(index) is Some
            &&& w.manager.block(index).unwrap().stopped == (e.stop || !open)
            &&& w.tool_names == v.tool_names
            &&& v.manager.next_block_index <= w.manager.next_block_index
            &&& index < w.manager.next_block_index
            &&& stream_model::lookup(v.tool_indices, e.id) is None ==> index
                >= v.manager.next_block_index
        }),
{
    let m = v.manager;
    let v0 = StreamView {
        manager: state_manager::ManagerView { has_tool_use: true, ..m },
        ..v
    };
    stream_laws::lemma_same_books(m, v0.manager);
    stream_laws::lemma_settle_fine(v0);
    stream_model::lemma_settle_for_tool(v0);
    let (v1, settled) = v0.settle_for_tool();
    let m1 = v1.manager;
    stream_laws::lemma_lookup(v.tool_indices, e.id);
    stream_laws::lemma_lookup_tool(v, e.id);
    let (v2, index) = v1.tool_block(e.id);
    stream_laws::lemma_same_books(m1, v2.manager);
    let known = stream_model::lookup(v.tool_indices, e.id) is Some;
    if known {
        assert(stream_laws::is_tool_block(m, index));
        assert(v0.manager.block(index) == m.block(index));
        assert(m1.block(index) == m.block(index));
    } else {
        assert(v2.manager.block(index) is None);
        if m.block(index) is Some {
            assert(v0.manager.block(index) == m.block(index));
            assert(m1.block(index) is Some);
        }
    }
    assert(v2.manager.block(index) == m.block(index));
    lemma_fed(v2, index, e);
    stream_model::lemma_feed_tool(v2, index, e);
    let (w, fed) = v2.feed_tool(index, e);
    let all = settled + fed;
    assert forall|j: int| true implies json_at(all, j) == json_at(fed, j) && #[trigger] starts_at(
        all,
        j,
    ) == starts_at(fed, j) by {
        lemma_silent(settled, j);
        lemma_at_concat(settled, fed, j);
        assert(Seq::<char>::empty() + json_at(fed, j) =~= json_at(fed, j));
        assert(Seq::<(Seq<char>, Seq<char>)>::empty() + starts_at(fed, j) =~= starts_at(fed, j));
    }
    assert(starts_at(all, index) == starts_at(fed, index));
    assert forall|j: int| j != index implies #[trigger] silent_at(all, j) by {
        assert(silent_at(fed, j));
        assert(starts_at(all, j) == starts_at(fed, j));
    }
    if known {
        assert(v2.manager.block(index) is Some);
    }
}

/// The books on the calls of a stream, whatever it has sent so far.
pub open spec fn calls_ok(w: StreamView, sent: Seq<sse::EventView>, ev: Seq<KiroEventView>) -> bool {
    let indices = w.tool_indices;
    &&& numbered(indices)
    &&& forall|a: int|
        0 <= a < indices.len() ==> call_ok(w, sent, ev, (#[trigger] indices[a]).0, indices[a].1)
    &&& forall|id: Seq<char>|
        (#[trigger] stream_model::lookup(indices, id)) is Some <==> upstream::begun(ev, id)
    &&& forall|id: Seq<char>| #[trigger]
        w.completed.contains(id) <==> upstream::ended(ev, id)
    &&& forall|a: int, b: int|
        0 <= a < b < indices.len() ==> upstream::began_before(
            ev,
            (#[trigger] indices[a]).0,
            (#[trigger] indices[b]).0,
        )
    &&& forall|i: int|
        (forall|a: int| 0 <= a < indices.len() ==> (#[trigger] indices[a]).1 != i)
            ==> #[trigger] silent_at(sent, i)
    &&& w.delayed ==> exists|f: int| held_up_to(w, sent, f)
    &&& !w.delayed ==> w.buffered.len() == 0
}

/// Whether the first calls are complete and let go, and all others are held back, with nothing
/// of them sent.
pub open spec fn held_up_to(w: StreamView, sent: Seq<sse::EventView>, f: int) -> bool {
    &&& forall|a: int|
        f <= a < w.tool_indices.len() ==> silent_at(sent, (#[trigger] w.tool_indices[a]).1)
    &&& held_from(w.buffered, w.tool_indices, f)
    &&& forall|a: int| 0 <= a < f ==> w.completed.contains((#[trigger] w.tool_indices[a]).0)
    &&& f < w.tool_indices.len() ==> !w.completed.contains(w.tool_indices[f].0)
}

/// The books on one call: what was sent of it and what is held back of it is what it was
/// called with.
pub open spec fn call_ok(
    w: StreamView,
    sent: Seq<sse::EventView>,
    ev: Seq<KiroEventView>,
    id: Seq<char>,
    i: int,
) -> bool {
    let held = stream_model::held_of(w.buffered, id);
    &&& json_at(sent, i) + json_at(held, i) == upstream::input_of(ev, id)
    &&& upstream::name_of(ev, id) is Some
    &&& starts_at(sent, i) + starts_at(held, i) == seq![
        (id, w.tool_name(upstream::name_of(ev, id).unwrap())),
    ]
    &&& i < w.manager.next_block_index
    &&& w.manager.block(i) is Some
    &&& w.manager.block(i).unwrap().stopped <==> w.completed.contains(id)
}

/// What a step that is of no call does to the books.
proof fn lemma_off_calls(
    v: StreamView,
    w: StreamView,
    sent: Seq<sse::EventView>,
    out: Seq<sse::EventView>,
    ev: Seq<KiroEventView>,
)
    requires
        calls_ok(v, sent, ev),
        stream_laws::tools_ok(v),
        protocol::grows(v.manager, w.manager),
        w.tool_indices == v.tool_indices,
        w.completed == v.completed,
        w.buffered == v.buffered,
        w.delayed == v.delayed,
        w.tool_names == v.tool_names,
        forall|i: int| #[trigger] silent_at(out, i),
    ensures
        calls_ok(w, sent + out, ev),
{
    let indices = w.tool_indices;
    assert forall|a: int| 0 <= a < indices.len() implies call_ok(
        w,
        sent + out,
        ev,
        (#[trigger] indices[a]).0,
        indices[a].1,
    ) by {
        let (id, i) = indices[a];
        assert(call_ok(v, sent, ev, id, i));
        assert(silent_at(out, i));
        lemma_add_silent(sent, out, i);
        assert(stream_laws::is_tool_block(v.manager, v.tool_indices[a].1));
        assert(w.manager.block(i) == v.manager.block(i));
    }
    assert forall|i: int|
        (forall|a: int| 0 <= a < indices.len() ==> (#[trigger] indices[a]).1 != i)
            implies #[trigger] silent_at(sent + out, i) by {
        assert(silent_at(sent, i));
        assert(silent_at(out, i));
        lemma_add_silent(sent, out, i);
    }
    if w.delayed {
        let f = choose|f: int| held_up_to(v, sent, f);
        assert forall|a: int| f <= a < indices.len() implies silent_at(
            sent + out,
            (#[trigger] indices[a]).1,
        ) by {
            assert(silent_at(sent, v.tool_indices[a].1));
            assert(silent_at(out, indices[a].1));
            lemma_add_silent(sent, out, indices[a].1);
        }
        assert(held_up_to(w, sent + out, f));
    }
}

/// An event that is no piece of a call does not change what was heard of calls.
proof fn lemma_heard_off(v: StreamView, sent: Seq<sse::EventView>, ev: Seq<KiroEventView>, e: KiroEventView)
    requires
        calls_ok(v, sent, ev),
        !(e is ToolUse),
    ensures
        calls_ok(v, sent, ev.push(e)),
{
    let n = ev.push(e);
    assert(n.drop_last() =~= ev);
    assert(n.last() == e);
    let indices = v.tool_indices;
    assert forall|a: int| 0 <= a < indices.len() implies call_ok(
        v,
        sent,
        n,
        (#[trigger] indices[a]).0,
        indices[a].1,
    ) by {
        let (id, i) = indices[a];
        assert(call_ok(v, sent, ev, id, i));
        upstream::lemma_ended_step(n, id);
        lemma_lookup_at(indices, a);
        assert(upstream::begun(ev, id));
    }
    assert forall|id: Seq<char>|
        (#[trigger] stream_model::lookup(indices, id)) is Some <==> upstream::begun(n, id) by {
        upstream::lemma_ended_step(n, id);
    }
    assert forall|id: Seq<char>| #[trigger] v.completed.contains(id) <==> upstream::ended(
        n,
        id,
    ) by {
        upstream::lemma_ended_step(n, id);
    }
    assert forall|a: int, b: int| 0 <= a < b < indices.len() implies upstream::began_before(
        n,
        (#[trigger] indices[a]).0,
        (#[trigger] indices[b]).0,
    ) by {
        upstream::lemma_began_before_step(n, indices[a].0, indices[b].0);
    }
}

/// What a piece adds to what was heard of its call, and that it adds nothing to others.
proof fn lemma_piece_heard(ev: Seq<KiroEventView>, t: events::ToolUseView, id: Seq<char>)
    ensures
        ({
            let n = ev.push(KiroEventView::ToolUse(t));
            &&& upstream::input_of(n, id) == if id == t.id && !upstream::ended(ev, id) {
                upstream::input_of(ev, id) + t.input
            } else {
                upstream::input_of(ev, id)
            }
            &&& upstream::begun(n, id) <==> upstream::begun(ev, id) || id == t.id
            &&& upstream::ended(n, id) <==> upstream::ended(ev, id) || (id == t.id && t.stop)
            &&& upstream::ended(ev, id) ==> upstream::begun(ev, id)
            &&& upstream::begun(ev, id) ==> upstream::name_of(n, id) == upstream::name_of(ev, id)
            &&& !upstream::begun(ev, t.id) ==> upstream::name_of(n, t.id) == Some(t.name)
            &&& !upstream::begun(ev, id) ==> upstream::input_of(ev, id) == Seq::<char>::empty()
        }),
{
    let n = ev.push(KiroEventView::ToolUse(t));
    assert(n.drop_last() =~= ev);
    assert(n.last() == KiroEventView::ToolUse(t));
    upstream::lemma_ended_step(n, id);
    upstream::lemma_ended_step(n, t.id);
    if ev.len() > 0 {
        upstream::lemma_ended_step(ev, id);
    }
    if !upstream::begun(ev, id) {
        lemma_no_input(ev, id);
    }
}

proof fn lemma_no_input(ev: Seq<KiroEventView>, id: Seq<char>)
    requires
        !upstream::begun(ev, id),
    ensures
        upstream::input_of(ev, id) == Seq::<char>::empty(),
    decreases ev.len(),
{
    if ev.len() > 0 {
        upstream::lemma_ended_step(ev, id);
        lemma_no_input(ev.drop_last(), id);
    }
}

/// Facts on a piece of a call that hold whether the stream is delayed or not: everything but
/// where the events of the call stand.
spec fn piece_books(
    v: StreamView,
    w: StreamView,
    all: Seq<sse::EventView>,
    index: int,
    e: events::ToolUseView,
    ev: Seq<KiroEventView>,
) -> bool {
    let n = ev.push(KiroEventView::ToolUse(e));
    let indices = w.tool_indices;
    let new = stream_model::lookup(v.tool_indices, e.id) is None;
    &&& numbered(indices)
    &&& stream_laws::tools_ok(w)
    &&& w.tool_names == v.tool_names
    &&& w.delayed == v.delayed
    &&& w.buffered == v.buffered
    &&& w.completed == (if e.stop {
        v.completed.insert(e.id)
    } else {
        v.completed
    })
    &&& stream_model::lookup(indices, e.id) == Some(index)
    &&& !new ==> indices == v.tool_indices
    &&& new ==> indices == v.tool_indices.push((e.id, index))
    &&& new ==> forall|a: int| 0 <= a < v.tool_indices.len() ==> (#[trigger] v.tool_indices[a]).1
        != index
    &&& forall|id: Seq<char>|
        (#[trigger] stream_model::lookup(indices, id)) is Some <==> upstream::begun(n, id)
    &&& forall|id: Seq<char>| #[trigger] w.completed.contains(id) <==> upstream::ended(n, id)
    &&& forall|a: int, b: int|
        0 <= a < b < indices.len() ==> upstream::began_before(
            n,
            (#[trigger] indices[a]).0,
            (#[trigger] indices[b]).0,
        )
    &&& forall|a: int|
        0 <= a < indices.len() ==> {
            let (id, i) = #[trigger] indices[a];
            &&& i < w.manager.next_block_index
            &&& w.manager.block(i) is Some
            &&& w.manager.block(i).unwrap().stopped <==> w.completed.contains(id)
            &&& upstream::name_of(n, id) is Some
            &&& a < v.tool_indices.len() ==> upstream::name_of(n, id) == upstream::name_of(ev, id)
            &&& id != e.id ==> upstream::input_of(n, id) == upstream::input_of(ev, id) && i
                != index
        }
    &&& upstream::input_of(n, e.id) == upstream::input_of(ev, e.id) + json_at(all, index)
    &&& new ==> upstream::input_of(ev, e.id) == Seq::<char>::empty() && upstream::name_of(n, e.id)
        == Some(e.name) && starts_at(all, index) == seq![(e.id, v.tool_name(e.name))]
    &&& !new ==> starts_at(all, index) == Seq::<(Seq<char>, Seq<char>)>::empty()
    &&& forall|j: int| j != index ==> #[trigger] silent_at(all, j)
}

#[verifier::rlimit(40)]
proof fn lemma_piece_books(
    v: StreamView,
    a: protocol::Client,
    sent: Seq<sse::EventView>,
    ev: Seq<KiroEventView>,
    e: events::ToolUseView,
)
    requires
        stream_laws::live(v, a),
        calls_ok(v, sent, ev),
    ensures
        ({
            let (w, all, index) = v.tool_events(e);
            piece_books(v, w, all, index, e, ev)
        }),
{
    let (w, all, index) = v.tool_events(e);
    let n = ev.push(KiroEventView::ToolUse(e));
    let indices = w.tool_indices;
    let new = stream_model::lookup(v.tool_indices, e.id) is None;
    stream_laws::lemma_tool_events_ok(v, e);
    stream_laws::lemma_tools_after(v, w, index, e);
    lemma_tool_all(v, e);
    lemma_piece_heard(ev, e, e.id);
    assert(new <==> !upstream::begun(ev, e.id));
    assert(v.completed.contains(e.id) <==> upstream::ended(ev, e.id));
    assert forall|a: int| 0 <= a < v.tool_indices.len() implies (#[trigger] v.tool_indices[a]).1
        < v.manager.next_block_index by {
        assert(call_ok(v, sent, ev, v.tool_indices[a].0, v.tool_indices[a].1));
    }
    if new {
        stream_laws::lemma_lookup(v.tool_indices, e.id);
        assert(numbered(indices)) by {
            assert forall|a: int, b: int| 0 <= a < b < indices.len() implies {
                &&& (#[trigger] indices[a]).0 != (#[trigger] indices[b]).0
                &&& indices[a].1 < indices[b].1
            } by {
                assert(indices[a] == v.tool_indices[a]);
                if b < v.tool_indices.len() {
                    assert(indices[b] == v.tool_indices[b]);
                }
            }
        }
    } else {
        let k = lemma_lookup_found(v.tool_indices, e.id);
        assert(call_ok(v, sent, ev, v.tool_indices[k].0, v.tool_indices[k].1));
    }
    assert forall|id: Seq<char>|
        (#[trigger] stream_model::lookup(indices, id)) is Some <==> upstream::begun(n, id) by {
        lemma_piece_heard(ev, e, id);
        if id != e.id {
            assert(stream_model::lookup(indices, id) == stream_model::lookup(v.tool_indices, id));
        }
    }
    assert forall|id: Seq<char>| #[trigger] w.completed.contains(id) <==> upstream::ended(
        n,
        id,
    ) by {
        lemma_piece_heard(ev, e, id);
        assert(v.completed.contains(id) <==> upstream::ended(ev, id));
    }
    assert(n.drop_last() =~= ev);
    assert forall|a: int, b: int| 0 <= a < b < indices.len() implies upstream::began_before(
        n,
        (#[trigger] indices[a]).0,
        (#[trigger] indices[b]).0,
    ) by {
        assert(indices[a] == v.tool_indices[a]);
        upstream::lemma_began_before_step(n, indices[a].0, indices[b].0);
        lemma_lookup_at(v.tool_indices, a);
        assert(upstream::begun(ev, indices[a].0));
        if b < v.tool_indices.len() {
            assert(indices[b] == v.tool_indices[b]);
        }
    }
    assert forall|a: int| 0 <= a < indices.len() implies {
        let (id, i) = #[trigger] indices[a];
        &&& i < w.manager.next_block_index
        &&& w.manager.block(i) is Some
        &&& w.manager.block(i).unwrap().stopped <==> w.completed.contains(id)
        &&& upstream::name_of(n, id) is Some
        &&& a < v.tool_indices.len() ==> upstream::name_of(n, id) == upstream::name_of(ev, id)
        &&& id != e.id ==> upstream::input_of(n, id) == upstream::input_of(ev, id) && i != index
    } by {
        let (id, i) = indices[a];
        lemma_piece_heard(ev, e, id);
        if a < v.tool_indices.len() {
            assert(indices[a] == v.tool_indices[a]);
            assert(call_ok(v, sent, ev, id, i));
            lemma_lookup_at(v.tool_indices, a);
            assert(upstream::begun(ev, id));
            if id != e.id {
                lemma_lookup_at(indices, a);
                if i == index {
                    stream_laws::lemma_lookup_injective(w, id, e.id);
                }
                assert(stream_laws::is_tool_block(v.manager, v.tool_indices[a].1));
                assert(w.manager.block(i) == v.manager.block(i));
            } else {
                assert(i == index);
            }
        } else {
            assert(id == e.id && i == index);
        }
    }
    if !new && v.completed.contains(e.id) {
        assert(upstream::input_of(ev, e.id) + Seq::<char>::empty() =~= upstream::input_of(
            ev,
            e.id,
        ));
    }
    if new {
        assert(Seq::<char>::empty() + e.input =~= e.input);
    }
}

/// A piece of a call in a stream that is not delayed.
proof fn lemma_plain_piece(
    v: StreamView,
    w: StreamView,
    all: Seq<sse::EventView>,
    index: int,
    e: events::ToolUseView,
    sent: Seq<sse::EventView>,
    ev: Seq<KiroEventView>,
)
    requires
        calls_ok(v, sent, ev),
        piece_books(v, w, all, index, e, ev),
        !v.delayed,
    ensures
        calls_ok(w, sent + all, ev.push(KiroEventView::ToolUse(e))),
{
    let n = ev.push(KiroEventView::ToolUse(e));
    let indices = w.tool_indices;
    assert forall|a: int| 0 <= a < indices.len() implies call_ok(
        w,
        sent + all,
        n,
        (#[trigger] indices[a]).0,
        indices[a].1,
    ) by {
        let (id, i) = indices[a];
        let held = stream_model::held_of(w.buffered, id);
        assert(held =~= Seq::empty());
        assert(json_at(held, i) =~= Seq::empty());
        assert(starts_at(held, i) =~= Seq::empty());
        lemma_at_concat(sent, all, i);
        let none = Seq::<char>::empty();
        let no = Seq::<(Seq<char>, Seq<char>)>::empty();
        if a < v.tool_indices.len() {
            assert(indices[a] == v.tool_indices[a]);
            assert(call_ok(v, sent, ev, id, i));
            assert(stream_model::held_of(v.buffered, id) == held);
            assert(json_at(sent, i) + none =~= json_at(sent, i));
            assert(starts_at(sent, i) + no =~= starts_at(sent, i));
            if id != e.id {
                assert(silent_at(all, i));
                lemma_add_silent(sent, all, i);
            } else {
                lemma_lookup_at(indices, a);
                assert(json_at(sent + all, i) + none =~= json_at(sent, i) + json_at(all, i));
                assert(starts_at(sent + all, i) + no =~= starts_at(sent, i));
            }
        } else {
            assert(silent_at(sent, i));
            assert(json_at(sent + all, i) + none =~= none + json_at(all, i));
            assert(starts_at(sent + all, i) + no =~= starts_at(all, i));
        }
    }
    assert forall|i: int|
        (forall|a: int| 0 <= a < indices.len() ==> (#[trigger] indices[a]).1 != i)
            implies #[trigger] silent_at(sent + all, i) by {
        assert forall|a: int| 0 <= a < v.tool_indices.len() implies (
        #[trigger] v.tool_indices[a]).1 != i by {
            assert(indices[a] == v.tool_indices[a]);
        }
        let k = lemma_lookup_found(indices, e.id);
        assert(indices[k].1 != i);
        assert(silent_at(all, i));
        assert(silent_at(sent, i));
        lemma_add_silent(sent, all, i);
    }
}

proof fn lemma_about_elements(ev: Seq<sse::EventView>, index: int, k: int)
    requires
        0 <= k < stream_model::about(ev, index).len(),
    ensures
        stream_model::block_of(stream_model::about(ev, index)[k]) == Some(index),
    decreases ev.len(),
{
    if ev.len() > 0 {
        let a = stream_model::about(ev.drop_last(), index);
        if k < a.len() {
            lemma_about_elements(ev.drop_last(), index, k);
        }
    }
}

proof fn lemma_starts_some(ev: Seq<sse::EventView>, i: int)
    requires
        starts_at(ev, i).len() > 0,
    ensures
        ev.len() > 0,
{
}

/// The state in which the events of a piece are held back, before any is let go.
proof fn lemma_hold(
    v: StreamView,
    w: StreamView,
    a: protocol::Client,
    all: Seq<sse::EventView>,
    index: int,
    e: events::ToolUseView,
    sent: Seq<sse::EventView>,
    ev: Seq<KiroEventView>,
    f: int,
)
    requires
        stream_laws::live(v, a),
        calls_ok(v, sent, ev),
        piece_books(v, w, all, index, e, ev),
        protocol::full_client(v.manager).run(all) is Some,
        v.delayed,
        held_up_to(v, sent, f),
    ensures
        held_from(
            v.buffered + stream_model::tagged(e.id, stream_model::about(all, index)),
            w.tool_indices,
            f,
        ),
        v.completed.contains(e.id) ==> stream_model::about(all, index).len() == 0,
{
    let held = v.buffered + stream_model::tagged(e.id, stream_model::about(all, index));
    let mine = stream_model::about(all, index);
    let indices = w.tool_indices;
    let new = stream_model::lookup(v.tool_indices, e.id) is None;
    lemma_about(all, index, index);
    if v.completed.contains(e.id) {
        let c = protocol::full_client(v.manager);
        protocol::lemma_run_about(c, all, index);
        assert(stream_model::lookup(v.tool_indices, e.id) == Some(index));
        assert(v.manager.block(index).unwrap().stopped);
        assert(protocol::status(c, index) == Some(false)) by {
            assert(protocol::in_step(v.manager, c));
            let k = lemma_lookup_found(v.tool_indices, e.id);
            assert(call_ok(v, sent, ev, v.tool_indices[k].0, v.tool_indices[k].1));
            assert(c.blocks.contains_key(index));
        }
        protocol::lemma_block_run_stopped(index, mine);
    }
    if new {
        lemma_starts_some(mine, index);
    }
    assert forall|b: int| 0 <= b < indices.len() implies (stream_model::holds(
        held,
        (#[trigger] indices[b]).0,
    ) <==> b >= f) by {
        stream_laws::lemma_held_of_tagged(v.buffered, e.id, mine, indices[b].0);
        if b < v.tool_indices.len() {
            assert(indices[b] == v.tool_indices[b]);
            if b < f {
                assert(v.completed.contains(v.tool_indices[b].0));
            }
        } else {
            if stream_model::holds(v.buffered, e.id) {
                let k = choose|k: int|
                    0 <= k < v.buffered.len() && (#[trigger] v.buffered[k]).0 == e.id;
                assert(stream_model::lookup(v.tool_indices, v.buffered[k].0) is Some);
            }
        }
    }
    assert forall|k: int| 0 <= k < held.len() implies {
        let i = stream_model::lookup(indices, (#[trigger] held[k]).0);
        i is Some && stream_model::block_of(held[k].1) == i
    } by {
        if k < v.buffered.len() {
            assert(held[k] == v.buffered[k]);
            let id = held[k].0;
            let x = lemma_lookup_found(v.tool_indices, id);
            assert(indices[x] == v.tool_indices[x]);
            lemma_lookup_at(indices, x);
        } else {
            lemma_about_elements(all, index, k - v.buffered.len());
        }
    }
}

/// A piece of a call in a delayed stream.
#[verifier::rlimit(40)]
proof fn lemma_delayed_piece(
    v: StreamView,
    w: StreamView,
    a: protocol::Client,
    all: Seq<sse::EventView>,
    index: int,
    e: events::ToolUseView,
    sent: Seq<sse::EventView>,
    ev: Seq<KiroEventView>,
)
    requires
        stream_laws::live(v, a),
        calls_ok(v, sent, ev),
        piece_books(v, w, all, index, e, ev),
        protocol::full_client(v.manager).run(all) is Some,
        v.delayed,
    ensures
        ({
            let held = v.buffered + stream_model::tagged(e.id, stream_model::about(all, index));
            let passed = stream_model::not_about(all, index);
            let n = ev.push(KiroEventView::ToolUse(e));
            let (rest, out) = stream_model::release_held(held, w.tool_indices, w.completed);
            &&& e.stop ==> calls_ok(
                StreamView { buffered: rest, ..w },
                sent + (passed + out),
                n,
            )
            &&& !e.stop ==> calls_ok(StreamView { buffered: held, ..w }, sent + passed, n)
        }),
{
    let f = choose|f: int| held_up_to(v, sent, f);
    lemma_hold(v, w, a, all, index, e, sent, ev, f);
    let mine = stream_model::about(all, index);
    let held = v.buffered + stream_model::tagged(e.id, mine);
    let passed = stream_model::not_about(all, index);
    let n = ev.push(KiroEventView::ToolUse(e));
    let indices = w.tool_indices;
    let new = stream_model::lookup(v.tool_indices, e.id) is None;
    let none = Seq::<char>::empty();
    let no = Seq::<(Seq<char>, Seq<char>)>::empty();
    assert forall|i: int| #[trigger] silent_at(passed, i) by {
        lemma_about(all, index, i);
        if i != index {
            assert(silent_at(all, i));
        }
    }
    // The books with all of the piece held back.
    assert forall|b: int| 0 <= b < indices.len() implies {
        let (id, i) = #[trigger] indices[b];
        let h = stream_model::held_of(held, id);
        &&& json_at(sent + passed, i) + json_at(h, i) == upstream::input_of(n, id)
        &&& starts_at(sent + passed, i) + starts_at(h, i) == seq![
            (id, w.tool_name(upstream::name_of(n, id).unwrap())),
        ]
    } by {
        let (id, i) = indices[b];
        let h = stream_model::held_of(held, id);
        let old_h = stream_model::held_of(v.buffered, id);
        stream_laws::lemma_held_of_tagged(v.buffered, e.id, mine, id);
        assert(silent_at(passed, i));
        lemma_add_silent(sent, passed, i);
        if b < v.tool_indices.len() {
            assert(indices[b] == v.tool_indices[b]);
            assert(call_ok(v, sent, ev, id, i));
        }
        if id != e.id {
            assert(h == old_h);
            assert(b < v.tool_indices.len());
        } else {
            lemma_lookup_at(indices, b);
            assert(i == index);
            assert(h == old_h + mine);
            lemma_at_concat(old_h, mine, i);
            lemma_about(all, index, index);
            if b < v.tool_indices.len() {
                assert(json_at(sent, i) + (json_at(old_h, i) + json_at(mine, i)) =~= json_at(
                    sent,
                    i,
                ) + json_at(old_h, i) + json_at(mine, i));
                assert(starts_at(sent, i) + (starts_at(old_h, i) + no) =~= starts_at(sent, i)
                    + starts_at(old_h, i));
            } else {
                assert(silent_at(sent, i));
                assert(old_h.len() == 0) by {
                    if stream_model::holds(v.buffered, id) {
                        let k = choose|k: int|
                            0 <= k < v.buffered.len() && (#[trigger] v.buffered[k]).0 == id;
                        assert(stream_model::lookup(v.tool_indices, v.buffered[k].0) is Some);
                    }
                    stream_laws::lemma_held_of_none(v.buffered, id);
                }
                assert(json_at(old_h, i) =~= none);
                assert(starts_at(old_h, i) =~= no);
                assert(none + (none + json_at(mine, i)) =~= none + json_at(mine, i));
                assert(no + (no + starts_at(mine, i)) =~= starts_at(mine, i));
            }
        }
    }
    assert forall|i: int|
        (forall|b: int| 0 <= b < indices.len() ==> (#[trigger] indices[b]).1 != i)
            implies #[trigger] silent_at(sent + passed, i) by {
        assert forall|b: int| 0 <= b < v.tool_indices.len() implies (
        #[trigger] v.tool_indices[b]).1 != i by {
            assert(indices[b] == v.tool_indices[b]);
        }
        assert(silent_at(passed, i));
        assert(silent_at(sent, i));
        lemma_add_silent(sent, passed, i);
    }
    assert forall|b: int| f <= b < indices.len() implies silent_at(
        sent + passed,
        (#[trigger] indices[b]).1,
    ) by {
        if b < v.tool_indices.len() {
            assert(indices[b] == v.tool_indices[b]);
            assert(silent_at(sent, v.tool_indices[b].1));
        } else {
            assert(silent_at(sent, index));
        }
        assert(silent_at(passed, indices[b].1));
        lemma_add_silent(sent, passed, indices[b].1);
    }
    if !e.stop {
        let x = StreamView { buffered: held, ..w };
        assert(held_up_to(x, sent + passed, f)) by {
            assert forall|b: int| 0 <= b < f implies x.completed.contains(
                (#[trigger] x.tool_indices[b]).0,
            ) by {
                assert(v.completed.contains(v.tool_indices[b].0));
            }
            if f < indices.len() {
                if f < v.tool_indices.len() {
                    assert(indices[f] == v.tool_indices[f]);
                } else {
                    if v.completed.contains(e.id) {
                        assert(stream_model::lookup(v.tool_indices, e.id) is Some);
                    }
                }
            }
        }
        assert forall|b: int| 0 <= b < indices.len() implies call_ok(
            x,
            sent + passed,
            n,
            (#[trigger] indices[b]).0,
            indices[b].1,
        ) by {}
    } else {
        let g = lemma_release_from(held, indices, w.completed, f);
        let (rest, out) = stream_model::release_held(held, indices, w.completed);
        let x = StreamView { buffered: rest, ..w };
        assert(sent + (passed + out) =~= (sent + passed) + out);
        assert(held_up_to(x, (sent + passed) + out, g)) by {
            assert forall|b: int| g <= b < indices.len() implies silent_at(
                (sent + passed) + out,
                (#[trigger] indices[b]).1,
            ) by {
                assert(silent_at(sent + passed, indices[b].1));
                assert(silent_at(out, indices[b].1));
                lemma_add_silent(sent + passed, out, indices[b].1);
            }
            assert forall|b: int| 0 <= b < g implies x.completed.contains(
                (#[trigger] x.tool_indices[b]).0,
            ) by {
                if b < f {
                    assert(v.completed.contains(v.tool_indices[b].0));
                }
            }
        }
        assert forall|b: int| 0 <= b < indices.len() implies call_ok(
            x,
            (sent + passed) + out,
            n,
            (#[trigger] indices[b]).0,
            indices[b].1,
        ) by {
            let (id, i) = indices[b];
            let h = stream_model::held_of(held, id);
            let r = stream_model::held_of(rest, id);
            lemma_at_concat(sent + passed, out, i);
            assert(json_at(sent + passed, i) + json_at(out, i) + json_at(r, i) =~= json_at(
                sent + passed,
                i,
            ) + (json_at(out, i) + json_at(r, i)));
            assert(starts_at(sent + passed, i) + starts_at(out, i) + starts_at(r, i) =~= starts_at(
                sent + passed,
                i,
            ) + (starts_at(out, i) + starts_at(r, i)));
        }
        assert forall|i: int|
            (forall|b: int| 0 <= b < indices.len() ==> (#[trigger] indices[b]).1 != i)
                implies #[trigger] silent_at((sent + passed) + out, i) by {
            assert(silent_at(out, i));
            assert(silent_at(sent + passed, i));
            lemma_add_silent(sent + passed, out, i);
        }
    }
}

/// An upstream event keeps the books on the calls.
pub proof fn lemma_event_calls(
    v: StreamView,
    a: protocol::Client,
    sent: Seq<sse::EventView>,
    ev: Seq<KiroEventView>,
    e: KiroEventView,
)
    requires
        stream_laws::live(v, a),
        calls_ok(v, sent, ev),
    ensures
        calls_ok(v.kiro_event(e).0, sent + v.kiro_event(e).1, ev.push(e)),
{
    let (w, out) = v.kiro_event(e);
    match e {
        KiroEventView::AssistantResponse { content } => {
            stream_laws::lemma_answer_fine(v, content);
            stream_laws::lemma_answer_keeps_books(v, content);
            stream_counts::lemma_answer_counts(v, content);
            assert forall|i: int| #[trigger] silent_at(out, i) by {
                lemma_silent(out, i);
            }
            lemma_off_calls(v, w, sent, out, ev);
            lemma_heard_off(w, sent + out, ev, e);
        },
        KiroEventView::ToolUse(t) => {
            reveal(StreamView::tool_use);
            stream_laws::lemma_tool_events_ok(v, t);
            lemma_piece_books(v, a, sent, ev, t);
            let (x, all, index) = v.tool_events(t);
            if v.delayed {
                lemma_delayed_piece(v, x, a, all, index, t, sent, ev);
            } else {
                lemma_plain_piece(v, x, all, index, t, sent, ev);
            }
        },
        _ => {
            stream_model::lemma_other_event(v, e);
            stream_laws::lemma_same_books(v.manager, w.manager);
            assert forall|i: int| #[trigger] silent_at(out, i) by {
                lemma_silent(out, i);
            }
            lemma_off_calls(v, w, sent, out, ev);
            lemma_heard_off(w, sent + out, ev, e);
        },
    }
}

/// Whether two runs of events hold the same of the call in a block.
pub open spec fn same_at(a: Seq<sse::EventView>, b: Seq<sse::EventView>, i: int) -> bool {
    json_at(a, i) == json_at(b, i) && starts_at(a, i) == starts_at(b, i)
}

/// The books depend on the blocks and calls of a stream alone, and on what was sent of calls.
proof fn lemma_same_calls(
    v: StreamView,
    w: StreamView,
    a: Seq<sse::EventView>,
    b: Seq<sse::EventView>,
    ev: Seq<KiroEventView>,
)
    requires
        calls_ok(v, a, ev),
        w.manager == v.manager,
        w.tool_indices == v.tool_indices,
        w.tool_names == v.tool_names,
        w.completed == v.completed,
        w.buffered == v.buffered,
        w.delayed == v.delayed,
        forall|i: int| #[trigger] same_at(a, b, i),
    ensures
        calls_ok(w, b, ev),
{
    let indices = w.tool_indices;
    assert forall|k: int| 0 <= k < indices.len() implies call_ok(
        w,
        b,
        ev,
        (#[trigger] indices[k]).0,
        indices[k].1,
    ) by {
        assert(call_ok(v, a, ev, v.tool_indices[k].0, v.tool_indices[k].1));
        assert(same_at(a, b, indices[k].1));
    }
    assert forall|i: int|
        (forall|k: int| 0 <= k < indices.len() ==> (#[trigger] indices[k]).1 != i)
            implies #[trigger] silent_at(b, i) by {
        assert(silent_at(a, i));
        assert(same_at(a, b, i));
    }
    if w.delayed {
        let f = choose|f: int| held_up_to(v, a, f);
        assert(held_up_to(w, b, f)) by {
            assert forall|k: int| f <= k < indices.len() implies silent_at(
                b,
                (#[trigger] indices[k]).1,
            ) by {
                assert(silent_at(a, v.tool_indices[k].1));
                assert(same_at(a, b, indices[k].1));
            }
        }
    }
}

/// A stream that has not begun has no calls.
proof fn lemma_no_calls(v: StreamView)
    requires
        v.tool_indices.len() == 0,
        v.completed == Set::<Seq<char>>::empty(),
        v.buffered.len() == 0,
    ensures
        calls_ok(v, Seq::empty(), Seq::empty()),
{
    assert forall|id: Seq<char>|
        (#[trigger] stream_model::lookup(v.tool_indices, id)) is Some <==> upstream::begun(
            Seq::empty(),
            id,
        ) by {
        stream_laws::lemma_lookup(v.tool_indices, id);
    }
    if v.delayed {
        assert(held_up_to(v, Seq::empty(), 0));
    }
}

/// Adding events that are of no call in front of others changes nothing for calls.
proof fn lemma_in_front(kept: Seq<sse::EventView>, ev: Seq<sse::EventView>)
    requires
        stream_laws::no_tool_events(kept),
    ensures
        forall|i: int| #[trigger] same_at(ev, kept + ev, i),
        forall|i: int| #[trigger] same_at(Seq::empty(), kept, i),
{
    assert forall|i: int| #[trigger] same_at(Seq::empty(), kept, i) by {
        lemma_silent(kept, i);
    }
    assert forall|i: int| #[trigger] same_at(ev, kept + ev, i) by {
        lemma_silent(kept, i);
        lemma_at_concat(kept, ev, i);
        assert(Seq::<char>::empty() + json_at(ev, i) =~= json_at(ev, i));
        assert(Seq::<(Seq<char>, Seq<char>)>::empty() + starts_at(ev, i) =~= starts_at(ev, i));
    }
}

pub proof fn lemma_with_tokens_no_tools(ev: Seq<sse::EventView>, n: int)
    requires
        stream_laws::no_tool_events(ev),
    ensures
        stream_laws::no_tool_events(stream_model::with_input_tokens(ev, n)),
{
    let t = stream_model::with_input_tokens(ev, n);
    assert forall|k: int| 0 <= k < t.len() implies stream_laws::no_tool_event(#[trigger] t[k]) by {
        assert(stream_laws::no_tool_event(ev[k]));
    }
}

/// The first events are of no call.
proof fn lemma_initial_calls(v: StreamView)
    requires
        stream_laws::fresh(v),
    ensures
        calls_ok(v.initial().0, v.initial().1, Seq::empty()),
        stream_laws::no_tool_events(v.initial().1),
        stream_laws::tools_ok(v.initial().0),
{
    stream_laws::lemma_initial_no_tools(v);
    stream_model::lemma_initial(v);
    stream_laws::lemma_initial_live(v);
    let (w, first) = v.initial();
    lemma_no_calls(w);
    let none = Seq::<sse::EventView>::empty();
    lemma_in_front(first, none);
    lemma_same_calls(w, w, none, first, Seq::empty());
}

/// The books on the calls are in order whatever happens to a stream.
#[verifier::rlimit(60)]
#[verifier::spinoff_prover]
pub proof fn lemma_perform_calls(v: StreamView, actions: Seq<Action>)
    requires
        stream_laws::fresh(v),
        !v.initialized,
        !v.failed,
        stream_counts::reflects(v, Seq::empty()),
    ensures
        calls_ok(
            stream_laws::perform(v, actions).0,
            stream_laws::perform(v, actions).1,
            heard(actions),
        ),
        stream_laws::no_tool_events(stream_laws::perform(v, actions).0.pending),
    decreases actions.len(),
{
    if actions.len() == 0 {
        lemma_no_calls(v);
        assert(v.pending =~= Seq::empty());
    } else {
        let rest = actions.drop_last();
        lemma_perform_calls(v, rest);
        stream_laws::lemma_perform_follows(v, rest);
        stream_laws::lemma_nothing_sent(v, rest);
        stream_counts::lemma_perform_reflects(v, rest);
        let (w, sent) = stream_laws::perform(v, rest);
        let ev = heard(rest);
        let a = protocol::new_client().run(sent).unwrap();
        let none = Seq::<sse::EventView>::empty();
        if !w.initialized {
            lemma_initial_calls(w);
            stream_model::lemma_initial(w);
        }
        match actions.last() {
            Action::Event(e) => {
                if w.failed {
                    assert(sent + none =~= sent);
                } else if w.waiting() {
                    stream_laws::lemma_prepared_live(w, a);
                    let y = w.prepared();
                    let b = protocol::new_client().run(y.pending).unwrap();
                    assert(sent =~= none);
                    if !w.initialized {
                        stream_counts::lemma_unheard(v, rest);
                        lemma_no_calls(y);
                    }
                    assert(calls_ok(y, none, ev));
                    lemma_event_calls(y, b, none, ev, e);
                    stream_model::lemma_kiro_event(y, e);
                    let (z, out) = y.kiro_event(e);
                    assert(none + out =~= out);
                    let kept = stream_model::with_input_tokens(z.pending, z.effective_input());
                    lemma_with_tokens_no_tools(z.pending, z.effective_input());
                    lemma_in_front(kept, out);
                    let x = w.take_events(e).0;
                    if e is ContextUsage || out.len() > 0 {
                        lemma_same_calls(z, x, out, kept + out, ev.push(e));
                        assert(sent + (kept + out) =~= kept + out);
                    } else {
                        assert(out =~= none);
                        assert(sent + none =~= none);
                    }
                } else if w.initialized {
                    stream_model::lemma_kiro_event(w, e);
                    lemma_event_calls(w, a, sent, ev, e);
                } else {
                    stream_counts::lemma_unheard(v, rest);
                    stream_laws::lemma_initial_live(w);
                    let (x, first) = w.initial();
                    let y = StreamView { initialized: true, ..x };
                    let c = a.run(first).unwrap();
                    stream_laws::lemma_live_fields(x, y, c);
                    lemma_same_calls(x, y, first, first, Seq::empty());
                    lemma_event_calls(y, c, first, ev, e);
                    stream_model::lemma_kiro_event(y, e);
                    assert(sent =~= none);
                    assert(sent + (first + y.kiro_event(e).1) =~= first + y.kiro_event(e).1);
                }
            },
            Action::Timeout => {
                if w.waiting() {
                    let y = w.prepared();
                    assert(sent =~= none);
                    if !w.initialized {
                        stream_counts::lemma_unheard(v, rest);
                        lemma_no_calls(y);
                    }
                    assert(calls_ok(y, none, ev));
                    let kept = stream_model::with_input_tokens(y.pending, y.effective_input());
                    lemma_with_tokens_no_tools(y.pending, y.effective_input());
                    lemma_in_front(kept, none);
                    let x = w.force_release().0;
                    lemma_same_calls(y, x, none, kept, ev);
                    assert(sent + kept =~= kept);
                } else {
                    assert(sent + none =~= sent);
                }
            },
        }
    }
}

/// Whether a tool call is let out: one that has begun, and in a delayed stream one that has
/// come to its end after all that began before it have.
pub open spec fn let_out(ev: Seq<KiroEventView>, id: Seq<char>, delayed: bool) -> bool {
    if delayed {
        upstream::ended(ev, id) && forall|d: Seq<char>| #[trigger]
            upstream::began_before(ev, d, id) ==> upstream::ended(ev, d)
    } else {
        upstream::begun(ev, id)
    }
}

/// What the client gets of tool calls, in every stream, however it ends. A call is started once
/// and in a block of its own, under the name by which the client knows the tool, if and only if
/// it is let out; and the pieces of input that the client gets for it, joined, are those that
/// the upstream service sent, joined, up to its end. Calls are numbered in the order in which
/// they began.
pub proof fn law_calls_arrive_whole(
    message_id: Seq<char>,
    model: Seq<char>,
    input_tokens: int,
    thinking_enabled: bool,
    tool_names: Seq<(Seq<char>, Seq<char>)>,
    delayed: bool,
    actions: Seq<Action>,
    ending: Ending,
)
    ensures
        ({
            let v = stream::new_stream(
                message_id,
                model,
                input_tokens,
                thinking_enabled,
                tool_names,
                delayed,
            );
            let trace = stream_laws::whole_trace(v, actions, ending);
            let ev = heard(actions);
            &&& forall|i: int| (#[trigger] starts_at(trace, i)).len() <= 1
            &&& forall|i: int|
                starts_at(trace, i).len() == 0 ==> #[trigger] json_at(trace, i) == Seq::<
                    char,
                >::empty()
            &&& forall|i: int|
                (#[trigger] starts_at(trace, i)).len() == 1 ==> {
                    let (id, name) = starts_at(trace, i)[0];
                    &&& let_out(ev, id, delayed)
                    &&& json_at(trace, i) == upstream::input_of(ev, id)
                    &&& upstream::name_of(ev, id) is Some
                    &&& upstream::goes_by(tool_names, upstream::name_of(ev, id).unwrap(), name)
                }
            &&& forall|id: Seq<char>| #[trigger]
                let_out(ev, id, delayed) ==> exists|i: int|
                    (#[trigger] starts_at(trace, i)).len() == 1 && starts_at(trace, i)[0].0 == id
            &&& forall|i: int, j: int|
                i < j && (#[trigger] starts_at(trace, i)).len() == 1 && (#[trigger] starts_at(
                    trace,
                    j,
                )).len() == 1 ==> upstream::began_before(
                    ev,
                    starts_at(trace, i)[0].0,
                    starts_at(trace, j)[0].0,
                )
        }),
{
    let v = stream::new_stream(
        message_id,
        model,
        input_tokens,
        thinking_enabled,
        tool_names,
        delayed,
    );
    lemma_perform_calls(v, actions);
    stream_counts::lemma_perform_reflects(v, actions);
    let (w, sent) = stream_laws::perform(v, actions);
    let ev = heard(actions);
    stream_laws::lemma_end_no_tools(w);
    stream_laws::lemma_failure_no_tools(w.with_stop_reason("max_tokens"@));
    let last = match ending {
        Ending::Complete => w.finalize().1,
        Ending::Failure => w.finalize_on_failure().1,
        Ending::Interrupt => w.finalize_on_interrupt().1,
    };
    assert(stream_laws::no_tool_events(last));
    let trace = stream_laws::whole_trace(v, actions, ending);
    assert(trace == sent + last);
    assert forall|i: int| #[trigger] same_at(sent, trace, i) by {
        lemma_silent(last, i);
        lemma_add_silent(sent, last, i);
    }
    lemma_same_calls(w, w, sent, trace, ev);
    lemma_books_tell(w, trace, ev);
}

/// Whether a call that is let out is sent whole, and of any other nothing.
spec fn sent_whole(
    w: StreamView,
    trace: Seq<sse::EventView>,
    ev: Seq<KiroEventView>,
    id: Seq<char>,
    i: int,
) -> bool {
    if let_out(ev, id, w.delayed) {
        &&& upstream::name_of(ev, id) is Some
        &&& starts_at(trace, i).len() == 1
        &&& starts_at(trace, i)[0] == (id, w.tool_name(upstream::name_of(ev, id).unwrap()))
        &&& json_at(trace, i) == upstream::input_of(ev, id)
    } else {
        silent_at(trace, i)
    }
}

proof fn lemma_sent_whole(
    w: StreamView,
    trace: Seq<sse::EventView>,
    ev: Seq<KiroEventView>,
    a: int,
)
    requires
        calls_ok(w, trace, ev),
        0 <= a < w.tool_indices.len(),
    ensures
        sent_whole(w, trace, ev, w.tool_indices[a].0, w.tool_indices[a].1),
{
    let indices = w.tool_indices;
    let f: int = if w.delayed {
        choose|f: int| held_up_to(w, trace, f)
    } else {
        indices.len() as int
    };
    let id = indices[a].0;
    let i = indices[a].1;
    assert(call_ok(w, trace, ev, id, i));
    lemma_lookup_at(indices, a);
    lemma_let_out(w, trace, ev, f, a);
    if a < f {
        let h = stream_model::held_of(w.buffered, id);
        if w.delayed {
            stream_laws::lemma_held_of_none(w.buffered, id);
        }
        assert(h =~= Seq::empty());
        assert(json_at(h, i) =~= Seq::empty());
        assert(starts_at(h, i) =~= Seq::empty());
        assert(json_at(trace, i) + json_at(h, i) =~= json_at(trace, i));
        assert(starts_at(trace, i) + starts_at(h, i) =~= starts_at(trace, i));
    } else {
        assert(silent_at(trace, i));
    }
}

/// The place among the calls of the one that is sent in a block.
proof fn lemma_in_block(
    w: StreamView,
    trace: Seq<sse::EventView>,
    ev: Seq<KiroEventView>,
    i: int,
) -> (a: int)
    requires
        calls_ok(w, trace, ev),
        !silent_at(trace, i),
    ensures
        0 <= a < w.tool_indices.len(),
        w.tool_indices[a].1 == i,
        sent_whole(w, trace, ev, w.tool_indices[a].0, i),
        let_out(ev, w.tool_indices[a].0, w.delayed),
{
    let indices = w.tool_indices;
    if forall|a: int| 0 <= a < indices.len() ==> (#[trigger] indices[a]).1 != i {
        assert(silent_at(trace, i));
    }
    let a = choose|a: int| 0 <= a < indices.len() && (#[trigger] indices[a]).1 == i;
    lemma_sent_whole(w, trace, ev, a);
    a
}

/// What the books on the calls say of what was sent.
#[verifier::rlimit(30)]
proof fn lemma_books_tell(w: StreamView, trace: Seq<sse::EventView>, ev: Seq<KiroEventView>)
    requires
        calls_ok(w, trace, ev),
    ensures
        forall|i: int| (#[trigger] starts_at(trace, i)).len() <= 1,
        forall|i: int|
            starts_at(trace, i).len() == 0 ==> #[trigger] json_at(trace, i) == Seq::<
                char,
            >::empty(),
        forall|i: int|
            (#[trigger] starts_at(trace, i)).len() == 1 ==> {
                let (id, name) = starts_at(trace, i)[0];
                &&& let_out(ev, id, w.delayed)
                &&& json_at(trace, i) == upstream::input_of(ev, id)
                &&& upstream::name_of(ev, id) is Some
                &&& upstream::goes_by(w.tool_names, upstream::name_of(ev, id).unwrap(), name)
            },
        forall|id: Seq<char>| #[trigger]
            let_out(ev, id, w.delayed) ==> exists|i: int|
                (#[trigger] starts_at(trace, i)).len() == 1 && starts_at(trace, i)[0].0 == id,
        forall|i: int, j: int|
            i < j && (#[trigger] starts_at(trace, i)).len() == 1 && (#[trigger] starts_at(
                trace,
                j,
            )).len() == 1 ==> upstream::began_before(
                ev,
                starts_at(trace, i)[0].0,
                starts_at(trace, j)[0].0,
            ),
{
    let indices = w.tool_indices;
    assert forall|i: int| (#[trigger] starts_at(trace, i)).len() <= 1 by {
        if !silent_at(trace, i) {
            let a = lemma_in_block(w, trace, ev, i);
        }
    }
    assert forall|i: int| starts_at(trace, i).len() == 0 implies #[trigger] json_at(trace, i)
        == Seq::<char>::empty() by {
        if !silent_at(trace, i) {
            let a = lemma_in_block(w, trace, ev, i);
        }
    }
    assert forall|i: int| (#[trigger] starts_at(trace, i)).len() == 1 implies {
        let (id, name) = starts_at(trace, i)[0];
        &&& let_out(ev, id, w.delayed)
        &&& json_at(trace, i) == upstream::input_of(ev, id)
        &&& upstream::name_of(ev, id) is Some
        &&& upstream::goes_by(w.tool_names, upstream::name_of(ev, id).unwrap(), name)
    } by {
        let a = lemma_in_block(w, trace, ev, i);
        lemma_client_name(w, upstream::name_of(ev, indices[a].0).unwrap());
    }
    assert forall|id: Seq<char>| #[trigger] let_out(ev, id, w.delayed) implies exists|i: int|
        (#[trigger] starts_at(trace, i)).len() == 1 && starts_at(trace, i)[0].0 == id by {
        if w.delayed {
            lemma_ended_begun(ev, id);
        }
        assert(stream_model::lookup(indices, id) is Some);
        let a = lemma_lookup_found(indices, id);
        lemma_sent_whole(w, trace, ev, a);
        assert(starts_at(trace, indices[a].1).len() == 1);
    }
    assert forall|i: int, j: int|
        i < j && (#[trigger] starts_at(trace, i)).len() == 1 && (#[trigger] starts_at(
            trace,
            j,
        )).len() == 1 implies upstream::began_before(
        ev,
        starts_at(trace, i)[0].0,
        starts_at(trace, j)[0].0,
    ) by {
        let a = lemma_in_block(w, trace, ev, i);
        let b = lemma_in_block(w, trace, ev, j);
        if b < a {
            assert(indices[b].1 < indices[a].1);
        }
        assert(a != b);
        assert(upstream::began_before(ev, indices[a].0, indices[b].0));
    }
}

proof fn lemma_ended_begun(ev: Seq<KiroEventView>, id: Seq<char>)
    requires
        upstream::ended(ev, id),
    ensures
        upstream::begun(ev, id),
{
    let k = choose|k: int| 0 <= k < ev.len() && upstream::is_last_piece(#[trigger] ev[k], id);
    assert(upstream::is_piece(ev[k], id));
}

/// The calls that are let out are those before the first that is held back.
proof fn lemma_let_out(
    w: StreamView,
    trace: Seq<sse::EventView>,
    ev: Seq<KiroEventView>,
    f: int,
    a: int,
)
    requires
        calls_ok(w, trace, ev),
        w.delayed ==> held_up_to(w, trace, f),
        !w.delayed ==> f == w.tool_indices.len(),
        0 <= a < w.tool_indices.len(),
    ensures
        let_out(ev, w.tool_indices[a].0, w.delayed) <==> a < f,
{
    let indices = w.tool_indices;
    let id = indices[a].0;
    lemma_lookup_at(indices, a);
    assert(upstream::begun(ev, id));
    if w.delayed {
        if a < f {
            assert(w.completed.contains(indices[a].0));
            assert forall|d: Seq<char>| #[trigger]
                upstream::began_before(ev, d, id) implies upstream::ended(ev, d) by {
                upstream::lemma_began_before(ev, d, id);
                assert(stream_model::lookup(indices, d) is Some);
                let b = lemma_lookup_found(indices, d);
                if b > a {
                    assert(upstream::began_before(ev, indices[a].0, indices[b].0));
                } else {
                    assert(w.completed.contains(indices[b].0));
                }
            }
        } else {
            assert(!w.completed.contains(indices[f].0));
            if f < a {
                assert(upstream::began_before(ev, indices[f].0, indices[a].0));
            }
            if let_out(ev, id, true) {
                assert(upstream::ended(ev, indices[f].0));
                assert(w.completed.contains(indices[f].0));
            }
        }
    }
}

proof fn lemma_client_name(w: StreamView, name: Seq<char>)
    ensures
        upstream::goes_by(w.tool_names, name, w.tool_name(name)),
{
    let names = w.tool_names;
    let p = stream_model::has_key(names, name);
    text::lemma_search(p, 0, names.len() as int);
    match text::search(p, 0, names.len() as int) {
        Some(j) => {
            assert(names[j] == (name, names[j].1));
            assert forall|i: int| 0 <= i < j implies (#[trigger] names[i]).0 != name by {
                assert(!p(i));
            }
        },
        None => {
            assert forall|i: int| 0 <= i < names.len() implies (#[trigger] names[i]).0 != name by {
                assert(!p(i));
            }
        },
    }
}

} // verus!
