//! An answer that is sent as a whole is split into thinking and text as the same answer in
//! a stream is.

use vstd::prelude::*;
use crate::anthropic::protocol;
use crate::anthropic::sse;
use crate::anthropic::state_manager;
use crate::anthropic::stream;
use crate::anthropic::stream_model;
use crate::anthropic::stream_model::StreamView;
use crate::anthropic::thinking;
use crate::text;

verus! {

/// What an event adds to the text of a message.
pub open spec fn text_of(e: sse::EventView) -> Seq<char> {
    match e.data {
        sse::DataView::BlockDelta { delta: sse::DeltaView::Text(t), .. } => t,
        _ => Seq::empty(),
    }
}

/// What an event adds to the thinking of a message.
pub open spec fn thought_of(e: sse::EventView) -> Seq<char> {
    match e.data {
        sse::DataView::BlockDelta { delta: sse::DeltaView::Thinking(t), .. } => t,
        _ => Seq::empty(),
    }
}

/// The text that events send, joined.
pub open spec fn texts_in(ev: Seq<sse::EventView>) -> Seq<char>
    decreases ev.len(),
{
    if ev.len() == 0 {
        Seq::empty()
    } else {
        texts_in(ev.drop_last()) + text_of(ev.last())
    }
}

/// The thinking that events send, joined.
pub open spec fn thoughts_in(ev: Seq<sse::EventView>) -> Seq<char>
    decreases ev.len(),
{
    if ev.len() == 0 {
        Seq::empty()
    } else {
        thoughts_in(ev.drop_last()) + thought_of(ev.last())
    }
}

/// Whether events send this text and this thinking.
pub open spec fn send(ev: Seq<sse::EventView>, texts: Seq<char>, thoughts: Seq<char>) -> bool {
    texts_in(ev) == texts && thoughts_in(ev) == thoughts
}

pub proof fn lemma_send_concat(a: Seq<sse::EventView>, b: Seq<sse::EventView>)
    ensures
        send(a + b, texts_in(a) + texts_in(b), thoughts_in(a) + thoughts_in(b)),
    decreases b.len(),
{
    if b.len() == 0 {
        assert(a + b =~= a);
        assert(texts_in(a) + texts_in(b) =~= texts_in(a));
        assert(thoughts_in(a) + thoughts_in(b) =~= thoughts_in(a));
    } else {
        lemma_send_concat(a, b.drop_last());
        assert((a + b).drop_last() =~= a + b.drop_last());
        assert((a + b).last() == b.last());
        assert(texts_in(a + b) =~= texts_in(a) + texts_in(b));
        assert(thoughts_in(a + b) =~= thoughts_in(a) + thoughts_in(b));
    }
}

pub proof fn lemma_send_one(e: sse::EventView)
    ensures
        send(seq![e], text_of(e), thought_of(e)),
{
    reveal_with_fuel(texts_in, 2);
    reveal_with_fuel(thoughts_in, 2);
    assert(seq![e].drop_last() =~= Seq::empty());
    assert(texts_in(seq![e]) =~= text_of(e));
    assert(thoughts_in(seq![e]) =~= thought_of(e));
}

pub proof fn lemma_send_none()
    ensures
        send(Seq::empty(), Seq::empty(), Seq::empty()),
{
}

/// Whether the next index is above all that are in use.
pub open spec fn next_is_new(m: state_manager::ManagerView) -> bool {
    forall|i: int| 0 <= i < m.blocks.len() ==> (#[trigger] m.blocks[i]).index < m.next_block_index
}

pub proof fn lemma_open(v: StreamView, kind: Seq<char>, block: sse::ContentBlockView)
    requires
        next_is_new(v.manager),
        kind == "text"@ || kind == "thinking"@,
    ensures
        ({
            let (w, ev) = v.open_block(kind, block);
            let i = v.manager.next_block_index;
            let b = state_manager::BlockView { index: i, kind, started: true, stopped: false };
            &&& w == (StreamView { manager: w.manager, ..v })
            &&& next_is_new(w.manager)
            &&& w.manager.next_block_index == i + 1
            &&& w.manager.blocks == v.manager.blocks.push(b)
            &&& w.manager.block(i) == Some(b)
            &&& send(ev, Seq::empty(), Seq::empty())
        }),
{
    reveal(StreamView::open_block);
    reveal(state_manager::ManagerView::start_block);
    protocol::lemma_kinds();
    let i = v.manager.next_block_index;
    let old_blocks = v.manager.blocks;
    text::lemma_search(|k: int| old_blocks[k].index == i, 0, old_blocks.len() as int);
    let (w, ev) = v.open_block(kind, block);
    let new_blocks = w.manager.blocks;
    let p = |k: int| new_blocks[k].index == i;
    text::lemma_search(p, 0, new_blocks.len() as int);
    assert(state_manager::find_block(old_blocks, i) is None);
    assert(p(old_blocks.len() as int));
    assert forall|k: int| 0 <= k < old_blocks.len() implies !(#[trigger] p(k)) by {
        assert(new_blocks[k] == old_blocks[k]);
    }
    let e = state_manager::start_event(sse::DataView::BlockStart { index: i, block });
    assert(ev =~= seq![e]);
    lemma_send_one(e);
}

pub proof fn lemma_text(v: StreamView, t: Seq<char>)
    requires
        next_is_new(v.manager),
    ensures
        ({
            let (w, ev) = v.text_delta(t);
            &&& w == (StreamView { manager: w.manager, text_index: w.text_index, ..v })
            &&& next_is_new(w.manager)
            &&& w.has_other_blocks()
            &&& send(ev, t, Seq::empty())
        }),
{
    reveal(StreamView::text_delta);
    reveal(state_manager::ManagerView::delta);
    protocol::lemma_kinds();
    if v.text_open() {
        let i = v.text_index.unwrap();
        let blocks = v.manager.blocks;
        text::lemma_search(|k: int| blocks[k].index == i, 0, blocks.len() as int);
        let k = state_manager::find_block(blocks, i).unwrap();
        assert(blocks[k].kind != "thinking"@);
        lemma_send_one(state_manager::delta_event(stream_model::text_data(i, t)));
    } else {
        let i = v.manager.next_block_index;
        lemma_open(v, "text"@, sse::ContentBlockView::Text);
        let (w, starts) = v.open_block("text"@, sse::ContentBlockView::Text);
        let e = state_manager::delta_event(stream_model::text_data(i, t));
        lemma_send_one(e);
        lemma_send_concat(starts, seq![e]);
        assert(Seq::<char>::empty() + t =~= t);
        let blocks = w.manager.blocks;
        assert(blocks[blocks.len() - 1].kind != "thinking"@);
    }
}

pub proof fn lemma_close(v: StreamView, index: int, content: Seq<char>)
    requires
        next_is_new(v.manager),
    ensures
        ({
            let (w, ev) = v.close_thinking(index, content);
            &&& w == (StreamView { manager: w.manager, ..v })
            &&& next_is_new(w.manager)
            &&& w.has_other_blocks() == v.has_other_blocks()
            &&& send(ev, Seq::empty(), content)
        }),
{
    reveal(StreamView::close_thinking);
    reveal(state_manager::ManagerView::stop_block);
    let (w, ev) = v.close_thinking(index, content);
    let a = v.manager.blocks;
    let b = w.manager.blocks;
    text::lemma_search(|k: int| a[k].index == index, 0, a.len() as int);
    assert(a.len() == b.len());
    assert forall|k: int| 0 <= k < a.len() implies (#[trigger] a[k]).kind == b[k].kind
        && a[k].index == b[k].index by {}
    if v.has_other_blocks() {
        let k = choose|k: int| 0 <= k < a.len() && (#[trigger] a[k]).kind != "thinking"@;
        assert(b[k].kind != "thinking"@);
    }
    if w.has_other_blocks() {
        let k = choose|k: int| 0 <= k < b.len() && (#[trigger] b[k]).kind != "thinking"@;
        assert(a[k].kind != "thinking"@);
    }
    assert forall|k: int| 0 <= k < b.len() implies (#[trigger] b[k]).index
        < w.manager.next_block_index by {
        assert(a[k].index < v.manager.next_block_index);
    }
    let head = if content.len() == 0 {
        Seq::empty()
    } else {
        seq![stream_model::thinking_event(index, content)]
    };
    let x = stream_model::thinking_event(index, Seq::empty());
    let y = stream_model::signature_event(index, thinking::thinking_signature(content));
    let stops = v.manager.stop_block(index).1;
    lemma_send_one(stream_model::thinking_event(index, content));
    lemma_send_none();
    assert(send(head, Seq::empty(), content)) by {
        if content.len() == 0 {
            assert(content =~= Seq::empty());
        }
    }
    lemma_send_one(x);
    lemma_send_one(y);
    lemma_send_concat(seq![x], seq![y]);
    assert(seq![x] + seq![y] =~= seq![x, y]);
    lemma_send_one(state_manager::stop_event(index));
    assert(send(stops, Seq::empty(), Seq::empty()));
    lemma_send_concat(head, seq![x, y]);
    lemma_send_concat(head + seq![x, y], stops);
    assert(texts_in(ev) =~= Seq::empty());
    assert(thoughts_in(ev) =~= content);
}

/// A newline in front does not move the first closing tag but for its place.
proof fn lemma_end_tag_behind_newline(s: Seq<char>)
    requires
        s.len() > 0,
        s[0] == '\n',
        thinking::first_end_tag(s) is Some,
    ensures
        thinking::first_end_tag(s).unwrap() > 0,
        thinking::first_end_tag(s.skip(1)) == Some(thinking::first_end_tag(s).unwrap() - 1),
{
    thinking::lemma_tag_lengths();
    reveal_strlit("</thinking>");
    let t = s.skip(1);
    let p = |k: int| thinking::end_tag_at(s, k);
    let q = |k: int| thinking::end_tag_at(t, k);
    text::lemma_search(p, 0, s.len() as int);
    text::lemma_search(q, 0, t.len() as int);
    let e = thinking::first_end_tag(s).unwrap();
    assert(p(e));
    assert(!p(0)) by {
        if p(0) {
            assert(s.subrange(0, 11)[0] == "</thinking>"@[0]);
        }
    }
    assert forall|k: int| 0 <= k < t.len() implies #[trigger] q(k) == p(k + 1) by {
        lemma_end_tag_shift(s, k);
    }
    assert(q(e - 1));
    let f = thinking::first_end_tag(t).unwrap();
    assert(q(f));
    assert(p(f + 1));
    if f > e - 1 {
        assert(q(e - 1));
        assert(false);
    }
    if f < e - 1 {
        assert(p(f + 1));
        assert(false);
    }
}

proof fn lemma_end_tag_shift(s: Seq<char>, k: int)
    requires
        s.len() > 0,
        s[0] == '\n',
        0 <= k < s.len() - 1,
    ensures
        thinking::end_tag_at(s.skip(1), k) == thinking::end_tag_at(s, k + 1),
{
    let t = s.skip(1);
    thinking::lemma_tag_lengths();
    lemma_occurs_shift(s, "</thinking>"@, k);
    lemma_occurs_shift(s, "\n\n"@, k + 11);
    assert(k + 11 < t.len() ==> t[k + 11] == s[k + 12]);
    if k > 0 {
        assert(t[k - 1] == s[k]);
    } else {
        assert(!thinking::is_quote(s[0]));
    }
}

proof fn lemma_occurs_shift(s: Seq<char>, pat: Seq<char>, k: int)
    requires
        s.len() > 0,
        k >= 0,
    ensures
        text::occurs_at(s.skip(1), pat, k) == text::occurs_at(s, pat, k + 1),
{
    let t = s.skip(1);
    if k + pat.len() <= t.len() {
        assert(t.subrange(k, k + pat.len()) =~= s.subrange(k + 1, k + 1 + pat.len()));
    }
}

/// From the opening tag on: the thinking up to the closing tag, then the text behind it.
proof fn lemma_inside(v: StreamView, open: Seq<char>)
    requires
        next_is_new(v.manager),
        v.buffer == open,
        v.strip_newline,
        v.thinking_index is Some,
        thinking::first_end_tag(open) is Some,
    ensures
        ({
            let (w, ev) = v.inside_thinking();
            let (raw, after) = thinking::split_at_end_tag(open).unwrap();
            &&& next_is_new(w.manager)
            &&& w.buffer == Seq::<char>::empty()
            &&& w.thinking_enabled == v.thinking_enabled
            &&& w.thinking_index == v.thinking_index
            &&& w.has_other_blocks() == (v.has_other_blocks() || after.len() > 0)
            &&& send(ev, after, thinking::strip_newline(raw))
        }),
{
    thinking::lemma_tag_lengths();
    text::lemma_search(|k: int| thinking::end_tag_at(open, k), 0, open.len() as int);
    let e = thinking::first_end_tag(open).unwrap();
    let (raw, after) = thinking::split_at_end_tag(open).unwrap();
    let x = v.drop_newline();
    let f: int = if open[0] == '\n' {
        e - 1
    } else {
        e
    };
    if open[0] == '\n' {
        lemma_end_tag_behind_newline(open);
        assert(x.buffer == open.skip(1));
        assert(open.skip(1).take(f) =~= thinking::strip_newline(raw));
        assert(open.skip(1).skip(f + 13) =~= after);
    } else {
        assert(x.buffer == open);
        assert(raw == open.take(e));
        if e > 0 {
            assert(raw[0] == open[0]);
        }
        assert(open.take(f) =~= thinking::strip_newline(raw));
    }
    assert(thinking::first_end_tag(x.buffer) == Some(f));
    let y = StreamView { in_thinking: false, thinking_extracted: true, ..x };
    let i = v.thinking_index.unwrap();
    let content = x.buffer.take(f);
    assert(y.has_other_blocks() == v.has_other_blocks());
    lemma_close(y, i, content);
    let (z, first) = y.close_thinking(i, content);
    let z2 = StreamView { buffer: after, ..z };
    assert(z2.has_other_blocks() == z.has_other_blocks());
    if after.len() == 0 {
        assert(after =~= Seq::empty());
        lemma_send_none();
        lemma_send_concat(first, Seq::empty());
        assert(first + Seq::<sse::EventView>::empty() =~= first);
    } else {
        let z3 = StreamView { buffer: Seq::empty(), ..z2 };
        lemma_text(z3, after);
        let more = z3.text_delta(after).1;
        lemma_send_concat(first, more);
        assert(Seq::<char>::empty() + after =~= after);
        assert(content + Seq::<char>::empty() =~= content);
    }
}

/// What the end of an answer adds once the buffer is sent: a blank where there was nothing
/// but thinking.
pub proof fn lemma_ending(v: StreamView)
    requires
        next_is_new(v.manager),
        v.thinking_enabled,
    ensures
        ({
            let (w, ev2) = v.fill_in_text();
            let ev3 = w.finish(w.effective_input(), w.effective_output()).1;
            send(
                ev2 + ev3,
                if v.thinking_index is None || v.has_other_blocks() {
                    Seq::empty()
                } else {
                    " "@
                },
                Seq::empty(),
            )
        }),
{
    reveal(StreamView::fill_in_text);
    reveal(StreamView::finish);
    let (w, ev2) = v.fill_in_text();
    lemma_send_none();
    let u = v.with_stop_reason("max_tokens"@);
    assert(next_is_new(u.manager));
    if v.thinking_index is Some && !v.has_other_blocks() {
        lemma_text(u, " "@);
    }
    let ev3 = w.finish(w.effective_input(), w.effective_output()).1;
    lemma_finish(w.manager, w.effective_input(), w.effective_output());
    lemma_send_concat(ev2, ev3);
    assert(texts_in(ev2) + Seq::<char>::empty() =~= texts_in(ev2));
    assert(Seq::<char>::empty() + Seq::<char>::empty() =~= Seq::<char>::empty());
}

/// The events at the end of an answer: the rest of the buffer, then the ending.
proof fn lemma_final(v: StreamView, texts: Seq<char>, thoughts: Seq<char>)
    requires
        v.thinking_enabled,
        next_is_new(v.flush_buffer().0.manager),
        v.flush_buffer().0.thinking_enabled,
        send(v.flush_buffer().1, texts, thoughts),
    ensures
        ({
            let w = v.flush_buffer().0;
            send(
                v.final_events().1,
                texts + if w.thinking_index is None || w.has_other_blocks() {
                    Seq::empty()
                } else {
                    " "@
                },
                thoughts,
            )
        }),
{
    let (w, ev1) = v.flush_buffer();
    lemma_ending(w);
    let (x, ev2) = w.fill_in_text();
    let ev3 = x.finish(x.effective_input(), x.effective_output()).1;
    lemma_send_concat(ev1, ev2 + ev3);
    assert(ev1 + (ev2 + ev3) =~= ev1 + ev2 + ev3);
    assert(v.final_events().1 == ev1 + ev2 + ev3);
    assert(thoughts + Seq::<char>::empty() =~= thoughts);
}

pub proof fn lemma_finish(m: state_manager::ManagerView, input: int, output: int)
    ensures
        send(m.finish(input, output).1, Seq::empty(), Seq::empty()),
{
    reveal(state_manager::ManagerView::finish);
    let p = state_manager::open_blocks(false);
    let stops = state_manager::stops_for(m.blocks, p);
    lemma_stops(m.blocks, p);
    let delta = if m.message_delta_sent {
        Seq::empty()
    } else {
        seq![state_manager::message_delta_event(m.final_stop_reason(), input, output)]
    };
    let end = if m.message_ended {
        Seq::empty()
    } else {
        seq![state_manager::message_stop_event()]
    };
    lemma_send_none();
    lemma_send_one(state_manager::message_delta_event(m.final_stop_reason(), input, output));
    lemma_send_one(state_manager::message_stop_event());
    lemma_send_concat(stops, delta);
    lemma_send_concat(stops + delta, end);
    assert(Seq::<char>::empty() + Seq::<char>::empty() =~= Seq::<char>::empty());
}

pub proof fn lemma_stops(
    blocks: Seq<state_manager::BlockView>,
    p: spec_fn(state_manager::BlockView) -> bool,
)
    ensures
        send(state_manager::stops_for(blocks, p), Seq::empty(), Seq::empty()),
    decreases blocks.len(),
{
    if blocks.len() > 0 {
        lemma_stops(blocks.drop_last(), p);
        if p(blocks.last()) {
            let head = state_manager::stops_for(blocks.drop_last(), p);
            let e = state_manager::stop_event(blocks.last().index);
            lemma_send_one(e);
            lemma_send_concat(head, seq![e]);
            assert(head.push(e) =~= head + seq![e]);
            assert(Seq::<char>::empty() + Seq::<char>::empty() =~= Seq::<char>::empty());
        }
    }
}

/// All events of a stream in which an answer comes in one piece.
pub open spec fn events_of_one_piece(v: StreamView, s: Seq<char>) -> Seq<sse::EventView> {
    let (v1, first) = v.initial();
    let (v2, answer) = v1.assistant_response(s);
    first + answer + v2.final_events().1
}

/// Whether an end of the thinking block that stands behind its opening tag is seen in a
/// stream as it is in a complete answer: a closing tag before an empty line is, one at the
/// end is if at most two bytes of white space are behind it.
pub open spec fn ends_alike(open: Seq<char>) -> bool {
    ||| thinking::first_end_tag(open) is Some
    ||| {
        &&& thinking::first_last_end_tag(open) is Some
        &&& text::byte_len(open.skip(thinking::first_last_end_tag(open).unwrap() + 11)) <= 2
    }
}

proof fn lemma_within(s: Seq<char>, bytes: nat, f: int)
    requires
        0 <= f <= s.len(),
        text::byte_len(s.take(f)) >= bytes,
    ensures
        0 <= text::chars_within(s, bytes) <= f,
    decreases s.len(),
{
    if f < s.len() {
        text::lemma_prefix_bytes(s, f, s.len() as int);
        assert(s.take(s.len() as int) =~= s);
        assert(s.drop_last().take(f) =~= s.take(f));
        lemma_within(s.drop_last(), bytes, f);
    } else if s.len() > 0 && text::byte_len(s) > bytes {
        lemma_within_len(s.drop_last(), bytes);
    }
}

pub proof fn lemma_within_len(s: Seq<char>, bytes: nat)
    ensures
        0 <= text::chars_within(s, bytes) <= s.len(),
    decreases s.len(),
{
    if s.len() > 0 && text::byte_len(s) > bytes {
        lemma_within_len(s.drop_last(), bytes);
    }
}

/// The closing tag takes as many bytes as characters.
proof fn lemma_tag_bytes(t: Seq<char>, n: int)
    requires
        t == "</thinking>"@,
        0 <= n <= 11,
    ensures
        t.len() == 11,
        text::byte_len(t.take(n)) == n,
    decreases n,
{
    reveal_strlit("</thinking>");
    if n > 0 {
        lemma_tag_bytes(t, n - 1);
        text::lemma_prefix_step(t, n - 1);
        text::lemma_char_width(t[n - 1]);
    } else {
        assert(t.take(0) =~= Seq::empty());
    }
}

proof fn lemma_occurs_behind(s: Seq<char>, pat: Seq<char>, k: int, j: int)
    requires
        0 <= k <= s.len(),
        j >= 0,
    ensures
        text::occurs_at(s.skip(k), pat, j) == text::occurs_at(s, pat, k + j),
{
    let t = s.skip(k);
    if j + pat.len() <= t.len() {
        assert(t.subrange(j, j + pat.len()) =~= s.subrange(k + j, k + j + pat.len()));
    }
}

/// A closing tag at the end is still found in what is left of the buffer.
proof fn lemma_last_tag_behind(s: Seq<char>, k: int)
    requires
        thinking::first_last_end_tag(s) is Some,
        0 <= k <= thinking::first_last_end_tag(s).unwrap(),
    ensures
        thinking::first_last_end_tag(s.skip(k)) == Some(
            thinking::first_last_end_tag(s).unwrap() - k,
        ),
{
    thinking::lemma_tag_lengths();
    let t = s.skip(k);
    let e = thinking::first_last_end_tag(s).unwrap();
    let p = |i: int| thinking::last_end_tag_at(s, i);
    let q = |i: int| thinking::last_end_tag_at(t, i);
    text::lemma_search(p, 0, s.len() as int);
    text::lemma_search(q, 0, t.len() as int);
    assert(p(e));
    lemma_occurs_behind(s, "</thinking>"@, k, e - k);
    assert(t.skip(e - k + 11) =~= s.skip(e + 11));
    if e - k > 0 {
        assert(t[e - k - 1] == s[e - 1]);
    }
    assert(e + 11 < s.len() ==> t[e - k + 11] == s[e + 11]);
    assert(q(e - k));
    let f = thinking::first_last_end_tag(t).unwrap();
    assert(q(f));
    lemma_white_behind(t, f, e - k);
}

/// Nothing but white space is behind a closing tag at the end, so no other tag is.
proof fn lemma_white_behind(t: Seq<char>, f: int, g: int)
    requires
        0 <= f,
        0 <= g,
        thinking::last_end_tag_at(t, f),
        text::occurs_at(t, "</thinking>"@, g),
    ensures
        g <= f,
{
    thinking::lemma_tag_lengths();
    reveal_strlit("</thinking>");
    let tag = "</thinking>"@;
    assert(t.subrange(g, g + 11)[0] == tag[0]);
    if f < g < f + 11 {
        assert(t.subrange(f, f + 11)[g - f] == tag[g - f]);
    } else if g >= f + 11 {
        assert(t.skip(f + 11)[g - f - 11] == t[g]);
        assert(text::is_white(t[g]));
    }
}

/// A newline in front does not move the last closing tag but for its place, nor does it
/// make one before an empty line.
proof fn lemma_tags_behind_newline(s: Seq<char>)
    requires
        s.len() > 0,
        s[0] == '\n',
        thinking::first_end_tag(s) is None,
        thinking::first_last_end_tag(s) is Some,
    ensures
        thinking::first_end_tag(s.skip(1)) is None,
        thinking::first_last_end_tag(s).unwrap() > 0,
{
    thinking::lemma_tag_lengths();
    reveal_strlit("</thinking>");
    let t = s.skip(1);
    let p = |k: int| thinking::end_tag_at(s, k);
    let q = |k: int| thinking::end_tag_at(t, k);
    let r = |k: int| thinking::last_end_tag_at(s, k);
    text::lemma_search(p, 0, s.len() as int);
    text::lemma_search(q, 0, t.len() as int);
    text::lemma_search(r, 0, s.len() as int);
    assert(!r(0)) by {
        if r(0) {
            assert(s.subrange(0, 11)[0] == "</thinking>"@[0]);
        }
    }
    if thinking::first_end_tag(t) is Some {
        let f = thinking::first_end_tag(t).unwrap();
        assert(q(f));
        lemma_end_tag_shift(s, f);
        assert(p(f + 1));
    }
}

/// From the opening tag to the end of the answer: the thinking up to the closing tag, the
/// text behind it, and the ending.
proof fn lemma_rest(v: StreamView, open: Seq<char>)
    requires
        next_is_new(v.manager),
        v.buffer == open,
        v.strip_newline,
        v.in_thinking,
        v.thinking_enabled,
        v.thinking_index is Some,
        ends_alike(open),
    ensures
        ({
            let (w, ev) = v.inside_thinking();
            let (raw, after) = thinking::split_at_end_tag(open).unwrap();
            send(
                ev + w.final_events().1,
                if after.len() == 0 && !v.has_other_blocks() {
                    " "@
                } else {
                    after
                },
                thinking::strip_newline(raw),
            )
        }),
{
    let (w, ev) = v.inside_thinking();
    let last = w.final_events().1;
    let (raw, after) = thinking::split_at_end_tag(open).unwrap();
    let thought = thinking::strip_newline(raw);
    let none = Seq::<char>::empty();
    lemma_send_none();
    if thinking::first_end_tag(open) is Some {
        lemma_inside(v, open);
        reveal(StreamView::flush_buffer);
        lemma_final(w, none, none);
        lemma_send_concat(ev, last);
        assert(thought + none =~= thought);
        if after.len() == 0 {
            assert(after =~= none);
        }
        if w.has_other_blocks() {
            assert(after + (none + none) =~= after);
        } else {
            assert(after + (none + " "@) =~= " "@);
        }
    } else {
        lemma_tag_at_end(v, open);
        lemma_final(w, none, thought.skip(thoughts_in(ev).len() as int));
        lemma_send_concat(ev, last);
        assert(thoughts_in(ev) + thought.skip(thoughts_in(ev).len() as int) =~= thought);
        if v.has_other_blocks() {
            assert(none + (none + none) =~= after);
        } else {
            assert(none + (none + " "@) =~= " "@);
        }
    }
}

/// A closing tag at the end stands at the end of the thinking, and is kept back.
proof fn lemma_kept_back(open: Seq<char>)
    requires
        thinking::first_end_tag(open) is None,
        ends_alike(open),
    ensures
        ({
            let (raw, after) = thinking::split_at_end_tag(open).unwrap();
            let thought = thinking::strip_newline(raw);
            let b = thinking::strip_newline(open);
            &&& open.len() > 0
            &&& after == Seq::<char>::empty()
            &&& thinking::first_end_tag(b) is None
            &&& thinking::first_last_end_tag(b) == Some(thought.len() as int)
            &&& thought.len() + 11 <= b.len()
            &&& b.take(thought.len() as int) == thought
            &&& text::all_white(b.skip(thought.len() as int + 11))
            &&& 0 <= stream_model::sendable(b, 13) <= thought.len()
        }),
{
    thinking::lemma_tag_lengths();
    let e = thinking::first_last_end_tag(open).unwrap();
    text::lemma_search(|i: int| thinking::last_end_tag_at(open, i), 0, open.len() as int);
    let (raw, after) = thinking::split_at_end_tag(open).unwrap();
    text::lemma_trim_start_white(open.skip(e + 11));
    assert(after =~= Seq::empty());
    let thought = thinking::strip_newline(raw);
    let b = thinking::strip_newline(open);
    let f: int = thought.len() as int;
    if open[0] == '\n' {
        lemma_tags_behind_newline(open);
        lemma_last_tag_behind(open, 1);
        assert(raw[0] == open[0]);
        assert(f == e - 1);
        assert(b.skip(f + 11) =~= open.skip(e + 11));
    } else {
        if e > 0 {
            assert(raw[0] == open[0]);
        }
    }
    assert(b.take(f) =~= thought);
    assert(thinking::first_last_end_tag(b) == Some(f));
    text::lemma_search(|i: int| thinking::last_end_tag_at(b, i), 0, b.len() as int);
    text::lemma_byte_len_split(b, f);
    text::lemma_byte_len_split(b.skip(f), 11);
    assert(b.skip(f).take(11) =~= b.subrange(f, f + 11));
    assert(b.skip(f).skip(11) =~= b.skip(f + 11));
    lemma_tag_bytes("</thinking>"@, 11);
    assert("</thinking>"@.take(11) =~= "</thinking>"@);
    let n = text::byte_len(b);
    let bound: nat = if n < 13 {
        0
    } else {
        (n - 13) as nat
    };
    lemma_within(b, bound, f);
}

/// With the closing tag at the end, the thinking is sent in two parts: what need not be
/// kept back, and what is before the tag in the buffer.
proof fn lemma_tag_at_end(v: StreamView, open: Seq<char>)
    requires
        next_is_new(v.manager),
        v.buffer == open,
        v.strip_newline,
        v.in_thinking,
        v.thinking_enabled,
        v.thinking_index is Some,
        thinking::first_end_tag(open) is None,
        ends_alike(open),
    ensures
        ({
            let (w, ev) = v.inside_thinking();
            let (raw, after) = thinking::split_at_end_tag(open).unwrap();
            let (x, more) = w.flush_buffer();
            let thought = thinking::strip_newline(raw);
            let k = thoughts_in(ev).len() as int;
            &&& after == Seq::<char>::empty()
            &&& w.thinking_enabled
            &&& next_is_new(x.manager)
            &&& x.thinking_enabled
            &&& x.thinking_index is Some
            &&& x.has_other_blocks() == v.has_other_blocks()
            &&& k <= thought.len()
            &&& send(ev, Seq::empty(), thought.take(k))
            &&& send(more, Seq::empty(), thought.skip(k))
        }),
{
    let none = Seq::<char>::empty();
    lemma_send_none();
    lemma_kept_back(open);
    let thought = thinking::strip_newline(thinking::split_at_end_tag(open).unwrap().0);
    let f: int = thought.len() as int;
    let d = v.drop_newline();
    let b = d.buffer;
    assert(b == thinking::strip_newline(open));
    let k = stream_model::sendable(b, 13);
    let i = v.thinking_index.unwrap();
    let (w, ev) = v.inside_thinking();
    lemma_send_one(stream_model::thinking_event(i, b.take(k)));
    assert(b.skip(0) =~= b);
    assert(b.take(0) =~= none);
    assert(w == (StreamView { buffer: b.skip(k), ..d }));
    assert(b.take(k) =~= thought.take(k));
    assert(send(ev, none, thought.take(k)));
    lemma_flush_tag(w, b, k, f);
    assert(b.skip(k).take(f - k) =~= thought.skip(k));
    assert(w.has_other_blocks() == v.has_other_blocks());
}

/// What is left in the buffer is sent up to the closing tag at its end.
proof fn lemma_flush_tag(w: StreamView, b: Seq<char>, k: int, f: int)
    requires
        next_is_new(w.manager),
        w.in_thinking,
        w.thinking_enabled,
        w.thinking_index is Some,
        thinking::first_last_end_tag(b) == Some(f),
        0 <= k <= f,
        f + 11 <= b.len(),
        text::all_white(b.skip(f + 11)),
        w.buffer == b.skip(k),
    ensures
        ({
            let (x, more) = w.flush_buffer();
            &&& next_is_new(x.manager)
            &&& x.thinking_enabled
            &&& x.thinking_index is Some
            &&& x.has_other_blocks() == w.has_other_blocks()
            &&& send(more, Seq::empty(), b.skip(k).take(f - k))
        }),
{
    reveal(StreamView::flush_buffer);
    lemma_last_tag_behind(b, k);
    let i = w.thinking_index.unwrap();
    let c = b.skip(k).take(f - k);
    assert(b.skip(k).skip(f - k + 11) =~= b.skip(f + 11));
    text::lemma_trim_start_white(b.skip(f + 11));
    let y = StreamView { in_thinking: false, thinking_extracted: true, ..w };
    lemma_close(y, i, c);
    assert(y.has_other_blocks() == w.has_other_blocks());
    let (x0, more) = y.close_thinking(i, c);
    let x = StreamView { buffer: Seq::empty(), ..x0 };
    assert(w.flush_buffer() == (x, more));
    assert(x.has_other_blocks() == x0.has_other_blocks());
}

/// An answer without a thinking block is sent as text.
proof fn lemma_plain(v: StreamView, s: Seq<char>)
    requires
        next_is_new(v.manager),
        v.buffer == Seq::<char>::empty(),
        v.thinking_enabled,
        !v.in_thinking,
        !v.thinking_extracted,
        v.thinking_index is None,
        thinking::first_start_tag(s) is None,
    ensures
        ({
            let (w, ev) = v.assistant_response(s);
            send(ev + w.final_events().1, s, Seq::empty())
        }),
{
    reveal(StreamView::assistant_response);
    reveal(StreamView::flush_buffer);
    let none = Seq::<char>::empty();
    lemma_send_none();
    let (w, ev) = v.assistant_response(s);
    let u = StreamView {
        output_tokens: v.output_tokens + thinking::estimated_tokens(s),
        buffer: s,
        ..v
    };
    assert(v.buffer + s =~= s);
    let k: int = if s.len() == 0 {
        0
    } else {
        assert(v.assistant_response(s) == u.before_thinking());
        let k = stream_model::sendable(s, 10);
        let n = text::byte_len(s);
        lemma_within_len(
            s,
            if n < 10 {
                0
            } else {
                (n - 10) as nat
            },
        );
        if k == 0 || text::all_white(s.take(k)) {
            0
        } else {
            lemma_text(u, s.take(k));
            k
        }
    };
    assert(s.take(0) =~= none);
    assert(s.skip(0) =~= s);
    assert(w.buffer =~= s.skip(k));
    assert(send(ev, s.take(k), none));
    if w.buffer.len() > 0 {
        lemma_text(w, w.buffer);
    }
    lemma_final(w, s.skip(k), none);
    lemma_send_concat(ev, w.final_events().1);
    assert(s.take(k) + (s.skip(k) + none) =~= s);
    assert(none + none =~= none);
}

/// An answer is split alike, whether it is sent as a whole or comes through a stream in one
/// piece: the thinking that the stream sends is the thinking that is taken out, and the
/// text that it sends is the text that remains. Where nothing but a thinking block was
/// there, the stream sends a blank. Of an opening tag whose end is not seen alike, see
/// [`ends_alike`], this does not hold: the stream has sent thinking by then.
pub proof fn law_extraction_agrees_with_stream(
    message_id: Seq<char>,
    model: Seq<char>,
    input_tokens: int,
    tool_names: Seq<(Seq<char>, Seq<char>)>,
    delayed: bool,
    s: Seq<char>,
)
    requires
        thinking::first_start_tag(s) matches Some(a) ==> ends_alike(s.skip(a + 10)),
    ensures
        ({
            let v = stream::new_stream(
                message_id,
                model,
                input_tokens,
                true,
                tool_names,
                delayed,
            );
            let ev = events_of_one_piece(v, s);
            let (thought, rest) = thinking::extracted(s);
            &&& thought == if thoughts_in(ev).len() == 0 {
                None
            } else {
                Some(thoughts_in(ev))
            }
            &&& texts_in(ev) == if rest.len() == 0 && s.len() > 0 {
                " "@
            } else {
                rest
            }
        }),
{
    let v = stream::new_stream(message_id, model, input_tokens, true, tool_names, delayed);
    reveal(StreamView::initial);
    let (v1, first) = v.initial();
    lemma_send_one(state_manager::message_start_event(v.message_start_data()));
    assert(next_is_new(v1.manager));
    let (v2, answer) = v1.assistant_response(s);
    let last = v2.final_events().1;
    lemma_send_concat(first, answer + last);
    assert(first + (answer + last) =~= first + answer + last);
    let none = Seq::<char>::empty();
    assert(none + texts_in(answer + last) =~= texts_in(answer + last));
    assert(none + thoughts_in(answer + last) =~= thoughts_in(answer + last));
    let ev = events_of_one_piece(v, s);
    assert(texts_in(ev) == texts_in(answer + last));
    assert(thoughts_in(ev) == thoughts_in(answer + last));
    if thinking::first_start_tag(s) is None {
        lemma_plain(v1, s);
    } else {
        lemma_with_block(v1, s);
    }
}

/// An answer with a thinking block is sent as what stands before it, the thinking and what
/// stands behind it.
#[verifier::rlimit(60)]
#[verifier::spinoff_prover]
proof fn lemma_with_block(v: StreamView, s: Seq<char>)
    requires
        next_is_new(v.manager),
        v.manager.blocks == Seq::<state_manager::BlockView>::empty(),
        v.buffer == Seq::<char>::empty(),
        v.thinking_enabled,
        !v.in_thinking,
        !v.thinking_extracted,
        thinking::first_start_tag(s) is Some,
        ends_alike(s.skip(thinking::first_start_tag(s).unwrap() + 10)),
    ensures
        ({
            let (w, ev) = v.assistant_response(s);
            let (thought, rest) = thinking::extracted(s);
            let all = ev + w.final_events().1;
            &&& s.len() > 0
            &&& texts_in(all) == if rest.len() == 0 {
                " "@
            } else {
                rest
            }
            &&& thought == if thoughts_in(all).len() == 0 {
                None
            } else {
                Some(thoughts_in(all))
            }
        }),
{
    reveal(StreamView::assistant_response);
    let none = Seq::<char>::empty();
    let a = thinking::first_start_tag(s).unwrap();
    text::lemma_search(|k: int| thinking::start_tag_at(s, k), 0, s.len() as int);
    let open = s.skip(a + 10);
    let (raw, after) = thinking::split_at_end_tag(open).unwrap();
    let u = StreamView {
        output_tokens: v.output_tokens + thinking::estimated_tokens(s),
        buffer: s,
        ..v
    };
    assert(v.buffer + s =~= s);
    assert(v.assistant_response(s) == u.before_thinking());
    let before = s.take(a);
    let blank = text::all_white(before);
    assert(next_is_new(u.manager));
    lemma_send_none();
    let (x, ev0) = if blank {
        (u, Seq::empty())
    } else {
        u.text_delta(before)
    };
    if !blank {
        lemma_text(u, before);
    }
    assert(x.has_other_blocks() == !blank);
    let i = x.manager.next_block_index;
    protocol::lemma_kinds();
    lemma_open(x, "thinking"@, sse::ContentBlockView::Thinking);
    let (y, starts) = x.open_block("thinking"@, sse::ContentBlockView::Thinking);
    lemma_same_others(x, y, i);
    let z = StreamView {
        in_thinking: true,
        strip_newline: true,
        buffer: open,
        thinking_index: Some(i),
        ..y
    };
    assert(z.has_other_blocks() == y.has_other_blocks());
    lemma_rest(z, open);
    let (w, more) = z.inside_thinking();
    let ev = ev0 + starts + more;
    assert(v.assistant_response(s) == (w, ev));
    let last = w.final_events().1;
    lemma_send_concat(ev0, starts);
    lemma_send_concat(ev0 + starts, more + last);
    assert(ev + last =~= ev0 + starts + (more + last));
    let kept = if blank {
        none
    } else {
        before
    };
    let end = texts_in(more + last);
    assert(texts_in(ev + last) =~= kept + end);
    assert(thoughts_in(ev + last) =~= thinking::strip_newline(raw));
    assert(thinking::extracted(s).1 == kept + after);
    if blank {
        assert(kept + end =~= end);
        assert(kept + after =~= after);
    } else {
        assert(before.len() > 0);
    }
}

proof fn lemma_same_others(v: StreamView, w: StreamView, i: int)
    requires
        w.manager.blocks == v.manager.blocks.push(
            state_manager::BlockView {
                index: i,
                kind: "thinking"@,
                started: true,
                stopped: false,
            },
        ),
    ensures
        w.has_other_blocks() == v.has_other_blocks(),
{
    let a = v.manager.blocks;
    let b = w.manager.blocks;
    if v.has_other_blocks() {
        let k = choose|k: int| 0 <= k < a.len() && (#[trigger] a[k]).kind != "thinking"@;
        assert(b[k].kind != "thinking"@);
    }
    if w.has_other_blocks() {
        let k = choose|k: int| 0 <= k < b.len() && (#[trigger] b[k]).kind != "thinking"@;
        assert(a[k].kind != "thinking"@);
    }
}

} // verus!
