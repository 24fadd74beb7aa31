//! Nothing of an answer is lost in a response stream: the text and the thinking that the client
//! gets are what the upstream service sent, but for the tags and the blanks next to them.

use vstd::prelude::*;
use crate::anthropic::agreement;
use crate::anthropic::agreement::{next_is_new, send, texts_in, thoughts_in};
use crate::anthropic::protocol;
use crate::anthropic::sse;
use crate::anthropic::state_manager;
use crate::anthropic::stream;
use crate::anthropic::stream_calls;
use crate::anthropic::stream_counts;
use crate::anthropic::stream_counts::heard;
use crate::anthropic::stream_ends;
use crate::anthropic::stream_laws;
use crate::anthropic::stream_laws::{Action, Ending};
use crate::anthropic::stream_model;
use crate::anthropic::stream_model::StreamView;
use crate::anthropic::thinking;
use crate::anthropic::upstream;
use crate::kiro::events;
use crate::kiro::events::KiroEventView;
use crate::text;

verus! {

/// The parts of an answer: text, then perhaps a thinking block, and if that ends, text again.
pub struct Parts {
    pub before: Seq<char>,
    /// Whether there is a thinking block.
    pub begun: bool,
    /// White space in front of the opening tag.
    pub blank: Seq<char>,
    /// The newline behind the opening tag, if there is one.
    pub newline: Seq<char>,
    pub thought: Seq<char>,
    /// Whether the thinking block ends.
    pub ended: bool,
    /// White space behind the closing tag.
    pub gap: Seq<char>,
    pub after: Seq<char>,
}

impl Parts {
    /// The whole answer.
    pub open spec fn whole(self) -> Seq<char> {
        self.before + if self.begun {
            self.blank + "<thinking>"@ + self.newline + self.thought + if self.ended {
                "</thinking>"@ + self.gap + self.after
            } else {
                Seq::empty()
            }
        } else {
            Seq::empty()
        }
    }

    /// The text.
    pub open spec fn texts(self) -> Seq<char> {
        self.before + self.after
    }

    pub open spec fn wf(self) -> bool {
        &&& text::all_white(self.blank)
        &&& text::all_white(self.gap)
        &&& self.newline.len() == 0 || self.newline == seq!['\n']
        &&& self.ended ==> self.begun
        &&& !self.begun ==> self.thought.len() == 0
        &&& !self.ended ==> self.after.len() == 0
    }

    /// The parts with more text.
    spec fn with_text(self, t: Seq<char>) -> Parts {
        if self.ended {
            Parts { after: self.after + t, ..self }
        } else {
            Parts { before: self.before + t, ..self }
        }
    }

    /// The parts with more thinking.
    spec fn with_thought(self, t: Seq<char>) -> Parts {
        Parts { thought: self.thought + t, ..self }
    }
}

/// The answer of which nothing has come.
spec fn no_parts() -> Parts {
    Parts {
        before: Seq::empty(),
        begun: false,
        blank: Seq::empty(),
        newline: Seq::empty(),
        thought: Seq::empty(),
        ended: false,
        gap: Seq::empty(),
        after: Seq::empty(),
    }
}

proof fn lemma_more_text(p: Parts, t: Seq<char>)
    requires
        p.wf(),
        p.ended || !p.begun,
    ensures
        p.with_text(t).wf(),
        p.with_text(t).whole() == p.whole() + t,
        p.with_text(t).texts() == p.texts() + t,
{
    let q = p.with_text(t);
    if p.ended {
        assert("</thinking>"@ + p.gap + (p.after + t) =~= ("</thinking>"@ + p.gap + p.after) + t);
    } else {
        assert(p.after =~= Seq::empty());
    }
    assert(q.whole() =~= p.whole() + t);
    assert(q.texts() =~= p.texts() + t);
}

proof fn lemma_more_thought(p: Parts, t: Seq<char>)
    requires
        p.wf(),
        p.begun,
        !p.ended,
    ensures
        p.with_thought(t).wf(),
        p.with_thought(t).whole() == p.whole() + t,
        p.with_thought(t).texts() == p.texts(),
{
    assert(p.with_thought(t).whole() =~= p.whole() + t);
}

proof fn lemma_begin(p: Parts, blank: Seq<char>) -> (q: Parts)
    requires
        p.wf(),
        !p.begun,
        text::all_white(blank),
    ensures
        q == (Parts { begun: true, blank, newline: Seq::empty(), ..p }),
        q.wf(),
        q.whole() == p.whole() + blank + "<thinking>"@,
        q.texts() == p.texts(),
{
    let q = Parts { begun: true, blank, newline: Seq::empty(), ..p };
    assert(p.thought =~= Seq::empty());
    assert(q.whole() =~= p.whole() + blank + "<thinking>"@);
    q
}

proof fn lemma_first_newline(p: Parts) -> (q: Parts)
    requires
        p.wf(),
        p.begun,
        !p.ended,
        p.newline.len() == 0,
        p.thought.len() == 0,
    ensures
        q == (Parts { newline: seq!['\n'], ..p }),
        q.wf(),
        q.whole() == p.whole() + seq!['\n'],
        q.texts() == p.texts(),
{
    let q = Parts { newline: seq!['\n'], ..p };
    assert(p.newline =~= Seq::empty());
    assert(p.thought =~= Seq::empty());
    assert(q.whole() =~= p.whole() + seq!['\n']);
    q
}

proof fn lemma_end(p: Parts, gap: Seq<char>) -> (q: Parts)
    requires
        p.wf(),
        p.begun,
        !p.ended,
        text::all_white(gap),
    ensures
        q == (Parts { ended: true, gap, ..p }),
        q.wf(),
        q.whole() == p.whole() + "</thinking>"@ + gap,
        q.texts() == p.texts(),
{
    let q = Parts { ended: true, gap, ..p };
    assert(p.after =~= Seq::empty());
    assert(q.whole() =~= p.whole() + "</thinking>"@ + gap);
    q
}

/// Whether the text and the thinking that were sent, and what is left in the buffer, are all
/// that was received, and the state says how far it has come.
spec fn tells(
    w: StreamView,
    texts: Seq<char>,
    thoughts: Seq<char>,
    received: Seq<char>,
    calls: bool,
    p: Parts,
) -> bool {
    &&& p.wf()
    &&& texts == p.texts()
    &&& thoughts == p.thought
    &&& received == p.whole() + w.buffer
    &&& p.begun == (w.thinking_index is Some)
    &&& p.begun == (w.in_thinking || w.thinking_extracted)
    &&& p.ended == w.thinking_extracted
    &&& w.in_thinking ==> !w.thinking_extracted
    &&& w.strip_newline ==> w.in_thinking && p.newline.len() == 0 && p.thought.len() == 0
    &&& next_is_new(w.manager)
    &&& w.thinking_index is Some ==> w.thinking_index.unwrap() < w.manager.next_block_index
    &&& w.thinking_enabled ==> (w.has_other_blocks() <==> texts.len() > 0 || calls)
}

/// Whether a state rests between two events.
spec fn rests(w: StreamView) -> bool {
    &&& w.strip_newline ==> w.buffer.len() == 0
    &&& w.thinking_extracted ==> w.buffer.len() == 0
    &&& !w.thinking_enabled ==> w.buffer.len() == 0 && w.thinking_index is None
}

/// Sending text, all of which was in the buffer or comes in now.
proof fn lemma_text_tells(
    v: StreamView,
    texts: Seq<char>,
    thoughts: Seq<char>,
    received: Seq<char>,
    calls: bool,
    p: Parts,
    t: Seq<char>,
    rest: Seq<char>,
)
    requires
        tells(v, texts, thoughts, received, calls, p),
        !v.in_thinking,
        v.buffer == t + rest,
        t.len() > 0,
    ensures
        ({
            let (w, ev) = StreamView { buffer: rest, ..v }.text_delta(t);
            &&& tells(w, texts + t, thoughts, received, calls, p.with_text(t))
            &&& send(ev, t, Seq::empty())
            &&& w == (StreamView {
                manager: w.manager,
                text_index: w.text_index,
                buffer: rest,
                ..v
            })
            &&& w.manager.next_block_index >= v.manager.next_block_index
        }),
{
    let x = StreamView { buffer: rest, ..v };
    agreement::lemma_text(x, t);
    stream_model::lemma_text_delta(x, t);
    lemma_more_text(p, t);
    assert(p.whole() + (t + rest) =~= (p.whole() + t) + rest);
}

proof fn lemma_other_kind(v: StreamView, w: StreamView, b: state_manager::BlockView)
    requires
        w.manager.blocks == v.manager.blocks.push(b),
        b.kind == "thinking"@,
    ensures
        w.has_other_blocks() == v.has_other_blocks(),
{
    let m = v.manager.blocks;
    let n = w.manager.blocks;
    if v.has_other_blocks() {
        let k = choose|k: int| 0 <= k < m.len() && (#[trigger] m[k]).kind != "thinking"@;
        assert(n[k].kind != "thinking"@);
    }
    if w.has_other_blocks() {
        let k = choose|k: int| 0 <= k < n.len() && (#[trigger] n[k]).kind != "thinking"@;
        assert(m[k].kind != "thinking"@);
    }
}

/// The end of the thinking block, with the rest of its text.
proof fn lemma_close_tells(
    v: StreamView,
    texts: Seq<char>,
    thoughts: Seq<char>,
    received: Seq<char>,
    calls: bool,
    p: Parts,
    content: Seq<char>,
    rest: Seq<char>,
)
    requires
        tells(v, texts, thoughts, received, calls, p),
        v.in_thinking,
        !v.strip_newline,
        v.buffer == content + rest,
    ensures
        ({
            let (w, ev) = v.close_thinking_if_any(content);
            &&& tells(
                StreamView { buffer: rest, ..w },
                texts,
                thoughts + content,
                received,
                calls,
                p.with_thought(content),
            )
            &&& send(ev, Seq::empty(), content)
            &&& w == (StreamView { manager: w.manager, ..v })
            &&& w.manager.next_block_index == v.manager.next_block_index
        }),
{
    let i = v.thinking_index.unwrap();
    agreement::lemma_close(v, i, content);
    reveal(StreamView::close_thinking);
    reveal(state_manager::ManagerView::stop_block);
    lemma_more_thought(p, content);
    let w = v.close_thinking_if_any(content).0;
    let x = StreamView { buffer: rest, ..w };
    assert(x.has_other_blocks() == w.has_other_blocks());
    assert(p.whole() + (content + rest) =~= (p.whole() + content) + rest);
}

/// What is behind the closing tag is text.
proof fn lemma_after_tells(
    v: StreamView,
    texts: Seq<char>,
    thoughts: Seq<char>,
    received: Seq<char>,
    calls: bool,
    p: Parts,
)
    requires
        tells(v, texts, thoughts, received, calls, p),
        v.thinking_extracted,
    ensures
        ({
            let (w, ev) = v.after_thinking();
            &&& tells(w, texts + v.buffer, thoughts, received, calls, p.with_text(v.buffer))
            &&& send(ev, v.buffer, Seq::empty())
            &&& w == (StreamView {
                manager: w.manager,
                text_index: w.text_index,
                buffer: Seq::empty(),
                ..v
            })
            &&& w.manager.next_block_index >= v.manager.next_block_index
        }),
{
    if v.buffer.len() == 0 {
        assert(v.buffer =~= Seq::empty());
        agreement::lemma_send_none();
        assert(texts + v.buffer =~= texts);
        assert(p.after + v.buffer =~= p.after);
    } else {
        assert(v.buffer =~= v.buffer + Seq::empty());
        lemma_text_tells(v, texts, thoughts, received, calls, p, v.buffer, Seq::empty());
    }
}

/// The closing tag ends the thinking.
proof fn lemma_end_tells(
    v: StreamView,
    texts: Seq<char>,
    thoughts: Seq<char>,
    received: Seq<char>,
    calls: bool,
    p: Parts,
    gap: Seq<char>,
    rest: Seq<char>,
) -> (q: Parts)
    requires
        tells(v, texts, thoughts, received, calls, p),
        v.in_thinking,
        !v.strip_newline,
        text::all_white(gap),
        v.buffer == "</thinking>"@ + gap + rest,
    ensures
        tells(
            StreamView { in_thinking: false, thinking_extracted: true, buffer: rest, ..v },
            texts,
            thoughts,
            received,
            calls,
            q,
        ),
{
    let q = lemma_end(p, gap);
    let w = StreamView { in_thinking: false, thinking_extracted: true, buffer: rest, ..v };
    assert(w.has_other_blocks() == v.has_other_blocks());
    assert(p.whole() + ("</thinking>"@ + gap + rest) =~= (p.whole() + "</thinking>"@ + gap) + rest);
    q
}

/// The newline behind the opening tag.
proof fn lemma_newline_tells(
    v: StreamView,
    texts: Seq<char>,
    thoughts: Seq<char>,
    received: Seq<char>,
    calls: bool,
    p: Parts,
) -> (q: Parts)
    requires
        tells(v, texts, thoughts, received, calls, p),
        v.in_thinking,
    ensures
        tells(v.drop_newline(), texts, thoughts, received, calls, q),
        v.drop_newline().strip_newline ==> v.buffer.len() == 0,
{
    let w = v.drop_newline();
    assert(w.has_other_blocks() == v.has_other_blocks());
    if v.strip_newline && v.buffer.len() > 0 && v.buffer[0] == '\n' {
        let q = lemma_first_newline(p);
        assert(v.buffer =~= seq!['\n'] + w.buffer);
        assert(p.whole() + v.buffer =~= (p.whole() + seq!['\n']) + w.buffer);
        q
    } else {
        p
    }
}

/// Inside the thinking block.
#[verifier::rlimit(60)]
#[verifier::spinoff_prover]
proof fn lemma_inside_tells(
    v: StreamView,
    texts: Seq<char>,
    thoughts: Seq<char>,
    received: Seq<char>,
    calls: bool,
    p: Parts,
) -> (q: Parts)
    requires
        tells(v, texts, thoughts, received, calls, p),
        v.in_thinking,
    ensures
        ({
            let (w, ev) = v.inside_thinking();
            &&& tells(
                w,
                texts + texts_in(ev),
                thoughts + thoughts_in(ev),
                received,
                calls,
                q,
            )
            &&& w.strip_newline ==> w.buffer.len() == 0
            &&& w.thinking_extracted ==> w.buffer.len() == 0
            &&& w.thinking_enabled == v.thinking_enabled
        }),
{
    let x = v.drop_newline();
    let p1 = lemma_newline_tells(v, texts, thoughts, received, calls, p);
    agreement::lemma_send_none();
    let none = Seq::<char>::empty();
    match thinking::first_end_tag(x.buffer) {
        Some(e) => {
            thinking::lemma_tag_lengths();
            reveal_strlit("\n\n");
            let s = x.buffer;
            text::lemma_search(|k: int| thinking::end_tag_at(s, k), 0, s.len() as int);
            let content = s.take(e);
            let rest = s.skip(e + 13);
            let tail = "</thinking>"@ + "\n\n"@ + rest;
            assert(s.subrange(e, e + 11) == "</thinking>"@);
            assert(s.subrange(e + 11, e + 13) == "\n\n"@);
            assert(s =~= content + tail) by {
                assert(s =~= s.take(e) + (s.subrange(e, e + 11) + s.subrange(e + 11, e + 13)
                    + s.skip(e + 13)));
            }
            lemma_close_tells(x, texts, thoughts, received, calls, p1, content, tail);
            let (z, ev) = x.close_thinking_if_any(content);
            let h = thoughts + content;
            let z0 = StreamView { buffer: tail, ..z };
            let p2 = p1.with_thought(content);
            assert(text::all_white("\n\n"@));
            let p3 = lemma_end_tells(z0, texts, h, received, calls, p2, "\n\n"@, rest);
            let y = StreamView { in_thinking: false, thinking_extracted: true, ..x };
            lemma_close_commutes(x, content);
            let z2 = StreamView {
                buffer: rest,
                ..y.close_thinking_if_any(content).0
            };
            assert(z2 == StreamView {
                in_thinking: false,
                thinking_extracted: true,
                buffer: rest,
                ..z0
            });
            lemma_after_tells(z2, texts, h, received, calls, p3);
            let (w, more) = z2.after_thinking();
            agreement::lemma_send_concat(ev, more);
            assert(texts + texts_in(ev + more) =~= texts + rest);
            assert(thoughts + thoughts_in(ev + more) =~= h);
            p3.with_text(rest)
        },
        None => {
            let k = stream_model::sendable(x.buffer, 13);
            if k == 0 {
                assert(texts + none =~= texts);
                assert(thoughts + none =~= thoughts);
                p1
            } else {
                let t = x.buffer.take(k);
                let i = x.thinking_index.unwrap();
                agreement::lemma_send_one(stream_model::thinking_event(i, t));
                lemma_more_thought(p1, t);
                lemma_sendable(x.buffer, 13);
                let w = v.inside_thinking().0;
                assert(w.has_other_blocks() == x.has_other_blocks());
                assert(p1.whole() + x.buffer =~= (p1.whole() + t) + x.buffer.skip(k));
                assert(texts + none =~= texts);
                p1.with_thought(t)
            }
        },
    }
}

proof fn lemma_sendable(s: Seq<char>, keep: nat)
    ensures
        0 <= stream_model::sendable(s, keep) <= s.len(),
{
    let n = text::byte_len(s);
    let m: nat = if n < keep {
        0
    } else {
        (n - keep) as nat
    };
    agreement::lemma_within_len(s, m);
}

/// Ending the thinking block depends on no more than its place and its text.
proof fn lemma_close_commutes(x: StreamView, content: Seq<char>)
    ensures
        ({
            let y = StreamView { in_thinking: false, thinking_extracted: true, ..x };
            let (a, ev) = x.close_thinking_if_any(content);
            y.close_thinking_if_any(content) == (
                StreamView { in_thinking: false, thinking_extracted: true, ..a },
                ev,
            )
        }),
{
    reveal(StreamView::close_thinking);
}

/// The opening tag begins the thinking.
proof fn lemma_open_tells(
    v: StreamView,
    texts: Seq<char>,
    thoughts: Seq<char>,
    received: Seq<char>,
    calls: bool,
    p: Parts,
    blank: Seq<char>,
    rest: Seq<char>,
) -> (q: Parts)
    requires
        tells(v, texts, thoughts, received, calls, p),
        !v.in_thinking,
        !v.thinking_extracted,
        text::all_white(blank),
        v.buffer == blank + "<thinking>"@ + rest,
    ensures
        ({
            let (w, ev) = v.open_block("thinking"@, sse::ContentBlockView::Thinking);
            &&& tells(
                StreamView {
                    in_thinking: true,
                    strip_newline: true,
                    buffer: rest,
                    thinking_index: Some(v.manager.next_block_index),
                    ..w
                },
                texts,
                thoughts,
                received,
                calls,
                q,
            )
            &&& send(ev, Seq::empty(), Seq::empty())
            &&& w == (StreamView { manager: w.manager, ..v })
        }),
{
    agreement::lemma_open(v, "thinking"@, sse::ContentBlockView::Thinking);
    let w = v.open_block("thinking"@, sse::ContentBlockView::Thinking).0;
    let i = v.manager.next_block_index;
    lemma_other_kind(
        v,
        w,
        state_manager::BlockView { index: i, kind: "thinking"@, started: true, stopped: false },
    );
    let x = StreamView {
        in_thinking: true,
        strip_newline: true,
        buffer: rest,
        thinking_index: Some(i),
        ..w
    };
    assert(x.has_other_blocks() == w.has_other_blocks());
    let q = lemma_begin(p, blank);
    assert(p.whole() + (blank + "<thinking>"@ + rest) =~= (p.whole() + blank + "<thinking>"@)
        + rest);
    q
}

/// Before the thinking block.
#[verifier::rlimit(60)]
#[verifier::spinoff_prover]
proof fn lemma_before_tells(
    v: StreamView,
    texts: Seq<char>,
    thoughts: Seq<char>,
    received: Seq<char>,
    calls: bool,
    p: Parts,
) -> (q: Parts)
    requires
        tells(v, texts, thoughts, received, calls, p),
        !v.in_thinking,
        !v.thinking_extracted,
    ensures
        ({
            let (w, ev) = v.before_thinking();
            &&& tells(
                w,
                texts + texts_in(ev),
                thoughts + thoughts_in(ev),
                received,
                calls,
                q,
            )
            &&& w.strip_newline ==> w.buffer.len() == 0
            &&& w.thinking_extracted ==> w.buffer.len() == 0
            &&& w.thinking_enabled == v.thinking_enabled
        }),
{
    let s = v.buffer;
    let none = Seq::<char>::empty();
    agreement::lemma_send_none();
    thinking::lemma_tag_lengths();
    match thinking::first_start_tag(s) {
        Some(a) => {
            text::lemma_search(|k: int| thinking::start_tag_at(s, k), 0, s.len() as int);
            let before = s.take(a);
            let rest = s.skip(a + 10);
            assert(s.subrange(a, a + 10) == "<thinking>"@);
            let tail = "<thinking>"@ + rest;
            assert(s =~= before + tail) by {
                assert(s =~= s.take(a) + (s.subrange(a, a + 10) + s.skip(a + 10)));
            }
            if text::all_white(before) {
                assert(s =~= before + "<thinking>"@ + rest);
                let p1 = lemma_open_tells(
                    v,
                    texts,
                    thoughts,
                    received,
                    calls,
                    p,
                    before,
                    rest,
                );
                let (w, starts) = v.open_block("thinking"@, sse::ContentBlockView::Thinking);
                let x = StreamView {
                    in_thinking: true,
                    strip_newline: true,
                    buffer: rest,
                    thinking_index: Some(v.manager.next_block_index),
                    ..w
                };
                let q = lemma_inside_tells(x, texts, thoughts, received, calls, p1);
                let more = x.inside_thinking().1;
                let nothing = Seq::<sse::EventView>::empty();
                agreement::lemma_send_concat(nothing, starts);
                agreement::lemma_send_concat(nothing + starts, more);
                assert(texts_in(nothing + starts + more) =~= texts_in(more));
                assert(thoughts_in(nothing + starts + more) =~= thoughts_in(more));
                q
            } else {
                assert(before.len() > 0);
                lemma_text_tells(v, texts, thoughts, received, calls, p, before, tail);
                lemma_text_buffer(v, tail, before);
                let (y, ev) = v.text_delta(before);
                let y0 = StreamView { buffer: tail, ..y };
                let t = texts + before;
                let p1 = p.with_text(before);
                assert(tail =~= none + "<thinking>"@ + rest);
                assert(text::all_white(none));
                let p2 = lemma_open_tells(
                    y0,
                    t,
                    thoughts,
                    received,
                    calls,
                    p1,
                    none,
                    rest,
                );
                lemma_open_buffer(y, tail);
                let (w, starts) = y.open_block("thinking"@, sse::ContentBlockView::Thinking);
                let x = StreamView {
                    in_thinking: true,
                    strip_newline: true,
                    buffer: rest,
                    thinking_index: Some(y.manager.next_block_index),
                    ..w
                };
                let q = lemma_inside_tells(x, t, thoughts, received, calls, p2);
                let more = x.inside_thinking().1;
                agreement::lemma_send_concat(ev, starts);
                agreement::lemma_send_concat(ev + starts, more);
                assert(texts + texts_in(ev + starts + more) =~= t + texts_in(more));
                assert(thoughts_in(ev + starts + more) =~= thoughts_in(more));
                q
            }
        },
        None => {
            let k = stream_model::sendable(s, 10);
            lemma_sendable(s, 10);
            let safe = s.take(k);
            if k == 0 || text::all_white(safe) {
                assert(texts + none =~= texts);
                assert(thoughts + none =~= thoughts);
                p
            } else {
                assert(s =~= safe + s.skip(k));
                lemma_text_tells(v, texts, thoughts, received, calls, p, safe, s.skip(k));
                lemma_text_buffer(v, s.skip(k), safe);
                assert(thoughts + none =~= thoughts);
                p.with_text(safe)
            }
        },
    }
}

/// Sending text does not depend on the buffer.
proof fn lemma_text_buffer(v: StreamView, b: Seq<char>, t: Seq<char>)
    ensures
        ({
            let (w, ev) = v.text_delta(t);
            StreamView { buffer: b, ..v }.text_delta(t) == (StreamView { buffer: b, ..w }, ev)
        }),
{
    reveal(StreamView::text_delta);
    reveal(StreamView::open_block);
    let x = StreamView { buffer: b, ..v };
    assert(x.text_open() == v.text_open());
}

/// Nor does starting a block.
proof fn lemma_open_buffer(v: StreamView, b: Seq<char>)
    ensures
        ({
            let (w, ev) = v.open_block("thinking"@, sse::ContentBlockView::Thinking);
            StreamView { buffer: b, ..v }.open_block("thinking"@, sse::ContentBlockView::Thinking)
                == (StreamView { buffer: b, ..w }, ev)
        }),
{
    reveal(StreamView::open_block);
}

/// A piece of the answer.
proof fn lemma_answer_tells(
    v: StreamView,
    texts: Seq<char>,
    thoughts: Seq<char>,
    received: Seq<char>,
    calls: bool,
    p: Parts,
    content: Seq<char>,
) -> (q: Parts)
    requires
        tells(v, texts, thoughts, received, calls, p),
        rests(v),
    ensures
        ({
            let (w, ev) = v.assistant_response(content);
            &&& tells(
                w,
                texts + texts_in(ev),
                thoughts + thoughts_in(ev),
                received + content,
                calls,
                q,
            )
            &&& rests(w)
        }),
{
    reveal(StreamView::assistant_response);
    let none = Seq::<char>::empty();
    agreement::lemma_send_none();
    if content.len() == 0 {
        assert(content =~= none);
        assert(texts + none =~= texts);
        assert(thoughts + none =~= thoughts);
        assert(received + content =~= received);
        p
    } else {
        let x = StreamView {
            output_tokens: v.output_tokens + thinking::estimated_tokens(content),
            ..v
        };
        let y = StreamView { buffer: x.buffer + content, ..x };
        let r = received + content;
        assert(p.whole() + v.buffer + content =~= p.whole() + (v.buffer + content));
        assert(y.has_other_blocks() == v.has_other_blocks());
        assert(tells(y, texts, thoughts, r, calls, p));
        assert(thoughts + none =~= thoughts);
        if v.thinking_enabled {
            if !y.in_thinking && !y.thinking_extracted {
                lemma_before_tells(y, texts, thoughts, r, calls, p)
            } else if y.in_thinking {
                lemma_inside_tells(y, texts, thoughts, r, calls, p)
            } else {
                lemma_after_tells(y, texts, thoughts, r, calls, p);
                p.with_text(y.buffer)
            }
        } else {
            assert(v.buffer =~= none);
            assert(y.buffer =~= content + none);
            lemma_text_tells(y, texts, thoughts, r, calls, p, content, none);
            assert(StreamView { buffer: none, ..y } == x);
            p.with_text(content)
        }
    }
}

/// The thinking block ends at a closing tag at the end.
proof fn lemma_leave_tells(
    v: StreamView,
    texts: Seq<char>,
    thoughts: Seq<char>,
    received: Seq<char>,
    calls: bool,
    p: Parts,
    e: int,
) -> (q: Parts)
    requires
        tells(v, texts, thoughts, received, calls, p),
        v.in_thinking,
        !v.strip_newline,
        thinking::last_end_tag_at(v.buffer, e),
    ensures
        ({
            let (w, ev) = v.leave_thinking_at(e);
            &&& tells(w, texts, thoughts + thoughts_in(ev), received, calls, q)
            &&& texts_in(ev) == Seq::<char>::empty()
            &&& w.buffer.len() == 0
            &&& w.thinking_extracted
            &&& !w.strip_newline
            &&& w.thinking_enabled == v.thinking_enabled
        }),
{
    thinking::lemma_tag_lengths();
    let s = v.buffer;
    let gap = s.skip(e + 11);
    let content = s.take(e);
    let tail = "</thinking>"@ + gap + Seq::empty();
    assert(s.subrange(e, e + 11) == "</thinking>"@);
    assert(s =~= content + tail) by {
        assert(s =~= s.take(e) + (s.subrange(e, e + 11) + s.skip(e + 11)));
    }
    text::lemma_trim_start_white(gap);
    lemma_close_tells(v, texts, thoughts, received, calls, p, content, tail);
    lemma_close_commutes(v, content);
    let (z, ev) = v.close_thinking_if_any(content);
    let z0 = StreamView { buffer: tail, ..z };
    lemma_end_tells(
        z0,
        texts,
        thoughts + content,
        received,
        calls,
        p.with_thought(content),
        gap,
        Seq::empty(),
    )
}

/// What is sent before a tool call.
proof fn lemma_settle_tells(
    v: StreamView,
    texts: Seq<char>,
    thoughts: Seq<char>,
    received: Seq<char>,
    calls: bool,
    p: Parts,
) -> (q: Parts)
    requires
        tells(v, texts, thoughts, received, calls, p),
        rests(v),
    ensures
        ({
            let (w, ev) = v.settle_for_tool();
            &&& tells(
                w,
                texts + texts_in(ev),
                thoughts + thoughts_in(ev),
                received,
                calls,
                q,
            )
            &&& rests(w)
        }),
{
    reveal(StreamView::settle_for_tool);
    let none = Seq::<char>::empty();
    let nothing = Seq::<sse::EventView>::empty();
    agreement::lemma_send_none();
    assert(texts + none =~= texts);
    assert(thoughts + none =~= thoughts);
    if v.thinking_enabled && v.in_thinking {
        let s = v.buffer;
        match thinking::first_last_end_tag(s) {
            Some(e) => {
                text::lemma_search(|k: int| thinking::last_end_tag_at(s, k), 0, s.len() as int);
                thinking::lemma_tag_lengths();
                lemma_leave_tells(v, texts, thoughts, received, calls, p, e)
            },
            None => p,
        }
    } else if v.thinking_enabled && !v.thinking_extracted && v.buffer.len() > 0 {
        assert(v.buffer =~= v.buffer + none);
        lemma_text_tells(v, texts, thoughts, received, calls, p, v.buffer, none);
        let more = StreamView { buffer: none, ..v }.text_delta(v.buffer).1;
        assert(nothing + more =~= more);
        p.with_text(v.buffer)
    } else {
        p
    }
}

/// Whether an event adds neither text nor thinking.
pub open spec fn is_mute(e: sse::EventView) -> bool {
    agreement::text_of(e).len() == 0 && agreement::thought_of(e).len() == 0
}

/// Whether events add neither text nor thinking.
pub open spec fn mute(ev: Seq<sse::EventView>) -> bool {
    forall|k: int| 0 <= k < ev.len() ==> is_mute(#[trigger] ev[k])
}

/// Whether held-back events add neither text nor thinking.
spec fn held_mute(held: Seq<(Seq<char>, sse::EventView)>) -> bool {
    forall|k: int| 0 <= k < held.len() ==> is_mute((#[trigger] held[k]).1)
}

pub proof fn lemma_mute(ev: Seq<sse::EventView>)
    requires
        mute(ev),
    ensures
        send(ev, Seq::empty(), Seq::empty()),
    decreases ev.len(),
{
    if ev.len() > 0 {
        assert forall|k: int| 0 <= k < ev.drop_last().len() implies is_mute(
            #[trigger] ev.drop_last()[k],
        ) by {
            assert(ev[k] == ev.drop_last()[k]);
        }
        lemma_mute(ev.drop_last());
        assert(is_mute(ev[ev.len() - 1]));
        assert(texts_in(ev) =~= Seq::empty());
        assert(thoughts_in(ev) =~= Seq::empty());
    }
}

proof fn lemma_mute_concat(a: Seq<sse::EventView>, b: Seq<sse::EventView>)
    requires
        mute(a),
        mute(b),
    ensures
        mute(a + b),
{
    let c = a + b;
    assert forall|k: int| 0 <= k < c.len() implies is_mute(#[trigger] c[k]) by {
        if k < a.len() {
            assert(c[k] == a[k]);
        } else {
            assert(c[k] == b[k - a.len()]);
        }
    }
}

/// Mute events in front or behind change nothing.
proof fn lemma_around(a: Seq<sse::EventView>, b: Seq<sse::EventView>)
    ensures
        mute(a) ==> send(a + b, texts_in(b), thoughts_in(b)),
        mute(b) ==> send(a + b, texts_in(a), thoughts_in(a)),
{
    agreement::lemma_send_concat(a, b);
    let none = Seq::<char>::empty();
    if mute(a) {
        lemma_mute(a);
        assert(none + texts_in(b) =~= texts_in(b));
        assert(none + thoughts_in(b) =~= thoughts_in(b));
    }
    if mute(b) {
        lemma_mute(b);
        assert(texts_in(a) + none =~= texts_in(a));
        assert(thoughts_in(a) + none =~= thoughts_in(a));
    }
}

/// Whether all that is about a block is mute.
spec fn mute_about(ev: Seq<sse::EventView>, index: int) -> bool {
    forall|k: int|
        0 <= k < ev.len() && stream_model::block_of(#[trigger] ev[k]) == Some(index) ==> is_mute(
            ev[k],
        )
}

/// Taking mute events out changes nothing.
proof fn lemma_pass(ev: Seq<sse::EventView>, index: int)
    requires
        mute_about(ev, index),
    ensures
        send(stream_model::not_about(ev, index), texts_in(ev), thoughts_in(ev)),
        mute(stream_model::about(ev, index)),
    decreases ev.len(),
{
    if ev.len() > 0 {
        let rest = ev.drop_last();
        let e = ev.last();
        assert(mute_about(rest, index)) by {
            assert forall|k: int|
                0 <= k < rest.len() && stream_model::block_of(#[trigger] rest[k]) == Some(
                    index,
                ) implies is_mute(rest[k]) by {
                assert(ev[k] == rest[k]);
            }
        }
        lemma_pass(rest, index);
        if stream_model::block_of(e) == Some(index) {
            assert(is_mute(ev[ev.len() - 1]));
            assert(texts_in(ev) =~= texts_in(rest));
            assert(thoughts_in(ev) =~= thoughts_in(rest));
        } else {
            let n = stream_model::not_about(rest, index);
            assert(n.push(e).drop_last() =~= n);
        }
    }
}

/// Letting held-back events go.
proof fn lemma_release_mute(
    held: Seq<(Seq<char>, sse::EventView)>,
    indices: Seq<(Seq<char>, int)>,
    completed: Set<Seq<char>>,
)
    requires
        held_mute(held),
    ensures
        held_mute(stream_model::release_held(held, indices, completed).0),
        mute(stream_model::release_held(held, indices, completed).1),
    decreases held.len(),
{
    if let Some((_, id)) = stream_model::lowest_held(held, indices) {
        if completed.contains(id) {
            stream_model::lemma_lowest_held(held, indices);
            stream_model::lemma_held_besides_shorter(held, id);
            lemma_held_parts_mute(held, id);
            lemma_release_mute(stream_model::held_besides(held, id), indices, completed);
            lemma_mute_concat(
                stream_model::held_of(held, id),
                stream_model::release_held(
                    stream_model::held_besides(held, id),
                    indices,
                    completed,
                ).1,
            );
        }
    }
}

proof fn lemma_held_parts_mute(held: Seq<(Seq<char>, sse::EventView)>, id: Seq<char>)
    requires
        held_mute(held),
    ensures
        mute(stream_model::held_of(held, id)),
        held_mute(stream_model::held_besides(held, id)),
    decreases held.len(),
{
    if held.len() > 0 {
        let rest = held.drop_last();
        assert forall|k: int| 0 <= k < rest.len() implies is_mute((#[trigger] rest[k]).1) by {
            assert(held[k] == rest[k]);
        }
        lemma_held_parts_mute(rest, id);
        assert(is_mute(held[held.len() - 1].1));
    }
}

proof fn lemma_stops_mute(
    blocks: Seq<state_manager::BlockView>,
    p: spec_fn(state_manager::BlockView) -> bool,
)
    ensures
        mute(state_manager::stops_for(blocks, p)),
    decreases blocks.len(),
{
    if blocks.len() > 0 {
        lemma_stops_mute(blocks.drop_last(), p);
    }
}

/// The events of a piece of a tool call add no text and no thinking.
proof fn lemma_fed_mute(v: StreamView, index: int, e: events::ToolUseView)
    ensures
        mute(v.feed_tool(index, e).1),
{
    reveal(StreamView::feed_tool);
    reveal(state_manager::ManagerView::start_block);
    reveal(state_manager::ManagerView::delta);
    reveal(state_manager::ManagerView::stop_block);
    lemma_stops_mute(v.manager.blocks, state_manager::open_blocks(true));
    let data = sse::DataView::BlockStart {
        index,
        block: sse::ContentBlockView::ToolUse { id: e.id, name: v.tool_name(e.name) },
    };
    let (m1, starts) = v.manager.start_block(index, "tool_use"@, data);
    assert(mute(starts));
    let deltas = if e.input.len() == 0 {
        Seq::empty()
    } else {
        m1.delta(
            index,
            sse::DataView::BlockDelta { index, delta: sse::DeltaView::InputJson(e.input) },
        )
    };
    assert(mute(deltas));
    let stops = if e.stop {
        m1.stop_block(index).1
    } else {
        Seq::empty()
    };
    assert(mute(stops));
    lemma_mute_concat(starts, deltas);
    lemma_mute_concat(starts + deltas, stops);
}

/// A client that follows events knows the blocks that they are about.
proof fn lemma_run_touches(c: protocol::Client, ev: Seq<sse::EventView>, k: int)
    requires
        c.run(ev) is Some,
        0 <= k < ev.len(),
        stream_model::block_of(ev[k]) is Some,
    ensures
        c.run(ev).unwrap().blocks.contains_key(stream_model::block_of(ev[k]).unwrap()),
    decreases ev.len(),
{
    let rest = ev.drop_last();
    if k < rest.len() {
        assert(rest[k] == ev[k]);
        lemma_run_touches(c, rest, k);
    }
}

proof fn lemma_next_is_new(m: state_manager::ManagerView)
    requires
        stream_laws::synced(m),
    ensures
        next_is_new(m),
{
    assert forall|k: int| 0 <= k < m.blocks.len() implies (#[trigger] m.blocks[k]).index
        < m.next_block_index by {
        protocol::lemma_find_at(m, k);
        assert(m.block(m.blocks[k].index) is Some);
    }
}

/// What is about the block of a tool call adds no text and no thinking.
proof fn lemma_call_is_mute(v: StreamView, e: events::ToolUseView)
    requires
        stream_laws::synced(v.manager),
        stream_laws::thinking_ok(v),
        stream_laws::tools_ok(v),
    ensures
        mute_about(v.tool_events(e).1, v.tool_events(e).2),
{
    let m = v.manager;
    let v0 = StreamView {
        manager: state_manager::ManagerView { has_tool_use: true, ..m },
        ..v
    };
    stream_laws::lemma_same_books(m, v0.manager);
    stream_laws::lemma_settle_fine(v0);
    stream_model::lemma_settle_for_tool(v0);
    let (v1, settled) = v0.settle_for_tool();
    let (v2, index) = v1.tool_block(e.id);
    let fed = v2.feed_tool(index, e).1;
    lemma_fed_mute(v2, index, e);
    let all = settled + fed;
    assert forall|k: int|
        0 <= k < all.len() && stream_model::block_of(#[trigger] all[k]) == Some(
            index,
        ) implies is_mute(all[k]) by {
        if k >= settled.len() {
            assert(all[k] == fed[k - settled.len()]);
        } else {
            assert(all[k] == settled[k]);
            stream_laws::lemma_lookup_tool(v, e.id);
            if stream_model::lookup(v.tool_indices, e.id) is Some {
                assert(stream_laws::is_tool_block(v.manager, index));
                assert(v0.manager.block(index) == v.manager.block(index));
                assert(stream_laws::is_tool_block(v0.manager, index));
            } else {
                lemma_run_touches(protocol::full_client(v0.manager), settled, k);
                assert(v1.manager.block(index) is Some);
            }
        }
    }
}

/// The events of a piece of a tool call, before any is held back.
#[verifier::rlimit(60)]
#[verifier::spinoff_prover]
proof fn lemma_pieces_tell(
    v: StreamView,
    texts: Seq<char>,
    thoughts: Seq<char>,
    received: Seq<char>,
    calls: bool,
    p: Parts,
    e: events::ToolUseView,
) -> (q: Parts)
    requires
        tells(v, texts, thoughts, received, calls, p),
        rests(v),
        stream_laws::synced(v.manager),
        stream_laws::thinking_ok(v),
        stream_laws::tools_ok(v),
    ensures
        ({
            let (w, all, index) = v.tool_events(e);
            &&& tells(
                w,
                texts + texts_in(all),
                thoughts + thoughts_in(all),
                received,
                true,
                q,
            )
            &&& rests(w)
            &&& mute_about(all, index)
        }),
{
    let m = v.manager;
    let v0 = StreamView {
        manager: state_manager::ManagerView { has_tool_use: true, ..m },
        ..v
    };
    assert(v0.manager.blocks == v.manager.blocks);
    assert(v0.has_other_blocks() == v.has_other_blocks());
    stream_laws::lemma_same_books(m, v0.manager);
    stream_laws::lemma_settle_fine(v0);
    stream_model::lemma_settle_for_tool(v0);
    let q = lemma_settle_tells(v0, texts, thoughts, received, calls, p);
    let (v1, settled) = v0.settle_for_tool();
    let (v2, index) = v1.tool_block(e.id);
    stream_model::lemma_feed_tool(v2, index, e);
    let (w, fed) = v2.feed_tool(index, e);
    lemma_fed_mute(v2, index, e);
    lemma_around(settled, fed);
    stream_laws::lemma_tool_events_ok(v, e);
    lemma_next_is_new(w.manager);
    assert(w.has_other_blocks()) by {
        protocol::lemma_kinds();
        let blocks = w.manager.blocks;
        text::lemma_search(|k: int| blocks[k].index == index, 0, blocks.len() as int);
        let k = state_manager::find_block(blocks, index).unwrap();
        assert(blocks[k].kind != "thinking"@);
    }
    lemma_call_is_mute(v, e);
    q
}

/// A piece of a tool call.
#[verifier::rlimit(60)]
#[verifier::spinoff_prover]
proof fn lemma_tool_tells(
    v: StreamView,
    texts: Seq<char>,
    thoughts: Seq<char>,
    received: Seq<char>,
    calls: bool,
    p: Parts,
    e: events::ToolUseView,
) -> (q: Parts)
    requires
        tells(v, texts, thoughts, received, calls, p),
        rests(v),
        held_mute(v.buffered),
        stream_laws::synced(v.manager),
        stream_laws::thinking_ok(v),
        stream_laws::tools_ok(v),
    ensures
        ({
            let (w, ev) = v.tool_use(e);
            &&& tells(
                w,
                texts + texts_in(ev),
                thoughts + thoughts_in(ev),
                received,
                true,
                q,
            )
            &&& rests(w)
            &&& held_mute(w.buffered)
        }),
{
    reveal(StreamView::tool_use);
    let q = lemma_pieces_tell(v, texts, thoughts, received, calls, p, e);
    stream_laws::lemma_tool_events_ok(v, e);
    let (x, all, index) = v.tool_events(e);
    if x.delayed {
        lemma_pass(all, index);
        let about = stream_model::about(all, index);
        let held = x.buffered + stream_model::tagged(e.id, about);
        let passed = stream_model::not_about(all, index);
        assert(held_mute(held)) by {
            assert forall|k: int| 0 <= k < held.len() implies is_mute((#[trigger] held[k]).1) by {
                if k < x.buffered.len() {
                    assert(held[k] == x.buffered[k]);
                } else {
                    assert(held[k].1 == about[k - x.buffered.len()]);
                }
            }
        }
        lemma_release_mute(held, x.tool_indices, x.completed);
        lemma_around(
            passed,
            stream_model::release_held(held, x.tool_indices, x.completed).1,
        );
        let w = v.tool_use(e).0;
        assert(w.has_other_blocks() == x.has_other_blocks());
    }
    q
}

/// Whether all that was heard of the answer was sent or is in the buffer.
spec fn told(w: StreamView, sent: Seq<sse::EventView>, ev: Seq<KiroEventView>) -> bool {
    &&& exists|p: Parts|
        tells(
            w,
            texts_in(sent),
            thoughts_in(sent),
            upstream::text_of(ev),
            upstream::calls_tools(ev),
            p,
        )
    &&& rests(w)
    &&& held_mute(w.buffered)
}

/// An event of the upstream service.
#[verifier::rlimit(60)]
#[verifier::spinoff_prover]
proof fn lemma_event_told(
    v: StreamView,
    a: protocol::Client,
    sent: Seq<sse::EventView>,
    ev: Seq<KiroEventView>,
    e: KiroEventView,
)
    requires
        stream_laws::live(v, a),
        told(v, sent, ev),
    ensures
        told(v.kiro_event(e).0, sent + v.kiro_event(e).1, ev.push(e)),
{
    let n = ev.push(e);
    assert(n.drop_last() =~= ev);
    assert(n.last() == e);
    upstream::lemma_ended_step(n, Seq::empty());
    let (w, out) = v.kiro_event(e);
    agreement::lemma_send_concat(sent, out);
    let none = Seq::<char>::empty();
    let r = upstream::text_of(ev);
    let t = texts_in(sent);
    let h = thoughts_in(sent);
    let calls = upstream::calls_tools(ev);
    let p = choose|p: Parts| tells(v, t, h, r, calls, p);
    assert(r + none =~= r);
    match e {
        KiroEventView::AssistantResponse { content } => {
            let q = lemma_answer_tells(v, t, h, r, calls, p, content);
            stream_laws::lemma_answer_keeps_books(v, content);
            assert(tells(
                w,
                texts_in(sent + out),
                thoughts_in(sent + out),
                upstream::text_of(n),
                upstream::calls_tools(n),
                q,
            ));
        },
        KiroEventView::ToolUse(tool) => {
            let q = lemma_tool_tells(v, t, h, r, calls, p, tool);
            assert(tells(
                w,
                texts_in(sent + out),
                thoughts_in(sent + out),
                upstream::text_of(n),
                upstream::calls_tools(n),
                q,
            ));
        },
        _ => {
            assert(mute(out));
            lemma_around(sent, out);
            assert(w.manager.blocks == v.manager.blocks);
            assert(w.has_other_blocks() == v.has_other_blocks());
            assert(tells(
                w,
                texts_in(sent + out),
                thoughts_in(sent + out),
                upstream::text_of(n),
                upstream::calls_tools(n),
                p,
            ));
        },
    }
}

/// A state that differs from another in nothing that has to do with the answer tells the same.
proof fn lemma_same_told(
    v: StreamView,
    w: StreamView,
    a: Seq<sse::EventView>,
    b: Seq<sse::EventView>,
    ev: Seq<KiroEventView>,
)
    requires
        told(v, a, ev),
        send(b, texts_in(a), thoughts_in(a)),
        w.manager.blocks == v.manager.blocks,
        w.manager.next_block_index == v.manager.next_block_index,
        w.buffer == v.buffer,
        w.thinking_index == v.thinking_index,
        w.in_thinking == v.in_thinking,
        w.thinking_extracted == v.thinking_extracted,
        w.strip_newline == v.strip_newline,
        w.thinking_enabled == v.thinking_enabled,
        w.buffered == v.buffered,
    ensures
        told(w, b, ev),
{
    let r = upstream::text_of(ev);
    let calls = upstream::calls_tools(ev);
    let p = choose|p: Parts| tells(v, texts_in(a), thoughts_in(a), r, calls, p);
    assert(w.has_other_blocks() == v.has_other_blocks());
    assert(tells(w, texts_in(b), thoughts_in(b), r, calls, p));
}

/// The first events hold nothing of the answer.
proof fn lemma_initial_told(v: StreamView, sent: Seq<sse::EventView>, ev: Seq<KiroEventView>)
    requires
        told(v, sent, ev),
    ensures
        told(v.initial().0, sent, ev),
        mute(v.initial().1),
{
    reveal(StreamView::initial);
    let r = upstream::text_of(ev);
    let calls = upstream::calls_tools(ev);
    let p = choose|p: Parts| tells(v, texts_in(sent), thoughts_in(sent), r, calls, p);
    let (w, out) = v.initial();
    let x = StreamView {
        manager: state_manager::ManagerView { message_started: true, ..v.manager },
        ..v
    };
    if v.thinking_enabled {
        assert(w.manager.blocks == v.manager.blocks);
        assert(w.has_other_blocks() == v.has_other_blocks());
    } else {
        agreement::lemma_open(x, "text"@, sse::ContentBlockView::Text);
        reveal(StreamView::open_block);
        reveal(state_manager::ManagerView::start_block);
        protocol::lemma_kinds();
        let start = if v.manager.message_started {
            Seq::empty()
        } else {
            seq![state_manager::message_start_event(v.message_start_data())]
        };
        assert(mute(start));
        let opened = x.open_block("text"@, sse::ContentBlockView::Text).1;
        assert(mute(opened));
        lemma_mute_concat(start, opened);
    }
    assert(tells(w, texts_in(sent), thoughts_in(sent), r, calls, p));
}

proof fn lemma_with_tokens_mute(ev: Seq<sse::EventView>, n: int)
    requires
        mute(ev),
    ensures
        mute(stream_model::with_input_tokens(ev, n)),
{
    let t = stream_model::with_input_tokens(ev, n);
    assert forall|k: int| 0 <= k < t.len() implies is_mute(#[trigger] t[k]) by {
        assert(is_mute(ev[k]));
    }
}

/// Whether a stream is at its beginning.
spec fn at_beginning(v: StreamView) -> bool {
    &&& stream_laws::fresh(v)
    &&& !v.initialized
    &&& !v.failed
    &&& v.buffer.len() == 0
    &&& v.thinking_index is None
    &&& !v.thinking_extracted
    &&& !v.strip_newline
}

/// Whatever happens to a stream, all that was heard of the answer was sent or is in the buffer.
#[verifier::rlimit(60)]
#[verifier::spinoff_prover]
proof fn lemma_perform_told(v: StreamView, actions: Seq<Action>)
    requires
        at_beginning(v),
        stream_counts::reflects(v, Seq::empty()),
    ensures
        told(
            stream_laws::perform(v, actions).0,
            stream_laws::perform(v, actions).1,
            heard(actions),
        ),
        mute(stream_laws::perform(v, actions).0.pending),
    decreases actions.len(),
{
    let none = Seq::<sse::EventView>::empty();
    agreement::lemma_send_none();
    if actions.len() == 0 {
        let p = no_parts();
        let e = Seq::<KiroEventView>::empty();
        assert(p.whole() + v.buffer =~= Seq::empty());
        assert(p.texts() =~= Seq::empty());
        assert(!v.has_other_blocks());
        assert(tells(
            v,
            texts_in(none),
            thoughts_in(none),
            upstream::text_of(e),
            upstream::calls_tools(e),
            p,
        ));
    } else {
        let rest = actions.drop_last();
        lemma_perform_told(v, rest);
        stream_laws::lemma_perform_follows(v, rest);
        stream_laws::lemma_nothing_sent(v, rest);
        stream_counts::lemma_perform_reflects(v, rest);
        let (w, sent) = stream_laws::perform(v, rest);
        let ev = heard(rest);
        let a = protocol::new_client().run(sent).unwrap();
        if !w.initialized {
            lemma_initial_told(w, sent, ev);
            stream_model::lemma_initial(w);
        }
        match actions.last() {
            Action::Event(e) => {
                if w.failed {
                    assert(sent + none =~= sent);
                } else if w.waiting() {
                    stream_laws::lemma_prepared_live(w, a);
                    let y = w.prepared();
                    let b = protocol::new_client().run(y.pending).unwrap();
                    assert(sent =~= none);
                    if !w.initialized {
                        lemma_same_told(w.initial().0, y, sent, none, ev);
                    }
                    lemma_event_told(y, b, none, ev, e);
                    stream_model::lemma_kiro_event(y, e);
                    let (z, out) = y.kiro_event(e);
                    assert(none + out =~= out);
                    let kept = stream_model::with_input_tokens(z.pending, z.effective_input());
                    lemma_with_tokens_mute(z.pending, z.effective_input());
                    lemma_around(kept, out);
                    let x = w.take_events(e).0;
                    if e is ContextUsage || out.len() > 0 {
                        lemma_same_told(z, x, out, kept + out, ev.push(e));
                        assert(sent + (kept + out) =~= kept + out);
                    } else {
                        assert(out =~= none);
                        assert(sent + none =~= none);
                    }
                } else if w.initialized {
                    stream_model::lemma_kiro_event(w, e);
                    lemma_event_told(w, a, sent, ev, e);
                } else {
                    stream_laws::lemma_initial_live(w);
                    let (x, first) = w.initial();
                    let y = StreamView { initialized: true, ..x };
                    let c = a.run(first).unwrap();
                    stream_laws::lemma_live_fields(x, y, c);
                    assert(sent =~= none);
                    lemma_mute(first);
                    lemma_same_told(x, y, sent, first, ev);
                    lemma_event_told(y, c, first, ev, e);
                    stream_model::lemma_kiro_event(y, e);
                    assert(sent + (first + y.kiro_event(e).1) =~= first + y.kiro_event(e).1);
                }
            },
            Action::Timeout => {
                if w.waiting() {
                    let y = w.prepared();
                    assert(sent =~= none);
                    if !w.initialized {
                        lemma_same_told(w.initial().0, y, sent, none, ev);
                    }
                    let kept = stream_model::with_input_tokens(y.pending, y.effective_input());
                    lemma_with_tokens_mute(y.pending, y.effective_input());
                    lemma_mute(kept);
                    lemma_same_told(y, w.force_release().0, none, kept, ev);
                    assert(sent + kept =~= kept);
                } else {
                    assert(sent + none =~= sent);
                }
            },
        }
    }
}

/// What is left in the buffer is sent at the end.
proof fn lemma_flush_tells(
    v: StreamView,
    texts: Seq<char>,
    thoughts: Seq<char>,
    received: Seq<char>,
    calls: bool,
    p: Parts,
) -> (q: Parts)
    requires
        tells(v, texts, thoughts, received, calls, p),
        rests(v),
    ensures
        ({
            let (w, ev) = v.flush_buffer();
            &&& tells(
                w,
                texts + texts_in(ev),
                thoughts + thoughts_in(ev),
                received,
                calls,
                q,
            )
            &&& w.buffer.len() == 0
        }),
{
    reveal(StreamView::flush_buffer);
    let none = Seq::<char>::empty();
    agreement::lemma_send_none();
    assert(texts + none =~= texts);
    assert(thoughts + none =~= thoughts);
    let s = v.buffer;
    if !v.thinking_enabled || s.len() == 0 {
        p
    } else if v.in_thinking {
        match thinking::first_last_end_tag(s) {
            Some(e) => {
                text::lemma_search(|k: int| thinking::last_end_tag_at(s, k), 0, s.len() as int);
                thinking::lemma_tag_lengths();
                lemma_leave_tells(v, texts, thoughts, received, calls, p, e)
            },
            None => {
                assert(s =~= s + none);
                lemma_close_tells(v, texts, thoughts, received, calls, p, s, none);
                p.with_thought(s)
            },
        }
    } else {
        assert(s =~= s + none);
        lemma_text_tells(v, texts, thoughts, received, calls, p, s, none);
        lemma_text_buffer(v, none, s);
        p.with_text(s)
    }
}

/// Forgetting blocks does not bring up the next index.
proof fn lemma_discard_new(
    m: state_manager::ManagerView,
    held: Seq<(Seq<char>, sse::EventView)>,
    indices: Seq<(Seq<char>, int)>,
)
    requires
        next_is_new(m),
    ensures
        next_is_new(stream_model::discard_held(m, held, indices)),
    decreases held.len(),
{
    if held.len() > 0 {
        let r = stream_model::discard_held(m, held.drop_last(), indices);
        lemma_discard_new(m, held.drop_last(), indices);
        stream_model::lemma_discard_held(m, held.drop_last(), indices);
        if let Some(i) = stream_model::lookup(indices, held.last().0) {
            let b = r.blocks;
            text::lemma_search(|k: int| b[k].index == i, 0, b.len() as int);
            let d = r.discard(i);
            assert forall|k: int| 0 <= k < d.blocks.len() implies (#[trigger] d.blocks[k]).index
                < d.next_block_index by {
                if state_manager::find_block(b, i) is Some {
                    let j = state_manager::find_block(b, i).unwrap();
                    assert(d.blocks[k] == if k < j {
                        b[k]
                    } else {
                        b[k + 1]
                    });
                } else {
                    assert(d.blocks[k] == b[k]);
                }
            }
        }
    }
}

/// The text for tool calls that were cut off.
proof fn lemma_correct_tells(
    v: StreamView,
    texts: Seq<char>,
    thoughts: Seq<char>,
    received: Seq<char>,
    p: Parts,
)
    requires
        v.buffered.len() > 0,
        tells(v, texts, thoughts, received, true, p),
        rests(v),
    ensures
        ({
            let (w, ev) = v.correct_truncation();
            &&& tells(w, texts, thoughts, received, true, p)
            &&& rests(w)
            &&& send(ev, stream_model::correction_text(v.chunk_lines), Seq::empty())
        }),
{
    let x = StreamView {
        manager: stream_model::discard_held(v.manager, v.buffered, v.tool_indices),
        buffered: Seq::empty(),
        ..v
    };
    stream_model::lemma_discard_held(v.manager, v.buffered, v.tool_indices);
    lemma_discard_new(v.manager, v.buffered, v.tool_indices);
    let t = stream_model::correction_text(v.chunk_lines);
    agreement::lemma_text(x, t);
    stream_model::lemma_text_delta(x, t);
    let y = x.text_delta(t).0;
    let w = v.correct_truncation().0;
    assert(w.manager.blocks == y.manager.blocks);
    assert(w.has_other_blocks() == y.has_other_blocks());
}

/// What a waiting stream owes at its end holds nothing of the answer.
proof fn lemma_release_told(v: StreamView, sent: Seq<sse::EventView>, ev: Seq<KiroEventView>)
    requires
        told(v, sent, ev),
        mute(v.pending),
        !v.initialized ==> v.pending.len() == 0,
    ensures
        told(v.release_at_end().0, sent, ev),
        mute(v.release_at_end().1),
{
    reveal(StreamView::release_at_end);
    let none = Seq::<sse::EventView>::empty();
    if v.initialized {
        lemma_with_tokens_mute(v.pending, v.effective_input());
        let kept = v.release_pending().1;
        lemma_mute_concat(none, kept);
        lemma_same_told(v, v.release_at_end().0, sent, sent, ev);
    } else {
        lemma_initial_told(v, sent, ev);
        stream_model::lemma_initial(v);
        let (x, first) = v.initial();
        let y = StreamView { initialized: true, ..x };
        lemma_with_tokens_mute(y.pending, y.effective_input());
        lemma_mute_concat(first, y.release_pending().1);
        lemma_same_told(x, v.release_at_end().0, sent, sent, ev);
    }
}

/// The end of a stream that failed adds nothing to the answer.
proof fn lemma_failure_mute(v: StreamView, sent: Seq<sse::EventView>, ev: Seq<KiroEventView>)
    requires
        told(v, sent, ev),
        mute(v.pending),
        !v.initialized ==> v.pending.len() == 0,
    ensures
        send(v.finalize_on_failure().1, Seq::empty(), Seq::empty()),
{
    let u = v.report_usage();
    lemma_same_told(v, u, sent, sent, ev);
    lemma_release_told(u, sent, ev);
    lemma_initial_told(u, sent, ev);
    let none = Seq::<sse::EventView>::empty();
    let (x, first) = if u.waiting() {
        u.release_at_end()
    } else if !u.manager.message_started {
        let (x, e) = u.initial();
        (StreamView { initialized: true, ..x }, e)
    } else {
        (u, none)
    };
    let w = StreamView {
        manager: stream_model::discard_held(x.manager, x.buffered, x.tool_indices),
        buffered: Seq::empty(),
        ..x
    };
    let output = if w.effective_output() < 1 {
        1
    } else {
        w.effective_output()
    };
    reveal(StreamView::finish);
    agreement::lemma_finish(w.manager, w.effective_input(), output);
    lemma_around(first, w.finish(w.effective_input(), output).1);
}

/// The text that stands for tool calls that were cut off, where there are any.
pub open spec fn correction(ev: Seq<KiroEventView>, delayed: bool, chunk_lines: nat) -> Seq<char> {
    if delayed && upstream::cut_off(ev) {
        stream_model::correction_text(chunk_lines)
    } else {
        Seq::empty()
    }
}

/// Whether an answer is nothing but thinking.
pub open spec fn only_thinks(ev: Seq<KiroEventView>, p: Parts) -> bool {
    p.begun && p.texts().len() == 0 && !upstream::calls_tools(ev)
}

/// What the client gets of an answer that came to its end: its text, with the text for tool
/// calls that were cut off in between, and a blank where there is nothing but thinking.
pub open spec fn shown(
    ev: Seq<KiroEventView>,
    delayed: bool,
    chunk_lines: nat,
    p: Parts,
    k: int,
) -> Seq<char> {
    p.texts().take(k) + correction(ev, delayed, chunk_lines) + p.texts().skip(k) + if only_thinks(
        ev,
        p,
    ) {
        " "@
    } else {
        Seq::empty()
    }
}

/// What is left after the correction: the rest of the buffer, and the blank.
#[verifier::rlimit(60)]
#[verifier::spinoff_prover]
proof fn lemma_final_tells(
    v: StreamView,
    texts: Seq<char>,
    thoughts: Seq<char>,
    received: Seq<char>,
    calls: bool,
    p: Parts,
) -> (q: Parts)
    requires
        tells(v, texts, thoughts, received, calls, p),
        rests(v),
    ensures
        ({
            let out = v.final_events().1;
            let (z, flushed) = v.flush_buffer();
            let more = texts_in(flushed);
            &&& q.wf()
            &&& received == q.whole()
            &&& thoughts + thoughts_in(out) == q.thought
            &&& texts + more == q.texts()
            &&& texts_in(out) == more + if q.begun && q.texts().len() == 0 && !calls {
                " "@
            } else {
                Seq::empty()
            }
            &&& !v.thinking_enabled ==> !q.begun
            &&& stream_ends::lacks_text(z) <==> q.begun && q.texts().len() == 0 && !calls
        }),
{
    let q = lemma_flush_tells(v, texts, thoughts, received, calls, p);
    stream_ends::lemma_flush_counts(v);
    let (z, ev1) = v.flush_buffer();
    assert(q.whole() + z.buffer =~= q.whole());
    let (w, ev2) = z.fill_in_text();
    let ev3 = w.finish(w.effective_input(), w.effective_output()).1;
    if v.thinking_enabled {
        agreement::lemma_ending(z);
    } else {
        reveal(StreamView::fill_in_text);
        reveal(StreamView::finish);
        agreement::lemma_finish(w.manager, w.effective_input(), w.effective_output());
        assert(ev2 + ev3 =~= ev3);
        reveal(StreamView::flush_buffer);
    }
    agreement::lemma_send_concat(ev1, ev2 + ev3);
    assert(ev1 + (ev2 + ev3) =~= ev1 + ev2 + ev3);
    let none = Seq::<char>::empty();
    assert(thoughts_in(ev1) + none =~= thoughts_in(ev1));
    q
}

/// The end of a stream that came to its end.
#[verifier::rlimit(60)]
#[verifier::spinoff_prover]
proof fn lemma_complete_shows(
    v: StreamView,
    sent: Seq<sse::EventView>,
    ev: Seq<KiroEventView>,
) -> (r: (Parts, int))
    requires
        told(v, sent, ev),
        mute(v.pending),
        !v.initialized ==> v.pending.len() == 0,
        !v.failed,
        v.buffered.len() > 0 <==> v.delayed && upstream::cut_off(ev),
        v.buffered.len() > 0 ==> upstream::calls_tools(ev),
    ensures
        ({
            let (q, k) = r;
            let trace = sent + v.finalize().1;
            &&& q.wf()
            &&& upstream::text_of(ev) == q.whole()
            &&& thoughts_in(trace) == q.thought
            &&& 0 <= k <= q.texts().len()
            &&& texts_in(trace) == shown(ev, v.delayed, v.chunk_lines, q, k)
            &&& !v.thinking_enabled ==> !q.begun
            &&& stream_ends::lacks_text(stream_ends::at_last(v)) <==> only_thinks(ev, q)
        }),
{
    let u = v.report_usage();
    lemma_same_told(v, u, sent, sent, ev);
    lemma_release_told(u, sent, ev);
    stream_ends::lemma_release_counts(u);
    let none = Seq::<sse::EventView>::empty();
    let (x, first) = if u.waiting() {
        u.release_at_end()
    } else {
        (u, none)
    };
    assert(told(x, sent, ev));
    assert(mute(first));
    assert(x.buffered == v.buffered && x.chunk_lines == v.chunk_lines);
    let t = texts_in(sent);
    let h = thoughts_in(sent);
    let r = upstream::text_of(ev);
    let calls = upstream::calls_tools(ev);
    let p = choose|p: Parts| tells(x, t, h, r, calls, p);
    let (y, corr) = x.correct_truncation();
    agreement::lemma_send_none();
    if x.buffered.len() > 0 {
        lemma_correct_tells(x, t, h, r, p);
        stream_model::lemma_correct_truncation(x);
    }
    let c = correction(ev, v.delayed, v.chunk_lines);
    assert(send(corr, c, Seq::empty()));
    let q = lemma_final_tells(y, t, h, r, calls, p);
    let out = y.final_events().1;
    agreement::lemma_send_concat(first, corr);
    lemma_around(first, corr);
    agreement::lemma_send_concat(first + corr, out);
    agreement::lemma_send_concat(sent, first + corr + out);
    let k = t.len() as int;
    let more = texts_in(y.flush_buffer().1);
    assert(q.texts().take(k) =~= t);
    assert(q.texts().skip(k) =~= more);
    let trace = sent + v.finalize().1;
    assert(v.finalize().1 == first + corr + out);
    assert(texts_in(trace) =~= shown(ev, v.delayed, v.chunk_lines, q, k));
    assert(thoughts_in(trace) =~= h + thoughts_in(out));
    (q, k)
}

/// Nothing of an answer is lost, and nothing is made up. All the text that the upstream service
/// sent before the stream came to its end falls into parts: text, then perhaps a thinking block
/// with its tags and blanks next to them, then text again. The client gets the text as text and
/// the thinking as thinking, in order. In a delayed stream a text stands for the tool calls that
/// were cut off. An answer that is nothing but thinking gets a blank text and ends as one that
/// was cut short; any other ends for the reason that is due.
///
/// A stream that fails has sent the answer up to some point, and adds nothing. Without thinking
/// it has sent all that came.
#[verifier::rlimit(40)]
#[verifier::spinoff_prover]
pub proof fn law_answer_is_sent(
    message_id: Seq<char>,
    model: Seq<char>,
    input_tokens: int,
    thinking_enabled: bool,
    tool_names: Seq<(Seq<char>, Seq<char>)>,
    delayed: bool,
    chunk_lines: nat,
    actions: Seq<Action>,
    ending: Ending,
)
    ensures
        ({
            let v = StreamView {
                chunk_lines,
                ..stream::new_stream(
                    message_id,
                    model,
                    input_tokens,
                    thinking_enabled,
                    tool_names,
                    delayed,
                )
            };
            let trace = stream_laws::whole_trace(v, actions, ending);
            let sent = stream_laws::perform(v, actions).1;
            let ev = heard(actions);
            exists|p: Parts, k: int, rest: Seq<char>|
                {
                    &&& p.wf()
                    &&& #[trigger] (p.whole() + rest) == upstream::text_of(ev)
                    &&& thoughts_in(trace) == p.thought
                    &&& !thinking_enabled ==> !p.begun && rest.len() == 0
                    &&& if stream_ends::fails(ev, ending) {
                        texts_in(trace) == p.texts() && texts_in(sent) == p.texts()
                    } else {
                        &&& rest.len() == 0
                        &&& 0 <= k <= p.texts().len()
                        &&& texts_in(trace) == #[trigger] shown(ev, delayed, chunk_lines, p, k)
                        &&& !thinking_enabled ==> texts_in(sent) == upstream::text_of(ev)
                        &&& stream_ends::closes(
                            trace,
                            if only_thinks(ev, p) {
                                "max_tokens"@
                            } else {
                                stream_ends::due_reason(ev, ending, delayed)
                            },
                            upstream::input_tokens(ev, input_tokens),
                            stream_counts::output_tokens(ev),
                        )
                    }
                }
        }),
{
    let v = StreamView {
        chunk_lines,
        ..stream::new_stream(
            message_id,
            model,
            input_tokens,
            thinking_enabled,
            tool_names,
            delayed,
        )
    };
    let (w, sent) = stream_laws::perform(v, actions);
    let ev = heard(actions);
    let trace = stream_laws::whole_trace(v, actions, ending);
    lemma_perform_told(v, actions);
    stream_counts::lemma_perform_reflects(v, actions);
    stream_calls::lemma_perform_calls(v, actions);
    stream_ends::lemma_held_if_cut_off(w, sent, ev);
    stream_laws::lemma_perform_follows(v, actions);
    if upstream::cut_off(ev) {
        let id = choose|id: Seq<char>| #[trigger] upstream::begun(ev, id) && !upstream::ended(ev, id);
        let k = choose|k: int| 0 <= k < ev.len() && upstream::is_piece(#[trigger] ev[k], id);
        assert(ev[k] is ToolUse);
    }
    let p = choose|p: Parts|
        tells(
            w,
            texts_in(sent),
            thoughts_in(sent),
            upstream::text_of(ev),
            upstream::calls_tools(ev),
            p,
        );
    if !thinking_enabled {
        assert(p.whole() + w.buffer =~= p.before);
        assert(p.texts() =~= p.before);
    }
    if stream_ends::fails(ev, ending) {
        let x = w.with_stop_reason("max_tokens"@);
        lemma_same_told(w, x, sent, sent, ev);
        lemma_failure_mute(w, sent, ev);
        lemma_failure_mute(x, sent, ev);
        let last = match ending {
            Ending::Complete => w.finalize().1,
            Ending::Failure => w.finalize_on_failure().1,
            Ending::Interrupt => w.finalize_on_interrupt().1,
        };
        agreement::lemma_send_concat(sent, last);
        assert(texts_in(trace) =~= texts_in(sent));
        assert(thoughts_in(trace) =~= thoughts_in(sent));
        let rest = w.buffer;
        assert(p.whole() + rest == upstream::text_of(ev));
        let s = shown(ev, delayed, chunk_lines, p, 0);
    } else {
        let (q, k) = lemma_complete_shows(w, sent, ev);
        let rest = Seq::<char>::empty();
        assert(q.whole() + rest =~= upstream::text_of(ev));
        stream_ends::lemma_complete_closes(w);
        let reason = if only_thinks(ev, q) {
            "max_tokens"@
        } else {
            stream_ends::due_reason(ev, ending, delayed)
        };
        stream_ends::lemma_closes_behind(
            sent,
            w.finalize().1,
            reason,
            upstream::input_tokens(ev, input_tokens),
            stream_counts::output_tokens(ev),
        );
        assert(texts_in(trace) == shown(ev, delayed, chunk_lines, q, k));
    }
}

/// A thinking block that ends gets what is left of its text, then an empty addition and the
/// signature of that text, and after them nothing but its stop.
pub proof fn law_thinking_block_is_signed(v: StreamView, index: int, content: Seq<char>)
    ensures
        ({
            let ev = v.close_thinking(index, content).1;
            let n: int = if content.len() == 0 {
                0
            } else {
                1
            };
            &&& n + 2 <= ev.len() <= n + 3
            &&& ev[n + 1].data == (sse::DataView::BlockDelta {
                index,
                delta: sse::DeltaView::Signature(thinking::thinking_signature(content)),
            })
            &&& ev[n].data == (sse::DataView::BlockDelta {
                index,
                delta: sse::DeltaView::Thinking(Seq::empty()),
            })
            &&& n == 1 ==> ev[0].data == (sse::DataView::BlockDelta {
                index,
                delta: sse::DeltaView::Thinking(content),
            })
            &&& ev.len() == n + 3 ==> ev[n + 2].data == (sse::DataView::BlockStop { index })
        }),
{
    reveal(StreamView::close_thinking);
    reveal(state_manager::ManagerView::stop_block);
}

/// Of text without a whole tag so much is kept back as a tag takes, or all that there is: what
/// may be the beginning of a tag is not sent. What is kept back is the end of the text, and as
/// little as that, but for blanks at the beginning.
pub proof fn law_beginning_of_a_tag_is_kept_back(v: StreamView)
    ensures
        thinking::first_start_tag(v.buffer) is None ==> {
            let w = v.before_thinking().0;
            &&& kept_back(v.buffer, w.buffer, 10)
            &&& text::all_white(v.buffer.take(v.buffer.len() - w.buffer.len())) ==> w.buffer
                == v.buffer
        },
        thinking::first_end_tag(v.buffer) is None && !v.strip_newline ==> {
            let w = v.inside_thinking().0;
            kept_back(v.buffer, w.buffer, 13) && text::byte_len(w.buffer) < 13 + 4
                || text::byte_len(v.buffer) < 13 + 4 && w.buffer == v.buffer
        },
{
    let s = v.buffer;
    lemma_kept_back(s, 10);
    lemma_kept_back(s, 13);
    stream_model::lemma_before_thinking(v);
    let k = stream_model::sendable(s, 10);
    let safe = s.take(k);
    lemma_sendable(s, 10);
    lemma_sendable(s, 13);
    assert(s.skip(0) =~= s);
    assert(s.take(0) =~= Seq::empty());
    if thinking::first_start_tag(s) is None {
        let w = v.before_thinking().0;
        if k == 0 || text::all_white(safe) {
            assert(w.buffer == s);
        } else {
            stream_model::lemma_text_delta(v, safe);
            assert(w.buffer == s.skip(k));
            assert(s.take(s.len() - w.buffer.len()) =~= safe);
        }
    }
}

/// Whether what is left of a text is its end, and holds so many bytes of it or all of it.
pub open spec fn kept_back(s: Seq<char>, rest: Seq<char>, bytes: nat) -> bool {
    &&& rest.len() <= s.len()
    &&& rest == s.skip(s.len() - rest.len())
    &&& rest == s || text::byte_len(rest) >= bytes
}

proof fn lemma_kept_back(s: Seq<char>, keep: nat)
    ensures
        ({
            let k = stream_model::sendable(s, keep);
            &&& 0 <= k <= s.len()
            &&& kept_back(s, s.skip(k), keep)
            &&& kept_back(s, s, keep)
            &&& text::byte_len(s.skip(k)) < keep + 4
        }),
{
    let n = text::byte_len(s);
    let room: nat = if n < keep {
        0
    } else {
        (n - keep) as nat
    };
    let k = stream_model::sendable(s, keep);
    agreement::lemma_within_len(s, room);
    lemma_within(s, room);
    text::lemma_byte_len_split(s, k);
    assert(s.skip(0) =~= s);
    assert(s.skip(s.len() - s.skip(k).len()) =~= s.skip(k));
}

/// The longest beginning of a text that fits: it fits, and with one character more it does not.
proof fn lemma_within(s: Seq<char>, bytes: nat)
    ensures
        ({
            let k = text::chars_within(s, bytes);
            &&& 0 <= k <= s.len()
            &&& text::byte_len(s.take(k)) <= bytes
            &&& k < s.len() ==> text::byte_len(s.take(k + 1)) > bytes
            &&& text::byte_len(s) <= bytes ==> k == s.len()
            &&& text::byte_len(s) > bytes ==> text::byte_len(s.take(k)) + 4 > bytes
        }),
    decreases s.len(),
{
    assert(s.take(s.len() as int) =~= s);
    if !(s.len() == 0 || text::byte_len(s) <= bytes) {
        let t = s.drop_last();
        lemma_within(t, bytes);
        let k = text::chars_within(s, bytes);
        assert(t.take(k) =~= s.take(k));
        if k < t.len() {
            assert(t.take(k + 1) =~= s.take(k + 1));
        } else {
            assert(s.take(k + 1) =~= s);
            assert(t.take(k) =~= t);
        }
        text::lemma_prefix_step(s, k);
        text::lemma_char_width(s[k]);
    } else if s.len() == 0 {
        assert(s =~= Seq::empty());
    }
}

/// A tag is heeded as soon as it is there. Before thinking, a piece of the answer begins a
/// thinking block if and only if with it there is an opening tag in what was not sent yet. Inside
/// one, it ends the block if and only if there is a closing tag. After it, nothing begins again.
pub proof fn law_tags_are_heeded(v: StreamView, content: Seq<char>)
    requires
        v.thinking_enabled,
        content.len() > 0,
        v.in_thinking ==> !v.thinking_extracted && v.thinking_index is Some,
    ensures
        ({
            let w = v.assistant_response(content).0;
            let all = v.buffer + content;
            let inside = if v.strip_newline {
                thinking::strip_newline(all)
            } else {
                all
            };
            if v.in_thinking {
                &&& w.thinking_extracted <==> thinking::first_end_tag(inside) is Some
                &&& w.in_thinking <==> thinking::first_end_tag(inside) is None
            } else if v.thinking_extracted {
                w.thinking_extracted && !w.in_thinking
            } else {
                w.in_thinking || w.thinking_extracted <==> thinking::first_start_tag(all) is Some
            }
        }),
{
    reveal(StreamView::assistant_response);
    let x = StreamView {
        output_tokens: v.output_tokens + thinking::estimated_tokens(content),
        ..v
    };
    let y = StreamView { buffer: x.buffer + content, ..x };
    if y.in_thinking {
        lemma_inside_heeds(y);
    } else if y.thinking_extracted {
        stream_model::lemma_text_delta(StreamView { buffer: Seq::empty(), ..y }, y.buffer);
    } else {
        let s = y.buffer;
        match thinking::first_start_tag(s) {
            Some(a) => {
                let before = s.take(a);
                stream_model::lemma_text_delta(y, before);
                let z = if text::all_white(before) {
                    y
                } else {
                    y.text_delta(before).0
                };
                stream_model::lemma_open_block(z, "thinking"@, sse::ContentBlockView::Thinking);
                lemma_inside_heeds(
                    StreamView {
                        in_thinking: true,
                        strip_newline: true,
                        buffer: s.skip(a + 10),
                        thinking_index: Some(z.manager.next_block_index),
                        ..z.open_block("thinking"@, sse::ContentBlockView::Thinking).0
                    },
                );
            },
            None => {
                stream_model::lemma_text_delta(
                    y,
                    s.take(stream_model::sendable(s, 10)),
                );
            },
        }
    }
}

proof fn lemma_inside_heeds(v: StreamView)
    requires
        v.in_thinking,
        !v.thinking_extracted,
    ensures
        ({
            let w = v.inside_thinking().0;
            let found = thinking::first_end_tag(v.drop_newline().buffer) is Some;
            w.thinking_extracted == found && w.in_thinking == !found
        }),
{
    let x = v.drop_newline();
    if let Some(e) = thinking::first_end_tag(x.buffer) {
        let y = StreamView { in_thinking: false, thinking_extracted: true, ..x };
        stream_model::lemma_close_thinking(y, x.buffer.take(e));
        let z = StreamView {
            buffer: x.buffer.skip(e + 13),
            ..y.close_thinking_if_any(x.buffer.take(e)).0
        };
        stream_model::lemma_text_delta(StreamView { buffer: Seq::empty(), ..z }, z.buffer);
    }
}

/// Whether an event starts a tool call.
pub open spec fn starts_call(e: sse::EventView) -> bool {
    e.data matches sse::DataView::BlockStart { block, .. } && block is ToolUse
}

/// Whether from some place on no text and no thinking comes behind the start of a tool call.
pub open spec fn text_before_calls(ev: Seq<sse::EventView>, from: int) -> bool {
    forall|j: int, k: int|
        from <= j < k < ev.len() && starts_call(#[trigger] ev[j]) ==> is_mute(#[trigger] ev[k])
}

/// Events without a start of a call, then events that are mute.
proof fn lemma_in_order(a: Seq<sse::EventView>, b: Seq<sse::EventView>)
    requires
        stream_laws::no_tool_events(a),
        mute(b),
    ensures
        text_before_calls(a + b, 0),
{
    let ev = a + b;
    assert forall|j: int, k: int|
        0 <= j < k < ev.len() && starts_call(#[trigger] ev[j]) implies is_mute(#[trigger] ev[k]) by {
        if j < a.len() {
            assert(ev[j] == a[j]);
            assert(stream_laws::no_tool_event(a[j]));
        } else {
            assert(ev[k] == b[k - a.len()]);
        }
    }
}

/// Taking the events about the block of a call out leaves no start of a call.
proof fn lemma_passed_no_calls(ev: Seq<sse::EventView>, m: state_manager::ManagerView, index: int)
    requires
        stream_laws::about_or_off(ev, m, index),
    ensures
        stream_laws::no_tool_events(stream_model::not_about(ev, index)),
    decreases ev.len(),
{
    if ev.len() > 0 {
        let rest = ev.drop_last();
        assert(stream_laws::about_or_off(rest, m, index)) by {
            assert forall|k: int| 0 <= k < rest.len() implies {
                let j = stream_model::block_of(#[trigger] rest[k]);
                &&& j is Some
                &&& j == Some(index) || (!stream_laws::is_tool_block(m, j.unwrap())
                    && stream_laws::no_tool_event(rest[k]))
            } by {
                assert(rest[k] == ev[k]);
            }
        }
        lemma_passed_no_calls(rest, m, index);
        let e = ev[ev.len() - 1];
        assert(stream_model::block_of(e) is Some);
    }
}

/// Before a tool call nothing is kept back of text that is not thinking.
proof fn lemma_settled_empty(v: StreamView)
    ensures
        ({
            let w = v.settle_for_tool().0;
            w.thinking_enabled && !w.in_thinking && !w.thinking_extracted ==> w.buffer.len() == 0
        }),
{
    reveal(StreamView::settle_for_tool);
    if v.thinking_enabled && v.in_thinking {
        if let Some(e) = thinking::first_last_end_tag(v.buffer) {
            let rest = text::trim_start(v.buffer.skip(e + 11));
            let x = StreamView { in_thinking: false, thinking_extracted: true, ..v };
            stream_model::lemma_close_thinking(x, v.buffer.take(e));
            let y = StreamView {
                buffer: Seq::empty(),
                ..x.close_thinking_if_any(v.buffer.take(e)).0
            };
            stream_model::lemma_text_delta(y, rest);
            assert(v.leave_thinking_at(e).0.thinking_extracted);
        }
    } else {
        stream_model::lemma_text_delta(StreamView { buffer: Seq::empty(), ..v }, v.buffer);
    }
}

/// A piece of a tool call: what text is left goes before it.
proof fn lemma_tool_after_text(v: StreamView, a: protocol::Client, e: events::ToolUseView)
    requires
        stream_laws::live(v, a),
        held_mute(v.buffered),
    ensures
        ({
            let (w, ev) = v.tool_use(e);
            &&& w.thinking_enabled && !w.in_thinking && !w.thinking_extracted ==> w.buffer.len()
                == 0
            &&& text_before_calls(ev, 0)
        }),
{
    reveal(StreamView::tool_use);
    stream_laws::lemma_tool_events_ok(v, e);
    let m = v.manager;
    let v0 = StreamView {
        manager: state_manager::ManagerView { has_tool_use: true, ..m },
        ..v
    };
    stream_laws::lemma_same_books(m, v0.manager);
    stream_laws::lemma_settle_fine(v0);
    stream_model::lemma_settle_for_tool(v0);
    let (v1, settled) = v0.settle_for_tool();
    lemma_settled_empty(v0);
    let (v2, index) = v1.tool_block(e.id);
    stream_model::lemma_feed_tool(v2, index, e);
    let (x, fed) = v2.feed_tool(index, e);
    lemma_fed_mute(v2, index, e);
    assert(stream_laws::no_tool_events(settled)) by {
        assert forall|k: int| 0 <= k < settled.len() implies stream_laws::no_tool_event(
            #[trigger] settled[k],
        ) by {
            assert(stream_model::block_of(settled[k]) is Some);
        }
    }
    lemma_in_order(settled, fed);
    let all = settled + fed;
    if x.delayed {
        lemma_call_is_mute(v, e);
        lemma_pass(all, index);
        lemma_passed_no_calls(all, m, index);
        let about = stream_model::about(all, index);
        let held = x.buffered + stream_model::tagged(e.id, about);
        let passed = stream_model::not_about(all, index);
        assert(held_mute(held)) by {
            assert forall|k: int| 0 <= k < held.len() implies is_mute((#[trigger] held[k]).1) by {
                if k < x.buffered.len() {
                    assert(held[k] == x.buffered[k]);
                } else {
                    assert(held[k].1 == about[k - x.buffered.len()]);
                }
            }
        }
        lemma_release_mute(held, x.tool_indices, x.completed);
        let out = stream_model::release_held(held, x.tool_indices, x.completed).1;
        lemma_in_order(passed, out);
        let none = Seq::<sse::EventView>::empty();
        lemma_in_order(passed, none);
        assert(passed + none =~= passed);
    }
}

/// Text that came before a tool call is sent before it. When a piece of a call is taken in, all
/// the text so far has been sent, unless it is inside thinking or behind it; and among the events
/// that it brings, no text and no thinking comes behind the start of a call.
#[verifier::rlimit(40)]
#[verifier::spinoff_prover]
pub proof fn law_text_before_tool_calls(
    message_id: Seq<char>,
    model: Seq<char>,
    input_tokens: int,
    thinking_enabled: bool,
    tool_names: Seq<(Seq<char>, Seq<char>)>,
    delayed: bool,
    actions: Seq<Action>,
    e: events::ToolUseView,
)
    requires
        !stream_counts::faulted(heard(actions)),
    ensures
        ({
            let v = stream::new_stream(
                message_id,
                model,
                input_tokens,
                thinking_enabled,
                tool_names,
                delayed,
            );
            let before = stream_laws::perform(v, actions).1;
            let (w, sent) = stream_laws::perform(
                v,
                actions.push(Action::Event(KiroEventView::ToolUse(e))),
            );
            &&& !w.in_thinking && !w.thinking_extracted ==> texts_in(sent) == upstream::text_of(
                heard(actions),
            )
            &&& text_before_calls(sent, before.len() as int)
        }),
{
    let v = stream::new_stream(
        message_id,
        model,
        input_tokens,
        thinking_enabled,
        tool_names,
        delayed,
    );
    let event = KiroEventView::ToolUse(e);
    let next = actions.push(Action::Event(event));
    assert(next.drop_last() =~= actions);
    lemma_perform_told(v, actions);
    lemma_perform_told(v, next);
    stream_calls::lemma_perform_calls(v, actions);
    stream_laws::lemma_perform_follows(v, actions);
    stream_laws::lemma_nothing_sent(v, actions);
    stream_counts::lemma_perform_reflects(v, actions);
    let (w, before) = stream_laws::perform(v, actions);
    let (x, sent) = stream_laws::perform(v, next);
    let ev = heard(actions);
    assert(heard(next) == ev.push(event));
    assert(ev.push(event).drop_last() =~= ev);
    assert(upstream::text_of(heard(next)) =~= upstream::text_of(ev));
    let a = protocol::new_client().run(before).unwrap();
    let none = Seq::<sse::EventView>::empty();
    if !w.initialized {
        stream_laws::lemma_initial_no_tools(w);
        stream_model::lemma_initial(w);
    }
    if w.waiting() {
        stream_laws::lemma_prepared_live(w, a);
        let y = w.prepared();
        let b = protocol::new_client().run(y.pending).unwrap();
        lemma_tool_after_text(y, b, e);
        stream_model::lemma_kiro_event(y, event);
        let (z, out) = y.kiro_event(event);
        let kept = stream_model::with_input_tokens(z.pending, z.effective_input());
        stream_calls::lemma_with_tokens_no_tools(z.pending, z.effective_input());
        assert(before =~= none);
        lemma_behind(kept, out);
        assert(none + (kept + out) =~= kept + out);
        assert(none + none =~= none);
        assert(x.buffer == z.buffer && x.in_thinking == z.in_thinking);
    } else if w.initialized {
        lemma_tool_after_text(w, a, e);
        let out = w.kiro_event(event).1;
        assert forall|j: int, k: int|
            before.len() <= j < k < sent.len() && starts_call(#[trigger] sent[j]) implies is_mute(
            #[trigger] sent[k],
        ) by {
            assert(sent[j] == out[j - before.len()]);
            assert(sent[k] == out[k - before.len()]);
        }
    } else {
        stream_laws::lemma_initial_live(w);
        let (y0, first) = w.initial();
        let y = StreamView { initialized: true, ..y0 };
        let c = a.run(first).unwrap();
        stream_laws::lemma_live_fields(y0, y, c);
        lemma_tool_after_text(y, c, e);
        let out = y.kiro_event(event).1;
        assert(before =~= none);
        lemma_behind(first, out);
        assert(none + (first + out) =~= first + out);
    }
    let p = choose|p: Parts|
        tells(
            x,
            texts_in(sent),
            thoughts_in(sent),
            upstream::text_of(heard(next)),
            upstream::calls_tools(heard(next)),
            p,
        );
    if !x.in_thinking && !x.thinking_extracted {
        assert(rests(x));
        assert(x.thinking_enabled ==> x.buffer.len() == 0);
        assert(p.whole() + x.buffer =~= p.before);
        assert(p.texts() =~= p.before);
    }
}

/// Events without a start of a call in front of others change nothing in their order.
proof fn lemma_behind(a: Seq<sse::EventView>, b: Seq<sse::EventView>)
    requires
        stream_laws::no_tool_events(a),
        text_before_calls(b, 0),
    ensures
        text_before_calls(a + b, 0),
{
    let ev = a + b;
    assert forall|j: int, k: int|
        0 <= j < k < ev.len() && starts_call(#[trigger] ev[j]) implies is_mute(#[trigger] ev[k]) by {
        if j < a.len() {
            assert(ev[j] == a[j]);
            assert(stream_laws::no_tool_event(a[j]));
        } else {
            assert(ev[j] == b[j - a.len()]);
            assert(ev[k] == b[k - a.len()]);
        }
    }
}

} // verus!
