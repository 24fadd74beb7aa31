//! The model of a response stream: its state, and what each operation does to
//! the state and sends to the client.

use vstd::prelude::*;
use crate::anthropic::sse;
use crate::anthropic::state_manager;
use crate::anthropic::thinking;
use crate::kiro::events;
use crate::text;

verus! {

/// What is reported of a request once it is over.
pub struct UsageView {
    pub model: Seq<char>,
    pub credential_id: int,
    pub input_tokens: int,
    pub output_tokens: int,
    pub cache_read: int,
    pub cache_write: int,
}

/// The state of a response stream.
pub struct StreamView {
    pub manager: state_manager::ManagerView,
    pub model: Seq<char>,
    pub message_id: Seq<char>,
    pub input_tokens: int,
    pub context_input_tokens: Option<int>,
    pub token_usage: Option<events::TokenUsage>,
    pub output_tokens: int,
    pub tool_indices: Seq<(Seq<char>, int)>,
    pub tool_names: Seq<(Seq<char>, Seq<char>)>,
    pub thinking_enabled: bool,
    pub buffer: Seq<char>,
    pub in_thinking: bool,
    pub thinking_extracted: bool,
    pub thinking_index: Option<int>,
    pub text_index: Option<int>,
    pub strip_newline: bool,
    pub delayed: bool,
    pub pending: Seq<sse::EventView>,
    pub released: bool,
    pub initialized: bool,
    pub failed: bool,
    pub buffered: Seq<(Seq<char>, sse::EventView)>,
    pub completed: Set<Seq<char>>,
    pub usage_reported: bool,
    pub usage_report: Option<UsageView>,
    pub credential_id: int,
    pub chunk_lines: nat,
}

/// Picks the pairs with a key.
pub open spec fn has_key<V>(pairs: Seq<(Seq<char>, V)>, key: Seq<char>) -> spec_fn(int) -> bool {
    |i: int| pairs[i].0 == key
}

/// The value that a list of pairs gives to a key: that of the first pair with it.
pub open spec fn lookup<V>(pairs: Seq<(Seq<char>, V)>, key: Seq<char>) -> Option<V> {
    match text::search(has_key(pairs, key), 0, pairs.len() as int) {
        Some(i) => Some(pairs[i].1),
        None => None,
    }
}

/// The payload of an addition of text.
pub open spec fn text_data(index: int, text: Seq<char>) -> sse::DataView {
    sse::DataView::BlockDelta { index, delta: sse::DeltaView::Text(text) }
}

/// An addition of thinking text.
pub open spec fn thinking_event(index: int, text: Seq<char>) -> sse::EventView {
    state_manager::delta_event(
        sse::DataView::BlockDelta { index, delta: sse::DeltaView::Thinking(text) },
    )
}

/// The signature of a thinking block.
pub open spec fn signature_event(index: int, signature: Seq<char>) -> sse::EventView {
    state_manager::delta_event(
        sse::DataView::BlockDelta { index, delta: sse::DeltaView::Signature(signature) },
    )
}

/// An error inside the stream.
pub open spec fn error_event(message: Seq<char>) -> sse::EventView {
    sse::EventView { event: "error"@, data: sse::DataView::Error { message } }
}

/// The block that an event is about.
pub open spec fn block_of(e: sse::EventView) -> Option<int> {
    match e.data {
        sse::DataView::BlockStart { index, .. } => Some(index),
        sse::DataView::BlockDelta { index, .. } => Some(index),
        sse::DataView::BlockStop { index } => Some(index),
        _ => None,
    }
}

/// The text that takes the place of a tool call that was cut off.
pub open spec fn correction_text(chunk_lines: nat) -> Seq<char> {
    "The model output was truncated before this tool call was complete. The tool was NOT executed. When writing files, limit each Write call to "@
        + text::digits(chunk_lines)
        + " lines or fewer, then use Edit to add remaining content in chunks of "@ + text::digits(
        chunk_lines,
    ) + " lines or fewer. For edits, use multiple Edit calls instead of one large edit."@
}

/// Events with the input tokens of `message_start` set.
pub open spec fn with_input_tokens(events: Seq<sse::EventView>, input_tokens: int) -> Seq<
    sse::EventView,
> {
    events.map_values(
        |e: sse::EventView|
            match e.data {
                sse::DataView::MessageStart { id, model, .. } if e.event == "message_start"@ => {
                    sse::EventView {
                        event: e.event,
                        data: sse::DataView::MessageStart { id, model, input_tokens },
                    }
                },
                _ => e,
            },
    )
}

/// The events about a block, in order.
pub open spec fn about(events: Seq<sse::EventView>, index: int) -> Seq<sse::EventView>
    decreases events.len(),
{
    if events.len() == 0 {
        Seq::empty()
    } else if block_of(events.last()) == Some(index) {
        about(events.drop_last(), index).push(events.last())
    } else {
        about(events.drop_last(), index)
    }
}

/// The events that are not about a block, in order.
pub open spec fn not_about(events: Seq<sse::EventView>, index: int) -> Seq<sse::EventView>
    decreases events.len(),
{
    if events.len() == 0 {
        Seq::empty()
    } else if block_of(events.last()) == Some(index) {
        not_about(events.drop_last(), index)
    } else {
        not_about(events.drop_last(), index).push(events.last())
    }
}

/// Events marked with the tool call they belong to.
pub open spec fn tagged(id: Seq<char>, events: Seq<sse::EventView>) -> Seq<
    (Seq<char>, sse::EventView),
> {
    events.map_values(|e: sse::EventView| (id, e))
}

/// The held-back events of a tool call, in order.
pub open spec fn held_of(held: Seq<(Seq<char>, sse::EventView)>, id: Seq<char>) -> Seq<
    sse::EventView,
>
    decreases held.len(),
{
    if held.len() == 0 {
        Seq::empty()
    } else if held.last().0 == id {
        held_of(held.drop_last(), id).push(held.last().1)
    } else {
        held_of(held.drop_last(), id)
    }
}

/// The held-back events of the other tool calls, in order.
pub open spec fn held_besides(held: Seq<(Seq<char>, sse::EventView)>, id: Seq<char>) -> Seq<
    (Seq<char>, sse::EventView),
>
    decreases held.len(),
{
    if held.len() == 0 {
        Seq::empty()
    } else if held.last().0 == id {
        held_besides(held.drop_last(), id)
    } else {
        held_besides(held.drop_last(), id).push(held.last())
    }
}

/// The lowest block index among the held-back events, with its tool call.
pub open spec fn lowest_held(
    held: Seq<(Seq<char>, sse::EventView)>,
    indices: Seq<(Seq<char>, int)>,
) -> Option<(int, Seq<char>)>
    decreases held.len(),
{
    if held.len() == 0 {
        None
    } else {
        let best = lowest_held(held.drop_last(), indices);
        match lookup(indices, held.last().0) {
            None => best,
            Some(i) => match best {
                None => Some((i, held.last().0)),
                Some((j, _)) => if i < j {
                    Some((i, held.last().0))
                } else {
                    best
                },
            },
        }
    }
}

/// Whether a tool call has held-back events.
pub open spec fn holds(held: Seq<(Seq<char>, sse::EventView)>, id: Seq<char>) -> bool {
    exists|i: int| 0 <= i < held.len() && (#[trigger] held[i]).0 == id
}

/// Taking the events of a call out leaves fewer, unless there were none.
pub proof fn lemma_held_besides_shorter(held: Seq<(Seq<char>, sse::EventView)>, id: Seq<char>)
    ensures
        held_besides(held, id).len() <= held.len(),
        holds(held, id) ==> held_besides(held, id).len() < held.len(),
    decreases held.len(),
{
    if held.len() > 0 {
        lemma_held_besides_shorter(held.drop_last(), id);
        if holds(held, id) && held.last().0 != id {
            let i: int = choose|i: int| 0 <= i < held.len() && (#[trigger] held[i]).0 == id;
            assert(held.drop_last()[i].0 == id);
        }
    }
}

/// The call with the lowest index has held-back events, and no call with
/// held-back events has a lower one.
pub proof fn lemma_lowest_held(
    held: Seq<(Seq<char>, sse::EventView)>,
    indices: Seq<(Seq<char>, int)>,
)
    ensures
        match lowest_held(held, indices) {
            Some((i, id)) => {
                &&& holds(held, id)
                &&& lookup(indices, id) == Some(i)
                &&& forall|k: int|
                    0 <= k < held.len() && lookup(indices, (#[trigger] held[k]).0) is Some
                        ==> i <= lookup(indices, held[k].0).unwrap()
            },
            None => forall|k: int|
                0 <= k < held.len() ==> lookup(indices, (#[trigger] held[k]).0) is None,
        },
    decreases held.len(),
{
    if held.len() > 0 {
        let rest = held.drop_last();
        lemma_lowest_held(rest, indices);
        assert forall|k: int| 0 <= k < held.len() implies k == held.len() - 1 || held[k]
            == #[trigger] rest[k] by {}
        match lowest_held(held, indices) {
            Some((i, id)) => {
                if id == held.last().0 {
                    assert(held[held.len() - 1].0 == id);
                } else {
                    let k: int = choose|k: int| 0 <= k < rest.len() && (#[trigger] rest[k]).0 == id;
                    assert(held[k].0 == id);
                }
                assert forall|k: int|
                    0 <= k < held.len() && lookup(indices, (#[trigger] held[k]).0) is Some implies i
                    <= lookup(indices, held[k].0).unwrap() by {
                    if k < rest.len() {
                        assert(rest[k] == held[k]);
                    }
                }
            },
            None => {
                assert forall|k: int| 0 <= k < held.len() implies lookup(
                    indices,
                    (#[trigger] held[k]).0,
                ) is None by {
                    if k < rest.len() {
                        assert(rest[k] == held[k]);
                    }
                }
            },
        }
    }
}

/// What is left of the held-back events, and what is released: as long as the
/// call with the lowest block index is complete, all its events, in order.
pub open spec fn release_held(
    held: Seq<(Seq<char>, sse::EventView)>,
    indices: Seq<(Seq<char>, int)>,
    completed: Set<Seq<char>>,
) -> (Seq<(Seq<char>, sse::EventView)>, Seq<sse::EventView>)
    decreases held.len(),
{
    match lowest_held(held, indices) {
        None => (held, Seq::empty()),
        Some((_, id)) => if completed.contains(id) {
            proof {
                lemma_lowest_held(held, indices);
                lemma_held_besides_shorter(held, id);
            }
            let (rest, more) = release_held(held_besides(held, id), indices, completed);
            (rest, held_of(held, id) + more)
        } else {
            (held, Seq::empty())
        },
    }
}

/// The state machine without the blocks of the held-back tool calls.
pub open spec fn discard_held(
    m: state_manager::ManagerView,
    held: Seq<(Seq<char>, sse::EventView)>,
    indices: Seq<(Seq<char>, int)>,
) -> state_manager::ManagerView
    decreases held.len(),
{
    if held.len() == 0 {
        m
    } else {
        let r = discard_held(m, held.drop_last(), indices);
        match lookup(indices, held.last().0) {
            Some(i) => r.discard(i),
            None => r,
        }
    }
}

/// The number of characters that can be sent when `keep` bytes at the end must
/// be kept back.
pub open spec fn sendable(buffer: Seq<char>, keep: nat) -> int {
    let n = text::byte_len(buffer);
    text::chars_within(
        buffer,
        if n < keep {
            0
        } else {
            (n - keep) as nat
        },
    )
}

impl StreamView {
    /// The input tokens to report: the counts of the upstream service first,
    /// then what follows from the use of the context window, then the estimate.
    pub open spec fn effective_input(self) -> int {
        let exact = match self.token_usage {
            Some(u) => u.input(),
            None => None,
        };
        match exact {
            Some(n) => n,
            None => match self.context_input_tokens {
                Some(n) => n,
                None => self.input_tokens,
            },
        }
    }

    /// The output tokens to report: the count of the upstream service, or else
    /// the running estimate.
    pub open spec fn effective_output(self) -> int {
        let exact = match self.token_usage {
            Some(u) => u.output(),
            None => None,
        };
        match exact {
            Some(n) => n,
            None => self.output_tokens,
        }
    }

    /// The state with another stop reason.
    pub open spec fn with_stop_reason(self, reason: Seq<char>) -> StreamView {
        StreamView {
            manager: state_manager::ManagerView { stop_reason: Some(reason), ..self.manager },
            ..self
        }
    }

    /// Starts a new block with the next index.
    #[verifier::opaque]
    pub open spec fn open_block(self, kind: Seq<char>, block: sse::ContentBlockView) -> (
        StreamView,
        Seq<sse::EventView>,
    ) {
        let index = self.manager.next_block_index;
        let m = state_manager::ManagerView { next_block_index: index + 1, ..self.manager };
        let (m2, events) = m.start_block(index, kind, sse::DataView::BlockStart { index, block });
        (StreamView { manager: m2, ..self }, events)
    }

    /// Whether the current text block can take additions.
    pub open spec fn text_open(self) -> bool {
        match self.text_index {
            Some(i) => match self.manager.block(i) {
                Some(b) => b.is_open() && b.kind == "text"@,
                None => false,
            },
            None => false,
        }
    }

    /// Sends text: to the current text block if it is open, else to a new one.
    #[verifier::opaque]
    pub open spec fn text_delta(self, text: Seq<char>) -> (StreamView, Seq<sse::EventView>) {
        if self.text_open() {
            let i = self.text_index.unwrap();
            (self, self.manager.delta(i, text_data(i, text)))
        } else {
            let i = self.manager.next_block_index;
            let (v, starts) = self.open_block("text"@, sse::ContentBlockView::Text);
            let w = StreamView { text_index: Some(i), ..v };
            (w, starts + w.manager.delta(i, text_data(i, text)))
        }
    }

    /// Ends the thinking block: what is left of its text, an empty addition, the
    /// signature, the stop.
    #[verifier::opaque]
    pub open spec fn close_thinking(self, index: int, content: Seq<char>) -> (
        StreamView,
        Seq<sse::EventView>,
    ) {
        let head = if content.len() == 0 {
            Seq::empty()
        } else {
            seq![thinking_event(index, content)]
        };
        let (m, stops) = self.manager.stop_block(index);
        (
            StreamView { manager: m, ..self },
            head + seq![
                thinking_event(index, Seq::empty()),
                signature_event(index, thinking::thinking_signature(content)),
            ] + stops,
        )
    }

    /// [`StreamView::close_thinking`] for the thinking block, if there is one.
    pub open spec fn close_thinking_if_any(self, content: Seq<char>) -> (
        StreamView,
        Seq<sse::EventView>,
    ) {
        match self.thinking_index {
            Some(i) => self.close_thinking(i, content),
            None => (self, Seq::empty()),
        }
    }

    /// After the thinking block, everything is text.
    pub open spec fn after_thinking(self) -> (StreamView, Seq<sse::EventView>) {
        if self.buffer.len() == 0 {
            (self, Seq::empty())
        } else {
            StreamView { buffer: Seq::empty(), ..self }.text_delta(self.buffer)
        }
    }

    /// The newline right after the opening tag is dropped, once it is there to see.
    pub open spec fn drop_newline(self) -> StreamView {
        if self.strip_newline && self.buffer.len() > 0 {
            StreamView {
                buffer: thinking::strip_newline(self.buffer),
                strip_newline: false,
                ..self
            }
        } else {
            self
        }
    }

    /// Inside the thinking block: up to a real closing tag it is thinking text.
    /// Without one, all but the last 13 bytes are sent, which may be a part of
    /// the tag and the empty line after it.
    pub open spec fn inside_thinking(self) -> (StreamView, Seq<sse::EventView>) {
        let v = self.drop_newline();
        match thinking::first_end_tag(v.buffer) {
            Some(e) => {
                let w = StreamView { in_thinking: false, thinking_extracted: true, ..v };
                let (x, ev) = w.close_thinking_if_any(v.buffer.take(e));
                let (y, more) = StreamView {
                    buffer: v.buffer.skip(e + 13),
                    ..x
                }.after_thinking();
                (y, ev + more)
            },
            None => {
                let k = sendable(v.buffer, 13);
                if k == 0 {
                    (v, Seq::empty())
                } else {
                    (
                        StreamView { buffer: v.buffer.skip(k), ..v },
                        match v.thinking_index {
                            Some(i) => seq![thinking_event(i, v.buffer.take(k))],
                            None => Seq::empty(),
                        },
                    )
                }
            },
        }
    }

    /// Before the thinking block: up to a real opening tag it is text, which is
    /// sent unless it is blank. Without a tag, all but the last 10 bytes are
    /// sent, which may be a part of it.
    pub open spec fn before_thinking(self) -> (StreamView, Seq<sse::EventView>) {
        match thinking::first_start_tag(self.buffer) {
            Some(a) => {
                let before = self.buffer.take(a);
                let (v, ev) = if text::all_white(before) {
                    (self, Seq::empty())
                } else {
                    self.text_delta(before)
                };
                let i = v.manager.next_block_index;
                let (w, starts) = v.open_block("thinking"@, sse::ContentBlockView::Thinking);
                let (x, more) = StreamView {
                    in_thinking: true,
                    strip_newline: true,
                    buffer: self.buffer.skip(a + 10),
                    thinking_index: Some(i),
                    ..w
                }.inside_thinking();
                (x, ev + starts + more)
            },
            None => {
                let k = sendable(self.buffer, 10);
                let safe = self.buffer.take(k);
                if k == 0 || text::all_white(safe) {
                    (self, Seq::empty())
                } else {
                    let (v, ev) = self.text_delta(safe);
                    (StreamView { buffer: self.buffer.skip(k), ..v }, ev)
                }
            },
        }
    }

    /// A piece of an answer that may hold a thinking block.
    pub open spec fn content_with_thinking(self, content: Seq<char>) -> (
        StreamView,
        Seq<sse::EventView>,
    ) {
        let v = StreamView { buffer: self.buffer + content, ..self };
        if !v.in_thinking && !v.thinking_extracted {
            v.before_thinking()
        } else if v.in_thinking {
            v.inside_thinking()
        } else {
            v.after_thinking()
        }
    }

    /// A piece of the answer.
    #[verifier::opaque]
    pub open spec fn assistant_response(self, content: Seq<char>) -> (
        StreamView,
        Seq<sse::EventView>,
    ) {
        if content.len() == 0 {
            (self, Seq::empty())
        } else {
            let v = StreamView {
                output_tokens: self.output_tokens + thinking::estimated_tokens(content),
                ..self
            };
            if v.thinking_enabled {
                v.content_with_thinking(content)
            } else {
                v.text_delta(content)
            }
        }
    }

    /// Ends the thinking block at a closing tag at the end of the buffer; white
    /// space after the tag is dropped.
    pub open spec fn leave_thinking_at(self, e: int) -> (StreamView, Seq<sse::EventView>) {
        let rest = text::trim_start(self.buffer.skip(e + 11));
        let (v, ev) = StreamView {
            in_thinking: false,
            thinking_extracted: true,
            ..self
        }.close_thinking_if_any(self.buffer.take(e));
        let w = StreamView { buffer: Seq::empty(), ..v };
        if rest.len() == 0 {
            (w, ev)
        } else {
            let (x, more) = w.text_delta(rest);
            (x, ev + more)
        }
    }

    /// Before a tool call: the thinking block ends if its closing tag is there,
    /// and text that was kept back is sent.
    #[verifier::opaque]
    pub open spec fn settle_for_tool(self) -> (StreamView, Seq<sse::EventView>) {
        let (v, ev) = if self.thinking_enabled && self.in_thinking {
            match thinking::first_last_end_tag(self.buffer) {
                Some(e) => self.leave_thinking_at(e),
                None => (self, Seq::empty()),
            }
        } else {
            (self, Seq::empty())
        };
        if v.thinking_enabled && !v.in_thinking && !v.thinking_extracted && v.buffer.len() > 0 {
            let (w, more) = StreamView { buffer: Seq::empty(), ..v }.text_delta(v.buffer);
            (w, ev + more)
        } else {
            (v, ev)
        }
    }

    /// The block of a tool call: the one it has, or the next one.
    pub open spec fn tool_block(self, id: Seq<char>) -> (StreamView, int) {
        match lookup(self.tool_indices, id) {
            Some(i) => (self, i),
            None => {
                let i = self.manager.next_block_index;
                (
                    StreamView {
                        manager: state_manager::ManagerView {
                            next_block_index: i + 1,
                            ..self.manager
                        },
                        tool_indices: self.tool_indices.push((id, i)),
                        ..self
                    },
                    i,
                )
            },
        }
    }

    /// The name of a tool as the client knows it.
    pub open spec fn tool_name(self, name: Seq<char>) -> Seq<char> {
        match lookup(self.tool_names, name) {
            Some(n) => n,
            None => name,
        }
    }

    /// A piece of a tool call goes to its block: the start, if it has not started,
    /// the piece of its input, the stop with the last piece.
    #[verifier::opaque]
    pub open spec fn feed_tool(self, index: int, e: events::ToolUseView) -> (
        StreamView,
        Seq<sse::EventView>,
    ) {
        let (m1, starts) = self.manager.start_block(
            index,
            "tool_use"@,
            sse::DataView::BlockStart {
                index,
                block: sse::ContentBlockView::ToolUse { id: e.id, name: self.tool_name(e.name) },
            },
        );
        let deltas = if e.input.len() == 0 {
            Seq::empty()
        } else {
            m1.delta(
                index,
                sse::DataView::BlockDelta { index, delta: sse::DeltaView::InputJson(e.input) },
            )
        };
        let (m2, stops) = if e.stop {
            m1.stop_block(index)
        } else {
            (m1, Seq::empty())
        };
        (
            StreamView {
                manager: m2,
                output_tokens: if e.input.len() == 0 {
                    self.output_tokens
                } else {
                    self.output_tokens + (text::byte_len(e.input) + 3) / 4
                },
                completed: if e.stop {
                    self.completed.insert(e.id)
                } else {
                    self.completed
                },
                ..self
            },
            starts + deltas + stops,
        )
    }

    /// The events of a piece of a tool call, before any is held back, and the
    /// block of the call.
    pub open spec fn tool_events(self, e: events::ToolUseView) -> (
        StreamView,
        Seq<sse::EventView>,
        int,
    ) {
        let v0 = StreamView {
            manager: state_manager::ManagerView { has_tool_use: true, ..self.manager },
            ..self
        };
        let (v1, settled) = v0.settle_for_tool();
        let (v2, index) = v1.tool_block(e.id);
        let (v3, fed) = v2.feed_tool(index, e);
        (v3, settled + fed, index)
    }

    /// A piece of a tool call. In a delayed stream the events of the call are
    /// held back until it is complete, and released in the order of the blocks.
    #[verifier::opaque]
    pub open spec fn tool_use(self, e: events::ToolUseView) -> (StreamView, Seq<sse::EventView>) {
        let (v, all, index) = self.tool_events(e);
        if !v.delayed {
            (v, all)
        } else {
            let held = v.buffered + tagged(e.id, about(all, index));
            let passed = not_about(all, index);
            if e.stop {
                let (rest, out) = release_held(held, v.tool_indices, v.completed);
                (StreamView { buffered: rest, ..v }, passed + out)
            } else {
                (StreamView { buffered: held, ..v }, passed)
            }
        }
    }

    /// An upstream event.
    pub open spec fn kiro_event(self, e: events::KiroEventView) -> (
        StreamView,
        Seq<sse::EventView>,
    ) {
        match e {
            events::KiroEventView::AssistantResponse { content } => self.assistant_response(
                content,
            ),
            events::KiroEventView::ToolUse(t) => self.tool_use(t),
            events::KiroEventView::ContextUsage { input_tokens, window_full } => {
                let v = StreamView { context_input_tokens: Some(input_tokens), ..self };
                (
                    if window_full {
                        v.with_stop_reason("model_context_window_exceeded"@)
                    } else {
                        v
                    },
                    Seq::empty(),
                )
            },
            events::KiroEventView::Metadata(usage) => (
                match usage {
                    Some(u) => if u.uncached_input_tokens is Some || u.output_tokens is Some
                        || u.total_tokens is Some {
                        StreamView { token_usage: Some(u), ..self }
                    } else {
                        self
                    },
                    None => self,
                },
                Seq::empty(),
            ),
            events::KiroEventView::InvalidState { reason, message } => (
                StreamView { failed: true, ..self },
                seq![
                    error_event(
                        "Upstream reported invalid state: "@ + events::invalid_state_text(
                            reason,
                            message,
                        ),
                    ),
                ],
            ),
            events::KiroEventView::Error { error_code, error_message } => (
                StreamView { failed: true, ..self },
                seq![error_event(error_code + ": "@ + error_message)],
            ),
            events::KiroEventView::Exception { exception_type, message } => if exception_type
                == "ContentLengthExceededException"@ {
                (self.with_stop_reason("max_tokens"@), Seq::empty())
            } else {
                (
                    StreamView { failed: true, ..self },
                    seq![error_event(exception_type + ": "@ + message)],
                )
            },
            events::KiroEventView::Metering => (self, Seq::empty()),
            events::KiroEventView::Unknown => (self, Seq::empty()),
        }
    }

    /// The payload of `message_start`.
    pub open spec fn message_start_data(self) -> sse::DataView {
        sse::DataView::MessageStart {
            id: self.message_id,
            model: self.model,
            input_tokens: self.effective_input(),
        }
    }

    /// The first events: `message_start`, unless it was sent, and a text block
    /// unless the answer may begin with a thinking block.
    #[verifier::opaque]
    pub open spec fn initial(self) -> (StreamView, Seq<sse::EventView>) {
        let start = if self.manager.message_started {
            Seq::empty()
        } else {
            seq![state_manager::message_start_event(self.message_start_data())]
        };
        let v = StreamView {
            manager: state_manager::ManagerView { message_started: true, ..self.manager },
            ..self
        };
        if v.thinking_enabled {
            (v, start)
        } else {
            let i = v.manager.next_block_index;
            let (w, ev) = v.open_block("text"@, sse::ContentBlockView::Text);
            (StreamView { text_index: Some(i), ..w }, start + ev)
        }
    }

    /// Whether `message_start` is kept back.
    pub open spec fn waiting(self) -> bool {
        self.delayed && !self.released
    }

    /// In a waiting stream, makes the first events and keeps them back.
    pub open spec fn prepared(self) -> StreamView {
        if self.initialized {
            self
        } else {
            let (v, ev) = self.initial();
            StreamView { pending: ev, initialized: true, ..v }
        }
    }

    /// Lets the events go that were kept back.
    pub open spec fn release_pending(self) -> (StreamView, Seq<sse::EventView>) {
        (
            StreamView { pending: Seq::empty(), ..self },
            with_input_tokens(self.pending, self.effective_input()),
        )
    }

    /// Lets `message_start` go without waiting any longer.
    pub open spec fn force_release(self) -> (StreamView, Seq<sse::EventView>) {
        if !self.waiting() {
            (self, Seq::empty())
        } else {
            let (v, out) = self.prepared().release_pending();
            (StreamView { released: true, ..v }, out)
        }
    }

    /// An upstream event, as the client sees it. A failed stream takes no more
    /// events. A waiting stream keeps everything back until the use of the
    /// context window is known or there is something to send.
    pub open spec fn take_events(self, e: events::KiroEventView) -> (
        StreamView,
        Seq<sse::EventView>,
    ) {
        if self.failed {
            (self, Seq::empty())
        } else if self.waiting() {
            let (v, ev) = self.prepared().kiro_event(e);
            if e is ContextUsage || ev.len() > 0 {
                let (w, out) = v.release_pending();
                (StreamView { released: true, ..w }, out + ev)
            } else {
                (v, Seq::empty())
            }
        } else if self.initialized {
            self.kiro_event(e)
        } else {
            let (v, first) = self.initial();
            let (w, ev) = StreamView { initialized: true, ..v }.kiro_event(e);
            (w, first + ev)
        }
    }

    /// Whether the client has seen any event.
    pub open spec fn client_saw_output(self) -> bool {
        if self.delayed {
            self.released
        } else {
            self.initialized
        }
    }

    /// What is reported of the request.
    pub open spec fn usage(self) -> UsageView {
        let cached = match self.token_usage {
            Some(u) => (
                events::at_least_zero(events::or_zero(u.cache_read_input_tokens)),
                events::at_least_zero(events::or_zero(u.cache_write_input_tokens)),
            ),
            None => (0int, 0int),
        };
        UsageView {
            model: self.model,
            credential_id: self.credential_id,
            input_tokens: self.effective_input(),
            output_tokens: self.effective_output(),
            cache_read: cached.0,
            cache_write: cached.1,
        }
    }

    /// Reports the usage, once.
    pub open spec fn report_usage(self) -> StreamView {
        if self.usage_reported {
            self
        } else {
            StreamView { usage_reported: true, usage_report: Some(self.usage()), ..self }
        }
    }

    /// What a waiting stream still owes the client before its end. Events that
    /// were made only now are not kept back first.
    #[verifier::opaque]
    pub open spec fn release_at_end(self) -> (StreamView, Seq<sse::EventView>) {
        let (v, first) = if self.initialized {
            (self, Seq::empty())
        } else {
            let (v, ev) = self.initial();
            (StreamView { initialized: true, ..v }, ev)
        };
        let (w, kept) = v.release_pending();
        (StreamView { released: true, ..w }, first + kept)
    }

    /// Tool calls that are still held back were cut off: their events are
    /// dropped and a text tells the model to write in smaller pieces.
    pub open spec fn correct_truncation(self) -> (StreamView, Seq<sse::EventView>) {
        if self.buffered.len() == 0 {
            (self, Seq::empty())
        } else {
            let v = StreamView {
                manager: discard_held(self.manager, self.buffered, self.tool_indices),
                buffered: Seq::empty(),
                ..self
            };
            let (w, ev) = v.text_delta(correction_text(self.chunk_lines));
            (w.with_stop_reason("max_tokens"@), ev)
        }
    }

    /// Sends what is left in the buffer.
    #[verifier::opaque]
    pub open spec fn flush_buffer(self) -> (StreamView, Seq<sse::EventView>) {
        if !self.thinking_enabled || self.buffer.len() == 0 {
            (self, Seq::empty())
        } else if self.in_thinking {
            match thinking::first_last_end_tag(self.buffer) {
                Some(e) => self.leave_thinking_at(e),
                None => {
                    let (v, ev) = self.close_thinking_if_any(self.buffer);
                    (StreamView { buffer: Seq::empty(), ..v }, ev)
                },
            }
        } else {
            let (v, ev) = self.text_delta(self.buffer);
            (StreamView { buffer: Seq::empty(), ..v }, ev)
        }
    }

    /// Whether there is a block of another type than `thinking`.
    pub open spec fn has_other_blocks(self) -> bool {
        exists|i: int|
            0 <= i < self.manager.blocks.len() && (#[trigger] self.manager.blocks[i]).kind
                != "thinking"@
    }

    /// An answer that is nothing but thinking gets a blank text block.
    #[verifier::opaque]
    pub open spec fn fill_in_text(self) -> (StreamView, Seq<sse::EventView>) {
        if self.thinking_enabled && self.thinking_index is Some && !self.has_other_blocks() {
            self.with_stop_reason("max_tokens"@).text_delta(" "@)
        } else {
            (self, Seq::empty())
        }
    }

    /// Ends the message with the given counts.
    #[verifier::opaque]
    pub open spec fn finish(self, input_tokens: int, output_tokens: int) -> (
        StreamView,
        Seq<sse::EventView>,
    ) {
        let (m, ev) = self.manager.finish(input_tokens, output_tokens);
        (StreamView { manager: m, ..self }, ev)
    }

    /// The last events of a stream that came to its end.
    pub open spec fn final_events(self) -> (StreamView, Seq<sse::EventView>) {
        let (v, ev1) = self.flush_buffer();
        let (w, ev2) = v.fill_in_text();
        let (x, ev3) = w.finish(w.effective_input(), w.effective_output());
        (x, ev1 + ev2 + ev3)
    }

    /// The end of a stream that failed: held-back tool calls are dropped, open
    /// blocks are stopped, the message ends with at least one output token.
    pub open spec fn finalize_on_failure(self) -> (StreamView, Seq<sse::EventView>) {
        let u = self.report_usage();
        let (v, first) = if u.waiting() {
            u.release_at_end()
        } else if !u.manager.message_started {
            let (v, ev) = u.initial();
            (StreamView { initialized: true, ..v }, ev)
        } else {
            (u, Seq::empty())
        };
        let w = StreamView {
            manager: discard_held(v.manager, v.buffered, v.tool_indices),
            buffered: Seq::empty(),
            ..v
        };
        let output = if w.effective_output() < 1 {
            1
        } else {
            w.effective_output()
        };
        let (x, ev) = w.finish(w.effective_input(), output);
        (x, first + ev)
    }

    /// The end of a stream.
    pub open spec fn finalize(self) -> (StreamView, Seq<sse::EventView>) {
        if self.failed {
            self.finalize_on_failure()
        } else {
            let u = self.report_usage();
            let (v, first) = if u.waiting() {
                u.release_at_end()
            } else {
                (u, Seq::empty())
            };
            let (w, correction) = v.correct_truncation();
            let (x, ev) = w.final_events();
            (x, first + correction + ev)
        }
    }

    /// The end of a stream that broke off: the message ends as one that was cut
    /// short, and no error is sent.
    pub open spec fn finalize_on_interrupt(self) -> (StreamView, Seq<sse::EventView>) {
        self.with_stop_reason("max_tokens"@).finalize_on_failure()
    }

    /// Whether the counts at hand can be worked with: `n` more blocks can be
    /// numbered, and the counts of the upstream service can be added up.
    pub open spec fn has_room(self, n: int) -> bool {
        &&& self.manager.next_block_index + n <= i32::MAX
        &&& match self.token_usage {
            Some(u) => u.in_range(),
            None => true,
        }
    }

    /// Whether an upstream event can be taken in without a count leaving the
    /// range of its type.
    pub open spec fn accepts(self, e: events::KiroEventView) -> bool {
        match e {
            events::KiroEventView::AssistantResponse { content } => {
                &&& thinking::ideographs(content) * 2 + 2 <= i32::MAX
                &&& content.len() - thinking::ideographs(content) + 3 <= i32::MAX
                &&& self.output_tokens + thinking::estimated_tokens(content) <= i32::MAX
            },
            events::KiroEventView::ToolUse(t) => {
                &&& text::byte_len(t.input) + 3 <= i32::MAX
                &&& self.output_tokens + (text::byte_len(t.input) + 3) / 4 <= i32::MAX
            },
            events::KiroEventView::Metadata(usage) => match usage {
                Some(u) => u.in_range(),
                None => true,
            },
            _ => true,
        }
    }
}

/// Opening a block touches the state machine alone and uses one index.
pub proof fn lemma_open_block(v: StreamView, kind: Seq<char>, block: sse::ContentBlockView)
    ensures
        ({
            let w = v.open_block(kind, block).0;
            &&& w == (StreamView { manager: w.manager, ..v })
            &&& w.manager.next_block_index == v.manager.next_block_index + 1
        }),
{
    reveal(StreamView::open_block);
    reveal(state_manager::ManagerView::start_block);
}

/// Sending text touches the state machine and the text block alone and uses at
/// most one index.
pub proof fn lemma_text_delta(v: StreamView, t: Seq<char>)
    ensures
        ({
            let w = v.text_delta(t).0;
            &&& w == (StreamView { manager: w.manager, text_index: w.text_index, ..v })
            &&& v.manager.next_block_index <= w.manager.next_block_index
                <= v.manager.next_block_index + 1
        }),
{
    reveal(StreamView::text_delta);
    lemma_open_block(v, "text"@, sse::ContentBlockView::Text);
}

/// Ending the thinking block touches the state machine alone and uses no index.
pub proof fn lemma_close_thinking(v: StreamView, content: Seq<char>)
    ensures
        ({
            let w = v.close_thinking_if_any(content).0;
            &&& w == (StreamView { manager: w.manager, ..v })
            &&& w.manager.next_block_index == v.manager.next_block_index
        }),
{
    reveal(StreamView::close_thinking);
    reveal(state_manager::ManagerView::stop_block);
}

/// Ending the thinking block at a tag uses at most one index.
pub proof fn lemma_leave_thinking(v: StreamView, e: int)
    ensures
        ({
            let w = v.leave_thinking_at(e).0;
            &&& w == (StreamView {
                manager: w.manager,
                text_index: w.text_index,
                in_thinking: false,
                thinking_extracted: true,
                buffer: Seq::empty(),
                ..v
            })
            &&& v.manager.next_block_index <= w.manager.next_block_index
                <= v.manager.next_block_index + 1
        }),
{
    let rest = text::trim_start(v.buffer.skip(e + 11));
    let x = StreamView { in_thinking: false, thinking_extracted: true, ..v };
    lemma_close_thinking(x, v.buffer.take(e));
    let y = StreamView { buffer: Seq::empty(), ..x.close_thinking_if_any(v.buffer.take(e)).0 };
    lemma_text_delta(y, rest);
}

/// Getting ready for a tool call uses at most one index.
pub proof fn lemma_settle_for_tool(v: StreamView)
    ensures
        ({
            let w = v.settle_for_tool().0;
            &&& w == (StreamView {
                manager: w.manager,
                text_index: w.text_index,
                in_thinking: w.in_thinking,
                thinking_extracted: w.thinking_extracted,
                buffer: w.buffer,
                ..v
            })
            &&& v.manager.next_block_index <= w.manager.next_block_index
                <= v.manager.next_block_index + 1
        }),
{
    reveal(StreamView::settle_for_tool);
    match thinking::first_last_end_tag(v.buffer) {
        Some(e) => {
            lemma_leave_thinking(v, e);
        },
        None => {},
    }
    lemma_text_delta(StreamView { buffer: Seq::empty(), ..v }, v.buffer);
}

/// Making the first events touches the state machine and the text block alone
/// and uses at most one index.
pub proof fn lemma_initial(v: StreamView)
    ensures
        ({
            let w = v.initial().0;
            &&& w == (StreamView { manager: w.manager, text_index: w.text_index, ..v })
            &&& v.manager.next_block_index <= w.manager.next_block_index
                <= v.manager.next_block_index + 1
        }),
{
    reveal(StreamView::initial);
    let x = StreamView {
        manager: state_manager::ManagerView { message_started: true, ..v.manager },
        ..v
    };
    lemma_open_block(x, "text"@, sse::ContentBlockView::Text);
}

/// What a waiting stream owes at its end uses at most one index.
pub proof fn lemma_release_at_end(v: StreamView)
    ensures
        ({
            let w = v.release_at_end().0;
            &&& w == (StreamView {
                manager: w.manager,
                text_index: w.text_index,
                initialized: true,
                released: true,
                pending: Seq::empty(),
                ..v
            })
            &&& v.manager.next_block_index <= w.manager.next_block_index
                <= v.manager.next_block_index + 1
        }),
{
    reveal(StreamView::release_at_end);
    lemma_initial(v);
}

/// Forgetting blocks changes nothing else in the state machine.
pub proof fn lemma_discard_held(
    m: state_manager::ManagerView,
    held: Seq<(Seq<char>, sse::EventView)>,
    indices: Seq<(Seq<char>, int)>,
)
    ensures
        discard_held(m, held, indices) == (state_manager::ManagerView {
            blocks: discard_held(m, held, indices).blocks,
            ..m
        }),
    decreases held.len(),
{
    if held.len() > 0 {
        lemma_discard_held(m, held.drop_last(), indices);
    }
}

/// Sending what is left in the buffer uses at most one index.
pub proof fn lemma_flush_buffer(v: StreamView)
    ensures
        ({
            let w = v.flush_buffer().0;
            &&& w.token_usage == v.token_usage
            &&& v.manager.next_block_index <= w.manager.next_block_index
                <= v.manager.next_block_index + 1
        }),
{
    reveal(StreamView::flush_buffer);
    lemma_text_delta(v, v.buffer);
    lemma_close_thinking(v, v.buffer);
    match thinking::first_last_end_tag(v.buffer) {
        Some(e) => {
            lemma_leave_thinking(v, e);
        },
        None => {},
    }
}

/// The blank text block uses at most one index.
pub proof fn lemma_fill_in_text(v: StreamView)
    ensures
        ({
            let w = v.fill_in_text().0;
            &&& w.token_usage == v.token_usage
            &&& v.manager.next_block_index <= w.manager.next_block_index
                <= v.manager.next_block_index + 1
        }),
{
    reveal(StreamView::fill_in_text);
    lemma_text_delta(v.with_stop_reason("max_tokens"@), " "@);
}

/// The correction text uses at most one index.
pub proof fn lemma_correct_truncation(v: StreamView)
    ensures
        ({
            let w = v.correct_truncation().0;
            &&& w == (StreamView {
                manager: w.manager,
                text_index: w.text_index,
                buffered: Seq::empty(),
                ..v
            })
            &&& v.manager.next_block_index <= w.manager.next_block_index
                <= v.manager.next_block_index + 1
        }),
{
    if v.buffered.len() > 0 {
        lemma_discard_held(v.manager, v.buffered, v.tool_indices);
        lemma_text_delta(
            StreamView {
                manager: discard_held(v.manager, v.buffered, v.tool_indices),
                buffered: Seq::empty(),
                ..v
            },
            correction_text(v.chunk_lines),
        );
    } else {
        assert(v.buffered =~= Seq::empty());
    }
}

/// Inside the thinking block at most one index is used.
pub proof fn lemma_inside_thinking(v: StreamView)
    ensures
        ({
            let w = v.inside_thinking().0;
            &&& w == (StreamView {
                manager: w.manager,
                text_index: w.text_index,
                in_thinking: w.in_thinking,
                thinking_extracted: w.thinking_extracted,
                buffer: w.buffer,
                strip_newline: w.strip_newline,
                ..v
            })
            &&& v.manager.next_block_index <= w.manager.next_block_index
                <= v.manager.next_block_index + 1
        }),
{
    let x = v.drop_newline();
    match thinking::first_end_tag(x.buffer) {
        Some(e) => {
            let y = StreamView { in_thinking: false, thinking_extracted: true, ..x };
            lemma_close_thinking(y, x.buffer.take(e));
            let z = StreamView {
                buffer: x.buffer.skip(e + 13),
                ..y.close_thinking_if_any(x.buffer.take(e)).0
            };
            lemma_text_delta(StreamView { buffer: Seq::empty(), ..z }, z.buffer);
        },
        None => {},
    }
}

/// Before the thinking block at most three indices are used.
pub proof fn lemma_before_thinking(v: StreamView)
    ensures
        ({
            let w = v.before_thinking().0;
            &&& w == (StreamView {
                manager: w.manager,
                text_index: w.text_index,
                thinking_index: w.thinking_index,
                in_thinking: w.in_thinking,
                thinking_extracted: w.thinking_extracted,
                buffer: w.buffer,
                strip_newline: w.strip_newline,
                ..v
            })
            &&& v.manager.next_block_index <= w.manager.next_block_index
                <= v.manager.next_block_index + 3
        }),
{
    match thinking::first_start_tag(v.buffer) {
        Some(a) => {
            let before = v.buffer.take(a);
            lemma_text_delta(v, before);
            let x = if text::all_white(before) {
                v
            } else {
                v.text_delta(before).0
            };
            lemma_open_block(x, "thinking"@, sse::ContentBlockView::Thinking);
            lemma_inside_thinking(
                StreamView {
                    in_thinking: true,
                    strip_newline: true,
                    buffer: v.buffer.skip(a + 10),
                    thinking_index: Some(x.manager.next_block_index),
                    ..x.open_block("thinking"@, sse::ContentBlockView::Thinking).0
                },
            );
        },
        None => {
            lemma_text_delta(v, v.buffer.take(sendable(v.buffer, 10)));
        },
    }
}

/// A piece of a tool call touches the state machine, the count of output tokens
/// and the list of complete calls alone, and uses no index.
pub proof fn lemma_feed_tool(v: StreamView, index: int, e: events::ToolUseView)
    ensures
        ({
            let w = v.feed_tool(index, e).0;
            &&& w == (StreamView {
                manager: w.manager,
                output_tokens: w.output_tokens,
                completed: w.completed,
                ..v
            })
            &&& w.manager.next_block_index == v.manager.next_block_index
            &&& w.completed == if e.stop {
                v.completed.insert(e.id)
            } else {
                v.completed
            }
        }),
{
    reveal(StreamView::feed_tool);
    reveal(state_manager::ManagerView::start_block);
    reveal(state_manager::ManagerView::stop_block);
}

/// What an upstream event leaves alone, and how many indices it uses.
pub proof fn lemma_kiro_event(v: StreamView, e: events::KiroEventView)
    ensures
        ({
            let w = v.kiro_event(e).0;
            &&& w.pending == v.pending
            &&& w.delayed == v.delayed
            &&& w.released == v.released
            &&& w.initialized == v.initialized
            &&& v.manager.next_block_index <= w.manager.next_block_index
                <= v.manager.next_block_index + 3
            &&& v.accepts(e) && v.has_room(0) ==> match w.token_usage {
                Some(u) => u.in_range(),
                None => true,
            }
        }),
{
    reveal(StreamView::assistant_response);
    reveal(StreamView::tool_use);
    match e {
        events::KiroEventView::AssistantResponse { content } => {
            let x = StreamView {
                output_tokens: v.output_tokens + thinking::estimated_tokens(content),
                ..v
            };
            lemma_text_delta(x, content);
            let y = StreamView { buffer: x.buffer + content, ..x };
            lemma_before_thinking(y);
            lemma_inside_thinking(y);
            lemma_text_delta(StreamView { buffer: Seq::empty(), ..y }, y.buffer);
        },
        events::KiroEventView::ToolUse(t) => {
            let v0 = StreamView {
                manager: state_manager::ManagerView { has_tool_use: true, ..v.manager },
                ..v
            };
            lemma_settle_for_tool(v0);
            let v1 = v0.settle_for_tool().0;
            let (v2, index) = v1.tool_block(t.id);
            lemma_feed_tool(v2, index, t);
        },
        _ => {},
    }
}

/// Nothing, or one error event.
pub open spec fn at_most_an_error(ev: Seq<sse::EventView>) -> bool {
    ev.len() == 0 || (ev.len() == 1 && ev[0].data is Error && ev[0].event == "error"@)
}

/// Whether two states differ in no more than the stop reason, the counts, and how
/// far the stream has come.
pub open spec fn same_books(v: StreamView, w: StreamView) -> bool {
    &&& w.manager.blocks == v.manager.blocks
    &&& w.manager.next_block_index == v.manager.next_block_index
    &&& w.manager.message_started == v.manager.message_started
    &&& w.manager.message_delta_sent == v.manager.message_delta_sent
    &&& w.manager.message_ended == v.manager.message_ended
    &&& w.manager.has_tool_use == v.manager.has_tool_use
    &&& w.in_thinking == v.in_thinking
    &&& w.thinking_index == v.thinking_index
    &&& w.tool_indices == v.tool_indices
    &&& w.completed == v.completed
    &&& w.buffered == v.buffered
    &&& w.delayed == v.delayed
}

/// Events other than answers and tool calls send at most an error.
pub proof fn lemma_other_event(v: StreamView, e: events::KiroEventView)
    requires
        !(e is AssistantResponse),
        !(e is ToolUse),
    ensures
        same_books(v, v.kiro_event(e).0),
        at_most_an_error(v.kiro_event(e).1),
{
    let (w, ev) = v.kiro_event(e);
    if e is InvalidState || e is Error {
        assert(ev.len() == 1);
        assert(w == StreamView { failed: true, ..v });
    } else if e is Exception {
        assert(at_most_an_error(ev));
    } else {
        assert(ev.len() == 0);
        if e is Metadata {
            assert(w.manager == v.manager);
        } else if e is ContextUsage {
            assert(w.manager.blocks == v.manager.blocks);
        } else {
            assert(w == v);
        }
    }
}

} // verus!
