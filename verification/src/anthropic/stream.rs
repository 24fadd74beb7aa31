//! The response stream: turns upstream events into the events that the client
//! gets. What each operation does is said in [`crate::anthropic::stream_model`].

use vstd::prelude::*;
use vstd::string::*;
use crate::anthropic::sse;
use crate::anthropic::sse::{ContentBlock, Delta, SseData, SseEvent};
use crate::anthropic::state_manager;
use crate::anthropic::state_manager::SseStateManager;
use crate::anthropic::stream_model;
use crate::anthropic::thinking;
use crate::kiro::events;
use crate::kiro::events::{Event, TokenUsage, ToolUseEvent};
use crate::outside;
use crate::text;

verus! {

/// What is reported of a request once it is over.
#[derive(Debug)]
pub struct UsageReport {
    pub model: String,
    pub credential_id: i64,
    pub input_tokens: i64,
    pub output_tokens: i64,
    pub cache_read: i64,
    pub cache_write: i64,
}

impl View for UsageReport {
    type V = stream_model::UsageView;

    open spec fn view(&self) -> stream_model::UsageView {
        stream_model::UsageView {
            model: self.model@,
            credential_id: self.credential_id as int,
            input_tokens: self.input_tokens as int,
            output_tokens: self.output_tokens as int,
            cache_read: self.cache_read as int,
            cache_write: self.cache_write as int,
        }
    }
}

/// The context of one response stream.
#[derive(Debug)]
pub struct StreamContext {
    pub state_manager: SseStateManager,
    pub model: String,
    pub message_id: String,
    /// The estimate of the input tokens.
    pub input_tokens: i32,
    /// The input tokens that follow from the use of the context window.
    pub context_input_tokens: Option<i32>,
    /// The counts of the upstream service.
    pub token_usage: Option<TokenUsage>,
    /// The running estimate of the output tokens.
    pub output_tokens: i32,
    /// The block of each tool call.
    pub tool_block_indices: Vec<(String, i32)>,
    /// Tool names as the client knows them, by the names sent upstream.
    pub tool_name_map: Vec<(String, String)>,
    pub thinking_enabled: bool,
    pub thinking_buffer: String,
    pub in_thinking_block: bool,
    pub thinking_extracted: bool,
    pub thinking_block_index: Option<i32>,
    pub text_block_index: Option<i32>,
    pub strip_thinking_leading_newline: bool,
    /// Whether `message_start` waits until the use of the context window is known.
    pub delay_message_start: bool,
    pub pending_events: Vec<SseEvent>,
    pub message_start_released: bool,
    pub stream_initialized: bool,
    pub stream_failed: bool,
    /// The events of tool calls that are not complete, in the order of arrival.
    pub buffered_tool_events: Vec<(String, SseEvent)>,
    pub completed_tool_ids: Vec<String>,
    pub usage_reported: bool,
    /// The report, until it is taken.
    pub usage_report: Option<UsageReport>,
    /// The upstream credential in use, -1 where it is not known.
    pub credential_id: i64,
    /// The number of lines that one write may have, for the correction text.
    pub chunk_lines: u32,
}

pub open spec fn indices_view(v: Seq<(String, i32)>) -> Seq<(Seq<char>, int)> {
    v.map_values(|e: (String, i32)| (e.0@, e.1 as int))
}

pub open spec fn held_view(v: Seq<(String, SseEvent)>) -> Seq<(Seq<char>, sse::EventView)> {
    v.map_values(|e: (String, SseEvent)| (e.0@, e.1@))
}

pub open spec fn ids_view(v: Seq<String>) -> Set<Seq<char>> {
    v.map_values(|s: String| s@).to_set()
}

pub open spec fn int_view(n: Option<i32>) -> Option<int> {
    match n {
        Some(i) => Some(i as int),
        None => None,
    }
}

impl View for StreamContext {
    type V = stream_model::StreamView;

    open spec fn view(&self) -> stream_model::StreamView {
        stream_model::StreamView {
            manager: self.state_manager@,
            model: self.model@,
            message_id: self.message_id@,
            input_tokens: self.input_tokens as int,
            context_input_tokens: int_view(self.context_input_tokens),
            token_usage: self.token_usage,
            output_tokens: self.output_tokens as int,
            tool_indices: indices_view(self.tool_block_indices@),
            tool_names: text::pairs_view(self.tool_name_map@),
            thinking_enabled: self.thinking_enabled,
            buffer: self.thinking_buffer@,
            in_thinking: self.in_thinking_block,
            thinking_extracted: self.thinking_extracted,
            thinking_index: int_view(self.thinking_block_index),
            text_index: int_view(self.text_block_index),
            strip_newline: self.strip_thinking_leading_newline,
            delayed: self.delay_message_start,
            pending: sse::events_view(self.pending_events@),
            released: self.message_start_released,
            initialized: self.stream_initialized,
            failed: self.stream_failed,
            buffered: held_view(self.buffered_tool_events@),
            completed: ids_view(self.completed_tool_ids@),
            usage_reported: self.usage_reported,
            usage_report: match self.usage_report {
                Some(r) => Some(r@),
                None => None,
            },
            credential_id: self.credential_id as int,
            chunk_lines: self.chunk_lines as nat,
        }
    }
}

fn extend(events: &mut Vec<SseEvent>, more: Vec<SseEvent>)
    ensures
        sse::events_view(final(events)@) == sse::events_view(old(events)@) + sse::events_view(
            more@,
        ),
{
    let ghost a = events@;
    let ghost b = more@;
    let mut more = more;
    events.append(&mut more);
    assert(sse::events_view(events@) =~= sse::events_view(a) + sse::events_view(b));
}

fn push_event(events: &mut Vec<SseEvent>, event: SseEvent)
    ensures
        sse::events_view(final(events)@) == sse::events_view(old(events)@).push(event@),
{
    let ghost a = events@;
    events.push(event);
    assert(sse::events_view(events@) =~= sse::events_view(a).push(event@));
}

fn push_some(events: &mut Vec<SseEvent>, event: Option<SseEvent>)
    ensures
        sse::events_view(final(events)@) == sse::events_view(old(events)@) + match event {
            Some(e) => seq![e@],
            None => Seq::empty(),
        },
{
    match event {
        Some(e) => {
            push_event(events, e);
            assert(sse::events_view(events@) =~= sse::events_view(old(events)@) + seq![e@]);
        },
        None => {
            assert(sse::events_view(events@) =~= sse::events_view(old(events)@) + Seq::empty());
        },
    }
}

fn no_events() -> (r: Vec<SseEvent>)
    ensures
        sse::events_view(r@) == Seq::<sse::EventView>::empty(),
{
    let r: Vec<SseEvent> = Vec::new();
    assert(sse::events_view(r@) =~= Seq::empty());
    r
}

/// The index that a list gives to a key.
fn index_of(pairs: &Vec<(String, i32)>, key: &str) -> (r: Option<i32>)
    ensures
        stream_model::lookup(indices_view(pairs@), key@) == int_view(r),
{
    let ghost all = indices_view(pairs@);
    let ghost p = stream_model::has_key(all, key@);
    proof {
        text::lemma_search(p, 0, all.len() as int);
    }
    let mut i: usize = 0;
    while i < pairs.len()
        invariant
            i <= pairs@.len(),
            all == indices_view(pairs@),
            p == stream_model::has_key(all, key@),
            forall|m: int| 0 <= m < i ==> !(#[trigger] p(m)),
            match text::search(p, 0, all.len() as int) {
                Some(j) => 0 <= j < all.len() && p(j) && (forall|m: int|
                    0 <= m < j ==> !(#[trigger] p(m))),
                None => forall|m: int| 0 <= m < all.len() ==> !(#[trigger] p(m)),
            },
        decreases pairs@.len() - i,
    {
        assert(p(i as int) == (pairs@[i as int].0@ == key@));
        if text::str_eq(pairs[i].0.as_str(), key) {
            return Some(pairs[i].1);
        }
        i = i + 1;
    }
    None
}

/// The name that a list gives to a key.
pub(crate) fn name_of(pairs: &Vec<(String, String)>, key: &str) -> (r: Option<String>)
    ensures
        stream_model::lookup(text::pairs_view(pairs@), key@) == match r {
            Some(s) => Some(s@),
            None => None,
        },
{
    let ghost all = text::pairs_view(pairs@);
    let ghost p = stream_model::has_key(all, key@);
    proof {
        text::lemma_search(p, 0, all.len() as int);
    }
    let mut i: usize = 0;
    while i < pairs.len()
        invariant
            i <= pairs@.len(),
            all == text::pairs_view(pairs@),
            p == stream_model::has_key(all, key@),
            forall|m: int| 0 <= m < i ==> !(#[trigger] p(m)),
            match text::search(p, 0, all.len() as int) {
                Some(j) => 0 <= j < all.len() && p(j) && (forall|m: int|
                    0 <= m < j ==> !(#[trigger] p(m))),
                None => forall|m: int| 0 <= m < all.len() ==> !(#[trigger] p(m)),
            },
        decreases pairs@.len() - i,
    {
        assert(p(i as int) == (pairs@[i as int].0@ == key@));
        if text::str_eq(pairs[i].0.as_str(), key) {
            return Some(pairs[i].1.clone());
        }
        i = i + 1;
    }
    None
}

/// Whether a list of names holds one.
fn holds_id(ids: &Vec<String>, id: &str) -> (r: bool)
    ensures
        r == ids_view(ids@).contains(id@),
{
    let ghost all = ids@.map_values(|s: String| s@);
    let mut i: usize = 0;
    while i < ids.len()
        invariant
            i <= ids@.len(),
            all == ids@.map_values(|s: String| s@),
            forall|j: int| 0 <= j < i ==> all[j] != id@,
        decreases ids@.len() - i,
    {
        assert(all[i as int] == ids@[i as int]@);
        if text::str_eq(ids[i].as_str(), id) {
            assert(all.contains(id@));
            return true;
        }
        i = i + 1;
    }
    assert(!all.contains(id@));
    false
}

/// The text that takes the place of a tool call that was cut off.
pub fn truncated_tool_correction(chunk_lines: u32) -> (s: String)
    ensures
        s@ == stream_model::correction_text(chunk_lines as nat),
{
    let mut s = String::new();
    s.append(
        "The model output was truncated before this tool call was complete. The tool was NOT executed. When writing files, limit each Write call to ",
    );
    text::push_u64(&mut s, chunk_lines as u64);
    s.append(" lines or fewer, then use Edit to add remaining content in chunks of ");
    text::push_u64(&mut s, chunk_lines as u64);
    s.append(" lines or fewer. For edits, use multiple Edit calls instead of one large edit.");
    assert(s@ =~= stream_model::correction_text(chunk_lines as nat));
    s
}

/// The block that an event is about.
pub fn event_block_index(e: &SseEvent) -> (r: Option<i32>)
    ensures
        int_view(r) == stream_model::block_of(e@),
{
    match &e.data {
        SseData::BlockStart { index, .. } => Some(*index),
        SseData::BlockDelta { index, .. } => Some(*index),
        SseData::BlockStop { index } => Some(*index),
        _ => None,
    }
}

/// A text without its hyphens.
pub open spec fn without_hyphens(s: Seq<char>) -> Seq<char>
    decreases s.len(),
{
    if s.len() == 0 {
        Seq::empty()
    } else if s.last() == '-' {
        without_hyphens(s.drop_last())
    } else {
        without_hyphens(s.drop_last()).push(s.last())
    }
}

/// The message id made of a UUID.
pub open spec fn message_id_of(uuid: Seq<char>) -> Seq<char> {
    "msg_"@ + without_hyphens(uuid)
}

/// Makes a message id of a UUID.
pub fn message_id_from(uuid: &str) -> (s: String)
    ensures
        s@ == message_id_of(uuid@),
{
    let v: Vec<char> = text::chars_of(uuid);
    let mut s = String::new();
    s.append("msg_");
    let ghost head = s@;
    assert(head =~= "msg_"@);
    let mut i: usize = 0;
    assert(v@.take(0) =~= Seq::empty());
    assert(s@ =~= head + without_hyphens(v@.take(0)));
    while i < v.len()
        invariant
            i <= v@.len(),
            s@ == head + without_hyphens(v@.take(i as int)),
        decreases v@.len() - i,
    {
        assert(v@.take(i + 1).drop_last() =~= v@.take(i as int));
        let c: char = v[i];
        if c != '-' {
            s.push(c);
        }
        i = i + 1;
        assert(s@ =~= head + without_hyphens(v@.take(i as int)));
    }
    assert(v@.take(i as int) =~= v@);
    s
}

/// A random message id.
pub fn new_message_id() -> (s: String)
    ensures
        exists|uuid: Seq<char>| #[trigger] outside::uuid_shape(uuid) && s@ == message_id_of(uuid),
{
    let uuid: String = outside::random_uuid();
    assert(outside::uuid_shape(uuid@));
    message_id_from(uuid.as_str())
}

/// The state of a new stream.
pub open spec fn new_stream(
    message_id: Seq<char>,
    model: Seq<char>,
    input_tokens: int,
    thinking_enabled: bool,
    tool_names: Seq<(Seq<char>, Seq<char>)>,
    delayed: bool,
) -> stream_model::StreamView {
    stream_model::StreamView {
        manager: state_manager::ManagerView {
            message_started: false,
            message_delta_sent: false,
            blocks: Seq::empty(),
            message_ended: false,
            next_block_index: 0,
            stop_reason: None,
            has_tool_use: false,
        },
        model,
        message_id,
        input_tokens,
        context_input_tokens: None,
        token_usage: None,
        output_tokens: 0,
        tool_indices: Seq::empty(),
        tool_names,
        thinking_enabled,
        buffer: Seq::empty(),
        in_thinking: false,
        thinking_extracted: false,
        thinking_index: None,
        text_index: None,
        strip_newline: false,
        delayed,
        pending: Seq::empty(),
        released: false,
        initialized: false,
        failed: false,
        buffered: Seq::empty(),
        completed: Set::empty(),
        usage_reported: false,
        usage_report: None,
        credential_id: -1,
        chunk_lines: 50,
    }
}

/// An unsigned number read as a signed one of the same width.
pub open spec fn as_signed64(n: int) -> int {
    if n < 0x8000_0000_0000_0000 {
        n
    } else {
        n - 0x1_0000_0000_0000_0000
    }
}

/// An unsigned number read as a signed one; see [`as_signed64`].
pub fn to_signed64(id: u64) -> (r: i64)
    ensures
        r == as_signed64(id as int),
{
    let r: i64 = #[verifier::truncate] (id as i64);
    assert(id < 0x8000_0000_0000_0000 ==> (id as i64) == id) by (bit_vector);
    assert(id >= 0x8000_0000_0000_0000 ==> (id as i64) == id - 0x1_0000_0000_0000_0000)
        by (bit_vector);
    r
}

impl StreamContext {
    /// A new stream with a message id that is given.
    pub fn with_message_id(
        message_id: String,
        model: &str,
        input_tokens: i32,
        thinking_enabled: bool,
        tool_name_map: Vec<(String, String)>,
        delay_message_start: bool,
    ) -> (r: Self)
        ensures
            r@ == new_stream(
                message_id@,
                model@,
                input_tokens as int,
                thinking_enabled,
                text::pairs_view(tool_name_map@),
                delay_message_start,
            ),
    {
        let r = StreamContext {
            state_manager: SseStateManager::new(),
            model: model.to_owned(),
            message_id,
            input_tokens,
            context_input_tokens: None,
            token_usage: None,
            output_tokens: 0,
            tool_block_indices: Vec::new(),
            tool_name_map,
            thinking_enabled,
            thinking_buffer: String::new(),
            in_thinking_block: false,
            thinking_extracted: false,
            thinking_block_index: None,
            text_block_index: None,
            strip_thinking_leading_newline: false,
            delay_message_start,
            pending_events: Vec::new(),
            message_start_released: false,
            stream_initialized: false,
            stream_failed: false,
            buffered_tool_events: Vec::new(),
            completed_tool_ids: Vec::new(),
            usage_reported: false,
            usage_report: None,
            credential_id: -1,
            chunk_lines: 50,
        };
        assert(r@.tool_indices =~= Seq::empty());
        assert(r@.pending =~= Seq::empty());
        assert(r@.buffered =~= Seq::empty());
        assert(r@.completed =~= Set::empty());
        r
    }

    /// A new stream with a random message id.
    pub fn new_with_thinking(
        model: &str,
        input_tokens: i32,
        thinking_enabled: bool,
        tool_name_map: Vec<(String, String)>,
        delay_message_start: bool,
    ) -> (r: Self)
        ensures
            exists|uuid: Seq<char>|
                {
                    &&& #[trigger] outside::uuid_shape(uuid)
                    &&& r@ == new_stream(
                        message_id_of(uuid),
                        model@,
                        input_tokens as int,
                        thinking_enabled,
                        text::pairs_view(tool_name_map@),
                        delay_message_start,
                    )
                },
    {
        let message_id: String = new_message_id();
        Self::with_message_id(
            message_id,
            model,
            input_tokens,
            thinking_enabled,
            tool_name_map,
            delay_message_start,
        )
    }

    /// Notes the upstream credential in use.
    pub fn set_credential_id(&mut self, id: u64)
        ensures
            final(self)@ == (stream_model::StreamView {
                credential_id: as_signed64(id as int),
                ..old(self)@
            }),
    {
        self.credential_id = to_signed64(id);
    }

    /// Sets the number of lines that the correction text names.
    pub fn set_chunk_lines(&mut self, lines: u32)
        ensures
            final(self)@ == (stream_model::StreamView { chunk_lines: lines as nat, ..old(self)@ }),
    {
        self.chunk_lines = lines;
    }

    /// Takes the usage report, if it was made and not taken before.
    pub fn take_usage_report(&mut self) -> (r: Option<UsageReport>)
        ensures
            final(self)@ == (stream_model::StreamView { usage_report: None, ..old(self)@ }),
            old(self)@.usage_report == match r {
                Some(u) => Some(u@),
                None => None,
            },
    {
        self.usage_report.take()
    }

    /// Whether `message_start` is kept back.
    pub fn awaiting_message_start_release(&self) -> (r: bool)
        ensures
            r == self@.waiting(),
    {
        self.delay_message_start && !self.message_start_released
    }

    /// Whether the client has seen any event, so that the request can no longer
    /// be replayed unnoticed.
    pub fn client_saw_output(&self) -> (r: bool)
        ensures
            r == self@.client_saw_output(),
    {
        if self.delay_message_start {
            self.message_start_released
        } else {
            self.stream_initialized
        }
    }

    /// An error inside the stream.
    pub fn create_error_event(message: &str) -> (r: SseEvent)
        ensures
            r@ == stream_model::error_event(message@),
    {
        SseEvent::new("error", SseData::Error { message: message.to_owned() })
    }

    fn effective_input_tokens(&self) -> (r: i32)
        requires
            self@.has_room(0),
        ensures
            r == self@.effective_input(),
    {
        let exact: Option<i32> = match &self.token_usage {
            Some(u) => u.anthropic_input_tokens(),
            None => None,
        };
        match exact {
            Some(n) => n,
            None => match self.context_input_tokens {
                Some(n) => n,
                None => self.input_tokens,
            },
        }
    }

    fn effective_output_tokens(&self) -> (r: i32)
        ensures
            r == self@.effective_output(),
    {
        let exact: Option<i32> = match &self.token_usage {
            Some(u) => u.anthropic_output_tokens(),
            None => None,
        };
        match exact {
            Some(n) => n,
            None => self.output_tokens,
        }
    }

    /// Makes the usage report, once for each stream.
    fn report_usage_once(&mut self)
        requires
            old(self)@.has_room(0),
        ensures
            final(self)@ == old(self)@.report_usage(),
    {
        if self.usage_reported {
            return;
        }
        self.usage_reported = true;
        let input: i64 = self.effective_input_tokens() as i64;
        let output: i64 = self.effective_output_tokens() as i64;
        let mut cache_read: i64 = 0;
        let mut cache_write: i64 = 0;
        if let Some(u) = &self.token_usage {
            let read: i64 = u.cache_read_input_tokens.unwrap_or(0);
            let write: i64 = u.cache_write_input_tokens.unwrap_or(0);
            if read > 0 {
                cache_read = read;
            }
            if write > 0 {
                cache_write = write;
            }
        }
        self.usage_report =
        Some(
            UsageReport {
                model: self.model.clone(),
                credential_id: self.credential_id,
                input_tokens: input,
                output_tokens: output,
                cache_read,
                cache_write,
            },
        );
    }

    /// The payload of `message_start`.
    pub fn create_message_start_event(&self) -> (r: SseData)
        requires
            self@.has_room(0),
        ensures
            r@ == self@.message_start_data(),
    {
        SseData::MessageStart {
            id: self.message_id.clone(),
            model: self.model.clone(),
            input_tokens: self.effective_input_tokens(),
        }
    }

    fn open_text_block(&mut self) -> (r: Vec<SseEvent>)
        requires
            old(self)@.has_room(1),
        ensures
            ({
                let (v, ev) = old(self)@.open_block("text"@, sse::ContentBlockView::Text);
                &&& final(self)@ == (stream_model::StreamView {
                    text_index: Some(old(self)@.manager.next_block_index),
                    ..v
                })
                &&& sse::events_view(r@) == ev
            }),
    {
        reveal(stream_model::StreamView::open_block);
        let index: i32 = self.state_manager.next_block_index();
        self.text_block_index = Some(index);
        self.state_manager.handle_content_block_start(
            index,
            "text",
            SseData::BlockStart { index, block: ContentBlock::Text },
        )
    }

    /// The first events; see [`stream_model::StreamView::initial`].
    pub fn generate_initial_events(&mut self) -> (r: Vec<SseEvent>)
        requires
            old(self)@.has_room(1),
        ensures
            (final(self)@, sse::events_view(r@)) == old(self)@.initial(),
    {
        reveal(stream_model::StreamView::initial);
        let mut events: Vec<SseEvent> = no_events();
        let data: SseData = self.create_message_start_event();
        let start: Option<SseEvent> = self.state_manager.handle_message_start(data);
        push_some(&mut events, start);
        let ghost first = sse::events_view(events@);
        assert(self@ == (stream_model::StreamView {
            manager: state_manager::ManagerView { message_started: true, ..old(self)@.manager },
            ..old(self)@
        }));
        assert(first =~= (if old(self)@.manager.message_started {
            Seq::empty()
        } else {
            seq![state_manager::message_start_event(old(self)@.message_start_data())]
        }));
        if self.thinking_enabled {
            return events;
        }
        let more: Vec<SseEvent> = self.open_text_block();
        extend(&mut events, more);
        events
    }

    /// Sends text; see [`stream_model::StreamView::text_delta`].
    fn create_text_delta_events(&mut self, text: &str) -> (r: Vec<SseEvent>)
        requires
            old(self)@.has_room(1),
        ensures
            (final(self)@, sse::events_view(r@)) == old(self)@.text_delta(text@),
    {
        reveal(stream_model::StreamView::text_delta);
        let mut events: Vec<SseEvent> = no_events();
        let current: Option<i32> = match self.text_block_index {
            Some(i) => if self.state_manager.is_block_open_of_type(i, "text") {
                Some(i)
            } else {
                None
            },
            None => None,
        };
        let index: i32 = match current {
            Some(i) => i,
            None => {
                let index: i32 = self.state_manager.peek_block_index();
                let starts: Vec<SseEvent> = self.open_text_block();
                extend(&mut events, starts);
                index
            },
        };
        let ghost before = sse::events_view(events@);
        let delta: Option<SseEvent> = self.state_manager.handle_content_block_delta(
            index,
            SseData::BlockDelta { index, delta: Delta::Text(text.to_owned()) },
        );
        push_some(&mut events, delta);
        assert(sse::events_view(events@) =~= old(self)@.text_delta(text@).1);
        events
    }

    fn create_thinking_delta_event(&self, index: i32, thinking: &str) -> (r: SseEvent)
        ensures
            r@ == stream_model::thinking_event(index as int, thinking@),
    {
        SseEvent::new(
            "content_block_delta",
            SseData::BlockDelta { index, delta: Delta::Thinking(thinking.to_owned()) },
        )
    }

    fn create_signature_delta_event(&self, index: i32, signature: &str) -> (r: SseEvent)
        ensures
            r@ == stream_model::signature_event(index as int, signature@),
    {
        SseEvent::new(
            "content_block_delta",
            SseData::BlockDelta { index, delta: Delta::Signature(signature.to_owned()) },
        )
    }

    /// Ends the thinking block; see [`stream_model::StreamView::close_thinking`].
    fn close_thinking_block(&mut self, thinking_index: i32, thinking_content: &str) -> (r: Vec<
        SseEvent,
    >)
        ensures
            (final(self)@, sse::events_view(r@)) == old(self)@.close_thinking(
                thinking_index as int,
                thinking_content@,
            ),
    {
        reveal(stream_model::StreamView::close_thinking);
        let mut events: Vec<SseEvent> = no_events();
        if !thinking_content.is_empty() {
            let e: SseEvent = self.create_thinking_delta_event(thinking_index, thinking_content);
            push_event(&mut events, e);
        }
        let e: SseEvent = self.create_thinking_delta_event(thinking_index, "");
        assert(""@ =~= Seq::<char>::empty()) by {
            reveal_strlit("");
        }
        push_event(&mut events, e);
        let signature: String = thinking::compute_thinking_signature(thinking_content);
        let e: SseEvent = self.create_signature_delta_event(thinking_index, signature.as_str());
        push_event(&mut events, e);
        let stop: Option<SseEvent> = self.state_manager.handle_content_block_stop(thinking_index);
        push_some(&mut events, stop);
        assert(sse::events_view(events@) =~= old(self)@.close_thinking(
            thinking_index as int,
            thinking_content@,
        ).1);
        events
    }

    fn close_thinking_if_any(&mut self, content: &str) -> (r: Vec<SseEvent>)
        ensures
            (final(self)@, sse::events_view(r@)) == old(self)@.close_thinking_if_any(content@),
    {
        match self.thinking_block_index {
            Some(i) => self.close_thinking_block(i, content),
            None => no_events(),
        }
    }

    /// After the thinking block; see [`stream_model::StreamView::after_thinking`].
    fn after_thinking(&mut self) -> (r: Vec<SseEvent>)
        requires
            old(self)@.has_room(1),
        ensures
            (final(self)@, sse::events_view(r@)) == old(self)@.after_thinking(),
    {
        if self.thinking_buffer.as_str().is_empty() {
            return no_events();
        }
        let mut remaining: String = String::new();
        std::mem::swap(&mut remaining, &mut self.thinking_buffer);
        self.create_text_delta_events(remaining.as_str())
    }

    fn drop_newline(&mut self) -> (chars: Vec<char>)
        ensures
            final(self)@ == old(self)@.drop_newline(),
            chars@ == final(self)@.buffer,
    {
        let mut chars: Vec<char> = text::chars_of(self.thinking_buffer.as_str());
        if self.strip_thinking_leading_newline && chars.len() > 0 {
            self.strip_thinking_leading_newline = false;
            if chars[0] == '\n' {
                chars = text::tail_of(&chars, 1);
                self.thinking_buffer = text::string_of(&chars, 0, chars.len());
                assert(self.thinking_buffer@ =~= chars@);
            }
        }
        chars
    }

    /// Inside the thinking block; see [`stream_model::StreamView::inside_thinking`].
    fn inside_thinking(&mut self) -> (r: Vec<SseEvent>)
        requires
            old(self)@.has_room(1),
        ensures
            (final(self)@, sse::events_view(r@)) == old(self)@.inside_thinking(),
    {
        let chars: Vec<char> = self.drop_newline();
        let n: usize = chars.len();
        let ghost v = self@;
        match thinking::end_tag_position(&chars) {
            Some(e) => {
                let content: String = text::string_of(&chars, 0, e);
                assert(content@ =~= v.buffer.take(e as int));
                self.in_thinking_block = false;
                self.thinking_extracted = true;
                let ghost w = self@;
                let mut events: Vec<SseEvent> = self.close_thinking_if_any(content.as_str());
                proof {
                    stream_model::lemma_close_thinking(w, content@);
                }
                self.thinking_buffer = text::string_of(&chars, e + 13, n);
                assert(self.thinking_buffer@ =~= v.buffer.skip(e + 13));
                let more: Vec<SseEvent> = self.after_thinking();
                extend(&mut events, more);
                events
            },
            None => {
                let k: usize = sendable_chars(self.thinking_buffer.as_str(), &chars, 13);
                if k == 0 {
                    return no_events();
                }
                let safe: String = text::string_of(&chars, 0, k);
                assert(safe@ =~= v.buffer.take(k as int));
                let mut events: Vec<SseEvent> = no_events();
                if let Some(i) = self.thinking_block_index {
                    let e: SseEvent = self.create_thinking_delta_event(i, safe.as_str());
                    push_event(&mut events, e);
                    assert(sse::events_view(events@) =~= seq![
                        stream_model::thinking_event(i as int, safe@),
                    ]);
                }
                self.thinking_buffer = text::string_of(&chars, k, n);
                assert(self.thinking_buffer@ =~= v.buffer.skip(k as int));
                events
            },
        }
    }

    /// Before the thinking block; see [`stream_model::StreamView::before_thinking`].
    fn before_thinking(&mut self) -> (r: Vec<SseEvent>)
        requires
            old(self)@.has_room(3),
        ensures
            (final(self)@, sse::events_view(r@)) == old(self)@.before_thinking(),
    {
        let ghost v = self@;
        let chars: Vec<char> = text::chars_of(self.thinking_buffer.as_str());
        let n: usize = chars.len();
        match thinking::start_tag_position(&chars) {
            Some(a) => {
                let before: String = text::string_of(&chars, 0, a);
                assert(before@ =~= v.buffer.take(a as int));
                let mut events: Vec<SseEvent> = no_events();
                if !text::is_blank(before.as_str()) {
                    let more: Vec<SseEvent> = self.create_text_delta_events(before.as_str());
                    extend(&mut events, more);
                    proof {
                        stream_model::lemma_text_delta(v, before@);
                    }
                }
                let ghost ev = sse::events_view(events@);
                let ghost w = self@;
                let (index, starts): (i32, Vec<SseEvent>) = self.open_thinking_block();
                proof {
                    stream_model::lemma_open_block(
                        w,
                        "thinking"@,
                        sse::ContentBlockView::Thinking,
                    );
                }
                self.thinking_block_index = Some(index);
                self.in_thinking_block = true;
                self.strip_thinking_leading_newline = true;
                self.thinking_buffer = text::string_of(&chars, a + 10, n);
                assert(self.thinking_buffer@ =~= v.buffer.skip(a + 10));
                extend(&mut events, starts);
                let more: Vec<SseEvent> = self.inside_thinking();
                extend(&mut events, more);
                assert(sse::events_view(events@) =~= v.before_thinking().1);
                events
            },
            None => {
                let k: usize = sendable_chars(self.thinking_buffer.as_str(), &chars, 10);
                let safe: String = text::string_of(&chars, 0, k);
                assert(safe@ =~= v.buffer.take(k as int));
                if k == 0 || text::is_blank(safe.as_str()) {
                    return no_events();
                }
                let events: Vec<SseEvent> = self.create_text_delta_events(safe.as_str());
                proof {
                    stream_model::lemma_text_delta(v, safe@);
                }
                self.thinking_buffer = text::string_of(&chars, k, n);
                assert(self.thinking_buffer@ =~= v.buffer.skip(k as int));
                events
            },
        }
    }

    fn open_thinking_block(&mut self) -> (r: (i32, Vec<SseEvent>))
        requires
            old(self)@.has_room(1),
        ensures
            r.0 == old(self)@.manager.next_block_index,
            (final(self)@, sse::events_view(r.1@)) == old(self)@.open_block(
                "thinking"@,
                sse::ContentBlockView::Thinking,
            ),
    {
        reveal(stream_model::StreamView::open_block);
        let index: i32 = self.state_manager.next_block_index();
        let starts: Vec<SseEvent> = self.state_manager.handle_content_block_start(
            index,
            "thinking",
            SseData::BlockStart { index, block: ContentBlock::Thinking },
        );
        (index, starts)
    }

    /// A piece of an answer that may hold a thinking block.
    fn process_content_with_thinking(&mut self, content: &str) -> (r: Vec<SseEvent>)
        requires
            old(self)@.has_room(3),
        ensures
            (final(self)@, sse::events_view(r@)) == old(self)@.content_with_thinking(content@),
    {
        self.thinking_buffer.append(content);
        if !self.in_thinking_block && !self.thinking_extracted {
            self.before_thinking()
        } else if self.in_thinking_block {
            self.inside_thinking()
        } else {
            self.after_thinking()
        }
    }

    /// A piece of the answer.
    pub fn process_assistant_response(&mut self, content: &str) -> (r: Vec<SseEvent>)
        requires
            old(self)@.has_room(3),
            old(self)@.accepts(
                events::KiroEventView::AssistantResponse { content: content@ },
            ),
        ensures
            (final(self)@, sse::events_view(r@)) == old(self)@.assistant_response(content@),
    {
        reveal(stream_model::StreamView::assistant_response);
        if content.is_empty() {
            return no_events();
        }
        proof {
            thinking::law_estimate_bounds(content@);
        }
        self.output_tokens = self.output_tokens + thinking::estimate_tokens(content);
        if self.thinking_enabled {
            return self.process_content_with_thinking(content);
        }
        self.create_text_delta_events(content)
    }

    fn leave_thinking_at(&mut self, chars: &Vec<char>, e: usize) -> (r: Vec<SseEvent>)
        requires
            old(self)@.has_room(1),
            chars@ == old(self)@.buffer,
            e + 11 <= chars@.len(),
        ensures
            (final(self)@, sse::events_view(r@)) == old(self)@.leave_thinking_at(e as int),
    {
        let ghost v = self@;
        let n: usize = chars.len();
        let content: String = text::string_of(chars, 0, e);
        assert(content@ =~= v.buffer.take(e as int));
        let from: usize = text::skip_white(chars, e + 11);
        let rest: String = text::string_of(chars, from, n);
        assert(rest@ =~= v.buffer.skip(from as int));
        self.in_thinking_block = false;
        self.thinking_extracted = true;
        let ghost w = self@;
        let mut events: Vec<SseEvent> = self.close_thinking_if_any(content.as_str());
        proof {
            stream_model::lemma_close_thinking(w, content@);
        }
        self.thinking_buffer = String::new();
        if !rest.as_str().is_empty() {
            let more: Vec<SseEvent> = self.create_text_delta_events(rest.as_str());
            extend(&mut events, more);
        }
        events
    }

    /// Gets ready for a tool call; see [`stream_model::StreamView::settle_for_tool`].
    fn settle_for_tool(&mut self) -> (r: Vec<SseEvent>)
        requires
            old(self)@.has_room(2),
        ensures
            (final(self)@, sse::events_view(r@)) == old(self)@.settle_for_tool(),
    {
        reveal(stream_model::StreamView::settle_for_tool);
        let mut events: Vec<SseEvent> = no_events();
        if self.thinking_enabled && self.in_thinking_block {
            let chars: Vec<char> = text::chars_of(self.thinking_buffer.as_str());
            if let Some(e) = thinking::last_end_tag_position(&chars) {
                let ghost v = self@;
                events = self.leave_thinking_at(&chars, e);
                proof {
                    stream_model::lemma_leave_thinking(v, e as int);
                }
            }
        }
        if self.thinking_enabled && !self.in_thinking_block && !self.thinking_extracted
            && !self.thinking_buffer.as_str().is_empty() {
            let mut buffered: String = String::new();
            std::mem::swap(&mut buffered, &mut self.thinking_buffer);
            let more: Vec<SseEvent> = self.create_text_delta_events(buffered.as_str());
            extend(&mut events, more);
        }
        events
    }

    fn tool_block(&mut self, id: &str) -> (index: i32)
        requires
            old(self)@.has_room(1),
        ensures
            (final(self)@, index as int) == old(self)@.tool_block(id@),
    {
        match index_of(&self.tool_block_indices, id) {
            Some(i) => i,
            None => {
                let ghost before = self.tool_block_indices@;
                let i: i32 = self.state_manager.next_block_index();
                self.tool_block_indices.push((id.to_owned(), i));
                assert(indices_view(self.tool_block_indices@) =~= indices_view(before).push(
                    (id@, i as int),
                ));
                i
            },
        }
    }

    fn tool_name(&self, name: &str) -> (r: String)
        ensures
            r@ == self@.tool_name(name@),
    {
        match name_of(&self.tool_name_map, name) {
            Some(n) => n,
            None => name.to_owned(),
        }
    }

    fn complete_tool(&mut self, id: &str)
        ensures
            final(self)@ == (stream_model::StreamView {
                completed: old(self)@.completed.insert(id@),
                ..old(self)@
            }),
    {
        let ghost before = self.completed_tool_ids@.map_values(|s: String| s@);
        self.completed_tool_ids.push(id.to_owned());
        proof {
            let after = self.completed_tool_ids@.map_values(|s: String| s@);
            assert(after =~= before.push(id@));
            assert forall|s: Seq<char>| after.contains(s) == (before.contains(s) || s == id@) by {
                if before.contains(s) {
                    let i: int = choose|i: int| 0 <= i < before.len() && before[i] == s;
                    assert(after[i] == s);
                }
                assert(after[before.len() as int] == id@);
                if after.contains(s) && s != id@ {
                    let i: int = choose|i: int| 0 <= i < after.len() && after[i] == s;
                    assert(before[i] == s);
                }
            }
            assert(after.to_set() =~= before.to_set().insert(id@));
        }
    }

    /// A piece of a tool call goes to its block; see
    /// [`stream_model::StreamView::feed_tool`].
    fn feed_tool(&mut self, index: i32, tool_use: &ToolUseEvent) -> (r: Vec<SseEvent>)
        requires
            old(self)@.accepts(events::KiroEventView::ToolUse(tool_use@)),
        ensures
            (final(self)@, sse::events_view(r@)) == old(self)@.feed_tool(
                index as int,
                tool_use@,
            ),
    {
        let ghost v0 = self@;
        let name: String = self.tool_name(tool_use.name.as_str());
        let data = SseData::BlockStart {
            index,
            block: ContentBlock::ToolUse { id: tool_use.tool_use_id.clone(), name },
        };
        let ghost (m1, starts) = v0.manager.start_block(index as int, "tool_use"@, data@);
        let mut events: Vec<SseEvent> = self.state_manager.handle_content_block_start(
            index,
            "tool_use",
            data,
        );
        let ghost v1 = stream_model::StreamView { manager: m1, ..v0 };
        assert(self@ == v1);
        let fed: Vec<SseEvent> = self.feed_input(index, tool_use.input.as_str());
        let ghost v2 = self@;
        extend(&mut events, fed);
        let ghost sent = sse::events_view(events@);
        if tool_use.stop {
            let stop: Option<SseEvent> = self.state_manager.handle_content_block_stop(index);
            push_some(&mut events, stop);
            self.complete_tool(tool_use.tool_use_id.as_str());
        } else {
            assert(sent =~= sent + Seq::empty());
        }
        reveal(stream_model::StreamView::feed_tool);
        events
    }

    /// A piece of the input of a tool call.
    fn feed_input(&mut self, index: i32, input: &str) -> (r: Vec<SseEvent>)
        requires
            text::byte_len(input@) + 3 <= i32::MAX,
            old(self)@.output_tokens + (text::byte_len(input@) + 3) / 4 <= i32::MAX,
        ensures
            final(self)@ == (stream_model::StreamView {
                output_tokens: if input@.len() == 0 {
                    old(self)@.output_tokens
                } else {
                    old(self)@.output_tokens + (text::byte_len(input@) + 3) / 4
                },
                ..old(self)@
            }),
            sse::events_view(r@) == if input@.len() == 0 {
                Seq::empty()
            } else {
                old(self)@.manager.delta(
                    index as int,
                    sse::DataView::BlockDelta {
                        index: index as int,
                        delta: sse::DeltaView::InputJson(input@),
                    },
                )
            },
    {
        let mut events: Vec<SseEvent> = no_events();
        if !input.is_empty() {
            let bytes: usize = input.as_bytes().len();
            self.output_tokens = self.output_tokens + (bytes as i32 + 3) / 4;
            let delta: Option<SseEvent> = self.state_manager.handle_content_block_delta(
                index,
                SseData::BlockDelta { index, delta: Delta::InputJson(input.to_owned()) },
            );
            push_some(&mut events, delta);
        }
        events
    }

    /// The events of a piece of a tool call; see
    /// [`stream_model::StreamView::tool_events`].
    fn tool_events(&mut self, tool_use: &ToolUseEvent) -> (r: (Vec<SseEvent>, i32))
        requires
            old(self)@.has_room(3),
            old(self)@.accepts(events::KiroEventView::ToolUse(tool_use@)),
        ensures
            (final(self)@, sse::events_view(r.0@), r.1 as int) == old(self)@.tool_events(
                tool_use@,
            ),
    {
        self.state_manager.set_has_tool_use(true);
        let ghost v0 = self@;
        let mut events: Vec<SseEvent> = self.settle_for_tool();
        proof {
            stream_model::lemma_settle_for_tool(v0);
        }
        let index: i32 = self.tool_block(tool_use.tool_use_id.as_str());
        let fed: Vec<SseEvent> = self.feed_tool(index, tool_use);
        extend(&mut events, fed);
        (events, index)
    }

    /// Parts the events about a block, which are held back, from the others.
    fn hold_back(&mut self, id: &str, events: Vec<SseEvent>, index: i32) -> (r: Vec<SseEvent>)
        ensures
            final(self)@ == (stream_model::StreamView {
                buffered: old(self)@.buffered + stream_model::tagged(
                    id@,
                    stream_model::about(sse::events_view(events@), index as int),
                ),
                ..old(self)@
            }),
            sse::events_view(r@) == stream_model::not_about(
                sse::events_view(events@),
                index as int,
            ),
    {
        let ghost all = sse::events_view(events@);
        let ghost before = self@;
        let mut passed: Vec<SseEvent> = no_events();
        let mut rest: Vec<SseEvent> = events;
        let mut held: Vec<(String, SseEvent)> = Vec::new();
        let mut i: usize = 0;
        let n: usize = rest.len();
        assert(all.take(0) =~= Seq::empty());
        assert(held_view(held@) =~= stream_model::tagged(
            id@,
            stream_model::about(all.take(0), index as int),
        ));
        while i < n
            invariant
                i <= n,
                n == all.len(),
                rest@.len() == n - i,
                sse::events_view(rest@) == all.skip(i as int),
                held_view(held@) == stream_model::tagged(
                    id@,
                    stream_model::about(all.take(i as int), index as int),
                ),
                sse::events_view(passed@) == stream_model::not_about(
                    all.take(i as int),
                    index as int,
                ),
            decreases n - i,
        {
            let ghost r0 = rest@;
            let ghost h0 = held@;
            assert(sse::events_view(r0)[0] == all[i as int]);
            assert(all.take(i + 1).drop_last() =~= all.take(i as int));
            let e: SseEvent = rest.remove(0);
            assert(sse::events_view(rest@) =~= all.skip(i + 1)) by {
                assert(rest@ =~= r0.remove(0));
                assert forall|k: int| 0 <= k < rest@.len() implies sse::events_view(rest@)[k]
                    == all.skip(i + 1)[k] by {
                    assert(sse::events_view(r0)[k + 1] == all.skip(i as int)[k + 1]);
                }
            }
            let here: bool = match event_block_index(&e) {
                Some(b) => b == index,
                None => false,
            };
            if here {
                held.push((id.to_owned(), e));
                assert(held_view(held@) =~= held_view(h0).push((id@, e@)));
                assert(held_view(held@) =~= stream_model::tagged(
                    id@,
                    stream_model::about(all.take(i + 1), index as int),
                ));
            } else {
                push_event(&mut passed, e);
            }
            i = i + 1;
        }
        assert(all.take(n as int) =~= all);
        let ghost b0 = self.buffered_tool_events@;
        let ghost h = held@;
        self.buffered_tool_events.append(&mut held);
        assert(held_view(self.buffered_tool_events@) =~= held_view(b0) + held_view(h));
        passed
    }

    /// The held-back tool call with the lowest block index.
    fn lowest_held(&self) -> (r: Option<(i32, String)>)
        ensures
            stream_model::lowest_held(self@.buffered, self@.tool_indices) == match r {
                Some((i, id)) => Some((i as int, id@)),
                None => None,
            },
    {
        let ghost all = self@.buffered;
        let mut best: Option<(i32, String)> = None;
        let mut i: usize = 0;
        assert(all.take(0) =~= Seq::empty());
        while i < self.buffered_tool_events.len()
            invariant
                i <= self.buffered_tool_events@.len(),
                all == self@.buffered,
                stream_model::lowest_held(all.take(i as int), self@.tool_indices) == match best {
                    Some((i, id)) => Some((i as int, id@)),
                    None => None,
                },
            decreases self.buffered_tool_events@.len() - i,
        {
            assert(all.take(i + 1).drop_last() =~= all.take(i as int));
            let id: &String = &self.buffered_tool_events[i].0;
            assert(all.take(i + 1).last().0 == id@);
            if let Some(index) = index_of(&self.tool_block_indices, id.as_str()) {
                let better: bool = match &best {
                    Some((j, _)) => index < *j,
                    None => true,
                };
                if better {
                    best = Some((index, id.clone()));
                }
            }
            i = i + 1;
        }
        assert(all.take(i as int) =~= all);
        best
    }

    /// Takes the held-back events of a tool call.
    fn take_held(&mut self, id: &str) -> (r: Vec<SseEvent>)
        ensures
            final(self)@ == (stream_model::StreamView {
                buffered: stream_model::held_besides(old(self)@.buffered, id@),
                ..old(self)@
            }),
            sse::events_view(r@) == stream_model::held_of(old(self)@.buffered, id@),
    {
        let ghost all = self@.buffered;
        let mut rest: Vec<(String, SseEvent)> = Vec::new();
        std::mem::swap(&mut rest, &mut self.buffered_tool_events);
        let mut kept: Vec<(String, SseEvent)> = Vec::new();
        let mut out: Vec<SseEvent> = no_events();
        let n: usize = rest.len();
        let mut i: usize = 0;
        assert(all.take(0) =~= Seq::empty());
        assert(held_view(kept@) =~= Seq::empty());
        assert(all.skip(0) =~= all);
        while i < n
            invariant
                i <= n,
                n == all.len(),
                rest@.len() == n - i,
                held_view(rest@) == all.skip(i as int),
                held_view(kept@) == stream_model::held_besides(all.take(i as int), id@),
                sse::events_view(out@) == stream_model::held_of(all.take(i as int), id@),
            decreases n - i,
        {
            let ghost r0 = rest@;
            let ghost k0 = kept@;
            assert(held_view(r0)[0] == all[i as int]);
            assert(all.take(i + 1).drop_last() =~= all.take(i as int));
            let e: (String, SseEvent) = rest.remove(0);
            assert(held_view(rest@) =~= all.skip(i + 1)) by {
                assert(rest@ =~= r0.remove(0));
                assert forall|k: int| 0 <= k < rest@.len() implies held_view(rest@)[k] == all.skip(
                    i + 1,
                )[k] by {
                    assert(held_view(r0)[k + 1] == all.skip(i as int)[k + 1]);
                }
            }
            if text::str_eq(e.0.as_str(), id) {
                push_event(&mut out, e.1);
            } else {
                kept.push(e);
                assert(held_view(kept@) =~= held_view(k0).push(all[i as int]));
            }
            i = i + 1;
        }
        assert(all.take(n as int) =~= all);
        self.buffered_tool_events = kept;
        out
    }

    /// Releases complete tool calls in the order of their blocks; see
    /// [`stream_model::release_held`].
    fn release_buffered_tool_events(&mut self) -> (r: Vec<SseEvent>)
        ensures
            ({
                let (rest, out) = stream_model::release_held(
                    old(self)@.buffered,
                    old(self)@.tool_indices,
                    old(self)@.completed,
                );
                &&& final(self)@ == (stream_model::StreamView { buffered: rest, ..old(self)@ })
                &&& sse::events_view(r@) == out
            }),
    {
        let ghost v0 = self@;
        let ghost whole = stream_model::release_held(v0.buffered, v0.tool_indices, v0.completed);
        let mut out: Vec<SseEvent> = no_events();
        assert(Seq::<sse::EventView>::empty() + whole.1 =~= whole.1);
        loop
            invariant
                self@ == (stream_model::StreamView { buffered: self@.buffered, ..v0 }),
                whole == (
                    stream_model::release_held(
                        self@.buffered,
                        v0.tool_indices,
                        v0.completed,
                    ).0,
                    sse::events_view(out@) + stream_model::release_held(
                        self@.buffered,
                        v0.tool_indices,
                        v0.completed,
                    ).1,
                ),
            ensures
                self@ == (stream_model::StreamView { buffered: whole.0, ..v0 }),
                sse::events_view(out@) == whole.1,
            decreases self@.buffered.len(),
        {
            proof {
                stream_model::lemma_lowest_held(self@.buffered, v0.tool_indices);
                assert(sse::events_view(out@) + Seq::empty() =~= sse::events_view(out@));
            }
            let id: String = match self.lowest_held() {
                Some((_, id)) => id,
                None => {
                    break ;
                },
            };
            if !holds_id(&self.completed_tool_ids, id.as_str()) {
                break ;
            }
            let ghost sent = sse::events_view(out@);
            let ghost held = self@.buffered;
            proof {
                stream_model::lemma_held_besides_shorter(held, id@);
            }
            let more: Vec<SseEvent> = self.take_held(id.as_str());
            extend(&mut out, more);
            proof {
                let next = stream_model::release_held(
                    self@.buffered,
                    v0.tool_indices,
                    v0.completed,
                );
                assert(sent + (stream_model::held_of(held, id@) + next.1) =~= sse::events_view(out@)
                    + next.1);
            }
        }
        out
    }

    /// A piece of a tool call; see [`stream_model::StreamView::tool_use`].
    pub fn process_tool_use(&mut self, tool_use: &ToolUseEvent) -> (r: Vec<SseEvent>)
        requires
            old(self)@.has_room(3),
            old(self)@.accepts(events::KiroEventView::ToolUse(tool_use@)),
        ensures
            (final(self)@, sse::events_view(r@)) == old(self)@.tool_use(tool_use@),
    {
        reveal(stream_model::StreamView::tool_use);
        let (all, index): (Vec<SseEvent>, i32) = self.tool_events(tool_use);
        if !self.buffers_tool_events() {
            return all;
        }
        let mut passed: Vec<SseEvent> = self.hold_back(tool_use.tool_use_id.as_str(), all, index);
        if tool_use.stop {
            let released: Vec<SseEvent> = self.release_buffered_tool_events();
            extend(&mut passed, released);
        }
        passed
    }

    /// Whether the events of tool calls are held back until the calls are complete.
    fn buffers_tool_events(&self) -> (r: bool)
        ensures
            r == self@.delayed,
    {
        self.delay_message_start
    }

    /// Whether the stream can be ended without a count leaving the range of its type.
    pub fn can_end(&self) -> (r: bool)
        ensures
            r == self@.has_room(4),
    {
        self.state_manager.peek_block_index() <= i32::MAX - 4 && match &self.token_usage {
            Some(u) => u.is_in_range(),
            None => true,
        }
    }

    /// Whether an event can be taken in, and the stream ended after it, without a
    /// count leaving the range of its type.
    pub fn can_take(&self, event: &Event) -> (r: bool)
        ensures
            r == (self@.has_room(4) && self@.accepts(event@)),
    {
        self.can_end() && match event {
            Event::AssistantResponse(e) => {
                if !thinking::can_estimate(e.content.as_str()) {
                    false
                } else {
                    let t: i32 = thinking::estimate_tokens(e.content.as_str());
                    proof {
                        thinking::law_estimate_bounds(e.content@);
                    }
                    self.output_tokens <= i32::MAX - t
                }
            },
            Event::ToolUse(e) => {
                let n: usize = e.input.as_str().as_bytes().len();
                n <= 0x7fff_fffc && self.output_tokens <= i32::MAX - (n as i32 + 3) / 4
            },
            Event::Metadata(e) => match &e.token_usage {
                Some(u) => u.is_in_range(),
                None => true,
            },
            _ => true,
        }
    }

    fn fail_with(&mut self, message: &str) -> (r: Vec<SseEvent>)
        ensures
            final(self)@ == (stream_model::StreamView { failed: true, ..old(self)@ }),
            sse::events_view(r@) == seq![stream_model::error_event(message@)],
    {
        self.stream_failed = true;
        let mut events: Vec<SseEvent> = no_events();
        let e: SseEvent = Self::create_error_event(message);
        push_event(&mut events, e);
        assert(sse::events_view(events@) =~= seq![stream_model::error_event(message@)]);
        events
    }

    /// An upstream event; see [`stream_model::StreamView::kiro_event`].
    pub fn process_kiro_event(&mut self, event: &Event) -> (r: Vec<SseEvent>)
        requires
            old(self)@.has_room(3),
            old(self)@.accepts(event@),
        ensures
            (final(self)@, sse::events_view(r@)) == old(self)@.kiro_event(event@),
    {
        match event {
            Event::AssistantResponse(e) => self.process_assistant_response(e.content.as_str()),
            Event::ToolUse(e) => self.process_tool_use(e),
            Event::ContextUsage(e) => {
                self.context_input_tokens = Some(e.input_tokens);
                if e.window_full {
                    self.state_manager.set_stop_reason("model_context_window_exceeded");
                }
                no_events()
            },
            Event::Metadata(e) => {
                if let Some(u) = e.token_usage {
                    if u.has_counts() {
                        self.token_usage = Some(u);
                    }
                }
                no_events()
            },
            Event::Metering => no_events(),
            Event::InvalidState(e) => {
                let mut message: String = "Upstream reported invalid state: ".to_owned();
                message.append(e.to_string().as_str());
                self.fail_with(message.as_str())
            },
            Event::Error { error_code, error_message } => {
                let mut message: String = error_code.clone();
                message.append(": ");
                message.append(error_message.as_str());
                self.fail_with(message.as_str())
            },
            Event::Exception { exception_type, message } => {
                if text::str_eq(exception_type.as_str(), "ContentLengthExceededException") {
                    self.state_manager.set_stop_reason("max_tokens");
                    return no_events();
                }
                let mut text: String = exception_type.clone();
                text.append(": ");
                text.append(message.as_str());
                self.fail_with(text.as_str())
            },
            Event::Unknown => no_events(),
        }
    }

    fn patch_message_start_tokens(events: &mut Vec<SseEvent>, input_tokens: i32)
        ensures
            sse::events_view(final(events)@) == stream_model::with_input_tokens(
                sse::events_view(old(events)@),
                input_tokens as int,
            ),
    {
        let ghost all = sse::events_view(events@);
        let ghost done = stream_model::with_input_tokens(all, input_tokens as int);
        let n: usize = events.len();
        let mut i: usize = 0;
        while i < n
            invariant
                i <= n,
                n == events@.len(),
                all.len() == n,
                done == stream_model::with_input_tokens(all, input_tokens as int),
                forall|k: int| 0 <= k < i ==> (#[trigger] events@[k])@ == done[k],
                forall|k: int| i <= k < n ==> (#[trigger] events@[k])@ == all[k],
            decreases n - i,
        {
            let e: &SseEvent = &events[i];
            if text::str_eq(e.event.as_str(), "message_start") {
                if let SseData::MessageStart { id, model, .. } = &e.data {
                    let data = SseData::MessageStart {
                        id: id.clone(),
                        model: model.clone(),
                        input_tokens,
                    };
                    let patched = SseEvent::new("message_start", data);
                    events.set(i, patched);
                }
            }
            i = i + 1;
        }
        assert(sse::events_view(events@) =~= done);
    }

    fn release_pending_events(&mut self) -> (r: Vec<SseEvent>)
        requires
            old(self)@.has_room(0),
        ensures
            (final(self)@, sse::events_view(r@)) == old(self)@.release_pending(),
    {
        let input_tokens: i32 = self.effective_input_tokens();
        let mut out: Vec<SseEvent> = no_events();
        std::mem::swap(&mut out, &mut self.pending_events);
        Self::patch_message_start_tokens(&mut out, input_tokens);
        assert(self@.pending =~= Seq::empty());
        out
    }

    fn prepare(&mut self)
        requires
            old(self)@.has_room(1),
        ensures
            final(self)@ == old(self)@.prepared(),
    {
        if !self.stream_initialized {
            let first: Vec<SseEvent> = self.generate_initial_events();
            proof {
                stream_model::lemma_initial(old(self)@);
            }
            self.pending_events = first;
            self.stream_initialized = true;
        }
    }

    /// Lets `message_start` go without waiting any longer.
    pub fn force_release_message_start(&mut self) -> (r: Vec<SseEvent>)
        requires
            old(self)@.has_room(1),
        ensures
            (final(self)@, sse::events_view(r@)) == old(self)@.force_release(),
    {
        if !self.awaiting_message_start_release() {
            return no_events();
        }
        self.prepare();
        proof {
            stream_model::lemma_initial(old(self)@);
        }
        let out: Vec<SseEvent> = self.release_pending_events();
        self.message_start_released = true;
        out
    }

    /// An upstream event, as the client sees it; see
    /// [`stream_model::StreamView::take_events`].
    pub fn take_events_for_kiro(&mut self, event: &Event) -> (r: Vec<SseEvent>)
        requires
            old(self)@.has_room(4),
            old(self)@.accepts(event@),
        ensures
            (final(self)@, sse::events_view(r@)) == old(self)@.take_events(event@),
    {
        if self.stream_failed {
            return no_events();
        }
        proof {
            stream_model::lemma_initial(old(self)@);
        }
        if self.awaiting_message_start_release() {
            self.prepare();
            let ghost v1 = self@;
            let mut events: Vec<SseEvent> = self.process_kiro_event(event);
            proof {
                stream_model::lemma_kiro_event(v1, event@);
            }
            let context: bool = match event {
                Event::ContextUsage(_) => true,
                _ => false,
            };
            if context || events.len() > 0 {
                let mut out: Vec<SseEvent> = self.release_pending_events();
                self.message_start_released = true;
                extend(&mut out, events);
                return out;
            }
            return no_events();
        }
        let mut out: Vec<SseEvent> = no_events();
        if !self.stream_initialized {
            out = self.generate_initial_events();
            self.stream_initialized = true;
        }
        let ghost first = sse::events_view(out@);
        let events: Vec<SseEvent> = self.process_kiro_event(event);
        extend(&mut out, events);
        assert(first.len() == 0 ==> sse::events_view(out@) =~= sse::events_view(events@));
        out
    }

    fn discard_held_blocks(&mut self)
        ensures
            final(self)@ == (stream_model::StreamView {
                manager: stream_model::discard_held(
                    old(self)@.manager,
                    old(self)@.buffered,
                    old(self)@.tool_indices,
                ),
                buffered: Seq::empty(),
                ..old(self)@
            }),
    {
        let ghost v = self@;
        let mut i: usize = 0;
        assert(v.buffered.take(0) =~= Seq::empty());
        while i < self.buffered_tool_events.len()
            invariant
                i <= self.buffered_tool_events@.len(),
                self@ == (stream_model::StreamView {
                    manager: stream_model::discard_held(
                        v.manager,
                        v.buffered.take(i as int),
                        v.tool_indices,
                    ),
                    ..v
                }),
            decreases self.buffered_tool_events@.len() - i,
        {
            assert(v.buffered.take(i + 1).drop_last() =~= v.buffered.take(i as int));
            assert(v.buffered[i as int].0 == self.buffered_tool_events@[i as int].0@);
            if let Some(index) = index_of(
                &self.tool_block_indices,
                self.buffered_tool_events[i].0.as_str(),
            ) {
                self.state_manager.discard_block(index);
            }
            i = i + 1;
        }
        assert(v.buffered.take(i as int) =~= v.buffered);
        self.buffered_tool_events = Vec::new();
        assert(self@.buffered =~= Seq::empty());
    }

    /// Puts a text in the place of tool calls that were cut off.
    fn take_truncated_tool_correction(&mut self) -> (r: Vec<SseEvent>)
        requires
            old(self)@.has_room(1),
        ensures
            (final(self)@, sse::events_view(r@)) == old(self)@.correct_truncation(),
    {
        if self.buffered_tool_events.len() == 0 {
            return no_events();
        }
        self.discard_held_blocks();
        proof {
            stream_model::lemma_discard_held(
                old(self)@.manager,
                old(self)@.buffered,
                old(self)@.tool_indices,
            );
        }
        let correction: String = truncated_tool_correction(self.chunk_lines);
        let out: Vec<SseEvent> = self.create_text_delta_events(correction.as_str());
        self.state_manager.set_stop_reason("max_tokens");
        out
    }

    fn flush_buffer(&mut self) -> (r: Vec<SseEvent>)
        requires
            old(self)@.has_room(1),
        ensures
            (final(self)@, sse::events_view(r@)) == old(self)@.flush_buffer(),
    {
        reveal(stream_model::StreamView::flush_buffer);
        if !self.thinking_enabled || self.thinking_buffer.as_str().is_empty() {
            return no_events();
        }
        let ghost v = self@;
        let events: Vec<SseEvent>;
        if self.in_thinking_block {
            let chars: Vec<char> = text::chars_of(self.thinking_buffer.as_str());
            match thinking::last_end_tag_position(&chars) {
                Some(e) => {
                    return self.leave_thinking_at(&chars, e);
                },
                None => {
                    let buffer: String = self.thinking_buffer.clone();
                    events = self.close_thinking_if_any(buffer.as_str());
                },
            }
        } else {
            let buffer: String = self.thinking_buffer.clone();
            events = self.create_text_delta_events(buffer.as_str());
        }
        self.thinking_buffer = String::new();
        events
    }

    fn fill_in_text(&mut self) -> (r: Vec<SseEvent>)
        requires
            old(self)@.has_room(1),
        ensures
            (final(self)@, sse::events_view(r@)) == old(self)@.fill_in_text(),
    {
        reveal(stream_model::StreamView::fill_in_text);
        if self.thinking_enabled && self.thinking_block_index.is_some()
            && !self.state_manager.has_non_thinking_blocks() {
            self.state_manager.set_stop_reason("max_tokens");
            return self.create_text_delta_events(" ");
        }
        no_events()
    }

    fn finish(&mut self, input_tokens: i32, output_tokens: i32) -> (r: Vec<SseEvent>)
        ensures
            (final(self)@, sse::events_view(r@)) == old(self)@.finish(
                input_tokens as int,
                output_tokens as int,
            ),
    {
        reveal(stream_model::StreamView::finish);
        self.state_manager.generate_final_events(input_tokens, output_tokens)
    }

    /// The last events of a stream that came to its end.
    pub fn generate_final_events(&mut self) -> (r: Vec<SseEvent>)
        requires
            old(self)@.has_room(2),
        ensures
            (final(self)@, sse::events_view(r@)) == old(self)@.final_events(),
    {
        let mut events: Vec<SseEvent> = self.flush_buffer();
        proof {
            stream_model::lemma_flush_buffer(old(self)@);
        }
        let ghost v = self@;
        let more: Vec<SseEvent> = self.fill_in_text();
        proof {
            stream_model::lemma_fill_in_text(v);
        }
        extend(&mut events, more);
        let input: i32 = self.effective_input_tokens();
        let output: i32 = self.effective_output_tokens();
        let last: Vec<SseEvent> = self.finish(input, output);
        extend(&mut events, last);
        events
    }

    fn release_at_end(&mut self) -> (r: Vec<SseEvent>)
        requires
            old(self)@.has_room(1),
        ensures
            (final(self)@, sse::events_view(r@)) == old(self)@.release_at_end(),
    {
        reveal(stream_model::StreamView::release_at_end);
        let mut out: Vec<SseEvent> = no_events();
        if !self.stream_initialized {
            out = self.generate_initial_events();
            proof {
                stream_model::lemma_initial(old(self)@);
            }
            self.stream_initialized = true;
        }
        let kept: Vec<SseEvent> = self.release_pending_events();
        extend(&mut out, kept);
        self.message_start_released = true;
        out
    }

    /// The end of a stream that failed; see
    /// [`stream_model::StreamView::finalize_on_failure`].
    pub fn finalize_stream_on_failure(&mut self) -> (r: Vec<SseEvent>)
        requires
            old(self)@.has_room(1),
        ensures
            (final(self)@, sse::events_view(r@)) == old(self)@.finalize_on_failure(),
    {
        self.report_usage_once();
        let ghost u = self@;
        proof {
            stream_model::lemma_initial(u);
            stream_model::lemma_release_at_end(u);
        }
        let mut out: Vec<SseEvent> = no_events();
        if self.awaiting_message_start_release() {
            out = self.release_at_end();
        } else if !self.state_manager.message_started() {
            out = self.generate_initial_events();
            self.stream_initialized = true;
        }
        let ghost v = self@;
        self.discard_held_blocks();
        proof {
            stream_model::lemma_discard_held(v.manager, v.buffered, v.tool_indices);
        }
        let input: i32 = self.effective_input_tokens();
        let mut output: i32 = self.effective_output_tokens();
        if output < 1 {
            output = 1;
        }
        let last: Vec<SseEvent> = self.finish(input, output);
        extend(&mut out, last);
        out
    }

    /// The end of a stream that broke off; see
    /// [`stream_model::StreamView::finalize_on_interrupt`].
    pub fn finalize_stream_on_interrupt(&mut self) -> (r: Vec<SseEvent>)
        requires
            old(self)@.has_room(1),
        ensures
            (final(self)@, sse::events_view(r@)) == old(self)@.finalize_on_interrupt(),
    {
        self.state_manager.set_stop_reason("max_tokens");
        self.finalize_stream_on_failure()
    }

    /// The end of a stream; see [`stream_model::StreamView::finalize`].
    pub fn finalize_stream(&mut self) -> (r: Vec<SseEvent>)
        requires
            old(self)@.has_room(4),
        ensures
            (final(self)@, sse::events_view(r@)) == old(self)@.finalize(),
    {
        if self.stream_failed {
            return self.finalize_stream_on_failure();
        }
        self.report_usage_once();
        let ghost u = self@;
        proof {
            stream_model::lemma_initial(u);
            stream_model::lemma_release_at_end(u);
        }
        let mut out: Vec<SseEvent> = no_events();
        if self.awaiting_message_start_release() {
            out = self.release_at_end();
        }
        let ghost v = self@;
        let correction: Vec<SseEvent> = self.take_truncated_tool_correction();
        proof {
            stream_model::lemma_correct_truncation(v);
        }
        extend(&mut out, correction);
        let last: Vec<SseEvent> = self.generate_final_events();
        extend(&mut out, last);
        out
    }
}

/// The number of characters of `s`, whose characters are `v`, that can be sent
/// when `keep` bytes at the end are kept back.
fn sendable_chars(s: &str, v: &Vec<char>, keep: usize) -> (k: usize)
    requires
        v@ == s@,
    ensures
        k == stream_model::sendable(s@, keep as nat),
        k <= v@.len(),
{
    let total: usize = s.as_bytes().len();
    let target: usize = if total < keep {
        0
    } else {
        total - keep
    };
    text::fitting_chars(v, target)
}

/// A message id is made of a UUID alone: a prefix, then all its characters but the hyphens, in
/// order.
pub proof fn law_message_id(uuid: Seq<char>)
    ensures
        text::begins_with(message_id_of(uuid), "msg_"@),
        forall|i: int|
            4 <= i < message_id_of(uuid).len() ==> #[trigger] message_id_of(uuid)[i] != '-'
                && uuid.contains(message_id_of(uuid)[i]),
        (forall|i: int| 0 <= i < uuid.len() ==> #[trigger] uuid[i] != '-') ==> message_id_of(uuid)
            == "msg_"@ + uuid,
{
    reveal_strlit("msg_");
    lemma_without_hyphens(uuid);
    let s = message_id_of(uuid);
    assert(s.subrange(0, 4) =~= "msg_"@);
    assert forall|i: int| 4 <= i < s.len() implies #[trigger] s[i] != '-' && uuid.contains(
        s[i],
    ) by {
        assert(s[i] == without_hyphens(uuid)[i - 4]);
    }
}

proof fn lemma_without_hyphens(s: Seq<char>)
    ensures
        forall|i: int|
            0 <= i < without_hyphens(s).len() ==> #[trigger] without_hyphens(s)[i] != '-'
                && s.contains(without_hyphens(s)[i]),
        (forall|i: int| 0 <= i < s.len() ==> #[trigger] s[i] != '-') ==> without_hyphens(s) == s,
    decreases s.len(),
{
    if s.len() > 0 {
        let rest = s.drop_last();
        lemma_without_hyphens(rest);
        let a = without_hyphens(rest);
        let b = without_hyphens(s);
        assert forall|i: int| 0 <= i < b.len() implies #[trigger] b[i] != '-' && s.contains(
            b[i],
        ) by {
            if i < a.len() {
                assert(b[i] == a[i]);
                let k = choose|k: int| 0 <= k < rest.len() && rest[k] == a[i];
                assert(s[k] == a[i]);
            } else {
                assert(s[s.len() - 1] == b[i]);
            }
        }
        if forall|i: int| 0 <= i < s.len() ==> #[trigger] s[i] != '-' {
            assert forall|i: int| 0 <= i < rest.len() implies #[trigger] rest[i] != '-' by {
                assert(s[i] == rest[i]);
            }
            assert(s[s.len() - 1] != '-');
            assert(b =~= s);
        }
    } else {
        assert(without_hyphens(s) =~= s);
    }
}

} // verus!
