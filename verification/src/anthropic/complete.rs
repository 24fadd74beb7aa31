//! Answers that are sent as a whole.

use vstd::prelude::*;
use vstd::string::*;
use crate::anthropic::handlers;
use crate::anthropic::handlers::ErrorReply;
use crate::anthropic::session;
use crate::anthropic::session::Decoded;
use crate::anthropic::stream;
use crate::anthropic::stream::UsageReport;
use crate::anthropic::stream_model;
use crate::anthropic::thinking;
use crate::anthropic::upstream;
use crate::kiro::events;
use crate::kiro::events::{Event, TokenUsage, ToolUseEvent};
use crate::outside;
use crate::text;

verus! {

/// A complete tool call. Its input is JSON text.
#[derive(Debug)]
pub struct ToolCall {
    pub id: String,
    pub name: String,
    pub input: String,
}

/// The view of a complete tool call.
pub struct CallView {
    pub id: Seq<char>,
    pub name: Seq<char>,
    pub input: Seq<char>,
}

impl View for ToolCall {
    type V = CallView;

    open spec fn view(&self) -> CallView {
        CallView { id: self.id@, name: self.name@, input: self.input@ }
    }
}

pub open spec fn calls_view(v: Seq<ToolCall>) -> Seq<CallView> {
    v.map_values(|c: ToolCall| c@)
}

/// An answer as far as it has come.
#[derive(Debug)]
pub struct Answer {
    pub text: String,
    pub tool_uses: Vec<ToolCall>,
    pub has_tool_use: bool,
    pub stop_reason: String,
    pub context_input_tokens: Option<i32>,
    pub token_usage: Option<TokenUsage>,
    /// The pieces of input of each tool call so far.
    pub tool_json_buffers: Vec<(String, String)>,
    /// The names of tools that were shortened, with the names they had before.
    pub tool_name_map: Vec<(String, String)>,
}

/// The view of an answer as far as it has come.
pub struct AnswerView {
    pub text: Seq<char>,
    pub calls: Seq<CallView>,
    pub has_tool_use: bool,
    pub stop_reason: Seq<char>,
    pub context_input: Option<int>,
    pub usage: Option<TokenUsage>,
    pub buffers: Map<Seq<char>, Seq<char>>,
    pub tool_names: Seq<(Seq<char>, Seq<char>)>,
}

/// The pairs as a map.
pub open spec fn map_of(pairs: Seq<(Seq<char>, Seq<char>)>) -> Map<Seq<char>, Seq<char>> {
    Map::new(
        |k: Seq<char>| text::value_of(pairs, k) is Some,
        |k: Seq<char>| text::value_of(pairs, k).unwrap(),
    )
}

impl View for Answer {
    type V = AnswerView;

    open spec fn view(&self) -> AnswerView {
        AnswerView {
            text: self.text@,
            calls: calls_view(self.tool_uses@),
            has_tool_use: self.has_tool_use,
            stop_reason: self.stop_reason@,
            context_input: stream::int_view(self.context_input_tokens),
            usage: self.token_usage,
            buffers: map_of(text::pairs_view(self.tool_json_buffers@)),
            tool_names: text::pairs_view(self.tool_name_map@),
        }
    }
}

/// The input of a tool call, given all its pieces: what they are as JSON. No pieces, or
/// pieces that are not JSON, make an empty object.
pub open spec fn tool_input(pieces: Seq<char>) -> Seq<char> {
    if pieces.len() == 0 {
        "{}"@
    } else {
        match outside::json_compact(pieces) {
            Some(s) => s,
            None => "{}"@,
        }
    }
}

/// Whether the upstream service reports token counts that can be used.
pub open spec fn has_counts(u: TokenUsage) -> bool {
    u.uncached_input_tokens is Some || u.output_tokens is Some || u.total_tokens is Some
}

/// An answer at its beginning.
pub open spec fn no_answer(tool_names: Seq<(Seq<char>, Seq<char>)>) -> AnswerView {
    AnswerView {
        text: Seq::empty(),
        calls: Seq::empty(),
        has_tool_use: false,
        stop_reason: "end_turn"@,
        context_input: None,
        usage: None,
        buffers: Map::empty(),
        tool_names,
    }
}

impl AnswerView {
    /// The pieces of a tool call so far.
    pub open spec fn pieces(self, id: Seq<char>) -> Seq<char> {
        if self.buffers.contains_key(id) {
            self.buffers[id]
        } else {
            Seq::empty()
        }
    }

    /// The name that a tool has for the client.
    pub open spec fn tool_name(self, name: Seq<char>) -> Seq<char> {
        match stream_model::lookup(self.tool_names, name) {
            Some(n) => n,
            None => name,
        }
    }

    /// A piece of a tool call. The last one makes the call complete.
    pub open spec fn tool_use(self, e: events::ToolUseView) -> AnswerView {
        let all = self.pieces(e.id) + e.input;
        AnswerView {
            has_tool_use: true,
            buffers: self.buffers.insert(e.id, all),
            calls: if e.stop {
                self.calls.push(
                    CallView {
                        id: e.id,
                        name: self.tool_name(e.name),
                        input: tool_input(all),
                    },
                )
            } else {
                self.calls
            },
            ..self
        }
    }

    /// An event of the upstream service: the answer after it, or why there is none.
    pub open spec fn take_event(self, e: events::KiroEventView) -> Result<AnswerView, Seq<char>> {
        match e {
            events::KiroEventView::AssistantResponse { content } => Ok(
                AnswerView { text: self.text + content, ..self },
            ),
            events::KiroEventView::ToolUse(t) => Ok(self.tool_use(t)),
            events::KiroEventView::ContextUsage { input_tokens, window_full } => Ok(
                AnswerView {
                    context_input: Some(input_tokens),
                    stop_reason: if window_full {
                        "model_context_window_exceeded"@
                    } else {
                        self.stop_reason
                    },
                    ..self
                },
            ),
            events::KiroEventView::Metadata(Some(u)) => Ok(
                if has_counts(u) {
                    AnswerView { usage: Some(u), ..self }
                } else {
                    self
                },
            ),
            events::KiroEventView::InvalidState { reason, message } => Err(
                "Upstream reported invalid state: "@ + events::invalid_state_text(reason, message),
            ),
            events::KiroEventView::Error { error_code, error_message } => Err(
                error_code + ": "@ + error_message,
            ),
            events::KiroEventView::Exception { exception_type, message } => if exception_type
                == "ContentLengthExceededException"@ {
                Ok(AnswerView { stop_reason: "max_tokens"@, ..self })
            } else {
                Err(exception_type + ": "@ + message)
            },
            _ => Ok(self),
        }
    }

    /// Something that was read from the upstream body. A fatal failure to read it is
    /// one after too many others.
    pub open spec fn take_item(self, item: session::DecodedView) -> Result<AnswerView, Seq<char>> {
        match item {
            session::DecodedView::Event(e) => self.take_event(e),
            session::DecodedView::Failure { fatal, message } => if fatal {
                Err("Upstream stream decode failed: "@ + message)
            } else {
                Ok(self)
            },
        }
    }

    /// Why the answer ends where it does.
    pub open spec fn final_stop_reason(self) -> Seq<char> {
        if self.has_tool_use && self.stop_reason == "end_turn"@ {
            "tool_use"@
        } else {
            self.stop_reason
        }
    }

    /// The input tokens: as reported, or else by the use of the context window, or else
    /// as estimated.
    pub open spec fn input_tokens(self, estimate: int) -> int {
        let exact = match self.usage {
            Some(u) => u.input(),
            None => None,
        };
        match (exact, self.context_input) {
            (Some(n), _) => n,
            (None, Some(n)) => n,
            (None, None) => estimate,
        }
    }

    /// The output tokens, where they are reported.
    pub open spec fn output_tokens(self) -> Option<int> {
        match self.usage {
            Some(u) => u.output(),
            None => None,
        }
    }

    /// The input tokens that were read from a cache and those that were written to it, as
    /// reported, none of them below zero.
    pub open spec fn cached(self) -> (int, int) {
        match self.usage {
            Some(u) => (
                events::at_least_zero(events::or_zero(u.cache_read_input_tokens)),
                events::at_least_zero(events::or_zero(u.cache_write_input_tokens)),
            ),
            None => (0, 0),
        }
    }

    /// Whether the counts can be worked with.
    pub open spec fn wf(self) -> bool {
        self.usage is Some ==> self.usage.unwrap().in_range()
    }
}

/// Whether the counts in what was read, if there are any, can be worked with.
pub open spec fn counts_in_range(item: session::DecodedView) -> bool {
    item matches session::DecodedView::Event(events::KiroEventView::Metadata(Some(u)))
        ==> u.in_range()
}

/// A part of an answer.
#[derive(Debug)]
pub enum ContentPart {
    Thinking { thinking: String, signature: String },
    Text(String),
    ToolUse(ToolCall),
}

/// The view of a part of an answer.
pub enum PartView {
    Thinking { thinking: Seq<char>, signature: Seq<char> },
    Text(Seq<char>),
    ToolUse(CallView),
}

impl View for ContentPart {
    type V = PartView;

    open spec fn view(&self) -> PartView {
        match *self {
            ContentPart::Thinking { thinking, signature } => PartView::Thinking {
                thinking: thinking@,
                signature: signature@,
            },
            ContentPart::Text(s) => PartView::Text(s@),
            ContentPart::ToolUse(c) => PartView::ToolUse(c@),
        }
    }
}

pub open spec fn parts_view(v: Seq<ContentPart>) -> Seq<PartView> {
    v.map_values(|p: ContentPart| p@)
}

/// The text of an answer as a part, if there is any.
pub open spec fn text_part(s: Seq<char>) -> Seq<PartView> {
    if s.len() == 0 {
        Seq::empty()
    } else {
        seq![PartView::Text(s)]
    }
}

/// The text of an answer in parts: with its thinking set apart, where that is asked for.
pub open spec fn text_parts(s: Seq<char>, extract_thinking: bool) -> Seq<PartView> {
    if extract_thinking {
        let (thought, rest) = thinking::extracted(s);
        (match thought {
            Some(t) => seq![
                PartView::Thinking { thinking: t, signature: thinking::thinking_signature(t) },
            ],
            None => Seq::empty(),
        }) + text_part(rest)
    } else {
        text_part(s)
    }
}

/// All parts of an answer: its text, then its tool calls.
pub open spec fn content_of(a: AnswerView, extract_thinking: bool) -> Seq<PartView> {
    text_parts(a.text, extract_thinking) + a.calls.map_values(|c: CallView| PartView::ToolUse(c))
}

fn joined(a: &str, b: &str) -> (r: String)
    ensures
        r@ == a@ + ": "@ + b@,
{
    let mut s: String = a.to_owned();
    s.append(": ");
    s.append(b);
    s
}

fn input_of(pieces: &str) -> (r: String)
    ensures
        r@ == tool_input(pieces@),
{
    if pieces.is_empty() {
        return "{}".to_owned();
    }
    match outside::compact_json(pieces) {
        Some(s) => s,
        None => "{}".to_owned(),
    }
}

impl Answer {
    /// An answer at its beginning.
    pub fn new(tool_name_map: Vec<(String, String)>) -> (r: Self)
        ensures
            r@ == no_answer(text::pairs_view(tool_name_map@)),
            r.keys_ok(),
            r@.wf(),
    {
        let r = Answer {
            text: String::new(),
            tool_uses: Vec::new(),
            has_tool_use: false,
            stop_reason: "end_turn".to_owned(),
            context_input_tokens: None,
            token_usage: None,
            tool_json_buffers: Vec::new(),
            tool_name_map,
        };
        assert(r@.text =~= Seq::empty());
        assert(r@.calls =~= Seq::empty());
        assert(text::pairs_view(r.tool_json_buffers@) =~= Seq::empty());
        assert(r@.buffers =~= Map::empty());
        r
    }

    /// No tool call has its pieces in two places.
    pub open spec fn keys_ok(self) -> bool {
        text::keys_distinct(text::pairs_view(self.tool_json_buffers@))
    }

    fn tool_use(&mut self, e: &ToolUseEvent)
        requires
            old(self).keys_ok(),
        ensures
            final(self)@ == old(self)@.tool_use(e@),
            final(self).keys_ok(),
    {
        let ghost v = self@;
        let ghost before = text::pairs_view(self.tool_json_buffers@);
        self.has_tool_use = true;
        let mut all: String = match text::find_value(
            &self.tool_json_buffers,
            e.tool_use_id.as_str(),
        ) {
            Some(s) => s,
            None => String::new(),
        };
        assert(all@ =~= v.pieces(e@.id));
        all.append(e.input.as_str());
        let ghost pieces = all@;
        let kept: String = all.clone();
        text::put(&mut self.tool_json_buffers, e.tool_use_id.clone(), kept);
        proof {
            let after = text::pairs_view(self.tool_json_buffers@);
            assert(map_of(after) =~= map_of(before).insert(e@.id, pieces));
        }
        if e.stop {
            let name: String = match stream::name_of(&self.tool_name_map, e.name.as_str()) {
                Some(n) => n,
                None => e.name.clone(),
            };
            let call = ToolCall {
                id: e.tool_use_id.clone(),
                name,
                input: input_of(all.as_str()),
            };
            let ghost c = call@;
            let ghost calls = calls_view(self.tool_uses@);
            self.tool_uses.push(call);
            assert(calls_view(self.tool_uses@) =~= calls.push(c));
        }
    }

    /// Something that was read from the upstream body; see [`AnswerView::take_item`].
    /// Where there is no answer, this is what the client is told.
    pub fn take_item(&mut self, item: &Decoded) -> (r: Option<ErrorReply>)
        requires
            old(self).keys_ok(),
            old(self)@.wf(),
            counts_in_range(item@),
        ensures
            match old(self)@.take_item(item@) {
                Ok(v) => final(self)@ == v && r is None,
                Err(message) => final(self)@ == old(self)@ && r is Some && r.unwrap()@
                    == handlers::plain_reply(502, "api_error"@, message),
            },
            final(self).keys_ok(),
            final(self)@.wf(),
    {
        match item {
            Decoded::Event(event) => match event {
                Event::AssistantResponse(e) => {
                    self.text.append(e.content.as_str());
                    None
                },
                Event::ToolUse(e) => {
                    self.tool_use(e);
                    None
                },
                Event::ContextUsage(e) => {
                    self.context_input_tokens = Some(e.input_tokens);
                    if e.window_full {
                        self.stop_reason = "model_context_window_exceeded".to_owned();
                    }
                    None
                },
                Event::Metadata(e) => {
                    if let Some(u) = e.token_usage {
                        if u.has_counts() {
                            self.token_usage = Some(u);
                        }
                    }
                    None
                },
                Event::InvalidState(e) => {
                    let mut s: String = "Upstream reported invalid state: ".to_owned();
                    s.append(e.to_string().as_str());
                    Some(ErrorReply::new(502, "api_error", s.as_str()))
                },
                Event::Error { error_code, error_message } => {
                    let s: String = joined(error_code.as_str(), error_message.as_str());
                    Some(ErrorReply::new(502, "api_error", s.as_str()))
                },
                Event::Exception { exception_type, message } => {
                    if text::str_eq(exception_type.as_str(), "ContentLengthExceededException") {
                        self.stop_reason = "max_tokens".to_owned();
                        None
                    } else {
                        let s: String = joined(exception_type.as_str(), message.as_str());
                        Some(ErrorReply::new(502, "api_error", s.as_str()))
                    }
                },
                _ => None,
            },
            Decoded::Failure { fatal, message } => {
                if *fatal {
                    let mut s: String = "Upstream stream decode failed: ".to_owned();
                    s.append(message.as_str());
                    Some(ErrorReply::new(502, "api_error", s.as_str()))
                } else {
                    None
                }
            },
        }
    }

    /// The answer, complete.
    pub fn finish(self, extract_thinking: bool, input_estimate: i32) -> (r: CompleteMessage)
        requires
            self@.wf(),
        ensures
            parts_view(r.content@) == content_of(self@, extract_thinking),
            r.stop_reason@ == self@.final_stop_reason(),
            r.input_tokens == self@.input_tokens(input_estimate as int),
            stream::int_view(r.output_tokens) == self@.output_tokens(),
            (r.cache_read as int, r.cache_write as int) == self@.cached(),
    {
        let stop_reason: String = if self.has_tool_use && text::str_eq(
            self.stop_reason.as_str(),
            "end_turn",
        ) {
            "tool_use".to_owned()
        } else {
            self.stop_reason.clone()
        };
        let exact: Option<i32> = match &self.token_usage {
            Some(u) => u.anthropic_input_tokens(),
            None => None,
        };
        let input_tokens: i32 = match exact {
            Some(n) => n,
            None => match self.context_input_tokens {
                Some(n) => n,
                None => input_estimate,
            },
        };
        let output_tokens: Option<i32> = match &self.token_usage {
            Some(u) => u.anthropic_output_tokens(),
            None => None,
        };
        let mut cache_read: i64 = 0;
        let mut cache_write: i64 = 0;
        if let Some(u) = &self.token_usage {
            let read: i64 = u.cache_read_input_tokens.unwrap_or(0);
            let write: i64 = u.cache_write_input_tokens.unwrap_or(0);
            if read > 0 {
                cache_read = read;
            }
            if write > 0 {
                cache_write = write;
            }
        }
        let mut content: Vec<ContentPart> = text_content(self.text.as_str(), extract_thinking);
        append_calls(&mut content, self.tool_uses);
        CompleteMessage {
            content,
            stop_reason,
            input_tokens,
            output_tokens,
            cache_read,
            cache_write,
        }
    }
}

fn text_content(s: &str, extract_thinking: bool) -> (r: Vec<ContentPart>)
    ensures
        parts_view(r@) == text_parts(s@, extract_thinking),
{
    let mut content: Vec<ContentPart> = Vec::new();
    assert(parts_view(content@) =~= Seq::empty());
    if extract_thinking {
        let (thought, rest) = thinking::extract_thinking_from_complete_text(s);
        if let Some(t) = thought {
            let signature: String = thinking::compute_thinking_signature(t.as_str());
            content.push(ContentPart::Thinking { thinking: t, signature });
        }
        let ghost head = parts_view(content@);
        if !rest.as_str().is_empty() {
            let ghost p = PartView::Text(rest@);
            content.push(ContentPart::Text(rest));
            assert(parts_view(content@) =~= head.push(p));
        }
        assert(parts_view(content@) =~= text_parts(s@, extract_thinking));
    } else if !s.is_empty() {
        content.push(ContentPart::Text(s.to_owned()));
        assert(parts_view(content@) =~= seq![PartView::Text(s@)]);
    }
    content
}

fn append_calls(content: &mut Vec<ContentPart>, calls: Vec<ToolCall>)
    ensures
        parts_view(final(content)@) == parts_view(old(content)@) + calls_view(calls@).map_values(
            |c: CallView| PartView::ToolUse(c),
        ),
{
    let ghost head = parts_view(content@);
    let ghost all = calls_view(calls@).map_values(|c: CallView| PartView::ToolUse(c));
    let n: usize = calls.len();
    let mut i: usize = 0;
    assert(head + all.take(0) =~= head);
    while i < n
        invariant
            i <= n == calls@.len(),
            all == calls_view(calls@).map_values(|c: CallView| PartView::ToolUse(c)),
            parts_view(content@) == head + all.take(i as int),
        decreases n - i,
    {
        let c = &calls[i];
        let ghost before = parts_view(content@);
        content.push(
            ContentPart::ToolUse(
                ToolCall { id: c.id.clone(), name: c.name.clone(), input: c.input.clone() },
            ),
        );
        let ghost p = PartView::ToolUse(c@);
        assert(parts_view(content@) =~= before.push(p));
        assert(all[i as int] == p);
        assert(head + all.take(i + 1) =~= (head + all.take(i as int)).push(p));
        i = i + 1;
    }
    assert(all.take(i as int) =~= all);
}

/// A complete answer. Where the output tokens are not reported, they are yet to be
/// estimated.
#[derive(Debug)]
pub struct CompleteMessage {
    pub content: Vec<ContentPart>,
    pub stop_reason: String,
    pub input_tokens: i32,
    pub output_tokens: Option<i32>,
    /// The input tokens that were read from a cache.
    pub cache_read: i64,
    /// The input tokens that were written to a cache.
    pub cache_write: i64,
}

/// The JSON of a part.
pub open spec fn part_json(p: PartView) -> Seq<char> {
    match p {
        PartView::Thinking { thinking, signature } => "{\"signature\":"@ + outside::json_quoted(
            signature,
        ) + ",\"thinking\":"@ + outside::json_quoted(thinking) + ",\"type\":\"thinking\"}"@,
        PartView::Text(s) => "{\"text\":"@ + outside::json_quoted(s) + ",\"type\":\"text\"}"@,
        PartView::ToolUse(c) => "{\"id\":"@ + outside::json_quoted(c.id) + ",\"input\":"@ + c.input
            + ",\"name\":"@ + outside::json_quoted(c.name) + ",\"type\":\"tool_use\"}"@,
    }
}

/// The JSON of parts, with commas between them.
pub open spec fn parts_json(parts: Seq<PartView>) -> Seq<char>
    decreases parts.len(),
{
    if parts.len() == 0 {
        Seq::empty()
    } else if parts.len() == 1 {
        part_json(parts[0])
    } else {
        parts_json(parts.drop_last()) + ","@ + part_json(parts.last())
    }
}

/// The JSON of a complete answer.
pub open spec fn message_json(
    id: Seq<char>,
    model: Seq<char>,
    content: Seq<PartView>,
    stop_reason: Seq<char>,
    input_tokens: int,
    output_tokens: int,
) -> Seq<char> {
    "{\"content\":["@ + parts_json(content) + "],\"id\":"@ + outside::json_quoted(id)
        + ",\"model\":"@ + outside::json_quoted(model)
        + ",\"role\":\"assistant\",\"stop_reason\":"@ + outside::json_quoted(stop_reason)
        + ",\"stop_sequence\":null,\"type\":\"message\",\"usage\":{\"input_tokens\":"@
        + text::decimal(input_tokens) + ",\"output_tokens\":"@ + text::decimal(output_tokens)
        + "}}"@
}

fn push_part(s: &mut String, p: &ContentPart)
    ensures
        final(s)@ == old(s)@ + part_json(p@),
{
    let ghost head = s@;
    match p {
        ContentPart::Thinking { thinking, signature } => {
            s.append("{\"signature\":");
            s.append(outside::json_quote(signature.as_str()).as_str());
            s.append(",\"thinking\":");
            s.append(outside::json_quote(thinking.as_str()).as_str());
            s.append(",\"type\":\"thinking\"}");
        },
        ContentPart::Text(t) => {
            s.append("{\"text\":");
            s.append(outside::json_quote(t.as_str()).as_str());
            s.append(",\"type\":\"text\"}");
        },
        ContentPart::ToolUse(c) => {
            s.append("{\"id\":");
            s.append(outside::json_quote(c.id.as_str()).as_str());
            s.append(",\"input\":");
            s.append(c.input.as_str());
            s.append(",\"name\":");
            s.append(outside::json_quote(c.name.as_str()).as_str());
            s.append(",\"type\":\"tool_use\"}");
        },
    }
    assert(s@ =~= head + part_json(p@));
}

fn push_parts(s: &mut String, parts: &Vec<ContentPart>)
    ensures
        final(s)@ == old(s)@ + parts_json(parts_view(parts@)),
{
    let ghost head = s@;
    let ghost all = parts_view(parts@);
    let n: usize = parts.len();
    let mut i: usize = 0;
    assert(all.take(0) =~= Seq::empty());
    assert(head + parts_json(all.take(0)) =~= head);
    while i < n
        invariant
            i <= n == parts@.len(),
            all == parts_view(parts@),
            s@ == head + parts_json(all.take(i as int)),
        decreases n - i,
    {
        let ghost next = all.take(i + 1);
        assert(next.drop_last() =~= all.take(i as int));
        assert(next.last() == parts@[i as int]@);
        if i > 0 {
            s.append(",");
        }
        push_part(s, &parts[i]);
        assert(s@ =~= head + parts_json(next));
        i = i + 1;
    }
    assert(all.take(i as int) =~= all);
}

impl CompleteMessage {
    /// What is reported of the request: the counts that the client is told. The estimate
    /// counts where the output tokens are not reported.
    pub fn usage_report(&self, model: &str, credential_id: u64, output_estimate: i32) -> (r:
        UsageReport)
        ensures
            r@ == (stream_model::UsageView {
                model: model@,
                credential_id: stream::as_signed64(credential_id as int),
                input_tokens: self.input_tokens as int,
                output_tokens: match self.output_tokens {
                    Some(n) => n as int,
                    None => output_estimate as int,
                },
                cache_read: self.cache_read as int,
                cache_write: self.cache_write as int,
            }),
    {
        let output: i32 = match self.output_tokens {
            Some(n) => n,
            None => output_estimate,
        };
        UsageReport {
            model: model.to_owned(),
            credential_id: stream::to_signed64(credential_id),
            input_tokens: self.input_tokens as i64,
            output_tokens: output as i64,
            cache_read: self.cache_read,
            cache_write: self.cache_write,
        }
    }

    /// The JSON of the answer; see [`message_json`]. The estimate counts where the
    /// output tokens are not reported.
    pub fn to_json(&self, id: &str, model: &str, output_estimate: i32) -> (r: String)
        ensures
            r@ == message_json(
                id@,
                model@,
                parts_view(self.content@),
                self.stop_reason@,
                self.input_tokens as int,
                match self.output_tokens {
                    Some(n) => n as int,
                    None => output_estimate as int,
                },
            ),
    {
        let output: i32 = match self.output_tokens {
            Some(n) => n,
            None => output_estimate,
        };
        let mut s: String = "{\"content\":[".to_owned();
        push_parts(&mut s, &self.content);
        s.append("],\"id\":");
        s.append(outside::json_quote(id).as_str());
        s.append(",\"model\":");
        s.append(outside::json_quote(model).as_str());
        s.append(",\"role\":\"assistant\",\"stop_reason\":");
        s.append(outside::json_quote(self.stop_reason.as_str()).as_str());
        s.append(",\"stop_sequence\":null,\"type\":\"message\",\"usage\":{\"input_tokens\":");
        text::push_i64(&mut s, self.input_tokens as i64);
        s.append(",\"output_tokens\":");
        text::push_i64(&mut s, output as i64);
        s.append("}}");
        s
    }
}

/// An answer after all these items, or why there is none.
pub open spec fn answer_after(a: AnswerView, items: Seq<session::DecodedView>) -> Result<
    AnswerView,
    Seq<char>,
>
    decreases items.len(),
{
    if items.len() == 0 {
        Ok(a)
    } else {
        match answer_after(a, items.drop_last()) {
            Ok(b) => b.take_item(items.last()),
            Err(e) => Err(e),
        }
    }
}

pub open spec fn items_view(items: Seq<Decoded>) -> Seq<session::DecodedView> {
    items.map_values(|d: Decoded| d@)
}

proof fn lemma_answer_fails_early(a: AnswerView, items: Seq<session::DecodedView>, n: int)
    requires
        0 <= n <= items.len(),
        answer_after(a, items.take(n)) is Err,
    ensures
        answer_after(a, items) == answer_after(a, items.take(n)),
    decreases items.len(),
{
    if n == items.len() {
        assert(items.take(n) =~= items);
    } else {
        assert(items.drop_last().take(n) =~= items.take(n));
        lemma_answer_fails_early(a, items.drop_last(), n);
    }
}

/// The answer that an upstream body makes, given all that was read from it; or what the
/// client is told where there is none.
pub fn handle_non_stream_request(
    items: &Vec<Decoded>,
    tool_name_map: Vec<(String, String)>,
    extract_thinking: bool,
    input_estimate: i32,
) -> (r: Result<CompleteMessage, ErrorReply>)
    requires
        forall|i: int| 0 <= i < items@.len() ==> counts_in_range((#[trigger] items@[i])@),
    ensures
        match answer_after(no_answer(text::pairs_view(tool_name_map@)), items_view(items@)) {
            Ok(a) => {
                &&& r is Ok
                &&& parts_view(r->Ok_0.content@) == content_of(a, extract_thinking)
                &&& r->Ok_0.stop_reason@ == a.final_stop_reason()
                &&& r->Ok_0.input_tokens == a.input_tokens(input_estimate as int)
                &&& stream::int_view(r->Ok_0.output_tokens) == a.output_tokens()
                &&& (r->Ok_0.cache_read as int, r->Ok_0.cache_write as int) == a.cached()
            },
            Err(message) => r is Err && r->Err_0@ == handlers::plain_reply(
                502,
                "api_error"@,
                message,
            ),
        },
{
    let ghost first = no_answer(text::pairs_view(tool_name_map@));
    let ghost all = items_view(items@);
    let mut answer: Answer = Answer::new(tool_name_map);
    let n: usize = items.len();
    let mut i: usize = 0;
    assert(all.take(0) =~= Seq::empty());
    while i < n
        invariant
            i <= n == items@.len(),
            all == items_view(items@),
            first == no_answer(text::pairs_view(tool_name_map@)),
            forall|k: int| 0 <= k < items@.len() ==> counts_in_range((#[trigger] items@[k])@),
            answer_after(first, all.take(i as int)) == Ok::<AnswerView, Seq<char>>(answer@),
            answer.keys_ok(),
            answer@.wf(),
        decreases n - i,
    {
        let ghost next = all.take(i + 1);
        assert(next.drop_last() =~= all.take(i as int));
        assert(next.last() == items@[i as int]@);
        let failed: Option<ErrorReply> = answer.take_item(&items[i]);
        if let Some(reply) = failed {
            proof {
                lemma_answer_fails_early(first, all, i + 1);
            }
            return Err(reply);
        }
        i = i + 1;
    }
    assert(all.take(i as int) =~= all);
    Ok(answer.finish(extract_thinking, input_estimate))
}

/// All the text that the upstream service sent.
pub open spec fn text_sent(items: Seq<session::DecodedView>) -> Seq<char>
    decreases items.len(),
{
    if items.len() == 0 {
        Seq::empty()
    } else {
        text_sent(items.drop_last()) + match items.last() {
            session::DecodedView::Event(
                events::KiroEventView::AssistantResponse { content },
            ) => content,
            _ => Seq::empty(),
        }
    }
}

/// The tool calls that came to their end, in that order: for each its id and the name of
/// the tool as the client knows it.
pub open spec fn calls_ended(
    tool_names: Seq<(Seq<char>, Seq<char>)>,
    items: Seq<session::DecodedView>,
) -> Seq<(Seq<char>, Seq<char>)>
    decreases items.len(),
{
    if items.len() == 0 {
        Seq::empty()
    } else {
        let before = calls_ended(tool_names, items.drop_last());
        match items.last() {
            session::DecodedView::Event(events::KiroEventView::ToolUse(t)) => if t.stop {
                before.push((t.id, no_answer(tool_names).tool_name(t.name)))
            } else {
                before
            },
            _ => before,
        }
    }
}

/// An answer holds all the text that was sent and every tool call that came to its
/// end, in that order, and no other; a call that was cut off is left out.
pub proof fn law_answer_is_whole(
    tool_names: Seq<(Seq<char>, Seq<char>)>,
    items: Seq<session::DecodedView>,
)
    ensures
        match answer_after(no_answer(tool_names), items) {
            Ok(a) => {
                &&& a.text == text_sent(items)
                &&& a.calls.map_values(|c: CallView| (c.id, c.name)) == calls_ended(
                    tool_names,
                    items,
                )
                &&& a.tool_names == tool_names
            },
            Err(_) => true,
        },
    decreases items.len(),
{
    if items.len() == 0 {
        assert(no_answer(tool_names).calls.map_values(|c: CallView| (c.id, c.name))
            =~= Seq::<(Seq<char>, Seq<char>)>::empty());
    } else {
        law_answer_is_whole(tool_names, items.drop_last());
        if let Ok(a) = answer_after(no_answer(tool_names), items.drop_last()) {
            assert(a.text + Seq::empty() =~= a.text);
            if let Ok(b) = a.take_item(items.last()) {
                assert(b.calls.map_values(|c: CallView| (c.id, c.name)) =~= calls_ended(
                    tool_names,
                    items,
                ));
            }
        }
    }
}

/// The events among all that was read.
pub open spec fn events_in(items: Seq<session::DecodedView>) -> Seq<events::KiroEventView>
    decreases items.len(),
{
    if items.len() == 0 {
        Seq::empty()
    } else {
        match items.last() {
            session::DecodedView::Event(e) => events_in(items.drop_last()).push(e),
            _ => events_in(items.drop_last()),
        }
    }
}

/// Whether a tool call is complete and true to what was read: it is that of a last piece,
/// under the name by which the client knows the tool, and its input is all of its pieces up
/// to there, as JSON.
pub open spec fn true_call(
    c: CallView,
    tool_names: Seq<(Seq<char>, Seq<char>)>,
    ev: Seq<events::KiroEventView>,
    k: int,
) -> bool {
    &&& 0 <= k < ev.len()
    &&& ev[k] matches events::KiroEventView::ToolUse(t) && {
        let pieces = upstream::pieces_of(ev.take(k + 1), t.id);
        &&& t.stop
        &&& c.id == t.id
        &&& upstream::goes_by(tool_names, t.name, c.name)
        &&& pieces.len() > 0 && outside::json_compact(pieces) is Some ==> c.input
            == outside::json_compact(pieces).unwrap()
        &&& pieces.len() == 0 || outside::json_compact(pieces) is None ==> c.input == "{}"@
    }
}

/// The places of the last pieces of tool calls, in order.
pub open spec fn last_pieces(ev: Seq<events::KiroEventView>) -> Seq<int>
    decreases ev.len(),
{
    if ev.len() == 0 {
        Seq::empty()
    } else {
        match ev.last() {
            events::KiroEventView::ToolUse(t) if t.stop => last_pieces(ev.drop_last()).push(
                ev.len() - 1,
            ),
            _ => last_pieces(ev.drop_last()),
        }
    }
}

proof fn lemma_true_call_later(
    c: CallView,
    tool_names: Seq<(Seq<char>, Seq<char>)>,
    ev: Seq<events::KiroEventView>,
    e: events::KiroEventView,
    k: int,
)
    requires
        true_call(c, tool_names, ev, k),
    ensures
        true_call(c, tool_names, ev.push(e), k),
{
    assert(ev.push(e).take(k + 1) =~= ev.take(k + 1));
}

proof fn lemma_goes_by(tool_names: Seq<(Seq<char>, Seq<char>)>, name: Seq<char>)
    ensures
        upstream::goes_by(tool_names, name, no_answer(tool_names).tool_name(name)),
{
    text::lemma_search(
        stream_model::has_key(tool_names, name),
        0,
        tool_names.len() as int,
    );
    let p = stream_model::has_key(tool_names, name);
    match text::search(p, 0, tool_names.len() as int) {
        Some(j) => {
            assert(tool_names[j] == (name, tool_names[j].1));
            assert forall|i: int| 0 <= i < j implies (#[trigger] tool_names[i]).0 != name by {
                assert(!p(i));
            }
        },
        None => {
            assert forall|i: int| 0 <= i < tool_names.len() implies (#[trigger] tool_names[i]).0
                != name by {
                assert(!p(i));
            }
        },
    }
}

/// What an answer holds so far is what was read so far.
spec fn holds_all(
    a: AnswerView,
    tool_names: Seq<(Seq<char>, Seq<char>)>,
    ev: Seq<events::KiroEventView>,
) -> bool {
    &&& a.text == upstream::text_of(ev)
    &&& a.tool_names == tool_names
    &&& a.has_tool_use == upstream::calls_tools(ev)
    &&& a.stop_reason == match upstream::cut_short(ev) {
        Some(r) => r,
        None => "end_turn"@,
    }
    &&& a.context_input == upstream::context_in(ev)
    &&& a.usage == upstream::counts_in(ev)
    &&& forall|id: Seq<char>| #[trigger] a.pieces(id) == upstream::pieces_of(ev, id)
    &&& a.calls.len() == last_pieces(ev).len()
    &&& forall|i: int|
        0 <= i < a.calls.len() ==> true_call(
            #[trigger] a.calls[i],
            tool_names,
            ev,
            last_pieces(ev)[i],
        )
}

#[verifier::rlimit(40)]
proof fn lemma_holds_all_step(
    a: AnswerView,
    tool_names: Seq<(Seq<char>, Seq<char>)>,
    ev: Seq<events::KiroEventView>,
    e: events::KiroEventView,
)
    requires
        holds_all(a, tool_names, ev),
        a.take_event(e) is Ok,
    ensures
        holds_all(a.take_event(e)->Ok_0, tool_names, ev.push(e)),
{
    let b = a.take_event(e)->Ok_0;
    let n = ev.push(e);
    assert(n.drop_last() =~= ev);
    assert(n.last() == e);
    upstream::lemma_ended_step(n, Seq::empty());
    assert(a.text + Seq::<char>::empty() =~= a.text);
    assert forall|i: int| 0 <= i < a.calls.len() implies true_call(
        #[trigger] a.calls[i],
        tool_names,
        n,
        last_pieces(ev)[i],
    ) by {
        lemma_true_call_later(a.calls[i], tool_names, ev, e, last_pieces(ev)[i]);
    }
    if let events::KiroEventView::ToolUse(t) = e {
        lemma_goes_by(tool_names, t.name);
        assert(a.pieces(t.id) == upstream::pieces_of(ev, t.id));
        assert(n.take(n.len() as int) =~= n);
        assert forall|id: Seq<char>| #[trigger] b.pieces(id) == upstream::pieces_of(n, id) by {
            assert(a.pieces(id) == upstream::pieces_of(ev, id));
        }
        if t.stop {
            assert(b.calls.last().name == no_answer(tool_names).tool_name(t.name));
            assert(true_call(b.calls.last(), tool_names, n, n.len() - 1));
        }
    } else {
        assert forall|id: Seq<char>| #[trigger] b.pieces(id) == upstream::pieces_of(n, id) by {
            assert(a.pieces(id) == upstream::pieces_of(ev, id));
        }
    }
}

proof fn lemma_holds_all(
    tool_names: Seq<(Seq<char>, Seq<char>)>,
    items: Seq<session::DecodedView>,
)
    requires
        answer_after(no_answer(tool_names), items) is Ok,
    ensures
        holds_all(
            answer_after(no_answer(tool_names), items)->Ok_0,
            tool_names,
            events_in(items),
        ),
    decreases items.len(),
{
    if items.len() > 0 {
        lemma_holds_all(tool_names, items.drop_last());
        let a = answer_after(no_answer(tool_names), items.drop_last())->Ok_0;
        if let session::DecodedView::Event(e) = items.last() {
            lemma_holds_all_step(a, tool_names, events_in(items.drop_last()), e);
        }
    }
}

/// All the text in the parts of an answer.
pub open spec fn text_in_parts(parts: Seq<PartView>) -> Seq<char>
    decreases parts.len(),
{
    if parts.len() == 0 {
        Seq::empty()
    } else {
        text_in_parts(parts.drop_last()) + match parts.last() {
            PartView::Text(s) => s,
            _ => Seq::empty(),
        }
    }
}

/// All the thinking in the parts of an answer.
pub open spec fn thought_in_parts(parts: Seq<PartView>) -> Seq<char>
    decreases parts.len(),
{
    if parts.len() == 0 {
        Seq::empty()
    } else {
        thought_in_parts(parts.drop_last()) + match parts.last() {
            PartView::Thinking { thinking, .. } => thinking,
            _ => Seq::empty(),
        }
    }
}

/// The tool calls in the parts of an answer, in order.
pub open spec fn calls_in_parts(parts: Seq<PartView>) -> Seq<CallView>
    decreases parts.len(),
{
    if parts.len() == 0 {
        Seq::empty()
    } else {
        match parts.last() {
            PartView::ToolUse(c) => calls_in_parts(parts.drop_last()).push(c),
            _ => calls_in_parts(parts.drop_last()),
        }
    }
}

/// The place of a part: thinking comes first, then text, then tool calls.
pub open spec fn rank(p: PartView) -> int {
    match p {
        PartView::Thinking { .. } => 0,
        PartView::Text(_) => 1,
        PartView::ToolUse(_) => 2,
    }
}

proof fn lemma_parts(head: Seq<PartView>, calls: Seq<CallView>)
    ensures
        ({
            let all = head + calls.map_values(|c: CallView| PartView::ToolUse(c));
            &&& text_in_parts(all) == text_in_parts(head)
            &&& thought_in_parts(all) == thought_in_parts(head)
            &&& calls_in_parts(all) == calls_in_parts(head) + calls
        }),
    decreases calls.len(),
{
    let f = |c: CallView| PartView::ToolUse(c);
    let all = head + calls.map_values(f);
    if calls.len() == 0 {
        assert(all =~= head);
        assert(calls_in_parts(head) + calls =~= calls_in_parts(head));
    } else {
        lemma_parts(head, calls.drop_last());
        let rest = head + calls.drop_last().map_values(f);
        assert(all.drop_last() =~= rest);
        assert(all.last() == PartView::ToolUse(calls.last()));
        assert(text_in_parts(rest) + Seq::<char>::empty() =~= text_in_parts(rest));
        assert(thought_in_parts(rest) + Seq::<char>::empty() =~= thought_in_parts(rest));
        assert(calls_in_parts(all) =~= calls_in_parts(head) + calls);
    }
}

/// A complete answer accounts for everything that was read, and adds nothing. Its text is all
/// the text that was sent, or, where thinking is set apart, what remains of that text once its
/// thinking is taken out, whether there was any or not; its thinking is what was taken out,
/// with the signature of it; its tool calls are those that came to their end, in that order,
/// each true to its pieces. Thinking comes before text and text before tool calls, each of
/// the first two in one part, and no part is empty.
pub proof fn law_answer_accounts_for_everything(
    tool_names: Seq<(Seq<char>, Seq<char>)>,
    items: Seq<session::DecodedView>,
    extract_thinking: bool,
)
    requires
        answer_after(no_answer(tool_names), items) is Ok,
    ensures
        ({
            let ev = events_in(items);
            let parts = content_of(
                answer_after(no_answer(tool_names), items)->Ok_0,
                extract_thinking,
            );
            let s = upstream::text_of(ev);
            &&& !extract_thinking ==> text_in_parts(parts) == s && thought_in_parts(parts).len()
                == 0
            &&& extract_thinking ==> {
                let (thought, rest) = thinking::extracted(s);
                &&& text_in_parts(parts) == rest
                &&& thought_in_parts(parts) == match thought {
                    Some(t) => t,
                    None => Seq::empty(),
                }
            }
            &&& calls_in_parts(parts).len() == last_pieces(ev).len()
            &&& forall|i: int|
                0 <= i < calls_in_parts(parts).len() ==> true_call(
                    #[trigger] calls_in_parts(parts)[i],
                    tool_names,
                    ev,
                    last_pieces(ev)[i],
                )
            &&& forall|i: int, j: int|
                0 <= i < j < parts.len() ==> {
                    &&& rank(#[trigger] parts[i]) <= rank(#[trigger] parts[j])
                    &&& rank(parts[i]) == rank(parts[j]) ==> parts[i] is ToolUse
                }
            &&& forall|i: int|
                0 <= i < parts.len() ==> match #[trigger] parts[i] {
                    PartView::Thinking { thinking: t, signature } => t.len() > 0 && signature
                        == thinking::thinking_signature(t),
                    PartView::Text(t) => t.len() > 0,
                    PartView::ToolUse(_) => true,
                }
        }),
{
    lemma_holds_all(tool_names, items);
    let a = answer_after(no_answer(tool_names), items)->Ok_0;
    let head = text_parts(a.text, extract_thinking);
    let parts = content_of(a, extract_thinking);
    lemma_parts(head, a.calls);
    lemma_head(a.text, extract_thinking);
    assert(calls_in_parts(head) =~= Seq::empty());
    assert(calls_in_parts(parts) =~= a.calls);
}

proof fn lemma_head(s: Seq<char>, extract_thinking: bool)
    ensures
        ({
            let head = text_parts(s, extract_thinking);
            let (thought, rest) = if extract_thinking {
                thinking::extracted(s)
            } else {
                (None, s)
            };
            &&& head.len() <= 2
            &&& head.len() == 2 ==> head[0] is Thinking && head[1] is Text
            &&& head.len() == 1 ==> head[0] is Thinking || head[0] is Text
            &&& text_in_parts(head) == rest
            &&& thought_in_parts(head) == match thought {
                Some(t) => t,
                None => Seq::empty(),
            }
            &&& calls_in_parts(head) == Seq::<CallView>::empty()
            &&& forall|i: int|
                0 <= i < head.len() ==> match #[trigger] head[i] {
                    PartView::Thinking { thinking: t, signature } => t.len() > 0 && signature
                        == thinking::thinking_signature(t),
                    PartView::Text(t) => t.len() > 0,
                    PartView::ToolUse(_) => true,
                }
        }),
{
    reveal_with_fuel(text_in_parts, 3);
    reveal_with_fuel(thought_in_parts, 3);
    reveal_with_fuel(calls_in_parts, 3);
    let head = text_parts(s, extract_thinking);
    let (thought, rest) = if extract_thinking {
        thinking::extracted(s)
    } else {
        (None, s)
    };
    let none = Seq::<char>::empty();
    if rest.len() == 0 {
        assert(rest =~= none);
    }
    assert(none + rest =~= rest);
    assert(none + none =~= none);
    assert(none + none + rest =~= rest);
    if let Some(t) = thought {
        assert(none + t =~= t);
        assert(none + t + none =~= t);
        let first = PartView::Thinking { thinking: t, signature: thinking::thinking_signature(t) };
        if rest.len() == 0 {
            assert(head =~= seq![first]);
            assert(head.drop_last() =~= Seq::empty());
        } else {
            assert(head =~= seq![first, PartView::Text(rest)]);
            assert(head.drop_last() =~= seq![first]);
            assert(seq![first].drop_last() =~= Seq::<PartView>::empty());
        }
    } else {
        if rest.len() == 0 {
            assert(head =~= Seq::empty());
        } else {
            assert(head =~= seq![PartView::Text(rest)]);
            assert(head.drop_last() =~= Seq::empty());
        }
    }
}

/// Why a complete answer ends and what it is counted at follows from what was read: the stop
/// reason, the input tokens, the output tokens where they are reported.
pub proof fn law_answer_is_counted(
    tool_names: Seq<(Seq<char>, Seq<char>)>,
    items: Seq<session::DecodedView>,
    estimate: int,
)
    requires
        answer_after(no_answer(tool_names), items) is Ok,
    ensures
        ({
            let ev = events_in(items);
            let a = answer_after(no_answer(tool_names), items)->Ok_0;
            &&& a.final_stop_reason() == upstream::stop_reason(ev)
            &&& a.input_tokens(estimate) == upstream::input_tokens(ev, estimate)
            &&& a.output_tokens() == upstream::output_tokens(ev)
            &&& match upstream::counts_in(ev) {
                Some(u) => {
                    &&& a.cached().0 == if u.cache_read_input_tokens is Some
                        && u.cache_read_input_tokens.unwrap() > 0 {
                        u.cache_read_input_tokens.unwrap() as int
                    } else {
                        0
                    }
                    &&& a.cached().1 == if u.cache_write_input_tokens is Some
                        && u.cache_write_input_tokens.unwrap() > 0 {
                        u.cache_write_input_tokens.unwrap() as int
                    } else {
                        0
                    }
                },
                None => a.cached() == (0int, 0int),
            }
        }),
{
    lemma_holds_all(tool_names, items);
    lemma_cut_short(events_in(items));
    reveal_strlit("end_turn");
    reveal_strlit("max_tokens");
    reveal_strlit("model_context_window_exceeded");
    assert("end_turn"@.len() != "max_tokens"@.len());
    assert("end_turn"@.len() != "model_context_window_exceeded"@.len());
}

proof fn lemma_cut_short(ev: Seq<events::KiroEventView>)
    ensures
        match upstream::cut_short(ev) {
            Some(r) => r == "max_tokens"@ || r == "model_context_window_exceeded"@,
            None => true,
        },
    decreases ev.len(),
{
    if ev.len() > 0 {
        lemma_cut_short(ev.drop_last());
    }
}

/// What a client is told of something that was read and is a fault.
pub open spec fn fault_of_item(item: session::DecodedView) -> Option<Seq<char>> {
    match item {
        session::DecodedView::Event(e) => upstream::fault_in(e),
        session::DecodedView::Failure { fatal: true, message } => Some(
            "Upstream stream decode failed: "@ + message,
        ),
        _ => None,
    }
}

/// There is an answer exactly where nothing that was read is a fault, and else the client is
/// told of the first that is.
pub proof fn law_first_fault_is_told(
    tool_names: Seq<(Seq<char>, Seq<char>)>,
    items: Seq<session::DecodedView>,
)
    ensures
        answer_after(no_answer(tool_names), items) is Ok <==> forall|k: int|
            0 <= k < items.len() ==> fault_of_item(#[trigger] items[k]) is None,
        forall|k: int|
            0 <= k < items.len() && fault_of_item(#[trigger] items[k]) is Some && (forall|j: int|
                0 <= j < k ==> fault_of_item(#[trigger] items[j]) is None) ==> answer_after(
                no_answer(tool_names),
                items,
            ) == Err::<AnswerView, Seq<char>>(fault_of_item(items[k]).unwrap()),
    decreases items.len(),
{
    if items.len() > 0 {
        let before = items.drop_last();
        law_first_fault_is_told(tool_names, before);
        let x = items.last();
        assert(forall|k: int| 0 <= k < before.len() ==> before[k] == #[trigger] items[k]);
        let first = answer_after(no_answer(tool_names), before);
        if let Ok(a) = first {
            lemma_fault_text(a, x);
        }
        assert forall|k: int|
            0 <= k < items.len() && fault_of_item(#[trigger] items[k]) is Some && (forall|j: int|
                0 <= j < k ==> fault_of_item(#[trigger] items[j]) is None) implies answer_after(
            no_answer(tool_names),
            items,
        ) == Err::<AnswerView, Seq<char>>(fault_of_item(items[k]).unwrap()) by {
            if k < before.len() {
                assert(before[k] == items[k]);
            } else {
                assert forall|j: int| 0 <= j < before.len() implies fault_of_item(
                    #[trigger] before[j],
                ) is None by {
                    assert(before[j] == items[j]);
                }
            }
        }
        if first is Ok && fault_of_item(x) is None {
            assert forall|k: int| 0 <= k < items.len() implies fault_of_item(
                #[trigger] items[k],
            ) is None by {
                if k < before.len() {
                    assert(before[k] == items[k]);
                }
            }
        }
        if first is Err {
            let k = choose|k: int|
                0 <= k < before.len() && fault_of_item(#[trigger] before[k]) is Some;
            assert(fault_of_item(items[k]) is Some);
        }
        assert(items[items.len() - 1] == x);
    }
}

proof fn lemma_fault_text(a: AnswerView, item: session::DecodedView)
    ensures
        match fault_of_item(item) {
            Some(s) => a.take_item(item) == Err::<AnswerView, Seq<char>>(s),
            None => a.take_item(item) is Ok,
        },
{
    if let session::DecodedView::Event(
        events::KiroEventView::InvalidState { reason, message },
    ) = item {
        let head = "Upstream reported invalid state: "@;
        if message.len() == 0 {
            assert(head + reason + Seq::<char>::empty() =~= head + reason);
        } else {
            assert(head + reason + (": "@ + message) =~= head + (reason + ": "@ + message));
        }
    }
}

/// The JSON of a part tells what it holds, each under its name, and its kind.
pub proof fn law_part_tells(p: PartView)
    ensures
        match p {
            PartView::Thinking { thinking, signature } => {
                &&& text::has_text(part_json(p), "\"signature\":"@ + outside::json_quoted(signature))
                &&& text::has_text(part_json(p), "\"thinking\":"@ + outside::json_quoted(thinking))
                &&& text::has_text(part_json(p), "\"type\":\"thinking\"}"@)
            },
            PartView::Text(s) => {
                &&& text::has_text(part_json(p), "\"text\":"@ + outside::json_quoted(s))
                &&& text::has_text(part_json(p), "\"type\":\"text\"}"@)
            },
            PartView::ToolUse(c) => {
                &&& text::has_text(part_json(p), "\"id\":"@ + outside::json_quoted(c.id))
                &&& text::has_text(part_json(p), "\"input\":"@ + c.input)
                &&& text::has_text(part_json(p), "\"name\":"@ + outside::json_quoted(c.name))
                &&& text::has_text(part_json(p), "\"type\":\"tool_use\"}"@)
            },
        },
{
    match p {
        PartView::Thinking { thinking, signature } => {
            reveal_strlit("{\"signature\":");
            reveal_strlit(",\"thinking\":");
            reveal_strlit(",\"type\":\"thinking\"}");
            reveal_strlit("\"signature\":");
            reveal_strlit("\"thinking\":");
            reveal_strlit("\"type\":\"thinking\"}");
            let x0 = "{\"signature\":"@;
            let x1 = outside::json_quoted(signature);
            let x2 = ",\"thinking\":"@;
            let x3 = outside::json_quoted(thinking);
            let x4 = ",\"type\":\"thinking\"}"@;
            let s0 = x0;
            let s1 = s0 + x1;
            let s2 = s1 + x2;
            let s3 = s2 + x3;
            let s4 = s3 + x4;
            let c0 = "\"signature\":"@ + x1;
            let h0 = s0.take(s0.len() - 12);
            assert(s1 =~= h0 + c0);
            text::lemma_in_itself(c0);
            text::lemma_in_whole(h0, c0, c0);
            text::lemma_in_whole(s1, x2, c0);
            text::lemma_in_whole(s2, x3, c0);
            text::lemma_in_whole(s3, x4, c0);
            let c1 = "\"thinking\":"@ + x3;
            let h1 = s2.take(s2.len() - 11);
            assert(s3 =~= h1 + c1);
            text::lemma_in_itself(c1);
            text::lemma_in_whole(h1, c1, c1);
            text::lemma_in_whole(s3, x4, c1);
            assert(x4.subrange(1, 19) =~= "\"type\":\"thinking\"}"@);
            assert(text::occurs_at(x4, "\"type\":\"thinking\"}"@, 1));
            text::lemma_in_whole(s3, x4, "\"type\":\"thinking\"}"@);
            assert(s4 == part_json(p));
        },
        PartView::Text(s) => {
            reveal_strlit("{\"text\":");
            reveal_strlit(",\"type\":\"text\"}");
            reveal_strlit("\"text\":");
            reveal_strlit("\"type\":\"text\"}");
            let x0 = "{\"text\":"@;
            let x1 = outside::json_quoted(s);
            let x2 = ",\"type\":\"text\"}"@;
            let s0 = x0;
            let s1 = s0 + x1;
            let s2 = s1 + x2;
            let c0 = "\"text\":"@ + x1;
            let h0 = s0.take(s0.len() - 7);
            assert(s1 =~= h0 + c0);
            text::lemma_in_itself(c0);
            text::lemma_in_whole(h0, c0, c0);
            text::lemma_in_whole(s1, x2, c0);
            assert(x2.subrange(1, 15) =~= "\"type\":\"text\"}"@);
            assert(text::occurs_at(x2, "\"type\":\"text\"}"@, 1));
            text::lemma_in_whole(s1, x2, "\"type\":\"text\"}"@);
            assert(s2 == part_json(p));
        },
        PartView::ToolUse(c) => {
            reveal_strlit("{\"id\":");
            reveal_strlit(",\"input\":");
            reveal_strlit(",\"name\":");
            reveal_strlit(",\"type\":\"tool_use\"}");
            reveal_strlit("\"id\":");
            reveal_strlit("\"input\":");
            reveal_strlit("\"name\":");
            reveal_strlit("\"type\":\"tool_use\"}");
            let x0 = "{\"id\":"@;
            let x1 = outside::json_quoted(c.id);
            let x2 = ",\"input\":"@;
            let x3 = c.input;
            let x4 = ",\"name\":"@;
            let x5 = outside::json_quoted(c.name);
            let x6 = ",\"type\":\"tool_use\"}"@;
            let s0 = x0;
            let s1 = s0 + x1;
            let s2 = s1 + x2;
            let s3 = s2 + x3;
            let s4 = s3 + x4;
            let s5 = s4 + x5;
            let s6 = s5 + x6;
            let c0 = "\"id\":"@ + x1;
            let h0 = s0.take(s0.len() - 5);
            assert(s1 =~= h0 + c0);
            text::lemma_in_itself(c0);
            text::lemma_in_whole(h0, c0, c0);
            text::lemma_in_whole(s1, x2, c0);
            text::lemma_in_whole(s2, x3, c0);
            text::lemma_in_whole(s3, x4, c0);
            text::lemma_in_whole(s4, x5, c0);
            text::lemma_in_whole(s5, x6, c0);
            let c1 = "\"input\":"@ + x3;
            let h1 = s2.take(s2.len() - 8);
            assert(s3 =~= h1 + c1);
            text::lemma_in_itself(c1);
            text::lemma_in_whole(h1, c1, c1);
            text::lemma_in_whole(s3, x4, c1);
            text::lemma_in_whole(s4, x5, c1);
            text::lemma_in_whole(s5, x6, c1);
            let c2 = "\"name\":"@ + x5;
            let h2 = s4.take(s4.len() - 7);
            assert(s5 =~= h2 + c2);
            text::lemma_in_itself(c2);
            text::lemma_in_whole(h2, c2, c2);
            text::lemma_in_whole(s5, x6, c2);
            assert(x6.subrange(1, 19) =~= "\"type\":\"tool_use\"}"@);
            assert(text::occurs_at(x6, "\"type\":\"tool_use\"}"@, 1));
            text::lemma_in_whole(s5, x6, "\"type\":\"tool_use\"}"@);
            assert(s6 == part_json(p));
        },
    }
}

/// The JSON of an answer holds the JSON of each of its parts, in order, with commas between.
pub proof fn law_parts_are_listed(parts: Seq<PartView>, p: PartView)
    ensures
        parts_json(Seq::empty()) == Seq::<char>::empty(),
        parts_json(seq![p]) == part_json(p),
        parts.len() > 0 ==> parts_json(parts.push(p)) == parts_json(parts) + ","@ + part_json(p),
{
    assert(parts.push(p).drop_last() =~= parts);
}

/// The JSON of an answer tells its content, its id, its model, why it ended and the tokens, each
/// under its name.
#[verifier::rlimit(40)]
pub proof fn law_answer_tells(
    id: Seq<char>,
    model: Seq<char>,
    content: Seq<PartView>,
    stop_reason: Seq<char>,
    input_tokens: int,
    output_tokens: int,
)
    ensures
        ({
            let json = message_json(
                id,
                model,
                content,
                stop_reason,
                input_tokens,
                output_tokens,
            );
            &&& text::has_text(json, "\"content\":["@ + parts_json(content))
            &&& text::has_text(json, "\"id\":"@ + outside::json_quoted(id))
            &&& text::has_text(json, "\"model\":"@ + outside::json_quoted(model))
            &&& text::has_text(json, "\"stop_reason\":"@ + outside::json_quoted(stop_reason))
            &&& text::has_text(json, "\"input_tokens\":"@ + text::decimal(input_tokens))
            &&& text::has_text(json, "\"output_tokens\":"@ + text::decimal(output_tokens))
        }),
{
    let x0 = "{\"content\":["@;
    let x1 = parts_json(content);
    let x2 = "],\"id\":"@;
    let x3 = outside::json_quoted(id);
    let x4 = ",\"model\":"@;
    let x5 = outside::json_quoted(model);
    let x6 = ",\"role\":\"assistant\",\"stop_reason\":"@;
    let x7 = outside::json_quoted(stop_reason);
    let x8 = ",\"stop_sequence\":null,\"type\":\"message\",\"usage\":{\"input_tokens\":"@;
    let x9 = text::decimal(input_tokens);
    let x10 = ",\"output_tokens\":"@;
    let x11 = text::decimal(output_tokens);
    let x12 = "}}"@;
    let n0 = "\"content\":["@;
    assert(text::ends_in(x0, n0)) by {
        reveal_strlit("{\"content\":[");
        reveal_strlit("\"content\":[");
        assert(x0.skip(1) =~= n0);
    }
    let n1 = "\"id\":"@;
    assert(text::ends_in(x2, n1)) by {
        reveal_strlit("],\"id\":");
        reveal_strlit("\"id\":");
        assert(x2.skip(2) =~= n1);
    }
    let n2 = "\"model\":"@;
    assert(text::ends_in(x4, n2)) by {
        reveal_strlit(",\"model\":");
        reveal_strlit("\"model\":");
        assert(x4.skip(1) =~= n2);
    }
    let n3 = "\"stop_reason\":"@;
    assert(text::ends_in(x6, n3)) by {
        reveal_strlit(",\"role\":\"assistant\",\"stop_reason\":");
        reveal_strlit("\"stop_reason\":");
        assert(x6.skip(20) =~= n3);
    }
    let n4 = "\"input_tokens\":"@;
    assert(text::ends_in(x8, n4)) by {
        reveal_strlit(",\"stop_sequence\":null,\"type\":\"message\",\"usage\":{\"input_tokens\":");
        reveal_strlit("\"input_tokens\":");
        assert(x8.skip(48) =~= n4);
    }
    let n5 = "\"output_tokens\":"@;
    assert(text::ends_in(x10, n5)) by {
        reveal_strlit(",\"output_tokens\":");
        reveal_strlit("\"output_tokens\":");
        assert(x10.skip(1) =~= n5);
    }
    let s0 = x0 + x1;
    text::lemma_named(Seq::empty(), x0, n0, x1);
    let s1 = s0 + x2 + x3;
    text::lemma_named(s0, x2, n1, x3);
    text::lemma_in_whole(s0, x2, n0 + x1);
    text::lemma_in_whole(s0 + x2, x3, n0 + x1);
    let s2 = s1 + x4 + x5;
    text::lemma_named(s1, x4, n2, x5);
    text::lemma_in_whole(s1, x4, n0 + x1);
    text::lemma_in_whole(s1 + x4, x5, n0 + x1);
    text::lemma_in_whole(s1, x4, n1 + x3);
    text::lemma_in_whole(s1 + x4, x5, n1 + x3);
    let s3 = s2 + x6 + x7;
    text::lemma_named(s2, x6, n3, x7);
    text::lemma_in_whole(s2, x6, n0 + x1);
    text::lemma_in_whole(s2 + x6, x7, n0 + x1);
    text::lemma_in_whole(s2, x6, n1 + x3);
    text::lemma_in_whole(s2 + x6, x7, n1 + x3);
    text::lemma_in_whole(s2, x6, n2 + x5);
    text::lemma_in_whole(s2 + x6, x7, n2 + x5);
    let s4 = s3 + x8 + x9;
    text::lemma_named(s3, x8, n4, x9);
    text::lemma_in_whole(s3, x8, n0 + x1);
    text::lemma_in_whole(s3 + x8, x9, n0 + x1);
    text::lemma_in_whole(s3, x8, n1 + x3);
    text::lemma_in_whole(s3 + x8, x9, n1 + x3);
    text::lemma_in_whole(s3, x8, n2 + x5);
    text::lemma_in_whole(s3 + x8, x9, n2 + x5);
    text::lemma_in_whole(s3, x8, n3 + x7);
    text::lemma_in_whole(s3 + x8, x9, n3 + x7);
    let s5 = s4 + x10 + x11;
    text::lemma_named(s4, x10, n5, x11);
    text::lemma_in_whole(s4, x10, n0 + x1);
    text::lemma_in_whole(s4 + x10, x11, n0 + x1);
    text::lemma_in_whole(s4, x10, n1 + x3);
    text::lemma_in_whole(s4 + x10, x11, n1 + x3);
    text::lemma_in_whole(s4, x10, n2 + x5);
    text::lemma_in_whole(s4 + x10, x11, n2 + x5);
    text::lemma_in_whole(s4, x10, n3 + x7);
    text::lemma_in_whole(s4 + x10, x11, n3 + x7);
    text::lemma_in_whole(s4, x10, n4 + x9);
    text::lemma_in_whole(s4 + x10, x11, n4 + x9);
    text::lemma_in_whole(s5, x12, n0 + x1);
    text::lemma_in_whole(s5, x12, n1 + x3);
    text::lemma_in_whole(s5, x12, n2 + x5);
    text::lemma_in_whole(s5, x12, n3 + x7);
    text::lemma_in_whole(s5, x12, n4 + x9);
    text::lemma_in_whole(s5, x12, n5 + x11);
    assert(s5 + x12 == message_json(
        id,
        model,
        content,
        stop_reason,
        input_tokens,
        output_tokens,
    ));
}

/// A part that holds thinking is signed with the digest of that thinking.
pub proof fn law_thinking_part_is_signed(a: AnswerView, extract_thinking: bool, k: int)
    requires
        0 <= k < content_of(a, extract_thinking).len(),
        content_of(a, extract_thinking)[k] is Thinking,
    ensures
        content_of(a, extract_thinking)[k]->signature == thinking::thinking_signature(
            content_of(a, extract_thinking)[k]->thinking,
        ),
{
}

/// The input of a tool call is its pieces as JSON, if they are JSON, and an empty object if they
/// are not or if there are none.
pub proof fn law_tool_input(pieces: Seq<char>)
    ensures
        pieces.len() > 0 && outside::json_compact(pieces) is Some ==> Some(tool_input(pieces))
            == outside::json_compact(pieces),
        pieces.len() == 0 || outside::json_compact(pieces) is None ==> tool_input(pieces) == "{}"@,
{
}

} // verus!
