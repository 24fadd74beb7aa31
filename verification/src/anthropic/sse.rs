//! Server-sent events: their payloads, the JSON text of a payload, an event on the wire.

use vstd::prelude::*;
use vstd::string::*;
use crate::outside;
use crate::text;

verus! {

/// A plain member of a JSON object.
#[derive(Debug, Clone)]
pub enum Scalar {
    Null,
    Bool(bool),
    Int(i64),
    Text(String),
}

/// What a content block is when it starts.
#[derive(Debug, Clone)]
pub enum ContentBlock {
    Text,
    Thinking,
    ToolUse { id: String, name: String },
}

/// An addition to a content block.
#[derive(Debug, Clone)]
pub enum Delta {
    Text(String),
    Thinking(String),
    Signature(String),
    InputJson(String),
}

/// The payload of an event.
#[derive(Debug, Clone)]
pub enum SseData {
    /// An object with plain members, as a caller gives it.
    Object(Vec<(String, Scalar)>),
    MessageStart { id: String, model: String, input_tokens: i32 },
    BlockStart { index: i32, block: ContentBlock },
    BlockDelta { index: i32, delta: Delta },
    BlockStop { index: i32 },
    MessageDelta { stop_reason: String, input_tokens: i32, output_tokens: i32 },
    MessageStop,
    Error { message: String },
}

/// A server-sent event.
#[derive(Debug, Clone)]
pub struct SseEvent {
    pub event: String,
    pub data: SseData,
}

/// The view of a plain member.
pub enum ScalarView {
    Null,
    Bool(bool),
    Int(int),
    Text(Seq<char>),
}

/// The view of a content block.
pub enum ContentBlockView {
    Text,
    Thinking,
    ToolUse { id: Seq<char>, name: Seq<char> },
}

/// The view of an addition to a content block.
pub enum DeltaView {
    Text(Seq<char>),
    Thinking(Seq<char>),
    Signature(Seq<char>),
    InputJson(Seq<char>),
}

/// The view of a payload.
pub enum DataView {
    Object(Seq<(Seq<char>, ScalarView)>),
    MessageStart { id: Seq<char>, model: Seq<char>, input_tokens: int },
    BlockStart { index: int, block: ContentBlockView },
    BlockDelta { index: int, delta: DeltaView },
    BlockStop { index: int },
    MessageDelta { stop_reason: Seq<char>, input_tokens: int, output_tokens: int },
    MessageStop,
    Error { message: Seq<char> },
}

/// The view of an event.
pub struct EventView {
    pub event: Seq<char>,
    pub data: DataView,
}

impl View for Scalar {
    type V = ScalarView;

    open spec fn view(&self) -> ScalarView {
        match *self {
            Scalar::Null => ScalarView::Null,
            Scalar::Bool(b) => ScalarView::Bool(b),
            Scalar::Int(n) => ScalarView::Int(n as int),
            Scalar::Text(s) => ScalarView::Text(s@),
        }
    }
}

impl View for ContentBlock {
    type V = ContentBlockView;

    open spec fn view(&self) -> ContentBlockView {
        match *self {
            ContentBlock::Text => ContentBlockView::Text,
            ContentBlock::Thinking => ContentBlockView::Thinking,
            ContentBlock::ToolUse { id, name } => ContentBlockView::ToolUse { id: id@, name: name@ },
        }
    }
}

impl View for Delta {
    type V = DeltaView;

    open spec fn view(&self) -> DeltaView {
        match *self {
            Delta::Text(s) => DeltaView::Text(s@),
            Delta::Thinking(s) => DeltaView::Thinking(s@),
            Delta::Signature(s) => DeltaView::Signature(s@),
            Delta::InputJson(s) => DeltaView::InputJson(s@),
        }
    }
}

impl View for SseData {
    type V = DataView;

    open spec fn view(&self) -> DataView {
        match *self {
            SseData::Object(m) => DataView::Object(
                m@.map_values(|e: (String, Scalar)| (e.0@, e.1@)),
            ),
            SseData::MessageStart { id, model, input_tokens } => DataView::MessageStart {
                id: id@,
                model: model@,
                input_tokens: input_tokens as int,
            },
            SseData::BlockStart { index, block } => DataView::BlockStart {
                index: index as int,
                block: block@,
            },
            SseData::BlockDelta { index, delta } => DataView::BlockDelta {
                index: index as int,
                delta: delta@,
            },
            SseData::BlockStop { index } => DataView::BlockStop { index: index as int },
            SseData::MessageDelta { stop_reason, input_tokens, output_tokens } => {
                DataView::MessageDelta {
                    stop_reason: stop_reason@,
                    input_tokens: input_tokens as int,
                    output_tokens: output_tokens as int,
                }
            },
            SseData::MessageStop => DataView::MessageStop,
            SseData::Error { message } => DataView::Error { message: message@ },
        }
    }
}

impl View for SseEvent {
    type V = EventView;

    open spec fn view(&self) -> EventView {
        EventView { event: self.event@, data: self.data@ }
    }
}

/// The views of a sequence of events.
pub open spec fn events_view(events: Seq<SseEvent>) -> Seq<EventView> {
    events.map_values(|e: SseEvent| e@)
}

/// The JSON text of a plain member.
pub open spec fn scalar_json(v: ScalarView) -> Seq<char> {
    match v {
        ScalarView::Null => "null"@,
        ScalarView::Bool(b) => if b {
            "true"@
        } else {
            "false"@
        },
        ScalarView::Int(n) => text::decimal(n),
        ScalarView::Text(s) => outside::json_quoted(s),
    }
}

/// The JSON text of the members of an object, separated by commas.
pub open spec fn members_json(m: Seq<(Seq<char>, ScalarView)>) -> Seq<char>
    decreases m.len(),
{
    if m.len() == 0 {
        Seq::empty()
    } else {
        let head = members_json(m.drop_last());
        (if m.len() == 1 {
            head
        } else {
            head + ","@
        }) + outside::json_quoted(m.last().0) + ":"@ + scalar_json(m.last().1)
    }
}

/// The JSON text of a content block when it starts.
pub open spec fn block_json(b: ContentBlockView) -> Seq<char> {
    match b {
        ContentBlockView::Text => "{\"text\":\"\",\"type\":\"text\"}"@,
        ContentBlockView::Thinking => "{\"thinking\":\"\",\"type\":\"thinking\"}"@,
        ContentBlockView::ToolUse { id, name } => "{\"id\":"@ + outside::json_quoted(id)
            + ",\"input\":{},\"name\":"@ + outside::json_quoted(name) + ",\"type\":\"tool_use\"}"@,
    }
}

/// The JSON text of an addition to a content block.
pub open spec fn delta_json(d: DeltaView) -> Seq<char> {
    match d {
        DeltaView::Text(s) => "{\"text\":"@ + outside::json_quoted(s)
            + ",\"type\":\"text_delta\"}"@,
        DeltaView::Thinking(s) => "{\"thinking\":"@ + outside::json_quoted(s)
            + ",\"type\":\"thinking_delta\"}"@,
        DeltaView::Signature(s) => "{\"signature\":"@ + outside::json_quoted(s)
            + ",\"type\":\"signature_delta\"}"@,
        DeltaView::InputJson(s) => "{\"partial_json\":"@ + outside::json_quoted(s)
            + ",\"type\":\"input_json_delta\"}"@,
    }
}

/// The JSON text of a payload: compact, the members of each object in
/// alphabetical order (those of a caller's object in the caller's order).
pub open spec fn data_json(d: DataView) -> Seq<char> {
    match d {
        DataView::Object(m) => "{"@ + members_json(m) + "}"@,
        DataView::MessageStart { id, model, input_tokens } => "{\"message\":{\"content\":[],\"id\":"@
            + outside::json_quoted(id) + ",\"model\":"@ + outside::json_quoted(model)
            + ",\"role\":\"assistant\",\"stop_reason\":null,\"stop_sequence\":null,\"type\":\"message\",\"usage\":{\"input_tokens\":"@
            + text::decimal(input_tokens) + ",\"output_tokens\":1}},\"type\":\"message_start\"}"@,
        DataView::BlockStart { index, block } => "{\"content_block\":"@ + block_json(block)
            + ",\"index\":"@ + text::decimal(index) + ",\"type\":\"content_block_start\"}"@,
        DataView::BlockDelta { index, delta } => "{\"delta\":"@ + delta_json(delta) + ",\"index\":"@
            + text::decimal(index) + ",\"type\":\"content_block_delta\"}"@,
        DataView::BlockStop { index } => "{\"index\":"@ + text::decimal(index)
            + ",\"type\":\"content_block_stop\"}"@,
        DataView::MessageDelta { stop_reason, input_tokens, output_tokens } => {
            "{\"delta\":{\"stop_reason\":"@ + outside::json_quoted(stop_reason)
                + ",\"stop_sequence\":null},\"type\":\"message_delta\",\"usage\":{\"input_tokens\":"@
                + text::decimal(input_tokens) + ",\"output_tokens\":"@ + text::decimal(
                output_tokens,
            ) + "}}"@
        },
        DataView::MessageStop => "{\"type\":\"message_stop\"}"@,
        DataView::Error { message } => "{\"error\":{\"message\":"@ + outside::json_quoted(message)
            + ",\"type\":\"api_error\"},\"type\":\"error\"}"@,
    }
}

/// The text of an event on the wire: a line with its name, a line with its
/// payload, an empty line.
pub open spec fn wire_text(e: EventView) -> Seq<char> {
    "event: "@ + e.event + "\ndata: "@ + data_json(e.data) + "\n\n"@
}

impl Scalar {
    fn push_json(&self, out: &mut String)
        ensures
            final(out)@ == old(out)@ + scalar_json(self@),
    {
        match self {
            Scalar::Null => out.append("null"),
            Scalar::Bool(b) => if *b {
                out.append("true")
            } else {
                out.append("false")
            },
            Scalar::Int(n) => text::push_i64(out, *n),
            Scalar::Text(s) => out.append(outside::json_quote(s.as_str()).as_str()),
        }
    }
}

impl ContentBlock {
    fn json(&self) -> (s: String)
        ensures
            s@ == block_json(self@),
    {
        let mut s = String::new();
        match self {
            ContentBlock::Text => s.append("{\"text\":\"\",\"type\":\"text\"}"),
            ContentBlock::Thinking => s.append("{\"thinking\":\"\",\"type\":\"thinking\"}"),
            ContentBlock::ToolUse { id, name } => {
                s.append("{\"id\":");
                s.append(outside::json_quote(id.as_str()).as_str());
                s.append(",\"input\":{},\"name\":");
                s.append(outside::json_quote(name.as_str()).as_str());
                s.append(",\"type\":\"tool_use\"}");
            },
        }
        assert(s@ =~= block_json(self@));
        s
    }
}

impl Delta {
    fn json(&self) -> (s: String)
        ensures
            s@ == delta_json(self@),
    {
        let mut s = String::new();
        match self {
            Delta::Text(t) => {
                s.append("{\"text\":");
                s.append(outside::json_quote(t.as_str()).as_str());
                s.append(",\"type\":\"text_delta\"}");
            },
            Delta::Thinking(t) => {
                s.append("{\"thinking\":");
                s.append(outside::json_quote(t.as_str()).as_str());
                s.append(",\"type\":\"thinking_delta\"}");
            },
            Delta::Signature(t) => {
                s.append("{\"signature\":");
                s.append(outside::json_quote(t.as_str()).as_str());
                s.append(",\"type\":\"signature_delta\"}");
            },
            Delta::InputJson(t) => {
                s.append("{\"partial_json\":");
                s.append(outside::json_quote(t.as_str()).as_str());
                s.append(",\"type\":\"input_json_delta\"}");
            },
        }
        assert(s@ =~= delta_json(self@));
        s
    }
}

fn members_text(m: &Vec<(String, Scalar)>) -> (s: String)
    ensures
        s@ == members_json(m@.map_values(|e: (String, Scalar)| (e.0@, e.1@))),
{
    let ghost all = m@.map_values(|e: (String, Scalar)| (e.0@, e.1@));
    let mut s = String::new();
    let mut i: usize = 0;
    assert(all.take(0) =~= Seq::empty());
    while i < m.len()
        invariant
            i <= m@.len(),
            all == m@.map_values(|e: (String, Scalar)| (e.0@, e.1@)),
            s@ == members_json(all.take(i as int)),
        decreases m@.len() - i,
    {
        assert(all.take(i + 1).drop_last() =~= all.take(i as int));
        if i > 0 {
            s.append(",");
        }
        s.append(outside::json_quote(m[i].0.as_str()).as_str());
        s.append(":");
        m[i].1.push_json(&mut s);
        i = i + 1;
        assert(s@ =~= members_json(all.take(i as int)));
    }
    assert(all.take(i as int) =~= all);
    s
}

impl SseData {
    /// The JSON text of the payload.
    pub fn json(&self) -> (s: String)
        ensures
            s@ == data_json(self@),
    {
        let mut s = String::new();
        match self {
            SseData::Object(m) => {
                s.append("{");
                s.append(members_text(m).as_str());
                s.append("}");
            },
            SseData::MessageStart { id, model, input_tokens } => {
                s.append("{\"message\":{\"content\":[],\"id\":");
                s.append(outside::json_quote(id.as_str()).as_str());
                s.append(",\"model\":");
                s.append(outside::json_quote(model.as_str()).as_str());
                s.append(
                    ",\"role\":\"assistant\",\"stop_reason\":null,\"stop_sequence\":null,\"type\":\"message\",\"usage\":{\"input_tokens\":",
                );
                text::push_i64(&mut s, *input_tokens as i64);
                s.append(",\"output_tokens\":1}},\"type\":\"message_start\"}");
            },
            SseData::BlockStart { index, block } => {
                s.append("{\"content_block\":");
                s.append(block.json().as_str());
                s.append(",\"index\":");
                text::push_i64(&mut s, *index as i64);
                s.append(",\"type\":\"content_block_start\"}");
            },
            SseData::BlockDelta { index, delta } => {
                s.append("{\"delta\":");
                s.append(delta.json().as_str());
                s.append(",\"index\":");
                text::push_i64(&mut s, *index as i64);
                s.append(",\"type\":\"content_block_delta\"}");
            },
            SseData::BlockStop { index } => {
                s.append("{\"index\":");
                text::push_i64(&mut s, *index as i64);
                s.append(",\"type\":\"content_block_stop\"}");
            },
            SseData::MessageDelta { stop_reason, input_tokens, output_tokens } => {
                s.append("{\"delta\":{\"stop_reason\":");
                s.append(outside::json_quote(stop_reason.as_str()).as_str());
                s.append(
                    ",\"stop_sequence\":null},\"type\":\"message_delta\",\"usage\":{\"input_tokens\":",
                );
                text::push_i64(&mut s, *input_tokens as i64);
                s.append(",\"output_tokens\":");
                text::push_i64(&mut s, *output_tokens as i64);
                s.append("}}");
            },
            SseData::MessageStop => s.append("{\"type\":\"message_stop\"}"),
            SseData::Error { message } => {
                s.append("{\"error\":{\"message\":");
                s.append(outside::json_quote(message.as_str()).as_str());
                s.append(",\"type\":\"api_error\"},\"type\":\"error\"}");
            },
        }
        assert(s@ =~= data_json(self@));
        s
    }
}

impl SseEvent {
    pub fn new(event: &str, data: SseData) -> (r: Self)
        ensures
            r.event@ == event@,
            r.data == data,
    {
        SseEvent { event: event.to_owned(), data }
    }

    /// The text of the event on the wire.
    pub fn to_sse_string(&self) -> (s: String)
        ensures
            s@ == wire_text(self@),
    {
        let mut s = String::new();
        s.append("event: ");
        s.append(self.event.as_str());
        s.append("\ndata: ");
        s.append(self.data.json().as_str());
        s.append("\n\n");
        assert(s@ =~= wire_text(self@));
        s
    }
}

/// Whether a text holds no control character, and so no line break.
pub open spec fn printable(s: Seq<char>) -> bool {
    forall|i: int| 0 <= i < s.len() ==> (#[trigger] s[i]) as u32 >= 0x20
}

proof fn lemma_printable_concat(a: Seq<char>, b: Seq<char>)
    requires
        printable(a),
        printable(b),
    ensures
        printable(a + b),
{
    let t = a + b;
    assert forall|i: int| 0 <= i < t.len() implies (#[trigger] t[i]) as u32 >= 0x20 by {
        if i < a.len() {
            assert(t[i] == a[i]);
        } else {
            assert(t[i] == b[i - a.len()]);
        }
    }
}

proof fn lemma_printable_digits(n: nat)
    ensures
        printable(text::digits(n)),
    decreases n,
{
    if n >= 10 {
        lemma_printable_digits(n / 10);
    }
}

proof fn lemma_printable_decimal(n: int)
    ensures
        printable(text::decimal(n)),
{
    if n < 0 {
        lemma_printable_digits((-n) as nat);
        lemma_printable_concat(seq!['-'], text::digits((-n) as nat));
    } else {
        lemma_printable_digits(n as nat);
    }
}

proof fn lemma_printable_scalar(v: ScalarView)
    ensures
        printable(scalar_json(v)),
{
    reveal_strlit("null");
    reveal_strlit("true");
    reveal_strlit("false");
    match v {
        ScalarView::Int(n) => {
            lemma_printable_decimal(n);
        },
        ScalarView::Text(s) => {
            outside::lemma_json_quoted_plain(s);
        },
        _ => {},
    }
}

proof fn lemma_printable_members(m: Seq<(Seq<char>, ScalarView)>)
    ensures
        printable(members_json(m)),
    decreases m.len(),
{
    if m.len() > 0 {
        reveal_strlit(",");
        reveal_strlit(":");
        lemma_printable_members(m.drop_last());
        let head = members_json(m.drop_last());
        lemma_printable_concat(head, ","@);
        let h = if m.len() == 1 {
            head
        } else {
            head + ","@
        };
        let q = outside::json_quoted(m.last().0);
        outside::lemma_json_quoted_plain(m.last().0);
        lemma_printable_scalar(m.last().1);
        lemma_printable_concat(h, q);
        lemma_printable_concat(h + q, ":"@);
        lemma_printable_concat(h + q + ":"@, scalar_json(m.last().1));
    }
}

/// A text between two others.
proof fn lemma_printable_around(a: Seq<char>, b: Seq<char>, c: Seq<char>)
    requires
        printable(a),
        printable(b),
        printable(c),
    ensures
        printable(a + b + c),
{
    lemma_printable_concat(a, b);
    lemma_printable_concat(a + b, c);
}

proof fn lemma_printable_block(b: ContentBlockView)
    ensures
        printable(block_json(b)),
{
    match b {
        ContentBlockView::Text => {
            reveal_strlit("{\"text\":\"\",\"type\":\"text\"}");
        },
        ContentBlockView::Thinking => {
            reveal_strlit("{\"thinking\":\"\",\"type\":\"thinking\"}");
        },
        ContentBlockView::ToolUse { id, name } => {
            reveal_strlit("{\"id\":");
            reveal_strlit(",\"input\":{},\"name\":");
            reveal_strlit(",\"type\":\"tool_use\"}");
            outside::lemma_json_quoted_plain(id);
            outside::lemma_json_quoted_plain(name);
            let i = outside::json_quoted(id);
            lemma_printable_around("{\"id\":"@, i, ",\"input\":{},\"name\":"@);
            lemma_printable_around(
                "{\"id\":"@ + i + ",\"input\":{},\"name\":"@,
                outside::json_quoted(name),
                ",\"type\":\"tool_use\"}"@,
            );
        },
    }
}

proof fn lemma_printable_delta(d: DeltaView)
    ensures
        printable(delta_json(d)),
{
    match d {
        DeltaView::Text(s) => {
            reveal_strlit("{\"text\":");
            reveal_strlit(",\"type\":\"text_delta\"}");
            outside::lemma_json_quoted_plain(s);
            lemma_printable_around(
                "{\"text\":"@,
                outside::json_quoted(s),
                ",\"type\":\"text_delta\"}"@,
            );
        },
        DeltaView::Thinking(s) => {
            reveal_strlit("{\"thinking\":");
            reveal_strlit(",\"type\":\"thinking_delta\"}");
            outside::lemma_json_quoted_plain(s);
            lemma_printable_around(
                "{\"thinking\":"@,
                outside::json_quoted(s),
                ",\"type\":\"thinking_delta\"}"@,
            );
        },
        DeltaView::Signature(s) => {
            reveal_strlit("{\"signature\":");
            reveal_strlit(",\"type\":\"signature_delta\"}");
            outside::lemma_json_quoted_plain(s);
            lemma_printable_around(
                "{\"signature\":"@,
                outside::json_quoted(s),
                ",\"type\":\"signature_delta\"}"@,
            );
        },
        DeltaView::InputJson(s) => {
            reveal_strlit("{\"partial_json\":");
            reveal_strlit(",\"type\":\"input_json_delta\"}");
            outside::lemma_json_quoted_plain(s);
            lemma_printable_around(
                "{\"partial_json\":"@,
                outside::json_quoted(s),
                ",\"type\":\"input_json_delta\"}"@,
            );
        },
    }
}

/// The JSON text of a payload stands on one line, so that an event on the wire is a
/// line with its name, a line with its payload and an empty line, and nothing else.
pub proof fn law_payload_on_one_line(d: DataView)
    ensures
        printable(data_json(d)),
{
    match d {
        DataView::Object(m) => {
            reveal_strlit("{");
            reveal_strlit("}");
            lemma_printable_members(m);
            lemma_printable_around("{"@, members_json(m), "}"@);
        },
        DataView::MessageStart { id, model, input_tokens } => {
            let a = "{\"message\":{\"content\":[],\"id\":"@;
            let b = ",\"model\":"@;
            let c =
                ",\"role\":\"assistant\",\"stop_reason\":null,\"stop_sequence\":null,\"type\":\"message\",\"usage\":{\"input_tokens\":"@;
            let e = ",\"output_tokens\":1}},\"type\":\"message_start\"}"@;
            reveal_strlit("{\"message\":{\"content\":[],\"id\":");
            reveal_strlit(",\"model\":");
            reveal_strlit(
                ",\"role\":\"assistant\",\"stop_reason\":null,\"stop_sequence\":null,\"type\":\"message\",\"usage\":{\"input_tokens\":",
            );
            reveal_strlit(",\"output_tokens\":1}},\"type\":\"message_start\"}");
            outside::lemma_json_quoted_plain(id);
            outside::lemma_json_quoted_plain(model);
            lemma_printable_decimal(input_tokens);
            let i = outside::json_quoted(id);
            let m = outside::json_quoted(model);
            lemma_printable_around(a, i, b);
            lemma_printable_around(a + i + b, m, c);
            lemma_printable_around(a + i + b + m + c, text::decimal(input_tokens), e);
        },
        DataView::BlockStart { index, block } => {
            reveal_strlit("{\"content_block\":");
            reveal_strlit(",\"index\":");
            reveal_strlit(",\"type\":\"content_block_start\"}");
            lemma_printable_block(block);
            lemma_printable_decimal(index);
            lemma_printable_around("{\"content_block\":"@, block_json(block), ",\"index\":"@);
            lemma_printable_around(
                "{\"content_block\":"@ + block_json(block) + ",\"index\":"@,
                text::decimal(index),
                ",\"type\":\"content_block_start\"}"@,
            );
        },
        DataView::BlockDelta { index, delta } => {
            reveal_strlit("{\"delta\":");
            reveal_strlit(",\"index\":");
            reveal_strlit(",\"type\":\"content_block_delta\"}");
            lemma_printable_delta(delta);
            lemma_printable_decimal(index);
            lemma_printable_around("{\"delta\":"@, delta_json(delta), ",\"index\":"@);
            lemma_printable_around(
                "{\"delta\":"@ + delta_json(delta) + ",\"index\":"@,
                text::decimal(index),
                ",\"type\":\"content_block_delta\"}"@,
            );
        },
        DataView::BlockStop { index } => {
            reveal_strlit("{\"index\":");
            reveal_strlit(",\"type\":\"content_block_stop\"}");
            lemma_printable_decimal(index);
            lemma_printable_around(
                "{\"index\":"@,
                text::decimal(index),
                ",\"type\":\"content_block_stop\"}"@,
            );
        },
        DataView::MessageDelta { stop_reason, input_tokens, output_tokens } => {
            let a = "{\"delta\":{\"stop_reason\":"@;
            let b =
                ",\"stop_sequence\":null},\"type\":\"message_delta\",\"usage\":{\"input_tokens\":"@;
            let c = ",\"output_tokens\":"@;
            reveal_strlit("{\"delta\":{\"stop_reason\":");
            reveal_strlit(
                ",\"stop_sequence\":null},\"type\":\"message_delta\",\"usage\":{\"input_tokens\":",
            );
            reveal_strlit(",\"output_tokens\":");
            reveal_strlit("}}");
            outside::lemma_json_quoted_plain(stop_reason);
            lemma_printable_decimal(input_tokens);
            lemma_printable_decimal(output_tokens);
            let r = outside::json_quoted(stop_reason);
            let i = text::decimal(input_tokens);
            lemma_printable_around(a, r, b);
            lemma_printable_around(a + r + b, i, c);
            lemma_printable_around(a + r + b + i + c, text::decimal(output_tokens), "}}"@);
        },
        DataView::MessageStop => {
            reveal_strlit("{\"type\":\"message_stop\"}");
        },
        DataView::Error { message } => {
            reveal_strlit("{\"error\":{\"message\":");
            reveal_strlit(",\"type\":\"api_error\"},\"type\":\"error\"}");
            outside::lemma_json_quoted_plain(message);
            lemma_printable_around(
                "{\"error\":{\"message\":"@,
                outside::json_quoted(message),
                ",\"type\":\"api_error\"},\"type\":\"error\"}"@,
            );
        },
    }
}

/// The payload that begins a message tells its id, its model and its input tokens, with one output token so far and nothing else yet.
pub proof fn law_message_start_tells(id: Seq<char>, model: Seq<char>, input_tokens: int)
    ensures
        ({
            let json = data_json(DataView::MessageStart { id, model, input_tokens });
            &&& text::has_text(json, "\"id\":"@ + outside::json_quoted(id))
            &&& text::has_text(json, "\"model\":"@ + outside::json_quoted(model))
            &&& text::has_text(json, "\"input_tokens\":"@ + text::decimal(input_tokens))
            &&& text::has_text(json, "\"output_tokens\":1}"@)
            &&& text::has_text(json, "\"type\":\"message_start\"}"@)
            &&& text::has_text(json, "\"role\":\"assistant\""@)
            &&& text::has_text(json, "\"stop_reason\":null"@)
            &&& text::has_text(json, "\"content\":[]"@)
        }),
{
    reveal_strlit("{\"message\":{\"content\":[],\"id\":");
    reveal_strlit(",\"model\":");
    reveal_strlit(",\"role\":\"assistant\",\"stop_reason\":null,\"stop_sequence\":null,\"type\":\"message\",\"usage\":{\"input_tokens\":");
    reveal_strlit(",\"output_tokens\":1}},\"type\":\"message_start\"}");
    reveal_strlit("\"id\":");
    reveal_strlit("\"model\":");
    reveal_strlit("\"input_tokens\":");
    reveal_strlit("\"output_tokens\":1}");
    reveal_strlit("\"type\":\"message_start\"}");
    reveal_strlit("\"role\":\"assistant\"");
    reveal_strlit("\"stop_reason\":null");
    reveal_strlit("\"content\":[]");
    let x0 = "{\"message\":{\"content\":[],\"id\":"@;
    let x1 = outside::json_quoted(id);
    let x2 = ",\"model\":"@;
    let x3 = outside::json_quoted(model);
    let x4 = ",\"role\":\"assistant\",\"stop_reason\":null,\"stop_sequence\":null,\"type\":\"message\",\"usage\":{\"input_tokens\":"@;
    let x5 = text::decimal(input_tokens);
    let x6 = ",\"output_tokens\":1}},\"type\":\"message_start\"}"@;
    let s0 = x0;
    let s1 = s0 + x1;
    let s2 = s1 + x2;
    let s3 = s2 + x3;
    let s4 = s3 + x4;
    let s5 = s4 + x5;
    let s6 = s5 + x6;
    let c0 = "\"id\":"@ + x1;
    let h0 = s0.take(s0.len() - 5);
    assert(s1 =~= h0 + c0);
    text::lemma_in_itself(c0);
    text::lemma_in_whole(h0, c0, c0);
    text::lemma_in_whole(s1, x2, c0);
    text::lemma_in_whole(s2, x3, c0);
    text::lemma_in_whole(s3, x4, c0);
    text::lemma_in_whole(s4, x5, c0);
    text::lemma_in_whole(s5, x6, c0);
    let c1 = "\"model\":"@ + x3;
    let h1 = s2.take(s2.len() - 8);
    assert(s3 =~= h1 + c1);
    text::lemma_in_itself(c1);
    text::lemma_in_whole(h1, c1, c1);
    text::lemma_in_whole(s3, x4, c1);
    text::lemma_in_whole(s4, x5, c1);
    text::lemma_in_whole(s5, x6, c1);
    let c2 = "\"input_tokens\":"@ + x5;
    let h2 = s4.take(s4.len() - 15);
    assert(s5 =~= h2 + c2);
    text::lemma_in_itself(c2);
    text::lemma_in_whole(h2, c2, c2);
    text::lemma_in_whole(s5, x6, c2);
    assert(x6.subrange(1, 19) =~= "\"output_tokens\":1}"@);
    assert(text::occurs_at(x6, "\"output_tokens\":1}"@, 1));
    text::lemma_in_whole(s5, x6, "\"output_tokens\":1}"@);
    assert(x6.subrange(21, 44) =~= "\"type\":\"message_start\"}"@);
    assert(text::occurs_at(x6, "\"type\":\"message_start\"}"@, 21));
    text::lemma_in_whole(s5, x6, "\"type\":\"message_start\"}"@);
    assert(x4.subrange(1, 19) =~= "\"role\":\"assistant\""@);
    assert(text::occurs_at(x4, "\"role\":\"assistant\""@, 1));
    text::lemma_in_whole(s3, x4, "\"role\":\"assistant\""@);
    text::lemma_in_whole(s4, x5, "\"role\":\"assistant\""@);
    text::lemma_in_whole(s5, x6, "\"role\":\"assistant\""@);
    assert(x4.subrange(20, 38) =~= "\"stop_reason\":null"@);
    assert(text::occurs_at(x4, "\"stop_reason\":null"@, 20));
    text::lemma_in_whole(s3, x4, "\"stop_reason\":null"@);
    text::lemma_in_whole(s4, x5, "\"stop_reason\":null"@);
    text::lemma_in_whole(s5, x6, "\"stop_reason\":null"@);
    assert(x0.subrange(12, 24) =~= "\"content\":[]"@);
    assert(text::occurs_at(x0, "\"content\":[]"@, 12));
    text::lemma_in_whole(s0, x1, "\"content\":[]"@);
    text::lemma_in_whole(s1, x2, "\"content\":[]"@);
    text::lemma_in_whole(s2, x3, "\"content\":[]"@);
    text::lemma_in_whole(s3, x4, "\"content\":[]"@);
    text::lemma_in_whole(s4, x5, "\"content\":[]"@);
    text::lemma_in_whole(s5, x6, "\"content\":[]"@);
    assert(s6 == data_json(DataView::MessageStart { id, model, input_tokens }));
}

/// The payload that stops a block tells which.
pub proof fn law_block_stop_tells(index: int)
    ensures
        ({
            let json = data_json(DataView::BlockStop { index });
            &&& text::has_text(json, "\"index\":"@ + text::decimal(index))
            &&& text::has_text(json, "\"type\":\"content_block_stop\"}"@)
        }),
{
    reveal_strlit("{\"index\":");
    reveal_strlit(",\"type\":\"content_block_stop\"}");
    reveal_strlit("\"index\":");
    reveal_strlit("\"type\":\"content_block_stop\"}");
    let x0 = "{\"index\":"@;
    let x1 = text::decimal(index);
    let x2 = ",\"type\":\"content_block_stop\"}"@;
    let s0 = x0;
    let s1 = s0 + x1;
    let s2 = s1 + x2;
    let c0 = "\"index\":"@ + x1;
    let h0 = s0.take(s0.len() - 8);
    assert(s1 =~= h0 + c0);
    text::lemma_in_itself(c0);
    text::lemma_in_whole(h0, c0, c0);
    text::lemma_in_whole(s1, x2, c0);
    assert(x2.subrange(1, 29) =~= "\"type\":\"content_block_stop\"}"@);
    assert(text::occurs_at(x2, "\"type\":\"content_block_stop\"}"@, 1));
    text::lemma_in_whole(s1, x2, "\"type\":\"content_block_stop\"}"@);
    assert(s2 == data_json(DataView::BlockStop { index }));
}

/// The payload that ends a message tells why, and the tokens.
pub proof fn law_message_delta_tells(stop_reason: Seq<char>, input_tokens: int, output_tokens: int)
    ensures
        ({
            let json = data_json(DataView::MessageDelta { stop_reason, input_tokens, output_tokens });
            &&& text::has_text(json, "\"stop_reason\":"@ + outside::json_quoted(stop_reason))
            &&& text::has_text(json, "\"input_tokens\":"@ + text::decimal(input_tokens))
            &&& text::has_text(json, "\"output_tokens\":"@ + text::decimal(output_tokens))
            &&& text::has_text(json, "\"type\":\"message_delta\""@)
        }),
{
    reveal_strlit("{\"delta\":{\"stop_reason\":");
    reveal_strlit(",\"stop_sequence\":null},\"type\":\"message_delta\",\"usage\":{\"input_tokens\":");
    reveal_strlit(",\"output_tokens\":");
    reveal_strlit("}}");
    reveal_strlit("\"stop_reason\":");
    reveal_strlit("\"input_tokens\":");
    reveal_strlit("\"output_tokens\":");
    reveal_strlit("\"type\":\"message_delta\"");
    let x0 = "{\"delta\":{\"stop_reason\":"@;
    let x1 = outside::json_quoted(stop_reason);
    let x2 = ",\"stop_sequence\":null},\"type\":\"message_delta\",\"usage\":{\"input_tokens\":"@;
    let x3 = text::decimal(input_tokens);
    let x4 = ",\"output_tokens\":"@;
    let x5 = text::decimal(output_tokens);
    let x6 = "}}"@;
    let s0 = x0;
    let s1 = s0 + x1;
    let s2 = s1 + x2;
    let s3 = s2 + x3;
    let s4 = s3 + x4;
    let s5 = s4 + x5;
    let s6 = s5 + x6;
    let c0 = "\"stop_reason\":"@ + x1;
    let h0 = s0.take(s0.len() - 14);
    assert(s1 =~= h0 + c0);
    text::lemma_in_itself(c0);
    text::lemma_in_whole(h0, c0, c0);
    text::lemma_in_whole(s1, x2, c0);
    text::lemma_in_whole(s2, x3, c0);
    text::lemma_in_whole(s3, x4, c0);
    text::lemma_in_whole(s4, x5, c0);
    text::lemma_in_whole(s5, x6, c0);
    let c1 = "\"input_tokens\":"@ + x3;
    let h1 = s2.take(s2.len() - 15);
    assert(s3 =~= h1 + c1);
    text::lemma_in_itself(c1);
    text::lemma_in_whole(h1, c1, c1);
    text::lemma_in_whole(s3, x4, c1);
    text::lemma_in_whole(s4, x5, c1);
    text::lemma_in_whole(s5, x6, c1);
    let c2 = "\"output_tokens\":"@ + x5;
    let h2 = s4.take(s4.len() - 16);
    assert(s5 =~= h2 + c2);
    text::lemma_in_itself(c2);
    text::lemma_in_whole(h2, c2, c2);
    text::lemma_in_whole(s5, x6, c2);
    assert(x2.subrange(23, 45) =~= "\"type\":\"message_delta\""@);
    assert(text::occurs_at(x2, "\"type\":\"message_delta\""@, 23));
    text::lemma_in_whole(s1, x2, "\"type\":\"message_delta\""@);
    text::lemma_in_whole(s2, x3, "\"type\":\"message_delta\""@);
    text::lemma_in_whole(s3, x4, "\"type\":\"message_delta\""@);
    text::lemma_in_whole(s4, x5, "\"type\":\"message_delta\""@);
    text::lemma_in_whole(s5, x6, "\"type\":\"message_delta\""@);
    assert(s6 == data_json(DataView::MessageDelta { stop_reason, input_tokens, output_tokens }));
}

/// The payload of an error tells it.
pub proof fn law_error_tells(message: Seq<char>)
    ensures
        ({
            let json = data_json(DataView::Error { message });
            &&& text::has_text(json, "\"message\":"@ + outside::json_quoted(message))
            &&& text::has_text(json, "\"type\":\"api_error\"}"@)
            &&& text::has_text(json, "\"type\":\"error\"}"@)
        }),
{
    reveal_strlit("{\"error\":{\"message\":");
    reveal_strlit(",\"type\":\"api_error\"},\"type\":\"error\"}");
    reveal_strlit("\"message\":");
    reveal_strlit("\"type\":\"api_error\"}");
    reveal_strlit("\"type\":\"error\"}");
    let x0 = "{\"error\":{\"message\":"@;
    let x1 = outside::json_quoted(message);
    let x2 = ",\"type\":\"api_error\"},\"type\":\"error\"}"@;
    let s0 = x0;
    let s1 = s0 + x1;
    let s2 = s1 + x2;
    let c0 = "\"message\":"@ + x1;
    let h0 = s0.take(s0.len() - 10);
    assert(s1 =~= h0 + c0);
    text::lemma_in_itself(c0);
    text::lemma_in_whole(h0, c0, c0);
    text::lemma_in_whole(s1, x2, c0);
    assert(x2.subrange(1, 20) =~= "\"type\":\"api_error\"}"@);
    assert(text::occurs_at(x2, "\"type\":\"api_error\"}"@, 1));
    text::lemma_in_whole(s1, x2, "\"type\":\"api_error\"}"@);
    assert(x2.subrange(21, 36) =~= "\"type\":\"error\"}"@);
    assert(text::occurs_at(x2, "\"type\":\"error\"}"@, 21));
    text::lemma_in_whole(s1, x2, "\"type\":\"error\"}"@);
    assert(s2 == data_json(DataView::Error { message }));
}

/// The payload that starts a block tells which, and of what kind it is.
pub proof fn law_block_start_tells(index: int, block: ContentBlockView)
    ensures
        ({
            let json = data_json(DataView::BlockStart { index, block });
            &&& text::has_text(json, "\"content_block\":"@ + block_json(block))
            &&& text::has_text(json, "\"index\":"@ + text::decimal(index))
            &&& text::has_text(json, "\"type\":\"content_block_start\"}"@)
        }),
{
    reveal_strlit("{\"content_block\":");
    reveal_strlit(",\"index\":");
    reveal_strlit(",\"type\":\"content_block_start\"}");
    reveal_strlit("\"content_block\":");
    reveal_strlit("\"index\":");
    reveal_strlit("\"type\":\"content_block_start\"}");
    let x0 = "{\"content_block\":"@;
    let x1 = block_json(block);
    let x2 = ",\"index\":"@;
    let x3 = text::decimal(index);
    let x4 = ",\"type\":\"content_block_start\"}"@;
    let s0 = x0;
    let s1 = s0 + x1;
    let s2 = s1 + x2;
    let s3 = s2 + x3;
    let s4 = s3 + x4;
    let c0 = "\"content_block\":"@ + x1;
    let h0 = s0.take(s0.len() - 16);
    assert(s1 =~= h0 + c0);
    text::lemma_in_itself(c0);
    text::lemma_in_whole(h0, c0, c0);
    text::lemma_in_whole(s1, x2, c0);
    text::lemma_in_whole(s2, x3, c0);
    text::lemma_in_whole(s3, x4, c0);
    let c1 = "\"index\":"@ + x3;
    let h1 = s2.take(s2.len() - 8);
    assert(s3 =~= h1 + c1);
    text::lemma_in_itself(c1);
    text::lemma_in_whole(h1, c1, c1);
    text::lemma_in_whole(s3, x4, c1);
    assert(x4.subrange(1, 30) =~= "\"type\":\"content_block_start\"}"@);
    assert(text::occurs_at(x4, "\"type\":\"content_block_start\"}"@, 1));
    text::lemma_in_whole(s3, x4, "\"type\":\"content_block_start\"}"@);
    assert(s4 == data_json(DataView::BlockStart { index, block }));
}

/// The payload that adds to a block tells to which, and what.
pub proof fn law_block_delta_tells(index: int, delta: DeltaView)
    ensures
        ({
            let json = data_json(DataView::BlockDelta { index, delta });
            &&& text::has_text(json, "\"delta\":"@ + delta_json(delta))
            &&& text::has_text(json, "\"index\":"@ + text::decimal(index))
            &&& text::has_text(json, "\"type\":\"content_block_delta\"}"@)
        }),
{
    reveal_strlit("{\"delta\":");
    reveal_strlit(",\"index\":");
    reveal_strlit(",\"type\":\"content_block_delta\"}");
    reveal_strlit("\"delta\":");
    reveal_strlit("\"index\":");
    reveal_strlit("\"type\":\"content_block_delta\"}");
    let x0 = "{\"delta\":"@;
    let x1 = delta_json(delta);
    let x2 = ",\"index\":"@;
    let x3 = text::decimal(index);
    let x4 = ",\"type\":\"content_block_delta\"}"@;
    let s0 = x0;
    let s1 = s0 + x1;
    let s2 = s1 + x2;
    let s3 = s2 + x3;
    let s4 = s3 + x4;
    let c0 = "\"delta\":"@ + x1;
    let h0 = s0.take(s0.len() - 8);
    assert(s1 =~= h0 + c0);
    text::lemma_in_itself(c0);
    text::lemma_in_whole(h0, c0, c0);
    text::lemma_in_whole(s1, x2, c0);
    text::lemma_in_whole(s2, x3, c0);
    text::lemma_in_whole(s3, x4, c0);
    let c1 = "\"index\":"@ + x3;
    let h1 = s2.take(s2.len() - 8);
    assert(s3 =~= h1 + c1);
    text::lemma_in_itself(c1);
    text::lemma_in_whole(h1, c1, c1);
    text::lemma_in_whole(s3, x4, c1);
    assert(x4.subrange(1, 30) =~= "\"type\":\"content_block_delta\"}"@);
    assert(text::occurs_at(x4, "\"type\":\"content_block_delta\"}"@, 1));
    text::lemma_in_whole(s3, x4, "\"type\":\"content_block_delta\"}"@);
    assert(s4 == data_json(DataView::BlockDelta { index, delta }));
}

/// An addition tells its text under the name that goes with its kind, and its kind.
pub proof fn law_addition_tells(d: DeltaView)
    ensures
        match d {
            DeltaView::Text(s) => {
                &&& text::has_text(delta_json(d), "\"text\":"@ + outside::json_quoted(s))
                &&& text::has_text(delta_json(d), "\"type\":\"text_delta\"}"@)
            },
            DeltaView::Thinking(s) => {
                &&& text::has_text(delta_json(d), "\"thinking\":"@ + outside::json_quoted(s))
                &&& text::has_text(delta_json(d), "\"type\":\"thinking_delta\"}"@)
            },
            DeltaView::Signature(s) => {
                &&& text::has_text(delta_json(d), "\"signature\":"@ + outside::json_quoted(s))
                &&& text::has_text(delta_json(d), "\"type\":\"signature_delta\"}"@)
            },
            DeltaView::InputJson(s) => {
                &&& text::has_text(delta_json(d), "\"partial_json\":"@ + outside::json_quoted(s))
                &&& text::has_text(delta_json(d), "\"type\":\"input_json_delta\"}"@)
            },
        },
{
    match d {
        DeltaView::Text(s) => {
            reveal_strlit("{\"text\":");
            reveal_strlit(",\"type\":\"text_delta\"}");
            reveal_strlit("\"text\":");
            reveal_strlit("\"type\":\"text_delta\"}");
            let x0 = "{\"text\":"@;
            let x1 = outside::json_quoted(s);
            let x2 = ",\"type\":\"text_delta\"}"@;
            let s0 = x0;
            let s1 = s0 + x1;
            let s2 = s1 + x2;
            let c0 = "\"text\":"@ + x1;
            let h0 = s0.take(s0.len() - 7);
            assert(s1 =~= h0 + c0);
            text::lemma_in_itself(c0);
            text::lemma_in_whole(h0, c0, c0);
            text::lemma_in_whole(s1, x2, c0);
            assert(x2.subrange(1, 21) =~= "\"type\":\"text_delta\"}"@);
            assert(text::occurs_at(x2, "\"type\":\"text_delta\"}"@, 1));
            text::lemma_in_whole(s1, x2, "\"type\":\"text_delta\"}"@);
            assert(s2 == delta_json(d));
        },
        DeltaView::Thinking(s) => {
            reveal_strlit("{\"thinking\":");
            reveal_strlit(",\"type\":\"thinking_delta\"}");
            reveal_strlit("\"thinking\":");
            reveal_strlit("\"type\":\"thinking_delta\"}");
            let x0 = "{\"thinking\":"@;
            let x1 = outside::json_quoted(s);
            let x2 = ",\"type\":\"thinking_delta\"}"@;
            let s0 = x0;
            let s1 = s0 + x1;
            let s2 = s1 + x2;
            let c0 = "\"thinking\":"@ + x1;
            let h0 = s0.take(s0.len() - 11);
            assert(s1 =~= h0 + c0);
            text::lemma_in_itself(c0);
            text::lemma_in_whole(h0, c0, c0);
            text::lemma_in_whole(s1, x2, c0);
            assert(x2.subrange(1, 25) =~= "\"type\":\"thinking_delta\"}"@);
            assert(text::occurs_at(x2, "\"type\":\"thinking_delta\"}"@, 1));
            text::lemma_in_whole(s1, x2, "\"type\":\"thinking_delta\"}"@);
            assert(s2 == delta_json(d));
        },
        DeltaView::Signature(s) => {
            reveal_strlit("{\"signature\":");
            reveal_strlit(",\"type\":\"signature_delta\"}");
            reveal_strlit("\"signature\":");
            reveal_strlit("\"type\":\"signature_delta\"}");
            let x0 = "{\"signature\":"@;
            let x1 = outside::json_quoted(s);
            let x2 = ",\"type\":\"signature_delta\"}"@;
            let s0 = x0;
            let s1 = s0 + x1;
            let s2 = s1 + x2;
            let c0 = "\"signature\":"@ + x1;
            let h0 = s0.take(s0.len() - 12);
            assert(s1 =~= h0 + c0);
            text::lemma_in_itself(c0);
            text::lemma_in_whole(h0, c0, c0);
            text::lemma_in_whole(s1, x2, c0);
            assert(x2.subrange(1, 26) =~= "\"type\":\"signature_delta\"}"@);
            assert(text::occurs_at(x2, "\"type\":\"signature_delta\"}"@, 1));
            text::lemma_in_whole(s1, x2, "\"type\":\"signature_delta\"}"@);
            assert(s2 == delta_json(d));
        },
        DeltaView::InputJson(s) => {
            reveal_strlit("{\"partial_json\":");
            reveal_strlit(",\"type\":\"input_json_delta\"}");
            reveal_strlit("\"partial_json\":");
            reveal_strlit("\"type\":\"input_json_delta\"}");
            let x0 = "{\"partial_json\":"@;
            let x1 = outside::json_quoted(s);
            let x2 = ",\"type\":\"input_json_delta\"}"@;
            let s0 = x0;
            let s1 = s0 + x1;
            let s2 = s1 + x2;
            let c0 = "\"partial_json\":"@ + x1;
            let h0 = s0.take(s0.len() - 15);
            assert(s1 =~= h0 + c0);
            text::lemma_in_itself(c0);
            text::lemma_in_whole(h0, c0, c0);
            text::lemma_in_whole(s1, x2, c0);
            assert(x2.subrange(1, 27) =~= "\"type\":\"input_json_delta\"}"@);
            assert(text::occurs_at(x2, "\"type\":\"input_json_delta\"}"@, 1));
            text::lemma_in_whole(s1, x2, "\"type\":\"input_json_delta\"}"@);
            assert(s2 == delta_json(d));
        },
    }
}

/// The beginning of a tool call tells its id and the name of the tool.
pub proof fn law_tool_call_tells(id: Seq<char>, name: Seq<char>)
    ensures
        ({
            let json = block_json(ContentBlockView::ToolUse { id, name });
            &&& text::has_text(json, "\"id\":"@ + outside::json_quoted(id))
            &&& text::has_text(json, "\"name\":"@ + outside::json_quoted(name))
            &&& text::has_text(json, "\"type\":\"tool_use\"}"@)
        }),
{
    reveal_strlit("{\"id\":");
    reveal_strlit(",\"input\":{},\"name\":");
    reveal_strlit(",\"type\":\"tool_use\"}");
    reveal_strlit("\"id\":");
    reveal_strlit("\"name\":");
    reveal_strlit("\"type\":\"tool_use\"}");
    let x0 = "{\"id\":"@;
    let x1 = outside::json_quoted(id);
    let x2 = ",\"input\":{},\"name\":"@;
    let x3 = outside::json_quoted(name);
    let x4 = ",\"type\":\"tool_use\"}"@;
    let s0 = x0;
    let s1 = s0 + x1;
    let s2 = s1 + x2;
    let s3 = s2 + x3;
    let s4 = s3 + x4;
    let c0 = "\"id\":"@ + x1;
    let h0 = s0.take(s0.len() - 5);
    assert(s1 =~= h0 + c0);
    text::lemma_in_itself(c0);
    text::lemma_in_whole(h0, c0, c0);
    text::lemma_in_whole(s1, x2, c0);
    text::lemma_in_whole(s2, x3, c0);
    text::lemma_in_whole(s3, x4, c0);
    let c1 = "\"name\":"@ + x3;
    let h1 = s2.take(s2.len() - 7);
    assert(s3 =~= h1 + c1);
    text::lemma_in_itself(c1);
    text::lemma_in_whole(h1, c1, c1);
    text::lemma_in_whole(s3, x4, c1);
    assert(x4.subrange(1, 19) =~= "\"type\":\"tool_use\"}"@);
    assert(text::occurs_at(x4, "\"type\":\"tool_use\"}"@, 1));
    text::lemma_in_whole(s3, x4, "\"type\":\"tool_use\"}"@);
    assert(s4 == block_json(ContentBlockView::ToolUse { id, name }));
}

/// On the wire an event has its name on the first line and its payload on the second, and ends
/// with an empty line.
pub proof fn law_event_on_the_wire(e: EventView)
    ensures
        text::begins_with(wire_text(e), "event: "@ + e.event + "\ndata: "@),
        text::ends_in(wire_text(e), data_json(e.data) + "\n\n"@),
        wire_text(e).len() == ("event: "@ + e.event + "\ndata: "@).len() + (data_json(e.data)
            + "\n\n"@).len(),
{
    let a = "event: "@ + e.event + "\ndata: "@;
    let b = data_json(e.data) + "\n\n"@;
    assert(wire_text(e) =~= a + b);
    assert((a + b).subrange(0, a.len() as int) =~= a);
    assert((a + b).skip((a + b).len() - b.len()) =~= b);
}

} // verus!
