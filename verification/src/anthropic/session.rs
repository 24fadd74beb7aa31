//! A response stream and the upstream body that feeds it, with replays of a request
//! whose body breaks off before the client has seen anything.

use vstd::prelude::*;
use vstd::string::*;
use crate::anthropic::protocol;
use crate::anthropic::sse;
use crate::anthropic::sse::SseEvent;
use crate::anthropic::state_manager;
use crate::anthropic::stream;
use crate::anthropic::stream::StreamContext;
use crate::anthropic::stream_laws;
use crate::anthropic::stream_model;
use crate::kiro::events;
use crate::kiro::events::Event;
use crate::metrics;
use crate::metrics::Metrics;
use crate::outside;
use crate::text;

verus! {

/// How often a request is replayed at most.
pub const MAX_STREAM_RESTARTS: usize = 2;

/// The seconds between two pings.
pub const PING_INTERVAL_SECS: u64 = 25;

/// What makes a stream anew after the request was replayed.
#[derive(Debug)]
pub struct StreamRestarter {
    pub model: String,
    pub input_tokens: i32,
    pub thinking_enabled: bool,
    pub tool_name_map: Vec<(String, String)>,
    pub delay_message_start: bool,
    /// The replays that are left.
    pub remaining: usize,
}

/// The view of what makes a stream anew.
pub struct RestarterView {
    pub model: Seq<char>,
    pub input_tokens: int,
    pub thinking_enabled: bool,
    pub tool_names: Seq<(Seq<char>, Seq<char>)>,
    pub delayed: bool,
    pub remaining: nat,
}

impl View for StreamRestarter {
    type V = RestarterView;

    open spec fn view(&self) -> RestarterView {
        RestarterView {
            model: self.model@,
            input_tokens: self.input_tokens as int,
            thinking_enabled: self.thinking_enabled,
            tool_names: text::pairs_view(self.tool_name_map@),
            delayed: self.delay_message_start,
            remaining: self.remaining as nat,
        }
    }
}

impl RestarterView {
    /// A stream at its beginning.
    pub open spec fn stream(self, message_id: Seq<char>) -> stream_model::StreamView {
        stream::new_stream(
            message_id,
            self.model,
            self.input_tokens,
            self.thinking_enabled,
            self.tool_names,
            self.delayed,
        )
    }
}

impl StreamRestarter {
    /// A stream at its beginning, with a random message id.
    pub fn build_ctx(&self) -> (r: StreamContext)
        ensures
            exists|uuid: Seq<char>| #[trigger]
                outside::uuid_shape(uuid) && r@ == self@.stream(stream::message_id_of(uuid)),
    {
        StreamContext::new_with_thinking(
            self.model.as_str(),
            self.input_tokens,
            self.thinking_enabled,
            text::clone_pairs(&self.tool_name_map),
            self.delay_message_start,
        )
    }
}

/// What was read from the upstream body.
#[derive(Debug)]
pub enum Decoded {
    Event(Event),
    /// The body could not be read. A fatal failure is one after which reading goes
    /// on no longer: too many failures, or too much that is not read.
    Failure { fatal: bool, message: String },
}

/// The view of what was read.
pub enum DecodedView {
    Event(events::KiroEventView),
    Failure { fatal: bool, message: Seq<char> },
}

impl View for Decoded {
    type V = DecodedView;

    open spec fn view(&self) -> DecodedView {
        match *self {
            Decoded::Event(e) => DecodedView::Event(e@),
            Decoded::Failure { fatal, message } => DecodedView::Failure {
                fatal,
                message: message@,
            },
        }
    }
}

/// A response stream with its upstream body.
#[derive(Debug)]
pub struct SseSession {
    pub ctx: StreamContext,
    pub restarter: StreamRestarter,
    /// Whether nothing more comes.
    pub finished: bool,
    /// Whether a piece of the body is being read.
    pub in_chunk: bool,
    /// Why the body broke off, while the request is being replayed.
    pub broken: Option<String>,
}

/// The view of a response stream with its upstream body.
pub struct SessionView {
    pub stream: stream_model::StreamView,
    pub restarter: RestarterView,
    pub finished: bool,
    pub in_chunk: bool,
    pub broken: Option<Seq<char>>,
}

impl View for SseSession {
    type V = SessionView;

    open spec fn view(&self) -> SessionView {
        SessionView {
            stream: self.ctx@,
            restarter: self.restarter@,
            finished: self.finished,
            in_chunk: self.in_chunk,
            broken: text::opt_view(self.broken),
        }
    }
}

/// What a failure to read the body does: a fatal one fails the stream and tells the
/// client.
pub open spec fn decode_failed(v: stream_model::StreamView, fatal: bool, message: Seq<char>) -> (
    stream_model::StreamView,
    Seq<sse::EventView>,
) {
    if fatal {
        (
            stream_model::StreamView { failed: true, ..v },
            seq![stream_model::error_event("Stream decode failed: "@ + message)],
        )
    } else {
        (v, Seq::empty())
    }
}

impl SessionView {
    /// Whether the next piece of the body can come, or its end.
    pub open spec fn reading(self) -> bool {
        !self.finished && !self.in_chunk && self.broken is None
    }

    /// Whether something of a piece of the body can come.
    pub open spec fn taking(self) -> bool {
        !self.finished && self.broken is None
    }

    /// Something that was read from a piece of the body.
    pub open spec fn take_item(self, item: DecodedView) -> (SessionView, Seq<sse::EventView>) {
        let (v, ev) = match item {
            DecodedView::Event(e) => self.stream.take_events(e),
            DecodedView::Failure { fatal, message } => decode_failed(self.stream, fatal, message),
        };
        (SessionView { stream: v, in_chunk: true, ..self }, ev)
    }

    /// The end of a piece of the body: a stream that failed goes on no longer.
    pub open spec fn end_chunk(self) -> SessionView {
        SessionView { finished: self.stream.failed, in_chunk: false, ..self }
    }

    /// Whether the request may be replayed when the body breaks off: the client has
    /// seen nothing, it was not for waiting too long, and there are replays left.
    pub open spec fn may_replay(self, timeout: bool) -> bool {
        !self.stream.client_saw_output() && !timeout && self.restarter.remaining > 0
    }

    /// The replay of the request.
    pub open spec fn replaying(self, message: Seq<char>) -> SessionView {
        SessionView {
            restarter: RestarterView {
                remaining: (self.restarter.remaining - 1) as nat,
                ..self.restarter
            },
            broken: Some(message),
            ..self
        }
    }

    /// A body that broke off for good. An answer that has begun ends as one that was
    /// cut short; a client that has seen nothing gets an error.
    pub open spec fn close(self, message: Seq<char>) -> (SessionView, Seq<sse::EventView>) {
        let s = stream_model::StreamView { failed: true, ..self.stream };
        let (v, ev) = if s.client_saw_output() {
            s.finalize_on_interrupt()
        } else {
            let (w, last) = s.finalize_on_failure();
            (w, seq![stream_model::error_event("Upstream stream error: "@ + message)] + last)
        };
        (SessionView { stream: v, finished: true, broken: None, ..self }, ev)
    }

    /// A request that was replayed: the stream begins anew.
    pub open spec fn replayed(self, message_id: Seq<char>) -> SessionView {
        SessionView { stream: self.restarter.stream(message_id), broken: None, ..self }
    }

    /// The end of the body.
    pub open spec fn end(self) -> (SessionView, Seq<sse::EventView>) {
        let (v, ev) = self.stream.finalize();
        (SessionView { stream: v, finished: true, ..self }, ev)
    }
}

/// Events on the wire.
pub open spec fn wire(events: Seq<sse::EventView>) -> Seq<Seq<char>> {
    events.map_values(|e: sse::EventView| sse::wire_text(e))
}

pub open spec fn texts_view(v: Seq<String>) -> Seq<Seq<char>> {
    v.map_values(|s: String| s@)
}

/// Puts events on the wire.
pub fn to_wire(events: &Vec<SseEvent>) -> (r: Vec<String>)
    ensures
        texts_view(r@) == wire(sse::events_view(events@)),
{
    let mut r: Vec<String> = Vec::new();
    let ghost all = wire(sse::events_view(events@));
    let n: usize = events.len();
    let mut i: usize = 0;
    while i < n
        invariant
            i <= n == events@.len(),
            all == wire(sse::events_view(events@)),
            texts_view(r@) == all.take(i as int),
        decreases n - i,
    {
        let ghost before = texts_view(r@);
        r.push(events[i].to_sse_string());
        let ghost t = sse::wire_text(events@[i as int]@);
        assert(texts_view(r@) =~= before.push(t));
        assert(all[i as int] == t);
        assert(all.take(i + 1) =~= all.take(i as int).push(t));
        i = i + 1;
    }
    assert(all.take(i as int) =~= all);
    r
}

/// A failure to read the body; see [`decode_failed`]. A fatal one is counted.
pub fn handle_stream_decode_error(
    events: &mut Vec<SseEvent>,
    ctx: &mut StreamContext,
    fatal: bool,
    message: &str,
    m: &mut Metrics,
)
    ensures
        ({
            let (v, ev) = decode_failed(old(ctx)@, fatal, message@);
            &&& final(ctx)@ == v
            &&& sse::events_view(final(events)@) == sse::events_view(old(events)@) + ev
        }),
        *final(m) == if fatal {
            Metrics {
                stream_decode_failures: metrics::next_count(old(m).stream_decode_failures),
                ..*old(m)
            }
        } else {
            *old(m)
        },
{
    let ghost before = sse::events_view(events@);
    if fatal {
        ctx.stream_failed = true;
        metrics::inc_stream_decode_failure(m);
        let mut s: String = "Stream decode failed: ".to_owned();
        s.append(message);
        let e: SseEvent = StreamContext::create_error_event(s.as_str());
        let ghost v = e@;
        events.push(e);
        assert(sse::events_view(events@) =~= before + seq![v]);
    } else {
        assert(before + Seq::empty() =~= before);
    }
}

/// A ping on the wire.
pub fn create_ping_sse() -> (r: String)
    ensures
        r@ == "event: ping\ndata: {\"type\": \"ping\"}\n\n"@,
{
    "event: ping\ndata: {\"type\": \"ping\"}\n\n".to_owned()
}

impl SseSession {
    /// A stream at its beginning. All replays are left.
    pub fn new(ctx: StreamContext, restarter: StreamRestarter) -> (r: Self)
        ensures
            r@ == (SessionView {
                stream: ctx@,
                restarter: restarter@,
                finished: false,
                in_chunk: false,
                broken: None,
            }),
    {
        SseSession { ctx, restarter, finished: false, in_chunk: false, broken: None }
    }

    /// Something that was read from a piece of the body; see
    /// [`SessionView::take_item`].
    pub fn take_item(&mut self, item: &Decoded, m: &mut Metrics) -> (r: Vec<String>)
        requires
            old(self)@.taking(),
            item@ matches DecodedView::Event(e) ==> old(self)@.stream.has_room(4)
                && old(self)@.stream.accepts(e),
        ensures
            final(self)@ == old(self)@.take_item(item@).0,
            texts_view(r@) == wire(old(self)@.take_item(item@).1),
            *final(m) == match item@ {
                DecodedView::Failure { fatal: true, .. } => Metrics {
                    stream_decode_failures: metrics::next_count(old(m).stream_decode_failures),
                    ..*old(m)
                },
                _ => *old(m),
            },
    {
        self.in_chunk = true;
        let out: Vec<SseEvent> = match item {
            Decoded::Event(e) => self.ctx.take_events_for_kiro(e),
            Decoded::Failure { fatal, message } => {
                let mut out: Vec<SseEvent> = Vec::new();
                assert(sse::events_view(out@) =~= Seq::empty());
                handle_stream_decode_error(&mut out, &mut self.ctx, *fatal, message.as_str(), m);
                assert(Seq::<sse::EventView>::empty() + old(self)@.take_item(item@).1 =~= old(
                    self,
                )@.take_item(item@).1);
                out
            },
        };
        to_wire(&out)
    }

    /// The end of a piece of the body; see [`SessionView::end_chunk`].
    pub fn end_chunk(&mut self)
        requires
            old(self)@.taking(),
        ensures
            final(self)@ == old(self)@.end_chunk(),
    {
        self.in_chunk = false;
        self.finished = self.ctx.stream_failed;
    }

    fn close(&mut self, message: &str) -> (r: Vec<String>)
        requires
            old(self)@.stream.has_room(1),
        ensures
            final(self)@ == old(self)@.close(message@).0,
            texts_view(r@) == wire(old(self)@.close(message@).1),
    {
        self.ctx.stream_failed = true;
        self.finished = true;
        self.broken = None;
        if self.ctx.client_saw_output() {
            let out: Vec<SseEvent> = self.ctx.finalize_stream_on_interrupt();
            to_wire(&out)
        } else {
            let mut s: String = "Upstream stream error: ".to_owned();
            s.append(message);
            let e: SseEvent = StreamContext::create_error_event(s.as_str());
            let mut out: Vec<SseEvent> = Vec::new();
            let ghost v = e@;
            out.push(e);
            let mut last: Vec<SseEvent> = self.ctx.finalize_stream_on_failure();
            let ghost rest = sse::events_view(last@);
            out.append(&mut last);
            assert(sse::events_view(out@) =~= seq![v] + rest);
            to_wire(&out)
        }
    }

    /// The body broke off. Where the request may be replayed, nothing is sent, and the
    /// request is to be made again; otherwise the stream ends.
    pub fn body_failed(&mut self, message: &str, timeout: bool, m: &mut Metrics) -> (r: Option<
        Vec<String>,
    >)
        requires
            old(self)@.reading(),
            old(self)@.stream.has_room(1),
        ensures
            if old(self)@.may_replay(timeout) {
                final(self)@ == old(self)@.replaying(message@) && r is None
            } else {
                &&& final(self)@ == old(self)@.close(message@).0
                &&& r is Some
                &&& texts_view(r.unwrap()@) == wire(old(self)@.close(message@).1)
            },
            *final(m) == (Metrics {
                stream_interrupted: metrics::next_count(old(m).stream_interrupted),
                ..*old(m)
            }),
    {
        metrics::inc_stream_interrupted(m);
        if !self.ctx.client_saw_output() && !timeout && self.restarter.remaining > 0 {
            self.restarter.remaining = self.restarter.remaining - 1;
            self.broken = Some(message.to_owned());
            return None;
        }
        Some(self.close(message))
    }

    /// The request was replayed: the stream begins anew, with another message id.
    pub fn replayed(&mut self, m: &mut Metrics)
        requires
            old(self)@.broken is Some,
        ensures
            exists|uuid: Seq<char>| #[trigger]
                outside::uuid_shape(uuid) && final(self)@ == old(self)@.replayed(
                    stream::message_id_of(uuid),
                ),
            *final(m) == (Metrics {
                stream_restarted: metrics::next_count(old(m).stream_restarted),
                ..*old(m)
            }),
    {
        metrics::inc_stream_restarted(m);
        self.ctx = self.restarter.build_ctx();
        self.broken = None;
    }

    /// The request could not be replayed: the stream ends as one whose body broke off.
    pub fn replay_failed(&mut self) -> (r: Vec<String>)
        requires
            old(self)@.broken is Some,
            old(self)@.stream.has_room(1),
        ensures
            final(self)@ == old(self)@.close(old(self)@.broken.unwrap()).0,
            texts_view(r@) == wire(old(self)@.close(old(self)@.broken.unwrap()).1),
    {
        let ghost v = self@;
        let message: String = match self.broken.take() {
            Some(s) => s,
            None => String::new(),
        };
        assert(self@.close(message@) == v.close(message@));
        self.close(message.as_str())
    }

    /// The body came to its end.
    pub fn body_ended(&mut self) -> (r: Vec<String>)
        requires
            old(self)@.reading(),
            old(self)@.stream.has_room(4),
        ensures
            final(self)@ == old(self)@.end().0,
            texts_view(r@) == wire(old(self)@.end().1),
    {
        self.finished = true;
        let out: Vec<SseEvent> = self.ctx.finalize_stream();
        to_wire(&out)
    }
}

/// What can happen to a session.
pub enum Happening {
    Item(DecodedView),
    ChunkEnd,
    Broken { message: Seq<char>, timeout: bool },
    Replayed { message_id: Seq<char> },
    NotReplayed,
    End,
}

/// A session in progress: its state, the events it has sent, and how often it asked
/// for a replay.
pub struct Progress {
    pub session: SessionView,
    pub sent: Seq<sse::EventView>,
    pub replays: nat,
}

impl Progress {
    /// Whether something can happen now.
    pub open spec fn allows(self, h: Happening) -> bool {
        match h {
            Happening::Item(_) => self.session.taking(),
            Happening::ChunkEnd => self.session.taking(),
            Happening::Broken { .. } => self.session.reading(),
            Happening::Replayed { .. } => self.session.broken is Some,
            Happening::NotReplayed => self.session.broken is Some,
            Happening::End => self.session.reading(),
        }
    }

    /// The session after something has happened.
    pub open spec fn step(self, h: Happening) -> Progress {
        match h {
            Happening::Item(item) => {
                let (s, ev) = self.session.take_item(item);
                Progress { session: s, sent: self.sent + ev, ..self }
            },
            Happening::ChunkEnd => Progress { session: self.session.end_chunk(), ..self },
            Happening::Broken { message, timeout } => if self.session.may_replay(timeout) {
                Progress {
                    session: self.session.replaying(message),
                    replays: self.replays + 1,
                    ..self
                }
            } else {
                let (s, ev) = self.session.close(message);
                Progress { session: s, sent: self.sent + ev, ..self }
            },
            Happening::Replayed { message_id } => Progress {
                session: self.session.replayed(message_id),
                ..self
            },
            Happening::NotReplayed => {
                let (s, ev) = self.session.close(self.session.broken.unwrap());
                Progress { session: s, sent: self.sent + ev, ..self }
            },
            Happening::End => {
                let (s, ev) = self.session.end();
                Progress { session: s, sent: self.sent + ev, ..self }
            },
        }
    }
}

/// A session at its start.
pub open spec fn started(restarter: RestarterView, message_id: Seq<char>) -> Progress {
    Progress {
        session: SessionView {
            stream: restarter.stream(message_id),
            restarter,
            finished: false,
            in_chunk: false,
            broken: None,
        },
        sent: Seq::empty(),
        replays: 0,
    }
}

/// A session after these things have happened.
pub open spec fn after(p: Progress, h: Seq<Happening>) -> Progress
    decreases h.len(),
{
    if h.len() == 0 {
        p
    } else {
        after(p, h.drop_last()).step(h.last())
    }
}

/// Whether each of these things can happen when it does.
pub open spec fn possible(p: Progress, h: Seq<Happening>) -> bool
    decreases h.len(),
{
    h.len() > 0 ==> possible(p, h.drop_last()) && after(p, h.drop_last()).allows(h.last())
}

/// A session that is being replayed has sent nothing, nor has one that is between two
/// pieces of the body and whose client has seen no output.
spec fn silent_until_output(p: Progress) -> bool {
    &&& p.session.broken is Some ==> p.sent.len() == 0 && !p.session.in_chunk
        && !p.session.finished
    &&& !p.session.finished && !p.session.stream.failed
        && !p.session.stream.client_saw_output() ==> p.sent.len() == 0
    &&& !p.session.in_chunk && !p.session.finished ==> !p.session.stream.failed
}

proof fn lemma_take_silent(v: stream_model::StreamView, e: events::KiroEventView)
    ensures
        ({
            let (w, ev) = v.take_events(e);
            &&& !w.client_saw_output() ==> ev.len() == 0 && !v.client_saw_output()
            &&& v.failed ==> w == v
        }),
{
    stream_model::lemma_initial(v);
    stream_model::lemma_kiro_event(v, e);
    stream_model::lemma_kiro_event(v.prepared(), e);
    stream_model::lemma_kiro_event(
        stream_model::StreamView { initialized: true, ..v.initial().0 },
        e,
    );
}

proof fn lemma_silent(r: RestarterView, message_id: Seq<char>, h: Seq<Happening>)
    requires
        possible(started(r, message_id), h),
    ensures
        silent_until_output(after(started(r, message_id), h)),
        after(started(r, message_id), h).replays + after(
            started(r, message_id),
            h,
        ).session.restarter.remaining == r.remaining,
    decreases h.len(),
{
    if h.len() > 0 {
        let p = started(r, message_id);
        lemma_silent(r, message_id, h.drop_last());
        let q = after(p, h.drop_last());
        if let Happening::Item(DecodedView::Event(e)) = h.last() {
            lemma_take_silent(q.session.stream, e);
        }
    }
}

/// A request is replayed only where the client cannot notice it: up to then, not one
/// event was sent. And it is replayed no more often than there are replays.
pub proof fn law_replay_is_unnoticed(
    restarter: RestarterView,
    message_id: Seq<char>,
    h: Seq<Happening>,
)
    requires
        possible(started(restarter, message_id), h),
    ensures
        ({
            let p = after(started(restarter, message_id), h);
            &&& p.session.broken is Some ==> p.sent.len() == 0
            &&& p.replays <= restarter.remaining
        }),
{
    lemma_silent(restarter, message_id, h);
}

/// Whether none of these events is an error.
pub open spec fn no_error(events: Seq<sse::EventView>) -> bool {
    forall|k: int| 0 <= k < events.len() ==> !((#[trigger] events[k]).data is Error)
}

proof fn lemma_stops_no_error(
    blocks: Seq<state_manager::BlockView>,
    p: spec_fn(state_manager::BlockView) -> bool,
)
    ensures
        no_error(state_manager::stops_for(blocks, p)),
    decreases blocks.len(),
{
    if blocks.len() > 0 {
        lemma_stops_no_error(blocks.drop_last(), p);
    }
}

proof fn lemma_initial_no_error(v: stream_model::StreamView)
    ensures
        no_error(v.initial().1),
{
    reveal(stream_model::StreamView::initial);
    reveal(stream_model::StreamView::open_block);
    reveal(state_manager::ManagerView::start_block);
    protocol::lemma_kinds();
}

proof fn lemma_finish_no_error(v: stream_model::StreamView, input: int, output: int)
    ensures
        no_error(v.finish(input, output).1),
{
    reveal(stream_model::StreamView::finish);
    reveal(state_manager::ManagerView::finish);
    lemma_stops_no_error(v.manager.blocks, state_manager::open_blocks(false));
}

proof fn lemma_failure_no_error(v: stream_model::StreamView)
    requires
        !v.waiting(),
    ensures
        no_error(v.finalize_on_failure().1),
{
    let u = v.report_usage();
    lemma_initial_no_error(u);
    let (x, first) = if !u.manager.message_started {
        (stream_model::StreamView { initialized: true, ..u.initial().0 }, u.initial().1)
    } else {
        (u, Seq::empty())
    };
    let w = stream_model::StreamView {
        manager: stream_model::discard_held(x.manager, x.buffered, x.tool_indices),
        buffered: Seq::empty(),
        ..x
    };
    let output = if w.effective_output() < 1 {
        1
    } else {
        w.effective_output()
    };
    lemma_finish_no_error(w, w.effective_input(), output);
    assert(v.finalize_on_failure().1 == first + w.finish(w.effective_input(), output).1);
}

/// A client that has seen output never gets an error when the body breaks off: its
/// message ends as one that was cut short.
pub proof fn law_no_error_after_output(s: SessionView, message: Seq<char>)
    requires
        s.stream.client_saw_output(),
    ensures
        no_error(s.close(message).1),
        s.close(message).0.finished,
{
    let v = stream_model::StreamView { failed: true, ..s.stream };
    lemma_failure_no_error(v.with_stop_reason("max_tokens"@));
}

proof fn lemma_discard_keeps(
    m: state_manager::ManagerView,
    held: Seq<(Seq<char>, sse::EventView)>,
    indices: Seq<(Seq<char>, int)>,
)
    ensures
        stream_model::discard_held(m, held, indices).stop_reason == m.stop_reason,
        stream_model::discard_held(m, held, indices).message_delta_sent == m.message_delta_sent,
    decreases held.len(),
{
    if held.len() > 0 {
        lemma_discard_keeps(m, held.drop_last(), indices);
    }
}

proof fn lemma_initial_keeps(v: stream_model::StreamView)
    ensures
        v.initial().0.manager.stop_reason == v.manager.stop_reason,
        v.initial().0.manager.message_delta_sent == v.manager.message_delta_sent,
{
    reveal(stream_model::StreamView::initial);
    reveal(stream_model::StreamView::open_block);
    reveal(state_manager::ManagerView::start_block);
}

/// The events of a message that ends as one that was cut short.
pub open spec fn cut_short(events: Seq<sse::EventView>) -> bool {
    exists|k: int|
        {
            &&& 0 <= k < events.len()
            &&& (#[trigger] events[k]).data is MessageDelta
            &&& events[k].data->stop_reason == "max_tokens"@
            &&& events[k].data->output_tokens >= 1
        }
}

proof fn lemma_close_cuts_short(s: SessionView, message: Seq<char>)
    requires
        s.stream.client_saw_output(),
        !s.stream.manager.message_delta_sent,
    ensures
        cut_short(s.close(message).1),
{
    let v = (stream_model::StreamView { failed: true, ..s.stream }).with_stop_reason(
        "max_tokens"@,
    );
    let u = v.report_usage();
    lemma_initial_keeps(u);
    let (x, first) = if !u.manager.message_started {
        (stream_model::StreamView { initialized: true, ..u.initial().0 }, u.initial().1)
    } else {
        (u, Seq::empty())
    };
    lemma_discard_keeps(x.manager, x.buffered, x.tool_indices);
    let w = stream_model::StreamView {
        manager: stream_model::discard_held(x.manager, x.buffered, x.tool_indices),
        buffered: Seq::empty(),
        ..x
    };
    let output = if w.effective_output() < 1 {
        1
    } else {
        w.effective_output()
    };
    let ev = w.finish(w.effective_input(), output).1;
    assert(v.finalize_on_failure().1 == first + ev);
    reveal(stream_model::StreamView::finish);
    reveal(state_manager::ManagerView::finish);
    let k = state_manager::stops_for(w.manager.blocks, state_manager::open_blocks(false)).len();
    let e = state_manager::message_delta_event("max_tokens"@, w.effective_input(), output);
    assert(ev[k as int] == e);
    assert((first + ev)[(first.len() + k) as int] == e);
}

/// The events without the errors among them.
pub open spec fn without_errors(events: Seq<sse::EventView>) -> Seq<sse::EventView>
    decreases events.len(),
{
    if events.len() == 0 {
        Seq::empty()
    } else if events.last().data is Error {
        without_errors(events.drop_last())
    } else {
        without_errors(events.drop_last()).push(events.last())
    }
}

proof fn lemma_without_errors_concat(a: Seq<sse::EventView>, b: Seq<sse::EventView>)
    ensures
        without_errors(a + b) == without_errors(a) + without_errors(b),
    decreases b.len(),
{
    if b.len() == 0 {
        assert(a + b =~= a);
        assert(without_errors(a) + without_errors(b) =~= without_errors(a));
    } else {
        lemma_without_errors_concat(a, b.drop_last());
        assert((a + b).drop_last() =~= a + b.drop_last());
        if !(b.last().data is Error) {
            assert(without_errors(a + b) =~= without_errors(a) + without_errors(b));
        }
    }
}

/// An error changes nothing for a client that keeps to the protocol.
proof fn lemma_run_without_errors(c: protocol::Client, events: Seq<sse::EventView>)
    requires
        c.run(events) is Some,
    ensures
        c.run(without_errors(events)) == c.run(events),
    decreases events.len(),
{
    if events.len() > 0 {
        lemma_run_without_errors(c, events.drop_last());
        let w = without_errors(events.drop_last());
        if !(events.last().data is Error) {
            assert(w.push(events.last()).drop_last() =~= w);
        }
    }
}

/// More events that a client can take, after those that it has got.
proof fn lemma_sent(sent: Seq<sse::EventView>, c: protocol::Client, ev: Seq<sse::EventView>)
    requires
        protocol::new_client().run(without_errors(sent)) == Some(c),
        c.run(ev) is Some,
    ensures
        protocol::new_client().run(without_errors(sent + ev)) == c.run(ev),
{
    lemma_without_errors_concat(sent, ev);
    lemma_run_without_errors(c, ev);
    protocol::lemma_run_concat(
        protocol::new_client(),
        without_errors(sent),
        without_errors(ev),
    );
}

/// A failure is not in the books.
proof fn lemma_failed_follows(v: stream_model::StreamView, a: protocol::Client)
    requires
        stream_laws::follows(v, a),
    ensures
        stream_laws::follows(stream_model::StreamView { failed: true, ..v }, a),
{
    let w = stream_model::StreamView { failed: true, ..v };
    if v.initialized {
        let c = if v.waiting() {
            protocol::new_client().run(v.pending).unwrap()
        } else {
            a
        };
        stream_laws::lemma_live_fields(v, w, c);
    }
}

/// The client of a session, apart from errors: it follows the stream until the session
/// is over.
spec fn in_order(p: Progress) -> bool {
    let c = protocol::new_client().run(without_errors(p.sent));
    c is Some && (!p.session.finished ==> stream_laws::follows(p.session.stream, c.unwrap()))
}

/// What a body that broke off for good sends ends the message.
proof fn lemma_close_ends(p: Progress, message: Seq<char>)
    requires
        in_order(p),
        !p.session.finished,
    ensures
        ({
            let c = protocol::new_client().run(
                without_errors(p.sent + p.session.close(message).1),
            );
            c is Some && c.unwrap().ended && c.unwrap().all_closed()
        }),
{
    let c = protocol::new_client().run(without_errors(p.sent)).unwrap();
    let v = stream_model::StreamView { failed: true, ..p.session.stream };
    lemma_failed_follows(p.session.stream, c);
    if v.client_saw_output() {
        stream_laws::lemma_interrupt_follows(v, c);
        stream_laws::lemma_failure_ends(v.with_stop_reason("max_tokens"@), c);
        lemma_sent(p.sent, c, v.finalize_on_interrupt().1);
    } else {
        stream_laws::lemma_failure_ends(v, c);
        let error = seq![stream_model::error_event("Upstream stream error: "@ + message)];
        let last = v.finalize_on_failure().1;
        assert(error.drop_last() =~= Seq::empty());
        assert(without_errors(error) =~= Seq::empty()) by {
            reveal_with_fuel(without_errors, 2);
        }
        lemma_without_errors_concat(p.sent, error);
        assert(without_errors(p.sent + error) =~= without_errors(p.sent));
        lemma_sent(p.sent + error, c, last);
        assert(p.sent + (error + last) =~= p.sent + error + last);
    }
}

/// Whether the body comes to its end before the client of a stream that is not delayed
/// has seen anything.
pub open spec fn ends_unseen(p: Progress, h: Seq<Happening>) -> bool {
    h.len() > 0 && h.last() is End && !after(p, h.drop_last()).session.stream.delayed && !after(
        p,
        h.drop_last(),
    ).session.stream.client_saw_output()
}

/// Whether the client of a session has its whole message, apart from errors.
spec fn message_over(p: Progress) -> bool {
    let c = protocol::new_client().run(without_errors(p.sent)).unwrap();
    c.ended && c.all_closed()
}

proof fn lemma_step_in_order(p: Progress, h: Happening)
    requires
        in_order(p),
        silent_until_output(p),
        p.allows(h),
        h is End ==> p.session.stream.delayed || p.session.stream.client_saw_output(),
    ensures
        in_order(p.step(h)),
        p.step(h).session.finished ==> h is ChunkEnd || message_over(p.step(h)),
{
    let c = protocol::new_client().run(without_errors(p.sent)).unwrap();
    match h {
        Happening::Item(DecodedView::Event(e)) => {
            stream_laws::lemma_take_follows(p.session.stream, c, e);
            lemma_sent(p.sent, c, p.session.stream.take_events(e).1);
        },
        Happening::Item(DecodedView::Failure { fatal, message }) => {
            lemma_failed_follows(p.session.stream, c);
            let ev = decode_failed(p.session.stream, fatal, message).1;
            assert(without_errors(ev) =~= Seq::empty()) by {
                reveal_with_fuel(without_errors, 2);
            }
            lemma_without_errors_concat(p.sent, ev);
            assert(without_errors(p.sent + ev) =~= without_errors(p.sent));
        },
        Happening::ChunkEnd => {},
        Happening::Broken { message, timeout } => {
            if !p.session.may_replay(timeout) {
                lemma_close_ends(p, message);
            }
        },
        Happening::Replayed { message_id } => {
            assert(p.sent =~= Seq::empty());
            assert(stream_laws::fresh(p.session.restarter.stream(message_id)));
        },
        Happening::NotReplayed => {
            lemma_close_ends(p, p.session.broken.unwrap());
        },
        Happening::End => {
            stream_laws::lemma_finalize_ends(p.session.stream, c);
            lemma_sent(p.sent, c, p.session.stream.finalize().1);
        },
    }
}

/// Nothing happens to a session that has come to its end.
proof fn lemma_end_is_last(p: Progress, h: Seq<Happening>, next: Happening)
    requires
        possible(p, h),
        h.len() > 0,
        h.last() is End,
    ensures
        !after(p, h).allows(next),
{
    assert(after(p, h.drop_last()).allows(h.last()));
}

proof fn lemma_in_order(r: RestarterView, message_id: Seq<char>, h: Seq<Happening>)
    requires
        possible(started(r, message_id), h),
        !ends_unseen(started(r, message_id), h),
    ensures
        in_order(after(started(r, message_id), h)),
        h.len() > 0 && after(started(r, message_id), h).session.finished ==> h.last() is ChunkEnd
            || message_over(after(started(r, message_id), h)),
    decreases h.len(),
{
    let start = started(r, message_id);
    if h.len() == 0 {
        assert(stream_laws::fresh(r.stream(message_id)));
    } else {
        let rest = h.drop_last();
        assert(possible(start, rest));
        if rest.len() > 0 && rest.last() is End {
            lemma_end_is_last(start, rest, h.last());
        }
        lemma_in_order(r, message_id, rest);
        lemma_silent(r, message_id, rest);
        lemma_step_in_order(after(start, rest), h.last());
    }
}

/// Whatever comes of the upstream body, with replays or without, the client gets, apart
/// from errors, events that keep to the protocol. When the body has come to its end, or
/// has broken off for good, the message is ended, with no block left open. A session that
/// is given up inside a piece of the body stops where it is.
///
/// A session that is not delayed and whose body comes to its end without a single event
/// sends no `message_start`; it is left out.
pub proof fn law_session_keeps_protocol(
    restarter: RestarterView,
    message_id: Seq<char>,
    h: Seq<Happening>,
)
    requires
        possible(started(restarter, message_id), h),
        !ends_unseen(started(restarter, message_id), h),
    ensures
        ({
            let p = after(started(restarter, message_id), h);
            let c = protocol::new_client().run(without_errors(p.sent));
            &&& c is Some
            &&& h.len() > 0 && p.session.finished && !(h.last() is ChunkEnd) ==> c.unwrap().ended
                && c.unwrap().all_closed()
        }),
{
    lemma_in_order(restarter, message_id, h);
}

/// An answer that has begun and whose body breaks off tells the client that it was cut
/// short, with at least one token of output, so that the client can go on from there.
pub proof fn law_broken_answer_is_cut_short(
    restarter: RestarterView,
    message_id: Seq<char>,
    h: Seq<Happening>,
    message: Seq<char>,
)
    requires
        possible(started(restarter, message_id), h),
        !after(started(restarter, message_id), h).session.finished,
        after(started(restarter, message_id), h).session.stream.client_saw_output(),
    ensures
        cut_short(after(started(restarter, message_id), h).session.close(message).1),
{
    lemma_in_order(restarter, message_id, h);
    lemma_close_cuts_short(after(started(restarter, message_id), h).session, message);
}

} // verus!
