//! The state machine behind an event sequence: one `message_start`, each content
//! block started, filled and stopped in this order, then one `message_delta` and
//! one `message_stop`.

use vstd::prelude::*;
use vstd::string::*;
use crate::anthropic::sse;
use crate::anthropic::sse::{SseData, SseEvent};
use crate::text;

verus! {

/// The state of a content block.
#[derive(Debug)]
pub struct BlockState {
    pub block_type: String,
    pub started: bool,
    pub stopped: bool,
}

impl BlockState {
    pub fn new(block_type: &str) -> (r: Self)
        ensures
            r.block_type@ == block_type@,
            !r.started,
            !r.stopped,
    {
        BlockState { block_type: block_type.to_owned(), started: false, stopped: false }
    }
}

/// Keeps the sequence of events of one message in order.
#[derive(Debug)]
pub struct SseStateManager {
    message_started: bool,
    message_delta_sent: bool,
    active_blocks: Vec<(i32, BlockState)>,
    message_ended: bool,
    next_block_index: i32,
    stop_reason: Option<String>,
    has_tool_use: bool,
}

/// The view of a content block.
pub struct BlockView {
    pub index: int,
    pub kind: Seq<char>,
    pub started: bool,
    pub stopped: bool,
}

/// The view of the state machine.
pub struct ManagerView {
    pub message_started: bool,
    pub message_delta_sent: bool,
    pub blocks: Seq<BlockView>,
    pub message_ended: bool,
    pub next_block_index: int,
    pub stop_reason: Option<Seq<char>>,
    pub has_tool_use: bool,
}

pub open spec fn block_view(b: (i32, BlockState)) -> BlockView {
    BlockView {
        index: b.0 as int,
        kind: b.1.block_type@,
        started: b.1.started,
        stopped: b.1.stopped,
    }
}

impl View for SseStateManager {
    type V = ManagerView;

    closed spec fn view(&self) -> ManagerView {
        ManagerView {
            message_started: self.message_started,
            message_delta_sent: self.message_delta_sent,
            blocks: self.active_blocks@.map_values(|b: (i32, BlockState)| block_view(b)),
            message_ended: self.message_ended,
            next_block_index: self.next_block_index as int,
            stop_reason: match self.stop_reason {
                Some(r) => Some(r@),
                None => None,
            },
            has_tool_use: self.has_tool_use,
        }
    }
}

impl BlockView {
    /// Whether the block can take additions.
    pub open spec fn is_open(self) -> bool {
        self.started && !self.stopped
    }
}

/// Where the block with an index stands among the blocks.
pub open spec fn find_block(blocks: Seq<BlockView>, index: int) -> Option<int> {
    text::search(|i: int| blocks[i].index == index, 0, blocks.len() as int)
}

pub open spec fn message_start_event(data: sse::DataView) -> sse::EventView {
    sse::EventView { event: "message_start"@, data }
}

pub open spec fn start_event(data: sse::DataView) -> sse::EventView {
    sse::EventView { event: "content_block_start"@, data }
}

pub open spec fn delta_event(data: sse::DataView) -> sse::EventView {
    sse::EventView { event: "content_block_delta"@, data }
}

pub open spec fn stop_event(index: int) -> sse::EventView {
    sse::EventView { event: "content_block_stop"@, data: sse::DataView::BlockStop { index } }
}

pub open spec fn message_delta_event(
    stop_reason: Seq<char>,
    input_tokens: int,
    output_tokens: int,
) -> sse::EventView {
    sse::EventView {
        event: "message_delta"@,
        data: sse::DataView::MessageDelta { stop_reason, input_tokens, output_tokens },
    }
}

pub open spec fn message_stop_event() -> sse::EventView {
    sse::EventView { event: "message_stop"@, data: sse::DataView::MessageStop }
}

/// The stop events for the blocks that a predicate picks, in the blocks' order.
pub open spec fn stops_for(
    blocks: Seq<BlockView>,
    p: spec_fn(BlockView) -> bool,
) -> Seq<sse::EventView>
    decreases blocks.len(),
{
    if blocks.len() == 0 {
        Seq::empty()
    } else if p(blocks.last()) {
        stops_for(blocks.drop_last(), p).push(stop_event(blocks.last().index))
    } else {
        stops_for(blocks.drop_last(), p)
    }
}

/// The blocks with those stopped that a predicate picks.
pub open spec fn stopped_where(
    blocks: Seq<BlockView>,
    p: spec_fn(BlockView) -> bool,
) -> Seq<BlockView> {
    blocks.map_values(
        |b: BlockView|
            if p(b) {
                BlockView { stopped: true, ..b }
            } else {
                b
            },
    )
}

/// Picks the blocks that are open: all of them, or those of text alone.
pub open spec fn open_blocks(text_only: bool) -> spec_fn(BlockView) -> bool {
    |b: BlockView| b.is_open() && (text_only ==> b.kind == "text"@)
}

impl ManagerView {
    /// No index occurs twice.
    pub open spec fn wf(self) -> bool {
        forall|i: int, j: int|
            0 <= i < j < self.blocks.len() ==> (#[trigger] self.blocks[i]).index != (
            #[trigger] self.blocks[j]).index
    }

    /// The block with an index, if it is known.
    pub open spec fn block(self, index: int) -> Option<BlockView> {
        match find_block(self.blocks, index) {
            Some(i) => Some(self.blocks[i]),
            None => None,
        }
    }

    /// The reason that the message will end with.
    pub open spec fn final_stop_reason(self) -> Seq<char> {
        match self.stop_reason {
            Some(r) => r,
            None => if self.has_tool_use {
                "tool_use"@
            } else {
                "end_turn"@
            },
        }
    }

    /// Starts a block. A `tool_use` block stops the open text blocks first; a
    /// block that has started already is not started again.
    #[verifier::opaque]
    pub open spec fn start_block(self, index: int, kind: Seq<char>, data: sse::DataView) -> (
        ManagerView,
        Seq<sse::EventView>,
    ) {
        let tool = kind == "tool_use"@;
        let stops = if tool {
            stops_for(self.blocks, open_blocks(true))
        } else {
            Seq::empty()
        };
        let blocks = if tool {
            stopped_where(self.blocks, open_blocks(true))
        } else {
            self.blocks
        };
        let m = ManagerView { blocks, has_tool_use: self.has_tool_use || tool, ..self };
        match find_block(blocks, index) {
            Some(i) => if blocks[i].started {
                (m, stops)
            } else {
                (
                    ManagerView {
                        blocks: blocks.update(i, BlockView { started: true, ..blocks[i] }),
                        ..m
                    },
                    stops.push(start_event(data)),
                )
            },
            None => (
                ManagerView {
                    blocks: blocks.push(BlockView { index, kind, started: true, stopped: false }),
                    ..m
                },
                stops.push(start_event(data)),
            ),
        }
    }

    /// Adds to a block, if it is open.
    #[verifier::opaque]
    pub open spec fn delta(self, index: int, data: sse::DataView) -> Seq<sse::EventView> {
        match self.block(index) {
            Some(b) => if b.is_open() {
                seq![delta_event(data)]
            } else {
                Seq::empty()
            },
            None => Seq::empty(),
        }
    }

    /// Stops a block, if it is known and not stopped yet.
    #[verifier::opaque]
    pub open spec fn stop_block(self, index: int) -> (ManagerView, Seq<sse::EventView>) {
        match find_block(self.blocks, index) {
            Some(i) => if self.blocks[i].stopped {
                (self, Seq::empty())
            } else {
                (
                    ManagerView {
                        blocks: self.blocks.update(i, BlockView { stopped: true, ..self.blocks[i] }),
                        ..self
                    },
                    seq![stop_event(index)],
                )
            },
            None => (self, Seq::empty()),
        }
    }

    /// Forgets a block.
    pub open spec fn discard(self, index: int) -> ManagerView {
        match find_block(self.blocks, index) {
            Some(i) => ManagerView { blocks: self.blocks.remove(i), ..self },
            None => self,
        }
    }

    /// Ends the message: stops what is open, then one `message_delta` and one
    /// `message_stop`, neither of them twice.
    #[verifier::opaque]
    pub open spec fn finish(self, input_tokens: int, output_tokens: int) -> (
        ManagerView,
        Seq<sse::EventView>,
    ) {
        let stops = stops_for(self.blocks, open_blocks(false));
        let delta = if self.message_delta_sent {
            Seq::empty()
        } else {
            seq![message_delta_event(self.final_stop_reason(), input_tokens, output_tokens)]
        };
        let end = if self.message_ended {
            Seq::empty()
        } else {
            seq![message_stop_event()]
        };
        (
            ManagerView {
                blocks: stopped_where(self.blocks, open_blocks(false)),
                message_delta_sent: true,
                message_ended: true,
                ..self
            },
            stops + delta + end,
        )
    }
}

proof fn lemma_operations_keep_wf(
    m: ManagerView,
    index: int,
    kind: Seq<char>,
    data: sse::DataView,
)
    ensures
        m.wf() ==> m.start_block(index, kind, data).0.wf(),
        m.wf() ==> m.stop_block(index).0.wf(),
        m.wf() ==> m.discard(index).wf(),
{
    reveal(ManagerView::start_block);
    reveal(ManagerView::stop_block);
    text::lemma_search(|i: int| m.blocks[i].index == index, 0, m.blocks.len() as int);
    let b = stopped_where(m.blocks, open_blocks(true));
    text::lemma_search(|i: int| b[i].index == index, 0, b.len() as int);
    if m.wf() {
        let blocks = if kind == "tool_use"@ {
            b
        } else {
            m.blocks
        };
        let p = |i: int| blocks[i].index == index;
        text::lemma_search(p, 0, blocks.len() as int);
        if find_block(blocks, index) is None {
            assert forall|i: int| 0 <= i < blocks.len() implies (#[trigger] blocks[i]).index
                != index by {
                assert(!p(i));
            }
        }
    }
}

impl Default for SseStateManager {
    fn default() -> (r: Self)
        ensures
            r@ == (ManagerView {
                message_started: false,
                message_delta_sent: false,
                blocks: Seq::empty(),
                message_ended: false,
                next_block_index: 0,
                stop_reason: None,
                has_tool_use: false,
            }),
    {
        Self::new()
    }
}

impl SseStateManager {
    pub fn new() -> (r: Self)
        ensures
            r@ == (ManagerView {
                message_started: false,
                message_delta_sent: false,
                blocks: Seq::empty(),
                message_ended: false,
                next_block_index: 0,
                stop_reason: None,
                has_tool_use: false,
            }),
            r@.wf(),
    {
        let r = SseStateManager {
            message_started: false,
            message_delta_sent: false,
            active_blocks: Vec::new(),
            message_ended: false,
            next_block_index: 0,
            stop_reason: None,
            has_tool_use: false,
        };
        assert(r@.blocks =~= Seq::empty());
        r
    }

    fn position(&self, index: i32) -> (r: Option<usize>)
        ensures
            match r {
                Some(i) => {
                    &&& find_block(self@.blocks, index as int) == Some(i as int)
                    &&& i < self.active_blocks@.len()
                    &&& self.active_blocks@[i as int].0 == index
                },
                None => find_block(self@.blocks, index as int) is None,
            },
    {
        let ghost blocks = self@.blocks;
        let ghost p = |i: int| blocks[i].index == index as int;
        proof {
            text::lemma_search(p, 0, blocks.len() as int);
        }
        let mut i: usize = 0;
        while i < self.active_blocks.len()
            invariant
                i <= self.active_blocks@.len(),
                blocks == self@.blocks,
                blocks.len() == self.active_blocks@.len(),
                p == (|i: int| blocks[i].index == index as int),
                forall|m: int| 0 <= m < i ==> !(#[trigger] p(m)),
                match text::search(p, 0, blocks.len() as int) {
                    Some(j) => 0 <= j < blocks.len() && p(j) && (forall|m: int|
                        0 <= m < j ==> !(#[trigger] p(m))),
                    None => forall|m: int| 0 <= m < blocks.len() ==> !(#[trigger] p(m)),
                },
            decreases self.active_blocks@.len() - i,
        {
            assert(p(i as int) == (self.active_blocks@[i as int].0 == index));
            if self.active_blocks[i].0 == index {
                return Some(i);
            }
            i = i + 1;
        }
        None
    }

    /// Whether a block is open and of a given type.
    pub fn is_block_open_of_type(&self, index: i32, expected_type: &str) -> (r: bool)
        ensures
            r == match self@.block(index as int) {
                Some(b) => b.is_open() && b.kind == expected_type@,
                None => false,
            },
    {
        match self.position(index) {
            Some(i) => {
                let b: &BlockState = &self.active_blocks[i].1;
                b.started && !b.stopped && text::str_eq(b.block_type.as_str(), expected_type)
            },
            None => false,
        }
    }

    /// Hands out the next block index.
    pub fn next_block_index(&mut self) -> (r: i32)
        requires
            old(self)@.next_block_index < i32::MAX,
        ensures
            r == old(self)@.next_block_index,
            final(self)@ == (ManagerView {
                next_block_index: old(self)@.next_block_index + 1,
                ..old(self)@
            }),
    {
        let index: i32 = self.next_block_index;
        self.next_block_index = index + 1;
        index
    }

    /// The index that the next block will get.
    pub fn peek_block_index(&self) -> (r: i32)
        ensures
            r == self@.next_block_index,
    {
        self.next_block_index
    }

    /// Notes whether a tool is called.
    pub fn set_has_tool_use(&mut self, has: bool)
        ensures
            final(self)@ == (ManagerView { has_tool_use: has, ..old(self)@ }),
    {
        self.has_tool_use = has;
    }

    /// Sets the reason that the message ends with.
    pub fn set_stop_reason(&mut self, reason: &str)
        ensures
            final(self)@ == (ManagerView { stop_reason: Some(reason@), ..old(self)@ }),
    {
        self.stop_reason = Some(reason.to_owned());
    }

    /// Whether there is a block of another type than `thinking`.
    pub fn has_non_thinking_blocks(&self) -> (r: bool)
        ensures
            r == exists|i: int|
                0 <= i < self@.blocks.len() && (#[trigger] self@.blocks[i]).kind != "thinking"@,
    {
        let mut i: usize = 0;
        while i < self.active_blocks.len()
            invariant
                i <= self.active_blocks@.len(),
                forall|j: int| 0 <= j < i ==> (#[trigger] self@.blocks[j]).kind == "thinking"@,
            decreases self.active_blocks@.len() - i,
        {
            if !text::str_eq(self.active_blocks[i].1.block_type.as_str(), "thinking") {
                assert(self@.blocks[i as int].kind != "thinking"@);
                return true;
            }
            i = i + 1;
        }
        false
    }

    /// The reason that the message ends with.
    pub fn get_stop_reason(&self) -> (r: String)
        ensures
            r@ == self@.final_stop_reason(),
    {
        match &self.stop_reason {
            Some(reason) => reason.clone(),
            None => if self.has_tool_use {
                "tool_use".to_owned()
            } else {
                "end_turn".to_owned()
            },
        }
    }

    /// Whether `message_start` was sent.
    pub fn message_started(&self) -> (r: bool)
        ensures
            r == self@.message_started,
    {
        self.message_started
    }

    /// Sends `message_start`, once.
    pub fn handle_message_start(&mut self, event: SseData) -> (r: Option<SseEvent>)
        ensures
            final(self)@ == (ManagerView { message_started: true, ..old(self)@ }),
            match r {
                Some(e) => !old(self)@.message_started && e@ == message_start_event(event@),
                None => old(self)@.message_started,
            },
    {
        if self.message_started {
            return None;
        }
        self.message_started = true;
        Some(SseEvent::new("message_start", event))
    }

    fn stop_open_blocks(&mut self, text_only: bool, events: &mut Vec<SseEvent>)
        ensures
            final(self)@ == (ManagerView {
                blocks: stopped_where(old(self)@.blocks, open_blocks(text_only)),
                ..old(self)@
            }),
            sse::events_view(final(events)@) == sse::events_view(old(events)@) + stops_for(
                old(self)@.blocks,
                open_blocks(text_only),
            ),
    {
        let ghost before = self@;
        let ghost sent = sse::events_view(events@);
        let ghost p = open_blocks(text_only);
        let n: usize = self.active_blocks.len();
        let mut i: usize = 0;
        assert(before.blocks.take(0) =~= Seq::empty());
        assert(sse::events_view(events@) =~= sent + stops_for(before.blocks.take(0), p));
        while i < n
            invariant
                i <= n,
                n == self.active_blocks@.len(),
                p == open_blocks(text_only),
                before.blocks.len() == n,
                self@ == (ManagerView { blocks: self@.blocks, ..before }),
                forall|j: int|
                    0 <= j < i ==> #[trigger] self@.blocks[j] == stopped_where(before.blocks, p)[j],
                forall|j: int| i <= j < n ==> #[trigger] self@.blocks[j] == before.blocks[j],
                sse::events_view(events@) == sent + stops_for(before.blocks.take(i as int), p),
            decreases n - i,
        {
            let ghost start = *self;
            let ghost list = before.blocks.take(i + 1);
            assert(list.drop_last() =~= before.blocks.take(i as int));
            assert(list.last() == before.blocks[i as int]);
            assert(self@.blocks[i as int] == block_view(self.active_blocks@[i as int]));
            let index: i32 = self.active_blocks[i].0;
            let open: bool = {
                let b: &BlockState = &self.active_blocks[i].1;
                b.started && !b.stopped && (!text_only || text::str_eq(
                    b.block_type.as_str(),
                    "text",
                ))
            };
            if open {
                let ghost old_events = events@;
                events.push(SseEvent::new("content_block_stop", SseData::BlockStop { index }));
                assert(sse::events_view(events@) =~= sse::events_view(old_events).push(
                    stop_event(index as int),
                ));
                self.active_blocks[i].1.stopped = true;
                assert(self@.blocks =~= start@.blocks.update(
                    i as int,
                    BlockView { stopped: true, ..start@.blocks[i as int] },
                ));
            }
            i = i + 1;
            assert(sse::events_view(events@) =~= sent + stops_for(list, p));
        }
        assert(before.blocks.take(n as int) =~= before.blocks);
        assert(self@.blocks =~= stopped_where(before.blocks, p));
    }

    /// Starts a block; see [`ManagerView::start_block`].
    pub fn handle_content_block_start(
        &mut self,
        index: i32,
        block_type: &str,
        data: SseData,
    ) -> (r: Vec<SseEvent>)
        ensures
            (final(self)@, sse::events_view(r@)) == old(self)@.start_block(
                index as int,
                block_type@,
                data@,
            ),
            old(self)@.wf() ==> final(self)@.wf(),
    {
        reveal(ManagerView::start_block);
        proof {
            lemma_operations_keep_wf(self@, index as int, block_type@, data@);
        }
        let ghost before = self@;
        let mut events: Vec<SseEvent> = Vec::new();
        assert(sse::events_view(events@) =~= Seq::empty());
        if text::str_eq(block_type, "tool_use") {
            self.has_tool_use = true;
            self.stop_open_blocks(true, &mut events);
            assert(sse::events_view(events@) =~= stops_for(before.blocks, open_blocks(true)));
        }
        let ghost mid = self@;
        let ghost stops = sse::events_view(events@);
        match self.position(index) {
            Some(i) => {
                assert(mid.blocks[i as int] == block_view(self.active_blocks@[i as int]));
                if self.active_blocks[i].1.started {
                    return events;
                }
                self.active_blocks[i].1.started = true;
                assert(self@.blocks =~= mid.blocks.update(
                    i as int,
                    BlockView { started: true, ..mid.blocks[i as int] },
                ));
            },
            None => {
                let mut block = BlockState::new(block_type);
                block.started = true;
                self.active_blocks.push((index, block));
                assert(self@.blocks =~= mid.blocks.push(
                    BlockView {
                        index: index as int,
                        kind: block_type@,
                        started: true,
                        stopped: false,
                    },
                ));
            },
        }
        events.push(SseEvent::new("content_block_start", data));
        assert(sse::events_view(events@) =~= stops.push(start_event(data@)));
        events
    }

    /// Adds to a block; nothing is sent unless it is open.
    pub fn handle_content_block_delta(&mut self, index: i32, data: SseData) -> (r: Option<SseEvent>)
        ensures
            final(self)@ == old(self)@,
            old(self)@.delta(index as int, data@) == match r {
                Some(e) => seq![e@],
                None => Seq::empty(),
            },
    {
        reveal(ManagerView::delta);
        match self.position(index) {
            Some(i) => {
                assert(self@.blocks[i as int] == block_view(self.active_blocks@[i as int]));
                let b: &BlockState = &self.active_blocks[i].1;
                if !b.started || b.stopped {
                    return None;
                }
            },
            None => {
                return None;
            },
        }
        Some(SseEvent::new("content_block_delta", data))
    }

    /// Forgets a block, so that it gets no stop event at the end.
    pub fn discard_block(&mut self, index: i32)
        ensures
            final(self)@ == old(self)@.discard(index as int),
            old(self)@.wf() ==> final(self)@.wf(),
    {
        proof {
            lemma_operations_keep_wf(self@, index as int, Seq::empty(), sse::DataView::MessageStop);
        }
        let ghost before = self@;
        if let Some(i) = self.position(index) {
            self.active_blocks.remove(i);
            assert(self@.blocks =~= before.blocks.remove(i as int));
        }
    }

    /// Stops a block, once.
    pub fn handle_content_block_stop(&mut self, index: i32) -> (r: Option<SseEvent>)
        ensures
            (
                final(self)@,
                match r {
                    Some(e) => seq![e@],
                    None => Seq::empty(),
                },
            ) == old(self)@.stop_block(index as int),
            old(self)@.wf() ==> final(self)@.wf(),
    {
        reveal(ManagerView::stop_block);
        proof {
            lemma_operations_keep_wf(self@, index as int, Seq::empty(), sse::DataView::MessageStop);
        }
        let ghost before = self@;
        if let Some(i) = self.position(index) {
            assert(before.blocks[i as int] == block_view(self.active_blocks@[i as int]));
            if self.active_blocks[i].1.stopped {
                return None;
            }
            self.active_blocks[i].1.stopped = true;
            assert(self@.blocks =~= before.blocks.update(
                i as int,
                BlockView { stopped: true, ..before.blocks[i as int] },
            ));
            return Some(SseEvent::new("content_block_stop", SseData::BlockStop { index }));
        }
        None
    }

    /// Ends the message; see [`ManagerView::finish`].
    pub fn generate_final_events(&mut self, input_tokens: i32, output_tokens: i32) -> (r: Vec<
        SseEvent,
    >)
        ensures
            (final(self)@, sse::events_view(r@)) == old(self)@.finish(
                input_tokens as int,
                output_tokens as int,
            ),
            old(self)@.wf() ==> final(self)@.wf(),
    {
        reveal(ManagerView::finish);
        let ghost before = self@;
        let mut events: Vec<SseEvent> = Vec::new();
        assert(sse::events_view(events@) =~= Seq::empty());
        self.stop_open_blocks(false, &mut events);
        let ghost stops = stops_for(before.blocks, open_blocks(false));
        assert(sse::events_view(events@) =~= stops);
        if !self.message_delta_sent {
            self.message_delta_sent = true;
            let stop_reason: String = self.get_stop_reason();
            events.push(
                SseEvent::new(
                    "message_delta",
                    SseData::MessageDelta { stop_reason, input_tokens, output_tokens },
                ),
            );
        }
        let ghost mid = sse::events_view(events@);
        assert(mid =~= stops + (if before.message_delta_sent {
            Seq::empty()
        } else {
            seq![
                message_delta_event(
                    before.final_stop_reason(),
                    input_tokens as int,
                    output_tokens as int,
                ),
            ]
        }));
        if !self.message_ended {
            self.message_ended = true;
            events.push(SseEvent::new("message_stop", SseData::MessageStop));
        }
        assert(sse::events_view(events@) =~= mid + (if before.message_ended {
            Seq::empty()
        } else {
            seq![message_stop_event()]
        }));
        events
    }
}

} // verus!
