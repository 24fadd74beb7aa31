//! The protocol of an event sequence, as a client follows it, and why the state
//! machine of [`crate::anthropic::state_manager`] keeps to it.

use vstd::prelude::*;
use vstd::string::*;
use crate::anthropic::sse;
use crate::anthropic::state_manager;
use crate::anthropic::stream_model;
use crate::text;

verus! {

/// What a client knows of a message: whether it has started, which blocks have
/// started and whether each of them is open, whether `message_delta` has come,
/// whether the message has ended.
pub struct Client {
    pub started: bool,
    pub blocks: Map<int, bool>,
    pub closing: bool,
    pub ended: bool,
}

/// A client before the first event.
pub open spec fn new_client() -> Client {
    Client { started: false, blocks: Map::empty(), closing: false, ended: false }
}

/// The name that an event must have for its payload.
pub open spec fn event_name(data: sse::DataView) -> Seq<char> {
    match data {
        sse::DataView::Object(_) => Seq::empty(),
        sse::DataView::MessageStart { .. } => "message_start"@,
        sse::DataView::BlockStart { .. } => "content_block_start"@,
        sse::DataView::BlockDelta { .. } => "content_block_delta"@,
        sse::DataView::BlockStop { .. } => "content_block_stop"@,
        sse::DataView::MessageDelta { .. } => "message_delta"@,
        sse::DataView::MessageStop => "message_stop"@,
        sse::DataView::Error { .. } => "error"@,
    }
}

impl Client {
    /// Whether a block has started and not stopped.
    pub open spec fn is_open(self, index: int) -> bool {
        self.blocks.contains_key(index) && self.blocks[index]
    }

    /// Whether no block is open.
    pub open spec fn all_closed(self) -> bool {
        forall|i: int| #[trigger] self.blocks.contains_key(i) ==> !self.blocks[i]
    }

    /// One event. `None` says that the event is against the protocol:
    ///
    /// - `message_start` comes once, before anything else;
    /// - a block starts once, takes additions while it is open, and stops once;
    /// - `message_delta` comes once, when no block is open;
    /// - `message_stop` comes once, after `message_delta`, and is the last event.
    pub open spec fn step(self, e: sse::EventView) -> Option<Client> {
        if e.event != event_name(e.data) || self.ended {
            None
        } else {
            match e.data {
                sse::DataView::MessageStart { .. } => if self.started {
                    None
                } else {
                    Some(Client { started: true, ..self })
                },
                sse::DataView::BlockStart { index, .. } => if self.started && !self.closing
                    && !self.blocks.contains_key(index) {
                    Some(Client { blocks: self.blocks.insert(index, true), ..self })
                } else {
                    None
                },
                sse::DataView::BlockDelta { index, .. } => if !self.closing && self.is_open(index) {
                    Some(self)
                } else {
                    None
                },
                sse::DataView::BlockStop { index } => if !self.closing && self.is_open(index) {
                    Some(Client { blocks: self.blocks.insert(index, false), ..self })
                } else {
                    None
                },
                sse::DataView::MessageDelta { .. } => if self.started && !self.closing
                    && self.all_closed() {
                    Some(Client { closing: true, ..self })
                } else {
                    None
                },
                sse::DataView::MessageStop => if self.closing {
                    Some(Client { ended: true, ..self })
                } else {
                    None
                },
                sse::DataView::Error { .. } => if self.started && !self.closing {
                    Some(self)
                } else {
                    None
                },
                sse::DataView::Object(_) => None,
            }
        }
    }

    /// A sequence of events, one after the other.
    pub open spec fn run(self, events: Seq<sse::EventView>) -> Option<Client>
        decreases events.len(),
    {
        if events.len() == 0 {
            Some(self)
        } else {
            match self.run(events.drop_last()) {
                Some(c) => c.step(events.last()),
                None => None,
            }
        }
    }

    /// The client without a block.
    pub open spec fn without(self, index: int) -> Client {
        Client { blocks: self.blocks.remove(index), ..self }
    }

    /// Whether the message has started and not begun to end.
    pub open spec fn in_message(self) -> bool {
        self.started && !self.closing && !self.ended
    }
}

/// A sequence in two parts is one part after the other.
pub proof fn lemma_run_concat(c: Client, a: Seq<sse::EventView>, b: Seq<sse::EventView>)
    ensures
        c.run(a + b) == match c.run(a) {
            Some(d) => d.run(b),
            None => None,
        },
    decreases b.len(),
{
    if b.len() == 0 {
        assert(a + b =~= a);
    } else {
        assert((a + b).drop_last() =~= a + b.drop_last());
        lemma_run_concat(c, a, b.drop_last());
    }
}

/// One event as a sequence.
pub proof fn lemma_run_one(c: Client, e: sse::EventView)
    ensures
        c.run(seq![e]) == c.step(e),
{
    reveal_with_fuel(Client::run, 2);
    assert(seq![e].drop_last() =~= Seq::empty());
}

/// An event added at the end.
pub proof fn lemma_run_push(c: Client, a: Seq<sse::EventView>, e: sse::EventView)
    ensures
        c.run(a.push(e)) == match c.run(a) {
            Some(d) => d.step(e),
            None => None,
        },
{
    assert(a.push(e).drop_last() =~= a);
}

/// The three types of blocks have different names.
pub proof fn lemma_kinds()
    ensures
        "text"@ != "tool_use"@,
        "text"@ != "thinking"@,
        "tool_use"@ != "thinking"@,
{
    reveal_strlit("text");
    reveal_strlit("tool_use");
    reveal_strlit("thinking");
    assert("tool_use"@[1] != "thinking"@[1]);
}

/// What `find_block` finds.
pub proof fn lemma_find_block(blocks: Seq<state_manager::BlockView>, index: int)
    ensures
        match state_manager::find_block(blocks, index) {
            Some(i) => 0 <= i < blocks.len() && blocks[i].index == index,
            None => forall|i: int| 0 <= i < blocks.len() ==> (#[trigger] blocks[i]).index != index,
        },
{
    let p = |i: int| blocks[i].index == index;
    text::lemma_search(p, 0, blocks.len() as int);
    if state_manager::find_block(blocks, index) is None {
        assert forall|i: int| 0 <= i < blocks.len() implies (#[trigger] blocks[i]).index
            != index by {
            assert(!p(i));
        }
    }
}

/// Where indices are unique, `find_block` finds any block that is there.
pub proof fn lemma_find_at(m: state_manager::ManagerView, k: int)
    requires
        m.wf(),
        0 <= k < m.blocks.len(),
    ensures
        state_manager::find_block(m.blocks, m.blocks[k].index) == Some(k),
        m.block(m.blocks[k].index) == Some(m.blocks[k]),
{
    lemma_find_block(m.blocks, m.blocks[k].index);
}

/// Blocks that are not among the changed ones are found as before.
pub proof fn lemma_block_after_push(
    m: state_manager::ManagerView,
    m2: state_manager::ManagerView,
    b: state_manager::BlockView,
)
    requires
        m.wf(),
        m.block(b.index) is None,
        m2.blocks == m.blocks.push(b),
    ensures
        m2.wf(),
        forall|j: int| #[trigger]
            m2.block(j) == if j == b.index {
                Some(b)
            } else {
                m.block(j)
            },
{
    lemma_find_block(m.blocks, b.index);
    assert forall|j: int| #[trigger] m2.block(j) == (if j == b.index {
        Some(b)
    } else {
        m.block(j)
    }) by {
        lemma_find_block(m.blocks, j);
        lemma_find_block(m2.blocks, j);
        if j == b.index {
            lemma_find_at(m2, m.blocks.len() as int);
        } else {
            match state_manager::find_block(m.blocks, j) {
                Some(k) => {
                    assert(m2.blocks[k] == m.blocks[k]);
                    lemma_find_at(m2, k);
                },
                None => {
                    match state_manager::find_block(m2.blocks, j) {
                        Some(k) => {
                            assert(k < m.blocks.len());
                            assert(m.blocks[k].index == j);
                        },
                        None => {},
                    }
                },
            }
        }
    }
}

/// A block changed in place is found changed, the others as before.
pub proof fn lemma_block_after_update(
    m: state_manager::ManagerView,
    m2: state_manager::ManagerView,
    k: int,
    b: state_manager::BlockView,
)
    requires
        m.wf(),
        0 <= k < m.blocks.len(),
        b.index == m.blocks[k].index,
        m2.blocks == m.blocks.update(k, b),
    ensures
        m2.wf(),
        forall|j: int| #[trigger]
            m2.block(j) == if j == b.index {
                Some(b)
            } else {
                m.block(j)
            },
{
    assert(m2.wf()) by {
        assert forall|i: int, j: int| 0 <= i < j < m2.blocks.len() implies (
        #[trigger] m2.blocks[i]).index != (#[trigger] m2.blocks[j]).index by {
            assert(m.blocks[i].index != m.blocks[j].index);
        }
    }
    lemma_find_at(m2, k);
    assert forall|j: int| #[trigger] m2.block(j) == (if j == b.index {
        Some(b)
    } else {
        m.block(j)
    }) by {
        lemma_find_block(m.blocks, j);
        lemma_find_block(m2.blocks, j);
        if j != b.index {
            match state_manager::find_block(m.blocks, j) {
                Some(i) => {
                    assert(m2.blocks[i] == m.blocks[i]);
                    lemma_find_at(m2, i);
                },
                None => {
                    match state_manager::find_block(m2.blocks, j) {
                        Some(i) => {
                            assert(m.blocks[i].index == j);
                        },
                        None => {},
                    }
                },
            }
        }
    }
}

/// A forgotten block is not found any more, the others are.
pub proof fn lemma_block_after_discard(m: state_manager::ManagerView, index: int)
    requires
        m.wf(),
    ensures
        m.discard(index).wf(),
        forall|j: int| #[trigger]
            m.discard(index).block(j) == if j == index {
                None
            } else {
                m.block(j)
            },
{
    let m2 = m.discard(index);
    lemma_find_block(m.blocks, index);
    match state_manager::find_block(m.blocks, index) {
        Some(k) => {
            assert forall|i: int| 0 <= i < m2.blocks.len() implies #[trigger] m2.blocks[i]
                == m.blocks[if i < k {
                i
            } else {
                i + 1
            }] by {}
            assert(m2.wf()) by {
                assert forall|i: int, j: int| 0 <= i < j < m2.blocks.len() implies (
                #[trigger] m2.blocks[i]).index != (#[trigger] m2.blocks[j]).index by {
                    let a = if i < k {
                        i
                    } else {
                        i + 1
                    };
                    let b = if j < k {
                        j
                    } else {
                        j + 1
                    };
                    assert(m.blocks[a].index != m.blocks[b].index);
                }
            }
            assert forall|j: int| #[trigger] m2.block(j) == (if j == index {
                None
            } else {
                m.block(j)
            }) by {
                lemma_find_block(m.blocks, j);
                lemma_find_block(m2.blocks, j);
                match state_manager::find_block(m2.blocks, j) {
                    Some(i) => {
                        let a = if i < k {
                            i
                        } else {
                            i + 1
                        };
                        assert(m2.blocks[i] == m.blocks[a]);
                        lemma_find_at(m, a);
                        if j == index {
                            assert(m.blocks[a].index != m.blocks[k].index);
                        }
                    },
                    None => {
                        if j != index {
                            match state_manager::find_block(m.blocks, j) {
                                Some(a) => {
                                    let i = if a < k {
                                        a
                                    } else {
                                        a - 1
                                    };
                                    assert(m2.blocks[i] == m.blocks[a]);
                                },
                                None => {},
                            }
                        }
                    },
                }
            }
        },
        None => {},
    }
}

/// Stopping blocks leaves each block with its index, type and start.
pub proof fn lemma_block_after_stops(
    m: state_manager::ManagerView,
    m2: state_manager::ManagerView,
    p: spec_fn(state_manager::BlockView) -> bool,
)
    requires
        m.wf(),
        m2.blocks == state_manager::stopped_where(m.blocks, p),
    ensures
        m2.wf(),
        forall|j: int| #[trigger]
            m2.block(j) == match m.block(j) {
                Some(b) => Some(
                    if p(b) {
                        state_manager::BlockView { stopped: true, ..b }
                    } else {
                        b
                    },
                ),
                None => None,
            },
{
    assert(m2.wf()) by {
        assert forall|i: int, j: int| 0 <= i < j < m2.blocks.len() implies (
        #[trigger] m2.blocks[i]).index != (#[trigger] m2.blocks[j]).index by {
            assert(m.blocks[i].index != m.blocks[j].index);
        }
    }
    assert forall|j: int| #[trigger] m2.block(j) == (match m.block(j) {
        Some(b) => Some(
            if p(b) {
                state_manager::BlockView { stopped: true, ..b }
            } else {
                b
            },
        ),
        None => None,
    }) by {
        lemma_find_block(m.blocks, j);
        lemma_find_block(m2.blocks, j);
        match state_manager::find_block(m.blocks, j) {
            Some(k) => {
                assert(m2.blocks[k].index == j);
                lemma_find_at(m2, k);
            },
            None => {
                match state_manager::find_block(m2.blocks, j) {
                    Some(k) => {
                        assert(m.blocks[k].index == j);
                    },
                    None => {},
                }
            },
        }
    }
}

/// That a client has seen exactly what the state machine has in its books: each
/// block that is known has started, has been numbered, and is open for the client
/// as long as it is not stopped.
pub open spec fn in_step(m: state_manager::ManagerView, c: Client) -> bool {
    &&& m.wf()
    &&& c.in_message()
    &&& m.message_started
    &&& !m.message_delta_sent
    &&& !m.message_ended
    &&& forall|j: int|
        (#[trigger] m.block(j)) is Some ==> m.block(j).unwrap().started && 0 <= j
            < m.next_block_index
    &&& forall|j: int| #[trigger] c.blocks.contains_key(j) == (m.block(j) is Some)
    &&& forall|j: int| #[trigger]
        c.blocks.contains_key(j) ==> c.blocks[j] == !m.block(j).unwrap().stopped
    &&& m.next_block_index >= 0
}

/// What becomes of the blocks that are known: they stay known, with the same type,
/// and only those of text may stop.
pub open spec fn keeps(m: state_manager::ManagerView, m2: state_manager::ManagerView) -> bool {
    &&& m.next_block_index <= m2.next_block_index
    &&& forall|j: int|
        (#[trigger] m.block(j)) is Some ==> {
            &&& m2.block(j) is Some
            &&& m2.block(j).unwrap().kind == m.block(j).unwrap().kind
            &&& m.block(j).unwrap().kind != "text"@ ==> m2.block(j) == m.block(j)
        }
}

/// What becomes of the blocks that are known: they stay known, with the same type,
/// and those of tool calls do not change.
pub open spec fn grows(m: state_manager::ManagerView, m2: state_manager::ManagerView) -> bool {
    &&& m.next_block_index <= m2.next_block_index
    &&& forall|j: int|
        (#[trigger] m.block(j)) is Some ==> {
            &&& m2.block(j) is Some
            &&& m2.block(j).unwrap().kind == m.block(j).unwrap().kind
            &&& m.block(j).unwrap().kind == "tool_use"@ ==> m2.block(j) == m.block(j)
        }
}

/// The blocks of a client after stop events for those that a predicate picks.
pub open spec fn after_stops(
    open: Map<int, bool>,
    blocks: Seq<state_manager::BlockView>,
    p: spec_fn(state_manager::BlockView) -> bool,
) -> Map<int, bool>
    decreases blocks.len(),
{
    if blocks.len() == 0 {
        open
    } else if p(blocks.last()) {
        after_stops(open, blocks.drop_last(), p).insert(blocks.last().index, false)
    } else {
        after_stops(open, blocks.drop_last(), p)
    }
}

proof fn lemma_after_stops(
    open: Map<int, bool>,
    blocks: Seq<state_manager::BlockView>,
    p: spec_fn(state_manager::BlockView) -> bool,
    j: int,
)
    requires
        open.contains_key(j),
    ensures
        after_stops(open, blocks, p).contains_key(j),
        after_stops(open, blocks, p)[j] == if exists|k: int|
            0 <= k < blocks.len() && (#[trigger] blocks[k]).index == j && p(blocks[k]) {
            false
        } else {
            open[j]
        },
    decreases blocks.len(),
{
    if blocks.len() > 0 {
        let rest = blocks.drop_last();
        lemma_after_stops(open, rest, p, j);
        if exists|k: int| 0 <= k < rest.len() && (#[trigger] rest[k]).index == j && p(rest[k]) {
            let k: int = choose|k: int|
                0 <= k < rest.len() && (#[trigger] rest[k]).index == j && p(rest[k]);
            assert(blocks[k].index == j && p(blocks[k]));
        }
        if exists|k: int| 0 <= k < blocks.len() && (#[trigger] blocks[k]).index == j && p(blocks[k]) {
            let k: int = choose|k: int|
                0 <= k < blocks.len() && (#[trigger] blocks[k]).index == j && p(blocks[k]);
            if k < rest.len() {
                assert(rest[k].index == j && p(rest[k]));
            }
        }
    }
}

proof fn lemma_after_stops_dom(
    open: Map<int, bool>,
    blocks: Seq<state_manager::BlockView>,
    p: spec_fn(state_manager::BlockView) -> bool,
)
    requires
        forall|k: int| 0 <= k < blocks.len() ==> open.contains_key((#[trigger] blocks[k]).index),
    ensures
        after_stops(open, blocks, p).dom() == open.dom(),
    decreases blocks.len(),
{
    if blocks.len() > 0 {
        let rest = blocks.drop_last();
        assert forall|k: int| 0 <= k < rest.len() implies open.contains_key(
            (#[trigger] rest[k]).index,
        ) by {
            assert(open.contains_key(blocks[k].index));
        }
        lemma_after_stops_dom(open, rest, p);
        assert(open.contains_key(blocks[blocks.len() - 1].index));
        assert(after_stops(open, blocks, p).dom() =~= open.dom());
    }
}

/// A client follows the stop events for open blocks with different indices.
pub proof fn lemma_run_stops(
    c: Client,
    blocks: Seq<state_manager::BlockView>,
    p: spec_fn(state_manager::BlockView) -> bool,
)
    requires
        c.in_message(),
        forall|k: int|
            0 <= k < blocks.len() && p(#[trigger] blocks[k]) ==> c.is_open(blocks[k].index),
        forall|k: int| 0 <= k < blocks.len() ==> c.blocks.contains_key((#[trigger] blocks[k]).index),
        forall|i: int, j: int|
            0 <= i < j < blocks.len() ==> (#[trigger] blocks[i]).index != (
            #[trigger] blocks[j]).index,
    ensures
        c.run(state_manager::stops_for(blocks, p)) == Some(
            Client { blocks: after_stops(c.blocks, blocks, p), ..c },
        ),
    decreases blocks.len(),
{
    if blocks.len() > 0 {
        let rest = blocks.drop_last();
        assert forall|k: int| 0 <= k < rest.len() && p(#[trigger] rest[k]) implies c.is_open(
            rest[k].index,
        ) by {
            assert(p(blocks[k]));
        }
        assert forall|k: int| 0 <= k < rest.len() implies c.blocks.contains_key(
            (#[trigger] rest[k]).index,
        ) by {
            assert(c.blocks.contains_key(blocks[k].index));
        }
        assert forall|i: int, j: int| 0 <= i < j < rest.len() implies (#[trigger] rest[i]).index
            != (#[trigger] rest[j]).index by {
            assert(blocks[i].index != blocks[j].index);
        }
        lemma_run_stops(c, rest, p);
        let last = blocks.last();
        if p(last) {
            let d = Client { blocks: after_stops(c.blocks, rest, p), ..c };
            assert(c.is_open(blocks[blocks.len() - 1].index));
            lemma_after_stops(c.blocks, rest, p, last.index);
            if exists|k: int|
                0 <= k < rest.len() && (#[trigger] rest[k]).index == last.index && p(rest[k]) {
                let k: int = choose|k: int|
                    0 <= k < rest.len() && (#[trigger] rest[k]).index == last.index && p(rest[k]);
                assert(blocks[k].index != blocks[blocks.len() - 1].index);
            }
            assert(d.is_open(last.index));
            lemma_run_push(
                c,
                state_manager::stops_for(rest, p),
                state_manager::stop_event(last.index),
            );
        }
    }
}

/// Stopping the open blocks (all, or those of text) keeps the client in step.
pub proof fn lemma_stops_in_step(
    m: state_manager::ManagerView,
    m2: state_manager::ManagerView,
    c: Client,
    text_only: bool,
)
    requires
        in_step(m, c),
        m2 == (state_manager::ManagerView {
            blocks: state_manager::stopped_where(m.blocks, state_manager::open_blocks(text_only)),
            ..m
        }),
    ensures
        ({
            let d = c.run(
                state_manager::stops_for(m.blocks, state_manager::open_blocks(text_only)),
            );
            &&& d is Some
            &&& in_step(m2, d.unwrap())
            &&& !text_only ==> d.unwrap().all_closed()
            &&& text_only ==> keeps(m, m2)
            &&& forall|j: int| (#[trigger] m2.block(j)) is Some <==> m.block(j) is Some
        }),
{
    let p = state_manager::open_blocks(text_only);
    lemma_kinds();
    lemma_block_after_stops(m, m2, p);
    assert forall|k: int| 0 <= k < m.blocks.len() implies {
        &&& c.blocks.contains_key((#[trigger] m.blocks[k]).index)
        &&& p(m.blocks[k]) ==> c.is_open(m.blocks[k].index)
    } by {
        lemma_find_at(m, k);
        let j = m.blocks[k].index;
        assert(m.block(j) is Some);
        assert(c.blocks.contains_key(j));
    }
    lemma_run_stops(c, m.blocks, p);
    lemma_after_stops_dom(c.blocks, m.blocks, p);
    let d = c.run(state_manager::stops_for(m.blocks, p)).unwrap();
    assert forall|j: int| #[trigger] d.blocks.contains_key(j) implies d.blocks[j] == !m2.block(
        j,
    ).unwrap().stopped by {
        assert(c.blocks.contains_key(j));
        lemma_after_stops(c.blocks, m.blocks, p, j);
        lemma_find_block(m.blocks, j);
        let k = state_manager::find_block(m.blocks, j).unwrap();
        let b = m.blocks[k];
        assert(m.block(j) == Some(b));
        assert(b.index == j);
        if p(b) {
            assert(!d.blocks[j]);
        } else {
            if exists|i: int|
                0 <= i < m.blocks.len() && (#[trigger] m.blocks[i]).index == j && p(m.blocks[i]) {
                let i: int = choose|i: int|
                    0 <= i < m.blocks.len() && (#[trigger] m.blocks[i]).index == j && p(
                        m.blocks[i],
                    );
                lemma_find_at(m, i);
                assert(false);
            }
        }
    }
    assert forall|j: int| #[trigger] d.blocks.contains_key(j) == (m2.block(j) is Some) by {
        assert(c.blocks.contains_key(j) == (m.block(j) is Some));
    }
    if !text_only {
        assert forall|j: int| #[trigger] d.blocks.contains_key(j) implies !d.blocks[j] by {
            assert(m2.block(j) is Some);
            assert(m.block(j) is Some);
        }
    }
}

/// Starting a new block keeps the client in step.
pub proof fn lemma_start_in_step(
    m: state_manager::ManagerView,
    c: Client,
    index: int,
    kind: Seq<char>,
    block: sse::ContentBlockView,
)
    requires
        in_step(m, c),
        0 <= index < m.next_block_index,
        m.block(index) is None,
    ensures
        ({
            let (m2, ev) = m.start_block(
                index,
                kind,
                sse::DataView::BlockStart { index, block },
            );
            &&& c.run(ev) is Some
            &&& in_step(m2, c.run(ev).unwrap())
            &&& keeps(m, m2)
            &&& m2.next_block_index == m.next_block_index
            &&& m2.block(index) == Some(
                state_manager::BlockView { index, kind, started: true, stopped: false },
            )
            &&& c.run(ev).unwrap().is_open(index)
            &&& forall|j: int|
                j != index ==> ((#[trigger] m2.block(j)) is Some <==> m.block(j) is Some)
        }),
{
    reveal(state_manager::ManagerView::start_block);
    lemma_kinds();
    let data = sse::DataView::BlockStart { index, block };
    let tool = kind == "tool_use"@;
    let stops = if tool {
        state_manager::stops_for(m.blocks, state_manager::open_blocks(true))
    } else {
        Seq::empty()
    };
    let m1 = if tool {
        state_manager::ManagerView {
            blocks: state_manager::stopped_where(m.blocks, state_manager::open_blocks(true)),
            ..m
        }
    } else {
        m
    };
    if tool {
        lemma_stops_in_step(m, m1, c, true);
    }
    let d = c.run(stops).unwrap();
    assert(in_step(m1, d));
    assert(m1.block(index) is None);
    let b = state_manager::BlockView { index, kind, started: true, stopped: false };
    let (m2, ev) = m.start_block(index, kind, data);
    lemma_find_block(m1.blocks, index);
    assert(state_manager::find_block(m1.blocks, index) is None);
    assert(m2.blocks == m1.blocks.push(b));
    assert(ev == stops.push(state_manager::start_event(data)));
    lemma_block_after_push(m1, m2, b);
    lemma_run_push(c, stops, state_manager::start_event(data));
    assert(!d.blocks.contains_key(index));
    let e = c.run(ev).unwrap();
    assert(e == Client { blocks: d.blocks.insert(index, true), ..d });
    assert forall|j: int| #[trigger] e.blocks.contains_key(j) == (m2.block(j) is Some) by {
        assert(d.blocks.contains_key(j) == (m1.block(j) is Some));
    }
    assert forall|j: int| #[trigger] e.blocks.contains_key(j) implies e.blocks[j] == !m2.block(
        j,
    ).unwrap().stopped by {
        if j != index {
            assert(d.blocks.contains_key(j));
        }
    }
    assert(keeps(m, m2)) by {
        assert forall|j: int| (#[trigger] m.block(j)) is Some implies {
            &&& m2.block(j) is Some
            &&& m2.block(j).unwrap().kind == m.block(j).unwrap().kind
            &&& m.block(j).unwrap().kind != "text"@ ==> m2.block(j) == m.block(j)
        } by {
            assert(m1.block(j) is Some);
        }
    }
}

/// Asking again to start a block that has started sends no start.
pub proof fn lemma_restart_in_step(
    m: state_manager::ManagerView,
    c: Client,
    index: int,
    data: sse::DataView,
)
    requires
        in_step(m, c),
        m.block(index) is Some,
    ensures
        ({
            let (m2, ev) = m.start_block(index, "tool_use"@, data);
            &&& c.run(ev) is Some
            &&& in_step(m2, c.run(ev).unwrap())
            &&& keeps(m, m2)
            &&& m2.next_block_index == m.next_block_index
            &&& forall|j: int| (#[trigger] m2.block(j)) is Some <==> m.block(j) is Some
        }),
{
    reveal(state_manager::ManagerView::start_block);
    let m1 = state_manager::ManagerView {
        blocks: state_manager::stopped_where(m.blocks, state_manager::open_blocks(true)),
        ..m
    };
    lemma_stops_in_step(m, m1, c, true);
    assert(m1.block(index) is Some);
    lemma_find_block(m1.blocks, index);
    let (m2, ev) = m.start_block(index, "tool_use"@, data);
    assert(m2.blocks == m1.blocks);
    assert forall|j: int| m2.block(j) == #[trigger] m1.block(j) by {}
    assert forall|j: int| (#[trigger] m2.block(j)) == m1.block(j) by {}
    assert(in_step(m2, c.run(ev).unwrap())) by {
        let d = c.run(ev).unwrap();
        assert(in_step(m1, d));
        assert forall|j: int| #[trigger] d.blocks.contains_key(j) == (m2.block(j) is Some) by {
            assert(d.blocks.contains_key(j) == (m1.block(j) is Some));
        }
    }
}

/// Additions go to open blocks alone.
pub proof fn lemma_delta_in_step(
    m: state_manager::ManagerView,
    c: Client,
    index: int,
    delta: sse::DeltaView,
)
    requires
        in_step(m, c),
    ensures
        c.run(m.delta(index, sse::DataView::BlockDelta { index, delta })) == Some(c),
{
    reveal(state_manager::ManagerView::delta);
    let data = sse::DataView::BlockDelta { index, delta };
    lemma_run_one(c, state_manager::delta_event(data));
    if m.block(index) is Some {
        assert(c.blocks.contains_key(index));
    }
}

/// Stopping a block keeps the client in step.
pub proof fn lemma_stop_in_step(m: state_manager::ManagerView, c: Client, index: int)
    requires
        in_step(m, c),
    ensures
        ({
            let (m2, ev) = m.stop_block(index);
            &&& c.run(ev) is Some
            &&& in_step(m2, c.run(ev).unwrap())
            &&& m2.next_block_index == m.next_block_index
            &&& forall|j: int| #[trigger]
                m2.block(j) == if j == index && m.block(j) is Some {
                    Some(state_manager::BlockView { stopped: true, ..m.block(j).unwrap() })
                } else {
                    m.block(j)
                }
        }),
{
    reveal(state_manager::ManagerView::stop_block);
    lemma_find_block(m.blocks, index);
    lemma_run_one(c, state_manager::stop_event(index));
    match state_manager::find_block(m.blocks, index) {
        Some(k) => {
            let b = m.blocks[k];
            assert(m.block(index) == Some(b));
            assert(c.blocks.contains_key(index));
            if !b.stopped {
                let (m2, ev) = m.stop_block(index);
                lemma_block_after_update(
                    m,
                    m2,
                    k,
                    state_manager::BlockView { stopped: true, ..b },
                );
                let d = c.run(ev).unwrap();
                assert forall|j: int| #[trigger] d.blocks.contains_key(j) == (m2.block(
                    j,
                ) is Some) by {
                    assert(c.blocks.contains_key(j) == (m.block(j) is Some));
                }
                assert forall|j: int| #[trigger] d.blocks.contains_key(j) implies d.blocks[j]
                    == !m2.block(j).unwrap().stopped by {
                    assert(c.blocks.contains_key(j));
                }
            } else {
                assert(state_manager::BlockView { stopped: true, ..b } == b);
            }
        },
        None => {},
    }
}

/// The end of a message: a client that is in step sees it end.
pub proof fn lemma_finish_in_step(
    m: state_manager::ManagerView,
    c: Client,
    input_tokens: int,
    output_tokens: int,
)
    requires
        in_step(m, c),
    ensures
        ({
            let (m2, ev) = m.finish(input_tokens, output_tokens);
            &&& c.run(ev) is Some
            &&& c.run(ev).unwrap().ended
            &&& c.run(ev).unwrap().all_closed()
        }),
{
    reveal(state_manager::ManagerView::finish);
    let p = state_manager::open_blocks(false);
    let m1 = state_manager::ManagerView {
        blocks: state_manager::stopped_where(m.blocks, p),
        ..m
    };
    lemma_stops_in_step(m, m1, c, false);
    let stops = state_manager::stops_for(m.blocks, p);
    let d = c.run(stops).unwrap();
    let delta = state_manager::message_delta_event(
        m.final_stop_reason(),
        input_tokens,
        output_tokens,
    );
    let end = state_manager::message_stop_event();
    let (m2, ev) = m.finish(input_tokens, output_tokens);
    assert(ev == stops + seq![delta] + seq![end]);
    lemma_run_concat(c, stops + seq![delta], seq![end]);
    lemma_run_concat(c, stops, seq![delta]);
    lemma_run_one(d, delta);
    let f = Client { closing: true, ..d };
    assert(d.step(delta) == Some(f));
    lemma_run_one(f, end);
    assert(f.step(end) == Some(Client { ended: true, ..f }));
}

/// Where only text blocks may stop, those of tool calls do not change.
pub proof fn lemma_keeps_grows(m: state_manager::ManagerView, m2: state_manager::ManagerView)
    requires
        keeps(m, m2),
    ensures
        grows(m, m2),
{
    lemma_kinds();
}

/// The client that has seen every event of the state machine.
pub open spec fn full_client(m: state_manager::ManagerView) -> Client {
    Client {
        started: true,
        blocks: Map::new(|j: int| m.block(j) is Some, |j: int| !m.block(j).unwrap().stopped),
        closing: false,
        ended: false,
    }
}

/// Being in step determines the client.
pub proof fn lemma_in_step_full(m: state_manager::ManagerView, c: Client)
    requires
        in_step(m, c),
    ensures
        c == full_client(m),
{
    let f = full_client(m);
    assert forall|j: int| #[trigger] c.blocks.contains_key(j) == f.blocks.contains_key(j) by {}
    assert(c.blocks.dom() =~= f.blocks.dom());
    assert(c.blocks =~= f.blocks);
}

/// The client without the blocks of a set.
pub open spec fn lacking(c: Client, hidden: Set<int>) -> Client {
    Client { blocks: c.blocks.remove_keys(hidden), ..c }
}

/// Events about other blocks are followed as well by a client that does not know
/// of the hidden ones.
pub proof fn lemma_run_hidden(c: Client, events: Seq<sse::EventView>, hidden: Set<int>)
    requires
        c.run(events) is Some,
        forall|k: int|
            0 <= k < events.len() ==> match stream_model::block_of(#[trigger] events[k]) {
                Some(j) => !hidden.contains(j),
                None => events[k].data is Error,
            },
    ensures
        lacking(c, hidden).run(events) == Some(lacking(c.run(events).unwrap(), hidden)),
    decreases events.len(),
{
    if events.len() > 0 {
        let rest = events.drop_last();
        let last = events.last();
        assert(last == events[events.len() - 1]);
        assert forall|k: int| 0 <= k < rest.len() implies match stream_model::block_of(
            #[trigger] rest[k],
        ) {
            Some(j) => !hidden.contains(j),
            None => rest[k].data is Error,
        } by {
            assert(rest[k] == events[k]);
        }
        lemma_run_hidden(c, rest, hidden);
        let d = c.run(rest).unwrap();
        let h = lacking(d, hidden);
        let e = c.run(events).unwrap();
        assert(d.step(last) == Some(e));
        match last.data {
            sse::DataView::BlockStart { index, .. } => {
                assert(!hidden.contains(index));
                assert(d.blocks.insert(index, true).remove_keys(hidden)
                    =~= d.blocks.remove_keys(hidden).insert(index, true));
            },
            sse::DataView::BlockDelta { index, .. } => {
                assert(!hidden.contains(index));
            },
            sse::DataView::BlockStop { index } => {
                assert(!hidden.contains(index));
                assert(d.blocks.insert(index, false).remove_keys(hidden)
                    =~= d.blocks.remove_keys(hidden).insert(index, false));
            },
            _ => {},
        }
    }
}

/// Without a block and the events about it, the rest is followed as before.
pub proof fn lemma_run_not_about(c: Client, events: Seq<sse::EventView>, index: int)
    requires
        c.run(events) is Some,
        forall|k: int|
            0 <= k < events.len() ==> stream_model::block_of(#[trigger] events[k]) is Some,
    ensures
        c.without(index).run(stream_model::not_about(events, index)) == Some(
            c.run(events).unwrap().without(index),
        ),
    decreases events.len(),
{
    if events.len() > 0 {
        let rest = events.drop_last();
        let last = events.last();
        assert(last == events[events.len() - 1]);
        assert forall|k: int| 0 <= k < rest.len() implies stream_model::block_of(
            #[trigger] rest[k],
        ) is Some by {
            assert(rest[k] == events[k]);
        }
        lemma_run_not_about(c, rest, index);
        let d = c.run(rest).unwrap();
        let e = c.run(events).unwrap();
        assert(d.step(last) == Some(e));
        let j = stream_model::block_of(last).unwrap();
        if j == index {
            assert(d.blocks.insert(index, true).remove(index) =~= d.blocks.remove(index));
            assert(d.blocks.insert(index, false).remove(index) =~= d.blocks.remove(index));
        } else {
            lemma_run_push(
                c.without(index),
                stream_model::not_about(rest, index),
                last,
            );
            assert(d.blocks.insert(j, true).remove(index) =~= d.blocks.remove(index).insert(
                j,
                true,
            ));
            assert(d.blocks.insert(j, false).remove(index) =~= d.blocks.remove(index).insert(
                j,
                false,
            ));
        }
    }
}

/// What a client knows of a block.
pub open spec fn status(c: Client, index: int) -> Option<bool> {
    if c.blocks.contains_key(index) {
        Some(c.blocks[index])
    } else {
        None
    }
}

/// One event about a block, seen from the block alone.
pub open spec fn block_step(st: Option<bool>, index: int, e: sse::EventView) -> Option<
    Option<bool>,
> {
    if e.event != event_name(e.data) || stream_model::block_of(e) != Some(index) {
        None
    } else {
        match e.data {
            sse::DataView::BlockStart { .. } => if st is None {
                Some(Some(true))
            } else {
                None
            },
            sse::DataView::BlockDelta { .. } => if st == Some(true) {
                Some(st)
            } else {
                None
            },
            sse::DataView::BlockStop { .. } => if st == Some(true) {
                Some(Some(false))
            } else {
                None
            },
            _ => None,
        }
    }
}

/// A sequence of events about a block, seen from the block alone.
pub open spec fn block_run(st: Option<bool>, index: int, events: Seq<sse::EventView>) -> Option<
    Option<bool>,
>
    decreases events.len(),
{
    if events.len() == 0 {
        Some(st)
    } else {
        match block_run(st, index, events.drop_last()) {
            Some(s) => block_step(s, index, events.last()),
            None => None,
        }
    }
}

pub proof fn lemma_block_run_concat(
    st: Option<bool>,
    index: int,
    a: Seq<sse::EventView>,
    b: Seq<sse::EventView>,
)
    ensures
        block_run(st, index, a + b) == match block_run(st, index, a) {
            Some(s) => block_run(s, index, b),
            None => None,
        },
    decreases b.len(),
{
    if b.len() == 0 {
        assert(a + b =~= a);
    } else {
        assert((a + b).drop_last() =~= a + b.drop_last());
        lemma_block_run_concat(st, index, a, b.drop_last());
    }
}

/// The events about a block, seen from the block alone.
pub proof fn lemma_run_about(c: Client, events: Seq<sse::EventView>, index: int)
    requires
        c.run(events) is Some,
    ensures
        block_run(status(c, index), index, stream_model::about(events, index)) == Some(
            status(c.run(events).unwrap(), index),
        ),
    decreases events.len(),
{
    if events.len() > 0 {
        let rest = events.drop_last();
        let last = events.last();
        lemma_run_about(c, rest, index);
        let d = c.run(rest).unwrap();
        let e = c.run(events).unwrap();
        assert(d.step(last) == Some(e));
        if stream_model::block_of(last) == Some(index) {
            let a = stream_model::about(rest, index);
            assert(a.push(last).drop_last() =~= a);
        }
    }
}

/// From a block that has stopped, no event about it can come.
pub proof fn lemma_block_run_stopped(index: int, events: Seq<sse::EventView>)
    ensures
        events.len() > 0 ==> block_run(Some(false), index, events) is None,
    decreases events.len(),
{
    if events.len() > 0 {
        lemma_block_run_stopped(index, events.drop_last());
        if events.drop_last().len() == 0 {
            assert(block_run(Some(false), index, events.drop_last()) == Some(Some(false)));
        }
    }
}

/// A client in a message that does not know a block follows all that is sent
/// about it from its start.
pub proof fn lemma_run_block(c: Client, index: int, events: Seq<sse::EventView>)
    requires
        c.in_message(),
        !c.blocks.contains_key(index),
        block_run(None, index, events) is Some,
    ensures
        ({
            let st = block_run(None, index, events).unwrap();
            c.run(events) == Some(
                match st {
                    Some(b) => Client { blocks: c.blocks.insert(index, b), ..c },
                    None => c,
                },
            )
        }),
    decreases events.len(),
{
    if events.len() > 0 {
        lemma_run_block(c, index, events.drop_last());
        assert(c.blocks.insert(index, true).insert(index, false) =~= c.blocks.insert(index, false));
    }
}

/// Whether an event starts a block.
pub open spec fn starts(e: sse::EventView, index: int) -> bool {
    e.data matches sse::DataView::BlockStart { index: i, .. } && i == index
}

/// Whether an event adds to a block.
pub open spec fn adds(e: sse::EventView, index: int) -> bool {
    e.data matches sse::DataView::BlockDelta { index: i, .. } && i == index
}

/// Whether an event stops a block.
pub open spec fn stops(e: sse::EventView, index: int) -> bool {
    e.data matches sse::DataView::BlockStop { index: i } && i == index
}

/// Whether some event before position `k` starts a block.
pub open spec fn started_before(t: Seq<sse::EventView>, k: int, index: int) -> bool {
    exists|i: int| 0 <= i < k && starts(#[trigger] t[i], index)
}

/// Whether some event before position `k` stops a block.
pub open spec fn stopped_before(t: Seq<sse::EventView>, k: int, index: int) -> bool {
    exists|i: int| 0 <= i < k && stops(#[trigger] t[i], index)
}

/// What a client has seen, read off the events.
proof fn lemma_run_history(t: Seq<sse::EventView>)
    requires
        new_client().run(t) is Some,
    ensures
        ({
            let c = new_client().run(t).unwrap();
            let n = t.len() as int;
            &&& c.started == (n > 0)
            &&& forall|k: int|
                0 <= k < n ==> ((#[trigger] t[k]).data is MessageStart <==> k == 0)
            &&& forall|x: int| #[trigger] c.blocks.contains_key(x) == started_before(t, n, x)
            &&& forall|x: int| #[trigger]
                c.blocks.contains_key(x) ==> c.blocks[x] == !stopped_before(t, n, x)
            &&& forall|x: int| #[trigger] stopped_before(t, n, x) ==> started_before(t, n, x)
            &&& forall|k: int, x: int|
                0 <= k < n && #[trigger] starts(t[k], x) ==> !started_before(t, k, x)
            &&& forall|k: int, x: int|
                0 <= k < n && #[trigger] adds(t[k], x) ==> started_before(t, k, x)
                    && !stopped_before(t, k, x)
            &&& forall|k: int, x: int|
                0 <= k < n && #[trigger] stops(t[k], x) ==> started_before(t, k, x)
                    && !stopped_before(t, k, x)
            &&& c.ended ==> c.closing
            &&& c.closing ==> c.all_closed()
            &&& forall|k: int|
                0 <= k < n ==> ((#[trigger] t[k]).data is MessageDelta <==> c.closing && k == n - (
                if c.ended {
                    2int
                } else {
                    1int
                }))
            &&& forall|k: int|
                0 <= k < n ==> ((#[trigger] t[k]).data is MessageStop <==> c.ended && k == n - 1)
            &&& c.ended ==> n >= 3
            &&& c.closing ==> n >= 2
        }),
    decreases t.len(),
{
    let n = t.len() as int;
    if n > 0 {
        let r = t.drop_last();
        let e = t.last();
        lemma_run_history(r);
        let b = new_client().run(r).unwrap();
        let c = new_client().run(t).unwrap();
        assert(b.step(e) == Some(c));
        assert forall|k: int| 0 <= k < n - 1 implies r[k] == #[trigger] t[k] by {}
        assert forall|k: int, x: int| 0 <= k < n implies #[trigger] started_before(t, k, x)
            == started_before(r, k, x) by {
            if started_before(t, k, x) {
                let i: int = choose|i: int| 0 <= i < k && starts(#[trigger] t[i], x);
                assert(starts(r[i], x));
            }
            if started_before(r, k, x) {
                let i: int = choose|i: int| 0 <= i < k && starts(#[trigger] r[i], x);
                assert(starts(t[i], x));
            }
        }
        assert forall|k: int, x: int| 0 <= k < n implies #[trigger] stopped_before(t, k, x)
            == stopped_before(r, k, x) by {
            if stopped_before(t, k, x) {
                let i: int = choose|i: int| 0 <= i < k && stops(#[trigger] t[i], x);
                assert(stops(r[i], x));
            }
            if stopped_before(r, k, x) {
                let i: int = choose|i: int| 0 <= i < k && stops(#[trigger] r[i], x);
                assert(stops(t[i], x));
            }
        }
        assert forall|x: int| #[trigger] started_before(t, n, x) == (started_before(r, n - 1, x)
            || starts(e, x)) by {
            if started_before(t, n, x) {
                let i: int = choose|i: int| 0 <= i < n && starts(#[trigger] t[i], x);
                if i < n - 1 {
                    assert(starts(r[i], x));
                }
            }
            if started_before(r, n - 1, x) {
                let i: int = choose|i: int| 0 <= i < n - 1 && starts(#[trigger] r[i], x);
                assert(starts(t[i], x));
            }
            assert(t[n - 1] == e);
        }
        assert forall|x: int| #[trigger] stopped_before(t, n, x) == (stopped_before(r, n - 1, x)
            || stops(e, x)) by {
            if stopped_before(t, n, x) {
                let i: int = choose|i: int| 0 <= i < n && stops(#[trigger] t[i], x);
                if i < n - 1 {
                    assert(stops(r[i], x));
                }
            }
            if stopped_before(r, n - 1, x) {
                let i: int = choose|i: int| 0 <= i < n - 1 && stops(#[trigger] r[i], x);
                assert(stops(t[i], x));
            }
            assert(t[n - 1] == e);
        }
        assert forall|x: int| #[trigger] c.blocks.contains_key(x) == started_before(t, n, x) by {
            assert(b.blocks.contains_key(x) == started_before(r, n - 1, x));
        }
        assert forall|x: int| #[trigger] c.blocks.contains_key(x) implies c.blocks[x]
            == !stopped_before(t, n, x) by {
            assert(b.blocks.contains_key(x) == started_before(r, n - 1, x));
            if stopped_before(r, n - 1, x) {
                assert(started_before(r, n - 1, x));
            }
        }
        assert forall|x: int| #[trigger] stopped_before(t, n, x) implies started_before(t, n, x) by {
            if stopped_before(r, n - 1, x) {
                assert(started_before(r, n - 1, x));
            } else {
                assert(b.blocks.contains_key(x));
            }
        }
        assert forall|k: int, x: int| 0 <= k < n && #[trigger] starts(t[k], x) implies
            !started_before(t, k, x) by {
            if k < n - 1 {
                assert(starts(r[k], x));
            } else {
                assert(!b.blocks.contains_key(x));
                assert(!started_before(r, n - 1, x));
            }
        }
        assert forall|k: int, x: int| 0 <= k < n && #[trigger] adds(t[k], x) implies started_before(
            t,
            k,
            x,
        ) && !stopped_before(t, k, x) by {
            if k < n - 1 {
                assert(adds(r[k], x));
            } else {
                assert(b.is_open(x));
                assert(started_before(r, n - 1, x));
            }
        }
        assert forall|k: int, x: int| 0 <= k < n && #[trigger] stops(t[k], x) implies started_before(
            t,
            k,
            x,
        ) && !stopped_before(t, k, x) by {
            if k < n - 1 {
                assert(stops(r[k], x));
            } else {
                assert(b.is_open(x));
                assert(started_before(r, n - 1, x));
            }
        }
        assert forall|k: int| 0 <= k < n implies ((#[trigger] t[k]).data is MessageStart <==> k
            == 0) by {
            if k < n - 1 {
                assert(r[k] == t[k]);
            }
        }
        assert forall|k: int| 0 <= k < n implies ((#[trigger] t[k]).data is MessageDelta
            <==> c.closing && k == n - (if c.ended {
            2int
        } else {
            1int
        })) by {
            if k < n - 1 {
                assert(r[k] == t[k]);
            }
        }
        assert forall|k: int| 0 <= k < n implies ((#[trigger] t[k]).data is MessageStop <==> c.ended
            && k == n - 1) by {
            if k < n - 1 {
                assert(r[k] == t[k]);
            }
        }
    }
}

/// What the protocol says of a whole message, event by event: `message_start` is
/// the first event and no other; `message_delta` is the last but one and no other;
/// `message_stop` is the last and no other. A block starts once. Whatever is added
/// to it comes after its start and before its stop, it stops once, and it stops at all.
pub proof fn law_whole_message(t: Seq<sse::EventView>)
    requires
        new_client().run(t) is Some,
        new_client().run(t).unwrap().ended,
    ensures
        t.len() >= 3,
        forall|k: int|
            0 <= k < t.len() ==> ((#[trigger] t[k]).data is MessageStart <==> k == 0),
        forall|k: int|
            0 <= k < t.len() ==> ((#[trigger] t[k]).data is MessageDelta <==> k == t.len() - 2),
        forall|k: int|
            0 <= k < t.len() ==> ((#[trigger] t[k]).data is MessageStop <==> k == t.len() - 1),
        forall|k: int, x: int|
            0 <= k < t.len() && #[trigger] starts(t[k], x) ==> !started_before(t, k, x)
                && stopped_before(t, t.len() as int, x),
        forall|k: int, x: int|
            0 <= k < t.len() && #[trigger] adds(t[k], x) ==> started_before(t, k, x)
                && !stopped_before(t, k, x),
        forall|k: int, x: int|
            0 <= k < t.len() && #[trigger] stops(t[k], x) ==> started_before(t, k, x)
                && !stopped_before(t, k, x),
{
    lemma_run_history(t);
    let c = new_client().run(t).unwrap();
    let n = t.len() as int;
    assert forall|k: int, x: int| 0 <= k < n && #[trigger] starts(t[k], x) implies
        !started_before(t, k, x) && stopped_before(t, n, x) by {
        assert(started_before(t, n, x));
        assert(c.blocks.contains_key(x));
    }
}

} // verus!
