//! A session sends what its response stream sends, and replays the request where that goes
//! unnoticed.

use vstd::prelude::*;
use crate::anthropic::session;
use crate::anthropic::session::{DecodedView, Happening, RestarterView};
use crate::anthropic::sse;
use crate::anthropic::stream_counts;
use crate::anthropic::stream_faults;
use crate::anthropic::stream_laws;
use crate::anthropic::stream_laws::{Action, Ending};
use crate::anthropic::stream_model::StreamView;

verus! {

/// What was read since the request was made for the last time.
pub open spec fn read_since(h: Seq<Happening>) -> Seq<Action>
    decreases h.len(),
{
    if h.len() == 0 {
        Seq::empty()
    } else {
        let before = read_since(h.drop_last());
        match h.last() {
            Happening::Item(DecodedView::Event(e)) => before.push(Action::Event(e)),
            Happening::Replayed { .. } => Seq::empty(),
            _ => before,
        }
    }
}

/// The id of the message since the request was made for the last time.
pub open spec fn id_since(first: Seq<char>, h: Seq<Happening>) -> Seq<char>
    decreases h.len(),
{
    if h.len() == 0 {
        first
    } else {
        match h.last() {
            Happening::Replayed { message_id } => message_id,
            _ => id_since(first, h.drop_last()),
        }
    }
}

/// Whether the body could be read all along.
pub open spec fn readable(h: Seq<Happening>) -> bool {
    forall|k: int|
        0 <= k < h.len() ==> !((#[trigger] h[k]) matches Happening::Item(
            DecodedView::Failure { fatal: true, .. },
        ))
}

/// How often the request was to be replayed.
pub open spec fn replays_in(p: session::Progress, h: Seq<Happening>) -> nat
    decreases h.len(),
{
    if h.len() == 0 {
        0
    } else {
        replays_in(p, h.drop_last()) + if h.last() is Broken && session::after(
            p,
            h,
        ).session.broken is Some {
            1nat
        } else {
            0
        }
    }
}

/// The end of a stream that failed does not depend on whether it is marked so.
proof fn lemma_failed_ends_alike(v: StreamView)
    ensures
        ({
            let w = StreamView { failed: true, ..v };
            &&& w.finalize_on_failure().1 == v.finalize_on_failure().1
            &&& w.finalize_on_interrupt().1 == v.finalize_on_interrupt().1
        }),
{
    reveal(StreamView::initial);
    reveal(StreamView::open_block);
    reveal(StreamView::release_at_end);
    reveal(StreamView::finish);
}

/// The state of a session that is not over is that of its stream.
proof fn lemma_plays(r: RestarterView, first: Seq<char>, h: Seq<Happening>)
    requires
        session::possible(session::started(r, first), h),
        readable(h),
    ensures
        ({
            let p = session::after(session::started(r, first), h);
            let v = r.stream(id_since(first, h));
            let (w, sent) = stream_laws::perform(v, read_since(h));
            &&& !p.session.finished ==> p.session.stream == w && p.sent == sent
            &&& p.session.restarter == (RestarterView {
                remaining: p.session.restarter.remaining,
                ..r
            })
            &&& p.replays == replays_in(session::started(r, first), h)
            &&& p.replays + p.session.restarter.remaining == r.remaining
            &&& p.session.broken is Some ==> !p.session.finished && p.sent.len() == 0
        }),
    decreases h.len(),
{
    let start = session::started(r, first);
    if h.len() > 0 {
        let rest = h.drop_last();
        assert(readable(rest)) by {
            assert forall|k: int| 0 <= k < rest.len() implies !((
            #[trigger] rest[k]) matches Happening::Item(
                DecodedView::Failure { fatal: true, .. },
            )) by {
                assert(h[k] == rest[k]);
            }
        }
        lemma_plays(r, first, rest);
        let q = session::after(start, rest);
        let v = r.stream(id_since(first, rest));
        assert(!(h[h.len() - 1] matches Happening::Item(DecodedView::Failure { fatal: true, .. })));
        stream_laws::law_replay_before_output(
            id_since(first, rest),
            r.model,
            r.input_tokens,
            r.thinking_enabled,
            r.tool_names,
            r.delayed,
            read_since(rest),
        );
        match h.last() {
            Happening::Item(DecodedView::Event(e)) => {
                assert(read_since(h).drop_last() =~= read_since(rest));
            },
            Happening::Item(DecodedView::Failure { .. }) => {
                assert(q.sent + Seq::<sse::EventView>::empty() =~= q.sent);
            },
            Happening::Replayed { message_id } => {
                assert(q.sent =~= Seq::empty());
            },
            _ => {},
        }
    }
}

/// What a session sends is what its stream sends. As long as it goes on, that is all that the
/// stream sends for what was read since the request was made for the last time. When the body
/// comes to its end, it is the whole of the stream. When the body breaks off, the request is to
/// be replayed, with nothing sent, if and only if the client has got nothing, the wait was not
/// too long, and a replay is left; otherwise the message of a client that has got something
/// ends as one that was cut short, and a client that has got nothing gets the error first. A
/// piece of the body after which the stream has failed is the last.
pub proof fn law_session_plays_the_stream(
    r: RestarterView,
    first: Seq<char>,
    h: Seq<Happening>,
)
    requires
        session::possible(session::started(r, first), h),
        readable(h),
    ensures
        ({
            let start = session::started(r, first);
            let p = session::after(start, h);
            let v = r.stream(id_since(first, h));
            let actions = read_since(h);
            let sent = stream_laws::perform(v, actions).1;
            &&& !p.session.finished ==> p.sent == sent
            &&& h.len() > 0 ==> {
                let before = session::after(start, h.drop_last());
                let replays = replays_in(start, h.drop_last());
                match h.last() {
                    Happening::Item(_) => !p.session.finished && p.session.broken is None,
                    Happening::ChunkEnd => {
                        &&& p.session.finished == stream_counts::faulted(
                            stream_counts::heard(actions),
                        )
                        &&& p.sent == sent
                    },
                    Happening::Broken { message, timeout } => {
                        if sent.len() == 0 && !timeout && replays < r.remaining {
                            &&& !p.session.finished
                            &&& p.session.broken == Some(message)
                            &&& p.sent.len() == 0
                        } else {
                            &&& p.session.finished
                            &&& p.sent == if sent.len() > 0 {
                                stream_laws::whole_trace(v, actions, Ending::Interrupt)
                            } else {
                                seq![
                                    stream_faults::error_told(
                                        "Upstream stream error: "@ + message,
                                    ),
                                ] + stream_laws::whole_trace(v, actions, Ending::Failure)
                            }
                        }
                    },
                    Happening::Replayed { message_id } => {
                        &&& !p.session.finished
                        &&& p.session.broken is None
                        &&& p.sent.len() == 0
                        &&& p.session.stream == r.stream(message_id)
                    },
                    Happening::NotReplayed => {
                        &&& p.session.finished
                        &&& before.session.broken is Some
                        &&& p.sent == seq![
                            stream_faults::error_told(
                                "Upstream stream error: "@ + before.session.broken.unwrap(),
                            ),
                        ] + stream_laws::whole_trace(v, actions, Ending::Failure)
                    },
                    Happening::End => {
                        &&& p.session.finished
                        &&& p.sent == stream_laws::whole_trace(v, actions, Ending::Complete)
                    },
                }
            }
        }),
{
    let start = session::started(r, first);
    lemma_plays(r, first, h);
    if h.len() > 0 {
        let rest = h.drop_last();
        assert(readable(rest)) by {
            assert forall|k: int| 0 <= k < rest.len() implies !((
            #[trigger] rest[k]) matches Happening::Item(
                DecodedView::Failure { fatal: true, .. },
            )) by {
                assert(h[k] == rest[k]);
            }
        }
        lemma_plays(r, first, rest);
        let q = session::after(start, rest);
        let v = r.stream(id_since(first, rest));
        let actions = read_since(rest);
        let sent = stream_laws::perform(v, actions).1;
        stream_counts::lemma_perform_reflects(v, actions);
        stream_laws::law_replay_before_output(
            id_since(first, rest),
            r.model,
            r.input_tokens,
            r.thinking_enabled,
            r.tool_names,
            r.delayed,
            actions,
        );
        lemma_failed_ends_alike(q.session.stream);
        if sent.len() == 0 {
            let last = q.session.stream.finalize_on_failure().1;
            assert(sent + last =~= last);
            match h.last() {
                Happening::Broken { message, .. } => {
                    let error = seq![
                        stream_faults::error_told("Upstream stream error: "@ + message),
                    ];
                    assert(q.sent + (error + last) =~= error + last);
                },
                Happening::NotReplayed => {
                    let message = q.session.broken.unwrap();
                    let error = seq![
                        stream_faults::error_told("Upstream stream error: "@ + message),
                    ];
                    assert(q.sent + (error + last) =~= error + last);
                },
                _ => {},
            }
        }
    }
}

/// A body that cannot be read any longer: the client is told why, once, and the session is over
/// with the piece of the body that it happened in. A failure that is not fatal changes nothing
/// for the client.
pub proof fn law_unreadable_body_ends_the_session(p: session::Progress, message: Seq<char>)
    requires
        p.session.taking(),
    ensures
        ({
            let fatal = Happening::Item(DecodedView::Failure { fatal: true, message });
            let minor = Happening::Item(DecodedView::Failure { fatal: false, message });
            let q = p.step(fatal);
            &&& q.sent == p.sent.push(
                stream_faults::error_told("Stream decode failed: "@ + message),
            )
            &&& q.step(Happening::ChunkEnd).session.finished
            &&& p.step(minor).sent == p.sent
            &&& p.step(minor).session.stream == p.session.stream
            &&& p.step(minor).session.finished == p.session.finished
        }),
{
    let e = stream_faults::error_told("Stream decode failed: "@ + message);
    assert(p.sent + seq![e] =~= p.sent.push(e));
    assert(p.sent + Seq::<sse::EventView>::empty() =~= p.sent);
}

} // verus!
