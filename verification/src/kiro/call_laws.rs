//! What holds of every call of the upstream service.

use vstd::prelude::*;
use crate::kiro::call;
use crate::kiro::call::{
    CallActionView, CallEventView, CallKind, CallView, PhaseView, RejectionView, Wait,
};
use crate::kiro::provider;
use crate::kiro::provider::RpmChargeMode;
use crate::metrics;
use crate::metrics::Metrics;
use crate::text;

verus! {

/// A call in progress: its state, the counters, and every action it has asked for.
pub struct Progress {
    pub state: CallView,
    pub metrics: Metrics,
    pub actions: Seq<CallActionView>,
}

/// A call at its start.
pub open spec fn started(kind: CallKind, total_credentials: nat, m: Metrics) -> Progress {
    let r = call::new_call(kind, total_credentials).try_now(Wait::No, m);
    Progress { state: r.0, metrics: r.2, actions: seq![r.1] }
}

/// A call that started so, after these events.
pub open spec fn after(p: Progress, events: Seq<CallEventView>) -> Progress
    decreases events.len(),
{
    if events.len() == 0 {
        p
    } else {
        let q = after(p, events.drop_last());
        let r = q.state.step(events.last(), q.metrics);
        Progress { state: r.0, metrics: r.2, actions: q.actions.push(r.1) }
    }
}

/// Whether each event can come where the call stands then.
pub open spec fn possible(p: Progress, events: Seq<CallEventView>) -> bool
    decreases events.len(),
{
    events.len() > 0 ==> possible(p, events.drop_last()) && after(
        p,
        events.drop_last(),
    ).state.expects(events.last())
}

/// How many credentials were asked for.
pub open spec fn acquisitions(actions: Seq<CallActionView>) -> nat
    decreases actions.len(),
{
    if actions.len() == 0 {
        0
    } else {
        acquisitions(actions.drop_last()) + if actions.last() is Acquire {
            1nat
        } else {
            0
        }
    }
}

/// The credential that came first.
pub open spec fn first_acquired(events: Seq<CallEventView>) -> Option<u64>
    decreases events.len(),
{
    if events.len() == 0 {
        None
    } else if first_acquired(events.drop_last()) is Some {
        first_acquired(events.drop_last())
    } else {
        match events.last() {
            CallEventView::Acquired { id, .. } => Some(id),
            _ => None,
        }
    }
}

proof fn lemma_push(actions: Seq<CallActionView>, a: CallActionView)
    ensures
        acquisitions(actions.push(a)) == acquisitions(actions) + if a is Acquire {
            1nat
        } else {
            0
        },
{
    assert(actions.push(a).drop_last() =~= actions);
}

/// The number of tries is bounded: a call asks for a credential at most three times
/// for each one in the pool, and never more than nine times.
pub proof fn law_tries_are_bounded(
    kind: CallKind,
    total_credentials: nat,
    m: Metrics,
    events: Seq<CallEventView>,
)
    requires
        possible(started(kind, total_credentials, m), events),
    ensures
        ({
            let p = after(started(kind, total_credentials, m), events);
            &&& acquisitions(p.actions) <= 3 * total_credentials
            &&& acquisitions(p.actions) <= 9
            &&& p.state.wf()
        }),
{
    lemma_tries(kind, total_credentials, m, events);
}

proof fn lemma_tries(kind: CallKind, total: nat, m: Metrics, events: Seq<CallEventView>)
    requires
        possible(started(kind, total, m), events),
    ensures
        ({
            let p = after(started(kind, total, m), events);
            &&& p.state.wf()
            &&& p.state.max_retries == provider::tries_for(total)
            &&& acquisitions(p.actions) <= p.state.max_retries
            &&& !(p.state.phase is Done) ==> acquisitions(p.actions) == p.state.attempt + 1
        }),
    decreases events.len(),
{
    let p = started(kind, total, m);
    if events.len() == 0 {
        lemma_push(Seq::empty(), p.actions[0]);
        assert(p.actions =~= Seq::<CallActionView>::empty().push(p.actions[0]));
    } else {
        lemma_tries(kind, total, m, events.drop_last());
        let q = after(p, events.drop_last());
        lemma_push(q.actions, q.state.step(events.last(), q.metrics).1);
    }
}

/// How often a request was sent with a credential.
pub open spec fn sends(actions: Seq<CallActionView>, id: u64) -> nat
    decreases actions.len(),
{
    if actions.len() == 0 {
        0
    } else {
        sends(actions.drop_last(), id) + if actions.last() == (CallActionView::Send { id }) {
            1nat
        } else {
            0
        }
    }
}

/// The tries of each credential are bounded: a call sends at most three requests with it,
/// however many tries there are in all.
pub proof fn law_tries_of_each_credential(
    kind: CallKind,
    total_credentials: nat,
    m: Metrics,
    events: Seq<CallEventView>,
    id: u64,
)
    requires
        possible(started(kind, total_credentials, m), events),
    ensures
        sends(after(started(kind, total_credentials, m), events).actions, id) <= 3,
{
    lemma_sends(kind, total_credentials, m, events, id);
}

proof fn lemma_sends(kind: CallKind, total: nat, m: Metrics, events: Seq<CallEventView>, id: u64)
    requires
        possible(started(kind, total, m), events),
    ensures
        ({
            let p = after(started(kind, total, m), events);
            sends(p.actions, id) == call::times(p.state.sent, id) <= 3
        }),
    decreases events.len(),
{
    let p = started(kind, total, m);
    if events.len() == 0 {
        reveal_with_fuel(sends, 2);
        assert(p.actions.drop_last() =~= Seq::empty());
    } else {
        lemma_sends(kind, total, m, events.drop_last(), id);
        let q = after(p, events.drop_last());
        let r = q.state.step(events.last(), q.metrics);
        assert(q.actions.push(r.1).drop_last() =~= q.actions);
        if let CallActionView::Send { id: other } = r.1 {
            assert(r.0.sent == q.state.sent.push(other));
            assert(r.0.sent.drop_last() =~= q.state.sent);
        }
    }
}

/// Each credential gets one chance to have its token renewed in a call.
pub proof fn law_one_refresh_for_each_credential(
    kind: CallKind,
    total_credentials: nat,
    m: Metrics,
    events: Seq<CallEventView>,
    i: int,
    j: int,
)
    requires
        possible(started(kind, total_credentials, m), events),
        0 <= i < j <= events.len(),
        after(started(kind, total_credentials, m), events).actions[i] is ForceRefresh,
        after(started(kind, total_credentials, m), events).actions[j] is ForceRefresh,
    ensures
        after(started(kind, total_credentials, m), events).actions[i]->ForceRefresh_id != after(
            started(kind, total_credentials, m),
            events,
        ).actions[j]->ForceRefresh_id,
{
    lemma_refreshes(kind, total_credentials, m, events);
}

/// The refreshes that were asked for are those that the call remembers.
spec fn refreshes_remembered(p: Progress) -> bool {
    &&& forall|k: int|
        0 <= k < p.actions.len() && (#[trigger] p.actions[k]) is ForceRefresh
            ==> p.state.force_refreshed.contains(p.actions[k]->ForceRefresh_id)
    &&& forall|k: int, l: int|
        0 <= k < l < p.actions.len() && (#[trigger] p.actions[k]) is ForceRefresh && (
        #[trigger] p.actions[l]) is ForceRefresh ==> p.actions[k]->ForceRefresh_id
            != p.actions[l]->ForceRefresh_id
}

proof fn lemma_refreshes(kind: CallKind, total: nat, m: Metrics, events: Seq<CallEventView>)
    requires
        possible(started(kind, total, m), events),
    ensures
        refreshes_remembered(after(started(kind, total, m), events)),
        after(started(kind, total, m), events).actions.len() == events.len() + 1,
    decreases events.len(),
{
    let p = started(kind, total, m);
    if events.len() > 0 {
        lemma_refreshes(kind, total, m, events.drop_last());
        let q = after(p, events.drop_last());
        let e = events.last();
        let a = q.state.step(e, q.metrics).1;
        let r = after(p, events);
        assert(r.actions =~= q.actions.push(a));
        let known = q.state.force_refreshed;
        assert(forall|id: u64| known.contains(id) ==> r.state.force_refreshed.contains(id)) by {
            assert forall|id: u64| known.contains(id) implies r.state.force_refreshed.contains(
                id,
            ) by {
                let k = choose|k: int| 0 <= k < known.len() && known[k] == id;
                assert(known.push(a->ForceRefresh_id)[k] == id);
            }
        }
        if a is ForceRefresh {
            assert(known.push(a->ForceRefresh_id)[known.len() as int] == a->ForceRefresh_id);
        }
    }
}

/// A call is charged to one credential, the first that it gets: a request for a
/// credential is charged until there is one, and from then on reuses its charge.
pub proof fn law_charged_once(
    kind: CallKind,
    total_credentials: nat,
    m: Metrics,
    events: Seq<CallEventView>,
)
    requires
        possible(started(kind, total_credentials, m), events),
    ensures
        ({
            let p = after(started(kind, total_credentials, m), events);
            &&& p.state.rpm_reserved == first_acquired(events)
            &&& p.actions.last() is Acquire ==> p.actions.last()->rpm == match first_acquired(
                events,
            ) {
                Some(id) => RpmChargeMode::Reuse(id),
                None => RpmChargeMode::Charge,
            }
        }),
    decreases events.len(),
{
    if events.len() > 0 {
        law_charged_once(kind, total_credentials, m, events.drop_last());
    }
}

/// A failure that may pass by itself is never held against a credential: neither a
/// request that did not reach the service, nor a timeout, a rate limit or a fault of
/// the service.
pub proof fn law_passing_failures_spare_credentials(c: CallView, e: CallEventView, m: Metrics)
    requires
        c.phase is Send,
        e is NotSent || (e is Rejected && call::is_passing(e->Rejected_0.status)),
    ensures
        ({
            let a = c.step(e, m).1;
            a is Fail || a is Acquire
        }),
{
}

/// The counters change only where a call ends. Every end is counted, and once: as a
/// success, as a request beyond the limit of its minute, or else as an error.
pub proof fn law_counted_at_the_end(c: CallView, e: CallEventView, m: Metrics)
    requires
        c.expects(e),
    ensures
        c.step(e, m).0.phase is Done <==> c.step(e, m).1 is Fail || c.step(e, m).1 is Succeed,
        !(c.step(e, m).0.phase is Done) ==> c.step(e, m).2 == m,
        c.step(e, m).1 is Succeed ==> c.step(e, m).2 == (Metrics {
            requests_success: metrics::next_count(m.requests_success),
            ..m
        }),
        e is RpmExceeded ==> c.step(e, m).2 == (Metrics {
            local_rpm_rejected: metrics::next_count(m.local_rpm_rejected),
            ..m
        }),
        c.step(e, m).1 is Fail && !(e is RpmExceeded) ==> c.step(e, m).2 == (Metrics {
            requests_error: metrics::next_count(m.requests_error),
            upstream_rate_limited: c.step(e, m).2.upstream_rate_limited,
            ..m
        }),
{
}

/// A credential with which no request can be made is held to account for it, on the last
/// try as well, and then the call goes on with another.
pub proof fn law_unusable_credential_is_reported(
    c: CallView,
    message: Seq<char>,
    left: bool,
    m: Metrics,
)
    requires
        c.wf(),
        c.phase is Send,
    ensures
        ({
            let (d, a, n) = c.step(CallEventView::NotBuilt { message }, m);
            &&& a == CallActionView::ReportFailure { id: c.phase->Send_id }
            &&& d.expects(CallEventView::Available(left))
            &&& d.step(CallEventView::Available(left), n) == c.try_again(
                provider::ErrorView::Other(message),
                Wait::No,
                m,
            )
        }),
{
}

/// The credential that came last, and whether it forwards.
pub open spec fn last_acquired(events: Seq<CallEventView>) -> Option<(u64, bool)>
    decreases events.len(),
{
    if events.len() == 0 {
        None
    } else {
        match events.last() {
            CallEventView::Acquired { id, passthrough } => Some((id, passthrough)),
            _ => last_acquired(events.drop_last()),
        }
    }
}

/// What the service refused last.
pub open spec fn last_rejected(events: Seq<CallEventView>) -> Option<RejectionView>
    decreases events.len(),
{
    if events.len() == 0 {
        None
    } else {
        match events.last() {
            CallEventView::Rejected(r) => Some(r),
            _ => last_rejected(events.drop_last()),
        }
    }
}

/// Whether the token of a credential was renewed.
pub open spec fn renewed(actions: Seq<CallActionView>, id: u64) -> bool {
    exists|k: int| 0 <= k < actions.len() && #[trigger] actions[k] == (CallActionView::ForceRefresh {
        id,
    })
}

/// How many times a call with so many credentials may ask for one.
pub open spec fn allowed(total_credentials: nat) -> nat {
    if total_credentials <= 3 {
        3 * total_credentials
    } else {
        9
    }
}

/// What is called, in the words of its errors.
pub open spec fn called(kind: CallKind) -> Seq<char> {
    match kind {
        CallKind::Stream => "流式 API"@,
        CallKind::NonStream => "非流式 API"@,
        CallKind::Mcp => "MCP"@,
    }
}

/// What the service said when it refused.
pub open spec fn said(r: RejectionView) -> Seq<char> {
    r.status_text + " "@ + r.body
}

/// An error of the tool service has no status; others keep theirs.
pub open spec fn told(kind: CallKind, status: u16, message: Seq<char>, retry_after: Option<u64>)
    -> provider::ErrorView {
    match kind {
        CallKind::Mcp => provider::ErrorView::Other(message),
        _ => provider::ErrorView::Upstream { status, message, retry_after },
    }
}

/// Where a call stands, told by what has happened.
spec fn stands(p: Progress, kind: CallKind, total: nat, events: Seq<CallEventView>) -> bool {
    let last = p.actions.last();
    let (id, forwards) = last_acquired(events).unwrap();
    let r = last_rejected(events).unwrap();
    &&& p.actions.len() == events.len() + 1
    &&& p.state.kind == kind
    &&& p.state.max_retries == allowed(total)
    &&& p.state.attempt <= p.state.max_retries
    &&& !(p.state.phase is Done) ==> acquisitions(p.actions) == p.state.attempt + 1
        && p.state.attempt < p.state.max_retries
    &&& !(p.state.phase is Done || p.state.phase is Acquire) ==> last_acquired(events) is Some
    &&& match p.state.phase {
        PhaseView::Acquire => last is Acquire,
        PhaseView::Send { id: i, passthrough } => {
            &&& i == id
            &&& last == CallActionView::Send { id }
            &&& passthrough == (forwards && kind != CallKind::Mcp)
        },
        PhaseView::Quota { id: i, detail } => {
            &&& i == id
            &&& last == CallActionView::ReportQuotaExhausted { id }
            &&& last_rejected(events) is Some
            &&& detail == said(r)
        },
        PhaseView::Refresh { id: i, status, detail } => {
            &&& i == id
            &&& last == CallActionView::ForceRefresh { id }
            &&& last_rejected(events) is Some
            &&& status == r.status
            &&& detail == said(r)
        },
        PhaseView::Failure { id: i, status, detail } => {
            &&& i == id
            &&& last == CallActionView::ReportFailure { id }
            &&& events.len() > 0 && !(events.last() is NotBuilt)
            &&& last_rejected(events) is Some
            &&& status == r.status
            &&& detail == said(r)
        },
        PhaseView::Unusable { id: i, message } => {
            &&& i == id
            &&& last == CallActionView::ReportFailure { id }
            &&& events.len() > 0
            &&& events.last() == CallEventView::NotBuilt { message }
        },
        PhaseView::Done => last is Fail || last is Succeed,
    }
}

spec fn renewals_known(p: Progress) -> bool {
    forall|id: u64| #[trigger]
        p.state.force_refreshed.contains(id) <==> renewed(p.actions, id)
}

#[verifier::rlimit(60)]
#[verifier::spinoff_prover]
proof fn lemma_stands_step(
    q: Progress,
    kind: CallKind,
    total: nat,
    before: Seq<CallEventView>,
    e: CallEventView,
)
    requires
        stands(q, kind, total, before),
        q.state.expects(e),
    ensures
        ({
            let r = q.state.step(e, q.metrics);
            stands(
                Progress { state: r.0, metrics: r.2, actions: q.actions.push(r.1) },
                kind,
                total,
                before.push(e),
            )
        }),
{
    let r = q.state.step(e, q.metrics);
    let events = before.push(e);
    lemma_push(q.actions, r.1);
    assert(events.drop_last() =~= before);
    assert(events.last() == e);
    assert(q.actions.push(r.1).last() == r.1);
    match q.state.phase {
        PhaseView::Acquire => {},
        PhaseView::Send { .. } => {
            if e is Rejected {
                assert(last_rejected(events) == Some(e->Rejected_0));
            }
            assert(last_acquired(events) == last_acquired(before));
        },
        _ => {
            assert(last_rejected(events) == last_rejected(before));
            assert(last_acquired(events) == last_acquired(before));
        },
    }
}

proof fn lemma_stands(kind: CallKind, total: nat, m: Metrics, events: Seq<CallEventView>)
    requires
        possible(started(kind, total, m), events),
    ensures
        stands(after(started(kind, total, m), events), kind, total, events),
    decreases events.len(),
{
    let p = started(kind, total, m);
    lemma_tries(kind, total, m, events);
    if events.len() == 0 {
        lemma_push(Seq::empty(), p.actions[0]);
        assert(p.actions =~= Seq::<CallActionView>::empty().push(p.actions[0]));
    } else {
        let before = events.drop_last();
        lemma_stands(kind, total, m, before);
        lemma_tries(kind, total, m, before);
        let q = after(p, before);
        lemma_stands_step(q, kind, total, before, events.last());
        assert(before.push(events.last()) =~= events);
    }
}

proof fn lemma_renewals(kind: CallKind, total: nat, m: Metrics, events: Seq<CallEventView>)
    requires
        possible(started(kind, total, m), events),
    ensures
        renewals_known(after(started(kind, total, m), events)),
    decreases events.len(),
{
    let p = started(kind, total, m);
    if events.len() > 0 {
        let before = events.drop_last();
        lemma_renewals(kind, total, m, before);
        lemma_refreshes(kind, total, m, events);
        let q = after(p, before);
        let a = q.state.step(events.last(), q.metrics).1;
        let n = after(p, events);
        let known = q.state.force_refreshed;
        assert(n.actions == q.actions.push(a));
        assert forall|id: u64| #[trigger] n.state.force_refreshed.contains(id) implies renewed(
            n.actions,
            id,
        ) by {
            if known.contains(id) {
                assert(renewed(q.actions, id));
                let k = choose|k: int|
                    0 <= k < q.actions.len() && #[trigger] q.actions[k]
                        == (CallActionView::ForceRefresh { id });
                assert(n.actions[k] == q.actions[k]);
            } else {
                assert(n.state.force_refreshed == known.push(a->ForceRefresh_id));
                let k = choose|k: int|
                    0 <= k < n.state.force_refreshed.len() && n.state.force_refreshed[k] == id;
                assert(k == known.len());
                assert(n.actions[q.actions.len() as int] == a);
            }
        }
        assert forall|id: u64| renewed(n.actions, id) implies #[trigger]
            n.state.force_refreshed.contains(id) by {
            let k = choose|k: int|
                0 <= k < n.actions.len() && #[trigger] n.actions[k]
                    == (CallActionView::ForceRefresh { id });
            assert(n.actions[k] is ForceRefresh);
        }
    }
}

/// A call fails over: once a credential whose quota is used up, or that was refused, is
/// reported, the call takes another one at once if any is available and a try is left,
/// and it fails only if there is none or no try is left.
pub proof fn law_failover(
    kind: CallKind,
    total_credentials: nat,
    m: Metrics,
    events: Seq<CallEventView>,
    available: bool,
)
    requires
        possible(started(kind, total_credentials, m), events),
        ({
            let last = after(started(kind, total_credentials, m), events).actions.last();
            last is ReportQuotaExhausted || (last is ReportFailure && !(events.last() is NotBuilt))
        }),
    ensures
        ({
            let p = after(started(kind, total_credentials, m), events);
            let e = CallEventView::Available(available);
            let next = p.state.step(e, p.metrics).1;
            &&& p.state.expects(e)
            &&& available && acquisitions(p.actions) < allowed(total_credentials) ==> {
                &&& next is Acquire
                &&& next->wait == Wait::No
            }
            &&& !available || acquisitions(p.actions) >= allowed(total_credentials)
                ==> next is Fail
        }),
{
    lemma_stands(kind, total_credentials, m, events);
}

/// A credential with which no request can be made is passed over in the same way, whether
/// or not the pool says that any is left: the call goes on as long as it has tries.
pub proof fn law_unusable_credential_is_passed_over(
    kind: CallKind,
    total_credentials: nat,
    m: Metrics,
    events: Seq<CallEventView>,
    message: Seq<char>,
    available: bool,
)
    requires
        possible(started(kind, total_credentials, m), events),
        events.len() > 0,
        events.last() == (CallEventView::NotBuilt { message }),
    ensures
        ({
            let p = after(started(kind, total_credentials, m), events);
            let e = CallEventView::Available(available);
            let next = p.state.step(e, p.metrics).1;
            &&& p.actions.last() == CallActionView::ReportFailure {
                id: last_acquired(events).unwrap().0,
            }
            &&& p.state.expects(e)
            &&& if acquisitions(p.actions) < allowed(total_credentials) {
                next is Acquire && next->wait == Wait::No
            } else {
                next == CallActionView::Fail(provider::ErrorView::Other(message))
            }
        }),
{
    lemma_stands(kind, total_credentials, m, events);
    lemma_stands(kind, total_credentials, m, events.drop_last());
}

/// A refusal for lack of rights costs a credential nothing as long as its token can be
/// renewed: a token that the service does not take is renewed once, and after that the call
/// goes on. Only a credential whose token was renewed before, cannot be renewed, or is not
/// at fault, is reported.
pub proof fn law_token_is_renewed_first(
    kind: CallKind,
    total_credentials: nat,
    m: Metrics,
    events: Seq<CallEventView>,
    r: RejectionView,
)
    requires
        possible(started(kind, total_credentials, m), events),
        after(started(kind, total_credentials, m), events).actions.last() is Send,
        r.status == 401 || r.status == 403,
        last_acquired(events).unwrap().1 && kind != CallKind::Mcp ==> !text::has_text(
            r.body,
            "INSUFFICIENT_BALANCE"@,
        ),
    ensures
        ({
            let p = after(started(kind, total_credentials, m), events);
            let (id, forwards) = last_acquired(events).unwrap();
            let own = !forwards || kind == CallKind::Mcp;
            let e = CallEventView::Rejected(r);
            let (q, next, n) = p.state.step(e, p.metrics);
            &&& p.state.expects(e)
            &&& if own && r.token_invalid && !renewed(p.actions, id) {
                &&& next == CallActionView::ForceRefresh { id }
                &&& q.step(CallEventView::Refreshed(false), n).1 == CallActionView::ReportFailure {
                    id,
                }
                &&& acquisitions(p.actions) < allowed(total_credentials) ==> {
                    let then = q.step(CallEventView::Refreshed(true), n).1;
                    then is Acquire && then->wait == Wait::No
                }
                &&& acquisitions(p.actions) >= allowed(total_credentials) ==> q.step(
                    CallEventView::Refreshed(true),
                    n,
                ).1 is Fail
            } else {
                next == CallActionView::ReportFailure { id }
            }
        }),
{
    lemma_stands(kind, total_credentials, m, events);
    lemma_renewals(kind, total_credentials, m, events);
    let p = after(started(kind, total_credentials, m), events);
    let id = last_acquired(events).unwrap().0;
    assert(p.state.force_refreshed.contains(id) <==> renewed(p.actions, id));
}

/// A quota that is used up is reported for the credential it is of: for one of the service
/// itself where the monthly limit is reached, for one that forwards where its balance is
/// used up.
pub proof fn law_used_up_quota_is_reported(
    kind: CallKind,
    total_credentials: nat,
    m: Metrics,
    events: Seq<CallEventView>,
    r: RejectionView,
)
    requires
        possible(started(kind, total_credentials, m), events),
        after(started(kind, total_credentials, m), events).actions.last() is Send,
        ({
            let forwards = last_acquired(events).unwrap().1 && kind != CallKind::Mcp;
            if forwards {
                r.status == 403 && text::has_text(r.body, "INSUFFICIENT_BALANCE"@)
            } else {
                r.status == 402 && r.monthly_limit
            }
        }),
    ensures
        ({
            let p = after(started(kind, total_credentials, m), events);
            let e = CallEventView::Rejected(r);
            &&& p.state.expects(e)
            &&& p.state.step(e, p.metrics).1 == CallActionView::ReportQuotaExhausted {
                id: last_acquired(events).unwrap().0,
            }
        }),
{
    lemma_stands(kind, total_credentials, m, events);
}

/// A fault of the request ends the call at once, whatever tries are left, and no credential
/// is blamed for it: a refusal with a status from 400 to 499 that is neither for lack of
/// rights, nor a timeout or a rate limit, nor a quota that is used up.
pub proof fn law_fault_of_the_request_ends_the_call(
    kind: CallKind,
    total_credentials: nat,
    m: Metrics,
    events: Seq<CallEventView>,
    r: RejectionView,
)
    requires
        possible(started(kind, total_credentials, m), events),
        after(started(kind, total_credentials, m), events).actions.last() is Send,
        400 <= r.status <= 499,
        r.status != 401 && r.status != 403 && r.status != 408 && r.status != 429,
        r.status == 402 ==> !r.monthly_limit || (last_acquired(events).unwrap().1 && kind
            != CallKind::Mcp),
    ensures
        ({
            let p = after(started(kind, total_credentials, m), events);
            let e = CallEventView::Rejected(r);
            &&& p.state.expects(e)
            &&& p.state.step(e, p.metrics).1 == CallActionView::Fail(
                provider::ErrorView::Other(called(kind) + " 请求失败: "@ + said(r)),
            )
        }),
{
    lemma_stands(kind, total_credentials, m, events);
}

/// What may pass by itself is tried again, after a wait that grows with the tries: a request
/// that did not reach the service, a timeout, a rate limit, for which the wait that was asked
/// for is kept, a fault of the service, and every refusal outside 400 to 499. With no try
/// left the call fails, and tells what happened last.
pub proof fn law_passing_failure_is_tried_again(
    kind: CallKind,
    total_credentials: nat,
    m: Metrics,
    events: Seq<CallEventView>,
    e: CallEventView,
)
    requires
        possible(started(kind, total_credentials, m), events),
        after(started(kind, total_credentials, m), events).actions.last() is Send,
        match e {
            CallEventView::NotSent { .. } => true,
            CallEventView::Rejected(r) => r.status == 408 || r.status == 429 || !(400 <= r.status
                <= 499),
            _ => false,
        },
    ensures
        ({
            let p = after(started(kind, total_credentials, m), events);
            let tries = acquisitions(p.actions);
            let next = p.state.step(e, p.metrics).1;
            &&& p.state.expects(e)
            &&& tries < allowed(total_credentials) ==> {
                &&& next is Acquire
                &&& match e {
                    CallEventView::Rejected(r) if r.status == 429 => next->wait
                        == Wait::RateLimit {
                        attempt: (tries - 1) as usize,
                        retry_after: r.retry_after,
                    },
                    _ => next->wait == Wait::Retry { attempt: (tries - 1) as usize },
                }
            }
            &&& tries >= allowed(total_credentials) ==> next == CallActionView::Fail(
                match e {
                    CallEventView::NotSent { message } => provider::ErrorView::Other(message),
                    CallEventView::Rejected(r) => {
                        let message = called(kind) + " 请求失败: "@ + said(r);
                        if r.status == 408 || r.status == 429 || 500 <= r.status <= 599 {
                            told(
                                kind,
                                r.status,
                                message,
                                if r.status == 429 {
                                    r.retry_after
                                } else {
                                    None
                                },
                            )
                        } else {
                            provider::ErrorView::Other(message)
                        }
                    },
                    _ => provider::ErrorView::Other(Seq::empty()),
                },
            )
        }),
{
    lemma_stands(kind, total_credentials, m, events);
}

/// A call that fails because a report leaves no credential, or no try, tells what the service
/// said last: with status 402 for a quota, with the status it came with for a lack of rights.
/// Where no credential is left, it says so.
pub proof fn law_last_refusal_is_told(
    kind: CallKind,
    total_credentials: nat,
    m: Metrics,
    events: Seq<CallEventView>,
    available: bool,
)
    requires
        possible(started(kind, total_credentials, m), events),
        ({
            let p = after(started(kind, total_credentials, m), events);
            let last = p.actions.last();
            &&& last is ReportQuotaExhausted || (last is ReportFailure && !(
            events.last() is NotBuilt))
            &&& !available || acquisitions(p.actions) >= allowed(total_credentials)
        }),
    ensures
        ({
            let p = after(started(kind, total_credentials, m), events);
            let r = last_rejected(events).unwrap();
            let message = called(kind) + (if available {
                " 请求失败: "@
            } else {
                " 请求失败（所有凭据已用尽）: "@
            }) + said(r);
            let status = if p.actions.last() is ReportQuotaExhausted {
                402
            } else {
                r.status
            };
            &&& last_rejected(events) is Some
            &&& p.state.step(CallEventView::Available(available), p.metrics).1
                == CallActionView::Fail(told(kind, status, message, None))
        }),
{
    lemma_stands(kind, total_credentials, m, events);
}

/// A credential that was asked for is used: a request is sent with it, unless three were.
/// One that is not there is asked for again as long as there are tries, and the limit of
/// requests in a minute ends the call with the time to wait.
pub proof fn law_credential_is_used(
    kind: CallKind,
    total_credentials: nat,
    m: Metrics,
    events: Seq<CallEventView>,
    e: CallEventView,
)
    requires
        possible(started(kind, total_credentials, m), events),
        after(started(kind, total_credentials, m), events).actions.last() is Acquire,
        e is Acquired || e is NotAcquired || e is RpmExceeded,
    ensures
        ({
            let p = after(started(kind, total_credentials, m), events);
            let next = p.state.step(e, p.metrics).1;
            let left = acquisitions(p.actions) < allowed(total_credentials);
            &&& p.state.expects(e)
            &&& match e {
                CallEventView::Acquired { id, .. } => if sends(p.actions, id) < 3 {
                    next == CallActionView::Send { id }
                } else if left {
                    next is Acquire && next->wait == Wait::No
                } else {
                    next is Fail
                },
                CallEventView::NotAcquired { message } => if left {
                    next is Acquire && next->wait == Wait::No
                } else {
                    next == CallActionView::Fail(provider::ErrorView::Other(message))
                },
                CallEventView::RpmExceeded { message, retry_after } => next
                    == CallActionView::Fail(
                    provider::ErrorView::Upstream {
                        status: 429,
                        message,
                        retry_after: Some(retry_after),
                    },
                ),
                _ => true,
            }
        }),
{
    lemma_stands(kind, total_credentials, m, events);
    if let CallEventView::Acquired { id, .. } = e {
        lemma_sends(kind, total_credentials, m, events, id);
    }
}

/// A request that succeeds ends the call with success, for the credential it was sent with;
/// without a client to send it with, the call fails and says why.
pub proof fn law_success_is_handed_out(
    kind: CallKind,
    total_credentials: nat,
    m: Metrics,
    events: Seq<CallEventView>,
    message: Seq<char>,
)
    requires
        possible(started(kind, total_credentials, m), events),
        after(started(kind, total_credentials, m), events).actions.last() is Send,
    ensures
        ({
            let p = after(started(kind, total_credentials, m), events);
            let (id, forwards) = last_acquired(events).unwrap();
            &&& p.actions.last() == CallActionView::Send { id }
            &&& p.state.expects(CallEventView::Succeeded)
            &&& p.state.step(CallEventView::Succeeded, p.metrics).1 == CallActionView::Succeed {
                id,
                passthrough: forwards && kind != CallKind::Mcp,
            }
            &&& p.state.expects(CallEventView::NoClient { message })
            &&& p.state.step(CallEventView::NoClient { message }, p.metrics).1
                == CallActionView::Fail(provider::ErrorView::Other(message))
        }),
{
    lemma_stands(kind, total_credentials, m, events);
}

/// A call with credentials begins by asking for one, at once; without any it fails at once.
pub proof fn law_call_begins(kind: CallKind, total_credentials: nat, m: Metrics)
    ensures
        ({
            let p = started(kind, total_credentials, m);
            &&& p.actions.len() == 1
            &&& total_credentials > 0 ==> p.actions[0] == (CallActionView::Acquire {
                rpm: RpmChargeMode::Charge,
                wait: Wait::No,
            }) && p.metrics == m
            &&& total_credentials == 0 ==> p.actions[0] == CallActionView::Fail(
                provider::ErrorView::Other(
                    called(kind) + " 请求失败：已达到最大重试次数（"@ + text::digits(0) + "次）"@,
                ),
            )
        }),
{
}

/// A failure is counted as a rate limit of the service exactly where the error that the call
/// ends with is one; the limit of requests in a minute, which the call keeps itself, is not.
pub proof fn law_rate_limits_are_counted(c: CallView, e: CallEventView, m: Metrics)
    requires
        c.expects(e),
    ensures
        ({
            let (_, a, n) = c.step(e, m);
            n.upstream_rate_limited == match a {
                CallActionView::Fail(provider::ErrorView::Upstream { status, .. })
                    if status == 429 && !(e is RpmExceeded) => metrics::next_count(
                    m.upstream_rate_limited,
                ),
                _ => m.upstream_rate_limited,
            }
        }),
{
}

} // verus!
