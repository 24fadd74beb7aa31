//! One call of the upstream service: which credential to take, when to try again, when to
//! give up.
//!
//! A call is a machine. The caller performs the action that the machine asks for and
//! tells it what came of it; the machine answers with the next action.

use vstd::prelude::*;
use vstd::string::*;
use crate::kiro::provider;
use crate::kiro::provider::{ProviderError, RpmChargeMode, UpstreamApiError};
use crate::metrics;
use crate::metrics::Metrics;
use crate::text;

verus! {

/// What is called.
#[derive(Debug, Clone, Copy, PartialEq, Eq, Structural)]
pub enum CallKind {
    /// The conversation service, with an answer in pieces.
    Stream,
    /// The conversation service, with an answer as a whole.
    NonStream,
    /// The tool service.
    Mcp,
}

/// Where a call stands.
#[derive(Debug)]
pub enum Phase {
    /// It needs a credential.
    Acquire,
    /// It has a credential and sends its request.
    Send { id: u64, passthrough: bool },
    /// The quota of the credential is used up.
    Quota { id: u64, detail: String },
    /// The token of the credential is being renewed.
    Refresh { id: u64, status: u16, detail: String },
    /// The credential was refused.
    Failure { id: u64, status: u16, detail: String },
    /// No request could be made with the credential.
    Unusable { id: u64, message: String },
    /// It is over.
    Done,
}

/// What came of an action.
#[derive(Debug)]
pub enum CallEvent {
    /// A credential, and whether it forwards requests as they came; the tool service
    /// forwards none.
    Acquired { id: u64, passthrough: bool },
    /// The credential would exceed its limit of requests in a minute.
    RpmExceeded { message: String, retry_after: u64 },
    NotAcquired { message: String },
    /// The request could not be made with this credential.
    NotBuilt { message: String },
    /// There is no client to send a request with.
    NoClient { message: String },
    /// The request did not reach the service.
    NotSent { message: String },
    Succeeded,
    /// The service refused the request.
    Rejected {
        status: u16,
        status_text: String,
        body: String,
        retry_after: Option<u64>,
        monthly_limit: bool,
        token_invalid: bool,
    },
    /// Whether any credential is left after a report.
    Available(bool),
    /// Whether the token was renewed.
    Refreshed(bool),
}

/// A wait before another try.
#[derive(Debug, Clone, Copy, PartialEq, Eq, Structural)]
pub enum Wait {
    No,
    /// [`provider::retry_delay`].
    Retry { attempt: usize },
    /// [`provider::rate_limit_delay`].
    RateLimit { attempt: usize, retry_after: Option<u64> },
}

/// What the caller is to do next.
#[derive(Debug)]
pub enum CallAction {
    /// Wait, then take a credential.
    Acquire { rpm: RpmChargeMode, wait: Wait },
    Send { id: u64 },
    ReportQuotaExhausted { id: u64 },
    ReportFailure { id: u64 },
    ForceRefresh { id: u64 },
    /// Report the success of the credential and hand out the answer.
    Succeed { id: u64, passthrough: bool },
    Fail(ProviderError),
}

pub enum PhaseView {
    Acquire,
    Send { id: u64, passthrough: bool },
    Quota { id: u64, detail: Seq<char> },
    Refresh { id: u64, status: u16, detail: Seq<char> },
    Failure { id: u64, status: u16, detail: Seq<char> },
    Unusable { id: u64, message: Seq<char> },
    Done,
}

pub enum CallEventView {
    Acquired { id: u64, passthrough: bool },
    RpmExceeded { message: Seq<char>, retry_after: u64 },
    NotAcquired { message: Seq<char> },
    NotBuilt { message: Seq<char> },
    NoClient { message: Seq<char> },
    NotSent { message: Seq<char> },
    Succeeded,
    Rejected(RejectionView),
    Available(bool),
    Refreshed(bool),
}

pub struct RejectionView {
    pub status: u16,
    pub status_text: Seq<char>,
    pub body: Seq<char>,
    pub retry_after: Option<u64>,
    pub monthly_limit: bool,
    pub token_invalid: bool,
}

pub enum CallActionView {
    Acquire { rpm: RpmChargeMode, wait: Wait },
    Send { id: u64 },
    ReportQuotaExhausted { id: u64 },
    ReportFailure { id: u64 },
    ForceRefresh { id: u64 },
    Succeed { id: u64, passthrough: bool },
    Fail(provider::ErrorView),
}

impl View for Phase {
    type V = PhaseView;

    open spec fn view(&self) -> PhaseView {
        match *self {
            Phase::Acquire => PhaseView::Acquire,
            Phase::Send { id, passthrough } => PhaseView::Send { id, passthrough },
            Phase::Quota { id, detail } => PhaseView::Quota { id, detail: detail@ },
            Phase::Refresh { id, status, detail } => PhaseView::Refresh {
                id,
                status,
                detail: detail@,
            },
            Phase::Failure { id, status, detail } => PhaseView::Failure {
                id,
                status,
                detail: detail@,
            },
            Phase::Unusable { id, message } => PhaseView::Unusable { id, message: message@ },
            Phase::Done => PhaseView::Done,
        }
    }
}

impl View for CallEvent {
    type V = CallEventView;

    open spec fn view(&self) -> CallEventView {
        match *self {
            CallEvent::Acquired { id, passthrough } => CallEventView::Acquired { id, passthrough },
            CallEvent::RpmExceeded { message, retry_after } => CallEventView::RpmExceeded {
                message: message@,
                retry_after,
            },
            CallEvent::NotAcquired { message } => CallEventView::NotAcquired { message: message@ },
            CallEvent::NotBuilt { message } => CallEventView::NotBuilt { message: message@ },
            CallEvent::NoClient { message } => CallEventView::NoClient { message: message@ },
            CallEvent::NotSent { message } => CallEventView::NotSent { message: message@ },
            CallEvent::Succeeded => CallEventView::Succeeded,
            CallEvent::Rejected {
                status,
                status_text,
                body,
                retry_after,
                monthly_limit,
                token_invalid,
            } => CallEventView::Rejected(
                RejectionView {
                    status,
                    status_text: status_text@,
                    body: body@,
                    retry_after,
                    monthly_limit,
                    token_invalid,
                },
            ),
            CallEvent::Available(b) => CallEventView::Available(b),
            CallEvent::Refreshed(b) => CallEventView::Refreshed(b),
        }
    }
}

impl View for CallAction {
    type V = CallActionView;

    open spec fn view(&self) -> CallActionView {
        match *self {
            CallAction::Acquire { rpm, wait } => CallActionView::Acquire { rpm, wait },
            CallAction::Send { id } => CallActionView::Send { id },
            CallAction::ReportQuotaExhausted { id } => CallActionView::ReportQuotaExhausted { id },
            CallAction::ReportFailure { id } => CallActionView::ReportFailure { id },
            CallAction::ForceRefresh { id } => CallActionView::ForceRefresh { id },
            CallAction::Succeed { id, passthrough } => CallActionView::Succeed { id, passthrough },
            CallAction::Fail(e) => CallActionView::Fail(e@),
        }
    }
}

/// A call of the upstream service.
#[derive(Debug)]
pub struct UpstreamCall {
    pub kind: CallKind,
    pub max_retries: usize,
    pub attempt: usize,
    pub last_error: Option<ProviderError>,
    /// The credentials whose token was renewed in this call.
    pub force_refreshed: Vec<u64>,
    /// The credential that was charged for this call.
    pub rpm_reserved: Option<u64>,
    /// The credential of each try that sent a request, in order.
    pub sent: Vec<u64>,
    pub phase: Phase,
}

/// The view of a call.
pub struct CallView {
    pub kind: CallKind,
    pub max_retries: nat,
    pub attempt: nat,
    pub last_error: Option<provider::ErrorView>,
    pub force_refreshed: Seq<u64>,
    pub rpm_reserved: Option<u64>,
    pub sent: Seq<u64>,
    pub phase: PhaseView,
}

pub open spec fn error_view(e: Option<ProviderError>) -> Option<provider::ErrorView> {
    match e {
        Some(x) => Some(x@),
        None => None,
    }
}

impl View for UpstreamCall {
    type V = CallView;

    open spec fn view(&self) -> CallView {
        CallView {
            kind: self.kind,
            max_retries: self.max_retries as nat,
            attempt: self.attempt as nat,
            last_error: error_view(self.last_error),
            force_refreshed: self.force_refreshed@,
            rpm_reserved: self.rpm_reserved,
            sent: self.sent@,
            phase: self.phase@,
        }
    }
}

/// What is called, in words.
pub open spec fn label(kind: CallKind) -> Seq<char> {
    match kind {
        CallKind::Stream => "流式 API"@,
        CallKind::NonStream => "非流式 API"@,
        CallKind::Mcp => "MCP"@,
    }
}

/// The text of a refusal.
pub open spec fn refusal(kind: CallKind, detail: Seq<char>) -> Seq<char> {
    label(kind) + " 请求失败: "@ + detail
}

/// The text of a refusal after which no credential is left.
pub open spec fn last_refusal(kind: CallKind, detail: Seq<char>) -> Seq<char> {
    label(kind) + " 请求失败（所有凭据已用尽）: "@ + detail
}

/// A quota that is used up is an error of its own, but for the tool service.
pub open spec fn quota_error(kind: CallKind, message: Seq<char>) -> provider::ErrorView {
    if kind == CallKind::Mcp {
        provider::ErrorView::Other(message)
    } else {
        provider::ErrorView::Upstream { status: 402, message, retry_after: None }
    }
}

/// A refusal for lack of rights keeps its status, but for the tool service.
pub open spec fn rights_error(kind: CallKind, status: u16, message: Seq<char>)
    -> provider::ErrorView {
    if kind == CallKind::Mcp {
        provider::ErrorView::Other(message)
    } else {
        provider::ErrorView::Upstream { status, message, retry_after: None }
    }
}

/// A passing failure keeps its status, but for the tool service; only a rate limit
/// keeps the wait that was asked for.
pub open spec fn passing_error(kind: CallKind, r: RejectionView) -> provider::ErrorView {
    let message = refusal(kind, r.status_text + " "@ + r.body);
    if kind == CallKind::Mcp {
        provider::ErrorView::Other(message)
    } else {
        provider::ErrorView::Upstream {
            status: r.status,
            message,
            retry_after: if r.status == 429 {
                r.retry_after
            } else {
                None
            },
        }
    }
}

/// How often a credential occurs among others.
pub open spec fn times(ids: Seq<u64>, id: u64) -> nat
    decreases ids.len(),
{
    if ids.len() == 0 {
        0
    } else {
        times(ids.drop_last(), id) + if ids.last() == id {
            1nat
        } else {
            0
        }
    }
}

/// Whether a status says that the same request may succeed later.
pub open spec fn is_passing(status: u16) -> bool {
    status == 408 || status == 429 || 500 <= status <= 599
}

impl CallView {
    /// A call that is not over has a try left.
    pub open spec fn wf(self) -> bool {
        &&& self.attempt <= self.max_retries <= 9
        &&& self.phase is Done || self.attempt < self.max_retries
    }

    /// Whether an event can come where the call stands.
    pub open spec fn expects(self, e: CallEventView) -> bool {
        match self.phase {
            PhaseView::Acquire => e is Acquired || e is RpmExceeded || e is NotAcquired,
            PhaseView::Send { .. } => e is NotBuilt || e is NoClient || e is NotSent
                || e is Succeeded || e is Rejected,
            PhaseView::Quota { .. } => e is Available,
            PhaseView::Refresh { .. } => e is Refreshed,
            PhaseView::Failure { .. } => e is Available,
            PhaseView::Unusable { .. } => e is Available,
            PhaseView::Done => false,
        }
    }

    /// How the next credential is charged: the first one of a call counts.
    pub open spec fn charge(self) -> RpmChargeMode {
        match self.rpm_reserved {
            Some(id) => RpmChargeMode::Reuse(id),
            None => RpmChargeMode::Charge,
        }
    }

    /// The failure of a call whose tries are used up.
    pub open spec fn final_error(self) -> provider::ErrorView {
        match self.last_error {
            Some(e) => e,
            None => provider::ErrorView::Other(
                label(self.kind) + " 请求失败：已达到最大重试次数（"@ + text::digits(
                    self.max_retries,
                ) + "次）"@,
            ),
        }
    }

    /// The try that comes now, or the end of the call if there is none left.
    pub open spec fn try_now(self, wait: Wait, m: Metrics) -> (
        CallView,
        CallActionView,
        Metrics,
    ) {
        if self.attempt < self.max_retries {
            (
                CallView { phase: PhaseView::Acquire, ..self },
                CallActionView::Acquire { rpm: self.charge(), wait },
                m,
            )
        } else {
            (
                CallView { phase: PhaseView::Done, last_error: None, ..self },
                CallActionView::Fail(self.final_error()),
                failure_counted(self.last_error, m),
            )
        }
    }

    /// Another try, with an error to remember.
    pub open spec fn try_again(
        self,
        error: provider::ErrorView,
        wait: Wait,
        m: Metrics,
    ) -> (CallView, CallActionView, Metrics) {
        CallView { attempt: self.attempt + 1, last_error: Some(error), ..self }.try_now(
            wait,
            m,
        )
    }

    /// The end of the call, with an error that no other try can cure. It is counted like
    /// the end of a call whose tries are used up.
    pub open spec fn give_up(self, error: provider::ErrorView, m: Metrics) -> (
        CallView,
        CallActionView,
        Metrics,
    ) {
        (
            CallView { phase: PhaseView::Done, ..self },
            CallActionView::Fail(error),
            failure_counted(Some(error), m),
        )
    }

    /// The end of the call at the limit of requests in a minute. It has a counter of its
    /// own.
    pub open spec fn limited(self, message: Seq<char>, retry_after: u64, m: Metrics) -> (
        CallView,
        CallActionView,
        Metrics,
    ) {
        (
            CallView { phase: PhaseView::Done, ..self },
            CallActionView::Fail(
                provider::ErrorView::Upstream {
                    status: 429,
                    message,
                    retry_after: Some(retry_after),
                },
            ),
            Metrics { local_rpm_rejected: metrics::next_count(m.local_rpm_rejected), ..m },
        )
    }

    /// A credential is there. It is sent on, unless its tries are used up: then this try
    /// is over too.
    pub open spec fn acquired(self, id: u64, passthrough: bool, m: Metrics) -> (
        CallView,
        CallActionView,
        Metrics,
    ) {
        let c = CallView {
            rpm_reserved: match self.rpm_reserved {
                Some(first) => Some(first),
                None => Some(id),
            },
            ..self
        };
        if times(self.sent, id) < 3 {
            (
                CallView {
                    phase: PhaseView::Send {
                        id,
                        passthrough: passthrough && self.kind != CallKind::Mcp,
                    },
                    sent: self.sent.push(id),
                    ..c
                },
                CallActionView::Send { id },
                m,
            )
        } else {
            CallView { attempt: c.attempt + 1, ..c }.try_now(Wait::No, m)
        }
    }

    /// The service refused the request.
    pub open spec fn rejected(self, id: u64, passthrough: bool, r: RejectionView, m: Metrics) -> (
        CallView,
        CallActionView,
        Metrics,
    ) {
        let detail = r.status_text + " "@ + r.body;
        let plain = provider::ErrorView::Other(refusal(self.kind, detail));
        let retry = Wait::Retry { attempt: self.attempt as usize };
        if passthrough && r.status == 403 && text::has_text(r.body, "INSUFFICIENT_BALANCE"@) {
            (
                CallView { phase: PhaseView::Quota { id, detail }, ..self },
                CallActionView::ReportQuotaExhausted { id },
                m,
            )
        } else if r.status == 402 && !passthrough && r.monthly_limit {
            (
                CallView { phase: PhaseView::Quota { id, detail }, ..self },
                CallActionView::ReportQuotaExhausted { id },
                m,
            )
        } else if r.status == 400 {
            self.give_up(plain, m)
        } else if r.status == 401 || r.status == 403 {
            if !passthrough && r.token_invalid && !self.force_refreshed.contains(id) {
                (
                    CallView {
                        phase: PhaseView::Refresh { id, status: r.status, detail },
                        force_refreshed: self.force_refreshed.push(id),
                        ..self
                    },
                    CallActionView::ForceRefresh { id },
                    m,
                )
            } else {
                (
                    CallView {
                        phase: PhaseView::Failure { id, status: r.status, detail },
                        ..self
                    },
                    CallActionView::ReportFailure { id },
                    m,
                )
            }
        } else if is_passing(r.status) {
            self.try_again(
                passing_error(self.kind, r),
                if r.status == 429 {
                    Wait::RateLimit { attempt: self.attempt as usize, retry_after: r.retry_after }
                } else {
                    retry
                },
                m,
            )
        } else if 400 <= r.status <= 499 {
            self.give_up(plain, m)
        } else {
            self.try_again(plain, retry, m)
        }
    }

    /// The next state, the next action and the counters, for what came of an action.
    pub open spec fn step(self, e: CallEventView, m: Metrics) -> (
        CallView,
        CallActionView,
        Metrics,
    ) {
        let retry = Wait::Retry { attempt: self.attempt as usize };
        match self.phase {
            PhaseView::Acquire => match e {
                CallEventView::Acquired { id, passthrough } => self.acquired(id, passthrough, m),
                CallEventView::RpmExceeded { message, retry_after } => self.limited(
                    message,
                    retry_after,
                    m,
                ),
                CallEventView::NotAcquired { message } => self.try_again(
                    provider::ErrorView::Other(message),
                    Wait::No,
                    m,
                ),
                _ => (self, CallActionView::Send { id: 0 }, m),
            },
            PhaseView::Send { id, passthrough } => match e {
                CallEventView::NotBuilt { message } => (
                    CallView { phase: PhaseView::Unusable { id, message }, ..self },
                    CallActionView::ReportFailure { id },
                    m,
                ),
                CallEventView::NoClient { message } => self.give_up(
                    provider::ErrorView::Other(message),
                    m,
                ),
                CallEventView::NotSent { message } => self.try_again(
                    provider::ErrorView::Other(message),
                    retry,
                    m,
                ),
                CallEventView::Succeeded => (
                    CallView { phase: PhaseView::Done, ..self },
                    CallActionView::Succeed { id, passthrough },
                    Metrics { requests_success: metrics::next_count(m.requests_success), ..m },
                ),
                CallEventView::Rejected(r) => self.rejected(id, passthrough, r, m),
                _ => (self, CallActionView::Send { id: 0 }, m),
            },
            PhaseView::Quota { id, detail } => if e == CallEventView::Available(true) {
                self.try_again(
                    quota_error(self.kind, refusal(self.kind, detail)),
                    Wait::No,
                    m,
                )
            } else {
                self.give_up(quota_error(self.kind, last_refusal(self.kind, detail)), m)
            },
            PhaseView::Refresh { id, status, detail } => if e == CallEventView::Refreshed(true) {
                CallView { attempt: self.attempt + 1, ..self }.try_now(Wait::No, m)
            } else {
                (
                    CallView { phase: PhaseView::Failure { id, status, detail }, ..self },
                    CallActionView::ReportFailure { id },
                    m,
                )
            },
            PhaseView::Failure { id, status, detail } => if e == CallEventView::Available(true) {
                self.try_again(
                    rights_error(self.kind, status, refusal(self.kind, detail)),
                    Wait::No,
                    m,
                )
            } else {
                self.give_up(
                    rights_error(self.kind, status, last_refusal(self.kind, detail)),
                    m,
                )
            },
            PhaseView::Unusable { message, .. } => self.try_again(
                provider::ErrorView::Other(message),
                Wait::No,
                m,
            ),
            PhaseView::Done => (self, CallActionView::Send { id: 0 }, m),
        }
    }
}

/// The counters after a call that failed: one that ended with a rate limit of the service
/// counts as such too.
pub open spec fn failure_counted(last_error: Option<provider::ErrorView>, m: Metrics) -> Metrics {
    let n = Metrics { requests_error: metrics::next_count(m.requests_error), ..m };
    match last_error {
        Some(e) => if e.is_rate_limit() {
            Metrics { upstream_rate_limited: metrics::next_count(n.upstream_rate_limited), ..n }
        } else {
            n
        },
        None => n,
    }
}

/// Counts a call that failed; see [`failure_counted`].
pub fn record_request_failure_metrics(last_error: &Option<ProviderError>, m: &mut Metrics)
    ensures
        *final(m) == failure_counted(error_view(*last_error), *old(m)),
{
    metrics::inc_request_error(m);
    if let Some(ProviderError::Upstream(e)) = last_error {
        if e.status == 429 {
            metrics::inc_upstream_rate_limited(m);
        }
    }
}

/// The error for a credential that would exceed its limit of requests in a minute.
pub fn local_rpm_limit_error(message: String, retry_after: u64) -> (r: ProviderError)
    ensures
        r@ == (provider::ErrorView::Upstream {
            status: 429,
            message: message@,
            retry_after: Some(retry_after),
        }),
{
    ProviderError::Upstream(UpstreamApiError { status: 429, message, retry_after: Some(retry_after) })
}

fn label_of(kind: CallKind) -> (r: &'static str)
    ensures
        r@ == label(kind),
{
    match kind {
        CallKind::Stream => "流式 API",
        CallKind::NonStream => "非流式 API",
        CallKind::Mcp => "MCP",
    }
}

fn refusal_of(kind: CallKind, detail: &str) -> (r: String)
    ensures
        r@ == refusal(kind, detail@),
{
    let mut s: String = label_of(kind).to_owned();
    s.append(" 请求失败: ");
    s.append(detail);
    s
}

fn last_refusal_of(kind: CallKind, detail: &str) -> (r: String)
    ensures
        r@ == last_refusal(kind, detail@),
{
    let mut s: String = label_of(kind).to_owned();
    s.append(" 请求失败（所有凭据已用尽）: ");
    s.append(detail);
    s
}

fn quota_error_of(kind: CallKind, message: String) -> (r: ProviderError)
    ensures
        r@ == quota_error(kind, message@),
{
    match kind {
        CallKind::Mcp => ProviderError::Other(message),
        _ => ProviderError::Upstream(
            UpstreamApiError { status: 402, message, retry_after: None },
        ),
    }
}

fn rights_error_of(kind: CallKind, status: u16, message: String) -> (r: ProviderError)
    ensures
        r@ == rights_error(kind, status, message@),
{
    match kind {
        CallKind::Mcp => ProviderError::Other(message),
        _ => ProviderError::Upstream(UpstreamApiError { status, message, retry_after: None }),
    }
}

fn times_of(ids: &Vec<u64>, id: u64) -> (r: usize)
    ensures
        r == times(ids@, id),
{
    let mut n: usize = 0;
    let mut i: usize = 0;
    assert(ids@.take(0) =~= Seq::empty());
    while i < ids.len()
        invariant
            i <= ids@.len(),
            n <= i,
            n == times(ids@.take(i as int), id),
        decreases ids@.len() - i,
    {
        assert(ids@.take(i + 1).drop_last() =~= ids@.take(i as int));
        if ids[i] == id {
            n = n + 1;
        }
        i = i + 1;
    }
    assert(ids@.take(i as int) =~= ids@);
    n
}

fn holds(ids: &Vec<u64>, id: u64) -> (r: bool)
    ensures
        r == ids@.contains(id),
{
    let mut i: usize = 0;
    while i < ids.len()
        invariant
            i <= ids@.len(),
            forall|j: int| 0 <= j < i ==> ids@[j] != id,
        decreases ids@.len() - i,
    {
        if ids[i] == id {
            assert(ids@.contains(id));
            return true;
        }
        i = i + 1;
    }
    false
}

impl UpstreamCall {
    /// A new call, with its first action.
    pub fn start(kind: CallKind, total_credentials: usize, m: &mut Metrics) -> (r: (
        UpstreamCall,
        CallAction,
    ))
        ensures
            (r.0@, r.1@, *final(m)) == new_call(kind, total_credentials as nat).try_now(
                Wait::No,
                *old(m),
            ),
            r.0@.wf(),
    {
        let mut call = UpstreamCall {
            kind,
            max_retries: provider::max_retries(total_credentials),
            attempt: 0,
            last_error: None,
            force_refreshed: Vec::new(),
            rpm_reserved: None,
            sent: Vec::new(),
            phase: Phase::Acquire,
        };
        assert(call@.force_refreshed =~= Seq::empty());
        assert(call@.sent =~= Seq::empty());
        let action: CallAction = call.try_now(Wait::No, m);
        (call, action)
    }

    fn try_now(&mut self, wait: Wait, m: &mut Metrics) -> (r: CallAction)
        requires
            old(self)@.attempt <= old(self)@.max_retries <= 9,
        ensures
            (final(self)@, r@, *final(m)) == old(self)@.try_now(wait, *old(m)),
            final(self)@.wf(),
    {
        if self.attempt < self.max_retries {
            self.phase = Phase::Acquire;
            let rpm: RpmChargeMode = match self.rpm_reserved {
                Some(id) => RpmChargeMode::Reuse(id),
                None => RpmChargeMode::Charge,
            };
            CallAction::Acquire { rpm, wait }
        } else {
            record_request_failure_metrics(&self.last_error, m);
            self.phase = Phase::Done;
            let error: ProviderError = match self.last_error.take() {
                Some(e) => e,
                None => {
                    let mut s: String = label_of(self.kind).to_owned();
                    s.append(" 请求失败：已达到最大重试次数（");
                    text::push_u64(&mut s, self.max_retries as u64);
                    s.append("次）");
                    ProviderError::Other(s)
                },
            };
            CallAction::Fail(error)
        }
    }

    fn try_again(&mut self, error: ProviderError, wait: Wait, m: &mut Metrics) -> (r: CallAction)
        requires
            old(self)@.attempt < old(self)@.max_retries <= 9,
        ensures
            (final(self)@, r@, *final(m)) == old(self)@.try_again(error@, wait, *old(m)),
            final(self)@.wf(),
    {
        self.attempt = self.attempt + 1;
        self.last_error = Some(error);
        self.try_now(wait, m)
    }

    fn give_up(&mut self, error: ProviderError, m: &mut Metrics) -> (r: CallAction)
        ensures
            (final(self)@, r@, *final(m)) == old(self)@.give_up(error@, *old(m)),
    {
        self.phase = Phase::Done;
        let failed: Option<ProviderError> = Some(error);
        record_request_failure_metrics(&failed, m);
        CallAction::Fail(failed.unwrap())
    }

    fn acquired(&mut self, id: u64, passthrough: bool, m: &mut Metrics) -> (r: CallAction)
        requires
            old(self)@.attempt < old(self)@.max_retries <= 9,
        ensures
            (final(self)@, r@, *final(m)) == old(self)@.acquired(id, passthrough, *old(m)),
            final(self)@.wf(),
    {
        if self.rpm_reserved.is_none() {
            self.rpm_reserved = Some(id);
        }
        if times_of(&self.sent, id) < provider::MAX_RETRIES_PER_CREDENTIAL {
            let forwarded: bool = match self.kind {
                CallKind::Mcp => false,
                _ => passthrough,
            };
            self.phase = Phase::Send { id, passthrough: forwarded };
            self.sent.push(id);
            CallAction::Send { id }
        } else {
            self.attempt = self.attempt + 1;
            self.try_now(Wait::No, m)
        }
    }

    fn rejected(
        &mut self,
        id: u64,
        passthrough: bool,
        status: u16,
        status_text: String,
        body: String,
        retry_after: Option<u64>,
        monthly_limit: bool,
        token_invalid: bool,
        m: &mut Metrics,
    ) -> (r: CallAction)
        requires
            old(self)@.attempt < old(self)@.max_retries <= 9,
        ensures
            (final(self)@, r@, *final(m)) == old(self)@.rejected(
                id,
                passthrough,
                RejectionView {
                    status,
                    status_text: status_text@,
                    body: body@,
                    retry_after,
                    monthly_limit,
                    token_invalid,
                },
                *old(m),
            ),
            final(self)@.wf(),
    {
        let mut detail: String = status_text;
        detail.append(" ");
        detail.append(body.as_str());
        let attempt: usize = self.attempt;
        if passthrough && status == 403 && text::contains(
            body.as_str(),
            provider::PASSTHROUGH_QUOTA_EXHAUSTED_MARKER,
        ) {
            self.phase = Phase::Quota { id, detail };
            return CallAction::ReportQuotaExhausted { id };
        }
        if status == 402 && !passthrough && monthly_limit {
            self.phase = Phase::Quota { id, detail };
            return CallAction::ReportQuotaExhausted { id };
        }
        let message: String = refusal_of(self.kind, detail.as_str());
        if status == 400 {
            return self.give_up(ProviderError::Other(message), m);
        }
        if status == 401 || status == 403 {
            if !passthrough && token_invalid && !holds(&self.force_refreshed, id) {
                self.force_refreshed.push(id);
                self.phase = Phase::Refresh { id, status, detail };
                return CallAction::ForceRefresh { id };
            }
            self.phase = Phase::Failure { id, status, detail };
            return CallAction::ReportFailure { id };
        }
        if status == 408 || status == 429 || (500 <= status && status <= 599) {
            let error: ProviderError = match self.kind {
                CallKind::Mcp => ProviderError::Other(message),
                _ => ProviderError::Upstream(
                    UpstreamApiError {
                        status,
                        message,
                        retry_after: if status == 429 {
                            retry_after
                        } else {
                            None
                        },
                    },
                ),
            };
            let wait: Wait = if status == 429 {
                Wait::RateLimit { attempt, retry_after }
            } else {
                Wait::Retry { attempt }
            };
            return self.try_again(error, wait, m);
        }
        if 400 <= status && status <= 499 {
            return self.give_up(ProviderError::Other(message), m);
        }
        self.try_again(ProviderError::Other(message), Wait::Retry { attempt }, m)
    }

    /// Tells the call what came of its action; see [`CallView::step`].
    pub fn step(&mut self, event: CallEvent, m: &mut Metrics) -> (r: CallAction)
        requires
            old(self)@.wf(),
            old(self)@.expects(event@),
        ensures
            (final(self)@, r@, *final(m)) == old(self)@.step(event@, *old(m)),
            final(self)@.wf(),
    {
        let attempt: usize = self.attempt;
        let mut phase = Phase::Done;
        std::mem::swap(&mut phase, &mut self.phase);
        match phase {
            Phase::Acquire => match event {
                CallEvent::Acquired { id, passthrough } => self.acquired(id, passthrough, m),
                CallEvent::RpmExceeded { message, retry_after } => {
                    metrics::inc_local_rpm_rejected(m);
                    CallAction::Fail(local_rpm_limit_error(message, retry_after))
                },
                CallEvent::NotAcquired { message } => self.try_again(
                    ProviderError::Other(message),
                    Wait::No,
                    m,
                ),
                _ => CallAction::Send { id: 0 },
            },
            Phase::Send { id, passthrough } => match event {
                CallEvent::NotBuilt { message } => {
                    self.phase = Phase::Unusable { id, message };
                    CallAction::ReportFailure { id }
                },
                CallEvent::NoClient { message } => self.give_up(ProviderError::Other(message), m),
                CallEvent::NotSent { message } => self.try_again(
                    ProviderError::Other(message),
                    Wait::Retry { attempt },
                    m,
                ),
                CallEvent::Succeeded => {
                    metrics::inc_request_success(m);
                    CallAction::Succeed { id, passthrough }
                },
                CallEvent::Rejected {
                    status,
                    status_text,
                    body,
                    retry_after,
                    monthly_limit,
                    token_invalid,
                } => self.rejected(
                    id,
                    passthrough,
                    status,
                    status_text,
                    body,
                    retry_after,
                    monthly_limit,
                    token_invalid,
                    m,
                ),
                _ => CallAction::Send { id: 0 },
            },
            Phase::Quota { id, detail } => match event {
                CallEvent::Available(true) => {
                    let error: ProviderError = quota_error_of(
                        self.kind,
                        refusal_of(self.kind, detail.as_str()),
                    );
                    self.try_again(error, Wait::No, m)
                },
                _ => {
                    let error: ProviderError = quota_error_of(
                        self.kind,
                        last_refusal_of(self.kind, detail.as_str()),
                    );
                    self.give_up(error, m)
                },
            },
            Phase::Refresh { id, status, detail } => match event {
                CallEvent::Refreshed(true) => {
                    self.attempt = attempt + 1;
                    self.try_now(Wait::No, m)
                },
                _ => {
                    self.phase = Phase::Failure { id, status, detail };
                    CallAction::ReportFailure { id }
                },
            },
            Phase::Failure { status, detail, .. } => match event {
                CallEvent::Available(true) => {
                    let message: String = refusal_of(self.kind, detail.as_str());
                    let error: ProviderError = rights_error_of(self.kind, status, message);
                    self.try_again(error, Wait::No, m)
                },
                _ => {
                    let message: String = last_refusal_of(self.kind, detail.as_str());
                    let error: ProviderError = rights_error_of(self.kind, status, message);
                    self.give_up(error, m)
                },
            },
            Phase::Unusable { message, .. } => self.try_again(
                ProviderError::Other(message),
                Wait::No,
                m,
            ),
            Phase::Done => CallAction::Send { id: 0 },
        }
    }
}

/// A call before its first try.
pub open spec fn new_call(kind: CallKind, total_credentials: nat) -> CallView {
    CallView {
        kind,
        max_retries: provider::tries_for(total_credentials),
        attempt: 0,
        last_error: None,
        force_refreshed: Seq::empty(),
        rpm_reserved: None,
        sent: Seq::empty(),
        phase: PhaseView::Acquire,
    }
}

} // verus!
