//! What calls of the upstream service are made of: their errors, how often they are tried
//! and how long they wait, the model and the endpoint, requests that are forwarded.

use vstd::prelude::*;
use vstd::string::*;
use crate::outside;
use crate::text;

verus! {

/// What a quota that is used up looks like in the answer of a third-party service.
pub const PASSTHROUGH_QUOTA_EXHAUSTED_MARKER: &'static str = "INSUFFICIENT_BALANCE";

/// The protocol of a request that is passed on as it is.
#[derive(Debug, Clone, Copy, PartialEq, Eq, Structural)]
pub enum PassthroughProtocol {
    Anthropic,
    Openai,
}

impl PassthroughProtocol {
    /// The path of the protocol below the base URL.
    pub open spec fn path_text(self) -> Seq<char> {
        match self {
            PassthroughProtocol::Anthropic => "/v1/messages"@,
            PassthroughProtocol::Openai => "/v1/responses"@,
        }
    }

    /// The path of the protocol; see [`PassthroughProtocol::path_text`].
    pub fn path(&self) -> (r: &'static str)
        ensures
            r@ == self.path_text(),
    {
        match self {
            PassthroughProtocol::Anthropic => "/v1/messages",
            PassthroughProtocol::Openai => "/v1/responses",
        }
    }
}

/// An HTTP error of the upstream service.
#[derive(Debug)]
pub struct UpstreamApiError {
    pub status: u16,
    pub message: String,
    /// The seconds to wait before another try, where they are known.
    pub retry_after: Option<u64>,
}

/// Why a call failed.
#[derive(Debug)]
pub enum ProviderError {
    Upstream(UpstreamApiError),
    Other(String),
}

/// The view of a failure.
pub enum ErrorView {
    Upstream { status: u16, message: Seq<char>, retry_after: Option<u64> },
    Other(Seq<char>),
}

impl View for ProviderError {
    type V = ErrorView;

    open spec fn view(&self) -> ErrorView {
        match *self {
            ProviderError::Upstream(e) => ErrorView::Upstream {
                status: e.status,
                message: e.message@,
                retry_after: e.retry_after,
            },
            ProviderError::Other(s) => ErrorView::Other(s@),
        }
    }
}

impl ErrorView {
    /// The text of a failure.
    pub open spec fn text(self) -> Seq<char> {
        match self {
            ErrorView::Upstream { message, .. } => message,
            ErrorView::Other(s) => s,
        }
    }

    /// Whether the upstream service asked to slow down.
    pub open spec fn is_rate_limit(self) -> bool {
        self matches ErrorView::Upstream { status, .. } && status == 429
    }
}

impl ProviderError {
    /// The text of the failure.
    pub fn to_string(&self) -> (r: String)
        ensures
            r@ == self@.text(),
    {
        match self {
            ProviderError::Upstream(e) => e.message.clone(),
            ProviderError::Other(s) => s.clone(),
        }
    }
}

/// How a credential is charged against its limit of requests in a minute.
#[derive(Debug, Clone, Copy, PartialEq, Eq, Structural)]
pub enum RpmChargeMode {
    /// The request counts.
    Charge,
    /// The request was counted when this credential was taken first.
    Reuse(u64),
}

/// The number of tries for each credential.
pub const MAX_RETRIES_PER_CREDENTIAL: usize = 3;

/// The number of tries at most.
pub const MAX_TOTAL_RETRIES: usize = 9;

/// The number of tries: three for each credential, nine at most.
pub open spec fn tries_for(credentials: nat) -> nat {
    if credentials * 3 < 9 {
        credentials * 3
    } else {
        9
    }
}

/// The number of tries; see [`tries_for`].
pub fn max_retries(total_credentials: usize) -> (r: usize)
    ensures
        r == tries_for(total_credentials as nat),
{
    if total_credentials < 3 {
        total_credentials * MAX_RETRIES_PER_CREDENTIAL
    } else {
        MAX_TOTAL_RETRIES
    }
}

/// The wait before another try, in milliseconds and without jitter: `base` doubled
/// with each try, up to six times, and `cap` at most.
pub open spec fn backoff(base: nat, cap: nat, attempt: nat) -> nat {
    let n = if attempt < 6 {
        attempt
    } else {
        6
    };
    let t = base * pow2(n);
    if t < cap {
        t
    } else {
        cap
    }
}

/// A power of two.
pub open spec fn pow2(n: nat) -> nat
    decreases n,
{
    if n == 0 {
        1
    } else {
        2 * pow2((n - 1) as nat)
    }
}

/// The largest jitter for a wait: a quarter of it, at least one millisecond.
pub open spec fn jitter_max(wait: nat) -> nat {
    if wait / 4 < 1 {
        1
    } else {
        wait / 4
    }
}

fn small_pow2(n: usize) -> (r: u64)
    requires
        n <= 6,
    ensures
        r == pow2(n as nat),
        1 <= r <= 64,
{
    reveal_with_fuel(pow2, 7);
    if n == 0 {
        1
    } else if n == 1 {
        2
    } else if n == 2 {
        4
    } else if n == 3 {
        8
    } else if n == 4 {
        16
    } else if n == 5 {
        32
    } else {
        64
    }
}

fn backoff_ms(base: u64, cap: u64, attempt: usize) -> (r: u64)
    requires
        base <= 1000,
    ensures
        r == backoff(base as nat, cap as nat, attempt as nat),
        r <= cap,
{
    let n: usize = if attempt < 6 {
        attempt
    } else {
        6
    };
    let p: u64 = small_pow2(n);
    assert(base * p <= 64000) by (nonlinear_arith)
        requires
            base <= 1000,
            p <= 64,
    ;
    let t: u64 = base * p;
    if t < cap {
        t
    } else {
        cap
    }
}

fn jitter_bound(wait: u64) -> (r: u64)
    ensures
        r == jitter_max(wait as nat),
{
    if wait / 4 < 1 {
        1
    } else {
        wait / 4
    }
}

/// The wait before another try after a passing failure, in milliseconds, for a given
/// jitter.
pub fn retry_delay_with(attempt: usize, jitter: u64) -> (r: u64)
    requires
        jitter <= jitter_max(backoff(200, 2000, attempt as nat)),
    ensures
        r == backoff(200, 2000, attempt as nat) + jitter,
{
    backoff_ms(200, 2000, attempt) + jitter
}

/// The wait before another try after a passing failure, in milliseconds: from 200,
/// doubled with each try, 2000 at most, and up to a quarter more by chance.
pub fn retry_delay(attempt: usize) -> (r: u64)
    ensures
        backoff(200, 2000, attempt as nat) <= r <= backoff(200, 2000, attempt as nat) + jitter_max(
            backoff(200, 2000, attempt as nat),
        ),
{
    let wait: u64 = backoff_ms(200, 2000, attempt);
    let jitter: u64 = outside::random_up_to(jitter_bound(wait));
    retry_delay_with(attempt, jitter)
}

/// The wait that the upstream service asked for, in milliseconds, 30 seconds at most.
pub open spec fn asked_wait(seconds: u64) -> nat {
    if seconds < 30 {
        (seconds * 1000) as nat
    } else {
        30000
    }
}

/// The wait after a rate limit, in milliseconds and without jitter: what the upstream
/// service asked for, or from 1000, doubled with each try, 30000 at most.
pub open spec fn rate_limit_wait(attempt: nat, retry_after: Option<u64>) -> nat {
    match retry_after {
        Some(s) => asked_wait(s),
        None => backoff(1000, 30000, attempt),
    }
}

/// The largest jitter for the wait after a rate limit.
pub open spec fn rate_limit_jitter(attempt: nat, retry_after: Option<u64>) -> nat {
    match retry_after {
        Some(_) => 250,
        None => jitter_max(backoff(1000, 30000, attempt)),
    }
}

/// The wait after a rate limit, in milliseconds, for a given jitter.
pub fn rate_limit_delay_with(attempt: usize, retry_after: Option<u64>, jitter: u64) -> (r: u64)
    requires
        jitter <= rate_limit_jitter(attempt as nat, retry_after),
    ensures
        r == rate_limit_wait(attempt as nat, retry_after) + jitter,
{
    match retry_after {
        Some(s) => {
            let wait: u64 = if s < 30 {
                s * 1000
            } else {
                30000
            };
            wait + jitter
        },
        None => backoff_ms(1000, 30000, attempt) + jitter,
    }
}

/// The wait after a rate limit, in milliseconds, with a jitter that is left to chance.
pub fn rate_limit_delay(attempt: usize, retry_after: Option<u64>) -> (r: u64)
    ensures
        rate_limit_wait(attempt as nat, retry_after) <= r <= rate_limit_wait(
            attempt as nat,
            retry_after,
        ) + rate_limit_jitter(attempt as nat, retry_after),
{
    let bound: u64 = match retry_after {
        Some(_) => 250,
        None => jitter_bound(backoff_ms(1000, 30000, attempt)),
    };
    let jitter: u64 = outside::random_up_to(bound);
    rate_limit_delay_with(attempt, retry_after, jitter)
}

/// Without jitter, waits grow with the tries and stay within their bound.
pub proof fn law_waits_grow(base: nat, cap: nat, a: nat, b: nat)
    requires
        a <= b,
    ensures
        backoff(base, cap, a) <= backoff(base, cap, b) <= cap,
{
    let x: nat = if a < 6 {
        a
    } else {
        6
    };
    let y: nat = if b < 6 {
        b
    } else {
        6
    };
    lemma_pow2_monotone(x, y);
    assert(base * pow2(x) <= base * pow2(y)) by (nonlinear_arith)
        requires
            pow2(x) <= pow2(y),
    ;
}

/// No try waits long: two and a half seconds at most after a passing failure, and 37 and
/// a half after a rate limit, however long the upstream service asks for.
pub proof fn law_waits_are_bounded(attempt: nat, retry_after: Option<u64>)
    ensures
        backoff(200, 2000, attempt) + jitter_max(backoff(200, 2000, attempt)) <= 2500,
        rate_limit_wait(attempt, retry_after) + rate_limit_jitter(attempt, retry_after) <= 37500,
{
}

proof fn lemma_pow2_monotone(a: nat, b: nat)
    requires
        a <= b,
    ensures
        pow2(a) <= pow2(b),
    decreases b,
{
    if a < b {
        lemma_pow2_monotone(a, (b - 1) as nat);
    }
}

/// The seconds of a `Retry-After` header: a number, with white space around it or not.
/// A date is not read.
pub fn parse_retry_after(value: &str) -> (r: Option<u64>)
    ensures
        match r {
            Some(n) => text::number_of(text::trim(value@)) == Some(n as nat),
            None => text::number_of(text::trim(value@)) is None,
        },
{
    let t: String = text::trimmed(value);
    text::parse_u64(t.as_str())
}

/// The model that a request names.
pub fn extract_model_from_request(request_body: &str) -> (r: Option<String>)
    ensures
        outside::json_text_at(
            request_body@,
            "/conversationState/currentMessage/userInputMessage/modelId"@,
        ) == match r {
            Some(s) => Some(s@),
            None => None,
        },
{
    outside::json_str_at(
        request_body,
        "/conversationState/currentMessage/userInputMessage/modelId",
    )
}

/// The model of a call: the one that the caller knows, or else the one that the
/// request names.
pub fn call_model(model_hint: Option<String>, request_body: &str) -> (r: Option<String>)
    ensures
        (match r {
            Some(s) => Some(s@),
            None => None,
        }) == match model_hint {
            Some(m) => Some(m@),
            None => outside::json_text_at(
                request_body@,
                "/conversationState/currentMessage/userInputMessage/modelId"@,
            ),
        },
{
    match model_hint {
        Some(m) => Some(m),
        None => extract_model_from_request(request_body),
    }
}

/// A text without the slashes at its end.
pub open spec fn without_end_slashes(s: Seq<char>) -> Seq<char>
    decreases s.len(),
{
    if s.len() > 0 && s.last() == '/' {
        without_end_slashes(s.drop_last())
    } else {
        s
    }
}

/// A request that is passed on: where it goes and the value of its `Authorization`
/// header.
#[derive(Debug)]
pub struct PassthroughRequest {
    pub url: String,
    pub authorization: String,
}

/// Makes the request that is passed on with a credential. It takes a base URL and a
/// key; which of them is missing is said in the error.
pub fn build_passthrough_request(
    base_url: Option<&str>,
    upstream_api_key: Option<&str>,
    protocol: PassthroughProtocol,
) -> (r: Result<PassthroughRequest, ProviderError>)
    ensures
        match (base_url, upstream_api_key) {
            (None, _) => r is Err && r->Err_0@ == ErrorView::Other("透传凭据缺少 baseUrl"@),
            (Some(_), None) => r is Err && r->Err_0@ == ErrorView::Other(
                "透传凭据缺少 upstreamApiKey"@,
            ),
            (Some(base), Some(key)) => {
                &&& r is Ok
                &&& r->Ok_0.url@ == without_end_slashes(base@) + protocol.path_text()
                &&& r->Ok_0.authorization@ == "Bearer "@ + key@
            },
        },
{
    let base: &str = match base_url {
        Some(b) => b,
        None => {
            return Err(ProviderError::Other("透传凭据缺少 baseUrl".to_owned()));
        },
    };
    let key: &str = match upstream_api_key {
        Some(k) => k,
        None => {
            return Err(ProviderError::Other("透传凭据缺少 upstreamApiKey".to_owned()));
        },
    };
    let v: Vec<char> = text::chars_of(base);
    let mut n: usize = v.len();
    assert(v@.take(n as int) =~= v@);
    while n > 0 && v[n - 1] == '/'
        invariant
            n <= v@.len(),
            without_end_slashes(v@.take(n as int)) == without_end_slashes(base@),
        decreases n,
    {
        assert(v@.take(n as int).drop_last() =~= v@.take(n - 1));
        n = n - 1;
    }
    let mut url: String = text::string_of(&v, 0, n);
    assert(url@ =~= v@.take(n as int));
    url.append(protocol.path());
    let mut authorization: String = "Bearer ".to_owned();
    authorization.append(key);
    Ok(PassthroughRequest { url, authorization })
}

/// Whether a name is among some names.
pub open spec fn is_among(names: Seq<String>, name: Seq<char>) -> bool {
    exists|i: int| 0 <= i < names.len() && (#[trigger] names[i])@ == name
}

/// The endpoint of a credential: its own, or else the default one, if it is known.
pub fn endpoint_for(endpoint: Option<&str>, default_endpoint: &str, known: &Vec<String>) -> (r:
    Result<String, ProviderError>)
    ensures
        ({
            let name = match endpoint {
                Some(e) => e@,
                None => default_endpoint@,
            };
            if is_among(known@, name) {
                r is Ok && r->Ok_0@ == name
            } else {
                r is Err && r->Err_0@ == ErrorView::Other("未知端点: "@ + name)
            }
        }),
{
    let name: &str = match endpoint {
        Some(e) => e,
        None => default_endpoint,
    };
    let mut i: usize = 0;
    while i < known.len()
        invariant
            i <= known@.len(),
            name@ == (match endpoint {
                Some(e) => e@,
                None => default_endpoint@,
            }),
            forall|j: int| 0 <= j < i ==> (#[trigger] known@[j])@ != name@,
        decreases known@.len() - i,
    {
        if text::str_eq(known[i].as_str(), name) {
            assert(known@[i as int]@ == name@);
            return Ok(name.to_owned());
        }
        i = i + 1;
    }
    let mut message: String = "未知端点: ".to_owned();
    message.append(name);
    Err(ProviderError::Other(message))
}

/// Each credential is good for three tries, and a call for nine.
pub proof fn law_three_tries_each(credentials: nat)
    ensures
        credentials <= 3 ==> tries_for(credentials) == 3 * credentials,
        credentials >= 3 ==> tries_for(credentials) == 9,
{
}

/// A wait is twice the one before, as long as its bound allows, for six tries; then it stays.
pub proof fn law_waits_double(base: nat, cap: nat, attempt: nat)
    ensures
        backoff(base, cap, 0) == if base < cap {
            base
        } else {
            cap
        },
        attempt < 6 ==> backoff(base, cap, attempt + 1) == if 2 * backoff(base, cap, attempt)
            < cap {
            2 * backoff(base, cap, attempt)
        } else {
            cap
        },
        attempt >= 6 ==> backoff(base, cap, attempt) == backoff(base, cap, 6),
{
    reveal_with_fuel(pow2, 2);
    assert(base * 1 == base) by (nonlinear_arith);
    if attempt < 6 {
        let p = pow2(attempt);
        assert(pow2(attempt + 1) == 2 * p);
        assert(base * (2 * p) == 2 * (base * p)) by (nonlinear_arith);
    }
}

/// After a rate limit the wait is what the upstream service asked for, to the second, if it
/// asked for half a minute at most, and half a minute if it asked for more. Where it asked for
/// nothing, the wait begins with a second and stays within half a minute.
pub proof fn law_asked_wait_is_kept(attempt: nat, seconds: u64)
    ensures
        seconds <= 30 ==> rate_limit_wait(attempt, Some(seconds)) == 1000 * seconds,
        seconds > 30 ==> rate_limit_wait(attempt, Some(seconds)) == 30000,
        rate_limit_wait(0, None) == 1000,
        rate_limit_wait(attempt, None) <= 30000,
        rate_limit_wait(attempt, None) <= rate_limit_wait(attempt + 1, None),
{
    law_waits_double(1000, 30000, 0);
    law_waits_grow(1000, 30000, attempt, attempt + 1);
}

/// Of a base URL all the slashes at the end are taken away, and nothing else.
pub proof fn law_end_slashes(s: Seq<char>)
    ensures
        ({
            let r = without_end_slashes(s);
            &&& r.len() <= s.len()
            &&& r == s.take(r.len() as int)
            &&& r.len() > 0 ==> r.last() != '/'
            &&& forall|i: int| r.len() <= i < s.len() ==> #[trigger] s[i] == '/'
        }),
    decreases s.len(),
{
    if s.len() > 0 && s.last() == '/' {
        let t = s.drop_last();
        law_end_slashes(t);
        let r = without_end_slashes(s);
        assert(t.take(r.len() as int) =~= s.take(r.len() as int));
        assert forall|i: int| r.len() <= i < s.len() implies #[trigger] s[i] == '/' by {
            if i < t.len() {
                assert(t[i] == s[i]);
            }
        }
    } else {
        assert(s.take(s.len() as int) =~= s);
    }
}

/// The jitter makes a wait of four milliseconds or more longer by a quarter at most, and may
/// be that quarter to the millisecond; a shorter wait it makes longer by one. Where the
/// upstream service asked for a wait, the jitter is a quarter of a second at most, and where it
/// did not, the wait doubles from try to try as long as half a minute allows.
pub proof fn law_jitter(wait: nat, attempt: nat, seconds: u64)
    ensures
        wait >= 4 ==> 4 * jitter_max(wait) <= wait < 4 * (jitter_max(wait) + 1),
        wait < 4 ==> jitter_max(wait) == 1,
        rate_limit_jitter(attempt, Some(seconds)) == 250,
        rate_limit_jitter(attempt, None) == jitter_max(rate_limit_wait(attempt, None)),
        attempt < 6 ==> rate_limit_wait(attempt + 1, None) == if 2 * rate_limit_wait(attempt, None)
            < 30000 {
            2 * rate_limit_wait(attempt, None)
        } else {
            30000
        },
{
    law_waits_double(1000, 30000, attempt);
}

} // verus!
