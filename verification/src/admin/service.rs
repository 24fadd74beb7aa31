//! The decisions behind the administrator's requests.

use std::collections::HashMap;
use vstd::prelude::*;
use vstd::std_specs::hash::*;
use vstd::string::*;
use crate::admin::types::{
    AddCredentialRequest, AddCredentialResponse, CredentialStatusItem, CredentialsStatusResponse,
    LoadBalancingModeResponse, MetricsResponse, SetLoadBalancingModeRequest, TimeseriesQuery,
};
use crate::metrics::MetricsSnapshot;
use crate::outside;
use crate::text;

verus! {

broadcast use group_hash_axioms;

/// Why a request of the administrator failed.
#[derive(Debug)]
pub enum AdminServiceError {
    NotFound { id: u64 },
    InvalidCredential(String),
    UpstreamError(String),
    InternalError(String),
}

/// The view of why a request failed.
pub enum AdminErrorView {
    NotFound { id: u64 },
    InvalidCredential(Seq<char>),
    UpstreamError(Seq<char>),
    InternalError(Seq<char>),
}

impl View for AdminServiceError {
    type V = AdminErrorView;

    open spec fn view(&self) -> AdminErrorView {
        match *self {
            AdminServiceError::NotFound { id } => AdminErrorView::NotFound { id },
            AdminServiceError::InvalidCredential(s) => AdminErrorView::InvalidCredential(s@),
            AdminServiceError::UpstreamError(s) => AdminErrorView::UpstreamError(s@),
            AdminServiceError::InternalError(s) => AdminErrorView::InternalError(s@),
        }
    }
}

/// The failure of a simple operation on a credential.
pub fn classify_error(message: String, id: u64) -> (r: AdminServiceError)
    ensures
        r@ == if text::has_text(message@, "不存在"@) {
            AdminErrorView::NotFound { id }
        } else {
            AdminErrorView::InternalError(message@)
        },
{
    if text::contains(message.as_str(), "不存在") {
        AdminServiceError::NotFound { id }
    } else {
        AdminServiceError::InternalError(message)
    }
}

/// Whether a failure to query a balance came from the upstream service or the way to
/// it.
pub open spec fn came_from_upstream(message: Seq<char>) -> bool {
    text::has_text(message, "凭证已过期或无效"@) || text::has_text(message, "权限不足"@)
        || text::has_text(message, "已被限流"@) || text::has_text(message, "服务器错误"@)
        || text::has_text(message, "Token 刷新失败"@) || text::has_text(message, "暂时不可用"@)
        || text::has_text(message, "error trying to connect"@) || text::has_text(
        message,
        "connection"@,
    ) || text::has_text(message, "timeout"@) || text::has_text(message, "timed out"@)
}

/// The failure to query a balance or to renew a token.
pub open spec fn balance_failure(message: Seq<char>, id: u64) -> AdminErrorView {
    if text::has_text(message, "不存在"@) {
        AdminErrorView::NotFound { id }
    } else if text::has_text(message, "API Key 凭据不支持刷新"@) {
        AdminErrorView::InvalidCredential(message)
    } else if came_from_upstream(message) {
        AdminErrorView::UpstreamError(message)
    } else {
        AdminErrorView::InternalError(message)
    }
}

/// The failure to query a balance or to renew a token; see [`balance_failure`].
pub fn classify_balance_error(message: String, id: u64) -> (r: AdminServiceError)
    ensures
        r@ == balance_failure(message@, id),
{
    let m: &str = message.as_str();
    if text::contains(m, "不存在") {
        return AdminServiceError::NotFound { id };
    }
    if text::contains(m, "API Key 凭据不支持刷新") {
        return AdminServiceError::InvalidCredential(message);
    }
    let upstream: bool = text::contains(m, "凭证已过期或无效") || text::contains(m, "权限不足")
        || text::contains(m, "已被限流") || text::contains(m, "服务器错误") || text::contains(
        m,
        "Token 刷新失败",
    ) || text::contains(m, "暂时不可用") || text::contains(m, "error trying to connect")
        || text::contains(m, "connection") || text::contains(m, "timeout") || text::contains(
        m,
        "timed out",
    );
    if upstream {
        AdminServiceError::UpstreamError(message)
    } else {
        AdminServiceError::InternalError(message)
    }
}

/// Whether a failure to add a credential is the credential's fault.
pub open spec fn credential_at_fault(message: Seq<char>) -> bool {
    text::has_text(message, "缺少 refreshToken"@) || text::has_text(message, "refreshToken 为空"@)
        || text::has_text(message, "refreshToken 已被截断"@) || text::has_text(
        message,
        "凭据已存在"@,
    ) || text::has_text(message, "refreshToken 重复"@) || text::has_text(
        message,
        "kiroApiKey 重复"@,
    ) || text::has_text(message, "缺少 kiroApiKey"@) || text::has_text(
        message,
        "kiroApiKey 为空"@,
    ) || text::has_text(message, "凭证已过期或无效"@) || text::has_text(message, "权限不足"@)
        || text::has_text(message, "已被限流"@)
}

/// The failure to add a credential.
pub open spec fn add_failure(message: Seq<char>) -> AdminErrorView {
    if credential_at_fault(message) {
        AdminErrorView::InvalidCredential(message)
    } else if text::has_text(message, "error trying to connect"@) || text::has_text(
        message,
        "connection"@,
    ) || text::has_text(message, "timeout"@) {
        AdminErrorView::UpstreamError(message)
    } else {
        AdminErrorView::InternalError(message)
    }
}

/// The failure to add a credential; see [`add_failure`].
pub fn classify_add_error(message: String) -> (r: AdminServiceError)
    ensures
        r@ == add_failure(message@),
{
    let m: &str = message.as_str();
    let at_fault: bool = text::contains(m, "缺少 refreshToken") || text::contains(
        m,
        "refreshToken 为空",
    ) || text::contains(m, "refreshToken 已被截断") || text::contains(m, "凭据已存在")
        || text::contains(m, "refreshToken 重复") || text::contains(m, "kiroApiKey 重复")
        || text::contains(m, "缺少 kiroApiKey") || text::contains(m, "kiroApiKey 为空")
        || text::contains(m, "凭证已过期或无效") || text::contains(m, "权限不足")
        || text::contains(m, "已被限流");
    if at_fault {
        return AdminServiceError::InvalidCredential(message);
    }
    if text::contains(m, "error trying to connect") || text::contains(m, "connection")
        || text::contains(m, "timeout") {
        AdminServiceError::UpstreamError(message)
    } else {
        AdminServiceError::InternalError(message)
    }
}

/// The failure to delete a credential.
pub open spec fn delete_failure(message: Seq<char>, id: u64) -> AdminErrorView {
    if text::has_text(message, "不存在"@) {
        AdminErrorView::NotFound { id }
    } else if text::has_text(message, "只能删除已禁用的凭据"@) || text::has_text(
        message,
        "请先禁用凭据"@,
    ) {
        AdminErrorView::InvalidCredential(message)
    } else {
        AdminErrorView::InternalError(message)
    }
}

/// The failure to delete a credential; see [`delete_failure`].
pub fn classify_delete_error(message: String, id: u64) -> (r: AdminServiceError)
    ensures
        r@ == delete_failure(message@, id),
{
    let m: &str = message.as_str();
    if text::contains(m, "不存在") {
        return AdminServiceError::NotFound { id };
    }
    if text::contains(m, "只能删除已禁用的凭据") || text::contains(m, "请先禁用凭据") {
        AdminServiceError::InvalidCredential(message)
    } else {
        AdminServiceError::InternalError(message)
    }
}

/// The items of one priority, in order.
pub open spec fn with_priority<R>(items: Seq<CredentialStatusItem<R>>, p: u32) -> Seq<
    CredentialStatusItem<R>,
>
    decreases items.len(),
{
    if items.len() == 0 {
        Seq::empty()
    } else if items.last().priority == p {
        with_priority(items.drop_last(), p).push(items.last())
    } else {
        with_priority(items.drop_last(), p)
    }
}

/// Whether items are in the order of their priorities.
pub open spec fn by_priority<R>(items: Seq<CredentialStatusItem<R>>) -> bool {
    forall|i: int, j: int|
        0 <= i < j < items.len() ==> (#[trigger] items[i]).priority <= (
        #[trigger] items[j]).priority
}

proof fn lemma_with_priority_none<R>(items: Seq<CredentialStatusItem<R>>, p: u32)
    requires
        forall|i: int| 0 <= i < items.len() ==> (#[trigger] items[i]).priority != p,
    ensures
        with_priority(items, p) == Seq::<CredentialStatusItem<R>>::empty(),
    decreases items.len(),
{
    if items.len() > 0 {
        lemma_with_priority_none(items.drop_last(), p);
    }
}

proof fn lemma_with_priority_concat<R>(
    a: Seq<CredentialStatusItem<R>>,
    b: Seq<CredentialStatusItem<R>>,
    p: u32,
)
    ensures
        with_priority(a + b, p) == with_priority(a, p) + with_priority(b, p),
    decreases b.len(),
{
    if b.len() == 0 {
        assert(a + b =~= a);
        assert(with_priority(a, p) + with_priority(b, p) =~= with_priority(a, p));
    } else {
        lemma_with_priority_concat(a, b.drop_last(), p);
        assert((a + b).drop_last() =~= a + b.drop_last());
        assert(with_priority(a + b, p) =~= with_priority(a, p) + with_priority(b, p));
    }
}

/// Puts an item behind all that do not come after it.
fn insert_by_priority<R>(list: &mut Vec<CredentialStatusItem<R>>, item: CredentialStatusItem<R>)
    requires
        by_priority(old(list)@),
    ensures
        by_priority(final(list)@),
        forall|p: u32| #[trigger]
            with_priority(final(list)@, p) == with_priority(old(list)@.push(item), p),
        final(list)@.len() == old(list)@.len() + 1,
{
    let ghost before = list@;
    let n: usize = list.len();
    let mut at: usize = 0;
    while at < n && list[at].priority <= item.priority
        invariant
            at <= n == list@.len(),
            list@ == before,
            forall|i: int| 0 <= i < at ==> (#[trigger] before[i]).priority <= item.priority,
        decreases n - at,
    {
        at = at + 1;
    }
    list.insert(at, item);
    proof {
        let k = at as int;
        let a = before.take(k);
        let b = before.skip(k);
        assert forall|i: int| 0 <= i < b.len() implies (#[trigger] b[i]).priority
            > item.priority by {
            assert(before[k].priority > item.priority);
            assert(b[i] == before[k + i]);
            if i > 0 {
                assert(before[k].priority <= before[k + i].priority);
            }
        }
        assert(list@ =~= a + seq![item] + b);
        assert(before =~= a + b);
        assert forall|p: u32| #[trigger]
            with_priority(list@, p) == with_priority(before.push(item), p) by {
            reveal_with_fuel(with_priority, 2);
            lemma_with_priority_concat(a + seq![item], b, p);
            lemma_with_priority_concat(a, seq![item], p);
            lemma_with_priority_concat(a, b, p);
            assert(before.push(item).drop_last() =~= before);
            assert(seq![item].drop_last() =~= Seq::empty());
            if item.priority == p {
                lemma_with_priority_none(b, p);
                assert(with_priority(list@, p) =~= with_priority(before.push(item), p));
            } else {
                assert(with_priority(seq![item], p) =~= Seq::empty());
                assert(with_priority(list@, p) =~= with_priority(before.push(item), p));
            }
        }
        assert forall|i: int, j: int| 0 <= i < j < list@.len() implies (
        #[trigger] list@[i]).priority <= (#[trigger] list@[j]).priority by {
            if i < k {
                assert(list@[i] == before[i]);
            } else if i > k {
                assert(list@[i] == b[i - 1 - k]);
                assert(list@[i] == before[i - 1]);
            }
            if j < k {
                assert(list@[j] == before[j]);
            } else if j > k {
                assert(list@[j] == b[j - 1 - k]);
                assert(list@[j] == before[j - 1]);
            }
        }
    }
}

/// Puts credentials in the order of their priorities; those of one priority keep
/// their order.
fn sort_by_priority<R>(items: Vec<CredentialStatusItem<R>>) -> (r: Vec<CredentialStatusItem<R>>)
    ensures
        by_priority(r@),
        forall|p: u32| #[trigger] with_priority(r@, p) == with_priority(items@, p),
        r@.len() == items@.len(),
{
    let ghost all = items@;
    let mut rest: Vec<CredentialStatusItem<R>> = items;
    let mut list: Vec<CredentialStatusItem<R>> = Vec::new();
    assert(all.take(0) =~= Seq::empty());
    while rest.len() > 0
        invariant
            list@.len() <= all.len(),
            rest@ == all.skip(list@.len() as int),
            by_priority(list@),
            forall|p: u32| #[trigger]
                with_priority(list@, p) == with_priority(all.take(list@.len() as int), p),
        decreases rest@.len(),
    {
        let ghost k = list@.len() as int;
        let ghost before = list@;
        let item: CredentialStatusItem<R> = rest.remove(0);
        assert(item == all[k]);
        insert_by_priority(&mut list, item);
        proof {
            assert(rest@ =~= all.skip(k + 1));
            assert(all.take(k + 1).drop_last() =~= all.take(k));
            assert(before.push(item).drop_last() =~= before);
            assert forall|p: u32| #[trigger]
                with_priority(list@, p) == with_priority(all.take(k + 1), p) by {
                assert(with_priority(before, p) == with_priority(all.take(k), p));
                assert(with_priority(before.push(item), p) =~= with_priority(all.take(k + 1), p));
            }
        }
    }
    assert(all.take(list@.len() as int) =~= all);
    list
}

/// A credential as the pool knows it.
#[derive(Debug)]
pub struct CredentialEntry<R> {
    pub id: u64,
    pub priority: u32,
    pub disabled: bool,
    pub failure_count: u32,
    pub expires_at: Option<String>,
    pub auth_method: Option<String>,
    pub has_profile_arn: bool,
    pub refresh_token_hash: Option<String>,
    pub api_key_hash: Option<String>,
    pub masked_api_key: Option<String>,
    pub email: Option<String>,
    pub success_count: u64,
    pub last_used_at: Option<String>,
    pub has_proxy: bool,
    pub proxy_url: Option<String>,
    pub refresh_failure_count: u32,
    pub disabled_reason: Option<String>,
    pub endpoint: Option<String>,
    /// Its requests in the last minute and their limits, in the form of the pool.
    pub rpm: R,
    pub kind: Option<String>,
    pub base_url: Option<String>,
}

/// Whether an item shows a credential: whether it is the current one, and the default
/// endpoint where it names none.
pub open spec fn shows<R>(
    item: CredentialStatusItem<R>,
    e: CredentialEntry<R>,
    current_id: u64,
    default_endpoint: Seq<char>,
) -> bool {
    &&& item == (CredentialStatusItem {
        id: e.id,
        priority: e.priority,
        disabled: e.disabled,
        failure_count: e.failure_count,
        is_current: e.id == current_id,
        expires_at: e.expires_at,
        auth_method: e.auth_method,
        has_profile_arn: e.has_profile_arn,
        refresh_token_hash: e.refresh_token_hash,
        api_key_hash: e.api_key_hash,
        masked_api_key: e.masked_api_key,
        email: e.email,
        success_count: e.success_count,
        last_used_at: e.last_used_at,
        has_proxy: e.has_proxy,
        proxy_url: e.proxy_url,
        refresh_failure_count: e.refresh_failure_count,
        disabled_reason: e.disabled_reason,
        endpoint: item.endpoint,
        rpm: e.rpm,
        kind: e.kind,
        base_url: e.base_url,
    })
    &&& item.endpoint@ == match e.endpoint {
        Some(s) => s@,
        None => default_endpoint,
    }
}

/// Whether items show credentials, one for each and in their order.
pub open spec fn show_all<R>(
    items: Seq<CredentialStatusItem<R>>,
    entries: Seq<CredentialEntry<R>>,
    current_id: u64,
    default_endpoint: Seq<char>,
) -> bool {
    &&& items.len() == entries.len()
    &&& forall|i: int|
        0 <= i < items.len() ==> shows(
            #[trigger] items[i],
            entries[i],
            current_id,
            default_endpoint,
        )
}

/// A credential as it is shown; see [`shows`].
fn status_item<R>(e: CredentialEntry<R>, current_id: u64, default_endpoint: &str) -> (r:
    CredentialStatusItem<R>)
    ensures
        shows(r, e, current_id, default_endpoint@),
{
    CredentialStatusItem {
        id: e.id,
        priority: e.priority,
        disabled: e.disabled,
        failure_count: e.failure_count,
        is_current: e.id == current_id,
        expires_at: e.expires_at,
        auth_method: e.auth_method,
        has_profile_arn: e.has_profile_arn,
        refresh_token_hash: e.refresh_token_hash,
        api_key_hash: e.api_key_hash,
        masked_api_key: e.masked_api_key,
        email: e.email,
        success_count: e.success_count,
        last_used_at: e.last_used_at,
        has_proxy: e.has_proxy,
        proxy_url: e.proxy_url,
        refresh_failure_count: e.refresh_failure_count,
        disabled_reason: e.disabled_reason,
        endpoint: match e.endpoint {
            Some(s) => s,
            None => default_endpoint.to_owned(),
        },
        rpm: e.rpm,
        kind: e.kind,
        base_url: e.base_url,
    }
}

/// Whether items are others in the order of their priorities; those of one priority
/// keep their order.
pub open spec fn are_sorted<R>(
    sorted: Seq<CredentialStatusItem<R>>,
    items: Seq<CredentialStatusItem<R>>,
) -> bool {
    &&& by_priority(sorted)
    &&& forall|p: u32| #[trigger] with_priority(sorted, p) == with_priority(items, p)
    &&& sorted.len() == items.len()
}

/// The state of all credentials of the pool, in the order of their priorities.
pub fn get_all_credentials<R>(
    entries: Vec<CredentialEntry<R>>,
    total: usize,
    available: usize,
    current_id: u64,
    default_endpoint: &str,
) -> (r: CredentialsStatusResponse<R>)
    ensures
        r.total == total,
        r.available == available,
        r.current_id == current_id,
        exists|items: Seq<CredentialStatusItem<R>>|
            #![trigger are_sorted(r.credentials@, items)]
            show_all(items, entries@, current_id, default_endpoint@) && are_sorted(
                r.credentials@,
                items,
            ),
{
    let ghost all = entries@;
    let mut rest: Vec<CredentialEntry<R>> = entries;
    let mut items: Vec<CredentialStatusItem<R>> = Vec::new();
    while rest.len() > 0
        invariant
            items@.len() <= all.len(),
            rest@ == all.skip(items@.len() as int),
            show_all(
                items@,
                all.take(items@.len() as int),
                current_id,
                default_endpoint@,
            ),
        decreases rest@.len(),
    {
        let ghost k = items@.len() as int;
        let ghost before = items@;
        let e: CredentialEntry<R> = rest.remove(0);
        assert(e == all[k]);
        items.push(status_item(e, current_id, default_endpoint));
        proof {
            assert(rest@ =~= all.skip(k + 1));
            assert forall|i: int| 0 <= i < items@.len() implies shows(
                #[trigger] items@[i],
                all.take(k + 1)[i],
                current_id,
                default_endpoint@,
            ) by {
                if i < k {
                    assert(items@[i] == before[i]);
                    assert(all.take(k + 1)[i] == all.take(k)[i]);
                }
            }
        }
    }
    let ghost shown = items@;
    assert(all.skip(shown.len() as int).len() == 0);
    assert(all.take(shown.len() as int) =~= all);
    assert(show_all(shown, all, current_id, default_endpoint@));
    let credentials: Vec<CredentialStatusItem<R>> = sort_by_priority(items);
    let r = CredentialsStatusResponse { total, available, current_id, credentials };
    assert(are_sorted(r.credentials@, shown));
    r
}

/// How long a slice of time is.
#[derive(Debug, Clone, Copy, PartialEq, Eq, Structural)]
pub enum Bucket {
    Hour,
    Day,
}

impl Bucket {
    /// A day where it is asked for, or else an hour.
    pub fn parse(s: &str) -> (r: Self)
        ensures
            r == if s@ == "day"@ {
                Bucket::Day
            } else {
                Bucket::Hour
            },
    {
        if text::str_eq(s, "day") {
            Bucket::Day
        } else {
            Bucket::Hour
        }
    }

    /// The slice in words.
    pub fn name(&self) -> (r: &'static str)
        ensures
            r@ == match *self {
                Bucket::Day => "day"@,
                Bucket::Hour => "hour"@,
            },
    {
        match self {
            Bucket::Day => "day",
            Bucket::Hour => "hour",
        }
    }
}

/// The counts that are asked for: a time in seconds since 1970, in slices.
#[derive(Debug, Clone, Copy, PartialEq, Eq, Structural)]
pub struct TimeRange {
    pub from: i64,
    pub to: i64,
    pub bucket: Bucket,
}

/// The end of the time that is asked for: now, where nothing else is said.
pub open spec fn range_end(to: Option<i64>, now: i64) -> i64 {
    match to {
        Some(t) => t,
        None => now,
    }
}

/// The counts that are asked for: up to now, from a day before and in slices of an hour,
/// where nothing else is said.
pub fn query_timeseries(query: &TimeseriesQuery, now: i64) -> (r: TimeRange)
    requires
        query.from is Some || range_end(query.to, now) - 86400 >= i64::MIN,
    ensures
        r.to == range_end(query.to, now),
        r.from == match query.from {
            Some(f) => f as int,
            None => r.to - 86400,
        },
        r.bucket == if text::opt_view(query.bucket) == Some("day"@) {
            Bucket::Day
        } else {
            Bucket::Hour
        },
{
    let to: i64 = match query.to {
        Some(t) => t,
        None => now,
    };
    let from: i64 = match query.from {
        Some(f) => f,
        None => to - 86400,
    };
    let bucket: Bucket = match &query.bucket {
        Some(s) => Bucket::parse(s.as_str()),
        None => Bucket::Hour,
    };
    TimeRange { from, to, bucket }
}

/// Whether a request carries the administrator's key.
pub fn is_admin(api_key: Option<&str>, expected: &str) -> (r: bool)
    ensures
        r == (api_key is Some && api_key.unwrap()@ == expected@),
{
    match api_key {
        Some(k) => text::str_eq(k, expected),
        None => false,
    }
}

/// The counters of the process and of the credentials.
pub fn get_metrics(m: &MetricsSnapshot, available: usize, total: usize, current_id: u64) -> (r:
    MetricsResponse)
    ensures
        r == (MetricsResponse {
            requests_success: m.requests_success,
            requests_error: m.requests_error,
            local_rpm_rejected: m.local_rpm_rejected,
            stream_decode_failures: m.stream_decode_failures,
            upstream_rate_limited: m.upstream_rate_limited,
            stream_interrupted: m.stream_interrupted,
            stream_restarted: m.stream_restarted,
            uptime_seconds: m.uptime_seconds,
            credentials_available: available,
            credentials_total: total,
            current_id,
        }),
{
    MetricsResponse {
        requests_success: m.requests_success,
        requests_error: m.requests_error,
        local_rpm_rejected: m.local_rpm_rejected,
        stream_decode_failures: m.stream_decode_failures,
        upstream_rate_limited: m.upstream_rate_limited,
        stream_interrupted: m.stream_interrupted,
        stream_restarted: m.stream_restarted,
        uptime_seconds: m.uptime_seconds,
        credentials_available: available,
        credentials_total: total,
        current_id,
    }
}

/// What follows once a credential was switched off or on: whether another one is to be
/// picked, which is so only where it was the current one that was switched off.
pub fn set_disabled(id: u64, disabled: bool, current_id: u64) -> (r: bool)
    ensures
        r == (disabled && id == current_id),
{
    disabled && id == current_id
}

/// How long a balance is kept, in seconds.
pub const BALANCE_CACHE_TTL_SECS: i64 = 300;

/// Whether a balance is still good.
pub open spec fn is_fresh(cached_at: int, now: int) -> bool {
    now - cached_at < 300
}

/// When the balance of each credential was asked for, in seconds since 1970.
#[derive(Debug)]
pub struct BalanceCache {
    pub times: HashMap<u64, i64>,
}

impl View for BalanceCache {
    type V = Map<u64, i64>;

    open spec fn view(&self) -> Map<u64, i64> {
        self.times@
    }
}

/// Whether a balance is still good, without leaving the range of the type.
fn still_fresh(cached_at: i64, now: i64) -> (r: bool)
    ensures
        r == is_fresh(cached_at as int, now as int),
{
    match now.checked_sub(cached_at) {
        Some(age) => age < BALANCE_CACHE_TTL_SECS,
        None => now < cached_at,
    }
}

/// The entries of a saved cache that still count: those of a credential's number whose
/// balance is still good. Of several for one credential the last counts.
pub open spec fn restored(saved: Seq<(Seq<char>, i64)>, now: int) -> Map<u64, i64>
    decreases saved.len(),
{
    if saved.len() == 0 {
        Map::empty()
    } else {
        let rest = restored(saved.drop_last(), now);
        match text::number_of(saved.last().0) {
            Some(id) => if id <= u64::MAX && is_fresh(saved.last().1 as int, now) {
                rest.insert(id as u64, saved.last().1)
            } else {
                rest
            },
            None => rest,
        }
    }
}

impl BalanceCache {
    /// An empty cache.
    pub fn new() -> (r: Self)
        ensures
            r@ == Map::<u64, i64>::empty(),
    {
        BalanceCache { times: HashMap::new() }
    }

    /// Whether the balance of a credential is there and still good.
    pub fn has_fresh(&self, id: u64, now: i64) -> (r: bool)
        ensures
            r == (self@.contains_key(id) && is_fresh(self@[id] as int, now as int)),
    {
        match self.times.get(&id) {
            Some(t) => still_fresh(*t, now),
            None => false,
        }
    }

    /// Notes that the balance of a credential was asked for.
    pub fn insert(&mut self, id: u64, now: i64)
        ensures
            final(self)@ == old(self)@.insert(id, now),
    {
        self.times.insert(id, now);
    }

    /// Forgets a credential.
    pub fn remove(&mut self, id: u64)
        ensures
            final(self)@ == old(self)@.remove(id),
    {
        self.times.remove(&id);
    }

    /// The cache that was saved, as far as it still counts; see [`restored`].
    pub fn restore(saved: &Vec<(String, i64)>, now: i64) -> (r: Self)
        ensures
            r@ == restored(saved@.map_values(|p: (String, i64)| (p.0@, p.1)), now as int),
    {
        let ghost all = saved@.map_values(|p: (String, i64)| (p.0@, p.1));
        let mut cache = BalanceCache::new();
        let n: usize = saved.len();
        let mut i: usize = 0;
        assert(all.take(0) =~= Seq::empty());
        while i < n
            invariant
                i <= n == saved@.len(),
                all == saved@.map_values(|p: (String, i64)| (p.0@, p.1)),
                cache@ == restored(all.take(i as int), now as int),
            decreases n - i,
        {
            proof {
                assert(all.take(i + 1).drop_last() =~= all.take(i as int));
                assert(all.take(i + 1).last() == (saved@[i as int].0@, saved@[i as int].1));
            }
            if let Some(id) = text::parse_u64(saved[i].0.as_str()) {
                if still_fresh(saved[i].1, now) {
                    cache.insert(id, saved[i].1);
                }
            }
            i = i + 1;
        }
        assert(all.take(i as int) =~= all);
        cache
    }
}

/// A balance that was just asked for is good for five minutes, and no longer.
pub proof fn law_balance_kept_five_minutes(cache: Map<u64, i64>, id: u64, now: i64, later: i64)
    requires
        later >= now,
    ensures
        is_fresh(cache.insert(id, now)[id] as int, later as int) <==> later < now + 300,
{
}

/// A credential to be added.
#[derive(Debug)]
pub struct NewCredential {
    pub refresh_token: Option<String>,
    pub auth_method: Option<String>,
    pub client_id: Option<String>,
    pub client_secret: Option<String>,
    pub priority: u32,
    pub region: Option<String>,
    pub auth_region: Option<String>,
    pub api_region: Option<String>,
    pub machine_id: Option<String>,
    pub email: Option<String>,
    pub proxy_url: Option<String>,
    pub proxy_username: Option<String>,
    pub proxy_password: Option<String>,
    pub disabled: bool,
    pub kiro_api_key: Option<String>,
    pub endpoint: Option<String>,
    pub kind: Option<String>,
    pub base_url: Option<String>,
    pub upstream_api_key: Option<String>,
}

/// Whether a kind of credential forwards requests as they came.
pub open spec fn forwards(kind: Option<Seq<char>>) -> bool {
    kind == Some("anthropic"@) || kind == Some("openai"@)
}

fn forwards_kind(kind: &Option<String>) -> (r: bool)
    ensures
        r == forwards(text::opt_view(*kind)),
{
    match kind {
        Some(k) => text::str_eq(k.as_str(), "anthropic") || text::str_eq(k.as_str(), "openai"),
        None => false,
    }
}

/// The names in order, each once.
pub open spec fn in_name_order(names: Seq<Seq<char>>) -> bool {
    forall|i: int, j: int|
        0 <= i < j < names.len() ==> text::less(#[trigger] names[i], #[trigger] names[j])
}

pub open spec fn names_view(v: Seq<String>) -> Seq<Seq<char>> {
    v.map_values(|s: String| s@)
}

fn insert_name(list: &mut Vec<String>, name: &str)
    requires
        in_name_order(names_view(old(list)@)),
    ensures
        in_name_order(names_view(final(list)@)),
        forall|s: Seq<char>| #[trigger]
            names_view(final(list)@).contains(s) <==> names_view(old(list)@).contains(s) || s
                == name@,
{
    let ghost before = names_view(list@);
    let n: usize = list.len();
    let mut at: usize = 0;
    while at < n && text::is_less(list[at].as_str(), name)
        invariant
            at <= n == list@.len(),
            before == names_view(list@),
            list@ == old(list)@,
            forall|i: int| 0 <= i < at ==> text::less(#[trigger] before[i], name@),
        decreases n - at,
    {
        assert(before[at as int] == list@[at as int]@);
        at = at + 1;
    }
    if at < n && text::str_eq(list[at].as_str(), name) {
        assert(before[at as int] == name@);
        assert(before.contains(name@));
        return;
    }
    proof {
        assert forall|i: int| at <= i < n implies text::less(name@, #[trigger] before[i]) by {
            assert(before[at as int] == list@[at as int]@);
            text::lemma_less_total(before[at as int], name@);
            if i > at {
                assert(text::less(before[at as int], before[i]));
                text::lemma_less_transitive(name@, before[at as int], before[i]);
            }
        }
    }
    list.insert(at, name.to_owned());
    proof {
        let after = names_view(list@);
        let k = at as int;
        assert(after =~= before.insert(k, name@));
        before.insert_ensures(k, name@);
        assert forall|i: int, j: int| 0 <= i < j < after.len() implies text::less(
            #[trigger] after[i],
            #[trigger] after[j],
        ) by {
            let x = if i < k {
                i
            } else {
                i - 1
            };
            let y = if j < k {
                j
            } else {
                j - 1
            };
            if i != k {
                assert(after[i] == before[x]);
            }
            if j != k {
                assert(after[j] == before[y]);
            }
        }
        assert forall|s: Seq<char>| #[trigger] after.contains(s) <==> before.contains(s) || s
            == name@ by {
            if before.contains(s) {
                let i = choose|i: int| 0 <= i < before.len() && before[i] == s;
                let x = if i < k {
                    i
                } else {
                    i + 1
                };
                assert(after[x] == s);
            }
            if s == name@ {
                assert(after[k] == s);
            }
            if after.contains(s) && s != name@ {
                let i = choose|i: int| 0 <= i < after.len() && after[i] == s;
                let x = if i < k {
                    i
                } else {
                    i - 1
                };
                assert(before[x] == s);
            }
        }
    }
}

/// The names in order, each once.
pub fn sorted_names(names: &Vec<String>) -> (r: Vec<String>)
    ensures
        in_name_order(names_view(r@)),
        forall|s: Seq<char>| #[trigger]
            names_view(r@).contains(s) <==> names_view(names@).contains(s),
{
    let ghost all = names_view(names@);
    let mut r: Vec<String> = Vec::new();
    let n: usize = names.len();
    let mut i: usize = 0;
    assert(names_view(r@) =~= Seq::empty());
    while i < n
        invariant
            i <= n == names@.len(),
            all == names_view(names@),
            in_name_order(names_view(r@)),
            forall|s: Seq<char>| #[trigger]
                names_view(r@).contains(s) <==> all.take(i as int).contains(s),
        decreases n - i,
    {
        insert_name(&mut r, names[i].as_str());
        proof {
            let next = all.take(i + 1);
            let now = all.take(i as int);
            assert(next =~= now.push(names@[i as int]@));
            assert forall|s: Seq<char>| #[trigger] names_view(r@).contains(s) <==> next.contains(
                s,
            ) by {
                if now.contains(s) {
                    let k = choose|k: int| 0 <= k < now.len() && now[k] == s;
                    assert(next[k] == s);
                }
                if next.contains(s) && s != names@[i as int]@ {
                    let k = choose|k: int| 0 <= k < next.len() && next[k] == s;
                    assert(now[k] == s);
                }
                if s == names@[i as int]@ {
                    assert(next[i as int] == s);
                }
            }
        }
        i = i + 1;
    }
    assert(all.take(i as int) =~= all);
    r
}

/// Names in quotes, with commas between them.
pub open spec fn quoted_list(names: Seq<Seq<char>>) -> Seq<char>
    decreases names.len(),
{
    if names.len() == 0 {
        Seq::empty()
    } else if names.len() == 1 {
        outside::debug_text(names[0])
    } else {
        quoted_list(names.drop_last()) + ", "@ + outside::debug_text(names.last())
    }
}

/// What is said of an endpoint that is not known.
pub open spec fn unknown_endpoint(name: Seq<char>, known: Seq<Seq<char>>) -> Seq<char> {
    "未知端点 \""@ + name + "\"，已注册端点: ["@ + quoted_list(known) + "]"@
}

fn unknown_endpoint_text(name: &str, known: &Vec<String>) -> (r: String)
    ensures
        r@ == unknown_endpoint(name@, names_view(known@)),
{
    let mut s: String = "未知端点 \"".to_owned();
    s.append(name);
    s.append("\"，已注册端点: [");
    let ghost head = s@;
    let ghost all = names_view(known@);
    let n: usize = known.len();
    let mut i: usize = 0;
    assert(all.take(0) =~= Seq::empty());
    assert(head + quoted_list(all.take(0)) =~= head);
    while i < n
        invariant
            i <= n == known@.len(),
            all == names_view(known@),
            s@ == head + quoted_list(all.take(i as int)),
        decreases n - i,
    {
        let ghost next = all.take(i + 1);
        assert(next.drop_last() =~= all.take(i as int));
        assert(next.last() == known@[i as int]@);
        if i > 0 {
            s.append(", ");
        }
        s.append(outside::debug_quote(known[i].as_str()).as_str());
        assert(s@ =~= head + quoted_list(next));
        i = i + 1;
    }
    assert(all.take(i as int) =~= all);
    s.append("]");
    s
}

/// Whether a text is missing or empty.
pub open spec fn absent(s: Option<String>) -> bool {
    match s {
        Some(t) => t@.len() == 0,
        None => true,
    }
}

fn is_absent(s: &Option<String>) -> (r: bool)
    ensures
        r == absent(*s),
{
    match s {
        Some(t) => t.as_str().is_empty(),
        None => true,
    }
}

/// How a credential authenticates, under the one name of each way.
pub open spec fn canonical_auth_method(method: Option<Seq<char>>) -> Option<Seq<char>> {
    if method == Some("builder-id"@) || method == Some("iam"@) {
        Some("idc"@)
    } else {
        method
    }
}

fn canonicalize_auth_method(method: Option<String>) -> (r: Option<String>)
    ensures
        text::opt_view(r) == canonical_auth_method(text::opt_view(method)),
{
    match method {
        Some(m) => if text::str_eq(m.as_str(), "builder-id") || text::str_eq(m.as_str(), "iam") {
            Some("idc".to_owned())
        } else {
            Some(m)
        },
        None => None,
    }
}

/// Whether an endpoint can be used: one that is not named is the default one.
pub open spec fn endpoint_known(endpoint: Option<Seq<char>>, known: Seq<Seq<char>>) -> bool {
    match endpoint {
        Some(name) => known.contains(name),
        None => true,
    }
}

/// The credential that a request means, or why it is refused: its endpoint must be
/// known, and one that forwards requests needs an address and a key.
pub fn add_credential(req: AddCredentialRequest, known_endpoints: &Vec<String>) -> (r: Result<
    NewCredential,
    AdminServiceError,
>)
    ensures
        ({
            let known = names_view(known_endpoints@);
            let forward = forwards(text::opt_view(req.kind));
            if !endpoint_known(text::opt_view(req.endpoint), known) {
                &&& r is Err
                &&& exists|sorted: Seq<Seq<char>>|
                    {
                        &&& #[trigger] in_name_order(sorted)
                        &&& forall|s: Seq<char>| #[trigger]
                            sorted.contains(s) <==> known.contains(s)
                        &&& r->Err_0@ == AdminErrorView::InvalidCredential(
                            unknown_endpoint(req.endpoint.unwrap()@, sorted),
                        )
                    }
            } else if forward && (absent(req.base_url) || absent(req.upstream_api_key)) {
                &&& r is Err
                &&& r->Err_0@ == AdminErrorView::InvalidCredential(
                    "透传凭据（kind=anthropic/openai）必须提供 baseUrl 和 upstreamApiKey"@,
                )
            } else {
                &&& r is Ok
                &&& text::opt_view(r->Ok_0.auth_method) == if forward {
                    None
                } else {
                    canonical_auth_method(Some(req.auth_method@))
                }
                &&& r->Ok_0 == (NewCredential {
                    refresh_token: req.refresh_token,
                    auth_method: r->Ok_0.auth_method,
                    client_id: req.client_id,
                    client_secret: req.client_secret,
                    priority: req.priority,
                    region: req.region,
                    auth_region: req.auth_region,
                    api_region: req.api_region,
                    machine_id: req.machine_id,
                    email: req.email,
                    proxy_url: req.proxy_url,
                    proxy_username: req.proxy_username,
                    proxy_password: req.proxy_password,
                    disabled: false,
                    kiro_api_key: req.kiro_api_key,
                    endpoint: req.endpoint,
                    kind: req.kind,
                    base_url: req.base_url,
                    upstream_api_key: req.upstream_api_key,
                })
            }
        }),
{
    if let Some(name) = &req.endpoint {
        if !is_known(known_endpoints, name.as_str()) {
            let sorted: Vec<String> = sorted_names(known_endpoints);
            let message: String = unknown_endpoint_text(name.as_str(), &sorted);
            assert(in_name_order(names_view(sorted@)));
            return Err(AdminServiceError::InvalidCredential(message));
        }
    }
    let forward: bool = forwards_kind(&req.kind);
    if forward && (is_absent(&req.base_url) || is_absent(&req.upstream_api_key)) {
        return Err(
            AdminServiceError::InvalidCredential(
                "透传凭据（kind=anthropic/openai）必须提供 baseUrl 和 upstreamApiKey".to_owned(),
            ),
        );
    }
    let auth_method: Option<String> = if forward {
        None
    } else {
        canonicalize_auth_method(Some(req.auth_method))
    };
    Ok(
        NewCredential {
            refresh_token: req.refresh_token,
            auth_method,
            client_id: req.client_id,
            client_secret: req.client_secret,
            priority: req.priority,
            region: req.region,
            auth_region: req.auth_region,
            api_region: req.api_region,
            machine_id: req.machine_id,
            email: req.email,
            proxy_url: req.proxy_url,
            proxy_username: req.proxy_username,
            proxy_password: req.proxy_password,
            disabled: false,
            kiro_api_key: req.kiro_api_key,
            endpoint: req.endpoint,
            kind: req.kind,
            base_url: req.base_url,
            upstream_api_key: req.upstream_api_key,
        },
    )
}

/// Whether a name is among others.
pub fn is_known(names: &Vec<String>, name: &str) -> (r: bool)
    ensures
        r == names_view(names@).contains(name@),
{
    let ghost all = names_view(names@);
    let n: usize = names.len();
    let mut i: usize = 0;
    while i < n
        invariant
            i <= n == names@.len(),
            all == names_view(names@),
            forall|j: int| 0 <= j < i ==> #[trigger] all[j] != name@,
        decreases n - i,
    {
        assert(all[i as int] == names@[i as int]@);
        if text::str_eq(names[i].as_str(), name) {
            assert(all.contains(name@));
            return true;
        }
        i = i + 1;
    }
    false
}

/// What is asked of the upstream service once a credential was added.
#[derive(Debug, Clone, Copy, PartialEq, Eq, Structural)]
pub enum AfterAdd {
    Nothing,
    /// The profile, without which requests are refused.
    ProfileArn,
    /// The limits, from which the subscription is known.
    UsageLimits,
}

impl NewCredential {
    /// What is asked of the upstream service once the credential was added: nothing for
    /// one that forwards requests, the profile for an identity center, the limits for
    /// all others.
    pub fn after_add(&self) -> (r: AfterAdd)
        ensures
            r == if forwards(text::opt_view(self.kind)) {
                AfterAdd::Nothing
            } else if text::opt_view(self.auth_method) == Some("idc"@) {
                AfterAdd::ProfileArn
            } else {
                AfterAdd::UsageLimits
            },
    {
        if forwards_kind(&self.kind) {
            return AfterAdd::Nothing;
        }
        let idc: bool = match &self.auth_method {
            Some(m) => text::str_eq(m.as_str(), "idc"),
            None => false,
        };
        if idc {
            AfterAdd::ProfileArn
        } else {
            AfterAdd::UsageLimits
        }
    }
}

/// The answer to the addition of a credential.
pub fn credential_added(credential_id: u64, email: Option<String>) -> (r: AddCredentialResponse)
    ensures
        r.success,
        r.message@ == "凭据添加成功，ID: "@ + text::digits(credential_id as nat),
        r.credential_id == credential_id,
        r.email == email,
{
    let mut message: String = "凭据添加成功，ID: ".to_owned();
    text::push_u64(&mut message, credential_id);
    AddCredentialResponse { success: true, message, credential_id, email }
}

/// Whether credentials can be picked so.
pub open spec fn is_mode(mode: Seq<char>) -> bool {
    mode == "priority"@ || mode == "balanced"@ || mode == "round-robin"@
}

/// The way in which credentials are to be picked, if there is such a way.
pub fn set_load_balancing_mode(req: SetLoadBalancingModeRequest) -> (r: Result<
    LoadBalancingModeResponse,
    AdminServiceError,
>)
    ensures
        if is_mode(req.mode@) {
            r is Ok && r->Ok_0.mode@ == req.mode@
        } else {
            r is Err && r->Err_0@ == AdminErrorView::InvalidCredential(
                "mode 必须是 'priority'、'balanced' 或 'round-robin'"@,
            )
        },
{
    let m: &str = req.mode.as_str();
    if !text::str_eq(m, "priority") && !text::str_eq(m, "balanced") && !text::str_eq(
        m,
        "round-robin",
    ) {
        return Err(
            AdminServiceError::InvalidCredential(
                "mode 必须是 'priority'、'balanced' 或 'round-robin'".to_owned(),
            ),
        );
    }
    Ok(LoadBalancingModeResponse { mode: req.mode })
}

/// A failure of which no more is known than its words is told in these words, unless it is that
/// there is no such credential, which is told by its number.
pub proof fn law_failures_are_told(message: Seq<char>, id: u64)
    ensures
        ({
            let missing = text::has_text(message, "不存在"@);
            let balance = balance_failure(message, id);
            let delete = delete_failure(message, id);
            &&& missing ==> balance == (AdminErrorView::NotFound { id })
            &&& missing ==> delete == (AdminErrorView::NotFound { id })
            &&& !missing ==> !(balance is NotFound) && !(delete is NotFound)
            &&& !(add_failure(message) is NotFound)
            &&& balance matches AdminErrorView::InvalidCredential(s) ==> s == message
            &&& balance matches AdminErrorView::UpstreamError(s) ==> s == message
            &&& balance matches AdminErrorView::InternalError(s) ==> s == message
            &&& delete matches AdminErrorView::InvalidCredential(s) ==> s == message
            &&& delete matches AdminErrorView::InternalError(s) ==> s == message
            &&& !(delete is UpstreamError)
            &&& add_failure(message) matches AdminErrorView::InvalidCredential(s) ==> s == message
            &&& add_failure(message) matches AdminErrorView::UpstreamError(s) ==> s == message
            &&& add_failure(message) matches AdminErrorView::InternalError(s) ==> s == message
        }),
{
}

/// A failure to query a balance is the upstream service's where the words say that a token has
/// run out, that rights are missing, that it slowed the caller down, that it failed, or that it
/// could not be reached in time.
pub proof fn law_upstream_failures(message: Seq<char>, id: u64)
    requires
        !text::has_text(message, "不存在"@),
        !text::has_text(message, "API Key 凭据不支持刷新"@),
    ensures
        text::has_text(message, "凭证已过期或无效"@) ==> balance_failure(message, id)
            is UpstreamError,
        text::has_text(message, "权限不足"@) ==> balance_failure(message, id) is UpstreamError,
        text::has_text(message, "已被限流"@) ==> balance_failure(message, id) is UpstreamError,
        text::has_text(message, "服务器错误"@) ==> balance_failure(message, id) is UpstreamError,
        text::has_text(message, "Token 刷新失败"@) ==> balance_failure(message, id)
            is UpstreamError,
        text::has_text(message, "暂时不可用"@) ==> balance_failure(message, id) is UpstreamError,
        text::has_text(message, "connection"@) ==> balance_failure(message, id) is UpstreamError,
        text::has_text(message, "timeout"@) ==> balance_failure(message, id) is UpstreamError,
        text::has_text(message, "timed out"@) ==> balance_failure(message, id) is UpstreamError,
{
}

/// A credential is refused for its own fault where the words say that its token or key is
/// missing, empty, cut off, run out or there already, or that it has no rights or too many
/// requests; otherwise a service that cannot be reached is the upstream service's failure.
pub proof fn law_refused_credentials(message: Seq<char>)
    ensures
        text::has_text(message, "缺少 refreshToken"@) || text::has_text(message, "缺少 kiroApiKey"@)
            ==> add_failure(message) is InvalidCredential,
        text::has_text(message, "refreshToken 为空"@) || text::has_text(
            message,
            "kiroApiKey 为空"@,
        ) ==> add_failure(message) is InvalidCredential,
        text::has_text(message, "refreshToken 重复"@) || text::has_text(
            message,
            "kiroApiKey 重复"@,
        ) || text::has_text(message, "凭据已存在"@) ==> add_failure(message) is InvalidCredential,
        text::has_text(message, "refreshToken 已被截断"@) || text::has_text(
            message,
            "凭证已过期或无效"@,
        ) || text::has_text(message, "权限不足"@) || text::has_text(message, "已被限流"@)
            ==> add_failure(message) is InvalidCredential,
        !(add_failure(message) is InvalidCredential) && (text::has_text(message, "connection"@)
            || text::has_text(message, "timeout"@)) ==> add_failure(message) is UpstreamError,
{
}

/// Of a saved cache those entries come back, with their times, that name a credential and are
/// still good and that no later such entry for the same credential replaces.
pub proof fn law_fresh_balances_come_back(saved: Seq<(Seq<char>, i64)>, now: int, id: u64)
    ensures
        ({
            let r = restored(saved, now);
            &&& r.contains_key(id) ==> now - r[id] < 300 && exists|i: int|
                {
                    &&& 0 <= i < saved.len()
                    &&& text::number_of((#[trigger] saved[i]).0) == Some(id as nat)
                    &&& saved[i].1 == r[id]
                    &&& forall|j: int|
                        i < j < saved.len() && text::number_of((#[trigger] saved[j]).0) == Some(
                            id as nat,
                        ) ==> now - saved[j].1 >= 300
                }
            &&& !r.contains_key(id) ==> forall|i: int|
                0 <= i < saved.len() && text::number_of((#[trigger] saved[i]).0) == Some(id as nat)
                    ==> now - saved[i].1 >= 300
        }),
    decreases saved.len(),
{
    if saved.len() > 0 {
        let rest = saved.drop_last();
        let last = saved.len() - 1;
        law_fresh_balances_come_back(rest, now, id);
        let r = restored(saved, now);
        let a = restored(rest, now);
        let mine = text::number_of(saved[last].0) == Some(id as nat) && is_fresh(
            saved[last].1 as int,
            now,
        );
        if mine {
            assert(r[id] == saved[last].1);
        } else {
            assert(r.contains_key(id) == a.contains_key(id));
            assert(a.contains_key(id) ==> r[id] == a[id]);
            if a.contains_key(id) {
                let i = choose|i: int|
                    {
                        &&& 0 <= i < rest.len()
                        &&& text::number_of((#[trigger] rest[i]).0) == Some(id as nat)
                        &&& rest[i].1 == a[id]
                        &&& forall|j: int|
                            i < j < rest.len() && text::number_of((#[trigger] rest[j]).0) == Some(
                                id as nat,
                            ) ==> now - rest[j].1 >= 300
                    };
                assert(saved[i] == rest[i]);
                assert forall|j: int|
                    i < j < saved.len() && text::number_of((#[trigger] saved[j]).0) == Some(
                        id as nat,
                    ) implies now - saved[j].1 >= 300 by {
                    if j < last {
                        assert(rest[j] == saved[j]);
                    }
                }
            } else {
                assert forall|i: int|
                    0 <= i < saved.len() && text::number_of((#[trigger] saved[i]).0) == Some(
                        id as nat,
                    ) implies now - saved[i].1 >= 300 by {
                    if i < last {
                        assert(rest[i] == saved[i]);
                    }
                }
            }
        }
    }
}

/// A credential authenticates as it says, but for the two ways that go by one name with the
/// identity center.
pub proof fn law_auth_method_names(method: Seq<char>)
    ensures
        method == "builder-id"@ || method == "iam"@ ==> canonical_auth_method(Some(method)) == Some(
            "idc"@,
        ),
        method != "builder-id"@ && method != "iam"@ ==> canonical_auth_method(Some(method)) == Some(
            method,
        ),
        canonical_auth_method(None) is None,
{
}

proof fn lemma_listed<R>(items: Seq<CredentialStatusItem<R>>, x: CredentialStatusItem<R>)
    ensures
        items.contains(x) <==> with_priority(items, x.priority).contains(x),
    decreases items.len(),
{
    if items.len() > 0 {
        let rest = items.drop_last();
        let last = items.last();
        lemma_listed(rest, x);
        assert(items =~= rest.push(last));
        let w = with_priority(rest, x.priority);
        if rest.contains(x) {
            let i = choose|i: int| 0 <= i < rest.len() && rest[i] == x;
            assert(items[i] == x);
            let j = choose|j: int| 0 <= j < w.len() && w[j] == x;
            assert(w.push(last)[j] == x);
        }
        if last == x {
            assert(items[items.len() - 1] == x);
            assert(w.push(last)[w.len() as int] == x);
        }
        if items.contains(x) && last != x {
            let i = choose|i: int| 0 <= i < items.len() && items[i] == x;
            assert(rest[i] == x);
        }
        let all = with_priority(items, x.priority);
        if all.contains(x) && last != x {
            let j = choose|j: int| 0 <= j < all.len() && all[j] == x;
            assert(w[j] == x);
        }
    }
}

/// Whether an item tells the state of a credential.
pub open spec fn tells_of<R>(
    item: CredentialStatusItem<R>,
    e: CredentialEntry<R>,
    current_id: u64,
    default_endpoint: Seq<char>,
) -> bool {
    &&& item.id == e.id
    &&& item.priority == e.priority
    &&& item.disabled == e.disabled
    &&& item.disabled_reason == e.disabled_reason
    &&& item.failure_count == e.failure_count
    &&& item.refresh_failure_count == e.refresh_failure_count
    &&& item.success_count == e.success_count
    &&& item.last_used_at == e.last_used_at
    &&& item.expires_at == e.expires_at
    &&& item.auth_method == e.auth_method
    &&& item.has_profile_arn == e.has_profile_arn
    &&& item.refresh_token_hash == e.refresh_token_hash
    &&& item.api_key_hash == e.api_key_hash
    &&& item.masked_api_key == e.masked_api_key
    &&& item.email == e.email
    &&& item.has_proxy == e.has_proxy
    &&& item.proxy_url == e.proxy_url
    &&& item.rpm == e.rpm
    &&& item.kind == e.kind
    &&& item.base_url == e.base_url
    &&& item.is_current <==> e.id == current_id
    &&& match e.endpoint {
        Some(s) => item.endpoint@ == s@,
        None => item.endpoint@ == default_endpoint,
    }
}

/// Whether some item tells the state of a credential.
pub open spec fn is_listed<R>(
    items: Seq<CredentialStatusItem<R>>,
    e: CredentialEntry<R>,
    current_id: u64,
    default_endpoint: Seq<char>,
) -> bool {
    exists|j: int|
        0 <= j < items.len() && tells_of(#[trigger] items[j], e, current_id, default_endpoint)
}

/// Whether an item tells the state of some credential.
pub open spec fn is_of_some<R>(
    item: CredentialStatusItem<R>,
    entries: Seq<CredentialEntry<R>>,
    current_id: u64,
    default_endpoint: Seq<char>,
) -> bool {
    exists|i: int|
        0 <= i < entries.len() && tells_of(
            item,
            #[trigger] entries[i],
            current_id,
            default_endpoint,
        )
}

/// Every credential is listed with its own state, nothing else is, and one of a lower
/// priority number stands before one of a higher.
pub proof fn law_every_credential_is_listed<R>(
    sorted: Seq<CredentialStatusItem<R>>,
    items: Seq<CredentialStatusItem<R>>,
    entries: Seq<CredentialEntry<R>>,
    current_id: u64,
    default_endpoint: Seq<char>,
)
    requires
        show_all(items, entries, current_id, default_endpoint),
        are_sorted(sorted, items),
    ensures
        sorted.len() == entries.len(),
        forall|i: int|
            0 <= i < entries.len() ==> is_listed(
                sorted,
                #[trigger] entries[i],
                current_id,
                default_endpoint,
            ),
        forall|j: int|
            0 <= j < sorted.len() ==> is_of_some(
                #[trigger] sorted[j],
                entries,
                current_id,
                default_endpoint,
            ),
        forall|i: int, j: int|
            0 <= i < sorted.len() && 0 <= j < sorted.len() && (#[trigger] sorted[i]).priority < (
            #[trigger] sorted[j]).priority ==> i < j,
{
    assert forall|i: int| 0 <= i < entries.len() implies is_listed(
        sorted,
        #[trigger] entries[i],
        current_id,
        default_endpoint,
    ) by {
        let x = items[i];
        assert(shows(x, entries[i], current_id, default_endpoint));
        assert(items.contains(x));
        lemma_listed(items, x);
        lemma_listed(sorted, x);
        assert(with_priority(sorted, x.priority) == with_priority(items, x.priority));
        let j = choose|j: int| 0 <= j < sorted.len() && sorted[j] == x;
        assert(tells_of(sorted[j], entries[i], current_id, default_endpoint));
    }
    assert forall|j: int| 0 <= j < sorted.len() implies is_of_some(
        #[trigger] sorted[j],
        entries,
        current_id,
        default_endpoint,
    ) by {
        let x = sorted[j];
        assert(sorted.contains(x));
        lemma_listed(items, x);
        lemma_listed(sorted, x);
        assert(with_priority(sorted, x.priority) == with_priority(items, x.priority));
        let i = choose|i: int| 0 <= i < items.len() && items[i] == x;
        assert(shows(items[i], entries[i], current_id, default_endpoint));
        assert(tells_of(sorted[j], entries[i], current_id, default_endpoint));
    }
}

proof fn lemma_quoted(names: Seq<Seq<char>>, i: int)
    requires
        0 <= i < names.len(),
    ensures
        text::has_text(quoted_list(names), outside::debug_text(names[i])),
    decreases names.len(),
{
    let d = outside::debug_text(names[i]);
    text::lemma_in_itself(d);
    if names.len() > 1 {
        let rest = quoted_list(names.drop_last());
        let last = outside::debug_text(names.last());
        if i < names.len() - 1 {
            lemma_quoted(names.drop_last(), i);
            text::lemma_in_whole(rest, ", "@, d);
            text::lemma_in_whole(rest + ", "@, last, d);
        } else {
            text::lemma_in_whole(rest + ", "@, d, d);
        }
    }
}

/// What is said of an endpoint that is not known holds its name and each name that is known.
pub proof fn law_known_endpoints_are_told(name: Seq<char>, known: Seq<Seq<char>>, i: int)
    requires
        0 <= i < known.len(),
    ensures
        text::has_text(unknown_endpoint(name, known), name),
        text::has_text(unknown_endpoint(name, known), outside::debug_text(known[i])),
{
    let head = "未知端点 \""@;
    let middle = "\"，已注册端点: ["@;
    let list = quoted_list(known);
    let d = outside::debug_text(known[i]);
    text::lemma_in_itself(name);
    text::lemma_in_whole(head, name, name);
    text::lemma_in_whole(head + name, middle, name);
    text::lemma_in_whole(head + name + middle, list, name);
    text::lemma_in_whole(head + name + middle + list, "]"@, name);
    lemma_quoted(known, i);
    text::lemma_in_whole(head + name + middle, list, d);
    text::lemma_in_whole(head + name + middle + list, "]"@, d);
}

} // verus!
