//! Counters of the process, and their Prometheus text.

use vstd::prelude::*;
use vstd::string::*;
use crate::text;

verus! {

/// The counters of the process. A counter that is full starts again at zero.
#[derive(Debug)]
pub struct Metrics {
    pub requests_success: u64,
    pub requests_error: u64,
    pub local_rpm_rejected: u64,
    pub stream_decode_failures: u64,
    pub upstream_rate_limited: u64,
    /// How often a response broke off after its headers had come.
    pub stream_interrupted: u64,
    /// How often a request was made again after its response had broken off.
    pub stream_restarted: u64,
}

/// The counters at a moment, with the age of the process.
#[derive(Debug, Clone, Copy)]
pub struct MetricsSnapshot {
    pub requests_success: u64,
    pub requests_error: u64,
    pub local_rpm_rejected: u64,
    pub stream_decode_failures: u64,
    pub upstream_rate_limited: u64,
    pub stream_interrupted: u64,
    pub stream_restarted: u64,
    pub uptime_seconds: u64,
}

/// The next value of a counter.
pub open spec fn next_count(n: u64) -> u64 {
    if n == u64::MAX {
        0
    } else {
        (n + 1) as u64
    }
}

fn count_up(n: u64) -> (r: u64)
    ensures
        r == next_count(n),
{
    if n == u64::MAX {
        0
    } else {
        n + 1
    }
}

/// The text of one counter or gauge.
pub open spec fn metric_text(
    name: Seq<char>,
    help: Seq<char>,
    kind: Seq<char>,
    value: nat,
) -> Seq<char> {
    "# HELP "@ + name + " "@ + help + "\n# TYPE "@ + name + " "@ + kind + "\n"@ + name + " "@
        + text::digits(value) + "\n"@
}

fn push_metric(out: &mut String, name: &str, help: &str, kind: &str, value: u64)
    ensures
        final(out)@ == old(out)@ + metric_text(name@, help@, kind@, value as nat),
{
    let ghost start = out@;
    out.append("# HELP ");
    out.append(name);
    out.append(" ");
    out.append(help);
    out.append("\n# TYPE ");
    out.append(name);
    out.append(" ");
    out.append(kind);
    out.append("\n");
    out.append(name);
    out.append(" ");
    text::push_u64(out, value);
    out.append("\n");
    assert(out@ =~= start + metric_text(name@, help@, kind@, value as nat));
}

impl Metrics {
    /// The Prometheus text of all counters and of the number of credentials.
    pub open spec fn prometheus(self, credentials_available: nat, credentials_total: nat) -> Seq<
        char,
    > {
        metric_text(
            "kiro_requests_success_total"@,
            "成功完成的上游 API 请求数"@,
            "counter"@,
            self.requests_success as nat,
        ) + metric_text(
            "kiro_requests_error_total"@,
            "重试耗尽或不可恢复的上游 API 错误数"@,
            "counter"@,
            self.requests_error as nat,
        ) + metric_text(
            "kiro_local_rpm_rejected_total"@,
            "本地凭据 RPM 限流拒绝数（客户端 429）"@,
            "counter"@,
            self.local_rpm_rejected as nat,
        ) + metric_text(
            "kiro_stream_decode_failures_total"@,
            "上游 event-stream 解码失败数"@,
            "counter"@,
            self.stream_decode_failures as nat,
        ) + metric_text(
            "kiro_upstream_rate_limited_total"@,
            "上游返回 429 且重试耗尽次数"@,
            "counter"@,
            self.upstream_rate_limited as nat,
        ) + metric_text(
            "kiro_stream_interrupted_total"@,
            "上游响应体传输中途断开次数"@,
            "counter"@,
            self.stream_interrupted as nat,
        ) + metric_text(
            "kiro_stream_restarted_total"@,
            "断流后透明重连重放请求次数"@,
            "counter"@,
            self.stream_restarted as nat,
        ) + metric_text(
            "kiro_credentials_available"@,
            "当前可用（未禁用）凭据数"@,
            "gauge"@,
            credentials_available,
        ) + metric_text("kiro_credentials_total"@, "凭据总数"@, "gauge"@, credentials_total)
    }

    pub fn new() -> (r: Self)
        ensures
            r == (Metrics {
                requests_success: 0,
                requests_error: 0,
                local_rpm_rejected: 0,
                stream_decode_failures: 0,
                upstream_rate_limited: 0,
                stream_interrupted: 0,
                stream_restarted: 0,
            }),
    {
        Metrics {
            requests_success: 0,
            requests_error: 0,
            local_rpm_rejected: 0,
            stream_decode_failures: 0,
            upstream_rate_limited: 0,
            stream_interrupted: 0,
            stream_restarted: 0,
        }
    }

    /// The counters as they are, `uptime_seconds` after the start of the process.
    pub fn snapshot(&self, uptime_seconds: u64) -> (r: MetricsSnapshot)
        ensures
            r == (MetricsSnapshot {
                requests_success: self.requests_success,
                requests_error: self.requests_error,
                local_rpm_rejected: self.local_rpm_rejected,
                stream_decode_failures: self.stream_decode_failures,
                upstream_rate_limited: self.upstream_rate_limited,
                stream_interrupted: self.stream_interrupted,
                stream_restarted: self.stream_restarted,
                uptime_seconds,
            }),
    {
        MetricsSnapshot {
            requests_success: self.requests_success,
            requests_error: self.requests_error,
            local_rpm_rejected: self.local_rpm_rejected,
            stream_decode_failures: self.stream_decode_failures,
            upstream_rate_limited: self.upstream_rate_limited,
            stream_interrupted: self.stream_interrupted,
            stream_restarted: self.stream_restarted,
            uptime_seconds,
        }
    }

    /// The Prometheus text; see [`Metrics::prometheus`].
    pub fn render_prometheus(&self, credentials_available: usize, credentials_total: usize) -> (s:
        String)
        ensures
            s@ == self.prometheus(credentials_available as nat, credentials_total as nat),
    {
        let mut s = String::new();
        push_metric(
            &mut s,
            "kiro_requests_success_total",
            "成功完成的上游 API 请求数",
            "counter",
            self.requests_success,
        );
        push_metric(
            &mut s,
            "kiro_requests_error_total",
            "重试耗尽或不可恢复的上游 API 错误数",
            "counter",
            self.requests_error,
        );
        push_metric(
            &mut s,
            "kiro_local_rpm_rejected_total",
            "本地凭据 RPM 限流拒绝数（客户端 429）",
            "counter",
            self.local_rpm_rejected,
        );
        push_metric(
            &mut s,
            "kiro_stream_decode_failures_total",
            "上游 event-stream 解码失败数",
            "counter",
            self.stream_decode_failures,
        );
        push_metric(
            &mut s,
            "kiro_upstream_rate_limited_total",
            "上游返回 429 且重试耗尽次数",
            "counter",
            self.upstream_rate_limited,
        );
        push_metric(
            &mut s,
            "kiro_stream_interrupted_total",
            "上游响应体传输中途断开次数",
            "counter",
            self.stream_interrupted,
        );
        push_metric(
            &mut s,
            "kiro_stream_restarted_total",
            "断流后透明重连重放请求次数",
            "counter",
            self.stream_restarted,
        );
        push_metric(
            &mut s,
            "kiro_credentials_available",
            "当前可用（未禁用）凭据数",
            "gauge",
            credentials_available as u64,
        );
        push_metric(
            &mut s,
            "kiro_credentials_total",
            "凭据总数",
            "gauge",
            credentials_total as u64,
        );
        assert(s@ =~= self.prometheus(credentials_available as nat, credentials_total as nat));
        s
    }
}

impl Default for Metrics {
    fn default() -> (r: Self)
        ensures
            r.requests_success == 0 && r.requests_error == 0 && r.local_rpm_rejected == 0
                && r.stream_decode_failures == 0 && r.upstream_rate_limited == 0
                && r.stream_interrupted == 0 && r.stream_restarted == 0,
    {
        Metrics::new()
    }
}

impl MetricsSnapshot {
    /// The JSON text of the snapshot.
    pub open spec fn json(self) -> Seq<char> {
        "{\"requestsSuccess\":"@ + text::digits(self.requests_success as nat)
            + ",\"requestsError\":"@ + text::digits(self.requests_error as nat)
            + ",\"localRpmRejected\":"@ + text::digits(self.local_rpm_rejected as nat)
            + ",\"streamDecodeFailures\":"@ + text::digits(self.stream_decode_failures as nat)
            + ",\"upstreamRateLimited\":"@ + text::digits(self.upstream_rate_limited as nat)
            + ",\"streamInterrupted\":"@ + text::digits(self.stream_interrupted as nat)
            + ",\"streamRestarted\":"@ + text::digits(self.stream_restarted as nat)
            + ",\"uptimeSeconds\":"@ + text::digits(self.uptime_seconds as nat) + "}"@
    }

    /// The JSON text of the snapshot; see [`MetricsSnapshot::json`].
    pub fn to_json(&self) -> (s: String)
        ensures
            s@ == self.json(),
    {
        let mut s = String::new();
        s.append("{\"requestsSuccess\":");
        text::push_u64(&mut s, self.requests_success);
        s.append(",\"requestsError\":");
        text::push_u64(&mut s, self.requests_error);
        s.append(",\"localRpmRejected\":");
        text::push_u64(&mut s, self.local_rpm_rejected);
        s.append(",\"streamDecodeFailures\":");
        text::push_u64(&mut s, self.stream_decode_failures);
        s.append(",\"upstreamRateLimited\":");
        text::push_u64(&mut s, self.upstream_rate_limited);
        s.append(",\"streamInterrupted\":");
        text::push_u64(&mut s, self.stream_interrupted);
        s.append(",\"streamRestarted\":");
        text::push_u64(&mut s, self.stream_restarted);
        s.append(",\"uptimeSeconds\":");
        text::push_u64(&mut s, self.uptime_seconds);
        s.append("}");
        assert(s@ =~= self.json());
        s
    }
}

/// The start of the process, kept from the first time it is asked for.
pub fn init_start_time(start: &mut Option<u64>, now: u64) -> (r: u64)
    ensures
        *final(start) == Some(r),
        r == match *old(start) {
            Some(t) => t,
            None => now,
        },
{
    match *start {
        Some(t) => t,
        None => {
            *start = Some(now);
            now
        },
    }
}

pub fn inc_request_success(m: &mut Metrics)
    ensures
        *final(m) == (Metrics {
            requests_success: next_count(old(m).requests_success),
            ..*old(m)
        }),
{
    m.requests_success = count_up(m.requests_success);
}

pub fn inc_request_error(m: &mut Metrics)
    ensures
        *final(m) == (Metrics { requests_error: next_count(old(m).requests_error), ..*old(m) }),
{
    m.requests_error = count_up(m.requests_error);
}

pub fn inc_local_rpm_rejected(m: &mut Metrics)
    ensures
        *final(m) == (Metrics {
            local_rpm_rejected: next_count(old(m).local_rpm_rejected),
            ..*old(m)
        }),
{
    m.local_rpm_rejected = count_up(m.local_rpm_rejected);
}

pub fn inc_stream_decode_failure(m: &mut Metrics)
    ensures
        *final(m) == (Metrics {
            stream_decode_failures: next_count(old(m).stream_decode_failures),
            ..*old(m)
        }),
{
    m.stream_decode_failures = count_up(m.stream_decode_failures);
}

pub fn inc_upstream_rate_limited(m: &mut Metrics)
    ensures
        *final(m) == (Metrics {
            upstream_rate_limited: next_count(old(m).upstream_rate_limited),
            ..*old(m)
        }),
{
    m.upstream_rate_limited = count_up(m.upstream_rate_limited);
}

pub fn inc_stream_interrupted(m: &mut Metrics)
    ensures
        *final(m) == (Metrics {
            stream_interrupted: next_count(old(m).stream_interrupted),
            ..*old(m)
        }),
{
    m.stream_interrupted = count_up(m.stream_interrupted);
}

pub fn inc_stream_restarted(m: &mut Metrics)
    ensures
        *final(m) == (Metrics {
            stream_restarted: next_count(old(m).stream_restarted),
            ..*old(m)
        }),
{
    m.stream_restarted = count_up(m.stream_restarted);
}

/// The line of a counter that tells its value.
pub open spec fn value_line(name: Seq<char>, value: nat) -> Seq<char> {
    "\n"@ + name + " "@ + text::digits(value) + "\n"@
}

proof fn lemma_value_line(name: Seq<char>, help: Seq<char>, kind: Seq<char>, value: nat)
    ensures
        text::has_text(metric_text(name, help, kind, value), value_line(name, value)),
{
    let line = value_line(name, value);
    let head = "# HELP "@ + name + " "@ + help + "\n# TYPE "@ + name + " "@ + kind;
    assert(metric_text(name, help, kind, value) =~= head + line);
    text::lemma_in_itself(line);
    text::lemma_in_whole(head, line, line);
}

/// The Prometheus text tells each counter, and the number of credentials, under its own name.
pub proof fn law_counters_are_told(m: Metrics, available: nat, total: nat)
    ensures
        text::has_text(m.prometheus(available, total), value_line("kiro_requests_success_total"@, m.requests_success as nat)),
        text::has_text(m.prometheus(available, total), value_line("kiro_requests_error_total"@, m.requests_error as nat)),
        text::has_text(m.prometheus(available, total), value_line("kiro_local_rpm_rejected_total"@, m.local_rpm_rejected as nat)),
        text::has_text(m.prometheus(available, total), value_line("kiro_stream_decode_failures_total"@, m.stream_decode_failures as nat)),
        text::has_text(m.prometheus(available, total), value_line("kiro_upstream_rate_limited_total"@, m.upstream_rate_limited as nat)),
        text::has_text(m.prometheus(available, total), value_line("kiro_stream_interrupted_total"@, m.stream_interrupted as nat)),
        text::has_text(m.prometheus(available, total), value_line("kiro_stream_restarted_total"@, m.stream_restarted as nat)),
        text::has_text(m.prometheus(available, total), value_line("kiro_credentials_available"@, available)),
        text::has_text(m.prometheus(available, total), value_line("kiro_credentials_total"@, total)),
{
    let m0 = metric_text(
        "kiro_requests_success_total"@,
        "成功完成的上游 API 请求数"@,
        "counter"@,
        m.requests_success as nat,
    );
    let t0 = value_line("kiro_requests_success_total"@, m.requests_success as nat);
    lemma_value_line("kiro_requests_success_total"@, "成功完成的上游 API 请求数"@, "counter"@, m.requests_success as nat);
    let m1 = metric_text(
        "kiro_requests_error_total"@,
        "重试耗尽或不可恢复的上游 API 错误数"@,
        "counter"@,
        m.requests_error as nat,
    );
    let t1 = value_line("kiro_requests_error_total"@, m.requests_error as nat);
    lemma_value_line("kiro_requests_error_total"@, "重试耗尽或不可恢复的上游 API 错误数"@, "counter"@, m.requests_error as nat);
    let m2 = metric_text(
        "kiro_local_rpm_rejected_total"@,
        "本地凭据 RPM 限流拒绝数（客户端 429）"@,
        "counter"@,
        m.local_rpm_rejected as nat,
    );
    let t2 = value_line("kiro_local_rpm_rejected_total"@, m.local_rpm_rejected as nat);
    lemma_value_line("kiro_local_rpm_rejected_total"@, "本地凭据 RPM 限流拒绝数（客户端 429）"@, "counter"@, m.local_rpm_rejected as nat);
    let m3 = metric_text(
        "kiro_stream_decode_failures_total"@,
        "上游 event-stream 解码失败数"@,
        "counter"@,
        m.stream_decode_failures as nat,
    );
    let t3 = value_line("kiro_stream_decode_failures_total"@, m.stream_decode_failures as nat);
    lemma_value_line("kiro_stream_decode_failures_total"@, "上游 event-stream 解码失败数"@, "counter"@, m.stream_decode_failures as nat);
    let m4 = metric_text(
        "kiro_upstream_rate_limited_total"@,
        "上游返回 429 且重试耗尽次数"@,
        "counter"@,
        m.upstream_rate_limited as nat,
    );
    let t4 = value_line("kiro_upstream_rate_limited_total"@, m.upstream_rate_limited as nat);
    lemma_value_line("kiro_upstream_rate_limited_total"@, "上游返回 429 且重试耗尽次数"@, "counter"@, m.upstream_rate_limited as nat);
    let m5 = metric_text(
        "kiro_stream_interrupted_total"@,
        "上游响应体传输中途断开次数"@,
        "counter"@,
        m.stream_interrupted as nat,
    );
    let t5 = value_line("kiro_stream_interrupted_total"@, m.stream_interrupted as nat);
    lemma_value_line("kiro_stream_interrupted_total"@, "上游响应体传输中途断开次数"@, "counter"@, m.stream_interrupted as nat);
    let m6 = metric_text(
        "kiro_stream_restarted_total"@,
        "断流后透明重连重放请求次数"@,
        "counter"@,
        m.stream_restarted as nat,
    );
    let t6 = value_line("kiro_stream_restarted_total"@, m.stream_restarted as nat);
    lemma_value_line("kiro_stream_restarted_total"@, "断流后透明重连重放请求次数"@, "counter"@, m.stream_restarted as nat);
    let m7 = metric_text(
        "kiro_credentials_available"@,
        "当前可用（未禁用）凭据数"@,
        "gauge"@,
        available,
    );
    let t7 = value_line("kiro_credentials_available"@, available);
    lemma_value_line("kiro_credentials_available"@, "当前可用（未禁用）凭据数"@, "gauge"@, available);
    let m8 = metric_text(
        "kiro_credentials_total"@,
        "凭据总数"@,
        "gauge"@,
        total,
    );
    let t8 = value_line("kiro_credentials_total"@, total);
    lemma_value_line("kiro_credentials_total"@, "凭据总数"@, "gauge"@, total);
    let p0 = m0;
    let p1 = p0 + m1;
    text::lemma_in_whole(p0, m1, t0);
    text::lemma_in_whole(p0, m1, t1);
    let p2 = p1 + m2;
    text::lemma_in_whole(p1, m2, t0);
    text::lemma_in_whole(p1, m2, t1);
    text::lemma_in_whole(p1, m2, t2);
    let p3 = p2 + m3;
    text::lemma_in_whole(p2, m3, t0);
    text::lemma_in_whole(p2, m3, t1);
    text::lemma_in_whole(p2, m3, t2);
    text::lemma_in_whole(p2, m3, t3);
    let p4 = p3 + m4;
    text::lemma_in_whole(p3, m4, t0);
    text::lemma_in_whole(p3, m4, t1);
    text::lemma_in_whole(p3, m4, t2);
    text::lemma_in_whole(p3, m4, t3);
    text::lemma_in_whole(p3, m4, t4);
    let p5 = p4 + m5;
    text::lemma_in_whole(p4, m5, t0);
    text::lemma_in_whole(p4, m5, t1);
    text::lemma_in_whole(p4, m5, t2);
    text::lemma_in_whole(p4, m5, t3);
    text::lemma_in_whole(p4, m5, t4);
    text::lemma_in_whole(p4, m5, t5);
    let p6 = p5 + m6;
    text::lemma_in_whole(p5, m6, t0);
    text::lemma_in_whole(p5, m6, t1);
    text::lemma_in_whole(p5, m6, t2);
    text::lemma_in_whole(p5, m6, t3);
    text::lemma_in_whole(p5, m6, t4);
    text::lemma_in_whole(p5, m6, t5);
    text::lemma_in_whole(p5, m6, t6);
    let p7 = p6 + m7;
    text::lemma_in_whole(p6, m7, t0);
    text::lemma_in_whole(p6, m7, t1);
    text::lemma_in_whole(p6, m7, t2);
    text::lemma_in_whole(p6, m7, t3);
    text::lemma_in_whole(p6, m7, t4);
    text::lemma_in_whole(p6, m7, t5);
    text::lemma_in_whole(p6, m7, t6);
    text::lemma_in_whole(p6, m7, t7);
    let p8 = p7 + m8;
    text::lemma_in_whole(p7, m8, t0);
    text::lemma_in_whole(p7, m8, t1);
    text::lemma_in_whole(p7, m8, t2);
    text::lemma_in_whole(p7, m8, t3);
    text::lemma_in_whole(p7, m8, t4);
    text::lemma_in_whole(p7, m8, t5);
    text::lemma_in_whole(p7, m8, t6);
    text::lemma_in_whole(p7, m8, t7);
    text::lemma_in_whole(p7, m8, t8);
    assert(p8 == m.prometheus(available, total));
}

/// The JSON text of a snapshot tells each counter under its own name.
pub proof fn law_snapshot_tells(m: MetricsSnapshot)
    ensures
        text::has_text(m.json(), "\"requestsSuccess\":"@ + text::digits(m.requests_success as nat)),
        text::has_text(m.json(), "\"requestsError\":"@ + text::digits(m.requests_error as nat)),
        text::has_text(m.json(), "\"localRpmRejected\":"@ + text::digits(m.local_rpm_rejected as nat)),
        text::has_text(m.json(), "\"streamDecodeFailures\":"@ + text::digits(m.stream_decode_failures as nat)),
        text::has_text(m.json(), "\"upstreamRateLimited\":"@ + text::digits(m.upstream_rate_limited as nat)),
        text::has_text(m.json(), "\"streamInterrupted\":"@ + text::digits(m.stream_interrupted as nat)),
        text::has_text(m.json(), "\"streamRestarted\":"@ + text::digits(m.stream_restarted as nat)),
        text::has_text(m.json(), "\"uptimeSeconds\":"@ + text::digits(m.uptime_seconds as nat)),
{
    let l0 = "{\"requestsSuccess\":"@;
    let n0 = "\"requestsSuccess\":"@;
    let d0 = text::digits(m.requests_success as nat);
    assert(text::ends_in(l0, n0)) by {
        reveal_strlit("{\"requestsSuccess\":");
        reveal_strlit("\"requestsSuccess\":");
        assert(l0.skip(1) =~= n0);
    }
    let l1 = ",\"requestsError\":"@;
    let n1 = "\"requestsError\":"@;
    let d1 = text::digits(m.requests_error as nat);
    assert(text::ends_in(l1, n1)) by {
        reveal_strlit(",\"requestsError\":");
        reveal_strlit("\"requestsError\":");
        assert(l1.skip(1) =~= n1);
    }
    let l2 = ",\"localRpmRejected\":"@;
    let n2 = "\"localRpmRejected\":"@;
    let d2 = text::digits(m.local_rpm_rejected as nat);
    assert(text::ends_in(l2, n2)) by {
        reveal_strlit(",\"localRpmRejected\":");
        reveal_strlit("\"localRpmRejected\":");
        assert(l2.skip(1) =~= n2);
    }
    let l3 = ",\"streamDecodeFailures\":"@;
    let n3 = "\"streamDecodeFailures\":"@;
    let d3 = text::digits(m.stream_decode_failures as nat);
    assert(text::ends_in(l3, n3)) by {
        reveal_strlit(",\"streamDecodeFailures\":");
        reveal_strlit("\"streamDecodeFailures\":");
        assert(l3.skip(1) =~= n3);
    }
    let l4 = ",\"upstreamRateLimited\":"@;
    let n4 = "\"upstreamRateLimited\":"@;
    let d4 = text::digits(m.upstream_rate_limited as nat);
    assert(text::ends_in(l4, n4)) by {
        reveal_strlit(",\"upstreamRateLimited\":");
        reveal_strlit("\"upstreamRateLimited\":");
        assert(l4.skip(1) =~= n4);
    }
    let l5 = ",\"streamInterrupted\":"@;
    let n5 = "\"streamInterrupted\":"@;
    let d5 = text::digits(m.stream_interrupted as nat);
    assert(text::ends_in(l5, n5)) by {
        reveal_strlit(",\"streamInterrupted\":");
        reveal_strlit("\"streamInterrupted\":");
        assert(l5.skip(1) =~= n5);
    }
    let l6 = ",\"streamRestarted\":"@;
    let n6 = "\"streamRestarted\":"@;
    let d6 = text::digits(m.stream_restarted as nat);
    assert(text::ends_in(l6, n6)) by {
        reveal_strlit(",\"streamRestarted\":");
        reveal_strlit("\"streamRestarted\":");
        assert(l6.skip(1) =~= n6);
    }
    let l7 = ",\"uptimeSeconds\":"@;
    let n7 = "\"uptimeSeconds\":"@;
    let d7 = text::digits(m.uptime_seconds as nat);
    assert(text::ends_in(l7, n7)) by {
        reveal_strlit(",\"uptimeSeconds\":");
        reveal_strlit("\"uptimeSeconds\":");
        assert(l7.skip(1) =~= n7);
    }
    let s0 = l0 + d0;
    text::lemma_named(Seq::empty(), l0, n0, d0);
    let s1 = s0 + l1 + d1;
    text::lemma_named(s0, l1, n1, d1);
    text::lemma_in_whole(s0, l1, n0 + d0);
    text::lemma_in_whole(s0 + l1, d1, n0 + d0);
    let s2 = s1 + l2 + d2;
    text::lemma_named(s1, l2, n2, d2);
    text::lemma_in_whole(s1, l2, n0 + d0);
    text::lemma_in_whole(s1 + l2, d2, n0 + d0);
    text::lemma_in_whole(s1, l2, n1 + d1);
    text::lemma_in_whole(s1 + l2, d2, n1 + d1);
    let s3 = s2 + l3 + d3;
    text::lemma_named(s2, l3, n3, d3);
    text::lemma_in_whole(s2, l3, n0 + d0);
    text::lemma_in_whole(s2 + l3, d3, n0 + d0);
    text::lemma_in_whole(s2, l3, n1 + d1);
    text::lemma_in_whole(s2 + l3, d3, n1 + d1);
    text::lemma_in_whole(s2, l3, n2 + d2);
    text::lemma_in_whole(s2 + l3, d3, n2 + d2);
    let s4 = s3 + l4 + d4;
    text::lemma_named(s3, l4, n4, d4);
    text::lemma_in_whole(s3, l4, n0 + d0);
    text::lemma_in_whole(s3 + l4, d4, n0 + d0);
    text::lemma_in_whole(s3, l4, n1 + d1);
    text::lemma_in_whole(s3 + l4, d4, n1 + d1);
    text::lemma_in_whole(s3, l4, n2 + d2);
    text::lemma_in_whole(s3 + l4, d4, n2 + d2);
    text::lemma_in_whole(s3, l4, n3 + d3);
    text::lemma_in_whole(s3 + l4, d4, n3 + d3);
    let s5 = s4 + l5 + d5;
    text::lemma_named(s4, l5, n5, d5);
    text::lemma_in_whole(s4, l5, n0 + d0);
    text::lemma_in_whole(s4 + l5, d5, n0 + d0);
    text::lemma_in_whole(s4, l5, n1 + d1);
    text::lemma_in_whole(s4 + l5, d5, n1 + d1);
    text::lemma_in_whole(s4, l5, n2 + d2);
    text::lemma_in_whole(s4 + l5, d5, n2 + d2);
    text::lemma_in_whole(s4, l5, n3 + d3);
    text::lemma_in_whole(s4 + l5, d5, n3 + d3);
    text::lemma_in_whole(s4, l5, n4 + d4);
    text::lemma_in_whole(s4 + l5, d5, n4 + d4);
    let s6 = s5 + l6 + d6;
    text::lemma_named(s5, l6, n6, d6);
    text::lemma_in_whole(s5, l6, n0 + d0);
    text::lemma_in_whole(s5 + l6, d6, n0 + d0);
    text::lemma_in_whole(s5, l6, n1 + d1);
    text::lemma_in_whole(s5 + l6, d6, n1 + d1);
    text::lemma_in_whole(s5, l6, n2 + d2);
    text::lemma_in_whole(s5 + l6, d6, n2 + d2);
    text::lemma_in_whole(s5, l6, n3 + d3);
    text::lemma_in_whole(s5 + l6, d6, n3 + d3);
    text::lemma_in_whole(s5, l6, n4 + d4);
    text::lemma_in_whole(s5 + l6, d6, n4 + d4);
    text::lemma_in_whole(s5, l6, n5 + d5);
    text::lemma_in_whole(s5 + l6, d6, n5 + d5);
    let s7 = s6 + l7 + d7;
    text::lemma_named(s6, l7, n7, d7);
    text::lemma_in_whole(s6, l7, n0 + d0);
    text::lemma_in_whole(s6 + l7, d7, n0 + d0);
    text::lemma_in_whole(s6, l7, n1 + d1);
    text::lemma_in_whole(s6 + l7, d7, n1 + d1);
    text::lemma_in_whole(s6, l7, n2 + d2);
    text::lemma_in_whole(s6 + l7, d7, n2 + d2);
    text::lemma_in_whole(s6, l7, n3 + d3);
    text::lemma_in_whole(s6 + l7, d7, n3 + d3);
    text::lemma_in_whole(s6, l7, n4 + d4);
    text::lemma_in_whole(s6 + l7, d7, n4 + d4);
    text::lemma_in_whole(s6, l7, n5 + d5);
    text::lemma_in_whole(s6 + l7, d7, n5 + d5);
    text::lemma_in_whole(s6, l7, n6 + d6);
    text::lemma_in_whole(s6 + l7, d7, n6 + d6);
    text::lemma_in_whole(s7, "}"@, n0 + d0);
    text::lemma_in_whole(s7, "}"@, n1 + d1);
    text::lemma_in_whole(s7, "}"@, n2 + d2);
    text::lemma_in_whole(s7, "}"@, n3 + d3);
    text::lemma_in_whole(s7, "}"@, n4 + d4);
    text::lemma_in_whole(s7, "}"@, n5 + d5);
    text::lemma_in_whole(s7, "}"@, n6 + d6);
    text::lemma_in_whole(s7, "}"@, n7 + d7);
    assert(s7 + "}"@ == m.json());
}

/// A counter goes up by one, and from its largest value back to zero.
pub proof fn law_next_count(n: u64)
    ensures
        n < u64::MAX ==> next_count(n) == n + 1,
        next_count(u64::MAX) == 0,
{
}

} // verus!
