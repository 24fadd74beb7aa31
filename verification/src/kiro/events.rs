//! The events of the upstream stream, as far as the response depends on them.

use vstd::prelude::*;
use vstd::string::*;

verus! {

/// The low 32 bits of an integer, read as a signed number.
pub open spec fn low32(n: int) -> int {
    let r = n % 0x1_0000_0000;
    if r < 0x8000_0000 {
        r
    } else {
        r - 0x1_0000_0000
    }
}

/// Keeps the low 32 bits.
pub fn truncate_i32(n: i64) -> (r: i32)
    requires
        n >= 0,
    ensures
        r == low32(n as int),
        n <= i32::MAX ==> r == n,
{
    let r: i32 = #[verifier::truncate] (n as i32);
    assert(n % 0x1_0000_0000 < 0x8000_0000 ==> (n as i32) == n % 0x1_0000_0000) by (bit_vector)
        requires
            n >= 0,
    ;
    assert(n % 0x1_0000_0000 >= 0x8000_0000 ==> (n as i32) == n % 0x1_0000_0000 - 0x1_0000_0000)
        by (bit_vector)
        requires
            n >= 0,
    ;
    r
}

/// The greater of a number and zero.
pub open spec fn at_least_zero(n: int) -> int {
    if n < 0 {
        0
    } else {
        n
    }
}

/// The token counts that the upstream service reports.
#[derive(Debug, Clone, Copy)]
pub struct TokenUsage {
    pub uncached_input_tokens: Option<i64>,
    pub output_tokens: Option<i64>,
    pub total_tokens: Option<i64>,
    pub cache_read_input_tokens: Option<i64>,
    pub cache_write_input_tokens: Option<i64>,
}

/// The value of a count, zero where it is missing.
pub open spec fn or_zero(n: Option<i64>) -> int {
    match n {
        Some(v) => v as int,
        None => 0,
    }
}

impl Default for TokenUsage {
    fn default() -> (r: Self)
        ensures
            r == (TokenUsage {
                uncached_input_tokens: None,
                output_tokens: None,
                total_tokens: None,
                cache_read_input_tokens: None,
                cache_write_input_tokens: None,
            }),
    {
        TokenUsage {
            uncached_input_tokens: None,
            output_tokens: None,
            total_tokens: None,
            cache_read_input_tokens: None,
            cache_write_input_tokens: None,
        }
    }
}

impl TokenUsage {
    /// Whether the derived input count can be computed without leaving the
    /// range of an `i64`.
    pub open spec fn in_range(self) -> bool {
        self.uncached_input_tokens is None && self.total_tokens is Some ==> {
            let a = or_zero(self.total_tokens) - or_zero(self.output_tokens);
            let b = a - or_zero(self.cache_read_input_tokens);
            let c = b - or_zero(self.cache_write_input_tokens);
            &&& i64::MIN <= a <= i64::MAX
            &&& i64::MIN <= b <= i64::MAX
            &&& i64::MIN <= c <= i64::MAX
        }
    }

    /// The input tokens in the sense of the messages protocol: those not read
    /// from a cache. Where they are not reported, they are what remains of the
    /// total without the output and the cached tokens.
    pub open spec fn input(self) -> Option<int> {
        match self.uncached_input_tokens {
            Some(n) => Some(low32(at_least_zero(n as int))),
            None => match self.total_tokens {
                Some(total) => Some(
                    low32(
                        at_least_zero(
                            total - or_zero(self.output_tokens) - or_zero(
                                self.cache_read_input_tokens,
                            ) - or_zero(self.cache_write_input_tokens),
                        ),
                    ),
                ),
                None => None,
            },
        }
    }

    /// The output tokens, never below zero.
    pub open spec fn output(self) -> Option<int> {
        match self.output_tokens {
            Some(n) => Some(low32(at_least_zero(n as int))),
            None => None,
        }
    }

    /// Whether the usage can be worked with; see [`TokenUsage::in_range`].
    pub fn is_in_range(&self) -> (r: bool)
        ensures
            r == self.in_range(),
    {
        if self.uncached_input_tokens.is_some() {
            return true;
        }
        let total: i64 = match self.total_tokens {
            Some(t) => t,
            None => {
                return true;
            },
        };
        match total.checked_sub(self.output_tokens.unwrap_or(0)) {
            Some(a) => match a.checked_sub(self.cache_read_input_tokens.unwrap_or(0)) {
                Some(b) => b.checked_sub(self.cache_write_input_tokens.unwrap_or(0)).is_some(),
                None => false,
            },
            None => false,
        }
    }

    /// The input tokens; see [`TokenUsage::input`].
    pub fn anthropic_input_tokens(&self) -> (r: Option<i32>)
        requires
            self.in_range(),
        ensures
            match r {
                Some(n) => self.input() == Some(n as int),
                None => self.input() is None,
            },
    {
        if let Some(uncached) = self.uncached_input_tokens {
            let n: i64 = if uncached < 0 {
                0
            } else {
                uncached
            };
            return Some(truncate_i32(n));
        }
        let total: i64 = match self.total_tokens {
            Some(t) => t,
            None => {
                return None;
            },
        };
        let output: i64 = self.output_tokens.unwrap_or(0);
        let cache_read: i64 = self.cache_read_input_tokens.unwrap_or(0);
        let cache_write: i64 = self.cache_write_input_tokens.unwrap_or(0);
        let rest: i64 = total - output - cache_read - cache_write;
        let n: i64 = if rest < 0 {
            0
        } else {
            rest
        };
        Some(truncate_i32(n))
    }

    /// The output tokens; see [`TokenUsage::output`].
    pub fn anthropic_output_tokens(&self) -> (r: Option<i32>)
        ensures
            match r {
                Some(n) => self.output() == Some(n as int),
                None => self.output() is None,
            },
    {
        match self.output_tokens {
            Some(t) => {
                let n: i64 = if t < 0 {
                    0
                } else {
                    t
                };
                Some(truncate_i32(n))
            },
            None => None,
        }
    }

    /// Whether any of the counts that matter is there.
    pub fn has_counts(&self) -> (r: bool)
        ensures
            r == (self.uncached_input_tokens is Some || self.output_tokens is Some
                || self.total_tokens is Some),
    {
        self.uncached_input_tokens.is_some() || self.output_tokens.is_some()
            || self.total_tokens.is_some()
    }
}

/// As long as the counts fit in 31 bits, no input or output count is negative.
pub proof fn law_token_counts_not_negative(u: TokenUsage)
    requires
        or_zero(u.uncached_input_tokens) <= i32::MAX,
        or_zero(u.output_tokens) <= i32::MAX,
        or_zero(u.total_tokens) - or_zero(u.output_tokens) - or_zero(u.cache_read_input_tokens)
            - or_zero(u.cache_write_input_tokens) <= i32::MAX,
    ensures
        u.input() is Some ==> u.input().unwrap() >= 0,
        u.output() is Some ==> u.output().unwrap() >= 0,
        u.input() is Some <==> u.uncached_input_tokens is Some || u.total_tokens is Some,
{
}

/// The counts that are reported are kept as they are, as long as they are not negative and fit
/// in 31 bits: the input is what was not read from a cache, and where that is not reported,
/// input, output and cached tokens make up the total. Nothing is counted below zero.
pub proof fn law_reported_counts_are_kept(u: TokenUsage)
    ensures
        match u.uncached_input_tokens {
            Some(n) => {
                &&& 0 <= n <= i32::MAX ==> u.input() == Some(n as int)
                &&& n < 0 ==> u.input() == Some(0int)
            },
            None => match u.total_tokens {
                Some(t) => {
                    let others = or_zero(u.output_tokens) + or_zero(u.cache_read_input_tokens)
                        + or_zero(u.cache_write_input_tokens);
                    &&& u.input() is Some
                    &&& 0 <= t - others <= i32::MAX ==> u.input().unwrap() + others == t
                    &&& t < others ==> u.input() == Some(0int)
                },
                None => u.input() is None,
            },
        },
        match u.output_tokens {
            Some(n) => {
                &&& 0 <= n <= i32::MAX ==> u.output() == Some(n as int)
                &&& n < 0 ==> u.output() == Some(0int)
            },
            None => u.output() is None,
        },
{
}

/// Token counts from the upstream service.
#[derive(Debug, Clone, Copy)]
pub struct MetadataEvent {
    pub token_usage: Option<TokenUsage>,
}

impl Default for MetadataEvent {
    fn default() -> (r: Self)
        ensures
            r.token_usage is None,
    {
        MetadataEvent { token_usage: None }
    }
}

/// The upstream service found the conversation in a state that is not valid.
#[derive(Debug)]
pub struct InvalidStateEvent {
    pub reason: String,
    pub message: String,
}

/// The text of an invalid state: the reason, and the message where there is one.
pub open spec fn invalid_state_text(reason: Seq<char>, message: Seq<char>) -> Seq<char> {
    if message.len() == 0 {
        reason
    } else {
        reason + ": "@ + message
    }
}

impl Default for InvalidStateEvent {
    fn default() -> (r: Self)
        ensures
            r.reason@ == Seq::<char>::empty(),
            r.message@ == Seq::<char>::empty(),
    {
        InvalidStateEvent { reason: String::new(), message: String::new() }
    }
}

impl InvalidStateEvent {
    /// The text of the event; see [`invalid_state_text`].
    pub fn to_string(&self) -> (s: String)
        ensures
            s@ == invalid_state_text(self.reason@, self.message@),
    {
        let mut s: String = self.reason.clone();
        if !self.message.as_str().is_empty() {
            s.append(": ");
            s.append(self.message.as_str());
        }
        s
    }
}

/// A piece of the assistant's answer.
#[derive(Debug)]
pub struct AssistantResponseEvent {
    pub content: String,
}

/// A piece of a tool call. The last piece of a call has `stop` set.
#[derive(Debug)]
pub struct ToolUseEvent {
    pub name: String,
    pub tool_use_id: String,
    pub input: String,
    pub stop: bool,
}

/// How much of the context window is in use: the input tokens that follow from
/// the reported percentage, and whether it has reached all of the window.
#[derive(Debug, Clone, Copy)]
pub struct ContextUsageEvent {
    pub input_tokens: i32,
    pub window_full: bool,
}

/// An event of the upstream stream.
#[derive(Debug)]
pub enum Event {
    AssistantResponse(AssistantResponseEvent),
    ToolUse(ToolUseEvent),
    ContextUsage(ContextUsageEvent),
    Metadata(MetadataEvent),
    Metering,
    InvalidState(InvalidStateEvent),
    Error { error_code: String, error_message: String },
    Exception { exception_type: String, message: String },
    Unknown,
}

/// The view of an upstream event.
pub enum KiroEventView {
    AssistantResponse { content: Seq<char> },
    ToolUse(ToolUseView),
    ContextUsage { input_tokens: int, window_full: bool },
    Metadata(Option<TokenUsage>),
    Metering,
    InvalidState { reason: Seq<char>, message: Seq<char> },
    Error { error_code: Seq<char>, error_message: Seq<char> },
    Exception { exception_type: Seq<char>, message: Seq<char> },
    Unknown,
}

/// The view of a piece of a tool call.
pub struct ToolUseView {
    pub name: Seq<char>,
    pub id: Seq<char>,
    pub input: Seq<char>,
    pub stop: bool,
}

impl View for ToolUseEvent {
    type V = ToolUseView;

    open spec fn view(&self) -> ToolUseView {
        ToolUseView {
            name: self.name@,
            id: self.tool_use_id@,
            input: self.input@,
            stop: self.stop,
        }
    }
}

impl View for Event {
    type V = KiroEventView;

    open spec fn view(&self) -> KiroEventView {
        match *self {
            Event::AssistantResponse(e) => KiroEventView::AssistantResponse { content: e.content@ },
            Event::ToolUse(e) => KiroEventView::ToolUse(e@),
            Event::ContextUsage(e) => KiroEventView::ContextUsage {
                input_tokens: e.input_tokens as int,
                window_full: e.window_full,
            },
            Event::Metadata(e) => KiroEventView::Metadata(e.token_usage),
            Event::Metering => KiroEventView::Metering,
            Event::InvalidState(e) => KiroEventView::InvalidState {
                reason: e.reason@,
                message: e.message@,
            },
            Event::Error { error_code, error_message } => KiroEventView::Error {
                error_code: error_code@,
                error_message: error_message@,
            },
            Event::Exception { exception_type, message } => KiroEventView::Exception {
                exception_type: exception_type@,
                message: message@,
            },
            Event::Unknown => KiroEventView::Unknown,
        }
    }
}

/// The low 32 bits stand for a number of 32 bits that differs from the whole by a multiple of
/// two to the 32nd. A number that fits is itself.
pub proof fn law_low_bits(n: int)
    ensures
        i32::MIN <= low32(n) <= i32::MAX,
        (n - low32(n)) % 0x1_0000_0000 == 0,
        i32::MIN <= n <= i32::MAX ==> low32(n) == n,
{
}

/// An invalid state is told by its reason first and its message last; there is nothing but
/// the reason where nothing else was said.
pub proof fn law_invalid_state_is_told(reason: Seq<char>, message: Seq<char>)
    ensures
        ({
            let s = invalid_state_text(reason, message);
            &&& s.len() >= reason.len() && s.take(reason.len() as int) == reason
            &&& s.len() >= message.len() && s.skip(s.len() - message.len()) == message
            &&& message.len() > 0 ==> s.len() == reason.len() + 2 + message.len()
            &&& message.len() == 0 ==> s.len() == reason.len()
        }),
{
    reveal_strlit(": ");
    let s = invalid_state_text(reason, message);
    assert(s.take(reason.len() as int) =~= reason);
    assert(s.skip(s.len() - message.len()) =~= message);
}

} // verus!
