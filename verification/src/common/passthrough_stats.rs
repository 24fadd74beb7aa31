//! Token counts of answers that are passed on as they are.
//!
//! The end of the answer is kept while it goes by. The counts are read from it when
//! the answer is over.

use vstd::prelude::*;
use vstd::string::*;
use crate::anthropic::stream::UsageReport;
use crate::anthropic::stream_model;
use crate::outside;
use crate::text;

verus! {

/// The number of bytes that are kept of the end of an answer.
pub const TAIL_BUFFER_MAX: usize = 65536;

/// The protocol of an answer.
#[derive(Debug, Clone, Copy, PartialEq, Eq, Structural)]
pub enum PassthroughKind {
    Anthropic,
    Openai,
}

/// The counts found so far, and whether any was found.
#[derive(Debug, Clone, Copy, PartialEq, Eq, Structural)]
pub struct SniffedUsage {
    pub input: i64,
    pub output: i64,
    pub cache_read: i64,
    pub cache_write: i64,
    pub found: bool,
}

/// The counts of one payload.
#[derive(Debug, Clone, Copy, PartialEq, Eq, Structural)]
pub struct UsageFields {
    pub input: Option<i64>,
    pub output: Option<i64>,
    pub cache_read: Option<i64>,
    pub cache_write: Option<i64>,
}

/// A later value in place of an earlier one.
pub open spec fn newer(old_value: i64, value: Option<i64>) -> i64 {
    match value {
        Some(v) => v,
        None => old_value,
    }
}

impl SniffedUsage {
    pub open spec fn none() -> SniffedUsage {
        SniffedUsage { input: 0, output: 0, cache_read: 0, cache_write: 0, found: false }
    }

    /// The counts after one more payload: each count that the payload has takes the
    /// place of the earlier one. Cache counts alone do not make a find.
    pub open spec fn with(self, f: UsageFields) -> SniffedUsage {
        SniffedUsage {
            input: newer(self.input, f.input),
            output: newer(self.output, f.output),
            cache_read: newer(self.cache_read, f.cache_read),
            cache_write: newer(self.cache_write, f.cache_write),
            found: self.found || f.input is Some || f.output is Some,
        }
    }

    /// Takes in the counts of one more payload; see [`SniffedUsage::with`].
    pub fn add_fields(self, f: UsageFields) -> (r: SniffedUsage)
        ensures
            r == self.with(f),
    {
        SniffedUsage {
            input: f.input.unwrap_or(self.input),
            output: f.output.unwrap_or(self.output),
            cache_read: f.cache_read.unwrap_or(self.cache_read),
            cache_write: f.cache_write.unwrap_or(self.cache_write),
            found: self.found || f.input.is_some() || f.output.is_some(),
        }
    }
}

/// The payload of a line: what follows `data:`, without the white space around it.
pub open spec fn payload_of(line: Seq<char>) -> Option<Seq<char>> {
    let l = text::trim_start(line);
    if text::begins_with(l, "data:"@) {
        Some(text::trim(l.skip(5)))
    } else {
        None
    }
}

/// Where a payload has its counts.
pub open spec fn usage_pointer(kind: PassthroughKind, payload: Seq<char>) -> Option<Seq<char>> {
    let nested = match kind {
        PassthroughKind::Anthropic => "/message/usage"@,
        PassthroughKind::Openai => "/response/usage"@,
    };
    if outside::json_has_at(payload, nested) {
        Some(nested)
    } else if outside::json_has_at(payload, "/usage"@) {
        Some("/usage"@)
    } else {
        None
    }
}

/// The first of two counts that is there.
pub open spec fn first_of(a: Option<i64>, b: Option<i64>) -> Option<i64> {
    match a {
        Some(n) => Some(n),
        None => b,
    }
}

/// The counts of a payload. In the messages protocol those of the input and of the cache
/// stand in the message that begins an answer, and nowhere else.
pub open spec fn fields_of(kind: PassthroughKind, payload: Seq<char>) -> UsageFields {
    match usage_pointer(kind, payload) {
        None => UsageFields { input: None, output: None, cache_read: None, cache_write: None },
        Some(p) => match kind {
            PassthroughKind::Anthropic => UsageFields {
                input: outside::json_int_at(payload, "/message/usage"@ + "/input_tokens"@),
                output: outside::json_int_at(payload, p + "/output_tokens"@),
                cache_read: outside::json_int_at(
                    payload,
                    "/message/usage"@ + "/cache_read_input_tokens"@,
                ),
                cache_write: outside::json_int_at(
                    payload,
                    "/message/usage"@ + "/cache_creation_input_tokens"@,
                ),
            },
            PassthroughKind::Openai => UsageFields {
                input: first_of(
                    outside::json_int_at(payload, p + "/input_tokens"@),
                    outside::json_int_at(payload, p + "/prompt_tokens"@),
                ),
                output: first_of(
                    outside::json_int_at(payload, p + "/output_tokens"@),
                    outside::json_int_at(payload, p + "/completion_tokens"@),
                ),
                cache_read: None,
                cache_write: None,
            },
        },
    }
}

/// The counts after the payloads of some lines.
pub open spec fn sniffed(kind: PassthroughKind, lines: Seq<Seq<char>>) -> SniffedUsage
    decreases lines.len(),
{
    if lines.len() == 0 {
        SniffedUsage::none()
    } else {
        let before = sniffed(kind, lines.drop_last());
        match payload_of(lines.last()) {
            Some(p) => before.with(fields_of(kind, p)),
            None => before,
        }
    }
}

/// The counts of an answer, if it has any: input, output, cache reads, cache writes.
pub open spec fn usage_in(kind: PassthroughKind, s: Seq<char>) -> Option<(i64, i64, i64, i64)> {
    let u = sniffed(kind, text::lines(s));
    if u.found {
        Some((u.input, u.output, u.cache_read, u.cache_write))
    } else {
        None
    }
}

fn payload(line: &str) -> (r: Option<String>)
    ensures
        payload_of(line@) == match r {
            Some(p) => Some(p@),
            None => None,
        },
{
    let v: Vec<char> = text::chars_of(line);
    assert(v@.skip(0) =~= v@);
    let from: usize = text::skip_white(&v, 0);
    let l: Vec<char> = text::tail_of(&v, from);
    let prefix: Vec<char> = text::chars_of("data:");
    proof {
        reveal_strlit("data:");
    }
    if !text::matches_at(&l, &prefix, 0) {
        return None;
    }
    let rest: String = text::string_of(&l, 5, l.len());
    assert(rest@ =~= l@.skip(5));
    Some(text::trimmed(rest.as_str()))
}

fn int_below(payload: &str, pointer: &str, name: &str) -> (r: Option<i64>)
    ensures
        r == outside::json_int_at(payload@, pointer@ + name@),
{
    let mut path: String = pointer.to_owned();
    path.append(name);
    outside::json_i64_at(payload, path.as_str())
}

fn fields(kind: PassthroughKind, payload: &str) -> (r: UsageFields)
    ensures
        r == fields_of(kind, payload@),
{
    let nested: &str = match kind {
        PassthroughKind::Anthropic => "/message/usage",
        PassthroughKind::Openai => "/response/usage",
    };
    let p: &str = if outside::json_exists_at(payload, nested) {
        nested
    } else if outside::json_exists_at(payload, "/usage") {
        "/usage"
    } else {
        return UsageFields { input: None, output: None, cache_read: None, cache_write: None };
    };
    match kind {
        PassthroughKind::Anthropic => UsageFields {
            input: int_below(payload, "/message/usage", "/input_tokens"),
            output: int_below(payload, p, "/output_tokens"),
            cache_read: int_below(payload, "/message/usage", "/cache_read_input_tokens"),
            cache_write: int_below(payload, "/message/usage", "/cache_creation_input_tokens"),
        },
        PassthroughKind::Openai => {
            let mut input: Option<i64> = int_below(payload, p, "/input_tokens");
            if input.is_none() {
                input = int_below(payload, p, "/prompt_tokens");
            }
            let mut output: Option<i64> = int_below(payload, p, "/output_tokens");
            if output.is_none() {
                output = int_below(payload, p, "/completion_tokens");
            }
            UsageFields { input, output, cache_read: None, cache_write: None }
        },
    }
}

fn sniff(kind: PassthroughKind, s: &str) -> (r: Option<(i64, i64, i64, i64)>)
    ensures
        r == usage_in(kind, s@),
{
    let lines: Vec<String> = text::lines_of(s);
    let ghost all = lines@.map_values(|l: String| l@);
    let mut u = SniffedUsage { input: 0, output: 0, cache_read: 0, cache_write: 0, found: false };
    let mut i: usize = 0;
    assert(all.take(0) =~= Seq::empty());
    while i < lines.len()
        invariant
            i <= lines@.len(),
            all == lines@.map_values(|l: String| l@),
            u == sniffed(kind, all.take(i as int)),
        decreases lines@.len() - i,
    {
        assert(all.take(i + 1).drop_last() =~= all.take(i as int));
        assert(all.take(i + 1).last() == lines@[i as int]@);
        if let Some(p) = payload(lines[i].as_str()) {
            u = u.add_fields(fields(kind, p.as_str()));
        }
        i = i + 1;
    }
    assert(all.take(i as int) =~= all);
    if u.found {
        Some((u.input, u.output, u.cache_read, u.cache_write))
    } else {
        None
    }
}

/// The counts of an answer of the messages protocol: of the input and of the cache as its
/// first message gives them, of the output the last that is given.
pub fn sniff_anthropic_usage(s: &str) -> (r: Option<(i64, i64, i64, i64)>)
    ensures
        r == usage_in(PassthroughKind::Anthropic, s@),
{
    sniff(PassthroughKind::Anthropic, s)
}

/// The counts of an answer of the responses protocol: the last that are given.
pub fn sniff_openai_usage(s: &str) -> (r: Option<(i64, i64, i64, i64)>)
    ensures
        r == usage_in(PassthroughKind::Openai, s@),
{
    sniff(PassthroughKind::Openai, s)
}

/// Reads the token counts of an answer that goes by.
#[derive(Debug)]
pub struct PassthroughUsageSniffer {
    pub model: String,
    pub credential_id: u64,
    pub kind: PassthroughKind,
    /// The end of the answer.
    pub tail: String,
    /// Whether the counts were reported.
    pub finalized: bool,
}

impl PassthroughUsageSniffer {
    pub fn new(model: String, credential_id: u64, kind: PassthroughKind) -> (r: Self)
        ensures
            r.model@ == model@,
            r.credential_id == credential_id,
            r.kind == kind,
            r.tail@ == Seq::<char>::empty(),
            !r.finalized,
    {
        PassthroughUsageSniffer {
            model,
            credential_id,
            kind,
            tail: String::new(),
            finalized: false,
        }
    }

    /// A piece of the answer goes by. Of all that went by, the longest end that fits
    /// in [`TAIL_BUFFER_MAX`] bytes is kept.
    pub fn feed(&mut self, chunk: &[u8])
        ensures
            final(self).tail@ == text::tail_within(
                old(self).tail@ + outside::utf8_lossy(chunk@),
                TAIL_BUFFER_MAX as nat,
            ),
            text::byte_len(final(self).tail@) <= TAIL_BUFFER_MAX,
            final(self).model == old(self).model,
            final(self).credential_id == old(self).credential_id,
            final(self).kind == old(self).kind,
            final(self).finalized == old(self).finalized,
    {
        let piece: String = outside::text_from_bytes(chunk);
        let ghost before = self.tail@;
        self.tail.append(piece.as_str());
        let kept: String = text::keep_tail(self.tail.as_str(), TAIL_BUFFER_MAX);
        proof {
            text::lemma_tail_within(self.tail@, TAIL_BUFFER_MAX as nat);
        }
        self.tail = kept;
    }

    /// What is reported at the end of the answer: the counts found in its end, zeros
    /// where none were found. It is reported once.
    pub fn finalize(&mut self) -> (r: Option<UsageReport>)
        ensures
            final(self).finalized,
            final(self).model == old(self).model,
            final(self).credential_id == old(self).credential_id,
            final(self).kind == old(self).kind,
            final(self).tail == old(self).tail,
            match r {
                None => old(self).finalized,
                Some(u) => {
                    let counts = match usage_in(old(self).kind, old(self).tail@) {
                        Some(c) => c,
                        None => (0i64, 0i64, 0i64, 0i64),
                    };
                    &&& !old(self).finalized
                    &&& u@ == (stream_model::UsageView {
                        model: old(self).model@,
                        credential_id: crate::anthropic::stream::as_signed64(
                            old(self).credential_id as int,
                        ),
                        input_tokens: counts.0 as int,
                        output_tokens: counts.1 as int,
                        cache_read: counts.2 as int,
                        cache_write: counts.3 as int,
                    })
                },
            },
    {
        if self.finalized {
            return None;
        }
        self.finalized = true;
        let counts: Option<(i64, i64, i64, i64)> = sniff(self.kind, self.tail.as_str());
        let (input_tokens, output_tokens, cache_read, cache_write): (i64, i64, i64, i64) =
            match counts {
            Some(c) => c,
            None => (0, 0, 0, 0),
        };
        Some(
            UsageReport {
                model: self.model.clone(),
                credential_id: crate::anthropic::stream::to_signed64(self.credential_id),
                input_tokens,
                output_tokens,
                cache_read,
                cache_write,
            },
        )
    }
}

/// Keeping the end piece by piece keeps the end of the whole: nothing is lost that
/// would have been kept had the answer come in one piece.
pub proof fn law_tail_of_the_whole(a: Seq<char>, b: Seq<char>, bytes: nat)
    ensures
        text::tail_within(text::tail_within(a, bytes) + b, bytes) == text::tail_within(
            a + b,
            bytes,
        ),
    decreases a.len(),
{
    if text::byte_len(a) > bytes && a.len() > 0 {
        law_tail_of_the_whole(a.drop_first(), b, bytes);
        text::lemma_encode_concat(a, b);
        assert((a + b).drop_first() =~= a.drop_first() + b);
    }
}

/// What a line of an answer tells of a count, if anything.
pub open spec fn told_in(
    kind: PassthroughKind,
    line: Seq<char>,
    pick: spec_fn(UsageFields) -> Option<i64>,
) -> Option<i64> {
    match payload_of(line) {
        Some(p) => pick(fields_of(kind, p)),
        None => None,
    }
}

/// Whether a number is what the lines told last of a count, and zero if they told nothing.
pub open spec fn is_told_last(
    kind: PassthroughKind,
    lines: Seq<Seq<char>>,
    pick: spec_fn(UsageFields) -> Option<i64>,
    n: i64,
) -> bool {
    ||| exists|i: int|
        0 <= i < lines.len() && told_in(kind, #[trigger] lines[i], pick) == Some(n) && forall|
            j: int,
        |
            i < j < lines.len() ==> told_in(kind, #[trigger] lines[j], pick) is None
    ||| n == 0 && forall|i: int|
        0 <= i < lines.len() ==> told_in(kind, #[trigger] lines[i], pick) is None
}

proof fn lemma_told_last(
    kind: PassthroughKind,
    lines: Seq<Seq<char>>,
    pick: spec_fn(UsageFields) -> Option<i64>,
    n: i64,
    m: i64,
)
    requires
        lines.len() > 0,
        is_told_last(kind, lines.drop_last(), pick, n),
        m == match told_in(kind, lines.last(), pick) {
            Some(k) => k,
            None => n,
        },
    ensures
        is_told_last(kind, lines, pick, m),
{
    let rest = lines.drop_last();
    let last = lines.len() - 1;
    if told_in(kind, lines[last], pick) is None {
        if exists|i: int|
            0 <= i < rest.len() && told_in(kind, #[trigger] rest[i], pick) == Some(n) && forall|
                j: int,
            |
                i < j < rest.len() ==> told_in(kind, #[trigger] rest[j], pick) is None {
            let i = choose|i: int|
                0 <= i < rest.len() && told_in(kind, #[trigger] rest[i], pick) == Some(n)
                    && forall|j: int|
                    i < j < rest.len() ==> told_in(kind, #[trigger] rest[j], pick) is None;
            assert(lines[i] == rest[i]);
            assert forall|j: int| i < j < lines.len() implies told_in(
                kind,
                #[trigger] lines[j],
                pick,
            ) is None by {
                if j < rest.len() {
                    assert(rest[j] == lines[j]);
                }
            }
        } else {
            assert forall|i: int| 0 <= i < lines.len() implies told_in(
                kind,
                #[trigger] lines[i],
                pick,
            ) is None by {
                if i < rest.len() {
                    assert(rest[i] == lines[i]);
                }
            }
        }
    } else {
        assert(told_in(kind, lines[last], pick) == Some(m));
    }
}

/// Of each count the last that is told in an answer is the one that counts, whatever else the
/// lines in between tell; a count that is not told is zero. There are counts at all if and only
/// if those of the input or of the output are told.
pub proof fn law_last_count_counts(kind: PassthroughKind, lines: Seq<Seq<char>>)
    ensures
        ({
            let u = sniffed(kind, lines);
            &&& is_told_last(kind, lines, |f: UsageFields| f.input, u.input)
            &&& is_told_last(kind, lines, |f: UsageFields| f.output, u.output)
            &&& is_told_last(kind, lines, |f: UsageFields| f.cache_read, u.cache_read)
            &&& is_told_last(kind, lines, |f: UsageFields| f.cache_write, u.cache_write)
            &&& u.found <==> exists|i: int|
                0 <= i < lines.len() && (told_in(
                    kind,
                    #[trigger] lines[i],
                    |f: UsageFields| f.input,
                ) is Some || told_in(kind, lines[i], |f: UsageFields| f.output) is Some)
        }),
    decreases lines.len(),
{
    if lines.len() > 0 {
        let rest = lines.drop_last();
        law_last_count_counts(kind, rest);
        let a = sniffed(kind, rest);
        let b = sniffed(kind, lines);
        let input = |f: UsageFields| f.input;
        let output = |f: UsageFields| f.output;
        lemma_told_last(kind, lines, input, a.input, b.input);
        lemma_told_last(kind, lines, output, a.output, b.output);
        lemma_told_last(kind, lines, |f: UsageFields| f.cache_read, a.cache_read, b.cache_read);
        lemma_told_last(kind, lines, |f: UsageFields| f.cache_write, a.cache_write, b.cache_write);
        if a.found {
            let i = choose|i: int|
                0 <= i < rest.len() && (told_in(kind, #[trigger] rest[i], input) is Some
                    || told_in(kind, rest[i], output) is Some);
            assert(lines[i] == rest[i]);
        }
        if exists|i: int|
            0 <= i < lines.len() && (told_in(kind, #[trigger] lines[i], input) is Some || told_in(
                kind,
                lines[i],
                output,
            ) is Some) {
            let i = choose|i: int|
                0 <= i < lines.len() && (told_in(kind, #[trigger] lines[i], input) is Some
                    || told_in(kind, lines[i], output) is Some);
            if i < rest.len() {
                assert(rest[i] == lines[i]);
            }
        }
        if b.found && !a.found {
            assert(lines[lines.len() - 1] == lines.last());
        }
    }
}

/// A line has a payload if and only if it begins with `data:`, white space before it aside; the
/// payload is all that follows, without the white space at its ends.
pub proof fn law_payload_follows_data(line: Seq<char>)
    ensures
        match payload_of(line) {
            Some(p) => exists|k: int|
                0 <= k <= line.len() && text::all_white(line.take(k)) && #[trigger] text::occurs_at(
                    line,
                    "data:"@,
                    k,
                ) && text::stripped(line.skip(k + 5), p),
            None => forall|k: int|
                0 <= k <= line.len() && text::all_white(line.take(k))
                    ==> !#[trigger] text::occurs_at(line, "data:"@, k),
        },
{
    reveal_strlit("data:");
    let a = text::lemma_trim_start(line);
    let l = text::trim_start(line);
    match payload_of(line) {
        Some(p) => {
            assert(line.subrange(a, a + 5) =~= l.subrange(0, 5));
            assert(text::occurs_at(line, "data:"@, a));
            assert(l.skip(5) =~= line.skip(a + 5));
            text::law_trim(l.skip(5));
        },
        None => {
            assert forall|k: int|
                0 <= k <= line.len() && text::all_white(
                    line.take(k),
                ) implies !#[trigger] text::occurs_at(line, "data:"@, k) by {
                if text::occurs_at(line, "data:"@, k) {
                    assert(line.subrange(k, k + 5)[0] == 'd');
                    assert(line[k] == 'd');
                    assert(!text::is_white('d'));
                    if k < a {
                        assert(line.take(a)[k] == line[k]);
                    }
                    if k > a {
                        assert(line.take(k)[a] == line[a]);
                        assert(l[0] == line[a]);
                    }
                    assert(l.subrange(0, 5) =~= line.subrange(k, k + 5));
                }
            }
        },
    }
}

/// The counts of an answer come in the order input, output, cache reads and cache writes, each
/// as it was told last. There are none if and only if neither input nor output is told.
pub proof fn law_counts_of_an_answer(kind: PassthroughKind, s: Seq<char>)
    ensures
        match usage_in(kind, s) {
            Some((input, output, cache_read, cache_write)) => {
                &&& is_told_last(kind, text::lines(s), |f: UsageFields| f.input, input)
                &&& is_told_last(kind, text::lines(s), |f: UsageFields| f.output, output)
                &&& is_told_last(kind, text::lines(s), |f: UsageFields| f.cache_read, cache_read)
                &&& is_told_last(kind, text::lines(s), |f: UsageFields| f.cache_write, cache_write)
            },
            None => forall|i: int|
                0 <= i < text::lines(s).len() ==> told_in(
                    kind,
                    #[trigger] text::lines(s)[i],
                    |f: UsageFields| f.input,
                ) is None && told_in(kind, text::lines(s)[i], |f: UsageFields| f.output) is None,
        },
{
    law_last_count_counts(kind, text::lines(s));
}

/// In the messages protocol the message that begins an answer tells all four counts, and any
/// other payload tells the output at most.
pub proof fn law_counts_of_a_message(payload: Seq<char>)
    ensures
        ({
            let f = fields_of(PassthroughKind::Anthropic, payload);
            let begins = outside::json_has_at(payload, "/message/usage"@);
            &&& begins ==> {
                &&& f.input == outside::json_int_at(payload, "/message/usage/input_tokens"@)
                &&& f.output == outside::json_int_at(payload, "/message/usage/output_tokens"@)
                &&& f.cache_read == outside::json_int_at(
                    payload,
                    "/message/usage/cache_read_input_tokens"@,
                )
                &&& f.cache_write == outside::json_int_at(
                    payload,
                    "/message/usage/cache_creation_input_tokens"@,
                )
            }
            &&& !begins && outside::json_has_at(payload, "/usage"@) ==> f.output
                == outside::json_int_at(payload, "/usage/output_tokens"@)
            &&& !begins && !outside::json_has_at(payload, "/usage"@) ==> f.input is None
                && f.output is None && f.cache_read is None && f.cache_write is None
        }),
{
    reveal_strlit("/message/usage");
    reveal_strlit("/usage");
    reveal_strlit("/input_tokens");
    reveal_strlit("/output_tokens");
    reveal_strlit("/cache_read_input_tokens");
    reveal_strlit("/cache_creation_input_tokens");
    reveal_strlit("/message/usage/input_tokens");
    reveal_strlit("/message/usage/output_tokens");
    reveal_strlit("/message/usage/cache_read_input_tokens");
    reveal_strlit("/message/usage/cache_creation_input_tokens");
    reveal_strlit("/usage/output_tokens");
    assert("/message/usage"@ + "/input_tokens"@ =~= "/message/usage/input_tokens"@);
    assert("/message/usage"@ + "/output_tokens"@ =~= "/message/usage/output_tokens"@);
    assert("/message/usage"@ + "/cache_read_input_tokens"@
        =~= "/message/usage/cache_read_input_tokens"@);
    assert("/message/usage"@ + "/cache_creation_input_tokens"@
        =~= "/message/usage/cache_creation_input_tokens"@);
    assert("/usage"@ + "/output_tokens"@ =~= "/usage/output_tokens"@);
}

/// Whether the counts of input and output are those that stand at a place of a payload, under
/// the names of the newer protocol or else of the older.
pub open spec fn counts_stand_at(f: UsageFields, payload: Seq<char>, place: Seq<char>) -> bool {
    let input = outside::json_int_at(payload, place + "/input_tokens"@);
    let prompt = outside::json_int_at(payload, place + "/prompt_tokens"@);
    let output = outside::json_int_at(payload, place + "/output_tokens"@);
    let completion = outside::json_int_at(payload, place + "/completion_tokens"@);
    &&& input is Some ==> f.input == input
    &&& input is None ==> f.input == prompt
    &&& output is Some ==> f.output == output
    &&& output is None ==> f.output == completion
}

/// In the other protocol the counts of input and output stand in the response, or else in the
/// payload itself. Those of the cache are never told.
pub proof fn law_counts_of_a_response(payload: Seq<char>)
    ensures
        ({
            let f = fields_of(PassthroughKind::Openai, payload);
            let nested = outside::json_has_at(payload, "/response/usage"@);
            let flat = outside::json_has_at(payload, "/usage"@);
            &&& nested ==> counts_stand_at(f, payload, "/response/usage"@)
            &&& !nested && flat ==> counts_stand_at(f, payload, "/usage"@)
            &&& !nested && !flat ==> f.input is None && f.output is None
            &&& f.cache_read is None && f.cache_write is None
        }),
{
}

} // verus!
