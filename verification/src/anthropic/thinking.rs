//! Thinking tags: telling real `<thinking>` and `</thinking>` tags from quoted
//! ones, and taking the thinking part out of a complete answer.

use vstd::prelude::*;
use vstd::utf8::*;
use vstd::string::*;
use crate::outside;
use crate::text;

verus! {

/// The bytes that mark a tag as quoted when they stand next to it.
pub open spec fn is_quote_byte(b: u8) -> bool {
    b == 0x60 || b == 0x22 || b == 0x27 || b == 0x5c || b == 0x23 || b == 0x21 || b == 0x40 || b
        == 0x24 || b == 0x25 || b == 0x5e || b == 0x26 || b == 0x2a || b == 0x28 || b == 0x29 || b
        == 0x2d || b == 0x5f || b == 0x3d || b == 0x2b || b == 0x5b || b == 0x5d || b == 0x7b || b
        == 0x7d || b == 0x3b || b == 0x3a || b == 0x3c || b == 0x3e || b == 0x2c || b == 0x2e || b
        == 0x3f || b == 0x2f
}

/// The characters that mark a tag as quoted when they stand next to it.
pub open spec fn is_quote(c: char) -> bool {
    c as u32 <= 0x7f && is_quote_byte(c as u8)
}

/// Whether a stretch of `n` characters from position `k` has a quoting
/// character right before or right after it.
pub open spec fn quoted(s: Seq<char>, k: int, n: int) -> bool {
    ||| 0 < k && is_quote(s[k - 1])
    ||| k + n < s.len() && is_quote(s[k + n])
}

/// Whether `tag` stands at position `k` and is not quoted.
pub open spec fn bare_tag_at(s: Seq<char>, tag: Seq<char>, k: int) -> bool {
    text::occurs_at(s, tag, k) && !quoted(s, k, tag.len() as int)
}

/// A real opening tag: one that is not quoted.
pub open spec fn start_tag_at(s: Seq<char>, k: int) -> bool {
    bare_tag_at(s, "<thinking>"@, k)
}

/// A real closing tag: one that is not quoted and is followed by an empty line.
pub open spec fn end_tag_at(s: Seq<char>, k: int) -> bool {
    bare_tag_at(s, "</thinking>"@, k) && text::occurs_at(s, "\n\n"@, k + 11)
}

/// A closing tag at the end: one that is not quoted, with only white space after it.
pub open spec fn last_end_tag_at(s: Seq<char>, k: int) -> bool {
    bare_tag_at(s, "</thinking>"@, k) && text::all_white(s.skip(k + 11))
}

/// The position of the first real opening tag.
pub open spec fn first_start_tag(s: Seq<char>) -> Option<int> {
    text::search(|k: int| start_tag_at(s, k), 0, s.len() as int)
}

/// The position of the first real closing tag.
pub open spec fn first_end_tag(s: Seq<char>) -> Option<int> {
    text::search(|k: int| end_tag_at(s, k), 0, s.len() as int)
}

/// The position of the first closing tag with only white space after it.
pub open spec fn first_last_end_tag(s: Seq<char>) -> Option<int> {
    text::search(|k: int| last_end_tag_at(s, k), 0, s.len() as int)
}

/// A position in characters, as an offset in bytes.
pub open spec fn offset_of(s: Seq<char>, k: Option<int>) -> Option<int> {
    match k {
        Some(i) => Some(text::byte_len(s.take(i)) as int),
        None => None,
    }
}

/// The lengths of the tags.
pub proof fn lemma_tag_lengths()
    ensures
        "<thinking>"@.len() == 10,
        "</thinking>"@.len() == 11,
        "\n\n"@.len() == 2,
        "</thinking>\n\n"@.len() == 13,
{
    reveal_strlit("<thinking>");
    reveal_strlit("</thinking>");
    reveal_strlit("\n\n");
    reveal_strlit("</thinking>\n\n");
}

fn quote_byte(b: u8) -> (r: bool)
    ensures
        r == is_quote_byte(b),
{
    b == 0x60 || b == 0x22 || b == 0x27 || b == 0x5c || b == 0x23 || b == 0x21 || b == 0x40 || b
        == 0x24 || b == 0x25 || b == 0x5e || b == 0x26 || b == 0x2a || b == 0x28 || b == 0x29 || b
        == 0x2d || b == 0x5f || b == 0x3d || b == 0x2b || b == 0x5b || b == 0x5d || b == 0x7b || b
        == 0x7d || b == 0x3b || b == 0x3a || b == 0x3c || b == 0x3e || b == 0x2c || b == 0x2e || b
        == 0x3f || b == 0x2f
}

/// Whether the byte at an offset is a quoting character.
pub fn is_quote_char(buffer: &str, pos: usize) -> (r: bool)
    ensures
        r == (pos < text::byte_len(buffer@) && is_quote_byte(encode_utf8(buffer@)[pos as int])),
{
    let bytes: &[u8] = buffer.as_bytes();
    pos < bytes.len() && quote_byte(bytes[pos])
}

fn quote_char(c: char) -> (r: bool)
    ensures
        r == is_quote(c),
{
    let u: u32 = c as u32;
    u <= 0x7f && quote_byte(u as u8)
}

/// The largest character boundary at or before an offset: the length of the
/// longest prefix that fits in `target` bytes.
pub fn find_char_boundary(s: &str, target: usize) -> (r: usize)
    ensures
        r == text::byte_len(s@.take(text::chars_within(s@, target as nat))),
{
    let v: Vec<char> = text::chars_of(s);
    let k: usize = text::fitting_chars(&v, target);
    text::byte_offset(s, &v, k)
}

fn bare_tag(v: &Vec<char>, tag: &Vec<char>, k: usize) -> (r: bool)
    requires
        k < v@.len(),
    ensures
        r == bare_tag_at(v@, tag@, k as int),
{
    if !text::matches_at(v, tag, k) {
        return false;
    }
    let n: usize = v.len();
    let after: usize = k + tag.len();
    !((k > 0 && quote_char(v[k - 1])) || (after < n && quote_char(v[after])))
}

/// The position, in characters, of the first real opening tag.
pub fn start_tag_position(v: &Vec<char>) -> (r: Option<usize>)
    ensures
        match r {
            Some(k) => first_start_tag(v@) == Some(k as int) && k + 10 <= v@.len(),
            None => first_start_tag(v@) is None,
        },
{
    let tag: Vec<char> = text::chars_of("<thinking>");
    let ghost p = |k: int| start_tag_at(v@, k);
    proof {
        lemma_tag_lengths();
        text::lemma_search(p, 0, v@.len() as int);
    }
    let mut k: usize = 0;
    while k < v.len()
        invariant
            k <= v@.len(),
            tag@ == "<thinking>"@,
            p == (|k: int| start_tag_at(v@, k)),
            forall|m: int| 0 <= m < k ==> !(#[trigger] p(m)),
            "<thinking>"@.len() == 10,
            match text::search(p, 0, v@.len() as int) {
                Some(j) => 0 <= j < v@.len() && p(j) && (forall|m: int| 0 <= m < j ==> !(#[trigger] p(m))),
                None => forall|m: int| 0 <= m < v@.len() ==> !(#[trigger] p(m)),
            },
        decreases v@.len() - k,
    {
        let found: bool = bare_tag(v, &tag, k);
        assert(found == p(k as int));
        if found {
            return Some(k);
        }
        k = k + 1;
    }
    None
}

/// The position, in characters, of the first real closing tag.
pub fn end_tag_position(v: &Vec<char>) -> (r: Option<usize>)
    ensures
        match r {
            Some(k) => first_end_tag(v@) == Some(k as int) && k + 13 <= v@.len(),
            None => first_end_tag(v@) is None,
        },
{
    let tag: Vec<char> = text::chars_of("</thinking>");
    let gap: Vec<char> = text::chars_of("\n\n");
    let ghost p = |k: int| end_tag_at(v@, k);
    proof {
        lemma_tag_lengths();
        text::lemma_search(p, 0, v@.len() as int);
    }
    let mut k: usize = 0;
    while k < v.len()
        invariant
            k <= v@.len(),
            tag@ == "</thinking>"@,
            gap@ == "\n\n"@,
            p == (|k: int| end_tag_at(v@, k)),
            forall|m: int| 0 <= m < k ==> !(#[trigger] p(m)),
            "</thinking>"@.len() == 11,
            "\n\n"@.len() == 2,
            match text::search(p, 0, v@.len() as int) {
                Some(j) => 0 <= j < v@.len() && p(j) && (forall|m: int| 0 <= m < j ==> !(#[trigger] p(m))),
                None => forall|m: int| 0 <= m < v@.len() ==> !(#[trigger] p(m)),
            },
        decreases v@.len() - k,
    {
        let found: bool = bare_tag(v, &tag, k) && text::matches_at(v, &gap, k + 11);
        assert(found == p(k as int));
        if found {
            return Some(k);
        }
        k = k + 1;
    }
    None
}

/// The position, in characters, of the first closing tag with only white space
/// after it.
pub fn last_end_tag_position(v: &Vec<char>) -> (r: Option<usize>)
    ensures
        match r {
            Some(k) => first_last_end_tag(v@) == Some(k as int) && k + 11 <= v@.len(),
            None => first_last_end_tag(v@) is None,
        },
{
    let tag: Vec<char> = text::chars_of("</thinking>");
    let ghost p = |k: int| last_end_tag_at(v@, k);
    proof {
        lemma_tag_lengths();
        text::lemma_search(p, 0, v@.len() as int);
    }
    let mut k: usize = 0;
    while k < v.len()
        invariant
            k <= v@.len(),
            tag@ == "</thinking>"@,
            p == (|k: int| last_end_tag_at(v@, k)),
            forall|m: int| 0 <= m < k ==> !(#[trigger] p(m)),
            "</thinking>"@.len() == 11,
            match text::search(p, 0, v@.len() as int) {
                Some(j) => 0 <= j < v@.len() && p(j) && (forall|m: int| 0 <= m < j ==> !(#[trigger] p(m))),
                None => forall|m: int| 0 <= m < v@.len() ==> !(#[trigger] p(m)),
            },
        decreases v@.len() - k,
    {
        let found: bool = bare_tag(v, &tag, k) && text::white_from(v, k + 11);
        assert(found == p(k as int));
        if found {
            return Some(k);
        }
        k = k + 1;
    }
    None
}

/// The offset of the first real closing tag: not quoted, with an empty line
/// after it.
pub fn find_real_thinking_end_tag(buffer: &str) -> (r: Option<usize>)
    ensures
        match r {
            Some(n) => offset_of(buffer@, first_end_tag(buffer@)) == Some(n as int),
            None => first_end_tag(buffer@) is None,
        },
{
    let v: Vec<char> = text::chars_of(buffer);
    match end_tag_position(&v) {
        Some(k) => Some(text::byte_offset(buffer, &v, k)),
        None => None,
    }
}

/// The offset of the first closing tag that is not quoted and has only white
/// space after it.
pub fn find_real_thinking_end_tag_at_buffer_end(buffer: &str) -> (r: Option<usize>)
    ensures
        match r {
            Some(n) => offset_of(buffer@, first_last_end_tag(buffer@)) == Some(n as int),
            None => first_last_end_tag(buffer@) is None,
        },
{
    let v: Vec<char> = text::chars_of(buffer);
    match last_end_tag_position(&v) {
        Some(k) => Some(text::byte_offset(buffer, &v, k)),
        None => None,
    }
}

/// The offset of the first opening tag that is not quoted.
pub fn find_real_thinking_start_tag(buffer: &str) -> (r: Option<usize>)
    ensures
        match r {
            Some(n) => offset_of(buffer@, first_start_tag(buffer@)) == Some(n as int),
            None => first_start_tag(buffer@) is None,
        },
{
    let v: Vec<char> = text::chars_of(buffer);
    match start_tag_position(&v) {
        Some(k) => Some(text::byte_offset(buffer, &v, k)),
        None => None,
    }
}

/// The placeholder signature of a thinking block.
pub open spec fn thinking_signature(thinking: Seq<char>) -> Seq<char> {
    outside::hex_text(outside::sha256(encode_utf8(thinking)))
}

/// A signature stands for a thinking block: the hexadecimal SHA-256 digest of
/// its text.
pub fn compute_thinking_signature(thinking: &str) -> (r: String)
    ensures
        r@ == thinking_signature(thinking@),
        r@.len() == 64,
{
    let hash: Vec<u8> = outside::sha256_digest(thinking.as_bytes());
    outside::hex_encode(&hash)
}

/// A text without one newline at its start.
pub open spec fn strip_newline(s: Seq<char>) -> Seq<char> {
    if s.len() > 0 && s[0] == '\n' {
        s.skip(1)
    } else {
        s
    }
}

/// What an opening tag is followed by: the thinking text and the text after the
/// closing tag. A closing tag with an empty line after it comes first, one at
/// the end is taken otherwise.
pub open spec fn split_at_end_tag(s: Seq<char>) -> Option<(Seq<char>, Seq<char>)> {
    match first_end_tag(s) {
        Some(e) => Some((s.take(e), s.skip(e + 13))),
        None => match first_last_end_tag(s) {
            Some(e) => Some((s.take(e), text::trim_start(s.skip(e + 11)))),
            None => None,
        },
    }
}

/// The thinking part of a complete answer, if it holds any, and the rest.
pub open spec fn extracted(s: Seq<char>) -> (Option<Seq<char>>, Seq<char>) {
    match first_start_tag(s) {
        None => (None, s),
        Some(a) => match split_at_end_tag(s.skip(a + 10)) {
            None => (None, s),
            Some((raw, after)) => {
                let thinking = strip_newline(raw);
                let before = if text::all_white(s.take(a)) {
                    Seq::empty()
                } else {
                    s.take(a)
                };
                (
                    if thinking.len() == 0 {
                        None
                    } else {
                        Some(thinking)
                    },
                    before + after,
                )
            },
        },
    }
}

/// Takes the thinking block out of a complete answer.
///
/// Without a real opening tag, or without a closing tag after it, the text comes
/// back as it is. A blank text before the block is dropped with it.
pub fn extract_thinking_from_complete_text(text: &str) -> (r: (Option<String>, String))
    ensures
        extracted(text@) == (
            match r.0 {
                Some(t) => Some(t@),
                None => None,
            },
            r.1@,
        ),
{
    let v: Vec<char> = text::chars_of(text);
    let n: usize = v.len();
    let start: usize = match start_tag_position(&v) {
        Some(a) => a,
        None => {
            return (None, text.to_owned());
        },
    };
    let open: Vec<char> = text::tail_of(&v, start + 10);
    let m: usize = open.len();
    let (end, rest): (usize, usize) = match end_tag_position(&open) {
        Some(e) => (e, e + 13),
        None => match last_end_tag_position(&open) {
            Some(e) => (e, text::skip_white(&open, e + 11)),
            None => {
                return (None, text.to_owned());
            },
        },
    };
    let ghost raw = open@.take(end as int);
    let first: usize = if end > 0 && open[0] == '\n' {
        1
    } else {
        0
    };
    let thinking: String = text::string_of(&open, first, end);
    assert(thinking@ =~= strip_newline(raw));
    let before: String = text::string_of(&v, 0, start);
    assert(before@ =~= v@.take(start as int));
    let mut remaining: String = String::new();
    if !text::is_blank(before.as_str()) {
        remaining = before;
    }
    let after: String = text::string_of(&open, rest, m);
    assert(after@ =~= open@.skip(rest as int));
    remaining.append(after.as_str());
    assert(remaining@ =~= extracted(text@).1);
    if first == end {
        (None, remaining)
    } else {
        (Some(thinking), remaining)
    }
}

/// Where a thinking block is taken out, the answer is the text before its
/// opening tag, the tag, the thinking text with the newline that may come first,
/// the closing tag, and what follows that tag.
pub proof fn law_extraction_recomposes(s: Seq<char>)
    requires
        first_start_tag(s) is Some,
        split_at_end_tag(s.skip(first_start_tag(s).unwrap() + 10)) is Some,
    ensures
        ({
            let a = first_start_tag(s).unwrap();
            let (raw, after) = split_at_end_tag(s.skip(a + 10)).unwrap();
            exists|gap: Seq<char>|
                #![trigger s.take(a) + "<thinking>"@ + raw + "</thinking>"@ + gap + after]
                {
                    &&& s == s.take(a) + "<thinking>"@ + raw + "</thinking>"@ + gap + after
                    &&& text::all_white(gap)
                }
        }),
{
    let a: int = first_start_tag(s).unwrap();
    let open = s.skip(a + 10);
    let (raw, after) = split_at_end_tag(open).unwrap();
    lemma_tag_lengths();
    text::lemma_search(|k: int| start_tag_at(s, k), 0, s.len() as int);
    text::lemma_search(|k: int| end_tag_at(open, k), 0, open.len() as int);
    text::lemma_search(|k: int| last_end_tag_at(open, k), 0, open.len() as int);
    lemma_split_around(s, "<thinking>"@, a);
    if first_end_tag(open) is Some {
        let e: int = first_end_tag(open).unwrap();
        lemma_split_around(open, "</thinking>"@, e);
        let tail = open.skip(e + 11);
        assert(text::occurs_at(tail, "\n\n"@, 0)) by {
            assert(tail.subrange(0, 2) =~= open.subrange(e + 11, e + 13));
        }
        lemma_split_around(tail, "\n\n"@, 0);
        assert(tail.take(0) + "\n\n"@ =~= "\n\n"@);
        assert(tail.skip(2) =~= after);
        assert(text::all_white("\n\n"@)) by {
            reveal_strlit("\n\n");
        }
        lemma_concat(s.take(a), "<thinking>"@, raw, "</thinking>"@, "\n\n"@, after);
        assert(s == s.take(a) + "<thinking>"@ + raw + "</thinking>"@ + "\n\n"@ + after);
    } else {
        let e: int = first_last_end_tag(open).unwrap();
        lemma_split_around(open, "</thinking>"@, e);
        let tail = open.skip(e + 11);
        text::lemma_trim_start_white(tail);
        assert(tail =~= tail + after);
        lemma_concat(s.take(a), "<thinking>"@, raw, "</thinking>"@, tail, after);
        assert(s == s.take(a) + "<thinking>"@ + raw + "</thinking>"@ + tail + after);
    }
}

proof fn lemma_split_around(s: Seq<char>, pat: Seq<char>, k: int)
    requires
        text::occurs_at(s, pat, k),
    ensures
        s == s.take(k) + pat + s.skip(k + pat.len()),
{
    assert(s.subrange(k, k + pat.len()) == pat);
    assert(s =~= s.take(k) + s.subrange(k, k + pat.len()) + s.skip(k + pat.len()));
}

proof fn lemma_concat(
    a: Seq<char>,
    b: Seq<char>,
    c: Seq<char>,
    d: Seq<char>,
    e: Seq<char>,
    f: Seq<char>,
)
    ensures
        a + b + (c + d + (e + f)) == a + b + c + d + e + f,
{
    let x = a + b;
    assert(x + (c + d + (e + f)) =~= x + c + d + e + f);
}

/// Where thinking is taken out of an answer, and where it is not. Without a real opening tag,
/// or without a closing tag behind the first of them, the answer stays as it is. Else the
/// thinking runs from the first opening tag to the first closing tag with an empty line after
/// it, or, where there is none, to the first with nothing but white space after it. What
/// remains is the text before, unless it is blank, and the text behind.
pub proof fn law_extraction(s: Seq<char>, a: int, e: int)
    ensures
        (forall|k: int| 0 <= k < s.len() ==> !#[trigger] start_tag_at(s, k)) ==> extracted(s) == (
            None::<Seq<char>>,
            s,
        ),
        ({
            let open = s.skip(a + 10);
            let before = if text::all_white(s.take(a)) {
                Seq::empty()
            } else {
                s.take(a)
            };
            let first = 0 <= a < s.len() && start_tag_at(s, a) && forall|k: int|
                0 <= k < a ==> !#[trigger] start_tag_at(s, k);
            let thought = strip_newline(open.take(e));
            let ends = forall|k: int| 0 <= k < open.len() ==> !#[trigger] end_tag_at(open, k);
            &&& first && 0 <= e < open.len() && end_tag_at(open, e) && (forall|k: int|
                0 <= k < e ==> !#[trigger] end_tag_at(open, k)) ==> {
                &&& extracted(s).0 == if thought.len() > 0 {
                    Some(thought)
                } else {
                    None
                }
                &&& extracted(s).1 == before + open.skip(e + 13)
            }
            &&& first && ends && 0 <= e < open.len() && last_end_tag_at(open, e) && (forall|k: int|
                0 <= k < e ==> !#[trigger] last_end_tag_at(open, k)) ==> {
                &&& extracted(s).0 == if thought.len() > 0 {
                    Some(thought)
                } else {
                    None
                }
                &&& extracted(s).1 == before
            }
            &&& first && ends && (forall|k: int|
                0 <= k < open.len() ==> !#[trigger] last_end_tag_at(open, k)) ==> extracted(s) == (
                None::<Seq<char>>,
                s,
            )
        }),
{
    let p = |k: int| start_tag_at(s, k);
    let open = s.skip(a + 10);
    let q = |k: int| end_tag_at(open, k);
    let r = |k: int| last_end_tag_at(open, k);
    let n = s.len() as int;
    let m = open.len() as int;
    if forall|k: int| 0 <= k < s.len() ==> !#[trigger] start_tag_at(s, k) {
        text::lemma_search_none(p, 0, n);
    }
    if 0 <= a < n && start_tag_at(s, a) && forall|k: int|
        0 <= k < a ==> !#[trigger] start_tag_at(s, k) {
        text::lemma_search_first(p, 0, n, a);
        assert(first_start_tag(s) == Some(a));
        if forall|k: int| 0 <= k < open.len() ==> !#[trigger] end_tag_at(open, k) {
            text::lemma_search_none(q, 0, m);
            assert(first_end_tag(open) is None);
        }
        if 0 <= e < m && end_tag_at(open, e) && forall|k: int|
            0 <= k < e ==> !#[trigger] end_tag_at(open, k) {
            text::lemma_search_first(q, 0, m, e);
            assert(first_end_tag(open) == Some(e));
        }
        if forall|k: int| 0 <= k < open.len() ==> !#[trigger] last_end_tag_at(open, k) {
            text::lemma_search_none(r, 0, m);
            assert(first_last_end_tag(open) is None);
        }
        if 0 <= e < m && last_end_tag_at(open, e) && forall|k: int|
            0 <= k < e ==> !#[trigger] last_end_tag_at(open, k) {
            text::lemma_search_first(r, 0, m, e);
            assert(first_last_end_tag(open) == Some(e));
            text::lemma_trim_start_white(open.skip(e + 11));
            let none = text::trim_start(open.skip(e + 11));
            assert(none =~= Seq::empty());
            let before = if text::all_white(s.take(a)) {
                Seq::empty()
            } else {
                s.take(a)
            };
            assert(before + none =~= before);
        }
    }
}

/// The number of CJK ideographs (U+4E00 to U+9FFF) in a text.
pub open spec fn ideographs(s: Seq<char>) -> nat
    decreases s.len(),
{
    if s.len() == 0 {
        0
    } else {
        ideographs(s.drop_last()) + if '\u{4E00}' <= s.last() <= '\u{9FFF}' {
            1nat
        } else {
            0nat
        }
    }
}

/// The estimated number of tokens of a text: two for three ideographs, one for
/// four other characters, each rounded up, and at least one.
pub open spec fn estimated_tokens(s: Seq<char>) -> int {
    let c = ideographs(s) as int;
    let o = s.len() - c;
    let t = (c * 2 + 2) / 3 + (o + 3) / 4;
    if t < 1 {
        1
    } else {
        t
    }
}

/// A text is never estimated at more tokens than it has characters, but for the
/// empty text, which counts for one.
pub proof fn law_estimate_bounds(s: Seq<char>)
    ensures
        1 <= estimated_tokens(s),
        s.len() > 0 ==> estimated_tokens(s) <= s.len(),
        ideographs(s) <= s.len(),
    decreases s.len(),
{
    lemma_ideographs_bound(s);
}

proof fn lemma_ideographs_bound(s: Seq<char>)
    ensures
        ideographs(s) <= s.len(),
    decreases s.len(),
{
    if s.len() > 0 {
        lemma_ideographs_bound(s.drop_last());
    }
}

/// Estimates the number of tokens of a text.
pub fn estimate_tokens(text: &str) -> (r: i32)
    requires
        ideographs(text@) * 2 + 2 <= i32::MAX,
        text@.len() - ideographs(text@) + 3 <= i32::MAX,
    ensures
        r == estimated_tokens(text@),
{
    let chars: Vec<char> = text::chars_of(text);
    let n: usize = chars.len();
    let mut chinese_count: i32 = 0;
    let mut other_count: i32 = 0;
    let mut i: usize = 0;
    assert(chars@.take(0) =~= Seq::<char>::empty());
    while i < n
        invariant
            i <= n,
            n == chars@.len(),
            chars@ == text@,
            ideographs(text@) * 2 + 2 <= i32::MAX,
            text@.len() - ideographs(text@) + 3 <= i32::MAX,
            chinese_count == ideographs(chars@.take(i as int)),
            other_count == i - chinese_count,
            0 <= chinese_count,
            0 <= other_count,
        decreases n - i,
    {
        proof {
            assert(chars@.take(i + 1).drop_last() =~= chars@.take(i as int));
            lemma_ideographs_monotone(chars@, i + 1);
        }
        let c: char = chars[i];
        if '\u{4E00}' <= c && c <= '\u{9FFF}' {
            chinese_count = chinese_count + 1;
        } else {
            other_count = other_count + 1;
        }
        i = i + 1;
    }
    assert(chars@.take(n as int) =~= chars@);
    let chinese_tokens: i32 = (chinese_count * 2 + 2) / 3;
    let other_tokens: i32 = (other_count + 3) / 4;
    assert(chinese_tokens == (ideographs(text@) * 2 + 2) / 3);
    assert(other_tokens == (text@.len() - ideographs(text@) + 3) / 4);
    let total: i32 = chinese_tokens + other_tokens;
    if total < 1 {
        1
    } else {
        total
    }
}

/// Whether the number of tokens of a text can be estimated without a count
/// leaving the range of an `i32`.
pub fn can_estimate(text: &str) -> (r: bool)
    ensures
        r == (ideographs(text@) * 2 + 2 <= i32::MAX && text@.len() - ideographs(text@) + 3
            <= i32::MAX),
{
    let chars: Vec<char> = text::chars_of(text);
    let n: usize = chars.len();
    let mut count: usize = 0;
    let mut i: usize = 0;
    assert(chars@.take(0) =~= Seq::<char>::empty());
    while i < n
        invariant
            i <= n,
            n == chars@.len(),
            count <= i,
            count == ideographs(chars@.take(i as int)),
        decreases n - i,
    {
        assert(chars@.take(i + 1).drop_last() =~= chars@.take(i as int));
        let c: char = chars[i];
        if '\u{4E00}' <= c && c <= '\u{9FFF}' {
            count = count + 1;
        }
        i = i + 1;
    }
    assert(chars@.take(n as int) =~= chars@);
    count <= 0x3fff_fffe && n - count <= 0x7fff_fffc
}

proof fn lemma_ideographs_monotone(s: Seq<char>, k: int)
    requires
        0 <= k <= s.len(),
    ensures
        ideographs(s.take(k)) <= ideographs(s) <= ideographs(s.take(k)) + s.len() - k,
    decreases s.len() - k,
{
    if k == s.len() {
        assert(s.take(k) =~= s);
    } else {
        lemma_ideographs_monotone(s, k + 1);
        assert(s.take(k + 1).drop_last() =~= s.take(k));
    }
}

/// More text is never estimated at fewer tokens. Text without ideographs counts for a token in
/// four characters, and text of ideographs alone for two in three, both rounded up.
pub proof fn law_estimate_grows(s: Seq<char>, c: char)
    ensures
        estimated_tokens(s) <= estimated_tokens(s.push(c)) <= estimated_tokens(s) + 1,
        s.len() > 0 && ideographs(s) == 0 ==> 4 * estimated_tokens(s) >= s.len() && 4 * (
        estimated_tokens(s) - 1) < s.len(),
        s.len() > 0 && ideographs(s) == s.len() ==> 3 * estimated_tokens(s) >= 2 * s.len() && 3 * (
        estimated_tokens(s) - 1) < 2 * s.len(),
{
    assert(s.push(c).drop_last() =~= s);
    lemma_ideographs_bound(s);
}

/// The characters that quote a tag, so that it is none.
pub open spec fn quoting() -> Seq<char> {
    "`\"'\\#!@$%^&*()-_=+[]{};:<>,.?/"@
}

/// A tag next to one of these characters is quoted, and next to any other it is not.
pub proof fn law_quoting_characters(c: char)
    ensures
        is_quote(c) <==> quoting().contains(c),
{
    reveal_strlit("`\"'\\#!@$%^&*()-_=+[]{};:<>,.?/");
    let s = quoting();
    assert(s.len() == 30);
    assert(s[0] as u32 == 0x60);
    assert(s[1] as u32 == 0x22);
    assert(s[2] as u32 == 0x27);
    assert(s[3] as u32 == 0x5c);
    assert(s[4] as u32 == 0x23);
    assert(s[5] as u32 == 0x21);
    assert(s[6] as u32 == 0x40);
    assert(s[7] as u32 == 0x24);
    assert(s[8] as u32 == 0x25);
    assert(s[9] as u32 == 0x5e);
    assert(s[10] as u32 == 0x26);
    assert(s[11] as u32 == 0x2a);
    assert(s[12] as u32 == 0x28);
    assert(s[13] as u32 == 0x29);
    assert(s[14] as u32 == 0x2d);
    assert(s[15] as u32 == 0x5f);
    assert(s[16] as u32 == 0x3d);
    assert(s[17] as u32 == 0x2b);
    assert(s[18] as u32 == 0x5b);
    assert(s[19] as u32 == 0x5d);
    assert(s[20] as u32 == 0x7b);
    assert(s[21] as u32 == 0x7d);
    assert(s[22] as u32 == 0x3b);
    assert(s[23] as u32 == 0x3a);
    assert(s[24] as u32 == 0x3c);
    assert(s[25] as u32 == 0x3e);
    assert(s[26] as u32 == 0x2c);
    assert(s[27] as u32 == 0x2e);
    assert(s[28] as u32 == 0x3f);
    assert(s[29] as u32 == 0x2f);
    if is_quote(c) {
        let n = c as u32;
        assert(c as u8 == n);
        assert(exists|i: int| 0 <= i < 30 && #[trigger] s[i] as u32 == n);
        let i = choose|i: int| 0 <= i < 30 && #[trigger] s[i] as u32 == n;
        assert(s[i] == c);
    }
    if s.contains(c) {
        let i = choose|i: int| 0 <= i < s.len() && s[i] == c;
        assert(is_quote(s[i]));
    }
}

/// A character counts as an ideograph from U+4E00 to U+9FFF, and each counts once.
pub proof fn law_ideographs_are_counted(s: Seq<char>, c: char)
    ensures
        ideographs(Seq::empty()) == 0,
        0x4e00 <= c as u32 <= 0x9fff ==> ideographs(s.push(c)) == ideographs(s) + 1,
        !(0x4e00 <= c as u32 <= 0x9fff) ==> ideographs(s.push(c)) == ideographs(s),
{
    assert(s.push(c).drop_last() =~= s);
}

/// A tag is a tag only where neither the character before it nor the one behind it quotes it. The
/// closing tag must have an empty line behind it, or, at the end of a text, nothing but white
/// space.
pub proof fn law_tags(s: Seq<char>, k: int)
    ensures
        start_tag_at(s, k) <==> {
            &&& 0 <= k && k + 10 <= s.len()
            &&& s.subrange(k, k + 10) == "<thinking>"@
            &&& k > 0 ==> !quoting().contains(s[k - 1])
            &&& k + 10 < s.len() ==> !quoting().contains(s[k + 10])
        },
        end_tag_at(s, k) <==> {
            &&& 0 <= k && k + 13 <= s.len()
            &&& s.subrange(k, k + 11) == "</thinking>"@
            &&& k > 0 ==> !quoting().contains(s[k - 1])
            &&& s[k + 11] == '\n' && s[k + 12] == '\n'
        },
        last_end_tag_at(s, k) <==> {
            &&& 0 <= k && k + 11 <= s.len()
            &&& s.subrange(k, k + 11) == "</thinking>"@
            &&& k > 0 ==> !quoting().contains(s[k - 1])
            &&& forall|i: int| k + 11 <= i < s.len() ==> text::is_white(#[trigger] s[i])
        },
{
    lemma_tag_lengths();
    reveal_strlit("\n\n");
    if k > 0 {
        law_quoting_characters(s[k - 1]);
    }
    law_quoting_characters(s[k + 10]);
    law_quoting_characters(s[k + 11]);
    law_quoting_characters('\n');
    if 0 <= k && k + 13 <= s.len() {
        let gap = s.subrange(k + 11, k + 13);
        if s[k + 11] == '\n' && s[k + 12] == '\n' {
            assert(gap =~= "\n\n"@);
        }
        if gap == "\n\n"@ {
            assert(gap[0] == s[k + 11] && gap[1] == s[k + 12]);
        }
    }
    if 0 <= k && k + 11 <= s.len() {
        let rest = s.skip(k + 11);
        if text::all_white(rest) {
            assert forall|i: int| k + 11 <= i < s.len() implies text::is_white(#[trigger] s[i]) by {
                assert(rest[i - k - 11] == s[i]);
            }
        }
        if forall|i: int| k + 11 <= i < s.len() ==> text::is_white(#[trigger] s[i]) {
            assert forall|i: int| 0 <= i < rest.len() implies text::is_white(#[trigger] rest[i]) by {
                assert(rest[i] == s[k + 11 + i]);
            }
            if k + 11 < s.len() {
                assert(text::is_white(s[k + 11]));
                lemma_white_quotes_nothing(s[k + 11]);
            }
        }
    }
}

proof fn lemma_white_quotes_nothing(c: char)
    requires
        text::is_white(c),
    ensures
        !is_quote(c),
{
    if is_quote(c) {
        let n = c as u32;
        assert(c as u8 == n);
    }
}

} // verus!
