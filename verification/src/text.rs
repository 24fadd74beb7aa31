//! Text helpers: character sequences, UTF-8 offsets, white space, decimal numbers.
//!
//! A text is modelled by its sequence of characters (`s@`). Where an offset in
//! bytes is wanted, it is the length of the UTF-8 encoding of a prefix.

use vstd::prelude::*;
use vstd::utf8::*;
use vstd::string::*;

verus! {

/// `String::push` appends one character.
pub assume_specification[ String::push ](s: &mut String, ch: char)
    ensures
        final(s)@ == old(s)@.push(ch),
;

/// The number of bytes that a character sequence takes in UTF-8.
pub open spec fn byte_len(s: Seq<char>) -> nat {
    encode_utf8(s).len()
}

/// The encoding of a concatenation is the concatenation of the encodings.
pub proof fn lemma_encode_concat(a: Seq<char>, b: Seq<char>)
    ensures
        encode_utf8(a + b) == encode_utf8(a) + encode_utf8(b),
    decreases a.len(),
{
    if a.len() == 0 {
        assert(a + b =~= b);
        assert(encode_utf8(a) + encode_utf8(b) =~= encode_utf8(b));
    } else {
        let rest: Seq<char> = a.drop_first();
        assert((a + b).drop_first() =~= rest + b);
        lemma_encode_concat(rest, b);
        assert(encode_utf8(a + b) =~= encode_scalar(a[0] as u32) + (encode_utf8(rest) + encode_utf8(b)));
    }
}

/// A character takes between one and four bytes.
pub proof fn lemma_char_width(c: char)
    ensures
        1 <= encode_scalar(c as u32).len() <= 4,
        byte_len(seq![c]) == encode_scalar(c as u32).len(),
        (c as u32) <= 0x7f <==> byte_len(seq![c]) == 1,
{
    reveal_with_fuel(encode_utf8, 2);
    assert(seq![c].drop_first() =~= Seq::<char>::empty());
    assert(encode_utf8(seq![c]) =~= encode_scalar(c as u32));
}

/// The byte length of a text is that of its two parts together.
pub proof fn lemma_byte_len_split(s: Seq<char>, k: int)
    requires
        0 <= k <= s.len(),
    ensures
        byte_len(s) == byte_len(s.take(k)) + byte_len(s.skip(k)),
{
    assert(s =~= s.take(k) + s.skip(k));
    lemma_encode_concat(s.take(k), s.skip(k));
}

/// A longer prefix takes more bytes.
pub proof fn lemma_prefix_bytes(s: Seq<char>, i: int, j: int)
    requires
        0 <= i <= j <= s.len(),
    ensures
        byte_len(s.take(i)) + (j - i) <= byte_len(s.take(j)) <= byte_len(s.take(i)) + 4 * (j - i),
    decreases j - i,
{
    if i < j {
        lemma_prefix_bytes(s, i, j - 1);
        lemma_prefix_step(s, j - 1);
        lemma_char_width(s[j - 1]);
    }
}

/// One more character adds its own width.
pub proof fn lemma_prefix_step(s: Seq<char>, i: int)
    requires
        0 <= i < s.len(),
    ensures
        byte_len(s.take(i + 1)) == byte_len(s.take(i)) + byte_len(seq![s[i]]),
{
    assert(s.take(i + 1) =~= s.take(i) + seq![s[i]]);
    lemma_encode_concat(s.take(i), seq![s[i]]);
}

/// Two texts with the same encoding are the same text.
pub proof fn lemma_encode_injective(a: Seq<char>, b: Seq<char>)
    requires
        encode_utf8(a) == encode_utf8(b),
    ensures
        a == b,
{
    encode_utf8_decode_utf8(a);
    encode_utf8_decode_utf8(b);
}

/// The width in bytes of a character.
pub fn char_width(c: char) -> (n: usize)
    ensures
        n == byte_len(seq![c]),
        1 <= n <= 4,
{
    proof {
        lemma_char_width(c);
    }
    let u: u32 = c as u32;
    if u <= 0x7f {
        1
    } else if u <= 0x7ff {
        2
    } else if u <= 0xffff {
        3
    } else {
        4
    }
}

/// The characters of a text.
pub fn chars_of(s: &str) -> (v: Vec<char>)
    ensures
        v@ == s@,
{
    let mut v: Vec<char> = Vec::new();
    for c in it: s.chars()
        invariant
            v@ == it.seq().take(it.index()),
            it.seq() == s@,
    {
        v.push(c);
    }
    v
}

/// The text made of the characters `v[from..to]`.
pub fn string_of(v: &Vec<char>, from: usize, to: usize) -> (s: String)
    requires
        from <= to <= v@.len(),
    ensures
        s@ == v@.subrange(from as int, to as int),
{
    let mut s = String::new();
    let mut i: usize = from;
    while i < to
        invariant
            from <= i <= to <= v@.len(),
            s@ == v@.subrange(from as int, i as int),
        decreases to - i,
    {
        s.push(v[i]);
        i = i + 1;
        assert(s@ =~= v@.subrange(from as int, i as int));
    }
    s
}

/// The characters `v[from..]`.
pub fn tail_of(v: &Vec<char>, from: usize) -> (w: Vec<char>)
    requires
        from <= v@.len(),
    ensures
        w@ == v@.skip(from as int),
{
    let mut w: Vec<char> = Vec::new();
    let mut i: usize = from;
    while i < v.len()
        invariant
            from <= i <= v@.len(),
            w@ == v@.subrange(from as int, i as int),
        decreases v@.len() - i,
    {
        w.push(v[i]);
        i = i + 1;
        assert(w@ =~= v@.subrange(from as int, i as int));
    }
    assert(w@ =~= v@.skip(from as int));
    w
}

/// Whether two texts are equal.
pub fn str_eq(a: &str, b: &str) -> (r: bool)
    ensures
        r == (a@ == b@),
{
    let x: &[u8] = a.as_bytes();
    let y: &[u8] = b.as_bytes();
    if x.len() != y.len() {
        return false;
    }
    let mut i: usize = 0;
    while i < x.len()
        invariant
            x@.len() == y@.len(),
            i <= x@.len(),
            x@ == encode_utf8(a@),
            y@ == encode_utf8(b@),
            forall|j: int| 0 <= j < i ==> x@[j] == y@[j],
        decreases x@.len() - i,
    {
        if x[i] != y[i] {
            assert(x@[i as int] != y@[i as int]);
            return false;
        }
        i = i + 1;
    }
    proof {
        assert(x@ =~= y@);
        lemma_encode_injective(a@, b@);
    }
    true
}

/// The least `j` in `from..to` with `p(j)`.
pub open spec fn search(p: spec_fn(int) -> bool, from: int, to: int) -> Option<int>
    decreases to - from,
{
    if from >= to {
        None
    } else if p(from) {
        Some(from)
    } else {
        search(p, from + 1, to)
    }
}

/// `search` finds the least position at which the predicate holds, and fails
/// only where it holds nowhere.
pub proof fn lemma_search(p: spec_fn(int) -> bool, from: int, to: int)
    ensures
        match search(p, from, to) {
            Some(j) => from <= j < to && p(j) && (forall|m: int| from <= m < j ==> !(#[trigger] p(m))),
            None => forall|m: int| from <= m < to ==> !(#[trigger] p(m)),
        },
    decreases to - from,
{
    if from < to && !p(from) {
        lemma_search(p, from + 1, to);
    }
}

/// The least position at which a predicate holds is found.
pub proof fn lemma_search_first(p: spec_fn(int) -> bool, from: int, to: int, k: int)
    requires
        from <= k < to,
        p(k),
        forall|j: int| from <= j < k ==> !(#[trigger] p(j)),
    ensures
        search(p, from, to) == Some(k),
{
    lemma_search(p, from, to);
}

/// Where a predicate holds nowhere, nothing is found.
pub proof fn lemma_search_none(p: spec_fn(int) -> bool, from: int, to: int)
    requires
        forall|j: int| from <= j < to ==> !(#[trigger] p(j)),
    ensures
        search(p, from, to) is None,
{
    lemma_search(p, from, to);
}

/// The characters with the Unicode property `White_Space`.
pub open spec fn is_white(c: char) -> bool {
    let u: u32 = c as u32;
    ||| 0x09 <= u <= 0x0d
    ||| u == 0x20
    ||| u == 0x85
    ||| u == 0xa0
    ||| u == 0x1680
    ||| 0x2000 <= u <= 0x200a
    ||| u == 0x2028
    ||| u == 0x2029
    ||| u == 0x202f
    ||| u == 0x205f
    ||| u == 0x3000
}

/// Whether a text holds nothing but white space.
pub open spec fn all_white(s: Seq<char>) -> bool {
    forall|i: int| 0 <= i < s.len() ==> is_white(#[trigger] s[i])
}

/// A text without its leading white space.
pub open spec fn trim_start(s: Seq<char>) -> Seq<char>
    decreases s.len(),
{
    if s.len() > 0 && is_white(s[0]) {
        trim_start(s.drop_first())
    } else {
        s
    }
}

/// A text without its trailing white space.
pub open spec fn trim_end(s: Seq<char>) -> Seq<char>
    decreases s.len(),
{
    if s.len() > 0 && is_white(s.last()) {
        trim_end(s.drop_last())
    } else {
        s
    }
}

/// A text without white space at either end.
pub open spec fn trim(s: Seq<char>) -> Seq<char> {
    trim_end(trim_start(s))
}

/// Whether `t` is what stands between the white space at both ends of `s`.
pub open spec fn stripped(s: Seq<char>, t: Seq<char>) -> bool {
    &&& t.len() > 0 ==> !is_white(t[0]) && !is_white(t.last())
    &&& exists|a: int, b: int|
        0 <= a <= b <= s.len() && t == #[trigger] s.subrange(a, b) && all_white(s.take(a))
            && all_white(s.skip(b))
}

/// A text is trimmed of all the white space at its ends, and of nothing else. What is left
/// of it is blank only where all of it is.
pub proof fn law_trim(s: Seq<char>)
    ensures
        stripped(s, trim(s)),
        all_white(s) <==> trim(s).len() == 0,
{
    let a = lemma_trim_start(s);
    let t = trim_start(s);
    let n = lemma_trim_end(t);
    let b = a + n;
    assert(s.subrange(a, b) =~= t.take(n));
    assert(trim(s) == s.subrange(a, b));
    assert forall|i: int| 0 <= i < s.skip(b).len() implies is_white(#[trigger] s.skip(b)[i]) by {
        assert(s.skip(b)[i] == t.skip(n)[i]);
    }
    if all_white(s) {
        lemma_trim_start_white(s);
    }
    if trim(s).len() == 0 {
        assert forall|i: int| 0 <= i < s.len() implies is_white(#[trigger] s[i]) by {
            if i < a {
                assert(s.take(a)[i] == s[i]);
            } else {
                assert(s.skip(b)[i - b] == s[i]);
            }
        }
    }
}

pub proof fn lemma_trim_start(s: Seq<char>) -> (a: int)
    ensures
        0 <= a <= s.len(),
        trim_start(s) == s.skip(a),
        all_white(s.take(a)),
        trim_start(s).len() > 0 ==> !is_white(trim_start(s)[0]),
    decreases s.len(),
{
    if s.len() > 0 && is_white(s[0]) {
        let b = lemma_trim_start(s.drop_first());
        assert(s.drop_first().skip(b) =~= s.skip(b + 1));
        assert forall|i: int| 0 <= i < s.take(b + 1).len() implies is_white(
            #[trigger] s.take(b + 1)[i],
        ) by {
            if i > 0 {
                assert(s.take(b + 1)[i] == s.drop_first().take(b)[i - 1]);
            }
        }
        b + 1
    } else {
        assert(s.skip(0) =~= s);
        0
    }
}

proof fn lemma_trim_end(s: Seq<char>) -> (n: int)
    ensures
        0 <= n <= s.len(),
        trim_end(s) == s.take(n),
        all_white(s.skip(n)),
        trim_end(s).len() > 0 ==> !is_white(trim_end(s).last()),
    decreases s.len(),
{
    if s.len() > 0 && is_white(s.last()) {
        let n = lemma_trim_end(s.drop_last());
        assert(s.drop_last().take(n) =~= s.take(n));
        assert forall|i: int| 0 <= i < s.skip(n).len() implies is_white(
            #[trigger] s.skip(n)[i],
        ) by {
            if i < s.len() - 1 - n {
                assert(s.skip(n)[i] == s.drop_last().skip(n)[i]);
            }
        }
        n
    } else {
        assert(s.take(s.len() as int) =~= s);
        s.len() as int
    }
}

/// Nothing remains of white space once its start is trimmed, and only then.
pub proof fn lemma_trim_start_white(s: Seq<char>)
    ensures
        all_white(s) <==> trim_start(s).len() == 0,
    decreases s.len(),
{
    if s.len() > 0 && is_white(s[0]) {
        lemma_trim_start_white(s.drop_first());
        if all_white(s.drop_first()) {
            assert forall|i: int| 0 <= i < s.len() implies is_white(#[trigger] s[i]) by {
                if i > 0 {
                    assert(s[i] == s.drop_first()[i - 1]);
                }
            }
        }
        if all_white(s) {
            assert forall|i: int| 0 <= i < s.drop_first().len() implies is_white(
                #[trigger] s.drop_first()[i],
            ) by {
                assert(s.drop_first()[i] == s[i + 1]);
            }
        }
    }
}

/// `char::is_whitespace`, written out.
pub fn is_whitespace(c: char) -> (r: bool)
    ensures
        r == is_white(c),
{
    let u: u32 = c as u32;
    (0x09 <= u && u <= 0x0d) || u == 0x20 || u == 0x85 || u == 0xa0 || u == 0x1680 || (0x2000 <= u
        && u <= 0x200a) || u == 0x2028 || u == 0x2029 || u == 0x202f || u == 0x205f || u == 0x3000
}

/// Whether `v[from..]` holds nothing but white space.
pub fn white_from(v: &Vec<char>, from: usize) -> (r: bool)
    requires
        from <= v@.len(),
    ensures
        r == all_white(v@.skip(from as int)),
{
    let mut i: usize = from;
    while i < v.len()
        invariant
            from <= i <= v@.len(),
            forall|j: int| 0 <= j < i - from ==> is_white(#[trigger] v@.skip(from as int)[j]),
        decreases v@.len() - i,
    {
        if !is_whitespace(v[i]) {
            assert(v@.skip(from as int)[i - from] == v@[i as int]);
            return false;
        }
        i = i + 1;
    }
    true
}

/// Whether a text holds nothing but white space.
pub fn is_blank(s: &str) -> (r: bool)
    ensures
        r == all_white(s@),
{
    let v: Vec<char> = chars_of(s);
    assert(v@.skip(0) =~= v@);
    white_from(&v, 0)
}

/// The position of the first character of `v[from..]` that is no white space.
pub fn skip_white(v: &Vec<char>, from: usize) -> (k: usize)
    requires
        from <= v@.len(),
    ensures
        from <= k <= v@.len(),
        v@.skip(k as int) == trim_start(v@.skip(from as int)),
{
    let mut i: usize = from;
    while i < v.len() && is_whitespace(v[i])
        invariant
            from <= i <= v@.len(),
            trim_start(v@.skip(i as int)) == trim_start(v@.skip(from as int)),
        decreases v@.len() - i,
    {
        assert(v@.skip(i as int).drop_first() =~= v@.skip(i + 1));
        i = i + 1;
    }
    i
}

/// Whether `pat` stands in `s` at position `k`.
pub open spec fn occurs_at(s: Seq<char>, pat: Seq<char>, k: int) -> bool {
    0 <= k && k + pat.len() <= s.len() && s.subrange(k, k + pat.len()) == pat
}

/// Whether `pat` stands in `v` at position `k`.
pub fn matches_at(v: &Vec<char>, pat: &Vec<char>, k: usize) -> (r: bool)
    requires
        k <= v@.len(),
    ensures
        r == occurs_at(v@, pat@, k as int),
{
    let n: usize = v.len();
    if pat.len() > n - k {
        return false;
    }
    let mut i: usize = 0;
    while i < pat.len()
        invariant
            i <= pat@.len(),
            n == v@.len(),
            k + pat@.len() <= n,
            forall|j: int| 0 <= j < i ==> v@[k + j] == #[trigger] pat@[j],
        decreases pat@.len() - i,
    {
        if v[k + i] != pat[i] {
            assert(v@.subrange(k as int, k + pat@.len())[i as int] != pat@[i as int]);
            return false;
        }
        i = i + 1;
    }
    assert(v@.subrange(k as int, k + pat@.len()) =~= pat@);
    true
}

/// The number of characters of the longest prefix that fits in `bytes` bytes.
pub open spec fn chars_within(s: Seq<char>, bytes: nat) -> int
    decreases s.len(),
{
    if s.len() == 0 || byte_len(s) <= bytes {
        s.len() as int
    } else {
        chars_within(s.drop_last(), bytes)
    }
}

/// What makes a prefix the longest one that fits.
pub proof fn lemma_chars_within(s: Seq<char>, bytes: nat, k: int)
    requires
        0 <= k <= s.len(),
        byte_len(s.take(k)) <= bytes,
        k == s.len() || byte_len(s.take(k + 1)) > bytes,
    ensures
        chars_within(s, bytes) == k,
    decreases s.len(),
{
    assert(s.take(s.len() as int) =~= s);
    if k < s.len() {
        lemma_prefix_bytes(s, k + 1, s.len() as int);
        let t: Seq<char> = s.drop_last();
        assert(t.take(k) =~= s.take(k));
        if k < t.len() {
            assert(t.take(k + 1) =~= s.take(k + 1));
        }
        lemma_chars_within(t, bytes, k);
    }
}

/// The number of characters of the longest prefix of `v` that fits in `bytes` bytes.
pub fn fitting_chars(v: &Vec<char>, bytes: usize) -> (k: usize)
    ensures
        k == chars_within(v@, bytes as nat),
        k <= v@.len(),
{
    let mut k: usize = 0;
    let mut used: usize = 0;
    assert(v@.take(0) =~= Seq::<char>::empty());
    while k < v.len()
        invariant
            k <= v@.len(),
            used == byte_len(v@.take(k as int)),
            used <= bytes,
        decreases v@.len() - k,
    {
        let w: usize = char_width(v[k]);
        proof {
            lemma_prefix_step(v@, k as int);
        }
        if w > bytes - used {
            proof {
                lemma_chars_within(v@, bytes as nat, k as int);
            }
            return k;
        }
        used = used + w;
        k = k + 1;
    }
    proof {
        lemma_chars_within(v@, bytes as nat, k as int);
    }
    k
}

/// The offset in bytes of the `k`-th character of `s`, whose characters are `v`.
pub fn byte_offset(s: &str, v: &Vec<char>, k: usize) -> (n: usize)
    requires
        v@ == s@,
        k <= v@.len(),
    ensures
        n == byte_len(s@.take(k as int)),
{
    let total: usize = s.as_bytes().len();
    let mut i: usize = 0;
    let mut n: usize = 0;
    assert(v@.take(0) =~= Seq::<char>::empty());
    while i < k
        invariant
            i <= k <= v@.len(),
            n == byte_len(v@.take(i as int)),
            total == byte_len(v@),
        decreases k - i,
    {
        proof {
            lemma_prefix_step(v@, i as int);
            lemma_prefix_bytes(v@, i + 1, v@.len() as int);
            assert(v@.take(v@.len() as int) =~= v@);
        }
        n = n + char_width(v[i]);
        i = i + 1;
    }
    n
}

/// The character for a digit below ten.
pub open spec fn digit_char(d: nat) -> char {
    (0x30 + d) as char
}

/// The decimal writing of a natural number, without leading zeros.
pub open spec fn digits(n: nat) -> Seq<char>
    decreases n,
{
    if n < 10 {
        seq![digit_char(n)]
    } else {
        digits(n / 10).push(digit_char(n % 10))
    }
}

/// The decimal writing of an integer.
pub open spec fn decimal(n: int) -> Seq<char> {
    if n < 0 {
        seq!['-'] + digits((-n) as nat)
    } else {
        digits(n as nat)
    }
}

fn digit_of(d: u64) -> (c: char)
    requires
        d < 10,
    ensures
        c == digit_char(d as nat),
{
    if d == 0 {
        '0'
    } else if d == 1 {
        '1'
    } else if d == 2 {
        '2'
    } else if d == 3 {
        '3'
    } else if d == 4 {
        '4'
    } else if d == 5 {
        '5'
    } else if d == 6 {
        '6'
    } else if d == 7 {
        '7'
    } else if d == 8 {
        '8'
    } else {
        '9'
    }
}

/// Appends the decimal writing of a number.
pub fn push_u64(s: &mut String, n: u64)
    ensures
        final(s)@ == old(s)@ + digits(n as nat),
    decreases n,
{
    if n >= 10 {
        push_u64(s, n / 10);
    }
    s.push(digit_of(n % 10));
    assert(s@ =~= old(s)@ + digits(n as nat));
}

/// Appends the decimal writing of a number.
pub fn push_i64(s: &mut String, n: i64)
    ensures
        final(s)@ == old(s)@ + decimal(n as int),
{
    if n < 0 {
        s.push('-');
        let m: u64 = if n == i64::MIN {
            9223372036854775808
        } else {
            (-n) as u64
        };
        push_u64(s, m);
        assert(s@ =~= old(s)@ + decimal(n as int));
    } else {
        push_u64(s, n as u64);
    }
}

/// The decimal writing of a number.
pub fn u64_text(n: u64) -> (s: String)
    ensures
        s@ == digits(n as nat),
{
    let mut s = String::new();
    push_u64(&mut s, n);
    assert(s@ =~= digits(n as nat));
    s
}

/// Whether `pat` stands somewhere in `s`.
pub open spec fn has_text(s: Seq<char>, pat: Seq<char>) -> bool {
    exists|k: int| 0 <= k <= s.len() && #[trigger] occurs_at(s, pat, k)
}

/// Whether `s` begins with `pat`.
pub open spec fn begins_with(s: Seq<char>, pat: Seq<char>) -> bool {
    occurs_at(s, pat, 0)
}

/// Whether `pat` stands somewhere in `s`.
pub fn contains(s: &str, pat: &str) -> (r: bool)
    ensures
        r == has_text(s@, pat@),
{
    let v: Vec<char> = chars_of(s);
    let p: Vec<char> = chars_of(pat);
    let n: usize = v.len();
    let mut k: usize = 0;
    while k < n
        invariant
            k <= n,
            n == v@.len(),
            v@ == s@,
            p@ == pat@,
            forall|j: int| 0 <= j < k ==> !(#[trigger] occurs_at(s@, pat@, j)),
        decreases n - k,
    {
        if matches_at(&v, &p, k) {
            return true;
        }
        k = k + 1;
    }
    matches_at(&v, &p, n)
}

/// Whether `s` begins with `pat`.
pub fn starts_with(s: &str, pat: &str) -> (r: bool)
    ensures
        r == begins_with(s@, pat@),
{
    let v: Vec<char> = chars_of(s);
    let p: Vec<char> = chars_of(pat);
    matches_at(&v, &p, 0)
}

/// A text without white space at either end.
pub fn trimmed(s: &str) -> (r: String)
    ensures
        r@ == trim(s@),
{
    let v: Vec<char> = chars_of(s);
    assert(v@.skip(0) =~= v@);
    let from: usize = skip_white(&v, 0);
    let mut to: usize = v.len();
    let ghost t = v@.skip(from as int);
    assert(v@.subrange(from as int, to as int) =~= t);
    while to > from && is_whitespace(v[to - 1])
        invariant
            from <= to <= v@.len(),
            trim_end(v@.subrange(from as int, to as int)) == trim_end(t),
        decreases to,
    {
        assert(v@.subrange(from as int, to as int).drop_last() =~= v@.subrange(
            from as int,
            to - 1,
        ));
        to = to - 1;
    }
    string_of(&v, from, to)
}

/// The value of a decimal writing, the last digit being worth one.
pub open spec fn digits_value(s: Seq<char>) -> nat
    decreases s.len(),
{
    if s.len() == 0 {
        0
    } else {
        digits_value(s.drop_last()) * 10 + (s.last() as nat - 0x30) as nat
    }
}

/// Whether a text is made of decimal digits.
pub open spec fn all_digits(s: Seq<char>) -> bool {
    forall|i: int| 0 <= i < s.len() ==> '0' <= #[trigger] s[i] <= '9'
}

/// The number that a text writes: digits, with a plus sign before them or not, of
/// a value that fits in 64 bits.
pub open spec fn number_of(s: Seq<char>) -> Option<nat> {
    let d = if s.len() > 0 && s[0] == '+' {
        s.skip(1)
    } else {
        s
    };
    if d.len() > 0 && all_digits(d) && digits_value(d) <= u64::MAX {
        Some(digits_value(d))
    } else {
        None
    }
}

proof fn lemma_digits_value_monotone(s: Seq<char>, k: int)
    requires
        0 <= k <= s.len(),
    ensures
        digits_value(s.take(k)) <= digits_value(s),
    decreases s.len() - k,
{
    if k == s.len() {
        assert(s.take(k) =~= s);
    } else {
        lemma_digits_value_monotone(s, k + 1);
        assert(s.take(k + 1).drop_last() =~= s.take(k));
    }
}

/// Reads a number; see [`number_of`].
pub fn parse_u64(s: &str) -> (r: Option<u64>)
    ensures
        match r {
            Some(n) => number_of(s@) == Some(n as nat),
            None => number_of(s@) is None,
        },
{
    let all: Vec<char> = chars_of(s);
    let v: Vec<char> = if all.len() > 0 && all[0] == '+' {
        tail_of(&all, 1)
    } else {
        all
    };
    let n: usize = v.len();
    if n == 0 {
        return None;
    }
    let mut value: u64 = 0;
    let mut i: usize = 0;
    assert(v@.take(0) =~= Seq::<char>::empty());
    while i < n
        invariant
            i <= n,
            n == v@.len(),
            n > 0,
            value == digits_value(v@.take(i as int)),
            forall|j: int| 0 <= j < i ==> '0' <= #[trigger] v@[j] <= '9',
            number_of(s@) == (if all_digits(v@) && digits_value(v@) <= u64::MAX {
                Some(digits_value(v@))
            } else {
                None
            }),
        decreases n - i,
    {
        let c: char = v[i];
        if !('0' <= c && c <= '9') {
            assert(!all_digits(v@));
            return None;
        }
        let d: u64 = (c as u32 - 0x30) as u64;
        proof {
            assert(v@.take(i + 1).drop_last() =~= v@.take(i as int));
            lemma_digits_value_monotone(v@, i + 1);
        }
        if value > 1844674407370955161 || (value == 1844674407370955161 && d > 5) {
            return None;
        }
        value = value * 10 + d;
        i = i + 1;
    }
    assert(v@.take(n as int) =~= v@);
    Some(value)
}

/// What is written is what is read: the decimal writing of a number that fits in 64
/// bits reads as that number.
pub proof fn law_digits_read_back(n: nat)
    requires
        n <= u64::MAX,
    ensures
        number_of(digits(n)) == Some(n),
{
    lemma_digits_read_back(n);
}

proof fn lemma_digits_read_back(n: nat)
    ensures
        digits(n).len() > 0,
        all_digits(digits(n)),
        digits_value(digits(n)) == n,
    decreases n,
{
    reveal_with_fuel(digits_value, 2);
    if n >= 10 {
        lemma_digits_read_back(n / 10);
        assert(digits(n).drop_last() =~= digits(n / 10));
    } else {
        assert(digits(n).drop_last() =~= Seq::<char>::empty());
    }
}

/// The lines of a text: what stands between its newlines.
pub open spec fn lines(s: Seq<char>) -> Seq<Seq<char>>
    decreases s.len(),
{
    if s.len() == 0 {
        seq![Seq::empty()]
    } else {
        let head = lines(s.drop_last());
        if s.last() == '\n' {
            head.push(Seq::empty())
        } else {
            head.drop_last().push(head.last().push(s.last()))
        }
    }
}

/// The lines of a text; see [`lines`].
pub fn lines_of(s: &str) -> (r: Vec<String>)
    ensures
        r@.map_values(|l: String| l@) == lines(s@),
{
    let v: Vec<char> = chars_of(s);
    let n: usize = v.len();
    let mut done: Vec<String> = Vec::new();
    let mut line = String::new();
    let mut i: usize = 0;
    assert(v@.take(0) =~= Seq::<char>::empty());
    assert(done@.map_values(|l: String| l@).push(line@) =~= lines(v@.take(0)));
    while i < n
        invariant
            i <= n,
            n == v@.len(),
            done@.map_values(|l: String| l@).push(line@) == lines(v@.take(i as int)),
        decreases n - i,
    {
        assert(v@.take(i + 1).drop_last() =~= v@.take(i as int));
        let ghost before = done@.map_values(|l: String| l@);
        let ghost head = lines(v@.take(i as int));
        assert(head.drop_last() =~= before);
        assert(head.last() == line@);
        let c: char = v[i];
        if c == '\n' {
            let mut fresh = String::new();
            std::mem::swap(&mut line, &mut fresh);
            done.push(fresh);
            assert(done@.map_values(|l: String| l@) =~= before.push(fresh@));
        } else {
            line.push(c);
        }
        i = i + 1;
        assert(done@.map_values(|l: String| l@).push(line@) =~= lines(v@.take(i as int)));
    }
    assert(v@.take(n as int) =~= v@);
    let ghost before = done@.map_values(|l: String| l@);
    done.push(line);
    assert(done@.map_values(|l: String| l@) =~= before.push(line@));
    done
}

/// The longest end of a text that fits in `bytes` bytes.
pub open spec fn tail_within(s: Seq<char>, bytes: nat) -> Seq<char>
    decreases s.len(),
{
    if byte_len(s) <= bytes || s.len() == 0 {
        s
    } else {
        tail_within(s.drop_first(), bytes)
    }
}

/// Keeps the longest end of a text that fits in `bytes` bytes.
pub fn keep_tail(s: &str, bytes: usize) -> (r: String)
    ensures
        r@ == tail_within(s@, bytes as nat),
{
    let v: Vec<char> = chars_of(s);
    let n: usize = v.len();
    let mut left: usize = s.as_bytes().len();
    let mut k: usize = 0;
    assert(v@.skip(0) =~= v@);
    while k < n && left > bytes
        invariant
            k <= n,
            n == v@.len(),
            left == byte_len(v@.skip(k as int)),
            tail_within(v@.skip(k as int), bytes as nat) == tail_within(s@, bytes as nat),
        decreases n - k,
    {
        proof {
            let t = v@.skip(k as int);
            assert(t.drop_first() =~= v@.skip(k + 1));
            assert(t.take(1) =~= seq![v@[k as int]]);
            assert(t.skip(1) =~= v@.skip(k + 1));
            lemma_byte_len_split(t, 1);
        }
        left = left - char_width(v[k]);
        k = k + 1;
    }
    assert(v@.skip(k as int) =~= v@.subrange(k as int, n as int));
    string_of(&v, k, n)
}

/// The end that is kept fits, and is an end of the text.
pub proof fn lemma_tail_within(s: Seq<char>, bytes: nat)
    ensures
        byte_len(tail_within(s, bytes)) <= bytes,
        exists|k: int| 0 <= k <= s.len() && tail_within(s, bytes) == #[trigger] s.skip(k),
    decreases s.len(),
{
    if byte_len(s) <= bytes || s.len() == 0 {
        assert(s.skip(0) =~= s);
        if s.len() == 0 {
            assert(s =~= Seq::<char>::empty());
        }
    } else {
        lemma_tail_within(s.drop_first(), bytes);
        let k: int = choose|k: int|
            0 <= k <= s.len() - 1 && tail_within(s.drop_first(), bytes)
                == #[trigger] s.drop_first().skip(k);
        assert(s.drop_first().skip(k) =~= s.skip(k + 1));
    }
}

/// The view of a text that may be missing.
pub open spec fn opt_view(s: Option<String>) -> Option<Seq<char>> {
    match s {
        Some(t) => Some(t@),
        None => None,
    }
}

/// The same text again, if there is one.
pub fn clone_opt(s: &Option<String>) -> (r: Option<String>)
    ensures
        opt_view(r) == opt_view(*s),
{
    match s {
        Some(t) => Some(t.clone()),
        None => None,
    }
}

/// The view of pairs of texts.
pub open spec fn pairs_view(v: Seq<(String, String)>) -> Seq<(Seq<char>, Seq<char>)> {
    v.map_values(|p: (String, String)| (p.0@, p.1@))
}

/// Whether no key occurs twice.
pub open spec fn keys_distinct(pairs: Seq<(Seq<char>, Seq<char>)>) -> bool {
    forall|i: int, j: int|
        0 <= i < j < pairs.len() ==> (#[trigger] pairs[i]).0 != (#[trigger] pairs[j]).0
}

/// The value that belongs to a key.
pub open spec fn value_of(pairs: Seq<(Seq<char>, Seq<char>)>, key: Seq<char>) -> Option<Seq<char>>
    decreases pairs.len(),
{
    if pairs.len() == 0 {
        None
    } else if pairs.last().0 == key {
        Some(pairs.last().1)
    } else {
        value_of(pairs.drop_last(), key)
    }
}

/// A value that is found stands in some pair.
pub proof fn lemma_value_found(pairs: Seq<(Seq<char>, Seq<char>)>, key: Seq<char>) -> (i: int)
    requires
        value_of(pairs, key) is Some,
    ensures
        0 <= i < pairs.len(),
        pairs[i] == (key, value_of(pairs, key).unwrap()),
    decreases pairs.len(),
{
    if pairs.last().0 == key {
        pairs.len() - 1
    } else {
        lemma_value_found(pairs.drop_last(), key)
    }
}

pub proof fn lemma_value_at(pairs: Seq<(Seq<char>, Seq<char>)>, i: int)
    requires
        keys_distinct(pairs),
        0 <= i < pairs.len(),
    ensures
        value_of(pairs, pairs[i].0) == Some(pairs[i].1),
    decreases pairs.len(),
{
    if i < pairs.len() - 1 {
        lemma_value_at(pairs.drop_last(), i);
    }
}

proof fn lemma_no_value(pairs: Seq<(Seq<char>, Seq<char>)>, key: Seq<char>)
    requires
        forall|i: int| 0 <= i < pairs.len() ==> (#[trigger] pairs[i]).0 != key,
    ensures
        value_of(pairs, key) is None,
    decreases pairs.len(),
{
    if pairs.len() > 0 {
        lemma_no_value(pairs.drop_last(), key);
    }
}

proof fn lemma_value_updated(
    pairs: Seq<(Seq<char>, Seq<char>)>,
    i: int,
    value: Seq<char>,
    name: Seq<char>,
)
    requires
        keys_distinct(pairs),
        0 <= i < pairs.len(),
    ensures
        value_of(pairs.update(i, (pairs[i].0, value)), name) == if name == pairs[i].0 {
            Some(value)
        } else {
            value_of(pairs, name)
        },
    decreases pairs.len(),
{
    let next = pairs.update(i, (pairs[i].0, value));
    if name == pairs[i].0 {
        assert forall|a: int, b: int| 0 <= a < b < next.len() implies (#[trigger] next[a]).0 != (
        #[trigger] next[b]).0 by {
            assert(pairs[a].0 != pairs[b].0);
        }
        lemma_value_at(next, i);
        assert(next[i] == (pairs[i].0, value));
    } else if i < pairs.len() - 1 {
        assert(next.drop_last() =~= pairs.drop_last().update(i, (pairs[i].0, value)));
        lemma_value_updated(pairs.drop_last(), i, value, name);
    } else {
        assert(next.drop_last() =~= pairs.drop_last());
    }
}

/// Sets the value of a key.
pub fn put(v: &mut Vec<(String, String)>, key: String, value: String)
    requires
        keys_distinct(pairs_view(old(v)@)),
    ensures
        keys_distinct(pairs_view(final(v)@)),
        forall|name: Seq<char>| #[trigger]
            value_of(pairs_view(final(v)@), name) == if name == key@ {
                Some(value@)
            } else {
                value_of(pairs_view(old(v)@), name)
            },
{
    let ghost before = pairs_view(v@);
    let n: usize = v.len();
    let mut i: usize = 0;
    while i < n
        invariant
            i <= n == v@.len(),
            v@ == old(v)@,
            before == pairs_view(v@),
            keys_distinct(before),
            forall|j: int| 0 <= j < i ==> (#[trigger] before[j]).0 != key@,
        decreases n - i,
    {
        if str_eq(v[i].0.as_str(), key.as_str()) {
            let ghost value_view = value@;
            v.set(i, (key, value));
            proof {
                let after = pairs_view(v@);
                assert(before[i as int].0 == key@);
                assert(after =~= before.update(i as int, (before[i as int].0, value_view)));
                assert forall|a: int, b: int| 0 <= a < b < after.len() implies (
                #[trigger] after[a]).0 != (#[trigger] after[b]).0 by {
                    assert(before[a].0 != before[b].0);
                }
                assert forall|name: Seq<char>| #[trigger]
                    value_of(after, name) == (if name == key@ {
                        Some(value_view)
                    } else {
                        value_of(before, name)
                    }) by {
                    lemma_value_updated(before, i as int, value_view, name);
                }
            }
            return;
        }
        assert(before[i as int].0 == v@[i as int].0@);
        i = i + 1;
    }
    let ghost last = (key@, value@);
    v.push((key, value));
    proof {
        let after = pairs_view(v@);
        assert(after =~= before.push(last));
        assert(after.drop_last() =~= before);
    }
}

/// The order of texts: by their characters from the first on, a shorter one first.
pub open spec fn less(a: Seq<char>, b: Seq<char>) -> bool
    decreases a.len(),
{
    if b.len() == 0 {
        false
    } else if a.len() == 0 {
        true
    } else if a[0] != b[0] {
        a[0] < b[0]
    } else {
        less(a.drop_first(), b.drop_first())
    }
}

/// Of two different texts one is less, and only one.
pub proof fn lemma_less_total(a: Seq<char>, b: Seq<char>)
    ensures
        less(a, b) || less(b, a) || a == b,
        !(less(a, b) && less(b, a)),
        a == b ==> !less(a, b),
    decreases a.len(),
{
    if a.len() > 0 && b.len() > 0 {
        lemma_less_total(a.drop_first(), b.drop_first());
        if a[0] == b[0] && a.drop_first() == b.drop_first() {
            assert(a =~= seq![a[0]] + a.drop_first());
            assert(b =~= seq![b[0]] + b.drop_first());
        }
    } else {
        assert(a.len() == 0 && b.len() == 0 ==> a =~= b);
    }
}

/// The order of texts is transitive.
pub proof fn lemma_less_transitive(a: Seq<char>, b: Seq<char>, c: Seq<char>)
    requires
        less(a, b),
        less(b, c),
    ensures
        less(a, c),
    decreases a.len(),
{
    if a.len() > 0 && b.len() > 0 && c.len() > 0 && a[0] == b[0] && b[0] == c[0] {
        lemma_less_transitive(a.drop_first(), b.drop_first(), c.drop_first());
    }
}

/// Whether a text is less than another; see [`less`].
pub fn is_less(a: &str, b: &str) -> (r: bool)
    ensures
        r == less(a@, b@),
{
    let v = chars_of(a);
    let w = chars_of(b);
    let n: usize = v.len();
    let m: usize = w.len();
    let mut i: usize = 0;
    assert(v@.skip(0) =~= v@);
    assert(w@.skip(0) =~= w@);
    while i < n && i < m
        invariant
            v@ == a@,
            w@ == b@,
            i <= n == v@.len(),
            i <= m == w@.len(),
            less(a@, b@) == less(v@.skip(i as int), w@.skip(i as int)),
        decreases n - i,
    {
        let ghost x = v@.skip(i as int);
        let ghost y = w@.skip(i as int);
        assert(x[0] == v@[i as int] && y[0] == w@[i as int]);
        if v[i] != w[i] {
            return v[i] < w[i];
        }
        assert(x.drop_first() =~= v@.skip(i + 1));
        assert(y.drop_first() =~= w@.skip(i + 1));
        i = i + 1;
    }
    i < m
}

/// The value of a key, if it has one.
pub fn find_value(v: &Vec<(String, String)>, key: &str) -> (r: Option<String>)
    requires
        keys_distinct(pairs_view(v@)),
    ensures
        opt_view(r) == value_of(pairs_view(v@), key@),
{
    let ghost all = pairs_view(v@);
    let n: usize = v.len();
    let mut i: usize = 0;
    while i < n
        invariant
            i <= n == v@.len(),
            all == pairs_view(v@),
            keys_distinct(all),
            forall|j: int| 0 <= j < i ==> (#[trigger] all[j]).0 != key@,
        decreases n - i,
    {
        assert(all[i as int] == (v@[i as int].0@, v@[i as int].1@));
        if str_eq(v[i].0.as_str(), key) {
            proof {
                lemma_value_at(all, i as int);
            }
            return Some(v[i].1.clone());
        }
        i = i + 1;
    }
    proof {
        lemma_no_value(all, key@);
    }
    None
}

/// The same pairs again.
pub fn clone_pairs(v: &Vec<(String, String)>) -> (r: Vec<(String, String)>)
    ensures
        pairs_view(r@) == pairs_view(v@),
{
    let mut r: Vec<(String, String)> = Vec::new();
    let n: usize = v.len();
    let mut i: usize = 0;
    while i < n
        invariant
            i <= n == v@.len(),
            pairs_view(r@) == pairs_view(v@).take(i as int),
        decreases n - i,
    {
        let ghost before = pairs_view(r@);
        r.push((v[i].0.clone(), v[i].1.clone()));
        let ghost pair = (v@[i as int].0@, v@[i as int].1@);
        assert(pairs_view(r@) =~= before.push(pair));
        assert(pairs_view(v@).take(i + 1) =~= pairs_view(v@).take(i as int).push(pair));
        i = i + 1;
    }
    assert(pairs_view(v@).take(i as int) =~= pairs_view(v@));
    r
}

/// Whether a text ends in another.
pub open spec fn ends_in(s: Seq<char>, pat: Seq<char>) -> bool {
    s.len() >= pat.len() && s.skip(s.len() - pat.len()) == pat
}

/// Whether a text ends in another; see [`ends_in`].
pub fn ends_with(s: &str, pat: &str) -> (r: bool)
    ensures
        r == ends_in(s@, pat@),
{
    let v: Vec<char> = chars_of(s);
    let p: Vec<char> = chars_of(pat);
    let n: usize = v.len();
    let m: usize = p.len();
    if m > n {
        return false;
    }
    let r: bool = matches_at(&v, &p, n - m);
    assert(s@.skip(n - m) =~= s@.subrange(n - m, n as int));
    r
}

/// The lower-case hexadecimal digit for a value below 16.
pub open spec fn hex_char(d: u8) -> char {
    if d < 10 {
        (0x30 + d) as char
    } else {
        (0x61 + d - 10) as char
    }
}

/// Whether a character is a hexadecimal digit in lower case.
pub open spec fn is_hex(c: char) -> bool {
    ('0' <= c && c <= '9') || ('a' <= c && c <= 'f')
}

/// The hexadecimal digit of a value; see [`hex_char`].
pub fn hex_digit(d: u8) -> (r: char)
    requires
        d < 16,
    ensures
        r == hex_char(d),
        is_hex(r),
{
    if d < 10 {
        (0x30 + d) as char
    } else {
        (0x61 + (d - 10)) as char
    }
}

/// A text that stands in a part stands in the whole.
pub proof fn lemma_in_whole(a: Seq<char>, b: Seq<char>, pat: Seq<char>)
    requires
        has_text(a, pat) || has_text(b, pat),
    ensures
        has_text(a + b, pat),
{
    let s = a + b;
    if has_text(a, pat) {
        let k = choose|k: int| 0 <= k <= a.len() && #[trigger] occurs_at(a, pat, k);
        assert(s.subrange(k, k + pat.len()) =~= a.subrange(k, k + pat.len()));
        assert(occurs_at(s, pat, k));
    } else {
        let k = choose|k: int| 0 <= k <= b.len() && #[trigger] occurs_at(b, pat, k);
        let j = a.len() + k;
        assert(s.subrange(j, j + pat.len()) =~= b.subrange(k, k + pat.len()));
        assert(occurs_at(s, pat, j));
    }
}

/// A text stands in itself.
pub proof fn lemma_in_itself(s: Seq<char>)
    ensures
        has_text(s, s),
{
    assert(s.subrange(0, s.len() as int) =~= s);
    assert(occurs_at(s, s, 0));
}

/// A value behind a label that ends in a name stands behind that name.
pub proof fn lemma_named(before: Seq<char>, label: Seq<char>, name: Seq<char>, value: Seq<char>)
    requires
        ends_in(label, name),
    ensures
        has_text(before + label + value, name + value),
        has_text(label + value, name + value),
{
    let k = label.len() - name.len();
    let s = label + value;
    let pat = name + value;
    assert(label =~= label.take(k) + name);
    assert(s.subrange(k, s.len() as int) =~= pat);
    assert(occurs_at(s, pat, k));
    lemma_in_whole(before, s, pat);
    assert(before + label + value =~= before + s);
}

/// Lines with newlines between them.
pub open spec fn with_newlines(v: Seq<Seq<char>>) -> Seq<char>
    decreases v.len(),
{
    if v.len() == 0 {
        Seq::empty()
    } else if v.len() == 1 {
        v[0]
    } else {
        with_newlines(v.drop_last()) + seq!['\n'] + v.last()
    }
}

/// The lines of a text hold no newlines, and with newlines between them they are the text.
pub proof fn law_lines_make_the_text(s: Seq<char>)
    ensures
        lines(s).len() > 0,
        with_newlines(lines(s)) == s,
        forall|i: int|
            0 <= i < lines(s).len() ==> !(#[trigger] lines(s)[i]).contains('\n'),
    decreases s.len(),
{
    reveal_with_fuel(with_newlines, 2);
    let all = lines(s);
    if s.len() > 0 {
        let t = s.drop_last();
        let c = s.last();
        law_lines_make_the_text(t);
        let head = lines(t);
        if c == '\n' {
            assert(all.drop_last() =~= head);
            assert(with_newlines(all) =~= with_newlines(head) + seq!['\n']);
            assert forall|i: int| 0 <= i < all.len() implies !(#[trigger] all[i]).contains('\n') by {
                if i < head.len() {
                    assert(all[i] == head[i]);
                }
            }
        } else {
            assert(all.drop_last() =~= head.drop_last());
            assert(all.last() == head.last().push(c));
            assert(with_newlines(all) =~= with_newlines(head).push(c));
            assert forall|i: int| 0 <= i < all.len() implies !(#[trigger] all[i]).contains('\n') by {
                if i < head.len() - 1 {
                    assert(all[i] == head[i]);
                } else {
                    let h = head[head.len() - 1];
                    assert(!h.contains('\n'));
                    if all[i].contains('\n') {
                        let k = choose|k: int| 0 <= k < all[i].len() && all[i][k] == '\n';
                        assert(h[k] == '\n');
                    }
                }
            }
        }
        assert(with_newlines(all) =~= s);
    } else {
        assert(with_newlines(all) =~= s);
    }
}

/// A text comes before another where they first differ: by its character there, or because it
/// ends there.
pub proof fn law_order_by_characters(a: Seq<char>, b: Seq<char>)
    ensures
        less(a, b) <==> exists|k: int|
            0 <= k <= a.len() && k < b.len() && #[trigger] a.take(k) == b.take(k) && (k == a.len()
                || a[k] < b[k]),
    decreases a.len(),
{
    if a.len() > 0 && b.len() > 0 && a[0] == b[0] {
        let x = a.drop_first();
        let y = b.drop_first();
        law_order_by_characters(x, y);
        if less(a, b) {
            let k = choose|k: int|
                0 <= k <= x.len() && k < y.len() && #[trigger] x.take(k) == y.take(k) && (k
                    == x.len() || x[k] < y[k]);
            assert(a.take(k + 1) =~= seq![a[0]] + x.take(k));
            assert(b.take(k + 1) =~= seq![b[0]] + y.take(k));
            assert(a.take(k + 1) == b.take(k + 1));
        }
        if exists|k: int|
            0 <= k <= a.len() && k < b.len() && #[trigger] a.take(k) == b.take(k) && (k == a.len()
                || a[k] < b[k]) {
            let k = choose|k: int|
                0 <= k <= a.len() && k < b.len() && #[trigger] a.take(k) == b.take(k) && (k
                    == a.len() || a[k] < b[k]);
            assert(k > 0);
            assert(x.take(k - 1) =~= a.take(k).drop_first());
            assert(y.take(k - 1) =~= b.take(k).drop_first());
            assert(x.take(k - 1) == y.take(k - 1));
        }
    } else if b.len() > 0 {
        assert(a.take(0) =~= b.take(0));
        if a.len() > 0 {
            assert forall|k: int|
                0 < k <= a.len() && k < b.len() implies #[trigger] a.take(k) != b.take(k) by {
                assert(a.take(k)[0] == a[0] && b.take(k)[0] == b[0]);
            }
        }
    }
}

/// A number is read digit by digit: one digit more is worth itself and makes the others worth
/// ten times as much. A text that ends in anything but a digit writes no number.
pub proof fn law_number_by_digits(s: Seq<char>, c: char)
    ensures
        number_of(s) matches Some(n) ==> '0' <= c <= '9' ==> number_of(s.push(c)) == {
            let m = n * 10 + (c as nat - 0x30) as nat;
            if m <= u64::MAX {
                Some(m)
            } else {
                None
            }
        },
        !('0' <= c <= '9') ==> number_of(s.push(c)) is None,
        number_of(Seq::empty()) is None,
{
    let t = s.push(c);
    let plus = s.len() > 0 && s[0] == '+';
    let d = if plus {
        s.skip(1)
    } else {
        s
    };
    if !('0' <= c <= '9') {
        if t.len() > 0 && t[0] == '+' {
            let e = t.skip(1);
            if e.len() > 0 {
                assert(e[e.len() - 1] == c);
            }
        } else {
            assert(t[t.len() - 1] == c);
        }
    } else if number_of(s) is Some {
        let e = if plus {
            t.skip(1)
        } else {
            t
        };
        assert(t[0] == s[0]);
        assert(e =~= d.push(c));
        assert(e.drop_last() =~= d);
        assert forall|i: int| 0 <= i < e.len() implies '0' <= #[trigger] e[i] <= '9' by {
            if i < d.len() {
                assert(e[i] == d[i]);
            }
        }
    }
}

/// A negative number is written with a sign, and any number as its digits.
pub proof fn law_decimal(n: int)
    ensures
        n >= 0 ==> decimal(n) == digits(n as nat),
        n < 0 ==> decimal(n) == seq!['-'] + digits((-n) as nat),
        n >= 0 ==> digits_value(decimal(n)) == n,
{
    if n >= 0 {
        lemma_digits_read_back(n as nat);
    }
}

} // verus!
