//! Calls into other crates. The contracts in this file are not proved: each one
//! says what the called function is known to do.

use vstd::prelude::*;
use vstd::utf8::*;
use crate::text;

verus! {

/// The SHA-256 digest of a byte string.
pub uninterp spec fn sha256(data: Seq<u8>) -> Seq<u8>;

/// `sha2::Sha256::digest`: the digest of the bytes alone, 32 bytes long.
#[verifier::external_body]
pub(crate) fn sha256_digest(data: &[u8]) -> (r: Vec<u8>)
    ensures
        r@ == sha256(data@),
        r@.len() == 32,
{
    <sha2::Sha256 as sha2::Digest>::digest(data).to_vec()
}

/// The hexadecimal writing of a byte string: two digits a byte, the high one first.
pub open spec fn hex_text(data: Seq<u8>) -> Seq<char> {
    Seq::new(
        2 * data.len(),
        |i: int|
            if i % 2 == 0 {
                text::hex_char(data[i / 2] / 16)
            } else {
                text::hex_char(data[i / 2] % 16)
            },
    )
}

/// `hex::encode`: two lower-case digits for each byte, in order.
#[verifier::external_body]
pub(crate) fn hex_encode(data: &Vec<u8>) -> (r: String)
    ensures
        r@ == hex_text(data@),
{
    hex::encode(data)
}

/// How a JSON string literal writes one character: a quotation mark, a reverse
/// solidus and the control characters are escaped, anything else stands for itself.
pub open spec fn json_char(c: char) -> Seq<char> {
    if c == '"' {
        seq!['\\', '"']
    } else if c == '\\' {
        seq!['\\', '\\']
    } else if c == '\u{8}' {
        seq!['\\', 'b']
    } else if c == '\t' {
        seq!['\\', 't']
    } else if c == '\n' {
        seq!['\\', 'n']
    } else if c == '\u{c}' {
        seq!['\\', 'f']
    } else if c == '\r' {
        seq!['\\', 'r']
    } else if (c as u32) < 0x20 {
        seq!['\\', 'u', '0', '0', text::hex_char((c as u8) / 16), text::hex_char((c as u8) % 16)]
    } else {
        seq![c]
    }
}

/// The inside of the JSON string literal for a text.
pub open spec fn json_chars(s: Seq<char>) -> Seq<char>
    decreases s.len(),
{
    if s.len() == 0 {
        Seq::empty()
    } else {
        json_chars(s.drop_last()) + json_char(s.last())
    }
}

/// The JSON string literal for a text.
pub open spec fn json_quoted(s: Seq<char>) -> Seq<char> {
    seq!['"'] + json_chars(s) + seq!['"']
}

/// `serde_json::to_string` on a text: its JSON string literal.
#[verifier::external_body]
pub(crate) fn json_quote(s: &str) -> (r: String)
    ensures
        r@ == json_quoted(s@),
{
    serde_json::to_string(s).unwrap_or_default()
}

/// A JSON string literal holds no control character.
pub proof fn lemma_json_quoted_plain(s: Seq<char>)
    ensures
        forall|i: int|
            0 <= i < json_quoted(s).len() ==> (#[trigger] json_quoted(s)[i]) as u32 >= 0x20,
{
    lemma_json_chars_plain(s);
}

proof fn lemma_json_chars_plain(s: Seq<char>)
    ensures
        forall|i: int|
            0 <= i < json_chars(s).len() ==> (#[trigger] json_chars(s)[i]) as u32 >= 0x20,
    decreases s.len(),
{
    if s.len() > 0 {
        lemma_json_chars_plain(s.drop_last());
        let a = json_chars(s.drop_last());
        let b = json_char(s.last());
        assert(json_chars(s) == a + b);
        assert forall|i: int| 0 <= i < b.len() implies (#[trigger] b[i]) as u32 >= 0x20 by {}
        assert forall|i: int| 0 <= i < json_chars(s).len() implies (
        #[trigger] json_chars(s)[i]) as u32 >= 0x20 by {
            if i < a.len() {
                assert(json_chars(s)[i] == a[i]);
            } else {
                assert(json_chars(s)[i] == b[i - a.len()]);
            }
        }
    }
}

/// The shape of a hyphenated UUID: 36 characters, hyphens at four places, lower-case
/// hexadecimal digits at the others.
pub open spec fn uuid_shape(s: Seq<char>) -> bool {
    &&& s.len() == 36
    &&& forall|i: int|
        0 <= i < 36 ==> if i == 8 || i == 13 || i == 18 || i == 23 {
            (#[trigger] s[i]) == '-'
        } else {
            '0' <= s[i] <= '9' || 'a' <= s[i] <= 'f'
        }
}

/// `uuid::Uuid::new_v4` and its `to_string`: a random UUID, hyphenated. Which one
/// is left to chance.
#[verifier::external_body]
pub(crate) fn random_uuid() -> (r: String)
    ensures
        uuid_shape(r@),
{
    uuid::Uuid::new_v4().to_string()
}

/// The text of a byte string, with replacement characters where it is not UTF-8.
pub uninterp spec fn utf8_lossy(bytes: Seq<u8>) -> Seq<char>;

/// `String::from_utf8_lossy`: a byte string that is UTF-8 is decoded; in any other,
/// replacement characters stand for what is not.
#[verifier::external_body]
pub(crate) fn text_from_bytes(bytes: &[u8]) -> (r: String)
    ensures
        r@ == utf8_lossy(bytes@),
        valid_utf8(bytes@) ==> r@ == decode_utf8(bytes@),
{
    String::from_utf8_lossy(bytes).into_owned()
}

/// The lower-case form of a text.
pub uninterp spec fn lowercase(s: Seq<char>) -> Seq<char>;

/// `str::to_lowercase`, after the Unicode character properties.
#[verifier::external_body]
pub(crate) fn to_lowercase(s: &str) -> (r: String)
    ensures
        r@ == lowercase(s@),
{
    s.to_lowercase()
}

/// The string that a JSON text has at a JSON pointer, if the text is JSON and has a
/// string there.
pub uninterp spec fn json_text_at(json: Seq<char>, pointer: Seq<char>) -> Option<Seq<char>>;

/// `serde_json::from_str`, then `Value::pointer` and `Value::as_str`.
#[verifier::external_body]
pub(crate) fn json_str_at(json: &str, pointer: &str) -> (r: Option<String>)
    ensures
        json_text_at(json@, pointer@) == match r {
            Some(s) => Some(s@),
            None => None,
        },
{
    let value: serde_json::Value = serde_json::from_str(json).ok()?;
    value.pointer(pointer)?.as_str().map(|s| s.to_string())
}

/// The integer that a JSON text has at a JSON pointer, if the text is JSON and has an
/// integer of 64 bits there.
pub uninterp spec fn json_int_at(json: Seq<char>, pointer: Seq<char>) -> Option<i64>;

/// `serde_json::from_str`, then `Value::pointer` and `Value::as_i64`.
#[verifier::external_body]
pub(crate) fn json_i64_at(json: &str, pointer: &str) -> (r: Option<i64>)
    ensures
        r == json_int_at(json@, pointer@),
{
    let value: serde_json::Value = serde_json::from_str(json).ok()?;
    value.pointer(pointer)?.as_i64()
}

/// Whether a JSON text has anything at a JSON pointer.
pub uninterp spec fn json_has_at(json: Seq<char>, pointer: Seq<char>) -> bool;

/// `serde_json::from_str`, then `Value::pointer`: whether the text is JSON and has a
/// value there.
#[verifier::external_body]
pub(crate) fn json_exists_at(json: &str, pointer: &str) -> (r: bool)
    ensures
        r == json_has_at(json@, pointer@),
{
    match serde_json::from_str::<serde_json::Value>(json) {
        Ok(value) => value.pointer(pointer).is_some(),
        Err(_) => false,
    }
}

/// The compact writing of a JSON text, if it is JSON.
pub uninterp spec fn json_compact(json: Seq<char>) -> Option<Seq<char>>;

/// `serde_json::from_str`, then `Value::to_string`: the JSON value, written again without
/// white space between its parts; nothing where the text is not JSON.
#[verifier::external_body]
pub(crate) fn compact_json(json: &str) -> (r: Option<String>)
    ensures
        json_compact(json@) == match r {
            Some(s) => Some(s@),
            None => None,
        },
{
    let value: serde_json::Value = serde_json::from_str(json).ok()?;
    Some(value.to_string())
}

/// `fastrand::u64` on a range that begins at zero: some number up to the bound.
/// Which one is left to chance.
#[verifier::external_body]
pub(crate) fn random_up_to(bound: u64) -> (r: u64)
    ensures
        r <= bound,
{
    fastrand::u64(0..=bound)
}

/// A text in quotes, as it is shown to a programmer.
pub uninterp spec fn debug_text(s: Seq<char>) -> Seq<char>;

/// `format!` with `{:?}` on a text: the text in quotes, with what cannot be shown
/// escaped.
#[verifier::external_body]
pub(crate) fn debug_quote(s: &str) -> (r: String)
    ensures
        r@ == debug_text(s@),
{
    format!("{:?}", s)
}

/// A name that stands for itself behind a `/` in a JSON pointer.
pub open spec fn plain_name(name: Seq<char>) -> bool {
    forall|i: int| 0 <= i < name.len() ==> #[trigger] name[i] != '/' && name[i] != '~'
}

/// Whether a JSON text is free of the keys that `serde_json` keeps for itself, and of the
/// escapes that could hide one. An object with such a key in front is not read as an
/// object, and a key may come to the front when the object is written again.
pub open spec fn ordinary(json: Seq<char>) -> bool {
    !text::has_text(json, "$serde_json::private::"@) && !text::has_text(json, "\\u"@)
}

/// Whether the JSON string literal for a text is ordinary.
pub open spec fn ordinary_text(s: Seq<char>) -> bool {
    ordinary(json_quoted(s))
}

/// A text of which no character is escaped, and without a dollar sign, is ordinary.
pub proof fn lemma_ordinary_text(s: Seq<char>)
    requires
        forall|i: int|
            0 <= i < s.len() ==> (#[trigger] s[i]) != '$' && s[i] != '\\' && s[i] != '"' && s[i] as u32
                >= 0x20,
    ensures
        ordinary_text(s),
{
    lemma_json_chars_same(s);
    let q = json_quoted(s);
    reveal_strlit("$serde_json::private::");
    reveal_strlit("\\u");
    let key = "$serde_json::private::"@;
    let escape = "\\u"@;
    assert forall|k: int| 0 <= k <= q.len() implies !(#[trigger] text::occurs_at(q, key, k)) by {
        if text::occurs_at(q, key, k) {
            assert(q.subrange(k, k + key.len())[0] == key[0]);
            assert(q[k] == '$');
        }
    }
    assert forall|k: int| 0 <= k <= q.len() implies !(#[trigger] text::occurs_at(
        q,
        escape,
        k,
    )) by {
        if text::occurs_at(q, escape, k) {
            assert(q.subrange(k, k + escape.len())[0] == escape[0]);
            assert(q[k] == '\\');
        }
    }
}

proof fn lemma_json_chars_same(s: Seq<char>)
    requires
        forall|i: int|
            0 <= i < s.len() ==> (#[trigger] s[i]) != '\\' && s[i] != '"' && s[i] as u32 >= 0x20,
    ensures
        json_chars(s) == s,
    decreases s.len(),
{
    if s.len() > 0 {
        lemma_json_chars_same(s.drop_last());
        assert(json_chars(s) =~= s);
    } else {
        assert(json_chars(s) =~= s);
    }
}

/// Whether two JSON texts have the same text, and the same integer, at a JSON pointer.
pub open spec fn same_at(a: Seq<char>, b: Seq<char>, pointer: Seq<char>) -> bool {
    &&& json_text_at(a, pointer) == json_text_at(b, pointer)
    &&& json_int_at(a, pointer) == json_int_at(b, pointer)
}

/// Whether a JSON text says the same with a line end behind it.
pub open spec fn takes_line_end(json: Seq<char>) -> bool {
    forall|pointer: Seq<char>| #[trigger] same_at(json + "\n"@, json, pointer)
}

/// Whether two JSON objects have the same texts and integers at all names but one.
pub open spec fn same_but_for(a: Seq<char>, b: Seq<char>, name: Seq<char>) -> bool {
    forall|other: Seq<char>| #[trigger]
        plain_name(other) && other != name ==> same_at(a, b, "/"@ + other)
}

/// A JSON text with a text set at a name of its object, or why there is none: what is
/// wrong with the text as JSON, or nothing where it is no object.
pub uninterp spec fn json_with_text(json: Seq<char>, name: Seq<char>, value: Seq<char>) -> Result<
    Seq<char>,
    Option<Seq<char>>,
>;

/// `serde_json::from_str`, `Map::insert` and `serde_json::to_string_pretty`: the object
/// with one more text in it, or with another one in its place, over several lines. Where
/// all is ordinary, what comes out is read back: the text at the name, and at the other
/// names what was there. Of what is not ordinary, nothing is said.
#[verifier::external_body]
pub(crate) fn set_json_text(json: &str, name: &str, value: &str) -> (r: Result<
    String,
    Option<String>,
>)
    ensures
        json_with_text(json@, name@, value@) == match r {
            Ok(s) => Ok(s@),
            Err(Some(e)) => Err(Some(e@)),
            Err(None) => Err(None),
        },
        r is Ok && plain_name(name@) && ordinary_text(name@) && ordinary(json@) ==> {
            &&& json_text_at(r->Ok_0@, "/"@ + name@) == Some(value@)
            &&& same_but_for(r->Ok_0@, json@, name@)
            &&& takes_line_end(r->Ok_0@)
            &&& ordinary_text(value@) ==> ordinary(r->Ok_0@)
        },
{
    let mut v: serde_json::Value = match serde_json::from_str(json) {
        Ok(v) => v,
        Err(e) => return Err(Some(e.to_string())),
    };
    let object = v.as_object_mut().ok_or(None)?;
    object.insert(name.to_string(), serde_json::Value::from(value));
    serde_json::to_string_pretty(&v).map_err(|e| Some(e.to_string()))
}

/// A JSON text with a number set at a name of its object, or why there is none, as for
/// a text.
pub uninterp spec fn json_with_number(json: Seq<char>, name: Seq<char>, value: u64) -> Result<
    Seq<char>,
    Option<Seq<char>>,
>;

/// `serde_json::from_str`, `Map::insert` and `serde_json::to_string_pretty`: the object
/// with one more number in it, or with another one in its place, over several lines. Where
/// all is ordinary, what comes out is read back: the number at the name where it fits, and
/// at the other names what was there. Of what is not ordinary, nothing is said.
#[verifier::external_body]
pub(crate) fn set_json_number(json: &str, name: &str, value: u64) -> (r: Result<
    String,
    Option<String>,
>)
    ensures
        json_with_number(json@, name@, value) == match r {
            Ok(s) => Ok(s@),
            Err(Some(e)) => Err(Some(e@)),
            Err(None) => Err(None),
        },
        r is Ok && plain_name(name@) && ordinary_text(name@) && ordinary(json@) && value
            <= i64::MAX ==> {
            &&& json_int_at(r->Ok_0@, "/"@ + name@) == Some(value as i64)
            &&& same_but_for(r->Ok_0@, json@, name@)
            &&& takes_line_end(r->Ok_0@)
        },
{
    let mut v: serde_json::Value = match serde_json::from_str(json) {
        Ok(v) => v,
        Err(e) => return Err(Some(e.to_string())),
    };
    let object = v.as_object_mut().ok_or(None)?;
    object.insert(name.to_string(), serde_json::Value::from(value));
    serde_json::to_string_pretty(&v).map_err(|e| Some(e.to_string()))
}

/// A JSON text over several lines, or what is wrong with it as JSON.
pub uninterp spec fn json_pretty(json: Seq<char>) -> Result<Seq<char>, Seq<char>>;

/// `serde_json::from_str`, then `serde_json::to_string_pretty`: the JSON value, written
/// again over several lines. Where it is ordinary, what comes out is read back: everywhere
/// what was there. Of what is not ordinary, nothing is said.
#[verifier::external_body]
pub(crate) fn pretty_json(json: &str) -> (r: Result<String, String>)
    ensures
        json_pretty(json@) == match r {
            Ok(s) => Ok(s@),
            Err(e) => Err(e@),
        },
        r is Ok && ordinary(json@) ==> takes_line_end(r->Ok_0@) && forall|pointer: Seq<char>|
            #[trigger]
            same_at(r->Ok_0@, json@, pointer),
{
    let value: serde_json::Value = serde_json::from_str(json).map_err(|e| e.to_string())?;
    serde_json::to_string_pretty(&value).map_err(|e| e.to_string())
}

} // verus!
