//! What is known of the machine: its operating system, and the tool that is installed
//! on it.

use vstd::prelude::*;
use vstd::string::*;
use crate::admin::service;
use crate::outside;
use crate::text;

verus! {

/// The operating systems that are told apart.
#[derive(Debug, Clone, Copy, PartialEq, Eq, Structural)]
pub enum Platform {
    Macos,
    Windows,
    Linux,
    Other,
}

impl Platform {
    /// The name of the operating system in a version, if it has one.
    pub open spec fn tag(self) -> Option<Seq<char>> {
        match self {
            Platform::Macos => Some("darwin#"@),
            Platform::Windows => Some("win32#"@),
            Platform::Linux => Some("linux#"@),
            Platform::Other => None,
        }
    }
}

/// The operating system and its release, where both are known.
pub fn system_version(platform: Platform, release: Option<&str>) -> (r: Option<String>)
    ensures
        text::opt_view(r) == match (platform.tag(), release) {
            (Some(t), Some(v)) => Some(t + v@),
            _ => None,
        },
{
    match release {
        Some(v) => {
            let tag: &str = match platform {
                Platform::Macos => "darwin#",
                Platform::Windows => "win32#",
                Platform::Linux => "linux#",
                Platform::Other => {
                    return None;
                },
            };
            let mut s: String = tag.to_owned();
            s.append(v);
            Some(s)
        },
        None => None,
    }
}

/// A text without white space around it, unless nothing is left.
pub open spec fn something(s: Seq<char>) -> Option<Seq<char>> {
    if text::trim(s).len() == 0 {
        None
    } else {
        Some(text::trim(s))
    }
}

/// What a command has printed: nothing where it failed or printed nothing.
pub fn printed(succeeded: bool, output: &[u8]) -> (r: Option<String>)
    ensures
        text::opt_view(r) == if succeeded {
            something(outside::utf8_lossy(output@))
        } else {
            None
        },
{
    if !succeeded {
        return None;
    }
    let s: String = outside::text_from_bytes(output);
    let t: String = text::trimmed(s.as_str());
    if t.as_str().is_empty() {
        None
    } else {
        Some(t)
    }
}

/// The first place of a text in another, at or after a place.
pub open spec fn first_at(s: Seq<char>, pat: Seq<char>, from: int) -> Option<int> {
    text::search(occurs(s, pat), from, s.len() as int)
}

pub open spec fn occurs(s: Seq<char>, pat: Seq<char>) -> spec_fn(int) -> bool {
    |i: int| text::occurs_at(s, pat, i)
}

fn find_from(v: &Vec<char>, pat: &Vec<char>, from: usize) -> (r: Option<usize>)
    requires
        from <= v@.len(),
    ensures
        (match r {
            Some(i) => Some(i as int),
            None => None,
        }) == first_at(v@, pat@, from as int),
        r is Some ==> from <= r.unwrap() < v@.len() && text::occurs_at(
            v@,
            pat@,
            r.unwrap() as int,
        ),
{
    let ghost p = occurs(v@, pat@);
    proof {
        text::lemma_search(p, from as int, v@.len() as int);
    }
    let n: usize = v.len();
    let mut i: usize = from;
    while i < n
        invariant
            from <= i <= n == v@.len(),
            p == occurs(v@, pat@),
            text::search(p, from as int, v@.len() as int) == text::search(
                p,
                i as int,
                v@.len() as int,
            ),
        decreases n - i,
    {
        assert(p(i as int) == text::occurs_at(v@, pat@, i as int));
        if text::matches_at(v, pat, i) {
            return Some(i);
        }
        i = i + 1;
    }
    None
}

/// The place after the third dot-separated part, or the end where there are no more.
pub open spec fn third_part_end(s: Seq<char>, from: int, dots: nat) -> int
    decreases s.len() - from,
{
    if from >= s.len() {
        s.len() as int
    } else if s[from] == '.' && dots == 2 {
        from
    } else {
        third_part_end(
            s,
            from + 1,
            if s[from] == '.' {
                dots + 1
            } else {
                dots
            },
        )
    }
}

/// The first three parts of a version, or all of it where it has fewer.
pub open spec fn three_parts(s: Seq<char>) -> Option<Seq<char>> {
    if s.len() == 0 {
        None
    } else {
        Some(s.take(third_part_end(s, 0, 0)))
    }
}

/// The version between `Version ` and the next bracket.
pub open spec fn bracketed(s: Seq<char>) -> Option<Seq<char>> {
    match first_at(s, "Version "@, 0) {
        Some(k) => {
            let start = k + 8;
            match first_at(s, "]"@, start) {
                Some(e) => three_parts(s.subrange(start, e)),
                None => None,
            }
        },
        None => None,
    }
}

fn end_of_third(v: &Vec<char>) -> (r: usize)
    ensures
        r == third_part_end(v@, 0, 0),
        r <= v@.len(),
{
    let n: usize = v.len();
    let mut i: usize = 0;
    let mut dots: usize = 0;
    while i < n
        invariant
            i <= n == v@.len(),
            dots <= 2,
            third_part_end(v@, 0, 0) == third_part_end(v@, i as int, dots as nat),
        decreases n - i,
    {
        if v[i] == '.' {
            if dots == 2 {
                return i;
            }
            dots = dots + 1;
        }
        i = i + 1;
    }
    n
}

/// The build of the operating system, as the command for its version prints it: the
/// first three parts of the number in brackets.
pub fn windows_os_build(output: &str) -> (r: Option<String>)
    ensures
        text::opt_view(r) == bracketed(output@),
{
    let v: Vec<char> = text::chars_of(output);
    let word: Vec<char> = text::chars_of("Version ");
    let bracket: Vec<char> = text::chars_of("]");
    proof {
        reveal_strlit("Version ");
        assert(word@.len() == 8);
    }
    let n: usize = v.len();
    let start: usize = match find_from(&v, &word, 0) {
        Some(k) => k + 8,
        None => {
            return None;
        },
    };
    let end: usize = match find_from(&v, &bracket, start) {
        Some(e) => e,
        None => {
            return None;
        },
    };
    let full: String = text::string_of(&v, start, end);
    let part: Vec<char> = text::chars_of(full.as_str());
    if part.len() == 0 {
        return None;
    }
    let stop: usize = end_of_third(&part);
    let r: String = text::string_of(&part, 0, stop);
    assert(r@ =~= part@.take(stop as int));
    Some(r)
}

/// Where the tool may be on a Mac: for all users, or for this one.
pub fn macos_plist_paths(home: &str) -> (r: Vec<String>)
    ensures
        service::names_view(r@) == seq![
            "/Applications/Kiro.app/Contents/Info.plist"@,
            home@ + "/Applications/Kiro.app/Contents/Info.plist"@,
        ],
{
    let mut r: Vec<String> = Vec::new();
    r.push("/Applications/Kiro.app/Contents/Info.plist".to_owned());
    let mut s: String = home.to_owned();
    s.append("/Applications/Kiro.app/Contents/Info.plist");
    r.push(s);
    assert(service::names_view(r@) =~= seq![
        "/Applications/Kiro.app/Contents/Info.plist"@,
        home@ + "/Applications/Kiro.app/Contents/Info.plist"@,
    ]);
    r
}

/// The file of the product below a directory, under both spellings of its name.
pub open spec fn product_files(dir: Option<Seq<char>>, below: Seq<char>) -> Seq<Seq<char>> {
    match dir {
        Some(d) => seq![
            d + below + "kiro\\resources\\app\\product.json"@,
            d + below + "Kiro\\resources\\app\\product.json"@,
        ],
        None => Seq::empty(),
    }
}

fn push_product_files(r: &mut Vec<String>, dir: &str, below: &str)
    ensures
        service::names_view(final(r)@) == service::names_view(old(r)@) + product_files(
            Some(dir@),
            below@,
        ),
{
    let ghost before = service::names_view(r@);
    let mut a: String = dir.to_owned();
    a.append(below);
    let mut b: String = a.clone();
    a.append("kiro\\resources\\app\\product.json");
    b.append("Kiro\\resources\\app\\product.json");
    let ghost x = a@;
    let ghost y = b@;
    r.push(a);
    r.push(b);
    assert(service::names_view(r@) =~= before + seq![x, y]);
}

/// Where the tool may be on Windows: for this user, or for all.
pub fn windows_product_paths(local: Option<&str>, program_files: Option<&str>) -> (r: Vec<String>)
    ensures
        service::names_view(r@) == product_files(
            match local {
                Some(d) => Some(d@),
                None => None,
            },
            "\\Programs\\"@,
        ) + product_files(
            match program_files {
                Some(d) => Some(d@),
                None => None,
            },
            "\\"@,
        ),
{
    let mut r: Vec<String> = Vec::new();
    assert(service::names_view(r@) =~= Seq::empty());
    if let Some(d) = local {
        push_product_files(&mut r, d, "\\Programs\\");
    }
    let ghost head = service::names_view(r@);
    if let Some(d) = program_files {
        push_product_files(&mut r, d, "\\");
    }
    assert(head =~= product_files(
        match local {
            Some(d) => Some(d@),
            None => None,
        },
        "\\Programs\\"@,
    ));
    assert(head + Seq::empty() =~= head);
    r
}

/// The version that the file of a product names, unless it is empty.
pub open spec fn product_version(version: Option<Seq<char>>) -> Option<Seq<char>> {
    match version {
        Some(v) => if v.len() == 0 {
            None
        } else {
            Some(v)
        },
        None => None,
    }
}

/// The version that the file of a product names; see [`product_version`].
pub fn version_in(json: &str) -> (r: Option<String>)
    ensures
        text::opt_view(r) == product_version(outside::json_text_at(json@, "/version"@)),
{
    match outside::json_str_at(json, "/version") {
        Some(v) => if v.as_str().is_empty() {
            None
        } else {
            Some(v)
        },
        None => None,
    }
}

/// The first version among those that were found, if any.
pub open spec fn first_found(found: Seq<Option<String>>) -> Option<Seq<char>>
    decreases found.len(),
{
    if found.len() == 0 {
        None
    } else {
        match found[0] {
            Some(v) => Some(v@),
            None => first_found(found.drop_first()),
        }
    }
}

/// The version of the tool that is installed: the first that was found where it may
/// be. On other systems than these two there is none to be found.
pub fn kiro_version(platform: Platform, found: &Vec<Option<String>>) -> (r: Option<String>)
    ensures
        text::opt_view(r) == match platform {
            Platform::Macos | Platform::Windows => first_found(found@),
            _ => None,
        },
{
    match platform {
        Platform::Macos => {},
        Platform::Windows => {},
        _ => {
            return None;
        },
    }
    let n: usize = found.len();
    let mut i: usize = 0;
    assert(found@.skip(0) =~= found@);
    while i < n
        invariant
            i <= n == found@.len(),
            platform is Macos || platform is Windows,
            first_found(found@) == first_found(found@.skip(i as int)),
        decreases n - i,
    {
        assert(found@.skip(i as int)[0] == found@[i as int]);
        assert(found@.skip(i as int).drop_first() =~= found@.skip(i + 1));
        if let Some(v) = &found[i] {
            return Some(v.clone());
        }
        i = i + 1;
    }
    None
}

/// The dots in a text.
pub open spec fn dots_in(s: Seq<char>) -> nat
    decreases s.len(),
{
    if s.len() == 0 {
        0
    } else {
        dots_in(s.drop_last()) + if s.last() == '.' {
            1nat
        } else {
            0
        }
    }
}

proof fn lemma_third_part(s: Seq<char>, from: int, dots: nat)
    requires
        0 <= from <= s.len(),
        dots <= 2,
        dots_in(s.take(from)) == dots,
    ensures
        ({
            let e = third_part_end(s, from, dots);
            &&& from <= e <= s.len()
            &&& dots_in(s.take(e)) <= 2
            &&& e < s.len() ==> s[e] == '.' && dots_in(s.take(e)) == 2
        }),
    decreases s.len() - from,
{
    if from < s.len() && !(s[from] == '.' && dots == 2) {
        let next = s.take(from + 1);
        assert(next.drop_last() =~= s.take(from));
        assert(next.last() == s[from]);
        lemma_third_part(
            s,
            from + 1,
            if s[from] == '.' {
                dots + 1
            } else {
                dots
            },
        );
    } else if from >= s.len() {
        assert(s.take(s.len() as int) =~= s);
    }
}

/// Of a version the first three parts are kept, to the letter: no more than two dots, and all
/// of it up to the third dot.
pub proof fn law_three_parts_are_kept(s: Seq<char>)
    ensures
        match three_parts(s) {
            Some(r) => {
                &&& s.len() > 0
                &&& r.len() <= s.len()
                &&& r == s.take(r.len() as int)
                &&& dots_in(r) <= 2
                &&& r.len() < s.len() ==> s[r.len() as int] == '.' && dots_in(r) == 2
            },
            None => s.len() == 0,
        },
{
    assert(s.take(0) =~= Seq::empty());
    lemma_third_part(s, 0, 0);
    if let Some(r) = three_parts(s) {
        assert(r =~= s.take(r.len() as int));
    }
}

/// The version that counts is the first that was found; there is none where none was.
pub proof fn law_first_found_counts(found: Seq<Option<String>>)
    ensures
        match first_found(found) {
            Some(v) => exists|i: int|
                0 <= i < found.len() && (#[trigger] found[i]) is Some && found[i].unwrap()@ == v
                    && forall|j: int| 0 <= j < i ==> (#[trigger] found[j]) is None,
            None => forall|i: int| 0 <= i < found.len() ==> (#[trigger] found[i]) is None,
        },
    decreases found.len(),
{
    if found.len() > 0 && found[0] is None {
        let rest = found.drop_first();
        law_first_found_counts(rest);
        match first_found(found) {
            Some(v) => {
                let i = choose|i: int|
                    0 <= i < rest.len() && (#[trigger] rest[i]) is Some && rest[i].unwrap()@ == v
                        && forall|j: int| 0 <= j < i ==> (#[trigger] rest[j]) is None;
                assert(found[i + 1] == rest[i]);
                assert forall|j: int| 0 <= j < i + 1 implies (#[trigger] found[j]) is None by {
                    if j > 0 {
                        assert(rest[j - 1] == found[j]);
                    }
                }
            },
            None => {
                assert forall|i: int| 0 <= i < found.len() implies (#[trigger] found[i]) is None by {
                    if i > 0 {
                        assert(rest[i - 1] == found[i]);
                    }
                }
            },
        }
    }
}

/// What a command printed counts without the white space at its ends, and not at all if there is
/// nothing else.
pub proof fn law_something(s: Seq<char>)
    ensures
        something(s) is None <==> text::all_white(s),
        something(s) matches Some(t) ==> text::stripped(s, t),
{
    text::law_trim(s);
}

/// The build of the operating system is the beginning of what stands between the first
/// `Version ` and the next bracket behind it. There is none where either is missing.
pub proof fn law_build_between_marks(s: Seq<char>, k: int, e: int)
    requires
        text::occurs_at(s, "Version "@, k),
        forall|j: int| 0 <= j < k ==> !#[trigger] text::occurs_at(s, "Version "@, j),
        k + 8 < e < s.len(),
        s[e] == ']',
        forall|j: int| k + 8 <= j < e ==> #[trigger] s[j] != ']',
    ensures
        ({
            let whole = s.subrange(k + 8, e);
            let r = bracketed(s);
            &&& r is Some
            &&& r.unwrap() == whole.take(r.unwrap().len() as int)
            &&& dots_in(r.unwrap()) <= 2
            &&& dots_in(whole) <= 2 ==> r.unwrap() == whole
        }),
{
    reveal_strlit("Version ");
    reveal_strlit("]");
    let p = occurs(s, "Version "@);
    let q = occurs(s, "]"@);
    let n = s.len() as int;
    assert(p(k));
    assert forall|j: int| 0 <= j < k implies !(#[trigger] p(j)) by {
        assert(!text::occurs_at(s, "Version "@, j));
    }
    text::lemma_search_first(p, 0, n, k);
    assert(s.subrange(e, e + 1) =~= "]"@);
    assert(q(e));
    assert forall|j: int| k + 8 <= j < e implies !(#[trigger] q(j)) by {
        if q(j) {
            assert(s.subrange(j, j + 1)[0] == ']');
            assert(s[j] == ']');
        }
    }
    text::lemma_search_first(q, k + 8, n, e);
    let whole = s.subrange(k + 8, e);
    law_three_parts_are_kept(whole);
    let r = three_parts(whole).unwrap();
    if dots_in(whole) <= 2 && r.len() < whole.len() {
        let more = whole.take(r.len() as int + 1);
        assert(more.drop_last() =~= r);
        assert(more.last() == '.');
        lemma_dots_grow(whole, r.len() as int + 1);
    }
    if r.len() == whole.len() {
        assert(whole.take(whole.len() as int) =~= whole);
    }
}

proof fn lemma_dots_grow(s: Seq<char>, k: int)
    requires
        0 <= k <= s.len(),
    ensures
        dots_in(s.take(k)) <= dots_in(s),
    decreases s.len(),
{
    if k == s.len() {
        assert(s.take(k) =~= s);
    } else {
        lemma_dots_grow(s.drop_last(), k);
        assert(s.drop_last().take(k) =~= s.take(k));
    }
}

} // verus!
