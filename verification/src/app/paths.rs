//! How the service is run, and where its files are.

use vstd::prelude::*;
use vstd::string::*;
use crate::outside;
use crate::text;

verus! {

/// How the service is run.
#[derive(Debug, Clone, Copy, PartialEq, Eq, Structural)]
pub enum RuntimeMode {
    /// On a server: with files beside it, on the configured address.
    Server,
    /// On a desktop: with files in the user's data directory, on the loopback address.
    Desktop,
}

/// How the service is to be run.
#[derive(Debug)]
pub struct RunOptions {
    pub mode: RuntimeMode,
    pub config_path: Option<String>,
    pub credentials_path: Option<String>,
}

/// Where the files are.
#[derive(Debug)]
pub struct ResolvedPaths {
    pub config_path: String,
    pub credentials_path: String,
}

/// How the parts of a path are parted.
#[derive(Debug, Clone, Copy, PartialEq, Eq, Structural)]
pub enum PathStyle {
    /// By slashes.
    Unix,
    /// By backslashes; a slash parts them too.
    Windows,
}

/// Whether a character parts the parts of a path.
pub open spec fn parts_path(style: PathStyle, c: char) -> bool {
    c == '/' || (style == PathStyle::Windows && c == '\\')
}

/// What is put between a directory and a file in it.
pub open spec fn separator(style: PathStyle) -> Seq<char> {
    match style {
        PathStyle::Unix => "/"@,
        PathStyle::Windows => "\\"@,
    }
}

/// A file in a directory.
pub open spec fn joined(style: PathStyle, dir: Seq<char>, name: Seq<char>) -> Seq<char> {
    if dir.len() == 0 {
        name
    } else if parts_path(style, dir.last()) {
        dir + name
    } else {
        dir + separator(style) + name
    }
}

/// A file in a directory; see [`joined`].
pub fn join(style: PathStyle, dir: &str, name: &str) -> (r: String)
    ensures
        r@ == joined(style, dir@, name@),
{
    let v: Vec<char> = text::chars_of(dir);
    let n: usize = v.len();
    let mut s: String = dir.to_owned();
    if n == 0 {
        assert(dir@ =~= Seq::empty());
        return name.to_owned();
    }
    let last: char = v[n - 1];
    match style {
        PathStyle::Unix => {
            if last != '/' {
                s.append("/");
            }
        },
        PathStyle::Windows => {
            if last != '/' && last != '\\' {
                s.append("\\");
            }
        },
    }
    s.append(name);
    s
}

/// A path that is given, or else another one.
pub open spec fn given_or(path: Option<Seq<char>>, other: Seq<char>) -> Seq<char> {
    match path {
        Some(p) => p,
        None => other,
    }
}

/// Where a file is by default.
pub open spec fn default_place(
    mode: RuntimeMode,
    style: PathStyle,
    data_dir: Seq<char>,
    name: Seq<char>,
) -> Seq<char> {
    match mode {
        RuntimeMode::Server => name,
        RuntimeMode::Desktop => joined(style, data_dir, name),
    }
}

fn default_path(mode: RuntimeMode, style: PathStyle, data_dir: &str, name: &str) -> (r: String)
    ensures
        r@ == default_place(mode, style, data_dir@, name@),
{
    match mode {
        RuntimeMode::Server => name.to_owned(),
        RuntimeMode::Desktop => join(style, data_dir, name),
    }
}

/// Where the files are: where they are said to be, or else in the default place.
pub fn resolved_paths(opts: &RunOptions, style: PathStyle, data_dir: &str) -> (r: ResolvedPaths)
    ensures
        r.config_path@ == given_or(
            text::opt_view(opts.config_path),
            default_place(opts.mode, style, data_dir@, "config.json"@),
        ),
        r.credentials_path@ == given_or(
            text::opt_view(opts.credentials_path),
            default_place(opts.mode, style, data_dir@, "credentials.json"@),
        ),
{
    let config_path: String = match &opts.config_path {
        Some(p) => p.clone(),
        None => default_path(opts.mode, style, data_dir, "config.json"),
    };
    let credentials_path: String = match &opts.credentials_path {
        Some(p) => p.clone(),
        None => default_path(opts.mode, style, data_dir, "credentials.json"),
    };
    ResolvedPaths { config_path, credentials_path }
}

/// Which files are made at the first start on a desktop.
#[derive(Debug, Clone, Copy, PartialEq, Eq, Structural)]
pub struct BootstrapPlan {
    pub write_config: bool,
    pub write_credentials: bool,
}

/// Which files are made at the first start on a desktop: those that are missing, if
/// there is a directory for them at all. A file that is there is never overwritten.
pub fn bootstrap_desktop_files(
    directory_ready: bool,
    config_exists: bool,
    credentials_exists: bool,
) -> (r: BootstrapPlan)
    ensures
        r.write_config == (directory_ready && !config_exists),
        r.write_credentials == (directory_ready && !credentials_exists),
{
    BootstrapPlan {
        write_config: directory_ready && !config_exists,
        write_credentials: directory_ready && !credentials_exists,
    }
}

/// The text of these digits.
pub open spec fn digits_text(numbers: Seq<u8>) -> Seq<char> {
    numbers.map_values(|n: u8| text::hex_char(n))
}

/// A key of thirty-two hexadecimal digits.
pub open spec fn is_token(s: Seq<char>) -> bool {
    s.len() == 32 && forall|i: int| 0 <= i < s.len() ==> text::is_hex(#[trigger] s[i])
}

/// The text of these digits.
pub fn token_from(numbers: &Vec<u8>) -> (r: String)
    requires
        forall|i: int| 0 <= i < numbers@.len() ==> #[trigger] numbers@[i] < 16,
    ensures
        r@ == digits_text(numbers@),
        forall|i: int| 0 <= i < r@.len() ==> text::is_hex(#[trigger] r@[i]),
{
    let mut s: String = String::new();
    let n: usize = numbers.len();
    let mut i: usize = 0;
    assert(s@ =~= Seq::empty());
    assert(digits_text(numbers@).take(0) =~= Seq::empty());
    while i < n
        invariant
            i <= n == numbers@.len(),
            forall|k: int| 0 <= k < numbers@.len() ==> #[trigger] numbers@[k] < 16,
            s@ == digits_text(numbers@).take(i as int),
            forall|k: int| 0 <= k < s@.len() ==> text::is_hex(#[trigger] s@[k]),
        decreases n - i,
    {
        let c: char = text::hex_digit(numbers[i]);
        let ghost before = s@;
        s.push(c);
        assert(digits_text(numbers@)[i as int] == c);
        assert(digits_text(numbers@).take(i + 1) =~= before.push(c));
        i = i + 1;
    }
    assert(digits_text(numbers@).take(i as int) =~= digits_text(numbers@));
    s
}

/// A random key; see [`is_token`].
pub fn random_token() -> (r: String)
    ensures
        is_token(r@),
{
    let mut numbers: Vec<u8> = Vec::new();
    while numbers.len() < 32
        invariant
            numbers@.len() <= 32,
            forall|k: int| 0 <= k < numbers@.len() ==> #[trigger] numbers@[k] < 16,
        decreases 32 - numbers@.len(),
    {
        numbers.push(outside::random_up_to(15) as u8);
    }
    token_from(&numbers)
}

/// A failure to set something in a JSON text, in words.
pub open spec fn set_failure(e: Option<Seq<char>>) -> Seq<char> {
    match e {
        Some(s) => "解析内置配置模板失败: "@ + s,
        None => "内置配置模板根节点不是对象"@,
    }
}

fn set_failure_text(e: Option<String>) -> (r: String)
    ensures
        r@ == set_failure(text::opt_view(e)),
{
    match e {
        Some(s) => {
            let mut m: String = "解析内置配置模板失败: ".to_owned();
            m.append(s.as_str());
            m
        },
        None => "内置配置模板根节点不是对象".to_owned(),
    }
}

/// A JSON text with a text set in it, after other steps that may have failed.
pub open spec fn then_set(
    json: Result<Seq<char>, Option<Seq<char>>>,
    name: Seq<char>,
    value: Option<Seq<char>>,
) -> Result<Seq<char>, Option<Seq<char>>> {
    match (json, value) {
        (Ok(s), Some(v)) => outside::json_with_text(s, name, v),
        (Ok(s), None) => Ok(s),
        (Err(e), _) => Err(e),
    }
}

fn set_next(json: Result<String, Option<String>>, name: &str, value: Option<&str>) -> (r: Result<
    String,
    Option<String>,
>)
    ensures
        result_view(r) == then_set(
            result_view(json),
            name@,
            match value {
                Some(v) => Some(v@),
                None => None,
            },
        ),
        json is Ok && r is Ok && value is Some && outside::plain_name(name@)
            && outside::ordinary_text(name@) && outside::ordinary(json->Ok_0@) ==> {
            &&& outside::json_text_at(r->Ok_0@, "/"@ + name@) == Some(value.unwrap()@)
            &&& outside::same_but_for(r->Ok_0@, json->Ok_0@, name@)
            &&& outside::takes_line_end(r->Ok_0@)
            &&& outside::ordinary_text(value.unwrap()@) ==> outside::ordinary(r->Ok_0@)
        },
        json is Ok && value is None ==> r is Ok && r->Ok_0@ == json->Ok_0@,
        json is Err ==> r is Err,
{
    match json {
        Ok(s) => match value {
            Some(v) => outside::set_json_text(s.as_str(), name, v),
            None => Ok(s),
        },
        Err(e) => Err(e),
    }
}

pub open spec fn result_view(r: Result<String, Option<String>>) -> Result<
    Seq<char>,
    Option<Seq<char>>,
> {
    match r {
        Ok(s) => Ok(s@),
        Err(e) => Err(text::opt_view(e)),
    }
}

/// The first configuration on a desktop: a template with keys of its own and with the
/// versions that were found on the machine.
pub open spec fn first_config(
    template: Seq<char>,
    api_token: Seq<char>,
    admin_token: Seq<char>,
    system_version: Option<Seq<char>>,
    kiro_version: Option<Seq<char>>,
) -> Result<Seq<char>, Option<Seq<char>>> {
    let a = then_set(Ok(template), "apiKey"@, Some("sk-"@ + api_token));
    let b = then_set(a, "adminApiKey"@, Some(admin_token));
    let c = then_set(b, "systemVersion"@, system_version);
    then_set(c, "kiroVersion"@, kiro_version)
}

/// Whether a configuration that is new on a desktop can be used: both keys are found in
/// it, so are the versions where there are any, and the rest is what the template says.
pub open spec fn is_first_config(
    json: Seq<char>,
    template: Seq<char>,
    api_token: Seq<char>,
    admin_token: Seq<char>,
    system_version: Option<Seq<char>>,
    kiro_version: Option<Seq<char>>,
) -> bool {
    &&& outside::json_text_at(json, "/apiKey"@) == Some("sk-"@ + api_token)
    &&& outside::json_text_at(json, "/adminApiKey"@) == Some(admin_token)
    &&& system_version is Some ==> outside::json_text_at(json, "/systemVersion"@)
        == system_version
    &&& kiro_version is Some ==> outside::json_text_at(json, "/kiroVersion"@) == kiro_version
    &&& forall|other: Seq<char>| #[trigger]
        outside::plain_name(other) && other != "apiKey"@ && other != "adminApiKey"@ && !(other
            == "systemVersion"@ && system_version is Some) && !(other == "kiroVersion"@
            && kiro_version is Some) ==> outside::same_at(json, template, "/"@ + other)
}

/// Whether all that a new configuration is made of is ordinary.
pub open spec fn all_ordinary(
    template: Seq<char>,
    api_token: Seq<char>,
    admin_token: Seq<char>,
    system_version: Option<Seq<char>>,
    kiro_version: Option<Seq<char>>,
) -> bool {
    &&& outside::ordinary(template)
    &&& outside::ordinary_text("sk-"@ + api_token)
    &&& outside::ordinary_text(admin_token)
    &&& system_version matches Some(v) ==> outside::ordinary_text(v)
    &&& kiro_version matches Some(v) ==> outside::ordinary_text(v)
}

/// What is known of the four names in [`first_config`].
proof fn lemma_names()
    ensures
        outside::plain_name("apiKey"@),
        outside::plain_name("adminApiKey"@),
        outside::plain_name("systemVersion"@),
        outside::plain_name("kiroVersion"@),
        outside::ordinary_text("apiKey"@),
        outside::ordinary_text("adminApiKey"@),
        outside::ordinary_text("systemVersion"@),
        outside::ordinary_text("kiroVersion"@),
        "apiKey"@ != "adminApiKey"@,
        "apiKey"@ != "systemVersion"@,
        "apiKey"@ != "kiroVersion"@,
        "adminApiKey"@ != "systemVersion"@,
        "adminApiKey"@ != "kiroVersion"@,
        "systemVersion"@ != "kiroVersion"@,
        "/"@ + "apiKey"@ == "/apiKey"@,
        "/"@ + "adminApiKey"@ == "/adminApiKey"@,
        "/"@ + "systemVersion"@ == "/systemVersion"@,
        "/"@ + "kiroVersion"@ == "/kiroVersion"@,
{
    reveal_strlit("/");
    reveal_strlit("apiKey");
    reveal_strlit("adminApiKey");
    reveal_strlit("systemVersion");
    reveal_strlit("kiroVersion");
    reveal_strlit("/apiKey");
    reveal_strlit("/adminApiKey");
    reveal_strlit("/systemVersion");
    reveal_strlit("/kiroVersion");
    outside::lemma_ordinary_text("apiKey"@);
    outside::lemma_ordinary_text("adminApiKey"@);
    outside::lemma_ordinary_text("systemVersion"@);
    outside::lemma_ordinary_text("kiroVersion"@);
    assert("systemVersion"@.len() != "kiroVersion"@.len());
    assert("adminApiKey"@[0] != "kiroVersion"@[0]);
    assert("/"@ + "apiKey"@ =~= "/apiKey"@);
    assert("/"@ + "adminApiKey"@ =~= "/adminApiKey"@);
    assert("/"@ + "systemVersion"@ =~= "/systemVersion"@);
    assert("/"@ + "kiroVersion"@ =~= "/kiroVersion"@);
}

/// The first configuration on a desktop, with these keys; see [`first_config`]. The keys
/// are found in it, where all of it is ordinary; see [`is_first_config`].
pub fn config_with_tokens(
    template: &str,
    api_token: &str,
    admin_token: &str,
    system_version: Option<&str>,
    kiro_version: Option<&str>,
) -> (r: Result<String, String>)
    ensures
        match first_config(
            template@,
            api_token@,
            admin_token@,
            match system_version {
                Some(v) => Some(v@),
                None => None,
            },
            match kiro_version {
                Some(v) => Some(v@),
                None => None,
            },
        ) {
            Ok(s) => r is Ok && r->Ok_0@ == s + "\n"@,
            Err(e) => r is Err && r->Err_0@ == set_failure(e),
        },
        r is Ok && all_ordinary(
            template@,
            api_token@,
            admin_token@,
            match system_version {
                Some(v) => Some(v@),
                None => None,
            },
            match kiro_version {
                Some(v) => Some(v@),
                None => None,
            },
        ) ==> is_first_config(
            r->Ok_0@,
            template@,
            api_token@,
            admin_token@,
            match system_version {
                Some(v) => Some(v@),
                None => None,
            },
            match kiro_version {
                Some(v) => Some(v@),
                None => None,
            },
        ),
{
    proof {
        lemma_names();
    }
    let mut key: String = "sk-".to_owned();
    key.append(api_token);
    let a = set_next(Ok(template.to_owned()), "apiKey", Some(key.as_str()));
    let b = set_next(a, "adminApiKey", Some(admin_token));
    let c = set_next(b, "systemVersion", system_version);
    match set_next(c, "kiroVersion", kiro_version) {
        Ok(s) => {
            let ghost json = s@;
            let mut out: String = s;
            out.append("\n");
            proof {
                if outside::takes_line_end(json) {
                    assert forall|other: Seq<char>| #[trigger]
                        outside::plain_name(other) implies outside::same_at(
                        out@,
                        json,
                        "/"@ + other,
                    ) by {
                        assert(outside::same_at(json + "\n"@, json, "/"@ + other));
                    }
                }
            }
            Ok(out)
        },
        Err(e) => Err(set_failure_text(e)),
    }
}

/// The first configuration on a desktop, with random keys.
pub fn build_default_config(
    template: &str,
    system_version: Option<&str>,
    kiro_version: Option<&str>,
) -> (r: Result<String, String>)
    ensures
        exists|a: Seq<char>, b: Seq<char>|
            {
                &&& #[trigger] is_token(a) && #[trigger] is_token(b)
                &&& match first_config(
                    template@,
                    a,
                    b,
                    match system_version {
                        Some(v) => Some(v@),
                        None => None,
                    },
                    match kiro_version {
                        Some(v) => Some(v@),
                        None => None,
                    },
                ) {
                    Ok(s) => r is Ok && r->Ok_0@ == s + "\n"@,
                    Err(e) => r is Err && r->Err_0@ == set_failure(e),
                }
                &&& r is Ok && outside::ordinary(template@) && (system_version matches Some(v)
                    ==> outside::ordinary_text(v@)) && (kiro_version matches Some(v)
                    ==> outside::ordinary_text(v@)) ==> is_first_config(
                    r->Ok_0@,
                    template@,
                    a,
                    b,
                    match system_version {
                        Some(v) => Some(v@),
                        None => None,
                    },
                    match kiro_version {
                        Some(v) => Some(v@),
                        None => None,
                    },
                )
            },
{
    let api_token: String = random_token();
    let admin_token: String = random_token();
    assert(is_token(api_token@) && is_token(admin_token@));
    proof {
        reveal_strlit("sk-");
        outside::lemma_ordinary_text("sk-"@ + api_token@);
        outside::lemma_ordinary_text(admin_token@);
    }
    config_with_tokens(
        template,
        api_token.as_str(),
        admin_token.as_str(),
        system_version,
        kiro_version,
    )
}

/// A file in a directory: the path begins with the directory and ends with the name, with one
/// separator in between, unless the directory is empty.
pub proof fn law_joined(style: PathStyle, dir: Seq<char>, name: Seq<char>)
    ensures
        text::begins_with(joined(style, dir, name), dir),
        text::ends_in(joined(style, dir, name), name),
        dir.len() == 0 ==> joined(style, dir, name) == name,
        dir.len() > 0 ==> parts_path(
            style,
            joined(style, dir, name)[joined(style, dir, name).len() - name.len() - 1],
        ),
        joined(style, dir, name).len() <= dir.len() + 1 + name.len(),
{
    reveal_strlit("/");
    reveal_strlit("\\");
    let s = joined(style, dir, name);
    assert(s.subrange(0, dir.len() as int) =~= dir);
    assert(s.skip(s.len() - name.len()) =~= name);
    if dir.len() > 0 {
        let k = s.len() - name.len() - 1;
        if parts_path(style, dir.last()) {
            assert(s[k] == dir.last());
        } else {
            assert(s[k] == separator(style)[0]);
        }
    }
}

/// A file is where it is said to be. Otherwise a server has it where it runs, and a desktop among
/// its data.
pub proof fn law_place_of_a_file(style: PathStyle, dir: Seq<char>, name: Seq<char>, said: Seq<char>)
    ensures
        given_or(Some(said), name) == said,
        given_or(None, name) == name,
        default_place(RuntimeMode::Server, style, dir, name) == name,
        text::begins_with(default_place(RuntimeMode::Desktop, style, dir, name), dir),
        text::ends_in(default_place(RuntimeMode::Desktop, style, dir, name), name),
{
    law_joined(style, dir, name);
}

} // verus!
