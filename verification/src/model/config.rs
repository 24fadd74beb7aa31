//! The configuration of the service.

use vstd::prelude::*;
use vstd::string::*;
use crate::outside;
use crate::text;

verus! {

/// The library that encrypts connections.
#[derive(Debug, Clone, Copy, PartialEq, Eq, Structural)]
pub enum TlsBackend {
    Rustls,
    NativeTls,
}

impl Default for TlsBackend {
    fn default() -> (r: Self)
        ensures
            r == TlsBackend::NativeTls,
    {
        TlsBackend::NativeTls
    }
}

/// When a long file is to be written in pieces. A tool call that is too long is cut
/// off, and then lost as a whole; advice to write in pieces avoids that, at the price
/// of more requests.
#[derive(Debug, Clone, Copy, PartialEq, Eq, Structural)]
pub struct ChunkedWritePolicy {
    pub enabled: bool,
    /// Content of more lines than these is to be written in pieces.
    pub trigger_lines: u32,
    /// The lines of a piece at most.
    pub chunk_lines: u32,
}

/// The policy where none is given.
pub open spec fn default_policy() -> ChunkedWritePolicy {
    ChunkedWritePolicy { enabled: false, trigger_lines: 150, chunk_lines: 50 }
}

impl Default for ChunkedWritePolicy {
    fn default() -> (r: Self)
        ensures
            r == default_policy(),
    {
        ChunkedWritePolicy { enabled: false, trigger_lines: 150, chunk_lines: 50 }
    }
}

/// A policy as it stands in a configuration file. A single number of lines stands for
/// both others, and either may be given in bytes.
#[derive(Debug, Clone, Copy)]
pub struct ChunkedWriteFields {
    pub enabled: bool,
    pub trigger_lines: Option<u32>,
    pub chunk_lines: Option<u32>,
    pub write_limit_lines: Option<u32>,
    pub trigger_bytes: Option<u32>,
    pub chunk_bytes: Option<u32>,
}

/// The bytes of a line, where a policy is given in bytes.
pub const LEGACY_BYTES_PER_LINE: u32 = 35;

/// The lines that hold so many bytes: rounded up, and at least one.
pub open spec fn lines_for(bytes: nat) -> nat {
    if bytes == 0 {
        1
    } else {
        (bytes + 34) / 35
    }
}

/// The number of lines that a policy means: the number itself, or else the single
/// number, or else the number of bytes in lines, or else the default.
pub open spec fn lines_meant(
    lines: Option<u32>,
    single: Option<u32>,
    bytes: Option<u32>,
    default_lines: nat,
) -> nat {
    match (lines, single, bytes) {
        (Some(n), _, _) => n as nat,
        (None, Some(n), _) => n as nat,
        (None, None, Some(b)) => lines_for(b as nat),
        (None, None, None) => default_lines,
    }
}

fn lines_of_bytes(bytes: u32) -> (r: u32)
    ensures
        r == lines_for(bytes as nat),
{
    if bytes == 0 {
        1
    } else {
        (bytes - 1) / LEGACY_BYTES_PER_LINE + 1
    }
}

fn meant(lines: Option<u32>, single: Option<u32>, bytes: Option<u32>, default_lines: u32) -> (r:
    u32)
    ensures
        r == lines_meant(lines, single, bytes, default_lines as nat),
{
    match lines {
        Some(n) => n,
        None => match single {
            Some(n) => n,
            None => match bytes {
                Some(b) => lines_of_bytes(b),
                None => default_lines,
            },
        },
    }
}

impl ChunkedWritePolicy {
    /// The policy that a configuration file means. Content that fits in a piece needs
    /// no others, so the trigger is at least the length of a piece.
    pub fn from_fields(f: &ChunkedWriteFields) -> (r: Self)
        ensures
            r.enabled == f.enabled,
            r.chunk_lines == lines_meant(f.chunk_lines, f.write_limit_lines, f.chunk_bytes, 50),
            ({
                let t = lines_meant(f.trigger_lines, f.write_limit_lines, f.trigger_bytes, 150);
                r.trigger_lines == if t < r.chunk_lines {
                    r.chunk_lines as nat
                } else {
                    t
                }
            }),
    {
        let chunk: u32 = meant(f.chunk_lines, f.write_limit_lines, f.chunk_bytes, 50);
        let trigger: u32 = meant(f.trigger_lines, f.write_limit_lines, f.trigger_bytes, 150);
        ChunkedWritePolicy {
            enabled: f.enabled,
            trigger_lines: if trigger < chunk {
                chunk
            } else {
                trigger
            },
            chunk_lines: chunk,
        }
    }

    /// The policy that a mere switch means: the default one, on or off.
    pub fn from_switch(enabled: bool) -> (r: Self)
        ensures
            r == (ChunkedWritePolicy { enabled, ..default_policy() }),
    {
        ChunkedWritePolicy { enabled, trigger_lines: 150, chunk_lines: 50 }
    }
}

/// A model: how names are matched with it, and how it is shown.
#[derive(Debug, Clone)]
pub struct ModelDef {
    pub family: String,
    pub version: Option<String>,
    pub kiro_id: String,
    pub display_id: String,
    pub display_name: String,
    /// When it was made, in seconds since 1970.
    pub created: i64,
    pub max_tokens: i32,
    pub context_window: i32,
}

/// The view of a model.
pub struct ModelView {
    pub family: Seq<char>,
    pub version: Option<Seq<char>>,
    pub kiro_id: Seq<char>,
    pub display_id: Seq<char>,
    pub display_name: Seq<char>,
    pub created: i64,
    pub max_tokens: i32,
    pub context_window: i32,
}

impl View for ModelDef {
    type V = ModelView;

    open spec fn view(&self) -> ModelView {
        ModelView {
            family: self.family@,
            version: text::opt_view(self.version),
            kiro_id: self.kiro_id@,
            display_id: self.display_id@,
            display_name: self.display_name@,
            created: self.created,
            max_tokens: self.max_tokens,
            context_window: self.context_window,
        }
    }
}

pub open spec fn models_view(models: Seq<ModelDef>) -> Seq<ModelView> {
    models.map_values(|m: ModelDef| m@)
}

pub open spec fn models_opt_view(models: Option<Vec<ModelDef>>) -> Option<Seq<ModelView>> {
    match models {
        Some(v) => Some(models_view(v@)),
        None => None,
    }
}

impl ModelDef {
    /// The same model again.
    pub fn duplicate(&self) -> (r: Self)
        ensures
            r@ == self@,
    {
        ModelDef {
            family: self.family.clone(),
            version: text::clone_opt(&self.version),
            kiro_id: self.kiro_id.clone(),
            display_id: self.display_id.clone(),
            display_name: self.display_name.clone(),
            created: self.created,
            max_tokens: self.max_tokens,
            context_window: self.context_window,
        }
    }
}

/// The name that the built-in models share: `id` is what their ids start with, `title` what the
/// names that are shown start with.
#[derive(Debug, Clone)]
pub struct ModelLine {
    pub id: String,
    pub title: String,
}

/// A [`ModelLine`], by what it holds.
pub struct ModelLineView {
    pub id: Seq<char>,
    pub title: Seq<char>,
}

impl View for ModelLine {
    type V = ModelLineView;

    open spec fn view(&self) -> ModelLineView {
        ModelLineView { id: self.id@, title: self.title@ }
    }
}

/// A built-in model. Its ids and its name are those of the line, with what is its own behind.
pub open spec fn known_model(
    line: ModelLineView,
    family: Seq<char>,
    version: Option<Seq<char>>,
    kiro_id: Seq<char>,
    display_id: Seq<char>,
    display_name: Seq<char>,
    created: i64,
    max_tokens: i32,
    context_window: i32,
) -> ModelView {
    ModelView {
        family,
        version,
        kiro_id: line.id + kiro_id,
        display_id: line.id + display_id,
        display_name: line.title + display_name,
        created,
        max_tokens,
        context_window,
    }
}

fn with_suffix(s: &str, suffix: &str) -> (r: String)
    ensures
        r@ == s@ + suffix@,
{
    let mut r: String = s.to_owned();
    r.append(suffix);
    r
}

fn model_def(
    line: &ModelLine,
    family: &str,
    version: Option<&str>,
    kiro_id: &str,
    display_id: &str,
    display_name: &str,
    created: i64,
    max_tokens: i32,
    context_window: i32,
) -> (r: ModelDef)
    ensures
        r@ == known_model(
            line@,
            family@,
            match version {
                Some(v) => Some(v@),
                None => None,
            },
            kiro_id@,
            display_id@,
            display_name@,
            created,
            max_tokens,
            context_window,
        ),
{
    ModelDef {
        family: family.to_owned(),
        version: match version {
            Some(v) => Some(v.to_owned()),
            None => None,
        },
        kiro_id: with_suffix(line.id.as_str(), kiro_id),
        display_id: with_suffix(line.id.as_str(), display_id),
        display_name: with_suffix(line.title.as_str(), display_name),
        created,
        max_tokens,
        context_window,
    }
}

/// The models of a line where none are configured. A name is matched with them in this order:
/// within a family version 5 comes last, so that the last digit of 4.5 is not taken for it.
/// No date and no limits are published for version 5: it has those of the version that stands
/// first in its family.
pub open spec fn built_in_models(line: ModelLineView) -> Seq<ModelView> {
    seq![
        known_model(line, "opus"@, Some("4.8"@), "-opus-4.8"@, "-opus-4-8"@, " Opus 4.8"@, 1779897600, 128000, 1000000),
        known_model(line, "opus"@, Some("4.7"@), "-opus-4.7"@, "-opus-4-7"@, " Opus 4.7"@, 1776276000, 64000, 1000000),
        known_model(line, "opus"@, Some("4.6"@), "-opus-4.6"@, "-opus-4-6"@, " Opus 4.6"@, 1770163200, 64000, 1000000),
        known_model(line, "opus"@, Some("4.5"@), "-opus-4.5"@, "-opus-4-5-20251101"@, " Opus 4.5"@, 1763942400, 64000, 200000),
        known_model(line, "opus"@, Some("5"@), "-opus-5"@, "-opus-5"@, " Opus 5"@, 1779897600, 128000, 1000000),
        known_model(line, "sonnet"@, Some("4.6"@), "-sonnet-4.6"@, "-sonnet-4-6"@, " Sonnet 4.6"@, 1784249340, 64000, 1000000),
        known_model(line, "sonnet"@, Some("4.5"@), "-sonnet-4.5"@, "-sonnet-4-5-20250929"@, " Sonnet 4.5"@, 1759104000, 64000, 200000),
        known_model(line, "sonnet"@, Some("5"@), "-sonnet-5"@, "-sonnet-5"@, " Sonnet 5"@, 1784249340, 64000, 1000000),
        known_model(line, "haiku"@, None, "-haiku-4.5"@, "-haiku-4-5-20251001"@, " Haiku 4.5"@, 1760486400, 64000, 200000),
    ]
}

/// The models of a line where none are configured; see [`built_in_models`].
pub fn default_models(line: &ModelLine) -> (r: Vec<ModelDef>)
    ensures
        models_view(r@) == built_in_models(line@),
{
    let mut models: Vec<ModelDef> = Vec::new();
    models.push(model_def(line, "opus", Some("4.8"), "-opus-4.8", "-opus-4-8", " Opus 4.8", 1779897600, 128000, 1000000));
    models.push(model_def(line, "opus", Some("4.7"), "-opus-4.7", "-opus-4-7", " Opus 4.7", 1776276000, 64000, 1000000));
    models.push(model_def(line, "opus", Some("4.6"), "-opus-4.6", "-opus-4-6", " Opus 4.6", 1770163200, 64000, 1000000));
    models.push(model_def(line, "opus", Some("4.5"), "-opus-4.5", "-opus-4-5-20251101", " Opus 4.5", 1763942400, 64000, 200000));
    models.push(model_def(line, "opus", Some("5"), "-opus-5", "-opus-5", " Opus 5", 1779897600, 128000, 1000000));
    models.push(model_def(line, "sonnet", Some("4.6"), "-sonnet-4.6", "-sonnet-4-6", " Sonnet 4.6", 1784249340, 64000, 1000000));
    models.push(model_def(line, "sonnet", Some("4.5"), "-sonnet-4.5", "-sonnet-4-5-20250929", " Sonnet 4.5", 1759104000, 64000, 200000));
    models.push(model_def(line, "sonnet", Some("5"), "-sonnet-5", "-sonnet-5", " Sonnet 5", 1784249340, 64000, 1000000));
    models.push(model_def(line, "haiku", None, "-haiku-4.5", "-haiku-4-5-20251001", " Haiku 4.5", 1760486400, 64000, 200000));
    assert(models_view(models@) =~= built_in_models(line@));
    models
}

/// The configuration.
#[derive(Debug, Clone)]
pub struct Config {
    pub host: String,
    pub port: u16,
    pub region: String,
    /// The region for renewing tokens, where it is not `region`.
    pub auth_region: Option<String>,
    /// The region for requests, where it is not `region`.
    pub api_region: Option<String>,
    pub kiro_version: String,
    pub machine_id: Option<String>,
    pub api_key: Option<String>,
    pub system_version: String,
    pub node_version: String,
    /// The SDK version in the user agent of requests.
    pub streaming_sdk_version: String,
    /// The SDK version in the user agent when a token is renewed.
    pub sso_oidc_sdk_version: Option<String>,
    /// The SDK version in the user agent when limits are queried.
    pub runtime_sdk_version: Option<String>,
    pub tls_backend: TlsBackend,
    /// Where tokens are counted, if not here.
    pub count_tokens_api_url: Option<String>,
    pub count_tokens_api_key: Option<String>,
    pub count_tokens_auth_type: String,
    /// The HTTP proxy.
    pub proxy_url: Option<String>,
    pub proxy_username: Option<String>,
    pub proxy_password: Option<String>,
    pub admin_api_key: Option<String>,
    /// How credentials are picked: `priority`, `balanced` or `round-robin`.
    pub load_balancing_mode: String,
    /// The requests in a minute that a credential takes; zero sets no limit.
    pub credential_rpm: u32,
    pub credential_rpm_opus: Option<u32>,
    pub credential_rpm_sonnet: Option<u32>,
    pub credential_rpm_haiku: Option<u32>,
    /// How long to wait for a credential below its limit, in milliseconds.
    pub credential_rpm_max_wait_ms: u64,
    /// Whether a rate limit is passed on with the time to wait.
    pub passthrough_retry_after: bool,
    /// Whether thinking is set apart in answers that are not streamed.
    pub extract_thinking: bool,
    pub chunked_write_policy: ChunkedWritePolicy,
    /// Whether a truncated tool call is answered with advice to write in pieces.
    pub codex_truncation_correction: bool,
    /// The endpoint of a credential that names none.
    pub default_endpoint: String,
    /// The settings of each endpoint, as JSON.
    pub endpoints: Vec<(String, String)>,
    /// The models, where they are not the built-in ones.
    pub models: Option<Vec<ModelDef>>,
    /// The names under which clients know the models.
    pub model_aliases: Vec<(String, String)>,
    /// The model for a name that is not known.
    pub default_model: Option<String>,
    /// The file that the configuration came from.
    pub config_path: Option<String>,
}

/// The view of the configuration.
pub struct ConfigView {
    pub host: Seq<char>,
    pub port: u16,
    pub region: Seq<char>,
    pub auth_region: Option<Seq<char>>,
    pub api_region: Option<Seq<char>>,
    pub kiro_version: Seq<char>,
    pub machine_id: Option<Seq<char>>,
    pub api_key: Option<Seq<char>>,
    pub system_version: Seq<char>,
    pub node_version: Seq<char>,
    pub streaming_sdk_version: Seq<char>,
    pub sso_oidc_sdk_version: Option<Seq<char>>,
    pub runtime_sdk_version: Option<Seq<char>>,
    pub tls_backend: TlsBackend,
    pub count_tokens_api_url: Option<Seq<char>>,
    pub count_tokens_api_key: Option<Seq<char>>,
    pub count_tokens_auth_type: Seq<char>,
    pub proxy_url: Option<Seq<char>>,
    pub proxy_username: Option<Seq<char>>,
    pub proxy_password: Option<Seq<char>>,
    pub admin_api_key: Option<Seq<char>>,
    pub load_balancing_mode: Seq<char>,
    pub credential_rpm: u32,
    pub credential_rpm_opus: Option<u32>,
    pub credential_rpm_sonnet: Option<u32>,
    pub credential_rpm_haiku: Option<u32>,
    pub credential_rpm_max_wait_ms: u64,
    pub passthrough_retry_after: bool,
    pub extract_thinking: bool,
    pub chunked_write_policy: ChunkedWritePolicy,
    pub codex_truncation_correction: bool,
    pub default_endpoint: Seq<char>,
    pub endpoints: Seq<(Seq<char>, Seq<char>)>,
    pub models: Option<Seq<ModelView>>,
    pub model_aliases: Seq<(Seq<char>, Seq<char>)>,
    pub default_model: Option<Seq<char>>,
    pub config_path: Option<Seq<char>>,
}

impl View for Config {
    type V = ConfigView;

    open spec fn view(&self) -> ConfigView {
        ConfigView {
            host: self.host@,
            port: self.port,
            region: self.region@,
            auth_region: text::opt_view(self.auth_region),
            api_region: text::opt_view(self.api_region),
            kiro_version: self.kiro_version@,
            machine_id: text::opt_view(self.machine_id),
            api_key: text::opt_view(self.api_key),
            system_version: self.system_version@,
            node_version: self.node_version@,
            streaming_sdk_version: self.streaming_sdk_version@,
            sso_oidc_sdk_version: text::opt_view(self.sso_oidc_sdk_version),
            runtime_sdk_version: text::opt_view(self.runtime_sdk_version),
            tls_backend: self.tls_backend,
            count_tokens_api_url: text::opt_view(self.count_tokens_api_url),
            count_tokens_api_key: text::opt_view(self.count_tokens_api_key),
            count_tokens_auth_type: self.count_tokens_auth_type@,
            proxy_url: text::opt_view(self.proxy_url),
            proxy_username: text::opt_view(self.proxy_username),
            proxy_password: text::opt_view(self.proxy_password),
            admin_api_key: text::opt_view(self.admin_api_key),
            load_balancing_mode: self.load_balancing_mode@,
            credential_rpm: self.credential_rpm,
            credential_rpm_opus: self.credential_rpm_opus,
            credential_rpm_sonnet: self.credential_rpm_sonnet,
            credential_rpm_haiku: self.credential_rpm_haiku,
            credential_rpm_max_wait_ms: self.credential_rpm_max_wait_ms,
            passthrough_retry_after: self.passthrough_retry_after,
            extract_thinking: self.extract_thinking,
            chunked_write_policy: self.chunked_write_policy,
            codex_truncation_correction: self.codex_truncation_correction,
            default_endpoint: self.default_endpoint@,
            endpoints: text::pairs_view(self.endpoints@),
            models: models_opt_view(self.models),
            model_aliases: text::pairs_view(self.model_aliases@),
            default_model: text::opt_view(self.default_model),
            config_path: text::opt_view(self.config_path),
        }
    }
}

/// The configuration where none is given, with the version of the operating system
/// that clients are to appear with.
pub open spec fn default_config(system_version: Seq<char>) -> ConfigView {
    ConfigView {
        host: "127.0.0.1"@,
        port: 8080,
        region: "us-east-1"@,
        auth_region: None,
        api_region: None,
        kiro_version: "0.11.107"@,
        machine_id: None,
        api_key: None,
        system_version,
        node_version: "22.22.0"@,
        streaming_sdk_version: "1.0.39"@,
        sso_oidc_sdk_version: None,
        runtime_sdk_version: None,
        tls_backend: TlsBackend::NativeTls,
        count_tokens_api_url: None,
        count_tokens_api_key: None,
        count_tokens_auth_type: "x-api-key"@,
        proxy_url: None,
        proxy_username: None,
        proxy_password: None,
        admin_api_key: None,
        load_balancing_mode: "priority"@,
        credential_rpm: 0,
        credential_rpm_opus: None,
        credential_rpm_sonnet: None,
        credential_rpm_haiku: None,
        credential_rpm_max_wait_ms: 0,
        passthrough_retry_after: false,
        extract_thinking: true,
        chunked_write_policy: default_policy(),
        codex_truncation_correction: true,
        default_endpoint: "ide"@,
        endpoints: Seq::empty(),
        models: None,
        model_aliases: Seq::empty(),
        default_model: None,
        config_path: None,
    }
}

/// The operating systems that clients may appear with.
pub open spec fn system_version_choice(choice: nat) -> Seq<char> {
    if choice == 0 {
        "darwin#24.6.0"@
    } else {
        "win32#10.0.22631"@
    }
}

/// One of the operating systems.
pub fn system_version_for(choice: u64) -> (r: String)
    ensures
        r@ == system_version_choice(choice as nat),
{
    if choice == 0 {
        "darwin#24.6.0".to_owned()
    } else {
        "win32#10.0.22631".to_owned()
    }
}

/// One of the operating systems, by chance.
pub fn default_system_version() -> (r: String)
    ensures
        r@ == system_version_choice(0) || r@ == system_version_choice(1),
{
    let choice: u64 = outside::random_up_to(1);
    system_version_for(choice)
}

/// The configuration where none is given; see [`default_config`].
pub fn config_with_system(system_version: String) -> (r: Config)
    ensures
        r@ == default_config(system_version@),
{
    let r = Config {
        host: "127.0.0.1".to_owned(),
        port: 8080,
        region: "us-east-1".to_owned(),
        auth_region: None,
        api_region: None,
        kiro_version: "0.11.107".to_owned(),
        machine_id: None,
        api_key: None,
        system_version,
        node_version: "22.22.0".to_owned(),
        streaming_sdk_version: "1.0.39".to_owned(),
        sso_oidc_sdk_version: None,
        runtime_sdk_version: None,
        tls_backend: TlsBackend::NativeTls,
        count_tokens_api_url: None,
        count_tokens_api_key: None,
        count_tokens_auth_type: "x-api-key".to_owned(),
        proxy_url: None,
        proxy_username: None,
        proxy_password: None,
        admin_api_key: None,
        load_balancing_mode: "priority".to_owned(),
        credential_rpm: 0,
        credential_rpm_opus: None,
        credential_rpm_sonnet: None,
        credential_rpm_haiku: None,
        credential_rpm_max_wait_ms: 0,
        passthrough_retry_after: false,
        extract_thinking: true,
        chunked_write_policy: ChunkedWritePolicy::default(),
        codex_truncation_correction: true,
        default_endpoint: "ide".to_owned(),
        endpoints: Vec::new(),
        models: None,
        model_aliases: Vec::new(),
        default_model: None,
        config_path: None,
    };
    assert(r@.endpoints =~= Seq::empty());
    assert(r@.model_aliases =~= Seq::empty());
    r
}

impl Default for Config {
    fn default() -> (r: Self)
        ensures
            r@ == default_config(system_version_choice(0)) || r@ == default_config(
                system_version_choice(1),
            ),
    {
        config_with_system(default_system_version())
    }
}

/// A value that is set, or else another one.
pub open spec fn set_or(value: Option<Seq<char>>, other: Seq<char>) -> Seq<char> {
    match value {
        Some(s) => s,
        None => other,
    }
}

/// A value that is set and not empty, or else another one.
pub open spec fn filled_or(value: Option<Seq<char>>, other: Seq<char>) -> Seq<char> {
    match value {
        Some(s) => if s.len() > 0 {
            s
        } else {
            other
        },
        None => other,
    }
}

/// The last pair whose key is this one but for its case, counted from the end of
/// `pairs`; a name in another case is the same name.
pub open spec fn alias_of(pairs: Seq<(Seq<char>, Seq<char>)>, name: Seq<char>) -> Option<Seq<char>>
    decreases pairs.len(),
{
    if pairs.len() == 0 {
        None
    } else if outside::lowercase(pairs.last().0) == name {
        Some(pairs.last().1)
    } else {
        alias_of(pairs.drop_last(), name)
    }
}

impl Config {
    /// Where the configuration is by default.
    pub fn default_config_path() -> (r: &'static str)
        ensures
            r@ == "config.json"@,
    {
        "config.json"
    }

    /// The region for renewing tokens.
    pub fn effective_auth_region(&self) -> (r: &str)
        ensures
            r@ == set_or(self@.auth_region, self@.region),
    {
        match &self.auth_region {
            Some(s) => s.as_str(),
            None => self.region.as_str(),
        }
    }

    /// The region for requests.
    pub fn effective_api_region(&self) -> (r: &str)
        ensures
            r@ == set_or(self@.api_region, self@.region),
    {
        match &self.api_region {
            Some(s) => s.as_str(),
            None => self.region.as_str(),
        }
    }

    /// The SDK version for renewing tokens.
    pub fn effective_sso_oidc_sdk_version(&self) -> (r: &str)
        ensures
            r@ == filled_or(self@.sso_oidc_sdk_version, "3.980.0"@),
    {
        match &self.sso_oidc_sdk_version {
            Some(s) => if s.as_str().is_empty() {
                "3.980.0"
            } else {
                s.as_str()
            },
            None => "3.980.0",
        }
    }

    /// The SDK version for querying limits.
    pub fn effective_runtime_sdk_version(&self) -> (r: &str)
        ensures
            r@ == filled_or(self@.runtime_sdk_version, "1.0.0"@),
    {
        match &self.runtime_sdk_version {
            Some(s) => if s.as_str().is_empty() {
                "1.0.0"
            } else {
                s.as_str()
            },
            None => "1.0.0",
        }
    }

    /// The models: those that are configured, or else the built-in ones of `line`.
    pub fn effective_models(&self, line: &ModelLine) -> (r: Vec<ModelDef>)
        ensures
            models_view(r@) == match self@.models {
                Some(v) => v,
                None => built_in_models(line@),
            },
    {
        match &self.models {
            Some(v) => {
                let mut r: Vec<ModelDef> = Vec::new();
                let mut i: usize = 0;
                while i < v.len()
                    invariant
                        i <= v@.len(),
                        models_view(r@) == models_view(v@).take(i as int),
                    decreases v@.len() - i,
                {
                    let ghost before = models_view(r@);
                    r.push(v[i].duplicate());
                    assert(models_view(r@) =~= before.push(v@[i as int]@));
                    assert(models_view(v@).take(i + 1) =~= models_view(v@).take(i as int).push(
                        v@[i as int]@,
                    ));
                    i = i + 1;
                }
                assert(models_view(v@).take(i as int) =~= models_view(v@));
                r
            },
            None => default_models(line),
        }
    }

    /// The aliases of models, under their names in lower case. Where several differ
    /// only in their case, the last one counts.
    pub fn effective_model_aliases(&self) -> (r: Vec<(String, String)>)
        ensures
            text::keys_distinct(text::pairs_view(r@)),
            forall|name: Seq<char>|
                #[trigger] text::value_of(text::pairs_view(r@), name) == alias_of(
                    self@.model_aliases,
                    name,
                ),
    {
        let v = &self.model_aliases;
        let mut r: Vec<(String, String)> = Vec::new();
        let ghost all = text::pairs_view(v@);
        let mut i: usize = 0;
        assert(text::pairs_view(r@) =~= Seq::empty());
        while i < v.len()
            invariant
                v == &self.model_aliases,
                all == text::pairs_view(v@),
                i <= v@.len(),
                text::keys_distinct(text::pairs_view(r@)),
                forall|name: Seq<char>|
                    #[trigger] text::value_of(text::pairs_view(r@), name) == alias_of(
                        all.take(i as int),
                        name,
                    ),
            decreases v@.len() - i,
        {
            let key: String = outside::to_lowercase(v[i].0.as_str());
            let value: String = v[i].1.clone();
            proof {
                let next = all.take(i + 1);
                assert(next.drop_last() =~= all.take(i as int));
                assert(next.last() == (v@[i as int].0@, v@[i as int].1@));
            }
            text::put(&mut r, key, value);
            i = i + 1;
        }
        assert(all.take(i as int) =~= all);
        r
    }

    /// The file that the configuration came from.
    pub fn config_path(&self) -> (r: Option<&str>)
        ensures
            (match r {
                Some(s) => Some(s@),
                None => None,
            }) == self@.config_path,
    {
        match &self.config_path {
            Some(s) => Some(s.as_str()),
            None => None,
        }
    }

    /// Where the configuration is to be written, or why it cannot be.
    pub fn save_path(&self) -> (r: Result<&str, &'static str>)
        ensures
            match r {
                Ok(s) => self@.config_path == Some(s@),
                Err(e) => self@.config_path is None && e@ == "配置文件路径未知，无法保存配置"@,
            },
    {
        match &self.config_path {
            Some(s) => Ok(s.as_str()),
            None => Err("配置文件路径未知，无法保存配置"),
        }
    }
}

/// Bytes are rounded up to lines: so many lines hold them, one line less would not,
/// and even no bytes at all take a line.
pub proof fn law_lines_for_bytes(bytes: nat)
    ensures
        lines_for(bytes) >= 1,
        lines_for(bytes) * 35 >= bytes,
        bytes > 0 ==> (lines_for(bytes) - 1) * 35 < bytes,
{
}

/// An alias means what the last pair says that has its name, whatever the case of the name in
/// the pair; without such a pair it means nothing.
pub proof fn law_last_alias_counts(pairs: Seq<(Seq<char>, Seq<char>)>, name: Seq<char>)
    ensures
        match alias_of(pairs, name) {
            Some(v) => exists|i: int|
                0 <= i < pairs.len() && (#[trigger] pairs[i]).1 == v && outside::lowercase(
                    pairs[i].0,
                ) == name && forall|j: int|
                    i < j < pairs.len() ==> outside::lowercase((#[trigger] pairs[j]).0) != name,
            None => forall|i: int|
                0 <= i < pairs.len() ==> outside::lowercase((#[trigger] pairs[i]).0) != name,
        },
    decreases pairs.len(),
{
    if pairs.len() > 0 {
        let last = pairs.len() - 1;
        let rest = pairs.drop_last();
        law_last_alias_counts(rest, name);
        if outside::lowercase(pairs[last].0) != name {
            if let Some(v) = alias_of(pairs, name) {
                let i = choose|i: int|
                    0 <= i < rest.len() && (#[trigger] rest[i]).1 == v && outside::lowercase(
                        rest[i].0,
                    ) == name && forall|j: int|
                        i < j < rest.len() ==> outside::lowercase((#[trigger] rest[j]).0) != name;
                assert(pairs[i].1 == v);
                assert forall|j: int| i < j < pairs.len() implies outside::lowercase(
                    (#[trigger] pairs[j]).0,
                ) != name by {
                    if j < rest.len() {
                        assert(rest[j] == pairs[j]);
                    }
                }
            } else {
                assert forall|i: int| 0 <= i < pairs.len() implies outside::lowercase(
                    (#[trigger] pairs[i]).0,
                ) != name by {
                    if i < rest.len() {
                        assert(rest[i] == pairs[i]);
                    }
                }
            }
        } else {
            assert(pairs[last].1 == pairs.last().1);
        }
    }
}

/// A number of lines that is given counts before any other; then the single number for both;
/// then the bytes, as the lines that hold them; and the default only where nothing is given.
pub proof fn law_lines_come_first(n: u32, single: Option<u32>, bytes: Option<u32>, other: nat)
    ensures
        lines_meant(Some(n), single, bytes, other) == n,
        lines_meant(None, Some(n), bytes, other) == n,
        35 * lines_meant(None, None, Some(n), other) >= n,
        n > 0 ==> 35 * (lines_meant(None, None, Some(n), other) - 1) < n,
        lines_meant(None, None, None, other) == other,
{
}

/// A value that is set is used, and one that must not be empty is used unless it is.
pub proof fn law_set_values_are_used(value: Seq<char>, other: Seq<char>)
    ensures
        set_or(Some(value), other) == value,
        set_or(None, other) == other,
        value.len() > 0 ==> filled_or(Some(value), other) == value,
        value.len() == 0 ==> filled_or(Some(value), other) == other,
        filled_or(None, other) == other,
{
}

/// The id of a version of a family in the upstream service.
pub open spec fn upstream_id(line: ModelLineView, family: Seq<char>, version: Seq<char>) -> Seq<
    char,
> {
    line.id + "-"@ + family + "-"@ + version
}

/// A built-in model that names its version has the id of that version of its family in the
/// upstream service, and no version of a family occurs twice. Within a family version 5 comes
/// last, with the date and the limits of the version that stands first.
pub proof fn law_built_in_models(line: ModelLineView, i: int, j: int)
    requires
        0 <= i < built_in_models(line).len(),
        0 <= j < built_in_models(line).len(),
    ensures
        ({
            let a = built_in_models(line)[i];
            let b = built_in_models(line)[j];
            &&& a.version matches Some(v) ==> a.kiro_id == upstream_id(line, a.family, v)
            &&& i != j ==> a.family != b.family || a.version != b.version
            &&& a.family == b.family && b.version == Some("5"@) ==> i <= j
            &&& (a.family == b.family && b.version == Some("5"@) && (i == 0 || built_in_models(
                line,
            )[i - 1].family != a.family)) ==> a.created == b.created && a.max_tokens
                == b.max_tokens && a.context_window == b.context_window
        }),
{
    reveal_strlit("haiku");
    reveal_strlit("-");
    reveal_strlit("opus");
    reveal_strlit("4.8");
    reveal_strlit("-opus-4.8");
    reveal_strlit("4.7");
    reveal_strlit("-opus-4.7");
    reveal_strlit("4.6");
    reveal_strlit("-opus-4.6");
    reveal_strlit("4.5");
    reveal_strlit("-opus-4.5");
    reveal_strlit("5");
    reveal_strlit("-opus-5");
    reveal_strlit("sonnet");
    reveal_strlit("-sonnet-4.6");
    reveal_strlit("-sonnet-4.5");
    reveal_strlit("-sonnet-5");
    assert(line.id + "-opus-4.8"@ =~= upstream_id(line, "opus"@, "4.8"@));
    assert(line.id + "-opus-4.7"@ =~= upstream_id(line, "opus"@, "4.7"@));
    assert(line.id + "-opus-4.6"@ =~= upstream_id(line, "opus"@, "4.6"@));
    assert(line.id + "-opus-4.5"@ =~= upstream_id(line, "opus"@, "4.5"@));
    assert(line.id + "-opus-5"@ =~= upstream_id(line, "opus"@, "5"@));
    assert(line.id + "-sonnet-4.6"@ =~= upstream_id(line, "sonnet"@, "4.6"@));
    assert(line.id + "-sonnet-4.5"@ =~= upstream_id(line, "sonnet"@, "4.5"@));
    assert(line.id + "-sonnet-5"@ =~= upstream_id(line, "sonnet"@, "5"@));
    assert("opus"@.len() != "sonnet"@.len());
    assert("opus"@.len() != "haiku"@.len());
    assert("sonnet"@.len() != "haiku"@.len());
    assert("4.8"@[2] == '8' && "4.7"@[2] == '7' && "4.6"@[2] == '6' && "4.5"@[2] == '5');
    assert("5"@.len() == 1 && "4.8"@.len() == 3 && "4.7"@.len() == 3 && "4.6"@.len() == 3
        && "4.5"@.len() == 3);
}

} // verus!
