//! What is decided before the service runs.

use vstd::prelude::*;
use vstd::string::*;
use crate::admin::service;
use crate::app::paths::RuntimeMode;
use crate::model::config::Config;
use crate::outside;
use crate::text;

verus! {

/// Why the service does not start.
#[derive(Debug)]
pub enum StartupError {
    Config(String),
    Credentials(String),
    MissingApiKey,
    UnknownDefaultEndpoint(String),
    UnknownCredentialEndpoint { id: Option<u64>, endpoint: String },
    TokenManager(String),
    Bind(String),
}

/// The view of why the service does not start.
pub enum StartupErrorView {
    Config(Seq<char>),
    Credentials(Seq<char>),
    MissingApiKey,
    UnknownDefaultEndpoint(Seq<char>),
    UnknownCredentialEndpoint { id: Option<u64>, endpoint: Seq<char> },
    TokenManager(Seq<char>),
    Bind(Seq<char>),
}

impl View for StartupError {
    type V = StartupErrorView;

    open spec fn view(&self) -> StartupErrorView {
        match *self {
            StartupError::Config(e) => StartupErrorView::Config(e@),
            StartupError::Credentials(e) => StartupErrorView::Credentials(e@),
            StartupError::MissingApiKey => StartupErrorView::MissingApiKey,
            StartupError::UnknownDefaultEndpoint(e) => StartupErrorView::UnknownDefaultEndpoint(
                e@,
            ),
            StartupError::UnknownCredentialEndpoint {
                id,
                endpoint,
            } => StartupErrorView::UnknownCredentialEndpoint { id, endpoint: endpoint@ },
            StartupError::TokenManager(e) => StartupErrorView::TokenManager(e@),
            StartupError::Bind(e) => StartupErrorView::Bind(e@),
        }
    }
}

impl StartupErrorView {
    /// The error in words.
    pub open spec fn text(self) -> Seq<char> {
        match self {
            StartupErrorView::Config(e) => "加载配置失败: "@ + e,
            StartupErrorView::Credentials(e) => "加载凭证失败: "@ + e,
            StartupErrorView::MissingApiKey => "配置文件中未设置 apiKey"@,
            StartupErrorView::UnknownDefaultEndpoint(name) => "默认端点 \""@ + name
                + "\" 未注册"@,
            StartupErrorView::UnknownCredentialEndpoint { id, endpoint } => "凭据 id="@ + (
            match id {
                Some(n) => "Some("@ + text::digits(n as nat) + ")"@,
                None => "None"@,
            }) + " 指定了未知端点 \""@ + endpoint + "\""@,
            StartupErrorView::TokenManager(e) => "创建 Token 管理器失败: "@ + e,
            StartupErrorView::Bind(e) => "绑定监听地址失败: "@ + e,
        }
    }
}

fn two(a: &str, b: &str) -> (r: String)
    ensures
        r@ == a@ + b@,
{
    let mut s: String = a.to_owned();
    s.append(b);
    s
}

impl StartupError {
    /// The error in words; see [`StartupErrorView::text`].
    pub fn to_string(&self) -> (r: String)
        ensures
            r@ == self@.text(),
    {
        match self {
            StartupError::Config(e) => two("加载配置失败: ", e.as_str()),
            StartupError::Credentials(e) => two("加载凭证失败: ", e.as_str()),
            StartupError::MissingApiKey => "配置文件中未设置 apiKey".to_owned(),
            StartupError::UnknownDefaultEndpoint(name) => {
                let mut s: String = two("默认端点 \"", name.as_str());
                s.append("\" 未注册");
                s
            },
            StartupError::UnknownCredentialEndpoint { id, endpoint } => {
                let mut shown: String = "None".to_owned();
                if let Some(n) = id {
                    shown = "Some(".to_owned();
                    text::push_u64(&mut shown, *n);
                    shown.append(")");
                }
                let mut s: String = two("凭据 id=", shown.as_str());
                s.append(" 指定了未知端点 \"");
                s.append(endpoint.as_str());
                s.append("\"");
                s
            },
            StartupError::TokenManager(e) => two("创建 Token 管理器失败: ", e.as_str()),
            StartupError::Bind(e) => two("绑定监听地址失败: ", e.as_str()),
        }
    }
}

/// The endpoint of a credential, as far as it names one.
#[derive(Debug)]
pub struct CredentialEndpoint {
    pub id: Option<u64>,
    pub endpoint: Option<String>,
}

/// A credential from the environment. It comes before all others.
#[derive(Debug)]
pub struct EnvCredential {
    pub kiro_api_key: String,
    pub auth_method: String,
    pub priority: u32,
}

/// The proxy, with a name and a password where there are both.
#[derive(Debug)]
pub struct ProxyConfig {
    pub url: String,
    pub auth: Option<(String, String)>,
}

/// What the service starts with.
#[derive(Debug)]
pub struct StartupPlan {
    pub api_key: String,
    pub env_credential: Option<EnvCredential>,
    pub proxy: Option<ProxyConfig>,
    /// The administrator's key; without one there is no administration.
    pub admin_api_key: Option<String>,
}

/// The credential that the environment gives: none where its key is empty.
pub fn env_credential(key: Option<String>) -> (r: Option<EnvCredential>)
    ensures
        match r {
            Some(c) => {
                &&& key is Some && key.unwrap()@.len() > 0
                &&& c.kiro_api_key == key.unwrap()
                &&& c.auth_method@ == "api_key"@
                &&& c.priority == 0
            },
            None => key is None || key.unwrap()@.len() == 0,
        },
{
    match key {
        Some(k) => if k.as_str().is_empty() {
            None
        } else {
            Some(
                EnvCredential { kiro_api_key: k, auth_method: "api_key".to_owned(), priority: 0 },
            )
        },
        None => None,
    }
}

/// The view of the proxy.
pub open spec fn proxy_view(p: Option<ProxyConfig>) -> Option<
    (Seq<char>, Option<(Seq<char>, Seq<char>)>),
> {
    match p {
        Some(c) => Some(
            (
                c.url@,
                match c.auth {
                    Some(a) => Some((a.0@, a.1@)),
                    None => None,
                },
            ),
        ),
        None => None,
    }
}

/// The proxy that is configured.
pub open spec fn configured_proxy(
    url: Option<Seq<char>>,
    username: Option<Seq<char>>,
    password: Option<Seq<char>>,
) -> Option<(Seq<char>, Option<(Seq<char>, Seq<char>)>)> {
    match url {
        Some(u) => Some(
            (
                u,
                match (username, password) {
                    (Some(n), Some(p)) => Some((n, p)),
                    _ => None,
                },
            ),
        ),
        None => None,
    }
}

/// The proxy that is configured; see [`configured_proxy`].
pub fn proxy_of(config: &Config) -> (r: Option<ProxyConfig>)
    ensures
        proxy_view(r) == configured_proxy(
            config@.proxy_url,
            config@.proxy_username,
            config@.proxy_password,
        ),
{
    match &config.proxy_url {
        Some(url) => {
            let auth: Option<(String, String)> = match &config.proxy_username {
                Some(n) => match &config.proxy_password {
                    Some(p) => Some((n.clone(), p.clone())),
                    None => None,
                },
                None => None,
            };
            Some(ProxyConfig { url: url.clone(), auth })
        },
        None => None,
    }
}

/// The endpoint that a credential uses.
pub open spec fn endpoint_used(c: CredentialEndpoint, default_endpoint: Seq<char>) -> Seq<char> {
    match c.endpoint {
        Some(e) => e@,
        None => default_endpoint,
    }
}

/// What is wrong with the endpoints, from the credential at `from` on.
pub open spec fn endpoint_fault(
    credentials: Seq<CredentialEndpoint>,
    default_endpoint: Seq<char>,
    known: Seq<Seq<char>>,
    from: nat,
) -> Option<StartupErrorView>
    decreases credentials.len() - from,
{
    if from >= credentials.len() {
        None
    } else if !known.contains(endpoint_used(credentials[from as int], default_endpoint)) {
        Some(
            StartupErrorView::UnknownCredentialEndpoint {
                id: credentials[from as int].id,
                endpoint: endpoint_used(credentials[from as int], default_endpoint),
            },
        )
    } else {
        endpoint_fault(credentials, default_endpoint, known, from + 1)
    }
}

/// What keeps the service from starting: the first thing that is wrong.
pub open spec fn startup_fault(
    api_key: Option<Seq<char>>,
    default_endpoint: Seq<char>,
    credentials: Seq<CredentialEndpoint>,
    known: Seq<Seq<char>>,
) -> Option<StartupErrorView> {
    if api_key is None {
        Some(StartupErrorView::MissingApiKey)
    } else if !known.contains(default_endpoint) {
        Some(StartupErrorView::UnknownDefaultEndpoint(default_endpoint))
    } else {
        endpoint_fault(credentials, default_endpoint, known, 0)
    }
}

fn check_endpoints(
    credentials: &Vec<CredentialEndpoint>,
    default_endpoint: &str,
    known: &Vec<String>,
) -> (r: Result<(), StartupError>)
    ensures
        match endpoint_fault(
            credentials@,
            default_endpoint@,
            service::names_view(known@),
            0,
        ) {
            Some(e) => r is Err && r->Err_0@ == e,
            None => r is Ok,
        },
{
    let ghost names = service::names_view(known@);
    let n: usize = credentials.len();
    let mut i: usize = 0;
    while i < n
        invariant
            i <= n == credentials@.len(),
            names == service::names_view(known@),
            endpoint_fault(credentials@, default_endpoint@, names, 0) == endpoint_fault(
                credentials@,
                default_endpoint@,
                names,
                i as nat,
            ),
        decreases n - i,
    {
        let name: &str = match &credentials[i].endpoint {
            Some(e) => e.as_str(),
            None => default_endpoint,
        };
        if !service::is_known(known, name) {
            return Err(
                StartupError::UnknownCredentialEndpoint {
                    id: credentials[i].id,
                    endpoint: name.to_owned(),
                },
            );
        }
        i = i + 1;
    }
    Ok(())
}

/// The administrator's key, unless it is blank.
pub open spec fn usable_admin_key(key: Option<Seq<char>>) -> Option<Seq<char>> {
    match key {
        Some(k) => if text::all_white(k) {
            None
        } else {
            Some(k)
        },
        None => None,
    }
}

/// What the service starts with, or what keeps it from starting.
pub fn plan_startup(
    config: &Config,
    credentials: &Vec<CredentialEndpoint>,
    env_key: Option<String>,
    known_endpoints: &Vec<String>,
) -> (r: Result<StartupPlan, StartupError>)
    ensures
        match startup_fault(
            config@.api_key,
            config@.default_endpoint,
            credentials@,
            service::names_view(known_endpoints@),
        ) {
            Some(e) => r is Err && r->Err_0@ == e,
            None => {
                &&& r is Ok
                &&& Some(r->Ok_0.api_key@) == config@.api_key
                &&& text::opt_view(r->Ok_0.admin_api_key) == usable_admin_key(config@.admin_api_key)
                &&& proxy_view(r->Ok_0.proxy) == configured_proxy(
                    config@.proxy_url,
                    config@.proxy_username,
                    config@.proxy_password,
                )
                &&& r->Ok_0.env_credential is Some <==> env_key is Some && env_key.unwrap()@.len()
                    > 0
                &&& r->Ok_0.env_credential matches Some(c) ==> {
                    &&& c.kiro_api_key == env_key.unwrap()
                    &&& c.auth_method@ == "api_key"@
                    &&& c.priority == 0
                }
            },
        },
{
    let api_key: String = match &config.api_key {
        Some(k) => k.clone(),
        None => {
            return Err(StartupError::MissingApiKey);
        },
    };
    let default_endpoint: &str = config.default_endpoint.as_str();
    if !service::is_known(known_endpoints, default_endpoint) {
        return Err(StartupError::UnknownDefaultEndpoint(default_endpoint.to_owned()));
    }
    if let Err(e) = check_endpoints(credentials, default_endpoint, known_endpoints) {
        return Err(e);
    }
    let admin_api_key: Option<String> = match &config.admin_api_key {
        Some(k) => if text::is_blank(k.as_str()) {
            None
        } else {
            Some(k.clone())
        },
        None => None,
    };
    Ok(
        StartupPlan {
            api_key,
            env_credential: env_credential(env_key),
            proxy: proxy_of(config),
            admin_api_key,
        },
    )
}

/// A service that starts has a known endpoint for every credential.
pub proof fn law_started_credentials_have_endpoints(
    api_key: Option<Seq<char>>,
    default_endpoint: Seq<char>,
    credentials: Seq<CredentialEndpoint>,
    known: Seq<Seq<char>>,
    i: int,
)
    requires
        startup_fault(api_key, default_endpoint, credentials, known) is None,
        0 <= i < credentials.len(),
    ensures
        known.contains(endpoint_used(credentials[i], default_endpoint)),
{
    lemma_endpoints_known(credentials, default_endpoint, known, 0, i);
}

proof fn lemma_endpoints_known(
    credentials: Seq<CredentialEndpoint>,
    default_endpoint: Seq<char>,
    known: Seq<Seq<char>>,
    from: nat,
    i: int,
)
    requires
        endpoint_fault(credentials, default_endpoint, known, from) is None,
        from <= i < credentials.len(),
    ensures
        known.contains(endpoint_used(credentials[i], default_endpoint)),
    decreases credentials.len() - from,
{
    if from < i {
        lemma_endpoints_known(credentials, default_endpoint, known, from + 1, i);
    }
}

/// A service that has its address.
#[derive(Debug)]
pub struct Server {
    /// The port in use.
    pub port: u16,
    /// The port that was asked for.
    pub wanted_port: u16,
    pub admin_key: Option<String>,
}

impl Server {
    /// The port in use.
    pub fn local_port(&self) -> (r: u16)
        ensures
            r == self.port,
    {
        self.port
    }

    /// The port that was asked for.
    pub fn requested_port(&self) -> (r: u16)
        ensures
            r == self.wanted_port,
    {
        self.wanted_port
    }

    /// Whether another port is in use than was asked for.
    pub fn port_conflicted(&self) -> (r: bool)
        ensures
            r == (self.wanted_port != self.port),
    {
        self.wanted_port != self.port
    }

    /// The administrator's key, where there is administration.
    pub fn admin_api_key(&self) -> (r: Option<&str>)
        ensures
            (match r {
                Some(s) => Some(s@),
                None => None,
            }) == text::opt_view(self.admin_key),
    {
        match &self.admin_key {
            Some(s) => Some(s.as_str()),
            None => None,
        }
    }
}

/// Whether a port can be used: zero never, another where it can be bound on all
/// addresses.
pub fn is_port_available(port: u16, can_bind: bool) -> (r: bool)
    ensures
        r == (port != 0 && can_bind),
{
    port != 0 && can_bind
}

/// The addresses to try, one after the other.
pub open spec fn addresses(mode: RuntimeMode, host: Seq<char>, port: nat, available: bool) -> Seq<
    Seq<char>,
> {
    match mode {
        RuntimeMode::Server => seq![host + ":"@ + text::digits(port)],
        RuntimeMode::Desktop => if available {
            seq!["127.0.0.1:"@ + text::digits(port), "127.0.0.1:0"@]
        } else {
            seq!["127.0.0.1:0"@]
        },
    }
}

/// The addresses to try, one after the other. On a server there is the configured one
/// and no other. On a desktop any free port on the loopback address will do where the
/// configured one is in use.
pub fn bind_addresses(mode: RuntimeMode, host: &str, port: u16, available: bool) -> (r: Vec<String>)
    ensures
        service::names_view(r@) == addresses(mode, host@, port as nat, available),
{
    let mut r: Vec<String> = Vec::new();
    match mode {
        RuntimeMode::Server => {
            let mut s: String = two(host, ":");
            text::push_u64(&mut s, port as u64);
            r.push(s);
        },
        RuntimeMode::Desktop => {
            if available {
                let mut s: String = "127.0.0.1:".to_owned();
                text::push_u64(&mut s, port as u64);
                r.push(s);
            }
            r.push("127.0.0.1:0".to_owned());
        },
    }
    assert(service::names_view(r@) =~= addresses(mode, host@, port as nat, available));
    r
}

/// On a desktop the service is only ever reached from the machine itself.
pub proof fn law_desktop_stays_local(host: Seq<char>, port: nat, available: bool, i: int)
    requires
        0 <= i < addresses(RuntimeMode::Desktop, host, port, available).len(),
    ensures
        ({
            let a = addresses(RuntimeMode::Desktop, host, port, available)[i];
            a == "127.0.0.1:"@ + text::digits(port) || a == "127.0.0.1:0"@
        }),
        addresses(RuntimeMode::Desktop, host, port, available).last() == "127.0.0.1:0"@,
{
}

/// The port in a configuration, if it is one.
pub open spec fn port_in(n: Option<i64>) -> int {
    match n {
        Some(p) => if 0 <= p <= 65535 {
            p as int
        } else {
            8080
        },
        None => 8080,
    }
}

fn port_or_default(n: Option<i64>) -> (r: u16)
    ensures
        r == port_in(n),
{
    match n {
        Some(p) => if 0 <= p && p <= 65535 {
            p as u16
        } else {
            8080
        },
        None => 8080,
    }
}

/// The port in a configuration file, or the default one where there is none.
pub fn desktop_configured_port(content: Option<&str>) -> (r: u16)
    ensures
        r == port_in(
            match content {
                Some(s) => outside::json_int_at(s@, "/port"@),
                None => None,
            },
        ),
{
    match content {
        Some(s) => port_or_default(outside::json_i64_at(s, "/port")),
        None => 8080,
    }
}

/// A line end behind a JSON text changes none of its entries.
proof fn lemma_line_end(json: Seq<char>, before: Seq<char>, name: Seq<char>)
    requires
        outside::takes_line_end(json),
        outside::same_but_for(json, before, name),
    ensures
        outside::same_but_for(json + "\n"@, before, name),
        outside::same_at(json + "\n"@, json, "/"@ + name),
{
    assert(outside::same_at(json + "\n"@, json, "/"@ + name));
    assert forall|other: Seq<char>| #[trigger]
        outside::plain_name(other) && other != name implies outside::same_at(
        json + "\n"@,
        before,
        "/"@ + other,
    ) by {
        assert(outside::same_at(json + "\n"@, json, "/"@ + other));
    }
}

/// A configuration file with another port, or why it cannot be had. The port is then the
/// one that [`desktop_configured_port`] finds, and the rest is what it was, where the file
/// is ordinary.
pub fn desktop_set_configured_port(port: u16, content: &str) -> (r: Result<String, String>)
    ensures
        if port == 0 {
            r is Err && r->Err_0@ == "端口不能为 0"@
        } else {
            match outside::json_with_number(content@, "port"@, port as u64) {
                Ok(s) => r is Ok && r->Ok_0@ == s + "\n"@,
                Err(Some(e)) => r is Err && r->Err_0@ == "解析配置失败: "@ + e,
                Err(None) => r is Err && r->Err_0@ == "配置文件根节点不是对象"@,
            }
        },
        r is Ok && outside::ordinary(content@) ==> port_in(
            outside::json_int_at(r->Ok_0@, "/port"@),
        ) == port,
        r is Ok && outside::ordinary(content@) ==> outside::same_but_for(
            r->Ok_0@,
            content@,
            "port"@,
        ),
{
    proof {
        reveal_strlit("/");
        reveal_strlit("port");
        reveal_strlit("/port");
        assert("/"@ + "port"@ =~= "/port"@);
        outside::lemma_ordinary_text("port"@);
    }
    if port == 0 {
        return Err("端口不能为 0".to_owned());
    }
    match outside::set_json_number(content, "port", port as u64) {
        Ok(s) => {
            let ghost json = s@;
            let mut out: String = s;
            out.append("\n");
            proof {
                if outside::ordinary(content@) {
                    lemma_line_end(json, content@, "port"@);
                }
            }
            Ok(out)
        },
        Err(Some(e)) => Err(two("解析配置失败: ", e.as_str())),
        Err(None) => Err("配置文件根节点不是对象".to_owned()),
    }
}

/// Whether a key is missing or blank.
pub open spec fn lacking(key: Option<Seq<char>>) -> bool {
    match key {
        Some(k) => text::all_white(k),
        None => true,
    }
}

fn is_lacking(key: &Option<String>) -> (r: bool)
    ensures
        r == lacking(text::opt_view(*key)),
{
    match key {
        Some(k) => text::is_blank(k.as_str()),
        None => true,
    }
}

/// What is wrong with a configuration that is brought to a desktop, if anything: it
/// must be readable, and both keys must be there.
pub open spec fn import_fault(
    parsed: Result<(Option<Seq<char>>, Option<Seq<char>>), Seq<char>>,
    pretty: Result<Seq<char>, Seq<char>>,
) -> Option<Seq<char>> {
    match parsed {
        Err(e) => Some("配置格式非法，无法解析: "@ + e),
        Ok((api_key, admin_api_key)) => if lacking(api_key) {
            Some("导入的配置缺少 apiKey，桌面版无法启动"@)
        } else if lacking(admin_api_key) {
            Some("导入的配置缺少 adminApiKey，将导致管理界面无法访问"@)
        } else {
            match pretty {
                Ok(_) => None,
                Err(e) => Some("配置格式非法: "@ + e),
            }
        },
    }
}

pub open spec fn parsed_view(
    parsed: Result<(Option<String>, Option<String>), String>,
) -> Result<(Option<Seq<char>>, Option<Seq<char>>), Seq<char>> {
    match parsed {
        Ok(p) => Ok((text::opt_view(p.0), text::opt_view(p.1))),
        Err(e) => Err(e@),
    }
}

/// A configuration that is brought to a desktop, in order; or what is wrong with it.
/// The keys in it are given as they were read.
pub fn validate_desktop_config_json(
    content: &str,
    parsed: Result<(Option<String>, Option<String>), String>,
) -> (r: Result<String, String>)
    ensures
        match import_fault(parsed_view(parsed), outside::json_pretty(content@)) {
            Some(e) => r is Err && r->Err_0@ == e,
            None => r is Ok && outside::json_pretty(content@) == Ok::<Seq<char>, Seq<char>>(
                r->Ok_0@,
            ),
        },
        r is Ok && outside::ordinary(content@) ==> outside::takes_line_end(r->Ok_0@),
        r is Ok && outside::ordinary(content@) ==> forall|pointer: Seq<char>| #[trigger]
            outside::same_at(r->Ok_0@, content@, pointer),
{
    match parsed {
        Err(e) => Err(two("配置格式非法，无法解析: ", e.as_str())),
        Ok(keys) => {
            if is_lacking(&keys.0) {
                return Err("导入的配置缺少 apiKey，桌面版无法启动".to_owned());
            }
            if is_lacking(&keys.1) {
                return Err(
                    "导入的配置缺少 adminApiKey，将导致管理界面无法访问".to_owned(),
                );
            }
            match outside::pretty_json(content) {
                Ok(s) => Ok(s),
                Err(e) => Err(two("配置格式非法: ", e.as_str())),
            }
        },
    }
}

/// What is written for a configuration that is brought to a desktop, and its port; or
/// what is wrong with it. What is written says what was brought, where that is ordinary.
pub fn desktop_import_config(
    content: &str,
    parsed: Result<(Option<String>, Option<String>), String>,
) -> (r: Result<(String, u16), String>)
    ensures
        match import_fault(parsed_view(parsed), outside::json_pretty(content@)) {
            Some(e) => r is Err && r->Err_0@ == e,
            None => {
                let s = outside::json_pretty(content@)->Ok_0;
                &&& r is Ok
                &&& r->Ok_0.0@ == s + "\n"@
                &&& r->Ok_0.1 == port_in(outside::json_int_at(s, "/port"@))
            },
        },
        r is Ok && outside::ordinary(content@) ==> forall|pointer: Seq<char>| #[trigger]
            outside::same_at(r->Ok_0.0@, content@, pointer),
{
    match validate_desktop_config_json(content, parsed) {
        Ok(s) => {
            let port: u16 = desktop_configured_port(Some(s.as_str()));
            let ghost json = s@;
            let mut out: String = s;
            out.append("\n");
            proof {
                assert forall|pointer: Seq<char>| outside::ordinary(content@) implies #[trigger]
                    outside::same_at(out@, content@, pointer) by {
                    assert(outside::same_at(json + "\n"@, json, pointer));
                    assert(outside::same_at(json, content@, pointer));
                }
            }
            Ok((out, port))
        },
        Err(e) => Err(e),
    }
}

/// What keeps the service from starting is the first thing that is wrong: no key at all, then a
/// default endpoint that is not known, then the first credential whose endpoint is not known.
/// Where nothing of this is so, nothing keeps it.
pub proof fn law_first_fault_counts(
    api_key: Option<Seq<char>>,
    default_endpoint: Seq<char>,
    credentials: Seq<CredentialEndpoint>,
    known: Seq<Seq<char>>,
)
    ensures
        ({
            let fault = startup_fault(api_key, default_endpoint, credentials, known);
            &&& fault == Some(StartupErrorView::MissingApiKey) <==> api_key is None
            &&& fault == Some(StartupErrorView::UnknownDefaultEndpoint(default_endpoint))
                <==> api_key is Some && !known.contains(default_endpoint)
            &&& api_key is Some && known.contains(default_endpoint) ==> {
                ||| fault is None && forall|i: int|
                    0 <= i < credentials.len() ==> match (#[trigger] credentials[i]).endpoint {
                        Some(e) => known.contains(e@),
                        None => true,
                    }
                ||| exists|i: int|
                    {
                        &&& 0 <= i < credentials.len()
                        &&& (#[trigger] credentials[i]).endpoint is Some
                        &&& !known.contains(credentials[i].endpoint.unwrap()@)
                        &&& fault == Some(
                            StartupErrorView::UnknownCredentialEndpoint {
                                id: credentials[i].id,
                                endpoint: credentials[i].endpoint.unwrap()@,
                            },
                        )
                        &&& forall|j: int|
                            0 <= j < i ==> match (#[trigger] credentials[j]).endpoint {
                                Some(e) => known.contains(e@),
                                None => true,
                            }
                    }
            }
        }),
{
    if api_key is Some && known.contains(default_endpoint) {
        lemma_first_unknown(credentials, default_endpoint, known, 0);
    } else {
        lemma_endpoint_fault_kind(credentials, default_endpoint, known, 0);
    }
    lemma_endpoint_fault_kind(credentials, default_endpoint, known, 0);
}

proof fn lemma_endpoint_fault_kind(
    credentials: Seq<CredentialEndpoint>,
    default_endpoint: Seq<char>,
    known: Seq<Seq<char>>,
    from: nat,
)
    ensures
        endpoint_fault(credentials, default_endpoint, known, from) matches Some(e) ==> e
            is UnknownCredentialEndpoint,
    decreases credentials.len() - from,
{
    if from < credentials.len() {
        lemma_endpoint_fault_kind(credentials, default_endpoint, known, from + 1);
    }
}

proof fn lemma_first_unknown(
    credentials: Seq<CredentialEndpoint>,
    default_endpoint: Seq<char>,
    known: Seq<Seq<char>>,
    from: nat,
)
    requires
        known.contains(default_endpoint),
        from <= credentials.len(),
        forall|j: int|
            0 <= j < from ==> match (#[trigger] credentials[j]).endpoint {
                Some(e) => known.contains(e@),
                None => true,
            },
    ensures
        ({
            let fault = endpoint_fault(credentials, default_endpoint, known, from);
            ||| fault is None && forall|i: int|
                0 <= i < credentials.len() ==> match (#[trigger] credentials[i]).endpoint {
                    Some(e) => known.contains(e@),
                    None => true,
                }
            ||| exists|i: int|
                {
                    &&& 0 <= i < credentials.len()
                    &&& (#[trigger] credentials[i]).endpoint is Some
                    &&& !known.contains(credentials[i].endpoint.unwrap()@)
                    &&& fault == Some(
                        StartupErrorView::UnknownCredentialEndpoint {
                            id: credentials[i].id,
                            endpoint: credentials[i].endpoint.unwrap()@,
                        },
                    )
                    &&& forall|j: int|
                        0 <= j < i ==> match (#[trigger] credentials[j]).endpoint {
                            Some(e) => known.contains(e@),
                            None => true,
                        }
                }
        }),
    decreases credentials.len() - from,
{
    if from < credentials.len() {
        let c = credentials[from as int];
        if known.contains(endpoint_used(c, default_endpoint)) {
            lemma_first_unknown(credentials, default_endpoint, known, from + 1);
        } else {
            assert(c.endpoint is Some);
        }
    }
}

/// A proxy is used if and only if one is configured, at its address; with a name and a password
/// if and only if both are there.
pub proof fn law_proxy_as_configured(
    url: Option<Seq<char>>,
    username: Option<Seq<char>>,
    password: Option<Seq<char>>,
)
    ensures
        match configured_proxy(url, username, password) {
            Some((address, auth)) => {
                &&& url == Some(address)
                &&& auth is Some <==> username is Some && password is Some
                &&& auth matches Some((n, p)) ==> username == Some(n) && password == Some(p)
            },
            None => url is None,
        },
{
}

/// The port in a configuration is used if it is one, and 8080 otherwise.
pub proof fn law_port_as_configured(n: Option<i64>)
    ensures
        0 <= port_in(n) <= 65535,
        n matches Some(p) && 0 <= p <= 65535 ==> port_in(n) == n.unwrap(),
        !(n matches Some(p) && 0 <= p <= 65535) ==> port_in(n) == 8080,
{
}

/// A server listens at the configured address alone. A desktop tries the configured port first
/// if it is free, and any port otherwise.
pub proof fn law_addresses_as_configured(host: Seq<char>, port: nat)
    ensures
        addresses(RuntimeMode::Server, host, port, true) == seq![host + ":"@ + text::digits(port)],
        addresses(RuntimeMode::Server, host, port, false) == seq![host + ":"@ + text::digits(port)],
        addresses(RuntimeMode::Desktop, host, port, true).first() == "127.0.0.1:"@ + text::digits(
            port,
        ),
        addresses(RuntimeMode::Desktop, host, port, true).len() == 2,
        addresses(RuntimeMode::Desktop, host, port, false).len() == 1,
{
}

/// A configuration can be brought to a desktop if and only if it can be read and holds both
/// keys, neither of them blank. One that lacks the key of the service is told so first.
pub proof fn law_import_needs_both_keys(
    parsed: Result<(Option<Seq<char>>, Option<Seq<char>>), Seq<char>>,
    pretty: Result<Seq<char>, Seq<char>>,
)
    ensures
        import_fault(parsed, pretty) is None <==> parsed is Ok && pretty is Ok
            && parsed->Ok_0.0 is Some && parsed->Ok_0.1 is Some && !text::all_white(
            parsed->Ok_0.0.unwrap(),
        ) && !text::all_white(parsed->Ok_0.1.unwrap()),
        parsed matches Ok((None, _)) ==> import_fault(parsed, pretty) == Some(
            "导入的配置缺少 apiKey，桌面版无法启动"@,
        ),
        parsed matches Ok((Some(k), None)) ==> !text::all_white(parsed->Ok_0.0.unwrap())
            ==> import_fault(parsed, pretty) == Some(
            "导入的配置缺少 adminApiKey，将导致管理界面无法访问"@,
        ),
        parsed matches Err(e) ==> text::ends_in(import_fault(parsed, pretty).unwrap(), e),
{
    if let Err(e) = parsed {
        let s = import_fault(parsed, pretty).unwrap();
        assert(s.skip(s.len() - e.len()) =~= e);
    }
}

/// The administrator's key is used as it is, unless it is blank.
pub proof fn law_admin_key_is_used(key: Option<Seq<char>>)
    ensures
        usable_admin_key(key) is Some <==> key is Some && !text::all_white(key.unwrap()),
        usable_admin_key(key) is Some ==> usable_admin_key(key) == key,
{
}

/// What went wrong at the start is told in words that end in the cause, or that hold the name
/// of the endpoint that is not known and the number of the credential that asks for it.
pub proof fn law_startup_fault_is_told(e: Seq<char>, n: u64)
    ensures
        text::ends_in(StartupErrorView::Config(e).text(), e),
        text::ends_in(StartupErrorView::Credentials(e).text(), e),
        text::ends_in(StartupErrorView::TokenManager(e).text(), e),
        text::ends_in(StartupErrorView::Bind(e).text(), e),
        text::has_text(StartupErrorView::UnknownDefaultEndpoint(e).text(), e),
        ({
            let fault = StartupErrorView::UnknownCredentialEndpoint { id: Some(n), endpoint: e };
            text::has_text(fault.text(), e) && text::has_text(fault.text(), text::digits(n as nat))
        }),
        ({
            let fault = StartupErrorView::UnknownCredentialEndpoint { id: None, endpoint: e };
            text::has_text(fault.text(), e)
        }),
{
    let heads = seq![
        "加载配置失败: "@,
        "加载凭证失败: "@,
        "创建 Token 管理器失败: "@,
        "绑定监听地址失败: "@,
    ];
    assert forall|i: int| 0 <= i < 4 implies text::ends_in(#[trigger] heads[i] + e, e) by {
        let s = heads[i] + e;
        assert(s.subrange(s.len() - e.len(), s.len() as int) =~= e);
    }
    assert(StartupErrorView::Config(e).text() == heads[0] + e);
    assert(StartupErrorView::Credentials(e).text() == heads[1] + e);
    assert(StartupErrorView::TokenManager(e).text() == heads[2] + e);
    assert(StartupErrorView::Bind(e).text() == heads[3] + e);
    text::lemma_in_itself(e);
    text::lemma_in_whole("默认端点 \""@, e, e);
    text::lemma_in_whole("默认端点 \""@ + e, "\" 未注册"@, e);
    let digits = text::digits(n as nat);
    let id = "Some("@ + digits + ")"@;
    let middle = " 指定了未知端点 \""@;
    text::lemma_in_itself(digits);
    text::lemma_in_whole("Some("@, digits, digits);
    text::lemma_in_whole("Some("@ + digits, ")"@, digits);
    text::lemma_in_whole("凭据 id="@, id, digits);
    text::lemma_in_whole("凭据 id="@ + id, middle, digits);
    text::lemma_in_whole("凭据 id="@ + id + middle, e, digits);
    text::lemma_in_whole("凭据 id="@ + id + middle + e, "\""@, digits);
    text::lemma_in_whole("凭据 id="@ + id + middle, e, e);
    text::lemma_in_whole("凭据 id="@ + id + middle + e, "\""@, e);
    text::lemma_in_whole("凭据 id="@ + "None"@ + middle, e, e);
    text::lemma_in_whole("凭据 id="@ + "None"@ + middle + e, "\""@, e);
}

} // verus!
