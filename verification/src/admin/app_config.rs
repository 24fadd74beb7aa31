//! The configuration that the administrator can edit.

use vstd::prelude::*;
use vstd::string::*;
use crate::admin::service;
use crate::admin::service::AdminServiceError;
use crate::admin::types::{AppConfigResponse, UpdateAppConfigRequest};
use crate::model::config;
use crate::model::config::{ChunkedWritePolicy, Config, ModelDef, ModelLine};
use crate::outside;
use crate::text;

verus! {

/// The view of an edit.
pub struct UpdateView {
    pub api_key: Seq<char>,
    pub admin_api_key: Option<Seq<char>>,
    pub credential_rpm: u32,
    pub credential_rpm_opus: Option<u32>,
    pub credential_rpm_sonnet: Option<u32>,
    pub credential_rpm_haiku: Option<u32>,
    pub credential_rpm_max_wait_ms: Option<u64>,
    pub kiro_version: Seq<char>,
    pub machine_id: Option<Seq<char>>,
    pub system_version: Seq<char>,
    pub node_version: Seq<char>,
    pub streaming_sdk_version: Seq<char>,
    pub models: Seq<config::ModelView>,
    pub default_model: Option<Seq<char>>,
    pub model_aliases: Seq<(Seq<char>, Seq<char>)>,
    pub chunked_write_policy: Option<ChunkedWritePolicy>,
    pub codex_truncation_correction: Option<bool>,
    pub proxy_url: Option<Seq<char>>,
    pub proxy_username: Option<Seq<char>>,
    pub proxy_password: Option<Seq<char>>,
}

impl View for UpdateAppConfigRequest {
    type V = UpdateView;

    open spec fn view(&self) -> UpdateView {
        UpdateView {
            api_key: self.api_key@,
            admin_api_key: text::opt_view(self.admin_api_key),
            credential_rpm: self.credential_rpm,
            credential_rpm_opus: self.credential_rpm_opus,
            credential_rpm_sonnet: self.credential_rpm_sonnet,
            credential_rpm_haiku: self.credential_rpm_haiku,
            credential_rpm_max_wait_ms: self.credential_rpm_max_wait_ms,
            kiro_version: self.kiro_version@,
            machine_id: text::opt_view(self.machine_id),
            system_version: self.system_version@,
            node_version: self.node_version@,
            streaming_sdk_version: self.streaming_sdk_version@,
            models: config::models_view(self.models@),
            default_model: text::opt_view(self.default_model),
            model_aliases: text::pairs_view(self.model_aliases@),
            chunked_write_policy: self.chunked_write_policy,
            codex_truncation_correction: self.codex_truncation_correction,
            proxy_url: text::opt_view(self.proxy_url),
            proxy_username: text::opt_view(self.proxy_username),
            proxy_password: text::opt_view(self.proxy_password),
        }
    }
}

/// Whether a text is given, and is nothing but white space.
pub open spec fn given_blank(s: Option<Seq<char>>) -> bool {
    match s {
        Some(t) => text::all_white(t),
        None => false,
    }
}

/// What is wrong with a model, the first being number one.
pub open spec fn model_fault(m: config::ModelView, number: nat) -> Option<Seq<char>> {
    if text::all_white(m.family) || text::all_white(m.kiro_id) || text::all_white(m.display_id)
        || text::all_white(m.display_name) {
        Some(
            "第 "@ + text::digits(number)
                + " 个模型的 family / kiroId / displayId / displayName 均不能为空"@,
        )
    } else if m.max_tokens <= 0 || m.context_window <= 0 {
        Some(
            "第 "@ + text::digits(number)
                + " 个模型的 maxTokens / contextWindow 必须为正数"@,
        )
    } else {
        None
    }
}

/// What is wrong with the first model at fault, from the one at `from` on.
pub open spec fn models_fault(models: Seq<config::ModelView>, from: nat) -> Option<Seq<char>>
    decreases models.len() - from,
{
    if from >= models.len() {
        None
    } else {
        match model_fault(models[from as int], from + 1) {
            Some(s) => Some(s),
            None => models_fault(models, from + 1),
        }
    }
}

/// Whether some alias has a blank name or stands for a blank one.
pub open spec fn some_alias_blank(aliases: Seq<(Seq<char>, Seq<char>)>) -> bool {
    exists|i: int|
        0 <= i < aliases.len() && (text::all_white((#[trigger] aliases[i]).0) || text::all_white(
            aliases[i].1,
        ))
}

/// What is wrong with a policy: one that is off may say anything.
pub open spec fn policy_fault(p: Option<ChunkedWritePolicy>) -> Option<Seq<char>> {
    match p {
        Some(p) => if !p.enabled {
            None
        } else if p.chunk_lines == 0 {
            Some("chunkedWritePolicy 的 chunkLines 必须为正数"@)
        } else if p.trigger_lines < p.chunk_lines {
            Some("chunkedWritePolicy 的 triggerLines 不能小于 chunkLines"@)
        } else {
            None
        },
        None => None,
    }
}

impl UpdateView {
    /// What is wrong with an edit, if anything.
    pub open spec fn fault(self) -> Option<Seq<char>> {
        if text::all_white(self.api_key) {
            Some("apiKey 不能为空"@)
        } else if given_blank(self.admin_api_key) {
            Some("adminApiKey 不能为空"@)
        } else if text::all_white(self.kiro_version) || text::all_white(self.system_version)
            || text::all_white(self.node_version) || text::all_white(self.streaming_sdk_version) {
            Some("kiroVersion / systemVersion / nodeVersion / streamingSdkVersion 均不能为空"@)
        } else if self.models.len() == 0 {
            Some("models 至少需要一个模型定义"@)
        } else if models_fault(self.models, 0) is Some {
            models_fault(self.models, 0)
        } else if some_alias_blank(self.model_aliases) {
            Some("modelAliases 的键和值均不能为空"@)
        } else if given_blank(self.default_model) {
            Some("defaultModel 不能为空字符串"@)
        } else {
            policy_fault(self.chunked_write_policy)
        }
    }

    /// Whether the machine's id is to be set, and not cleared or kept.
    pub open spec fn sets_machine_id(self) -> bool {
        match self.machine_id {
            Some(s) => text::trim(s).len() > 0,
            None => false,
        }
    }

    /// The configuration after an edit, but for the aliases of models. The id of the
    /// machine is given in its final form.
    pub open spec fn applied(self, c: config::ConfigView, machine_id: Seq<char>)
        -> config::ConfigView {
        config::ConfigView {
            api_key: Some(text::trim(self.api_key)),
            admin_api_key: match self.admin_api_key {
                Some(k) => Some(text::trim(k)),
                None => c.admin_api_key,
            },
            credential_rpm: self.credential_rpm,
            credential_rpm_opus: self.credential_rpm_opus,
            credential_rpm_sonnet: self.credential_rpm_sonnet,
            credential_rpm_haiku: self.credential_rpm_haiku,
            credential_rpm_max_wait_ms: match self.credential_rpm_max_wait_ms {
                Some(n) => n,
                None => c.credential_rpm_max_wait_ms,
            },
            machine_id: match self.machine_id {
                Some(s) => if text::trim(s).len() == 0 {
                    None
                } else {
                    Some(machine_id)
                },
                None => c.machine_id,
            },
            kiro_version: text::trim(self.kiro_version),
            system_version: text::trim(self.system_version),
            node_version: text::trim(self.node_version),
            streaming_sdk_version: text::trim(self.streaming_sdk_version),
            models: Some(self.models),
            default_model: edited(self.default_model, None),
            chunked_write_policy: match self.chunked_write_policy {
                Some(p) => p,
                None => c.chunked_write_policy,
            },
            codex_truncation_correction: match self.codex_truncation_correction {
                Some(b) => b,
                None => c.codex_truncation_correction,
            },
            proxy_url: edited(self.proxy_url, c.proxy_url),
            proxy_username: edited(self.proxy_username, c.proxy_username),
            proxy_password: match self.proxy_password {
                Some(s) => if s.len() == 0 {
                    None
                } else {
                    Some(s)
                },
                None => c.proxy_password,
            },
            ..c
        }
    }

    /// Whether an edit of one configuration gives another: that of
    /// [`UpdateView::applied`], with the aliases by their names.
    pub open spec fn leads_to(
        self,
        c: config::ConfigView,
        machine_id: Seq<char>,
        d: config::ConfigView,
    ) -> bool {
        &&& d == config::ConfigView {
            model_aliases: d.model_aliases,
            ..self.applied(c, machine_id)
        }
        &&& text::keys_distinct(d.model_aliases)
        &&& forall|name: Seq<char>| #[trigger]
            text::value_of(d.model_aliases, name) == config::alias_of(
                trimmed_pairs(self.model_aliases),
                name,
            )
    }
}

/// A text after an edit: what is missing stays, what is blank is cleared.
pub open spec fn edited(new_value: Option<Seq<char>>, old_value: Option<Seq<char>>) -> Option<
    Seq<char>,
> {
    match new_value {
        Some(s) => if text::trim(s).len() == 0 {
            None
        } else {
            Some(text::trim(s))
        },
        None => old_value,
    }
}

/// Pairs without white space around their texts.
pub open spec fn trimmed_pairs(pairs: Seq<(Seq<char>, Seq<char>)>) -> Seq<(Seq<char>, Seq<char>)> {
    pairs.map_values(|p: (Seq<char>, Seq<char>)| (text::trim(p.0), text::trim(p.1)))
}

fn is_given_blank(s: &Option<String>) -> (r: bool)
    ensures
        r == given_blank(text::opt_view(*s)),
{
    match s {
        Some(t) => text::is_blank(t.as_str()),
        None => false,
    }
}

fn check_model(m: &ModelDef, number: usize) -> (r: Option<String>)
    ensures
        text::opt_view(r) == model_fault(m@, number as nat),
{
    let mut s: String = "第 ".to_owned();
    if text::is_blank(m.family.as_str()) || text::is_blank(m.kiro_id.as_str()) || text::is_blank(
        m.display_id.as_str(),
    ) || text::is_blank(m.display_name.as_str()) {
        text::push_u64(&mut s, number as u64);
        s.append(" 个模型的 family / kiroId / displayId / displayName 均不能为空");
        return Some(s);
    }
    if m.max_tokens <= 0 || m.context_window <= 0 {
        text::push_u64(&mut s, number as u64);
        s.append(" 个模型的 maxTokens / contextWindow 必须为正数");
        return Some(s);
    }
    None
}

fn check_models(models: &Vec<ModelDef>) -> (r: Option<String>)
    ensures
        text::opt_view(r) == models_fault(config::models_view(models@), 0),
{
    let ghost all = config::models_view(models@);
    let n: usize = models.len();
    let mut i: usize = 0;
    while i < n
        invariant
            i <= n == models@.len(),
            all == config::models_view(models@),
            models_fault(all, 0) == models_fault(all, i as nat),
        decreases n - i,
    {
        assert(all[i as int] == models@[i as int]@);
        let fault: Option<String> = check_model(&models[i], i + 1);
        if fault.is_some() {
            return fault;
        }
        i = i + 1;
    }
    None
}

fn check_aliases(aliases: &Vec<(String, String)>) -> (r: bool)
    ensures
        r == some_alias_blank(text::pairs_view(aliases@)),
{
    let ghost all = text::pairs_view(aliases@);
    let n: usize = aliases.len();
    let mut i: usize = 0;
    while i < n
        invariant
            i <= n == aliases@.len(),
            all == text::pairs_view(aliases@),
            forall|j: int|
                0 <= j < i ==> !text::all_white((#[trigger] all[j]).0) && !text::all_white(
                    all[j].1,
                ),
        decreases n - i,
    {
        assert(all[i as int] == (aliases@[i as int].0@, aliases@[i as int].1@));
        if text::is_blank(aliases[i].0.as_str()) || text::is_blank(aliases[i].1.as_str()) {
            return true;
        }
        i = i + 1;
    }
    false
}

fn refused(message: &str) -> (r: Result<(), AdminServiceError>)
    ensures
        r is Err,
        r->Err_0@ == service::AdminErrorView::InvalidCredential(message@),
{
    Err(AdminServiceError::InvalidCredential(message.to_owned()))
}

/// Refuses an edit that something is wrong with; see [`UpdateView::fault`].
fn validate_app_config(req: &UpdateAppConfigRequest) -> (r: Result<(), AdminServiceError>)
    ensures
        match req@.fault() {
            Some(s) => r is Err && r->Err_0@ == service::AdminErrorView::InvalidCredential(s),
            None => r is Ok,
        },
{
    if text::is_blank(req.api_key.as_str()) {
        return refused("apiKey 不能为空");
    }
    if is_given_blank(&req.admin_api_key) {
        return refused("adminApiKey 不能为空");
    }
    if text::is_blank(req.kiro_version.as_str()) || text::is_blank(req.system_version.as_str())
        || text::is_blank(req.node_version.as_str()) || text::is_blank(
        req.streaming_sdk_version.as_str(),
    ) {
        return refused(
            "kiroVersion / systemVersion / nodeVersion / streamingSdkVersion 均不能为空",
        );
    }
    if req.models.len() == 0 {
        return refused("models 至少需要一个模型定义");
    }
    if let Some(s) = check_models(&req.models) {
        return Err(AdminServiceError::InvalidCredential(s));
    }
    if check_aliases(&req.model_aliases) {
        return refused("modelAliases 的键和值均不能为空");
    }
    if is_given_blank(&req.default_model) {
        return refused("defaultModel 不能为空字符串");
    }
    if let Some(p) = req.chunked_write_policy {
        if p.enabled {
            if p.chunk_lines == 0 {
                return refused("chunkedWritePolicy 的 chunkLines 必须为正数");
            }
            if p.trigger_lines < p.chunk_lines {
                return refused("chunkedWritePolicy 的 triggerLines 不能小于 chunkLines");
            }
        }
    }
    Ok(())
}

/// The aliases without white space around them, their names in lower case; of several
/// that then are the same, the last counts.
pub fn normalized_aliases(aliases: &Vec<(String, String)>) -> (r: Vec<(String, String)>)
    ensures
        text::keys_distinct(text::pairs_view(r@)),
        forall|name: Seq<char>| #[trigger]
            text::value_of(text::pairs_view(r@), name) == config::alias_of(
                trimmed_pairs(text::pairs_view(aliases@)),
                name,
            ),
{
    let ghost all = trimmed_pairs(text::pairs_view(aliases@));
    let mut r: Vec<(String, String)> = Vec::new();
    let n: usize = aliases.len();
    let mut i: usize = 0;
    assert(text::pairs_view(r@) =~= Seq::empty());
    while i < n
        invariant
            i <= n == aliases@.len(),
            all == trimmed_pairs(text::pairs_view(aliases@)),
            text::keys_distinct(text::pairs_view(r@)),
            forall|name: Seq<char>| #[trigger]
                text::value_of(text::pairs_view(r@), name) == config::alias_of(
                    all.take(i as int),
                    name,
                ),
        decreases n - i,
    {
        let key: String = text::trimmed(aliases[i].0.as_str());
        let lower: String = outside::to_lowercase(key.as_str());
        let value: String = text::trimmed(aliases[i].1.as_str());
        proof {
            let next = all.take(i + 1);
            assert(next.drop_last() =~= all.take(i as int));
            assert(text::pairs_view(aliases@)[i as int] == (
                aliases@[i as int].0@,
                aliases@[i as int].1@,
            ));
            assert(next.last() == (key@, value@));
        }
        text::put(&mut r, lower, value);
        i = i + 1;
    }
    assert(all.take(i as int) =~= all);
    r
}

fn edit_text(value: &mut Option<String>, new_value: &Option<String>)
    ensures
        text::opt_view(*final(value)) == edited(
            text::opt_view(*new_value),
            text::opt_view(*old(value)),
        ),
{
    if let Some(s) = new_value {
        let t: String = text::trimmed(s.as_str());
        if t.as_str().is_empty() {
            *value = None;
        } else {
            *value = Some(t);
        }
    }
}

fn edit_versions(c: &mut Config, req: &UpdateAppConfigRequest)
    ensures
        final(c)@ == (config::ConfigView {
            kiro_version: text::trim(req@.kiro_version),
            system_version: text::trim(req@.system_version),
            node_version: text::trim(req@.node_version),
            streaming_sdk_version: text::trim(req@.streaming_sdk_version),
            ..old(c)@
        }),
{
    c.kiro_version = text::trimmed(req.kiro_version.as_str());
    c.system_version = text::trimmed(req.system_version.as_str());
    c.node_version = text::trimmed(req.node_version.as_str());
    c.streaming_sdk_version = text::trimmed(req.streaming_sdk_version.as_str());
}

fn edit_keys(c: &mut Config, req: &UpdateAppConfigRequest)
    ensures
        final(c)@ == (config::ConfigView {
            api_key: Some(text::trim(req@.api_key)),
            admin_api_key: match req@.admin_api_key {
                Some(k) => Some(text::trim(k)),
                None => old(c)@.admin_api_key,
            },
            default_model: edited(req@.default_model, None),
            ..old(c)@
        }),
{
    c.api_key = Some(text::trimmed(req.api_key.as_str()));
    if let Some(k) = &req.admin_api_key {
        c.admin_api_key = Some(text::trimmed(k.as_str()));
    }
    c.default_model = None;
    edit_text(&mut c.default_model, &req.default_model);
}

fn edit_limits(c: &mut Config, req: &UpdateAppConfigRequest)
    ensures
        final(c)@ == (config::ConfigView {
            credential_rpm: req@.credential_rpm,
            credential_rpm_opus: req@.credential_rpm_opus,
            credential_rpm_sonnet: req@.credential_rpm_sonnet,
            credential_rpm_haiku: req@.credential_rpm_haiku,
            credential_rpm_max_wait_ms: match req@.credential_rpm_max_wait_ms {
                Some(n) => n,
                None => old(c)@.credential_rpm_max_wait_ms,
            },
            chunked_write_policy: match req@.chunked_write_policy {
                Some(p) => p,
                None => old(c)@.chunked_write_policy,
            },
            codex_truncation_correction: match req@.codex_truncation_correction {
                Some(b) => b,
                None => old(c)@.codex_truncation_correction,
            },
            ..old(c)@
        }),
{
    c.credential_rpm = req.credential_rpm;
    c.credential_rpm_opus = req.credential_rpm_opus;
    c.credential_rpm_sonnet = req.credential_rpm_sonnet;
    c.credential_rpm_haiku = req.credential_rpm_haiku;
    if let Some(n) = req.credential_rpm_max_wait_ms {
        c.credential_rpm_max_wait_ms = n;
    }
    if let Some(p) = req.chunked_write_policy {
        c.chunked_write_policy = p;
    }
    if let Some(b) = req.codex_truncation_correction {
        c.codex_truncation_correction = b;
    }
}

fn edit_proxy(c: &mut Config, req: &UpdateAppConfigRequest)
    ensures
        final(c)@ == (config::ConfigView {
            proxy_url: edited(req@.proxy_url, old(c)@.proxy_url),
            proxy_username: edited(req@.proxy_username, old(c)@.proxy_username),
            proxy_password: match req@.proxy_password {
                Some(s) => if s.len() == 0 {
                    None
                } else {
                    Some(s)
                },
                None => old(c)@.proxy_password,
            },
            ..old(c)@
        }),
{
    edit_text(&mut c.proxy_url, &req.proxy_url);
    edit_text(&mut c.proxy_username, &req.proxy_username);
    if let Some(p) = &req.proxy_password {
        c.proxy_password = if p.as_str().is_empty() {
            None
        } else {
            Some(p.clone())
        };
    }
}

/// The configuration after an edit that was found in order; see
/// [`UpdateView::applied`]. Where the id of the machine is to be set, `machine_id` is
/// what it is read as, if it can be read at all.
fn apply_app_config(
    req: UpdateAppConfigRequest,
    base: Config,
    machine_id: Option<String>,
) -> (r: Result<Config, AdminServiceError>)
    ensures
        if req@.sets_machine_id() && machine_id is None {
            r is Err && r->Err_0@ == service::AdminErrorView::InvalidCredential(
                "machineId 格式无效（需 64 位十六进制或 UUID）"@,
            )
        } else {
            &&& r is Ok
            &&& ({
                let c = r->Ok_0@;
                let m = match machine_id {
                    Some(s) => s@,
                    None => Seq::empty(),
                };
                c == config::ConfigView {
                    model_aliases: c.model_aliases,
                    ..req@.applied(base@, m)
                }
            })
            &&& text::keys_distinct(r->Ok_0@.model_aliases)
            &&& forall|name: Seq<char>| #[trigger]
                text::value_of(r->Ok_0@.model_aliases, name) == config::alias_of(
                    trimmed_pairs(req@.model_aliases),
                    name,
                )
        },
{
    let mut c: Config = base;
    if let Some(raw) = &req.machine_id {
        let t: String = text::trimmed(raw.as_str());
        if t.as_str().is_empty() {
            c.machine_id = None;
        } else {
            match machine_id {
                Some(s) => {
                    c.machine_id = Some(s);
                },
                None => {
                    return Err(
                        AdminServiceError::InvalidCredential(
                            "machineId 格式无效（需 64 位十六进制或 UUID）".to_owned(),
                        ),
                    );
                },
            }
        }
    }
    edit_keys(&mut c, &req);
    edit_limits(&mut c, &req);
    edit_versions(&mut c, &req);
    edit_proxy(&mut c, &req);
    c.model_aliases = normalized_aliases(&req.model_aliases);
    c.models = Some(req.models);
    Ok(c)
}

/// The configuration after an edit, or why it is refused. What is wrong with the edit
/// comes before what is wrong with the configuration as it was read anew.
pub fn update_app_config(
    req: UpdateAppConfigRequest,
    reloaded: Result<Config, String>,
    machine_id: Option<String>,
) -> (r: Result<Config, AdminServiceError>)
    ensures
        match (req@.fault(), reloaded) {
            (Some(s), _) => r is Err && r->Err_0@ == service::AdminErrorView::InvalidCredential(
                s,
            ),
            (None, Err(e)) => r is Err && r->Err_0@ == service::AdminErrorView::InternalError(
                "重新加载配置失败: "@ + e@,
            ),
            (None, Ok(base)) => if req@.sets_machine_id() && machine_id is None {
                r is Err && r->Err_0@ == service::AdminErrorView::InvalidCredential(
                    "machineId 格式无效（需 64 位十六进制或 UUID）"@,
                )
            } else {
                r is Ok && req@.leads_to(
                    base@,
                    match machine_id {
                        Some(s) => s@,
                        None => Seq::empty(),
                    },
                    r->Ok_0@,
                )
            },
        },
{
    if let Err(e) = validate_app_config(&req) {
        return Err(e);
    }
    match reloaded {
        Ok(base) => apply_app_config(req, base, machine_id),
        Err(e) => {
            let mut s: String = "重新加载配置失败: ".to_owned();
            s.append(e.as_str());
            Err(AdminServiceError::InternalError(s))
        },
    }
}

/// Whether an answer shows what can be edited of a configuration, with the keys in use.
pub open spec fn shows(
    r: AppConfigResponse,
    c: config::ConfigView,
    api_key: Seq<char>,
    admin_api_key: Seq<char>,
    line: config::ModelLineView,
) -> bool {
    &&& r.api_key@ == api_key
    &&& r.admin_api_key@ == admin_api_key
    &&& r.credential_rpm == c.credential_rpm
    &&& r.credential_rpm_opus == c.credential_rpm_opus
    &&& r.credential_rpm_sonnet == c.credential_rpm_sonnet
    &&& r.credential_rpm_haiku == c.credential_rpm_haiku
    &&& r.credential_rpm_max_wait_ms == c.credential_rpm_max_wait_ms
    &&& r.kiro_version@ == c.kiro_version
    &&& text::opt_view(r.machine_id) == c.machine_id
    &&& r.system_version@ == c.system_version
    &&& r.node_version@ == c.node_version
    &&& r.streaming_sdk_version@ == c.streaming_sdk_version
    &&& config::models_view(r.models@) == match c.models {
        Some(v) => v,
        None => config::built_in_models(line),
    }
    &&& text::opt_view(r.default_model) == c.default_model
    &&& text::pairs_view(r.model_aliases@) == c.model_aliases
    &&& r.chunked_write_policy == c.chunked_write_policy
    &&& r.codex_truncation_correction == c.codex_truncation_correction
    &&& text::opt_view(r.proxy_url) == c.proxy_url
    &&& text::opt_view(r.proxy_username) == c.proxy_username
    &&& r.proxy_password_set == (c.proxy_password is Some && c.proxy_password.unwrap().len() > 0)
}

/// The part of the configuration that can be edited, with the keys in use. `line` names the
/// models that are shown where none are configured.
pub fn get_app_config(
    config: &Config,
    api_key: &str,
    admin_api_key: &str,
    line: &ModelLine,
) -> (r: AppConfigResponse)
    ensures
        shows(r, config@, api_key@, admin_api_key@, line@),
{
    AppConfigResponse {
        api_key: api_key.to_owned(),
        admin_api_key: admin_api_key.to_owned(),
        credential_rpm: config.credential_rpm,
        credential_rpm_opus: config.credential_rpm_opus,
        credential_rpm_sonnet: config.credential_rpm_sonnet,
        credential_rpm_haiku: config.credential_rpm_haiku,
        credential_rpm_max_wait_ms: config.credential_rpm_max_wait_ms,
        kiro_version: config.kiro_version.clone(),
        machine_id: text::clone_opt(&config.machine_id),
        system_version: config.system_version.clone(),
        node_version: config.node_version.clone(),
        streaming_sdk_version: config.streaming_sdk_version.clone(),
        models: config.effective_models(line),
        default_model: text::clone_opt(&config.default_model),
        model_aliases: text::clone_pairs(&config.model_aliases),
        chunked_write_policy: config.chunked_write_policy,
        codex_truncation_correction: config.codex_truncation_correction,
        proxy_url: text::clone_opt(&config.proxy_url),
        proxy_username: text::clone_opt(&config.proxy_username),
        proxy_password_set: match &config.proxy_password {
            Some(p) => !p.as_str().is_empty(),
            None => false,
        },
    }
}

/// An edit touches nothing that cannot be edited.
pub proof fn law_edit_keeps_the_rest(u: UpdateView, c: config::ConfigView, machine_id: Seq<char>)
    ensures
        ({
            let d = u.applied(c, machine_id);
            &&& d.host == c.host
            &&& d.port == c.port
            &&& d.region == c.region
            &&& d.auth_region == c.auth_region
            &&& d.api_region == c.api_region
            &&& d.tls_backend == c.tls_backend
            &&& d.load_balancing_mode == c.load_balancing_mode
            &&& d.default_endpoint == c.default_endpoint
            &&& d.endpoints == c.endpoints
            &&& d.config_path == c.config_path
            &&& d.passthrough_retry_after == c.passthrough_retry_after
            &&& d.extract_thinking == c.extract_thinking
            &&& d.sso_oidc_sdk_version == c.sso_oidc_sdk_version
            &&& d.runtime_sdk_version == c.runtime_sdk_version
            &&& d.count_tokens_api_url == c.count_tokens_api_url
            &&& d.count_tokens_api_key == c.count_tokens_api_key
            &&& d.count_tokens_auth_type == c.count_tokens_auth_type
        }),
{
}

/// What an edit leaves out stays as it is, and the same edit again changes nothing.
pub proof fn law_edit_twice(u: UpdateView, c: config::ConfigView, machine_id: Seq<char>)
    ensures
        u.applied(u.applied(c, machine_id), machine_id) == u.applied(c, machine_id),
        u.admin_api_key is None ==> u.applied(c, machine_id).admin_api_key == c.admin_api_key,
        u.machine_id is None ==> u.applied(c, machine_id).machine_id == c.machine_id,
        u.proxy_password is None ==> u.applied(c, machine_id).proxy_password == c.proxy_password,
        u.chunked_write_policy is None ==> u.applied(c, machine_id).chunked_write_policy
            == c.chunked_write_policy,
{
}

/// Whether a text that may be cleared is as an edit wants it: as it was where the edit says
/// nothing, cleared where it is blank, and else as written but for white space around it.
pub open spec fn as_wanted(
    shown: Option<Seq<char>>,
    wanted: Option<Seq<char>>,
    before: Option<Seq<char>>,
) -> bool {
    match wanted {
        None => shown == before,
        Some(s) => if text::all_white(s) {
            shown is None
        } else {
            shown is Some && text::stripped(s, shown.unwrap())
        },
    }
}

/// An edit is read back as it was written, field by field: what is shown of the
/// configuration that an edit gives is what the edit says, but for white space around texts,
/// and what it does not mention is as it was.
pub proof fn law_edit_reads_back(
    u: UpdateView,
    c: config::ConfigView,
    machine_id: Seq<char>,
    d: config::ConfigView,
    r: AppConfigResponse,
    api_key: Seq<char>,
    admin_api_key: Seq<char>,
    line: config::ModelLineView,
)
    requires
        u.leads_to(c, machine_id, d),
        shows(r, d, api_key, admin_api_key, line),
    ensures
        r.api_key@ == api_key,
        r.admin_api_key@ == admin_api_key,
        d.api_key is Some && text::stripped(u.api_key, d.api_key.unwrap()),
        match u.admin_api_key {
            Some(k) => d.admin_api_key is Some && text::stripped(k, d.admin_api_key.unwrap()),
            None => d.admin_api_key == c.admin_api_key,
        },
        r.credential_rpm == u.credential_rpm,
        r.credential_rpm_opus == u.credential_rpm_opus,
        r.credential_rpm_sonnet == u.credential_rpm_sonnet,
        r.credential_rpm_haiku == u.credential_rpm_haiku,
        match u.credential_rpm_max_wait_ms {
            Some(n) => r.credential_rpm_max_wait_ms == n,
            None => r.credential_rpm_max_wait_ms == c.credential_rpm_max_wait_ms,
        },
        text::stripped(u.kiro_version, r.kiro_version@),
        text::stripped(u.system_version, r.system_version@),
        text::stripped(u.node_version, r.node_version@),
        text::stripped(u.streaming_sdk_version, r.streaming_sdk_version@),
        match u.machine_id {
            Some(s) => if text::all_white(s) {
                r.machine_id is None
            } else {
                text::opt_view(r.machine_id) == Some(machine_id)
            },
            None => text::opt_view(r.machine_id) == c.machine_id,
        },
        config::models_view(r.models@) == u.models,
        as_wanted(text::opt_view(r.default_model), u.default_model, None),
        match u.chunked_write_policy {
            Some(p) => r.chunked_write_policy == p,
            None => r.chunked_write_policy == c.chunked_write_policy,
        },
        match u.codex_truncation_correction {
            Some(b) => r.codex_truncation_correction == b,
            None => r.codex_truncation_correction == c.codex_truncation_correction,
        },
        as_wanted(text::opt_view(r.proxy_url), u.proxy_url, c.proxy_url),
        as_wanted(text::opt_view(r.proxy_username), u.proxy_username, c.proxy_username),
        match u.proxy_password {
            Some(s) => {
                &&& r.proxy_password_set == (s.len() > 0)
                &&& s.len() > 0 ==> d.proxy_password == Some(s)
                &&& s.len() == 0 ==> d.proxy_password is None
            },
            None => d.proxy_password == c.proxy_password,
        },
{
    text::law_trim(u.api_key);
    text::law_trim(u.kiro_version);
    text::law_trim(u.system_version);
    text::law_trim(u.node_version);
    text::law_trim(u.streaming_sdk_version);
    if let Some(s) = u.admin_api_key {
        text::law_trim(s);
    }
    if let Some(s) = u.machine_id {
        text::law_trim(s);
    }
    if let Some(s) = u.default_model {
        text::law_trim(s);
    }
    if let Some(s) = u.proxy_url {
        text::law_trim(s);
    }
    if let Some(s) = u.proxy_username {
        text::law_trim(s);
    }
}

/// The aliases are read back too. Their names are not told apart by case or by white space
/// around them, and of two with one name the last counts: each such alias is shown, for what
/// it stood for, and no other is.
pub proof fn law_aliases_read_back(
    u: UpdateView,
    c: config::ConfigView,
    machine_id: Seq<char>,
    d: config::ConfigView,
    r: AppConfigResponse,
    api_key: Seq<char>,
    admin_api_key: Seq<char>,
    line: config::ModelLineView,
)
    requires
        u.leads_to(c, machine_id, d),
        shows(r, d, api_key, admin_api_key, line),
    ensures
        text::keys_distinct(text::pairs_view(r.model_aliases@)),
        forall|i: int|
            0 <= i < u.model_aliases.len() && (forall|j: int|
                i < j < u.model_aliases.len() ==> alias_name((#[trigger] u.model_aliases[j]).0)
                    != alias_name(u.model_aliases[i].0)) ==> text::pairs_view(
                r.model_aliases@,
            ).contains(
                (
                    alias_name((#[trigger] u.model_aliases[i]).0),
                    text::trim(u.model_aliases[i].1),
                ),
            ),
        forall|k: int|
            0 <= k < r.model_aliases@.len() ==> exists|i: int|
                0 <= i < u.model_aliases.len() && #[trigger] text::pairs_view(r.model_aliases@)[k]
                    == (
                    alias_name((#[trigger] u.model_aliases[i]).0),
                    text::trim(u.model_aliases[i].1),
                ),
{
    let all = trimmed_pairs(u.model_aliases);
    let shown = text::pairs_view(r.model_aliases@);
    assert(shown == d.model_aliases);
    assert forall|i: int|
        0 <= i < u.model_aliases.len() && (forall|j: int|
            i < j < u.model_aliases.len() ==> alias_name((#[trigger] u.model_aliases[j]).0)
                != alias_name(u.model_aliases[i].0)) implies shown.contains(
        (alias_name((#[trigger] u.model_aliases[i]).0), text::trim(u.model_aliases[i].1)),
    ) by {
        let name = alias_name(u.model_aliases[i].0);
        assert forall|j: int| i < j < all.len() implies outside::lowercase((#[trigger] all[j]).0)
            != name by {
            assert(alias_name(u.model_aliases[j].0) != name);
        }
        lemma_last_alias(all, i);
        assert(text::value_of(shown, name) == config::alias_of(all, name));
        let k = text::lemma_value_found(shown, name);
        assert(shown[k] == (name, text::trim(u.model_aliases[i].1)));
    }
    assert forall|k: int| 0 <= k < r.model_aliases@.len() implies exists|i: int|
        0 <= i < u.model_aliases.len() && #[trigger] shown[k] == (
            alias_name((#[trigger] u.model_aliases[i]).0),
            text::trim(u.model_aliases[i].1),
        ) by {
        let name = shown[k].0;
        text::lemma_value_at(shown, k);
        assert(text::value_of(shown, name) == config::alias_of(all, name));
        let i = lemma_alias_found(all, name);
        assert(u.model_aliases[i].0.len() >= 0);
        assert(shown[k] == (
            alias_name(u.model_aliases[i].0),
            text::trim(u.model_aliases[i].1),
        ));
    }
}

/// The name of an alias, as names are compared.
pub open spec fn alias_name(s: Seq<char>) -> Seq<char> {
    outside::lowercase(text::trim(s))
}

proof fn lemma_last_alias(pairs: Seq<(Seq<char>, Seq<char>)>, i: int)
    requires
        0 <= i < pairs.len(),
        forall|j: int|
            i < j < pairs.len() ==> outside::lowercase((#[trigger] pairs[j]).0)
                != outside::lowercase(pairs[i].0),
    ensures
        config::alias_of(pairs, outside::lowercase(pairs[i].0)) == Some(pairs[i].1),
    decreases pairs.len(),
{
    if i < pairs.len() - 1 {
        assert(outside::lowercase(pairs[pairs.len() - 1].0) != outside::lowercase(pairs[i].0));
        lemma_last_alias(pairs.drop_last(), i);
    }
}

proof fn lemma_alias_found(pairs: Seq<(Seq<char>, Seq<char>)>, name: Seq<char>) -> (i: int)
    requires
        config::alias_of(pairs, name) is Some,
    ensures
        0 <= i < pairs.len(),
        outside::lowercase(pairs[i].0) == name,
        Some(pairs[i].1) == config::alias_of(pairs, name),
    decreases pairs.len(),
{
    if outside::lowercase(pairs.last().0) == name {
        pairs.len() - 1
    } else {
        lemma_alias_found(pairs.drop_last(), name)
    }
}

/// An edit is found in order exactly where no text that must be there is blank, there is a
/// model, each model has its names and positive limits, no alias is blank, and a policy that
/// is switched on makes sense.
pub proof fn law_edit_in_order(u: UpdateView)
    ensures
        u.fault() is None <==> {
            &&& !text::all_white(u.api_key)
            &&& u.admin_api_key is Some ==> !text::all_white(u.admin_api_key.unwrap())
            &&& !text::all_white(u.kiro_version)
            &&& !text::all_white(u.system_version)
            &&& !text::all_white(u.node_version)
            &&& !text::all_white(u.streaming_sdk_version)
            &&& u.models.len() > 0
            &&& forall|i: int|
                0 <= i < u.models.len() ==> {
                    let m = #[trigger] u.models[i];
                    &&& !text::all_white(m.family)
                    &&& !text::all_white(m.kiro_id)
                    &&& !text::all_white(m.display_id)
                    &&& !text::all_white(m.display_name)
                    &&& m.max_tokens > 0
                    &&& m.context_window > 0
                }
            &&& forall|i: int|
                0 <= i < u.model_aliases.len() ==> !text::all_white(
                    (#[trigger] u.model_aliases[i]).0,
                ) && !text::all_white(u.model_aliases[i].1)
            &&& u.default_model is Some ==> !text::all_white(u.default_model.unwrap())
            &&& u.chunked_write_policy is Some && u.chunked_write_policy.unwrap().enabled
                ==> 0 < u.chunked_write_policy.unwrap().chunk_lines
                <= u.chunked_write_policy.unwrap().trigger_lines
        },
{
    lemma_models_in_order(u.models, 0);
}

proof fn lemma_models_in_order(models: Seq<config::ModelView>, from: nat)
    ensures
        models_fault(models, from) is None <==> forall|i: int|
            from <= i < models.len() ==> {
                let m = #[trigger] models[i];
                &&& !text::all_white(m.family)
                &&& !text::all_white(m.kiro_id)
                &&& !text::all_white(m.display_id)
                &&& !text::all_white(m.display_name)
                &&& m.max_tokens > 0
                &&& m.context_window > 0
            },
    decreases models.len() - from,
{
    if from < models.len() {
        lemma_models_in_order(models, from + 1);
    }
}

/// What is told of an edit at fault is the first thing that is wrong with it, in the order of the
/// keys, the versions, the models, the aliases, the default model and the policy; of several
/// models at fault the first is told, by its number.
pub proof fn law_first_fault_of_an_edit(u: UpdateView, i: int)
    ensures
        text::all_white(u.api_key) ==> u.fault() == Some("apiKey 不能为空"@),
        !text::all_white(u.api_key) && given_blank(u.admin_api_key) ==> u.fault() == Some(
            "adminApiKey 不能为空"@,
        ),
        u.fault() is Some && !text::all_white(u.api_key) && !given_blank(u.admin_api_key)
            && !text::all_white(u.kiro_version) && !text::all_white(u.system_version)
            && !text::all_white(u.node_version) && !text::all_white(u.streaming_sdk_version) ==> {
            &&& u.models.len() == 0 ==> u.fault() == Some("models 至少需要一个模型定义"@)
            &&& 0 <= i < u.models.len() && model_fault(u.models[i], (i + 1) as nat) is Some && (
            forall|j: int|
                0 <= j < i ==> model_fault(#[trigger] u.models[j], (j + 1) as nat) is None)
                ==> u.fault() == model_fault(u.models[i], (i + 1) as nat) && text::begins_with(
                u.fault().unwrap(),
                "第 "@ + text::digits((i + 1) as nat),
            )
        },
{
    if 0 <= i < u.models.len() && model_fault(u.models[i], (i + 1) as nat) is Some && (forall|
        j: int,
    |
        0 <= j < i ==> model_fault(#[trigger] u.models[j], (j + 1) as nat) is None) {
        lemma_first_model_fault(u.models, 0, i);
        let s = model_fault(u.models[i], (i + 1) as nat).unwrap();
        let head = "第 "@ + text::digits((i + 1) as nat);
        assert(s.subrange(0, head.len() as int) =~= head);
    }
}

proof fn lemma_first_model_fault(models: Seq<config::ModelView>, from: nat, i: int)
    requires
        from <= i < models.len(),
        model_fault(models[i], (i + 1) as nat) is Some,
        forall|j: int|
            from <= j < i ==> model_fault(#[trigger] models[j], (j + 1) as nat) is None,
    ensures
        models_fault(models, from) == model_fault(models[i], (i + 1) as nat),
    decreases i - from,
{
    if from < i {
        assert(model_fault(models[from as int], from + 1) is None);
        lemma_first_model_fault(models, from + 1, i);
    }
}

} // verus!
