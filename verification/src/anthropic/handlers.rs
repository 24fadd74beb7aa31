//! The decisions of the request handlers.

use vstd::prelude::*;
use vstd::string::*;
use crate::common::provider_error;
use crate::kiro::events;
use crate::kiro::provider;
use crate::kiro::provider::ProviderError;
use crate::kiro::request;
use crate::kiro::request::{ConversationState, KiroRequest};
use crate::model::config;
use crate::model::config::ModelDef;
use crate::outside;
use crate::text;

verus! {

/// An answer that says why a request failed.
#[derive(Debug)]
pub struct ErrorReply {
    /// The HTTP status.
    pub status: u16,
    pub error_type: String,
    pub message: String,
    /// The value of the `Retry-After` header, if there is one.
    pub retry_after: Option<String>,
}

/// The view of an answer that says why a request failed.
pub struct ReplyView {
    pub status: u16,
    pub error_type: Seq<char>,
    pub message: Seq<char>,
    pub retry_after: Option<Seq<char>>,
}

impl View for ErrorReply {
    type V = ReplyView;

    open spec fn view(&self) -> ReplyView {
        ReplyView {
            status: self.status,
            error_type: self.error_type@,
            message: self.message@,
            retry_after: text::opt_view(self.retry_after),
        }
    }
}

/// An answer without a `Retry-After` header.
pub open spec fn plain_reply(status: u16, error_type: Seq<char>, message: Seq<char>) -> ReplyView {
    ReplyView { status, error_type, message, retry_after: None }
}

impl ErrorReply {
    /// An answer without a `Retry-After` header.
    pub fn new(status: u16, error_type: &str, message: &str) -> (r: Self)
        ensures
            r@ == plain_reply(status, error_type@, message@),
    {
        ErrorReply {
            status,
            error_type: error_type.to_owned(),
            message: message.to_owned(),
            retry_after: None,
        }
    }
}

/// What the client is told of a failed call. It is told what it can act on: that the
/// request is too long, that it must wait, or that the quota is used up. Any other status
/// of the service is a bad gateway, of which the client learns no more. A failure without a
/// status is one too, told in words.
pub open spec fn provider_reply(e: provider::ErrorView, passthrough_retry_after: bool) -> ReplyView {
    if text::has_text(e.text(), "CONTENT_LENGTH_EXCEEDS_THRESHOLD"@) {
        plain_reply(
            400,
            "invalid_request_error"@,
            "Context window is full. Reduce conversation history, system prompt, or tools."@,
        )
    } else if text::has_text(e.text(), "Input is too long"@) {
        plain_reply(
            400,
            "invalid_request_error"@,
            "Input is too long. Reduce the size of your messages."@,
        )
    } else {
        match e {
            provider::ErrorView::Upstream { status: 429, retry_after, .. } => ReplyView {
                retry_after: match provider_error::retry_after_seconds(
                    retry_after,
                    passthrough_retry_after,
                ) {
                    Some(n) => Some(text::digits(n)),
                    None => None,
                },
                ..plain_reply(
                    429,
                    "rate_limit_error"@,
                    "Rate limit reached. Please retry after the indicated delay."@,
                )
            },
            provider::ErrorView::Upstream { status: 402, .. } => plain_reply(
                402,
                "api_error"@,
                "Upstream credential quota exhausted."@,
            ),
            provider::ErrorView::Upstream { .. } => plain_reply(
                502,
                "api_error"@,
                "上游 API 调用失败"@,
            ),
            provider::ErrorView::Other(message) => plain_reply(
                502,
                "api_error"@,
                "上游 API 调用失败: "@ + message,
            ),
        }
    }
}

/// What the client is told of a failed call; see [`provider_reply`].
pub fn map_provider_error(err: &ProviderError, passthrough_retry_after: bool) -> (r: ErrorReply)
    ensures
        r@ == provider_reply(err@, passthrough_retry_after),
{
    let message: String = err.to_string();
    if text::contains(message.as_str(), "CONTENT_LENGTH_EXCEEDS_THRESHOLD") {
        return ErrorReply::new(
            400,
            "invalid_request_error",
            "Context window is full. Reduce conversation history, system prompt, or tools.",
        );
    }
    if text::contains(message.as_str(), "Input is too long") {
        return ErrorReply::new(
            400,
            "invalid_request_error",
            "Input is too long. Reduce the size of your messages.",
        );
    }
    if let ProviderError::Upstream(e) = err {
        if e.status == 429 {
            let mut reply = ErrorReply::new(
                429,
                "rate_limit_error",
                "Rate limit reached. Please retry after the indicated delay.",
            );
            provider_error::insert_retry_after_header(
                &mut reply.retry_after,
                e.retry_after,
                passthrough_retry_after,
            );
            return reply;
        }
        if e.status == 402 {
            return ErrorReply::new(402, "api_error", "Upstream credential quota exhausted.");
        }
        return ErrorReply::new(502, "api_error", "上游 API 调用失败");
    }
    let mut s: String = "上游 API 调用失败: ".to_owned();
    s.append(message.as_str());
    ErrorReply::new(502, "api_error", s.as_str())
}

/// The client sees one of four statuses, and a refusal for lack of rights is none of
/// them: such a refusal, and any other status but a rate limit and a quota that is used up,
/// is a bad gateway with the same words whatever the service said, unless it said that the
/// request is too long. The client is told how long to wait only where that is known and
/// may be told, and then it is at least a second.
pub proof fn law_permissions_stay_inside(e: provider::ErrorView, passthrough: bool)
    ensures
        provider_reply(e, passthrough).status == 400 || provider_reply(e, passthrough).status
            == 402 || provider_reply(e, passthrough).status == 429 || provider_reply(
            e,
            passthrough,
        ).status == 502,
        provider_reply(e, passthrough).status == 429 ==> e.is_rate_limit(),
        (e matches provider::ErrorView::Upstream { status, .. } && status != 429 && status != 402)
            && !text::has_text(e.text(), "CONTENT_LENGTH_EXCEEDS_THRESHOLD"@) && !text::has_text(
            e.text(),
            "Input is too long"@,
        ) ==> provider_reply(e, passthrough) == plain_reply(
            502,
            "api_error"@,
            "上游 API 调用失败"@,
        ),
        provider_reply(e, passthrough).retry_after is Some ==> {
            &&& e.is_rate_limit()
            &&& passthrough
            &&& e matches provider::ErrorView::Upstream { retry_after: Some(s), .. }
            &&& provider_reply(e, passthrough).retry_after == Some(
                text::digits(
                    if s < 1 {
                        1
                    } else {
                        s as nat
                    },
                ),
            )
        },
{
}

/// The body of the probe of whether the process lives.
pub fn healthz() -> (r: String)
    ensures
        r@ == "{\"status\":\"ok\"}"@,
{
    "{\"status\":\"ok\"}".to_owned()
}

/// The answer to the probe of whether requests can be served: the credentials that can
/// be used and all of them, where there are any at all.
pub open spec fn readiness(credentials: Option<(nat, nat)>) -> (u16, Seq<char>) {
    match credentials {
        None => (
            503u16,
            "{\"reason\":\"kiro_provider_not_configured\",\"status\":\"not_ready\"}"@,
        ),
        Some((available, total)) => if available == 0 {
            (
                503u16,
                "{\"available\":0,\"reason\":\"no_available_credentials\",\"status\":\"not_ready\",\"total\":"@
                    + text::digits(total) + "}"@,
            )
        } else {
            (
                200u16,
                "{\"available\":"@ + text::digits(available) + ",\"status\":\"ready\",\"total\":"@
                    + text::digits(total) + "}"@,
            )
        },
    }
}

/// The answer to the probe of whether requests can be served: see [`readiness`].
pub fn readyz(credentials: Option<(usize, usize)>) -> (r: (u16, String))
    ensures
        (r.0, r.1@) == readiness(
            match credentials {
                Some(c) => Some((c.0 as nat, c.1 as nat)),
                None => None,
            },
        ),
{
    match credentials {
        None => (
            503,
            "{\"reason\":\"kiro_provider_not_configured\",\"status\":\"not_ready\"}".to_owned(),
        ),
        Some((available, total)) => if available == 0 {
            let mut s: String =
                "{\"available\":0,\"reason\":\"no_available_credentials\",\"status\":\"not_ready\",\"total\":".to_owned();
            text::push_u64(&mut s, total as u64);
            s.append("}");
            (503, s)
        } else {
            let mut s: String = "{\"available\":".to_owned();
            text::push_u64(&mut s, available as u64);
            s.append(",\"status\":\"ready\",\"total\":");
            text::push_u64(&mut s, total as u64);
            s.append("}");
            (200, s)
        },
    }
}

/// A model in the list of models.
#[derive(Debug)]
pub struct Model {
    pub id: String,
    pub object: String,
    pub created: i64,
    pub created_at: i64,
    pub owned_by: String,
    pub display_name: String,
    pub model_type: String,
    pub max_tokens: i32,
}

/// The view of a model in the list of models.
pub struct ListedView {
    pub id: Seq<char>,
    pub object: Seq<char>,
    pub created: i64,
    pub created_at: i64,
    pub owned_by: Seq<char>,
    pub display_name: Seq<char>,
    pub model_type: Seq<char>,
    pub max_tokens: i32,
}

impl View for Model {
    type V = ListedView;

    open spec fn view(&self) -> ListedView {
        ListedView {
            id: self.id@,
            object: self.object@,
            created: self.created,
            created_at: self.created_at,
            owned_by: self.owned_by@,
            display_name: self.display_name@,
            model_type: self.model_type@,
            max_tokens: self.max_tokens,
        }
    }
}

/// A model in the list, under an id and a name.
pub open spec fn listed(m: config::ModelView, id: Seq<char>, display_name: Seq<char>) -> ListedView {
    ListedView {
        id,
        object: "model"@,
        created: m.created,
        created_at: m.created,
        owned_by: "anthropic"@,
        display_name,
        model_type: "model"@,
        max_tokens: m.max_tokens,
    }
}

pub open spec fn listed_view(v: Seq<Model>) -> Seq<ListedView> {
    v.map_values(|m: Model| m@)
}

/// A model as it is.
pub open spec fn base_variant(m: config::ModelView) -> ListedView {
    listed(m, m.display_id, m.display_name)
}

/// A model as one that thinks.
pub open spec fn thinking_variant(m: config::ModelView) -> ListedView {
    listed(m, m.display_id + "-thinking"@, m.display_name + " (Thinking)"@)
}

/// The list of models: each as it is, then as one that thinks.
pub open spec fn model_list(models: Seq<config::ModelView>) -> Seq<ListedView>
    decreases models.len(),
{
    if models.len() == 0 {
        Seq::empty()
    } else {
        model_list(models.drop_last()).push(base_variant(models.last())).push(
            thinking_variant(models.last()),
        )
    }
}

fn listed_model(m: &ModelDef, id: String, display_name: String) -> (r: Model)
    ensures
        r@ == listed(m@, id@, display_name@),
{
    Model {
        id,
        object: "model".to_owned(),
        created: m.created,
        created_at: m.created,
        owned_by: "anthropic".to_owned(),
        display_name,
        model_type: "model".to_owned(),
        max_tokens: m.max_tokens,
    }
}

/// The list of models; see [`model_list`].
pub fn get_models(models: &Vec<ModelDef>) -> (r: Vec<Model>)
    ensures
        listed_view(r@) == model_list(config::models_view(models@)),
{
    let mut r: Vec<Model> = Vec::new();
    let ghost all = config::models_view(models@);
    let n: usize = models.len();
    let mut i: usize = 0;
    assert(listed_view(r@) =~= Seq::empty());
    while i < n
        invariant
            i <= n == models@.len(),
            all == config::models_view(models@),
            listed_view(r@) == model_list(all.take(i as int)),
        decreases n - i,
    {
        let ghost before = listed_view(r@);
        let m = &models[i];
        let base: Model = listed_model(m, m.display_id.clone(), m.display_name.clone());
        let mut id: String = m.display_id.clone();
        id.append("-thinking");
        let mut name: String = m.display_name.clone();
        name.append(" (Thinking)");
        let thinking: Model = listed_model(m, id, name);
        let ghost b = base@;
        let ghost t = thinking@;
        r.push(base);
        r.push(thinking);
        assert(listed_view(r@) =~= before.push(b).push(t));
        assert(all.take(i + 1).drop_last() =~= all.take(i as int));
        assert(all.take(i + 1).last() == models@[i as int]@);
        i = i + 1;
    }
    assert(all.take(i as int) =~= all);
    r
}

/// Every model is listed twice, in the order of the configuration.
pub proof fn law_models_listed_twice(models: Seq<config::ModelView>, i: int)
    requires
        0 <= i < models.len(),
    ensures
        model_list(models).len() == 2 * models.len(),
        model_list(models)[2 * i] == base_variant(models[i]),
        model_list(models)[2 * i + 1] == thinking_variant(models[i]),
    decreases models.len(),
{
    let rest = models.drop_last();
    lemma_list_length(rest);
    if i < rest.len() {
        law_models_listed_twice(rest, i);
    }
}

proof fn lemma_list_length(models: Seq<config::ModelView>)
    ensures
        model_list(models).len() == 2 * models.len(),
    decreases models.len(),
{
    if models.len() > 0 {
        lemma_list_length(models.drop_last());
    }
}

/// Whether and how the model is to think.
#[derive(Debug)]
pub struct Thinking {
    pub thinking_type: String,
    pub budget_tokens: i32,
}

impl Thinking {
    /// Whether the model is to think.
    pub fn is_enabled(&self) -> (r: bool)
        ensures
            r == thinks(self.thinking_type@),
    {
        text::str_eq(self.thinking_type.as_str(), "enabled") || text::str_eq(
            self.thinking_type.as_str(),
            "adaptive",
        )
    }
}

/// Whether a kind of thinking is thinking at all.
pub open spec fn thinks(thinking_type: Seq<char>) -> bool {
    thinking_type == "enabled"@ || thinking_type == "adaptive"@
}

/// How much effort the answer is worth.
#[derive(Debug)]
pub struct OutputConfig {
    pub effort: String,
}

/// A request for a message, as far as it is decided on here.
#[derive(Debug)]
pub struct MessagesRequest {
    pub model: String,
    pub max_tokens: i32,
    pub stream: bool,
    pub thinking: Option<Thinking>,
    pub output_config: Option<OutputConfig>,
}

/// The view of a request for a message.
pub struct RequestView {
    pub model: Seq<char>,
    pub max_tokens: i32,
    pub stream: bool,
    pub thinking: Option<(Seq<char>, i32)>,
    pub effort: Option<Seq<char>>,
}

impl View for MessagesRequest {
    type V = RequestView;

    open spec fn view(&self) -> RequestView {
        RequestView {
            model: self.model@,
            max_tokens: self.max_tokens,
            stream: self.stream,
            thinking: match self.thinking {
                Some(t) => Some((t.thinking_type@, t.budget_tokens)),
                None => None,
            },
            effort: match self.output_config {
                Some(c) => Some(c.effort@),
                None => None,
            },
        }
    }
}

impl RequestView {
    /// The request with the thinking that the name of its model asks for, the name
    /// being in lower case. Opus 4.6 thinks as much as it sees fit, at high effort.
    pub open spec fn with_thinking_of(self, model_lower: Seq<char>) -> RequestView {
        let adaptive = text::has_text(model_lower, "opus"@) && (text::has_text(
            model_lower,
            "4-6"@,
        ) || text::has_text(model_lower, "4.6"@));
        if !text::has_text(model_lower, "thinking"@) {
            self
        } else if adaptive {
            RequestView { thinking: Some(("adaptive"@, 20000)), effort: Some("high"@), ..self }
        } else {
            RequestView { thinking: Some(("enabled"@, 20000)), ..self }
        }
    }

    /// Whether the model is to think.
    pub open spec fn thinking_enabled(self) -> bool {
        match self.thinking {
            Some((t, _)) => thinks(t),
            None => false,
        }
    }
}

/// Sets the thinking that the name of a model asks for, the name being in lower case.
pub fn override_thinking(payload: &mut MessagesRequest, model_lower: &str)
    ensures
        final(payload)@ == old(payload)@.with_thinking_of(model_lower@),
{
    if !text::contains(model_lower, "thinking") {
        return;
    }
    let adaptive: bool = text::contains(model_lower, "opus") && (text::contains(
        model_lower,
        "4-6",
    ) || text::contains(model_lower, "4.6"));
    let thinking_type: &str = if adaptive {
        "adaptive"
    } else {
        "enabled"
    };
    payload.thinking = Some(
        Thinking { thinking_type: thinking_type.to_owned(), budget_tokens: 20000 },
    );
    if adaptive {
        payload.output_config = Some(OutputConfig { effort: "high".to_owned() });
    }
}

/// Sets the thinking that the name of the model asks for, whatever its case.
pub fn override_thinking_from_model_name(payload: &mut MessagesRequest)
    ensures
        final(payload)@ == old(payload)@.with_thinking_of(outside::lowercase(old(payload)@.model)),
{
    let model_lower: String = outside::to_lowercase(payload.model.as_str());
    override_thinking(payload, model_lower.as_str());
}

/// Takes a request for a message in, or refuses it where there is nobody to ask.
pub fn accept_messages(provider_configured: bool, payload: &mut MessagesRequest) -> (r: Option<
    ErrorReply,
>)
    ensures
        if provider_configured {
            &&& r is None
            &&& final(payload)@ == old(payload)@.with_thinking_of(
                outside::lowercase(old(payload)@.model),
            )
        } else {
            &&& r is Some
            &&& r.unwrap()@ == plain_reply(
                503,
                "service_unavailable"@,
                "Kiro API provider not configured"@,
            )
            &&& final(payload)@ == old(payload)@
        },
{
    if !provider_configured {
        return Some(
            ErrorReply::new(503, "service_unavailable", "Kiro API provider not configured"),
        );
    }
    override_thinking_from_model_name(payload);
    None
}

/// What is to be asked of the upstream service, and how it is to be answered.
#[derive(Debug)]
pub struct UpstreamPlan {
    pub request_body: String,
    pub stream: bool,
    pub thinking_enabled: bool,
    /// Whether thinking is set apart in an answer that is sent as a whole.
    pub extract_thinking: bool,
}

/// What a request for a message comes to, once its conversation is converted or was
/// found at fault with a kind of error and a message. Thinking is set apart in an answer
/// that is sent as a whole where the model is to think and `extract_thinking` is set.
pub fn plan_messages(
    payload: &MessagesRequest,
    conversion: Result<ConversationState, (String, String)>,
    extract_thinking: bool,
) -> (r: Result<UpstreamPlan, ErrorReply>)
    ensures
        match conversion {
            Ok(state) => {
                &&& r is Ok
                &&& r->Ok_0.request_body@ == request::request_json(state.json@, None, "vibe"@)
                &&& r->Ok_0.stream == payload@.stream
                &&& r->Ok_0.thinking_enabled == payload@.thinking_enabled()
                &&& r->Ok_0.extract_thinking == (payload@.thinking_enabled() && extract_thinking)
            },
            Err(e) => r is Err && r->Err_0@ == plain_reply(400, e.0@, e.1@),
        },
{
    match conversion {
        Ok(state) => {
            let body: String = KiroRequest::from_conversation_state(state).to_json();
            let thinking_enabled: bool = match &payload.thinking {
                Some(t) => t.is_enabled(),
                None => false,
            };
            Ok(
                UpstreamPlan {
                    request_body: body,
                    stream: payload.stream,
                    thinking_enabled,
                    extract_thinking: thinking_enabled && extract_thinking,
                },
            )
        },
        Err(e) => Err(ErrorReply::new(400, e.0.as_str(), e.1.as_str())),
    }
}

/// The number of tokens that is told to a client that asks for it: the low 32 bits of
/// the count, and at least one.
pub fn count_tokens(total_tokens: u64) -> (r: i32)
    ensures
        r == if events::low32(total_tokens as int) < 1 {
            1
        } else {
            events::low32(total_tokens as int)
        },
{
    let n: i32 = #[verifier::truncate] (total_tokens as i32);
    assert(total_tokens % 0x1_0000_0000 < 0x8000_0000 ==> (total_tokens as i32) == total_tokens
        % 0x1_0000_0000) by (bit_vector);
    assert(total_tokens % 0x1_0000_0000 >= 0x8000_0000 ==> (total_tokens as i32) == total_tokens
        % 0x1_0000_0000 - 0x1_0000_0000) by (bit_vector);
    if n < 1 {
        1
    } else {
        n
    }
}

/// Whether the service said that a request is too long.
pub open spec fn too_long(message: Seq<char>) -> bool {
    text::has_text(message, "CONTENT_LENGTH_EXCEEDS_THRESHOLD"@) || text::has_text(
        message,
        "Input is too long"@,
    )
}

/// What the client learns of a failed call. A request that is too long, whatever status came
/// with it, is the client's to mend. A rate limit is told as one, with the time to wait if and
/// only if it is known and may be told. A quota that is used up is told as that. Everything
/// else is a bad gateway, and a failure without a status is told in its own words.
pub proof fn law_client_learns_what_to_do(e: provider::ErrorView, passthrough: bool)
    ensures
        ({
            let r = provider_reply(e, passthrough);
            &&& r.status == 400 <==> too_long(e.text())
            &&& r.error_type == "invalid_request_error"@ <==> too_long(e.text())
            &&& text::has_text(e.text(), "CONTENT_LENGTH_EXCEEDS_THRESHOLD"@) ==> r.message
                == "Context window is full. Reduce conversation history, system prompt, or tools."@
            &&& !too_long(e.text()) ==> match e {
                provider::ErrorView::Upstream { status, message, retry_after } => {
                    &&& r.status == 429 <==> status == 429
                    &&& r.status == 402 <==> status == 402
                    &&& status == 429 ==> r.error_type == "rate_limit_error"@ && (r.retry_after
                        is Some <==> passthrough && retry_after is Some)
                    &&& status != 429 ==> r.error_type == "api_error"@ && r.retry_after is None
                    &&& status != 429 && status != 402 ==> r.status == 502
                },
                provider::ErrorView::Other(message) => {
                    &&& r.status == 502
                    &&& r.error_type == "api_error"@
                    &&& r.retry_after is None
                    &&& text::has_text(r.message, message)
                },
            }
        }),
{
    reveal_strlit("invalid_request_error");
    reveal_strlit("rate_limit_error");
    reveal_strlit("api_error");
    assert("invalid_request_error"@.len() != "rate_limit_error"@.len());
    assert("invalid_request_error"@.len() != "api_error"@.len());
    if let provider::ErrorView::Other(message) = e {
        let head = "上游 API 调用失败: "@;
        let s = head + message;
        assert(s.subrange(head.len() as int, s.len() as int) =~= message);
        assert(text::occurs_at(s, message, head.len() as int));
    }
}

/// The name of a model, in lower case, asks for thinking if and only if it says so. Then the
/// model thinks, with 20000 tokens to do it in; Opus 4.6 as much as it sees fit and at high
/// effort, any other just so and at the effort that the request names. Nothing else of a
/// request is changed, and a name that does not ask changes nothing.
pub proof fn law_name_asks_for_thinking(p: RequestView, name: Seq<char>)
    ensures
        ({
            let r = p.with_thinking_of(name);
            let asks = text::has_text(name, "thinking"@);
            let freely = text::has_text(name, "opus"@) && (text::has_text(name, "4-6"@)
                || text::has_text(name, "4.6"@));
            &&& r.model == p.model
            &&& r.max_tokens == p.max_tokens
            &&& r.stream == p.stream
            &&& !asks ==> r.thinking == p.thinking && r.effort == p.effort
            &&& asks ==> {
                &&& r.thinking_enabled()
                &&& r.thinking.unwrap().1 == 20000
                &&& r.thinking.unwrap().0 == "adaptive"@ <==> freely
                &&& r.effort == if freely {
                    Some("high"@)
                } else {
                    p.effort
                }
            }
        }),
{
    reveal_strlit("adaptive");
    reveal_strlit("enabled");
    assert("adaptive"@.len() != "enabled"@.len());
}

/// Requests can be served if and only if there is a credential that can be used. How many can
/// be, and how many there are, is told.
pub proof fn law_ready_with_a_credential(credentials: Option<(nat, nat)>)
    ensures
        readiness(credentials).0 == 200 <==> credentials is Some && credentials.unwrap().0 > 0,
        readiness(credentials).0 == 200 || readiness(credentials).0 == 503,
        credentials is Some ==> text::has_text(
            readiness(credentials).1,
            "\"total\":"@ + text::digits(credentials.unwrap().1) + "}"@,
        ),
        credentials is Some ==> text::begins_with(
            readiness(credentials).1,
            "{\"available\":"@ + text::digits(credentials.unwrap().0) + ","@,
        ),
{
    if let Some((available, total)) = credentials {
        let tail = "\"total\":"@ + text::digits(total) + "}"@;
        let s = readiness(credentials).1;
        reveal_strlit("\"total\":");
        reveal_strlit(",\"status\":\"ready\",\"total\":");
        reveal_strlit(
            "{\"available\":0,\"reason\":\"no_available_credentials\",\"status\":\"not_ready\",\"total\":",
        );
        let k = s.len() - tail.len();
        assert(s.subrange(k, k + tail.len()) =~= tail);
        assert(text::occurs_at(s, tail, k));
        let head = "{\"available\":"@ + text::digits(available) + ","@;
        reveal_strlit("{\"available\":");
        reveal_strlit(",");
        reveal_with_fuel(text::digits, 2);
        assert(s.subrange(0, head.len() as int) =~= head);
    }
}

/// What is listed of a model, as it is and as one that thinks: the id and the name by which it
/// goes, marked for the one that thinks, and for both when it was made and how much it writes.
pub proof fn law_model_is_listed(models: Seq<config::ModelView>, i: int)
    requires
        0 <= i < models.len(),
    ensures
        ({
            let m = models[i];
            let a = model_list(models)[2 * i];
            let b = model_list(models)[2 * i + 1];
            &&& a.id == m.display_id && b.id == m.display_id + "-thinking"@
            &&& a.display_name == m.display_name && b.display_name == m.display_name
                + " (Thinking)"@
            &&& a.created == m.created && b.created == m.created
            &&& a.created_at == m.created && b.created_at == m.created
            &&& a.max_tokens == m.max_tokens && b.max_tokens == m.max_tokens
            &&& a.owned_by == "anthropic"@ && b.owned_by == "anthropic"@
            &&& a.object == "model"@ && b.object == "model"@
            &&& a.model_type == "model"@ && b.model_type == "model"@
        }),
{
    law_models_listed_twice(models, i);
}

} // verus!
