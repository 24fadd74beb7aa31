//! The request to the conversation service.

use vstd::prelude::*;
use vstd::string::*;
use crate::outside;
use crate::text;

verus! {

/// The state of a conversation, as JSON text.
#[derive(Debug)]
pub struct ConversationState {
    pub json: String,
}

/// A request to the conversation service.
#[derive(Debug)]
pub struct KiroRequest {
    pub conversation_state: ConversationState,
    pub profile_arn: Option<String>,
    /// What the header `x-amzn-kiro-agent-mode` says too.
    pub agent_mode: String,
}

/// The JSON of a request: the profile is left out where there is none.
pub open spec fn request_json(
    state: Seq<char>,
    profile_arn: Option<Seq<char>>,
    agent_mode: Seq<char>,
) -> Seq<char> {
    "{\"conversationState\":"@ + state + match profile_arn {
        Some(arn) => ",\"profileArn\":"@ + outside::json_quoted(arn),
        None => Seq::empty(),
    } + ",\"agentMode\":"@ + outside::json_quoted(agent_mode) + "}"@
}

/// The mode of a request that names none.
pub fn default_agent_mode() -> (r: String)
    ensures
        r@ == "vibe"@,
{
    "vibe".to_owned()
}

impl KiroRequest {
    /// The request that goes on with a conversation. The profile is filled in by the
    /// endpoint.
    pub fn from_conversation_state(conversation_state: ConversationState) -> (r: Self)
        ensures
            r.conversation_state == conversation_state,
            r.profile_arn is None,
            r.agent_mode@ == "vibe"@,
    {
        KiroRequest { conversation_state, profile_arn: None, agent_mode: default_agent_mode() }
    }

    /// The JSON of the request; see [`request_json`].
    pub fn to_json(&self) -> (r: String)
        ensures
            r@ == request_json(
                self.conversation_state.json@,
                text::opt_view(self.profile_arn),
                self.agent_mode@,
            ),
    {
        let mut s: String = "{\"conversationState\":".to_owned();
        s.append(self.conversation_state.json.as_str());
        if let Some(arn) = &self.profile_arn {
            s.append(",\"profileArn\":");
            s.append(outside::json_quote(arn.as_str()).as_str());
        }
        s.append(",\"agentMode\":");
        s.append(outside::json_quote(self.agent_mode.as_str()).as_str());
        s.append("}");
        proof {
            let head = "{\"conversationState\":"@ + self.conversation_state.json@;
            let tail = ",\"agentMode\":"@;
            match &self.profile_arn {
                Some(arn) => {
                    let q = outside::json_quoted(arn@);
                    assert(head + ",\"profileArn\":"@ + q =~= head + (",\"profileArn\":"@ + q));
                },
                None => {
                    assert(head + Seq::<char>::empty() =~= head);
                },
            }
        }
        s
    }
}

/// The JSON of a request holds the conversation as it is, the mode, and the profile if and only
/// if there is one.
pub proof fn law_request_tells(
    state: Seq<char>,
    profile_arn: Option<Seq<char>>,
    agent_mode: Seq<char>,
)
    ensures
        ({
            let json = request_json(state, profile_arn, agent_mode);
            let mode = ",\"agentMode\":"@ + outside::json_quoted(agent_mode) + "}"@;
            &&& text::begins_with(json, "{\"conversationState\":"@ + state)
            &&& text::ends_in(json, mode)
            &&& json.len() == ("{\"conversationState\":"@ + state).len() + mode.len()
                + match profile_arn {
                Some(arn) => (",\"profileArn\":"@ + outside::json_quoted(arn)).len(),
                None => 0,
            }
            &&& profile_arn matches Some(arn) ==> text::has_text(
                json,
                ",\"profileArn\":"@ + outside::json_quoted(arn),
            )
        }),
{
    let json = request_json(state, profile_arn, agent_mode);
    let head = "{\"conversationState\":"@ + state;
    let mode = ",\"agentMode\":"@ + outside::json_quoted(agent_mode) + "}"@;
    let profile = match profile_arn {
        Some(arn) => ",\"profileArn\":"@ + outside::json_quoted(arn),
        None => Seq::empty(),
    };
    assert(json =~= head + profile + mode);
    assert(json.subrange(0, head.len() as int) =~= head);
    assert(json.skip(json.len() - mode.len()) =~= mode);
    text::lemma_in_itself(profile);
    text::lemma_in_whole(head, profile, profile);
    text::lemma_in_whole(head + profile, mode, profile);
}

} // verus!
