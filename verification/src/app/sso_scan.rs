//! Credentials that other tools of the user have left in a cache: token files, each
//! with the name of the file in which its client is registered.

use vstd::prelude::*;
use vstd::string::*;
use crate::app::paths;
use crate::app::paths::PathStyle;
use crate::text;

verus! {

/// A credential that was found.
#[derive(Debug)]
pub struct SsoCredentialCandidate {
    pub refresh_token: String,
    pub client_id: String,
    pub client_secret: String,
    pub region: Option<String>,
    /// The file it was found in.
    pub source_file: String,
}

/// What a token file holds.
#[derive(Debug)]
pub struct KiroAuthToken {
    pub refresh_token: Option<String>,
    pub client_id_hash: Option<String>,
    pub region: Option<String>,
}

/// What the registration of a client holds.
#[derive(Debug)]
pub struct ClientRegistration {
    pub client_id: Option<String>,
    pub client_secret: Option<String>,
}

/// The cache below the home directory, if that is known.
pub fn sso_cache_dir(style: PathStyle, home: Option<&str>) -> (r: Option<String>)
    ensures
        text::opt_view(r) == match home {
            Some(h) => Some(
                paths::joined(
                    style,
                    paths::joined(style, paths::joined(style, h@, ".aws"@), "sso"@),
                    "cache"@,
                ),
            ),
            None => None,
        },
{
    match home {
        Some(h) => {
            let a: String = paths::join(style, h, ".aws");
            let b: String = paths::join(style, a.as_str(), "sso");
            Some(paths::join(style, b.as_str(), "cache"))
        },
        None => None,
    }
}

/// Whether a file is a token file, by its name.
pub open spec fn names_token_file(name: Seq<char>) -> bool {
    text::begins_with(name, "kiro-auth-token"@) && text::ends_in(name, ".json"@)
}

/// Whether a file is a token file, by its name.
pub fn is_token_file(name: &str) -> (r: bool)
    ensures
        r == names_token_file(name@),
{
    text::starts_with(name, "kiro-auth-token") && text::ends_with(name, ".json")
}

/// A text without white space around it, unless it is missing or blank.
pub open spec fn filled(s: Option<Seq<char>>) -> Option<Seq<char>> {
    match s {
        Some(t) => if text::trim(t).len() == 0 {
            None
        } else {
            Some(text::trim(t))
        },
        None => None,
    }
}

fn fill(s: &Option<String>) -> (r: Option<String>)
    ensures
        text::opt_view(r) == filled(text::opt_view(*s)),
{
    match s {
        Some(t) => {
            let trimmed: String = text::trimmed(t.as_str());
            if trimmed.as_str().is_empty() {
                None
            } else {
                Some(trimmed)
            }
        },
        None => None,
    }
}

/// The file in which the client of a token is registered. There is none where the token
/// or the name of its client is missing.
pub fn client_file(token: &KiroAuthToken) -> (r: Option<String>)
    ensures
        text::opt_view(r) == match (
            filled(text::opt_view(token.refresh_token)),
            filled(text::opt_view(token.client_id_hash)),
        ) {
            (Some(_), Some(hash)) => Some(hash + ".json"@),
            _ => None,
        },
{
    match fill(&token.refresh_token) {
        Some(_) => match fill(&token.client_id_hash) {
            Some(hash) => {
                let mut s: String = hash;
                s.append(".json");
                Some(s)
            },
            None => None,
        },
        None => None,
    }
}

/// The view of a credential that was found.
pub struct CandidateView {
    pub refresh_token: Seq<char>,
    pub client_id: Seq<char>,
    pub client_secret: Seq<char>,
    pub region: Option<Seq<char>>,
    pub source_file: Seq<char>,
}

impl View for SsoCredentialCandidate {
    type V = CandidateView;

    open spec fn view(&self) -> CandidateView {
        CandidateView {
            refresh_token: self.refresh_token@,
            client_id: self.client_id@,
            client_secret: self.client_secret@,
            region: text::opt_view(self.region),
            source_file: self.source_file@,
        }
    }
}

/// The credential that a token and its client make, if nothing of it is missing.
pub fn assemble_candidate(
    token: &KiroAuthToken,
    client: &ClientRegistration,
    source_file: &str,
) -> (r: Option<SsoCredentialCandidate>)
    ensures
        (match r {
            Some(c) => Some(c@),
            None => None,
        }) == match (
            filled(text::opt_view(token.refresh_token)),
            filled(text::opt_view(token.client_id_hash)),
            filled(text::opt_view(client.client_id)),
            filled(text::opt_view(client.client_secret)),
        ) {
            (Some(refresh_token), Some(_), Some(client_id), Some(client_secret)) => Some(
                CandidateView {
                    refresh_token,
                    client_id,
                    client_secret,
                    region: filled(text::opt_view(token.region)),
                    source_file: source_file@,
                },
            ),
            _ => None,
        },
{
    match (
        fill(&token.refresh_token),
        fill(&token.client_id_hash),
        fill(&client.client_id),
        fill(&client.client_secret),
    ) {
        (Some(refresh_token), Some(_), Some(client_id), Some(client_secret)) => Some(
            SsoCredentialCandidate {
                refresh_token,
                client_id,
                client_secret,
                region: fill(&token.region),
                source_file: source_file.to_owned(),
            },
        ),
        _ => None,
    }
}

/// A text counts if it is there and not blank, without the white space at its ends.
pub proof fn law_filled(s: Option<Seq<char>>)
    ensures
        filled(s) is Some <==> s is Some && !text::all_white(s.unwrap()),
        filled(s) matches Some(t) ==> text::stripped(s.unwrap(), t) && t.len() > 0,
{
    if let Some(t) = s {
        text::law_trim(t);
    }
}

} // verus!
