//! What can go wrong looking a title up.

use vstd::prelude::*;

use crate::core_error;
use crate::metadata::ProviderId;
use crate::text;

verus! {

/// One error type for looking a title up.
#[derive(Debug, PartialEq, Eq)]
pub enum Error {
    /// The request did not get through.
    Network(String),
    /// The provider answered, and the answer was not one.
    Http(String),
    /// The provider is throttling. Its own variant because a throttled lookup
    /// has to be retried later, never stored as "this title has no match".
    RateLimited,
    /// The chosen provider needs an API key and none is stored.
    MissingApiKey(ProviderId),
    /// Lookups are off. Not a failure: there is nothing to do.
    Disabled,
    Config(String),
    Core(core_error::Error),
}

/// A provider's name on screen.
pub open spec fn label_of(provider: ProviderId) -> Seq<char> {
    match provider {
        ProviderId::AniList => "AniList"@,
        ProviderId::Tmdb => "TMDB"@,
    }
}

impl Error {
    /// The error as it is printed.
    pub open spec fn text(self) -> Seq<char> {
        match self {
            Error::Network(m) => "network: "@ + m@,
            Error::Http(m) => m@,
            Error::RateLimited => "the provider is rate-limiting; try again shortly"@,
            Error::MissingApiKey(provider) => label_of(provider) + " needs an API key"@,
            Error::Disabled => "metadata lookups are turned off"@,
            Error::Config(m) => "config: "@ + m@,
            Error::Core(e) => e.text(),
        }
    }

    /// The error as it is printed.
    pub fn message(&self) -> (r: String)
        ensures
            r@ == self.text(),
    {
        match self {
            Error::Network(m) => text::joined("network: ", m.as_str()),
            Error::Http(m) => m.clone(),
            Error::RateLimited => text::owned("the provider is rate-limiting; try again shortly"),
            Error::MissingApiKey(provider) => text::joined(provider.label(), " needs an API key"),
            Error::Disabled => text::owned("metadata lookups are turned off"),
            Error::Config(m) => text::joined("config: ", m.as_str()),
            Error::Core(e) => e.message(),
        }
    }
}

/// The error that a provider's refusal is, given its status and the status as
/// it is printed.
///
/// Throttling is the one worth naming everywhere, because a caller that knows it
/// was throttled backs off rather than storing a miss. TMDB answers 401 where
/// the key is wrong.
pub fn refusal(provider: ProviderId, code: u16, status: &str) -> (r: Error)
    ensures
        code == 429 ==> r == Error::RateLimited,
        code == 401 && provider is Tmdb ==> r == Error::MissingApiKey(ProviderId::Tmdb),
        code != 429 && !(code == 401 && provider is Tmdb) ==> r is Http && r->Http_0@ == label_of(
            provider,
        ) + " answered "@ + status@,
{
    if code == 429 {
        return Error::RateLimited;
    }
    if code == 401 && provider == ProviderId::Tmdb {
        return Error::MissingApiKey(ProviderId::Tmdb);
    }
    let mut message = text::joined(provider.label(), " answered ");
    message.push_str(status);
    Error::Http(message)
}

/// What AniList's list of errors means. It comes under a success, and an empty
/// one means there were none.
pub fn graphql_error(messages: &[String]) -> (r: Option<Error>)
    ensures
        messages@.len() == 0 ==> r is None,
        messages@.len() > 0 ==> r is Some && r->0 is Http && (r->0)->Http_0@ == "AniList: "@
            + text::separated(text::texts(messages@), "; "@),
{
    if messages.len() == 0 {
        return None;
    }
    let list = text::join_separated(messages, "; ");
    Some(Error::Http(text::joined("AniList: ", list.as_str())))
}

} // verus!
