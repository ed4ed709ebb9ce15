//! The enrichment settings, and the API key.
//!
//! The key does not go in the settings file: it is a credential, and belongs in
//! the system's credential store.

use vstd::prelude::*;

use crate::config;
use crate::config::read_json;
use crate::config::AppDirs;
use crate::config::Save;
use crate::config::Stored;
use crate::core_error;
use crate::metadata;
use crate::metadata::MetadataConfig;
use crate::metadata::ProviderId;
use crate::text;

verus! {

/// The name a provider's key is stored under. Keys are kept apart by provider,
/// so switching back does not mean typing one in again.
pub open spec fn entry_name(provider: ProviderId) -> Seq<char> {
    "metadata-"@ + metadata::provider_name(provider)
}

/// The name a provider's key is stored under.
pub fn keyring_entry(provider: ProviderId) -> (r: String)
    ensures
        r@ == entry_name(provider),
{
    text::joined("metadata-", provider.as_str())
}

/// The stored settings, or the defaults on a first run. `path` is the file's
/// name as it is printed.
pub fn load(path: &str, stored: Stored<MetadataConfig>) -> (r: Result<
    MetadataConfig,
    core_error::Error,
>)
    ensures
        match stored {
            Stored::Missing => {
                &&& r is Ok
                &&& !r->Ok_0.enabled
                &&& r->Ok_0.provider is AniList
                &&& r->Ok_0.language@ == "en"@
            },
            Stored::Found(config) => r == Ok::<MetadataConfig, core_error::Error>(config),
            Stored::Unreadable(why) => r == Err::<MetadataConfig, core_error::Error>(
                core_error::Error::Io(why),
            ),
            Stored::Invalid(why) => r is Err && r->Err_0 is Config && r->Err_0->Config_0@ == path@
                + " is not valid config: "@ + why@,
        },
{
    match read_json(path, stored) {
        Ok(Some(config)) => Ok(config),
        Ok(None) => Ok(MetadataConfig::default()),
        Err(error) => Err(error),
    }
}

/// What to write to keep the settings, and where. They are written only where
/// what is there may be replaced: see [`config::replaceable`].
pub fn save(dirs: &AppDirs, config: MetadataConfig) -> (r: Save<MetadataConfig>)
    ensures
        r.place@ == (config::PlaceView { base: dirs.config@, parts: seq!["metadata.json"@] }),
        r.value == config,
{
    Save { place: dirs.settings_file(), value: config }
}

/// Where to look for a provider's key: nowhere, for one that needs none. Asking
/// for such a key never reaches the credential store.
pub fn key_to_read(provider: ProviderId) -> (r: Option<String>)
    ensures
        provider is AniList ==> r is None,
        provider is Tmdb ==> r is Some && r->0@ == entry_name(provider),
{
    if provider.needs_api_key() {
        Some(keyring_entry(provider))
    } else {
        None
    }
}

/// The API key for a provider, given what the credential store answered.
///
/// A store that is locked or absent reads as no key: the next move is the same
/// either way.
pub fn api_key(provider: ProviderId, stored: Result<String, String>) -> (r: Option<String>)
    ensures
        r == match (provider, stored) {
            (ProviderId::Tmdb, Ok(key)) => Some(key),
            _ => None,
        },
{
    if !provider.needs_api_key() {
        return None;
    }
    match stored {
        Ok(key) => Some(key),
        Err(_) => None,
    }
}

/// What to do with a key that the viewer typed in.
#[derive(Debug, PartialEq, Eq)]
pub enum KeyChange {
    /// Delete the stored one. That there is none is what was asked for.
    Forget(String),
    /// Store this one, under this name.
    Keep(String, String),
}

/// Store an API key, or forget it when it is blank.
pub fn set_api_key(provider: ProviderId, key: &str) -> (r: KeyChange)
    ensures
        match r {
            KeyChange::Forget(entry) => text::trim(key@).len() == 0 && entry@ == entry_name(
                provider,
            ),
            KeyChange::Keep(entry, value) => text::trim(key@).len() > 0 && entry@ == entry_name(
                provider,
            ) && value@ == key@,
        },
{
    let v = text::to_chars(key);
    let entry = keyring_entry(provider);
    if text::trimmed(&v).len() == 0 {
        KeyChange::Forget(entry)
    } else {
        KeyChange::Keep(entry, text::owned(key))
    }
}

/// Two providers' keys are stored apart.
pub proof fn law_keys_are_kept_apart(a: ProviderId, b: ProviderId)
    requires
        a != b,
    ensures
        entry_name(a) != entry_name(b),
{
    reveal_strlit("anilist");
    reveal_strlit("tmdb");
    assert(entry_name(a).len() != entry_name(b).len());
}

/// A key is stored under the name of its provider, behind a fixed word.
pub proof fn law_a_key_is_stored_under_its_provider(provider: ProviderId)
    ensures
        entry_name(provider).take(9) == "metadata-"@,
        provider is AniList ==> entry_name(provider).skip(9) == "anilist"@,
        provider is Tmdb ==> entry_name(provider).skip(9) == "tmdb"@,
{
    reveal_strlit("metadata-");
    let name = metadata::provider_name(provider);
    assert(entry_name(provider).take(9) =~= "metadata-"@);
    assert(entry_name(provider).skip(9) =~= name);
}

} // verus!
