//! Playback preferences that outlive one file.
//!
//! Volume, mute, and which language of audio and subtitles to prefer: things a
//! viewer sets once and expects to hold for the next episode and the next
//! launch. An unreadable file is reported and stepped over.

use vstd::prelude::*;

use crate::config;
use crate::config::read_json;
use crate::config::AppDirs;
use crate::config::Save;
use crate::config::Stored;
use crate::core_error::Error;
use crate::player;
use crate::player::clamp_volume;
use crate::text;

verus! {

/// How playback should sound, and in which language.
#[derive(Debug, PartialEq, Eq)]
pub struct PlaybackPrefs {
    /// In thousandths of a percent; `None` where what was stored is no finite
    /// number.
    pub volume: Option<i64>,
    pub muted: bool,
    /// The language tag of the audio track to prefer. `None` leaves the choice
    /// to the container's default.
    pub audio_language: Option<String>,
    pub subtitle_language: Option<String>,
    /// Whether subtitles are wanted at all. "Off" is a decision, and an absent
    /// language cannot express it.
    pub subtitles: bool,
    /// Whether reaching the end of an episode starts the next one.
    pub autoplay_next: bool,
}

impl Clone for PlaybackPrefs {
    fn clone(&self) -> (r: Self)
        ensures
            r == *self,
    {
        PlaybackPrefs {
            volume: self.volume,
            muted: self.muted,
            audio_language: text::copy_option(&self.audio_language),
            subtitle_language: text::copy_option(&self.subtitle_language),
            subtitles: self.subtitles,
            autoplay_next: self.autoplay_next,
        }
    }
}

/// What a first run gets.
pub open spec fn first_prefs() -> PlaybackPrefs {
    PlaybackPrefs {
        volume: Some(player::MAX_VOLUME),
        muted: false,
        audio_language: None,
        subtitle_language: None,
        subtitles: true,
        autoplay_next: true,
    }
}

impl Default for PlaybackPrefs {
    fn default() -> (r: Self)
        ensures
            r == first_prefs(),
    {
        PlaybackPrefs {
            volume: Some(player::MAX_VOLUME),
            muted: false,
            audio_language: None,
            subtitle_language: None,
            subtitles: true,
            autoplay_next: true,
        }
    }
}

/// A language, unless it is blank.
pub open spec fn sane_language(language: Option<String>) -> Option<String> {
    match language {
        Some(tag) => if text::trim(tag@).len() > 0 {
            Some(tag)
        } else {
            None
        },
        None => None,
    }
}

fn keep_language(language: Option<String>) -> (r: Option<String>)
    ensures
        r == sane_language(language),
{
    match language {
        Some(tag) => {
            let v = text::to_chars(tag.as_str());
            if text::trimmed(&v).len() > 0 {
                Some(tag)
            } else {
                None
            }
        },
        None => None,
    }
}

/// A volume inside what the player offers: the loudest, where there is no number.
pub open spec fn sane_volume(volume: Option<i64>) -> i64 {
    match volume {
        Some(volume) => player::clamped_volume(volume),
        None => player::MAX_VOLUME,
    }
}

/// Preferences with anything out of range brought back into it.
pub open spec fn sane(prefs: PlaybackPrefs) -> PlaybackPrefs {
    PlaybackPrefs {
        volume: Some(sane_volume(prefs.volume)),
        audio_language: sane_language(prefs.audio_language),
        subtitle_language: sane_language(prefs.subtitle_language),
        ..prefs
    }
}

impl PlaybackPrefs {
    /// The same preferences with anything out of range brought back into it.
    ///
    /// A hand-edited or older file can hold a volume of 900 or one that is no
    /// number, and both would otherwise reach the player.
    pub fn sanitized(self) -> (r: Self)
        ensures
            r == sane(self),
    {
        PlaybackPrefs {
            volume: Some(
                match self.volume {
                    Some(volume) => clamp_volume(volume),
                    None => player::MAX_VOLUME,
                },
            ),
            muted: self.muted,
            audio_language: keep_language(self.audio_language),
            subtitle_language: keep_language(self.subtitle_language),
            subtitles: self.subtitles,
            autoplay_next: self.autoplay_next,
        }
    }
}

/// The stored preferences, or the defaults on a first run. `path` is the file's
/// name as it is printed.
pub fn load(path: &str, stored: Stored<PlaybackPrefs>) -> (r: Result<PlaybackPrefs, Error>)
    ensures
        match stored {
            Stored::Missing => r == Ok::<PlaybackPrefs, Error>(first_prefs()),
            Stored::Found(prefs) => r == Ok::<PlaybackPrefs, Error>(sane(prefs)),
            Stored::Unreadable(why) => r == Err::<PlaybackPrefs, Error>(Error::Io(why)),
            Stored::Invalid(why) => r is Err && r->Err_0 is Config && r->Err_0->Config_0@ == path@
                + " is not valid config: "@ + why@,
        },
{
    match read_json(path, stored) {
        Ok(Some(prefs)) => Ok(prefs.sanitized()),
        Ok(None) => Ok(PlaybackPrefs::default().sanitized()),
        Err(error) => Err(error),
    }
}

/// What to write to keep preferences, and where. It is written only where what
/// is there may be replaced: see [`config::replaceable`].
pub fn save(dirs: &AppDirs, prefs: &PlaybackPrefs) -> (r: Save<PlaybackPrefs>)
    ensures
        r.place@ == (config::PlaceView { base: dirs.config@, parts: seq!["playback.json"@] }),
        r.value == *prefs,
{
    Save { place: dirs.prefs_file(), value: prefs.clone() }
}

/// Preferences that loaded once load again unchanged, their volume is one that
/// the player offers, and neither language is blank.
pub proof fn law_loaded_preferences_are_sane(prefs: PlaybackPrefs)
    ensures
        sane(sane(prefs)) == sane(prefs),
        sane(prefs).volume is Some,
        0 <= sane(prefs).volume->0 <= player::MAX_VOLUME,
        sane(prefs).audio_language is Some ==> text::trim(sane(prefs).audio_language->0@).len() > 0,
        sane(prefs).subtitle_language is Some ==> text::trim(
            sane(prefs).subtitle_language->0@,
        ).len() > 0,
{
}

/// Preferences that make sense load as they are: a volume between nothing and
/// full, languages that say something, and every switch as it was set.
pub proof fn law_sensible_preferences_load_unchanged(prefs: PlaybackPrefs)
    ensures
        sane(prefs).muted == prefs.muted,
        sane(prefs).subtitles == prefs.subtitles,
        sane(prefs).autoplay_next == prefs.autoplay_next,
        prefs.volume matches Some(volume) ==> (0 <= volume <= 100_000 ==> sane(prefs).volume
            == Some(volume)) && (volume > 100_000 ==> sane(prefs).volume == Some(100_000i64)) && (
        volume < 0 ==> sane(prefs).volume == Some(0i64)),
        prefs.volume is None ==> sane(prefs).volume == Some(100_000i64),
        prefs.audio_language matches Some(tag) ==> (text::trim(tag@).len() > 0 ==> sane(
            prefs,
        ).audio_language == Some(tag)),
        prefs.subtitle_language matches Some(tag) ==> (text::trim(tag@).len() > 0 ==> sane(
            prefs,
        ).subtitle_language == Some(tag)),
        prefs.audio_language is None ==> sane(prefs).audio_language is None,
        prefs.subtitle_language is None ==> sane(prefs).subtitle_language is None,
{
}

} // verus!
