//! What is inside the file, and which of it is playing.
//!
//! A missing property is not an error: most tracks have no title, plenty have no
//! language, and the player answers those with *unavailable* rather than with an
//! empty string.

use vstd::prelude::*;
use vstd::slice::slice_subrange;

use crate::text;
use crate::text::from_chars;
use crate::text::is_word;
use crate::text::owned;
use crate::text::same_text;
use crate::text::to_chars;
use crate::text::to_lower;
use crate::text::to_upper;
use crate::text::trimmed_option;

verus! {

/// What a track carries.
#[derive(Debug, Clone, Copy, PartialEq, Eq, Hash, Structural)]
pub enum TrackKind {
    Video,
    Audio,
    Subtitle,
}

/// The kind that mpv's own name for it names.
pub open spec fn kind_named(value: Seq<char>) -> Option<TrackKind> {
    if value == "video"@ {
        Some(TrackKind::Video)
    } else if value == "audio"@ {
        Some(TrackKind::Audio)
    } else if value == "sub"@ {
        Some(TrackKind::Subtitle)
    } else {
        None
    }
}

impl TrackKind {
    /// mpv's own name for the kind. `sub2` is the secondary subtitle slot, which
    /// this player does not offer.
    pub fn from_mpv(value: &str) -> (r: Option<Self>)
        ensures
            r == kind_named(value@),
    {
        if same_text(value, "video") {
            Some(TrackKind::Video)
        } else if same_text(value, "audio") {
            Some(TrackKind::Audio)
        } else if same_text(value, "sub") {
            Some(TrackKind::Subtitle)
        } else {
            None
        }
    }

    /// The mpv property that selects a track of this kind.
    pub fn property(self) -> (r: &'static str)
        ensures
            r@ == match self {
                TrackKind::Video => "vid"@,
                TrackKind::Audio => "aid"@,
                TrackKind::Subtitle => "sid"@,
            },
    {
        match self {
            TrackKind::Video => "vid",
            TrackKind::Audio => "aid",
            TrackKind::Subtitle => "sid",
        }
    }

    /// What to call this in a menu.
    pub open spec fn label_text(self) -> Seq<char> {
        match self {
            TrackKind::Video => "Video"@,
            TrackKind::Audio => "Audio"@,
            TrackKind::Subtitle => "Subtitles"@,
        }
    }

    /// What to call this in a menu.
    pub fn label(self) -> (r: &'static str)
        ensures
            r@ == self.label_text(),
    {
        match self {
            TrackKind::Video => "Video",
            TrackKind::Audio => "Audio",
            TrackKind::Subtitle => "Subtitles",
        }
    }
}

/// One track of a file, as mpv sees it.
#[derive(Debug, PartialEq, Eq)]
pub struct Track {
    /// mpv's id for the track: one-based, and unique only within a kind.
    pub id: i64,
    pub kind: TrackKind,
    /// The name the muxer gave it, if any: "Signs & Songs", "Commentary".
    pub title: Option<String>,
    /// The language tag, as it sits in the container: "eng", "jpn".
    pub language: Option<String>,
    pub codec: Option<String>,
    /// Whether this is the track currently playing.
    pub selected: bool,
    /// Whether the container marks it as the default choice.
    pub default: bool,
    /// True for a track added from outside the file.
    pub external: bool,
}

impl Clone for Track {
    fn clone(&self) -> (r: Self)
        ensures
            r == *self,
    {
        Track {
            id: self.id,
            kind: self.kind,
            title: text::copy_option(&self.title),
            language: text::copy_option(&self.language),
            codec: text::copy_option(&self.codec),
            selected: self.selected,
            default: self.default,
            external: self.external,
        }
    }
}

/// What the player reports of one entry of its track list.
#[derive(Debug, PartialEq, Eq)]
pub struct RawTrack {
    pub kind: Option<String>,
    pub id: Option<i64>,
    pub title: Option<String>,
    pub language: Option<String>,
    pub codec: Option<String>,
    pub selected: bool,
    pub default: bool,
    pub external: bool,
}

/// A track from what the player reports of it: `None` for a kind this player does
/// not offer, and for one without an id.
pub fn read_track(raw: RawTrack) -> (r: Option<Track>)
    ensures
        ({
            let kind = match text::stated(text::opt_chars(raw.kind)) {
                Some(name) => kind_named(name),
                None => None,
            };
            match r {
                Some(track) => {
                    &&& kind == Some(track.kind)
                    &&& raw.id == Some(track.id) && track.id > 0
                    &&& text::opt_chars(track.title) == text::stated(text::opt_chars(raw.title))
                    &&& text::opt_chars(track.language) == text::stated(
                        text::opt_chars(raw.language),
                    )
                    &&& text::opt_chars(track.codec) == text::stated(text::opt_chars(raw.codec))
                    &&& track.selected == raw.selected
                    &&& track.default == raw.default
                    &&& track.external == raw.external
                },
                None => kind is None || raw.id is None || raw.id->0 <= 0,
            }
        }),
{
    let kind = match trimmed_option(raw.kind) {
        Some(name) => TrackKind::from_mpv(name.as_str()),
        None => None,
    };
    match (kind, raw.id) {
        (Some(kind), Some(id)) => {
            if id <= 0 {
                return None;
            }
            Some(
                Track {
                    id,
                    kind,
                    title: trimmed_option(raw.title),
                    language: trimmed_option(raw.language),
                    codec: trimmed_option(raw.codec),
                    selected: raw.selected,
                    default: raw.default,
                    external: raw.external,
                },
            )
        },
        _ => None,
    }
}

/// What separates a language tag from its region.
pub open spec fn is_tag_joint(c: char) -> bool {
    c == '-' || c == '_'
}

pub open spec fn joint_stands(tag: Seq<char>) -> spec_fn(int) -> bool {
    |i: int| is_tag_joint(tag[i])
}

/// Where the language of a tag ends.
pub open spec fn base_end(tag: Seq<char>) -> int {
    match text::first_from(0, tag.len() as int, joint_stands(tag)) {
        Some(i) => i,
        None => tag.len() as int,
    }
}

/// The name of a language, from its two- or three-letter code.
pub open spec fn name_of_code(base: Seq<char>) -> Option<Seq<char>> {
    if base == "en"@ || base == "eng"@ {
        Some("English"@)
    } else if base == "ja"@ || base == "jpn"@ {
        Some("Japanese"@)
    } else if base == "de"@ || base == "ger"@ || base == "deu"@ {
        Some("German"@)
    } else if base == "fr"@ || base == "fre"@ || base == "fra"@ {
        Some("French"@)
    } else if base == "es"@ || base == "spa"@ {
        Some("Spanish"@)
    } else if base == "it"@ || base == "ita"@ {
        Some("Italian"@)
    } else if base == "pt"@ || base == "por"@ {
        Some("Portuguese"@)
    } else if base == "nl"@ || base == "dut"@ || base == "nld"@ {
        Some("Dutch"@)
    } else if base == "ru"@ || base == "rus"@ {
        Some("Russian"@)
    } else if base == "pl"@ || base == "pol"@ {
        Some("Polish"@)
    } else if base == "sv"@ || base == "swe"@ {
        Some("Swedish"@)
    } else if base == "da"@ || base == "dan"@ {
        Some("Danish"@)
    } else if base == "no"@ || base == "nor"@ {
        Some("Norwegian"@)
    } else if base == "fi"@ || base == "fin"@ {
        Some("Finnish"@)
    } else if base == "cs"@ || base == "cze"@ || base == "ces"@ {
        Some("Czech"@)
    } else if base == "hu"@ || base == "hun"@ {
        Some("Hungarian"@)
    } else if base == "tr"@ || base == "tur"@ {
        Some("Turkish"@)
    } else if base == "ar"@ || base == "ara"@ {
        Some("Arabic"@)
    } else if base == "he"@ || base == "heb"@ {
        Some("Hebrew"@)
    } else if base == "hi"@ || base == "hin"@ {
        Some("Hindi"@)
    } else if base == "ko"@ || base == "kor"@ {
        Some("Korean"@)
    } else if base == "zh"@ || base == "chi"@ || base == "zho"@ {
        Some("Chinese"@)
    } else if base == "th"@ || base == "tha"@ {
        Some("Thai"@)
    } else if base == "vi"@ || base == "vie"@ {
        Some("Vietnamese"@)
    } else if base == "uk"@ || base == "ukr"@ {
        Some("Ukrainian"@)
    } else if base == "ro"@ || base == "rum"@ || base == "ron"@ {
        Some("Romanian"@)
    } else if base == "el"@ || base == "gre"@ || base == "ell"@ {
        Some("Greek"@)
    } else if base == "id"@ || base == "ind"@ {
        Some("Indonesian"@)
    } else if base == "ms"@ || base == "may"@ || base == "msa"@ {
        Some("Malay"@)
    } else {
        None
    }
}

/// A readable name for a language tag: that of its language with the region
/// behind it, or the tag itself.
pub open spec fn language_text(tag: Seq<char>) -> Seq<char> {
    let end = base_end(tag);
    match name_of_code(text::lower(tag.take(end))) {
        Some(name) => if end + 1 < tag.len() {
            name + " ("@ + text::upper(tag.subrange(end + 1, tag.len() as int)) + ")"@
        } else {
            name
        },
        None => tag,
    }
}

fn code_name(base: &[char]) -> (r: Option<&'static str>)
    ensures
        match r {
            Some(name) => name_of_code(base@) == Some(name@),
            None => name_of_code(base@) is None,
        },
{
    if is_word(base, "en") || is_word(base, "eng") {
        Some("English")
    } else if is_word(base, "ja") || is_word(base, "jpn") {
        Some("Japanese")
    } else if is_word(base, "de") || is_word(base, "ger") || is_word(base, "deu") {
        Some("German")
    } else if is_word(base, "fr") || is_word(base, "fre") || is_word(base, "fra") {
        Some("French")
    } else if is_word(base, "es") || is_word(base, "spa") {
        Some("Spanish")
    } else if is_word(base, "it") || is_word(base, "ita") {
        Some("Italian")
    } else if is_word(base, "pt") || is_word(base, "por") {
        Some("Portuguese")
    } else if is_word(base, "nl") || is_word(base, "dut") || is_word(base, "nld") {
        Some("Dutch")
    } else if is_word(base, "ru") || is_word(base, "rus") {
        Some("Russian")
    } else if is_word(base, "pl") || is_word(base, "pol") {
        Some("Polish")
    } else if is_word(base, "sv") || is_word(base, "swe") {
        Some("Swedish")
    } else if is_word(base, "da") || is_word(base, "dan") {
        Some("Danish")
    } else if is_word(base, "no") || is_word(base, "nor") {
        Some("Norwegian")
    } else if is_word(base, "fi") || is_word(base, "fin") {
        Some("Finnish")
    } else if is_word(base, "cs") || is_word(base, "cze") || is_word(base, "ces") {
        Some("Czech")
    } else if is_word(base, "hu") || is_word(base, "hun") {
        Some("Hungarian")
    } else if is_word(base, "tr") || is_word(base, "tur") {
        Some("Turkish")
    } else if is_word(base, "ar") || is_word(base, "ara") {
        Some("Arabic")
    } else if is_word(base, "he") || is_word(base, "heb") {
        Some("Hebrew")
    } else if is_word(base, "hi") || is_word(base, "hin") {
        Some("Hindi")
    } else if is_word(base, "ko") || is_word(base, "kor") {
        Some("Korean")
    } else if is_word(base, "zh") || is_word(base, "chi") || is_word(base, "zho") {
        Some("Chinese")
    } else if is_word(base, "th") || is_word(base, "tha") {
        Some("Thai")
    } else if is_word(base, "vi") || is_word(base, "vie") {
        Some("Vietnamese")
    } else if is_word(base, "uk") || is_word(base, "ukr") {
        Some("Ukrainian")
    } else if is_word(base, "ro") || is_word(base, "rum") || is_word(base, "ron") {
        Some("Romanian")
    } else if is_word(base, "el") || is_word(base, "gre") || is_word(base, "ell") {
        Some("Greek")
    } else if is_word(base, "id") || is_word(base, "ind") {
        Some("Indonesian")
    } else if is_word(base, "ms") || is_word(base, "may") || is_word(base, "msa") {
        Some("Malay")
    } else {
        None
    }
}

/// A readable name for a language tag, falling back to the tag itself.
///
/// A short list rather than a full table of codes: an unrecognised tag still
/// shows as something a viewer can pick between. The region matters when there is
/// one: Brazilian Portuguese is not Portuguese to anyone choosing between the two.
pub fn language_name(tag: &str) -> (r: String)
    ensures
        r@ == language_text(tag@),
{
    // Container tags come in both the two- and three-letter forms, and often
    // with a region suffix: "en", "eng", "en-US", "pt-BR".
    let chars = to_chars(tag);
    let mut end: usize = 0;
    while end < chars.len() && !(chars[end] == '-' || chars[end] == '_')
        invariant
            end <= chars@.len(),
            chars@ == tag@,
            text::first_from(0, chars@.len() as int, joint_stands(chars@)) == text::first_from(
                end as int,
                chars@.len() as int,
                joint_stands(chars@),
            ),
        decreases chars.len() - end,
    {
        end += 1;
    }
    let count: usize = chars.len();
    let base = slice_subrange(&chars, 0, end);
    assert(base@ =~= tag@.take(end as int));
    match code_name(&to_lower(base)) {
        Some(name) => {
            let mut out = owned(name);
            if end < count && end + 1 < count {
                let region = from_chars(&to_upper(slice_subrange(&chars, end + 1, count)));
                out.push_str(" (");
                out.push_str(region.as_str());
                out.push_str(")");
            }
            out
        },
        None => owned(tag),
    }
}

/// What a menu shows of a track: language first, because that is what a viewer
/// is choosing between, then whatever distinguishes two tracks of the same
/// language.
pub open spec fn track_text(track: Track) -> Seq<char> {
    let named = match (track.language, track.title) {
        (Some(language), Some(title)) => language_text(language@) + " — "@ + title@,
        (Some(language), None) => language_text(language@),
        (None, Some(title)) => title@,
        (None, None) => track.kind.label_text() + " "@ + text::integer(track.id as int),
    };
    match track.codec {
        Some(codec) => named + " ["@ + codec@ + "]"@,
        None => named,
    }
}

impl Track {
    /// What the menu shows. A track that nothing names shows its id, which is at
    /// least stable and distinct.
    pub fn label(&self) -> (r: String)
        ensures
            r@ == track_text(*self),
    {
        let mut label = match (&self.language, &self.title) {
            (Some(language), Some(title)) => {
                let mut both = language_name(language.as_str());
                both.push_str(" — ");
                both.push_str(title.as_str());
                both
            },
            (Some(language), None) => language_name(language.as_str()),
            (None, Some(title)) => title.clone(),
            (None, None) => {
                let mut number = owned(self.kind.label());
                number.push_str(" ");
                let id = from_chars(&text::integer_of(self.id));
                number.push_str(id.as_str());
                number
            },
        };
        match &self.codec {
            Some(codec) => {
                label.push_str(" [");
                label.push_str(codec.as_str());
                label.push_str("]");
            },
            None => {},
        }
        label
    }
}

/// What selects a track: its id, or nothing of the kind at all.
pub fn selection(id: Option<i64>) -> (r: String)
    ensures
        r@ == match id {
            Some(id) => text::integer(id as int),
            None => "no"@,
        },
{
    match id {
        Some(id) => from_chars(&text::integer_of(id)),
        None => owned("no"),
    }
}

/// The property that holds the preferred language of a kind, where there is one:
/// nobody picks a video track by language.
pub fn language_property(kind: TrackKind) -> (r: Option<&'static str>)
    ensures
        match kind {
            TrackKind::Audio => r is Some && (r->0)@ == "alang"@,
            TrackKind::Subtitle => r is Some && (r->0)@ == "slang"@,
            TrackKind::Video => r is None,
        },
{
    match kind {
        TrackKind::Audio => Some("alang"),
        TrackKind::Subtitle => Some("slang"),
        TrackKind::Video => None,
    }
}

/// A tag that names no known language is shown as it is.
pub proof fn law_unknown_tags_show_themselves(tag: Seq<char>)
    requires
        name_of_code(text::lower(tag.take(base_end(tag)))) is None,
    ensures
        language_text(tag) == tag,
{
}

/// Whether a code is one of those of a language.
pub open spec fn is_code_of(code: Seq<char>, language: Seq<char>) -> bool {
    ||| language == "English"@ && (code == "en"@ || code == "eng"@)
    ||| language == "Japanese"@ && (code == "ja"@ || code == "jpn"@)
    ||| language == "German"@ && (code == "de"@ || code == "ger"@ || code == "deu"@)
    ||| language == "French"@ && (code == "fr"@ || code == "fre"@ || code == "fra"@)
    ||| language == "Spanish"@ && (code == "es"@ || code == "spa"@)
    ||| language == "Italian"@ && (code == "it"@ || code == "ita"@)
    ||| language == "Portuguese"@ && (code == "pt"@ || code == "por"@)
    ||| language == "Dutch"@ && (code == "nl"@ || code == "dut"@ || code == "nld"@)
    ||| language == "Russian"@ && (code == "ru"@ || code == "rus"@)
    ||| language == "Polish"@ && (code == "pl"@ || code == "pol"@)
    ||| language == "Swedish"@ && (code == "sv"@ || code == "swe"@)
    ||| language == "Danish"@ && (code == "da"@ || code == "dan"@)
    ||| language == "Norwegian"@ && (code == "no"@ || code == "nor"@)
    ||| language == "Finnish"@ && (code == "fi"@ || code == "fin"@)
    ||| language == "Czech"@ && (code == "cs"@ || code == "cze"@ || code == "ces"@)
    ||| language == "Hungarian"@ && (code == "hu"@ || code == "hun"@)
    ||| language == "Turkish"@ && (code == "tr"@ || code == "tur"@)
    ||| language == "Arabic"@ && (code == "ar"@ || code == "ara"@)
    ||| language == "Hebrew"@ && (code == "he"@ || code == "heb"@)
    ||| language == "Hindi"@ && (code == "hi"@ || code == "hin"@)
    ||| language == "Korean"@ && (code == "ko"@ || code == "kor"@)
    ||| language == "Chinese"@ && (code == "zh"@ || code == "chi"@ || code == "zho"@)
    ||| language == "Thai"@ && (code == "th"@ || code == "tha"@)
    ||| language == "Vietnamese"@ && (code == "vi"@ || code == "vie"@)
    ||| language == "Ukrainian"@ && (code == "uk"@ || code == "ukr"@)
    ||| language == "Romanian"@ && (code == "ro"@ || code == "rum"@ || code == "ron"@)
    ||| language == "Greek"@ && (code == "el"@ || code == "gre"@ || code == "ell"@)
    ||| language == "Indonesian"@ && (code == "id"@ || code == "ind"@)
    ||| language == "Malay"@ && (code == "ms"@ || code == "may"@ || code == "msa"@)
}

/// A code of a language, short or long and in whatever case, shows as that
/// language.
#[verifier::rlimit(40)]
pub proof fn law_codes_of_a_language_show_its_name(tag: Seq<char>, language: Seq<char>)
    requires
        is_code_of(text::lower(tag), language),
    ensures
        language_text(tag) == language,
{
    let l = text::lower(tag);
    lemma_codes();
    lemma_code_letters();
    assert(!tag.contains('-') && !tag.contains('_')) by {
        assert(l.len() == tag.len() && 2 <= l.len() <= 3);
        assert(text::is_letter(l[0]) && text::is_letter(l[1]) && (l.len() == 3 ==> text::is_letter(
            l[2],
        )));
        if tag.contains('-') || tag.contains('_') {
            let i = choose|i: int| 0 <= i < tag.len() && (tag[i] == '-' || tag[i] == '_');
            assert(l[i] == tag[i]);
            assert(i == 0 || i == 1 || i == 2);
        }
    }
    lemma_no_joint(tag);
    assert(tag.take(tag.len() as int) =~= tag);
}

/// What the codes are written with.
proof fn lemma_code_letters()
    ensures
        "en"@.len() == 2 && "en"@[0] == 'e' && "en"@[1] == 'n',
        "eng"@.len() == 3 && "eng"@[0] == 'e' && "eng"@[1] == 'n' && "eng"@[2] == 'g',
        "ja"@.len() == 2 && "ja"@[0] == 'j' && "ja"@[1] == 'a',
        "jpn"@.len() == 3 && "jpn"@[0] == 'j' && "jpn"@[1] == 'p' && "jpn"@[2] == 'n',
        "de"@.len() == 2 && "de"@[0] == 'd' && "de"@[1] == 'e',
        "ger"@.len() == 3 && "ger"@[0] == 'g' && "ger"@[1] == 'e' && "ger"@[2] == 'r',
        "deu"@.len() == 3 && "deu"@[0] == 'd' && "deu"@[1] == 'e' && "deu"@[2] == 'u',
        "fr"@.len() == 2 && "fr"@[0] == 'f' && "fr"@[1] == 'r',
        "fre"@.len() == 3 && "fre"@[0] == 'f' && "fre"@[1] == 'r' && "fre"@[2] == 'e',
        "fra"@.len() == 3 && "fra"@[0] == 'f' && "fra"@[1] == 'r' && "fra"@[2] == 'a',
        "es"@.len() == 2 && "es"@[0] == 'e' && "es"@[1] == 's',
        "spa"@.len() == 3 && "spa"@[0] == 's' && "spa"@[1] == 'p' && "spa"@[2] == 'a',
        "it"@.len() == 2 && "it"@[0] == 'i' && "it"@[1] == 't',
        "ita"@.len() == 3 && "ita"@[0] == 'i' && "ita"@[1] == 't' && "ita"@[2] == 'a',
        "pt"@.len() == 2 && "pt"@[0] == 'p' && "pt"@[1] == 't',
        "por"@.len() == 3 && "por"@[0] == 'p' && "por"@[1] == 'o' && "por"@[2] == 'r',
        "nl"@.len() == 2 && "nl"@[0] == 'n' && "nl"@[1] == 'l',
        "dut"@.len() == 3 && "dut"@[0] == 'd' && "dut"@[1] == 'u' && "dut"@[2] == 't',
        "nld"@.len() == 3 && "nld"@[0] == 'n' && "nld"@[1] == 'l' && "nld"@[2] == 'd',
        "ru"@.len() == 2 && "ru"@[0] == 'r' && "ru"@[1] == 'u',
        "rus"@.len() == 3 && "rus"@[0] == 'r' && "rus"@[1] == 'u' && "rus"@[2] == 's',
        "pl"@.len() == 2 && "pl"@[0] == 'p' && "pl"@[1] == 'l',
        "pol"@.len() == 3 && "pol"@[0] == 'p' && "pol"@[1] == 'o' && "pol"@[2] == 'l',
        "sv"@.len() == 2 && "sv"@[0] == 's' && "sv"@[1] == 'v',
        "swe"@.len() == 3 && "swe"@[0] == 's' && "swe"@[1] == 'w' && "swe"@[2] == 'e',
        "da"@.len() == 2 && "da"@[0] == 'd' && "da"@[1] == 'a',
        "dan"@.len() == 3 && "dan"@[0] == 'd' && "dan"@[1] == 'a' && "dan"@[2] == 'n',
        "no"@.len() == 2 && "no"@[0] == 'n' && "no"@[1] == 'o',
        "nor"@.len() == 3 && "nor"@[0] == 'n' && "nor"@[1] == 'o' && "nor"@[2] == 'r',
        "fi"@.len() == 2 && "fi"@[0] == 'f' && "fi"@[1] == 'i',
        "fin"@.len() == 3 && "fin"@[0] == 'f' && "fin"@[1] == 'i' && "fin"@[2] == 'n',
        "cs"@.len() == 2 && "cs"@[0] == 'c' && "cs"@[1] == 's',
        "cze"@.len() == 3 && "cze"@[0] == 'c' && "cze"@[1] == 'z' && "cze"@[2] == 'e',
        "ces"@.len() == 3 && "ces"@[0] == 'c' && "ces"@[1] == 'e' && "ces"@[2] == 's',
        "hu"@.len() == 2 && "hu"@[0] == 'h' && "hu"@[1] == 'u',
        "hun"@.len() == 3 && "hun"@[0] == 'h' && "hun"@[1] == 'u' && "hun"@[2] == 'n',
        "tr"@.len() == 2 && "tr"@[0] == 't' && "tr"@[1] == 'r',
        "tur"@.len() == 3 && "tur"@[0] == 't' && "tur"@[1] == 'u' && "tur"@[2] == 'r',
        "ar"@.len() == 2 && "ar"@[0] == 'a' && "ar"@[1] == 'r',
        "ara"@.len() == 3 && "ara"@[0] == 'a' && "ara"@[1] == 'r' && "ara"@[2] == 'a',
        "he"@.len() == 2 && "he"@[0] == 'h' && "he"@[1] == 'e',
        "heb"@.len() == 3 && "heb"@[0] == 'h' && "heb"@[1] == 'e' && "heb"@[2] == 'b',
        "hi"@.len() == 2 && "hi"@[0] == 'h' && "hi"@[1] == 'i',
        "hin"@.len() == 3 && "hin"@[0] == 'h' && "hin"@[1] == 'i' && "hin"@[2] == 'n',
        "ko"@.len() == 2 && "ko"@[0] == 'k' && "ko"@[1] == 'o',
        "kor"@.len() == 3 && "kor"@[0] == 'k' && "kor"@[1] == 'o' && "kor"@[2] == 'r',
        "zh"@.len() == 2 && "zh"@[0] == 'z' && "zh"@[1] == 'h',
        "chi"@.len() == 3 && "chi"@[0] == 'c' && "chi"@[1] == 'h' && "chi"@[2] == 'i',
        "zho"@.len() == 3 && "zho"@[0] == 'z' && "zho"@[1] == 'h' && "zho"@[2] == 'o',
        "th"@.len() == 2 && "th"@[0] == 't' && "th"@[1] == 'h',
        "tha"@.len() == 3 && "tha"@[0] == 't' && "tha"@[1] == 'h' && "tha"@[2] == 'a',
        "vi"@.len() == 2 && "vi"@[0] == 'v' && "vi"@[1] == 'i',
        "vie"@.len() == 3 && "vie"@[0] == 'v' && "vie"@[1] == 'i' && "vie"@[2] == 'e',
        "uk"@.len() == 2 && "uk"@[0] == 'u' && "uk"@[1] == 'k',
        "ukr"@.len() == 3 && "ukr"@[0] == 'u' && "ukr"@[1] == 'k' && "ukr"@[2] == 'r',
        "ro"@.len() == 2 && "ro"@[0] == 'r' && "ro"@[1] == 'o',
        "rum"@.len() == 3 && "rum"@[0] == 'r' && "rum"@[1] == 'u' && "rum"@[2] == 'm',
        "ron"@.len() == 3 && "ron"@[0] == 'r' && "ron"@[1] == 'o' && "ron"@[2] == 'n',
        "el"@.len() == 2 && "el"@[0] == 'e' && "el"@[1] == 'l',
        "gre"@.len() == 3 && "gre"@[0] == 'g' && "gre"@[1] == 'r' && "gre"@[2] == 'e',
        "ell"@.len() == 3 && "ell"@[0] == 'e' && "ell"@[1] == 'l' && "ell"@[2] == 'l',
        "id"@.len() == 2 && "id"@[0] == 'i' && "id"@[1] == 'd',
        "ind"@.len() == 3 && "ind"@[0] == 'i' && "ind"@[1] == 'n' && "ind"@[2] == 'd',
        "ms"@.len() == 2 && "ms"@[0] == 'm' && "ms"@[1] == 's',
        "may"@.len() == 3 && "may"@[0] == 'm' && "may"@[1] == 'a' && "may"@[2] == 'y',
        "msa"@.len() == 3 && "msa"@[0] == 'm' && "msa"@[1] == 's' && "msa"@[2] == 'a',
{
    reveal_strlit("en");
    reveal_strlit("eng");
    reveal_strlit("ja");
    reveal_strlit("jpn");
    reveal_strlit("de");
    reveal_strlit("ger");
    reveal_strlit("deu");
    reveal_strlit("fr");
    reveal_strlit("fre");
    reveal_strlit("fra");
    reveal_strlit("es");
    reveal_strlit("spa");
    reveal_strlit("it");
    reveal_strlit("ita");
    reveal_strlit("pt");
    reveal_strlit("por");
    reveal_strlit("nl");
    reveal_strlit("dut");
    reveal_strlit("nld");
    reveal_strlit("ru");
    reveal_strlit("rus");
    reveal_strlit("pl");
    reveal_strlit("pol");
    reveal_strlit("sv");
    reveal_strlit("swe");
    reveal_strlit("da");
    reveal_strlit("dan");
    reveal_strlit("no");
    reveal_strlit("nor");
    reveal_strlit("fi");
    reveal_strlit("fin");
    reveal_strlit("cs");
    reveal_strlit("cze");
    reveal_strlit("ces");
    reveal_strlit("hu");
    reveal_strlit("hun");
    reveal_strlit("tr");
    reveal_strlit("tur");
    reveal_strlit("ar");
    reveal_strlit("ara");
    reveal_strlit("he");
    reveal_strlit("heb");
    reveal_strlit("hi");
    reveal_strlit("hin");
    reveal_strlit("ko");
    reveal_strlit("kor");
    reveal_strlit("zh");
    reveal_strlit("chi");
    reveal_strlit("zho");
    reveal_strlit("th");
    reveal_strlit("tha");
    reveal_strlit("vi");
    reveal_strlit("vie");
    reveal_strlit("uk");
    reveal_strlit("ukr");
    reveal_strlit("ro");
    reveal_strlit("rum");
    reveal_strlit("ron");
    reveal_strlit("el");
    reveal_strlit("gre");
    reveal_strlit("ell");
    reveal_strlit("id");
    reveal_strlit("ind");
    reveal_strlit("ms");
    reveal_strlit("may");
    reveal_strlit("msa");
}

/// What each of the codes stands for.
#[verifier::rlimit(40)]
proof fn lemma_codes()
    ensures
        name_of_code("en"@) == Some("English"@),
        name_of_code("eng"@) == Some("English"@),
        name_of_code("ja"@) == Some("Japanese"@),
        name_of_code("jpn"@) == Some("Japanese"@),
        name_of_code("de"@) == Some("German"@),
        name_of_code("ger"@) == Some("German"@),
        name_of_code("deu"@) == Some("German"@),
        name_of_code("fr"@) == Some("French"@),
        name_of_code("fre"@) == Some("French"@),
        name_of_code("fra"@) == Some("French"@),
        name_of_code("es"@) == Some("Spanish"@),
        name_of_code("spa"@) == Some("Spanish"@),
        name_of_code("it"@) == Some("Italian"@),
        name_of_code("ita"@) == Some("Italian"@),
        name_of_code("pt"@) == Some("Portuguese"@),
        name_of_code("por"@) == Some("Portuguese"@),
        name_of_code("nl"@) == Some("Dutch"@),
        name_of_code("dut"@) == Some("Dutch"@),
        name_of_code("nld"@) == Some("Dutch"@),
        name_of_code("ru"@) == Some("Russian"@),
        name_of_code("rus"@) == Some("Russian"@),
        name_of_code("pl"@) == Some("Polish"@),
        name_of_code("pol"@) == Some("Polish"@),
        name_of_code("sv"@) == Some("Swedish"@),
        name_of_code("swe"@) == Some("Swedish"@),
        name_of_code("da"@) == Some("Danish"@),
        name_of_code("dan"@) == Some("Danish"@),
        name_of_code("no"@) == Some("Norwegian"@),
        name_of_code("nor"@) == Some("Norwegian"@),
        name_of_code("fi"@) == Some("Finnish"@),
        name_of_code("fin"@) == Some("Finnish"@),
        name_of_code("cs"@) == Some("Czech"@),
        name_of_code("cze"@) == Some("Czech"@),
        name_of_code("ces"@) == Some("Czech"@),
        name_of_code("hu"@) == Some("Hungarian"@),
        name_of_code("hun"@) == Some("Hungarian"@),
        name_of_code("tr"@) == Some("Turkish"@),
        name_of_code("tur"@) == Some("Turkish"@),
        name_of_code("ar"@) == Some("Arabic"@),
        name_of_code("ara"@) == Some("Arabic"@),
        name_of_code("he"@) == Some("Hebrew"@),
        name_of_code("heb"@) == Some("Hebrew"@),
        name_of_code("hi"@) == Some("Hindi"@),
        name_of_code("hin"@) == Some("Hindi"@),
        name_of_code("ko"@) == Some("Korean"@),
        name_of_code("kor"@) == Some("Korean"@),
        name_of_code("zh"@) == Some("Chinese"@),
        name_of_code("chi"@) == Some("Chinese"@),
        name_of_code("zho"@) == Some("Chinese"@),
        name_of_code("th"@) == Some("Thai"@),
        name_of_code("tha"@) == Some("Thai"@),
        name_of_code("vi"@) == Some("Vietnamese"@),
        name_of_code("vie"@) == Some("Vietnamese"@),
        name_of_code("uk"@) == Some("Ukrainian"@),
        name_of_code("ukr"@) == Some("Ukrainian"@),
        name_of_code("ro"@) == Some("Romanian"@),
        name_of_code("rum"@) == Some("Romanian"@),
        name_of_code("ron"@) == Some("Romanian"@),
        name_of_code("el"@) == Some("Greek"@),
        name_of_code("gre"@) == Some("Greek"@),
        name_of_code("ell"@) == Some("Greek"@),
        name_of_code("id"@) == Some("Indonesian"@),
        name_of_code("ind"@) == Some("Indonesian"@),
        name_of_code("ms"@) == Some("Malay"@),
        name_of_code("may"@) == Some("Malay"@),
        name_of_code("msa"@) == Some("Malay"@),
{
    lemma_code_letters();
}

proof fn lemma_no_joint(tag: Seq<char>)
    requires
        !tag.contains('-') && !tag.contains('_'),
    ensures
        base_end(tag) == tag.len(),
{
    text::lemma_first_from(0, tag.len() as int, joint_stands(tag));
    if let Some(i) = text::first_from(0, tag.len() as int, joint_stands(tag)) {
        assert(joint_stands(tag)(i));
        assert(tag.contains(tag[i]));
    }
}

/// A region behind a known language is shown in brackets, in capitals; a tag of no
/// known language is shown as it stands, region and all.
pub proof fn law_a_region_is_shown_with_its_language(
    base: Seq<char>,
    joint: char,
    region: Seq<char>,
)
    requires
        !base.contains('-') && !base.contains('_'),
        joint == '-' || joint == '_',
        region.len() > 0,
    ensures
        name_of_code(text::lower(base)) is Some ==> language_text(base.push(joint) + region)
            == language_text(base) + " ("@ + text::upper(region) + ")"@,
        name_of_code(text::lower(base)) is None ==> language_text(base.push(joint) + region)
            == base.push(joint) + region && language_text(base) == base,
{
    let tag = base.push(joint) + region;
    let n = base.len() as int;
    lemma_no_joint(base);
    text::lemma_first_from(0, tag.len() as int, joint_stands(tag));
    assert(joint_stands(tag)(n));
    let first = text::first_from(0, tag.len() as int, joint_stands(tag))->0;
    if first < n {
        assert(joint_stands(tag)(first));
        assert(base.contains(base[first]));
    }
    assert(tag.take(n) =~= base);
    assert(base.take(n) =~= base);
    assert(tag.subrange(n + 1, tag.len() as int) =~= region);
}

/// What a menu shows of a track begins with its language, goes on with its title,
/// and ends with its codec; a track with neither language nor title is told by its
/// kind and its number.
pub proof fn law_a_track_is_shown_language_first(track: Track)
    ensures
        track.language matches Some(language) ==> language_text(language@).is_prefix_of(
            track_text(track),
        ),
        track.language is None ==> (track.title matches Some(title) ==> title@.is_prefix_of(
            track_text(track),
        )),
        track.title matches Some(title) ==> (track.codec is None ==> title@.is_suffix_of(
            track_text(track),
        )),
        track.codec matches Some(codec) ==> (" ["@ + codec@ + "]"@).is_suffix_of(track_text(track)),
        track.language is None && track.title is None && track.codec is None ==> track_text(track)
            == track.kind.label_text() + " "@ + text::integer(track.id as int),
{
    let shown = track_text(track);
    let bare = track_text(Track { codec: None, ..track });
    if let Some(codec) = track.codec {
        let end = " ["@ + codec@ + "]"@;
        assert(shown =~= bare + end);
        assert(shown.subrange(shown.len() - end.len(), shown.len() as int) =~= end);
    }
    if let Some(language) = track.language {
        let name = language_text(language@);
        assert(shown.subrange(0, name.len() as int) =~= name);
    } else if let Some(title) = track.title {
        assert(shown.subrange(0, title@.len() as int) =~= title@);
    }
    if let Some(title) = track.title {
        if track.codec is None {
            assert(shown.subrange(shown.len() - title@.len(), shown.len() as int) =~= title@);
        }
    }
}

} // verus!
