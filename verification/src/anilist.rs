//! What AniList is asked, and what is made of its answers.
//!
//! AniList needs no key and no account, which is why it is the default. The
//! trade is coverage: it is anime and nothing else.

use vstd::prelude::*;
use vstd::slice::slice_subrange;

use crate::library::TitleKind;
use crate::matching::Candidate;
use crate::metadata::EpisodeMetadata;
use crate::metadata::ProviderId;
use crate::metadata::TitleMetadata;
use crate::metadata::TitleMetadataView;
use crate::text;
use crate::unicode;

verus! {

/// Whether the character at `i` is an `s` that may be all that is left of an
/// apostrophe: the last of a word of four characters or more, after a letter.
pub open spec fn possessive_at(name: Seq<char>, letters: Seq<bool>, i: int) -> bool {
    &&& 3 <= i < name.len()
    &&& name[i] == 's' || name[i] == 'S'
    &&& i + 1 == name.len() || name[i + 1] == ' '
    &&& name[i - 1] != ' ' && name[i - 2] != ' ' && name[i - 3] != ' '
    &&& letters[i - 1]
}

/// The first `n` characters of a name without those.
pub open spec fn depossessed(name: Seq<char>, letters: Seq<bool>, n: int) -> Seq<char>
    decreases n,
{
    if n <= 0 {
        Seq::empty()
    } else if possessive_at(name, letters, n - 1) {
        depossessed(name, letters, n - 1)
    } else {
        depossessed(name, letters, n - 1).push(name[n - 1])
    }
}

/// `Heavens Feel` → `Heaven Feel`, given which characters are letters.
///
/// Only words long enough to still mean something without it, and only where the
/// `s` follows a letter: a word that kept its apostrophe is already what the
/// index holds.
pub fn without_possessive_s(name: &[char], letters: &[bool]) -> (r: Vec<char>)
    requires
        letters@.len() == name@.len(),
    ensures
        r@ == depossessed(name@, letters@, name@.len() as int),
{
    let mut out: Vec<char> = Vec::new();
    let mut i: usize = 0;
    let len: usize = name.len();
    while i < len
        invariant
            i <= len,
            len == name@.len(),
            letters@.len() == name@.len(),
            out@ == depossessed(name@, letters@, i as int),
        decreases len - i,
    {
        let c = name[i];
        let dropped = i >= 3 && (c == 's' || c == 'S') && (i + 1 == len || name[i + 1] == ' ')
            && name[i - 1] != ' ' && name[i - 2] != ' ' && name[i - 3] != ' ' && letters[i - 1];
        if !dropped {
            out.push(c);
        }
        i += 1;
    }
    out
}

/// Which characters of a name are letters.
pub open spec fn letters_of(name: Seq<char>) -> Seq<bool> {
    Seq::new(name.len(), |i: int| unicode::alphabetic(name[i]))
}

/// The search strings for a name.
pub open spec fn terms_of(name: Seq<char>) -> Seq<Seq<char>> {
    let repaired = depossessed(name, letters_of(name), name.len() as int);
    if repaired != name {
        seq![name, repaired]
    } else {
        seq![name]
    }
}

/// The search strings to try, in order, until one of them returns anything.
///
/// Every word of a search has to be a word that the index holds, so a single
/// word it has never seen empties the whole result. A name written to disk has
/// had its apostrophes taken out: `Heaven's Feel` indexes `heaven` and `s`, and
/// the folder is called `Heavens Feel`. So the fallback drops the `s` that the
/// apostrophe was holding on to, and is asked only after the name as written
/// found nothing.
pub fn search_terms(name: &str) -> (r: Vec<String>)
    ensures
        text::texts(r@) == terms_of(name@),
{
    let chars = text::to_chars(name);
    let mut letters: Vec<bool> = Vec::new();
    let mut i: usize = 0;
    while i < chars.len()
        invariant
            i <= chars@.len(),
            letters@.len() == i,
            forall|k: int|
                0 <= k < i ==> letters@[k] == unicode::alphabetic(chars@[k]),
        decreases chars.len() - i,
    {
        letters.push(chars[i].is_alphabetic());
        i += 1;
    }
    assert(letters@ =~= letters_of(name@));
    let repaired = without_possessive_s(&chars, &letters);
    let mut terms: Vec<String> = Vec::new();
    terms.push(text::owned(name));
    if !text::same_chars(&repaired, &chars) {
        terms.push(text::from_chars(&repaired));
    }
    assert(text::texts(terms@) =~= terms_of(name@));
    terms
}

/// The kind a format is: anything episodic is a series; a film, a one-shot or an
/// unknown format is not.
pub open spec fn kind_named(format: Option<Seq<char>>) -> TitleKind {
    match format {
        Some(f) => if f == "TV"@ || f == "TV_SHORT"@ || f == "ONA"@ || f == "OVA"@ || f
            == "SPECIAL"@ {
            TitleKind::Series
        } else {
            TitleKind::Film
        },
        None => TitleKind::Film,
    }
}

/// AniList's formats, reduced to the two kinds a library has.
pub fn kind_of(format: Option<&str>) -> (r: TitleKind)
    ensures
        r == kind_named(
            match format {
                Some(f) => Some(f@),
                None => None,
            },
        ),
{
    match format {
        Some(f) => if text::same_text(f, "TV") || text::same_text(f, "TV_SHORT")
            || text::same_text(f, "ONA") || text::same_text(f, "OVA") || text::same_text(
            f,
            "SPECIAL",
        ) {
            TitleKind::Series
        } else {
            TitleKind::Film
        },
        None => TitleKind::Film,
    }
}

/// Whether a tag is open after `s`.
pub open spec fn in_tag(s: Seq<char>) -> bool
    decreases s.len(),
{
    if s.len() == 0 {
        false
    } else if s.last() == '<' {
        true
    } else if s.last() == '>' {
        false
    } else {
        in_tag(s.drop_last())
    }
}

/// What `s` says outside its tags.
pub open spec fn outside_tags(s: Seq<char>) -> Seq<char>
    decreases s.len(),
{
    if s.len() == 0 {
        Seq::empty()
    } else if s.last() == '<' || s.last() == '>' || in_tag(s.drop_last()) {
        outside_tags(s.drop_last())
    } else {
        outside_tags(s.drop_last()).push(s.last())
    }
}

/// `s` with its line breaks written out.
pub open spec fn with_breaks(s: Seq<char>) -> Seq<char> {
    text::replace_all(
        text::replace_all(text::replace_all(s, "<br>"@, "\n"@), "<br/>"@, "\n"@),
        "<br />"@,
        "\n"@,
    )
}

/// A description as plain text: tags become nothing, and `<br>` becomes the line
/// break it stands for.
pub fn strip_markup(description: &str) -> (r: String)
    ensures
        r@ == text::trim(outside_tags(with_breaks(description@))),
{
    proof {
        reveal_strlit("<br>");
        reveal_strlit("<br/>");
        reveal_strlit("<br />");
    }
    let newline = text::to_chars("\n");
    let v = text::to_chars(description);
    let v = text::replaced(&v, &text::to_chars("<br>"), &newline);
    let v = text::replaced(&v, &text::to_chars("<br/>"), &newline);
    let v = text::replaced(&v, &text::to_chars("<br />"), &newline);
    let mut out: Vec<char> = Vec::new();
    let mut open: bool = false;
    let mut i: usize = 0;
    while i < v.len()
        invariant
            i <= v@.len(),
            open == in_tag(v@.take(i as int)),
            out@ == outside_tags(v@.take(i as int)),
        decreases v.len() - i,
    {
        assert(v@.take(i + 1).drop_last() =~= v@.take(i as int));
        let c = v[i];
        if c == '<' {
            open = true;
        } else if c == '>' {
            open = false;
        } else if !open {
            out.push(c);
        }
        i += 1;
    }
    assert(v@.take(v@.len() as int) =~= v@);
    text::from_chars(text::trimmed(&out))
}

/// What is left of an episode's title after the word that numbers it.
pub open spec fn after_episode_word(title: Seq<char>) -> Option<Seq<char>> {
    if text::stands_at(title, "Episode "@, 0) {
        Some(title.skip(8))
    } else if text::stands_at(title, "episode "@, 0) {
        Some(title.skip(8))
    } else if text::stands_at(title, "EP"@, 0) {
        Some(title.skip(2))
    } else if text::stands_at(title, "E"@, 0) {
        Some(title.skip(1))
    } else {
        None
    }
}

/// The name that follows an episode's number.
pub open spec fn name_after_number(rest: Seq<char>) -> Seq<char> {
    text::trim(text::trim_start_set(text::trim_start(rest), seq!['-', '–', ':']))
}

/// The number and the name that an episode's title states.
pub open spec fn numbering_of(title: Seq<char>) -> (Option<nat>, Option<Seq<char>>) {
    let trimmed = text::trim(title);
    match after_episode_word(trimmed) {
        None => (None, text::non_empty(Some(trimmed))),
        Some(rest) => {
            let end = text::digits_end(rest, 0);
            if end == 0 {
                (None, Some(trimmed))
            } else {
                (
                    if text::digits_value(rest.take(end)) <= u32::MAX {
                        Some(text::digits_value(rest.take(end)))
                    } else {
                        None
                    },
                    text::non_empty(Some(name_after_number(rest.skip(end)))),
                )
            }
        },
    }
}

/// What follows `word` where a text begins with it.
fn after_word<'a>(v: &'a [char], word: &str) -> (r: Option<&'a [char]>)
    ensures
        match r {
            Some(rest) => text::stands_at(v@, word@, 0) && rest@ == v@.skip(word@.len() as int),
            None => !text::stands_at(v@, word@, 0),
        },
{
    let word = text::to_chars(word);
    if text::chars_stand_at(v, &word, 0) {
        let rest = slice_subrange(v, word.len(), v.len());
        assert(rest@ =~= v@.skip(word@.len() as int));
        Some(rest)
    } else {
        None
    }
}

/// What is left of an episode's title after the word that numbers it.
fn rest_of_title(v: &[char]) -> (r: Option<&[char]>)
    ensures
        match r {
            Some(rest) => after_episode_word(v@) == Some(rest@),
            None => after_episode_word(v@) is None,
        },
{
    proof {
        reveal_strlit("Episode ");
        reveal_strlit("episode ");
        reveal_strlit("EP");
        reveal_strlit("E");
    }
    match after_word(v, "Episode ") {
        Some(rest) => Some(rest),
        None => match after_word(v, "episode ") {
            Some(rest) => Some(rest),
            None => match after_word(v, "EP") {
                Some(rest) => Some(rest),
                None => after_word(v, "E"),
            },
        },
    }
}

/// A number as the contract sees it.
pub open spec fn opt_nat(n: Option<u32>) -> Option<nat> {
    match n {
        Some(n) => Some(n as nat),
        None => None,
    }
}

/// Split `"Episode 57 - The Immortal Legion"` into its number and its name.
///
/// Both are optional: plenty of entries are just `"Episode 12"`, and a few are
/// only a name.
pub fn split_numbering(title: &str) -> (r: (Option<u32>, Option<String>))
    ensures
        (opt_nat(r.0), text::opt_chars(r.1)) == numbering_of(title@),
{
    let v = text::to_chars(title);
    let trimmed = text::trimmed(&v);
    let rest = match rest_of_title(trimmed) {
        Some(rest) => rest,
        None => {
            return (None, text::non_empty_option(Some(text::from_chars(trimmed))));
        },
    };
    let end: usize = text::end_of_digits(rest, 0);
    if end == 0 {
        return (None, Some(text::from_chars(trimmed)));
    }
    let digits = slice_subrange(rest, 0, end);
    let tail = slice_subrange(rest, end, rest.len());
    assert(digits@ =~= rest@.take(end as int));
    assert(tail@ =~= rest@.skip(end as int));
    let mut marks: Vec<char> = Vec::new();
    marks.push('-');
    marks.push('–');
    marks.push(':');
    assert(marks@ =~= seq!['-', '–', ':']);
    let name = text::trimmed(text::trimmed_start_set(text::trimmed_start(tail), &marks));
    (
        text::small_value_of_digits(digits),
        text::non_empty_option(Some(text::from_chars(name))),
    )
}

/// One entry of the list that AniList keeps of what streaming sites published.
#[derive(Debug, PartialEq, Eq)]
pub struct StreamingEpisode {
    pub title: Option<String>,
    pub thumbnail: Option<String>,
}

/// AniList's answer about the episodes of one entry.
#[derive(Debug, PartialEq, Eq)]
pub struct EpisodeMedia {
    pub streaming_episodes: Vec<StreamingEpisode>,
}

/// What the entry at `index` of the list says of an episode.
///
/// The position is the fallback and not the answer: the lists have gaps, and an
/// off-by-one here would caption every episode of a show with the next one's
/// name.
pub open spec fn listed_as(entry: StreamingEpisode, index: int, episode: EpisodeMetadata) -> bool {
    let (number, name) = numbering_of(
        match entry.title {
            Some(title) => title@,
            None => Seq::empty(),
        },
    );
    &&& episode.season is None
    &&& episode.number == match number {
        Some(number) => number as int,
        None => index + 1,
    }
    &&& text::opt_chars(episode.name) == name
    &&& episode.overview is None
    &&& episode.still_url == entry.thumbnail
    &&& episode.air_date is None
}

impl EpisodeMedia {
    /// The episodes that the list names, in its order. AniList counts straight
    /// through: a sequel is a separate entry, not a second season.
    pub fn into_episodes(self) -> (r: Vec<EpisodeMetadata>)
        requires
            self.streaming_episodes@.len() <= u32::MAX,
        ensures
            r@.len() == self.streaming_episodes@.len(),
            forall|i: int|
                0 <= i < r@.len() ==> listed_as(
                    self.streaming_episodes@[i],
                    i,
                    #[trigger] r@[i],
                ),
    {
        let entries = self.streaming_episodes;
        let mut out: Vec<EpisodeMetadata> = Vec::new();
        let mut i: usize = 0;
        let len: usize = entries.len();
        while i < len
            invariant
                i <= len,
                len == entries@.len(),
                entries@.len() <= u32::MAX,
                out@.len() == i,
                forall|k: int|
                    0 <= k < i ==> listed_as(entries@[k], k, #[trigger] out@[k]),
            decreases len - i,
        {
            let entry = &entries[i];
            let (number, name) = match &entry.title {
                Some(title) => split_numbering(title.as_str()),
                None => {
                    proof {
                        reveal_strlit("");
                        assert(""@ =~= Seq::<char>::empty());
                    }
                    split_numbering("")
                },
            };
            let number: u32 = match number {
                Some(number) => number,
                None => i as u32 + 1,
            };
            out.push(
                EpisodeMetadata {
                    season: None,
                    number,
                    name,
                    overview: None,
                    still_url: text::copy_option(&entry.thumbnail),
                    air_date: None,
                },
            );
            i += 1;
        }
        out
    }
}

/// The names AniList files an entry under.
#[derive(Debug, PartialEq, Eq)]
pub struct MediaTitle {
    pub romaji: Option<String>,
    pub english: Option<String>,
    pub native: Option<String>,
}

/// A date of which any part may be missing.
#[derive(Debug, Clone, Copy, PartialEq, Eq, Structural)]
pub struct FuzzyDate {
    pub year: Option<u32>,
}

#[derive(Debug, PartialEq, Eq)]
pub struct CoverImage {
    pub extra_large: Option<String>,
    pub large: Option<String>,
}

/// One entry of a page of AniList's answers.
#[derive(Debug, PartialEq, Eq)]
pub struct Media {
    pub id: i64,
    pub title: MediaTitle,
    pub synonyms: Vec<String>,
    pub description: Option<String>,
    pub start_date: Option<FuzzyDate>,
    pub cover_image: Option<CoverImage>,
    pub banner_image: Option<String>,
    /// In thousandths of a point out of a hundred.
    pub average_score: Option<u32>,
    pub genres: Vec<String>,
    pub episodes: Option<u32>,
    pub format: Option<String>,
    pub site_url: Option<String>,
}

/// The texts that are there, in order.
pub open spec fn present(texts: Seq<Option<Seq<char>>>) -> Seq<Seq<char>>
    decreases texts.len(),
{
    if texts.len() == 0 {
        Seq::empty()
    } else {
        let front = present(texts.drop_last());
        match texts.last() {
            Some(text) => front.push(text),
            None => front,
        }
    }
}

/// Add a text where it is there.
pub fn push_present(out: &mut Vec<String>, name: &Option<String>)
    ensures
        text::texts(final(out)@) == text::texts(old(out)@) + present(
            seq![text::opt_chars(*name)],
        ),
{
    proof {
        reveal_with_fuel(present, 2);
        assert(seq![text::opt_chars(*name)].drop_last() =~= Seq::empty());
    }
    match name {
        Some(name) => {
            out.push(name.clone());
            assert(text::texts(out@) =~= text::texts(old(out)@).push(name@));
        },
        None => {},
    }
    assert(text::texts(out@) =~= text::texts(old(out)@) + present(seq![text::opt_chars(*name)]));
}

impl Media {
    /// English first when there is one: it is what the viewer's library is most
    /// likely named after. Then romaji, then native, then the entry's number.
    pub open spec fn shown_name(self) -> Seq<char> {
        match text::either(
            text::either(text::opt_chars(self.title.english), text::opt_chars(self.title.romaji)),
            text::opt_chars(self.title.native),
        ) {
            Some(name) => name,
            None => "AniList #"@ + text::integer(self.id as int),
        }
    }

    /// What this entry says of a title.
    pub open spec fn described(self) -> TitleMetadataView {
        let name = self.shown_name();
        let original = text::either(
            text::opt_chars(self.title.native),
            text::opt_chars(self.title.romaji),
        );
        TitleMetadataView {
            provider: ProviderId::AniList,
            remote_id: text::integer(self.id as int),
            name,
            original_name: if original == Some(name) {
                None
            } else {
                original
            },
            overview: match self.description {
                Some(d) => Some(text::trim(outside_tags(with_breaks(d@)))),
                None => None,
            },
            year: match self.start_date {
                Some(date) => date.year,
                None => None,
            },
            kind: kind_named(text::opt_chars(self.format)),
            poster_url: match self.cover_image {
                Some(cover) => text::either(
                    text::opt_chars(cover.extra_large),
                    text::opt_chars(cover.large),
                ),
                None => None,
            },
            backdrop_url: text::opt_chars(self.banner_image),
            rating: match self.average_score {
                Some(score) => Some((score / 10) as u32),
                None => None,
            },
            genres: text::texts(self.genres@),
            episodes: self.episodes,
            url: text::opt_chars(self.site_url),
        }
    }

    /// Every name that AniList gave, the synonyms last.
    pub open spec fn names(self) -> Seq<Seq<char>> {
        present(seq![text::opt_chars(self.title.english)]) + present(
            seq![text::opt_chars(self.title.romaji)],
        ) + present(seq![text::opt_chars(self.title.native)]) + text::texts(self.synonyms@)
    }

    /// The candidate that this entry is.
    pub fn into_candidate(self) -> (r: Candidate)
        ensures
            r.metadata@ == self.described(),
            text::texts(r.aliases@) == self.names(),
            r.kind_known == (self.format is Some),
    {
        let mut aliases: Vec<String> = Vec::new();
        assert(text::texts(aliases@) =~= Seq::<Seq<char>>::empty());
        push_present(&mut aliases, &self.title.english);
        push_present(&mut aliases, &self.title.romaji);
        push_present(&mut aliases, &self.title.native);
        let ghost titles = aliases@;
        let mut synonyms = text::copy_strings(&self.synonyms);
        aliases.append(&mut synonyms);
        assert(text::texts(aliases@) =~= self.names());

        let id = text::from_chars(&text::integer_of(self.id));
        let name = match text::first_of(
            &text::first_of(&self.title.english, &self.title.romaji),
            &self.title.native,
        ) {
            Some(name) => name,
            None => text::joined("AniList #", id.as_str()),
        };
        let original_name = match text::first_of(&self.title.native, &self.title.romaji) {
            Some(original) => if text::same_text(original.as_str(), name.as_str()) {
                None
            } else {
                Some(original)
            },
            None => None,
        };
        let overview = match &self.description {
            Some(description) => Some(strip_markup(description.as_str())),
            None => None,
        };
        let year = match self.start_date {
            Some(date) => date.year,
            None => None,
        };
        let poster_url = match &self.cover_image {
            Some(cover) => text::first_of(&cover.extra_large, &cover.large),
            None => None,
        };
        let kind = kind_of(
            match &self.format {
                Some(format) => Some(format.as_str()),
                None => None,
            },
        );
        let rating = match self.average_score {
            Some(score) => Some(score / 10),
            None => None,
        };
        let kind_known = self.format.is_some();
        let metadata = TitleMetadata {
            provider: ProviderId::AniList,
            remote_id: id,
            name,
            original_name,
            overview,
            year,
            kind,
            poster_url,
            backdrop_url: self.banner_image,
            rating,
            genres: self.genres,
            episodes: self.episodes,
            url: self.site_url,
        };
        assert(metadata@ =~= self.described());
        Candidate { metadata, aliases, kind_known }
    }
}

/// What to do next about a search.
#[derive(Debug)]
pub enum SearchStep {
    /// Ask AniList for this text.
    Ask(String),
    /// These are the candidates.
    Done(Vec<Candidate>),
}

/// Whether a candidate is what an entry becomes.
pub open spec fn comes_from(candidate: Candidate, media: Media) -> bool {
    &&& candidate.metadata@ == media.described()
    &&& text::texts(candidate.aliases@) == media.names()
    &&& candidate.kind_known == (media.format is Some)
}

/// The next step of a search for `name`, of which `asked` terms were asked for
/// and the last of them was answered with `page`.
///
/// A term is asked for only because the one before it came back with nothing at
/// all. A page of candidates, however weak, is the matcher's business.
pub fn search_step(name: &str, asked: usize, page: Vec<Media>) -> (r: SearchStep)
    ensures
        match r {
            SearchStep::Ask(term) => page@.len() == 0 && asked < terms_of(name@).len() && term@
                == terms_of(name@)[asked as int],
            SearchStep::Done(found) => {
                &&& page@.len() > 0 || asked >= terms_of(name@).len()
                &&& found@.len() == page@.len()
                &&& forall|i: int|
                    0 <= i < page@.len() ==> comes_from(#[trigger] found@[i], page@[i])
            },
        },
{
    if page.len() == 0 {
        let mut terms = search_terms(name);
        if asked < terms.len() {
            let term = terms.swap_remove(asked);
            assert(term@ == terms_of(name@)[asked as int]);
            return SearchStep::Ask(term);
        }
        return SearchStep::Done(Vec::new());
    }
    let mut found: Vec<Candidate> = Vec::new();
    for media in iter: page
        invariant
            iter.seq() == page@,
            found@.len() == iter.index(),
            forall|i: int|
                0 <= i < iter.index() ==> comes_from(#[trigger] found@[i], iter.seq()[i]),
    {
        found.push(media.into_candidate());
    }
    SearchStep::Done(found)
}

/// A name is searched for once or twice, as written first, and the second time
/// only to ask for something else.
pub proof fn law_a_name_is_searched_for_as_written_first(name: Seq<char>)
    ensures
        1 <= terms_of(name).len() <= 2,
        terms_of(name)[0] == name,
        terms_of(name).len() == 2 ==> terms_of(name)[1] != name,
{
}

/// A description without tags loses only the white space around it, and no angle
/// bracket ever survives.
pub proof fn law_no_markup_survives(description: Seq<char>)
    ensures
        !outside_tags(description).contains('<'),
        !outside_tags(description).contains('>'),
        !description.contains('<') && !description.contains('>') ==> outside_tags(description)
            == description && !in_tag(description),
    decreases description.len(),
{
    if description.len() > 0 {
        let front = description.drop_last();
        law_no_markup_survives(front);
        assert forall|c: char| front.contains(c) implies description.contains(c) by {
            let i = choose|i: int| 0 <= i < front.len() && front[i] == c;
            assert(description[i] == c);
        }
        assert(description[description.len() - 1] == description.last());
        let out = outside_tags(description);
        assert forall|c: char| (c == '<' || c == '>') && out.contains(c) implies false by {
            let i = choose|i: int| 0 <= i < out.len() && out[i] == c;
            if i < outside_tags(front).len() {
                assert(outside_tags(front)[i] == c);
            }
        }
        if !description.contains('<') && !description.contains('>') {
            assert(out =~= description);
        }
    }
}

/// The entry to ask about for a title's episodes. An id that is no number was
/// written by something else, and there is nothing to ask about.
pub fn media_id(title: &TitleMetadata) -> (r: Option<i64>)
    ensures
        match r {
            Some(id) => text::signed_value(title.remote_id@) == Some(id as int),
            None => text::signed_value(title.remote_id@) is None,
        },
{
    let v = text::to_chars(title.remote_id.as_str());
    text::parse_i64(&v)
}

/// `Episode 57 - The Immortal Legion` is number 57, by all of its digits, and has
/// the name behind the dash; without a name it is the number alone.
#[verifier::rlimit(40)]
pub proof fn law_an_entry_is_numbered_and_named(
    lead: Seq<char>,
    number: nat,
    gap: Seq<char>,
    dashes: Seq<char>,
    after: Seq<char>,
    name: Seq<char>,
)
    requires
        lead == "Episode "@ || lead == "episode "@ || lead == "EP"@ || lead == "E"@,
        number <= u32::MAX,
        forall|i: int| 0 <= i < gap.len() ==> #[trigger] gap[i] == ' ',
        forall|i: int|
            0 <= i < dashes.len() ==> #[trigger] dashes[i] == '-' || dashes[i] == '\u{2013}'
                || dashes[i] == ':',
        forall|i: int| 0 <= i < after.len() ==> #[trigger] after[i] == ' ',
        dashes.len() > 0,
        name.len() > 0,
        !text::is_white(name[0]) && !text::is_white(name.last()),
        name[0] != '-' && name[0] != '\u{2013}' && name[0] != ':',
    ensures
        numbering_of(lead + text::decimal(number) + (gap + (dashes + (after + name)))) == (
            Some(number),
            Some(name),
        ),
        numbering_of(lead + text::decimal(number)) == (Some(number), None::<Seq<char>>),
{
    reveal_strlit("Episode ");
    reveal_strlit("episode ");
    reveal_strlit("EP");
    reveal_strlit("E");
    let digits = text::decimal(number);
    text::lemma_decimal_reads_back(number);
    assert(text::is_digit(digits[0]) && text::is_digit(digits[digits.len() - 1]));
    let tail = gap + (dashes + (after + name));
    let named = lead + digits + tail;
    let bare = lead + digits;
    assert(named.last() == name.last());
    assert(bare.last() == digits[digits.len() - 1]);
    assert(text::trim(named) == named);
    assert(text::trim(bare) == bare);
    lemma_entry_word(lead, digits + tail);
    lemma_entry_word(lead, digits);
    assert(named =~= lead + (digits + tail));
    let rest = digits + tail;
    assert(tail.len() > 0 && !text::is_digit(tail[0])) by {
        if gap.len() > 0 {
            assert(tail[0] == gap[0]);
        } else {
            assert(tail[0] == dashes[0]);
        }
    }
    lemma_entry_digits(rest, digits.len() as int);
    lemma_entry_digits(digits, digits.len() as int);
    assert(rest.take(digits.len() as int) =~= digits);
    assert(digits.take(digits.len() as int) =~= digits);
    assert(rest.skip(digits.len() as int) =~= tail);
    let none = Seq::<char>::empty();
    assert(digits.skip(digits.len() as int) =~= none);
    lemma_spaces(gap, dashes + (after + name));
    assert((dashes + (after + name))[0] == dashes[0]);
    let marks = seq!['-', '–', ':'];
    assert(marks[0] == '-' && marks[1] == '\u{2013}' && marks[2] == ':');
    lemma_dashes(dashes, after + name, marks);
    lemma_spaces(after, name);
    assert(text::trim(after + name) == name);
    assert(text::trim(none) =~= none);
    assert(name_after_number(none) =~= none);
}

proof fn lemma_entry_word(lead: Seq<char>, rest: Seq<char>)
    requires
        lead == "Episode "@ || lead == "episode "@ || lead == "EP"@ || lead == "E"@,
        rest.len() > 0,
        text::is_digit(rest[0]),
    ensures
        after_episode_word(lead + rest) == Some(rest),
{
    reveal_strlit("Episode ");
    reveal_strlit("episode ");
    reveal_strlit("EP");
    reveal_strlit("E");
    let all = lead + rest;
    assert(all.subrange(0, lead.len() as int) =~= lead);
    assert(all.skip(lead.len() as int) =~= rest);
    assert(all[lead.len() as int] == rest[0]);
    if lead == "EP"@ {
        assert(!text::stands_at(all, "Episode "@, 0)) by {
            if text::stands_at(all, "Episode "@, 0) {
                assert(all.subrange(0, 8)[1] == all[1]);
            }
        }
        assert(!text::stands_at(all, "episode "@, 0)) by {
            if text::stands_at(all, "episode "@, 0) {
                assert(all.subrange(0, 8)[0] == all[0]);
            }
        }
    } else if lead == "E"@ {
        assert(!text::stands_at(all, "Episode "@, 0)) by {
            if text::stands_at(all, "Episode "@, 0) {
                assert(all.subrange(0, 8)[1] == all[1]);
            }
        }
        assert(!text::stands_at(all, "episode "@, 0)) by {
            if text::stands_at(all, "episode "@, 0) {
                assert(all.subrange(0, 8)[0] == all[0]);
            }
        }
        assert(!text::stands_at(all, "EP"@, 0)) by {
            if text::stands_at(all, "EP"@, 0) {
                assert(all.subrange(0, 2)[1] == all[1]);
            }
        }
    } else if lead == "episode "@ {
        assert(!text::stands_at(all, "Episode "@, 0)) by {
            if text::stands_at(all, "Episode "@, 0) {
                assert(all.subrange(0, 8)[0] == all[0]);
            }
        }
    }
}

proof fn lemma_entry_digits(s: Seq<char>, n: int)
    requires
        0 <= n <= s.len(),
        forall|i: int| 0 <= i < n ==> text::is_digit(#[trigger] s[i]),
        n == s.len() || !text::is_digit(s[n]),
    ensures
        text::digits_end(s, 0) == n,
{
    lemma_entry_digits_from(s, 0, n);
}

proof fn lemma_entry_digits_from(s: Seq<char>, i: int, n: int)
    requires
        0 <= i <= n <= s.len(),
        forall|k: int| 0 <= k < n ==> text::is_digit(#[trigger] s[k]),
        n == s.len() || !text::is_digit(s[n]),
    ensures
        text::digits_end(s, i) == n,
    decreases n - i,
{
    if i < n {
        assert(text::is_digit(s[i]));
        lemma_entry_digits_from(s, i + 1, n);
    }
}

proof fn lemma_spaces(gap: Seq<char>, rest: Seq<char>)
    requires
        forall|i: int| 0 <= i < gap.len() ==> #[trigger] gap[i] == ' ',
        rest.len() > 0,
        !text::is_white(rest[0]),
    ensures
        text::trim_start(gap + rest) == rest,
    decreases gap.len(),
{
    let all = gap + rest;
    if gap.len() == 0 {
        assert(all =~= rest);
    } else {
        assert(all[0] == gap[0]);
        assert(all.subrange(1, all.len() as int) =~= gap.skip(1) + rest);
        lemma_spaces(gap.skip(1), rest);
    }
}

proof fn lemma_dashes(dashes: Seq<char>, rest: Seq<char>, marks: Seq<char>)
    requires
        marks == seq!['-', '–', ':'],
        forall|i: int|
            0 <= i < dashes.len() ==> #[trigger] dashes[i] == '-' || dashes[i] == '\u{2013}'
                || dashes[i] == ':',
        rest.len() > 0,
        rest[0] != '-' && rest[0] != '\u{2013}' && rest[0] != ':',
    ensures
        text::trim_start_set(dashes + rest, marks) == rest,
    decreases dashes.len(),
{
    let all = dashes + rest;
    assert(marks[0] == '-' && marks[1] == '\u{2013}' && marks[2] == ':');
    if dashes.len() == 0 {
        assert(all =~= rest);
        if marks.contains(rest[0]) {
            let k = choose|k: int| 0 <= k < marks.len() && marks[k] == rest[0];
            assert(k == 0 || k == 1 || k == 2);
        }
    } else {
        assert(all[0] == dashes[0]);
        assert(marks.contains(all[0]));
        assert(all.subrange(1, all.len() as int) =~= dashes.skip(1) + rest);
        lemma_dashes(dashes.skip(1), rest, marks);
    }
}

/// A title that begins with none of those words has no number, and is the name.
pub proof fn law_an_unnumbered_entry_is_its_name(title: Seq<char>)
    requires
        title.len() > 0,
        !text::is_white(title[0]) && !text::is_white(title.last()),
        title[0] != 'E' && title[0] != 'e',
    ensures
        numbering_of(title) == (None::<nat>, Some(title)),
{
    reveal_strlit("Episode ");
    reveal_strlit("episode ");
    reveal_strlit("EP");
    reveal_strlit("E");
    assert(text::trim(title) == title);
    if text::stands_at(title, "Episode "@, 0) {
        assert(title.subrange(0, 8)[0] == title[0]);
    }
    if text::stands_at(title, "episode "@, 0) {
        assert(title.subrange(0, 8)[0] == title[0]);
    }
    if text::stands_at(title, "EP"@, 0) {
        assert(title.subrange(0, 2)[0] == title[0]);
    }
    if text::stands_at(title, "E"@, 0) {
        assert(title.subrange(0, 1)[0] == title[0]);
    }
}

/// A word of three letters or more that ends in an `s` behind a letter is searched
/// for again without it. A word that ends in anything else is not.
pub proof fn law_a_lost_apostrophe_is_searched_for(word: Seq<char>, last: char)
    requires
        word.len() >= 3,
        !word.contains(' '),
        last != ' ',
        unicode::alphabetic(word.last()),
    ensures
        last == 's' || last == 'S' ==> terms_of(word.push(last)) == seq![word.push(last), word],
        last != 's' && last != 'S' ==> terms_of(word.push(last)) == seq![word.push(last)],
{
    let name = word.push(last);
    let letters = letters_of(name);
    let n = word.len() as int;
    lemma_kept(name, letters, n);
    assert(name.take(n) =~= word);
    assert forall|i: int| 0 <= i < n implies name[i] != ' ' by {
        assert(word.contains(word[i]));
    }
    assert(name.len() == n + 1);
    assert(name[n] == last);
    assert(letters[n - 1]);
    if last == 's' || last == 'S' {
        assert(possessive_at(name, letters, n));
        assert(depossessed(name, letters, n + 1) == word);
        assert(word.len() != name.len());
    } else {
        assert(depossessed(name, letters, n + 1) =~= name);
    }
}

/// Inside a word nothing is dropped.
proof fn lemma_kept(name: Seq<char>, letters: Seq<bool>, n: int)
    requires
        0 <= n < name.len(),
        forall|i: int| 0 < i <= n ==> #[trigger] name[i] != ' ',
    ensures
        depossessed(name, letters, n) == name.take(n),
    decreases n,
{
    if n > 0 {
        lemma_kept(name, letters, n - 1);
        assert(name[n] != ' ');
        assert(name.take(n - 1).push(name[n - 1]) =~= name.take(n));
    } else {
        assert(name.take(0) =~= Seq::<char>::empty());
    }
}

/// Text without angle brackets is the description, white space at its ends aside.
pub proof fn law_plain_text_is_kept(s: Seq<char>)
    requires
        forall|i: int| 0 <= i < s.len() ==> #[trigger] s[i] != '<' && s[i] != '>',
    ensures
        outside_tags(with_breaks(s)) == s,
{
    reveal_strlit("<br>");
    reveal_strlit("<br/>");
    reveal_strlit("<br />");
    lemma_nothing_to_replace(s, "<br>"@, "\n"@);
    lemma_nothing_to_replace(s, "<br/>"@, "\n"@);
    lemma_nothing_to_replace(s, "<br />"@, "\n"@);
    lemma_no_tags(s);
}

proof fn lemma_nothing_to_replace(s: Seq<char>, from: Seq<char>, to: Seq<char>)
    requires
        forall|i: int| 0 <= i < s.len() ==> #[trigger] s[i] != '<',
        from.len() > 0,
        from[0] == '<',
    ensures
        text::replace_all(s, from, to) == s,
    decreases s.len(),
{
    if s.len() >= from.len() {
        if from.is_prefix_of(s) {
            assert(s[0] == from[0]);
        } else {
            let rest = s.subrange(1, s.len() as int);
            lemma_nothing_to_replace(rest, from, to);
            assert(seq![s[0]] + rest =~= s);
        }
    }
}

proof fn lemma_no_tags(s: Seq<char>)
    requires
        forall|i: int| 0 <= i < s.len() ==> #[trigger] s[i] != '<' && s[i] != '>',
    ensures
        outside_tags(s) == s,
        !in_tag(s),
    decreases s.len(),
{
    if s.len() > 0 {
        let front = s.drop_last();
        assert forall|i: int| 0 <= i < front.len() implies #[trigger] front[i] != '<' && front[i]
            != '>' by {
            assert(s[i] != '<');
        }
        lemma_no_tags(front);
        assert(s[s.len() - 1] == s.last());
        assert(front.push(s.last()) =~= s);
    } else {
        assert(outside_tags(s) =~= s);
    }
}

/// A tag, whatever it holds, is taken out of the text around it.
pub proof fn law_a_tag_is_taken_out(before: Seq<char>, tag: Seq<char>, after: Seq<char>)
    requires
        forall|i: int| 0 <= i < before.len() ==> #[trigger] before[i] != '<' && before[i] != '>',
        forall|i: int| 0 <= i < tag.len() ==> #[trigger] tag[i] != '<' && tag[i] != '>',
        forall|i: int| 0 <= i < after.len() ==> #[trigger] after[i] != '<' && after[i] != '>',
    ensures
        outside_tags(before.push('<') + tag.push('>') + after) == before + after,
{
    lemma_no_tags(before);
    let opened = before.push('<');
    assert(opened.drop_last() =~= before);
    lemma_in_tag(opened, tag, before);
    let closed = opened + tag.push('>');
    assert(closed.drop_last() =~= opened + tag);
    assert(closed.last() == '>');
    lemma_after_tag(closed, after, before);
}

proof fn lemma_in_tag(opened: Seq<char>, tag: Seq<char>, kept: Seq<char>)
    requires
        in_tag(opened),
        outside_tags(opened) == kept,
        forall|i: int| 0 <= i < tag.len() ==> #[trigger] tag[i] != '<' && tag[i] != '>',
    ensures
        in_tag(opened + tag),
        outside_tags(opened + tag) == kept,
    decreases tag.len(),
{
    let all = opened + tag;
    if tag.len() == 0 {
        assert(all =~= opened);
    } else {
        lemma_in_tag(opened, tag.drop_last(), kept);
        assert(all.drop_last() =~= opened + tag.drop_last());
        assert(all.last() == tag[tag.len() - 1]);
    }
}

proof fn lemma_after_tag(closed: Seq<char>, after: Seq<char>, kept: Seq<char>)
    requires
        !in_tag(closed),
        outside_tags(closed) == kept,
        forall|i: int| 0 <= i < after.len() ==> #[trigger] after[i] != '<' && after[i] != '>',
    ensures
        !in_tag(closed + after),
        outside_tags(closed + after) == kept + after,
    decreases after.len(),
{
    let all = closed + after;
    if after.len() == 0 {
        assert(all =~= closed);
        assert(kept + after =~= kept);
    } else {
        lemma_after_tag(closed, after.drop_last(), kept);
        assert(all.drop_last() =~= closed + after.drop_last());
        assert(all.last() == after[after.len() - 1]);
        assert((kept + after.drop_last()).push(after.last()) =~= kept + after);
    }
}

/// A candidate answers for the entry it came from: it has its id, its year, its
/// art and its pages, a tenth of its score, and every name that the entry has. The
/// name that is shown is the English one, else the romanised one, else the native
/// one; where the native or romanised name is another, that is the original one.
pub proof fn law_a_candidate_answers_for_its_entry(media: Media)
    ensures
        media.described().provider is AniList,
        media.described().remote_id == text::integer(media.id as int),
        media.title.english matches Some(name) ==> media.described().name == name@,
        media.title.english is None ==> (media.title.romaji matches Some(name)
            ==> media.described().name == name@),
        media.title.english is None && media.title.romaji is None ==> (
        media.title.native matches Some(name) ==> media.described().name == name@),
        media.described().original_name matches Some(name) ==> name != media.described().name && (
        text::opt_chars(media.title.native) == Some(name) || media.title.native is None
            && text::opt_chars(media.title.romaji) == Some(name)),
        media.title.native matches Some(name) ==> name@ == media.described().name
            || media.described().original_name == Some(name@),
        media.start_date matches Some(date) ==> media.described().year == date.year,
        media.start_date is None ==> media.described().year is None,
        media.average_score matches Some(score) ==> (media.described().rating matches Some(rating)
            && rating * 10 <= score < rating * 10 + 10),
        media.average_score is None ==> media.described().rating is None,
        media.cover_image matches Some(cover) ==> (cover.extra_large matches Some(url)
            ==> media.described().poster_url == Some(url@)),
        media.described().backdrop_url == text::opt_chars(media.banner_image),
        media.described().episodes == media.episodes,
        media.described().url == text::opt_chars(media.site_url),
        media.described().genres == text::texts(media.genres@),
{
}

/// Every name that an entry has is one to be matched by.
pub proof fn law_every_name_of_an_entry_counts(media: Media, i: int)
    ensures
        media.title.english matches Some(name) ==> media.names().contains(name@),
        media.title.romaji matches Some(name) ==> media.names().contains(name@),
        media.title.native matches Some(name) ==> media.names().contains(name@),
        0 <= i < media.synonyms@.len() ==> media.names().contains(media.synonyms@[i]@),
{
    reveal_with_fuel(present, 2);
    let a = present(seq![text::opt_chars(media.title.english)]);
    let b = present(seq![text::opt_chars(media.title.romaji)]);
    let c = present(seq![text::opt_chars(media.title.native)]);
    let d = text::texts(media.synonyms@);
    let all = media.names();
    if let Some(name) = media.title.english {
        assert(a =~= seq![name@]);
        assert(all[0] == name@);
    }
    if let Some(name) = media.title.romaji {
        assert(b =~= seq![name@]);
        assert(all[a.len() as int] == name@);
    }
    if let Some(name) = media.title.native {
        assert(c =~= seq![name@]);
        assert(all[(a.len() + b.len()) as int] == name@);
    }
    if 0 <= i < media.synonyms@.len() {
        assert(all[a.len() + b.len() + c.len() + i] == d[i]);
    }
}

/// The formats that are series, and no others.
pub proof fn law_episodic_formats_are_series(format: Option<Seq<char>>)
    ensures
        kind_named(format) is Series <==> format == Some("TV"@) || format == Some("TV_SHORT"@)
            || format == Some("ONA"@) || format == Some("OVA"@) || format == Some("SPECIAL"@),
{
}

/// An episode is listed under the number that its title states, and by its place
/// where it states none, with the picture that the entry has; it is of no season,
/// and nothing is made up for it.
pub proof fn law_an_episode_is_listed_by_its_number(
    entry: StreamingEpisode,
    index: int,
    episode: EpisodeMetadata,
)
    requires
        listed_as(entry, index, episode),
    ensures
        episode.season is None && episode.overview is None && episode.air_date is None,
        episode.still_url == entry.thumbnail,
        entry.title matches Some(title) ==> (numbering_of(title@).0 matches Some(number)
            ==> episode.number == number) && (numbering_of(title@).0 is None ==> episode.number
            == index + 1) && text::opt_chars(episode.name) == numbering_of(title@).1,
        entry.title is None ==> episode.number == index + 1 && episode.name is None,
{
    if entry.title is None {
        reveal_strlit("Episode ");
        reveal_strlit("episode ");
        reveal_strlit("EP");
        reveal_strlit("E");
        let none = Seq::<char>::empty();
        assert(text::trim(none) =~= none);
    }
}

/// A line break in a description is the line break it stands for, in each of the
/// ways it is written.
pub proof fn law_breaks_are_line_breaks(before: Seq<char>, tag: Seq<char>, after: Seq<char>)
    requires
        tag == "<br>"@ || tag == "<br/>"@ || tag == "<br />"@,
        forall|i: int| 0 <= i < before.len() ==> #[trigger] before[i] != '<',
        forall|i: int| 0 <= i < after.len() ==> #[trigger] after[i] != '<',
    ensures
        with_breaks(before + tag + after) == before + "\n"@ + after,
{
    reveal_strlit("<br>");
    reveal_strlit("<br/>");
    reveal_strlit("<br />");
    reveal_strlit("\n");
    let s = before + tag + after;
    let done = before + "\n"@ + after;
    assert forall|i: int| 0 <= i < done.len() implies #[trigger] done[i] != '<' by {
        if i < before.len() {
            assert(done[i] == before[i]);
        } else if i >= before.len() + 1 {
            assert(done[i] == after[i - before.len() - 1]);
        }
    }
    lemma_nothing_to_replace(done, "<br/>"@, "\n"@);
    lemma_nothing_to_replace(done, "<br />"@, "\n"@);
    lemma_replaced_once(before, tag, after, tag, "\n"@);
    if tag != "<br>"@ {
        lemma_replaced_once(before, tag, after, "<br>"@, "\n"@);
    }
    if tag == "<br />"@ {
        lemma_replaced_once(before, tag, after, "<br/>"@, "\n"@);
    }
}

/// A tag is replaced where it is the one looked for, and left alone otherwise.
proof fn lemma_replaced_once(
    before: Seq<char>,
    tag: Seq<char>,
    after: Seq<char>,
    from: Seq<char>,
    to: Seq<char>,
)
    requires
        tag == "<br>"@ || tag == "<br/>"@ || tag == "<br />"@,
        from == "<br>"@ || from == "<br/>"@ || from == "<br />"@,
        forall|i: int| 0 <= i < before.len() ==> #[trigger] before[i] != '<',
        forall|i: int| 0 <= i < after.len() ==> #[trigger] after[i] != '<',
    ensures
        text::replace_all(before + tag + after, from, to) == if tag == from {
            before + to + after
        } else {
            before + tag + after
        },
    decreases before.len(),
{
    reveal_strlit("<br>");
    reveal_strlit("<br/>");
    reveal_strlit("<br />");
    let s = before + tag + after;
    if before.len() > 0 {
        assert(s[0] == before[0]);
        let rest = before.skip(1);
        assert forall|i: int| 0 <= i < rest.len() implies #[trigger] rest[i] != '<' by {
            assert(before[i + 1] != '<');
        }
        assert(s.subrange(1, s.len() as int) =~= rest + tag + after);
        lemma_replaced_once(rest, tag, after, from, to);
        if from.is_prefix_of(s) {
            assert(s[0] == from[0]);
        }
        assert(seq![before[0]] + (rest + to + after) =~= before + to + after);
        assert(seq![before[0]] + (rest + tag + after) =~= before + tag + after);
    } else {
        assert(s =~= tag + after);
        if tag == from {
            assert(s.subrange(0, from.len() as int) =~= from);
            assert(from.is_prefix_of(s));
            assert(s.subrange(from.len() as int, s.len() as int) =~= after);
            lemma_nothing_to_replace(after, from, to);
            assert(to + after =~= before + to + after);
        } else {
            if from.is_prefix_of(s) {
                assert(s[3] == from[3] && s[3] == tag[3]);
            }
            let rest = s.subrange(1, s.len() as int);
            assert forall|i: int| 0 <= i < rest.len() implies #[trigger] rest[i] != '<' by {
                if i + 1 < tag.len() {
                    assert(rest[i] == tag[i + 1]);
                } else {
                    assert(rest[i] == after[i + 1 - tag.len()]);
                }
            }
            lemma_nothing_to_replace(rest, from, to);
            assert(seq![s[0]] + rest =~= s);
        }
    }
}

} // verus!
