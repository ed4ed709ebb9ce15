//! What a metadata provider knows about a title, and whether to ask one.
//!
//! ## Enrichment is off by default
//!
//! Matching a library against a provider means sending that provider the titles
//! in it: a list of what someone watches, attached to an address, held by a third
//! party. The viewer is the only one who can weigh that, so
//! [`MetadataConfig::enabled`] starts `false`.

use vstd::prelude::*;

use crate::library::TitleKind;
use crate::text;
use crate::text::owned;
use crate::text::same_text;

verus! {

/// Which provider a match came from.
///
/// Stored as a string rather than an integer: a row whose provider this build
/// does not recognise should read as "some other provider", which is a re-match,
/// not a parse failure.
#[derive(Debug, Clone, Copy, PartialEq, Eq, Structural)]
pub enum ProviderId {
    /// AniList. Anime only, no API key, no account.
    AniList,
    /// The Movie Database. Film and television, needs a free API key.
    Tmdb,
}

/// The stored name of a provider.
pub open spec fn provider_name(provider: ProviderId) -> Seq<char> {
    match provider {
        ProviderId::AniList => "anilist"@,
        ProviderId::Tmdb => "tmdb"@,
    }
}

/// The provider that a stored name names.
pub open spec fn provider_named(name: Seq<char>) -> Option<ProviderId> {
    if name == "anilist"@ {
        Some(ProviderId::AniList)
    } else if name == "tmdb"@ {
        Some(ProviderId::Tmdb)
    } else {
        None
    }
}

impl Default for ProviderId {
    fn default() -> (r: Self)
        ensures
            r == ProviderId::AniList,
    {
        ProviderId::AniList
    }
}

impl ProviderId {
    pub const ALL: [ProviderId; 2] = [ProviderId::AniList, ProviderId::Tmdb];

    pub fn as_str(self) -> (r: &'static str)
        ensures
            r@ == provider_name(self),
    {
        match self {
            ProviderId::AniList => "anilist",
            ProviderId::Tmdb => "tmdb",
        }
    }

    /// What to call it on screen.
    pub fn label(self) -> (r: &'static str)
        ensures
            r@ == match self {
                ProviderId::AniList => "AniList"@,
                ProviderId::Tmdb => "TMDB"@,
            },
    {
        match self {
            ProviderId::AniList => "AniList",
            ProviderId::Tmdb => "TMDB",
        }
    }

    /// One line on what it covers and what it costs to use.
    pub fn description(self) -> (r: &'static str)
        ensures
            r@ == match self {
                ProviderId::AniList => "Anime, with no API key and no account."@,
                ProviderId::Tmdb =>
                    "Film and television. Needs a free API key from themoviedb.org."@,
            },
    {
        match self {
            ProviderId::AniList => "Anime, with no API key and no account.",
            ProviderId::Tmdb => "Film and television. Needs a free API key from themoviedb.org.",
        }
    }

    /// Whether this provider cannot be used without a key.
    pub fn needs_api_key(self) -> (r: bool)
        ensures
            r == (self is Tmdb),
    {
        match self {
            ProviderId::AniList => false,
            ProviderId::Tmdb => true,
        }
    }

    pub fn parse(text: &str) -> (r: Option<ProviderId>)
        ensures
            r == provider_named(text@),
    {
        if same_text(text, "anilist") {
            Some(ProviderId::AniList)
        } else if same_text(text, "tmdb") {
            Some(ProviderId::Tmdb)
        } else {
            None
        }
    }
}

/// A provider's stored name reads back as that provider, and no other text
/// reads as one.
pub proof fn law_provider_names_round_trip(provider: ProviderId, name: Seq<char>)
    ensures
        provider_named(provider_name(provider)) == Some(provider),
        provider_named(name) == Some(provider) ==> name == provider_name(provider),
{
    reveal_strlit("anilist");
    reveal_strlit("tmdb");
    assert("anilist"@.len() != "tmdb"@.len());
}

/// What a provider said about one title.
///
/// Every field past the identity is optional, because every field is optional at
/// some provider.
#[derive(Debug, PartialEq, Eq)]
pub struct TitleMetadata {
    pub provider: ProviderId,
    /// The provider's own id, so a re-fetch does not re-search.
    pub remote_id: String,
    /// The canonical title, in the viewer's language where the provider has one.
    pub name: String,
    /// The title in its original language, when it differs.
    pub original_name: Option<String>,
    pub overview: Option<String>,
    pub year: Option<u32>,
    pub kind: TitleKind,
    /// Portrait art, around 2:3.
    pub poster_url: Option<String>,
    /// Landscape art, around 16:9. Much rarer than a poster.
    pub backdrop_url: Option<String>,
    /// In thousandths of a point out of ten, however the provider scores.
    pub rating: Option<u32>,
    pub genres: Vec<String>,
    /// How many episodes the provider thinks there are.
    pub episodes: Option<u32>,
    /// The title's page, for a viewer who wants the rest of it.
    pub url: Option<String>,
}

/// A [`TitleMetadata`] with its strings taken as sequences of characters.
#[verifier::ext_equal]
pub struct TitleMetadataView {
    pub provider: ProviderId,
    pub remote_id: Seq<char>,
    pub name: Seq<char>,
    pub original_name: Option<Seq<char>>,
    pub overview: Option<Seq<char>>,
    pub year: Option<u32>,
    pub kind: TitleKind,
    pub poster_url: Option<Seq<char>>,
    pub backdrop_url: Option<Seq<char>>,
    pub rating: Option<u32>,
    pub genres: Seq<Seq<char>>,
    pub episodes: Option<u32>,
    pub url: Option<Seq<char>>,
}

impl View for TitleMetadata {
    type V = TitleMetadataView;

    open spec fn view(&self) -> TitleMetadataView {
        TitleMetadataView {
            provider: self.provider,
            remote_id: self.remote_id@,
            name: self.name@,
            original_name: text::opt_chars(self.original_name),
            overview: text::opt_chars(self.overview),
            year: self.year,
            kind: self.kind,
            poster_url: text::opt_chars(self.poster_url),
            backdrop_url: text::opt_chars(self.backdrop_url),
            rating: self.rating,
            genres: text::texts(self.genres@),
            episodes: self.episodes,
            url: text::opt_chars(self.url),
        }
    }
}

impl Clone for TitleMetadata {
    fn clone(&self) -> (r: Self)
        ensures
            r@ == self@,
    {
        TitleMetadata {
            provider: self.provider,
            remote_id: self.remote_id.clone(),
            name: self.name.clone(),
            original_name: text::copy_option(&self.original_name),
            overview: text::copy_option(&self.overview),
            year: self.year,
            kind: self.kind,
            poster_url: text::copy_option(&self.poster_url),
            backdrop_url: text::copy_option(&self.backdrop_url),
            rating: self.rating,
            genres: text::copy_strings(&self.genres),
            episodes: self.episodes,
            url: text::copy_option(&self.url),
        }
    }
}

impl TitleMetadata {
    /// The art to put on a 16:9 tile, most appropriate first.
    ///
    /// A backdrop is the right shape; a poster is the wrong shape but the right
    /// picture, and is drawn letterboxed rather than cropped.
    pub fn tile_art(&self) -> (r: Option<(&str, ArtShape)>)
        ensures
            match r {
                Some((url, ArtShape::Landscape)) => self@.backdrop_url == Some(url@),
                Some((url, ArtShape::Portrait)) => self@.backdrop_url is None && self@.poster_url
                    == Some(url@),
                None => self@.backdrop_url is None && self@.poster_url is None,
            },
    {
        match &self.backdrop_url {
            Some(url) => Some((url.as_str(), ArtShape::Landscape)),
            None => match &self.poster_url {
                Some(url) => Some((url.as_str(), ArtShape::Portrait)),
                None => None,
            },
        }
    }
}

/// What a provider said about one episode: the two lines a viewer reads before
/// picking it.
#[derive(Debug, PartialEq, Eq)]
pub struct EpisodeMetadata {
    /// The season the provider files it under, or `None` when it numbers
    /// episodes straight through.
    pub season: Option<u32>,
    pub number: u32,
    pub name: Option<String>,
    pub overview: Option<String>,
    /// A frame from the episode, around 16:9.
    pub still_url: Option<String>,
    /// As the provider writes it: `2009-10-10`. Not parsed: it is shown, not
    /// sorted on.
    pub air_date: Option<String>,
}

impl Clone for EpisodeMetadata {
    fn clone(&self) -> (r: Self)
        ensures
            r == *self,
    {
        EpisodeMetadata {
            season: self.season,
            number: self.number,
            name: text::copy_option(&self.name),
            overview: text::copy_option(&self.overview),
            still_url: text::copy_option(&self.still_url),
            air_date: text::copy_option(&self.air_date),
        }
    }
}

/// What an episode is looked up by.
pub type EpisodeKey = (Option<u32>, u32);

/// The key of an episode.
pub open spec fn episode_key(e: EpisodeMetadata) -> EpisodeKey {
    (e.season, e.number)
}

/// Keys in order: absolute numbering first, then by season and number.
pub open spec fn key_lt(a: EpisodeKey, b: EpisodeKey) -> bool {
    ||| match (a.0, b.0) {
        (None, Some(_)) => true,
        (Some(x), Some(y)) => x < y,
        _ => false,
    }
    ||| a.0 == b.0 && a.1 < b.1
}

/// What a list of episodes says of each key: the last of them that has it.
pub open spec fn guide_of(episodes: Seq<EpisodeMetadata>) -> Map<EpisodeKey, EpisodeMetadata>
    decreases episodes.len(),
{
    if episodes.len() == 0 {
        Map::empty()
    } else {
        guide_of(episodes.drop_last()).insert(episode_key(episodes.last()), episodes.last())
    }
}

/// Every episode a provider listed for one title, ready to look up.
///
/// The lookup is the whole reason this is a type: a file numbered `#057` and a
/// provider that files episodes under seasons have to meet somewhere.
#[derive(Debug, PartialEq, Eq)]
pub struct EpisodeGuide {
    entries: Vec<EpisodeMetadata>,
}

impl View for EpisodeGuide {
    type V = Map<EpisodeKey, EpisodeMetadata>;

    closed spec fn view(&self) -> Map<EpisodeKey, EpisodeMetadata> {
        guide_of(self.entries@)
    }
}

impl Clone for EpisodeGuide {
    fn clone(&self) -> (r: Self)
        ensures
            r@ == self@,
            r.wf() == self.wf(),
    {
        let entries = self.entries.clone();
        assert(entries@ =~= self.entries@);
        EpisodeGuide { entries }
    }
}

impl Default for EpisodeGuide {
    fn default() -> (r: Self)
        ensures
            r.wf(),
            r@ == Map::<EpisodeKey, EpisodeMetadata>::empty(),
    {
        EpisodeGuide { entries: Vec::new() }
    }
}

/// What the guide answers for a file numbered like this.
///
/// Tried in order: the season and number the filename states; the provider's
/// absolute numbering, for a file of season one or of none; and, for a file with
/// no season at all, season one.
pub open spec fn answer(
    guide: Map<EpisodeKey, EpisodeMetadata>,
    season: Option<u32>,
    number: u32,
) -> Option<EpisodeMetadata> {
    if guide.dom().contains((season, number)) {
        Some(guide[(season, number)])
    } else if (season is None || season == Some(1u32)) && guide.dom().contains((None, number)) {
        Some(guide[(None, number)])
    } else if season is None && guide.dom().contains((Some(1u32), number)) {
        Some(guide[(Some(1u32), number)])
    } else {
        None
    }
}

spec fn entries_in_order(entries: Seq<EpisodeMetadata>) -> bool {
    forall|i: int, j: int|
        #![trigger entries[i], entries[j]]
        0 <= i < j < entries.len() ==> key_lt(episode_key(entries[i]), episode_key(entries[j]))
}

/// The keys of a guide are those of its entries, and entries in order are what
/// their keys answer.
proof fn lemma_guide_of(entries: Seq<EpisodeMetadata>)
    ensures
        forall|k: EpisodeKey|
            #[trigger] guide_of(entries).dom().contains(k) <==> exists|i: int|
                0 <= i < entries.len() && episode_key(#[trigger] entries[i]) == k,
        guide_of(entries).dom().finite(),
        entries_in_order(entries) ==> {
            &&& forall|i: int|
                0 <= i < entries.len() ==> guide_of(entries)[episode_key(#[trigger] entries[i])]
                    == entries[i]
            &&& guide_of(entries).dom().len() == entries.len()
        },
    decreases entries.len(),
{
    if entries.len() > 0 {
        let front = entries.drop_last();
        let last = entries.last();
        lemma_guide_of(front);
        assert forall|k: EpisodeKey|
            #[trigger] guide_of(entries).dom().contains(k) <==> exists|i: int|
                0 <= i < entries.len() && episode_key(#[trigger] entries[i]) == k by {
            if guide_of(front).dom().contains(k) {
                let i = choose|i: int|
                    0 <= i < front.len() && episode_key(#[trigger] front[i]) == k;
                assert(episode_key(entries[i]) == k);
            }
            if k == episode_key(last) {
                assert(episode_key(entries[entries.len() - 1]) == k);
            }
            if exists|i: int| 0 <= i < entries.len() && episode_key(#[trigger] entries[i]) == k {
                let i = choose|i: int|
                    0 <= i < entries.len() && episode_key(#[trigger] entries[i]) == k;
                if i < front.len() {
                    assert(episode_key(front[i]) == k);
                }
            }
        }
        if entries_in_order(entries) {
            assert(entries_in_order(front)) by {
                assert forall|i: int, j: int|
                    #![trigger front[i], front[j]]
                    0 <= i < j < front.len() implies key_lt(
                    episode_key(front[i]),
                    episode_key(front[j]),
                ) by {
                    assert(front[i] == entries[i] && front[j] == entries[j]);
                }
            }
            assert(!guide_of(front).dom().contains(episode_key(last))) by {
                if guide_of(front).dom().contains(episode_key(last)) {
                    let i = choose|i: int|
                        0 <= i < front.len() && episode_key(#[trigger] front[i]) == episode_key(
                            last,
                        );
                    assert(key_lt(episode_key(entries[i]), episode_key(entries[entries.len() - 1])));
                }
            }
            assert forall|i: int| 0 <= i < entries.len() implies guide_of(
                entries,
            )[episode_key(#[trigger] entries[i])] == entries[i] by {
                if i < front.len() {
                    assert(front[i] == entries[i]);
                    assert(key_lt(episode_key(entries[i]), episode_key(entries[entries.len() - 1])));
                }
            }
        }
    }
}

/// Whether `a` comes before `b`.
fn comes_before(a: &EpisodeMetadata, season: Option<u32>, number: u32) -> (r: bool)
    ensures
        r == key_lt(episode_key(*a), (season, number)),
{
    match (a.season, season) {
        (None, Some(_)) => true,
        (Some(_), None) => false,
        (Some(x), Some(y)) => x < y || (x == y && a.number < number),
        (None, None) => a.number < number,
    }
}

fn has_key(a: &EpisodeMetadata, season: Option<u32>, number: u32) -> (r: bool)
    ensures
        r == (episode_key(*a) == (season, number)),
{
    match (a.season, season) {
        (Some(x), Some(y)) => x == y && a.number == number,
        (None, None) => a.number == number,
        _ => false,
    }
}

impl EpisodeGuide {
    /// Entries are in the order of their keys, so no key occurs twice.
    pub closed spec fn wf(&self) -> bool {
        entries_in_order(self.entries@)
    }

    pub fn new(episodes: Vec<EpisodeMetadata>) -> (r: Self)
        ensures
            r.wf(),
            r@ == guide_of(episodes@),
    {
        let ghost all = episodes@;
        let mut guide = EpisodeGuide { entries: Vec::new() };
        for episode in iter: episodes
            invariant
                iter.seq() == all,
                guide.wf(),
                guide@ == guide_of(all.take(iter.index() as int)),
        {
            let ghost n = iter.index() as int;
            assert(all.take(n + 1).drop_last() =~= all.take(n));
            guide.insert(episode);
        }
        assert(all.take(all.len() as int) =~= all);
        guide
    }

    /// File an episode under its key, in place of what was there.
    fn insert(&mut self, episode: EpisodeMetadata)
        requires
            old(self).wf(),
        ensures
            final(self).wf(),
            final(self)@ == old(self)@.insert(episode_key(episode), episode),
    {
        let ghost before = self.entries@;
        let ghost key = episode_key(episode);
        let mut i: usize = 0;
        while i < self.entries.len() && comes_before(
            &self.entries[i],
            episode.season,
            episode.number,
        )
            invariant
                i <= self.entries@.len(),
                self.entries@ == before,
                key == episode_key(episode),
                forall|j: int| 0 <= j < i ==> key_lt(episode_key(#[trigger] before[j]), key),
            decreases self.entries.len() - i,
        {
            i += 1;
        }
        if i < self.entries.len() && has_key(&self.entries[i], episode.season, episode.number) {
            self.entries[i] = episode;
            proof {
                assert(self.entries@ =~= before.update(i as int, episode));
                lemma_replaced(before, i as int, episode);
            }
        } else {
            self.entries.insert(i, episode);
            proof {
                let after = self.entries@;
                assert(after =~= before.insert(i as int, episode));
                assert forall|a: int, b: int|
                    #![trigger after[a], after[b]]
                    0 <= a < b < after.len() implies key_lt(
                    episode_key(after[a]),
                    episode_key(after[b]),
                ) by {
                    let x = if a < i { a } else { a - 1 };
                    let y = if b < i { b } else { b - 1 };
                    if a != i {
                        assert(after[a] == before[x]);
                    }
                    if b != i {
                        assert(after[b] == before[y]);
                        if a == i {
                            assert(!key_lt(episode_key(before[i as int]), key));
                            if b > i + 1 {
                                assert(key_lt(episode_key(before[i as int]), episode_key(before[y])));
                            }
                        }
                    }
                }
                lemma_inserted(before, i as int, episode);
            }
        }
    }

    pub fn is_empty(&self) -> (r: bool)
        requires
            self.wf(),
        ensures
            r == self@.dom().is_empty(),
    {
        proof {
            lemma_guide_of(self.entries@);
            if self.entries@.len() > 0 {
                assert(self@.dom().contains(episode_key(self.entries@[0])));
            } else {
                assert(self@.dom() =~= Set::empty());
            }
        }
        self.entries.len() == 0
    }

    pub fn len(&self) -> (r: usize)
        requires
            self.wf(),
        ensures
            r == self@.dom().len(),
    {
        proof {
            lemma_guide_of(self.entries@);
        }
        self.entries.len()
    }

    /// The entry with exactly this key.
    fn entry(&self, season: Option<u32>, number: u32) -> (r: Option<&EpisodeMetadata>)
        requires
            self.wf(),
        ensures
            match r {
                Some(e) => self@.dom().contains((season, number)) && self@[(season, number)] == *e,
                None => !self@.dom().contains((season, number)),
            },
    {
        let mut i: usize = 0;
        while i < self.entries.len()
            invariant
                i <= self.entries@.len(),
                self.wf(),
                forall|j: int|
                    0 <= j < i ==> episode_key(#[trigger] self.entries@[j]) != (season, number),
            decreases self.entries.len() - i,
        {
            if has_key(&self.entries[i], season, number) {
                proof {
                    lemma_guide_of(self.entries@);
                    assert(episode_key(self.entries@[i as int]) == (season, number));
                }
                return Some(&self.entries[i]);
            }
            i += 1;
        }
        proof {
            lemma_guide_of(self.entries@);
        }
        None
    }

    /// What the provider says about the file numbered like this.
    ///
    /// **The absolute fallback stops at season one.** A provider that numbers
    /// straight through is one that split nothing, so its episode seven is
    /// season one's, not season two's. Season two upwards is answered from an
    /// entry that states that season or not at all.
    pub fn get(&self, season: Option<u32>, number: u32) -> (r: Option<&EpisodeMetadata>)
        requires
            self.wf(),
        ensures
            match r {
                Some(e) => answer(self@, season, number) == Some(*e),
                None => answer(self@, season, number) is None,
            },
    {
        let exact = self.entry(season, number);
        if exact.is_some() {
            return exact;
        }
        let first_season = match season {
            None => true,
            Some(s) => s == 1,
        };
        if first_season {
            let absolute = self.entry(None, number);
            if absolute.is_some() {
                return absolute;
            }
        }
        if season.is_none() {
            self.entry(Some(1), number)
        } else {
            None
        }
    }

    /// Which seasons this guide actually has answers for, each once. `None` is
    /// the provider's own absolute numbering.
    pub fn seasons(&self) -> (r: Vec<Option<u32>>)
        requires
            self.wf(),
        ensures
            r@.no_duplicates(),
            forall|s: Option<u32>|
                #[trigger] r@.contains(s) <==> exists|n: u32| self@.dom().contains((s, n)),
    {
        let mut out: Vec<Option<u32>> = Vec::new();
        let mut i: usize = 0;
        proof {
            lemma_guide_of(self.entries@);
        }
        while i < self.entries.len()
            invariant
                i <= self.entries@.len(),
                entries_in_order(self.entries@),
                out@.no_duplicates(),
                i > 0 ==> out@.len() > 0 && out@.last() == self.entries@[i - 1].season,
                forall|j: int| 0 <= j < i ==> out@.contains((#[trigger] self.entries@[j]).season),
                forall|k: int|
                    0 <= k < out@.len() ==> exists|j: int|
                        0 <= j < i && (#[trigger] self.entries@[j]).season == #[trigger] out@[k],
            decreases self.entries.len() - i,
        {
            let season = self.entries[i].season;
            let ghost before = out@;
            let repeated = i > 0 && match (self.entries[i - 1].season, season) {
                (Some(x), Some(y)) => x == y,
                (None, None) => true,
                _ => false,
            };
            if !repeated {
                assert(!before.contains(season)) by {
                    if before.contains(season) {
                        let k = choose|k: int| 0 <= k < before.len() && before[k] == season;
                        let j = choose|j: int|
                            0 <= j < i && (#[trigger] self.entries@[j]).season == before[k];
                        assert(key_lt(
                            episode_key(self.entries@[j]),
                            episode_key(self.entries@[i as int]),
                        ));
                        if j < i - 1 {
                            assert(key_lt(
                                episode_key(self.entries@[j]),
                                episode_key(self.entries@[i - 1]),
                            ));
                            assert(key_lt(
                                episode_key(self.entries@[i - 1]),
                                episode_key(self.entries@[i as int]),
                            ));
                        }
                    }
                }
                out.push(season);
            }
            i += 1;
            assert forall|j: int| 0 <= j < i implies out@.contains(
                (#[trigger] self.entries@[j]).season,
            ) by {
                if j < i - 1 {
                    let k = choose|k: int|
                        0 <= k < before.len() && before[k] == self.entries@[j].season;
                    assert(out@[k] == self.entries@[j].season);
                } else {
                    assert(out@.last() == season);
                }
            }
            assert forall|k: int| 0 <= k < out@.len() implies exists|j: int|
                0 <= j < i && (#[trigger] self.entries@[j]).season == #[trigger] out@[k] by {
                if k < before.len() {
                    assert(out@[k] == before[k]);
                    let j = choose|j: int|
                        0 <= j < i - 1 && (#[trigger] self.entries@[j]).season == before[k];
                    assert(self.entries@[j].season == out@[k]);
                } else {
                    assert(self.entries@[i - 1].season == out@[k]);
                }
            }
        }
        assert forall|s: Option<u32>|
            #[trigger] out@.contains(s) <==> exists|n: u32| self@.dom().contains((s, n)) by {
            if out@.contains(s) {
                let k = choose|k: int| 0 <= k < out@.len() && out@[k] == s;
                let j = choose|j: int|
                    0 <= j < self.entries@.len() && (#[trigger] self.entries@[j]).season == out@[k];
                assert(episode_key(self.entries@[j]) == (s, self.entries@[j].number));
                assert(self@.dom().contains((s, self.entries@[j].number)));
            }
            if exists|n: u32| self@.dom().contains((s, n)) {
                let n = choose|n: u32| self@.dom().contains((s, n));
                let j = choose|j: int|
                    0 <= j < self.entries@.len() && episode_key(#[trigger] self.entries@[j]) == (
                        s,
                        n,
                    );
                assert(self.entries@[j].season == s);
            }
        }
        out
    }

    /// Every entry, for storing, in the order of the keys.
    pub fn episodes(&self) -> (r: Vec<&EpisodeMetadata>)
        requires
            self.wf(),
        ensures
            r@.len() == self@.dom().len(),
            forall|i: int|
                0 <= i < r@.len() ==> self@.dom().contains(episode_key(*(#[trigger] r@[i])))
                    && self@[episode_key(*r@[i])] == *r@[i],
            forall|i: int, j: int|
                #![trigger r@[i], r@[j]]
                0 <= i < j < r@.len() ==> key_lt(episode_key(*r@[i]), episode_key(*r@[j])),
    {
        proof {
            lemma_guide_of(self.entries@);
        }
        let mut out: Vec<&EpisodeMetadata> = Vec::new();
        let mut i: usize = 0;
        while i < self.entries.len()
            invariant
                i <= self.entries@.len(),
                out@.len() == i,
                forall|j: int| 0 <= j < i ==> *(#[trigger] out@[j]) == self.entries@[j],
            decreases self.entries.len() - i,
        {
            out.push(&self.entries[i]);
            i += 1;
        }
        assert forall|i: int| 0 <= i < out@.len() implies self@.dom().contains(
            episode_key(*(#[trigger] out@[i])),
        ) && self@[episode_key(*out@[i])] == *out@[i] by {
            assert(episode_key(self.entries@[i]) == episode_key(*out@[i]));
        }
        out
    }
}

/// Replacing the entry of a key changes what that key answers, and nothing else.
proof fn lemma_replaced(before: Seq<EpisodeMetadata>, i: int, episode: EpisodeMetadata)
    requires
        entries_in_order(before),
        0 <= i < before.len(),
        episode_key(before[i]) == episode_key(episode),
    ensures
        entries_in_order(before.update(i, episode)),
        guide_of(before.update(i, episode)) == guide_of(before).insert(
            episode_key(episode),
            episode,
        ),
{
    let after = before.update(i, episode);
    assert forall|a: int, b: int|
        #![trigger after[a], after[b]]
        0 <= a < b < after.len() implies key_lt(episode_key(after[a]), episode_key(after[b])) by {
        assert(episode_key(after[a]) == episode_key(before[a]));
        assert(episode_key(after[b]) == episode_key(before[b]));
    }
    lemma_guide_of(before);
    lemma_guide_of(after);
    let fresh = guide_of(after);
    let expected = guide_of(before).insert(episode_key(episode), episode);
    assert forall|k: EpisodeKey| #[trigger] fresh.dom().contains(k) == expected.dom().contains(
        k,
    ) by {
        if fresh.dom().contains(k) {
            let a = choose|a: int| 0 <= a < after.len() && episode_key(#[trigger] after[a]) == k;
            assert(episode_key(before[a]) == k);
        }
        if guide_of(before).dom().contains(k) {
            let a = choose|a: int| 0 <= a < before.len() && episode_key(#[trigger] before[a]) == k;
            assert(episode_key(after[a]) == k);
        }
        assert(episode_key(after[i]) == episode_key(episode));
    }
    assert forall|k: EpisodeKey| fresh.dom().contains(k) implies #[trigger] fresh[k]
        == expected[k] by {
        let a = choose|a: int| 0 <= a < after.len() && episode_key(#[trigger] after[a]) == k;
        assert(fresh[episode_key(after[a])] == after[a]);
        assert(guide_of(before)[episode_key(before[a])] == before[a]);
        if a != i {
            assert(key_lt(episode_key(after[a]), episode_key(after[i])) || key_lt(
                episode_key(after[i]),
                episode_key(after[a]),
            ));
        }
    }
    assert(fresh =~= expected);
}

/// Inserting an entry of a new key, in order, adds what that key answers.
proof fn lemma_inserted(before: Seq<EpisodeMetadata>, i: int, episode: EpisodeMetadata)
    requires
        entries_in_order(before),
        0 <= i <= before.len(),
        entries_in_order(before.insert(i, episode)),
    ensures
        guide_of(before.insert(i, episode)) == guide_of(before).insert(
            episode_key(episode),
            episode,
        ),
{
    let after = before.insert(i, episode);
    lemma_guide_of(before);
    lemma_guide_of(after);
    let fresh = guide_of(after);
    let expected = guide_of(before).insert(episode_key(episode), episode);
    assert(after[i] == episode);
    assert forall|k: EpisodeKey| #[trigger] fresh.dom().contains(k) == expected.dom().contains(
        k,
    ) by {
        if fresh.dom().contains(k) {
            let a = choose|a: int| 0 <= a < after.len() && episode_key(#[trigger] after[a]) == k;
            if a < i {
                assert(episode_key(before[a]) == k);
            } else if a > i {
                assert(episode_key(before[a - 1]) == k);
            }
        }
        if guide_of(before).dom().contains(k) {
            let b = choose|b: int| 0 <= b < before.len() && episode_key(#[trigger] before[b]) == k;
            if b < i {
                assert(episode_key(after[b]) == k);
            } else {
                assert(episode_key(after[b + 1]) == k);
            }
        }
        assert(episode_key(after[i]) == episode_key(episode));
    }
    assert forall|k: EpisodeKey| fresh.dom().contains(k) implies #[trigger] fresh[k]
        == expected[k] by {
        let a = choose|a: int| 0 <= a < after.len() && episode_key(#[trigger] after[a]) == k;
        assert(fresh[episode_key(after[a])] == after[a]);
        if a < i {
            assert(guide_of(before)[episode_key(before[a])] == before[a]);
            assert(key_lt(episode_key(after[a]), episode_key(after[i])));
        } else if a > i {
            assert(guide_of(before)[episode_key(before[a - 1])] == before[a - 1]);
            assert(key_lt(episode_key(after[i]), episode_key(after[a])));
        }
    }
    assert(fresh =~= expected);
}

/// A file of season two or later is answered from an entry that states that
/// season, or not at all.
pub proof fn law_later_seasons_are_answered_by_themselves(
    guide: Map<EpisodeKey, EpisodeMetadata>,
    season: u32,
    number: u32,
)
    requires
        season != 1,
    ensures
        answer(guide, Some(season), number) == if guide.dom().contains((Some(season), number)) {
            Some(guide[(Some(season), number)])
        } else {
            None::<EpisodeMetadata>
        },
{
}

/// How a piece of art should be fitted into a tile.
#[derive(Debug, Clone, Copy, PartialEq, Eq, Structural)]
pub enum ArtShape {
    /// Roughly the tile's shape: crop to fill.
    Landscape,
    /// Taller than the tile: fit inside it, and leave the sides.
    Portrait,
}

/// What the catalog remembers about one title's metadata, including that there
/// was none.
#[derive(Debug, PartialEq, Eq)]
pub struct MetadataRecord {
    /// The key of the title this describes.
    pub title_key: String,
    /// The provider that was asked. Kept even on a miss, so switching provider
    /// re-asks rather than trusting the other one's silence.
    pub provider: ProviderId,
    /// `None` means the provider was asked and had nothing. That is a real
    /// answer and it is cached.
    pub metadata: Option<TitleMetadata>,
    /// Unix seconds. What makes a miss expire rather than being forever.
    pub fetched_at: i64,
    /// Whether the viewer chose this entry themselves, which no match run may
    /// undo.
    pub manual: bool,
}

/// A [`MetadataRecord`] with its strings taken as sequences of characters.
#[verifier::ext_equal]
pub struct MetadataRecordView {
    pub title_key: Seq<char>,
    pub provider: ProviderId,
    pub metadata: Option<TitleMetadataView>,
    pub fetched_at: i64,
    pub manual: bool,
}

impl View for MetadataRecord {
    type V = MetadataRecordView;

    open spec fn view(&self) -> MetadataRecordView {
        MetadataRecordView {
            title_key: self.title_key@,
            provider: self.provider,
            metadata: match self.metadata {
                Some(m) => Some(m@),
                None => None,
            },
            fetched_at: self.fetched_at,
            manual: self.manual,
        }
    }
}

impl Clone for MetadataRecord {
    fn clone(&self) -> (r: Self)
        ensures
            r@ == self@,
    {
        MetadataRecord {
            title_key: self.title_key.clone(),
            provider: self.provider,
            metadata: match &self.metadata {
                Some(m) => Some(m.clone()),
                None => None,
            },
            fetched_at: self.fetched_at,
            manual: self.manual,
        }
    }
}

/// How long a stored match is trusted, in seconds: artwork and ratings move.
pub const MATCH_TTL_SECS: i64 = 2_592_000;

/// How long a stored miss is trusted, in seconds. Far less than a match, or a
/// title the provider had not indexed yet stays blank for the life of the
/// install.
pub const MISS_TTL_SECS: i64 = 259_200;

/// The time from `then` to `now`, as far as 64 bits hold it.
pub open spec fn elapsed(now: i64, then: i64) -> int {
    if now - then > i64::MAX {
        i64::MAX as int
    } else if now - then < i64::MIN {
        i64::MIN as int
    } else {
        now - then
    }
}

/// Whether a stored answer is still worth using.
pub open spec fn still_fresh(record: MetadataRecordView, now: i64, provider: ProviderId) -> bool {
    &&& record.provider == provider
    &&& record.manual || elapsed(now, record.fetched_at) < if record.metadata is Some {
        MATCH_TTL_SECS
    } else {
        MISS_TTL_SECS
    }
}

impl MetadataRecord {
    /// Whether this answer is still worth using rather than asking again. One
    /// the viewer picked does not age.
    pub fn is_fresh(&self, now: i64, provider: ProviderId) -> (r: bool)
        ensures
            r == still_fresh(self@, now, provider),
    {
        if self.provider != provider {
            return false;
        }
        if self.manual {
            return true;
        }
        let ttl: i64 = if self.metadata.is_some() {
            MATCH_TTL_SECS
        } else {
            MISS_TTL_SECS
        };
        (now as i128) - (self.fetched_at as i128) < ttl as i128
    }
}

/// A match that the viewer picked never expires.
pub proof fn law_a_hand_picked_match_never_expires(record: MetadataRecordView, now: i64)
    requires
        record.manual,
    ensures
        still_fresh(record, now, record.provider),
{
}

/// Asking another provider never trusts this one's answer.
pub proof fn law_another_provider_is_asked_again(
    record: MetadataRecordView,
    now: i64,
    provider: ProviderId,
)
    requires
        record.provider != provider,
    ensures
        !still_fresh(record, now, provider),
{
}

/// A miss that is still trusted would still be trusted as a match: misses
/// expire first.
pub proof fn law_misses_expire_first(
    record: MetadataRecordView,
    found: TitleMetadataView,
    now: i64,
    provider: ProviderId,
)
    requires
        record.metadata is None,
        still_fresh(record, now, provider),
    ensures
        still_fresh(
            (MetadataRecordView { metadata: Some(found), ..record }),
            now,
            provider,
        ),
{
}

/// Whether to enrich, with what.
#[derive(Debug, PartialEq, Eq)]
pub struct MetadataConfig {
    /// Off until the viewer turns it on.
    pub enabled: bool,
    pub provider: ProviderId,
    /// As the provider wants it. Only TMDB uses it; AniList answers in romaji
    /// and English and the match picks between them.
    pub language: String,
}

impl Clone for MetadataConfig {
    fn clone(&self) -> (r: Self)
        ensures
            r == *self,
    {
        MetadataConfig {
            enabled: self.enabled,
            provider: self.provider,
            language: self.language.clone(),
        }
    }
}

impl Default for MetadataConfig {
    fn default() -> (r: Self)
        ensures
            !r.enabled,
            r.provider == ProviderId::AniList,
            r.language@ == "en"@,
    {
        MetadataConfig { enabled: false, provider: ProviderId::AniList, language: owned("en") }
    }
}

/// An answer is trusted for thirty days, and that there was none for three. From
/// then on the provider is asked again.
pub proof fn law_answers_are_trusted_for_a_while(record: MetadataRecordView, now: i64)
    requires
        !record.manual,
        0 <= record.fetched_at <= now,
    ensures
        record.metadata is Some ==> (still_fresh(record, now, record.provider) <==> now
            - record.fetched_at < 30 * 24 * 60 * 60),
        record.metadata is None ==> (still_fresh(record, now, record.provider) <==> now
            - record.fetched_at < 3 * 24 * 60 * 60),
{
}

/// Whether the episode at `i` is the last of a list with its season and number.
pub open spec fn is_last_listed(
    episodes: Seq<EpisodeMetadata>,
    i: int,
    season: Option<u32>,
    number: u32,
) -> bool {
    &&& 0 <= i < episodes.len()
    &&& episodes[i].season == season && episodes[i].number == number
    &&& forall|j: int|
        i < j < episodes.len() ==> !((#[trigger] episodes[j]).season == season
            && episodes[j].number == number)
}

/// Whether no episode of a list has this season and number.
pub open spec fn is_unlisted(
    episodes: Seq<EpisodeMetadata>,
    season: Option<u32>,
    number: u32,
) -> bool {
    forall|j: int|
        0 <= j < episodes.len() ==> !((#[trigger] episodes[j]).season == season
            && episodes[j].number == number)
}

proof fn lemma_guide_holds(
    episodes: Seq<EpisodeMetadata>,
    i: int,
    season: Option<u32>,
    number: u32,
)
    ensures
        is_last_listed(episodes, i, season, number) ==> guide_of(episodes).dom().contains(
            (season, number),
        ) && guide_of(episodes)[(season, number)] == episodes[i],
        is_unlisted(episodes, season, number) ==> !guide_of(episodes).dom().contains(
            (season, number),
        ),
    decreases episodes.len(),
{
    if episodes.len() > 0 {
        let front = episodes.drop_last();
        assert(episodes[episodes.len() - 1] == episodes.last());
        if is_unlisted(episodes, season, number) {
            assert(is_unlisted(front, season, number)) by {
                assert forall|j: int| 0 <= j < front.len() implies !((
                #[trigger] front[j]).season == season && front[j].number == number) by {
                    assert(front[j] == episodes[j]);
                }
            }
            lemma_guide_holds(front, i, season, number);
        }
        if is_last_listed(episodes, i, season, number) && i < front.len() {
            assert(is_last_listed(front, i, season, number)) by {
                assert(front[i] == episodes[i]);
                assert forall|j: int| i < j < front.len() implies !((
                #[trigger] front[j]).season == season && front[j].number == number) by {
                    assert(front[j] == episodes[j]);
                }
            }
            lemma_guide_holds(front, i, season, number);
        }
    }
}

/// What a guide answers, by the list it was made from. The episode of the very
/// season and number comes first. A file of season one, or of none, is then
/// answered by the provider's own count, and a file of no season by season one.
/// Nothing else answers.
pub proof fn law_the_guide_answers_by_season_and_number(
    episodes: Seq<EpisodeMetadata>,
    i: int,
    season: Option<u32>,
    number: u32,
)
    ensures
        is_last_listed(episodes, i, season, number) ==> answer(
            guide_of(episodes),
            season,
            number,
        ) == Some(episodes[i]),
        season == Some(1u32) && is_unlisted(episodes, season, number) && is_last_listed(
            episodes,
            i,
            None,
            number,
        ) ==> answer(guide_of(episodes), season, number) == Some(episodes[i]),
        season is None && is_unlisted(episodes, None, number) && is_last_listed(
            episodes,
            i,
            Some(1u32),
            number,
        ) ==> answer(guide_of(episodes), season, number) == Some(episodes[i]),
        is_unlisted(episodes, season, number) && is_unlisted(episodes, None, number)
            && is_unlisted(episodes, Some(1u32), number) ==> answer(
            guide_of(episodes),
            season,
            number,
        ) is None,
        season is Some && season != Some(1u32) && is_unlisted(episodes, season, number) ==> answer(
            guide_of(episodes),
            season,
            number,
        ) is None,
{
    lemma_guide_holds(episodes, i, season, number);
    lemma_guide_holds(episodes, i, None, number);
    lemma_guide_holds(episodes, i, Some(1u32), number);
}

} // verus!
