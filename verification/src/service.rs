//! Looking a title up, once, and remembering the answer.
//!
//! * **A miss is stored.** "The provider looked and had nothing" is an answer;
//!   without it every render of the grid asks again for every unmatched title.
//! * **A failure is not.** A timeout, a refusal or a missing key are failures to
//!   *ask*. Storing them as misses would blank a title for days over a minute of
//!   trouble, so they come back as they are and leave the title askable.

use vstd::prelude::*;

use crate::keys;
use crate::library;
use crate::library::Title;
use crate::library::TitleKind;
use crate::keys::title_key;
use crate::matching;
use crate::matching::Candidate;
use crate::matching::Query;
use crate::meta_error::Error;
use crate::metadata;
use crate::metadata::EpisodeMetadata;
use crate::metadata::MetadataConfig;
use crate::metadata::MetadataRecord;
use crate::metadata::ProviderId;
use crate::metadata::TitleMetadata;
use crate::naming;
use crate::naming_laws;
use crate::text;

verus! {

/// The configured provider, with what it takes to ask it.
#[derive(Debug, PartialEq, Eq)]
pub enum Source {
    AniList,
    Tmdb { api_key: String, language: String },
}

impl Clone for Source {
    fn clone(&self) -> (r: Self)
        ensures
            r == *self,
    {
        match self {
            Source::AniList => Source::AniList,
            Source::Tmdb { api_key, language } => Source::Tmdb {
                api_key: api_key.clone(),
                language: language.clone(),
            },
        }
    }
}

/// Metadata lookups, against one provider.
#[derive(Debug, PartialEq, Eq)]
pub struct MetadataService {
    pub source: Source,
}

impl Clone for MetadataService {
    fn clone(&self) -> (r: Self)
        ensures
            r == *self,
    {
        MetadataService { source: self.source.clone() }
    }
}

/// The query that a title in the library makes. Where nothing in its files
/// numbered itself, its kind came from counting them.
pub open spec fn asks_for(query: Query, title: Title) -> bool {
    &&& query.name@ == title.name@
    &&& query.year == title.year
    &&& query.kind == title.kind
    &&& query.kind_known == exists|i: int|
        0 <= i < title.all().len() && library::states_numbering(#[trigger] title.all()[i].node)
}

/// The query that a title in the library makes.
pub fn query_for(title: &Title) -> (r: Query)
    ensures
        asks_for(r, *title),
{
    let query = Query::new(title.name.as_str(), title.year, title.kind);
    if title.states_its_numbering() {
        query
    } else {
        query.with_guessed_kind()
    }
}

/// What the best of some candidates is: one that answers the query, or nothing
/// where none does.
pub open spec fn settled(query: Query, found: Seq<Candidate>, r: Option<TitleMetadata>) -> bool {
    match r {
        Some(chosen) => exists|i: int|
            matching::is_answer(query, found, i) && chosen == (#[trigger] found[i]).metadata,
        None => forall|i: int|
            0 <= i < found.len() ==> matching::ratio_lt(
                matching::score_of(query, #[trigger] found[i]),
                matching::floor(),
            ),
    }
}

impl MetadataService {
    /// Build a service for `config`. The key is only consulted for a provider
    /// that needs one.
    pub fn new(config: &MetadataConfig, api_key: Option<String>) -> (r: Result<Self, Error>)
        ensures
            match (config.provider, api_key) {
                (ProviderId::AniList, _) => r == Ok::<Self, Error>(
                    MetadataService { source: Source::AniList },
                ),
                (ProviderId::Tmdb, Some(key)) => r == Ok::<Self, Error>(
                    MetadataService {
                        source: Source::Tmdb { api_key: key, language: config.language },
                    },
                ),
                (ProviderId::Tmdb, None) => r == Err::<Self, Error>(
                    Error::MissingApiKey(ProviderId::Tmdb),
                ),
            },
    {
        match config.provider {
            ProviderId::AniList => Ok(MetadataService { source: Source::AniList }),
            ProviderId::Tmdb => match api_key {
                Some(key) => Ok(
                    MetadataService {
                        source: Source::Tmdb { api_key: key, language: config.language.clone() },
                    },
                ),
                None => Err(Error::MissingApiKey(ProviderId::Tmdb)),
            },
        }
    }

    pub open spec fn asked(self) -> ProviderId {
        match self.source {
            Source::AniList => ProviderId::AniList,
            Source::Tmdb { .. } => ProviderId::Tmdb,
        }
    }

    pub fn provider(&self) -> (r: ProviderId)
        ensures
            r == self.asked(),
    {
        match &self.source {
            Source::AniList => ProviderId::AniList,
            Source::Tmdb { .. } => ProviderId::Tmdb,
        }
    }

    /// Whether this provider files a sequel as its own entry, so that a title
    /// with several seasons has to be searched for once per season.
    ///
    /// AniList does, numbering each entry's episodes from one. TMDB files them
    /// as seasons of one show, and its episode list carries season numbers.
    pub fn splits_seasons(&self) -> (r: bool)
        ensures
            r == (self.asked() is AniList),
    {
        match &self.source {
            Source::AniList => true,
            Source::Tmdb { .. } => false,
        }
    }

    /// What the provider's candidates say of one title. `None` is a real answer:
    /// nothing matched well enough.
    pub fn lookup(&self, title: &Title, candidates: Vec<Candidate>) -> (r: Option<TitleMetadata>)
        ensures
            exists|query: Query|
                #[trigger] asks_for(query, *title) && settled(query, candidates@, r),
    {
        let query = query_for(title);
        let r = matching::best(&query, candidates);
        assert(asks_for(query, *title) && settled(query, candidates@, r));
        r
    }

    /// The same lookup, as a record ready to store: misses included, failures
    /// not.
    pub fn record(
        &self,
        title: &Title,
        outcome: Result<Vec<Candidate>, Error>,
        now: i64,
    ) -> (r: Result<MetadataRecord, Error>)
        ensures
            match outcome {
                Err(error) => r == Err::<MetadataRecord, Error>(error),
                Ok(candidates) => {
                    &&& r is Ok
                    &&& r->Ok_0.title_key@ == keys::title_key_of(title.name@)
                    &&& r->Ok_0.provider == self.asked()
                    &&& r->Ok_0.fetched_at == now
                    &&& !r->Ok_0.manual
                    &&& exists|query: Query|
                        #[trigger] asks_for(query, *title) && settled(
                            query,
                            candidates@,
                            r->Ok_0.metadata,
                        )
                },
            },
    {
        match outcome {
            Err(error) => Err(error),
            Ok(candidates) => {
                let metadata = self.lookup(title, candidates);
                Ok(
                    MetadataRecord {
                        title_key: title_key(title.name.as_str()),
                        provider: self.provider(),
                        metadata,
                        fetched_at: now,
                        manual: false,
                    },
                )
            },
        }
    }

    /// Everything the provider thinks a name might be, unscored and in its own
    /// order, for a viewer picking an entry by hand. The floor exists to stop
    /// the matcher guessing, and a person reading the list is not guessing.
    pub fn search(&self, candidates: Vec<Candidate>) -> (r: Vec<TitleMetadata>)
        ensures
            r@.len() == candidates@.len(),
            forall|i: int|
                0 <= i < r@.len() ==> #[trigger] r@[i] == candidates@[i].metadata,
    {
        let mut out: Vec<TitleMetadata> = Vec::new();
        for candidate in iter: candidates
            invariant
                iter.seq() == candidates@,
                out@.len() == iter.index(),
                forall|i: int|
                    0 <= i < iter.index() ==> #[trigger] out@[i] == iter.seq()[i].metadata,
        {
            out.push(candidate.metadata);
        }
        out
    }

    /// A record for an entry the viewer picked themselves. It is marked so, which
    /// keeps the next match run from undoing it.
    pub fn chosen(&self, title_key: String, found: TitleMetadata, now: i64) -> (r: MetadataRecord)
        ensures
            r == (MetadataRecord {
                title_key,
                provider: self.asked(),
                metadata: Some(found),
                fetched_at: now,
                manual: true,
            }),
    {
        MetadataRecord {
            title_key,
            provider: self.provider(),
            metadata: Some(found),
            fetched_at: now,
            manual: true,
        }
    }

    /// The next step of finding the episodes of one season of a title, for a
    /// provider that files each season separately.
    ///
    /// A second search, not a second guess: the title's own match is season
    /// one's entry, and asking it about episode one of season two would answer
    /// with episode one of season one. A miss is an empty list.
    pub fn season_step(&self, title: &Title, season: u32, event: SeasonEvent) -> (r: SeasonStep)
        ensures
            match event {
                SeasonEvent::Begin => if self.asked() is AniList {
                    r is Search && r->Search_0 == 0 && season_query(
                        r->Search_1,
                        *title,
                        season,
                        0,
                    )
                } else {
                    r is Done && r->Done_0@.len() == 0
                },
                SeasonEvent::Answered(term, candidates) => exists|query: Query|
                    #[trigger] season_query(query, *title, season, term as int) && match r {
                        SeasonStep::List(found) => settled(query, candidates@, Some(found)),
                        SeasonStep::Search(next, again) => {
                            &&& settled(query, candidates@, None)
                            &&& term == 0 && next == 1
                            &&& season_query(again, *title, season, 1)
                        },
                        SeasonStep::Done(episodes) => {
                            &&& settled(query, candidates@, None)
                            &&& term != 0
                            &&& episodes@.len() == 0
                        },
                    },
                SeasonEvent::Listed(episodes) => {
                    &&& r is Done
                    &&& r->Done_0@.len() == episodes@.len()
                    &&& forall|i: int|
                        0 <= i < episodes@.len() ==> #[trigger] r->Done_0@[i] == in_season(
                            episodes@[i],
                            season,
                        )
                },
            },
    {
        match event {
            SeasonEvent::Begin => if self.splits_seasons() {
                SeasonStep::Search(0, query_for_season(title, season, 0))
            } else {
                SeasonStep::Done(Vec::new())
            },
            SeasonEvent::Answered(term, candidates) => {
                let query = query_for_season(title, season, term);
                let best = matching::best(&query, candidates);
                assert(season_query(query, *title, season, term as int));
                assert(settled(query, candidates@, best));
                match best {
                    Some(found) => SeasonStep::List(found),
                    None => if term == 0 {
                        SeasonStep::Search(1, query_for_season(title, season, 1))
                    } else {
                        SeasonStep::Done(Vec::new())
                    },
                }
            },
            SeasonEvent::Listed(episodes) => SeasonStep::Done(tag_season(episodes, season)),
        }
    }
}

/// The query for a hand search. It takes no year, and its kind is a guess: the
/// library's own guesses are what went wrong. A blank name asks nothing.
pub fn hand_query(name: &str, kind: TitleKind) -> (r: Option<Query>)
    ensures
        text::trim(name@).len() == 0 ==> r is None,
        text::trim(name@).len() > 0 ==> {
            &&& r is Some
            &&& r->0.name@ == text::trim(name@)
            &&& r->0.year is None
            &&& r->0.kind == kind
            &&& !r->0.kind_known
        },
{
    let v = text::to_chars(name);
    let trimmed = text::trimmed(&v);
    if trimmed.len() == 0 {
        return None;
    }
    let name = text::from_chars(trimmed);
    Some(Query::new(name.as_str(), None, kind).with_guessed_kind())
}

/// What happened in a search for one season.
#[derive(Debug)]
pub enum SeasonEvent {
    /// Nothing yet.
    Begin,
    /// The term of this number was answered with these candidates.
    Answered(usize, Vec<Candidate>),
    /// The entry that was found lists these episodes.
    Listed(Vec<EpisodeMetadata>),
}

/// What to do next in a search for one season.
#[derive(Debug)]
pub enum SeasonStep {
    /// Ask for the term of this number.
    Search(usize, Query),
    /// Ask for the episodes of this entry.
    List(TitleMetadata),
    /// These are the season's episodes.
    Done(Vec<EpisodeMetadata>),
}

/// An episode filed under a season.
pub open spec fn in_season(episode: EpisodeMetadata, season: u32) -> EpisodeMetadata {
    EpisodeMetadata { season: Some(season), ..episode }
}

/// File episodes under a season. The entry numbers its own from one; what makes
/// them season two's is which entry they came from.
pub fn tag_season(episodes: Vec<EpisodeMetadata>, season: u32) -> (r: Vec<EpisodeMetadata>)
    ensures
        r@.len() == episodes@.len(),
        forall|i: int|
            0 <= i < r@.len() ==> #[trigger] r@[i] == in_season(episodes@[i], season),
{
    let mut out: Vec<EpisodeMetadata> = Vec::new();
    for episode in iter: episodes
        invariant
            iter.seq() == episodes@,
            out@.len() == iter.index(),
            forall|i: int|
                0 <= i < iter.index() ==> #[trigger] out@[i] == in_season(iter.seq()[i], season),
    {
        out.push(
            EpisodeMetadata {
                season: Some(season),
                number: episode.number,
                name: episode.name,
                overview: episode.overview,
                still_url: episode.still_url,
                air_date: episode.air_date,
            },
        );
    }
    out
}

/// The letters after a number that make it an English ordinal.
pub open spec fn ordinal_suffix(number: int) -> Seq<char> {
    if 11 <= number % 100 <= 13 {
        "th"@
    } else if number % 10 == 1 {
        "st"@
    } else if number % 10 == 2 {
        "nd"@
    } else if number % 10 == 3 {
        "rd"@
    } else {
        "th"@
    }
}

/// `2` → `2nd`. English ordinals, because that is what the provider writes.
pub fn ordinal(number: u32) -> (r: String)
    ensures
        r@ == text::decimal(number as nat) + ordinal_suffix(number as int),
{
    let suffix = if 11 <= number % 100 && number % 100 <= 13 {
        "th"
    } else if number % 10 == 1 {
        "st"
    } else if number % 10 == 2 {
        "nd"
    } else if number % 10 == 3 {
        "rd"
    } else {
        "th"
    };
    let digits = text::from_chars(&text::decimal_of(number as u64));
    text::joined(digits.as_str(), suffix)
}

/// What to search for when looking for one season of a series, best first.
pub open spec fn names_of_season(title: Seq<char>, season: u32) -> Seq<Seq<char>> {
    let digits = text::decimal(season as nat);
    seq![
        title + " "@ + (digits + ordinal_suffix(season as int)) + " Season"@,
        title + " Season "@ + digits,
    ]
}

/// What to search for when looking for one season of a series, best first.
///
/// `2nd Season` is AniList's own convention and matches its romaji titles;
/// `Season 2` is what its English titles and most western libraries use.
pub fn season_names(title: &str, season: u32) -> (r: Vec<String>)
    ensures
        text::texts(r@) == names_of_season(title@, season),
{
    let mut first = text::joined(title, " ");
    first.push_str(ordinal(season).as_str());
    first.push_str(" Season");
    let mut second = text::joined(title, " Season ");
    let digits = text::from_chars(&text::decimal_of(season as u64));
    second.push_str(digits.as_str());
    let mut r: Vec<String> = Vec::new();
    r.push(first);
    r.push(second);
    assert(text::texts(r@) =~= names_of_season(title@, season));
    r
}

/// Whether a query asks for a season by the term of this number; the second is
/// the last.
pub open spec fn season_query(query: Query, title: Title, season: u32, term: int) -> bool {
    &&& query.name@ == names_of_season(title.name@, season)[if term == 0 {
        0int
    } else {
        1int
    }]
    &&& query.year is None
    &&& query.kind == title.kind
    &&& query.kind_known
}

/// The query for a season, by the term of this number.
///
/// No year: a sequel airs years after the series the library named the folder
/// for.
fn query_for_season(title: &Title, season: u32, term: usize) -> (r: Query)
    ensures
        season_query(r, *title, season, term as int),
{
    let names = season_names(title.name.as_str(), season);
    assert(text::texts(names@).len() == 2);
    let at: usize = if term == 0 {
        0
    } else {
        1
    };
    assert(names@[at as int]@ == text::texts(names@)[at as int]);
    Query::new(names[at].as_str(), None, title.kind)
}

/// Whether a stored answer can be used as it is.
pub fn is_usable(record: Option<&MetadataRecord>, provider: ProviderId, now: i64) -> (r: bool)
    ensures
        r == match record {
            Some(record) => metadata::still_fresh(record@, now, provider),
            None => false,
        },
{
    match record {
        Some(record) => record.is_fresh(now, provider),
        None => false,
    }
}

/// The ordinal of a number ends in the letters that English has for its last
/// digit, but for the teens, which all end the same.
pub proof fn law_ordinals_go_by_the_last_digit(tens: nat, digit: nat)
    requires
        digit < 10,
    ensures
        ({
            let suffix = ordinal_suffix((tens * 10 + digit) as int);
            &&& tens % 10 == 1 ==> suffix == "th"@
            &&& tens % 10 != 1 && digit == 1 ==> suffix == "st"@
            &&& tens % 10 != 1 && digit == 2 ==> suffix == "nd"@
            &&& tens % 10 != 1 && digit == 3 ==> suffix == "rd"@
            &&& digit == 0 || digit > 3 ==> suffix == "th"@
        }),
{
    let n = tens * 10 + digit;
    assert(n % 10 == digit);
    assert(n % 100 == (tens % 10) * 10 + digit);
}

/// The characters of the name that a season is searched for under.
proof fn lemma_season_name(title: Seq<char>, season: u32, i: int)
    requires
        0 <= i < names_of_season(title, season)[1].len(),
    ensures
        ({
            let name = names_of_season(title, season)[1];
            let n = title.len() as int;
            &&& name.len() == n + 8 + text::decimal(season as nat).len()
            &&& i < n ==> name[i] == title[i]
            &&& i == n || i == n + 7 ==> name[i] == ' '
            &&& i == n + 1 ==> name[i] == 'S'
            &&& n + 1 < i < n + 7 ==> text::is_letter(name[i])
            &&& i >= n + 8 ==> text::is_digit(name[i])
        }),
{
    reveal_strlit(" Season ");
    let name = names_of_season(title, season)[1];
    let digits = text::decimal(season as nat);
    text::lemma_decimal_reads_back(season as nat);
    let n = title.len() as int;
    assert(name == title + " Season "@ + digits);
    if n <= i < n + 8 {
        assert(name[i] == " Season "@[i - n]);
    } else if i >= n + 8 {
        assert(name[i] == digits[i - n - 8]);
        assert(text::is_digit(digits[i - n - 8]));
    }
}

proof fn lemma_season_name_is_plain(title: Seq<char>, season: u32)
    requires
        naming_laws::without_digits(title),
        naming_laws::without_brackets(title),
        !title.contains('.'),
    ensures
        !names_of_season(title, season)[1].contains('.'),
        naming_laws::without_brackets(names_of_season(title, season)[1]),
        naming_laws::without_season_marks(names_of_season(title, season)[1]),
{
    let name = names_of_season(title, season)[1];
    let n = title.len() as int;
    if name.contains('.') {
        let i = choose|i: int| 0 <= i < name.len() && name[i] == '.';
        lemma_season_name(title, season, i);
        if i < n {
            assert(title.contains(title[i]));
        }
    }
    assert forall|i: int| 0 <= i < name.len() implies #[trigger] name[i] != '(' && name[i] != ')'
        && name[i] != '[' && name[i] != ']' by {
        lemma_season_name(title, season, i);
        if i < n {
            assert(title[i] != '(');
        }
    }
    assert forall|i: int| 0 <= i < name.len() - 1 implies !((#[trigger] name[i] == 's' || name[i]
        == 'S') && (i == 0 || !text::is_alnum(name[i - 1])) && text::is_digit(name[i + 1])) by {
        lemma_season_name(title, season, i);
        lemma_season_name(title, season, i + 1);
        if i + 1 < n {
            assert(!text::is_digit(title[i + 1]));
        }
    }
}

#[verifier::rlimit(40)]
proof fn lemma_season_word_stands_once(title: Seq<char>, season: u32, j: int)
    requires
        naming_laws::without_season_words(title + " "@),
        0 <= j <= title.len(),
    ensures
        !text::stands_at(text::lower(names_of_season(title, season)[1]), "season"@, j),
{
    reveal_strlit(" ");
    reveal_strlit("season");
    let name = names_of_season(title, season)[1];
    let before = title + " "@;
    let n = title.len() as int;
    let l = text::lower(name);
    if text::stands_at(l, "season"@, j) {
        lemma_season_name(title, season, n);
        if j + 6 <= n + 1 {
            assert(text::lower(before).subrange(j, j + 6) =~= l.subrange(j, j + 6)) by {
                assert forall|i: int| 0 <= i < 6 implies #[trigger] text::lower(before).subrange(
                    j,
                    j + 6,
                )[i] == l.subrange(j, j + 6)[i] by {
                    lemma_season_name(title, season, j + i);
                }
            }
            assert(text::stands_at(text::lower(before), "season"@, j));
        } else {
            // The space before the word would stand inside it.
            let k = n - j;
            assert(l.subrange(j, j + 6)[k] == l[n]);
            assert("season"@[k] != ' ');
        }
    }
}

/// How the name that a season is searched for under is put together.
proof fn lemma_season_name_parts(title: Seq<char>, season: u32)
    ensures
        names_of_season(title, season)[1] == title + " "@ + "Season"@ + " "@ + text::padded(
            season as nat,
            0,
        ) + Seq::<char>::empty(),
        text::lower("Season"@) == "season"@,
        " "@ == seq![' '],
{
    reveal_strlit(" Season ");
    reveal_strlit("Season");
    reveal_strlit("season");
    reveal_strlit(" ");
    assert(" "@ =~= seq![' ']);
    assert(text::lower("Season"@) =~= "season"@);
    assert(" Season "@ =~= " "@ + "Season"@ + " "@);
    assert(names_of_season(title, season)[1] =~= title + " "@ + "Season"@ + " "@ + text::padded(
        season as nat,
        0,
    ) + Seq::<char>::empty());
}

/// A season is searched for under a name that states it: what is asked for reads
/// back as that very season.
#[verifier::rlimit(40)]
pub proof fn law_a_season_is_searched_for_by_its_number(title: Seq<char>, season: u32)
    requires
        naming_laws::without_digits(title),
        naming_laws::without_brackets(title),
        naming_laws::without_season_words(title + " "@),
        !title.contains('.'),
        0 < season <= 9999,
    ensures
        naming::parsed(names_of_season(title, season)[1]).season == Some(season),
{
    let name = names_of_season(title, season)[1];
    let before = title + " "@;
    lemma_season_name_parts(title, season);
    lemma_season_name_is_plain(title, season);
    naming_laws::law_an_extension_is_short_and_lettered(title, name);
    naming_laws::law_a_plain_name_is_read_whole(name);
    lemma_short_decimal(season as nat);
    assert(before.last() == ' ');
    assert forall|j: int| 0 <= j < before.len() implies !#[trigger] text::stands_at(
        text::lower(name),
        "season"@,
        j,
    ) by {
        lemma_season_word_stands_once(title, season, j);
    }
    assert(naming_laws::is_leading(" "@));
    naming_laws::law_a_worded_season_is_read(
        name,
        before,
        "Season"@,
        " "@,
        season as nat,
        0,
        Seq::empty(),
    );
}

proof fn lemma_short_decimal(n: nat)
    requires
        n <= 9999,
    ensures
        text::decimal(n).len() <= 4,
{
    reveal_with_fuel(text::decimal, 5);
    assert(n / 10 / 10 / 10 < 10);
}

/// The episodes of a season that was searched for keep all they say and are
/// counted under that season.
pub proof fn law_a_season_is_put_on_its_episodes(episode: EpisodeMetadata, season: u32)
    ensures
        in_season(episode, season).season == Some(season),
        in_season(episode, season).number == episode.number,
        in_season(episode, season).name == episode.name,
        in_season(episode, season).overview == episode.overview,
        in_season(episode, season).still_url == episode.still_url,
        in_season(episode, season).air_date == episode.air_date,
{
}

/// What is asked of a provider is the title as it stands on the shelf: its name,
/// its year and its kind, which is known where a file of it is numbered and a
/// guess where none is.
pub proof fn law_a_query_asks_for_its_title(query: Query, title: Title, i: int)
    requires
        asks_for(query, title),
    ensures
        query.name@ == title.name@,
        query.year == title.year,
        query.kind == title.kind,
        0 <= i < title.all().len() && (title.all()[i].node.parsed.season is Some
            || title.all()[i].node.parsed.episode is Some) ==> query.kind_known,
        (forall|j: int|
            0 <= j < title.all().len() ==> (#[trigger] title.all()[j]).node.parsed.season is None
                && title.all()[j].node.parsed.episode is None) ==> !query.kind_known,
{
    if 0 <= i < title.all().len() && (title.all()[i].node.parsed.season is Some
        || title.all()[i].node.parsed.episode is Some) {
        assert(library::states_numbering(title.all()[i].node));
    }
}

/// A season is asked for by one of its two names, without a year, which is the
/// first season's.
pub proof fn law_a_season_query_names_no_year(
    query: Query,
    title: Title,
    season: u32,
    term: int,
)
    requires
        season_query(query, title, season, term),
    ensures
        query.year is None,
        query.kind == title.kind && query.kind_known,
        term == 0 ==> query.name@ == names_of_season(title.name@, season)[0],
        term != 0 ==> query.name@ == names_of_season(title.name@, season)[1],
        names_of_season(title.name@, season).len() == 2,
{
}

/// What a lookup settles on is the answer among the candidates, and that there is
/// none means that no candidate reaches seventy-two hundredths.
pub proof fn law_a_lookup_settles_on_the_answer(
    query: Query,
    found: Seq<Candidate>,
    r: Option<TitleMetadata>,
    i: int,
)
    requires
        settled(query, found, r),
        0 <= i < found.len(),
    ensures
        r is None ==> matching::score_of(query, found[i]).parts * 100 < matching::score_of(
            query,
            found[i],
        ).of * 72,
        r matches Some(chosen) ==> exists|k: int|
            #![trigger found[k]]
            0 <= k < found.len() && chosen == found[k].metadata && !matching::ratio_lt(
                matching::score_of(query, found[k]),
                matching::score_of(query, found[i]),
            ) && matching::score_of(query, found[k]).parts * 100 >= matching::score_of(
                query,
                found[k],
            ).of * 72,
{
    if let Some(chosen) = r {
        let k = choose|k: int|
            matching::is_answer(query, found, k) && chosen == (#[trigger] found[k]).metadata;
        assert(found[k].metadata == chosen);
    }
}

} // verus!
