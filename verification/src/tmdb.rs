//! What The Movie Database is asked, and what is made of its answers.
//!
//! Film and television, which is the coverage AniList does not have. The cost is
//! an API key.

use vstd::prelude::*;
use vstd::slice::slice_subrange;

use crate::anilist;
use crate::anilist::push_present;
use crate::library::TitleKind;
use crate::matching::Candidate;
use crate::meta_error::Error;
use crate::metadata::EpisodeMetadata;
use crate::metadata::ProviderId;
use crate::metadata::TitleMetadata;
use crate::metadata::TitleMetadataView;
use crate::text;

verus! {

/// How many seasons of episodes to ask for in one go. A show past that gets its
/// first twenty and no error.
pub const MAX_APPENDED_SEASONS: usize = 20;

/// Where artwork is served from, at a size.
pub open spec fn image_url(size: Seq<char>, path: Seq<char>) -> Seq<char> {
    "https://image.tmdb.org/t/p"@ + "/"@ + size + path
}

/// Where artwork is served from, at a size.
pub fn image(size: &str, path: &str) -> (r: String)
    ensures
        r@ == image_url(size@, path@),
{
    let mut r = text::joined("https://image.tmdb.org/t/p", "/");
    r.push_str(size);
    r.push_str(path);
    r
}

/// The artwork that a path names, where there is a path.
pub open spec fn image_at(size: Seq<char>, path: Option<Seq<char>>) -> Option<Seq<char>> {
    match path {
        Some(path) => Some(image_url(size, path)),
        None => None,
    }
}

fn optional_image(size: &str, path: &Option<String>) -> (r: Option<String>)
    ensures
        text::opt_chars(r) == image_at(size@, text::opt_chars(*path)),
{
    match path {
        Some(path) => Some(image(size, path.as_str())),
        None => None,
    }
}

/// The year that a date begins with.
pub open spec fn year_in(date: Option<Seq<char>>) -> Option<nat> {
    match date {
        Some(date) => if date.len() >= 4 {
            text::unsigned_value(date.take(4), u32::MAX as nat)
        } else {
            None
        },
        None => None,
    }
}

/// The year out of a `YYYY-MM-DD`, tolerating the empty string that stands for
/// "unknown" and anything else that is not a date.
pub fn year_of(date: Option<&str>) -> (r: Option<u32>)
    ensures
        anilist::opt_nat(r) == year_in(
            match date {
                Some(date) => Some(date@),
                None => None,
            },
        ),
{
    match date {
        Some(date) => {
            let v = text::to_chars(date);
            if v.len() < 4 {
                return None;
            }
            let front = slice_subrange(&v, 0, 4);
            assert(front@ =~= date@.take(4));
            text::parse_u32(front)
        },
        None => None,
    }
}

/// One search hit. The same field is called `name` on television and `title` on
/// film, and likewise for the dates, so both are optional.
#[derive(Debug, PartialEq, Eq)]
pub struct SearchResult {
    pub id: i64,
    pub media_type: Option<String>,
    pub name: Option<String>,
    pub title: Option<String>,
    pub original_name: Option<String>,
    pub original_title: Option<String>,
    pub overview: Option<String>,
    pub first_air_date: Option<String>,
    pub release_date: Option<String>,
    pub poster_path: Option<String>,
    pub backdrop_path: Option<String>,
    /// In thousandths of a point out of ten.
    pub vote_average: Option<u32>,
}

impl SearchResult {
    /// Whether this is a title at all: a search also returns people, who have
    /// neither a poster of a show nor a year.
    pub open spec fn names_a_title(self) -> bool {
        match self.media_type {
            Some(m) => m@ == "tv"@ || m@ == "movie"@,
            None => false,
        }
    }

    pub open spec fn titled_kind(self) -> TitleKind {
        match self.media_type {
            Some(m) => if m@ == "tv"@ {
                TitleKind::Series
            } else {
                TitleKind::Film
            },
            None => TitleKind::Film,
        }
    }

    pub open spec fn shown_name(self) -> Seq<char> {
        match text::either(text::opt_chars(self.name), text::opt_chars(self.title)) {
            Some(name) => name,
            None => "TMDB #"@ + text::integer(self.id as int),
        }
    }

    /// What this hit says of a title.
    pub open spec fn described(self) -> TitleMetadataView {
        let name = self.shown_name();
        let original = text::either(
            text::opt_chars(self.original_name),
            text::opt_chars(self.original_title),
        );
        TitleMetadataView {
            provider: ProviderId::Tmdb,
            remote_id: text::integer(self.id as int),
            name,
            original_name: if original == Some(name) {
                None
            } else {
                original
            },
            overview: text::non_empty(text::opt_chars(self.overview)),
            year: match year_in(
                text::either(
                    text::opt_chars(self.first_air_date),
                    text::opt_chars(self.release_date),
                ),
            ) {
                Some(year) => Some(year as u32),
                None => None,
            },
            kind: self.titled_kind(),
            poster_url: image_at("w500"@, text::opt_chars(self.poster_path)),
            backdrop_url: image_at("w780"@, text::opt_chars(self.backdrop_path)),
            rating: if self.vote_average == Some(0u32) {
                None
            } else {
                self.vote_average
            },
            genres: Seq::empty(),
            episodes: None,
            url: Some(
                "https://www.themoviedb.org/"@ + (if self.titled_kind() is Series {
                    "tv"@
                } else {
                    "movie"@
                }) + "/"@ + text::integer(self.id as int),
            ),
        }
    }

    /// Every name that the hit carries.
    pub open spec fn names(self) -> Seq<Seq<char>> {
        anilist::present(seq![text::opt_chars(self.name)]) + anilist::present(
            seq![text::opt_chars(self.title)],
        ) + anilist::present(seq![text::opt_chars(self.original_name)]) + anilist::present(
            seq![text::opt_chars(self.original_title)],
        )
    }

    /// Whether this is a title at all.
    pub fn is_title(&self) -> (r: bool)
        ensures
            r == self.names_a_title(),
    {
        match &self.media_type {
            Some(m) => text::same_text(m.as_str(), "tv") || text::same_text(m.as_str(), "movie"),
            None => false,
        }
    }

    /// The candidate that this hit is.
    ///
    /// A rating of zero means that nobody has voted. The search carries neither
    /// genres nor a number of episodes.
    pub fn into_candidate(self) -> (r: Candidate)
        ensures
            r.metadata@ == self.described(),
            text::texts(r.aliases@) == self.names(),
            r.kind_known,
    {
        let kind = match &self.media_type {
            Some(m) => if text::same_text(m.as_str(), "tv") {
                TitleKind::Series
            } else {
                TitleKind::Film
            },
            None => TitleKind::Film,
        };
        let id = text::from_chars(&text::integer_of(self.id));
        let name = match text::first_of(&self.name, &self.title) {
            Some(name) => name,
            None => text::joined("TMDB #", id.as_str()),
        };
        let original_name = match text::first_of(&self.original_name, &self.original_title) {
            Some(original) => if text::same_text(original.as_str(), name.as_str()) {
                None
            } else {
                Some(original)
            },
            None => None,
        };
        let mut aliases: Vec<String> = Vec::new();
        assert(text::texts(aliases@) =~= Seq::<Seq<char>>::empty());
        push_present(&mut aliases, &self.name);
        push_present(&mut aliases, &self.title);
        push_present(&mut aliases, &self.original_name);
        push_present(&mut aliases, &self.original_title);
        assert(text::texts(aliases@) =~= self.names());
        let date = text::first_of(&self.first_air_date, &self.release_date);
        let year = year_of(
            match &date {
                Some(date) => Some(date.as_str()),
                None => None,
            },
        );
        let poster_url = optional_image("w500", &self.poster_path);
        let backdrop_url = optional_image("w780", &self.backdrop_path);
        let rating = match self.vote_average {
            Some(rating) => if rating > 0 {
                Some(rating)
            } else {
                None
            },
            None => None,
        };
        let mut url = text::joined(
            "https://www.themoviedb.org/",
            match kind {
                TitleKind::Series => "tv",
                TitleKind::Film => "movie",
            },
        );
        url.push_str("/");
        url.push_str(id.as_str());
        let genres: Vec<String> = Vec::new();
        assert(text::texts(genres@) =~= Seq::<Seq<char>>::empty());
        let metadata = TitleMetadata {
            provider: ProviderId::Tmdb,
            remote_id: id,
            name,
            original_name,
            overview: text::non_empty_option(self.overview),
            year,
            kind,
            poster_url,
            backdrop_url,
            rating,
            genres,
            episodes: None,
            url: Some(url),
        };
        assert(metadata@ =~= self.described());
        Candidate { metadata, aliases, kind_known: true }
    }
}

/// The hits that are titles, in order.
pub open spec fn titles_among(results: Seq<SearchResult>) -> Seq<SearchResult>
    decreases results.len(),
{
    if results.len() == 0 {
        Seq::empty()
    } else if results.last().names_a_title() {
        titles_among(results.drop_last()).push(results.last())
    } else {
        titles_among(results.drop_last())
    }
}

/// Whether a candidate is what a hit becomes.
pub open spec fn comes_from(candidate: Candidate, result: SearchResult) -> bool {
    &&& candidate.metadata@ == result.described()
    &&& text::texts(candidate.aliases@) == result.names()
    &&& candidate.kind_known
}

/// The candidates among a page of hits, in its order.
pub fn candidates(results: Vec<SearchResult>) -> (r: Vec<Candidate>)
    ensures
        r@.len() == titles_among(results@).len(),
        forall|i: int|
            0 <= i < r@.len() ==> comes_from(#[trigger] r@[i], titles_among(results@)[i]),
{
    let mut out: Vec<Candidate> = Vec::new();
    for result in iter: results
        invariant
            iter.seq() == results@,
            out@.len() == titles_among(results@.take(iter.index() as int)).len(),
            forall|i: int|
                0 <= i < out@.len() ==> comes_from(
                    #[trigger] out@[i],
                    titles_among(results@.take(iter.index() as int))[i],
                ),
    {
        let ghost n = iter.index() as int;
        assert(results@.take(n + 1).drop_last() =~= results@.take(n));
        assert(results@.take(n + 1).last() == result);
        if result.is_title() {
            out.push(result.into_candidate());
        }
    }
    assert(results@.take(results@.len() as int) =~= results@);
    out
}

/// Whether there is a key to ask with.
pub fn check_key(api_key: &str) -> (r: Result<(), Error>)
    ensures
        r == (if text::trim(api_key@).len() == 0 {
            Err::<(), Error>(Error::MissingApiKey(ProviderId::Tmdb))
        } else {
            Ok(())
        }),
{
    let v = text::to_chars(api_key);
    if text::trimmed(&v).len() == 0 {
        Err(Error::MissingApiKey(ProviderId::Tmdb))
    } else {
        Ok(())
    }
}

/// The show to ask about for a title's episodes, where there is one.
pub open spec fn show_of(title: TitleMetadata) -> Option<int> {
    match title.kind {
        TitleKind::Series => text::signed_value(title.remote_id@),
        TitleKind::Film => None,
    }
}

/// The show to ask about for a title's episodes, where there is one.
///
/// Films have no episodes, and an id that is no number is not one that a search
/// returned.
pub fn show_id(title: &TitleMetadata) -> (r: Option<i64>)
    ensures
        match r {
            Some(id) => show_of(*title) == Some(id as int),
            None => show_of(*title) is None,
        },
{
    if title.kind != TitleKind::Series {
        return None;
    }
    let v = text::to_chars(title.remote_id.as_str());
    text::parse_i64(&v)
}

/// The seasons that are numbered, in order.
pub open spec fn numbered(seasons: Seq<u32>) -> Seq<u32> {
    seasons.filter(|n: u32| n > 0)
}

/// The seasons to ask for: as many of those that are numbered as one request
/// takes.
pub open spec fn asked_of(seasons: Seq<u32>) -> Seq<u32> {
    if numbered(seasons).len() > MAX_APPENDED_SEASONS {
        numbered(seasons).take(MAX_APPENDED_SEASONS as int)
    } else {
        numbered(seasons)
    }
}

/// The seasons to ask for.
///
/// Season zero is the bin for specials and recaps, which are not numbered the
/// way a release names them and would collide with the real season they sit
/// beside.
pub fn seasons_to_ask(seasons: &[u32]) -> (r: Vec<u32>)
    ensures
        r@ == asked_of(seasons@),
{
    let mut out: Vec<u32> = Vec::new();
    let mut i: usize = 0;
    let len: usize = seasons.len();
    let ghost keep = |n: u32| n > 0;
    assert(numbered(seasons@) =~= seasons@.filter(keep));
    proof {
        reveal(Seq::filter);
        assert(seasons@.take(0).filter(keep) =~= Seq::empty());
    }
    while i < len && out.len() < MAX_APPENDED_SEASONS
        invariant
            i <= len,
            len == seasons@.len(),
            keep == (|n: u32| n > 0),
            out@.len() <= MAX_APPENDED_SEASONS,
            out@ == seasons@.take(i as int).filter(keep),
        decreases len - i,
    {
        reveal(Seq::filter);
        assert(seasons@.take(i + 1).drop_last() =~= seasons@.take(i as int));
        assert(seasons@.take(i + 1).last() == seasons@[i as int]);
        if seasons[i] > 0 {
            out.push(seasons[i]);
        }
        i += 1;
    }
    proof {
        assert(seasons@ =~= seasons@.take(i as int) + seasons@.skip(i as int));
        Seq::filter_distributes_over_add(
            seasons@.take(i as int),
            seasons@.skip(i as int),
            keep,
        );
        if i == len {
            assert(seasons@.take(i as int) =~= seasons@);
        } else {
            assert(numbered(seasons@).take(MAX_APPENDED_SEASONS as int) =~= out@);
        }
    }
    out
}

/// The field that a season comes back under.
pub open spec fn season_field_of(number: u32) -> Seq<char> {
    "season/"@ + text::decimal(number as nat)
}

/// The field that a season comes back under.
pub fn season_field(number: u32) -> (r: String)
    ensures
        r@ == season_field_of(number),
{
    let digits = text::from_chars(&text::decimal_of(number as u64));
    text::joined("season/", digits.as_str())
}

/// What to append to a request to have these seasons come back with it.
pub open spec fn appended_of(numbers: Seq<u32>) -> Seq<char> {
    text::separated(Seq::new(numbers.len(), |i: int| season_field_of(numbers[i])), ","@)
}

/// What to append to a request to have these seasons come back with it.
pub fn appended(numbers: &[u32]) -> (r: String)
    ensures
        r@ == appended_of(numbers@),
{
    let mut fields: Vec<String> = Vec::new();
    let mut i: usize = 0;
    while i < numbers.len()
        invariant
            i <= numbers@.len(),
            fields@.len() == i,
            forall|k: int|
                0 <= k < i ==> (#[trigger] fields@[k])@ == season_field_of(numbers@[k]),
        decreases numbers.len() - i,
    {
        fields.push(season_field(numbers[i]));
        i += 1;
    }
    assert(text::texts(fields@) =~= Seq::new(
        numbers@.len(),
        |i: int| season_field_of(numbers@[i]),
    ));
    text::join_separated(&fields, ",")
}

/// One episode of a season, as it comes back.
#[derive(Debug, PartialEq, Eq)]
pub struct EpisodeRow {
    pub episode_number: u32,
    pub name: Option<String>,
    pub overview: Option<String>,
    pub still_path: Option<String>,
    pub air_date: Option<String>,
}

/// What a row of a season says of an episode.
pub open spec fn row_says(row: EpisodeRow, season: u32, episode: EpisodeMetadata) -> bool {
    &&& episode.season == Some(season)
    &&& episode.number == row.episode_number
    &&& text::opt_chars(episode.name) == text::non_empty(text::opt_chars(row.name))
    &&& text::opt_chars(episode.overview) == text::non_empty(text::opt_chars(row.overview))
    &&& text::opt_chars(episode.still_url) == image_at("w300"@, text::opt_chars(row.still_path))
    &&& text::opt_chars(episode.air_date) == text::non_empty(text::opt_chars(row.air_date))
}

/// The rows of every season that came back, each with its season.
pub open spec fn rows_of(seasons: Seq<(u32, Option<Vec<EpisodeRow>>)>) -> Seq<(u32, EpisodeRow)>
    decreases seasons.len(),
{
    if seasons.len() == 0 {
        Seq::empty()
    } else {
        let front = rows_of(seasons.drop_last());
        match seasons.last().1 {
            Some(rows) => front + Seq::new(rows@.len(), |i: int| (seasons.last().0, rows@[i])),
            None => front,
        }
    }
}

/// Whether `out` is what these rows say of their episodes, in order.
pub open spec fn rows_say(rows: Seq<(u32, EpisodeRow)>, out: Seq<EpisodeMetadata>) -> bool {
    &&& out.len() == rows.len()
    &&& forall|i: int| 0 <= i < out.len() ==> row_says(rows[i].1, rows[i].0, #[trigger] out[i])
}

/// The episodes of the seasons that came back, in order. A season that did not
/// come back is passed over.
pub fn episodes(seasons: &[(u32, Option<Vec<EpisodeRow>>)]) -> (r: Vec<EpisodeMetadata>)
    ensures
        rows_say(rows_of(seasons@), r@),
{
    let mut out: Vec<EpisodeMetadata> = Vec::new();
    let mut i: usize = 0;
    let len: usize = seasons.len();
    while i < len
        invariant
            i <= len,
            len == seasons@.len(),
            out@.len() == rows_of(seasons@.take(i as int)).len(),
            forall|k: int|
                0 <= k < out@.len() ==> row_says(
                    rows_of(seasons@.take(i as int))[k].1,
                    rows_of(seasons@.take(i as int))[k].0,
                    #[trigger] out@[k],
                ),
        decreases len - i,
    {
        assert(seasons@.take(i + 1).drop_last() =~= seasons@.take(i as int));
        assert(seasons@.take(i + 1).last() == seasons@[i as int]);
        let (number, rows) = &seasons[i];
        match rows {
            Some(rows) => {
                let ghost front = rows_of(seasons@.take(i as int));
                let ghost all = rows_of(seasons@.take(i + 1));
                let mut k: usize = 0;
                while k < rows.len()
                    invariant
                        k <= rows@.len(),
                        all == front + Seq::new(rows@.len(), |j: int| (*number, rows@[j])),
                        out@.len() == front.len() + k,
                        forall|j: int|
                            0 <= j < out@.len() ==> row_says(
                                all[j].1,
                                all[j].0,
                                #[trigger] out@[j],
                            ),
                    decreases rows.len() - k,
                {
                    let row = &rows[k];
                    out.push(
                        EpisodeMetadata {
                            season: Some(*number),
                            number: row.episode_number,
                            name: text::non_empty_option(text::copy_option(&row.name)),
                            overview: text::non_empty_option(text::copy_option(&row.overview)),
                            still_url: optional_image("w300", &row.still_path),
                            air_date: text::non_empty_option(text::copy_option(&row.air_date)),
                        },
                    );
                    assert(all[out@.len() - 1] == (*number, rows@[k as int]));
                    k += 1;
                }
            },
            None => {},
        }
        i += 1;
    }
    assert(seasons@.take(len as int) =~= seasons@);
    out
}

/// What has been learned of a title's episodes so far.
#[derive(Debug, PartialEq, Eq)]
pub enum EpisodesEvent {
    Begin,
    /// The numbers of the seasons that the show has.
    Listed(Vec<u32>),
    /// The seasons asked for, each with the rows that came back under its field.
    Detailed(Vec<(u32, Option<Vec<EpisodeRow>>)>),
}

/// What to ask next about a title's episodes.
#[derive(Debug, PartialEq, Eq)]
pub enum EpisodesStep {
    /// Ask for the show, to learn which seasons there are.
    AskShow(i64),
    /// Ask for the show again, with the text appended, to have these seasons come
    /// back with it.
    AskSeasons(i64, Vec<u32>, String),
    /// These are the episodes.
    Done(Vec<EpisodeMetadata>),
}

/// What to ask next about a title's episodes: the show, to learn which seasons
/// exist, and then those seasons appended onto one more request.
///
/// Appending is why there are two requests rather than one per season: a
/// five-season show costs the same as a one-season show.
pub fn episodes_step(title: &TitleMetadata, event: EpisodesEvent) -> (r: EpisodesStep)
    ensures
        match event {
            EpisodesEvent::Begin => match show_of(*title) {
                Some(id) => r matches EpisodesStep::AskShow(x) && x == id,
                None => r matches EpisodesStep::Done(list) && list@.len() == 0,
            },
            EpisodesEvent::Listed(seasons) => {
                if show_of(*title) is None || asked_of(seasons@).len() == 0 {
                    r matches EpisodesStep::Done(list) && list@.len() == 0
                } else {
                    r matches EpisodesStep::AskSeasons(id, numbers, append) && {
                        &&& show_of(*title) == Some(id as int)
                        &&& numbers@ == asked_of(seasons@)
                        &&& append@ == appended_of(numbers@)
                    }
                }
            },
            EpisodesEvent::Detailed(seasons) => r matches EpisodesStep::Done(list) && rows_say(
                rows_of(seasons@),
                list@,
            ),
        },
{
    match event {
        EpisodesEvent::Begin => match show_id(title) {
            Some(id) => EpisodesStep::AskShow(id),
            None => EpisodesStep::Done(Vec::new()),
        },
        EpisodesEvent::Listed(seasons) => match show_id(title) {
            Some(id) => {
                let numbers = seasons_to_ask(&seasons);
                if numbers.len() == 0 {
                    EpisodesStep::Done(Vec::new())
                } else {
                    let append = appended(&numbers);
                    EpisodesStep::AskSeasons(id, numbers, append)
                }
            },
            None => EpisodesStep::Done(Vec::new()),
        },
        EpisodesEvent::Detailed(seasons) => EpisodesStep::Done(episodes(&seasons)),
    }
}

/// The year of a date is the four digits that it begins with.
pub proof fn law_a_date_begins_with_its_year(year: nat, rest: Seq<char>)
    requires
        1000 <= year <= 9999,
    ensures
        year_in(Some(text::decimal(year) + rest)) == Some(year),
{
    let digits = text::decimal(year);
    text::lemma_decimal_reads_back(year);
    reveal_with_fuel(text::decimal, 5);
    assert(year / 10 / 10 / 10 < 10);
    assert(year / 10 / 10 >= 10);
    assert(digits.len() == 4);
    assert((digits + rest).take(4) =~= digits);
    assert(text::is_digit(digits[0]));
    assert(text::unsigned_digits(digits) == Some(digits));
}

/// A candidate answers for the result it came from: the name of a series or else
/// that of a film, the year of the first airing or else of the release, its art,
/// its page, and its rating unless nobody voted.
pub proof fn law_a_candidate_answers_for_its_result(result: SearchResult)
    ensures
        result.described().provider is Tmdb,
        result.described().remote_id == text::integer(result.id as int),
        result.name matches Some(name) ==> result.described().name == name@,
        result.name is None ==> (result.title matches Some(title) ==> result.described().name
            == title@),
        result.described().original_name matches Some(name) ==> name != result.described().name,
        result.original_name matches Some(name) ==> name@ == result.described().name
            || result.described().original_name == Some(name@),
        result.media_type matches Some(m) ==> (result.described().kind is Series <==> m@ == "tv"@),
        result.media_type is None ==> result.described().kind is Film,
        result.first_air_date matches Some(date) ==> (result.described().year matches Some(year)
            ==> year_in(Some(date@)) == Some(year as nat)),
        result.first_air_date is None && result.release_date is None ==> result.described().year
            is None,
        result.vote_average matches Some(votes) ==> (votes > 0 ==> result.described().rating
            == Some(votes)) && (votes == 0 ==> result.described().rating is None),
        result.vote_average is None ==> result.described().rating is None,
        result.poster_path matches Some(path) ==> result.described().poster_url == Some(
            "https://image.tmdb.org/t/p"@ + "/"@ + "w500"@ + path@,
        ),
        result.poster_path is None ==> result.described().poster_url is None,
        result.backdrop_path matches Some(path) ==> result.described().backdrop_url == Some(
            "https://image.tmdb.org/t/p"@ + "/"@ + "w780"@ + path@,
        ),
        result.backdrop_path is None ==> result.described().backdrop_url is None,
        result.overview matches Some(text) ==> (text@.len() > 0 ==> result.described().overview
            == Some(text@)),
{
}

/// Only films and series are candidates, all of them, in the order they came in:
/// a person is not a title.
pub proof fn law_only_titles_are_candidates(results: Seq<SearchResult>)
    ensures
        titles_among(results) == results.filter(
            |result: SearchResult|
                result.media_type matches Some(m) && (m@ == "tv"@ || m@ == "movie"@),
        ),
    decreases results.len(),
{
    reveal(Seq::filter);
    let keep = |result: SearchResult|
        result.media_type matches Some(m) && (m@ == "tv"@ || m@ == "movie"@);
    if results.len() > 0 {
        law_only_titles_are_candidates(results.drop_last());
        assert(keep(results.last()) == results.last().names_a_title());
    } else {
        assert(results.filter(keep) =~= titles_among(results));
    }
}

/// The seasons that are asked about are the numbered ones, in order and each as it
/// is listed, up to twenty of them; the specials are not asked about.
pub proof fn law_numbered_seasons_are_asked_about(seasons: Seq<u32>, season: u32)
    ensures
        asked_of(seasons).len() <= 20,
        asked_of(seasons).contains(season) ==> season > 0 && seasons.contains(season),
        asked_of(seasons) == seasons.filter(|n: u32| n > 0) || asked_of(seasons).len() == 20
            && asked_of(seasons) == seasons.filter(|n: u32| n > 0).take(20),
{
    let all = numbered(seasons);
    assert(all == seasons.filter(|n: u32| n > 0));
    if asked_of(seasons).contains(season) {
        let k = choose|k: int| 0 <= k < asked_of(seasons).len() && asked_of(seasons)[k] == season;
        assert(all[k] == season);
        assert(all.contains(season));
        lemma_filtered(seasons, season);
    }
}

proof fn lemma_filtered(seasons: Seq<u32>, season: u32)
    requires
        seasons.filter(|n: u32| n > 0).contains(season),
    ensures
        season > 0,
        seasons.contains(season),
    decreases seasons.len(),
{
    reveal(Seq::filter);
    let keep = |n: u32| n > 0;
    let all = seasons.filter(keep);
    let k = choose|k: int| 0 <= k < all.len() && all[k] == season;
    if seasons.len() > 0 {
        let front = seasons.drop_last();
        if k < front.filter(keep).len() {
            assert(front.filter(keep)[k] == season);
            lemma_filtered(front, season);
            let j = choose|j: int| 0 <= j < front.len() && front[j] == season;
            assert(seasons[j] == season);
        } else {
            assert(seasons[seasons.len() - 1] == season);
        }
    }
}

/// Every episode that a season lists is a row of that season, in the order of the
/// seasons and of the lists, and a season without a list has none.
pub proof fn law_every_listed_episode_is_a_row(
    seasons: Seq<(u32, Option<Vec<EpisodeRow>>)>,
    number: u32,
    list: Vec<EpisodeRow>,
    i: int,
)
    ensures
        ({
            let more = rows_of(seasons.push((number, Some(list))));
            &&& more.len() == rows_of(seasons).len() + list@.len()
            &&& more.take(rows_of(seasons).len() as int) == rows_of(seasons)
            &&& 0 <= i < list@.len() ==> more[rows_of(seasons).len() + i] == (number, list@[i])
        }),
        rows_of(seasons.push((number, None))) == rows_of(seasons),
        rows_of(Seq::<(u32, Option<Vec<EpisodeRow>>)>::empty()).len() == 0,
{
    let some = seasons.push((number, Some(list)));
    let none = seasons.push((number, None));
    assert(some.drop_last() =~= seasons);
    assert(none.drop_last() =~= seasons);
    let more = rows_of(some);
    assert(more.take(rows_of(seasons).len() as int) =~= rows_of(seasons));
}

/// Every name that a result has is one to be matched by.
pub proof fn law_every_name_of_a_result_counts(result: SearchResult)
    ensures
        result.name matches Some(name) ==> result.names().contains(name@),
        result.title matches Some(title) ==> result.names().contains(title@),
        result.original_name matches Some(name) ==> result.names().contains(name@),
        result.original_title matches Some(title) ==> result.names().contains(title@),
{
    reveal_with_fuel(anilist::present, 2);
    let a = anilist::present(seq![text::opt_chars(result.name)]);
    let b = anilist::present(seq![text::opt_chars(result.title)]);
    let c = anilist::present(seq![text::opt_chars(result.original_name)]);
    let d = anilist::present(seq![text::opt_chars(result.original_title)]);
    let all = result.names();
    if let Some(name) = result.name {
        assert(a =~= seq![name@]);
        assert(all[0] == name@);
    }
    if let Some(title) = result.title {
        assert(b =~= seq![title@]);
        assert(all[a.len() as int] == title@);
    }
    if let Some(name) = result.original_name {
        assert(c =~= seq![name@]);
        assert(all[(a.len() + b.len()) as int] == name@);
    }
    if let Some(title) = result.original_title {
        assert(d =~= seq![title@]);
        assert(all[(a.len() + b.len() + c.len()) as int] == title@);
    }
}

/// An episode says what its row says, in its season and under its number; what the
/// row leaves empty it does not say at all.
pub proof fn law_an_episode_says_what_its_row_says(
    row: EpisodeRow,
    season: u32,
    episode: EpisodeMetadata,
)
    requires
        row_says(row, season, episode),
    ensures
        episode.season == Some(season),
        episode.number == row.episode_number,
        row.name matches Some(name) ==> (name@.len() > 0 ==> text::opt_chars(episode.name) == Some(
            name@,
        )) && (name@.len() == 0 ==> episode.name is None),
        row.overview matches Some(overview) ==> (overview@.len() > 0 ==> text::opt_chars(
            episode.overview,
        ) == Some(overview@)),
        row.still_path matches Some(path) ==> text::opt_chars(episode.still_url) == Some(
            "https://image.tmdb.org/t/p"@ + "/"@ + "w300"@ + path@,
        ),
        row.still_path is None ==> episode.still_url is None,
        row.air_date matches Some(date) ==> (date@.len() > 0 ==> text::opt_chars(episode.air_date)
            == Some(date@)),
{
}

/// Each season is asked for in a field of its own, by its number.
pub proof fn law_a_season_has_a_field_of_its_own(number: u32, other: u32)
    ensures
        season_field_of(number).take(7) == "season/"@,
        season_field_of(number).skip(7) == text::decimal(number as nat),
        season_field_of(number) == season_field_of(other) <==> number == other,
{
    reveal_strlit("season/");
    assert(season_field_of(number).take(7) =~= "season/"@);
    assert(season_field_of(number).skip(7) =~= text::decimal(number as nat));
    assert(season_field_of(other).skip(7) =~= text::decimal(other as nat));
    text::lemma_decimal_reads_back(number as nat);
    text::lemma_decimal_reads_back(other as nat);
}

} // verus!
