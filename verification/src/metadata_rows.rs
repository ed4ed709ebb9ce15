//! A provider's answers as they are stored.
//!
//! A miss is stored too: storing only matches would leave every unmatched title
//! asking again on every render. A row that names a provider this build does not
//! know reads as no answer, which is a re-match and not a failure.

use vstd::prelude::*;
use vstd::slice::slice_subrange;

use crate::library::TitleKind;
use crate::metadata;
use crate::metadata::EpisodeMetadata;
use crate::metadata::MetadataRecord;
use crate::metadata::ProviderId;
use crate::metadata::TitleMetadata;
use crate::text;

verus! {

/// The season that stands for no season at all.
pub const ABSOLUTE_SEASON: i64 = -1;

/// The stored name of a kind.
pub open spec fn kind_text(kind: TitleKind) -> Seq<char> {
    match kind {
        TitleKind::Series => "series"@,
        TitleKind::Film => "film"@,
    }
}

/// The kind that a stored name is. Anything but `series` reads as a film,
/// including a value from a newer build: the kind only chooses a badge.
pub open spec fn kind_in(name: Option<Seq<char>>) -> TitleKind {
    if name == Some("series"@) {
        TitleKind::Series
    } else {
        TitleKind::Film
    }
}

pub fn kind_name(kind: TitleKind) -> (r: &'static str)
    ensures
        r@ == kind_text(kind),
{
    match kind {
        TitleKind::Series => "series",
        TitleKind::Film => "film",
    }
}

pub fn parse_kind(name: Option<&str>) -> (r: TitleKind)
    ensures
        r == kind_in(
            match name {
                Some(name) => Some(name@),
                None => None,
            },
        ),
{
    match name {
        Some(name) => if text::same_text(name, "series") {
            TitleKind::Series
        } else {
            TitleKind::Film
        },
        None => TitleKind::Film,
    }
}

// ---------------------------------------------------------------------------
// Lines
// ---------------------------------------------------------------------------

/// A line without the carriage return before its line feed.
pub open spec fn without_return(line: Seq<char>) -> Seq<char> {
    if line.len() > 0 && line.last() == '\r' {
        line.drop_last()
    } else {
        line
    }
}

/// The lines of a text that say anything. A line ends at a line feed, with a
/// carriage return before it or without; the last needs no ending.
pub open spec fn stated_lines(s: Seq<char>) -> Seq<Seq<char>>
    decreases s.len(),
{
    match text::first_index(s, '\n') {
        Some(k) => if 0 <= k < s.len() {
            let line = without_return(s.take(k));
            let rest = stated_lines(s.skip(k + 1));
            if line.len() > 0 {
                seq![line] + rest
            } else {
                rest
            }
        } else {
            Seq::empty()
        },
        None => if s.len() > 0 {
            seq![s]
        } else {
            Seq::empty()
        },
    }
}

/// The lines of a text that say anything.
pub fn read_lines(s: &str) -> (r: Vec<String>)
    ensures
        text::texts(r@) == stated_lines(s@),
{
    let v = text::to_chars(s);
    let len: usize = v.len();
    let mut out: Vec<String> = Vec::new();
    let mut start: usize = 0;
    assert(v@.skip(0) =~= v@);
    assert(text::texts(out@) =~= Seq::<Seq<char>>::empty());
    assert(text::texts(out@) + stated_lines(v@) =~= stated_lines(v@));
    loop
        invariant_except_break
            stated_lines(v@) == text::texts(out@) + stated_lines(v@.skip(start as int)),
        invariant
            len == v@.len(),
            start <= len,
        ensures
            stated_lines(v@) == text::texts(out@),
        decreases len - start,
    {
        let rest = slice_subrange(&v, start, len);
        assert(rest@ =~= v@.skip(start as int));
        let ghost before = text::texts(out@);
        proof {
            text::lemma_first_from(0, rest@.len() as int, text::holds_char(rest@, '\n'));
        }
        match text::first_index_of(rest, '\n') {
            None => {
                if rest.len() > 0 {
                    out.push(text::from_chars(rest));
                    assert(text::texts(out@) =~= before + seq![rest@]);
                } else {
                    assert(before + Seq::<Seq<char>>::empty() =~= before);
                }
                break;
            },
            Some(k) => {
                let end: usize = if k > 0 && rest[k - 1] == '\r' {
                    k - 1
                } else {
                    k
                };
                let line = slice_subrange(rest, 0, end);
                assert(line@ =~= without_return(rest@.take(k as int)));
                assert(rest@.skip(k + 1) =~= v@.skip(start + k + 1));
                if line.len() > 0 {
                    out.push(text::from_chars(line));
                    assert(text::texts(out@) =~= before + seq![line@]);
                    assert(before + (seq![line@] + stated_lines(rest@.skip(k + 1))) =~= text::texts(
                        out@,
                    ) + stated_lines(rest@.skip(k + 1)));
                }
                start = start + k + 1;
            },
        }
    }
    out
}

// ---------------------------------------------------------------------------
// Titles
// ---------------------------------------------------------------------------

/// One row of the table of titles.
#[derive(Debug, PartialEq, Eq)]
pub struct MetadataRow {
    pub provider: String,
    pub matched: bool,
    pub fetched_at: i64,
    pub remote_id: Option<String>,
    pub name: Option<String>,
    pub original_name: Option<String>,
    pub overview: Option<String>,
    pub year: Option<u32>,
    pub kind: Option<String>,
    pub poster_url: Option<String>,
    pub backdrop_url: Option<String>,
    /// In thousandths of a point out of ten.
    pub rating: Option<u32>,
    pub genres: Option<String>,
    pub episodes: Option<u32>,
    pub url: Option<String>,
    pub manual: bool,
}

/// A text, empty where there is none.
pub open spec fn or_empty(s: Option<Seq<char>>) -> Seq<char> {
    match s {
        Some(s) => s,
        None => Seq::empty(),
    }
}

fn copy_or_empty(s: &Option<String>) -> (r: String)
    ensures
        r@ == or_empty(text::opt_chars(*s)),
{
    match s {
        Some(s) => s.clone(),
        None => {
            let r = String::new();
            assert(r@ =~= Seq::<char>::empty());
            r
        },
    }
}

/// What a row of a title says of it.
pub open spec fn row_metadata(
    row: MetadataRow,
    provider: ProviderId,
) -> metadata::TitleMetadataView {
    metadata::TitleMetadataView {
        provider,
        remote_id: or_empty(text::opt_chars(row.remote_id)),
        name: or_empty(text::opt_chars(row.name)),
        original_name: text::opt_chars(row.original_name),
        overview: text::opt_chars(row.overview),
        year: row.year,
        kind: kind_in(text::opt_chars(row.kind)),
        poster_url: text::opt_chars(row.poster_url),
        backdrop_url: text::opt_chars(row.backdrop_url),
        rating: row.rating,
        genres: stated_lines(or_empty(text::opt_chars(row.genres))),
        episodes: row.episodes,
        url: text::opt_chars(row.url),
    }
}

/// The answer that a row holds; none, where its provider is not one that this
/// build knows.
pub open spec fn row_answer(title_key: Seq<char>, row: MetadataRow) -> Option<
    metadata::MetadataRecordView,
> {
    match metadata::provider_named(row.provider@) {
        None => None,
        Some(provider) => Some(
            metadata::MetadataRecordView {
                title_key,
                provider,
                metadata: if row.matched {
                    Some(row_metadata(row, provider))
                } else {
                    None
                },
                fetched_at: row.fetched_at,
                manual: row.manual,
            },
        ),
    }
}

/// An answer as the contract sees it.
pub open spec fn answer_view(record: Option<MetadataRecord>) -> Option<
    metadata::MetadataRecordView,
> {
    match record {
        Some(record) => Some(record@),
        None => None,
    }
}

/// The answer that a row holds.
pub fn row_to_metadata(title_key: &str, row: &MetadataRow) -> (r: Option<MetadataRecord>)
    ensures
        answer_view(r) == row_answer(title_key@, *row),
{
    let provider = match ProviderId::parse(row.provider.as_str()) {
        Some(provider) => provider,
        None => {
            return None;
        },
    };
    let metadata = if row.matched {
        let genres = copy_or_empty(&row.genres);
        let kind = parse_kind(
            match &row.kind {
                Some(kind) => Some(kind.as_str()),
                None => None,
            },
        );
        let found = TitleMetadata {
            provider,
            remote_id: copy_or_empty(&row.remote_id),
            name: copy_or_empty(&row.name),
            original_name: text::copy_option(&row.original_name),
            overview: text::copy_option(&row.overview),
            year: row.year,
            kind,
            poster_url: text::copy_option(&row.poster_url),
            backdrop_url: text::copy_option(&row.backdrop_url),
            rating: row.rating,
            genres: read_lines(genres.as_str()),
            episodes: row.episodes,
            url: text::copy_option(&row.url),
        };
        assert(found@ =~= row_metadata(*row, provider));
        Some(found)
    } else {
        None
    };
    Some(
        MetadataRecord {
            title_key: text::owned(title_key),
            provider,
            metadata,
            fetched_at: row.fetched_at,
            manual: row.manual,
        },
    )
}

/// Whether a row is what an answer is stored as.
pub open spec fn stores(row: MetadataRow, record: metadata::MetadataRecordView) -> bool {
    &&& row.provider@ == metadata::provider_name(record.provider)
    &&& row.matched == (record.metadata is Some)
    &&& row.fetched_at == record.fetched_at
    &&& row.manual == record.manual
    &&& match record.metadata {
        None => {
            &&& row.remote_id is None && row.name is None && row.original_name is None
            &&& row.overview is None && row.year is None && row.kind is None
            &&& row.poster_url is None && row.backdrop_url is None && row.rating is None
            &&& row.genres is None && row.episodes is None && row.url is None
        },
        Some(data) => {
            &&& text::opt_chars(row.remote_id) == Some(data.remote_id)
            &&& text::opt_chars(row.name) == Some(data.name)
            &&& text::opt_chars(row.original_name) == data.original_name
            &&& text::opt_chars(row.overview) == data.overview
            &&& row.year == data.year
            &&& text::opt_chars(row.kind) == Some(kind_text(data.kind))
            &&& text::opt_chars(row.poster_url) == data.poster_url
            &&& text::opt_chars(row.backdrop_url) == data.backdrop_url
            &&& row.rating == data.rating
            &&& text::opt_chars(row.genres) == Some(text::separated(data.genres, "\n"@))
            &&& row.episodes == data.episodes
            &&& text::opt_chars(row.url) == data.url
        },
    }
}

/// The row that an answer is stored as.
pub fn metadata_to_row(record: &MetadataRecord) -> (r: MetadataRow)
    ensures
        stores(r, record@),
{
    let provider = text::owned(record.provider.as_str());
    match &record.metadata {
        None => MetadataRow {
            provider,
            matched: false,
            fetched_at: record.fetched_at,
            remote_id: None,
            name: None,
            original_name: None,
            overview: None,
            year: None,
            kind: None,
            poster_url: None,
            backdrop_url: None,
            rating: None,
            genres: None,
            episodes: None,
            url: None,
            manual: record.manual,
        },
        Some(data) => MetadataRow {
            provider,
            matched: true,
            fetched_at: record.fetched_at,
            remote_id: Some(data.remote_id.clone()),
            name: Some(data.name.clone()),
            original_name: text::copy_option(&data.original_name),
            overview: text::copy_option(&data.overview),
            year: data.year,
            kind: Some(text::owned(kind_name(data.kind))),
            poster_url: text::copy_option(&data.poster_url),
            backdrop_url: text::copy_option(&data.backdrop_url),
            rating: data.rating,
            genres: Some(text::join_separated(&data.genres, "\n")),
            episodes: data.episodes,
            url: text::copy_option(&data.url),
            manual: record.manual,
        },
    }
}

/// Whether a list of genres survives being stored as lines: each says something,
/// none holds a line feed, and none but the last ends in a carriage return.
pub open spec fn storable(genres: Seq<Seq<char>>) -> bool {
    &&& forall|i: int|
        0 <= i < genres.len() ==> (#[trigger] genres[i]).len() > 0 && !genres[i].contains('\n')
    &&& forall|i: int| 0 <= i < genres.len() - 1 ==> (#[trigger] genres[i]).last() != '\r'
}

proof fn lemma_separated_front(parts: Seq<Seq<char>>, separator: Seq<char>)
    requires
        parts.len() >= 2,
    ensures
        text::separated(parts, separator) == parts[0] + separator + text::separated(
            parts.skip(1),
            separator,
        ),
    decreases parts.len(),
{
    reveal_with_fuel(text::separated, 2);
    let front = parts.drop_last();
    if parts.len() == 2 {
        assert(front[0] == parts[0]);
        assert(parts.skip(1)[0] == parts[1]);
        assert(parts.last() == parts[1]);
    } else {
        lemma_separated_front(front, separator);
        assert(parts.skip(1).drop_last() =~= front.skip(1));
        assert(parts.skip(1).last() == parts.last());
    }
    assert(text::separated(parts, separator) =~= parts[0] + separator + text::separated(
        parts.skip(1),
        separator,
    ));
}

proof fn lemma_lines_back(genres: Seq<Seq<char>>)
    requires
        storable(genres),
    ensures
        stated_lines(text::separated(genres, "\n"@)) == genres,
    decreases genres.len(),
{
    reveal_strlit("\n");
    let joined = text::separated(genres, "\n"@);
    text::lemma_first_from(0, joined.len() as int, text::holds_char(joined, '\n'));
    if genres.len() == 0 {
        assert(genres =~= Seq::empty());
    } else if genres.len() == 1 {
        assert(joined == genres[0]);
        if text::first_index(joined, '\n') is Some {
            let k = text::first_index(joined, '\n')->0;
            assert(text::holds_char(joined, '\n')(k));
            assert(genres[0].contains('\n'));
        }
        assert(seq![joined] =~= genres);
    } else {
        lemma_separated_front(genres, "\n"@);
        let first = genres[0];
        let rest = genres.skip(1);
        let at = first.len() as int;
        assert(joined[at] == '\n');
        assert(text::holds_char(joined, '\n')(at));
        match text::first_index(joined, '\n') {
            Some(k) => {
                assert(text::holds_char(joined, '\n')(k));
                if k < at {
                    assert(first[k] == '\n');
                    assert(first.contains('\n'));
                }
                assert(k == at);
            },
            None => {},
        }
        assert(joined.take(at) =~= first);
        assert(joined.skip(at + 1) =~= text::separated(rest, "\n"@));
        assert(storable(rest)) by {
            assert forall|i: int| 0 <= i < rest.len() implies (#[trigger] rest[i]).len() > 0
                && !rest[i].contains('\n') by {
                assert(rest[i] == genres[i + 1]);
            }
            assert forall|i: int| 0 <= i < rest.len() - 1 implies (#[trigger] rest[i]).last()
                != '\r' by {
                assert(rest[i] == genres[i + 1]);
            }
        }
        lemma_lines_back(rest);
        assert(seq![first] + rest =~= genres);
    }
}

/// What is stored reads back as it was: a match as that match, a miss as a miss
/// and not as absence, a choice of the viewer's as theirs.
pub proof fn law_an_answer_reads_back(record: metadata::MetadataRecordView, row: MetadataRow)
    requires
        stores(row, record),
        match record.metadata {
            Some(data) => data.provider == record.provider && storable(data.genres),
            None => true,
        },
    ensures
        row_answer(record.title_key, row) == Some(record),
{
    metadata::law_provider_names_round_trip(record.provider, row.provider@);
    reveal_strlit("series");
    reveal_strlit("film");
    match record.metadata {
        Some(data) => {
            lemma_lines_back(data.genres);
            assert("series"@.len() != "film"@.len());
            assert(row_metadata(row, record.provider) =~= data);
        },
        None => {},
    }
}

// ---------------------------------------------------------------------------
// Episodes
// ---------------------------------------------------------------------------

/// One row of the table of episodes.
#[derive(Debug, PartialEq, Eq)]
pub struct EpisodeRow {
    pub title_key: String,
    pub season: i64,
    pub number: i64,
    pub provider: String,
    pub fetched_at: i64,
    pub name: Option<String>,
    pub overview: Option<String>,
    pub still_url: Option<String>,
    pub air_date: Option<String>,
}

/// The season that is stored for an episode.
pub open spec fn stored_season(season: Option<u32>) -> i64 {
    match season {
        Some(season) => season as i64,
        None => ABSOLUTE_SEASON,
    }
}

/// Whether a row is what an episode is stored as.
pub open spec fn stores_episode(
    row: EpisodeRow,
    title_key: Seq<char>,
    provider: ProviderId,
    fetched_at: i64,
    episode: EpisodeMetadata,
) -> bool {
    &&& row.title_key@ == title_key
    &&& row.season == stored_season(episode.season)
    &&& row.number == episode.number
    &&& row.provider@ == metadata::provider_name(provider)
    &&& row.fetched_at == fetched_at
    &&& row.name == episode.name
    &&& row.overview == episode.overview
    &&& row.still_url == episode.still_url
    &&& row.air_date == episode.air_date
}

/// The row that an episode is stored as.
pub fn episode_to_row(
    title_key: &str,
    provider: ProviderId,
    fetched_at: i64,
    episode: &EpisodeMetadata,
) -> (r: EpisodeRow)
    ensures
        stores_episode(r, title_key@, provider, fetched_at, *episode),
{
    EpisodeRow {
        title_key: text::owned(title_key),
        season: match episode.season {
            Some(season) => season as i64,
            None => ABSOLUTE_SEASON,
        },
        number: episode.number as i64,
        provider: text::owned(provider.as_str()),
        fetched_at,
        name: text::copy_option(&episode.name),
        overview: text::copy_option(&episode.overview),
        still_url: text::copy_option(&episode.still_url),
        air_date: text::copy_option(&episode.air_date),
    }
}

/// The low 32 bits of a stored number.
pub open spec fn low_bits(n: i64) -> u32 {
    #[verifier::truncate]
    (n as u32)
}

/// The episode that a row holds.
pub open spec fn row_episode(row: EpisodeRow) -> EpisodeMetadata {
    EpisodeMetadata {
        season: if row.season == ABSOLUTE_SEASON {
            None
        } else {
            Some(low_bits(row.season))
        },
        number: low_bits(row.number),
        name: row.name,
        overview: row.overview,
        still_url: row.still_url,
        air_date: row.air_date,
    }
}

/// The episode that a row holds.
pub fn row_to_episode(row: &EpisodeRow) -> (r: EpisodeMetadata)
    ensures
        r == row_episode(*row),
{
    EpisodeMetadata {
        season: if row.season == ABSOLUTE_SEASON {
            None
        } else {
            Some(
                #[verifier::truncate]
                (row.season as u32),
            )
        },
        number: #[verifier::truncate]
        (row.number as u32),
        name: text::copy_option(&row.name),
        overview: text::copy_option(&row.overview),
        still_url: text::copy_option(&row.still_url),
        air_date: text::copy_option(&row.air_date),
    }
}

/// What is stored of an episode reads back as it was, and one that its provider
/// numbers straight through stays apart from every season.
pub proof fn law_an_episode_reads_back(
    row: EpisodeRow,
    title_key: Seq<char>,
    provider: ProviderId,
    fetched_at: i64,
    episode: EpisodeMetadata,
)
    requires
        stores_episode(row, title_key, provider, fetched_at, episode),
    ensures
        row_episode(row) == episode,
        row.season == ABSOLUTE_SEASON <==> episode.season is None,
{
}

/// A row holds what was said of a title column by column, and reads back column by
/// column.
pub proof fn law_a_row_holds_what_was_said(
    row: MetadataRow,
    record: metadata::MetadataRecordView,
    title_key: Seq<char>,
)
    requires
        stores(row, record),
    ensures
        row.fetched_at == record.fetched_at && row.manual == record.manual,
        row.matched <==> record.metadata is Some,
        record.metadata matches Some(data) ==> row.year == data.year && row.rating == data.rating
            && row.episodes == data.episodes && text::opt_chars(row.name) == Some(data.name)
            && text::opt_chars(row.remote_id) == Some(data.remote_id) && text::opt_chars(
            row.overview,
        ) == data.overview && text::opt_chars(row.poster_url) == data.poster_url
            && text::opt_chars(row.backdrop_url) == data.backdrop_url && text::opt_chars(row.url)
            == data.url && text::opt_chars(row.original_name) == data.original_name,
        record.metadata matches Some(data) ==> (data.kind is Series ==> text::opt_chars(row.kind)
            == Some("series"@)) && (data.kind is Film ==> text::opt_chars(row.kind) == Some(
            "film"@,
        )),
        row_answer(title_key, row) matches Some(read) ==> read.title_key == title_key
            && read.fetched_at == row.fetched_at && read.manual == row.manual && (
        read.metadata matches Some(data) ==> row.matched && data.year == row.year && data.rating
            == row.rating && data.episodes == row.episodes && data.provider == read.provider),
{
}

/// A season is stored by its number, and the provider's own count as none of them.
pub proof fn law_a_season_is_stored_by_its_number(season: u32)
    ensures
        stored_season(Some(season)) == season,
        stored_season(None) == -1,
{
}

} // verus!
