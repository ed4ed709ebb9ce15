//! Turning release filenames into titles, seasons and episodes.
//!
//! A pure function over a string, deliberately: no I/O, no state, no network.
//! What it reads out of a name is stated by [`parsed`], and [`parse`] is proved
//! to return exactly that.

use vstd::prelude::*;
use vstd::slice::slice_subrange;

use crate::text::char_is_alnum;
use crate::text::char_is_digit;
use crate::text::char_is_letter;
use crate::text::chars_all_digits;
use crate::text::chars_stand_at;
use crate::text::collapsed;
use crate::text::decimal_of;
use crate::text::end_of_digits;
use crate::text::from_chars;
use crate::text::is_word;
use crate::text::last_index_of;
use crate::text::replaced;
use crate::text::small_value_of_digits;
use crate::text::start_of_digits;
use crate::text::to_chars;
use crate::text::to_lower;
use crate::text::trimmed;
use crate::text::trimmed_end;
use crate::text::trimmed_end_set;
use crate::text::trimmed_start;
use crate::text::trimmed_start_set;
use crate::text;

verus! {

/// What a filename claims to be.
#[derive(Debug, PartialEq, Eq)]
pub struct ParsedName {
    /// The series or film title, cleaned of groups, tags and separators.
    pub title: String,
    /// Season number, when the name states one. Absent is *not* season 1: a
    /// film has no season, and an absolute-numbered episode states none either,
    /// so the caller decides what to do about it.
    pub season: Option<u32>,
    /// Episode number, when the name states one.
    pub episode: Option<u32>,
    /// Release year, from a bracketed or a bare four-digit group.
    pub year: Option<u32>,
    /// The episode's own name, when a dash introduces one after the numbering.
    pub episode_title: Option<String>,
}

/// A [`ParsedName`] with its strings taken as sequences of characters.
#[verifier::ext_equal]
pub struct ParsedView {
    pub title: Seq<char>,
    pub season: Option<u32>,
    pub episode: Option<u32>,
    pub year: Option<u32>,
    pub episode_title: Option<Seq<char>>,
}

impl View for ParsedName {
    type V = ParsedView;

    open spec fn view(&self) -> ParsedView {
        ParsedView {
            title: self.title@,
            season: self.season,
            episode: self.episode,
            year: self.year,
            episode_title: text::opt_chars(self.episode_title),
        }
    }
}

impl Clone for ParsedName {
    fn clone(&self) -> (r: Self)
        ensures
            r == *self,
    {
        ParsedName {
            title: self.title.clone(),
            season: self.season,
            episode: self.episode,
            year: self.year,
            episode_title: text::copy_option(&self.episode_title),
        }
    }
}

impl ParsedName {
    /// Whether this looks like one episode of a series rather than a film.
    pub fn is_episode(&self) -> (r: bool)
        ensures
            r == (self@.episode is Some),
    {
        self.episode.is_some()
    }
}

/// Numbering that was found in a name, and the span it was found in.
pub struct Found {
    pub season: Option<u32>,
    pub episode: Option<u32>,
    /// The title ends here.
    pub start: int,
    /// Just past the numbering; the episode name, if any, starts here.
    pub end: int,
}

#[derive(Debug, Clone, Copy)]
struct Numbering {
    season: Option<u32>,
    episode: Option<u32>,
}

/// Where the numbering was found, and how far it ran.
#[derive(Debug, Clone, Copy)]
struct NumberingMatch {
    numbering: Numbering,
    start: usize,
    end: usize,
}

impl NumberingMatch {
    spec fn found(self) -> Found {
        Found {
            season: self.numbering.season,
            episode: self.numbering.episode,
            start: self.start as int,
            end: self.end as int,
        }
    }

    /// The span lies inside a text of `len` characters.
    spec fn within(self, len: int) -> bool {
        self.start <= self.end <= len
    }
}

/// A search returned what its statement says, inside the text.
spec fn finds(r: Option<NumberingMatch>, said: Option<Found>, len: int) -> bool {
    match r {
        Some(m) => said == Some(m.found()) && m.within(len),
        None => said is None,
    }
}

// ---------------------------------------------------------------------------
// What a name states
// ---------------------------------------------------------------------------

/// A short alphanumeric ending with a letter in it, as every container
/// extension is and no dot-separated title word reliably is.
pub open spec fn is_extension(e: Seq<char>) -> bool {
    &&& 0 < e.len() <= 4
    &&& forall|i: int| 0 <= i < e.len() ==> text::is_alnum(#[trigger] e[i])
    &&& exists|i: int| 0 <= i < e.len() && text::is_letter(#[trigger] e[i])
}

/// The name without its extension.
pub open spec fn stem(s: Seq<char>) -> Seq<char> {
    match text::last_index(s, '.') {
        Some(k) => if is_extension(s.subrange(k + 1, s.len() as int)) {
            s.take(k)
        } else {
            s
        },
        None => s,
    }
}

pub open spec fn opens(c: char) -> bool {
    c == '(' || c == '['
}

pub open spec fn closes(c: char) -> bool {
    c == ')' || c == ']'
}

/// Four digits that could be a release year.
pub open spec fn is_year(s: Seq<char>) -> bool {
    s.len() == 4 && text::all_digits(s) && 1900 <= text::digits_value(s) <= 2999
}

/// The positions at which a bracketed year opens.
pub open spec fn bracketed_year_at(s: Seq<char>) -> spec_fn(int) -> bool {
    |i: int| opens(s[i]) && closes(s[i + 5]) && is_year(s.subrange(i + 1, i + 5))
}

/// The first bracketed year.
pub open spec fn bracketed_year_of(s: Seq<char>) -> Option<u32> {
    match text::first_from(0, s.len() - 5, bracketed_year_at(s)) {
        Some(i) => Some(text::digits_value(s.subrange(i + 1, i + 5)) as u32),
        None => None,
    }
}

/// Whether a token begins at `i` rather than `i` sitting inside a word.
pub open spec fn token_start(s: Seq<char>, i: int) -> bool {
    i == 0 || !text::is_alnum(s[i - 1])
}

/// Whether a token character stands at `i`.
pub open spec fn token_at(s: Seq<char>, i: int) -> bool {
    0 <= i < s.len() && text::is_alnum(s[i])
}

/// The positions of the tokens that are a year and nothing more.
pub open spec fn bare_year_at(s: Seq<char>) -> spec_fn(int) -> bool {
    |i: int| token_start(s, i) && is_year(s.subrange(i, i + 4)) && !token_at(s, i + 4)
}

/// The first bare year, and where it stands.
pub open spec fn bare_year_of(s: Seq<char>) -> Option<(u32, int)> {
    match text::first_from(0, s.len() - 3, bare_year_at(s)) {
        Some(i) => Some((text::digits_value(s.subrange(i, i + 4)) as u32, i)),
        None => None,
    }
}

/// Whether `c` closes a bracket that `opened` opens.
pub open spec fn pairs(opened: char, c: char) -> bool {
    (opened == '[' && c == ']') || (opened == '(' && c == ')')
}

/// The brackets that are open after `s`, the innermost last; none, where a
/// closing bracket had nothing of its own to close.
pub open spec fn open_brackets(s: Seq<char>) -> Option<Seq<char>>
    decreases s.len(),
{
    if s.len() == 0 {
        Some(Seq::empty())
    } else {
        match open_brackets(s.drop_last()) {
            None => None,
            Some(before) => if opens(s.last()) {
                Some(before.push(s.last()))
            } else if !closes(s.last()) {
                Some(before)
            } else if before.len() > 0 && pairs(before.last(), s.last()) {
                Some(before.drop_last())
            } else {
                None
            },
        }
    }
}

/// Whether every bracket of `s` is closed by one of its own, and closes one.
pub open spec fn balanced(s: Seq<char>) -> bool {
    open_brackets(s) == Some(Seq::<char>::empty())
}

/// The characters of `s` that stand outside all brackets.
pub open spec fn outside_brackets(s: Seq<char>) -> Seq<char>
    decreases s.len(),
{
    if s.len() == 0 {
        s
    } else if opens(s.last()) || closes(s.last()) || !balanced(s.drop_last()) {
        outside_brackets(s.drop_last())
    } else {
        outside_brackets(s.drop_last()).push(s.last())
    }
}

/// `s` without its bracketed groups; left alone when its brackets are not
/// balanced.
pub open spec fn without_groups(s: Seq<char>) -> Seq<char> {
    if balanced(s) {
        outside_brackets(s)
    } else {
        s
    }
}

/// The number at `from` and the position after it. A missing number reads as
/// zero of no length; more than four digits are a checksum or a date.
pub open spec fn number_at(s: Seq<char>, from: int) -> Option<(u32, int)> {
    let end = text::digits_end(s, from);
    if end - from > 4 {
        None
    } else {
        Some((text::digits_value(s.subrange(from, end)) as u32, end))
    }
}

/// The number at `from`, when at least one digit stands there.
pub open spec fn number_after(s: Seq<char>, from: int) -> Option<(u32, int)> {
    match number_at(s, from) {
        Some((n, end)) => if end > from {
            Some((n, end))
        } else {
            None
        },
        None => None,
    }
}

/// A separator inside numbering.
pub open spec fn is_gap(c: char) -> bool {
    c == ' ' || c == '_' || c == '.'
}

/// The position past the separators at `i`.
pub open spec fn gap_end(s: Seq<char>, i: int) -> int
    decreases s.len() - i,
{
    if 0 <= i < s.len() && is_gap(s[i]) {
        gap_end(s, i + 1)
    } else {
        i
    }
}

/// The separators that stand between words and the numbering after them.
pub open spec fn joints() -> Seq<char> {
    seq![' ', '_', '.', '-']
}

/// The season that `s12` states at `i`, alone or with its episode, when the
/// number is no longer than numbering is.
pub open spec fn season_mark_at(l: Seq<char>, i: int) -> Option<Found> {
    match number_at(l, i + 1) {
        None => None,
        Some((season, end)) => if end == i + 1 {
            None
        } else if end < l.len() && l[end] == 'e' && number_after(l, end + 1) is Some {
            let (episode, after) = number_after(l, end + 1)->0;
            Some(Found { season: Some(season), episode: Some(episode), start: i, end: after })
        } else if !token_at(l, end) {
            Some(Found { season: Some(season), episode: None, start: i, end })
        } else {
            None
        },
    }
}

/// The positions that settle what `S02E05` numbering there is: those of a mark,
/// and those of an `s` before a run of digits too long to be one.
pub open spec fn season_mark_settles(l: Seq<char>) -> spec_fn(int) -> bool {
    |i: int|
        l[i] == 's' && token_start(l, i) && (season_mark_at(l, i) is Some || number_at(l, i + 1)
            is None)
}

/// `S02E05`, or `S02` alone.
pub open spec fn season_episode_of(s: Seq<char>) -> Option<Found> {
    let l = text::lower(s);
    match text::first_from(0, l.len() as int, season_mark_settles(l)) {
        Some(i) => season_mark_at(l, i),
        None => None,
    }
}

/// The `3rd` that stands before `at`: the number, and where it starts.
pub open spec fn ordinal_before_at(l: Seq<char>, at: int) -> Option<(u32, int)> {
    let head = text::trim_end_set(l.take(at), joints());
    if head.len() < 2 || !is_ordinal_suffix(head.subrange(head.len() - 2, head.len() as int)) {
        None
    } else {
        let number = head.take(head.len() - 2);
        let start = text::digits_start(number, number.len() as int);
        let digits = number.subrange(start, number.len() as int);
        if 0 < digits.len() <= 2 && text::digits_value(digits) > 0 {
            Some((text::digits_value(digits) as u32, start))
        } else {
            None
        }
    }
}

pub open spec fn is_ordinal_suffix(s: Seq<char>) -> bool {
    s == "st"@ || s == "nd"@ || s == "rd"@ || s == "th"@
}

/// The season that the word at `i` states: by the number after it, or by the
/// ordinal before it.
pub open spec fn worded_season_at(l: Seq<char>, i: int) -> Option<Found> {
    let after = i + 6;
    let digits = gap_end(l, after);
    let following = match number_after(l, digits) {
        Some((season, end)) => if season > 0 && !token_at(l, end) {
            Some(Found { season: Some(season), episode: None, start: i, end })
        } else {
            None
        },
        None => None,
    };
    if following is Some {
        following
    } else if !token_at(l, after) {
        match ordinal_before_at(l, i) {
            Some((season, start)) => Some(
                Found { season: Some(season), episode: None, start, end: after },
            ),
            None => None,
        }
    } else {
        None
    }
}

/// The positions at which the word `season` states a season.
pub open spec fn worded_season_stands(l: Seq<char>) -> spec_fn(int) -> bool {
    |i: int|
        text::stands_at(l, "season"@, i) && token_start(l, i) && worded_season_at(l, i) is Some
}

/// `3rd Season`, `Season 3`: a season stated in words.
pub open spec fn worded_season_of(s: Seq<char>) -> Option<Found> {
    let l = text::lower(s);
    match text::first_from(0, l.len() as int, worded_season_stands(l)) {
        Some(i) => worded_season_at(l, i),
        None => None,
    }
}

/// The season and episode on either side of the `x` at `i`.
pub open spec fn cross_at(l: Seq<char>, i: int) -> Option<Found> {
    let start = text::digits_start(l, i);
    let season = text::digits_value(l.subrange(start, i));
    match number_after(l, i + 1) {
        Some((episode, end)) => if season <= u32::MAX {
            Some(Found { season: Some(season as u32), episode: Some(episode), start, end })
        } else {
            None
        },
        None => None,
    }
}

/// The positions that settle what `1x05` numbering there is: an `x` behind a
/// token of digits, with an episode after it or with a number on either side
/// that is too long.
pub open spec fn cross_settles(l: Seq<char>) -> spec_fn(int) -> bool {
    |i: int|
        {
            let start = text::digits_start(l, i);
            &&& l[i] == 'x'
            &&& start < i
            &&& token_start(l, start)
            &&& (cross_at(l, i) is Some || number_at(l, i + 1) is None || text::digits_value(
                l.subrange(start, i),
            ) > u32::MAX)
        }
}

/// `1x05`.
pub open spec fn cross_numbering_of(s: Seq<char>) -> Option<Found> {
    let l = text::lower(s);
    match text::first_from(0, l.len() as int, cross_settles(l)) {
        Some(i) => cross_at(l, i),
        None => None,
    }
}

/// The position of the number that an `E` / `EP` marker at `at` introduces;
/// `at` itself when there is no such marker.
pub open spec fn marked_number(s: Seq<char>, at: int) -> int {
    if 0 <= at < s.len() && (s[at] == 'e' || s[at] == 'E') {
        let letters = if at + 1 < s.len() && (s[at + 1] == 'p' || s[at + 1] == 'P') {
            at + 2
        } else {
            at + 1
        };
        let digits = gap_end(s, letters);
        if digits < s.len() && text::is_digit(s[digits]) {
            digits
        } else {
            at
        }
    } else {
        at
    }
}

/// The episode that the dash at `i` introduces. A version suffix (`12v2`) still
/// names episode 12.
pub open spec fn dash_at(s: Seq<char>, i: int) -> Option<Found> {
    let digits = marked_number(s, gap_end(s, i + 1));
    match number_after(s, digits) {
        Some((episode, end)) => if !token_at(s, end) || s[end] == 'v' {
            Some(Found { season: None, episode: Some(episode), start: i, end })
        } else {
            None
        },
        None => None,
    }
}

/// The positions of the dashes that introduce an episode.
pub open spec fn dash_introduces(s: Seq<char>) -> spec_fn(int) -> bool {
    |i: int| s[i] == '-' && dash_at(s, i) is Some
}

/// ` - 12`: the last dash that introduces an episode, because a title may
/// contain a dash of its own.
pub open spec fn dash_numbering_of(s: Seq<char>) -> Option<Found> {
    match text::last_before(0, s.len() as int, dash_introduces(s)) {
        Some(i) => dash_at(s, i),
        None => None,
    }
}

/// The episode that the marker at `i` states.
pub open spec fn marker_at(s: Seq<char>, i: int) -> Option<Found> {
    let digits = marked_number(s, i);
    match number_after(s, digits) {
        Some((episode, end)) => if digits != i && !token_at(s, end) {
            Some(Found { season: None, episode: Some(episode), start: i, end })
        } else {
            None
        },
        None => None,
    }
}

/// The positions of the standalone markers that state an episode.
pub open spec fn marker_stands(s: Seq<char>) -> spec_fn(int) -> bool {
    |i: int| (s[i] == 'e' || s[i] == 'E') && token_start(s, i) && marker_at(s, i) is Some
}

/// A standalone `E01` / `EP01`.
pub open spec fn episode_marker_of(s: Seq<char>) -> Option<Found> {
    match text::first_from(0, s.len() as int, marker_stands(s)) {
        Some(i) => marker_at(s, i),
        None => None,
    }
}

/// A name that is nothing but a number of up to three digits.
pub open spec fn bare_number_of(s: Seq<char>) -> Option<Found> {
    let digits = text::trim(s);
    let start = s.len() - text::trim_start(s).len();
    if 0 < digits.len() <= 3 && text::all_digits(digits) {
        Some(
            Found {
                season: None,
                episode: Some(text::digits_value(digits) as u32),
                start,
                end: start + digits.len(),
            },
        )
    } else {
        None
    }
}

/// The episode that is stated without `S02E05`, by the first of the
/// conventions that states one.
pub open spec fn episode_only_of(s: Seq<char>) -> Option<Found> {
    if cross_numbering_of(s) is Some {
        cross_numbering_of(s)
    } else if dash_numbering_of(s) is Some {
        dash_numbering_of(s)
    } else if episode_marker_of(s) is Some {
        episode_marker_of(s)
    } else {
        bare_number_of(s)
    }
}

/// A season with whatever states the episode. The title ends at whichever came
/// first; the tags start after whichever came last.
pub open spec fn with_episode_of(season: Found, s: Seq<char>) -> Found {
    match episode_only_of(s) {
        Some(episode) => Found {
            season: season.season,
            episode: episode.episode,
            start: if season.start <= episode.start {
                season.start
            } else {
                episode.start
            },
            end: if season.end >= episode.end {
                season.end
            } else {
                episode.end
            },
        },
        None => season,
    }
}

/// The numbering a name states.
pub open spec fn numbering_of(s: Seq<char>) -> Option<Found> {
    match season_episode_of(s) {
        Some(m) => if m.episode is Some {
            Some(m)
        } else {
            Some(with_episode_of(m, s))
        },
        None => match worded_season_of(s) {
            Some(m) => Some(with_episode_of(m, s)),
            None => episode_only_of(s),
        },
    }
}

/// Dots and underscores as spaces.
pub open spec fn spaced(s: Seq<char>) -> Seq<char> {
    Seq::new(
        s.len(),
        |i: int|
            if s[i] == '.' || s[i] == '_' {
                ' '
            } else {
                s[i]
            },
    )
}

/// The debris that sits between a title and what followed it.
pub open spec fn debris() -> Seq<char> {
    seq!['-', '\u{2013}', ' ']
}

/// A title span with separators made spaces, the year taken out, the debris
/// trimmed and runs of spaces collapsed.
pub open spec fn clean_title_of(raw: Seq<char>, year: Option<u32>) -> Seq<char> {
    let words = match year {
        Some(y) => text::replace_all(spaced(raw), text::decimal(y as nat), seq![' ']),
        None => spaced(raw),
    };
    text::collapse(text::trim(text::trim_end_set(text::trim(words), debris())))
}

/// The episode's own name, which only a dash introduces.
pub open spec fn episode_title_of(tail: Seq<char>) -> Option<Seq<char>> {
    let rest = text::trim_start(tail);
    if rest.len() > 0 && (rest[0] == '-' || rest[0] == '\u{2013}') {
        let cleaned = text::trim(clean_title_of(rest.subrange(1, rest.len() as int), None));
        if cleaned.len() > 0 {
            Some(cleaned)
        } else {
            None
        }
    } else {
        None
    }
}

/// What a filename, with or without its extension, states.
///
/// A bracketed year is read before the groups are dropped; a bare one only
/// where there is no bracketed one. The title ends at the numbering, or at the
/// bare year where there is no numbering.
pub open spec fn parsed(name: Seq<char>) -> ParsedView {
    let bracketed = bracketed_year_of(stem(name));
    let rest = without_groups(stem(name));
    let bare = if bracketed is None {
        bare_year_of(rest)
    } else {
        None
    };
    let year = match bare {
        Some((y, _)) => Some(y),
        None => bracketed,
    };
    let found = numbering_of(rest);
    let title_end = match found {
        Some(m) => m.start,
        None => match bare {
            Some((_, at)) => at,
            None => rest.len() as int,
        },
    };
    ParsedView {
        title: clean_title_of(rest.take(title_end), year),
        season: match found {
            Some(m) => m.season,
            None => None,
        },
        episode: match found {
            Some(m) => m.episode,
            None => None,
        },
        year,
        episode_title: match found {
            Some(m) => episode_title_of(rest.subrange(m.end, rest.len() as int)),
            None => None,
        },
    }
}

// ---------------------------------------------------------------------------
// Reading it
// ---------------------------------------------------------------------------

/// Drop a trailing extension, but only one that looks like an extension.
fn strip_extension(name: &[char]) -> (r: &[char])
    ensures
        r@ == stem(name@),
{
    match last_index_of(name, '.') {
        Some(k) => {
            let len: usize = name.len();
            let ext = slice_subrange(name, k + 1, len);
            if looks_like_extension(ext) {
                let r = slice_subrange(name, 0, k);
                assert(r@ =~= name@.take(k as int));
                r
            } else {
                name
            }
        },
        None => name,
    }
}

fn looks_like_extension(ext: &[char]) -> (r: bool)
    ensures
        r == is_extension(ext@),
{
    if ext.len() == 0 || ext.len() > 4 {
        return false;
    }
    let mut lettered: bool = false;
    let mut i: usize = 0;
    while i < ext.len()
        invariant
            i <= ext.len(),
            forall|j: int| 0 <= j < i ==> text::is_alnum(#[trigger] ext@[j]),
            lettered == (exists|j: int| 0 <= j < i && text::is_letter(#[trigger] ext@[j])),
        decreases ext.len() - i,
    {
        if !char_is_alnum(ext[i]) {
            assert(!text::is_alnum(ext@[i as int]));
            return false;
        }
        if char_is_letter(ext[i]) {
            assert(text::is_letter(ext@[i as int]));
            lettered = true;
        }
        i += 1;
    }
    lettered
}

/// Four digits that could be a release year.
fn plausible_year(digits: &[char]) -> (r: Option<u32>)
    requires
        digits@.len() == 4,
    ensures
        match r {
            Some(y) => is_year(digits@) && y == text::digits_value(digits@),
            None => !is_year(digits@),
        },
{
    if !chars_all_digits(digits) {
        return None;
    }
    match small_value_of_digits(digits) {
        Some(year) => if 1900 <= year && year <= 2999 {
            Some(year)
        } else {
            None
        },
        None => None,
    }
}

/// `Movie Title (2019)` / `Movie Title [2019]`.
fn bracketed_year(v: &[char]) -> (r: Option<u32>)
    ensures
        r == bracketed_year_of(v@),
{
    let mut i: usize = 0;
    while i < v.len() && v.len() - i >= 6
        invariant
            i <= v.len(),
            text::first_from(0, v@.len() - 5, bracketed_year_at(v@)) == text::first_from(
                i as int,
                v@.len() - 5,
                bracketed_year_at(v@),
            ),
        decreases v.len() - i,
    {
        let opening = v[i] == '(' || v[i] == '[';
        let closing = v[i + 5] == ')' || v[i + 5] == ']';
        if opening && closing {
            match plausible_year(slice_subrange(v, i + 1, i + 5)) {
                Some(year) => {
                    return Some(year);
                },
                None => {},
            }
        }
        i += 1;
    }
    None
}

/// Whether a token character stands at `i`.
fn is_token_char(v: &[char], i: usize) -> (r: bool)
    ensures
        r == token_at(v@, i as int),
{
    i < v.len() && char_is_alnum(v[i])
}

/// Whether `at` begins a token rather than sitting inside a word, so the `s` of
/// `Seasons` cannot start a season match.
fn is_token_start(v: &[char], at: usize) -> (r: bool)
    requires
        at <= v@.len(),
    ensures
        r == token_start(v@, at as int),
{
    at == 0 || !char_is_alnum(v[at - 1])
}

/// `Movie.Name.2019.1080p.BluRay.mkv`: a year that is a token of its own.
fn bare_year(v: &[char]) -> (r: Option<(u32, usize)>)
    ensures
        match r {
            Some((y, at)) => bare_year_of(v@) == Some((y, at as int)) && at <= v@.len(),
            None => bare_year_of(v@) is None,
        },
{
    let mut i: usize = 0;
    while i < v.len() && v.len() - i >= 4
        invariant
            i <= v.len(),
            text::first_from(0, v@.len() - 3, bare_year_at(v@)) == text::first_from(
                i as int,
                v@.len() - 3,
                bare_year_at(v@),
            ),
        decreases v.len() - i,
    {
        if is_token_start(v, i) && !is_token_char(v, i + 4) {
            match plausible_year(slice_subrange(v, i, i + 4)) {
                Some(year) => {
                    return Some((year, i));
                },
                None => {},
            }
        }
        i += 1;
    }
    None
}

/// Remove `[...]` and `(...)` spans.
///
/// Release groups, resolutions and checksums live in them, and none of it
/// belongs in a title. Unbalanced brackets are left alone rather than swallowing
/// the rest of the name: one that stays open, one that closes nothing, and one
/// that closes a bracket of the other kind. The input was then not the convention
/// assumed, so the name as written is trusted over a half-stripped guess.
fn strip_bracketed(v: &[char]) -> (r: Vec<char>)
    ensures
        r@ == without_groups(v@),
{
    let mut out: Vec<char> = Vec::new();
    let mut open: Vec<char> = Vec::new();
    let mut i: usize = 0;
    while i < v.len()
        invariant
            i <= v.len(),
            open_brackets(v@.take(i as int)) == Some(open@),
            out@ == outside_brackets(v@.take(i as int)),
        decreases v.len() - i,
    {
        let c = v[i];
        assert(v@.take(i + 1).drop_last() =~= v@.take(i as int));
        assert(balanced(v@.take(i as int)) == (open@.len() == 0)) by {
            if open@.len() == 0 {
                assert(open@ =~= Seq::empty());
            }
        }
        if c == '[' || c == '(' {
            open.push(c);
        } else if c == ']' || c == ')' {
            let opened = open.pop();
            let own = match opened {
                Some(opened) => (opened == '[' && c == ']') || (opened == '(' && c == ')'),
                None => false,
            };
            if !own {
                proof {
                    lemma_unbalanced_stays(v@, i + 1);
                }
                return text::copy_chars(v);
            }
        } else if open.len() == 0 {
            out.push(c);
        }
        i += 1;
    }
    assert(v@.take(v@.len() as int) =~= v@);
    if open.len() > 0 {
        return text::copy_chars(v);
    }
    assert(open@ =~= Seq::empty());
    out
}

/// What follows a bracket that closed nothing does not mend it.
proof fn lemma_unbalanced_stays(s: Seq<char>, n: int)
    requires
        0 <= n <= s.len(),
        open_brackets(s.take(n)) is None,
    ensures
        open_brackets(s) is None,
    decreases s.len() - n,
{
    if n < s.len() {
        assert(s.take(n + 1).drop_last() =~= s.take(n));
        lemma_unbalanced_stays(s, n + 1);
    } else {
        assert(s.take(n) =~= s);
    }
}

/// Read a number at `from`, returning it and the offset after it.
fn read_number(v: &[char], from: usize) -> (r: Option<(u32, usize)>)
    requires
        from <= v@.len(),
    ensures
        match r {
            Some((n, end)) => number_at(v@, from as int) == Some((n, end as int)) && from <= end
                <= v@.len(),
            None => number_at(v@, from as int) is None,
        },
{
    let end = end_of_digits(v, from);
    if end - from > 4 {
        return None;
    }
    let digits = slice_subrange(v, from, end);
    assert forall|j: int| 0 <= j < digits@.len() implies text::is_digit(#[trigger] digits@[j]) by {
        assert(digits@[j] == v@[from + j]);
    }
    proof {
        lemma_short_value(digits@);
    }
    match small_value_of_digits(digits) {
        Some(n) => Some((n, end)),
        None => None,
    }
}

/// Up to four digits write a number below ten thousand.
proof fn lemma_short_value(s: Seq<char>)
    requires
        text::all_digits(s),
        s.len() <= 4,
    ensures
        text::digits_value(s) <= 9999,
{
    reveal_with_fuel(text::digits_value, 5);
    assert forall|i: int| 0 <= i < s.len() implies '0' <= #[trigger] s[i] <= '9' by {
        assert(text::is_digit(s[i]));
    }
}

/// Step over separators.
fn skip_gap(v: &[char], from: usize) -> (r: usize)
    requires
        from <= v@.len(),
    ensures
        r == gap_end(v@, from as int),
        from <= r <= v@.len(),
{
    let mut i: usize = from;
    while i < v.len() && (v[i] == ' ' || v[i] == '_' || v[i] == '.')
        invariant
            from <= i <= v@.len(),
            gap_end(v@, from as int) == gap_end(v@, i as int),
        decreases v.len() - i,
    {
        i += 1;
    }
    i
}

/// `S02E05`, or `S02` alone.
fn find_season_episode(v: &[char]) -> (r: Option<NumberingMatch>)
    ensures
        finds(r, season_episode_of(v@), v@.len() as int),
{
    let l = to_lower(v);
    let mut i: usize = 0;
    while i < l.len()
        invariant
            i <= l.len(),
            l@ == text::lower(v@),
            text::first_from(0, l@.len() as int, season_mark_settles(l@)) == text::first_from(
                i as int,
                l@.len() as int,
                season_mark_settles(l@),
            ),
        decreases l.len() - i,
    {
        if l[i] == 's' && is_token_start(&l, i) {
            match read_number(&l, i + 1) {
                None => {
                    return None;
                },
                Some((season, after_season)) => {
                    if after_season > i + 1 {
                        if after_season < l.len() && l[after_season] == 'e' {
                            match read_number(&l, after_season + 1) {
                                Some((episode, after_episode)) => {
                                    if after_episode > after_season + 1 {
                                        return Some(
                                            NumberingMatch {
                                                numbering: Numbering {
                                                    season: Some(season),
                                                    episode: Some(episode),
                                                },
                                                start: i,
                                                end: after_episode,
                                            },
                                        );
                                    }
                                },
                                None => {},
                            }
                        }
                        // A season folder or a season pack.
                        if !is_token_char(&l, after_season) {
                            return Some(
                                NumberingMatch {
                                    numbering: Numbering { season: Some(season), episode: None },
                                    start: i,
                                    end: after_season,
                                },
                            );
                        }
                    }
                },
            }
        }
        i += 1;
    }
    None
}

/// The separators that stand between words and the numbering after them.
fn joint_chars() -> (r: Vec<char>)
    ensures
        r@ == joints(),
{
    let r = vec![' ', '_', '.', '-'];
    assert(r@ =~= joints());
    r
}

/// The `3rd` of `3rd Season`, if that is what sits before `at`.
fn ordinal_before(l: &[char], at: usize) -> (r: Option<(u32, usize)>)
    requires
        at <= l@.len(),
    ensures
        match r {
            Some((n, start)) => ordinal_before_at(l@, at as int) == Some((n, start as int))
                && start <= at,
            None => ordinal_before_at(l@, at as int) is None,
        },
{
    let joints = joint_chars();
    let before = slice_subrange(l, 0, at);
    assert(before@ =~= l@.take(at as int));
    let head = trimmed_end_set(before, &joints);
    proof {
        text::lemma_trim_end_set_prefix(before@, joints@);
    }
    if head.len() < 2 {
        return None;
    }
    let suffix = slice_subrange(head, head.len() - 2, head.len());
    if !(is_word(suffix, "st") || is_word(suffix, "nd") || is_word(suffix, "rd") || is_word(
        suffix,
        "th",
    )) {
        return None;
    }
    let number = slice_subrange(head, 0, head.len() - 2);
    assert(number@ =~= head@.take(head@.len() - 2));
    let start = start_of_digits(number, number.len());
    let digits = slice_subrange(number, start, number.len());
    assert forall|j: int| 0 <= j < digits@.len() implies text::is_digit(#[trigger] digits@[j]) by {
        assert(digits@[j] == number@[start + j]);
    }
    if digits.len() == 0 || digits.len() > 2 {
        return None;
    }
    proof {
        lemma_short_value(digits@);
    }
    match small_value_of_digits(digits) {
        Some(season) => if season > 0 {
            Some((season, start))
        } else {
            None
        },
        None => None,
    }
}

/// The season that the word at `i` states.
fn worded_season(l: &[char], i: usize) -> (r: Option<NumberingMatch>)
    requires
        i + 6 <= l@.len(),
    ensures
        finds(r, worded_season_at(l@, i as int), l@.len() as int),
{
    let len: usize = l.len();
    assert(i + 6 <= len);
    let after_keyword = i + 6;
    // A dash is deliberately *not* a separator here: `Show 2nd Season - 04` puts
    // the episode there, and reading across it makes episode four season four.
    let cursor = skip_gap(l, after_keyword);
    match read_number(l, cursor) {
        Some((season, end)) => {
            if end > cursor && season > 0 && !is_token_char(l, end) {
                return Some(
                    NumberingMatch {
                        numbering: Numbering { season: Some(season), episode: None },
                        start: i,
                        end,
                    },
                );
            }
        },
        None => {},
    }
    // `2nd Seasoning` is a word, not a season.
    if is_token_char(l, after_keyword) {
        return None;
    }
    match ordinal_before(l, i) {
        Some((season, start)) => Some(
            NumberingMatch {
                numbering: Numbering { season: Some(season), episode: None },
                start,
                end: after_keyword,
            },
        ),
        None => None,
    }
}

/// `3rd Season`, `Season 3`: a season stated in words rather than as `S03`.
fn find_worded_season(v: &[char]) -> (r: Option<NumberingMatch>)
    ensures
        finds(r, worded_season_of(v@), v@.len() as int),
{
    let l = to_lower(v);
    let keyword = to_chars("season");
    proof {
        reveal_strlit("season");
    }
    let mut i: usize = 0;
    while i < l.len()
        invariant
            i <= l.len(),
            l@ == text::lower(v@),
            keyword@ == "season"@,
            keyword@.len() == 6,
            text::first_from(0, l@.len() as int, worded_season_stands(l@)) == text::first_from(
                i as int,
                l@.len() as int,
                worded_season_stands(l@),
            ),
        decreases l.len() - i,
    {
        if chars_stand_at(&l, &keyword, i) && is_token_start(&l, i) {
            match worded_season(&l, i) {
                Some(m) => {
                    return Some(m);
                },
                None => {},
            }
        }
        i += 1;
    }
    None
}

/// `1x05`.
fn find_cross_numbering(v: &[char]) -> (r: Option<NumberingMatch>)
    ensures
        finds(r, cross_numbering_of(v@), v@.len() as int),
{
    let l = to_lower(v);
    let mut i: usize = 0;
    while i < l.len()
        invariant
            i <= l.len(),
            l@ == text::lower(v@),
            text::first_from(0, l@.len() as int, cross_settles(l@)) == text::first_from(
                i as int,
                l@.len() as int,
                cross_settles(l@),
            ),
        decreases l.len() - i,
    {
        if l[i] == 'x' {
            let start = start_of_digits(&l, i);
            if start < i && is_token_start(&l, start) {
                let digits = slice_subrange(&l, start, i);
                assert forall|j: int| 0 <= j < digits@.len() implies text::is_digit(
                    #[trigger] digits@[j],
                ) by {
                    assert(digits@[j] == l@[start + j]);
                }
                match small_value_of_digits(digits) {
                    None => {
                        return None;
                    },
                    Some(season) => match read_number(&l, i + 1) {
                        None => {
                            return None;
                        },
                        Some((episode, end)) => {
                            if end > i + 1 {
                                return Some(
                                    NumberingMatch {
                                        numbering: Numbering {
                                            season: Some(season),
                                            episode: Some(episode),
                                        },
                                        start,
                                        end,
                                    },
                                );
                            }
                        },
                    },
                }
            }
        }
        i += 1;
    }
    None
}

/// Step over an `E` / `EP` episode marker and any separator after it.
fn skip_episode_marker(v: &[char], at: usize) -> (r: usize)
    requires
        at <= v@.len(),
    ensures
        r == marked_number(v@, at as int),
        at <= r <= v@.len(),
{
    if at >= v.len() || !(v[at] == 'e' || v[at] == 'E') {
        return at;
    }
    let mut cursor: usize = at + 1;
    if cursor < v.len() && (v[cursor] == 'p' || v[cursor] == 'P') {
        cursor += 1;
    }
    let cursor = skip_gap(v, cursor);
    // Only a marker if a number actually follows; otherwise the `e` was the
    // first letter of a word.
    if cursor < v.len() && char_is_digit(v[cursor]) {
        cursor
    } else {
        at
    }
}

/// The episode that the dash at `i` introduces.
fn dash_episode(v: &[char], i: usize) -> (r: Option<NumberingMatch>)
    requires
        i < v@.len(),
    ensures
        finds(r, dash_at(v@, i as int), v@.len() as int),
{
    let len: usize = v.len();
    assert(i < len);
    let cursor = skip_episode_marker(v, skip_gap(v, i + 1));
    match read_number(v, cursor) {
        Some((episode, after)) => {
            if after > cursor && (!is_token_char(v, after) || v[after] == 'v') {
                Some(
                    NumberingMatch {
                        numbering: Numbering { season: None, episode: Some(episode) },
                        start: i,
                        end: after,
                    },
                )
            } else {
                None
            }
        },
        None => None,
    }
}

/// ` - 12`, the fansub convention: a dash-delimited number, the last of them.
fn find_dash_numbering(v: &[char]) -> (r: Option<NumberingMatch>)
    ensures
        finds(r, dash_numbering_of(v@), v@.len() as int),
{
    let mut i: usize = v.len();
    while i > 0
        invariant
            i <= v.len(),
            text::last_before(0, v@.len() as int, dash_introduces(v@)) == text::last_before(
                0,
                i as int,
                dash_introduces(v@),
            ),
        decreases i,
    {
        i -= 1;
        if v[i] == '-' {
            match dash_episode(v, i) {
                Some(m) => {
                    return Some(m);
                },
                None => {},
            }
        }
    }
    None
}

/// A standalone `E01` / `EP01`, with no dash to introduce it.
fn find_episode_marker(v: &[char]) -> (r: Option<NumberingMatch>)
    ensures
        finds(r, episode_marker_of(v@), v@.len() as int),
{
    let mut i: usize = 0;
    while i < v.len()
        invariant
            i <= v.len(),
            text::first_from(0, v@.len() as int, marker_stands(v@)) == text::first_from(
                i as int,
                v@.len() as int,
                marker_stands(v@),
            ),
        decreases v.len() - i,
    {
        if (v[i] == 'e' || v[i] == 'E') && is_token_start(v, i) {
            let digits = skip_episode_marker(v, i);
            if digits != i {
                match read_number(v, digits) {
                    Some((episode, after)) => {
                        // The number must end the token, so a checksum fragment
                        // cannot match.
                        if after > digits && !is_token_char(v, after) {
                            return Some(
                                NumberingMatch {
                                    numbering: Numbering { season: None, episode: Some(episode) },
                                    start: i,
                                    end: after,
                                },
                            );
                        }
                    },
                    None => {},
                }
            }
        }
        i += 1;
    }
    None
}

/// A name that is nothing but a number.
///
/// Capped at three digits so a film named for a year (`1917.mkv`) cannot become
/// episode 1917.
fn find_bare_number(v: &[char]) -> (r: Option<NumberingMatch>)
    ensures
        finds(r, bare_number_of(v@), v@.len() as int),
{
    let tail = trimmed_start(v);
    let digits = trimmed_end(tail);
    proof {
        text::lemma_trim_start_suffix(v@);
        text::lemma_trim_end_prefix(tail@);
    }
    if digits.len() == 0 || digits.len() > 3 || !chars_all_digits(digits) {
        return None;
    }
    proof {
        lemma_short_value(digits@);
    }
    let start = v.len() - tail.len();
    Some(
        NumberingMatch {
            numbering: Numbering { season: None, episode: small_value_of_digits(digits) },
            start,
            end: start + digits.len(),
        },
    )
}

/// The conventions that state an episode without `S02E05`.
fn find_episode_only(v: &[char]) -> (r: Option<NumberingMatch>)
    ensures
        finds(r, episode_only_of(v@), v@.len() as int),
{
    let cross = find_cross_numbering(v);
    if cross.is_some() {
        return cross;
    }
    let dash = find_dash_numbering(v);
    if dash.is_some() {
        return dash;
    }
    let marker = find_episode_marker(v);
    if marker.is_some() {
        return marker;
    }
    find_bare_number(v)
}

/// Fold whatever states the episode number into a season-only match.
fn with_episode(season: NumberingMatch, v: &[char]) -> (r: NumberingMatch)
    requires
        season.within(v@.len() as int),
    ensures
        r.found() == with_episode_of(season.found(), v@),
        r.within(v@.len() as int),
{
    match find_episode_only(v) {
        Some(episode) => NumberingMatch {
            numbering: Numbering {
                season: season.numbering.season,
                episode: episode.numbering.episode,
            },
            start: if season.start <= episode.start {
                season.start
            } else {
                episode.start
            },
            end: if season.end >= episode.end {
                season.end
            } else {
                episode.end
            },
        },
        None => season,
    }
}

/// Find the episode numbering and where the title ends.
fn find_numbering(v: &[char]) -> (r: Option<NumberingMatch>)
    ensures
        finds(r, numbering_of(v@), v@.len() as int),
{
    // Checked first because it is unambiguous, where a bare number is not.
    match find_season_episode(v) {
        Some(matched) => {
            if matched.numbering.episode.is_some() {
                return Some(matched);
            }
            // A season stated *alone* does not end the search: `Oshi no Ko S2 -
            // 04` names its season one way and its episode another.
            return Some(with_episode(matched, v));
        },
        None => {},
    }
    match find_worded_season(v) {
        Some(matched) => Some(with_episode(matched, v)),
        None => find_episode_only(v),
    }
}

/// Separators to spaces.
fn respaced(v: &[char]) -> (r: Vec<char>)
    ensures
        r@ == spaced(v@),
{
    let mut r: Vec<char> = Vec::new();
    let mut i: usize = 0;
    while i < v.len()
        invariant
            i <= v.len(),
            r@.len() == i,
            forall|j: int| 0 <= j < i ==> r@[j] == spaced(v@)[j],
        decreases v.len() - i,
    {
        let c = v[i];
        r.push(
            if c == '.' || c == '_' {
                ' '
            } else {
                c
            },
        );
        i += 1;
    }
    assert(r@ =~= spaced(v@));
    r
}

/// Normalize the title span.
fn clean_title(raw: &[char], year: Option<u32>) -> (r: Vec<char>)
    ensures
        r@ == clean_title_of(raw@, year),
{
    let mut words = respaced(raw);
    // The year was extracted separately; leave it out of the title.
    match year {
        Some(year) => {
            let digits = decimal_of(year as u64);
            let space = vec![' '];
            proof {
                text::lemma_decimal_reads_back(year as nat);
                assert(space@ =~= seq![' ']);
            }
            words = replaced(&words, &digits, &space);
        },
        None => {},
    }
    let debris_chars = vec!['-', '\u{2013}', ' '];
    assert(debris_chars@ =~= debris());
    collapsed(trimmed(trimmed_end_set(trimmed(&words), &debris_chars)))
}

/// The episode's own name out of what followed the numbering.
///
/// Only taken when a dash introduces it. Scene releases separate their quality,
/// source and codec tags with the same character as their title words, so
/// without that requirement those tags would read as the name.
fn episode_title(tail: &[char]) -> (r: Option<String>)
    ensures
        text::opt_chars(r) == episode_title_of(tail@),
{
    let rest = trimmed_start(tail);
    if rest.len() == 0 || !(rest[0] == '-' || rest[0] == '\u{2013}') {
        return None;
    }
    let name = clean_title(slice_subrange(rest, 1, rest.len()), None);
    let cleaned = trimmed(&name);
    if cleaned.len() == 0 {
        None
    } else {
        Some(from_chars(cleaned))
    }
}

/// [`parse`], on characters.
fn parse_chars(name: &[char]) -> (r: ParsedName)
    ensures
        r@ == parsed(name@),
{
    let stem = strip_extension(name);
    // A bracketed *year* is signal where every other group is noise, so it is
    // read before the groups are dropped.
    let bracketed = bracketed_year(stem);
    let rest = strip_bracketed(stem);
    let bare = if bracketed.is_none() {
        bare_year(&rest)
    } else {
        None
    };
    let year = match bare {
        Some((year, _)) => Some(year),
        None => bracketed,
    };
    let found = find_numbering(&rest);
    // Without numbering the title ends at the bare year, because everything
    // past it is source and codec tags.
    let title_end = match found {
        Some(m) => m.start,
        None => match bare {
            Some((_, at)) => at,
            None => rest.len(),
        },
    };
    let title_span = slice_subrange(&rest, 0, title_end);
    assert(title_span@ =~= rest@.take(title_end as int));
    let title = from_chars(&clean_title(title_span, year));
    let own_title = match found {
        Some(m) => episode_title(slice_subrange(&rest, m.end, rest.len())),
        None => None,
    };
    ParsedName {
        title,
        season: match found {
            Some(m) => m.numbering.season,
            None => None,
        },
        episode: match found {
            Some(m) => m.numbering.episode,
            None => None,
        },
        year,
        episode_title: own_title,
    }
}

/// Parse a filename (with or without its extension) into a title and numbering.
///
/// Never fails: an unrecognisable name yields its cleaned-up self as the title
/// with nothing else filled in. A catalog with a wrong title is recoverable; one
/// that drops files it could not parse is not.
pub fn parse(file_name: &str) -> (r: ParsedName)
    ensures
        r@ == parsed(file_name@),
{
    parse_chars(&to_chars(file_name))
}

/// What a folder contributes to the files beneath it.
///
/// A library is organised as `<Series>/Season 01/<file>.mkv` far more often than
/// it is named `<Series> - S01E01.mkv`, so for most real collections the folder
/// path, not the filename, is where the title lives.
#[derive(Debug, PartialEq, Eq)]
pub enum FolderRole {
    /// `Season 01`, `S02`: states a season and nothing else.
    Season(u32),
    /// `Movies`, `OVA`, `Specials`: groups files without naming them. Skipped
    /// when looking for a title; the folder above it is the series.
    Container,
    /// Anything else: the folder names the series or film.
    Title(Box<ParsedName>),
}

/// A [`FolderRole`] with its strings taken as sequences of characters.
pub enum FolderView {
    Season(u32),
    Container,
    Title(ParsedView),
}

impl View for FolderRole {
    type V = FolderView;

    open spec fn view(&self) -> FolderView {
        match *self {
            FolderRole::Season(n) => FolderView::Season(n),
            FolderRole::Container => FolderView::Container,
            FolderRole::Title(p) => FolderView::Title(p@),
        }
    }
}

impl Clone for FolderRole {
    fn clone(&self) -> (r: Self)
        ensures
            r == *self,
    {
        match self {
            FolderRole::Season(n) => FolderRole::Season(*n),
            FolderRole::Container => FolderRole::Container,
            FolderRole::Title(p) => FolderRole::Title(Box::new((**p).clone())),
        }
    }
}

/// Folder names that group without naming.
pub open spec fn is_container_name(s: Seq<char>) -> bool {
    ||| s == "movies"@
    ||| s == "movie"@
    ||| s == "films"@
    ||| s == "film"@
    ||| s == "ova"@
    ||| s == "ovas"@
    ||| s == "oad"@
    ||| s == "oads"@
    ||| s == "specials"@
    ||| s == "special"@
    ||| s == "sp"@
    ||| s == "extras"@
    ||| s == "extra"@
    ||| s == "bonus"@
    ||| s == "ncop"@
    ||| s == "nced"@
    ||| s == "creditless"@
    ||| s == "subs"@
    ||| s == "subtitles"@
}

/// The season a lowered folder name states when it states nothing else:
/// `season 01`, `s01`, `3rd season`.
pub open spec fn season_folder_of(l: Seq<char>) -> Option<u32> {
    let worded = worded_season_of(l);
    if worded is Some && (worded->0).start == 0 && text::trim(
        l.subrange((worded->0).end, l.len() as int),
    ).len() == 0 {
        (worded->0).season
    } else if "season"@.is_prefix_of(l) {
        only_digits(text::trim_start_set(l.subrange(6, l.len() as int), joints()))
    } else if l.len() > 0 && l[0] == 's' {
        only_digits(text::trim_start_set(l.subrange(1, l.len() as int), joints()))
    } else {
        None
    }
}

/// The number that `s` is, when it is nothing but digits and fits 32 bits.
pub open spec fn only_digits(s: Seq<char>) -> Option<u32> {
    if s.len() > 0 && text::all_digits(s) && text::digits_value(s) <= u32::MAX {
        Some(text::digits_value(s) as u32)
    } else {
        None
    }
}

/// `<series> … S03` or `<series> … Season 3`, split into the series and the
/// season. The keyword is required, and so is a series.
pub open spec fn trailing_season_of(name: Seq<char>) -> Option<(Seq<char>, u32)> {
    let whole = text::trim_end(name);
    let at = text::digits_start(whole, whole.len() as int);
    let head = whole.take(at);
    let season = only_digits(whole.subrange(at, whole.len() as int));
    if at == 0 || season is None {
        None
    } else {
        match series_before(head) {
            Some(series) => Some((series, season->0)),
            None => None,
        }
    }
}

/// The series in front of a season keyword that `head` ends with.
pub open spec fn series_before(head: Seq<char>) -> Option<Seq<char>> {
    let glued = head.drop_last();
    let spelled = text::trim_end_set(head, joints());
    let series = if head.len() > 1 && (head.last() == 's' || head.last() == 'S')
        && joints().contains(glued.last()) {
        text::trim_end_set(glued, joints())
    } else if "season"@.is_suffix_of(text::lower(spelled)) {
        text::trim_end_set(spelled.take(spelled.len() - 6), joints())
    } else {
        Seq::empty()
    };
    if series.len() > 0 {
        Some(series)
    } else {
        None
    }
}

/// What a folder name says about the files inside it.
pub open spec fn folder_role(name: Seq<char>) -> FolderView {
    let whole = text::trim(name);
    let l = text::lower(whole);
    match season_folder_of(l) {
        Some(season) => FolderView::Season(season),
        None => if is_container_name(l) {
            FolderView::Container
        } else {
            FolderView::Title(series_folder(whole))
        },
    }
}

/// A folder that names a series, and perhaps its season too.
pub open spec fn series_folder(whole: Seq<char>) -> ParsedView {
    let plain = parsed(whole);
    match trailing_season_of(whole) {
        Some((series, season)) => if plain.season is None && parsed(series).title.len() > 0 {
            ParsedView { season: Some(season), ..parsed(series) }
        } else {
            plain
        },
        None => plain,
    }
}

/// A name that states a season and nothing else.
pub open spec fn states_only_a_season(name: Seq<char>) -> bool {
    let whole = text::trim(name);
    let p = parsed(whole);
    &&& whole.len() > 0
    &&& {
        ||| season_folder_of(text::lower(whole)) is Some
        ||| p.title.len() == 0 && p.season is Some && p.episode is None
    }
}

/// The containers that can be played.
pub open spec fn is_video_extension(s: Seq<char>) -> bool {
    ||| s == "mkv"@
    ||| s == "mp4"@
    ||| s == "m4v"@
    ||| s == "avi"@
    ||| s == "mov"@
    ||| s == "webm"@
    ||| s == "ts"@
    ||| s == "m2ts"@
    ||| s == "mts"@
    ||| s == "mpg"@
    ||| s == "mpeg"@
    ||| s == "wmv"@
    ||| s == "flv"@
    ||| s == "ogv"@
    ||| s == "ogm"@
    ||| s == "asf"@
    ||| s == "rmvb"@
    ||| s == "divx"@
    ||| s == "vob"@
}

/// A name whose last dot introduces the extension of a playable container.
pub open spec fn names_a_video(s: Seq<char>) -> bool {
    match text::last_index(s, '.') {
        Some(k) => is_video_extension(text::lower(s.subrange(k + 1, s.len() as int))),
        None => false,
    }
}

fn groups_without_naming(l: &[char]) -> (r: bool)
    ensures
        r == is_container_name(l@),
{
    is_word(l, "movies") || is_word(l, "movie") || is_word(l, "films") || is_word(l, "film")
        || is_word(l, "ova") || is_word(l, "ovas") || is_word(l, "oad") || is_word(l, "oads")
        || is_word(l, "specials") || is_word(l, "special") || is_word(l, "sp") || is_word(
        l,
        "extras",
    ) || is_word(l, "extra") || is_word(l, "bonus") || is_word(l, "ncop") || is_word(l, "nced")
        || is_word(l, "creditless") || is_word(l, "subs") || is_word(l, "subtitles")
}

fn digits_only(v: &[char]) -> (r: Option<u32>)
    ensures
        r == only_digits(v@),
{
    if v.len() == 0 || !chars_all_digits(v) {
        return None;
    }
    small_value_of_digits(v)
}

/// `season 01`, `season 1`, `s01`, `3rd season`, and nothing else in the name.
fn season_folder(l: &[char]) -> (r: Option<u32>)
    ensures
        r == season_folder_of(l@),
{
    // The ordinal form first: a folder called `3rd season` must not become a
    // title called that.
    match find_worded_season(l) {
        Some(matched) => {
            if matched.start == 0 && trimmed(slice_subrange(l, matched.end, l.len())).len() == 0 {
                return matched.numbering.season;
            }
        },
        None => {},
    }
    let joints = joint_chars();
    let keyword = to_chars("season");
    proof {
        reveal_strlit("season");
        text::lemma_prefix_stands(l@, "season"@);
    }
    if chars_stand_at(l, &keyword, 0) {
        digits_only(trimmed_start_set(slice_subrange(l, 6, l.len()), &joints))
    } else if l.len() > 0 && l[0] == 's' {
        digits_only(trimmed_start_set(slice_subrange(l, 1, l.len()), &joints))
    } else {
        None
    }
}

/// The series in front of a season keyword.
fn series_head<'a>(head: &'a [char]) -> (r: Option<&'a [char]>)
    ensures
        match r {
            Some(s) => series_before(head@) == Some(s@),
            None => series_before(head@) is None,
        },
{
    let joints = joint_chars();
    // `… S03`: the marker is glued to the number and stands alone as a token, so
    // a series whose own name ends in `s` keeps its last letter.
    if head.len() > 1 && (head[head.len() - 1] == 's' || head[head.len() - 1] == 'S') {
        let glued = slice_subrange(head, 0, head.len() - 1);
        assert(glued@ =~= head@.drop_last());
        if text::in_set(&joints, glued[glued.len() - 1]) {
            let series = trimmed_end_set(glued, &joints);
            return if series.len() > 0 {
                Some(series)
            } else {
                None
            };
        }
    }
    // `… Season 3`.
    let spelled = trimmed_end_set(head, &joints);
    let lowered = to_lower(spelled);
    let keyword = to_chars("season");
    proof {
        reveal_strlit("season");
        text::lemma_prefix_stands(lowered@, "season"@);
    }
    if spelled.len() < 6 || !chars_stand_at(&lowered, &keyword, spelled.len() - 6) {
        return None;
    }
    let front = slice_subrange(spelled, 0, spelled.len() - 6);
    assert(front@ =~= spelled@.take(spelled@.len() - 6));
    let series = trimmed_end_set(front, &joints);
    if series.len() > 0 {
        Some(series)
    } else {
        None
    }
}

/// Split `<series> … Season 3` / `<series> … S03` into the series and the
/// season number.
fn trailing_season<'a>(name: &'a [char]) -> (r: Option<(&'a [char], u32)>)
    ensures
        match r {
            Some((s, n)) => trailing_season_of(name@) == Some((s@, n)),
            None => trailing_season_of(name@) is None,
        },
{
    let whole = trimmed_end(name);
    let at = start_of_digits(whole, whole.len());
    if at == 0 {
        return None;
    }
    let head = slice_subrange(whole, 0, at);
    assert(head@ =~= whole@.take(at as int));
    match digits_only(slice_subrange(whole, at, whole.len())) {
        Some(season) => match series_head(head) {
            Some(series) => Some((series, season)),
            None => None,
        },
        None => None,
    }
}

/// What a folder name says about the files inside it.
pub fn classify_folder(name: &str) -> (r: FolderRole)
    ensures
        r@ == folder_role(name@),
{
    let chars = to_chars(name);
    let whole = trimmed(&chars);
    let l = to_lower(whole);
    match season_folder(&l) {
        Some(season) => {
            return FolderRole::Season(season);
        },
        None => {},
    }
    if groups_without_naming(&l) {
        return FolderRole::Container;
    }
    // `Game of Thrones - Season 1` names the series *and* its season. Read both,
    // or the shelf grows one poster per season of the same show.
    let plain = parse_chars(whole);
    if plain.season.is_none() {
        match trailing_season(whole) {
            Some((series, season)) => {
                let mut from_series = parse_chars(series);
                if !from_series.title.as_str().is_empty() {
                    from_series.season = Some(season);
                    assert(from_series@ =~= series_folder(whole@));
                    return FolderRole::Title(Box::new(from_series));
                }
            },
            None => {},
        }
    }
    FolderRole::Title(Box::new(plain))
}

/// Whether a name states a season and nothing else: `3rd Season`, `Season 2`,
/// `S03`.
///
/// Asked before keeping the remains of a filename as the episode's own name:
/// `[DB]Oshi no Ko 3rd Season - 07.mkv` under a folder called `Oshi no Ko`
/// leaves `3rd Season` behind, and that is not what episode seven is called.
pub fn is_season_marker(text: &str) -> (r: bool)
    ensures
        r == states_only_a_season(text@),
{
    let chars = to_chars(text);
    let whole = trimmed(&chars);
    if whole.len() == 0 {
        return false;
    }
    if season_folder(&to_lower(whole)).is_some() {
        return true;
    }
    let p = parse_chars(whole);
    p.title.as_str().is_empty() && p.season.is_some() && p.episode.is_none()
}

/// Whether a filename names something playable.
///
/// A list rather than "anything that is not obviously metadata": a share holds
/// `.nfo`, `.txt` and `.jpg` alongside the video, and a catalog that offers those
/// as episodes is worse than one that omits an exotic container.
pub fn is_video_file(name: &str) -> (r: bool)
    ensures
        r == names_a_video(name@),
{
    let chars = to_chars(name);
    match last_index_of(&chars, '.') {
        Some(k) => {
            let len: usize = chars.len();
            let l = to_lower(slice_subrange(&chars, k + 1, len));
            is_word(&l, "mkv") || is_word(&l, "mp4") || is_word(&l, "m4v") || is_word(&l, "avi")
                || is_word(&l, "mov") || is_word(&l, "webm") || is_word(&l, "ts") || is_word(
                &l,
                "m2ts",
            ) || is_word(&l, "mts") || is_word(&l, "mpg") || is_word(&l, "mpeg") || is_word(
                &l,
                "wmv",
            ) || is_word(&l, "flv") || is_word(&l, "ogv") || is_word(&l, "ogm") || is_word(
                &l,
                "asf",
            ) || is_word(&l, "rmvb") || is_word(&l, "divx") || is_word(&l, "vob")
        },
        None => false,
    }
}

// ---------------------------------------------------------------------------
// What holds of every name
// ---------------------------------------------------------------------------

/// Text that can stand as a title: no separator but single spaces, and white
/// space at neither end.
pub open spec fn is_clean(s: Seq<char>) -> bool {
    &&& s.len() > 0 ==> !text::is_white(s[0]) && !text::is_white(s.last())
    &&& forall|i: int| 0 <= i < s.len() ==> #[trigger] s[i] != '.' && s[i] != '_'
    &&& forall|i: int| 0 <= i < s.len() - 1 ==> !(#[trigger] s[i] == ' ' && s[i + 1] == ' ')
}

proof fn lemma_clean_title(raw: Seq<char>, year: Option<u32>)
    ensures
        is_clean(clean_title_of(raw, year)),
{
    let words = match year {
        Some(y) => text::replace_all(spaced(raw), text::decimal(y as nat), seq![' ']),
        None => spaced(raw),
    };
    if let Some(y) = year {
        text::lemma_replace_all(spaced(raw), text::decimal(y as nat), seq![' ']);
    }
    assert forall|i: int| 0 <= i < words.len() implies #[trigger] words[i] != '.' && words[i]
        != '_' by {}
    let once = text::trim(words);
    let cut = text::trim_end_set(once, debris());
    let twice = text::trim(cut);
    text::lemma_trim(words);
    text::lemma_trim_end_set_prefix(once, debris());
    text::lemma_trim(cut);
    text::lemma_collapse(twice);
    assert forall|i: int| 0 <= i < once.len() implies #[trigger] once[i] != '.' && once[i] != '_' by {
        assert(words.contains(once[i]));
    }
    assert forall|i: int| 0 <= i < twice.len() implies #[trigger] twice[i] != '.' && twice[i]
        != '_' by {
        assert(cut.contains(twice[i]));
        let k = choose|k: int| 0 <= k < cut.len() && cut[k] == twice[i];
        assert(cut[k] == once[k]);
    }
    let out = text::collapse(twice);
    assert forall|i: int| 0 <= i < out.len() implies #[trigger] out[i] != '.' && out[i] != '_' by {
        assert(twice.contains(out[i]));
    }
}

/// Whatever the name, the title read out of it is clean: dots and underscores
/// have become single spaces, and nothing white is left at either end.
pub proof fn law_titles_are_clean(name: Seq<char>)
    ensures
        is_clean(parsed(name).title),
{
    let rest = without_groups(stem(name));
    let bracketed = bracketed_year_of(stem(name));
    let bare = if bracketed is None {
        bare_year_of(rest)
    } else {
        None
    };
    let title_end = match numbering_of(rest) {
        Some(m) => m.start,
        None => match bare {
            Some((_, at)) => at,
            None => rest.len() as int,
        },
    };
    lemma_clean_title(rest.take(title_end), parsed(name).year);
}

/// A year that is read lies between 1900 and 2999, so neither a resolution nor a
/// checksum of four digits can be taken for one.
pub proof fn law_years_are_plausible(name: Seq<char>)
    ensures
        parsed(name).year matches Some(y) ==> 1900 <= y <= 2999,
{
    let st = stem(name);
    let rest = without_groups(st);
    text::lemma_first_from(0, st.len() - 5, bracketed_year_at(st));
    text::lemma_first_from(0, rest.len() - 3, bare_year_at(rest));
}

/// Numbering that carries its keyword is read the same in capitals and in small
/// letters.
pub proof fn law_keyworded_numbering_ignores_case(s: Seq<char>)
    ensures
        season_episode_of(text::lower(s)) == season_episode_of(s),
        worded_season_of(text::lower(s)) == worded_season_of(s),
        cross_numbering_of(text::lower(s)) == cross_numbering_of(s),
{
    text::lemma_lower_idempotent(s);
}

/// Whether a name is a video does not depend on the case it is written in.
pub proof fn law_video_names_ignore_case(s: Seq<char>)
    ensures
        names_a_video(text::lower(s)) == names_a_video(s),
{
    let l = text::lower(s);
    let n = s.len() as int;
    text::lemma_last_before(0, n, text::holds_char(s, '.'));
    text::lemma_last_before(0, n, text::holds_char(l, '.'));
    assert forall|i: int| 0 <= i < n implies (#[trigger] s[i] == '.') == (l[i] == '.') by {}
    let a = text::last_index(s, '.');
    let b = text::last_index(l, '.');
    match a {
        Some(i) => {
            assert(text::holds_char(l, '.')(i));
            assert(b is Some);
            assert(text::holds_char(s, '.')(b->0));
            assert(b == a);
            let ext = s.subrange(i + 1, n);
            assert(l.subrange(i + 1, n) =~= text::lower(ext));
            text::lemma_lower_idempotent(ext);
        },
        None => {
            if let Some(j) = b {
                assert(text::holds_char(s, '.')(j));
            }
        },
    }
}

/// A name reads the same with its extension and without it. What is left of it
/// must not look like a name with an extension of its own.
pub proof fn law_extension_is_optional(name: Seq<char>)
    requires
        stem(stem(name)) == stem(name),
    ensures
        parsed(stem(name)) == parsed(name),
{
}

} // verus!
