//! Catalog rows, grouped into what a poster wall shows.
//!
//! The catalog is flat: one row per file, with whatever the parser made of its
//! path. A poster wall wants the other shape: titles, each with seasons, each
//! with episodes, and the one episode the viewer should land on when they click.
//!
//! * **Titles merge across shares.** Two shares holding the same series are one
//!   poster, not two. The grouping key is the normalised title.
//! * **Watch state is joined in, not looked up per draw.**

use vstd::prelude::*;

use crate::catalog::find_watch;
use crate::catalog::CatalogNode;
use crate::catalog::WatchEntry;
use crate::catalog::WatchState;
use crate::catalog;
use crate::keys::sort_name;
pub use crate::keys::title_key;
use crate::keys;
use crate::order::sort_ranked;
use crate::order::Ranked;
use crate::order;
use crate::text::chars_contain;
use crate::text::from_chars;
use crate::text::owned;
use crate::text::to_chars;
use crate::text::trimmed;
use crate::text;
use crate::unicode;

verus! {

/// A file has been watched once playback passed this many hundredths of it.
/// Short of the whole because nobody sits through the credits, and a title that
/// never reaches "finished" keeps offering an episode the viewer is done with.
pub const WATCHED_PERCENT: u64 = 90;

/// Playback below this many milliseconds is not a resume point: it is a file the
/// viewer opened and immediately left.
pub const RESUME_FLOOR_MS: u64 = 30_000;

/// Whether a title is a series or a one-off.
#[derive(Debug, Clone, Copy, PartialEq, Eq, Structural)]
pub enum TitleKind {
    Series,
    Film,
}

/// How much of a file has been played: `played` out of `of`, which is not zero.
#[derive(Debug, Clone, Copy, PartialEq, Eq, Structural)]
pub struct Progress {
    pub played: u64,
    pub of: u64,
}

/// One playable file, with where the viewer left off in it.
#[derive(Debug, PartialEq, Eq)]
pub struct Episode {
    pub node: CatalogNode,
    pub watch: Option<WatchState>,
}

impl Clone for Episode {
    fn clone(&self) -> (r: Self)
        ensures
            r == *self,
    {
        Episode { node: self.node.clone(), watch: self.watch }
    }
}

impl Episode {
    /// The numbering as it is printed.
    pub open spec fn numbering_text(self) -> Option<Seq<char>> {
        match (self.node.parsed.season, self.node.parsed.episode) {
            (Some(season), Some(episode)) => Some(
                seq!['S'] + text::padded(season as nat, 2) + seq!['E'] + text::padded(
                    episode as nat,
                    2,
                ),
            ),
            (None, Some(episode)) => Some(seq!['#'] + text::padded(episode as nat, 3)),
            _ => None,
        }
    }

    /// How far playback got, never past the end.
    pub open spec fn played(self) -> Option<Progress> {
        match self.watch {
            Some(watch) => match watch.duration_ms {
                Some(duration) => if duration == 0 {
                    None
                } else {
                    Some(
                        Progress {
                            played: if watch.position_ms <= duration {
                                watch.position_ms
                            } else {
                                duration
                            },
                            of: duration,
                        },
                    )
                },
                None => None,
            },
            None => None,
        }
    }

    /// Whether this counts as seen.
    pub open spec fn seen(self) -> bool {
        ||| self.watch is Some && (self.watch->0).watched
        ||| self.played() is Some && (self.played()->0).played * 100 >= (self.played()->0).of
            * WATCHED_PERCENT
    }

    /// Where playback would resume.
    pub open spec fn resumes(self) -> Option<u64> {
        match self.watch {
            Some(watch) => if self.seen() || watch.position_ms < RESUME_FLOOR_MS {
                None
            } else {
                Some(watch.position_ms)
            },
            None => None,
        }
    }

    /// When playback last touched this file.
    pub open spec fn touched(self) -> i64 {
        match self.watch {
            Some(watch) => watch.updated_at,
            None => 0,
        }
    }

    /// `S01E02`, `#014`, or nothing when the name numbers nothing.
    pub fn numbering(&self) -> (r: Option<String>)
        ensures
            text::opt_chars(r) == self.numbering_text(),
    {
        match self.node.parsed.episode {
            Some(episode) => match self.node.parsed.season {
                Some(season) => {
                    let mut out: Vec<char> = Vec::new();
                    out.push('S');
                    out.append(&mut text::padded_of(season as u64, 2));
                    out.push('E');
                    out.append(&mut text::padded_of(episode as u64, 2));
                    assert(out@ =~= seq!['S'] + text::padded(season as nat, 2) + seq!['E']
                        + text::padded(episode as nat, 2));
                    Some(from_chars(&out))
                },
                None => {
                    let mut out: Vec<char> = Vec::new();
                    out.push('#');
                    out.append(&mut text::padded_of(episode as u64, 3));
                    assert(out@ =~= seq!['#'] + text::padded(episode as nat, 3));
                    Some(from_chars(&out))
                },
            },
            None => None,
        }
    }

    /// What to put on the row: the episode's own name when the filename stated
    /// one, else the numbering, else the filename.
    pub fn label(&self) -> (r: String)
        ensures
            r@ == match self.node.parsed.episode_title {
                Some(title) => title@,
                None => match self.numbering_text() {
                    Some(numbering) => numbering,
                    None => self.node.name@,
                },
            },
    {
        match &self.node.parsed.episode_title {
            Some(title) => title.clone(),
            None => match self.numbering() {
                Some(numbering) => numbering,
                None => self.node.name.clone(),
            },
        }
    }

    /// What to put on a row that already shows the numbering beside it: the
    /// episode's own name when the filename stated one, else the filename.
    ///
    /// Deliberately not [`Self::label`], which falls back to the numbering and on
    /// an episode row would print it twice.
    pub fn detail(&self) -> (r: &str)
        ensures
            r@ == match self.node.parsed.episode_title {
                Some(title) => title@,
                None => self.node.name@,
            },
    {
        match &self.node.parsed.episode_title {
            Some(title) => title.as_str(),
            None => self.node.name.as_str(),
        }
    }

    /// How much of the file was played, when both a position and a duration are
    /// known. `None` for a file that was never opened.
    pub fn progress(&self) -> (r: Option<Progress>)
        ensures
            r == self.played(),
            r matches Some(p) ==> p.played <= p.of && p.of > 0,
    {
        match self.watch {
            Some(watch) => match watch.duration_ms {
                Some(duration) => if duration == 0 {
                    None
                } else {
                    Some(
                        Progress {
                            played: if watch.position_ms <= duration {
                                watch.position_ms
                            } else {
                                duration
                            },
                            of: duration,
                        },
                    )
                },
                None => None,
            },
            None => None,
        }
    }

    /// Whether this counts as seen. Either the flag was set explicitly, or
    /// playback got far enough that setting it is what the viewer meant.
    pub fn is_watched(&self) -> (r: bool)
        ensures
            r == self.seen(),
    {
        let flagged = match self.watch {
            Some(watch) => watch.watched,
            None => false,
        };
        flagged || match self.progress() {
            Some(p) => (p.played as u128) * 100 >= (p.of as u128) * 90,
            None => false,
        }
    }

    /// Where to resume, in milliseconds, or `None` to start from the beginning.
    /// A file barely started, or effectively finished, starts over.
    pub fn resume_at(&self) -> (r: Option<u64>)
        ensures
            r == self.resumes(),
    {
        match self.watch {
            Some(watch) => if self.is_watched() || watch.position_ms < RESUME_FLOOR_MS {
                None
            } else {
                Some(watch.position_ms)
            },
            None => None,
        }
    }

    /// When playback last touched this file. `0` for one never opened, so it
    /// sorts below everything that was.
    pub fn last_played(&self) -> (r: i64)
        ensures
            r == self.touched(),
    {
        match self.watch {
            Some(watch) => watch.updated_at,
            None => 0,
        }
    }
}

/// An absent number comes before every number.
pub open spec fn number_lt(a: Option<u32>, b: Option<u32>) -> bool {
    match (a, b) {
        (None, Some(_)) => true,
        (Some(x), Some(y)) => x < y,
        _ => false,
    }
}

impl Ranked for Episode {
    /// By episode number, then by filename.
    open spec fn before(self, other: Self) -> bool {
        ||| number_lt(self.node.parsed.episode, other.node.parsed.episode)
        ||| self.node.parsed.episode == other.node.parsed.episode && order::text_lt(
            self.node.name@,
            other.node.name@,
        )
    }

    fn goes_before(&self, other: &Self) -> (r: bool) {
        match (self.node.parsed.episode, other.node.parsed.episode) {
            (None, Some(_)) => true,
            (Some(_), None) => false,
            (Some(x), Some(y)) => x < y || (x == y && order::chars_lt(
                &to_chars(self.node.name.as_str()),
                &to_chars(other.node.name.as_str()),
            )),
            (None, None) => order::chars_lt(
                &to_chars(self.node.name.as_str()),
                &to_chars(other.node.name.as_str()),
            ),
        }
    }
}

/// The episodes of one season, or the unnumbered pile when a library uses
/// absolute numbering.
#[derive(Debug, PartialEq, Eq)]
pub struct Season {
    /// `None` when the names state no season. That is not season 1: an
    /// absolute-numbered anime and a film both land here.
    pub number: Option<u32>,
    pub episodes: Vec<Episode>,
}

/// A [`Season`] with its episodes taken as a sequence.
#[verifier::ext_equal]
pub struct SeasonView {
    pub number: Option<u32>,
    pub episodes: Seq<Episode>,
}

impl View for Season {
    type V = SeasonView;

    open spec fn view(&self) -> SeasonView {
        SeasonView { number: self.number, episodes: self.episodes@ }
    }
}

impl Clone for Season {
    fn clone(&self) -> (r: Self)
        ensures
            r@ == self@,
    {
        let episodes = self.episodes.clone();
        assert(episodes@ =~= self.episodes@);
        Season { number: self.number, episodes }
    }
}

/// Numbered seasons by their number, the unnumbered pile last: it is the
/// specials pile, not season 0.
pub open spec fn season_lt(a: Option<u32>, b: Option<u32>) -> bool {
    match (a, b) {
        (Some(_), None) => true,
        (Some(x), Some(y)) => x < y,
        _ => false,
    }
}

impl Ranked for Season {
    open spec fn before(self, other: Self) -> bool {
        season_lt(self.number, other.number)
    }

    fn goes_before(&self, other: &Self) -> (r: bool) {
        match (self.number, other.number) {
            (Some(_), None) => true,
            (Some(x), Some(y)) => x < y,
            _ => false,
        }
    }
}

impl Season {
    /// What to print above the season.
    pub fn label(&self) -> (r: String)
        ensures
            r@ == match self.number {
                Some(number) => "Season "@ + text::decimal(number as nat),
                None => "Episodes"@,
            },
    {
        match self.number {
            Some(number) => {
                let mut out = owned("Season ");
                let digits = from_chars(&text::decimal_of(number as u64));
                out.push_str(digits.as_str());
                out
            },
            None => owned("Episodes"),
        }
    }
}

/// A series or a film: everything under one title, across every share.
#[derive(Debug, PartialEq, Eq)]
pub struct Title {
    /// Stable identity to route on and for caches to key on.
    pub key: String,
    /// What to print.
    pub name: String,
    pub year: Option<u32>,
    pub kind: TitleKind,
    pub seasons: Vec<Season>,
    /// Every share contributing files, in first-seen order.
    pub share_ids: Vec<String>,
}

/// A [`Title`] with its strings and lists taken as sequences.
#[verifier::ext_equal]
pub struct TitleView {
    pub key: Seq<char>,
    pub name: Seq<char>,
    pub year: Option<u32>,
    pub kind: TitleKind,
    pub seasons: Seq<SeasonView>,
    pub share_ids: Seq<Seq<char>>,
}

/// The views of a list of seasons.
pub open spec fn season_views(s: Seq<Season>) -> Seq<SeasonView> {
    s.map_values(|x: Season| x@)
}

impl View for Title {
    type V = TitleView;

    open spec fn view(&self) -> TitleView {
        TitleView {
            key: self.key@,
            name: self.name@,
            year: self.year,
            kind: self.kind,
            seasons: season_views(self.seasons@),
            share_ids: text::texts(self.share_ids@),
        }
    }
}

impl Clone for Title {
    fn clone(&self) -> (r: Self)
        ensures
            r@ == self@,
    {
        let seasons = self.seasons.clone();
        assert(season_views(seasons@) =~= season_views(self.seasons@));
        Title {
            key: self.key.clone(),
            name: self.name.clone(),
            year: self.year,
            kind: self.kind,
            seasons,
            share_ids: text::copy_strings(&self.share_ids),
        }
    }
}

/// The episodes of `seasons`, one season after the other.
pub open spec fn flat(seasons: Seq<SeasonView>) -> Seq<Episode>
    decreases seasons.len(),
{
    if seasons.len() == 0 {
        Seq::empty()
    } else {
        flat(seasons.drop_last()) + seasons.last().episodes
    }
}

/// The position of the episode to resume: of those that can be resumed, the one
/// played last, and of several such the last in order.
pub open spec fn resume_index(episodes: Seq<Episode>) -> Option<int>
    decreases episodes.len(),
{
    if episodes.len() == 0 {
        None
    } else {
        let best = resume_index(episodes.drop_last());
        if episodes.last().resumes() is Some && (best is None || episodes[best->0].touched()
            <= episodes.last().touched()) {
            Some(episodes.len() - 1)
        } else {
            best
        }
    }
}

pub open spec fn unwatched(episodes: Seq<Episode>) -> spec_fn(int) -> bool {
    |i: int| !episodes[i].seen()
}

/// The position of what a click on the poster plays.
pub open spec fn next_up_index(episodes: Seq<Episode>) -> Option<int> {
    let fresh = text::first_from(0, episodes.len() as int, unwatched(episodes));
    if resume_index(episodes) is Some {
        resume_index(episodes)
    } else if fresh is Some {
        fresh
    } else if episodes.len() > 0 {
        Some(0)
    } else {
        None
    }
}

pub open spec fn is_file(
    episodes: Seq<Episode>,
    share_id: Seq<char>,
    link_id: Seq<char>,
) -> spec_fn(int) -> bool {
    |i: int| episodes[i].node.share_id@ == share_id && episodes[i].node.link_id@ == link_id
}

/// Where a file sits among `episodes`.
pub open spec fn file_index(
    episodes: Seq<Episode>,
    share_id: Seq<char>,
    link_id: Seq<char>,
) -> Option<int> {
    text::first_from(0, episodes.len() as int, is_file(episodes, share_id, link_id))
}

/// The latest time any of `episodes` was played; `0` when there are none.
pub open spec fn last_touched(episodes: Seq<Episode>) -> i64
    decreases episodes.len(),
{
    if episodes.len() == 0 {
        0
    } else if episodes.len() == 1 || last_touched(episodes.drop_last())
        <= episodes.last().touched() {
        episodes.last().touched()
    } else {
        last_touched(episodes.drop_last())
    }
}

/// How many of `episodes` are seen.
pub open spec fn seen_count(episodes: Seq<Episode>) -> nat
    decreases episodes.len(),
{
    if episodes.len() == 0 {
        0
    } else {
        seen_count(episodes.drop_last()) + if episodes.last().seen() {
            1nat
        } else {
            0nat
        }
    }
}

/// An episode at a position of a list, as a borrowed result.
pub open spec fn is_at(r: Option<&Episode>, episodes: Seq<Episode>, at: Option<int>) -> bool {
    match r {
        Some(e) => at is Some && 0 <= at->0 < episodes.len() && *e == episodes[at->0],
        None => at is None,
    }
}

impl Title {
    /// Every episode, in display order.
    pub open spec fn all(&self) -> Seq<Episode> {
        flat(self@.seasons)
    }

    /// Every episode, in display order.
    pub fn episodes(&self) -> (r: Vec<&Episode>)
        ensures
            r@.len() == self.all().len(),
            forall|i: int| 0 <= i < r@.len() ==> *(#[trigger] r@[i]) == self.all()[i],
    {
        let mut out: Vec<&Episode> = Vec::new();
        let mut s: usize = 0;
        let ghost views = self@.seasons;
        while s < self.seasons.len()
            invariant
                s <= self.seasons@.len(),
                views == self@.seasons,
                out@.len() == flat(views.take(s as int)).len(),
                forall|i: int|
                    0 <= i < out@.len() ==> *(#[trigger] out@[i]) == flat(views.take(s as int))[i],
            decreases self.seasons.len() - s,
        {
            let season = &self.seasons[s];
            let ghost so_far = flat(views.take(s as int));
            assert(views.take(s + 1).drop_last() =~= views.take(s as int));
            assert(views.take(s + 1).last() == season@);
            let mut e: usize = 0;
            while e < season.episodes.len()
                invariant
                    e <= season.episodes@.len(),
                    out@.len() == so_far.len() + e,
                    forall|i: int|
                        0 <= i < out@.len() ==> *(#[trigger] out@[i]) == (so_far
                            + season.episodes@)[i],
                decreases season.episodes.len() - e,
            {
                out.push(&season.episodes[e]);
                e += 1;
            }
            s += 1;
        }
        assert(views.take(views.len() as int) =~= views);
        out
    }

    pub fn episode_count(&self) -> (r: usize)
        ensures
            r == self.all().len(),
    {
        self.episodes().len()
    }

    pub fn watched_count(&self) -> (r: usize)
        ensures
            r == seen_count(self.all()),
    {
        let episodes = self.episodes();
        let ghost all = self.all();
        let mut count: usize = 0;
        let mut i: usize = 0;
        while i < episodes.len()
            invariant
                i <= episodes@.len(),
                episodes@.len() == all.len(),
                forall|j: int| 0 <= j < all.len() ==> *(#[trigger] episodes@[j]) == all[j],
                count <= i,
                count == seen_count(all.take(i as int)),
            decreases episodes.len() - i,
        {
            assert(all.take(i + 1).drop_last() =~= all.take(i as int));
            assert(*episodes@[i as int] == all[i as int]);
            if episodes[i].is_watched() {
                count += 1;
            }
            i += 1;
        }
        assert(all.take(all.len() as int) =~= all);
        count
    }

    /// Whether the files themselves say this is episodic, rather than the kind
    /// having been inferred from how many of them there are.
    ///
    /// The difference matters to whoever is matching this against a provider: a
    /// folder of three unnumbered films is a `Series` here purely because it
    /// holds three files. Numbering is a statement; a file count is a guess.
    pub fn states_its_numbering(&self) -> (r: bool)
        ensures
            r == exists|i: int|
                0 <= i < self.all().len() && states_numbering(#[trigger] self.all()[i].node),
    {
        let episodes = self.episodes();
        let mut i: usize = 0;
        while i < episodes.len()
            invariant
                i <= episodes@.len(),
                episodes@.len() == self.all().len(),
                forall|j: int| 0 <= j < episodes@.len() ==> *(#[trigger] episodes@[j])
                    == self.all()[j],
                forall|j: int| 0 <= j < i ==> !states_numbering(#[trigger] self.all()[j].node),
            decreases episodes.len() - i,
        {
            let episode = episodes[i];
            assert(*episode == self.all()[i as int]);
            if episode.node.parsed.is_episode() || episode.node.parsed.season.is_some() {
                assert(states_numbering(self.all()[i as int].node));
                return true;
            }
            i += 1;
        }
        false
    }

    /// The file to pull a poster thumbnail from: the first episode there is.
    pub fn poster_node(&self) -> (r: Option<&CatalogNode>)
        ensures
            match r {
                Some(node) => self.all().len() > 0 && *node == self.all()[0].node,
                None => self.all().len() == 0,
            },
    {
        let episodes = self.episodes();
        if episodes.len() > 0 {
            assert(*episodes@[0] == self.all()[0]);
            let first = episodes[0];
            Some(&first.node)
        } else {
            None
        }
    }

    /// The episode that is part-watched, most recently played first.
    pub fn resume(&self) -> (r: Option<&Episode>)
        ensures
            is_at(r, self.all(), resume_index(self.all())),
    {
        let episodes = self.episodes();
        let ghost all = self.all();
        let mut best: Option<usize> = None;
        let mut i: usize = 0;
        while i < episodes.len()
            invariant
                i <= episodes@.len(),
                episodes@.len() == all.len(),
                forall|j: int| 0 <= j < all.len() ==> *(#[trigger] episodes@[j]) == all[j],
                match best {
                    Some(b) => b < i && resume_index(all.take(i as int)) == Some(b as int),
                    None => resume_index(all.take(i as int)) is None,
                },
            decreases episodes.len() - i,
        {
            assert(all.take(i + 1).drop_last() =~= all.take(i as int));
            assert(*episodes@[i as int] == all[i as int]);
            if episodes[i].resume_at().is_some() {
                let newer = match best {
                    Some(b) => {
                        assert(*episodes@[b as int] == all[b as int]);
                        episodes[b].last_played() <= episodes[i].last_played()
                    },
                    None => true,
                };
                if newer {
                    best = Some(i);
                }
            }
            i += 1;
        }
        assert(all.take(all.len() as int) =~= all);
        match best {
            Some(b) => {
                assert(*episodes@[b as int] == all[b as int]);
                Some(episodes[b])
            },
            None => None,
        }
    }

    /// What a click on the poster should play: whatever is part-watched, else
    /// the first unwatched episode, else the first episode.
    pub fn next_up(&self) -> (r: Option<&Episode>)
        ensures
            is_at(r, self.all(), next_up_index(self.all())),
    {
        let resumed = self.resume();
        if resumed.is_some() {
            return resumed;
        }
        let episodes = self.episodes();
        let ghost all = self.all();
        let mut i: usize = 0;
        while i < episodes.len()
            invariant
                i <= episodes@.len(),
                all == self.all(),
                resume_index(all) is None,
                episodes@.len() == all.len(),
                forall|j: int| 0 <= j < all.len() ==> *(#[trigger] episodes@[j]) == all[j],
                text::first_from(0, all.len() as int, unwatched(all)) == text::first_from(
                    i as int,
                    all.len() as int,
                    unwatched(all),
                ),
            decreases episodes.len() - i,
        {
            assert(*episodes@[i as int] == all[i as int]);
            if !episodes[i].is_watched() {
                return Some(episodes[i]);
            }
            i += 1;
        }
        if episodes.len() > 0 {
            assert(*episodes@[0] == all[0]);
            Some(episodes[0])
        } else {
            None
        }
    }

    /// Where a file sits in display order, if it is under this title at all.
    ///
    /// Identity is `(share_id, link_id)`, not the name: a title merged across
    /// two shares can hold two files called `E01.mkv`, and "play the next one"
    /// must not be able to jump between shares by accident.
    pub fn position_of(&self, share_id: &str, link_id: &str) -> (r: Option<usize>)
        ensures
            match r {
                Some(i) => file_index(self.all(), share_id@, link_id@) == Some(i as int) && i
                    < self.all().len(),
                None => file_index(self.all(), share_id@, link_id@) is None,
            },
    {
        let episodes = self.episodes();
        let ghost all = self.all();
        let share = owned(share_id);
        let link = owned(link_id);
        let mut i: usize = 0;
        while i < episodes.len()
            invariant
                i <= episodes@.len(),
                all == self.all(),
                share@ == share_id@,
                link@ == link_id@,
                episodes@.len() == all.len(),
                forall|j: int| 0 <= j < all.len() ==> *(#[trigger] episodes@[j]) == all[j],
                file_index(all, share_id@, link_id@) == text::first_from(
                    i as int,
                    all.len() as int,
                    is_file(all, share_id@, link_id@),
                ),
            decreases episodes.len() - i,
        {
            assert(*episodes@[i as int] == all[i as int]);
            if episodes[i].node.share_id == share && episodes[i].node.link_id == link {
                return Some(i);
            }
            i += 1;
        }
        None
    }

    /// What comes after a file, in display order. `None` at the end of the
    /// title, and for a file that is not part of it.
    pub fn following(&self, share_id: &str, link_id: &str) -> (r: Option<&Episode>)
        ensures
            is_at(
                r,
                self.all(),
                match file_index(self.all(), share_id@, link_id@) {
                    Some(i) => if i + 1 < self.all().len() {
                        Some(i + 1)
                    } else {
                        None
                    },
                    None => None,
                },
            ),
    {
        match self.position_of(share_id, link_id) {
            Some(position) => {
                let episodes = self.episodes();
                let count: usize = episodes.len();
                if position + 1 < count {
                    assert(*episodes@[position + 1] == self.all()[position + 1]);
                    Some(episodes[position + 1])
                } else {
                    None
                }
            },
            None => None,
        }
    }

    /// What comes before it.
    pub fn preceding(&self, share_id: &str, link_id: &str) -> (r: Option<&Episode>)
        ensures
            is_at(
                r,
                self.all(),
                match file_index(self.all(), share_id@, link_id@) {
                    Some(i) => if i > 0 {
                        Some(i - 1)
                    } else {
                        None
                    },
                    None => None,
                },
            ),
    {
        match self.position_of(share_id, link_id) {
            Some(position) => {
                if position > 0 {
                    let episodes = self.episodes();
                    assert(*episodes@[position - 1] == self.all()[position - 1]);
                    Some(episodes[position - 1])
                } else {
                    None
                }
            },
            None => None,
        }
    }

    /// When this title was last played at all.
    pub fn last_played(&self) -> (r: i64)
        ensures
            r == last_touched(self.all()),
    {
        let episodes = self.episodes();
        let ghost all = self.all();
        let mut latest: i64 = 0;
        let mut i: usize = 0;
        while i < episodes.len()
            invariant
                i <= episodes@.len(),
                episodes@.len() == all.len(),
                forall|j: int| 0 <= j < all.len() ==> *(#[trigger] episodes@[j]) == all[j],
                latest == last_touched(all.take(i as int)),
            decreases episodes.len() - i,
        {
            assert(all.take(i + 1).drop_last() =~= all.take(i as int));
            assert(*episodes@[i as int] == all[i as int]);
            let played = episodes[i].last_played();
            if i == 0 || latest <= played {
                latest = played;
            }
            i += 1;
        }
        assert(all.take(all.len() as int) =~= all);
        latest
    }
}

/// Whether a row's name states a season or an episode.
pub open spec fn states_numbering(node: CatalogNode) -> bool {
    node.parsed.episode is Some || node.parsed.season is Some
}

// ---------------------------------------------------------------------------
// Grouping
// ---------------------------------------------------------------------------

/// The key a row is filed under.
pub open spec fn key_of(node: CatalogNode) -> Seq<char> {
    keys::title_key_of(node.parsed.title@)
}

/// The rows that can be played: folders are not.
pub open spec fn playable(nodes: Seq<CatalogNode>) -> Seq<CatalogNode>
    decreases nodes.len(),
{
    if nodes.len() == 0 {
        nodes
    } else if nodes.last().is_folder {
        playable(nodes.drop_last())
    } else {
        playable(nodes.drop_last()).push(nodes.last())
    }
}

/// The keys of `nodes`, each once, in the order they are first seen.
pub open spec fn keys_in(nodes: Seq<CatalogNode>) -> Seq<Seq<char>>
    decreases nodes.len(),
{
    if nodes.len() == 0 {
        Seq::empty()
    } else {
        let front = keys_in(nodes.drop_last());
        if front.contains(key_of(nodes.last())) {
            front
        } else {
            front.push(key_of(nodes.last()))
        }
    }
}

/// The rows filed under `key`, in order.
pub open spec fn filed_under(nodes: Seq<CatalogNode>, key: Seq<char>) -> Seq<CatalogNode>
    decreases nodes.len(),
{
    if nodes.len() == 0 {
        nodes
    } else if key_of(nodes.last()) == key {
        filed_under(nodes.drop_last(), key).push(nodes.last())
    } else {
        filed_under(nodes.drop_last(), key)
    }
}

/// The first year any row states.
pub open spec fn first_year(nodes: Seq<CatalogNode>) -> Option<u32>
    decreases nodes.len(),
{
    if nodes.len() == 0 {
        None
    } else if first_year(nodes.drop_last()) is Some {
        first_year(nodes.drop_last())
    } else {
        nodes.last().parsed.year
    }
}

/// The shares of `nodes`, each once, in the order they are first seen.
pub open spec fn shares_in(nodes: Seq<CatalogNode>) -> Seq<Seq<char>>
    decreases nodes.len(),
{
    if nodes.len() == 0 {
        Seq::empty()
    } else {
        let front = shares_in(nodes.drop_last());
        if front.contains(nodes.last().share_id@) {
            front
        } else {
            front.push(nodes.last().share_id@)
        }
    }
}

/// The season numbers of `nodes`, each once, in the order they are first seen.
pub open spec fn seasons_in(nodes: Seq<CatalogNode>) -> Seq<Option<u32>>
    decreases nodes.len(),
{
    if nodes.len() == 0 {
        Seq::empty()
    } else {
        let front = seasons_in(nodes.drop_last());
        if front.contains(nodes.last().parsed.season) {
            front
        } else {
            front.push(nodes.last().parsed.season)
        }
    }
}

/// A row with its watch state joined in.
pub open spec fn episode_of(node: CatalogNode, watch: Seq<WatchEntry>) -> Episode {
    Episode { node, watch: catalog::watch_of(watch, node.share_id@, node.link_id@) }
}

/// The episodes of one season, in the order of `nodes`.
pub open spec fn episodes_in(
    nodes: Seq<CatalogNode>,
    season: Option<u32>,
    watch: Seq<WatchEntry>,
) -> Seq<Episode>
    decreases nodes.len(),
{
    if nodes.len() == 0 {
        Seq::empty()
    } else if nodes.last().parsed.season == season {
        episodes_in(nodes.drop_last(), season, watch).push(episode_of(nodes.last(), watch))
    } else {
        episodes_in(nodes.drop_last(), season, watch)
    }
}

/// The seasons of one title in the order they are first seen, each with its
/// episodes in order.
pub open spec fn piles_of(nodes: Seq<CatalogNode>, watch: Seq<WatchEntry>) -> Seq<SeasonView> {
    Seq::new(
        seasons_in(nodes).len(),
        |i: int|
            SeasonView {
                number: seasons_in(nodes)[i],
                episodes: order::sorted_by(
                    episodes_in(nodes, seasons_in(nodes)[i], watch),
                    order::rank::<Episode>(),
                ),
            },
    )
}

pub open spec fn season_order() -> spec_fn(SeasonView, SeasonView) -> bool {
    |a: SeasonView, b: SeasonView| season_lt(a.number, b.number)
}

/// A season number, an episode number or more than one file all mean series. A
/// lone unnumbered file is a film.
pub open spec fn kind_of(nodes: Seq<CatalogNode>) -> TitleKind {
    if nodes.len() > 1 || exists|i: int|
        0 <= i < nodes.len() && states_numbering(#[trigger] nodes[i]) {
        TitleKind::Series
    } else {
        TitleKind::Film
    }
}

/// The title that the rows filed under one key make. It is printed as the first
/// of them spells it.
pub open spec fn title_of(
    key: Seq<char>,
    nodes: Seq<CatalogNode>,
    watch: Seq<WatchEntry>,
) -> TitleView {
    TitleView {
        key,
        name: nodes[0].parsed.title@,
        year: first_year(nodes),
        kind: kind_of(nodes),
        seasons: order::sorted_by(piles_of(nodes, watch), season_order()),
        share_ids: shares_in(nodes),
    }
}

/// The titles of the rows, in the order they are first seen.
pub open spec fn titles_of(nodes: Seq<CatalogNode>, watch: Seq<WatchEntry>) -> Seq<TitleView> {
    let files = playable(nodes);
    Seq::new(
        keys_in(files).len(),
        |i: int| title_of(keys_in(files)[i], filed_under(files, keys_in(files)[i]), watch),
    )
}

pub open spec fn shelf_order() -> spec_fn(TitleView, TitleView) -> bool {
    |a: TitleView, b: TitleView|
        order::text_lt(keys::sort_name_of(a.name), keys::sort_name_of(b.name))
}

/// What the catalog rows look like on the shelf.
pub open spec fn shelf(nodes: Seq<CatalogNode>, watch: Seq<WatchEntry>) -> Seq<TitleView> {
    order::sorted_by(titles_of(nodes, watch), shelf_order())
}

/// The views of a list of titles.
pub open spec fn title_views(s: Seq<Title>) -> Seq<TitleView> {
    s.map_values(|t: Title| t@)
}

/// The position of a text in a list of strings.
fn position_of_text(list: &Vec<String>, s: &String) -> (r: Option<usize>)
    ensures
        match r {
            Some(i) => i < list@.len() && list@[i as int]@ == s@ && text::texts(list@).contains(s@),
            None => !text::texts(list@).contains(s@),
        },
{
    let mut i: usize = 0;
    while i < list.len()
        invariant
            i <= list@.len(),
            forall|j: int| 0 <= j < i ==> (#[trigger] list@[j])@ != s@,
        decreases list.len() - i,
    {
        if list[i] == *s {
            assert(text::texts(list@)[i as int] == s@);
            return Some(i);
        }
        i += 1;
    }
    assert forall|j: int| 0 <= j < text::texts(list@).len() implies #[trigger] text::texts(list@)[j] != s@ by {
        assert(list@[j]@ != s@);
    }
    None
}

proof fn lemma_text_pushed(list: Seq<String>, s: String)
    ensures
        text::texts(list.push(s)) == text::texts(list).push(s@),
{
    assert(text::texts(list.push(s)) =~= text::texts(list).push(s@));
}

/// No key is listed twice, and a listed key has a row.
proof fn lemma_keys_in(nodes: Seq<CatalogNode>)
    ensures
        keys_in(nodes).no_duplicates(),
        forall|k: Seq<char>|
            #[trigger] keys_in(nodes).contains(k) == (filed_under(nodes, k).len() > 0),
    decreases nodes.len(),
{
    if nodes.len() > 0 {
        let front = nodes.drop_last();
        let key = key_of(nodes.last());
        lemma_keys_in(front);
        assert forall|k: Seq<char>|
            #[trigger] keys_in(nodes).contains(k) == (filed_under(nodes, k).len() > 0) by {
            assert(keys_in(front).contains(k) == (filed_under(front, k).len() > 0));
            if !keys_in(front).contains(key) {
                assert(keys_in(nodes).last() == key);
                if keys_in(front).contains(k) {
                    let i = choose|i: int|
                        0 <= i < keys_in(front).len() && keys_in(front)[i] == k;
                    assert(keys_in(nodes)[i] == k);
                }
            }
        }
    } else {
        assert forall|k: Seq<char>|
            #[trigger] keys_in(nodes).contains(k) == (filed_under(nodes, k).len() > 0) by {}
    }
}

proof fn lemma_seasons_in(nodes: Seq<CatalogNode>)
    ensures
        seasons_in(nodes).no_duplicates(),
    decreases nodes.len(),
{
    if nodes.len() > 0 {
        lemma_seasons_in(nodes.drop_last());
    }
}

/// The position of a season number.
fn position_of_season(list: &Vec<Option<u32>>, s: Option<u32>) -> (r: Option<usize>)
    ensures
        match r {
            Some(i) => i < list@.len() && list@[i as int] == s,
            None => !list@.contains(s),
        },
{
    let mut i: usize = 0;
    while i < list.len()
        invariant
            i <= list@.len(),
            forall|j: int| 0 <= j < i ==> #[trigger] list@[j] != s,
        decreases list.len() - i,
    {
        let same = match (list[i], s) {
            (Some(x), Some(y)) => x == y,
            (None, None) => true,
            _ => false,
        };
        if same {
            return Some(i);
        }
        i += 1;
    }
    None
}

/// Where the playable rows of a crawl are filed: the keys, and the rows under
/// each of them.
fn group(nodes: Vec<CatalogNode>) -> (r: (Vec<String>, Vec<Vec<CatalogNode>>))
    ensures
        text::texts(r.0@) == keys_in(playable(nodes@)),
        r.1@.len() == r.0@.len(),
        forall|i: int|
            0 <= i < r.1@.len() ==> (#[trigger] r.1@[i])@ == filed_under(
                playable(nodes@),
                keys_in(playable(nodes@))[i],
            ),
{
    let ghost all = nodes@;
    let mut names: Vec<String> = Vec::new();
    let mut groups: Vec<Vec<CatalogNode>> = Vec::new();
    assert(text::texts(names@) =~= keys_in(playable(all.take(0))));
    for node in iter: nodes
        invariant
            iter.seq() == all,
            text::texts(names@) == keys_in(playable(all.take(iter.index() as int))),
            groups@.len() == names@.len(),
            forall|i: int|
                0 <= i < groups@.len() ==> (#[trigger] groups@[i])@ == filed_under(
                    playable(all.take(iter.index() as int)),
                    text::texts(names@)[i],
                ),
    {
        let ghost n = iter.index() as int;
        let ghost before = playable(all.take(n));
        let ghost after = playable(all.take(n + 1));
        assert(all.take(n + 1).drop_last() =~= all.take(n));
        assert(all.take(n + 1).last() == node);
        if !node.is_folder {
            let key = title_key(node.parsed.title.as_str());
            let ghost old_names = text::texts(names@);
            let ghost old_groups = groups@;
            proof {
                lemma_keys_in(before);
                assert(after == before.push(node));
                assert(after.drop_last() =~= before);
                assert(key@ == key_of(node));
            }
            match position_of_text(&names, &key) {
                Some(p) => {
                    assert(old_names[p as int] == key@);
                    let ghost filed = groups@[p as int]@;
                    let place = &mut groups[p];
                    place.push(node);
                    assert forall|i: int| 0 <= i < groups@.len() implies (
                    #[trigger] groups@[i])@ == filed_under(after, old_names[i]) by {
                        if i != p {
                            assert(groups@[i] == old_groups[i]);
                            assert(old_names[i] != old_names[p as int]);
                        } else {
                            assert(groups@[i]@ == filed.push(node));
                        }
                    }
                },
                None => {
                    let ghost spelled = key;
                    names.push(key);
                    let mut filed: Vec<CatalogNode> = Vec::new();
                    filed.push(node);
                    groups.push(filed);
                    proof {
                        lemma_text_pushed(names@.drop_last(), spelled);
                        assert(names@ =~= names@.drop_last().push(spelled));
                        assert(text::texts(names@) == old_names.push(spelled@));
                        assert(filed_under(before, key_of(node)).len() == 0);
                    }
                    assert forall|i: int| 0 <= i < groups@.len() implies (
                    #[trigger] groups@[i])@ == filed_under(after, text::texts(names@)[i]) by {
                        if i < old_groups.len() {
                            assert(groups@[i] == old_groups[i]);
                            assert(text::texts(names@)[i] == old_names[i]);
                            assert(old_names.contains(old_names[i]));
                        } else {
                            assert(groups@[i]@ =~= filed_under(before, key_of(node)).push(node));
                        }
                    }
                },
            }
        }
    }
    assert(all.take(all.len() as int) =~= all);
    (names, groups)
}

/// Whether any row states numbering.
pub open spec fn any_numbered(nodes: Seq<CatalogNode>) -> bool {
    exists|i: int| 0 <= i < nodes.len() && states_numbering(#[trigger] nodes[i])
}

/// The title that the rows filed under one key make.
#[verifier::rlimit(40)]
fn build_title(key: String, nodes: Vec<CatalogNode>, watch: &[WatchEntry]) -> (r: Title)
    requires
        nodes@.len() > 0,
    ensures
        r@ == title_of(key@, nodes@, watch@),
{
    let ghost all = nodes@;
    let count = nodes.len();
    let name = nodes[0].parsed.title.clone();
    let mut year: Option<u32> = None;
    let mut share_ids: Vec<String> = Vec::new();
    let mut numbers: Vec<Option<u32>> = Vec::new();
    let mut piles: Vec<Vec<Episode>> = Vec::new();
    let mut numbered: bool = false;
    assert(text::texts(share_ids@) =~= shares_in(all.take(0)));
    assert(numbers@ =~= seasons_in(all.take(0)));
    for node in iter: nodes
        invariant
            iter.seq() == all,
            year == first_year(all.take(iter.index() as int)),
            text::texts(share_ids@) == shares_in(all.take(iter.index() as int)),
            numbers@ == seasons_in(all.take(iter.index() as int)),
            piles@.len() == numbers@.len(),
            numbered == exists|i: int| 0 <= i < iter.index() && states_numbering(#[trigger] all[i]),
            forall|i: int|
                0 <= i < piles@.len() ==> (#[trigger] piles@[i])@ == episodes_in(
                    all.take(iter.index() as int),
                    numbers@[i],
                    watch@,
                ),
            forall|s: Option<u32>|
                !numbers@.contains(s) ==> (#[trigger] episodes_in(
                    all.take(iter.index() as int),
                    s,
                    watch@,
                )).len() == 0,
    {
        let ghost n = iter.index() as int;
        let ghost before = all.take(n);
        let ghost after = all.take(n + 1);
        assert(after.drop_last() =~= before);
        assert(after.last() == node);
        assert(all[n] == node);
        if year.is_none() {
            year = node.parsed.year;
        }
        if node.parsed.is_episode() || node.parsed.season.is_some() {
            assert(states_numbering(all[n]));
            numbered = true;
        }
        let ghost old_shares = share_ids@;
        if position_of_text(&share_ids, &node.share_id).is_none() {
            let ghost spelled = node.share_id;
            share_ids.push(node.share_id.clone());
            proof {
                lemma_text_pushed(old_shares, spelled);
            }
        }
        let state = find_watch(watch, &node.share_id, &node.link_id);
        let number = node.parsed.season;
        let episode = Episode { node, watch: state };
        assert(episode == episode_of(all[n], watch@));
        let ghost old_numbers = numbers@;
        let ghost old_piles = piles@;
        proof {
            lemma_seasons_in(before);
        }
        match position_of_season(&numbers, number) {
            Some(p) => {
                let ghost filed = piles@[p as int]@;
                assert(numbers@.contains(number));
                let place = &mut piles[p];
                place.push(episode);
                assert forall|i: int| 0 <= i < piles@.len() implies (#[trigger] piles@[i])@
                    == episodes_in(after, numbers@[i], watch@) by {
                    if i != p {
                        assert(piles@[i] == old_piles[i]);
                        assert(numbers@[i] != numbers@[p as int]);
                    } else {
                        assert(piles@[i]@ == filed.push(episode));
                    }
                }
            },
            None => {
                let mut filed: Vec<Episode> = Vec::new();
                filed.push(episode);
                piles.push(filed);
                numbers.push(number);
                assert(episodes_in(before, number, watch@).len() == 0);
                assert forall|i: int| 0 <= i < piles@.len() implies (#[trigger] piles@[i])@
                    == episodes_in(after, numbers@[i], watch@) by {
                    if i < old_piles.len() {
                        assert(piles@[i] == old_piles[i]);
                        assert(numbers@[i] == old_numbers[i]);
                        assert(old_numbers.contains(old_numbers[i]));
                    } else {
                        assert(piles@[i]@ =~= episodes_in(before, number, watch@).push(episode));
                    }
                }
            },
        }
        assert forall|s: Option<u32>| !numbers@.contains(s) implies (#[trigger] episodes_in(
            after,
            s,
            watch@,
        )).len() == 0 by {
            assert(numbers@.contains(number)) by {
                if !old_numbers.contains(number) {
                    assert(numbers@.last() == number);
                }
            }
            if old_numbers.contains(s) {
                let k = choose|k: int| 0 <= k < old_numbers.len() && old_numbers[k] == s;
                assert(numbers@[k] == s);
            }
            assert(episodes_in(before, s, watch@).len() == 0);
        }
    }
    assert(all.take(all.len() as int) =~= all);
    let ghost sorted_piles = piles_of(all, watch@);
    let ghost unsorted = piles@;
    let mut seasons: Vec<Season> = Vec::new();
    for pile in it: piles
        invariant
            it.seq() == unsorted,
            unsorted.len() == numbers@.len(),
            numbers@ == seasons_in(all),
            sorted_piles == piles_of(all, watch@),
            forall|i: int|
                0 <= i < unsorted.len() ==> (#[trigger] unsorted[i])@ == episodes_in(
                    all,
                    numbers@[i],
                    watch@,
                ),
            seasons@.len() == it.index(),
            forall|i: int| 0 <= i < seasons@.len() ==> (#[trigger] seasons@[i])@ == sorted_piles[i],
    {
        let ghost n = it.index() as int;
        let at = seasons.len();
        assert(pile == unsorted[n]);
        let season = Season { number: numbers[at], episodes: sort_ranked(pile) };
        assert(season@ =~= sorted_piles[n]);
        seasons.push(season);
    }
    let ghost flat_seasons = seasons@;
    proof {
        assert(season_views(flat_seasons) =~= sorted_piles);
        order::lemma_sorted_maps(
            flat_seasons,
            order::rank::<Season>(),
            |x: Season| x@,
            season_order(),
            |x: Season| true,
        );
        assert(any_numbered(all) == numbered);
    }
    let seasons = sort_ranked(seasons);
    let kind = if numbered || count > 1 {
        TitleKind::Series
    } else {
        TitleKind::Film
    };
    Title { key, name, year, kind, seasons, share_ids }
}

/// A title with what it is shelved under.
struct Shelved {
    under: Vec<char>,
    title: Title,
}

impl Ranked for Shelved {
    closed spec fn before(self, other: Self) -> bool {
        order::text_lt(self.under@, other.under@)
    }

    fn goes_before(&self, other: &Self) -> (r: bool) {
        order::chars_lt(&self.under, &other.under)
    }
}

/// Every title the catalog holds.
#[derive(Debug, PartialEq, Eq)]
pub struct Library {
    pub titles: Vec<Title>,
}

impl Clone for Library {
    fn clone(&self) -> (r: Self)
        ensures
            title_views(r.titles@) == title_views(self.titles@),
    {
        let titles = self.titles.clone();
        assert(title_views(titles@) =~= title_views(self.titles@));
        Library { titles }
    }
}

impl Default for Library {
    fn default() -> (r: Self)
        ensures
            r.titles@ == Seq::<Title>::empty(),
    {
        Library { titles: Vec::new() }
    }
}

impl Library {
    /// Group catalog rows into titles, joining in watch state keyed by
    /// `(share_id, link_id)`.
    ///
    /// Folder rows are ignored: a poster wall shows playable files, and the
    /// folder structure has already been consumed by the parser that produced
    /// these titles.
    pub fn build(nodes: Vec<CatalogNode>, watch: &[WatchEntry]) -> (r: Self)
        ensures
            title_views(r.titles@) == shelf(nodes@, watch@),
    {
        let ghost rows = nodes@;
        let ghost files = playable(rows);
        let (names, groups) = group(nodes);
        proof {
            lemma_keys_in(files);
        }
        let ghost all_names = names@;
        let ghost unshelved = titles_of(rows, watch@);
        let mut shelved: Vec<Shelved> = Vec::new();
        let ghost all_groups = groups@;
        for filed in it: groups
            invariant
                it.seq() == all_groups,
                names@ == all_names,
                files == playable(rows),
                unshelved == titles_of(rows, watch@),
                text::texts(all_names) == keys_in(files),
                all_groups.len() == all_names.len(),
                forall|i: int|
                    0 <= i < all_groups.len() ==> (#[trigger] all_groups[i])@ == filed_under(
                        files,
                        keys_in(files)[i],
                    ),
                forall|k: Seq<char>|
                    #[trigger] keys_in(files).contains(k) == (filed_under(files, k).len() > 0),
                shelved@.len() == it.index(),
                forall|i: int|
                    0 <= i < shelved@.len() ==> (#[trigger] shelved@[i]).title@ == unshelved[i]
                        && shelved@[i].under@ == keys::sort_name_of(unshelved[i].name),
        {
            let ghost n = it.index() as int;
            let at = shelved.len();
            let key = names[at].clone();
            assert(key@ == text::texts(all_names)[n]);
            assert(filed == all_groups[n]);
            assert(keys_in(files).contains(keys_in(files)[n]));
            let title = build_title(key, filed, watch);
            assert(title@ == unshelved[n]);
            let under = to_chars(sort_name(title.name.as_str()).as_str());
            shelved.push(Shelved { under, title });
        }
        let ghost in_a_row = shelved@;
        let ghost bare = |s: Shelved| s.title@;
        let ghost sound = |s: Shelved| s.under@ == keys::sort_name_of(s.title@.name);
        proof {
            assert(in_a_row.map_values(bare) =~= unshelved);
            order::lemma_sorted_maps(in_a_row, order::rank::<Shelved>(), bare, shelf_order(), sound);
        }
        let shelved = sort_ranked(shelved);
        let ghost on_shelf = shelved@;
        let mut titles: Vec<Title> = Vec::new();
        for s in it: shelved
            invariant
                it.seq() == on_shelf,
                titles@.len() == it.index(),
                forall|i: int| 0 <= i < titles@.len() ==> #[trigger] titles@[i] == on_shelf[i].title,
        {
            titles.push(s.title);
        }
        assert(title_views(titles@) =~= on_shelf.map_values(bare));
        Library { titles }
    }
}

/// The titles that hold something to resume, in order.
pub open spec fn resumable(titles: Seq<Title>) -> Seq<Title>
    decreases titles.len(),
{
    if titles.len() == 0 {
        titles
    } else if resume_index(titles.last().all()) is Some {
        resumable(titles.drop_last()).push(titles.last())
    } else {
        resumable(titles.drop_last())
    }
}

/// The title played later first.
pub open spec fn recent_order() -> spec_fn(Title, Title) -> bool {
    |a: Title, b: Title| last_touched(a.all()) > last_touched(b.all())
}

/// Whether a lowered search text is found in a title: in its name, or in the
/// name of any file under it.
pub open spec fn title_holds(title: Title, needle: Seq<char>) -> bool {
    ||| text::contains_text(unicode::lower_text(title.name@), needle)
    ||| exists|i: int|
        0 <= i < title.all().len() && text::contains_text(
            unicode::lower_text((#[trigger] title.all()[i]).node.name@),
            needle,
        )
}

/// The titles in which a lowered search text is found, in order.
pub open spec fn titles_holding(titles: Seq<Title>, needle: Seq<char>) -> Seq<Title>
    decreases titles.len(),
{
    if titles.len() == 0 {
        titles
    } else if title_holds(titles.last(), needle) {
        titles_holding(titles.drop_last(), needle).push(titles.last())
    } else {
        titles_holding(titles.drop_last(), needle)
    }
}

/// Borrowed titles, as the titles they are.
pub open spec fn borrowed(s: Seq<&Title>) -> Seq<Title> {
    s.map_values(|t: &Title| *t)
}

/// A title with when it was last played.
struct Recent<'a> {
    played: i64,
    title: &'a Title,
}

impl<'a> Ranked for Recent<'a> {
    closed spec fn before(self, other: Self) -> bool {
        self.played > other.played
    }

    fn goes_before(&self, other: &Self) -> (r: bool) {
        self.played > other.played
    }
}

/// Whether a lowered name holds a lowered search text.
pub fn name_holds(lowered: &str, needle: &str) -> (r: bool)
    ensures
        r == text::contains_text(lowered@, needle@),
{
    chars_contain(&to_chars(lowered), &to_chars(needle))
}

/// Whether a lowered search text is found in a title.
fn finds_in(title: &Title, needle: &str) -> (r: bool)
    ensures
        r == title_holds(*title, needle@),
{
    if name_holds(title.name.as_str().to_lowercase().as_str(), needle) {
        return true;
    }
    let episodes = title.episodes();
    let mut i: usize = 0;
    while i < episodes.len()
        invariant
            i <= episodes@.len(),
            episodes@.len() == title.all().len(),
            forall|j: int| 0 <= j < episodes@.len() ==> *(#[trigger] episodes@[j])
                == title.all()[j],
            forall|j: int|
                0 <= j < i ==> !text::contains_text(
                    unicode::lower_text((#[trigger] title.all()[j]).node.name@),
                    needle@,
                ),
        decreases episodes.len() - i,
    {
        let episode = episodes[i];
        assert(*episode == title.all()[i as int]);
        if name_holds(episode.node.name.as_str().to_lowercase().as_str(), needle) {
            return true;
        }
        i += 1;
    }
    false
}

impl Library {
    pub fn is_empty(&self) -> (r: bool)
        ensures
            r == (self.titles@.len() == 0),
    {
        self.titles.len() == 0
    }

    /// The title filed under `key`.
    pub fn get(&self, key: &str) -> (r: Option<&Title>)
        ensures
            match r {
                Some(title) => exists|i: int|
                    #![trigger self.titles@[i]]
                    0 <= i < self.titles@.len() && self.titles@[i] == *title && title.key@ == key@
                        && forall|j: int| 0 <= j < i ==> (#[trigger] self.titles@[j]).key@ != key@,
                None => forall|j: int|
                    0 <= j < self.titles@.len() ==> (#[trigger] self.titles@[j]).key@ != key@,
            },
    {
        let wanted = owned(key);
        let mut i: usize = 0;
        while i < self.titles.len()
            invariant
                i <= self.titles@.len(),
                wanted@ == key@,
                forall|j: int| 0 <= j < i ==> (#[trigger] self.titles@[j]).key@ != key@,
            decreases self.titles.len() - i,
        {
            if self.titles[i].key == wanted {
                return Some(&self.titles[i]);
            }
            i += 1;
        }
        None
    }

    /// Titles with something part-watched, most recent first. The top row of the
    /// library.
    pub fn continue_watching(&self) -> (r: Vec<&Title>)
        ensures
            borrowed(r@) == order::sorted_by(resumable(self.titles@), recent_order()),
    {
        let mut recent: Vec<Recent> = Vec::new();
        let ghost bare = |x: Recent| *x.title;
        let ghost sound = |x: Recent| x.played == last_touched(x.title.all());
        let mut i: usize = 0;
        assert(recent@.map_values(bare) =~= resumable(self.titles@.take(0)));
        while i < self.titles.len()
            invariant
                i <= self.titles@.len(),
                bare == (|x: Recent| *x.title),
                recent@.map_values(bare) == resumable(self.titles@.take(i as int)),
                forall|j: int| 0 <= j < recent@.len() ==> (#[trigger] recent@[j]).played
                    == last_touched(recent@[j].title.all()),
            decreases self.titles.len() - i,
        {
            let title = &self.titles[i];
            let ghost before = recent@;
            assert(self.titles@.take(i + 1).drop_last() =~= self.titles@.take(i as int));
            assert(self.titles@.take(i + 1).last() == *title);
            if title.resume().is_some() {
                recent.push(Recent { played: title.last_played(), title });
                assert(recent@.map_values(bare) =~= before.map_values(bare).push(*title));
            }
            i += 1;
        }
        assert(self.titles@.take(self.titles@.len() as int) =~= self.titles@);
        proof {
            assert forall|a: Recent, b: Recent| sound(a) && sound(b) implies #[trigger] order::rank::<
                Recent,
            >()(a, b) == recent_order()(bare(a), bare(b)) by {}
            order::lemma_sorted_maps(recent@, order::rank::<Recent>(), bare, recent_order(), sound);
        }
        let sorted = sort_ranked(recent);
        let mut out: Vec<&Title> = Vec::new();
        let mut i: usize = 0;
        while i < sorted.len()
            invariant
                i <= sorted@.len(),
                out@.len() == i,
                forall|j: int| 0 <= j < i ==> *(#[trigger] out@[j]) == *sorted@[j].title,
            decreases sorted.len() - i,
        {
            out.push(sorted[i].title);
            i += 1;
        }
        assert(borrowed(out@) =~= sorted@.map_values(bare));
        out
    }

    /// Substring match over the display name and every filename under it, so
    /// searching for a release group or an episode name finds its title. Nothing
    /// to search for finds everything.
    pub fn search(&self, query: &str) -> (r: Vec<&Title>)
        ensures
            borrowed(r@) == ({
                let needle = unicode::lower_text(text::trim(query@));
                if needle.len() == 0 {
                    self.titles@
                } else {
                    titles_holding(self.titles@, needle)
                }
            }),
    {
        let chars = to_chars(query);
        let wanted = from_chars(trimmed(&chars));
        let needle = wanted.as_str().to_lowercase();
        let everything = needle.as_str().is_empty();
        let ghost found = |n: int|
            if everything {
                self.titles@.take(n)
            } else {
                titles_holding(self.titles@.take(n), needle@)
            };
        let mut out: Vec<&Title> = Vec::new();
        let mut i: usize = 0;
        assert(borrowed(out@) =~= found(0));
        while i < self.titles.len()
            invariant
                i <= self.titles@.len(),
                found == (|n: int|
                    if everything {
                        self.titles@.take(n)
                    } else {
                        titles_holding(self.titles@.take(n), needle@)
                    }),
                borrowed(out@) == found(i as int),
            decreases self.titles.len() - i,
        {
            let title = &self.titles[i];
            let ghost before = out@;
            assert(self.titles@.take(i + 1).drop_last() =~= self.titles@.take(i as int));
            assert(self.titles@.take(i + 1) =~= self.titles@.take(i as int).push(*title));
            if everything || finds_in(title, needle.as_str()) {
                out.push(title);
                assert(borrowed(out@) =~= borrowed(before).push(*title));
            }
            i += 1;
        }
        assert(self.titles@.take(self.titles@.len() as int) =~= self.titles@);
        out
    }
}

} // verus!
