//! The chapters a file was muxed with, and what they are for.
//!
//! Anime releases mark their opening and ending as chapters, which is the whole
//! reason this exists: with them a player can offer to skip the ninety seconds
//! everyone skips, and without them it cannot.
//!
//! Times are in milliseconds.

use vstd::prelude::*;

use crate::text;
use crate::text::char_is_alnum;
use crate::text::from_chars;
use crate::text::is_word;
use crate::text::owned;
use crate::text::text_contains;
use crate::text::to_chars;
use crate::text::to_lower;
use crate::text::trimmed;

verus! {

/// One chapter of the file.
#[derive(Debug, PartialEq, Eq)]
pub struct Chapter {
    /// Position in the list, which is what mpv's `chapter` property is set to.
    pub index: i64,
    /// The name the muxer gave it, if any.
    pub title: Option<String>,
    /// Where it starts.
    pub start: i64,
}

impl Clone for Chapter {
    fn clone(&self) -> (r: Self)
        ensures
            r == *self,
    {
        Chapter { index: self.index, title: text::copy_option(&self.title), start: self.start }
    }
}

/// The kinds of chapter worth treating differently from "part of the episode".
#[derive(Debug, Clone, Copy, PartialEq, Eq, Structural)]
pub enum ChapterRole {
    /// The opening titles.
    Opening,
    /// The ending titles.
    Ending,
    /// A preview of the next episode, after the ending.
    Preview,
    /// Anything else, including everything unnamed.
    Content,
}

impl ChapterRole {
    /// What a button offering to skip this should say. `None` for a chapter
    /// nobody wants skipped.
    pub fn skip_label(self) -> (r: Option<&'static str>)
        ensures
            match self {
                ChapterRole::Opening => r is Some && (r->0)@ == "Skip opening"@,
                ChapterRole::Ending => r is Some && (r->0)@ == "Skip ending"@,
                ChapterRole::Preview => r is Some && (r->0)@ == "Skip preview"@,
                ChapterRole::Content => r is None,
            },
    {
        match self {
            ChapterRole::Opening => Some("Skip opening"),
            ChapterRole::Ending => Some("Skip ending"),
            ChapterRole::Preview => Some("Skip preview"),
            ChapterRole::Content => None,
        }
    }

    /// Whether this is something the file could end on without the viewer
    /// missing anything.
    pub open spec fn is_tail(self) -> bool {
        self is Ending || self is Preview
    }

    /// Whether this is something the file could end on without the viewer
    /// missing anything: credits and a trailer for next week.
    ///
    /// An *opening* is not, even though it is skippable: a file does not end with
    /// one, and treating it as tail would make a mis-tagged chapter auto-advance
    /// out of the episode.
    pub fn ends_the_episode(self) -> (r: bool)
        ensures
            r == self.is_tail(),
    {
        match self {
            ChapterRole::Ending => true,
            ChapterRole::Preview => true,
            _ => false,
        }
    }
}

/// What a chapter's *name* claims, before the rest of the file is consulted.
///
/// `Intro` is the opening in one release and a ten-minute introduction to the
/// series in another, which a viewer must not be skipped out of. `Credits` and
/// `Cast` are the ending in most files and a mid-episode scene in a few. Neither
/// can be settled by the name.
#[derive(Debug, Clone, Copy, PartialEq, Eq, Structural)]
pub enum Claim {
    Opening,
    Ending,
    Preview,
    /// Reads like an opening, but only if the file has no real one and it is the
    /// length of a theme song.
    MaybeOpening,
    /// Reads like credits, but only near the end of the file or at theme length.
    MaybeEnding,
    Content,
}

/// How long an opening or ending theme runs, at least and at most. Anime themes
/// are ninety seconds by convention and rarely stray far.
pub const THEME_FROM: i64 = 45_000;

pub const THEME_UPTO: i64 = 150_000;

/// How long credits run, at least and at most: a full cast roll over a still can
/// run longer than a theme.
pub const CREDITS_FROM: i64 = 30_000;

pub const CREDITS_UPTO: i64 = 300_000;

/// An opening that far into the file is not an opening. Cold opens run long in a
/// first episode, so this is generous.
pub const OPENING_BEFORE: i64 = 480_000;

/// The runs of ASCII letters and digits in `s`, in order.
pub open spec fn tokens(s: Seq<char>) -> Seq<Seq<char>>
    decreases s.len(),
{
    if s.len() == 0 {
        Seq::empty()
    } else {
        let front = tokens(s.drop_last());
        if !text::is_alnum(s.last()) {
            front
        } else if s.len() > 1 && text::is_alnum(s[s.len() - 2]) {
            front.drop_last().push(front.last().push(s.last()))
        } else {
            front.push(seq![s.last()])
        }
    }
}

/// A token without the digits it ends with.
pub open spec fn undigited(s: Seq<char>) -> Seq<char> {
    s.take(text::digits_start(s, s.len() as int))
}

/// What is left of each token without its digits, where anything is.
pub open spec fn names_of(tokens: Seq<Seq<char>>) -> Seq<Seq<char>>
    decreases tokens.len(),
{
    if tokens.len() == 0 {
        Seq::empty()
    } else if undigited(tokens.last()).len() == 0 {
        names_of(tokens.drop_last())
    } else {
        names_of(tokens.drop_last()).push(undigited(tokens.last()))
    }
}

/// A chapter name as lowercase words, with numbering dropped: `OP1` and `ED2`
/// keep their tag and lose their number, while `02 - Opening` loses its leading
/// `02` entirely.
pub open spec fn words_of(title: Seq<char>) -> Seq<Seq<char>> {
    names_of(tokens(text::lower(text::trim(title))))
}

/// What a name that begins with these two words claims; a name of one word has
/// an empty second one. `Ending Note` is a name; every other `ending` is one.
pub open spec fn claim_of_words(head: Seq<char>, second: Seq<char>) -> Claim {
    if head == "next"@ || head == "nep"@ {
        Claim::Preview
    } else if (head == "end"@ || head == "ending"@ || head == "closing"@) && second == "credits"@ {
        Claim::Ending
    } else if (head == "cast"@ || head == "staff"@) && (second == "roll"@ || second
        == "credits"@) {
        Claim::Ending
    } else if (head == "opening"@ || head == "op"@) && (second == "theme"@ || second == "song"@
        || second == "credits"@) {
        Claim::Opening
    } else if (head == "ending"@ || head == "ed"@) && (second == "theme"@ || second == "song"@) {
        Claim::Ending
    } else if head == "ending"@ && second == "note"@ {
        Claim::Content
    } else if head == "op"@ || head == "opening"@ || head == "openning"@ || head == "ncop"@ {
        Claim::Opening
    } else if head == "ed"@ || head == "ending"@ || head == "nced"@ || head == "outro"@ || head
        == "endcard"@ {
        Claim::Ending
    } else if head == "preview"@ || head == "pv"@ || head == "trailer"@ || head == "teaser"@ || head
        == "yokoku"@ {
        Claim::Preview
    } else if head == "intro"@ {
        Claim::MaybeOpening
    } else if head == "credits"@ || head == "closing"@ || head == "cast"@ || head == "staff"@ {
        Claim::MaybeEnding
    } else {
        Claim::Content
    }
}

/// What a chapter name claims. Japanese names are unambiguous where the English
/// ones are not, and are found anywhere in it; the others are whole words from
/// the front.
pub open spec fn claim_of(title: Seq<char>) -> Claim {
    let words = words_of(title);
    if text::contains_text(title, "オープニング"@) {
        Claim::Opening
    } else if text::contains_text(title, "エンディング"@) {
        Claim::Ending
    } else if text::contains_text(title, "予告"@) {
        Claim::Preview
    } else if words.len() == 0 {
        Claim::Content
    } else {
        claim_of_words(
            words[0],
            if words.len() > 1 {
                words[1]
            } else {
                Seq::empty()
            },
        )
    }
}

/// The name of a chapter; a nameless one has the empty name.
pub open spec fn name_of(chapter: Chapter) -> Seq<char> {
    match chapter.title {
        Some(title) => title@,
        None => Seq::empty(),
    }
}

/// The tokens of a text.
fn split_tokens(v: &[char]) -> (r: Vec<Vec<char>>)
    ensures
        r@.len() == tokens(v@).len(),
        forall|i: int| 0 <= i < r@.len() ==> (#[trigger] r@[i])@ == tokens(v@)[i],
{
    let mut out: Vec<Vec<char>> = Vec::new();
    let mut i: usize = 0;
    while i < v.len()
        invariant
            i <= v@.len(),
            out@.len() == tokens(v@.take(i as int)).len(),
            forall|j: int|
                0 <= j < out@.len() ==> (#[trigger] out@[j])@ == tokens(v@.take(i as int))[j],
            i > 0 && text::is_alnum(v@[i - 1]) ==> out@.len() > 0,
        decreases v.len() - i,
    {
        let c = v[i];
        let ghost before = out@;
        let ghost listed = tokens(v@.take(i as int));
        assert(v@.take(i + 1).drop_last() =~= v@.take(i as int));
        if char_is_alnum(c) {
            if i > 0 && char_is_alnum(v[i - 1]) {
                let last = out.len() - 1;
                let token = &mut out[last];
                token.push(c);
                assert forall|j: int| 0 <= j < out@.len() implies (#[trigger] out@[j])@ == tokens(
                    v@.take(i + 1),
                )[j] by {
                    if j < last {
                        assert(out@[j] == before[j]);
                    } else {
                        assert(before[j]@ == listed[j]);
                    }
                }
            } else {
                let mut token: Vec<char> = Vec::new();
                token.push(c);
                assert(token@ =~= seq![c]);
                out.push(token);
                assert forall|j: int| 0 <= j < out@.len() implies (#[trigger] out@[j])@ == tokens(
                    v@.take(i + 1),
                )[j] by {
                    if j < before.len() {
                        assert(out@[j] == before[j]);
                    }
                }
            }
        }
        i += 1;
    }
    assert(v@.take(v@.len() as int) =~= v@);
    out
}

/// A chapter name as lowercase words.
fn words(title: &[char]) -> (r: Vec<Vec<char>>)
    ensures
        r@.len() == words_of(title@).len(),
        forall|i: int| 0 <= i < r@.len() ==> (#[trigger] r@[i])@ == words_of(title@)[i],
{
    let all = split_tokens(&to_lower(trimmed(title)));
    let ghost listed = tokens(text::lower(text::trim(title@)));
    let mut out: Vec<Vec<char>> = Vec::new();
    let mut i: usize = 0;
    while i < all.len()
        invariant
            i <= all@.len(),
            all@.len() == listed.len(),
            forall|j: int| 0 <= j < all@.len() ==> (#[trigger] all@[j])@ == listed[j],
            out@.len() == names_of(listed.take(i as int)).len(),
            forall|j: int|
                0 <= j < out@.len() ==> (#[trigger] out@[j])@ == names_of(
                    listed.take(i as int),
                )[j],
        decreases all.len() - i,
    {
        let token = &all[i];
        let ghost before = out@;
        assert(listed.take(i + 1).drop_last() =~= listed.take(i as int));
        assert(listed.take(i + 1).last() == token@);
        let upto = text::start_of_digits(token, token.len());
        if upto > 0 {
            let part = vstd::slice::slice_subrange(token, 0, upto);
            assert(part@ =~= undigited(token@));
            out.push(text::copy_chars(part));
            assert forall|j: int| 0 <= j < out@.len() implies (#[trigger] out@[j])@ == names_of(
                listed.take(i + 1),
            )[j] by {
                if j < before.len() {
                    assert(out@[j] == before[j]);
                }
            }
        }
        i += 1;
    }
    assert(listed.take(listed.len() as int) =~= listed);
    out
}

fn claim_from_words(head: &[char], second: &[char]) -> (r: Claim)
    ensures
        r == claim_of_words(head@, second@),
{
    // Two-word forms first: the second word is what tells `end credits` from
    // `end`.
    if is_word(head, "next") || is_word(head, "nep") {
        return Claim::Preview;
    }
    let credits = is_word(second, "credits");
    let song = is_word(second, "theme") || is_word(second, "song");
    if (is_word(head, "end") || is_word(head, "ending") || is_word(head, "closing")) && credits {
        return Claim::Ending;
    }
    if (is_word(head, "cast") || is_word(head, "staff")) && (is_word(second, "roll") || credits) {
        return Claim::Ending;
    }
    if (is_word(head, "opening") || is_word(head, "op")) && (song || credits) {
        return Claim::Opening;
    }
    if (is_word(head, "ending") || is_word(head, "ed")) && song {
        return Claim::Ending;
    }
    // `Ending Note` is a name, not an ending.
    if is_word(head, "ending") && is_word(second, "note") {
        return Claim::Content;
    }
    if is_word(head, "op") || is_word(head, "opening") || is_word(head, "openning") || is_word(
        head,
        "ncop",
    ) {
        return Claim::Opening;
    }
    if is_word(head, "ed") || is_word(head, "ending") || is_word(head, "nced") || is_word(
        head,
        "outro",
    ) || is_word(head, "endcard") {
        return Claim::Ending;
    }
    if is_word(head, "preview") || is_word(head, "pv") || is_word(head, "trailer") || is_word(
        head,
        "teaser",
    ) || is_word(head, "yokoku") {
        return Claim::Preview;
    }
    if is_word(head, "intro") {
        return Claim::MaybeOpening;
    }
    if is_word(head, "credits") || is_word(head, "closing") || is_word(head, "cast") || is_word(
        head,
        "staff",
    ) {
        return Claim::MaybeEnding;
    }
    Claim::Content
}

impl Claim {
    /// Read a claim out of a chapter name.
    ///
    /// Matched on whole words from the front, not on substrings: `Operation
    /// Briefing` starts with `op` and is not an opening, `Ending Note` is not an
    /// ending, and skipping a viewer out of either is a mistake they
    /// cannot undo without finding the seek bar.
    pub fn of(title: &str) -> (r: Self)
        ensures
            r == claim_of(title@),
    {
        let chars = to_chars(title);
        if text_contains(&chars, "オープニング") {
            return Claim::Opening;
        }
        if text_contains(&chars, "エンディング") {
            return Claim::Ending;
        }
        if text_contains(&chars, "予告") {
            return Claim::Preview;
        }
        let words = words(&chars);
        if words.len() == 0 {
            return Claim::Content;
        }
        let none: Vec<char> = Vec::new();
        assert(none@ =~= Seq::empty());
        if words.len() > 1 {
            assert(words@[1]@ == words_of(title@)[1]);
            claim_from_words(&words[0], &words[1])
        } else {
            claim_from_words(&words[0], &none)
        }
    }
}

impl Chapter {
    /// What to show in a list. A nameless chapter is still worth an entry: it is a
    /// place in the file, so it gets its number.
    pub fn label(&self) -> (r: String)
        requires
            self.index < i64::MAX,
        ensures
            r@ == match self.title {
                Some(title) => title@,
                None => "Chapter "@ + text::integer(self.index + 1),
            },
    {
        match &self.title {
            Some(title) => title.clone(),
            None => {
                let mut label = owned("Chapter ");
                let number = from_chars(&text::integer_of(self.index + 1));
                label.push_str(number.as_str());
                label
            },
        }
    }

    fn claim(&self) -> (r: Claim)
        ensures
            r == claim_of(name_of(*self)),
    {
        match &self.title {
            Some(title) => Claim::of(title.as_str()),
            None => {
                let nameless = String::new();
                Claim::of(nameless.as_str())
            },
        }
    }

    /// What this chapter is, from its name alone.
    ///
    /// Prefer [`roles`], which resolves the names that only mean one thing *in
    /// context*. Unresolved without the rest of the file, a name is taken for
    /// content, which is the reading that never skips anything.
    pub fn role(&self) -> (r: ChapterRole)
        ensures
            r == match claim_of(name_of(*self)) {
                Claim::Opening => ChapterRole::Opening,
                Claim::Ending => ChapterRole::Ending,
                Claim::Preview => ChapterRole::Preview,
                _ => ChapterRole::Content,
            },
    {
        match self.claim() {
            Claim::Opening => ChapterRole::Opening,
            Claim::Ending => ChapterRole::Ending,
            Claim::Preview => ChapterRole::Preview,
            _ => ChapterRole::Content,
        }
    }
}

/// Where the chapter at `index` ends: the next one's start, or the end of the
/// file.
pub open spec fn end_of(chapters: Seq<Chapter>, index: int, duration: Option<i64>) -> Option<i64> {
    let end = if index + 1 < chapters.len() {
        Some(chapters[index + 1].start)
    } else {
        duration
    };
    match end {
        Some(end) => if end > 0 {
            Some(end)
        } else {
            None
        },
        None => None,
    }
}

/// Where the chapter starting at `index` ends: the next one's start, or the end
/// of the file.
pub fn chapter_end(chapters: &[Chapter], index: usize, duration: Option<i64>) -> (r: Option<i64>)
    ensures
        r == end_of(chapters@, index as int, duration),
{
    let count: usize = chapters.len();
    let end = if index < count && index + 1 < count {
        Some(chapters[index + 1].start)
    } else {
        duration
    };
    match end {
        Some(end) => if end > 0 {
            Some(end)
        } else {
            None
        },
        None => None,
    }
}

/// How long the chapter at `index` runs, where that is known and not nothing.
pub open spec fn length_of(chapters: Seq<Chapter>, index: int, duration: Option<i64>) -> Option<
    int,
> {
    match end_of(chapters, index, duration) {
        Some(end) => if end > chapters[index].start {
            Some(end - chapters[index].start)
        } else {
            None
        },
        None => None,
    }
}

/// Whether any chapter says outright that it is the opening.
pub open spec fn has_real_opening(chapters: Seq<Chapter>) -> bool {
    exists|i: int| 0 <= i < chapters.len() && claim_of(name_of(#[trigger] chapters[i])) is Opening
}

/// The role of the chapter at `index`, with the file's own shape taken into
/// account.
pub open spec fn role_of(chapters: Seq<Chapter>, index: int, duration: Option<i64>) -> ChapterRole {
    let start = chapters[index].start;
    let length = length_of(chapters, index, duration);
    match claim_of(name_of(chapters[index])) {
        Claim::Opening => ChapterRole::Opening,
        Claim::Ending => ChapterRole::Ending,
        Claim::Preview => ChapterRole::Preview,
        Claim::MaybeOpening => if !has_real_opening(chapters) && start <= OPENING_BEFORE && length
            is Some && THEME_FROM <= length->0 <= THEME_UPTO {
            ChapterRole::Opening
        } else {
            ChapterRole::Content
        },
        Claim::MaybeEnding => if (length is Some && CREDITS_FROM <= length->0 <= CREDITS_UPTO) || (
        duration is Some && start * 4 >= duration->0 * 3) {
            ChapterRole::Ending
        } else {
            ChapterRole::Content
        },
        Claim::Content => ChapterRole::Content,
    }
}

/// The role of every chapter in a file, with the file's own shape taken into
/// account.
///
/// * A chapter that merely *reads* like an opening is one only when the file has
///   no chapter that says so outright, it runs the length of a theme song, and it
///   is near the front.
/// * A chapter that reads like credits is the ending when it runs to about that
///   length, or when it sits in the last quarter of the file.
///
/// Both rules fail *towards content*: not offering a skip costs a button, and
/// skipping the viewer out of the story costs them the story.
pub fn roles(chapters: &[Chapter], duration: Option<i64>) -> (r: Vec<ChapterRole>)
    ensures
        r@ == Seq::new(chapters@.len(), |i: int| role_of(chapters@, i, duration)),
{
    let mut claims: Vec<Claim> = Vec::new();
    let mut real_opening: bool = false;
    let mut i: usize = 0;
    while i < chapters.len()
        invariant
            i <= chapters@.len(),
            claims@.len() == i,
            forall|j: int| 0 <= j < i ==> #[trigger] claims@[j] == claim_of(name_of(chapters@[j])),
            real_opening == exists|j: int|
                0 <= j < i && claim_of(name_of(#[trigger] chapters@[j])) is Opening,
        decreases chapters.len() - i,
    {
        let claim = chapters[i].claim();
        match claim {
            Claim::Opening => {
                assert(claim_of(name_of(chapters@[i as int])) is Opening);
                real_opening = true;
            },
            _ => {},
        }
        claims.push(claim);
        i += 1;
    }
    let mut out: Vec<ChapterRole> = Vec::new();
    let mut i: usize = 0;
    while i < chapters.len()
        invariant
            i <= chapters@.len(),
            claims@.len() == chapters@.len(),
            forall|j: int|
                0 <= j < chapters@.len() ==> #[trigger] claims@[j] == claim_of(
                    name_of(chapters@[j]),
                ),
            real_opening == has_real_opening(chapters@),
            out@.len() == i,
            forall|j: int| 0 <= j < i ==> #[trigger] out@[j] == role_of(chapters@, j, duration),
        decreases chapters.len() - i,
    {
        let start = chapters[i].start;
        let length: Option<i128> = match chapter_end(chapters, i, duration) {
            Some(end) => if end > start {
                Some(end as i128 - start as i128)
            } else {
                None
            },
            None => None,
        };
        let role = match claims[i] {
            Claim::Opening => ChapterRole::Opening,
            Claim::Ending => ChapterRole::Ending,
            Claim::Preview => ChapterRole::Preview,
            Claim::MaybeOpening => {
                let theme = match length {
                    Some(n) => THEME_FROM as i128 <= n && n <= THEME_UPTO as i128,
                    None => false,
                };
                if !real_opening && start <= OPENING_BEFORE && theme {
                    ChapterRole::Opening
                } else {
                    ChapterRole::Content
                }
            },
            Claim::MaybeEnding => {
                let credits = match length {
                    Some(n) => CREDITS_FROM as i128 <= n && n <= CREDITS_UPTO as i128,
                    None => false,
                };
                let late = match duration {
                    Some(total) => start as i128 * 4 >= total as i128 * 3,
                    None => false,
                };
                if credits || late {
                    ChapterRole::Ending
                } else {
                    ChapterRole::Content
                }
            },
            Claim::Content => ChapterRole::Content,
        };
        out.push(role);
        i += 1;
    }
    assert(out@ =~= Seq::new(chapters@.len(), |i: int| role_of(chapters@, i, duration)));
    out
}

/// The roles that the file could not end on.
pub open spec fn must_be_seen(roles: Seq<ChapterRole>) -> spec_fn(int) -> bool {
    |i: int| !roles[i].is_tail()
}

/// The first chapter of the run that ends the file: the one after the last that
/// must be seen.
pub open spec fn tail_index(roles: Seq<ChapterRole>) -> Option<int> {
    match text::last_before(0, roles.len() as int, must_be_seen(roles)) {
        Some(i) => Some(i + 1),
        None => None,
    }
}

/// Where the run of chapters that ends the file (credits, a preview, and nothing
/// the viewer would miss) begins.
///
/// **The suffix, not the last chapter.** A release that puts a Part C after the
/// ending and a preview after that must give up only the preview, or
/// auto-advancing skips a scene that matters.
///
/// `None` when the file ends on content, has no chapters, or is *entirely*
/// skippable, the last of which is a mis-tagged file, not an episode that is all
/// credits.
pub fn credits_start(chapters: &[Chapter], roles: &[ChapterRole]) -> (r: Option<i64>)
    ensures
        r == match tail_index(roles@) {
            Some(first) => if first < chapters@.len() {
                Some(chapters@[first].start)
            } else {
                None
            },
            None => None,
        },
{
    let count: usize = roles.len();
    let mut i: usize = count;
    while i > 0
        invariant
            i <= roles@.len(),
            text::last_before(0, roles@.len() as int, must_be_seen(roles@)) == text::last_before(
                0,
                i as int,
                must_be_seen(roles@),
            ),
        decreases i,
    {
        if !roles[i - 1].ends_the_episode() {
            return if i < chapters.len() {
                Some(chapters[i].start)
            } else {
                None
            };
        }
        i -= 1;
    }
    None
}

/// Auto-advancing never skips a chapter that must be seen: every chapter from
/// the one that the credits start with is one the file could end on, and the one
/// before it is not.
pub proof fn law_nothing_that_matters_is_skipped(roles: Seq<ChapterRole>)
    ensures
        match tail_index(roles) {
            Some(first) => {
                &&& 0 < first <= roles.len()
                &&& !roles[first - 1].is_tail()
                &&& forall|i: int| first <= i < roles.len() ==> (#[trigger] roles[i]).is_tail()
            },
            None => forall|i: int| 0 <= i < roles.len() ==> (#[trigger] roles[i]).is_tail(),
        },
{
    text::lemma_last_before(0, roles.len() as int, must_be_seen(roles));
    assert forall|i: int|
        0 <= i < roles.len() && !must_be_seen(roles)(i) implies (#[trigger] roles[i]).is_tail() by {}
}

/// A name that could go either way is only acted on where the file bears it out:
/// with nothing to measure it by, it is content.
pub proof fn law_doubtful_names_fail_towards_content(chapters: Seq<Chapter>, index: int)
    requires
        0 <= index < chapters.len(),
        claim_of(name_of(chapters[index])) is MaybeOpening || claim_of(
            name_of(chapters[index]),
        ) is MaybeEnding,
        index + 1 == chapters.len(),
    ensures
        role_of(chapters, index, None) is Content,
{
}

/// A chapter that says outright what it is, is that, whatever the file's shape.
pub proof fn law_plain_names_are_taken_at_their_word(
    chapters: Seq<Chapter>,
    index: int,
    duration: Option<i64>,
)
    requires
        0 <= index < chapters.len(),
    ensures
        claim_of(name_of(chapters[index])) is Opening ==> role_of(chapters, index, duration)
            is Opening,
        claim_of(name_of(chapters[index])) is Ending ==> role_of(chapters, index, duration)
            is Ending,
        claim_of(name_of(chapters[index])) is Preview ==> role_of(chapters, index, duration)
            is Preview,
{
}

/// The chapters that start at or before `position`.
pub open spec fn begun(chapters: Seq<Chapter>, position: i64) -> spec_fn(int) -> bool {
    |i: int| chapters[i].start <= position
}

/// The chapter a position falls in: the last that has begun.
pub fn chapter_at(chapters: &[Chapter], position: i64) -> (r: Option<usize>)
    ensures
        match r {
            Some(i) => text::last_before(0, chapters@.len() as int, begun(chapters@, position))
                == Some(i as int) && i < chapters@.len(),
            None => text::last_before(0, chapters@.len() as int, begun(chapters@, position))
                is None,
        },
{
    let mut i: usize = chapters.len();
    while i > 0
        invariant
            i <= chapters@.len(),
            text::last_before(0, chapters@.len() as int, begun(chapters@, position))
                == text::last_before(0, i as int, begun(chapters@, position)),
        decreases i,
    {
        if chapters[i - 1].start <= position {
            return Some(i - 1);
        }
        i -= 1;
    }
    None
}

/// A chapter from what the player reports of it. A title of nothing but white
/// space is no title; a chapter without a time starts at the beginning.
pub fn read_chapter(index: i64, title: Option<String>, time: Option<i64>) -> (r: Chapter)
    ensures
        r.index == index,
        text::opt_chars(r.title) == text::stated(text::opt_chars(title)),
        r.start == match time {
            Some(time) => time,
            None => 0,
        },
{
    Chapter {
        index,
        title: text::trimmed_option(title),
        start: match time {
            Some(time) => time,
            None => 0,
        },
    }
}

/// A chapter that only reads like credits is the ending wherever it starts in the
/// last quarter of the file, however long it runs. Before that it is the ending
/// where it runs between half a minute and five, and content everywhere else.
pub proof fn law_credits_are_found_by_place_or_length(
    chapters: Seq<Chapter>,
    index: int,
    duration: i64,
)
    requires
        0 <= index < chapters.len(),
        claim_of(name_of(chapters[index])) is MaybeEnding,
        0 <= chapters[index].start,
    ensures
        ({
            let start = chapters[index].start;
            let end = if index + 1 < chapters.len() {
                chapters[index + 1].start
            } else {
                duration
            };
            let runs = end - start;
            let role = role_of(chapters, index, Some(duration));
            &&& start * 4 >= duration * 3 ==> role is Ending
            &&& 30_000 <= runs <= 300_000 ==> role is Ending
            &&& start * 4 < duration * 3 && (runs < 30_000 || runs > 300_000) ==> role is Content
        }),
{
}

/// Without a known duration only the length of a chapter that reads like credits
/// counts, and that of the last one is not known.
pub proof fn law_credits_without_a_duration(chapters: Seq<Chapter>, index: int)
    requires
        0 <= index < chapters.len(),
        claim_of(name_of(chapters[index])) is MaybeEnding,
        0 <= chapters[index].start,
    ensures
        index + 1 == chapters.len() ==> role_of(chapters, index, None) is Content,
        index + 1 < chapters.len() ==> {
            let runs = chapters[index + 1].start - chapters[index].start;
            role_of(chapters, index, None) == if 30_000 <= runs <= 300_000 {
                ChapterRole::Ending
            } else {
                ChapterRole::Content
            }
        },
{
}

/// A chapter that only reads like an opening is one exactly where no chapter says
/// so outright, it starts in the first eight minutes, and it runs between
/// forty-five seconds and two and a half minutes.
pub proof fn law_an_intro_is_an_opening_by_its_length(
    chapters: Seq<Chapter>,
    index: int,
    duration: i64,
)
    requires
        0 <= index < chapters.len(),
        claim_of(name_of(chapters[index])) is MaybeOpening,
        0 <= chapters[index].start,
    ensures
        ({
            let start = chapters[index].start;
            let end = if index + 1 < chapters.len() {
                chapters[index + 1].start
            } else {
                duration
            };
            let runs = end - start;
            let role = role_of(chapters, index, Some(duration));
            let outright = exists|i: int|
                0 <= i < chapters.len() && claim_of(name_of(#[trigger] chapters[i])) is Opening;
            &&& !outright && start <= 480_000 && 45_000 <= runs <= 150_000 ==> role is Opening
            &&& outright || start > 480_000 || runs < 45_000 || runs > 150_000 ==> role is Content
        }),
{
}

/// A chapter of any other name is content, however long it runs and wherever it
/// stands.
pub proof fn law_content_is_never_skipped(
    chapters: Seq<Chapter>,
    index: int,
    duration: Option<i64>,
)
    requires
        0 <= index < chapters.len(),
        claim_of(name_of(chapters[index])) is Content,
    ensures
        role_of(chapters, index, duration) is Content,
{
}

// ---------------------------------------------------------------------------
// What a name claims, by its characters
// ---------------------------------------------------------------------------

/// Whether a text is one word of letters.
pub open spec fn is_lettered(s: Seq<char>) -> bool {
    s.len() > 0 && forall|i: int| 0 <= i < s.len() ==> text::is_letter(#[trigger] s[i])
}

/// Whether a text holds no letter.
pub open spec fn is_unlettered(s: Seq<char>) -> bool {
    forall|i: int| 0 <= i < s.len() ==> !text::is_letter(#[trigger] s[i])
}

proof fn lemma_names_concat(a: Seq<Seq<char>>, b: Seq<Seq<char>>)
    ensures
        names_of(a + b) == names_of(a) + names_of(b),
    decreases b.len(),
{
    if b.len() == 0 {
        assert(a + b =~= a);
        assert(names_of(a) + names_of(b) =~= names_of(a));
    } else {
        lemma_names_concat(a, b.drop_last());
        assert((a + b).drop_last() =~= a + b.drop_last());
        assert(names_of(a + b) =~= names_of(a) + names_of(b));
    }
}

/// Tokens on either side of a separator are told apart.
#[verifier::rlimit(40)]
proof fn lemma_tokens_apart(a: Seq<char>, b: Seq<char>)
    requires
        a.len() == 0 || b.len() == 0 || !text::is_alnum(a.last()) || !text::is_alnum(b[0]),
    ensures
        tokens(a + b) == tokens(a) + tokens(b),
        b.len() > 0 && text::is_alnum(b.last()) ==> tokens(b).len() > 0,
    decreases b.len(),
{
    let all = a + b;
    if b.len() == 0 {
        assert(all =~= a);
        assert(tokens(a) + tokens(b) =~= tokens(a));
    } else {
        let front = b.drop_last();
        lemma_tokens_apart(a, front);
        assert(all.drop_last() =~= a + front);
        let c = b.last();
        assert(all.last() == c);
        if text::is_alnum(c) {
            if b.len() > 1 {
                assert(all[all.len() - 2] == b[b.len() - 2]);
                assert(front.last() == b[b.len() - 2]);
                if text::is_alnum(b[b.len() - 2]) {
                    assert(tokens(front).len() > 0);
                    assert((tokens(a) + tokens(front)).last() == tokens(front).last());
                    assert((tokens(a) + tokens(front)).drop_last() =~= tokens(a) + tokens(
                        front,
                    ).drop_last());
                }
            } else {
                assert(front =~= Seq::<char>::empty());
                assert(b[0] == c);
                if all.len() > 1 {
                    assert(all[all.len() - 2] == a.last());
                }
            }
        }
        assert(tokens(all) =~= tokens(a) + tokens(b));
    }
}

/// A run of letters and digits is one token.
proof fn lemma_one_token(s: Seq<char>)
    requires
        s.len() > 0,
        forall|i: int| 0 <= i < s.len() ==> text::is_alnum(#[trigger] s[i]),
    ensures
        tokens(s) == seq![s],
    decreases s.len(),
{
    let front = s.drop_last();
    assert(text::is_alnum(s[s.len() - 1]));
    if s.len() == 1 {
        assert(front.len() == 0);
        assert(tokens(front) =~= Seq::<Seq<char>>::empty());
        assert(seq![s.last()] =~= s);
        assert(tokens(s) =~= seq![s]);
    } else {
        assert(text::is_alnum(s[s.len() - 2]));
        assert forall|i: int| 0 <= i < front.len() implies text::is_alnum(#[trigger] front[i]) by {
            assert(text::is_alnum(s[i]));
        }
        lemma_one_token(front);
        assert(front.push(s.last()) =~= s);
        assert(tokens(s) =~= seq![s]);
    }
}

/// What holds no letter leaves no word.
proof fn lemma_unlettered(s: Seq<char>)
    requires
        is_unlettered(s),
    ensures
        names_of(tokens(s)) == Seq::<Seq<char>>::empty(),
        forall|k: int| 0 <= k < tokens(s).len() ==> text::all_digits(#[trigger] tokens(s)[k]),
        s.len() > 0 && text::is_alnum(s.last()) ==> tokens(s).len() > 0,
    decreases s.len(),
{
    if s.len() > 0 {
        let front = s.drop_last();
        assert forall|i: int| 0 <= i < front.len() implies !text::is_letter(#[trigger] front[i]) by {
            assert(!text::is_letter(s[i]));
        }
        lemma_unlettered(front);
        assert(!text::is_letter(s[s.len() - 1]));
        let before = tokens(front);
        let after = tokens(s);
        if text::is_alnum(s.last()) {
            assert(text::is_digit(s.last()));
            if s.len() > 1 && text::is_alnum(s[s.len() - 2]) {
                assert(front.last() == s[s.len() - 2]);
                assert(before.len() > 0);
                assert(text::all_digits(before[before.len() - 1]));
            }
        }
        assert forall|k: int| 0 <= k < after.len() implies text::all_digits(
            #[trigger] after[k],
        ) by {
            if k < before.len() && after[k] == before[k] {
                assert(text::all_digits(before[k]));
            }
        }
        lemma_no_names(after);
    }
}

proof fn lemma_no_names(numbers: Seq<Seq<char>>)
    requires
        forall|k: int| 0 <= k < numbers.len() ==> text::all_digits(#[trigger] numbers[k]),
    ensures
        names_of(numbers) == Seq::<Seq<char>>::empty(),
    decreases numbers.len(),
{
    if numbers.len() > 0 {
        let last = numbers.last();
        assert(text::all_digits(numbers[numbers.len() - 1]));
        lemma_all_digits_start(last, last.len() as int);
        assert(undigited(last) =~= Seq::<char>::empty());
        assert forall|k: int| 0 <= k < numbers.drop_last().len() implies text::all_digits(
            #[trigger] numbers.drop_last()[k],
        ) by {
            assert(text::all_digits(numbers[k]));
        }
        lemma_no_names(numbers.drop_last());
    }
}

proof fn lemma_all_digits_start(s: Seq<char>, i: int)
    requires
        text::all_digits(s),
        0 <= i <= s.len(),
    ensures
        text::digits_start(s, i) == 0,
    decreases i,
{
    if i > 0 {
        assert(text::is_digit(s[i - 1]));
        lemma_all_digits_start(s, i - 1);
    }
}

/// The first words of a name: a word of letters, with digits glued to it or not,
/// behind anything that holds no letter.
#[verifier::rlimit(40)]
proof fn lemma_first_words(lead: Seq<char>, word: Seq<char>, number: Seq<char>, rest: Seq<char>)
    requires
        is_unlettered(lead),
        lead.len() == 0 || !text::is_alnum(lead.last()),
        is_lettered(word),
        text::all_digits(number),
        rest.len() == 0 || !text::is_alnum(rest[0]),
    ensures
        names_of(tokens(lead + word + number + rest)) == seq![word] + names_of(tokens(rest)),
{
    let token = word + number;
    assert forall|i: int| 0 <= i < token.len() implies text::is_alnum(#[trigger] token[i]) by {
        if i < word.len() {
            assert(text::is_letter(word[i]));
        } else {
            assert(text::is_digit(number[i - word.len()]));
        }
    }
    lemma_one_token(token);
    lemma_tokens_apart(lead, token);
    lemma_tokens_apart(lead + token, rest);
    assert(lead + word + number + rest =~= (lead + token) + rest);
    lemma_unlettered(lead);
    lemma_names_concat(tokens(lead), tokens(token));
    lemma_names_concat(tokens(lead) + tokens(token), tokens(rest));
    // The token without its digits is the word.
    let n = word.len() as int;
    lemma_glued_digits(token, n, token.len() as int);
    assert(text::is_letter(word[n - 1]));
    assert(token[n - 1] == word[n - 1]);
    assert(undigited(token) =~= word);
    let one = seq![token];
    assert(one.last() == token);
    assert(one.drop_last().len() == 0);
    assert(names_of(one.drop_last()) =~= Seq::<Seq<char>>::empty());
    assert(names_of(one) =~= seq![word]);
    assert(Seq::<Seq<char>>::empty() + seq![word] =~= seq![word]);
}

proof fn lemma_glued_digits(s: Seq<char>, from: int, to: int)
    requires
        0 < from <= to <= s.len(),
        forall|i: int| from <= i < to ==> text::is_digit(#[trigger] s[i]),
        text::is_letter(s[from - 1]),
    ensures
        text::digits_start(s, to) == from,
    decreases to - from,
{
    if from < to {
        assert(text::is_digit(s[to - 1]));
        lemma_glued_digits(s, from, to - 1);
    }
}

/// Whether a text is spelled like `word`, in whatever case.
pub open spec fn spells(s: Seq<char>, word: Seq<char>) -> bool {
    text::lower(s) == word
}

proof fn lemma_lower_kinds(s: Seq<char>)
    ensures
        text::lower(s).len() == s.len(),
        forall|i: int|
            0 <= i < s.len() ==> text::is_letter(#[trigger] text::lower(s)[i]) == text::is_letter(
                s[i],
            ) && text::is_digit(text::lower(s)[i]) == text::is_digit(s[i]) && text::is_alnum(
                text::lower(s)[i],
            ) == text::is_alnum(s[i]) && (text::is_digit(s[i]) ==> text::lower(s)[i] == s[i]),
{
}

/// The words of a name as they stand.
#[verifier::rlimit(40)]
proof fn lemma_words(
    lead: Seq<char>,
    word: Seq<char>,
    number: Seq<char>,
    rest: Seq<char>,
)
    requires
        is_unlettered(lead),
        lead.len() == 0 || !text::is_alnum(lead.last()) && !text::is_white(lead[0]),
        is_lettered(word),
        text::all_digits(number),
        rest.len() == 0 || !text::is_alnum(rest[0]) && !text::is_white(rest.last()),
    ensures
        words_of(lead + word + number + rest) == seq![text::lower(word)] + names_of(
            tokens(text::lower(rest)),
        ),
{
    let title = lead + word + number + rest;
    assert(text::is_letter(word[0]) && text::is_letter(word[word.len() - 1]));
    if number.len() > 0 {
        assert(text::is_digit(number[number.len() - 1]));
    }
    assert(title[0] == if lead.len() > 0 {
        lead[0]
    } else {
        word[0]
    });
    assert(title.last() == if rest.len() > 0 {
        rest.last()
    } else if number.len() > 0 {
        number.last()
    } else {
        word.last()
    });
    assert(text::trim(title) == title);
    lemma_lower_kinds(lead);
    lemma_lower_kinds(word);
    lemma_lower_kinds(number);
    lemma_lower_kinds(rest);
    let (a, b, c, d) = (
        text::lower(lead),
        text::lower(word),
        text::lower(number),
        text::lower(rest),
    );
    assert(text::lower(title) =~= a + b + c + d);
    assert forall|i: int| 0 <= i < a.len() implies !text::is_letter(#[trigger] a[i]) by {
        assert(!text::is_letter(lead[i]));
    }
    assert forall|i: int| 0 <= i < b.len() implies text::is_letter(#[trigger] b[i]) by {
        assert(text::is_letter(word[i]));
    }
    assert forall|i: int| 0 <= i < c.len() implies text::is_digit(#[trigger] c[i]) by {
        assert(text::is_digit(number[i]));
    }
    lemma_first_words(a, b, c, d);
}

/// Whether a name holds one of the Japanese words that settle it.
pub open spec fn holds_kana(title: Seq<char>) -> bool {
    text::contains_text(title, "オープニング"@) || text::contains_text(title, "エンディング"@)
        || text::contains_text(title, "予告"@)
}

/// The first word of a name decides, in whatever case, with a number glued to it
/// or not, and whatever numbering stands before it. These decide by themselves,
/// whatever words follow.
#[verifier::rlimit(40)]
pub proof fn law_the_first_word_decides(
    lead: Seq<char>,
    word: Seq<char>,
    number: Seq<char>,
    rest: Seq<char>,
)
    requires
        is_unlettered(lead),
        lead.len() == 0 || !text::is_alnum(lead.last()) && !text::is_white(lead[0]),
        is_lettered(word),
        text::all_digits(number),
        rest.len() == 0 || !text::is_alnum(rest[0]) && !text::is_white(rest.last()),
        !holds_kana(lead + word + number + rest),
    ensures
        ({
            let claim = claim_of(lead + word + number + rest);
            &&& spells(word, "op"@) || spells(word, "opening"@) || spells(word, "openning"@)
                || spells(word, "ncop"@) ==> claim is Opening
            &&& spells(word, "ed"@) || spells(word, "nced"@) || spells(word, "outro"@) || spells(
                word,
                "endcard"@,
            ) ==> claim is Ending
            &&& spells(word, "next"@) || spells(word, "nep"@) || spells(word, "preview"@)
                || spells(word, "pv"@) || spells(word, "trailer"@) || spells(word, "teaser"@)
                || spells(word, "yokoku"@) ==> claim is Preview
            &&& spells(word, "intro"@) ==> claim is MaybeOpening
            &&& spells(word, "credits"@) ==> claim is MaybeEnding
        }),
{
    lemma_words(lead, word, number, rest);
    lemma_keywords();
    let words = words_of(lead + word + number + rest);
    assert(words[0] == text::lower(word));
}

/// A name of one word, in whatever case and with any numbers, that none of the
/// lists holds is content; the words that only a second one would settle are read
/// as they stand alone.
#[verifier::rlimit(40)]
pub proof fn law_a_word_alone_is_what_it_says(
    lead: Seq<char>,
    word: Seq<char>,
    number: Seq<char>,
    rest: Seq<char>,
)
    requires
        is_unlettered(lead),
        lead.len() == 0 || !text::is_alnum(lead.last()) && !text::is_white(lead[0]),
        is_lettered(word),
        text::all_digits(number),
        rest.len() == 0 || !text::is_alnum(rest[0]) && !text::is_white(rest.last()),
        is_unlettered(rest),
        !holds_kana(lead + word + number + rest),
    ensures
        ({
            let claim = claim_of(lead + word + number + rest);
            let l = text::lower(word);
            &&& l == "ending"@ ==> claim is Ending
            &&& l == "end"@ ==> claim is Content
            &&& l == "closing"@ || l == "cast"@ || l == "staff"@ ==> claim is MaybeEnding
            &&& l != "op"@ && l != "opening"@ && l != "openning"@ && l != "ncop"@ && l != "ed"@ && l
                != "ending"@ && l != "nced"@ && l != "outro"@ && l != "endcard"@ && l != "next"@ && l
                != "nep"@ && l != "preview"@ && l != "pv"@ && l != "trailer"@ && l != "teaser"@ && l
                != "yokoku"@ && l != "intro"@ && l != "credits"@ && l != "closing"@ && l != "cast"@
                && l != "staff"@ ==> claim is Content
        }),
{
    lemma_words(lead, word, number, rest);
    lemma_lower_kinds(rest);
    let d = text::lower(rest);
    assert forall|i: int| 0 <= i < d.len() implies !text::is_letter(#[trigger] d[i]) by {
        assert(!text::is_letter(rest[i]));
    }
    lemma_unlettered(d);
    lemma_keywords();
    let words = words_of(lead + word + number + rest);
    assert(words =~= seq![text::lower(word)]);
}

/// Two words settle what one does not: end credits and a cast roll are the ending,
/// and so is every `ending` but the one that is a note.
#[verifier::rlimit(40)]
pub proof fn law_two_words_settle_the_ending(
    word: Seq<char>,
    gap: Seq<char>,
    second: Seq<char>,
)
    requires
        is_lettered(word),
        is_lettered(second),
        gap.len() > 0,
        is_unlettered(gap),
        !text::is_alnum(gap[0]),
        !text::is_alnum(gap.last()),
        !holds_kana(word + gap + second),
    ensures
        ({
            let claim = claim_of(word + gap + second);
            let (l, m) = (text::lower(word), text::lower(second));
            &&& (l == "end"@ || l == "closing"@) && m == "credits"@ ==> claim is Ending
            &&& (l == "cast"@ || l == "staff"@) && (m == "roll"@ || m == "credits"@)
                ==> claim is Ending
            &&& l == "ending"@ && m != "note"@ ==> claim is Ending
            &&& l == "ending"@ && m == "note"@ ==> claim is Content
            &&& l == "end"@ && m != "credits"@ ==> claim is Content
            &&& (l == "cast"@ || l == "staff"@) && m != "roll"@ && m != "credits"@
                ==> claim is MaybeEnding
            &&& l == "closing"@ && m != "credits"@ ==> claim is MaybeEnding
        }),
{
    let none = Seq::<char>::empty();
    let rest = gap + second;
    assert(none + word + none + rest =~= word + gap + second);
    assert(text::is_letter(second[second.len() - 1]));
    lemma_words(none, word, none, rest);
    lemma_lower_kinds(gap);
    lemma_lower_kinds(second);
    let g = text::lower(gap);
    let s = text::lower(second);
    assert(text::lower(rest) =~= g + s + none + none);
    assert forall|i: int| 0 <= i < g.len() implies !text::is_letter(#[trigger] g[i]) by {
        assert(!text::is_letter(gap[i]));
    }
    assert forall|i: int| 0 <= i < s.len() implies text::is_letter(#[trigger] s[i]) by {
        assert(text::is_letter(second[i]));
    }
    assert(!text::is_alnum(g[g.len() - 1]));
    lemma_first_words(g, s, none, none);
    let words = words_of(word + gap + second);
    assert(words[0] == text::lower(word) && words[1] == text::lower(second));
    lemma_keywords();
}

/// The Japanese words settle a name wherever in it they stand.
pub proof fn law_japanese_names_settle_it(title: Seq<char>)
    ensures
        text::contains_text(title, "オープニング"@) ==> claim_of(title) is Opening,
        text::contains_text(title, "エンディング"@) && !text::contains_text(
            title,
            "オープニング"@,
        ) ==> claim_of(title) is Ending,
        text::contains_text(title, "予告"@) && !text::contains_text(title, "オープニング"@)
            && !text::contains_text(title, "エンディング"@) ==> claim_of(title) is Preview,
{
}

/// How long each of the words that decide is, and what it begins with: no two of
/// them are the same.
proof fn lemma_keywords()
    ensures
        "op"@.len() == 2 && "op"@[0] == 'o' && "op"@[1] == 'p',
        "opening"@.len() == 7 && "opening"@[0] == 'o' && "opening"@[1] == 'p' && "opening"@[2] == 'e',
        "openning"@.len() == 8 && "openning"@[0] == 'o' && "openning"@[1] == 'p' && "openning"@[2] == 'e',
        "ncop"@.len() == 4 && "ncop"@[0] == 'n' && "ncop"@[1] == 'c' && "ncop"@[2] == 'o',
        "ed"@.len() == 2 && "ed"@[0] == 'e' && "ed"@[1] == 'd',
        "ending"@.len() == 6 && "ending"@[0] == 'e' && "ending"@[1] == 'n' && "ending"@[2] == 'd',
        "nced"@.len() == 4 && "nced"@[0] == 'n' && "nced"@[1] == 'c' && "nced"@[2] == 'e',
        "outro"@.len() == 5 && "outro"@[0] == 'o' && "outro"@[1] == 'u' && "outro"@[2] == 't',
        "endcard"@.len() == 7 && "endcard"@[0] == 'e' && "endcard"@[1] == 'n' && "endcard"@[2] == 'd',
        "next"@.len() == 4 && "next"@[0] == 'n' && "next"@[1] == 'e' && "next"@[2] == 'x',
        "nep"@.len() == 3 && "nep"@[0] == 'n' && "nep"@[1] == 'e' && "nep"@[2] == 'p',
        "preview"@.len() == 7 && "preview"@[0] == 'p' && "preview"@[1] == 'r' && "preview"@[2] == 'e',
        "pv"@.len() == 2 && "pv"@[0] == 'p' && "pv"@[1] == 'v',
        "trailer"@.len() == 7 && "trailer"@[0] == 't' && "trailer"@[1] == 'r' && "trailer"@[2] == 'a',
        "teaser"@.len() == 6 && "teaser"@[0] == 't' && "teaser"@[1] == 'e' && "teaser"@[2] == 'a',
        "yokoku"@.len() == 6 && "yokoku"@[0] == 'y' && "yokoku"@[1] == 'o' && "yokoku"@[2] == 'k',
        "intro"@.len() == 5 && "intro"@[0] == 'i' && "intro"@[1] == 'n' && "intro"@[2] == 't',
        "credits"@.len() == 7 && "credits"@[0] == 'c' && "credits"@[1] == 'r' && "credits"@[2] == 'e',
        "closing"@.len() == 7 && "closing"@[0] == 'c' && "closing"@[1] == 'l' && "closing"@[2] == 'o',
        "cast"@.len() == 4 && "cast"@[0] == 'c' && "cast"@[1] == 'a' && "cast"@[2] == 's',
        "staff"@.len() == 5 && "staff"@[0] == 's' && "staff"@[1] == 't' && "staff"@[2] == 'a',
        "end"@.len() == 3 && "end"@[0] == 'e' && "end"@[1] == 'n' && "end"@[2] == 'd',
        "theme"@.len() == 5 && "theme"@[0] == 't' && "theme"@[1] == 'h' && "theme"@[2] == 'e',
        "song"@.len() == 4 && "song"@[0] == 's' && "song"@[1] == 'o' && "song"@[2] == 'n',
        "roll"@.len() == 4 && "roll"@[0] == 'r' && "roll"@[1] == 'o' && "roll"@[2] == 'l',
        "note"@.len() == 4 && "note"@[0] == 'n' && "note"@[1] == 'o' && "note"@[2] == 't',
{
    reveal_strlit("op");
    reveal_strlit("opening");
    reveal_strlit("openning");
    reveal_strlit("ncop");
    reveal_strlit("ed");
    reveal_strlit("ending");
    reveal_strlit("nced");
    reveal_strlit("outro");
    reveal_strlit("endcard");
    reveal_strlit("next");
    reveal_strlit("nep");
    reveal_strlit("preview");
    reveal_strlit("pv");
    reveal_strlit("trailer");
    reveal_strlit("teaser");
    reveal_strlit("yokoku");
    reveal_strlit("intro");
    reveal_strlit("credits");
    reveal_strlit("closing");
    reveal_strlit("cast");
    reveal_strlit("staff");
    reveal_strlit("end");
    reveal_strlit("theme");
    reveal_strlit("song");
    reveal_strlit("roll");
    reveal_strlit("note");
}

/// A position falls in the last chapter that starts at it or before it; one before
/// the first chapter falls in none.
pub proof fn law_a_position_falls_in_the_last_begun(
    chapters: Seq<Chapter>,
    position: i64,
    k: int,
)
    requires
        0 <= k < chapters.len(),
        chapters[k].start <= position,
        forall|j: int| k < j < chapters.len() ==> (#[trigger] chapters[j]).start > position,
    ensures
        text::last_before(0, chapters.len() as int, begun(chapters, position)) == Some(k),
{
    let p = begun(chapters, position);
    text::lemma_last_before(0, chapters.len() as int, p);
    assert(p(k));
    let last = text::last_before(0, chapters.len() as int, p)->0;
    if last > k {
        assert(p(last));
        assert(chapters[last].start > position);
    }
}

/// Credits and a preview end an episode; an opening and the story do not.
pub proof fn law_credits_and_previews_end_an_episode(role: ChapterRole)
    ensures
        role.is_tail() <==> role == ChapterRole::Ending || role == ChapterRole::Preview,
{
}

/// A chapter ends where the next one starts, and the last one where the file does;
/// an end that is not past the beginning of the file is none.
pub proof fn law_a_chapter_ends_where_the_next_starts(
    chapters: Seq<Chapter>,
    index: int,
    duration: Option<i64>,
)
    requires
        0 <= index < chapters.len(),
    ensures
        index + 1 < chapters.len() && chapters[index + 1].start > 0 ==> end_of(
            chapters,
            index,
            duration,
        ) == Some(chapters[index + 1].start),
        index + 1 < chapters.len() && chapters[index + 1].start <= 0 ==> end_of(
            chapters,
            index,
            duration,
        ) is None,
        index + 1 == chapters.len() ==> (duration matches Some(length) ==> (length > 0 ==> end_of(
            chapters,
            index,
            duration,
        ) == Some(length)) && (length <= 0 ==> end_of(chapters, index, duration) is None)),
        index + 1 == chapters.len() && duration is None ==> end_of(chapters, index, duration)
            is None,
{
}

} // verus!
