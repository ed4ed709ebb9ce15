//! What names state, told from the characters they are made of.
//!
//! Each law takes a name apart into what it is written as, and says what
//! [`naming::parsed`] and [`naming::folder_role`] make of it.

use vstd::prelude::*;

use crate::naming;
use crate::naming::FolderView;
use crate::naming::Found;
use crate::text;

verus! {

// ---------------------------------------------------------------------------
// Numbers
// ---------------------------------------------------------------------------

proof fn lemma_zeros_add_nothing(zeros: Seq<char>, digits: Seq<char>)
    requires
        forall|i: int| 0 <= i < zeros.len() ==> #[trigger] zeros[i] == '0',
        text::all_digits(digits),
    ensures
        text::digits_value(zeros + digits) == text::digits_value(digits),
        text::all_digits(zeros + digits),
    decreases zeros.len() + digits.len(),
{
    let all = zeros + digits;
    if digits.len() > 0 {
        let front = digits.drop_last();
        assert(text::all_digits(front)) by {
            assert forall|i: int| 0 <= i < front.len() implies text::is_digit(
                #[trigger] front[i],
            ) by {
                assert(text::is_digit(digits[i]));
            }
        }
        lemma_zeros_add_nothing(zeros, front);
        assert(all.drop_last() =~= zeros + front);
    } else if zeros.len() > 0 {
        lemma_zeros_add_nothing(zeros.drop_last(), digits);
        assert(all.drop_last() =~= zeros.drop_last() + digits);
        assert(all.last() == zeros[zeros.len() - 1]);
    } else {
        assert(all =~= digits);
    }
    assert forall|i: int| 0 <= i < all.len() implies text::is_digit(#[trigger] all[i]) by {
        if i >= zeros.len() {
            assert(text::is_digit(digits[i - zeros.len()]));
        }
    }
}

/// A number reads back from its digits, however many zeros stand in front.
pub proof fn lemma_padded(n: nat, width: nat)
    ensures
        text::padded(n, width).len() > 0,
        text::all_digits(text::padded(n, width)),
        text::digits_value(text::padded(n, width)) == n,
{
    text::lemma_decimal_reads_back(n);
    if text::decimal(n).len() < width {
        let zeros = Seq::new((width - text::decimal(n).len()) as nat, |i: int| '0');
        lemma_zeros_add_nothing(zeros, text::decimal(n));
    }
}

proof fn lemma_digits_end(s: Seq<char>, from: int, to: int)
    requires
        0 <= from <= to <= s.len(),
        forall|i: int| from <= i < to ==> text::is_digit(#[trigger] s[i]),
        to == s.len() || !text::is_digit(s[to]),
    ensures
        text::digits_end(s, from) == to,
    decreases to - from,
{
    if from < to {
        lemma_digits_end(s, from + 1, to);
    }
}

proof fn lemma_digits_start(s: Seq<char>, from: int, to: int)
    requires
        0 <= from <= to <= s.len(),
        forall|i: int| from <= i < to ==> text::is_digit(#[trigger] s[i]),
        from == 0 || !text::is_digit(s[from - 1]),
    ensures
        text::digits_start(s, to) == from,
    decreases to - from,
{
    if from < to {
        lemma_digits_start(s, from, to - 1);
    }
}

/// The number that stands at `from`, by its digits.
#[verifier::rlimit(40)]
proof fn lemma_number_stands(s: Seq<char>, from: int, n: nat, width: nat)
    requires
        0 <= from,
        from + text::padded(n, width).len() <= s.len(),
        s.subrange(from, from + text::padded(n, width).len()) == text::padded(n, width),
        text::padded(n, width).len() <= 4,
        from + text::padded(n, width).len() == s.len() || !text::is_digit(
            s[from + text::padded(n, width).len()],
        ),
    ensures
        n <= 9999,
        naming::number_at(s, from) == Some((n as u32, from + text::padded(n, width).len())),
        naming::number_after(s, from) == Some((n as u32, from + text::padded(n, width).len())),
{
    let digits = text::padded(n, width);
    let to = from + digits.len();
    lemma_padded(n, width);
    assert forall|i: int| from <= i < to implies text::is_digit(#[trigger] s[i]) by {
        assert(text::is_digit(digits[i - from]));
        assert(s.subrange(from, to)[i - from] == s[i]);
    }
    lemma_digits_end(s, from, to);
    lemma_short_value(digits);
}

/// Up to four digits write a number below ten thousand.
proof fn lemma_short_value(s: Seq<char>)
    requires
        text::all_digits(s),
        s.len() <= 4,
    ensures
        text::digits_value(s) <= 9999,
{
    reveal_with_fuel(text::digits_value, 5);
    assert forall|i: int| 0 <= i < s.len() implies '0' <= #[trigger] s[i] <= '9' by {
        assert(text::is_digit(s[i]));
    }
}

/// Where no digit stands, no number does.
proof fn lemma_no_number(s: Seq<char>, from: int)
    requires
        0 <= from <= s.len(),
        from == s.len() || !text::is_digit(s[from]),
    ensures
        naming::number_at(s, from) == Some((0u32, from)),
        naming::number_after(s, from) is None,
{
    assert(s.subrange(from, from) =~= Seq::<char>::empty());
}

// ---------------------------------------------------------------------------
// What a name is read without
// ---------------------------------------------------------------------------

/// Whether a text holds no bracket.
pub open spec fn without_brackets(s: Seq<char>) -> bool {
    forall|i: int|
        0 <= i < s.len() ==> #[trigger] s[i] != '(' && s[i] != ')' && s[i] != '[' && s[i] != ']'
}

proof fn lemma_no_brackets(s: Seq<char>)
    requires
        without_brackets(s),
    ensures
        naming::balanced(s),
        naming::outside_brackets(s) == s,
    decreases s.len(),
{
    if s.len() > 0 {
        let front = s.drop_last();
        assert(without_brackets(front)) by {
            assert forall|i: int| 0 <= i < front.len() implies #[trigger] front[i] != '('
                && front[i] != ')' && front[i] != '[' && front[i] != ']' by {
                assert(s[i] != '(' && s[i] != ')' && s[i] != '[' && s[i] != ']');
            }
        }
        lemma_no_brackets(front);
        assert(s[s.len() - 1] == s.last());
        assert(front.push(s.last()) =~= s);
    }
}

/// A name without brackets is read whole.
pub proof fn law_a_plain_name_is_read_whole(s: Seq<char>)
    requires
        without_brackets(s),
    ensures
        naming::without_groups(s) == s,
{
    lemma_no_brackets(s);
}

/// A group in brackets, whatever it holds, is as if it were not there.
#[verifier::rlimit(40)]
pub proof fn law_a_group_is_dropped(
    before: Seq<char>,
    group: Seq<char>,
    after: Seq<char>,
    square: bool,
)
    requires
        without_brackets(before),
        without_brackets(group),
        without_brackets(after),
    ensures
        ({
            let (open, close) = if square {
                ('[', ']')
            } else {
                ('(', ')')
            };
            naming::without_groups(before.push(open) + group.push(close) + after) == before + after
        }),
{
    let (open, close) = if square {
        ('[', ']')
    } else {
        ('(', ')')
    };
    let opened = before.push(open);
    lemma_no_brackets(before);
    assert(opened.drop_last() =~= before);
    assert(naming::open_brackets(opened) == Some(Seq::<char>::empty().push(open)));
    lemma_inside(opened, group, open, before);
    let inside = opened + group;
    let closed = opened + group.push(close);
    assert(closed.drop_last() =~= inside);
    assert(closed.last() == close);
    assert(Seq::<char>::empty().push(open).drop_last() =~= Seq::<char>::empty());
    assert(naming::open_brackets(closed) == Some(Seq::<char>::empty()));
    assert(naming::outside_brackets(closed) == before);
    lemma_behind(closed, after, before);
    assert(opened + group.push(close) + after =~= closed + after);
}

proof fn lemma_inside(opened: Seq<char>, group: Seq<char>, open: char, kept: Seq<char>)
    requires
        naming::open_brackets(opened) == Some(Seq::<char>::empty().push(open)),
        naming::outside_brackets(opened) == kept,
        without_brackets(group),
    ensures
        naming::open_brackets(opened + group) == Some(Seq::<char>::empty().push(open)),
        naming::outside_brackets(opened + group) == kept,
    decreases group.len(),
{
    let all = opened + group;
    if group.len() == 0 {
        assert(all =~= opened);
    } else {
        let front = group.drop_last();
        assert(without_brackets(front)) by {
            assert forall|i: int| 0 <= i < front.len() implies #[trigger] front[i] != '('
                && front[i] != ')' && front[i] != '[' && front[i] != ']' by {
                assert(group[i] != '(');
            }
        }
        lemma_inside(opened, front, open, kept);
        assert(all.drop_last() =~= opened + front);
        assert(all.last() == group[group.len() - 1]);
        assert(Seq::<char>::empty().push(open).len() == 1);
        assert(!naming::balanced(opened + front));
    }
}

proof fn lemma_behind(closed: Seq<char>, after: Seq<char>, kept: Seq<char>)
    requires
        naming::balanced(closed),
        naming::outside_brackets(closed) == kept,
        without_brackets(after),
    ensures
        naming::balanced(closed + after),
        naming::outside_brackets(closed + after) == kept + after,
    decreases after.len(),
{
    let all = closed + after;
    if after.len() == 0 {
        assert(all =~= closed);
        assert(kept + after =~= kept);
    } else {
        let front = after.drop_last();
        assert(without_brackets(front)) by {
            assert forall|i: int| 0 <= i < front.len() implies #[trigger] front[i] != '('
                && front[i] != ')' && front[i] != '[' && front[i] != ']' by {
                assert(after[i] != '(');
            }
        }
        lemma_behind(closed, front, kept);
        assert(all.drop_last() =~= closed + front);
        assert(all.last() == after[after.len() - 1]);
        assert((kept + front).push(after.last()) =~= kept + after);
    }
}

/// Brackets that do not match are left alone, and so is everything around them:
/// one that stays open, one that closes nothing, and one that closes a bracket of
/// the other kind.
pub proof fn law_unbalanced_brackets_are_left_alone(
    before: Seq<char>,
    between: Seq<char>,
    after: Seq<char>,
    open: char,
    close: char,
)
    requires
        without_brackets(before),
        without_brackets(between),
        without_brackets(after),
        open == '(' || open == '[',
        close == ')' || close == ']',
    ensures
        naming::without_groups(before.push(open) + after) == before.push(open) + after,
        naming::without_groups(before.push(close) + after) == before.push(close) + after,
        (open == '(') != (close == ')') ==> naming::without_groups(
            before.push(open) + between.push(close) + after,
        ) == before.push(open) + between.push(close) + after,
{
    lemma_no_brackets(before);
    let opened = before.push(open);
    assert(opened.drop_last() =~= before);
    lemma_inside(opened, after, open, before);
    assert(Seq::<char>::empty().push(open).len() == 1);
    let stray = before.push(close);
    assert(stray.drop_last() =~= before);
    lemma_stays_broken(stray, after);
    if (open == '(') != (close == ')') {
        lemma_inside(opened, between, open, before);
        let crossed = opened + between.push(close);
        assert(crossed.drop_last() =~= opened + between);
        assert(crossed.last() == close);
        assert(Seq::<char>::empty().push(open).last() == open);
        lemma_stays_broken(crossed, after);
    }
}

proof fn lemma_stays_broken(broken: Seq<char>, after: Seq<char>)
    requires
        naming::open_brackets(broken) is None,
    ensures
        naming::open_brackets(broken + after) is None,
    decreases after.len(),
{
    if after.len() == 0 {
        assert(broken + after =~= broken);
    } else {
        lemma_stays_broken(broken, after.drop_last());
        assert((broken + after).drop_last() =~= broken + after.drop_last());
    }
}

/// A name ends at the last dot, where up to four letters and digits, with a
/// letter among them, follow it. Anything else behind the last dot, and a name
/// without one, is part of the name.
pub proof fn law_an_extension_is_short_and_lettered(body: Seq<char>, ext: Seq<char>)
    requires
        !ext.contains('.'),
    ensures
        ({
            let looks_like_one = 1 <= ext.len() <= 4 && (forall|i: int|
                0 <= i < ext.len() ==> text::is_digit(#[trigger] ext[i]) || text::is_letter(
                    ext[i],
                )) && (exists|i: int| 0 <= i < ext.len() && text::is_letter(#[trigger] ext[i]));
            naming::stem(body.push('.') + ext) == if looks_like_one {
                body
            } else {
                body.push('.') + ext
            }
        }),
        naming::stem(ext) == ext,
{
    let name = body.push('.') + ext;
    let at = body.len() as int;
    let p = text::holds_char(name, '.');
    text::lemma_last_before(0, name.len() as int, p);
    assert(p(at));
    let k = text::last_index(name, '.')->0;
    if k > at {
        assert(p(k));
        assert(name[k] == ext[k - at - 1]);
        assert(ext.contains('.'));
    }
    assert(name.subrange(at + 1, name.len() as int) =~= ext);
    assert(name.take(at) =~= body);
    assert(naming::is_extension(ext) <==> 1 <= ext.len() <= 4 && (forall|i: int|
        0 <= i < ext.len() ==> text::is_digit(#[trigger] ext[i]) || text::is_letter(ext[i])) && (
    exists|i: int| 0 <= i < ext.len() && text::is_letter(#[trigger] ext[i]))) by {
        if naming::is_extension(ext) {
            assert forall|i: int| 0 <= i < ext.len() implies text::is_digit(#[trigger] ext[i])
                || text::is_letter(ext[i]) by {
                assert(text::is_alnum(ext[i]));
            }
        }
    }
    text::lemma_last_before(0, ext.len() as int, text::holds_char(ext, '.'));
    if let Some(j) = text::last_index(ext, '.') {
        assert(text::holds_char(ext, '.')(j));
        assert(ext.contains('.'));
    }
}

// ---------------------------------------------------------------------------
// Numbering
// ---------------------------------------------------------------------------

/// Whether `s` holds no `S` that begins a word and has a digit behind it.
pub open spec fn without_season_marks(s: Seq<char>) -> bool {
    forall|i: int|
        0 <= i < s.len() - 1 ==> !((#[trigger] s[i] == 's' || s[i] == 'S') && (i == 0
            || !text::is_alnum(s[i - 1])) && text::is_digit(s[i + 1]))
}

/// Whether a text ends where a word can begin.
pub open spec fn ends_a_word(s: Seq<char>) -> bool {
    s.len() == 0 || !text::is_alnum(s.last())
}

/// Whether a text goes on where a word can end.
pub open spec fn begins_no_word(s: Seq<char>) -> bool {
    s.len() == 0 || !text::is_alnum(s[0])
}

/// `S` and `E` with a number behind each.
pub open spec fn season_and_episode(
    mark: char,
    season: nat,
    season_width: nat,
    episode_mark: char,
    episode: nat,
    episode_width: nat,
) -> Seq<char> {
    seq![mark] + text::padded(season, season_width) + seq![episode_mark] + text::padded(
        episode,
        episode_width,
    )
}

proof fn lemma_lower_keeps(s: Seq<char>)
    ensures
        text::lower(s).len() == s.len(),
        forall|i: int|
            0 <= i < s.len() ==> text::is_alnum(#[trigger] text::lower(s)[i]) == text::is_alnum(
                s[i],
            ) && text::is_digit(text::lower(s)[i]) == text::is_digit(s[i]) && (text::is_digit(s[i])
                ==> text::lower(s)[i] == s[i]),
{
}

/// No position of a text without season marks settles what `S02E05` numbering
/// there is, as far as the text goes.
proof fn lemma_no_season_mark_before(s: Seq<char>, upto: int, j: int)
    requires
        0 <= j < upto <= s.len(),
        without_season_marks(s.take(upto)),
        upto == s.len() || !text::is_alnum(s[upto - 1]),
    ensures
        !naming::season_mark_settles(text::lower(s))(j),
{
    let l = text::lower(s);
    lemma_lower_keeps(s);
    if l[j] == 's' && naming::token_start(l, j) {
        assert(s[j] == 's' || s[j] == 'S');
        let front = s.take(upto);
        assert(front[j] == s[j]);
        if j + 1 < upto {
            assert(front[j + 1] == s[j + 1]);
            if j > 0 {
                assert(front[j - 1] == s[j - 1]);
            }
            assert(!text::is_digit(s[j + 1]));
            lemma_no_number(l, j + 1);
        } else {
            assert(upto == s.len()) by {
                if upto < s.len() {
                    assert(text::is_alnum(s[j]));
                }
            }
            lemma_no_number(l, j + 1);
        }
    }
}

/// Digits stand in lowered text as they do in the text itself.
proof fn lemma_lowered_digits(s: Seq<char>, from: int, n: nat, width: nat)
    requires
        0 <= from,
        from + text::padded(n, width).len() <= s.len(),
        s.subrange(from, from + text::padded(n, width).len()) == text::padded(n, width),
    ensures
        text::lower(s).subrange(from, from + text::padded(n, width).len()) == text::padded(
            n,
            width,
        ),
{
    let digits = text::padded(n, width);
    let to = from + digits.len();
    lemma_padded(n, width);
    lemma_lower_keeps(s);
    let l = text::lower(s);
    assert forall|i: int| 0 <= i < digits.len() implies l.subrange(from, to)[i] == digits[i] by {
        assert(text::is_digit(digits[i]));
        assert(s.subrange(from, to)[i] == s[from + i]);
    }
    assert(l.subrange(from, to) =~= digits);
}

/// What the numbering that stands at `at` states.
#[verifier::rlimit(40)]
proof fn lemma_season_mark(
    s: Seq<char>,
    at: int,
    season: nat,
    season_width: nat,
    episode: nat,
    episode_width: nat,
)
    requires
        ({
            let sd = text::padded(season, season_width);
            let ed = text::padded(episode, episode_width);
            let mid = at + 1 + sd.len();
            let end = mid + 1 + ed.len();
            &&& 0 <= at
            &&& end <= s.len()
            &&& s[at] == 's' || s[at] == 'S'
            &&& s[mid] == 'e' || s[mid] == 'E'
            &&& sd.len() <= 4
            &&& ed.len() <= 4
            &&& s.subrange(at + 1, mid) == sd
            &&& s.subrange(mid + 1, end) == ed
            &&& end == s.len() || !text::is_digit(s[end])
        }),
        at == 0 || !text::is_alnum(s[at - 1]),
        without_season_marks(s.take(at)),
    ensures
        season <= 9999,
        episode <= 9999,
        naming::season_episode_of(s) == Some(
            Found {
                season: Some(season as u32),
                episode: Some(episode as u32),
                start: at,
                end: at + 2 + text::padded(season, season_width).len() + text::padded(
                    episode,
                    episode_width,
                ).len(),
            },
        ),
{
    let l = text::lower(s);
    lemma_lower_keeps(s);
    let sd = text::padded(season, season_width);
    let ed = text::padded(episode, episode_width);
    let mid = at + 1 + sd.len();
    let end = mid + 1 + ed.len();
    lemma_padded(season, season_width);
    lemma_padded(episode, episode_width);
    lemma_lowered_digits(s, at + 1, season, season_width);
    lemma_lowered_digits(s, mid + 1, episode, episode_width);
    assert(l[mid] == 'e');
    assert(l[at] == 's');
    lemma_number_stands(l, at + 1, season, season_width);
    lemma_number_stands(l, mid + 1, episode, episode_width);
    assert(naming::season_mark_at(l, at) is Some);
    assert(naming::token_start(l, at));
    assert(naming::season_mark_settles(l)(at));
    text::lemma_first_from(0, l.len() as int, naming::season_mark_settles(l));
    let first = text::first_from(0, l.len() as int, naming::season_mark_settles(l))->0;
    if first < at {
        lemma_no_season_mark_before(s, at, first);
    }
}

/// Numbering as it stands in a name's text: where it begins and ends, and what it
/// states.
#[verifier::rlimit(40)]
proof fn lemma_season_and_episode(
    s: Seq<char>,
    before: Seq<char>,
    mark: char,
    season: nat,
    season_width: nat,
    episode_mark: char,
    episode: nat,
    episode_width: nat,
    after: Seq<char>,
)
    requires
        s == before + season_and_episode(
            mark,
            season,
            season_width,
            episode_mark,
            episode,
            episode_width,
        ) + after,
        mark == 's' || mark == 'S',
        episode_mark == 'e' || episode_mark == 'E',
        text::padded(season, season_width).len() <= 4,
        text::padded(episode, episode_width).len() <= 4,
        ends_a_word(before),
        without_season_marks(before),
        after.len() == 0 || !text::is_digit(after[0]),
    ensures
        season <= 9999,
        episode <= 9999,
        naming::numbering_of(s) == Some(
            Found {
                season: Some(season as u32),
                episode: Some(episode as u32),
                start: before.len() as int,
                end: s.len() - after.len(),
            },
        ),
{
    let at = before.len() as int;
    let sd = text::padded(season, season_width);
    let ed = text::padded(episode, episode_width);
    let mid = at + 1 + sd.len();
    let end = mid + 1 + ed.len();
    assert(s[at] == mark);
    assert(s[mid] == episode_mark);
    assert(s.subrange(at + 1, mid) =~= sd);
    assert(s.subrange(mid + 1, end) =~= ed);
    assert(s.len() == end + after.len());
    if after.len() > 0 {
        assert(s[end] == after[0]);
    }
    if at > 0 {
        assert(s[at - 1] == before.last());
    }
    assert(s.take(at) =~= before);
    lemma_season_mark(s, at, season, season_width, episode, episode_width);
}

/// `S02E05`, wherever in a name it begins a word, states that season and that
/// episode, each by all of its digits, with or without zeros in front. What comes
/// before it must not be numbered so already.
pub proof fn law_season_and_episode_are_read(
    name: Seq<char>,
    before: Seq<char>,
    mark: char,
    season: nat,
    season_width: nat,
    episode_mark: char,
    episode: nat,
    episode_width: nat,
    after: Seq<char>,
)
    requires
        naming::without_groups(naming::stem(name)) == before + season_and_episode(
            mark,
            season,
            season_width,
            episode_mark,
            episode,
            episode_width,
        ) + after,
        mark == 's' || mark == 'S',
        episode_mark == 'e' || episode_mark == 'E',
        text::padded(season, season_width).len() <= 4,
        text::padded(episode, episode_width).len() <= 4,
        ends_a_word(before),
        without_season_marks(before),
        after.len() == 0 || !text::is_digit(after[0]),
    ensures
        naming::parsed(name).season == Some(season as u32),
        naming::parsed(name).episode == Some(episode as u32),
        season <= 9999 && episode <= 9999,
{
    lemma_season_and_episode(
        naming::without_groups(naming::stem(name)),
        before,
        mark,
        season,
        season_width,
        episode_mark,
        episode,
        episode_width,
        after,
    );
}

/// The same, on the characters of a whole filename without brackets, extension
/// included: two files that differ in the episode are two episodes.
#[verifier::rlimit(40)]
pub proof fn law_a_filename_states_its_season_and_episode(
    before: Seq<char>,
    mark: char,
    season: nat,
    season_width: nat,
    episode_mark: char,
    episode: nat,
    episode_width: nat,
    after: Seq<char>,
    ext: Seq<char>,
)
    requires
        mark == 's' || mark == 'S',
        episode_mark == 'e' || episode_mark == 'E',
        text::padded(season, season_width).len() <= 4,
        text::padded(episode, episode_width).len() <= 4,
        ends_a_word(before),
        without_season_marks(before),
        after.len() == 0 || !text::is_digit(after[0]),
        without_brackets(before),
        without_brackets(after),
        1 <= ext.len() <= 4,
        forall|i: int| 0 <= i < ext.len() ==> text::is_letter(#[trigger] ext[i]),
    ensures
        ({
            let name = (before + season_and_episode(
                mark,
                season,
                season_width,
                episode_mark,
                episode,
                episode_width,
            ) + after).push('.') + ext;
            &&& naming::parsed(name).season == Some(season as u32)
            &&& naming::parsed(name).episode == Some(episode as u32)
        }),
{
    let numbering = season_and_episode(
        mark,
        season,
        season_width,
        episode_mark,
        episode,
        episode_width,
    );
    let body = before + numbering + after;
    let name = body.push('.') + ext;
    assert(!ext.contains('.')) by {
        if ext.contains('.') {
            let i = choose|i: int| 0 <= i < ext.len() && ext[i] == '.';
            assert(text::is_letter(ext[i]));
        }
    }
    assert(text::is_letter(ext[0]));
    law_an_extension_is_short_and_lettered(body, ext);
    lemma_padded(season, season_width);
    lemma_padded(episode, episode_width);
    let sd = text::padded(season, season_width);
    let ed = text::padded(episode, episode_width);
    assert(without_brackets(body)) by {
        assert forall|i: int| 0 <= i < body.len() implies #[trigger] body[i] != '(' && body[i]
            != ')' && body[i] != '[' && body[i] != ']' by {
            let at = before.len() as int;
            let end = at + numbering.len();
            if i < at {
                assert(body[i] == before[i]);
            } else if i >= end {
                assert(body[i] == after[i - end]);
            } else if at < i < at + 1 + sd.len() {
                assert(body[i] == sd[i - at - 1]);
                assert(text::is_digit(sd[i - at - 1]));
            } else if i > at + 1 + sd.len() {
                assert(body[i] == ed[i - at - 2 - sd.len()]);
                assert(text::is_digit(ed[i - at - 2 - sd.len()]));
            }
        }
    }
    law_a_plain_name_is_read_whole(body);
    law_season_and_episode_are_read(
        name,
        before,
        mark,
        season,
        season_width,
        episode_mark,
        episode,
        episode_width,
        after,
    );
}

// ---------------------------------------------------------------------------
// Titles
// ---------------------------------------------------------------------------

/// A character that separates words.
pub open spec fn separates(c: char) -> bool {
    c == ' ' || c == '.' || c == '_'
}

/// Whether some text is the words of a title: it begins and ends in one, and has
/// single separators between them.
pub open spec fn is_wording(words: Seq<char>) -> bool {
    &&& words.len() > 0
    &&& !text::is_white(words[0]) && !separates(words[0])
    &&& !text::is_white(words.last()) && !separates(words.last())
    &&& words.last() != '-' && words.last() != '\u{2013}'
    &&& forall|i: int|
        0 <= i < words.len() - 1 ==> !(separates(#[trigger] words[i]) && separates(words[i + 1]))
}

/// Whether a title is made of these words: the same characters, with a space for
/// every dot and underscore.
pub open spec fn is_worded(title: Seq<char>, words: Seq<char>) -> bool {
    &&& title.len() == words.len()
    &&& forall|i: int|
        0 <= i < words.len() ==> #[trigger] title[i] == if words[i] == '.' || words[i] == '_' {
            ' '
        } else {
            words[i]
        }
}

/// Whether some text only separates.
pub open spec fn is_leading(gap: Seq<char>) -> bool {
    forall|i: int| 0 <= i < gap.len() ==> separates(#[trigger] gap[i])
}

/// Whether some text is what can stand between a title and what follows it.
pub open spec fn is_trailing(gap: Seq<char>) -> bool {
    forall|i: int|
        0 <= i < gap.len() ==> separates(#[trigger] gap[i]) || gap[i] == '-' || gap[i]
            == '\u{2013}'
}

pub open spec fn without_digits(s: Seq<char>) -> bool {
    forall|i: int| 0 <= i < s.len() ==> !text::is_digit(#[trigger] s[i])
}

proof fn lemma_leading_white(gap: Seq<char>, rest: Seq<char>)
    requires
        forall|i: int| 0 <= i < gap.len() ==> #[trigger] gap[i] == ' ',
        rest.len() > 0 ==> !text::is_white(rest[0]),
    ensures
        text::trim_start(gap + rest) == rest,
    decreases gap.len(),
{
    let all = gap + rest;
    if gap.len() == 0 {
        assert(all =~= rest);
    } else {
        assert(all[0] == gap[0]);
        assert(all.subrange(1, all.len() as int) =~= gap.skip(1) + rest);
        lemma_leading_white(gap.skip(1), rest);
    }
}

proof fn lemma_trailing_white(front: Seq<char>, gap: Seq<char>)
    requires
        front.len() > 0 ==> !text::is_white(front.last()),
        forall|i: int| 0 <= i < gap.len() ==> #[trigger] gap[i] == ' ' || gap[i] == '-' || gap[i]
            == '\u{2013}',
    ensures
        exists|n: int|
            0 <= n <= gap.len() && #[trigger] (front + gap.take(n)) == text::trim_end(front + gap),
    decreases gap.len(),
{
    let all = front + gap;
    if gap.len() == 0 {
        assert(all =~= front);
        assert(front + gap.take(0) =~= front);
        assert(text::trim_end(all) == all);
        assert(front + gap.take(0) == text::trim_end(front + gap));
    } else if text::is_white(gap.last()) {
        let shorter = gap.drop_last();
        assert(all.drop_last() =~= front + shorter);
        assert(all.last() == gap.last());
        lemma_trailing_white(front, shorter);
        let n = choose|n: int|
            0 <= n <= shorter.len() && #[trigger] (front + shorter.take(n)) == text::trim_end(
                front + shorter,
            );
        assert(shorter.take(n) =~= gap.take(n));
        assert(front + gap.take(n) == text::trim_end(front + gap));
    } else {
        assert(all.last() == gap.last());
        assert(gap.take(gap.len() as int) =~= gap);
        assert(front + gap.take(gap.len() as int) == text::trim_end(front + gap));
    }
}

proof fn lemma_trailing_debris(front: Seq<char>, gap: Seq<char>)
    requires
        front.len() > 0 ==> front.last() != ' ' && front.last() != '-' && front.last()
            != '\u{2013}',
        forall|i: int| 0 <= i < gap.len() ==> #[trigger] gap[i] == ' ' || gap[i] == '-' || gap[i]
            == '\u{2013}',
    ensures
        text::trim_end_set(front + gap, naming::debris()) == front,
    decreases gap.len(),
{
    let all = front + gap;
    let debris = naming::debris();
    assert(debris[0] == '-' && debris[1] == '\u{2013}' && debris[2] == ' ');
    if gap.len() == 0 {
        assert(all =~= front);
        if front.len() > 0 && debris.contains(front.last()) {
            let k = choose|k: int| 0 <= k < debris.len() && debris[k] == front.last();
            assert(k == 0 || k == 1 || k == 2);
        }
    } else {
        assert(all.last() == gap[gap.len() - 1]);
        assert(debris.contains(all.last()));
        assert(all.drop_last() =~= front + gap.drop_last());
        lemma_trailing_debris(front, gap.drop_last());
    }
}

proof fn lemma_collapse_keeps(s: Seq<char>)
    requires
        forall|i: int| 0 <= i < s.len() - 1 ==> !(#[trigger] s[i] == ' ' && s[i + 1] == ' '),
    ensures
        text::collapse(s) == s,
    decreases s.len(),
{
    if s.len() > 0 {
        let front = s.drop_last();
        assert forall|i: int| 0 <= i < front.len() - 1 implies !(#[trigger] front[i] == ' '
            && front[i + 1] == ' ') by {
            assert(!(s[i] == ' ' && s[i + 1] == ' '));
        }
        lemma_collapse_keeps(front);
        if s.len() > 1 {
            assert(!(s[s.len() - 2] == ' ' && s[s.len() - 2 + 1] == ' '));
        }
        assert(front.push(s.last()) =~= s);
    }
}

proof fn lemma_replace_keeps(s: Seq<char>, from: Seq<char>, to: Seq<char>)
    requires
        without_digits(s),
        from.len() > 0,
        text::is_digit(from[0]),
    ensures
        text::replace_all(s, from, to) == s,
    decreases s.len(),
{
    if s.len() >= from.len() {
        if from.is_prefix_of(s) {
            assert(s[0] == from[0]);
            assert(!text::is_digit(s[0]));
        } else {
            let rest = s.subrange(1, s.len() as int);
            assert forall|i: int| 0 <= i < rest.len() implies !text::is_digit(
                #[trigger] rest[i],
            ) by {
                assert(!text::is_digit(s[i + 1]));
            }
            lemma_replace_keeps(rest, from, to);
            assert(seq![s[0]] + rest =~= s);
        }
    }
}

/// A title is its words.
#[verifier::rlimit(40)]
proof fn lemma_clean_words(lead: Seq<char>, words: Seq<char>, gap: Seq<char>, year: Option<u32>)
    requires
        is_leading(lead),
        is_wording(words),
        is_trailing(gap),
        year is None || without_digits(words),
    ensures
        is_worded(naming::clean_title_of(lead + words + gap, year), words),
{
    let raw = lead + words + gap;
    let a = naming::spaced(lead);
    let b = naming::spaced(words);
    let c = naming::spaced(gap);
    assert(naming::spaced(raw) =~= a + b + c);
    let spaced = match year {
        Some(y) => text::replace_all(naming::spaced(raw), text::decimal(y as nat), seq![' ']),
        None => naming::spaced(raw),
    };
    if let Some(y) = year {
        text::lemma_decimal_reads_back(y as nat);
        assert(text::is_digit(text::decimal(y as nat)[0]));
        let plain = naming::spaced(raw);
        assert forall|i: int| 0 <= i < plain.len() implies !text::is_digit(#[trigger] plain[i]) by {
            if i < lead.len() {
                assert(separates(lead[i]));
            } else if i < lead.len() + words.len() {
                assert(!text::is_digit(words[i - lead.len()]));
            } else {
                let k = i - lead.len() - words.len();
                assert(separates(gap[k]) || gap[k] == '-' || gap[k] == '\u{2013}');
            }
        }
        lemma_replace_keeps(plain, text::decimal(y as nat), seq![' ']);
    }
    assert(spaced =~= a + (b + c));
    assert forall|i: int| 0 <= i < a.len() implies #[trigger] a[i] == ' ' by {
        assert(separates(lead[i]));
    }
    assert forall|i: int| 0 <= i < c.len() implies #[trigger] c[i] == ' ' || c[i] == '-' || c[i]
        == '\u{2013}' by {
        assert(separates(gap[i]) || gap[i] == '-' || gap[i] == '\u{2013}');
    }
    assert((b + c)[0] == b[0]);
    assert(b.last() == words.last());
    lemma_leading_white(a, b + c);
    lemma_trailing_white(b, c);
    let n = choose|n: int|
        0 <= n <= c.len() && #[trigger] (b + c.take(n)) == text::trim_end(b + c);
    assert(text::trim(spaced) == b + c.take(n));
    lemma_trailing_debris(b, c.take(n));
    assert(text::trim(b) == b);
    assert forall|i: int| 0 <= i < b.len() - 1 implies !(#[trigger] b[i] == ' ' && b[i + 1]
        == ' ') by {
        assert(!(separates(words[i]) && separates(words[i + 1])));
    }
    lemma_collapse_keeps(b);
}

/// What only separates leaves no title.
proof fn lemma_clean_nothing(gap: Seq<char>)
    requires
        is_leading(gap),
    ensures
        naming::clean_title_of(gap, None).len() == 0,
{
    let a = naming::spaced(gap);
    let none = Seq::<char>::empty();
    assert forall|i: int| 0 <= i < a.len() implies #[trigger] a[i] == ' ' by {
        assert(separates(gap[i]));
    }
    lemma_leading_white(a, none);
    assert(a + none =~= a);
}

/// The title is what stands before `S02E05`, by its words: dots and underscores
/// read as spaces, and what separates it from the numbering is dropped. A year
/// that the name states elsewhere does not change it.
#[verifier::rlimit(40)]
pub proof fn law_the_title_stands_before_the_numbering(
    name: Seq<char>,
    words: Seq<char>,
    gap: Seq<char>,
    mark: char,
    season: nat,
    season_width: nat,
    episode_mark: char,
    episode: nat,
    episode_width: nat,
    after: Seq<char>,
)
    requires
        naming::without_groups(naming::stem(name)) == words + gap + season_and_episode(
            mark,
            season,
            season_width,
            episode_mark,
            episode,
            episode_width,
        ) + after,
        mark == 's' || mark == 'S',
        episode_mark == 'e' || episode_mark == 'E',
        text::padded(season, season_width).len() <= 4,
        text::padded(episode, episode_width).len() <= 4,
        is_wording(words),
        is_trailing(gap),
        gap.len() > 0,
        without_season_marks(words + gap),
        after.len() == 0 || !text::is_digit(after[0]),
        naming::parsed(name).year is None || without_digits(words),
    ensures
        is_worded(naming::parsed(name).title, words),
{
    let rest = naming::without_groups(naming::stem(name));
    let before = words + gap;
    assert(before.last() == gap.last());
    assert(separates(gap[gap.len() - 1]) || gap[gap.len() - 1] == '-' || gap[gap.len() - 1]
        == '\u{2013}');
    lemma_season_and_episode(
        rest,
        before,
        mark,
        season,
        season_width,
        episode_mark,
        episode,
        episode_width,
        after,
    );
    assert(rest.take(before.len() as int) =~= Seq::<char>::empty() + words + gap);
    lemma_clean_words(Seq::empty(), words, gap, naming::parsed(name).year);
}

/// What a dash introduces behind `S02E05` is the episode's own name, by its words.
/// Without a dash there is none: tags are not a name.
#[verifier::rlimit(40)]
pub proof fn law_a_dash_introduces_the_episodes_name(
    name: Seq<char>,
    before: Seq<char>,
    mark: char,
    season: nat,
    season_width: nat,
    episode_mark: char,
    episode: nat,
    episode_width: nat,
    after: Seq<char>,
    spaces: Seq<char>,
    dash: char,
    gap: Seq<char>,
    words: Seq<char>,
    end: Seq<char>,
)
    requires
        naming::without_groups(naming::stem(name)) == before + season_and_episode(
            mark,
            season,
            season_width,
            episode_mark,
            episode,
            episode_width,
        ) + after,
        mark == 's' || mark == 'S',
        episode_mark == 'e' || episode_mark == 'E',
        text::padded(season, season_width).len() <= 4,
        text::padded(episode, episode_width).len() <= 4,
        ends_a_word(before),
        without_season_marks(before),
        after.len() == 0 || !text::is_digit(after[0]),
        forall|i: int| 0 <= i < spaces.len() ==> #[trigger] spaces[i] == ' ',
        dash == '-' || dash == '\u{2013}',
        is_leading(gap),
        is_wording(words),
        is_trailing(end),
    ensures
        after == spaces + seq![dash] + (gap + words + end) ==> (naming::parsed(
            name,
        ).episode_title matches Some(title) && is_worded(title, words)),
        after.len() == 0 || !text::is_white(after[0]) && after[0] != '-' && after[0] != '\u{2013}'
            ==> naming::parsed(name).episode_title is None,
{
    let rest = naming::without_groups(naming::stem(name));
    lemma_season_and_episode(
        rest,
        before,
        mark,
        season,
        season_width,
        episode_mark,
        episode,
        episode_width,
        after,
    );
    assert(rest.subrange(rest.len() - after.len(), rest.len() as int) =~= after);
    if after == spaces + seq![dash] + (gap + words + end) {
        let tail = seq![dash] + (gap + words + end);
        assert(after =~= spaces + tail);
        lemma_leading_white(spaces, tail);
        assert(tail.subrange(1, tail.len() as int) =~= gap + words + end);
        lemma_clean_words(gap, words, end, None);
        let cleaned = naming::clean_title_of(gap + words + end, None);
        assert(cleaned[0] == words[0]);
        assert(cleaned[cleaned.len() - 1] == words[words.len() - 1]);
        assert(text::trim(cleaned) == cleaned);
    }
}

/// A name that is nothing but numbering has no title: the folder has it.
#[verifier::rlimit(40)]
pub proof fn law_numbering_alone_is_no_title(
    name: Seq<char>,
    gap: Seq<char>,
    mark: char,
    season: nat,
    season_width: nat,
    episode_mark: char,
    episode: nat,
    episode_width: nat,
    after: Seq<char>,
)
    requires
        naming::without_groups(naming::stem(name)) == gap + season_and_episode(
            mark,
            season,
            season_width,
            episode_mark,
            episode,
            episode_width,
        ) + after,
        mark == 's' || mark == 'S',
        episode_mark == 'e' || episode_mark == 'E',
        text::padded(season, season_width).len() <= 4,
        text::padded(episode, episode_width).len() <= 4,
        is_leading(gap),
        after.len() == 0 || !text::is_digit(after[0]),
        naming::parsed(name).year is None,
    ensures
        naming::parsed(name).title.len() == 0,
        naming::parsed(name).episode == Some(episode as u32),
{
    let rest = naming::without_groups(naming::stem(name));
    if gap.len() > 0 {
        assert(separates(gap[gap.len() - 1]));
    }
    assert(without_season_marks(gap)) by {
        assert forall|i: int| 0 <= i < gap.len() - 1 implies !((#[trigger] gap[i] == 's' || gap[i]
            == 'S') && (i == 0 || !text::is_alnum(gap[i - 1])) && text::is_digit(gap[i + 1])) by {
            assert(separates(gap[i]));
        }
    }
    lemma_season_and_episode(
        rest,
        gap,
        mark,
        season,
        season_width,
        episode_mark,
        episode,
        episode_width,
        after,
    );
    assert(rest.take(gap.len() as int) =~= gap);
    lemma_clean_nothing(gap);
}

// ---------------------------------------------------------------------------
// Episodes without `S02E05`
// ---------------------------------------------------------------------------

/// Whether `s` holds no `x` right behind a digit.
pub open spec fn without_cross_marks(s: Seq<char>) -> bool {
    forall|i: int|
        0 < i < s.len() ==> !((#[trigger] s[i] == 'x' || s[i] == 'X') && text::is_digit(s[i - 1]))
}

/// Whether the word `season` stands nowhere in `s`, in whatever case.
pub open spec fn without_season_words(s: Seq<char>) -> bool {
    forall|i: int| !#[trigger] text::stands_at(text::lower(s), "season"@, i)
}

proof fn lemma_no_season_marks(s: Seq<char>)
    requires
        without_season_marks(s),
    ensures
        naming::season_episode_of(s) is None,
{
    let l = text::lower(s);
    assert(s.take(s.len() as int) =~= s);
    text::lemma_first_from(0, l.len() as int, naming::season_mark_settles(l));
    if let Some(j) = text::first_from(0, l.len() as int, naming::season_mark_settles(l)) {
        lemma_no_season_mark_before(s, s.len() as int, j);
    }
}

proof fn lemma_no_season_words(s: Seq<char>)
    requires
        without_season_words(s),
    ensures
        naming::worded_season_of(s) is None,
{
    let l = text::lower(s);
    text::lemma_first_from(0, l.len() as int, naming::worded_season_stands(l));
    if let Some(j) = text::first_from(0, l.len() as int, naming::worded_season_stands(l)) {
        assert(text::stands_at(l, "season"@, j));
    }
}

proof fn lemma_no_cross_before(s: Seq<char>, upto: int, j: int)
    requires
        0 <= j < upto <= s.len(),
        without_cross_marks(s.take(upto)),
    ensures
        !naming::cross_settles(text::lower(s))(j),
{
    let l = text::lower(s);
    lemma_lower_keeps(s);
    if l[j] == 'x' && text::digits_start(l, j) < j {
        let front = s.take(upto);
        assert(front[j] == s[j]);
        assert(s[j] == 'x' || s[j] == 'X');
        assert(j > 0 && text::is_digit(l[j - 1]));
        assert(front[j - 1] == s[j - 1]);
    }
}

proof fn lemma_no_cross_marks(s: Seq<char>)
    requires
        without_cross_marks(s),
    ensures
        naming::cross_numbering_of(s) is None,
{
    let l = text::lower(s);
    assert(s.take(s.len() as int) =~= s);
    text::lemma_first_from(0, l.len() as int, naming::cross_settles(l));
    if let Some(j) = text::first_from(0, l.len() as int, naming::cross_settles(l)) {
        lemma_no_cross_before(s, s.len() as int, j);
    }
}

proof fn lemma_gap_end(s: Seq<char>, from: int, to: int)
    requires
        0 <= from <= to <= s.len(),
        forall|i: int| from <= i < to ==> separates(#[trigger] s[i]),
        to == s.len() || !separates(s[to]),
    ensures
        naming::gap_end(s, from) == to,
    decreases to - from,
{
    if from < to {
        assert(separates(s[from]));
        lemma_gap_end(s, from + 1, to);
    }
}

/// What the dash at `at` introduces.
#[verifier::rlimit(40)]
proof fn lemma_dash(s: Seq<char>, at: int, from: int, episode: nat, width: nat)
    requires
        ({
            let digits = text::padded(episode, width);
            let end = from + digits.len();
            &&& 0 <= at < from
            &&& end <= s.len()
            &&& s[at] == '-'
            &&& forall|i: int| at < i < from ==> separates(#[trigger] s[i])
            &&& digits.len() <= 4
            &&& s.subrange(from, end) == digits
            &&& end == s.len() || s[end] == 'v' || !text::is_alnum(s[end])
            &&& forall|i: int| end <= i < s.len() ==> #[trigger] s[i] != '-'
        }),
    ensures
        episode <= 9999,
        naming::dash_numbering_of(s) == Some(
            Found {
                season: None,
                episode: Some(episode as u32),
                start: at,
                end: from + text::padded(episode, width).len(),
            },
        ),
{
    let digits = text::padded(episode, width);
    let end = from + digits.len();
    lemma_padded(episode, width);
    assert(s.subrange(from, end)[0] == s[from]);
    assert(text::is_digit(digits[0]));
    lemma_gap_end(s, at + 1, from);
    lemma_number_stands(s, from, episode, width);
    let p = naming::dash_introduces(s);
    assert(p(at));
    text::lemma_last_before(0, s.len() as int, p);
    let last = text::last_before(0, s.len() as int, p)->0;
    if last > at {
        assert(p(last));
        assert(s[last] == '-');
        if last < from {
            assert(separates(s[last]));
        } else if last < end {
            assert(s.subrange(from, end)[last - from] == s[last]);
            assert(text::is_digit(digits[last - from]));
        }
    }
}

/// A dash, separators and a number, as they stand in a name.
pub open spec fn dashed(gap: Seq<char>, episode: nat, width: nat) -> Seq<char> {
    seq!['-'] + gap + text::padded(episode, width)
}

#[verifier::rlimit(40)]
proof fn lemma_dashed(
    s: Seq<char>,
    before: Seq<char>,
    gap: Seq<char>,
    episode: nat,
    width: nat,
    after: Seq<char>,
)
    requires
        s == before + dashed(gap, episode, width) + after,
        is_leading(gap),
        text::padded(episode, width).len() <= 4,
        after.len() == 0 || after[0] == 'v' || !text::is_alnum(after[0]),
        !after.contains('-'),
        without_cross_marks(s),
    ensures
        episode <= 9999,
        naming::episode_only_of(s) == Some(
            Found {
                season: None,
                episode: Some(episode as u32),
                start: before.len() as int,
                end: s.len() - after.len(),
            },
        ),
{
    let at = before.len() as int;
    let from = at + 1 + gap.len();
    let digits = text::padded(episode, width);
    let end = from + digits.len();
    assert(s.len() == end + after.len());
    assert(s[at] == '-');
    assert forall|i: int| at < i < from implies separates(#[trigger] s[i]) by {
        assert(s[i] == gap[i - at - 1]);
        assert(separates(gap[i - at - 1]));
    }
    assert(s.subrange(from, end) =~= digits);
    assert forall|i: int| end <= i < s.len() implies #[trigger] s[i] != '-' by {
        assert(s[i] == after[i - end]);
        if s[i] == '-' {
            assert(after.contains('-'));
        }
    }
    if after.len() > 0 {
        assert(s[end] == after[0]);
    }
    lemma_dash(s, at, from, episode, width);
    lemma_no_cross_marks(s);
}

/// ` - 12` behind a title, with no other numbering about, is the episode, by all
/// of its digits, and no season is made up for it. A version behind the number
/// does not matter. The title is what stands before the dash.
#[verifier::rlimit(40)]
pub proof fn law_a_dashed_number_is_the_episode(
    name: Seq<char>,
    words: Seq<char>,
    joint: Seq<char>,
    gap: Seq<char>,
    episode: nat,
    width: nat,
    after: Seq<char>,
)
    requires
        naming::without_groups(naming::stem(name)) == words + joint + dashed(gap, episode, width)
            + after,
        is_wording(words),
        is_trailing(joint),
        is_leading(gap),
        text::padded(episode, width).len() <= 4,
        after.len() == 0 || after[0] == 'v' || !text::is_alnum(after[0]),
        !after.contains('-'),
        without_season_marks(naming::without_groups(naming::stem(name))),
        without_season_words(naming::without_groups(naming::stem(name))),
        without_cross_marks(naming::without_groups(naming::stem(name))),
    ensures
        naming::parsed(name).season is None,
        naming::parsed(name).episode == Some(episode as u32),
        episode <= 9999,
        naming::parsed(name).year is None || without_digits(words) ==> is_worded(
            naming::parsed(name).title,
            words,
        ),
{
    let s = naming::without_groups(naming::stem(name));
    let before = words + joint;
    lemma_dashed(s, before, gap, episode, width, after);
    lemma_no_season_marks(s);
    lemma_no_season_words(s);
    assert(s.take(before.len() as int) =~= Seq::<char>::empty() + words + joint);
    if naming::parsed(name).year is None || without_digits(words) {
        lemma_clean_words(Seq::empty(), words, joint, naming::parsed(name).year);
    }
}

/// `S2 - 04`: a season stated alone does not end the search. The season is read
/// from its mark, and the episode from the dash.
#[verifier::rlimit(40)]
pub proof fn law_a_season_mark_goes_with_a_dashed_episode(
    name: Seq<char>,
    before: Seq<char>,
    mark: char,
    season: nat,
    season_width: nat,
    between: Seq<char>,
    gap: Seq<char>,
    episode: nat,
    width: nat,
    after: Seq<char>,
)
    requires
        naming::without_groups(naming::stem(name)) == before + seq![mark] + text::padded(
            season,
            season_width,
        ) + between + dashed(gap, episode, width) + after,
        mark == 's' || mark == 'S',
        text::padded(season, season_width).len() <= 4,
        ends_a_word(before),
        without_season_marks(before),
        between.len() > 0,
        begins_no_word(between),
        is_leading(gap),
        text::padded(episode, width).len() <= 4,
        after.len() == 0 || after[0] == 'v' || !text::is_alnum(after[0]),
        !after.contains('-'),
        without_cross_marks(naming::without_groups(naming::stem(name))),
    ensures
        naming::parsed(name).season == Some(season as u32),
        naming::parsed(name).episode == Some(episode as u32),
        season <= 9999 && episode <= 9999,
{
    let s = naming::without_groups(naming::stem(name));
    let sd = text::padded(season, season_width);
    let at = before.len() as int;
    let front = before + seq![mark] + sd + between;
    lemma_dashed(s, front, gap, episode, width, after);
    assert(s[at] == mark);
    assert(s.subrange(at + 1, at + 1 + sd.len()) =~= sd);
    assert(s[at + 1 + sd.len()] == between[0]);
    if at > 0 {
        assert(s[at - 1] == before.last());
    }
    assert(s.take(at) =~= before);
    lemma_season_alone(s, at, season, season_width);
}

/// What a season mark states where no episode follows it.
proof fn lemma_season_alone(s: Seq<char>, at: int, season: nat, width: nat)
    requires
        ({
            let sd = text::padded(season, width);
            let end = at + 1 + sd.len();
            &&& 0 <= at
            &&& end <= s.len()
            &&& s[at] == 's' || s[at] == 'S'
            &&& sd.len() <= 4
            &&& s.subrange(at + 1, end) == sd
            &&& end == s.len() || !text::is_alnum(s[end])
        }),
        at == 0 || !text::is_alnum(s[at - 1]),
        without_season_marks(s.take(at)),
    ensures
        season <= 9999,
        naming::season_episode_of(s) == Some(
            Found {
                season: Some(season as u32),
                episode: None,
                start: at,
                end: at + 1 + text::padded(season, width).len(),
            },
        ),
{
    let l = text::lower(s);
    lemma_lower_keeps(s);
    let sd = text::padded(season, width);
    let end = at + 1 + sd.len();
    lemma_padded(season, width);
    lemma_lowered_digits(s, at + 1, season, width);
    lemma_number_stands(l, at + 1, season, width);
    if end < s.len() {
        assert(!text::is_alnum(l[end]));
    }
    assert(naming::season_mark_at(l, at) is Some);
    assert(naming::season_mark_settles(l)(at));
    text::lemma_first_from(0, l.len() as int, naming::season_mark_settles(l));
    let first = text::first_from(0, l.len() as int, naming::season_mark_settles(l))->0;
    if first < at {
        lemma_no_season_mark_before(s, at, first);
    }
}

/// `1x05` states the season before the `x` and the episode behind it.
#[verifier::rlimit(40)]
pub proof fn law_cross_numbering_is_read(
    name: Seq<char>,
    before: Seq<char>,
    season: nat,
    season_width: nat,
    mark: char,
    episode: nat,
    episode_width: nat,
    after: Seq<char>,
)
    requires
        naming::without_groups(naming::stem(name)) == before + text::padded(season, season_width)
            + seq![mark] + text::padded(episode, episode_width) + after,
        mark == 'x' || mark == 'X',
        text::padded(season, season_width).len() <= 4,
        text::padded(episode, episode_width).len() <= 4,
        ends_a_word(before),
        without_cross_marks(before),
        after.len() == 0 || !text::is_digit(after[0]),
        without_season_marks(naming::without_groups(naming::stem(name))),
        without_season_words(naming::without_groups(naming::stem(name))),
    ensures
        naming::parsed(name).season == Some(season as u32),
        naming::parsed(name).episode == Some(episode as u32),
        season <= 9999 && episode <= 9999,
{
    let s = naming::without_groups(naming::stem(name));
    lemma_cross_parts(s, before, season, season_width, mark, episode, episode_width, after);
    lemma_cross(s, before.len() as int, season, season_width, episode, episode_width);
    lemma_no_season_marks(s);
    lemma_no_season_words(s);
}

/// Where the parts of `1x05` stand.
#[verifier::rlimit(40)]
proof fn lemma_cross_parts(
    s: Seq<char>,
    before: Seq<char>,
    season: nat,
    season_width: nat,
    mark: char,
    episode: nat,
    episode_width: nat,
    after: Seq<char>,
)
    requires
        s == before + text::padded(season, season_width) + seq![mark] + text::padded(
            episode,
            episode_width,
        ) + after,
        ends_a_word(before),
        without_cross_marks(before),
        after.len() == 0 || !text::is_digit(after[0]),
    ensures
        ({
            let sd = text::padded(season, season_width);
            let ed = text::padded(episode, episode_width);
            let from = before.len() as int;
            let at = from + sd.len();
            let end = at + 1 + ed.len();
            &&& end <= s.len()
            &&& s[at] == mark
            &&& s.subrange(from, at) == sd
            &&& s.subrange(at + 1, end) == ed
            &&& end == s.len() || !text::is_digit(s[end])
            &&& from == 0 || !text::is_alnum(s[from - 1])
            &&& without_cross_marks(s.take(at))
        }),
{
    let sd = text::padded(season, season_width);
    let ed = text::padded(episode, episode_width);
    let from = before.len() as int;
    let at = from + sd.len();
    let end = at + 1 + ed.len();
    assert(s.subrange(from, at) =~= sd);
    assert(s.subrange(at + 1, end) =~= ed);
    assert(s.len() == end + after.len());
    if after.len() > 0 {
        assert(s[end] == after[0]);
    }
    if from > 0 {
        assert(s[from - 1] == before.last());
    }
    lemma_padded(season, season_width);
    let front = s.take(at);
    assert forall|i: int| 0 < i < at implies !((#[trigger] front[i] == 'x' || front[i] == 'X')
        && text::is_digit(front[i - 1])) by {
        if i < from {
            assert(front[i] == before[i] && front[i - 1] == before[i - 1]);
        } else {
            assert(front[i] == sd[i - from]);
            assert(text::is_digit(sd[i - from]));
        }
    }
}

#[verifier::rlimit(40)]
proof fn lemma_cross(
    s: Seq<char>,
    from: int,
    season: nat,
    season_width: nat,
    episode: nat,
    episode_width: nat,
)
    requires
        ({
            let sd = text::padded(season, season_width);
            let ed = text::padded(episode, episode_width);
            let at = from + sd.len();
            let end = at + 1 + ed.len();
            &&& 0 <= from
            &&& end <= s.len()
            &&& s[at] == 'x' || s[at] == 'X'
            &&& sd.len() <= 4
            &&& ed.len() <= 4
            &&& s.subrange(from, at) == sd
            &&& s.subrange(at + 1, end) == ed
            &&& end == s.len() || !text::is_digit(s[end])
            &&& without_cross_marks(s.take(at))
        }),
        from == 0 || !text::is_alnum(s[from - 1]),
    ensures
        season <= 9999,
        episode <= 9999,
        naming::cross_numbering_of(s) matches Some(found) && found.season == Some(season as u32)
            && found.episode == Some(episode as u32),
{
    let l = text::lower(s);
    lemma_lower_keeps(s);
    let sd = text::padded(season, season_width);
    let ed = text::padded(episode, episode_width);
    let at = from + sd.len();
    let end = at + 1 + ed.len();
    lemma_padded(season, season_width);
    lemma_padded(episode, episode_width);
    lemma_lowered_digits(s, from, season, season_width);
    lemma_lowered_digits(s, at + 1, episode, episode_width);
    assert forall|i: int| from <= i < at implies text::is_digit(#[trigger] l[i]) by {
        assert(text::is_digit(sd[i - from]));
        assert(l.subrange(from, at)[i - from] == l[i]);
    }
    lemma_digits_start(l, from, at);
    lemma_short_value(sd);
    lemma_number_stands(l, at + 1, episode, episode_width);
    assert(l[at] == 'x');
    assert(naming::cross_at(l, at) is Some);
    let p = naming::cross_settles(l);
    assert(p(at));
    text::lemma_first_from(0, l.len() as int, p);
    let first = text::first_from(0, l.len() as int, p)->0;
    if first < at {
        lemma_no_cross_before(s, at, first);
    }
}

/// `E11` as a word of its own, with no other numbering about, is the episode.
#[verifier::rlimit(40)]
pub proof fn law_an_episode_marker_is_read(
    name: Seq<char>,
    before: Seq<char>,
    mark: char,
    second: Seq<char>,
    gap: Seq<char>,
    episode: nat,
    width: nat,
    after: Seq<char>,
)
    requires
        naming::without_groups(naming::stem(name)) == before + seq![mark] + second + gap
            + text::padded(episode, width) + after,
        mark == 'e' || mark == 'E',
        second.len() == 0 || second == seq!['p'] || second == seq!['P'],
        is_leading(gap),
        text::padded(episode, width).len() <= 4,
        ends_a_word(before),
        begins_no_word(after),
        forall|i: int| 0 <= i < before.len() ==> #[trigger] before[i] != 'e' && before[i] != 'E',
        !naming::without_groups(naming::stem(name)).contains('-'),
        without_season_marks(naming::without_groups(naming::stem(name))),
        without_season_words(naming::without_groups(naming::stem(name))),
        without_cross_marks(naming::without_groups(naming::stem(name))),
    ensures
        naming::parsed(name).season is None,
        naming::parsed(name).episode == Some(episode as u32),
        episode <= 9999,
{
    let s = naming::without_groups(naming::stem(name));
    lemma_marker_parts(s, before, mark, second, gap, episode, width, after);
    lemma_marker(s, before.len() as int, second.len() as int, gap.len() as int, episode, width);
    lemma_no_dash(s);
    lemma_no_cross_marks(s);
    lemma_no_season_marks(s);
    lemma_no_season_words(s);
}

/// Where there is no dash, none introduces an episode.
proof fn lemma_no_dash(s: Seq<char>)
    requires
        !s.contains('-'),
    ensures
        naming::dash_numbering_of(s) is None,
{
    let d = naming::dash_introduces(s);
    text::lemma_last_before(0, s.len() as int, d);
    if let Some(k) = text::last_before(0, s.len() as int, d) {
        assert(d(k));
        assert(s[k] == '-');
        assert(s.contains('-'));
    }
}

/// Where the parts of a marker stand.
#[verifier::rlimit(40)]
proof fn lemma_marker_parts(
    s: Seq<char>,
    before: Seq<char>,
    mark: char,
    second: Seq<char>,
    gap: Seq<char>,
    episode: nat,
    width: nat,
    after: Seq<char>,
)
    requires
        s == before + seq![mark] + second + gap + text::padded(episode, width) + after,
        second.len() == 0 || second == seq!['p'] || second == seq!['P'],
        is_leading(gap),
        ends_a_word(before),
        begins_no_word(after),
        forall|i: int| 0 <= i < before.len() ==> #[trigger] before[i] != 'e' && before[i] != 'E',
    ensures
        ({
            let at = before.len() as int;
            let letters = at + 1 + second.len();
            let from = letters + gap.len();
            let end = from + text::padded(episode, width).len();
            &&& end <= s.len()
            &&& s[at] == mark
            &&& at == 0 || !text::is_alnum(s[at - 1])
            &&& second.len() <= 1
            &&& second.len() == 1 ==> s[at + 1] == 'p' || s[at + 1] == 'P'
            &&& s.subrange(from, end) == text::padded(episode, width)
            &&& forall|i: int| letters <= i < from ==> separates(#[trigger] s[i])
            &&& end == s.len() || !text::is_alnum(s[end])
            &&& forall|i: int| 0 <= i < at ==> #[trigger] s[i] != 'e' && s[i] != 'E'
        }),
{
    let at = before.len() as int;
    let letters = at + 1 + second.len();
    let from = letters + gap.len();
    let digits = text::padded(episode, width);
    let end = from + digits.len();
    assert(s.len() == end + after.len());
    assert(s.subrange(from, end) =~= digits);
    assert forall|i: int| letters <= i < from implies separates(#[trigger] s[i]) by {
        assert(s[i] == gap[i - letters]);
        assert(separates(gap[i - letters]));
    }
    assert forall|i: int| 0 <= i < at implies #[trigger] s[i] != 'e' && s[i] != 'E' by {
        assert(s[i] == before[i]);
    }
    if second.len() > 0 {
        assert(s[at + 1] == second[0]);
    }
    if after.len() > 0 {
        assert(s[end] == after[0]);
    }
    if at > 0 {
        assert(s[at - 1] == before.last());
    }
}

/// What a marker states that nothing like it comes before.
#[verifier::rlimit(40)]
proof fn lemma_marker(s: Seq<char>, at: int, second: int, gap: int, episode: nat, width: nat)
    requires
        ({
            let letters = at + 1 + second;
            let from = letters + gap;
            let end = from + text::padded(episode, width).len();
            &&& 0 <= at && 0 <= second <= 1 && 0 <= gap
            &&& end <= s.len()
            &&& s[at] == 'e' || s[at] == 'E'
            &&& at == 0 || !text::is_alnum(s[at - 1])
            &&& second == 1 ==> s[at + 1] == 'p' || s[at + 1] == 'P'
            &&& s.subrange(from, end) == text::padded(episode, width)
            &&& forall|i: int| letters <= i < from ==> separates(#[trigger] s[i])
            &&& end == s.len() || !text::is_alnum(s[end])
            &&& forall|i: int| 0 <= i < at ==> #[trigger] s[i] != 'e' && s[i] != 'E'
        }),
        text::padded(episode, width).len() <= 4,
    ensures
        episode <= 9999,
        naming::episode_marker_of(s) matches Some(found) && found.season is None && found.episode
            == Some(episode as u32),
{
    let digits = text::padded(episode, width);
    let letters = at + 1 + second;
    let from = letters + gap;
    let end = from + digits.len();
    lemma_padded(episode, width);
    assert(s.subrange(from, end)[0] == s[from]);
    assert(text::is_digit(digits[0]));
    if second == 0 && gap > 0 {
        assert(separates(s[letters]));
    }
    lemma_gap_end(s, letters, from);
    lemma_number_stands(s, from, episode, width);
    assert(naming::marked_number(s, at) == from);
    let p = naming::marker_stands(s);
    assert(p(at));
    text::lemma_first_from(0, s.len() as int, p);
    let first = text::first_from(0, s.len() as int, p)->0;
    if first < at {
        assert(p(first));
        assert(s[first] != 'e' && s[first] != 'E');
    }
}

/// A name that is nothing but a number of up to three digits is an episode.
#[verifier::rlimit(40)]
pub proof fn law_a_bare_number_is_the_episode(name: Seq<char>, episode: nat, width: nat)
    requires
        naming::without_groups(naming::stem(name)) == text::padded(episode, width),
        text::padded(episode, width).len() <= 3,
    ensures
        naming::parsed(name).season is None,
        naming::parsed(name).episode == Some(episode as u32),
        naming::parsed(name).title.len() == 0,
        episode <= 9999,
{
    let s = text::padded(episode, width);
    lemma_padded(episode, width);
    lemma_short_value(s);
    lemma_lower_keeps(s);
    assert(text::is_digit(s[0]) && text::is_digit(s[s.len() - 1]));
    assert(!text::is_white(s[0]) && !text::is_white(s.last()));
    assert forall|i: int| 0 <= i < s.len() implies text::is_digit(#[trigger] s[i]) by {}
    lemma_no_season_marks(s);
    assert(without_season_words(s)) by {
        reveal_strlit("season");
        assert forall|i: int| !#[trigger] text::stands_at(text::lower(s), "season"@, i) by {
            if text::stands_at(text::lower(s), "season"@, i) {
                assert("season"@.len() == 6);
            }
        }
    }
    lemma_no_season_words(s);
    lemma_no_cross_marks(s);
    let d = naming::dash_introduces(s);
    text::lemma_last_before(0, s.len() as int, d);
    if let Some(k) = text::last_before(0, s.len() as int, d) {
        assert(text::is_digit(s[k]));
    }
    let m = naming::marker_stands(s);
    text::lemma_first_from(0, s.len() as int, m);
    if let Some(k) = text::first_from(0, s.len() as int, m) {
        assert(text::is_digit(s[k]));
    }
    assert(text::trim(s) == s);
    assert(s.take(0) =~= Seq::<char>::empty());
    let none = Seq::<char>::empty();
    let year = naming::parsed(name).year;
    assert(naming::spaced(none) =~= none);
    if let Some(y) = year {
        text::lemma_decimal_reads_back(y as nat);
    }
}

// ---------------------------------------------------------------------------
// Seasons in words
// ---------------------------------------------------------------------------

proof fn lemma_keyword_stands(s: Seq<char>, keyword: Seq<char>, at: int)
    requires
        text::lower(keyword) == "season"@,
        0 <= at,
        at + 6 <= s.len(),
        s.subrange(at, at + 6) == keyword,
    ensures
        text::stands_at(text::lower(s), "season"@, at),
        keyword.len() == 6,
{
    reveal_strlit("season");
    let l = text::lower(s);
    assert(keyword.len() == text::lower(keyword).len());
    assert(l.subrange(at, at + 6) =~= text::lower(keyword)) by {
        assert forall|i: int| 0 <= i < 6 implies l.subrange(at, at + 6)[i] == text::lower(
            keyword,
        )[i] by {
            assert(s.subrange(at, at + 6)[i] == s[at + i]);
        }
    }
}

/// `Season 3`, in whatever case, states the season by all the digits behind it,
/// zeros in front or not. It must be the first that does.
pub proof fn law_a_worded_season_is_read(
    name: Seq<char>,
    before: Seq<char>,
    keyword: Seq<char>,
    gap: Seq<char>,
    season: nat,
    width: nat,
    after: Seq<char>,
)
    requires
        naming::without_groups(naming::stem(name)) == before + keyword + gap + text::padded(
            season,
            width,
        ) + after,
        text::lower(keyword) == "season"@,
        is_leading(gap),
        season > 0,
        text::padded(season, width).len() <= 4,
        ends_a_word(before),
        begins_no_word(after),
        without_season_marks(naming::without_groups(naming::stem(name))),
        forall|j: int|
            0 <= j < before.len() ==> !#[trigger] text::stands_at(
                text::lower(naming::without_groups(naming::stem(name))),
                "season"@,
                j,
            ),
    ensures
        naming::parsed(name).season == Some(season as u32),
        season <= 9999,
{
    let s = naming::without_groups(naming::stem(name));
    lemma_worded(s, before, keyword, gap, season, width, after);
    lemma_no_season_marks(s);
}

#[verifier::rlimit(40)]
proof fn lemma_worded(
    s: Seq<char>,
    before: Seq<char>,
    keyword: Seq<char>,
    gap: Seq<char>,
    season: nat,
    width: nat,
    after: Seq<char>,
)
    requires
        s == before + keyword + gap + text::padded(season, width) + after,
        text::lower(keyword) == "season"@,
        is_leading(gap),
        season > 0,
        text::padded(season, width).len() <= 4,
        ends_a_word(before),
        begins_no_word(after),
        forall|j: int|
            0 <= j < before.len() ==> !#[trigger] text::stands_at(text::lower(s), "season"@, j),
    ensures
        season <= 9999,
        naming::worded_season_of(s) == Some(
            Found {
                season: Some(season as u32),
                episode: None,
                start: before.len() as int,
                end: s.len() - after.len(),
            },
        ),
{
    reveal_strlit("season");
    let l = text::lower(s);
    lemma_lower_keeps(s);
    lemma_padded(season, width);
    let digits = text::padded(season, width);
    let at = before.len() as int;
    assert(keyword.len() == text::lower(keyword).len());
    let from = at + 6 + gap.len();
    let end = from + digits.len();
    assert(s.len() == end + after.len());
    assert(s.subrange(at, at + 6) =~= keyword);
    lemma_keyword_stands(s, keyword, at);
    assert(s.subrange(from, end) =~= digits);
    lemma_lowered_digits(s, from, season, width);
    assert forall|i: int| at + 6 <= i < from implies separates(#[trigger] l[i]) by {
        assert(s[i] == gap[i - at - 6]);
        assert(separates(gap[i - at - 6]));
    }
    assert(l.subrange(from, end)[0] == l[from]);
    assert(text::is_digit(digits[0]));
    if after.len() > 0 {
        assert(s[end] == after[0]);
    }
    if at > 0 {
        assert(s[at - 1] == before.last());
    }
    lemma_gap_end(l, at + 6, from);
    lemma_number_stands(l, from, season, width);
    let p = naming::worded_season_stands(l);
    assert(p(at));
    text::lemma_first_from(0, l.len() as int, p);
    let first = text::first_from(0, l.len() as int, p)->0;
    if first < at {
        assert(text::stands_at(l, "season"@, first));
    }
}

/// `3rd Season` states the season by the ordinal in front of the word.
pub proof fn law_an_ordinal_season_is_read(
    name: Seq<char>,
    before: Seq<char>,
    season: nat,
    width: nat,
    suffix: Seq<char>,
    gap: Seq<char>,
    keyword: Seq<char>,
    after: Seq<char>,
)
    requires
        naming::without_groups(naming::stem(name)) == before + text::padded(season, width) + suffix
            + gap + keyword + after,
        text::lower(keyword) == "season"@,
        ({
            let l = text::lower(suffix);
            l == "st"@ || l == "nd"@ || l == "rd"@ || l == "th"@
        }),
        forall|i: int| 0 <= i < gap.len() ==> separates(#[trigger] gap[i]) || gap[i] == '-',
        gap.len() > 0,
        season > 0,
        text::padded(season, width).len() <= 2,
        before.len() == 0 || !text::is_digit(before.last()),
        begins_no_word(after),
        without_digits(after),
        without_season_marks(naming::without_groups(naming::stem(name))),
        forall|j: int|
            0 <= j < before.len() + text::padded(season, width).len() + 2 + gap.len()
                ==> !#[trigger] text::stands_at(
                text::lower(naming::without_groups(naming::stem(name))),
                "season"@,
                j,
            ),
    ensures
        naming::parsed(name).season == Some(season as u32),
        season <= 9999,
{
    let s = naming::without_groups(naming::stem(name));
    lemma_ordinal(s, before, season, width, suffix, gap, keyword, after);
    lemma_no_season_marks(s);
}

proof fn lemma_trim_joints(front: Seq<char>, gap: Seq<char>)
    requires
        front.len() > 0,
        text::is_alnum(front.last()),
        forall|i: int| 0 <= i < gap.len() ==> separates(#[trigger] gap[i]) || gap[i] == '-',
    ensures
        text::trim_end_set(front + gap, naming::joints()) == front,
    decreases gap.len(),
{
    let all = front + gap;
    let joints = naming::joints();
    assert(joints[0] == ' ' && joints[1] == '_' && joints[2] == '.' && joints[3] == '-');
    if gap.len() == 0 {
        assert(all =~= front);
        if joints.contains(front.last()) {
            let k = choose|k: int| 0 <= k < joints.len() && joints[k] == front.last();
            assert(k == 0 || k == 1 || k == 2 || k == 3);
        }
    } else {
        assert(all.last() == gap[gap.len() - 1]);
        assert(joints.contains(all.last()));
        assert(all.drop_last() =~= front + gap.drop_last());
        lemma_trim_joints(front, gap.drop_last());
    }
}

#[verifier::rlimit(40)]
proof fn lemma_ordinal(
    s: Seq<char>,
    before: Seq<char>,
    season: nat,
    width: nat,
    suffix: Seq<char>,
    gap: Seq<char>,
    keyword: Seq<char>,
    after: Seq<char>,
)
    requires
        s == before + text::padded(season, width) + suffix + gap + keyword + after,
        text::lower(keyword) == "season"@,
        ({
            let l = text::lower(suffix);
            l == "st"@ || l == "nd"@ || l == "rd"@ || l == "th"@
        }),
        forall|i: int| 0 <= i < gap.len() ==> separates(#[trigger] gap[i]) || gap[i] == '-',
        gap.len() > 0,
        season > 0,
        text::padded(season, width).len() <= 2,
        before.len() == 0 || !text::is_digit(before.last()),
        begins_no_word(after),
        without_digits(after),
        forall|j: int|
            0 <= j < before.len() + text::padded(season, width).len() + 2 + gap.len()
                ==> !#[trigger] text::stands_at(text::lower(s), "season"@, j),
    ensures
        season <= 9999,
        naming::worded_season_of(s) == Some(
            Found {
                season: Some(season as u32),
                episode: None,
                start: before.len() as int,
                end: s.len() - after.len(),
            },
        ),
{
    reveal_strlit("season");
    let l = text::lower(s);
    lemma_lower_keeps(s);
    lemma_padded(season, width);
    let digits = text::padded(season, width);
    lemma_short_value(digits);
    lemma_suffix(suffix);
    assert(keyword.len() == text::lower(keyword).len());
    let from = before.len() as int;
    let to = from + digits.len();
    let at = to + 2 + gap.len();
    let end = at + 6;
    assert(s.len() == end + after.len());
    assert(s.subrange(at, end) =~= keyword);
    lemma_keyword_stands(s, keyword, at);
    assert(s.subrange(from, to) =~= digits);
    assert(s.subrange(to, to + 2) =~= suffix);
    assert(s.subrange(to + 2, at) =~= gap);
    assert(s[at - 1] == gap[gap.len() - 1]);
    assert(separates(gap[gap.len() - 1]) || gap[gap.len() - 1] == '-');
    if from > 0 {
        assert(s[from - 1] == before.last());
    }
    if after.len() > 0 {
        assert(s[end] == after[0]);
    }
    assert(s.subrange(end, s.len() as int) =~= after);
    lemma_nothing_behind(s, end);
    lemma_ordinal_stands(s, from, season, width, suffix, gap);
    lemma_worded_by_ordinal(s, at, season, from);
}

/// The letters behind an ordinal.
proof fn lemma_suffix(suffix: Seq<char>)
    requires
        ({
            let l = text::lower(suffix);
            l == "st"@ || l == "nd"@ || l == "rd"@ || l == "th"@
        }),
    ensures
        suffix.len() == 2,
        text::is_letter(text::lower(suffix)[1]),
        naming::is_ordinal_suffix(text::lower(suffix)),
{
    reveal_strlit("st");
    reveal_strlit("nd");
    reveal_strlit("rd");
    reveal_strlit("th");
    assert(suffix.len() == text::lower(suffix).len());
}

/// Where no digit follows the word, no number does.
proof fn lemma_nothing_behind(s: Seq<char>, end: int)
    requires
        0 <= end <= s.len(),
        without_digits(s.subrange(end, s.len() as int)),
    ensures
        naming::number_after(text::lower(s), naming::gap_end(text::lower(s), end)) is None,
{
    let l = text::lower(s);
    lemma_lower_keeps(s);
    let after = s.subrange(end, s.len() as int);
    let beyond = naming::gap_end(l, end);
    lemma_gap_stays(l, end);
    if beyond < l.len() {
        assert(s[beyond] == after[beyond - end]);
        assert(!text::is_digit(after[beyond - end]));
    }
    lemma_no_number(l, beyond);
}

/// The ordinal that stands in front of a word.
#[verifier::rlimit(40)]
proof fn lemma_ordinal_stands(
    s: Seq<char>,
    from: int,
    season: nat,
    width: nat,
    suffix: Seq<char>,
    gap: Seq<char>,
)
    requires
        ({
            let digits = text::padded(season, width);
            let to = from + digits.len();
            let at = to + 2 + gap.len();
            let l = text::lower(suffix);
            &&& 0 <= from
            &&& at <= s.len()
            &&& digits.len() <= 2
            &&& s.subrange(from, to) == digits
            &&& s.subrange(to, to + 2) == suffix
            &&& s.subrange(to + 2, at) == gap
            &&& l == "st"@ || l == "nd"@ || l == "rd"@ || l == "th"@
        }),
        forall|i: int| 0 <= i < gap.len() ==> separates(#[trigger] gap[i]) || gap[i] == '-',
        season > 0,
        from == 0 || !text::is_digit(s[from - 1]),
    ensures
        season <= 9999,
        naming::ordinal_before_at(
            text::lower(s),
            from + text::padded(season, width).len() + 2 + gap.len(),
        ) == Some((season as u32, from)),
{
    let l = text::lower(s);
    lemma_lower_keeps(s);
    lemma_padded(season, width);
    let digits = text::padded(season, width);
    lemma_short_value(digits);
    lemma_suffix(suffix);
    let to = from + digits.len();
    let at = to + 2 + gap.len();
    lemma_lowered_digits(s, from, season, width);
    let front = l.take(to + 2);
    assert(l.take(at) =~= front + gap) by {
        assert forall|i: int| 0 <= i < at implies #[trigger] l.take(at)[i] == (front + gap)[i] by {
            if i >= to + 2 {
                assert(s.subrange(to + 2, at)[i - to - 2] == s[i]);
                assert(separates(gap[i - to - 2]) || gap[i - to - 2] == '-');
            }
        }
    }
    assert(front.subrange(to, to + 2) =~= text::lower(suffix)) by {
        assert forall|i: int| 0 <= i < 2 implies #[trigger] front.subrange(to, to + 2)[i]
            == text::lower(suffix)[i] by {
            assert(s.subrange(to, to + 2)[i] == s[to + i]);
        }
    }
    assert(front.last() == front.subrange(to, to + 2)[1]);
    lemma_trim_joints(front, gap);
    let number = front.take(front.len() - 2);
    assert(number =~= l.take(to));
    assert forall|i: int| from <= i < to implies text::is_digit(#[trigger] number[i]) by {
        assert(text::is_digit(digits[i - from]));
        assert(l.subrange(from, to)[i - from] == l[i]);
    }
    lemma_digits_start(number, from, to);
    assert(number.subrange(from, to) =~= digits) by {
        assert(l.subrange(from, to) =~= number.subrange(from, to));
    }
}

/// A season that is stated by an ordinal, and by nothing before it.
proof fn lemma_worded_by_ordinal(s: Seq<char>, at: int, season: nat, start: int)
    requires
        0 < at,
        at + 6 <= s.len(),
        season <= 9999,
        text::stands_at(text::lower(s), "season"@, at),
        !text::is_alnum(s[at - 1]),
        at + 6 == s.len() || !text::is_alnum(s[at + 6]),
        naming::number_after(text::lower(s), naming::gap_end(text::lower(s), at + 6)) is None,
        naming::ordinal_before_at(text::lower(s), at) == Some((season as u32, start)),
        forall|j: int| 0 <= j < at ==> !#[trigger] text::stands_at(text::lower(s), "season"@, j),
    ensures
        naming::worded_season_of(s) == Some(
            Found { season: Some(season as u32), episode: None, start, end: at + 6 },
        ),
{
    let l = text::lower(s);
    lemma_lower_keeps(s);
    let p = naming::worded_season_stands(l);
    assert(naming::worded_season_at(l, at) is Some);
    assert(p(at));
    text::lemma_first_from(0, l.len() as int, p);
    let first = text::first_from(0, l.len() as int, p)->0;
    if first < at {
        assert(text::stands_at(l, "season"@, first));
    }
}

proof fn lemma_gap_stays(s: Seq<char>, from: int)
    requires
        0 <= from <= s.len(),
    ensures
        from <= naming::gap_end(s, from) <= s.len(),
    decreases s.len() - from,
{
    if from < s.len() && naming::is_gap(s[from]) {
        lemma_gap_stays(s, from + 1);
    }
}

// ---------------------------------------------------------------------------
// Years
// ---------------------------------------------------------------------------

proof fn lemma_year(y: nat)
    requires
        1900 <= y <= 2999,
    ensures
        text::decimal(y).len() == 4,
        naming::is_year(text::decimal(y)),
        text::digits_value(text::decimal(y)) == y,
{
    text::lemma_decimal_reads_back(y);
    reveal_with_fuel(text::decimal, 5);
    assert(y / 10 / 10 / 10 < 10);
    assert(y / 10 / 10 >= 10);
}

/// A year between 1900 and 2999 in brackets is the year, where no bracket opens
/// before it.
pub proof fn law_a_bracketed_year_is_read(
    name: Seq<char>,
    before: Seq<char>,
    open: char,
    year: nat,
    close: char,
    after: Seq<char>,
)
    requires
        naming::stem(name) == before + seq![open] + text::decimal(year) + seq![close] + after,
        open == '(' || open == '[',
        close == ')' || close == ']',
        1900 <= year <= 2999,
        forall|i: int| 0 <= i < before.len() ==> #[trigger] before[i] != '(' && before[i] != '[',
    ensures
        naming::parsed(name).year == Some(year as u32),
{
    let s = naming::stem(name);
    let at = before.len() as int;
    lemma_year(year);
    assert(s[at] == open && s[at + 5] == close);
    assert(s.subrange(at + 1, at + 5) =~= text::decimal(year));
    let p = naming::bracketed_year_at(s);
    assert(p(at));
    text::lemma_first_from(0, s.len() - 5, p);
    let first = text::first_from(0, s.len() - 5, p)->0;
    if first < at {
        assert(p(first));
        assert(s[first] == before[first]);
    }
}

/// Four digits that are a word of their own are the year, where they lie between
/// 1900 and 2999, no digit stands before them, and no bracket opens in the name.
/// Where nothing else numbers the name, the title ends there.
#[verifier::rlimit(40)]
pub proof fn law_a_bare_year_is_read(
    name: Seq<char>,
    words: Seq<char>,
    gap: Seq<char>,
    year: nat,
    after: Seq<char>,
)
    requires
        naming::stem(name) == words + gap + text::decimal(year) + after,
        is_wording(words),
        is_trailing(gap),
        gap.len() > 0,
        without_digits(words),
        1900 <= year <= 2999,
        begins_no_word(after),
        without_brackets(naming::stem(name)),
    ensures
        naming::parsed(name).year == Some(year as u32),
        naming::parsed(name).season is None && naming::parsed(name).episode is None ==> is_worded(
            naming::parsed(name).title,
            words,
        ),
{
    let s = naming::stem(name);
    law_a_plain_name_is_read_whole(s);
    lemma_year(year);
    let before = words + gap;
    let at = before.len() as int;
    assert(s.subrange(at, at + 4) =~= text::decimal(year));
    assert(s[at - 1] == gap[gap.len() - 1]);
    assert(separates(gap[gap.len() - 1]) || gap[gap.len() - 1] == '-' || gap[gap.len() - 1]
        == '\u{2013}');
    if after.len() > 0 {
        assert(s[at + 4] == after[0]);
    }
    let b = naming::bracketed_year_at(s);
    text::lemma_first_from(0, s.len() - 5, b);
    if let Some(k) = text::first_from(0, s.len() - 5, b) {
        assert(b(k));
        assert(s[k] != '(' && s[k] != '[');
    }
    let p = naming::bare_year_at(s);
    assert(p(at));
    text::lemma_first_from(0, s.len() - 3, p);
    let first = text::first_from(0, s.len() - 3, p)->0;
    if first < at {
        assert(p(first));
        assert(s.subrange(first, first + 4)[0] == s[first]);
        assert(text::is_digit(s.subrange(first, first + 4)[0]));
        if first < words.len() {
            assert(s[first] == words[first]);
        } else {
            assert(s[first] == gap[first - words.len()]);
        }
    }
    if naming::parsed(name).season is None && naming::parsed(name).episode is None {
        lemma_found_states(s);
        assert(s.take(at) =~= Seq::<char>::empty() + words + gap);
        lemma_clean_words(Seq::empty(), words, gap, Some(year as u32));
    }
}

/// Numbering that was found states something.
proof fn lemma_found_states(s: Seq<char>)
    ensures
        naming::numbering_of(s) matches Some(found) ==> found.season is Some || found.episode
            is Some,
{
    let l = text::lower(s);
    text::lemma_first_from(0, l.len() as int, naming::season_mark_settles(l));
}

/// A name without four digits in a row has no year.
pub proof fn law_no_year_is_made_up(name: Seq<char>)
    requires
        without_brackets(naming::stem(name)),
        forall|i: int|
            0 <= i < naming::stem(name).len() - 3 ==> !(text::is_digit(
                #[trigger] naming::stem(name)[i],
            ) && text::is_digit(naming::stem(name)[i + 1]) && text::is_digit(
                naming::stem(name)[i + 2],
            ) && text::is_digit(naming::stem(name)[i + 3])),
    ensures
        naming::parsed(name).year is None,
{
    let s = naming::stem(name);
    law_a_plain_name_is_read_whole(s);
    let b = naming::bracketed_year_at(s);
    text::lemma_first_from(0, s.len() - 5, b);
    if let Some(k) = text::first_from(0, s.len() - 5, b) {
        assert(b(k));
        assert(s[k] != '(' && s[k] != '[');
    }
    let p = naming::bare_year_at(s);
    text::lemma_first_from(0, s.len() - 3, p);
    if let Some(k) = text::first_from(0, s.len() - 3, p) {
        let four = s.subrange(k, k + 4);
        assert(text::is_digit(four[0]) && text::is_digit(four[1]) && text::is_digit(four[2])
            && text::is_digit(four[3]));
        assert(four[0] == s[k] && four[1] == s[k + 1] && four[2] == s[k + 2] && four[3] == s[k
            + 3]);
    }
}

// ---------------------------------------------------------------------------
// Names without numbers, and folders
// ---------------------------------------------------------------------------

#[verifier::rlimit(40)]
proof fn lemma_without_digits(s: Seq<char>)
    requires
        without_digits(s),
    ensures
        naming::numbering_of(s) is None,
        naming::worded_season_of(s) is None,
        naming::bare_year_of(s) is None,
        naming::bracketed_year_of(s) is None,
        naming::season_folder_of(text::lower(s)) is None,
{
    let l = text::lower(s);
    lemma_lower_keeps(s);
    assert(without_digits(l));
    lemma_no_season_marks(s);
    lemma_no_cross_marks(s);
    lemma_no_words_without_digits(s);
    text::lemma_lower_idempotent(s);
    let d = naming::dash_introduces(s);
    text::lemma_last_before(0, s.len() as int, d);
    if let Some(k) = text::last_before(0, s.len() as int, d) {
        assert(d(k));
        lemma_gap_stays(s, k + 1);
        lemma_no_marked_number(s, naming::gap_end(s, k + 1));
        lemma_no_number(s, naming::gap_end(s, k + 1));
    }
    let m = naming::marker_stands(s);
    text::lemma_first_from(0, s.len() as int, m);
    if let Some(k) = text::first_from(0, s.len() as int, m) {
        assert(m(k));
        lemma_no_marked_number(s, k);
    }
    let t = text::trim(s);
    text::lemma_trim(s);
    if t.len() > 0 {
        assert(s.contains(t[0]));
    }
    let p = naming::bare_year_at(s);
    text::lemma_first_from(0, s.len() - 3, p);
    if let Some(k) = text::first_from(0, s.len() - 3, p) {
        assert(s.subrange(k, k + 4)[0] == s[k]);
    }
    let b = naming::bracketed_year_at(s);
    text::lemma_first_from(0, s.len() - 5, b);
    if let Some(k) = text::first_from(0, s.len() - 5, b) {
        assert(s.subrange(k + 1, k + 5)[0] == s[k + 1]);
    }
    assert(naming::worded_season_of(l) is None);
    if "season"@.is_prefix_of(l) {
        reveal_strlit("season");
        lemma_no_digits_left(l.subrange(6, l.len() as int));
    } else if l.len() > 0 {
        lemma_no_digits_left(l.subrange(1, l.len() as int));
    }
}

proof fn lemma_no_words_without_digits(s: Seq<char>)
    requires
        without_digits(s),
    ensures
        naming::worded_season_of(s) is None,
{
    let l = text::lower(s);
    lemma_lower_keeps(s);
    reveal_strlit("season");
    let p = naming::worded_season_stands(l);
    text::lemma_first_from(0, l.len() as int, p);
    if let Some(k) = text::first_from(0, l.len() as int, p) {
        assert(p(k));
        assert(text::stands_at(l, "season"@, k));
        lemma_gap_stays(l, k + 6);
        lemma_no_number(l, naming::gap_end(l, k + 6));
        let head = text::trim_end_set(l.take(k), naming::joints());
        text::lemma_trim_end_set_prefix(l.take(k), naming::joints());
        if head.len() >= 2 {
            let number = head.take(head.len() - 2);
            if number.len() > 0 {
                assert(number[number.len() - 1] == l[number.len() - 1]);
            }
            assert(text::digits_start(number, number.len() as int) == number.len());
        }
    }
}

proof fn lemma_no_marked_number(s: Seq<char>, at: int)
    requires
        without_digits(s),
        0 <= at <= s.len(),
    ensures
        naming::marked_number(s, at) == at,
{
    if at < s.len() && (s[at] == 'e' || s[at] == 'E') {
        let letters = if at + 1 < s.len() && (s[at + 1] == 'p' || s[at + 1] == 'P') {
            at + 2
        } else {
            at + 1
        };
        lemma_gap_stays(s, letters);
    }
}

proof fn lemma_trim_start_set_suffix(s: Seq<char>, set: Seq<char>)
    ensures
        text::trim_start_set(s, set).len() <= s.len(),
        text::trim_start_set(s, set) == s.skip(s.len() - text::trim_start_set(s, set).len()),
    decreases s.len(),
{
    if s.len() > 0 && set.contains(s[0]) {
        lemma_trim_start_set_suffix(s.subrange(1, s.len() as int), set);
    }
    assert(text::trim_start_set(s, set) =~= s.skip(s.len() - text::trim_start_set(s, set).len()));
}

proof fn lemma_no_digits_left(s: Seq<char>)
    requires
        without_digits(s),
    ensures
        naming::only_digits(text::trim_start_set(s, naming::joints())) is None,
{
    let left = text::trim_start_set(s, naming::joints());
    lemma_trim_start_set_suffix(s, naming::joints());
    if left.len() > 0 {
        assert(left[0] == s[s.len() - left.len()]);
        assert(!text::is_digit(left[0]));
    }
}

/// A name without a digit and without brackets is a title and nothing else: no
/// season, no episode, no year, no name of an episode.
pub proof fn law_a_name_without_numbers_is_a_title(name: Seq<char>, words: Seq<char>)
    requires
        naming::stem(name) == words,
        is_wording(words),
        without_digits(words),
        without_brackets(words),
    ensures
        naming::parsed(name).season is None,
        naming::parsed(name).episode is None,
        naming::parsed(name).year is None,
        naming::parsed(name).episode_title is None,
        is_worded(naming::parsed(name).title, words),
{
    law_a_plain_name_is_read_whole(words);
    lemma_without_digits(words);
    let none = Seq::<char>::empty();
    assert(words.take(words.len() as int) =~= none + words + none);
    lemma_clean_words(none, words, none, None);
}

proof fn lemma_no_letters_no_season(l: Seq<char>, from: int)
    requires
        0 < from,
        forall|i: int| from <= i < l.len() ==> #[trigger] l[i] != 's',
    ensures
        forall|j: int| from <= j ==> !#[trigger] text::stands_at(l, "season"@, j),
{
    reveal_strlit("season");
    assert forall|j: int| from <= j implies !#[trigger] text::stands_at(l, "season"@, j) by {
        if text::stands_at(l, "season"@, j) {
            assert(l.subrange(j, j + 6)[0] == l[j]);
            assert("season"@[0] == 's');
        }
    }
}

proof fn lemma_trim_start_joints(gap: Seq<char>, rest: Seq<char>)
    requires
        forall|i: int| 0 <= i < gap.len() ==> separates(#[trigger] gap[i]) || gap[i] == '-',
        rest.len() > 0,
        text::is_digit(rest[0]),
    ensures
        text::trim_start_set(gap + rest, naming::joints()) == rest,
    decreases gap.len(),
{
    let all = gap + rest;
    let joints = naming::joints();
    assert(joints[0] == ' ' && joints[1] == '_' && joints[2] == '.' && joints[3] == '-');
    if gap.len() == 0 {
        assert(all =~= rest);
        if joints.contains(rest[0]) {
            let k = choose|k: int| 0 <= k < joints.len() && joints[k] == rest[0];
            assert(k == 0 || k == 1 || k == 2 || k == 3);
        }
    } else {
        assert(separates(gap[0]) || gap[0] == '-');
        assert(joints.contains(all[0]));
        assert(all.subrange(1, all.len() as int) =~= gap.skip(1) + rest);
        assert forall|i: int| 0 <= i < gap.skip(1).len() implies separates(
            #[trigger] gap.skip(1)[i],
        ) || gap.skip(1)[i] == '-' by {
            assert(separates(gap[i + 1]) || gap[i + 1] == '-');
        }
        lemma_trim_start_joints(gap.skip(1), rest);
    }
}

/// A folder called `Season 02` or `S02`, in whatever case, with zeros in front or
/// not, states that season and nothing else.
#[verifier::rlimit(40)]
pub proof fn law_a_season_folder_states_its_season(
    keyword: Seq<char>,
    gap: Seq<char>,
    season: nat,
    width: nat,
)
    requires
        text::lower(keyword) == "season"@ || text::lower(keyword) == seq!['s'],
        forall|i: int| 0 <= i < gap.len() ==> separates(#[trigger] gap[i]) || gap[i] == '-',
        season <= u32::MAX,
    ensures
        naming::folder_role(keyword + gap + text::padded(season, width)) == FolderView::Season(
            season as u32,
        ),
{
    reveal_strlit("season");
    let digits = text::padded(season, width);
    let name = keyword + gap + digits;
    let l = text::lower(name);
    lemma_lower_keeps(name);
    lemma_padded(season, width);
    let key = text::lower(keyword);
    assert(key.len() == keyword.len());
    let n = keyword.len() as int;
    let from = n + gap.len();
    assert(text::is_digit(digits[0]) && text::is_digit(digits[digits.len() - 1]));
    assert(name.last() == digits[digits.len() - 1]);
    assert(name[0] == keyword[0]);
    assert(key[0] == text::lower_char(keyword[0]));
    assert(!text::is_white(name[0]) && !text::is_white(name.last()));
    assert(text::trim(name) == name);
    assert(l =~= key + gap + digits) by {
        assert forall|i: int| 0 <= i < l.len() implies l[i] == (key + gap + digits)[i] by {
            if i < n {
            } else if i < from {
                assert(name[i] == gap[i - n]);
                assert(separates(gap[i - n]) || gap[i - n] == '-');
            } else {
                assert(name[i] == digits[i - from]);
                assert(text::is_digit(digits[i - from]));
            }
        }
    }
    assert forall|i: int| n <= i < l.len() implies #[trigger] l[i] != 's' by {
        if i < from {
            assert(l[i] == gap[i - n]);
            assert(separates(gap[i - n]) || gap[i - n] == '-');
        } else {
            assert(l[i] == digits[i - from]);
            assert(text::is_digit(digits[i - from]));
        }
    }
    lemma_no_letters_no_season(l, n);
    assert(l.subrange(n, l.len() as int) =~= gap + digits);
    lemma_trim_start_joints(gap, digits);
    text::lemma_lower_idempotent(name);
    let p = naming::worded_season_stands(l);
    text::lemma_first_from(0, l.len() as int, p);
    if key == "season"@ {
        assert("season"@.is_prefix_of(l)) by {
            assert(l.subrange(0, 6) =~= "season"@);
        }
        assert forall|j: int| 0 < j < 6 implies !#[trigger] text::stands_at(l, "season"@, j) by {
            if text::stands_at(l, "season"@, j) {
                assert(l.subrange(j, j + 6)[0] == l[j]);
                assert("season"@[0] == 's');
                assert(l[j] == "season"@[j]);
            }
        }
        match text::first_from(0, l.len() as int, p) {
            Some(k) => {
                assert(p(k));
                assert(text::stands_at(l, "season"@, k));
                assert(k == 0);
                lemma_season_folder_worded(l, gap, season, width);
            },
            None => {},
        }
    } else {
        assert(l[0] == 's');
        assert(!"season"@.is_prefix_of(l)) by {
            if "season"@.is_prefix_of(l) {
                assert("season"@[3] == 's' && l[3] == "season"@[3]);
            }
        }
        assert(!text::stands_at(l, "season"@, 0)) by {
            if text::stands_at(l, "season"@, 0) {
                assert(l.subrange(0, 6)[3] == l[3]);
                assert("season"@[3] == 's');
            }
        }
        if let Some(k) = text::first_from(0, l.len() as int, p) {
            assert(text::stands_at(l, "season"@, k));
        }
    }
}

/// Where the word and the number behind it are read together, they state the same.
proof fn lemma_season_folder_worded(l: Seq<char>, gap: Seq<char>, season: nat, width: nat)
    requires
        l == "season"@ + gap + text::padded(season, width),
        forall|i: int| 0 <= i < gap.len() ==> separates(#[trigger] gap[i]) || gap[i] == '-',
        season <= u32::MAX,
        naming::worded_season_at(l, 0) is Some,
    ensures
        naming::worded_season_at(l, 0) == Some(
            Found {
                season: Some(season as u32),
                episode: None,
                start: 0,
                end: l.len() as int,
            },
        ),
{
    reveal_strlit("season");
    let digits = text::padded(season, width);
    lemma_padded(season, width);
    let from = 6 + gap.len() as int;
    let g = naming::gap_end(l, 6);
    lemma_gap_stays(l, 6);
    assert(text::trim_end_set(l.take(0), naming::joints()) =~= Seq::<char>::empty());
    assert(naming::ordinal_before_at(l, 0) is None);
    lemma_gap_ends_early(l, 6, from);
    assert forall|i: int| from <= i < l.len() implies text::is_digit(#[trigger] l[i]) by {
        assert(l[i] == digits[i - from]);
        assert(text::is_digit(digits[i - from]));
    }
    if g < from {
        assert(l[g] == gap[g - 6]);
        assert(separates(gap[g - 6]) || gap[g - 6] == '-');
        lemma_no_number(l, g);
    } else {
        assert(g == from);
        lemma_digits_end(l, from, l.len() as int);
        assert(l.subrange(from, l.len() as int) =~= digits);
    }
}

proof fn lemma_gap_ends_early(s: Seq<char>, from: int, to: int)
    requires
        0 <= from <= to < s.len(),
        text::is_digit(s[to]),
    ensures
        naming::gap_end(s, from) <= to,
        naming::gap_end(s, from) < to ==> !separates(s[naming::gap_end(s, from)]),
    decreases to - from,
{
    if from < to && naming::is_gap(s[from]) {
        lemma_gap_ends_early(s, from + 1, to);
    }
}

/// Whether a text is one of the names of folders that only group.
pub open spec fn is_grouping(l: Seq<char>) -> bool {
    ||| l == "movies"@
    ||| l == "movie"@
    ||| l == "films"@
    ||| l == "film"@
    ||| l == "ova"@
    ||| l == "ovas"@
    ||| l == "oad"@
    ||| l == "oads"@
    ||| l == "specials"@
    ||| l == "special"@
    ||| l == "sp"@
    ||| l == "extras"@
    ||| l == "extra"@
    ||| l == "bonus"@
    ||| l == "ncop"@
    ||| l == "nced"@
    ||| l == "creditless"@
    ||| l == "subs"@
    ||| l == "subtitles"@
}

/// A folder with one of the grouping names, in whatever case, names nothing and
/// states nothing.
pub proof fn law_grouping_folders_are_stepped_over(name: Seq<char>)
    requires
        is_grouping(text::lower(text::trim(name))),
    ensures
        naming::folder_role(name) == FolderView::Container,
{
    let whole = text::trim(name);
    let l = text::lower(whole);
    lemma_lower_keeps(whole);
    assert(without_digits(l)) by {
        reveal_strlit("movies");
        reveal_strlit("movie");
        reveal_strlit("films");
        reveal_strlit("film");
        reveal_strlit("ova");
        reveal_strlit("ovas");
        reveal_strlit("oad");
        reveal_strlit("oads");
        reveal_strlit("specials");
        reveal_strlit("special");
        reveal_strlit("sp");
        reveal_strlit("extras");
        reveal_strlit("extra");
        reveal_strlit("bonus");
        reveal_strlit("ncop");
        reveal_strlit("nced");
        reveal_strlit("creditless");
        reveal_strlit("subs");
        reveal_strlit("subtitles");
    }
    assert(without_digits(whole)) by {
        assert forall|i: int| 0 <= i < whole.len() implies !text::is_digit(#[trigger] whole[i]) by {
            assert(text::is_digit(l[i]) == text::is_digit(whole[i]));
        }
    }
    lemma_without_digits(whole);
}

/// A folder of words, without a digit and without brackets, that is none of the
/// grouping ones names a series, by its words.
pub proof fn law_a_folder_of_words_names_a_series(name: Seq<char>, words: Seq<char>)
    requires
        text::trim(name) == words,
        naming::stem(words) == words,
        is_wording(words),
        without_digits(words),
        without_brackets(words),
        !is_grouping(text::lower(words)),
    ensures
        naming::folder_role(name) matches FolderView::Title(series) && is_worded(
            series.title,
            words,
        ) && series.season is None && series.year is None,
{
    lemma_without_digits(words);
    law_a_name_without_numbers_is_a_title(words, words);
    let whole = text::trim_end(words);
    text::lemma_trim_end_prefix(words);
    assert(text::trim_end(words) == words);
    let at = text::digits_start(words, words.len() as int);
    assert(!text::is_digit(words[words.len() - 1]));
    assert(at == words.len());
    assert(words.subrange(at, words.len() as int) =~= Seq::<char>::empty());
}

/// Whether a text is one of the extensions of what can be played.
pub open spec fn is_playable(l: Seq<char>) -> bool {
    ||| l == "mkv"@
    ||| l == "mp4"@
    ||| l == "m4v"@
    ||| l == "avi"@
    ||| l == "mov"@
    ||| l == "webm"@
    ||| l == "ts"@
    ||| l == "m2ts"@
    ||| l == "mts"@
    ||| l == "mpg"@
    ||| l == "mpeg"@
    ||| l == "wmv"@
    ||| l == "flv"@
    ||| l == "ogv"@
    ||| l == "ogm"@
    ||| l == "asf"@
    ||| l == "rmvb"@
    ||| l == "divx"@
    ||| l == "vob"@
}

/// A name is a video exactly where the text behind its last dot is one of these,
/// in whatever case.
pub proof fn law_videos_are_told_by_their_extension(body: Seq<char>, ext: Seq<char>)
    requires
        !ext.contains('.'),
    ensures
        naming::names_a_video(body.push('.') + ext) == is_playable(text::lower(ext)),
        !naming::names_a_video(ext),
{
    let name = body.push('.') + ext;
    let at = body.len() as int;
    let p = text::holds_char(name, '.');
    text::lemma_last_before(0, name.len() as int, p);
    assert(p(at));
    let k = text::last_index(name, '.')->0;
    if k > at {
        assert(p(k));
        assert(name[k] == ext[k - at - 1]);
        assert(ext.contains('.'));
    }
    assert(name.subrange(at + 1, name.len() as int) =~= ext);
    text::lemma_last_before(0, ext.len() as int, text::holds_char(ext, '.'));
    if let Some(j) = text::last_index(ext, '.') {
        assert(text::holds_char(ext, '.')(j));
        assert(ext.contains('.'));
    }
}

/// Numbering holds no bracket and no dot.
pub proof fn lemma_season_and_episode_is_plain(
    mark: char,
    season: nat,
    season_width: nat,
    episode_mark: char,
    episode: nat,
    episode_width: nat,
)
    requires
        text::is_letter(mark),
        text::is_letter(episode_mark),
    ensures
        ({
            let s = season_and_episode(
                mark,
                season,
                season_width,
                episode_mark,
                episode,
                episode_width,
            );
            &&& without_brackets(s)
            &&& !s.contains('.')
        }),
{
    let s = season_and_episode(mark, season, season_width, episode_mark, episode, episode_width);
    let sd = text::padded(season, season_width);
    let ed = text::padded(episode, episode_width);
    lemma_padded(season, season_width);
    lemma_padded(episode, episode_width);
    assert forall|i: int| 0 <= i < s.len() implies text::is_alnum(#[trigger] s[i]) by {
        if 0 < i < 1 + sd.len() {
            assert(s[i] == sd[i - 1]);
            assert(text::is_digit(sd[i - 1]));
        } else if i > 1 + sd.len() {
            assert(s[i] == ed[i - 2 - sd.len()]);
            assert(text::is_digit(ed[i - 2 - sd.len()]));
        }
    }
    assert forall|i: int| 0 <= i < s.len() implies #[trigger] s[i] != '(' && s[i] != ')' && s[i]
        != '[' && s[i] != ']' by {
        assert(text::is_alnum(s[i]));
    }
    if s.contains('.') {
        let i = choose|i: int| 0 <= i < s.len() && s[i] == '.';
        assert(text::is_alnum(s[i]));
    }
}

/// The first group in brackets is as if it were not there, whatever groups follow
/// it.
pub proof fn law_groups_are_dropped_one_by_one(
    before: Seq<char>,
    group: Seq<char>,
    after: Seq<char>,
    square: bool,
)
    requires
        without_brackets(before),
        without_brackets(group),
        naming::balanced(before + after),
    ensures
        ({
            let (open, close) = if square {
                ('[', ']')
            } else {
                ('(', ')')
            };
            naming::without_groups(before.push(open) + group.push(close) + after)
                == naming::without_groups(before + after)
        }),
{
    let (open, close) = if square {
        ('[', ']')
    } else {
        ('(', ')')
    };
    let opened = before.push(open);
    lemma_no_brackets(before);
    assert(opened.drop_last() =~= before);
    assert(naming::open_brackets(opened) == Some(Seq::<char>::empty().push(open)));
    lemma_inside(opened, group, open, before);
    let closed = opened + group.push(close);
    assert(closed.drop_last() =~= opened + group);
    assert(closed.last() == close);
    assert(Seq::<char>::empty().push(open).drop_last() =~= Seq::<char>::empty());
    assert(naming::open_brackets(closed) == Some(Seq::<char>::empty()));
    assert(naming::outside_brackets(closed) == before);
    lemma_same_from_here(before, closed, after);
}

proof fn lemma_same_from_here(a: Seq<char>, b: Seq<char>, after: Seq<char>)
    requires
        naming::open_brackets(a) == naming::open_brackets(b),
        naming::outside_brackets(a) == naming::outside_brackets(b),
    ensures
        naming::open_brackets(a + after) == naming::open_brackets(b + after),
        naming::outside_brackets(a + after) == naming::outside_brackets(b + after),
    decreases after.len(),
{
    if after.len() == 0 {
        assert(a + after =~= a && b + after =~= b);
    } else {
        lemma_same_from_here(a, b, after.drop_last());
        assert((a + after).drop_last() =~= a + after.drop_last());
        assert((b + after).drop_last() =~= b + after.drop_last());
        assert((a + after).last() == after.last() && (b + after).last() == after.last());
    }
}

proof fn lemma_trimmed_start(s: Seq<char>, set: Seq<char>, i: int)
    requires
        0 <= i < s.len(),
        !set.contains(s[i]),
    ensures
        text::trim_start_set(s, set).len() >= s.len() - i,
        text::trim_start_set(s, set).contains(s[i]),
    decreases s.len(),
{
    if set.contains(s[0]) {
        let rest = s.subrange(1, s.len() as int);
        assert(rest[i - 1] == s[i]);
        lemma_trimmed_start(rest, set, i - 1);
    }
}

/// A name that begins with an `s` and has a letter further on is no folder of a
/// season alone.
proof fn lemma_lettered_is_no_season(l: Seq<char>, at: int)
    requires
        0 < at < l.len(),
        text::is_letter(l[at]),
    ensures
        naming::only_digits(
            text::trim_start_set(l.subrange(1, l.len() as int), naming::joints()),
        ) is None,
{
    let joints = naming::joints();
    let rest = l.subrange(1, l.len() as int);
    let left = text::trim_start_set(rest, joints);
    assert(joints[0] == ' ' && joints[1] == '_' && joints[2] == '.' && joints[3] == '-');
    assert(rest[at - 1] == l[at]);
    if joints.contains(l[at]) {
        let k = choose|k: int| 0 <= k < joints.len() && joints[k] == l[at];
        assert(k == 0 || k == 1 || k == 2 || k == 3);
    }
    lemma_trimmed_start(rest, joints, at - 1);
    if text::all_digits(left) {
        let k = choose|k: int| 0 <= k < left.len() && left[k] == l[at];
        assert(text::is_digit(left[k]));
    }
}

/// The names that only group hold no digit.
proof fn lemma_grouping_names(l: Seq<char>)
    requires
        naming::is_container_name(l),
    ensures
        without_digits(l),
{
    reveal_strlit("movies");
    reveal_strlit("movie");
    reveal_strlit("films");
    reveal_strlit("film");
    reveal_strlit("ova");
    reveal_strlit("ovas");
    reveal_strlit("oad");
    reveal_strlit("oads");
    reveal_strlit("specials");
    reveal_strlit("special");
    reveal_strlit("sp");
    reveal_strlit("extras");
    reveal_strlit("extra");
    reveal_strlit("bonus");
    reveal_strlit("ncop");
    reveal_strlit("nced");
    reveal_strlit("creditless");
    reveal_strlit("subs");
    reveal_strlit("subtitles");
}

/// The characters of a folder that names a series and its season.
proof fn lemma_series_and_season(
    words: Seq<char>,
    joint: Seq<char>,
    keyword: Seq<char>,
    gap: Seq<char>,
    season: nat,
    width: nat,
    i: int,
)
    requires
        is_trailing(joint),
        text::lower(keyword) == "season"@,
        is_leading(gap),
        0 <= i < (words + joint + keyword + gap + text::padded(season, width)).len(),
    ensures
        ({
            let name = words + joint + keyword + gap + text::padded(season, width);
            let a = words.len() as int;
            let b = a + joint.len();
            let c = b + 6;
            let d = c + gap.len();
            &&& keyword.len() == 6
            &&& i < a ==> name[i] == words[i]
            &&& a <= i < b ==> separates(name[i]) || name[i] == '-' || name[i] == '\u{2013}'
            &&& b <= i < c ==> text::is_letter(name[i])
            &&& b < i < c && i != b + 3 ==> name[i] != 's' && name[i] != 'S'
            &&& c <= i < d ==> separates(name[i])
            &&& i >= d ==> text::is_digit(name[i])
        }),
{
    reveal_strlit("season");
    let digits = text::padded(season, width);
    let name = words + joint + keyword + gap + digits;
    lemma_padded(season, width);
    let k = text::lower(keyword);
    assert(keyword.len() == k.len());
    let a = words.len() as int;
    let b = a + joint.len();
    let c = b + 6;
    let d = c + gap.len();
    if a <= i < b {
        assert(name[i] == joint[i - a]);
    } else if b <= i < c {
        assert(name[i] == keyword[i - b]);
        assert(k[i - b] == text::lower_char(keyword[i - b]));
        assert(k[i - b] == "season"@[i - b]);
    } else if c <= i < d {
        assert(name[i] == gap[i - c]);
    } else if i >= d {
        assert(name[i] == digits[i - d]);
        assert(text::is_digit(digits[i - d]));
    }
}

#[verifier::rlimit(40)]
proof fn lemma_series_and_season_is_plain(
    words: Seq<char>,
    joint: Seq<char>,
    keyword: Seq<char>,
    gap: Seq<char>,
    season: nat,
    width: nat,
)
    requires
        is_trailing(joint),
        text::lower(keyword) == "season"@,
        is_leading(gap),
        without_digits(words),
        without_brackets(words),
        text::padded(season, width).len() <= 3,
    ensures
        ({
            let name = words + joint + keyword + gap + text::padded(season, width);
            &&& without_brackets(name)
            &&& without_season_marks(name)
            &&& forall|i: int|
                0 <= i < name.len() - 3 ==> !(text::is_digit(#[trigger] name[i]) && text::is_digit(
                    name[i + 1],
                ) && text::is_digit(name[i + 2]) && text::is_digit(name[i + 3]))
        }),
{
    let name = words + joint + keyword + gap + text::padded(season, width);
    let d = words.len() + joint.len() + 6 + gap.len();
    assert forall|i: int| 0 <= i < name.len() implies #[trigger] name[i] != '(' && name[i] != ')'
        && name[i] != '[' && name[i] != ']' by {
        lemma_series_and_season(words, joint, keyword, gap, season, width, i);
        if i < words.len() {
            assert(words[i] != '(');
        }
    }
    assert forall|i: int| 0 <= i < name.len() - 1 implies !((#[trigger] name[i] == 's' || name[i]
        == 'S') && (i == 0 || !text::is_alnum(name[i - 1])) && text::is_digit(name[i + 1])) by {
        lemma_series_and_season(words, joint, keyword, gap, season, width, i);
        lemma_series_and_season(words, joint, keyword, gap, season, width, i + 1);
        if i + 1 < words.len() {
            assert(!text::is_digit(words[i + 1]));
        }
    }
    assert forall|i: int| 0 <= i < name.len() - 3 implies !(text::is_digit(#[trigger] name[i])
        && text::is_digit(name[i + 1]) && text::is_digit(name[i + 2]) && text::is_digit(
        name[i + 3],
    )) by {
        lemma_series_and_season(words, joint, keyword, gap, season, width, i);
        if i < words.len() {
            assert(!text::is_digit(words[i]));
        }
    }
}

/// Whatever states an episode has one.
proof fn lemma_episode_only(s: Seq<char>)
    ensures
        naming::episode_only_of(s) matches Some(found) ==> found.episode is Some,
{
    let l = text::lower(s);
    text::lemma_first_from(0, l.len() as int, naming::cross_settles(l));
    text::lemma_last_before(0, s.len() as int, naming::dash_introduces(s));
    text::lemma_first_from(0, s.len() as int, naming::marker_stands(s));
}

/// A folder called `Series - Season 3` names the series and states its season.
#[verifier::rlimit(40)]
pub proof fn law_a_folder_can_name_a_series_and_its_season(
    words: Seq<char>,
    joint: Seq<char>,
    keyword: Seq<char>,
    gap: Seq<char>,
    season: nat,
    width: nat,
)
    requires
        is_wording(words),
        is_trailing(joint),
        joint.len() > 0,
        text::lower(keyword) == "season"@,
        is_leading(gap),
        season > 0,
        text::padded(season, width).len() <= 3,
        without_digits(words),
        without_brackets(words),
        ({
            let name = words + joint + keyword + gap + text::padded(season, width);
            &&& naming::stem(name) == name
            &&& naming::parsed(name).episode is None
            &&& forall|j: int|
                0 <= j < words.len() + joint.len() ==> !#[trigger] text::stands_at(
                    text::lower(name),
                    "season"@,
                    j,
                )
        }),
    ensures
        naming::folder_role(words + joint + keyword + gap + text::padded(season, width))
            matches FolderView::Title(series) && is_worded(series.title, words) && series.season
            == Some(season as u32),
{
    let name = words + joint + keyword + gap + text::padded(season, width);
    let at = (words.len() + joint.len()) as int;
    lemma_series_season_stands(words, joint, keyword, gap, season, width);
    lemma_series_and_season_is_plain(words, joint, keyword, gap, season, width);
    law_a_plain_name_is_read_whole(name);
    lemma_no_season_marks(name);
    lemma_episode_only(name);
    law_no_year_is_made_up(name);
    lemma_title_before(name, words, joint);
    lemma_no_season_folder(name, at);
}

/// Where the season of such a folder stands.
#[verifier::rlimit(40)]
proof fn lemma_series_season_stands(
    words: Seq<char>,
    joint: Seq<char>,
    keyword: Seq<char>,
    gap: Seq<char>,
    season: nat,
    width: nat,
)
    requires
        is_wording(words),
        is_trailing(joint),
        joint.len() > 0,
        text::lower(keyword) == "season"@,
        is_leading(gap),
        season > 0,
        text::padded(season, width).len() <= 3,
        ({
            let name = words + joint + keyword + gap + text::padded(season, width);
            forall|j: int|
                0 <= j < words.len() + joint.len() ==> !#[trigger] text::stands_at(
                    text::lower(name),
                    "season"@,
                    j,
                )
        }),
    ensures
        ({
            let name = words + joint + keyword + gap + text::padded(season, width);
            let at = words.len() + joint.len();
            &&& season <= 9999
            &&& at + 6 <= name.len()
            &&& text::trim(name) == name
            &&& text::is_digit(name.last())
            &&& name.take(at as int) == words + joint
            &&& text::stands_at(text::lower(name), "season"@, at as int)
            &&& naming::worded_season_of(name) == Some(
                Found {
                    season: Some(season as u32),
                    episode: None,
                    start: at as int,
                    end: name.len() as int,
                },
            )
        }),
{
    let digits = text::padded(season, width);
    let name = words + joint + keyword + gap + digits;
    let before = words + joint;
    let none = Seq::<char>::empty();
    lemma_padded(season, width);
    lemma_series_and_season(words, joint, keyword, gap, season, width, 0);
    assert(name =~= before + keyword + gap + digits + none);
    assert(text::is_digit(digits[digits.len() - 1]));
    assert(name[0] == words[0]);
    assert(name.last() == digits[digits.len() - 1]);
    assert(text::trim(name) == name);
    assert(before.last() == joint[joint.len() - 1]);
    assert(separates(joint[joint.len() - 1]) || joint[joint.len() - 1] == '-' || joint[joint.len()
        - 1] == '\u{2013}');
    lemma_worded(name, before, keyword, gap, season, width, none);
    assert(name.take(before.len() as int) =~= before);
    assert(name.subrange(before.len() as int, before.len() as int + 6) =~= keyword);
    lemma_keyword_stands(name, keyword, before.len() as int);
}

/// The title of a name whose numbering begins behind its words.
proof fn lemma_title_before(name: Seq<char>, words: Seq<char>, joint: Seq<char>)
    requires
        naming::without_groups(naming::stem(name)) == name,
        naming::numbering_of(name) matches Some(found) && found.start == words.len() + joint.len(),
        name.take((words.len() + joint.len()) as int) == words + joint,
        is_wording(words),
        is_trailing(joint),
        naming::parsed(name).year is None,
    ensures
        is_worded(naming::parsed(name).title, words),
{
    let none = Seq::<char>::empty();
    assert(words + joint =~= none + words + joint);
    lemma_clean_words(none, words, joint, None);
}

/// A folder whose season is stated behind something else is not called by the
/// season alone, and is none of the grouping ones.
proof fn lemma_no_season_folder(name: Seq<char>, at: int)
    requires
        0 < at,
        at + 6 <= name.len(),
        naming::worded_season_of(name) matches Some(found) && found.start == at,
        text::is_digit(name.last()),
        text::stands_at(text::lower(name), "season"@, at),
        !text::stands_at(text::lower(name), "season"@, 0),
    ensures
        naming::season_folder_of(text::lower(name)) is None,
        !naming::is_container_name(text::lower(name)),
{
    reveal_strlit("season");
    let l = text::lower(name);
    lemma_lower_keeps(name);
    text::lemma_lower_idempotent(name);
    text::lemma_prefix_stands(l, "season"@);
    assert(l.subrange(at, at + 6)[0] == l[at]);
    lemma_lettered_is_no_season(l, at);
    assert(text::is_digit(l[l.len() - 1]));
    if naming::is_container_name(l) {
        lemma_grouping_names(l);
    }
}

/// `Movie Title (2019)` is a film of that title and that year, and of nothing else.
#[verifier::rlimit(40)]
pub proof fn law_a_film_has_its_title_and_its_year(
    name: Seq<char>,
    words: Seq<char>,
    gap: Seq<char>,
    square: bool,
    year: nat,
)
    requires
        ({
            let (open, close) = if square {
                ('[', ']')
            } else {
                ('(', ')')
            };
            naming::stem(name) == words + gap + seq![open] + text::decimal(year) + seq![close]
        }),
        is_wording(words),
        is_trailing(gap),
        without_digits(words),
        without_brackets(words),
        1900 <= year <= 2999,
    ensures
        is_worded(naming::parsed(name).title, words),
        naming::parsed(name).year == Some(year as u32),
        naming::parsed(name).season is None,
        naming::parsed(name).episode is None,
        naming::parsed(name).episode_title is None,
{
    let (open, close) = if square {
        ('[', ']')
    } else {
        ('(', ')')
    };
    let s = naming::stem(name);
    let before = words + gap;
    let none = Seq::<char>::empty();
    let digits = text::decimal(year);
    lemma_year(year);
    assert(without_brackets(before) && without_digits(before)) by {
        assert forall|i: int| 0 <= i < before.len() implies #[trigger] before[i] != '('
            && before[i] != ')' && before[i] != '[' && before[i] != ']' && !text::is_digit(
            before[i],
        ) by {
            if i < words.len() {
                assert(before[i] == words[i]);
                assert(words[i] != '(' && !text::is_digit(words[i]));
            } else {
                let k = i - words.len();
                assert(before[i] == gap[k]);
                assert(separates(gap[k]) || gap[k] == '-' || gap[k] == '\u{2013}');
            }
        }
    }
    assert(without_brackets(digits)) by {
        assert forall|i: int| 0 <= i < digits.len() implies #[trigger] digits[i] != '('
            && digits[i] != ')' && digits[i] != '[' && digits[i] != ']' by {
            assert(text::is_digit(digits[i]));
        }
    }
    assert(s =~= before + seq![open] + digits + seq![close] + none);
    law_a_bracketed_year_is_read(name, before, open, year, close, none);
    assert(s =~= before.push(open) + digits.push(close) + none);
    law_a_group_is_dropped(before, digits, none, square);
    assert(before + none =~= before);
    lemma_without_digits(before);
    assert(before.take(before.len() as int) =~= none + words + gap);
    lemma_clean_words(none, words, gap, Some(year as u32));
}

/// A folder called `3rd Season` states that season and nothing else.
#[verifier::rlimit(40)]
pub proof fn law_an_ordinal_season_folder_states_its_season(
    season: nat,
    width: nat,
    suffix: Seq<char>,
    gap: Seq<char>,
    keyword: Seq<char>,
)
    requires
        text::lower(keyword) == "season"@,
        ({
            let l = text::lower(suffix);
            l == "st"@ || l == "nd"@ || l == "rd"@ || l == "th"@
        }),
        forall|i: int| 0 <= i < gap.len() ==> separates(#[trigger] gap[i]) || gap[i] == '-',
        gap.len() > 0,
        season > 0,
        text::padded(season, width).len() <= 2,
    ensures
        naming::folder_role(text::padded(season, width) + suffix + gap + keyword)
            == FolderView::Season(season as u32),
{
    let digits = text::padded(season, width);
    let name = digits + suffix + gap + keyword;
    let none = Seq::<char>::empty();
    let l = text::lower(name);
    lemma_padded(season, width);
    lemma_suffix(suffix);
    assert(name =~= none + digits + suffix + gap + keyword + none);
    lemma_ordinal_ends(digits, suffix, gap, keyword);
    assert forall|j: int| 0 <= j < digits.len() + 2 + gap.len() implies !#[trigger] text::stands_at(
        l,
        "season"@,
        j,
    ) by {
        lemma_ordinal_front(digits, suffix, gap, keyword, j);
    }
    lemma_ordinal(name, none, season, width, suffix, gap, keyword, none);
    lemma_whole_season_folder(name, season as u32);
}

/// A name that is its season from one end to the other is a folder of it.
proof fn lemma_whole_season_folder(name: Seq<char>, season: u32)
    requires
        text::trim(name) == name,
        naming::worded_season_of(name) == Some(
            Found { season: Some(season), episode: None, start: 0, end: name.len() as int },
        ),
    ensures
        naming::folder_role(name) == FolderView::Season(season),
{
    let l = text::lower(name);
    text::lemma_lower_idempotent(name);
    let none = Seq::<char>::empty();
    assert(l.subrange(name.len() as int, l.len() as int) =~= none);
    assert(text::trim(none) =~= none);
}

/// Nothing white stands at either end of `3rd Season`.
proof fn lemma_ordinal_ends(
    digits: Seq<char>,
    suffix: Seq<char>,
    gap: Seq<char>,
    keyword: Seq<char>,
)
    requires
        digits.len() > 0,
        text::all_digits(digits),
        text::lower(keyword) == "season"@,
    ensures
        text::trim(digits + suffix + gap + keyword) == digits + suffix + gap + keyword,
{
    reveal_strlit("season");
    let name = digits + suffix + gap + keyword;
    let k = text::lower(keyword);
    assert(keyword.len() == k.len());
    assert(text::is_digit(digits[0]));
    assert(name[0] == digits[0]);
    assert(name.last() == keyword[5]);
    assert(k[5] == text::lower_char(keyword[5]) && "season"@[5] == 'n');
}

/// The word `season` does not stand in what comes before it.
proof fn lemma_ordinal_front(
    digits: Seq<char>,
    suffix: Seq<char>,
    gap: Seq<char>,
    keyword: Seq<char>,
    j: int,
)
    requires
        text::all_digits(digits),
        suffix.len() == 2,
        gap.len() > 0,
        forall|i: int| 0 <= i < gap.len() ==> separates(#[trigger] gap[i]) || gap[i] == '-',
        0 <= j < digits.len() + 2 + gap.len(),
    ensures
        !text::stands_at(text::lower(digits + suffix + gap + keyword), "season"@, j),
{
    reveal_strlit("season");
    let name = digits + suffix + gap + keyword;
    let l = text::lower(name);
    lemma_lower_keeps(name);
    let n = digits.len() as int;
    let at = n + 2 + gap.len();
    if text::stands_at(l, "season"@, j) {
        let sub = l.subrange(j, j + 6);
        // A digit, or one of the separators, would stand inside the word.
        let i = if j < n {
            j
        } else if at - 1 < j + 6 {
            at - 1
        } else {
            j + 5
        };
        assert(sub[i - j] == l[i]);
        assert(text::is_letter("season"@[i - j]));
        if j < n {
            assert(name[i] == digits[i]);
            assert(text::is_digit(digits[i]));
        } else {
            assert(name[i] == gap[i - n - 2]);
            assert(separates(gap[i - n - 2]) || gap[i - n - 2] == '-');
        }
    }
}

/// What only states a season is told from what names something: `Season 2`, `S03`
/// and the like are markers, and words without a digit are not.
#[verifier::rlimit(40)]
pub proof fn law_a_season_marker_is_told_from_a_name(
    keyword: Seq<char>,
    gap: Seq<char>,
    season: nat,
    width: nat,
    words: Seq<char>,
)
    requires
        text::lower(keyword) == "season"@ || text::lower(keyword) == seq!['s'],
        forall|i: int| 0 <= i < gap.len() ==> separates(#[trigger] gap[i]) || gap[i] == '-',
        season <= u32::MAX,
        is_wording(words),
        without_digits(words),
        without_brackets(words),
    ensures
        naming::states_only_a_season(keyword + gap + text::padded(season, width)),
        !naming::states_only_a_season(words),
{
    reveal_strlit("season");
    let name = keyword + gap + text::padded(season, width);
    law_a_season_folder_states_its_season(keyword, gap, season, width);
    lemma_padded(season, width);
    let digits = text::padded(season, width);
    assert(keyword.len() == text::lower(keyword).len());
    assert(text::lower(keyword)[0] == text::lower_char(keyword[0]));
    assert(text::is_digit(digits[digits.len() - 1]));
    assert(name[0] == keyword[0]);
    assert(name.last() == digits[digits.len() - 1]);
    assert(text::trim(name) == name);
    assert(text::trim(words) == words);
    lemma_without_digits(words);
    lemma_stem_without_digits(words);
}

/// What stands before an extension has no digit where the name has none.
proof fn lemma_stem_without_digits(s: Seq<char>)
    requires
        without_digits(s),
        without_brackets(s),
    ensures
        naming::parsed(s).season is None,
{
    let st = naming::stem(s);
    text::lemma_last_before(0, s.len() as int, text::holds_char(s, '.'));
    assert(without_digits(st)) by {
        assert forall|i: int| 0 <= i < st.len() implies !text::is_digit(#[trigger] st[i]) by {
            assert(st[i] == s[i]);
        }
    }
    assert(without_brackets(st)) by {
        assert forall|i: int| 0 <= i < st.len() implies #[trigger] st[i] != '(' && st[i] != ')'
            && st[i] != '[' && st[i] != ']' by {
            assert(st[i] == s[i]);
            assert(s[i] != '(');
        }
    }
    law_a_plain_name_is_read_whole(st);
    lemma_without_digits(st);
}

/// The title of a text whose numbering begins behind its words.
proof fn lemma_title_at(name: Seq<char>, words: Seq<char>, joint: Seq<char>)
    requires
        ({
            let s = naming::without_groups(naming::stem(name));
            &&& naming::numbering_of(s) matches Some(found) && found.start == words.len()
                + joint.len()
            &&& s.take((words.len() + joint.len()) as int) == words + joint
        }),
        is_wording(words),
        is_trailing(joint),
        naming::parsed(name).year is None || without_digits(words),
    ensures
        is_worded(naming::parsed(name).title, words),
{
    let none = Seq::<char>::empty();
    assert(words + joint =~= none + words + joint);
    lemma_clean_words(none, words, joint, naming::parsed(name).year);
}

/// Where a season and an episode are stated apart, the title ends at whichever
/// comes first.
#[verifier::rlimit(40)]
pub proof fn law_the_title_ends_at_the_first_number(
    name: Seq<char>,
    words: Seq<char>,
    joint: Seq<char>,
    mark: char,
    season: nat,
    season_width: nat,
    between: Seq<char>,
    gap: Seq<char>,
    episode: nat,
    width: nat,
    after: Seq<char>,
)
    requires
        naming::without_groups(naming::stem(name)) == words + joint + seq![mark] + text::padded(
            season,
            season_width,
        ) + between + dashed(gap, episode, width) + after,
        mark == 's' || mark == 'S',
        text::padded(season, season_width).len() <= 4,
        is_wording(words),
        is_trailing(joint),
        joint.len() > 0,
        without_season_marks(words + joint),
        between.len() > 0,
        begins_no_word(between),
        is_leading(gap),
        text::padded(episode, width).len() <= 4,
        after.len() == 0 || after[0] == 'v' || !text::is_alnum(after[0]),
        !after.contains('-'),
        without_cross_marks(naming::without_groups(naming::stem(name))),
        naming::parsed(name).year is None || without_digits(words),
    ensures
        is_worded(naming::parsed(name).title, words),
        naming::parsed(name).season == Some(season as u32),
        naming::parsed(name).episode == Some(episode as u32),
{
    let s = naming::without_groups(naming::stem(name));
    let before = words + joint;
    let sd = text::padded(season, season_width);
    let at = before.len() as int;
    assert(before.last() == joint[joint.len() - 1]);
    assert(separates(joint[joint.len() - 1]) || joint[joint.len() - 1] == '-' || joint[joint.len()
        - 1] == '\u{2013}');
    let front = before + seq![mark] + sd + between;
    lemma_dashed(s, front, gap, episode, width, after);
    assert(s[at] == mark);
    assert(s.subrange(at + 1, at + 1 + sd.len()) =~= sd);
    assert(s[at + 1 + sd.len()] == between[0]);
    assert(s[at - 1] == before.last());
    assert(s.take(at) =~= before);
    lemma_season_alone(s, at, season, season_width);
    lemma_title_at(name, words, joint);
}

/// `Show - 04 S2`: the episode can come first, and then the title ends there.
#[verifier::rlimit(40)]
pub proof fn law_a_dashed_episode_can_come_before_its_season(
    name: Seq<char>,
    words: Seq<char>,
    joint: Seq<char>,
    gap: Seq<char>,
    episode: nat,
    width: nat,
    between: Seq<char>,
    mark: char,
    season: nat,
    season_width: nat,
)
    requires
        naming::without_groups(naming::stem(name)) == words + joint + dashed(gap, episode, width)
            + (between + seq![mark] + text::padded(season, season_width)),
        mark == 's' || mark == 'S',
        text::padded(season, season_width).len() <= 4,
        is_wording(words),
        is_trailing(joint),
        is_leading(gap),
        text::padded(episode, width).len() <= 4,
        between.len() > 0,
        begins_no_word(between),
        ends_a_word(between),
        !between.contains('-'),
        without_season_marks(words + joint + dashed(gap, episode, width) + between),
        without_cross_marks(naming::without_groups(naming::stem(name))),
        naming::parsed(name).year is None || without_digits(words),
    ensures
        is_worded(naming::parsed(name).title, words),
        naming::parsed(name).season == Some(season as u32),
        naming::parsed(name).episode == Some(episode as u32),
{
    let s = naming::without_groups(naming::stem(name));
    let sd = text::padded(season, season_width);
    let after = between + seq![mark] + sd;
    let before = words + joint;
    lemma_padded(season, season_width);
    assert(after[0] == between[0]);
    assert(!after.contains('-')) by {
        if after.contains('-') {
            let i = choose|i: int| 0 <= i < after.len() && after[i] == '-';
            if i < between.len() {
                assert(between[i] == '-');
            } else if i > between.len() {
                assert(text::is_digit(sd[i - between.len() - 1]));
            }
        }
    }
    lemma_dashed(s, before, gap, episode, width, after);
    let front = before + dashed(gap, episode, width) + between;
    let at = front.len() as int;
    assert(s =~= front + seq![mark] + sd);
    assert(s[at] == mark);
    assert(s.subrange(at + 1, at + 1 + sd.len()) =~= sd);
    assert(s[at - 1] == between.last());
    assert(s.take(at) =~= front);
    lemma_season_alone(s, at, season, season_width);
    assert(s.take(before.len() as int) =~= before);
    lemma_title_at(name, words, joint);
}

/// A folder called `Series Season-3`, where nothing else reads the season, names
/// the series and states its season all the same.
#[verifier::rlimit(40)]
pub proof fn law_a_trailing_season_is_read(
    words: Seq<char>,
    joint: Seq<char>,
    keyword: Seq<char>,
    gap: Seq<char>,
    season: nat,
    width: nat,
)
    requires
        is_wording(words),
        forall|i: int| 0 <= i < joint.len() ==> separates(#[trigger] joint[i]) || joint[i] == '-',
        joint.len() > 0,
        text::lower(keyword) == "season"@,
        forall|i: int| 0 <= i < gap.len() ==> separates(#[trigger] gap[i]) || gap[i] == '-',
        season <= u32::MAX,
        without_digits(words),
        without_brackets(words),
        naming::stem(words) == words,
        text::is_alnum(words.last()),
        ({
            let name = words + joint + keyword + gap + text::padded(season, width);
            &&& naming::parsed(name).season is None
            &&& naming::season_folder_of(text::lower(name)) is None
        }),
    ensures
        naming::folder_role(words + joint + keyword + gap + text::padded(season, width))
            matches FolderView::Title(series) && is_worded(series.title, words) && series.season
            == Some(season as u32),
{
    reveal_strlit("season");
    let digits = text::padded(season, width);
    let head = words + joint + keyword + gap;
    let name = head + digits;
    let n = head.len() as int;
    lemma_padded(season, width);
    assert(keyword.len() == text::lower(keyword).len());
    assert(text::is_digit(digits[digits.len() - 1]));
    assert(name[0] == words[0]);
    assert(name.last() == digits[digits.len() - 1]);
    assert(text::trim(name) == name);
    assert(text::trim_end(name) == name);
    assert forall|i: int| n <= i < name.len() implies text::is_digit(#[trigger] name[i]) by {
        assert(name[i] == digits[i - n]);
        assert(text::is_digit(digits[i - n]));
    }
    lemma_head_ends_without_digit(words, joint, keyword, gap);
    assert(name[n - 1] == head.last());
    lemma_digits_start(name, n, name.len() as int);
    assert(name.take(n) =~= head);
    assert(name.subrange(n, name.len() as int) =~= digits);
    lemma_series_before(words, joint, keyword, gap);
    law_a_name_without_numbers_is_a_title(words, words);
    lemma_lower_keeps(name);
    assert(text::is_digit(text::lower(name)[name.len() - 1]));
    if naming::is_container_name(text::lower(name)) {
        lemma_grouping_names(text::lower(name));
    }
}

/// What stands before the digits ends in none.
proof fn lemma_head_ends_without_digit(
    words: Seq<char>,
    joint: Seq<char>,
    keyword: Seq<char>,
    gap: Seq<char>,
)
    requires
        text::lower(keyword) == "season"@,
        forall|i: int| 0 <= i < gap.len() ==> separates(#[trigger] gap[i]) || gap[i] == '-',
    ensures
        !text::is_digit((words + joint + keyword + gap).last()),
        (words + joint + keyword + gap).last() != 's',
        (words + joint + keyword + gap).last() != 'S',
        keyword.len() == 6,
        text::is_alnum(keyword[5]),
{
    reveal_strlit("season");
    let k = text::lower(keyword);
    assert(keyword.len() == k.len());
    assert(k[5] == text::lower_char(keyword[5]) && "season"@[5] == 'n');
    let head = words + joint + keyword + gap;
    if gap.len() > 0 {
        assert(head.last() == gap[gap.len() - 1]);
        assert(separates(gap[gap.len() - 1]) || gap[gap.len() - 1] == '-');
    } else {
        assert(head.last() == keyword[5]);
    }
}

/// The series in front of the word.
proof fn lemma_series_before(
    words: Seq<char>,
    joint: Seq<char>,
    keyword: Seq<char>,
    gap: Seq<char>,
)
    requires
        words.len() > 0,
        text::is_alnum(words.last()),
        forall|i: int| 0 <= i < joint.len() ==> separates(#[trigger] joint[i]) || joint[i] == '-',
        text::lower(keyword) == "season"@,
        forall|i: int| 0 <= i < gap.len() ==> separates(#[trigger] gap[i]) || gap[i] == '-',
    ensures
        naming::series_before(words + joint + keyword + gap) == Some(words),
{
    reveal_strlit("season");
    let head = words + joint + keyword + gap;
    let spelled = words + joint + keyword;
    lemma_head_ends_without_digit(words, joint, keyword, gap);
    assert(spelled.last() == keyword[5]);
    lemma_trim_joints(spelled, gap);
    let l = text::lower(spelled);
    let n = (words.len() + joint.len()) as int;
    assert(l.subrange(n, n + 6) =~= text::lower(keyword)) by {
        assert forall|i: int| 0 <= i < 6 implies #[trigger] l.subrange(n, n + 6)[i] == text::lower(
            keyword,
        )[i] by {
            assert(spelled[n + i] == keyword[i]);
        }
    }
    text::lemma_prefix_stands(l, "season"@);
    assert(spelled.take(spelled.len() - 6) =~= words + joint);
    lemma_trim_joints(words, joint);
}

} // verus!
