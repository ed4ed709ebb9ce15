//! The names titles are filed and shelved under.

use vstd::prelude::*;
use vstd::slice::slice_subrange;

use crate::text::chars_stand_at;
use crate::text::from_chars;
use crate::text::to_chars;
use crate::unicode::char_lowercase;
use crate::text;
use crate::unicode;

verus! {

/// What one character of a title contributes to its key.
#[derive(Debug, Clone, PartialEq, Eq)]
pub enum KeyPart {
    /// Nothing: an apostrophe closes up rather than separating.
    Silent,
    /// These letters, lowered.
    Letters(Vec<char>),
    /// A gap between words.
    Gap,
}

/// A [`KeyPart`] with its letters taken as a sequence.
pub enum KeyPartView {
    Silent,
    Letters(Seq<char>),
    Gap,
}

impl View for KeyPart {
    type V = KeyPartView;

    open spec fn view(&self) -> KeyPartView {
        match *self {
            KeyPart::Silent => KeyPartView::Silent,
            KeyPart::Letters(v) => KeyPartView::Letters(v@),
            KeyPart::Gap => KeyPartView::Gap,
        }
    }
}

/// The parts as the key sees them.
pub open spec fn part_views(parts: Seq<KeyPart>) -> Seq<KeyPartView> {
    Seq::new(parts.len(), |i: int| parts[i]@)
}

/// Whether a gap is open after `parts`: nothing but silence since it.
pub open spec fn gap_open(parts: Seq<KeyPartView>) -> bool
    decreases parts.len(),
{
    if parts.len() == 0 {
        false
    } else {
        match parts.last() {
            KeyPartView::Silent => gap_open(parts.drop_last()),
            KeyPartView::Letters(_) => false,
            KeyPartView::Gap => true,
        }
    }
}

/// The letters of `parts`, with one space where a gap stands between two of
/// them.
pub open spec fn joined(parts: Seq<KeyPartView>) -> Seq<char>
    decreases parts.len(),
{
    if parts.len() == 0 {
        Seq::empty()
    } else {
        let front = joined(parts.drop_last());
        match parts.last() {
            KeyPartView::Letters(letters) => if gap_open(parts.drop_last()) && front.len() > 0 {
                front.push(' ') + letters
            } else {
                front + letters
            },
            _ => front,
        }
    }
}

pub open spec fn is_apostrophe(c: char) -> bool {
    c == '\'' || c == '\u{2019}' || c == '\u{02bc}'
}

/// What a character contributes to the key of the title it stands in.
pub open spec fn part_of(c: char) -> KeyPartView {
    if is_apostrophe(c) {
        KeyPartView::Silent
    } else if unicode::alphanumeric(c) {
        KeyPartView::Letters(unicode::lowercase(c))
    } else {
        KeyPartView::Gap
    }
}

/// The key of a title.
pub open spec fn title_key_of(title: Seq<char>) -> Seq<char> {
    joined(Seq::new(title.len(), |i: int| part_of(title[i])))
}

/// Put the parts of a title together into its key.
pub fn join_key(parts: &[KeyPart]) -> (r: String)
    ensures
        r@ == joined(part_views(parts@)),
{
    let mut key: Vec<char> = Vec::new();
    let mut pending_space: bool = false;
    let mut i: usize = 0;
    let ghost views = part_views(parts@);
    assert(views.take(0) =~= Seq::<KeyPartView>::empty());
    while i < parts.len()
        invariant
            i <= parts@.len(),
            views == part_views(parts@),
            key@ == joined(views.take(i as int)),
            pending_space == gap_open(views.take(i as int)),
        decreases parts.len() - i,
    {
        assert(views.take(i + 1).drop_last() =~= views.take(i as int));
        assert(views.take(i + 1).last() == parts@[i as int]@);
        match &parts[i] {
            KeyPart::Silent => {},
            KeyPart::Letters(letters) => {
                let ghost front = key@;
                if pending_space && key.len() > 0 {
                    key.push(' ');
                }
                let ghost spaced = key@;
                pending_space = false;
                let mut copy = text::copy_chars(letters);
                key.append(&mut copy);
                assert(key@ =~= spaced + letters@);
            },
            KeyPart::Gap => {
                pending_space = true;
            },
        }
        i += 1;
    }
    assert(views.take(views.len() as int) =~= views);
    from_chars(&key)
}

/// The grouping key: case- and punctuation-insensitive, so `Fullmetal
/// Alchemist: Brotherhood` and `Fullmetal Alchemist Brotherhood` are one title.
///
/// An apostrophe is the one punctuation mark that closes up rather than
/// separating: `Heaven's Feel` keys as `heavens feel`, which is what a folder
/// that had to give its apostrophe up to the filesystem is called.
pub fn title_key(title: &str) -> (r: String)
    ensures
        r@ == title_key_of(title@),
{
    let chars = to_chars(title);
    let mut parts: Vec<KeyPart> = Vec::new();
    let mut i: usize = 0;
    while i < chars.len()
        invariant
            i <= chars@.len(),
            chars@ == title@,
            parts@.len() == i,
            forall|j: int| 0 <= j < i ==> (#[trigger] parts@[j])@ == part_of(chars@[j]),
        decreases chars.len() - i,
    {
        let c = chars[i];
        if c == '\'' || c == '\u{2019}' || c == '\u{02bc}' {
            parts.push(KeyPart::Silent);
        } else if c.is_alphanumeric() {
            parts.push(KeyPart::Letters(char_lowercase(c)));
        } else {
            parts.push(KeyPart::Gap);
        }
        i += 1;
    }
    assert(part_views(parts@) =~= Seq::new(title@.len(), |i: int| part_of(title@[i])));
    join_key(&parts)
}

/// A lowered name without the article in front of it.
pub open spec fn without_article_of(lower: Seq<char>) -> Seq<char> {
    if "the "@.is_prefix_of(lower) {
        lower.subrange(4, lower.len() as int)
    } else if "a "@.is_prefix_of(lower) {
        lower.subrange(2, lower.len() as int)
    } else if "an "@.is_prefix_of(lower) {
        lower.subrange(3, lower.len() as int)
    } else {
        lower
    }
}

/// What a title is shelved under.
pub open spec fn sort_name_of(name: Seq<char>) -> Seq<char> {
    without_article_of(unicode::lower_text(name))
}

/// Drop a leading article from a lowered name.
pub fn without_article(lower: &str) -> (r: String)
    ensures
        r@ == without_article_of(lower@),
{
    let v = to_chars(lower);
    let the = to_chars("the ");
    let a = to_chars("a ");
    let an = to_chars("an ");
    proof {
        reveal_strlit("the ");
        reveal_strlit("a ");
        reveal_strlit("an ");
        text::lemma_prefix_stands(v@, "the "@);
        text::lemma_prefix_stands(v@, "a "@);
        text::lemma_prefix_stands(v@, "an "@);
    }
    if chars_stand_at(&v, &the, 0) {
        from_chars(slice_subrange(&v, 4, v.len()))
    } else if chars_stand_at(&v, &a, 0) {
        from_chars(slice_subrange(&v, 2, v.len()))
    } else if chars_stand_at(&v, &an, 0) {
        from_chars(slice_subrange(&v, 3, v.len()))
    } else {
        from_chars(&v)
    }
}

/// Sort key for the shelf: case-insensitive, and a leading article ignored, so
/// `The Expanse` files under E where a viewer looks for it.
pub fn sort_name(name: &str) -> (r: String)
    ensures
        r@ == sort_name_of(name@),
{
    let lower = name.to_lowercase();
    without_article(lower.as_str())
}

// ---------------------------------------------------------------------------
// What holds of every key
// ---------------------------------------------------------------------------

/// `s` without its apostrophes.
pub open spec fn without_apostrophes(s: Seq<char>) -> Seq<char>
    decreases s.len(),
{
    if s.len() == 0 {
        s
    } else if is_apostrophe(s.last()) {
        without_apostrophes(s.drop_last())
    } else {
        without_apostrophes(s.drop_last()).push(s.last())
    }
}

pub open spec fn parts_of(s: Seq<char>) -> Seq<KeyPartView> {
    Seq::new(s.len(), |i: int| part_of(s[i]))
}

/// A title that lost its apostrophes to a filesystem is still the same title.
pub proof fn law_apostrophes_do_not_matter(title: Seq<char>)
    ensures
        title_key_of(without_apostrophes(title)) == title_key_of(title),
        gap_open(parts_of(without_apostrophes(title))) == gap_open(parts_of(title)),
    decreases title.len(),
{
    let bare = without_apostrophes(title);
    assert(title_key_of(title) == joined(parts_of(title)));
    assert(title_key_of(bare) == joined(parts_of(bare)));
    if title.len() > 0 {
        let front = title.drop_last();
        law_apostrophes_do_not_matter(front);
        assert(title_key_of(front) == joined(parts_of(front)));
        assert(parts_of(title).drop_last() =~= parts_of(front));
        if !is_apostrophe(title.last()) {
            let bare_front = without_apostrophes(front);
            assert(title_key_of(bare_front) == joined(parts_of(bare_front)));
            assert(parts_of(bare).drop_last() =~= parts_of(bare_front));
            assert(bare.last() == title.last());
        }
    }
}

/// Two titles that differ only in punctuation and in case have one key: at every
/// position both have an apostrophe, or both a letter or digit of the same
/// lowercase form, or both neither.
pub proof fn law_case_and_punctuation_do_not_matter(a: Seq<char>, b: Seq<char>)
    requires
        a.len() == b.len(),
        forall|i: int|
            0 <= i < a.len() ==> {
                ||| is_apostrophe(#[trigger] a[i]) && is_apostrophe(b[i])
                ||| {
                    &&& !is_apostrophe(a[i]) && !is_apostrophe(b[i])
                    &&& unicode::alphanumeric(a[i]) == unicode::alphanumeric(b[i])
                    &&& unicode::alphanumeric(a[i]) ==> unicode::lowercase(a[i])
                        == unicode::lowercase(b[i])
                }
            },
    ensures
        title_key_of(a) == title_key_of(b),
{
    assert(Seq::new(a.len(), |i: int| part_of(a[i])) =~= Seq::new(
        b.len(),
        |i: int| part_of(b[i]),
    ));
}

/// Whether a text has the shape of a key: small letters and digits of ASCII, in
/// words with one space between them and none around them.
pub open spec fn is_key(k: Seq<char>) -> bool {
    &&& forall|i: int|
        0 <= i < k.len() ==> 'a' <= #[trigger] k[i] <= 'z' || text::is_digit(k[i]) || k[i] == ' '
    &&& k.len() > 0 ==> k[0] != ' ' && k.last() != ' '
    &&& forall|i: int| 0 < i < k.len() ==> !(k[i - 1] == ' ' && #[trigger] k[i] == ' ')
}

/// A character of ASCII contributes nothing, a gap, or one small letter or digit.
proof fn lemma_part_of_ascii(c: char)
    requires
        unicode::is_ascii(c),
    ensures
        part_of(c) is Letters ==> part_of(c)->Letters_0 == seq![text::lower_char(c)] && (
        'a' <= text::lower_char(c) <= 'z' || text::is_digit(text::lower_char(c))),
{
}

/// The key of a title in ASCII has the shape of one.
proof fn lemma_key_shape(title: Seq<char>)
    requires
        unicode::all_ascii(title),
    ensures
        is_key(title_key_of(title)),
    decreases title.len(),
{
    let k = title_key_of(title);
    assert(k == joined(parts_of(title)));
    if title.len() > 0 {
        let front = title.drop_last();
        assert(unicode::is_ascii(title[title.len() - 1]));
        assert forall|i: int| 0 <= i < front.len() implies unicode::is_ascii(#[trigger] front[i]) by {
            assert(unicode::is_ascii(title[i]));
        }
        lemma_key_shape(front);
        lemma_part_of_ascii(title.last());
        assert(title_key_of(front) == joined(parts_of(front)));
        assert(parts_of(title).drop_last() =~= parts_of(front));
        assert(parts_of(title).last() == part_of(title.last()));
    }
}

/// What has the shape of a key is cut into the words it is made of: its first
/// `n` characters are their own key, but for a space that they end with.
proof fn lemma_key_of_key(k: Seq<char>, n: int)
    requires
        is_key(k),
        0 <= n <= k.len(),
    ensures
        ({
            let p = k.take(n);
            let spaced = n > 0 && k[n - 1] == ' ';
            &&& gap_open(parts_of(p)) == spaced
            &&& joined(parts_of(p)) == if spaced {
                k.take(n - 1)
            } else {
                p
            }
        }),
    decreases n,
{
    let p = k.take(n);
    if n == 0 {
        assert(p =~= Seq::empty());
    } else {
        lemma_key_of_key(k, n - 1);
        let front = k.take(n - 1);
        let c = k[n - 1];
        assert(p.drop_last() =~= front);
        assert(parts_of(p).drop_last() =~= parts_of(front));
        assert(parts_of(p).last() == part_of(c));
        assert(unicode::is_ascii(c) && text::lower_char(c) == c);
        if c == ' ' {
            assert(part_of(c) is Gap);
            assert(n == 1 || k[n - 2] != ' ');
        } else {
            assert(part_of(c) == KeyPartView::Letters(seq![c]));
            if n > 1 && k[n - 2] == ' ' {
                assert(n > 2);
                assert(k.take(n - 2).push(' ') =~= front);
            }
            assert(front + seq![c] =~= p);
        }
    }
}

/// The key of a title in ASCII is made of small letters and digits, in words
/// with one space between them and none around them, and is its own key.
pub proof fn law_ascii_titles_have_plain_keys(title: Seq<char>)
    requires
        unicode::all_ascii(title),
    ensures
        is_key(title_key_of(title)),
        title_key_of(title_key_of(title)) == title_key_of(title),
{
    lemma_key_shape(title);
    let k = title_key_of(title);
    lemma_key_of_key(k, k.len() as int);
    assert(k.take(k.len() as int) =~= k);
    assert(title_key_of(k) == joined(parts_of(k)));
}

/// Case does not matter to a key: raising or lowering the letters of ASCII in a
/// title leaves its key as it is.
pub proof fn law_keys_are_blind_to_case(title: Seq<char>)
    ensures
        title_key_of(text::upper(title)) == title_key_of(title),
        title_key_of(text::lower(title)) == title_key_of(title),
{
    assert(parts_of(text::upper(title)) =~= parts_of(title)) by {
        assert forall|i: int| 0 <= i < title.len() implies #[trigger] parts_of(
            text::upper(title),
        )[i] == parts_of(title)[i] by {
            lemma_case_of(title[i]);
        }
    }
    assert(parts_of(text::lower(title)) =~= parts_of(title)) by {
        assert forall|i: int| 0 <= i < title.len() implies #[trigger] parts_of(
            text::lower(title),
        )[i] == parts_of(title)[i] by {
            lemma_case_of(title[i]);
        }
    }
    assert(title_key_of(title) == joined(parts_of(title)));
    assert(title_key_of(text::upper(title)) == joined(parts_of(text::upper(title))));
    assert(title_key_of(text::lower(title)) == joined(parts_of(text::lower(title))));
}

/// A letter of ASCII contributes the same in either case.
proof fn lemma_case_of(c: char)
    ensures
        part_of(text::upper_char(c)) == part_of(c),
        part_of(text::lower_char(c)) == part_of(c),
        text::lower_char(text::upper_char(c)) == text::lower_char(c),
        unicode::is_ascii(c) ==> unicode::is_ascii(text::upper_char(c)),
{
}

/// Case does not matter to where a title in ASCII is shelved.
pub proof fn law_shelving_is_blind_to_case(name: Seq<char>)
    requires
        unicode::all_ascii(name),
    ensures
        sort_name_of(text::upper(name)) == sort_name_of(name),
{
    let raised = text::upper(name);
    assert forall|i: int| 0 <= i < raised.len() implies unicode::is_ascii(#[trigger] raised[i]) by {
        assert(unicode::is_ascii(name[i]));
        lemma_case_of(name[i]);
    }
    assert(text::lower(raised) =~= text::lower(name)) by {
        assert forall|i: int| 0 <= i < name.len() implies #[trigger] text::lower(raised)[i]
            == text::lower(name)[i] by {
            lemma_case_of(name[i]);
        }
    }
}

/// An apostrophe, straight, curly or a modifier letter, is as if it were not there.
pub proof fn law_an_apostrophe_closes_up(before: Seq<char>, mark: char, after: Seq<char>)
    requires
        mark == '\'' || mark == '\u{2019}' || mark == '\u{02bc}',
    ensures
        title_key_of(before.push(mark) + after) == title_key_of(before + after),
{
    let with = before.push(mark) + after;
    let without = before + after;
    assert(title_key_of(with) == joined(parts_of(with)));
    assert(title_key_of(without) == joined(parts_of(without)));
    lemma_silence(before, mark, after);
}

proof fn lemma_silence(before: Seq<char>, mark: char, after: Seq<char>)
    requires
        part_of(mark) is Silent,
    ensures
        joined(parts_of(before.push(mark) + after)) == joined(parts_of(before + after)),
        gap_open(parts_of(before.push(mark) + after)) == gap_open(parts_of(before + after)),
    decreases after.len(),
{
    let with = before.push(mark) + after;
    let without = before + after;
    if after.len() == 0 {
        assert(with =~= before.push(mark) && without =~= before);
        assert(parts_of(with).drop_last() =~= parts_of(before));
        assert(parts_of(with).last() == part_of(mark));
    } else {
        lemma_silence(before, mark, after.drop_last());
        assert(parts_of(with).drop_last() =~= parts_of(before.push(mark) + after.drop_last()));
        assert(parts_of(without).drop_last() =~= parts_of(before + after.drop_last()));
        assert(parts_of(with).last() == part_of(after.last()));
        assert(parts_of(without).last() == part_of(after.last()));
    }
}

/// Any other character of ASCII that is neither a letter nor a digit separates:
/// which one it is does not matter, nor how many of them stand together.
pub proof fn law_punctuation_separates(before: Seq<char>, a: char, b: char, after: Seq<char>)
    requires
        unicode::is_ascii(a) && !text::is_alnum(a) && a != '\'',
        unicode::is_ascii(b) && !text::is_alnum(b) && b != '\'',
    ensures
        title_key_of(before.push(a) + after) == title_key_of(before.push(b) + after),
        title_key_of(before.push(a).push(b) + after) == title_key_of(before.push(a) + after),
{
    assert(part_of(a) is Gap && part_of(b) is Gap);
    assert(parts_of(before.push(a) + after) =~= parts_of(before.push(b) + after));
    lemma_one_gap(before, a, b, after);
}

proof fn lemma_one_gap(before: Seq<char>, a: char, b: char, after: Seq<char>)
    requires
        part_of(a) is Gap,
        part_of(b) is Gap,
    ensures
        joined(parts_of(before.push(a).push(b) + after)) == joined(
            parts_of(before.push(a) + after),
        ),
        gap_open(parts_of(before.push(a).push(b) + after)) == gap_open(
            parts_of(before.push(a) + after),
        ),
    decreases after.len(),
{
    let two = before.push(a).push(b) + after;
    let one = before.push(a) + after;
    if after.len() == 0 {
        assert(two =~= before.push(a).push(b) && one =~= before.push(a));
        assert(parts_of(two).drop_last() =~= parts_of(before.push(a)));
        assert(parts_of(two).last() == part_of(b));
        assert(parts_of(one).last() == part_of(a));
    } else {
        lemma_one_gap(before, a, b, after.drop_last());
        assert(parts_of(two).drop_last() =~= parts_of(
            before.push(a).push(b) + after.drop_last(),
        ));
        assert(parts_of(one).drop_last() =~= parts_of(before.push(a) + after.drop_last()));
        assert(parts_of(two).last() == part_of(after.last()));
        assert(parts_of(one).last() == part_of(after.last()));
    }
}

} // verus!
