//! Characters and strings: the small vocabulary the parsers are written in.
//!
//! Everything here works on sequences of characters. A `&str` is turned into a
//! `Vec<char>` once, at the edge of a parser, and from then on an offset is a
//! number of characters.

use vstd::prelude::*;
use vstd::slice::slice_subrange;

verus! {

/// `String::push`: the string grows by exactly the character handed over.
pub assume_specification[ String::push ](s: &mut String, c: char)
    ensures
        final(s)@ == old(s)@.push(c),
;

/// `String::push_str`: the string grows by exactly the text handed over.
pub assume_specification[ String::push_str ](s: &mut String, t: &str)
    ensures
        final(s)@ == old(s)@ + t@,
;

/// An ASCII decimal digit.
pub open spec fn is_digit(c: char) -> bool {
    '0' <= c <= '9'
}

/// An ASCII letter.
pub open spec fn is_letter(c: char) -> bool {
    ('a' <= c <= 'z') || ('A' <= c <= 'Z')
}

/// A character that can stand inside a token: an ASCII letter or digit.
pub open spec fn is_alnum(c: char) -> bool {
    is_digit(c) || is_letter(c)
}

/// A character with the Unicode property `White_Space`.
pub open spec fn is_white(c: char) -> bool {
    let n = c as u32;
    ||| 9 <= n <= 13
    ||| n == 0x20
    ||| n == 0x85
    ||| n == 0xa0
    ||| n == 0x1680
    ||| 0x2000 <= n <= 0x200a
    ||| n == 0x2028
    ||| n == 0x2029
    ||| n == 0x202f
    ||| n == 0x205f
    ||| n == 0x3000
}

/// The lowercase form of an ASCII capital; every other character is itself.
pub open spec fn lower_char(c: char) -> char {
    if 'A' <= c <= 'Z' {
        ((c as u32) + 32) as char
    } else {
        c
    }
}

/// `s` with its ASCII capitals lowered.
pub open spec fn lower(s: Seq<char>) -> Seq<char> {
    Seq::new(s.len(), |i: int| lower_char(s[i]))
}

/// `s` without the white space it begins with.
pub open spec fn trim_start(s: Seq<char>) -> Seq<char>
    decreases s.len(),
{
    if s.len() > 0 && is_white(s[0]) {
        trim_start(s.subrange(1, s.len() as int))
    } else {
        s
    }
}

/// `s` without the white space it ends with.
pub open spec fn trim_end(s: Seq<char>) -> Seq<char>
    decreases s.len(),
{
    if s.len() > 0 && is_white(s.last()) {
        trim_end(s.drop_last())
    } else {
        s
    }
}

/// `s` without white space at either end.
pub open spec fn trim(s: Seq<char>) -> Seq<char> {
    trim_end(trim_start(s))
}

/// `s` without the characters of `set` that it begins with.
pub open spec fn trim_start_set(s: Seq<char>, set: Seq<char>) -> Seq<char>
    decreases s.len(),
{
    if s.len() > 0 && set.contains(s[0]) {
        trim_start_set(s.subrange(1, s.len() as int), set)
    } else {
        s
    }
}

/// `s` without the characters of `set` that it ends with.
pub open spec fn trim_end_set(s: Seq<char>, set: Seq<char>) -> Seq<char>
    decreases s.len(),
{
    if s.len() > 0 && set.contains(s.last()) {
        trim_end_set(s.drop_last(), set)
    } else {
        s
    }
}

/// The least position in `from..end` at which `p` holds.
pub open spec fn first_from(from: int, end: int, p: spec_fn(int) -> bool) -> Option<int>
    decreases end - from,
{
    if from >= end {
        None
    } else if p(from) {
        Some(from)
    } else {
        first_from(from + 1, end, p)
    }
}

/// The greatest position in `from..end` at which `p` holds.
pub open spec fn last_before(from: int, end: int, p: spec_fn(int) -> bool) -> Option<int>
    decreases end - from,
{
    if from >= end {
        None
    } else if p(end - 1) {
        Some(end - 1)
    } else {
        last_before(from, end - 1, p)
    }
}

/// `first_from` finds a position exactly when there is one, and the least.
pub proof fn lemma_first_from(from: int, end: int, p: spec_fn(int) -> bool)
    ensures
        match first_from(from, end, p) {
            Some(i) => from <= i < end && p(i) && forall|j: int| #![trigger p(j)] from <= j < i ==> !p(j),
            None => forall|j: int| #![trigger p(j)] from <= j < end ==> !p(j),
        },
    decreases end - from,
{
    if from < end && !p(from) {
        lemma_first_from(from + 1, end, p);
    }
}

/// `last_before` finds a position exactly when there is one, and the greatest.
pub proof fn lemma_last_before(from: int, end: int, p: spec_fn(int) -> bool)
    ensures
        match last_before(from, end, p) {
            Some(i) => from <= i < end && p(i) && forall|j: int| #![trigger p(j)] i < j < end ==> !p(j),
            None => forall|j: int| #![trigger p(j)] from <= j < end ==> !p(j),
        },
    decreases end - from,
{
    if from < end && !p(end - 1) {
        lemma_last_before(from, end - 1, p);
    }
}

/// The number that a run of decimal digits writes.
pub open spec fn digits_value(s: Seq<char>) -> nat
    decreases s.len(),
{
    if s.len() == 0 {
        0
    } else {
        digits_value(s.drop_last()) * 10 + (s.last() as u32 - '0' as u32) as nat
    }
}

/// Whether every character of `s` is a decimal digit.
pub open spec fn all_digits(s: Seq<char>) -> bool {
    forall|i: int| 0 <= i < s.len() ==> is_digit(#[trigger] s[i])
}

/// The position just past the digits that stand at `i`.
pub open spec fn digits_end(s: Seq<char>, i: int) -> int
    decreases s.len() - i,
{
    if 0 <= i < s.len() && is_digit(s[i]) {
        digits_end(s, i + 1)
    } else {
        i
    }
}

/// The position at which the run of digits that ends before `i` begins.
pub open spec fn digits_start(s: Seq<char>, i: int) -> int
    decreases i,
{
    if 0 < i <= s.len() && is_digit(s[i - 1]) {
        digits_start(s, i - 1)
    } else {
        i
    }
}

/// `n` in decimal, without leading zeros.
pub open spec fn decimal(n: nat) -> Seq<char>
    decreases n,
{
    if n < 10 {
        seq![digit_char(n)]
    } else {
        decimal(n / 10).push(digit_char(n % 10))
    }
}

/// The digit that writes `n`.
pub open spec fn digit_char(n: nat) -> char {
    (('0' as u32) + n) as char
}

/// `s` with every occurrence of `from` replaced by `to`, read from the left.
pub open spec fn replace_all(s: Seq<char>, from: Seq<char>, to: Seq<char>) -> Seq<char>
    decreases s.len(),
{
    if from.len() == 0 || s.len() < from.len() {
        s
    } else if from.is_prefix_of(s) {
        to + replace_all(s.subrange(from.len() as int, s.len() as int), from, to)
    } else {
        seq![s[0]] + replace_all(s.subrange(1, s.len() as int), from, to)
    }
}

/// `s` with every run of spaces shortened to one space.
pub open spec fn collapse(s: Seq<char>) -> Seq<char>
    decreases s.len(),
{
    if s.len() == 0 {
        s
    } else if s.len() > 1 && s.last() == ' ' && s[s.len() - 2] == ' ' {
        collapse(s.drop_last())
    } else {
        collapse(s.drop_last()).push(s.last())
    }
}

/// The characters of a string.
pub fn to_chars(s: &str) -> (v: Vec<char>)
    ensures
        v@ == s@,
{
    let mut v: Vec<char> = Vec::new();
    for c in iter: s.chars()
        invariant
            iter.seq() == s@,
            v@ == s@.take(iter.index() as int),
    {
        v.push(c);
        assert(s@.take(iter.index() + 1) =~= s@.take(iter.index() as int).push(c));
    }
    assert(s@.take(s@.len() as int) =~= s@);
    v
}

/// The string that a slice of characters spells.
pub fn from_chars(v: &[char]) -> (s: String)
    ensures
        s@ == v@,
{
    let mut s = String::new();
    let mut i: usize = 0;
    while i < v.len()
        invariant
            i <= v.len(),
            s@ == v@.take(i as int),
        decreases v.len() - i,
    {
        s.push(v[i]);
        i += 1;
        assert(v@.take(i as int) =~= v@.take(i - 1).push(v@[i - 1]));
    }
    assert(v@.take(v@.len() as int) =~= v@);
    s
}

/// Whether `c` is an ASCII decimal digit.
pub fn char_is_digit(c: char) -> (r: bool)
    ensures
        r == is_digit(c),
{
    '0' <= c && c <= '9'
}

/// Whether `c` is an ASCII letter.
pub fn char_is_letter(c: char) -> (r: bool)
    ensures
        r == is_letter(c),
{
    ('a' <= c && c <= 'z') || ('A' <= c && c <= 'Z')
}

/// Whether `c` is an ASCII letter or digit.
pub fn char_is_alnum(c: char) -> (r: bool)
    ensures
        r == is_alnum(c),
{
    char_is_digit(c) || char_is_letter(c)
}

/// Whether `c` is white space.
pub fn char_is_white(c: char) -> (r: bool)
    ensures
        r == is_white(c),
{
    let n: u32 = c as u32;
    (9 <= n && n <= 13) || n == 0x20 || n == 0x85 || n == 0xa0 || n == 0x1680 || (0x2000 <= n && n
        <= 0x200a) || n == 0x2028 || n == 0x2029 || n == 0x202f || n == 0x205f || n == 0x3000
}

/// The lowercase form of an ASCII capital.
pub fn char_lower(c: char) -> (r: char)
    ensures
        r == lower_char(c),
{
    if 'A' <= c && c <= 'Z' {
        (c as u8 + 32) as char
    } else {
        c
    }
}

/// A copy of `v` with its ASCII capitals lowered.
pub fn to_lower(v: &[char]) -> (r: Vec<char>)
    ensures
        r@ == lower(v@),
{
    let mut r: Vec<char> = Vec::new();
    let mut i: usize = 0;
    while i < v.len()
        invariant
            i <= v.len(),
            r@.len() == i,
            forall|j: int| 0 <= j < i ==> r@[j] == lower_char(v@[j]),
        decreases v.len() - i,
    {
        r.push(char_lower(v[i]));
        i += 1;
    }
    assert(r@ =~= lower(v@));
    r
}

/// A copy of the characters of `v`.
pub fn copy_chars(v: &[char]) -> (r: Vec<char>)
    ensures
        r@ == v@,
{
    let mut r: Vec<char> = Vec::new();
    let mut i: usize = 0;
    while i < v.len()
        invariant
            i <= v.len(),
            r@ == v@.take(i as int),
        decreases v.len() - i,
    {
        r.push(v[i]);
        i += 1;
        assert(v@.take(i as int) =~= v@.take(i - 1).push(v@[i - 1]));
    }
    assert(v@.take(v@.len() as int) =~= v@);
    r
}

/// `v` without the white space it begins with.
pub fn trimmed_start(v: &[char]) -> (r: &[char])
    ensures
        r@ == trim_start(v@),
{
    let mut i: usize = 0;
    assert(v@.subrange(0, v@.len() as int) =~= v@);
    while i < v.len() && char_is_white(v[i])
        invariant
            i <= v.len(),
            trim_start(v@) == trim_start(v@.subrange(i as int, v@.len() as int)),
        decreases v.len() - i,
    {
        assert(v@.subrange(i as int, v@.len() as int).subrange(1, v@.len() - i) =~= v@.subrange(
            i + 1,
            v@.len() as int,
        ));
        i += 1;
    }
    slice_subrange(v, i, v.len())
}

/// `v` without the white space it ends with.
pub fn trimmed_end(v: &[char]) -> (r: &[char])
    ensures
        r@ == trim_end(v@),
{
    let mut i: usize = v.len();
    assert(v@.subrange(0, v@.len() as int) =~= v@);
    while i > 0 && char_is_white(v[i - 1])
        invariant
            i <= v.len(),
            trim_end(v@) == trim_end(v@.subrange(0, i as int)),
        decreases i,
    {
        assert(v@.subrange(0, i as int).drop_last() =~= v@.subrange(0, i - 1));
        i -= 1;
    }
    slice_subrange(v, 0, i)
}

/// `v` without white space at either end.
pub fn trimmed(v: &[char]) -> (r: &[char])
    ensures
        r@ == trim(v@),
{
    trimmed_end(trimmed_start(v))
}

/// Whether `c` is one of `set`.
pub fn in_set(set: &[char], c: char) -> (r: bool)
    ensures
        r == set@.contains(c),
{
    let mut i: usize = 0;
    while i < set.len()
        invariant
            i <= set.len(),
            forall|j: int| 0 <= j < i ==> set@[j] != c,
        decreases set.len() - i,
    {
        if set[i] == c {
            assert(set@[i as int] == c);
            return true;
        }
        i += 1;
    }
    false
}

/// `v` without the characters of `set` that it begins with.
pub fn trimmed_start_set<'a>(v: &'a [char], set: &[char]) -> (r: &'a [char])
    ensures
        r@ == trim_start_set(v@, set@),
{
    let mut i: usize = 0;
    assert(v@.subrange(0, v@.len() as int) =~= v@);
    while i < v.len() && in_set(set, v[i])
        invariant
            i <= v.len(),
            trim_start_set(v@, set@) == trim_start_set(
                v@.subrange(i as int, v@.len() as int),
                set@,
            ),
        decreases v.len() - i,
    {
        assert(v@.subrange(i as int, v@.len() as int).subrange(1, v@.len() - i) =~= v@.subrange(
            i + 1,
            v@.len() as int,
        ));
        i += 1;
    }
    slice_subrange(v, i, v.len())
}

/// `v` without the characters of `set` that it ends with.
pub fn trimmed_end_set<'a>(v: &'a [char], set: &[char]) -> (r: &'a [char])
    ensures
        r@ == trim_end_set(v@, set@),
{
    let mut i: usize = v.len();
    assert(v@.subrange(0, v@.len() as int) =~= v@);
    while i > 0 && in_set(set, v[i - 1])
        invariant
            i <= v.len(),
            trim_end_set(v@, set@) == trim_end_set(v@.subrange(0, i as int), set@),
        decreases i,
    {
        assert(v@.subrange(0, i as int).drop_last() =~= v@.subrange(0, i - 1));
        i -= 1;
    }
    slice_subrange(v, 0, i)
}

/// What is left of the end of a sequence is a beginning of it.
pub proof fn lemma_trim_end_prefix(s: Seq<char>)
    ensures
        trim_end(s).len() <= s.len(),
        trim_end(s) == s.subrange(0, trim_end(s).len() as int),
        trim_end(s).len() > 0 ==> !is_white(trim_end(s).last()),
    decreases s.len(),
{
    if s.len() > 0 && is_white(s.last()) {
        lemma_trim_end_prefix(s.drop_last());
    }
    assert(trim_end(s) =~= s.subrange(0, trim_end(s).len() as int));
}

/// What is left of the beginning of a sequence is an end of it.
pub proof fn lemma_trim_start_suffix(s: Seq<char>)
    ensures
        trim_start(s).len() <= s.len(),
        trim_start(s) == s.subrange(s.len() - trim_start(s).len(), s.len() as int),
        trim_start(s).len() > 0 ==> !is_white(trim_start(s)[0]),
    decreases s.len(),
{
    if s.len() > 0 && is_white(s[0]) {
        lemma_trim_start_suffix(s.subrange(1, s.len() as int));
    }
    assert(trim_start(s) =~= s.subrange(s.len() - trim_start(s).len(), s.len() as int));
}

/// What is left after trimming a set is a beginning of the sequence.
pub proof fn lemma_trim_end_set_prefix(s: Seq<char>, set: Seq<char>)
    ensures
        trim_end_set(s, set).len() <= s.len(),
        trim_end_set(s, set) == s.subrange(0, trim_end_set(s, set).len() as int),
        trim_end_set(s, set).len() > 0 ==> !set.contains(trim_end_set(s, set).last()),
    decreases s.len(),
{
    if s.len() > 0 && set.contains(s.last()) {
        lemma_trim_end_set_prefix(s.drop_last(), set);
    }
    assert(trim_end_set(s, set) =~= s.subrange(0, trim_end_set(s, set).len() as int));
}

/// Whether the two slices spell the same text.
pub fn same_chars(a: &[char], b: &[char]) -> (r: bool)
    ensures
        r == (a@ == b@),
{
    if a.len() != b.len() {
        return false;
    }
    let mut i: usize = 0;
    while i < a.len()
        invariant
            i <= a.len(),
            a@.len() == b@.len(),
            forall|j: int| 0 <= j < i ==> a@[j] == b@[j],
        decreases a.len() - i,
    {
        if a[i] != b[i] {
            assert(a@[i as int] != b@[i as int]);
            return false;
        }
        i += 1;
    }
    assert(a@ =~= b@);
    true
}

/// Whether the two strings spell the same text.
pub fn same_text(a: &str, b: &str) -> (r: bool)
    ensures
        r == (a@ == b@),
{
    let x = to_chars(a);
    let y = to_chars(b);
    same_chars(&x, &y)
}

/// Whether `p` stands in `v` at `at`.
pub open spec fn stands_at(s: Seq<char>, p: Seq<char>, at: int) -> bool {
    0 <= at && at + p.len() <= s.len() && s.subrange(at, at + p.len()) == p
}

/// Whether `p` stands in `v` at `at`.
pub fn chars_stand_at(v: &[char], p: &[char], at: usize) -> (r: bool)
    ensures
        r == stands_at(v@, p@, at as int),
{
    if at > v.len() || v.len() - at < p.len() {
        return false;
    }
    same_chars(slice_subrange(v, at, at + p.len()), p)
}

/// The beginning of a text and a part of it standing at its beginning are one.
pub proof fn lemma_prefix_stands(s: Seq<char>, p: Seq<char>)
    ensures
        p.is_prefix_of(s) == stands_at(s, p, 0),
        p.is_suffix_of(s) == stands_at(s, p, s.len() - p.len()),
{
    if p.len() <= s.len() {
        assert(s.subrange(0, p.len() as int) == p <==> p.is_prefix_of(s));
        assert(s.subrange(s.len() - p.len(), s.len() as int) == p <==> p.is_suffix_of(s));
    }
}

/// The position just past the digits that stand at `i`.
pub fn end_of_digits(v: &[char], i: usize) -> (r: usize)
    ensures
        r == digits_end(v@, i as int),
        i <= r,
        i <= v@.len() ==> r <= v@.len(),
        forall|j: int| i <= j < r ==> is_digit(#[trigger] v@[j]),
        i <= r < v@.len() ==> !is_digit(v@[r as int]),
{
    let mut end: usize = i;
    while end < v.len() && char_is_digit(v[end])
        invariant
            i <= end,
            i <= v@.len() ==> end <= v@.len(),
            digits_end(v@, i as int) == digits_end(v@, end as int),
            forall|j: int| i <= j < end ==> is_digit(#[trigger] v@[j]),
        decreases v.len() - end,
    {
        end += 1;
    }
    end
}

/// The position at which the run of digits that ends before `i` begins.
pub fn start_of_digits(v: &[char], i: usize) -> (r: usize)
    requires
        i <= v@.len(),
    ensures
        r == digits_start(v@, i as int),
        r <= i,
        forall|j: int| r <= j < i ==> is_digit(#[trigger] v@[j]),
        r > 0 ==> !is_digit(v@[r - 1]),
{
    let mut start: usize = i;
    while start > 0 && char_is_digit(v[start - 1])
        invariant
            start <= i <= v@.len(),
            digits_start(v@, i as int) == digits_start(v@, start as int),
            forall|j: int| start <= j < i ==> is_digit(#[trigger] v@[j]),
        decreases start,
    {
        start -= 1;
    }
    start
}

/// A longer run of digits writes a number at least as large.
proof fn lemma_digits_value_grows(s: Seq<char>, i: int)
    requires
        all_digits(s),
        0 <= i <= s.len(),
    ensures
        digits_value(s.take(i)) <= digits_value(s),
    decreases s.len() - i,
{
    if i == s.len() {
        assert(s.take(i) =~= s);
    } else {
        lemma_digits_value_grows(s, i + 1);
        assert(s.take(i + 1).drop_last() =~= s.take(i));
    }
}

/// The number that a run of digits writes, when it fits.
pub fn value_of_digits(v: &[char]) -> (r: Option<u64>)
    requires
        all_digits(v@),
    ensures
        match r {
            Some(n) => n == digits_value(v@),
            None => digits_value(v@) > u64::MAX,
        },
{
    let mut n: u64 = 0;
    let mut i: usize = 0;
    while i < v.len()
        invariant
            i <= v.len(),
            all_digits(v@),
            n == digits_value(v@.take(i as int)),
        decreases v.len() - i,
    {
        assert(is_digit(v@[i as int]));
        let d: u64 = (v[i] as u32 - '0' as u32) as u64;
        assert(v@.take(i + 1).drop_last() =~= v@.take(i as int));
        assert(digits_value(v@.take(i + 1)) == n * 10 + d);
        proof {
            lemma_digits_value_grows(v@, i + 1);
        }
        if n > (u64::MAX - d) / 10 {
            return None;
        }
        n = n * 10 + d;
        i += 1;
    }
    assert(v@.take(v@.len() as int) =~= v@);
    Some(n)
}

/// The same, narrowed to 32 bits.
pub fn small_value_of_digits(v: &[char]) -> (r: Option<u32>)
    requires
        all_digits(v@),
    ensures
        match r {
            Some(n) => n == digits_value(v@),
            None => digits_value(v@) > u32::MAX,
        },
{
    match value_of_digits(v) {
        Some(n) => if n <= u32::MAX as u64 {
            Some(n as u32)
        } else {
            None
        },
        None => None,
    }
}

/// The digits of an unsigned number as text states it: at least one digit,
/// nothing else but a single leading plus sign.
pub open spec fn unsigned_digits(s: Seq<char>) -> Option<Seq<char>> {
    let digits = if s.len() > 0 && s[0] == '+' {
        s.subrange(1, s.len() as int)
    } else {
        s
    };
    if digits.len() > 0 && all_digits(digits) {
        Some(digits)
    } else {
        None
    }
}

/// The number that text states, when it states one no larger than `max`.
pub open spec fn unsigned_value(s: Seq<char>, max: nat) -> Option<nat> {
    match unsigned_digits(s) {
        Some(digits) => if digits_value(digits) <= max {
            Some(digits_value(digits))
        } else {
            None
        },
        None => None,
    }
}

/// Whether every character is a decimal digit.
pub fn chars_all_digits(v: &[char]) -> (r: bool)
    ensures
        r == all_digits(v@),
{
    let mut i: usize = 0;
    while i < v.len()
        invariant
            i <= v.len(),
            forall|j: int| 0 <= j < i ==> is_digit(#[trigger] v@[j]),
        decreases v.len() - i,
    {
        if !char_is_digit(v[i]) {
            assert(!is_digit(v@[i as int]));
            return false;
        }
        i += 1;
    }
    true
}

/// Read an unsigned 64-bit number.
pub fn parse_u64(v: &[char]) -> (r: Option<u64>)
    ensures
        match r {
            Some(n) => unsigned_value(v@, u64::MAX as nat) == Some(n as nat),
            None => unsigned_value(v@, u64::MAX as nat) is None,
        },
{
    let digits = if v.len() > 0 && v[0] == '+' {
        slice_subrange(v, 1, v.len())
    } else {
        v
    };
    if digits.len() == 0 || !chars_all_digits(digits) {
        return None;
    }
    value_of_digits(digits)
}

/// Read an unsigned 32-bit number.
pub fn parse_u32(v: &[char]) -> (r: Option<u32>)
    ensures
        match r {
            Some(n) => unsigned_value(v@, u32::MAX as nat) == Some(n as nat),
            None => unsigned_value(v@, u32::MAX as nat) is None,
        },
{
    match parse_u64(v) {
        Some(n) => if n <= u32::MAX as u64 {
            Some(n as u32)
        } else {
            None
        },
        None => None,
    }
}

/// `n` in decimal.
pub fn decimal_of(n: u64) -> (r: Vec<char>)
    ensures
        r@ == decimal(n as nat),
    decreases n,
{
    if n < 10 {
        let mut r: Vec<char> = Vec::new();
        r.push((48 + n as u8) as char);
        r
    } else {
        let mut r = decimal_of(n / 10);
        r.push((48 + (n % 10) as u8) as char);
        r
    }
}

/// A number written in decimal reads back as itself.
pub proof fn lemma_decimal_reads_back(n: nat)
    ensures
        decimal(n).len() > 0,
        all_digits(decimal(n)),
        digits_value(decimal(n)) == n,
        unsigned_value(decimal(n), n) == Some(n),
    decreases n,
{
    let s = decimal(n);
    if n < 10 {
        assert(s.drop_last() =~= Seq::<char>::empty());
        reveal_with_fuel(digits_value, 2);
    } else {
        lemma_decimal_reads_back(n / 10);
        assert(s.drop_last() =~= decimal(n / 10));
        let front = decimal(n / 10);
        assert(forall|i: int| 0 <= i < front.len() ==> is_digit(#[trigger] front[i]));
    }
    assert(is_digit(s[0]));
}

/// `v` with every occurrence of `from` replaced by `to`.
pub fn replaced(v: &[char], from: &[char], to: &[char]) -> (r: Vec<char>)
    requires
        from@.len() > 0,
    ensures
        r@ == replace_all(v@, from@, to@),
{
    let mut r: Vec<char> = Vec::new();
    let mut i: usize = 0;
    assert(v@.subrange(0, v@.len() as int) =~= v@);
    assert(r@ + v@ =~= v@);
    assert(r@ + replace_all(v@, from@, to@) =~= replace_all(v@, from@, to@));
    while v.len() - i >= from.len()
        invariant
            from@.len() > 0,
            i <= v.len(),
            replace_all(v@, from@, to@) == r@ + replace_all(
                v@.subrange(i as int, v@.len() as int),
                from@,
                to@,
            ),
        decreases v.len() - i,
    {
        let ghost rest = v@.subrange(i as int, v@.len() as int);
        let ghost before = r@;
        proof {
            lemma_prefix_stands(rest, from@);
            assert(rest.subrange(0, from@.len() as int) =~= v@.subrange(i as int, i + from@.len()));
        }
        if chars_stand_at(v, from, i) {
            let mut k: usize = 0;
            while k < to.len()
                invariant
                    k <= to.len(),
                    r@ == before + to@.take(k as int),
                decreases to.len() - k,
            {
                r.push(to[k]);
                k += 1;
                assert(r@ =~= before + to@.take(k as int));
            }
            assert(to@.take(to@.len() as int) =~= to@);
            assert(rest.subrange(from@.len() as int, rest.len() as int) =~= v@.subrange(
                i + from@.len(),
                v@.len() as int,
            ));
            i += from.len();
            assert(before + (to@ + replace_all(
                v@.subrange(i as int, v@.len() as int),
                from@,
                to@,
            )) =~= r@ + replace_all(v@.subrange(i as int, v@.len() as int), from@, to@));
        } else {
            r.push(v[i]);
            i += 1;
            assert(rest.subrange(1, rest.len() as int) =~= v@.subrange(i as int, v@.len() as int));
            assert(before + (seq![rest[0]] + replace_all(
                v@.subrange(i as int, v@.len() as int),
                from@,
                to@,
            )) =~= r@ + replace_all(v@.subrange(i as int, v@.len() as int), from@, to@));
        }
    }
    let ghost before = r@;
    let ghost start = i as int;
    while i < v.len()
        invariant
            0 <= start <= i <= v.len(),
            r@ == before + v@.subrange(start, i as int),
        decreases v.len() - i,
    {
        r.push(v[i]);
        i += 1;
        assert(r@ =~= before + v@.subrange(start, i as int));
    }
    r
}

/// `v` with every run of spaces shortened to one space.
pub fn collapsed(v: &[char]) -> (r: Vec<char>)
    ensures
        r@ == collapse(v@),
{
    let mut r: Vec<char> = Vec::new();
    let mut i: usize = 0;
    let mut last_was_space: bool = false;
    while i < v.len()
        invariant
            i <= v.len(),
            r@ == collapse(v@.take(i as int)),
            last_was_space == (i > 0 && v@[i - 1] == ' '),
        decreases v.len() - i,
    {
        let c = v[i];
        assert(v@.take(i + 1).drop_last() =~= v@.take(i as int));
        if !(c == ' ' && last_was_space) {
            r.push(c);
        }
        last_was_space = c == ' ';
        i += 1;
    }
    assert(v@.take(v@.len() as int) =~= v@);
    r
}

/// The positions of `c` in `s`.
pub open spec fn holds_char(s: Seq<char>, c: char) -> spec_fn(int) -> bool {
    |i: int| s[i] == c
}

/// The last position of `c` in `s`.
pub open spec fn last_index(s: Seq<char>, c: char) -> Option<int> {
    last_before(0, s.len() as int, holds_char(s, c))
}

/// The first position of `c` in `s`.
pub open spec fn first_index(s: Seq<char>, c: char) -> Option<int> {
    first_from(0, s.len() as int, holds_char(s, c))
}

/// The last position of `c`.
pub fn last_index_of(v: &[char], c: char) -> (r: Option<usize>)
    ensures
        match r {
            Some(i) => i < v@.len() && v@[i as int] == c && last_index(v@, c) == Some(i as int),
            None => last_index(v@, c) is None,
        },
{
    let mut i: usize = v.len();
    while i > 0
        invariant
            i <= v.len(),
            last_index(v@, c) == last_before(0, i as int, holds_char(v@, c)),
        decreases i,
    {
        i -= 1;
        if v[i] == c {
            return Some(i);
        }
    }
    None
}

/// The first position of `c`.
pub fn first_index_of(v: &[char], c: char) -> (r: Option<usize>)
    ensures
        match r {
            Some(i) => i < v@.len() && v@[i as int] == c && first_index(v@, c) == Some(i as int),
            None => first_index(v@, c) is None,
        },
{
    let mut i: usize = 0;
    while i < v.len()
        invariant
            i <= v.len(),
            first_index(v@, c) == first_from(i as int, v@.len() as int, holds_char(v@, c)),
        decreases v.len() - i,
    {
        if v[i] == c {
            return Some(i);
        }
        i += 1;
    }
    None
}

/// Whether `v` spells `word`.
pub fn is_word(v: &[char], word: &str) -> (r: bool)
    ensures
        r == (v@ == word@),
{
    same_chars(v, &to_chars(word))
}

/// Lowering twice is lowering once.
pub proof fn lemma_lower_idempotent(s: Seq<char>)
    ensures
        lower(lower(s)) == lower(s),
{
    assert(lower(lower(s)) =~= lower(s));
}

/// Collapsing keeps both ends of a text, brings in no character, and leaves no
/// two spaces side by side.
pub proof fn lemma_collapse(s: Seq<char>)
    ensures
        collapse(s).len() <= s.len(),
        s.len() > 0 ==> collapse(s).len() > 0 && collapse(s).last() == s.last() && collapse(s)[0]
            == s[0],
        forall|i: int|
            0 <= i < collapse(s).len() - 1 ==> !(#[trigger] collapse(s)[i] == ' ' && collapse(s)[i
                + 1] == ' '),
        forall|i: int| 0 <= i < collapse(s).len() ==> s.contains(#[trigger] collapse(s)[i]),
    decreases s.len(),
{
    if s.len() > 0 {
        let front = s.drop_last();
        lemma_collapse(front);
        assert forall|c: char| front.contains(c) implies s.contains(c) by {
            let k = choose|k: int| 0 <= k < front.len() && front[k] == c;
            assert(s[k] == c);
        }
        assert(s.contains(s.last()));
        if front.len() == 0 {
            assert(collapse(front) =~= Seq::<char>::empty());
        } else {
            assert(front.last() == s[s.len() - 2]);
        }
    }
}

/// A trimmed text is part of the text, and white at neither end.
pub proof fn lemma_trim(s: Seq<char>)
    ensures
        trim(s).len() <= s.len(),
        trim(s).len() > 0 ==> !is_white(trim(s)[0]) && !is_white(trim(s).last()),
        forall|i: int| 0 <= i < trim(s).len() ==> s.contains(#[trigger] trim(s)[i]),
{
    let tail = trim_start(s);
    lemma_trim_start_suffix(s);
    lemma_trim_end_prefix(tail);
    assert forall|i: int| 0 <= i < trim(s).len() implies s.contains(#[trigger] trim(s)[i]) by {
        assert(trim(s)[i] == tail[i]);
        assert(tail[i] == s[s.len() - tail.len() + i]);
    }
}

/// Replacing brings in no character but those of the replacement.
pub proof fn lemma_replace_all(s: Seq<char>, from: Seq<char>, to: Seq<char>)
    ensures
        forall|i: int|
            0 <= i < replace_all(s, from, to).len() ==> s.contains(
                #[trigger] replace_all(s, from, to)[i],
            ) || to.contains(replace_all(s, from, to)[i]),
    decreases s.len(),
{
    let r = replace_all(s, from, to);
    if from.len() == 0 || s.len() < from.len() {
    } else {
        let (head, rest) = if from.is_prefix_of(s) {
            (to, s.subrange(from.len() as int, s.len() as int))
        } else {
            (seq![s[0]], s.subrange(1, s.len() as int))
        };
        lemma_replace_all(rest, from, to);
        assert forall|c: char| rest.contains(c) implies s.contains(c) by {
            let k = choose|k: int| 0 <= k < rest.len() && rest[k] == c;
            assert(s[s.len() - rest.len() + k] == c);
        }
        assert(s.contains(s[0]));
        assert forall|i: int| 0 <= i < r.len() implies s.contains(#[trigger] r[i]) || to.contains(
            r[i],
        ) by {
            if i < head.len() {
                assert(r[i] == head[i]);
            } else {
                assert(r[i] == replace_all(rest, from, to)[i - head.len()]);
            }
        }
    }
}

/// `n` in decimal, with zeros in front up to `width` digits.
pub open spec fn padded(n: nat, width: nat) -> Seq<char> {
    if decimal(n).len() < width {
        Seq::new((width - decimal(n).len()) as nat, |i: int| '0') + decimal(n)
    } else {
        decimal(n)
    }
}

/// `n` in decimal, with zeros in front up to `width` digits.
pub fn padded_of(n: u64, width: usize) -> (r: Vec<char>)
    ensures
        r@ == padded(n as nat, width as nat),
{
    let mut digits = decimal_of(n);
    let mut r: Vec<char> = Vec::new();
    if digits.len() < width {
        let missing: usize = width - digits.len();
        while r.len() < missing
            invariant
                r@.len() <= missing,
                r@ =~= Seq::new(r@.len(), |i: int| '0'),
            decreases missing - r.len(),
        {
            r.push('0');
        }
    }
    r.append(&mut digits);
    assert(r@ =~= padded(n as nat, width as nat));
    r
}

/// Whether `needle` stands anywhere in `hay`.
pub open spec fn contains_text(hay: Seq<char>, needle: Seq<char>) -> bool {
    exists|i: int| #[trigger] stands_at(hay, needle, i)
}

/// Whether `needle` stands anywhere in `hay`.
pub fn chars_contain(hay: &[char], needle: &[char]) -> (r: bool)
    ensures
        r == contains_text(hay@, needle@),
{
    let mut i: usize = 0;
    while i <= hay.len()
        invariant
            i <= hay@.len() + 1,
            forall|j: int| 0 <= j < i ==> !#[trigger] stands_at(hay@, needle@, j),
        decreases hay@.len() + 1 - i,
    {
        if chars_stand_at(hay, needle, i) {
            assert(stands_at(hay@, needle@, i as int));
            return true;
        }
        if i == hay.len() {
            return false;
        }
        i += 1;
    }
    false
}

/// The characters of an optional string.
pub open spec fn opt_chars(s: Option<String>) -> Option<Seq<char>> {
    match s {
        Some(s) => Some(s@),
        None => None,
    }
}

/// A copy of an optional string.
pub fn copy_option(s: &Option<String>) -> (r: Option<String>)
    ensures
        r == *s,
{
    match s {
        Some(s) => Some(s.clone()),
        None => None,
    }
}

/// A string from a literal or a borrowed text.
pub fn owned(s: &str) -> (r: String)
    ensures
        r@ == s@,
{
    let mut r = String::new();
    r.push_str(s);
    assert(r@ =~= s@);
    r
}

/// The texts of a list of strings.
pub open spec fn texts(s: Seq<String>) -> Seq<Seq<char>> {
    Seq::new(s.len(), |i: int| s[i]@)
}

/// A copy of a list of strings.
pub fn copy_strings(v: &Vec<String>) -> (r: Vec<String>)
    ensures
        texts(r@) == texts(v@),
        r@ == v@,
{
    let mut r: Vec<String> = Vec::new();
    let mut i: usize = 0;
    while i < v.len()
        invariant
            i <= v@.len(),
            r@ == v@.take(i as int),
        decreases v.len() - i,
    {
        r.push(v[i].clone());
        i += 1;
        assert(v@.take(i as int) =~= v@.take(i - 1).push(v@[i - 1]));
    }
    assert(v@.take(v@.len() as int) =~= v@);
    r
}

/// A whole number in decimal, with a minus sign where it is negative.
pub open spec fn integer(n: int) -> Seq<char> {
    if n < 0 {
        seq!['-'] + decimal((-n) as nat)
    } else {
        decimal(n as nat)
    }
}

/// A whole number in decimal.
pub fn integer_of(n: i64) -> (r: Vec<char>)
    ensures
        r@ == integer(n as int),
{
    if n < 0 {
        let mut r: Vec<char> = Vec::new();
        r.push('-');
        let positive: u64 = if n == i64::MIN {
            9_223_372_036_854_775_808
        } else {
            (-n) as u64
        };
        r.append(&mut decimal_of(positive));
        assert(r@ =~= integer(n as int));
        r
    } else {
        decimal_of(n as u64)
    }
}

/// The uppercase form of an ASCII small letter; every other character is
/// itself.
pub open spec fn upper_char(c: char) -> char {
    if 'a' <= c <= 'z' {
        ((c as u32) - 32) as char
    } else {
        c
    }
}

/// `s` with its ASCII small letters raised.
pub open spec fn upper(s: Seq<char>) -> Seq<char> {
    Seq::new(s.len(), |i: int| upper_char(s[i]))
}

/// A copy of `v` with its ASCII small letters raised.
pub fn to_upper(v: &[char]) -> (r: Vec<char>)
    ensures
        r@ == upper(v@),
{
    let mut r: Vec<char> = Vec::new();
    let mut i: usize = 0;
    while i < v.len()
        invariant
            i <= v.len(),
            r@.len() == i,
            forall|j: int| 0 <= j < i ==> r@[j] == upper_char(v@[j]),
        decreases v.len() - i,
    {
        let c = v[i];
        r.push(
            if 'a' <= c && c <= 'z' {
                (c as u8 - 32) as char
            } else {
                c
            },
        );
        i += 1;
    }
    assert(r@ =~= upper(v@));
    r
}

/// A text without white space at either end, where anything is left of it.
pub open spec fn stated(s: Option<Seq<char>>) -> Option<Seq<char>> {
    match s {
        Some(s) => if trim(s).len() > 0 {
            Some(trim(s))
        } else {
            None
        },
        None => None,
    }
}

/// A text without white space at either end, where anything is left of it:
/// absent and present-but-empty are one.
pub fn trimmed_option(s: Option<String>) -> (r: Option<String>)
    ensures
        opt_chars(r) == stated(opt_chars(s)),
{
    match s {
        Some(s) => {
            let v = to_chars(s.as_str());
            let t = trimmed(&v);
            if t.len() > 0 {
                Some(from_chars(t))
            } else {
                None
            }
        },
        None => None,
    }
}

/// Whether `hay` holds `needle`.
pub fn text_contains(hay: &[char], needle: &str) -> (r: bool)
    ensures
        r == contains_text(hay@, needle@),
{
    chars_contain(hay, &to_chars(needle))
}

/// The number that text states, with a sign or without one, when it fits in a
/// signed 64-bit number.
pub open spec fn signed_value(s: Seq<char>) -> Option<int> {
    if s.len() > 0 && s[0] == '-' {
        let digits = s.subrange(1, s.len() as int);
        if digits.len() > 0 && all_digits(digits) && digits_value(digits) <= 0x8000_0000_0000_0000 {
            Some(-(digits_value(digits) as int))
        } else {
            None
        }
    } else {
        match unsigned_value(s, i64::MAX as nat) {
            Some(n) => Some(n as int),
            None => None,
        }
    }
}

/// Read a signed 64-bit number.
pub fn parse_i64(v: &[char]) -> (r: Option<i64>)
    ensures
        match r {
            Some(n) => signed_value(v@) == Some(n as int),
            None => signed_value(v@) is None,
        },
{
    if v.len() > 0 && v[0] == '-' {
        let digits = slice_subrange(v, 1, v.len());
        if digits.len() == 0 || !chars_all_digits(digits) {
            return None;
        }
        match value_of_digits(digits) {
            Some(n) => if n == 0x8000_0000_0000_0000 {
                Some(i64::MIN)
            } else if n < 0x8000_0000_0000_0000 {
                Some(-(n as i64))
            } else {
                None
            },
            None => None,
        }
    } else {
        match parse_u64(v) {
            Some(n) => if n <= i64::MAX as u64 {
                Some(n as i64)
            } else {
                None
            },
            None => None,
        }
    }
}

/// A text where it says anything.
pub open spec fn non_empty(s: Option<Seq<char>>) -> Option<Seq<char>> {
    match s {
        Some(s) => if s.len() > 0 {
            Some(s)
        } else {
            None
        },
        None => None,
    }
}

/// A text where it says anything: absent and empty are one.
pub fn non_empty_option(s: Option<String>) -> (r: Option<String>)
    ensures
        opt_chars(r) == non_empty(opt_chars(s)),
{
    match s {
        Some(s) => if s.as_str().is_empty() {
            None
        } else {
            Some(s)
        },
        None => None,
    }
}

/// The first of two texts that is there.
pub open spec fn either(a: Option<Seq<char>>, b: Option<Seq<char>>) -> Option<Seq<char>> {
    match a {
        Some(a) => Some(a),
        None => b,
    }
}

/// A copy of the first of two texts that is there.
pub fn first_of(a: &Option<String>, b: &Option<String>) -> (r: Option<String>)
    ensures
        opt_chars(r) == either(opt_chars(*a), opt_chars(*b)),
{
    match a {
        Some(a) => Some(a.clone()),
        None => copy_option(b),
    }
}

/// A text and another after it.
pub fn joined(a: &str, b: &str) -> (r: String)
    ensures
        r@ == a@ + b@,
{
    let mut r = owned(a);
    r.push_str(b);
    r
}

/// Texts with a separator between them.
pub open spec fn separated(parts: Seq<Seq<char>>, separator: Seq<char>) -> Seq<char>
    decreases parts.len(),
{
    if parts.len() == 0 {
        Seq::empty()
    } else if parts.len() == 1 {
        parts[0]
    } else {
        separated(parts.drop_last(), separator) + separator + parts.last()
    }
}

/// Put texts together with a separator between them.
pub fn join_separated(parts: &[String], separator: &str) -> (r: String)
    ensures
        r@ == separated(texts(parts@), separator@),
{
    let mut out = String::new();
    let mut i: usize = 0;
    let len: usize = parts.len();
    let ghost all = texts(parts@);
    assert(out@ =~= Seq::<char>::empty());
    while i < len
        invariant
            i <= len,
            len == parts@.len(),
            all == texts(parts@),
            out@ == separated(all.take(i as int), separator@),
        decreases len - i,
    {
        assert(all.take(i + 1).drop_last() =~= all.take(i as int));
        assert(all.take(i + 1).last() == parts@[i as int]@);
        if i > 0 {
            out.push_str(separator);
        }
        out.push_str(parts[i].as_str());
        i += 1;
        assert(out@ =~= separated(all.take(i as int), separator@));
    }
    assert(all.take(len as int) =~= all);
    out
}

/// White space is what Unicode gives that property, tabs, line ends and the wide
/// space among it, and no character that shows.
pub proof fn law_white_space_is_what_unicode_says(c: char)
    ensures
        ({
            let n = c as u32;
            is_white(c) <==> n == 0x9 || n == 0xa || n == 0xb || n == 0xc || n == 0xd || n == 0x20
                || n == 0x85 || n == 0xa0 || n == 0x1680 || n == 0x2000 || n == 0x2001 || n
                == 0x2002 || n == 0x2003 || n == 0x2004 || n == 0x2005 || n == 0x2006 || n == 0x2007
                || n == 0x2008 || n == 0x2009 || n == 0x200a || n == 0x2028 || n == 0x2029 || n
                == 0x202f || n == 0x205f || n == 0x3000
        }),
{
}

} // verus!
