//! Deciding which of a provider's answers is the title the library has.
//!
//! A release-named library does not hand over clean titles, and a provider knows
//! one show under four names in three scripts. So matching is scoring, not
//! lookup:
//!
//! * **Every alias counts.** A candidate is scored on its best name, not its
//!   canonical one.
//! * **A bad match is worse than none.** The poster of a different show looks
//!   like a working feature, so the floor is high and a weak field yields
//!   nothing.
//!
//! The similarity is Sørensen–Dice over character bigrams. Scores are kept as
//! exact fractions, so two candidates tie when their scores are equal and not
//! when they round alike.

use vstd::prelude::*;
use vstd::multiset::Multiset;

use crate::keys;
use crate::keys::title_key;
use crate::library::TitleKind;
use crate::metadata::TitleMetadata;
use crate::text;

verus! {

/// A candidate's score has to reach this many hundredths to be used.
///
/// At this height a missing subtitle or a swapped season number still matches,
/// while two different shows sharing a franchise name do not.
pub const MATCH_FLOOR: u32 = 72;

/// The title being looked up.
#[derive(Debug)]
pub struct Query {
    /// The title as the library has it, already stripped of release tags.
    pub name: String,
    pub year: Option<u32>,
    pub kind: TitleKind,
    /// Whether the library knows what kind of thing this is, rather than having
    /// guessed it from how many files there are.
    pub kind_known: bool,
}

impl Clone for Query {
    fn clone(&self) -> (r: Self)
        ensures
            r == *self,
    {
        Query {
            name: self.name.clone(),
            year: self.year,
            kind: self.kind,
            kind_known: self.kind_known,
        }
    }
}

impl Query {
    pub fn new(name: &str, year: Option<u32>, kind: TitleKind) -> (r: Self)
        ensures
            r.name@ == name@,
            r.year == year,
            r.kind == kind,
            r.kind_known,
    {
        Query { name: text::owned(name), year, kind, kind_known: true }
    }

    /// Say that [`Query::kind`] was inferred rather than stated.
    pub fn with_guessed_kind(self) -> (r: Self)
        ensures
            r == (Query { kind_known: false, ..self }),
    {
        Query { name: self.name, year: self.year, kind: self.kind, kind_known: false }
    }
}

/// One of a provider's answers, with every name it is known by.
#[derive(Debug)]
pub struct Candidate {
    pub metadata: TitleMetadata,
    /// Romaji, English, native, synonyms: whatever the provider had.
    pub aliases: Vec<String>,
    /// Whether the provider stated what kind of thing this is. A kind that it
    /// left out still reads as something on screen, and must not be scored as a
    /// fact.
    pub kind_known: bool,
}

impl Clone for Candidate {
    fn clone(&self) -> (r: Self)
        ensures
            r.metadata@ == self.metadata@,
            text::texts(r.aliases@) == text::texts(self.aliases@),
            r.kind_known == self.kind_known,
    {
        Candidate {
            metadata: self.metadata.clone(),
            aliases: text::copy_strings(&self.aliases),
            kind_known: self.kind_known,
        }
    }
}

/// A fraction.
pub struct Ratio {
    pub parts: nat,
    pub of: nat,
}

/// Whether one fraction is less than another.
pub open spec fn ratio_lt(a: Ratio, b: Ratio) -> bool {
    a.parts * b.of < b.parts * a.of
}

/// How well a candidate answers a query: `parts` out of `of`.
#[derive(Debug, Clone, Copy)]
pub struct Score {
    parts: u128,
    of: u128,
}

impl View for Score {
    type V = Ratio;

    closed spec fn view(&self) -> Ratio {
        Ratio { parts: self.parts as nat, of: self.of as nat }
    }
}

/// Whether `a / b < c / d`, found without multiplying: the whole parts decide,
/// and where they agree the remainders do, turned upside down.
fn fraction_less(a: u128, b: u128, c: u128, d: u128) -> (r: bool)
    requires
        b > 0,
        d > 0,
    ensures
        r == (a * d < c * b),
    decreases b + d,
{
    let whole: u128 = a / b;
    let other: u128 = c / d;
    let rest: u128 = a % b;
    let left: u128 = c % d;
    proof {
        vstd::arithmetic::div_mod::lemma_fundamental_div_mod(a as int, b as int);
        vstd::arithmetic::div_mod::lemma_fundamental_div_mod(c as int, d as int);
        lemma_by_parts(
            a as int,
            b as int,
            c as int,
            d as int,
            whole as int,
            other as int,
            rest as int,
            left as int,
        );
    }
    if whole != other {
        return whole < other;
    }
    if left == 0 {
        assert(rest * d >= 0 && left * b == 0) by (nonlinear_arith)
            requires
                left == 0,
                rest >= 0,
                d > 0,
        ;
        return false;
    }
    if rest == 0 {
        assert(rest * d == 0 && left * b > 0) by (nonlinear_arith)
            requires
                left > 0,
                rest == 0,
                b > 0,
        ;
        return true;
    }
    assert(d * rest == rest * d && b * left == left * b) by (nonlinear_arith);
    fraction_less(d, left, b, rest)
}

/// Two fractions compare as their whole parts, and by their remainders where
/// those agree.
proof fn lemma_by_parts(
    a: int,
    b: int,
    c: int,
    d: int,
    whole: int,
    other: int,
    rest: int,
    left: int,
)
    requires
        b > 0,
        d > 0,
        a == b * whole + rest,
        c == d * other + left,
        0 <= rest < b,
        0 <= left < d,
    ensures
        whole < other ==> a * d < c * b,
        other < whole ==> c * b < a * d,
        whole == other ==> (a * d < c * b) == (rest * d < left * b),
{
    assert(a * d == b * d * whole + rest * d) by (nonlinear_arith)
        requires
            a == b * whole + rest,
    ;
    assert(c * b == b * d * other + left * b) by (nonlinear_arith)
        requires
            c == d * other + left,
    ;
    assert(0 <= rest * d < b * d) by (nonlinear_arith)
        requires
            0 <= rest < b,
            d > 0,
    ;
    assert(0 <= left * b < b * d) by (nonlinear_arith)
        requires
            0 <= left < d,
            b > 0,
    ;
    let unit = b * d;
    if whole < other {
        assert(unit * whole + unit <= unit * other) by (nonlinear_arith)
            requires
                unit > 0,
                whole < other,
        ;
    }
    if other < whole {
        assert(unit * other + unit <= unit * whole) by (nonlinear_arith)
            requires
                unit > 0,
                other < whole,
        ;
    }
}

impl Score {
    /// A score is a fraction between nothing and one.
    pub closed spec fn wf(&self) -> bool {
        0 < self.of && self.parts <= self.of
    }

    /// Whether there is room to count this score in hundredths.
    pub closed spec fn small(&self) -> bool {
        self.of <= 0x4_0000_0000_0000_0000
    }

    /// Whether this score is less than another.
    pub fn below(&self, other: &Score) -> (r: bool)
        requires
            self.wf(),
            other.wf(),
        ensures
            r == ratio_lt(self@, other@),
    {
        fraction_less(self.parts, self.of, other.parts, other.of)
    }

    /// Whether this score reaches a number of hundredths.
    pub fn reaches(&self, hundredths: u32) -> (r: bool)
        requires
            self.wf(),
        ensures
            r == !ratio_lt(self@, (Ratio { parts: hundredths as nat, of: 100 })),
    {
        !fraction_less(self.parts, self.of, hundredths as u128, 100)
    }
}

/// The pairs of neighbouring characters in a text.
pub open spec fn bigrams(s: Seq<char>) -> Seq<(char, char)> {
    Seq::new((s.len() - 1) as nat, |i: int| (s[i], s[i + 1]))
}

/// How many bigrams two texts share. One that stands twice on one side and once
/// on the other counts once.
pub open spec fn shared_bigrams(left: Seq<char>, right: Seq<char>) -> nat {
    bigrams(left).to_multiset().intersection_with(bigrams(right).to_multiset()).len()
}

/// Sørensen–Dice over character bigrams: twice what two texts share, out of all
/// the bigrams they have. A text of one character has none, and is like nothing
/// but itself.
pub open spec fn likeness(left: Seq<char>, right: Seq<char>) -> Ratio {
    if left == right {
        Ratio { parts: 1, of: 1 }
    } else if left.len() < 2 || right.len() < 2 {
        Ratio { parts: 0, of: 1 }
    } else {
        Ratio {
            parts: 2 * shared_bigrams(left, right),
            of: (left.len() - 1 + (right.len() - 1)) as nat,
        }
    }
}

/// Two multisets share no more than either has.
proof fn lemma_intersection_len<A>(a: Multiset<A>, b: Multiset<A>)
    ensures
        a.intersection_with(b).len() <= a.len(),
        a.intersection_with(b).len() <= b.len(),
{
    broadcast use vstd::multiset::group_multiset_axioms;

    let both = a.intersection_with(b);
    assert forall|x: A| both.count(x) <= a.count(x) && both.count(x) <= b.count(x) by {
        vstd::multiset::lemma_intersection_count(a, b, x);
    }
    assert(both.subset_of(a));
    assert(both.subset_of(b));
    assert(a =~= a.sub(both).add(both));
    assert(b =~= b.sub(both).add(both));
}

proof fn lemma_likeness(left: Seq<char>, right: Seq<char>)
    ensures
        likeness(left, right).of > 0,
        likeness(left, right).parts <= likeness(left, right).of,
{
    if left.len() >= 2 && right.len() >= 2 {
        bigrams(left).to_multiset_ensures();
        bigrams(right).to_multiset_ensures();
        lemma_intersection_len(bigrams(left).to_multiset(), bigrams(right).to_multiset());
    }
}

/// The pairs of neighbouring characters in a text.
fn pairs_of(v: &[char]) -> (r: Vec<(char, char)>)
    requires
        v@.len() >= 1,
    ensures
        r@ == bigrams(v@),
{
    let mut out: Vec<(char, char)> = Vec::new();
    let mut i: usize = 1;
    let len: usize = v.len();
    while i < len
        invariant
            1 <= i <= len,
            len == v@.len(),
            out@.len() == i - 1,
            forall|k: int| 0 <= k < i - 1 ==> out@[k] == (v@[k], v@[k + 1]),
        decreases len - i,
    {
        out.push((v[i - 1], v[i]));
        i += 1;
    }
    assert(out@ =~= bigrams(v@));
    out
}

/// Where a pair stands first.
fn position_of_pair(pairs: &Vec<(char, char)>, pair: (char, char)) -> (r: Option<usize>)
    ensures
        match r {
            Some(at) => at < pairs@.len() && pairs@[at as int] == pair,
            None => !pairs@.contains(pair),
        },
{
    let mut i: usize = 0;
    while i < pairs.len()
        invariant
            i <= pairs@.len(),
            forall|k: int| 0 <= k < i ==> pairs@[k] != pair,
        decreases pairs.len() - i,
    {
        let here = pairs[i];
        if here.0 == pair.0 && here.1 == pair.1 {
            return Some(i);
        }
        i += 1;
    }
    None
}

/// One more pair on the left is shared exactly when the right still has one to
/// spare.
proof fn lemma_one_more(
    mine: Multiset<(char, char)>,
    theirs: Multiset<(char, char)>,
    spare: Multiset<(char, char)>,
    pair: (char, char),
)
    requires
        spare =~= theirs.sub(mine.intersection_with(theirs)),
    ensures
        spare.count(pair) > 0 ==> {
            &&& mine.insert(pair).intersection_with(theirs).len() == mine.intersection_with(
                theirs,
            ).len() + 1
            &&& spare.remove(pair) =~= theirs.sub(mine.insert(pair).intersection_with(theirs))
        },
        spare.count(pair) == 0 ==> {
            &&& mine.insert(pair).intersection_with(theirs) == mine.intersection_with(theirs)
            &&& spare =~= theirs.sub(mine.insert(pair).intersection_with(theirs))
        },
{
    broadcast use vstd::multiset::group_multiset_axioms;

    let before = mine.intersection_with(theirs);
    let more = mine.insert(pair);
    let after = more.intersection_with(theirs);
    assert forall|x: (char, char)|
        #![trigger before.count(x)]
        #![trigger after.count(x)]
        before.count(x) == (if mine.count(x) <= theirs.count(x) {
            mine.count(x)
        } else {
            theirs.count(x)
        }) && after.count(x) == (if more.count(x) <= theirs.count(x) {
            more.count(x)
        } else {
            theirs.count(x)
        }) by {
        vstd::multiset::lemma_intersection_count(mine, theirs, x);
        vstd::multiset::lemma_intersection_count(more, theirs, x);
    }
    assert forall|x: (char, char)| #[trigger] more.count(x) == mine.count(x) + (if x == pair {
        1nat
    } else {
        0nat
    }) by {
        if x != pair {
            vstd::multiset::axiom_multiset_singleton_different(pair, x);
        }
    }
    assert(before.subset_of(theirs));
    assert(after.subset_of(theirs));
    if spare.count(pair) > 0 {
        assert(after =~= before.insert(pair)) by {
            assert forall|x: (char, char)| #[trigger] after.count(x) == before.insert(pair).count(
                x,
            ) by {
                if x != pair {
                    vstd::multiset::axiom_multiset_singleton_different(pair, x);
                }
            }
        }
    } else {
        assert(after =~= before);
    }
}

/// Sørensen–Dice over character bigrams, on already-normalised strings.
pub fn similarity(left: &str, right: &str) -> (r: Score)
    ensures
        r.wf(),
        r.small(),
        r@ == likeness(left@, right@),
{
    let left = text::to_chars(left);
    let right = text::to_chars(right);
    if text::same_chars(&left, &right) {
        return Score { parts: 1, of: 1 };
    }
    if left.len() < 2 || right.len() < 2 {
        return Score { parts: 0, of: 1 };
    }
    let mine = pairs_of(&left);
    let mut spare = pairs_of(&right);
    let ghost theirs = spare@.to_multiset();
    let mut shared: usize = 0;
    let mut i: usize = 0;
    let len: usize = mine.len();
    proof {
        broadcast use vstd::multiset::group_multiset_axioms;

        let none = mine@.take(0).to_multiset();
        mine@.take(0).to_multiset_ensures();
        assert(none =~= Multiset::<(char, char)>::empty());
        assert(none.intersection_with(theirs) =~= Multiset::empty()) by {
            assert forall|x: (char, char)| none.intersection_with(theirs).count(x) == 0 by {
                vstd::multiset::lemma_intersection_count(none, theirs, x);
            }
        }
        assert(spare@.to_multiset() =~= theirs.sub(none.intersection_with(theirs)));
    }
    while i < len
        invariant
            i <= len,
            len == mine@.len(),
            shared <= i,
            shared == mine@.take(i as int).to_multiset().intersection_with(theirs).len(),
            spare@.to_multiset() =~= theirs.sub(
                mine@.take(i as int).to_multiset().intersection_with(theirs),
            ),
        decreases len - i,
    {
        let pair = mine[i];
        proof {
            assert(mine@.take(i + 1) =~= mine@.take(i as int).push(pair));
            mine@.take(i as int).to_multiset_ensures();
            lemma_one_more(
                mine@.take(i as int).to_multiset(),
                theirs,
                spare@.to_multiset(),
                pair,
            );
            spare@.to_multiset_ensures();
        }
        match position_of_pair(&spare, pair) {
            Some(at) => {
                assert(spare@.contains(pair));
                let ghost before = spare@;
                let _taken = spare.remove(at);
                assert(spare@ =~= before.remove(at as int));
                shared += 1;
            },
            None => {},
        }
        i += 1;
    }
    assert(mine@.take(len as int) =~= mine@);
    proof {
        lemma_likeness(left@, right@);
    }
    Score {
        parts: 2 * (shared as u128),
        of: (left.len() - 1) as u128 + (right.len() - 1) as u128,
    }
}

/// The best likeness of any of a candidate's names.
pub open spec fn best_likeness(wanted: Seq<char>, keys: Seq<Seq<char>>) -> Ratio
    decreases keys.len(),
{
    if keys.len() == 0 {
        Ratio { parts: 0, of: 1 }
    } else {
        let front = best_likeness(wanted, keys.drop_last());
        let last = likeness(wanted, keys.last());
        if ratio_lt(front, last) {
            last
        } else {
            front
        }
    }
}

/// What the years add, in hundredths. The same year is strong evidence for two
/// titles that already read alike. A year apart is normal; further apart is not.
pub open spec fn year_nudge(wanted: Option<u32>, found: Option<u32>) -> int {
    match (wanted, found) {
        (Some(wanted), Some(found)) => if wanted == found {
            6
        } else if wanted - found > 1 || found - wanted > 1 {
            -15
        } else {
            0
        },
        _ => 0,
    }
}

/// What the kinds add, in hundredths: a nudge, and only where both sides said.
pub open spec fn kind_nudge(query: Query, kind: TitleKind, kind_known: bool) -> int {
    if query.kind_known && kind_known && query.kind != kind {
        -5
    } else {
        0
    }
}

/// A fraction moved by some hundredths, and kept between nothing and one.
pub open spec fn nudged(base: Ratio, hundredths: int) -> Ratio {
    let parts = 100 * base.parts + hundredths * base.of;
    Ratio {
        parts: if parts < 0 {
            0
        } else if parts > 100 * base.of {
            100 * base.of
        } else {
            parts as nat
        },
        of: 100 * base.of,
    }
}

/// The score of a candidate whose names have these keys, against a query whose
/// name has the key `wanted`.
pub open spec fn keyed_score(
    query: Query,
    wanted: Seq<char>,
    candidate: Candidate,
    keys: Seq<Seq<char>>,
) -> Ratio {
    if wanted.len() == 0 {
        Ratio { parts: 0, of: 1 }
    } else {
        nudged(
            best_likeness(wanted, keys),
            year_nudge(query.year, candidate.metadata.year) + kind_nudge(
                query,
                candidate.metadata.kind,
                candidate.kind_known,
            ),
        )
    }
}

/// The keys of some names.
pub open spec fn keys_of(names: Seq<String>) -> Seq<Seq<char>> {
    Seq::new(names.len(), |i: int| keys::title_key_of(names[i]@))
}

/// How well a candidate answers a query.
pub open spec fn score_of(query: Query, candidate: Candidate) -> Ratio {
    keyed_score(
        query,
        keys::title_key_of(query.name@),
        candidate,
        keys_of(candidate.aliases@),
    )
}

/// The best likeness is a fraction between nothing and one, and no name's
/// likeness exceeds it.
proof fn lemma_best_likeness(wanted: Seq<char>, keys: Seq<Seq<char>>)
    ensures
        best_likeness(wanted, keys).of > 0,
        best_likeness(wanted, keys).parts <= best_likeness(wanted, keys).of,
        forall|k: int|
            0 <= k < keys.len() ==> !ratio_lt(
                best_likeness(wanted, keys),
                #[trigger] likeness(wanted, keys[k]),
            ),
    decreases keys.len(),
{
    if keys.len() > 0 {
        let front = keys.drop_last();
        lemma_best_likeness(wanted, front);
        lemma_likeness(wanted, keys.last());
        let best = best_likeness(wanted, keys);
        assert forall|k: int| 0 <= k < keys.len() implies !ratio_lt(
            best,
            #[trigger] likeness(wanted, keys[k]),
        ) by {
            if k < front.len() {
                assert(front[k] == keys[k]);
                lemma_likeness(wanted, keys[k]);
                if ratio_lt(best_likeness(wanted, front), likeness(wanted, keys.last())) {
                    lemma_not_below(
                        likeness(wanted, keys[k]),
                        best_likeness(wanted, front),
                        likeness(wanted, keys.last()),
                    );
                }
            } else {
                assert(keys[k] == keys.last());
            }
        }
    }
}

/// What is not above something smaller is below what is larger.
proof fn lemma_not_below(a: Ratio, b: Ratio, c: Ratio)
    requires
        a.of > 0,
        b.of > 0,
        c.of > 0,
        !ratio_lt(b, a),
        ratio_lt(b, c),
    ensures
        ratio_lt(a, c),
        !ratio_lt(c, a),
{
    let (x, u) = (a.parts as int, a.of as int);
    let (y, v) = (b.parts as int, b.of as int);
    let (z, w) = (c.parts as int, c.of as int);
    assert(x * w < z * u) by (nonlinear_arith)
        requires
            u > 0,
            v > 0,
            w > 0,
            x >= 0,
            y >= 0,
            z >= 0,
            x * v <= y * u,
            y * w < z * v,
    {
        assert((x * v) * w <= (y * u) * w);
        assert((y * w) * u < (z * v) * u);
        assert((x * w) * v < (z * u) * v);
    }
}

/// The score of a candidate, given the key of the name that is wanted and the
/// keys of the names it has.
pub fn score_by_keys(
    query: &Query,
    wanted: &str,
    candidate: &Candidate,
    keys: &[String],
) -> (r: Score)
    ensures
        r.wf(),
        r@ == keyed_score(*query, wanted@, *candidate, text::texts(keys@)),
{
    if wanted.is_empty() {
        return Score { parts: 0, of: 1 };
    }
    let mut best: Score = Score { parts: 0, of: 1 };
    let mut i: usize = 0;
    let len: usize = keys.len();
    let ghost all = text::texts(keys@);
    assert(all.take(0) =~= Seq::<Seq<char>>::empty());
    while i < len
        invariant
            i <= len,
            len == keys@.len(),
            all == text::texts(keys@),
            best.wf(),
            best.small(),
            best@ == best_likeness(wanted@, all.take(i as int)),
        decreases len - i,
    {
        assert(all.take(i + 1).drop_last() =~= all.take(i as int));
        assert(all.take(i + 1).last() == keys@[i as int]@);
        let here = similarity(wanted, keys[i].as_str());
        if best.below(&here) {
            best = here;
        }
        i += 1;
    }
    assert(all.take(len as int) =~= all);
    let mut up: u128 = 0;
    let mut down: u128 = 0;
    match (query.year, candidate.metadata.year) {
        (Some(wanted), Some(found)) => {
            if wanted == found {
                up = 6;
            } else if (wanted > found && wanted - found > 1) || (found > wanted && found - wanted
                > 1) {
                down = 15;
            }
        },
        _ => {},
    }
    if query.kind_known && candidate.kind_known && query.kind != candidate.metadata.kind {
        down = down + 5;
    }
    nudge(best, up, down)
}

/// Move a score by some hundredths up and some down.
fn nudge(best: Score, up: u128, down: u128) -> (r: Score)
    requires
        best.wf(),
        best.small(),
        up <= 6,
        down <= 20,
    ensures
        r.wf(),
        r@ == nudged(best@, up - down),
{
    let of = best.of;
    let parts = best.parts;
    assert(0 <= up * of <= 6 * of && 0 <= down * of <= 20 * of && (up - down) * of == up * of - down
        * of) by (nonlinear_arith)
        requires
            0 <= up <= 6,
            0 <= down <= 20,
            of > 0,
    ;
    let whole: u128 = 100 * of;
    let plus: u128 = 100 * parts + up * of;
    let minus: u128 = down * of;
    if plus < minus {
        Score { parts: 0, of: whole }
    } else if plus - minus > whole {
        Score { parts: whole, of: whole }
    } else {
        Score { parts: plus - minus, of: whole }
    }
}

/// How well a candidate answers a query, from nothing to one.
pub fn score(query: &Query, candidate: &Candidate) -> (r: Score)
    ensures
        r.wf(),
        r@ == score_of(*query, *candidate),
{
    let wanted = title_key(query.name.as_str());
    let mut keys: Vec<String> = Vec::new();
    let mut i: usize = 0;
    let len: usize = candidate.aliases.len();
    while i < len
        invariant
            i <= len,
            len == candidate.aliases@.len(),
            keys@.len() == i,
            forall|k: int|
                0 <= k < i ==> (#[trigger] keys@[k])@ == keys::title_key_of(
                    candidate.aliases@[k]@,
                ),
        decreases len - i,
    {
        keys.push(title_key(candidate.aliases[i].as_str()));
        i += 1;
    }
    assert(text::texts(keys@) =~= keys_of(candidate.aliases@));
    score_by_keys(query, wanted.as_str(), candidate, &keys)
}

/// The floor, as a fraction.
pub open spec fn floor() -> Ratio {
    Ratio { parts: MATCH_FLOOR as nat, of: 100 }
}

/// Whether the candidate at `i` is the answer: it reaches the floor, none scores
/// higher, and every one listed before it scores lower.
pub open spec fn is_answer(query: Query, candidates: Seq<Candidate>, i: int) -> bool {
    &&& 0 <= i < candidates.len()
    &&& !ratio_lt(score_of(query, candidates[i]), floor())
    &&& forall|j: int|
        0 <= j < candidates.len() ==> !ratio_lt(
            score_of(query, candidates[i]),
            score_of(query, #[trigger] candidates[j]),
        )
    &&& forall|j: int|
        0 <= j < i ==> ratio_lt(
            score_of(query, #[trigger] candidates[j]),
            score_of(query, candidates[i]),
        )
}

/// The best answer that reaches [`MATCH_FLOOR`], if there is one.
///
/// Ties go to whichever the provider listed first. Franchises share synonyms, so
/// several entries can score alike; when the text cannot separate them, the
/// provider's own order of relevance is the only evidence left.
pub fn best(query: &Query, candidates: Vec<Candidate>) -> (r: Option<TitleMetadata>)
    ensures
        match r {
            Some(found) => exists|i: int|
                is_answer(*query, candidates@, i) && found == (#[trigger] candidates@[i]).metadata,
            None => forall|i: int|
                0 <= i < candidates@.len() ==> ratio_lt(
                    score_of(*query, #[trigger] candidates@[i]),
                    floor(),
                ),
        },
{
    let mut found: Option<(usize, Score)> = None;
    let mut i: usize = 0;
    let len: usize = candidates.len();
    while i < len
        invariant
            i <= len,
            len == candidates@.len(),
            match found {
                None => i == 0,
                Some((at, top)) => {
                    &&& at < i
                    &&& top.wf()
                    &&& top@ == score_of(*query, candidates@[at as int])
                    &&& forall|j: int|
                        0 <= j < i ==> !ratio_lt(
                            top@,
                            score_of(*query, #[trigger] candidates@[j]),
                        )
                    &&& forall|j: int|
                        0 <= j < at ==> ratio_lt(
                            score_of(*query, #[trigger] candidates@[j]),
                            top@,
                        )
                },
            },
        decreases len - i,
    {
        let here = score(query, &candidates[i]);
        match found {
            None => {
                found = Some((i, here));
            },
            Some((_at, top)) => {
                if top.below(&here) {
                    assert forall|j: int| 0 <= j < i implies ratio_lt(
                        score_of(*query, #[trigger] candidates@[j]),
                        here@,
                    ) && !ratio_lt(here@, score_of(*query, candidates@[j])) by {
                        lemma_score_of(*query, candidates@[j]);
                        lemma_score_of(*query, candidates@[_at as int]);
                        lemma_score_of(*query, candidates@[i as int]);
                        lemma_not_below(score_of(*query, candidates@[j]), top@, here@);
                    }
                    found = Some((i, here));
                }
            },
        }
        i += 1;
    }
    let (at, top) = match found {
        None => {
            return None;
        },
        Some(pair) => pair,
    };
    if !top.reaches(MATCH_FLOOR) {
        assert forall|j: int| 0 <= j < candidates@.len() implies ratio_lt(
            score_of(*query, #[trigger] candidates@[j]),
            floor(),
        ) by {
            lemma_score_of(*query, candidates@[j]);
            lemma_score_of(*query, candidates@[at as int]);
            lemma_not_below(score_of(*query, candidates@[j]), top@, floor());
        }
        return None;
    }
    assert(is_answer(*query, candidates@, at as int));
    let mut rest = candidates;
    let chosen = rest.swap_remove(at);
    Some(chosen.metadata)
}

proof fn lemma_score_of(query: Query, candidate: Candidate)
    ensures
        score_of(query, candidate).of > 0,
        score_of(query, candidate).parts <= score_of(query, candidate).of,
{
    lemma_best_likeness(keys::title_key_of(query.name@), keys_of(candidate.aliases@));
}

/// Every alias counts: a candidate is as like the title as the likest of its
/// names.
pub proof fn law_every_alias_counts(wanted: Seq<char>, keys: Seq<Seq<char>>, k: int)
    requires
        0 <= k < keys.len(),
    ensures
        !ratio_lt(best_likeness(wanted, keys), likeness(wanted, keys[k])),
        exists|j: int|
            0 <= j < keys.len() && !ratio_lt(
                #[trigger] likeness(wanted, keys[j]),
                best_likeness(wanted, keys),
            ),
    decreases keys.len(),
{
    lemma_best_likeness(wanted, keys);
    let front = keys.drop_last();
    let last = likeness(wanted, keys.last());
    lemma_likeness(wanted, keys.last());
    lemma_best_likeness(wanted, front);
    assert(keys[keys.len() - 1] == keys.last());
    if !ratio_lt(best_likeness(wanted, front), last) {
        if front.len() == 0 {
            let nothing = best_likeness(wanted, front);
            assert(last.parts == 0) by (nonlinear_arith)
                requires
                    nothing.parts == 0,
                    nothing.of == 1,
                    !(nothing.parts * last.of < last.parts * nothing.of),
            ;
            assert(last.parts * nothing.of == 0 && nothing.parts * last.of == 0)
                by (nonlinear_arith)
                requires
                    last.parts == 0,
                    nothing.parts == 0,
            ;
            assert(!ratio_lt(likeness(wanted, keys[keys.len() - 1]), best_likeness(wanted, keys)));
        } else {
            law_every_alias_counts(wanted, front, 0);
            let j = choose|j: int|
                0 <= j < front.len() && !ratio_lt(
                    #[trigger] likeness(wanted, front[j]),
                    best_likeness(wanted, front),
                );
            assert(front[j] == keys[j]);
            assert(!ratio_lt(likeness(wanted, keys[j]), best_likeness(wanted, keys)));
        }
    }
}

/// A score lies between nothing and one.
pub proof fn law_a_score_is_at_most_one(score: &Score)
    requires
        score.wf(),
    ensures
        0 < score@.of,
        score@.parts <= score@.of,
{
}

/// A candidate with a name that reads as the wanted one scores perfectly, unless
/// the years or the kinds that both sides state contradict each other.
pub proof fn law_the_same_name_scores_perfectly(query: Query, candidate: Candidate, k: int)
    requires
        0 <= k < candidate.aliases@.len(),
        keys::title_key_of(query.name@).len() > 0,
        keys::title_key_of(candidate.aliases@[k]@) == keys::title_key_of(query.name@),
        year_nudge(query.year, candidate.metadata.year) >= 0,
        kind_nudge(query, candidate.metadata.kind, candidate.kind_known) == 0,
    ensures
        score_of(query, candidate).parts == score_of(query, candidate).of,
{
    let wanted = keys::title_key_of(query.name@);
    let all = keys_of(candidate.aliases@);
    lemma_best_likeness(wanted, all);
    assert(likeness(wanted, all[k]).parts == 1);
    let best = best_likeness(wanted, all);
    let perfect = likeness(wanted, all[k]);
    assert(best.parts >= best.of) by (nonlinear_arith)
        requires
            perfect.parts == 1,
            perfect.of == 1,
            !(best.parts * perfect.of < perfect.parts * best.of),
    ;
    let hundredths = year_nudge(query.year, candidate.metadata.year) + kind_nudge(
        query,
        candidate.metadata.kind,
        candidate.kind_known,
    );
    assert(hundredths * best.of >= 0) by (nonlinear_arith)
        requires
            hundredths >= 0,
            best.of >= 0,
    ;
}

/// Likeness does not depend on which text is named first, and every text is
/// perfectly like itself.
pub proof fn law_likeness_is_mutual(left: Seq<char>, right: Seq<char>)
    ensures
        likeness(left, right) == likeness(right, left),
        likeness(left, left) == (Ratio { parts: 1, of: 1 }),
{
    let a = bigrams(left).to_multiset();
    let b = bigrams(right).to_multiset();
    assert(a.intersection_with(b) =~= b.intersection_with(a)) by {
        assert forall|x: (char, char)| #[trigger]
            a.intersection_with(b).count(x) == b.intersection_with(a).count(x) by {
            vstd::multiset::lemma_intersection_count(a, b, x);
            vstd::multiset::lemma_intersection_count(b, a, x);
        }
    }
}

/// A kind that either side did not state costs the candidate nothing: it scores
/// no lower than it would have with the kind stated.
pub proof fn law_a_guessed_kind_costs_nothing(query: Query, candidate: Candidate)
    ensures
        !ratio_lt(score_of((Query { kind_known: false, ..query }), candidate), score_of(query, candidate)),
        !ratio_lt(
            score_of(query, (Candidate { kind_known: false, ..candidate })),
            score_of(query, candidate),
        ),
{
    let wanted = keys::title_key_of(query.name@);
    let all = keys_of(candidate.aliases@);
    lemma_best_likeness(wanted, all);
    let base = best_likeness(wanted, all);
    let year = year_nudge(query.year, candidate.metadata.year);
    lemma_nudges_in_order(base, year - 5, year);
    lemma_nudges_in_order(base, year, year);
    assert(!ratio_lt(Ratio { parts: 0, of: 1 }, Ratio { parts: 0, of: 1 }));
}

proof fn lemma_nudges_in_order(base: Ratio, less: int, more: int)
    requires
        less <= more,
    ensures
        !ratio_lt(nudged(base, more), nudged(base, less)),
{
    assert(less * base.of <= more * base.of) by (nonlinear_arith)
        requires
            less <= more,
            base.of >= 0,
    ;
    let low = nudged(base, less);
    let high = nudged(base, more);
    assert(low.parts * high.of <= high.parts * low.of) by (nonlinear_arith)
        requires
            low.parts <= high.parts,
            low.of == high.of,
    ;
}

/// A candidate of another year.
pub open spec fn of_year(candidate: Candidate, year: Option<u32>) -> Candidate {
    Candidate { metadata: TitleMetadata { year, ..candidate.metadata }, ..candidate }
}

/// What the years are worth. A candidate that states the wanted year gains six
/// hundredths, and one that states a year more than one away from it loses
/// fifteen, each against the same candidate with no year. A year exactly one away
/// changes nothing, and neither does a year where none is wanted.
#[verifier::rlimit(40)]
pub proof fn law_what_the_years_are_worth(query: Query, candidate: Candidate, year: u32)
    ensures
        ({
            let without = score_of(query, of_year(candidate, None));
            let with = score_of(query, of_year(candidate, Some(year)));
            &&& with.of == without.of && 0 < with.of
            &&& query.year is None ==> with == without
            &&& query.year matches Some(wanted) ==> {
                let apart = if wanted < year {
                    year - wanted
                } else {
                    wanted - year
                };
                &&& apart == 1 ==> with == without
                &&& 0 < without.parts < without.of && apart == 0 ==> with.parts == with.of || with.parts
                    * 100 == without.parts * 100 + 6 * without.of
                &&& 0 < without.parts < without.of && apart > 1 ==> with.parts == 0 || with.parts
                    * 100 == without.parts * 100 - 15 * without.of
                &&& 0 < without.parts && apart == 0 ==> !ratio_lt(with, without)
                &&& 0 < without.parts && apart > 1 ==> ratio_lt(with, without)
            }
        }),
{
    let wanted = keys::title_key_of(query.name@);
    let base = best_likeness(wanted, keys_of(candidate.aliases@));
    lemma_best_likeness(wanted, keys_of(candidate.aliases@));
    let kind = kind_nudge(query, candidate.metadata.kind, candidate.kind_known);
    let of = base.of as int;
    assert(6 * of + kind * of == (6 + kind) * of && -15 * of + kind * of == (-15 + kind) * of)
        by (nonlinear_arith);
    assert(kind * of <= 0) by (nonlinear_arith)
        requires
            kind <= 0,
            of > 0,
    ;
    let without = score_of(query, of_year(candidate, None));
    let with = score_of(query, of_year(candidate, Some(year)));
    lemma_score_of(query, of_year(candidate, None));
    lemma_score_of(query, of_year(candidate, Some(year)));
    assert(of_year(candidate, None).aliases == candidate.aliases);
    assert(ratio_lt(with, without) <==> with.parts < without.parts) by (nonlinear_arith)
        requires
            with.of == without.of,
            with.of > 0,
            ratio_lt(with, without) <==> with.parts * without.of < without.parts * with.of,
    ;
}

/// Of two candidates that differ only in the year, the one that states the wanted
/// year scores strictly higher than one whose year is more than one off, as long
/// as it scores anything at all.
#[verifier::rlimit(40)]
pub proof fn law_the_right_year_wins(query: Query, candidate: Candidate, wanted: u32, year: u32)
    requires
        query.year == Some(wanted),
        wanted - year > 1 || year - wanted > 1,
        score_of(query, of_year(candidate, Some(wanted))).parts > 0,
    ensures
        ratio_lt(
            score_of(query, of_year(candidate, Some(year))),
            score_of(query, of_year(candidate, Some(wanted))),
        ),
{
    let wanted_key = keys::title_key_of(query.name@);
    let base = best_likeness(wanted_key, keys_of(candidate.aliases@));
    lemma_best_likeness(wanted_key, keys_of(candidate.aliases@));
    let kind = kind_nudge(query, candidate.metadata.kind, candidate.kind_known);
    let of = base.of as int;
    assert(6 * of + kind * of == (6 + kind) * of && -15 * of + kind * of == (-15 + kind) * of)
        by (nonlinear_arith);
    assert(kind * of <= 0) by (nonlinear_arith)
        requires
            kind <= 0,
            of > 0,
    ;
    let right = score_of(query, of_year(candidate, Some(wanted)));
    let wrong = score_of(query, of_year(candidate, Some(year)));
    assert(ratio_lt(wrong, right) <==> wrong.parts < right.parts) by (nonlinear_arith)
        requires
            wrong.of == right.of,
            wrong.of > 0,
            ratio_lt(wrong, right) <==> wrong.parts * right.of < right.parts * wrong.of,
    ;
}

/// What the kinds are worth. A candidate of the other kind loses five hundredths
/// against the same candidate of the wanted kind, but only where both sides said
/// what kind they are of.
pub proof fn law_what_the_kinds_are_worth(query: Query, candidate: Candidate)
    ensures
        ({
            let alike = score_of(query, Candidate { kind_known: false, ..candidate });
            let here = score_of(query, candidate);
            &&& here.of == alike.of && 0 < here.of
            &&& query.kind == candidate.metadata.kind || !query.kind_known
                || !candidate.kind_known ==> here == alike
            &&& query.kind != candidate.metadata.kind && query.kind_known && candidate.kind_known
                && 0 < alike.parts < alike.of ==> here.parts == 0 || here.parts * 100 == alike.parts
                * 100 - 5 * alike.of
        }),
{
    let wanted = keys::title_key_of(query.name@);
    let base = best_likeness(wanted, keys_of(candidate.aliases@));
    lemma_best_likeness(wanted, keys_of(candidate.aliases@));
    let year = year_nudge(query.year, candidate.metadata.year);
    let of = base.of as int;
    assert(year * of - 5 * of == (year - 5) * of) by (nonlinear_arith);
}

/// The floor is seventy-two hundredths: an answer reaches it, and where there is
/// none no candidate does.
pub proof fn law_the_floor_is_high(query: Query, candidates: Seq<Candidate>, i: int)
    requires
        is_answer(query, candidates, i),
    ensures
        score_of(query, candidates[i]).parts * 100 >= score_of(query, candidates[i]).of * 72,
        floor().parts * 100 == 72 * floor().of,
{
}

/// A text that another begins with shares every one of its bigrams with it: the
/// likeness of the two is twice those, out of the bigrams of both.
pub proof fn law_a_longer_name_is_less_alike(left: Seq<char>, more: Seq<char>)
    requires
        left.len() >= 2,
        more.len() > 0,
    ensures
        likeness(left, left + more).parts == 2 * (left.len() - 1),
        likeness(left, left + more).of == 2 * (left.len() - 1) + more.len(),
        ratio_lt(likeness(left, left + more), Ratio { parts: 1, of: 1 }),
{
    let right = left + more;
    let a = bigrams(left);
    let b = bigrams(right);
    assert(left != right) by {
        assert(left.len() < right.len());
    }
    let rest = b.skip(a.len() as int);
    assert(b =~= a + rest);
    vstd::seq_lib::lemma_multiset_commutative(a, rest);
    a.to_multiset_ensures();
    let both = a.to_multiset().intersection_with(b.to_multiset());
    assert(both =~= a.to_multiset()) by {
        assert forall|x: (char, char)| #[trigger] both.count(x) == a.to_multiset().count(x) by {
            vstd::multiset::lemma_intersection_count(a.to_multiset(), b.to_multiset(), x);
        }
    }
}

/// Texts that share no bigram are nothing alike.
pub proof fn law_nothing_shared_is_nothing_alike(left: Seq<char>, right: Seq<char>)
    requires
        left != right,
        forall|i: int, j: int|
            0 <= i < left.len() - 1 && 0 <= j < right.len() - 1 ==> !(#[trigger] left[i]
                == #[trigger] right[j] && left[i + 1] == right[j + 1]),
    ensures
        likeness(left, right).parts == 0,
{
    let a = bigrams(left).to_multiset();
    let b = bigrams(right).to_multiset();
    if left.len() >= 2 && right.len() >= 2 {
        let both = a.intersection_with(b);
        bigrams(left).to_multiset_ensures();
        bigrams(right).to_multiset_ensures();
        assert(both =~= Multiset::empty()) by {
            assert forall|x: (char, char)| #[trigger] both.count(x) == 0 by {
                vstd::multiset::lemma_intersection_count(a, b, x);
                if a.count(x) > 0 && b.count(x) > 0 {
                    assert(bigrams(left).contains(x) && bigrams(right).contains(x));
                    let i = choose|i: int| 0 <= i < bigrams(left).len() && bigrams(left)[i] == x;
                    let j = choose|j: int| 0 <= j < bigrams(right).len() && bigrams(right)[j] == x;
                    assert(left[i] == right[j]);
                }
            }
        }
    }
}

/// The answer is the first of the best: nothing scores higher, and of those that
/// score the same it is the one listed first.
pub proof fn law_ties_go_to_the_first(query: Query, candidates: Seq<Candidate>, i: int, j: int)
    requires
        is_answer(query, candidates, i),
        0 <= j < candidates.len(),
    ensures
        !ratio_lt(score_of(query, candidates[i]), score_of(query, candidates[j])),
        !ratio_lt(score_of(query, candidates[j]), score_of(query, candidates[i])) ==> i <= j,
{
}

/// A name that leaves no letters to compare matches nothing.
pub proof fn law_an_empty_name_matches_nothing(query: Query, candidate: Candidate)
    requires
        keys::title_key_of(query.name@).len() == 0,
    ensures
        score_of(query, candidate).parts == 0,
        ratio_lt(score_of(query, candidate), floor()),
{
}

} // verus!
