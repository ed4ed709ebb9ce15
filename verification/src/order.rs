//! Putting things in order, and keeping the order of what ranks equal.

use vstd::multiset::Multiset;
use vstd::prelude::*;
use vstd::seq_lib::*;

verus! {

/// `s` with `x` put in front of the first of the trailing elements that `x`
/// ranks before, and behind everything it ranks equal with.
pub open spec fn insert_by<T>(s: Seq<T>, x: T, lt: spec_fn(T, T) -> bool) -> Seq<T>
    decreases s.len(),
{
    if s.len() > 0 && lt(x, s.last()) {
        insert_by(s.drop_last(), x, lt).push(s.last())
    } else {
        s.push(x)
    }
}

/// `s` in the order of `lt`; elements that rank equal stay in the order they
/// came in.
pub open spec fn sorted_by<T>(s: Seq<T>, lt: spec_fn(T, T) -> bool) -> Seq<T>
    decreases s.len(),
{
    if s.len() == 0 {
        s
    } else {
        insert_by(sorted_by(s.drop_last(), lt), s.last(), lt)
    }
}

/// `lt` ranks: nothing ranks before itself both ways, and what does not rank
/// before a third thing by way of a second does not rank before it at all.
pub open spec fn ranks<T>(lt: spec_fn(T, T) -> bool) -> bool {
    &&& forall|a: T, b: T| #[trigger] lt(a, b) ==> !lt(b, a)
    &&& forall|a: T, b: T, c: T| !#[trigger] lt(a, b) && !#[trigger] lt(b, c) ==> !lt(a, c)
}

/// No later element ranks before an earlier one.
pub open spec fn in_order<T>(s: Seq<T>, lt: spec_fn(T, T) -> bool) -> bool {
    forall|i: int, j: int|
        #![trigger s[i], s[j]]
        0 <= i < j < s.len() ==> !lt(s[j], s[i])
}

proof fn lemma_insert<T>(s: Seq<T>, x: T, lt: spec_fn(T, T) -> bool)
    ensures
        insert_by(s, x, lt).len() == s.len() + 1,
        insert_by(s, x, lt).to_multiset() == s.to_multiset().insert(x),
        ranks(lt) && in_order(s, lt) ==> in_order(insert_by(s, x, lt), lt),
    decreases s.len(),
{
    broadcast use group_to_multiset_ensures;

    if s.len() > 0 && lt(x, s.last()) {
        let front = s.drop_last();
        let inner = insert_by(front, x, lt);
        lemma_insert(front, x, lt);
        assert(front.push(s.last()) =~= s);
        assert(insert_by(s, x, lt).to_multiset() =~= s.to_multiset().insert(x));
        if ranks(lt) && in_order(s, lt) {
            let out = insert_by(s, x, lt);
            assert(in_order(front, lt)) by {
                assert forall|i: int, j: int|
                    #![trigger front[i], front[j]]
                    0 <= i < j < front.len() implies !lt(front[j], front[i]) by {
                    assert(front[i] == s[i] && front[j] == s[j]);
                }
            }
            assert forall|i: int| 0 <= i < inner.len() implies !lt(s.last(), #[trigger] inner[i]) by {
                assert(inner.to_multiset().contains(inner[i]));
                if inner[i] != x {
                    assert(front.to_multiset().contains(inner[i]));
                    assert(front.contains(inner[i]));
                    let k = choose|k: int| 0 <= k < front.len() && front[k] == inner[i];
                    assert(s[k] == inner[i] && s[s.len() - 1] == s.last());
                }
            }
            assert forall|i: int, j: int|
                #![trigger out[i], out[j]]
                0 <= i < j < out.len() implies !lt(out[j], out[i]) by {
                if j == out.len() - 1 {
                    assert(out[i] == inner[i]);
                } else {
                    assert(out[i] == inner[i] && out[j] == inner[j]);
                }
            }
        }
    } else {
        assert(s.push(x).to_multiset() =~= s.to_multiset().insert(x));
        if ranks(lt) && in_order(s, lt) {
            let out = s.push(x);
            assert forall|i: int, j: int|
                #![trigger out[i], out[j]]
                0 <= i < j < out.len() implies !lt(out[j], out[i]) by {
                if j == s.len() {
                    assert(out[i] == s[i]);
                    if i < s.len() - 1 {
                        assert(!lt(x, s.last()) && !lt(s[s.len() - 1], s[i]));
                    }
                } else {
                    assert(out[i] == s[i] && out[j] == s[j]);
                }
            }
        }
    }
}

/// Sorting loses nothing and adds nothing, and puts what it holds in order.
pub proof fn lemma_sorted<T>(s: Seq<T>, lt: spec_fn(T, T) -> bool)
    ensures
        sorted_by(s, lt).len() == s.len(),
        sorted_by(s, lt).to_multiset() == s.to_multiset(),
        ranks(lt) ==> in_order(sorted_by(s, lt), lt),
    decreases s.len(),
{
    broadcast use group_to_multiset_ensures;

    if s.len() > 0 {
        let front = s.drop_last();
        lemma_sorted(front, lt);
        lemma_insert(sorted_by(front, lt), s.last(), lt);
        assert(front.push(s.last()) =~= s);
    }
}

/// What is sorted holds exactly what was there.
pub proof fn lemma_sorted_contains<T>(s: Seq<T>, lt: spec_fn(T, T) -> bool, x: T)
    ensures
        sorted_by(s, lt).contains(x) == s.contains(x),
{
    broadcast use group_to_multiset_ensures;

    lemma_sorted(s, lt);
    assert(s.to_multiset().contains(x) == s.contains(x));
    assert(sorted_by(s, lt).to_multiset().contains(x) == sorted_by(s, lt).contains(x));
}

proof fn lemma_insert_maps<A, B>(
    s: Seq<A>,
    x: A,
    lt: spec_fn(A, A) -> bool,
    f: spec_fn(A) -> B,
    over: spec_fn(B, B) -> bool,
    good: spec_fn(A) -> bool,
)
    requires
        forall|a: A, b: A| good(a) && good(b) ==> #[trigger] lt(a, b) == over(f(a), f(b)),
        forall|i: int| 0 <= i < s.len() ==> good(#[trigger] s[i]),
        good(x),
    ensures
        insert_by(s, x, lt).map_values(f) == insert_by(s.map_values(f), f(x), over),
        forall|i: int| 0 <= i <= s.len() ==> good(#[trigger] insert_by(s, x, lt)[i]),
        insert_by(s, x, lt).len() == s.len() + 1,
    decreases s.len(),
{
    let t = s.map_values(f);
    if s.len() > 0 {
        assert(t.last() == f(s.last()));
        assert(good(s[s.len() - 1]));
        assert(lt(x, s.last()) == over(f(x), t.last()));
        assert(t.drop_last() =~= s.drop_last().map_values(f));
        if lt(x, s.last()) {
            assert forall|i: int| 0 <= i < s.drop_last().len() implies good(
                #[trigger] s.drop_last()[i],
            ) by {
                assert(good(s[i]));
            }
            lemma_insert_maps(s.drop_last(), x, lt, f, over, good);
        }
    }
    assert(insert_by(s, x, lt).map_values(f) =~= insert_by(t, f(x), over));
}

/// Sorting what `f` makes of things is sorting the things, where the two orders
/// agree on them.
pub proof fn lemma_sorted_maps<A, B>(
    s: Seq<A>,
    lt: spec_fn(A, A) -> bool,
    f: spec_fn(A) -> B,
    over: spec_fn(B, B) -> bool,
    good: spec_fn(A) -> bool,
)
    requires
        forall|a: A, b: A| good(a) && good(b) ==> #[trigger] lt(a, b) == over(f(a), f(b)),
        forall|i: int| 0 <= i < s.len() ==> good(#[trigger] s[i]),
    ensures
        sorted_by(s, lt).map_values(f) == sorted_by(s.map_values(f), over),
        sorted_by(s, lt).len() == s.len(),
        forall|i: int| 0 <= i < s.len() ==> good(#[trigger] sorted_by(s, lt)[i]),
    decreases s.len(),
{
    let t = s.map_values(f);
    if s.len() > 0 {
        let front = s.drop_last();
        assert forall|i: int| 0 <= i < front.len() implies good(#[trigger] front[i]) by {
            assert(good(s[i]));
        }
        lemma_sorted_maps(front, lt, f, over, good);
        assert(t.drop_last() =~= front.map_values(f));
        assert(good(s[s.len() - 1]));
        lemma_insert_maps(sorted_by(front, lt), s.last(), lt, f, over, good);
    } else {
        assert(sorted_by(s, lt).map_values(f) =~= sorted_by(t, over));
    }
}

/// A type whose values rank.
pub trait Ranked: Sized {
    /// Whether `self` ranks before `other`.
    spec fn before(self, other: Self) -> bool;

    fn goes_before(&self, other: &Self) -> (r: bool)
        ensures
            r == self.before(*other),
    ;
}

/// The order of a ranked type.
pub open spec fn rank<T: Ranked>() -> spec_fn(T, T) -> bool {
    |a: T, b: T| a.before(b)
}

/// Put `v` in order.
pub fn sort_ranked<T: Ranked>(v: Vec<T>) -> (r: Vec<T>)
    ensures
        r@ == sorted_by(v@, rank::<T>()),
{
    let ghost all = v@;
    let mut r: Vec<T> = Vec::new();
    for x in iter: v
        invariant
            iter.seq() == all,
            r@ == sorted_by(all.take(iter.index() as int), rank::<T>()),
    {
        let ghost before = r@;
        let ghost n = iter.index() as int;
        let mut i: usize = r.len();
        assert(before.take(i as int) =~= before);
        assert(insert_by(before, x, rank::<T>()) =~= insert_by(before, x, rank::<T>())
            + before.skip(i as int));
        while i > 0 && x.goes_before(&r[i - 1])
            invariant
                i <= r@.len(),
                r@ == before,
                insert_by(before, x, rank::<T>()) == insert_by(
                    before.take(i as int),
                    x,
                    rank::<T>(),
                ) + before.skip(i as int),
            decreases i,
        {
            let ghost head = before.take(i as int);
            assert(head.drop_last() =~= before.take(i - 1));
            assert(insert_by(before.take(i - 1), x, rank::<T>()).push(head.last())
                + before.skip(i as int) =~= insert_by(before.take(i - 1), x, rank::<T>())
                + before.skip(i - 1));
            i -= 1;
        }
        r.insert(i, x);
        assert(r@ =~= before.take(i as int).push(x) + before.skip(i as int));
        assert(all.take(n + 1).drop_last() =~= all.take(n));
    }
    assert(all.take(all.len() as int) =~= all);
    r
}

// ---------------------------------------------------------------------------
// Text
// ---------------------------------------------------------------------------

/// Text order: by the first character that differs, a beginning before the
/// whole.
pub open spec fn text_lt(a: Seq<char>, b: Seq<char>) -> bool
    decreases a.len(),
{
    if b.len() == 0 {
        false
    } else if a.len() == 0 {
        true
    } else if a[0] != b[0] {
        a[0] < b[0]
    } else {
        text_lt(a.skip(1), b.skip(1))
    }
}

/// Whether `a` comes before `b` in text order.
pub fn chars_lt(a: &[char], b: &[char]) -> (r: bool)
    ensures
        r == text_lt(a@, b@),
{
    let mut i: usize = 0;
    assert(a@.skip(0) =~= a@);
    assert(b@.skip(0) =~= b@);
    while i < a.len() && i < b.len() && a[i] == b[i]
        invariant
            i <= a@.len(),
            i <= b@.len(),
            text_lt(a@, b@) == text_lt(a@.skip(i as int), b@.skip(i as int)),
        decreases a.len() - i,
    {
        assert(a@.skip(i as int).skip(1) =~= a@.skip(i + 1));
        assert(b@.skip(i as int).skip(1) =~= b@.skip(i + 1));
        i += 1;
    }
    if i >= b.len() {
        false
    } else if i >= a.len() {
        true
    } else {
        a[i] < b[i]
    }
}

/// Text order is total.
pub proof fn lemma_text_order(a: Seq<char>, b: Seq<char>, c: Seq<char>)
    ensures
        text_lt(a, b) ==> !text_lt(b, a),
        !text_lt(a, b) && !text_lt(b, a) ==> a == b,
        !text_lt(a, b) && !text_lt(b, c) ==> !text_lt(a, c),
    decreases a.len() + b.len() + c.len(),
{
    if a.len() > 0 && b.len() > 0 {
        lemma_text_order(
            a.skip(1),
            b.skip(1),
            if c.len() > 0 {
                c.skip(1)
            } else {
                c
            },
        );
        if a[0] == b[0] && a.skip(1) == b.skip(1) {
            assert(a =~= seq![a[0]] + a.skip(1));
            assert(b =~= seq![b[0]] + b.skip(1));
        }
    } else if a.len() == 0 && b.len() == 0 {
        assert(a =~= b);
    }
}

// ---------------------------------------------------------------------------
// What sorting keeps
// ---------------------------------------------------------------------------

/// The bags that `f` makes of the elements of `s`, poured together.
pub open spec fn poured<T, U>(s: Seq<T>, f: spec_fn(T) -> Multiset<U>) -> Multiset<U>
    decreases s.len(),
{
    if s.len() == 0 {
        Multiset::empty()
    } else {
        poured(s.drop_last(), f).add(f(s.last()))
    }
}

proof fn lemma_insert_poured<T, U>(
    s: Seq<T>,
    x: T,
    lt: spec_fn(T, T) -> bool,
    f: spec_fn(T) -> Multiset<U>,
)
    ensures
        poured(insert_by(s, x, lt), f) == poured(s, f).add(f(x)),
    decreases s.len(),
{
    if s.len() > 0 && lt(x, s.last()) {
        lemma_insert_poured(s.drop_last(), x, lt, f);
        let out = insert_by(s, x, lt);
        assert(out.drop_last() =~= insert_by(s.drop_last(), x, lt));
        assert(poured(out, f) =~= poured(s, f).add(f(x)));
    } else {
        assert(s.push(x).drop_last() =~= s);
    }
}

/// What is poured together does not depend on the order it is poured in.
pub proof fn lemma_sorted_poured<T, U>(
    s: Seq<T>,
    lt: spec_fn(T, T) -> bool,
    f: spec_fn(T) -> Multiset<U>,
)
    ensures
        poured(sorted_by(s, lt), f) == poured(s, f),
    decreases s.len(),
{
    if s.len() > 0 {
        lemma_sorted_poured(s.drop_last(), lt, f);
        lemma_insert_poured(sorted_by(s.drop_last(), lt), s.last(), lt, f);
    }
}

/// What is poured out of two lists, one after the other.
pub proof fn lemma_poured_concat<T, U>(a: Seq<T>, b: Seq<T>, f: spec_fn(T) -> Multiset<U>)
    ensures
        poured(a + b, f) == poured(a, f).add(poured(b, f)),
    decreases b.len(),
{
    if b.len() == 0 {
        assert(a + b =~= a);
        assert(poured(a, f).add(poured(b, f)) =~= poured(a, f));
    } else {
        lemma_poured_concat(a, b.drop_last(), f);
        assert((a + b).drop_last() =~= a + b.drop_last());
        assert(poured(a + b, f) =~= poured(a, f).add(poured(b, f)));
    }
}

/// Any two elements at different positions stand in `rel`.
pub open spec fn pairwise<T>(s: Seq<T>, rel: spec_fn(T, T) -> bool) -> bool {
    forall|i: int, j: int|
        #![trigger s[i], s[j]]
        0 <= i < s.len() && 0 <= j < s.len() && i != j ==> rel(s[i], s[j])
}

proof fn lemma_insert_pairwise<T>(
    s: Seq<T>,
    x: T,
    lt: spec_fn(T, T) -> bool,
    rel: spec_fn(T, T) -> bool,
)
    requires
        pairwise(s.push(x), rel),
    ensures
        pairwise(insert_by(s, x, lt), rel),
        insert_by(s, x, lt).len() == s.len() + 1,
        forall|i: int|
            0 <= i <= s.len() ==> s.push(x).contains(#[trigger] insert_by(s, x, lt)[i]),
    decreases s.len(),
{
    let all = s.push(x);
    if s.len() > 0 && lt(x, s.last()) {
        let front = s.drop_last();
        let fewer = front.push(x);
        let last = s.last();
        assert forall|i: int, j: int|
            #![trigger fewer[i], fewer[j]]
            0 <= i < fewer.len() && 0 <= j < fewer.len() && i != j implies rel(
            fewer[i],
            fewer[j],
        ) by {
            let a = if i < front.len() { i } else { s.len() as int };
            let b = if j < front.len() { j } else { s.len() as int };
            assert(all[a] == fewer[i] && all[b] == fewer[j]);
        }
        lemma_insert_pairwise(front, x, lt, rel);
        let inner = insert_by(front, x, lt);
        let out = insert_by(s, x, lt);
        assert forall|i: int| 0 <= i < inner.len() implies rel(#[trigger] inner[i], last) && rel(
            last,
            inner[i],
        ) && all.contains(inner[i]) by {
            assert(fewer.contains(inner[i]));
            let k = choose|k: int| 0 <= k < fewer.len() && fewer[k] == inner[i];
            let a = if k < front.len() { k } else { s.len() as int };
            assert(all[a] == inner[i] && all[s.len() - 1] == last);
        }
        assert forall|i: int| 0 <= i <= s.len() implies all.contains(#[trigger] out[i]) by {
            if i < inner.len() {
                assert(out[i] == inner[i]);
            } else {
                assert(all[s.len() - 1] == out[i]);
            }
        }
        assert forall|i: int, j: int|
            #![trigger out[i], out[j]]
            0 <= i < out.len() && 0 <= j < out.len() && i != j implies rel(out[i], out[j]) by {
            if i < inner.len() {
                assert(out[i] == inner[i]);
            }
            if j < inner.len() {
                assert(out[j] == inner[j]);
            }
        }
    } else {
        assert forall|i: int| 0 <= i <= s.len() implies all.contains(#[trigger] all[i]) by {}
    }
}

/// Sorting keeps what holds of every two different elements.
pub proof fn lemma_sorted_pairwise<T>(
    s: Seq<T>,
    lt: spec_fn(T, T) -> bool,
    rel: spec_fn(T, T) -> bool,
)
    requires
        pairwise(s, rel),
    ensures
        pairwise(sorted_by(s, lt), rel),
    decreases s.len(),
{
    if s.len() > 0 {
        let front = s.drop_last();
        let x = s.last();
        assert forall|i: int, j: int|
            #![trigger front[i], front[j]]
            0 <= i < front.len() && 0 <= j < front.len() && i != j implies rel(
            front[i],
            front[j],
        ) by {
            assert(front[i] == s[i] && front[j] == s[j]);
        }
        lemma_sorted_pairwise(front, lt, rel);
        let done = sorted_by(front, lt);
        let all = done.push(x);
        lemma_sorted(front, lt);
        assert forall|i: int| 0 <= i < done.len() implies rel(#[trigger] done[i], x) && rel(
            x,
            done[i],
        ) by {
            lemma_sorted_contains(front, lt, done[i]);
            assert(front.contains(done[i]));
            let k = choose|k: int| 0 <= k < front.len() && front[k] == done[i];
            assert(s[k] == done[i] && s[s.len() - 1] == x);
        }
        assert forall|i: int, j: int|
            #![trigger all[i], all[j]]
            0 <= i < all.len() && 0 <= j < all.len() && i != j implies rel(all[i], all[j]) by {
            if i < done.len() {
                assert(all[i] == done[i]);
            }
            if j < done.len() {
                assert(all[j] == done[j]);
            }
        }
        lemma_insert_pairwise(done, x, lt, rel);
    }
}

/// What ranks equal keeps the order it came in: an element that ranks before none
/// of the others goes behind all of them, and one that ranks before all of them in
/// front.
pub proof fn law_sorting_keeps_the_order_of_equals<T>(
    s: Seq<T>,
    x: T,
    lt: spec_fn(T, T) -> bool,
)
    ensures
        (forall|i: int| 0 <= i < s.len() ==> !lt(x, #[trigger] s[i])) ==> sorted_by(
            s.push(x),
            lt,
        ) == sorted_by(s, lt).push(x),
        (forall|i: int| 0 <= i < s.len() ==> lt(x, #[trigger] s[i])) ==> sorted_by(s.push(x), lt)
            == seq![x] + sorted_by(s, lt),
{
    assert(s.push(x).drop_last() =~= s);
    let sorted = sorted_by(s, lt);
    lemma_sorted(s, lt);
    assert forall|i: int| 0 <= i < sorted.len() implies s.contains(#[trigger] sorted[i]) by {
        lemma_sorted_contains(s, lt, sorted[i]);
        assert(sorted.contains(sorted[i]));
    }
    if forall|i: int| 0 <= i < s.len() ==> !lt(x, #[trigger] s[i]) {
        if sorted.len() > 0 {
            assert(s.contains(sorted[sorted.len() - 1]));
            let k = choose|k: int| 0 <= k < s.len() && s[k] == sorted[sorted.len() - 1];
            assert(!lt(x, s[k]));
        }
    }
    if forall|i: int| 0 <= i < s.len() ==> lt(x, #[trigger] s[i]) {
        assert forall|i: int| 0 <= i < sorted.len() implies lt(x, #[trigger] sorted[i]) by {
            assert(s.contains(sorted[i]));
            let k = choose|k: int| 0 <= k < s.len() && s[k] == sorted[i];
            assert(lt(x, s[k]));
        }
        lemma_goes_in_front(sorted, x, lt);
    }
}

proof fn lemma_goes_in_front<T>(s: Seq<T>, x: T, lt: spec_fn(T, T) -> bool)
    requires
        forall|i: int| 0 <= i < s.len() ==> lt(x, #[trigger] s[i]),
    ensures
        insert_by(s, x, lt) == seq![x] + s,
    decreases s.len(),
{
    if s.len() > 0 {
        let front = s.drop_last();
        assert forall|i: int| 0 <= i < front.len() implies lt(x, #[trigger] front[i]) by {
            assert(lt(x, s[i]));
        }
        assert(lt(x, s[s.len() - 1]));
        lemma_goes_in_front(front, x, lt);
        assert((seq![x] + front).push(s.last()) =~= seq![x] + s);
    } else {
        assert(s.push(x) =~= seq![x] + s);
    }
}

} // verus!
