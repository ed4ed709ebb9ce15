//! A cache that knows what was used last, as the `lru` crate keeps it.
//!
//! The crate's cache is a hash map threaded with a list. What it holds is named
//! by [`kept_in`]: its entries, the most recently used first.

use vstd::prelude::*;

use std::num::NonZeroUsize;
use std::sync::Arc;

use lru::LruCache;

verus! {

/// What an entry is found by.
pub type Key = ((String, String), String, u64);

/// A [`Key`] with its strings taken as sequences of characters.
pub type KeyView = ((Seq<char>, Seq<char>), Seq<char>, u64);

/// What a key stands for.
pub open spec fn key_view(k: Key) -> KeyView {
    ((k.0.0@, k.0.1@), k.1@, k.2)
}

/// What is kept under a key: a number, and bytes where they are kept in memory.
#[derive(Debug, PartialEq, Eq)]
pub struct Kept {
    pub number: u64,
    pub bytes: Arc<Vec<u8>>,
}

/// What is kept, as plain values.
pub type KeptView = (u64, Seq<u8>);

impl View for Kept {
    type V = KeptView;

    open spec fn view(&self) -> KeptView {
        (self.number, self.bytes@)
    }
}

impl Clone for Kept {
    fn clone(&self) -> (r: Self)
        ensures
            r@ == self@,
    {
        Kept { number: self.number, bytes: Arc::clone(&self.bytes) }
    }
}

/// The hasher that the `lru` crate builds its caches with.
#[verifier::external_type_specification]
#[verifier::external_body]
pub struct ExDefaultHasher(lru::DefaultHasher);

/// The cache of the `lru` crate.
#[verifier::external_type_specification]
#[verifier::external_body]
#[verifier::reject_recursive_types(K)]
#[verifier::reject_recursive_types(V)]
#[verifier::reject_recursive_types(S)]
pub struct ExLruCache<K, V, S>(LruCache<K, V, S>);

/// The entries of a cache, most recently used first.
pub uninterp spec fn kept_in(c: LruCache<Key, Kept>) -> Seq<(KeyView, KeptView)>;

/// How many entries a cache holds at most.
pub uninterp spec fn room_in(c: LruCache<Key, Kept>) -> nat;

/// The entries without that of `k`.
pub open spec fn without(s: Seq<(KeyView, KeptView)>, k: KeyView) -> Seq<(KeyView, KeptView)>
    decreases s.len(),
{
    if s.len() == 0 {
        s
    } else if s.last().0 == k {
        without(s.drop_last(), k)
    } else {
        without(s.drop_last(), k).push(s.last())
    }
}

/// What is kept under `k`.
pub open spec fn lookup(s: Seq<(KeyView, KeptView)>, k: KeyView) -> Option<KeptView>
    decreases s.len(),
{
    if s.len() == 0 {
        None
    } else if s.last().0 == k {
        Some(s.last().1)
    } else {
        lookup(s.drop_last(), k)
    }
}

/// The entries with that of `k` brought to the front and holding `v`.
pub open spec fn fronted(s: Seq<(KeyView, KeptView)>, k: KeyView, v: KeptView) -> Seq<
    (KeyView, KeptView),
> {
    seq![(k, v)] + without(s, k)
}

/// `LruCache::unbounded`: an empty cache that never drops an entry by itself.
#[verifier::external_body]
pub(crate) fn lru_unbounded() -> (c: LruCache<Key, Kept>)
    ensures
        kept_in(c) == Seq::<(KeyView, KeptView)>::empty(),
        room_in(c) == usize::MAX,
{
    LruCache::unbounded()
}

/// `LruCache::sparse`: an empty cache of at most `cap` entries, with no room set
/// aside for them.
#[verifier::external_body]
pub(crate) fn lru_sparse(cap: usize) -> (c: LruCache<Key, Kept>)
    requires
        cap > 0,
    ensures
        kept_in(c) == Seq::<(KeyView, KeptView)>::empty(),
        room_in(c) == cap,
{
    LruCache::sparse(NonZeroUsize::new(cap).unwrap())
}

/// `LruCache::get`, with the value cloned: finds what is kept under `k` and makes
/// it the most recently used; changes nothing when there is nothing.
#[verifier::external_body]
pub(crate) fn lru_get(c: &mut LruCache<Key, Kept>, k: &Key) -> (r: Option<Kept>)
    ensures
        room_in(*final(c)) == room_in(*old(c)),
        match lookup(kept_in(*old(c)), key_view(*k)) {
            Some(v) => r is Some && (r->0)@ == v && kept_in(*final(c)) == fronted(
                kept_in(*old(c)),
                key_view(*k),
                v,
            ),
            None => r is None && kept_in(*final(c)) == kept_in(*old(c)),
        },
{
    c.get(k).cloned()
}

/// `LruCache::push`: keeps `v` under `k` as the most recently used entry. What was
/// kept under `k` comes back; otherwise, where the cache was full, its least
/// recently used entry does.
#[verifier::external_body]
pub(crate) fn lru_push(c: &mut LruCache<Key, Kept>, k: Key, v: Kept) -> (r: Option<(Key, Kept)>)
    ensures
        room_in(*final(c)) == room_in(*old(c)),
        match lookup(kept_in(*old(c)), key_view(k)) {
            Some(was) => {
                &&& r is Some && key_view((r->0).0) == key_view(k) && (r->0).1@ == was
                &&& kept_in(*final(c)) == fronted(kept_in(*old(c)), key_view(k), v@)
            },
            None => if kept_in(*old(c)).len() == room_in(*old(c)) {
                &&& r is Some && (key_view((r->0).0), (r->0).1@) == kept_in(*old(c)).last()
                &&& kept_in(*final(c)) == seq![(key_view(k), v@)] + kept_in(*old(c)).drop_last()
            } else {
                &&& r is None
                &&& kept_in(*final(c)) == seq![(key_view(k), v@)] + kept_in(*old(c))
            },
        },
{
    c.push(k, v)
}

/// `LruCache::pop_lru`: takes the least recently used entry out.
#[verifier::external_body]
pub(crate) fn lru_pop_last(c: &mut LruCache<Key, Kept>) -> (r: Option<(Key, Kept)>)
    ensures
        room_in(*final(c)) == room_in(*old(c)),
        if kept_in(*old(c)).len() == 0 {
            r is None && kept_in(*final(c)) == kept_in(*old(c))
        } else {
            &&& r is Some && (key_view((r->0).0), (r->0).1@) == kept_in(*old(c)).last()
            &&& kept_in(*final(c)) == kept_in(*old(c)).drop_last()
        },
{
    c.pop_lru()
}

/// `LruCache::pop`: takes the entry of `k` out, the others keeping their order.
#[verifier::external_body]
pub(crate) fn lru_pop(c: &mut LruCache<Key, Kept>, k: &Key) -> (r: Option<Kept>)
    ensures
        room_in(*final(c)) == room_in(*old(c)),
        kept_in(*final(c)) == without(kept_in(*old(c)), key_view(*k)),
        match lookup(kept_in(*old(c)), key_view(*k)) {
            Some(v) => r is Some && (r->0)@ == v,
            None => r is None,
        },
{
    c.pop(k)
}

/// `LruCache::contains`: whether anything is kept under `k`. The cache is borrowed
/// unchanged, so its order stays what it was.
#[verifier::external_body]
pub(crate) fn lru_contains(c: &LruCache<Key, Kept>, k: &Key) -> (r: bool)
    ensures
        r == (lookup(kept_in(*c), key_view(*k)) is Some),
{
    c.contains(k)
}

/// `LruCache::len`: how many entries there are.
#[verifier::external_body]
pub(crate) fn lru_len(c: &LruCache<Key, Kept>) -> (r: usize)
    ensures
        r == kept_in(*c).len(),
{
    c.len()
}

/// `LruCache::iter`, with the keys cloned: the keys in order, the most recently
/// used first.
#[verifier::external_body]
pub(crate) fn lru_keys(c: &LruCache<Key, Kept>) -> (r: Vec<Key>)
    ensures
        r@.len() == kept_in(*c).len(),
        forall|i: int| 0 <= i < r@.len() ==> key_view(#[trigger] r@[i]) == kept_in(*c)[i].0,
{
    c.iter().map(|(k, _)| k.clone()).collect()
}

/// No key is kept twice.
pub open spec fn distinct(s: Seq<(KeyView, KeptView)>) -> bool {
    forall|i: int, j: int|
        #![trigger s[i], s[j]]
        0 <= i < j < s.len() ==> s[i].0 != s[j].0
}

/// The numbers kept, added up.
pub open spec fn sum(s: Seq<(KeyView, KeptView)>) -> nat
    decreases s.len(),
{
    if s.len() == 0 {
        0
    } else {
        sum(s.drop_last()) + s.last().1.0 as nat
    }
}

/// Taking a key out takes out what is kept under it, and nothing else.
pub proof fn lemma_without(s: Seq<(KeyView, KeptView)>, k: KeyView)
    requires
        distinct(s),
    ensures
        distinct(without(s, k)),
        forall|i: int|
            0 <= i < without(s, k).len() ==> (#[trigger] without(s, k)[i]).0 != k && s.contains(
                without(s, k)[i],
            ),
        lookup(without(s, k), k) is None,
        match lookup(s, k) {
            Some(v) => {
                &&& sum(s) == sum(without(s, k)) + v.0
                &&& s.len() == without(s, k).len() + 1
                &&& s.contains((k, v))
            },
            None => without(s, k) == s,
        },
    decreases s.len(),
{
    if s.len() > 0 {
        let front = s.drop_last();
        assert(distinct(front)) by {
            assert forall|i: int, j: int|
                #![trigger front[i], front[j]]
                0 <= i < j < front.len() implies front[i].0 != front[j].0 by {
                assert(front[i] == s[i] && front[j] == s[j]);
            }
        }
        lemma_without(front, k);
        assert forall|x: (KeyView, KeptView)| front.contains(x) implies s.contains(x) by {
            let i = choose|i: int| 0 <= i < front.len() && front[i] == x;
            assert(s[i] == x);
        }
        assert(s.contains(s.last()));
        if s.last().0 == k {
            assert(lookup(front, k) is None) by {
                if lookup(front, k) is Some {
                    let v = lookup(front, k)->0;
                    let i = choose|i: int| 0 <= i < front.len() && front[i] == (k, v);
                    assert(s[i].0 == s[s.len() - 1].0);
                }
            }
        } else {
            let out = without(s, k);
            assert(out.drop_last() =~= without(front, k));
            assert forall|i: int, j: int|
                #![trigger out[i], out[j]]
                0 <= i < j < out.len() implies out[i].0 != out[j].0 by {
                if j == out.len() - 1 {
                    assert(front.contains(without(front, k)[i]));
                    let a = choose|a: int| 0 <= a < front.len() && front[a] == out[i];
                    assert(s[a].0 != s[s.len() - 1].0);
                } else {
                    assert(out[i] == without(front, k)[i] && out[j] == without(front, k)[j]);
                }
            }
            if lookup(s, k) is None {
                assert(without(s, k) =~= s);
            }
        }
    }
}

/// A key brought to the front stays the only one of its name.
pub proof fn lemma_fronted(s: Seq<(KeyView, KeptView)>, k: KeyView, v: KeptView)
    requires
        distinct(s),
    ensures
        distinct(fronted(s, k, v)),
        sum(fronted(s, k, v)) == v.0 + sum(without(s, k)),
        lookup(fronted(s, k, v), k) == Some(v),
{
    lemma_without(s, k);
    let rest = without(s, k);
    let out = fronted(s, k, v);
    assert forall|i: int, j: int|
        #![trigger out[i], out[j]]
        0 <= i < j < out.len() implies out[i].0 != out[j].0 by {
        assert(out[j] == rest[j - 1]);
        if i > 0 {
            assert(out[i] == rest[i - 1]);
        }
    }
    lemma_sum_after(k, v, rest);
}

proof fn lemma_sum_after(k: KeyView, v: KeptView, rest: Seq<(KeyView, KeptView)>)
    requires
        lookup(rest, k) is None,
    ensures
        sum(seq![(k, v)] + rest) == v.0 + sum(rest),
        lookup(seq![(k, v)] + rest, k) == Some(v),
    decreases rest.len(),
{
    let all = seq![(k, v)] + rest;
    if rest.len() == 0 {
        assert(all =~= seq![(k, v)]);
        reveal_with_fuel(sum, 2);
        assert(all.drop_last() =~= Seq::empty());
    } else {
        lemma_sum_after(k, v, rest.drop_last());
        assert(all.drop_last() =~= seq![(k, v)] + rest.drop_last());
    }
}

/// A beginning of distinct entries is distinct.
pub proof fn lemma_distinct_front(s: Seq<(KeyView, KeptView)>)
    requires
        distinct(s),
        s.len() > 0,
    ensures
        distinct(s.drop_last()),
{
    let front = s.drop_last();
    assert forall|i: int, j: int|
        #![trigger front[i], front[j]]
        0 <= i < j < front.len() implies front[i].0 != front[j].0 by {
        assert(front[i] == s[i] && front[j] == s[j]);
    }
}

/// The entries that fit a budget: the least recently used are given up until
/// the rest do.
pub open spec fn fitted(s: Seq<(KeyView, KeptView)>, budget: u64) -> Seq<(KeyView, KeptView)>
    decreases s.len(),
{
    if s.len() == 0 || sum(s) <= budget {
        s
    } else {
        fitted(s.drop_last(), budget)
    }
}

/// What fits a budget is the front of what there was, and does fit; with one more
/// entry it would not.
pub proof fn lemma_fitted(s: Seq<(KeyView, KeptView)>, budget: u64)
    ensures
        fitted(s, budget).len() <= s.len(),
        fitted(s, budget) == s.take(fitted(s, budget).len() as int),
        sum(fitted(s, budget)) <= budget,
        distinct(s) ==> distinct(fitted(s, budget)),
        s.len() > 0 && s[0].1.0 <= budget ==> fitted(s, budget).len() > 0,
        fitted(s, budget).len() < s.len() ==> sum(
            s.take(fitted(s, budget).len() as int + 1),
        ) > budget,
    decreases s.len(),
{
    if s.len() == 0 || sum(s) <= budget {
        assert(s.take(s.len() as int) =~= s);
    } else {
        let front = s.drop_last();
        lemma_fitted(front, budget);
        if distinct(s) {
            lemma_distinct_front(s);
        }
        assert(fitted(s, budget) =~= s.take(fitted(s, budget).len() as int));
        if s.len() == 1 {
            reveal_with_fuel(sum, 2);
            assert(front =~= Seq::empty());
        } else {
            assert(front[0] == s[0]);
        }
        let n = fitted(s, budget).len() as int;
        if n < front.len() {
            assert(front.take(n + 1) =~= s.take(n + 1));
        } else {
            assert(s.take(n + 1) =~= s);
        }
    }
}

/// The first entry is found under its key.
pub proof fn lemma_lookup_first(s: Seq<(KeyView, KeptView)>)
    requires
        distinct(s),
        s.len() > 0,
    ensures
        lookup(s, s[0].0) == Some(s[0].1),
    decreases s.len(),
{
    if s.len() > 1 {
        assert(s[0].0 != s[s.len() - 1].0);
        lemma_distinct_front(s);
        lemma_lookup_first(s.drop_last());
    }
}

/// What is found with an entry put in front.
pub proof fn lemma_lookup_in_front(
    k: KeyView,
    v: KeptView,
    rest: Seq<(KeyView, KeptView)>,
    wanted: KeyView,
)
    ensures
        lookup(rest, wanted) is Some ==> lookup(seq![(k, v)] + rest, wanted)
            == lookup(rest, wanted),
        lookup(rest, wanted) is None ==> lookup(seq![(k, v)] + rest, wanted)
            == if wanted == k {
            Some(v)
        } else {
            None
        },
    decreases rest.len(),
{
    let all = seq![(k, v)] + rest;
    if rest.len() == 0 {
        reveal_with_fuel(lookup, 2);
        assert(all.drop_last() =~= Seq::empty());
    } else {
        assert(all.drop_last() =~= seq![(k, v)] + rest.drop_last());
        assert(all.last() == rest.last());
        lemma_lookup_in_front(k, v, rest.drop_last(), wanted);
    }
}

/// Taking one entry out leaves what is found under another key.
pub proof fn lemma_lookup_without(s: Seq<(KeyView, KeptView)>, key: KeyView, other: KeyView)
    requires
        other != key,
    ensures
        lookup(without(s, key), other) == lookup(s, other),
    decreases s.len(),
{
    if s.len() > 0 {
        lemma_lookup_without(s.drop_last(), key, other);
        if s.last().0 != key {
            assert(without(s, key).drop_last() =~= without(s.drop_last(), key));
        }
    }
}

} // verus!
