//! The in-memory block cache: a byte-budgeted LRU shared by every open stream.
//!
//! Sized in **bytes**, not entries. A block is 4 MiB in practice but nothing
//! guarantees it, and a count-based bound would turn into a wildly different
//! memory ceiling on a library uploaded by a different client.
//!
//! Shared across streams rather than one per stream: a viewer who abandons an
//! episode after ninety seconds should not keep all of it resident while the
//! next one starves.

use vstd::prelude::*;

use std::sync::Arc;

use lru::LruCache;

use crate::recency;
use crate::recency::lru_contains;
use crate::recency::lru_get;
use crate::recency::lru_keys;
use crate::recency::lru_len;
use crate::recency::lru_pop;
use crate::recency::lru_pop_last;
use crate::recency::lru_push;
use crate::recency::lru_unbounded;
use crate::recency::Kept;
use crate::recency::KeptView;
use crate::recency::Key;
use crate::recency::KeyView;
use crate::uid::NodeUid;
use crate::uid::UidView;

verus! {

/// Identifies one decrypted block, globally.
///
/// The revision id is part of the key on purpose: a file that gains a new
/// revision must not serve a byte of the old one out of cache.
#[derive(Debug, PartialEq, Eq, Hash)]
pub struct BlockKey {
    pub uid: NodeUid,
    pub revision: String,
    pub index: usize,
}

impl View for BlockKey {
    type V = KeyView;

    open spec fn view(&self) -> KeyView {
        (self.uid@, self.revision@, self.index as u64)
    }
}

impl Clone for BlockKey {
    fn clone(&self) -> (r: Self)
        ensures
            r == *self,
    {
        BlockKey { uid: self.uid.clone(), revision: self.revision.clone(), index: self.index }
    }
}

impl BlockKey {
    pub fn new(uid: &NodeUid, revision: &str, index: usize) -> (r: Self)
        ensures
            r.uid@ == uid@,
            r.revision@ == revision@,
            r.index == index,
    {
        BlockKey { uid: uid.clone(), revision: crate::text::owned(revision), index }
    }

    fn key(&self) -> (r: Key)
        ensures
            recency::key_view(r) == self@,
    {
        (
            (self.uid.volume_id.clone(), self.uid.link_id.clone()),
            self.revision.clone(),
            self.index as u64,
        )
    }
}

/// Hit and miss counters, for the benchmark and the settings screen.
#[derive(Debug, Clone, Copy, PartialEq, Eq, Structural)]
pub struct RingStats {
    pub hits: u64,
    pub misses: u64,
    /// Blocks dropped to stay inside the budget.
    pub evictions: u64,
    /// Bytes currently resident.
    pub resident_bytes: u64,
    pub blocks: usize,
}

impl Default for RingStats {
    fn default() -> (r: Self)
        ensures
            r == (RingStats { hits: 0, misses: 0, evictions: 0, resident_bytes: 0, blocks: 0 }),
    {
        RingStats { hits: 0, misses: 0, evictions: 0, resident_bytes: 0, blocks: 0 }
    }
}

/// A decrypted block, shared by reference so a cache hit costs no copy.
pub type CachedBlock = Arc<Vec<u8>>;

pub struct BlockRing {
    /// Unbounded by entry count: eviction is driven by `bytes` against the
    /// budget.
    lru: LruCache<Key, Kept>,
    bytes: u64,
    hits: u64,
    misses: u64,
    evictions: u64,
    budget: u64,
}

/// A count of one more, as far as 64 bits hold it.
pub open spec fn more(n: u64, by: nat) -> u64 {
    crate::block::capped((n + by) as nat)
}

/// What a ring entry of these bytes looks like.
pub open spec fn resident(bytes: Seq<u8>) -> KeptView {
    (bytes.len() as u64, bytes)
}

impl View for BlockRing {
    type V = Seq<(KeyView, KeptView)>;

    /// The resident blocks, most recently used first.
    closed spec fn view(&self) -> Seq<(KeyView, KeptView)> {
        recency::kept_in(self.lru)
    }
}

impl BlockRing {
    /// The bytes counted are the bytes resident, they fit the budget, no block
    /// is held twice, and each is held whole.
    pub closed spec fn wf(&self) -> bool {
        &&& recency::distinct(self@)
        &&& self.bytes == recency::sum(self@)
        &&& self.bytes <= self.budget
        &&& recency::room_in(self.lru) == usize::MAX
        &&& forall|i: int|
            0 <= i < self@.len() ==> (#[trigger] self@[i]).1 == resident(self@[i].1.1)
    }

    pub closed spec fn byte_budget(&self) -> u64 {
        self.budget
    }

    pub closed spec fn counted_hits(&self) -> u64 {
        self.hits
    }

    pub closed spec fn counted_misses(&self) -> u64 {
        self.misses
    }

    pub closed spec fn counted_evictions(&self) -> u64 {
        self.evictions
    }

    pub fn new(budget_bytes: u64) -> (r: Self)
        ensures
            r.wf(),
            r@ == Seq::<(KeyView, KeptView)>::empty(),
            r.byte_budget() == budget_bytes,
            r.counted_hits() == 0,
            r.counted_misses() == 0,
            r.counted_evictions() == 0,
    {
        BlockRing {
            lru: lru_unbounded(),
            bytes: 0,
            hits: 0,
            misses: 0,
            evictions: 0,
            budget: budget_bytes,
        }
    }

    /// Look a block up, marking it most-recently-used on a hit.
    pub fn get(&mut self, key: &BlockKey) -> (r: Option<CachedBlock>)
        requires
            old(self).wf(),
        ensures
            final(self).wf(),
            final(self).byte_budget() == old(self).byte_budget(),
            final(self).counted_evictions() == old(self).counted_evictions(),
            match recency::lookup(old(self)@, key@) {
                Some(v) => {
                    &&& r is Some && (r->0)@ == v.1
                    &&& final(self)@ == recency::fronted(old(self)@, key@, v)
                    &&& final(self).counted_hits() == more(old(self).counted_hits(), 1)
                    &&& final(self).counted_misses() == old(self).counted_misses()
                },
                None => {
                    &&& r is None
                    &&& final(self)@ == old(self)@
                    &&& final(self).counted_hits() == old(self).counted_hits()
                    &&& final(self).counted_misses() == more(old(self).counted_misses(), 1)
                },
            },
    {
        let ghost before = self@;
        let found = lru_get(&mut self.lru, &key.key());
        match found {
            Some(kept) => {
                proof {
                    let v = recency::lookup(before, key@)->0;
                    recency::lemma_without(before, key@);
                    recency::lemma_fronted(before, key@, v);
                    lemma_all_resident_fronted(before, key@, v);
                }
                self.hits = self.hits.saturating_add(1);
                Some(kept.bytes)
            },
            None => {
                self.misses = self.misses.saturating_add(1);
                None
            },
        }
    }

    /// Insert a block, evicting until the budget is met.
    ///
    /// A block larger than the whole budget is *not* stored: storing it would
    /// evict everything else and then still be over. It is still returned to the
    /// caller that fetched it; it simply is not cached. Nor does a ring take more
    /// blocks than a machine word counts.
    pub fn insert(&mut self, key: BlockKey, block: CachedBlock)
        requires
            old(self).wf(),
        ensures
            final(self).wf(),
            final(self).byte_budget() == old(self).byte_budget(),
            final(self).counted_hits() == old(self).counted_hits(),
            final(self).counted_misses() == old(self).counted_misses(),
            block@.len() > old(self).byte_budget() || old(self)@.len() == usize::MAX ==> {
                &&& final(self)@ == old(self)@
                &&& final(self).counted_evictions() == old(self).counted_evictions()
            },
            block@.len() <= old(self).byte_budget() && old(self)@.len() < usize::MAX ==> {
                let all = recency::fronted(old(self)@, key@, resident(block@));
                &&& final(self)@ == recency::fitted(all, old(self).byte_budget())
                &&& final(self).counted_evictions() == more(
                    old(self).counted_evictions(),
                    (all.len() - final(self)@.len()) as nat,
                )
            },
    {
        let len: u64 = block.len() as u64;
        if len > self.budget || lru_len(&self.lru) == usize::MAX {
            return;
        }
        let ghost before = self@;
        let ghost all = recency::fronted(before, key@, resident(block@));
        proof {
            recency::lemma_without(before, key@);
            recency::lemma_fronted(before, key@, resident(block@));
            lemma_all_resident_fronted(before, key@, resident(block@));
        }
        let replaced = lru_push(&mut self.lru, key.key(), Kept { number: len, bytes: block });
        let mut bytes: u128 = self.bytes as u128;
        match replaced {
            Some((_, previous)) => {
                bytes = bytes - previous.number as u128;
            },
            None => {},
        }
        bytes = bytes + len as u128;
        assert(self@ =~= all);
        let ghost start_evictions = self.evictions;
        while bytes > self.budget as u128
            invariant
                bytes == recency::sum(self@),
                recency::distinct(self@),
                recency::room_in(self.lru) == usize::MAX,
                recency::fitted(all, self.budget) == recency::fitted(self@, self.budget),
                self@.len() <= all.len(),
                forall|i: int|
                    0 <= i < self@.len() ==> (#[trigger] self@[i]).1 == resident(self@[i].1.1),
                self.budget == old(self).budget,
                self.hits == old(self).hits,
                self.misses == old(self).misses,
                self.evictions == more(start_evictions, (all.len() - self@.len()) as nat),
            decreases self@.len(),
        {
            let ghost now = self@;
            match lru_pop_last(&mut self.lru) {
                Some((_, evicted)) => {
                    proof {
                        recency::lemma_distinct_front(now);
                        assert forall|i: int| 0 <= i < self@.len() implies (
                        #[trigger] self@[i]).1 == resident(self@[i].1.1) by {
                            assert(self@[i] == now[i]);
                        }
                    }
                    bytes = bytes - evicted.number as u128;
                    self.evictions = self.evictions.saturating_add(1);
                },
                None => {
                    assert(false);
                },
            }
        }
        self.bytes = bytes as u64;
    }

    /// Whether a block is resident, *without* counting a hit or touching its
    /// recency. Read-ahead asks this to decide what to prefetch, and it must not
    /// look like demand traffic in the stats or in the order.
    pub fn contains(&self, key: &BlockKey) -> (r: bool)
        ensures
            r == (recency::lookup(self@, key@) is Some),
    {
        lru_contains(&self.lru, &key.key())
    }

    /// The byte budget this ring was built with.
    pub fn budget(&self) -> (r: u64)
        ensures
            r == self.byte_budget(),
    {
        self.budget
    }

    pub fn stats(&self) -> (r: RingStats)
        requires
            self.wf(),
        ensures
            r.hits == self.counted_hits(),
            r.misses == self.counted_misses(),
            r.evictions == self.counted_evictions(),
            r.resident_bytes == recency::sum(self@),
            r.resident_bytes <= self.byte_budget(),
            r.blocks == self@.len(),
    {
        RingStats {
            hits: self.hits,
            misses: self.misses,
            evictions: self.evictions,
            resident_bytes: self.bytes,
            blocks: lru_len(&self.lru),
        }
    }

    /// Drop every block of one revision. Used when a stream is closed and its
    /// bytes are known to be dead.
    pub fn forget(&mut self, uid: &NodeUid, revision: &str)
        requires
            old(self).wf(),
        ensures
            final(self).wf(),
            final(self)@ == not_of(old(self)@, uid@, revision@),
            final(self).byte_budget() == old(self).byte_budget(),
            final(self).counted_hits() == old(self).counted_hits(),
            final(self).counted_misses() == old(self).counted_misses(),
            final(self).counted_evictions() == old(self).counted_evictions(),
    {
        let ghost before = self@;
        let revision = crate::text::owned(revision);
        let keys = lru_keys(&self.lru);
        let mut i: usize = keys.len();
        assert(before.take(i as int) =~= before);
        assert(not_of(before.skip(i as int), uid@, revision@) =~= Seq::empty());
        assert(before =~= before.take(i as int) + not_of(before.skip(i as int), uid@, revision@));
        while i > 0
            invariant
                i <= keys@.len(),
                keys@.len() == before.len(),
                forall|j: int|
                    0 <= j < keys@.len() ==> recency::key_view(#[trigger] keys@[j]) == before[j].0,
                recency::distinct(before),
                self.wf(),
                self@ == before.take(i as int) + not_of(before.skip(i as int), uid@, revision@),
                self.budget == old(self).budget,
                self.hits == old(self).hits,
                self.misses == old(self).misses,
                self.evictions == old(self).evictions,
            decreases i,
        {
            i -= 1;
            let ghost now = self@;
            let ghost kept_after = not_of(before.skip(i + 1), uid@, revision@);
            let ghost x = before[i as int];
            assert(recency::key_view(keys@[i as int]) == x.0);
            proof {
                lemma_not_of_first(before.skip(i as int), uid@, revision@);
                assert(before.skip(i as int).skip(1) =~= before.skip(i + 1));
                assert(before.take(i + 1) =~= before.take(i as int).push(x));
                assert(now =~= before.take(i as int) + (seq![x] + kept_after));
            }
            if keys[i].0.0 == uid.volume_id && keys[i].0.1 == uid.link_id && keys[i].1 == revision {
                proof {
                    recency::lemma_without(now, x.0);
                    assert(now[i as int] == x);
                    lemma_lookup_at(now, i as int);
                    lemma_without_at(now, i as int);
                    lemma_resident_without(now, x.0);
                    assert(now.take(i as int) =~= before.take(i as int));
                    assert(now.skip(i + 1) =~= kept_after);
                }
                match lru_pop(&mut self.lru, &keys[i]) {
                    Some(block) => {
                        self.bytes = self.bytes - block.number;
                    },
                    None => {},
                }
            }
        }
        assert(before.skip(0) =~= before);
        assert(before.take(0) + not_of(before, uid@, revision@) =~= not_of(
            before,
            uid@,
            revision@,
        ));
    }
}

/// The entries that are not of one revision of one node, in order.
pub open spec fn not_of(
    s: Seq<(KeyView, KeptView)>,
    uid: UidView,
    revision: Seq<char>,
) -> Seq<(KeyView, KeptView)>
    decreases s.len(),
{
    if s.len() == 0 {
        s
    } else if s.last().0.0 == uid && s.last().0.1 == revision {
        not_of(s.drop_last(), uid, revision)
    } else {
        not_of(s.drop_last(), uid, revision).push(s.last())
    }
}

proof fn lemma_not_of_first(s: Seq<(KeyView, KeptView)>, uid: UidView, revision: Seq<char>)
    requires
        s.len() > 0,
    ensures
        not_of(s, uid, revision) == if s[0].0.0 == uid && s[0].0.1 == revision {
            not_of(s.skip(1), uid, revision)
        } else {
            seq![s[0]] + not_of(s.skip(1), uid, revision)
        },
    decreases s.len(),
{
    if s.len() == 1 {
        assert(s.skip(1) =~= Seq::empty());
        assert(s.drop_last() =~= Seq::empty());
        reveal_with_fuel(not_of, 2);
        assert(not_of(s.drop_last(), uid, revision).push(s.last()) =~= seq![s[0]] + not_of(
            s.skip(1),
            uid,
            revision,
        ));
    } else {
        lemma_not_of_first(s.drop_last(), uid, revision);
        assert(s.drop_last().skip(1) =~= s.skip(1).drop_last());
        assert(s.skip(1).last() == s.last());
        assert(s.drop_last()[0] == s[0]);
        assert(not_of(s, uid, revision) =~= if s[0].0.0 == uid && s[0].0.1 == revision {
            not_of(s.skip(1), uid, revision)
        } else {
            seq![s[0]] + not_of(s.skip(1), uid, revision)
        });
    }
}

proof fn lemma_lookup_at(s: Seq<(KeyView, KeptView)>, i: int)
    requires
        recency::distinct(s),
        0 <= i < s.len(),
    ensures
        recency::lookup(s, s[i].0) == Some(s[i].1),
    decreases s.len(),
{
    if i < s.len() - 1 {
        recency::lemma_distinct_front(s);
        assert(s.drop_last()[i] == s[i]);
        lemma_lookup_at(s.drop_last(), i);
        assert(s[i].0 != s[s.len() - 1].0);
    }
}

proof fn lemma_without_at(s: Seq<(KeyView, KeptView)>, i: int)
    requires
        recency::distinct(s),
        0 <= i < s.len(),
    ensures
        recency::without(s, s[i].0) == s.take(i) + s.skip(i + 1),
    decreases s.len(),
{
    let k = s[i].0;
    let front = s.drop_last();
    recency::lemma_distinct_front(s);
    if i < s.len() - 1 {
        assert(front[i] == s[i]);
        lemma_without_at(front, i);
        assert(s[i].0 != s[s.len() - 1].0);
        assert(front.take(i) =~= s.take(i));
        assert((front.take(i) + front.skip(i + 1)).push(s.last()) =~= s.take(i) + s.skip(i + 1));
    } else {
        assert(recency::lookup(front, k) is None) by {
            recency::lemma_without(front, k);
            if recency::lookup(front, k) is Some {
                let v = recency::lookup(front, k)->0;
                let j = choose|j: int| 0 <= j < front.len() && front[j] == (k, v);
                assert(s[j].0 != s[i].0);
            }
        }
        recency::lemma_without(front, k);
        assert(s.take(i) + s.skip(i + 1) =~= front);
    }
}

proof fn lemma_resident_without(s: Seq<(KeyView, KeptView)>, k: KeyView)
    requires
        recency::distinct(s),
        forall|i: int| 0 <= i < s.len() ==> (#[trigger] s[i]).1 == resident(s[i].1.1),
    ensures
        forall|i: int|
            0 <= i < recency::without(s, k).len() ==> (#[trigger] recency::without(s, k)[i]).1
                == resident(recency::without(s, k)[i].1.1),
{
    recency::lemma_without(s, k);
    let out = recency::without(s, k);
    assert forall|i: int| 0 <= i < out.len() implies (#[trigger] out[i]).1 == resident(
        out[i].1.1,
    ) by {
        assert(s.contains(out[i]));
        let j = choose|j: int| 0 <= j < s.len() && s[j] == out[i];
        assert(s[j].1 == resident(s[j].1.1));
    }
}

proof fn lemma_all_resident_fronted(s: Seq<(KeyView, KeptView)>, k: KeyView, v: KeptView)
    requires
        recency::distinct(s),
        forall|i: int| 0 <= i < s.len() ==> (#[trigger] s[i]).1 == resident(s[i].1.1),
        v == resident(v.1) || recency::lookup(s, k) == Some(v),
    ensures
        forall|i: int|
            0 <= i < recency::fronted(s, k, v).len() ==> (#[trigger] recency::fronted(s, k, v)[i]).1
                == resident(recency::fronted(s, k, v)[i].1.1),
{
    recency::lemma_without(s, k);
    lemma_resident_without(s, k);
    let out = recency::fronted(s, k, v);
    if recency::lookup(s, k) == Some(v) {
        let j = choose|j: int| 0 <= j < s.len() && s[j] == (k, v);
        assert(s[j].1 == resident(s[j].1.1));
    }
    assert forall|i: int| 0 <= i < out.len() implies (#[trigger] out[i]).1 == resident(
        out[i].1.1,
    ) by {
        if i > 0 {
            assert(out[i] == recency::without(s, k)[i - 1]);
        }
    }
}

/// The default in-memory budget: 128 MiB. At 4 MiB a block that is 32 blocks,
/// about two minutes of a 1080p episode, enough to absorb a scrub backwards
/// without refetching.
pub const DEFAULT_RING_BYTES: u64 = 134_217_728;

/// A cache of open streams holds at least one; a configured zero must clamp
/// rather than fail.
pub fn non_zero(value: usize) -> (r: usize)
    ensures
        r == if value == 0 {
            1
        } else {
            value
        },
{
    if value == 0 {
        1
    } else {
        value
    }
}

/// A ring holds each block once and whole, and what it holds fits its budget.
pub proof fn law_a_ring_holds_each_block_once(ring: &BlockRing)
    requires
        ring.wf(),
    ensures
        recency::distinct(ring@),
        recency::sum(ring@) <= ring.byte_budget(),
        forall|i: int| 0 <= i < ring@.len() ==> (#[trigger] ring@[i]).1 == resident(ring@[i].1.1),
{
}

/// A block that fits the budget is resident once it was inserted, as the most
/// recently used, and an older block of its key is gone; what was given up for it
/// was used least recently, no more of it than was needed, and what is left fits
/// the budget.
pub proof fn law_a_new_block_is_resident(
    held: Seq<(KeyView, KeptView)>,
    key: KeyView,
    bytes: Seq<u8>,
    budget: u64,
)
    requires
        recency::distinct(held),
        bytes.len() <= budget,
    ensures
        ({
            let all = recency::fronted(held, key, resident(bytes));
            let after = recency::fitted(all, budget);
            &&& after.len() > 0
            &&& after[0] == (key, resident(bytes))
            &&& recency::distinct(after)
            &&& recency::lookup(after, key) == Some(resident(bytes))
            &&& after == all.take(after.len() as int)
            &&& recency::sum(after) <= budget
            &&& after.len() < all.len() ==> recency::sum(all.take(after.len() as int + 1))
                > budget
        }),
{
    let all = recency::fronted(held, key, resident(bytes));
    recency::lemma_fronted(held, key, resident(bytes));
    recency::lemma_fitted(all, budget);
    recency::lemma_lookup_first(recency::fitted(all, budget));
}

/// Bytes cached under one revision are never served for another: keeping a block
/// changes nothing under a key with another revision.
pub proof fn law_revisions_do_not_mix(
    held: Seq<(KeyView, KeptView)>,
    key: KeyView,
    v: KeptView,
    other: KeyView,
)
    requires
        other.1 != key.1,
    ensures
        recency::lookup(recency::fronted(held, key, v), other) == recency::lookup(held, other),
{
    recency::lemma_lookup_without(held, key, other);
    recency::lemma_lookup_in_front(key, v, recency::without(held, key), other);
}

} // verus!
