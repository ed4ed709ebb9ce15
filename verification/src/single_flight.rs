//! One in-flight call per key, however many callers ask for it.
//!
//! Two places need this and both are hot: opening a stream, where the "play"
//! click and the player's first read arrive within milliseconds of each other,
//! and fetching a block, where read-ahead runs *ahead* of the demand read by
//! definition.
//!
//! Whoever arrives first is the leader and does the work; the rest wait on its
//! channel. The channels themselves belong to the caller, which hands one in and
//! gets it back.

use vstd::prelude::*;

use crate::recency::KeyView;
use crate::ring::BlockKey;
use crate::source::StreamKey;
use crate::stream_error::Error;
use crate::text::owned;

verus! {

/// What a call is asked for by.
pub trait CallKey: Sized {
    /// What tells one call from another.
    spec fn called(&self) -> KeyView;

    fn same_call(&self, other: &Self) -> (r: bool)
        ensures
            r == (self.called() == other.called()),
    ;
}

impl CallKey for BlockKey {
    open spec fn called(&self) -> KeyView {
        self@
    }

    fn same_call(&self, other: &Self) -> (r: bool) {
        self.uid.same(&other.uid) && self.revision == other.revision && self.index as u64
            == other.index as u64
    }
}

impl CallKey for StreamKey {
    open spec fn called(&self) -> KeyView {
        self@
    }

    fn same_call(&self, other: &Self) -> (r: bool) {
        self.uid.same(&other.uid) && self.share == other.share
    }
}

/// The calls in flight, each with the channel its waiters listen on.
pub struct SingleFlight<K, C> {
    calls: Vec<(K, C)>,
}

/// The channels of a list of calls.
pub open spec fn calls_of<K: CallKey, C>(calls: Seq<(K, C)>) -> Map<KeyView, C>
    decreases calls.len(),
{
    if calls.len() == 0 {
        Map::empty()
    } else {
        calls_of(calls.drop_last()).insert(calls.last().0.called(), calls.last().1)
    }
}

impl<K: CallKey, C> View for SingleFlight<K, C> {
    type V = Map<KeyView, C>;

    closed spec fn view(&self) -> Map<KeyView, C> {
        calls_of(self.calls@)
    }
}

spec fn one_each<K: CallKey, C>(calls: Seq<(K, C)>) -> bool {
    forall|i: int, j: int|
        #![trigger calls[i], calls[j]]
        0 <= i < j < calls.len() ==> calls[i].0.called() != calls[j].0.called()
}

proof fn lemma_calls<K: CallKey, C>(calls: Seq<(K, C)>)
    ensures
        forall|k: KeyView|
            #[trigger] calls_of(calls).dom().contains(k) <==> exists|i: int|
                0 <= i < calls.len() && (#[trigger] calls[i]).0.called() == k,
        one_each(calls) ==> forall|i: int|
            0 <= i < calls.len() ==> calls_of(calls)[(#[trigger] calls[i]).0.called()] == calls[i].1,
    decreases calls.len(),
{
    if calls.len() > 0 {
        let front = calls.drop_last();
        lemma_calls(front);
        assert forall|k: KeyView|
            #[trigger] calls_of(calls).dom().contains(k) <==> exists|i: int|
                0 <= i < calls.len() && (#[trigger] calls[i]).0.called() == k by {
            if calls_of(front).dom().contains(k) {
                let i = choose|i: int| 0 <= i < front.len() && (#[trigger] front[i]).0.called() == k;
                assert(calls[i].0.called() == k);
            }
            if k == calls.last().0.called() {
                assert(calls[calls.len() - 1].0.called() == k);
            }
            if exists|i: int| 0 <= i < calls.len() && (#[trigger] calls[i]).0.called() == k {
                let i = choose|i: int| 0 <= i < calls.len() && (#[trigger] calls[i]).0.called() == k;
                if i < front.len() {
                    assert(front[i].0.called() == k);
                }
            }
        }
        if one_each(calls) {
            assert(one_each(front)) by {
                assert forall|i: int, j: int|
                    #![trigger front[i], front[j]]
                    0 <= i < j < front.len() implies front[i].0.called() != front[j].0.called() by {
                    assert(front[i] == calls[i] && front[j] == calls[j]);
                }
            }
            assert forall|i: int| 0 <= i < calls.len() implies calls_of(
                calls,
            )[(#[trigger] calls[i]).0.called()] == calls[i].1 by {
                if i < front.len() {
                    assert(front[i] == calls[i]);
                    assert(calls[i].0.called() != calls[calls.len() - 1].0.called());
                }
            }
        }
    }
}

impl<K: CallKey, C> SingleFlight<K, C> {
    /// No key is in flight twice.
    pub closed spec fn wf(&self) -> bool {
        one_each(self.calls@)
    }

    pub fn new() -> (r: Self)
        ensures
            r.wf(),
            r@ == Map::<KeyView, C>::empty(),
    {
        SingleFlight { calls: Vec::new() }
    }

    /// The channel of the call already running for `key`. With one, the caller is
    /// a waiter; without, it is to lead.
    pub fn running(&self, key: &K) -> (r: Option<&C>)
        requires
            self.wf(),
        ensures
            match r {
                Some(c) => self@.dom().contains(key.called()) && self@[key.called()] == *c,
                None => !self@.dom().contains(key.called()),
            },
    {
        let mut i: usize = 0;
        while i < self.calls.len()
            invariant
                i <= self.calls@.len(),
                self.wf(),
                forall|j: int| 0 <= j < i ==> (#[trigger] self.calls@[j]).0.called() != key.called(),
            decreases self.calls.len() - i,
        {
            if self.calls[i].0.same_call(key) {
                proof {
                    lemma_calls(self.calls@);
                    assert(self.calls@[i as int].0.called() == key.called());
                }
                return Some(&self.calls[i].1);
            }
            i += 1;
        }
        proof {
            lemma_calls(self.calls@);
        }
        None
    }

    /// Lead the call for `key`, with `channel` for those that come to wait.
    pub fn lead(&mut self, key: K, channel: C)
        requires
            old(self).wf(),
            !old(self)@.dom().contains(key.called()),
        ensures
            final(self).wf(),
            final(self)@ == old(self)@.insert(key.called(), channel),
    {
        let ghost before = self.calls@;
        proof {
            lemma_calls(before);
        }
        self.calls.push((key, channel));
        proof {
            let after = self.calls@;
            assert(after.drop_last() =~= before);
            assert forall|i: int, j: int|
                #![trigger after[i], after[j]]
                0 <= i < j < after.len() implies after[i].0.called() != after[j].0.called() by {
                assert(after[i] == before[i]);
                if j < before.len() {
                    assert(after[j] == before[j]);
                } else {
                    assert(before[i].0.called() != key.called()) by {
                        if before[i].0.called() == key.called() {
                            assert(calls_of(before).dom().contains(key.called()));
                        }
                    }
                }
            }
        }
    }

    /// The call for `key` is over, however it ended. Whoever asks next leads a
    /// fresh one.
    pub fn finish(&mut self, key: &K)
        requires
            old(self).wf(),
        ensures
            final(self).wf(),
            final(self)@ == old(self)@.remove(key.called()),
    {
        let ghost before = self.calls@;
        let mut i: usize = 0;
        while i < self.calls.len()
            invariant
                i <= self.calls@.len(),
                self.calls@ == before,
                before == old(self).calls@,
                one_each(before),
                forall|j: int| 0 <= j < i ==> (#[trigger] before[j]).0.called() != key.called(),
            decreases self.calls.len() - i,
        {
            if self.calls[i].0.same_call(key) {
                let _ = self.calls.remove(i);
                proof {
                    let after = self.calls@;
                    assert(after =~= before.remove(i as int));
                    lemma_removed(before, i as int);
                }
                return;
            }
            i += 1;
        }
        proof {
            lemma_calls(before);
            assert(calls_of(before).remove(key.called()) =~= calls_of(before));
        }
    }
}

proof fn lemma_removed<K: CallKey, C>(before: Seq<(K, C)>, i: int)
    requires
        one_each(before),
        0 <= i < before.len(),
    ensures
        one_each(before.remove(i)),
        calls_of(before.remove(i)) == calls_of(before).remove(before[i].0.called()),
{
    let after = before.remove(i);
    assert forall|a: int, b: int|
        #![trigger after[a], after[b]]
        0 <= a < b < after.len() implies after[a].0.called() != after[b].0.called() by {
        let x = if a < i { a } else { a + 1 };
        let y = if b < i { b } else { b + 1 };
        assert(after[a] == before[x] && after[b] == before[y]);
    }
    lemma_calls(before);
    lemma_calls(after);
    let now = calls_of(after);
    let expected = calls_of(before).remove(before[i].0.called());
    assert forall|k: KeyView| #[trigger] now.dom().contains(k) == expected.dom().contains(k) by {
        if now.dom().contains(k) {
            let a = choose|a: int| 0 <= a < after.len() && (#[trigger] after[a]).0.called() == k;
            let x = if a < i { a } else { a + 1 };
            assert(before[x].0.called() == k);
            if a < i {
                assert(before[x].0.called() != before[i].0.called());
            } else {
                assert(before[i].0.called() != before[x].0.called());
            }
        }
        if expected.dom().contains(k) {
            let x = choose|x: int| 0 <= x < before.len() && (#[trigger] before[x]).0.called() == k;
            let a = if x < i { x } else { x - 1 };
            assert(after[a].0.called() == k);
        }
    }
    assert forall|k: KeyView| now.dom().contains(k) implies #[trigger] now[k] == expected[k] by {
        let a = choose|a: int| 0 <= a < after.len() && (#[trigger] after[a]).0.called() == k;
        let x = if a < i { a } else { a + 1 };
        assert(after[a] == before[x]);
        assert(now[after[a].0.called()] == after[a].1);
        assert(calls_of(before)[before[x].0.called()] == before[x].1);
    }
    assert(now =~= expected);
}

/// What a waiter does next.
#[derive(Debug, PartialEq, Eq)]
pub enum WaitStep<V> {
    /// Wait for the channel to change.
    Wait,
    /// Return this.
    Done(Result<V, Error>),
}

/// What the waiter of a dropped call is told.
pub open spec fn cancelled_text() -> Seq<char> {
    "the task loading this was cancelled before it finished"@
}

/// What a waiter does, given what its channel last held and whether the leader
/// is gone. The leader gets its own typed error; a waiter gets its message.
pub fn waiter_step<V>(seen: Option<Result<V, String>>, leader_gone: bool) -> (r: WaitStep<V>)
    ensures
        match seen {
            Some(Ok(v)) => r matches WaitStep::Done(Ok(x)) && x == v,
            Some(Err(m)) => r matches WaitStep::Done(Err(e)) && e is Shared && e.text() == m@,
            None => if leader_gone {
                r matches WaitStep::Done(Err(e)) && e is Shared && e.text() == cancelled_text()
            } else {
                r is Wait
            },
        },
{
    match seen {
        Some(Ok(value)) => WaitStep::Done(Ok(value)),
        Some(Err(message)) => WaitStep::Done(Err(Error::Shared(message))),
        None => if leader_gone {
            WaitStep::Done(
                Err(Error::Shared(owned("the task loading this was cancelled before it finished"))),
            )
        } else {
            WaitStep::Wait
        },
    }
}

/// While a call is in flight nobody else leads it, and once it is over the next
/// caller does.
pub proof fn law_one_leader_at_a_time<C>(calls: Map<KeyView, C>, key: KeyView, channel: C)
    ensures
        calls.insert(key, channel).dom().contains(key),
        !calls.insert(key, channel).remove(key).dom().contains(key),
        forall|other: KeyView|
            other != key ==> #[trigger] calls.insert(key, channel).remove(key).dom().contains(other)
                == calls.dom().contains(other),
{
}

} // verus!
