//! Keeping the open streams around.
//!
//! A cold open is expensive, so the streams already open are kept in an LRU:
//! going back to the episode you paused, or scrubbing after the player reopened
//! its demuxer, is instant. A stream is known here by a number; the caller holds
//! what the number stands for.

use vstd::prelude::*;

use std::sync::Arc;

use lru::LruCache;

use crate::disk::DiskCacheConfig;
use crate::recency;
use crate::recency::lru_get;
use crate::recency::lru_pop;
use crate::recency::lru_push;
use crate::recency::lru_sparse;
use crate::recency::Kept;
use crate::recency::KeptView;
use crate::recency::Key;
use crate::recency::KeyView;
use crate::ring::non_zero;
use crate::ring::DEFAULT_RING_BYTES;
use crate::stream::DEFAULT_READAHEAD_BLOCKS;
use crate::text::owned;
use crate::uid::NodeUid;
use crate::uid::UidView;

verus! {

/// How much memory, how much disk, and how far ahead to read.
#[derive(Debug, Clone, PartialEq, Eq)]
pub struct StreamConfig {
    /// Resident block budget, shared by every open stream.
    pub ring_bytes: u64,
    /// Blocks to pull ahead of the reader. Zero disables read-ahead.
    pub readahead_blocks: usize,
    /// How many opened streams to keep. Cheap to hold, so this is generous.
    pub max_open_streams: usize,
    /// The on-disk block cache, when enabled.
    pub disk_cache: Option<DiskCacheConfig>,
}

impl Default for StreamConfig {
    fn default() -> (r: Self)
        ensures
            r.ring_bytes == DEFAULT_RING_BYTES,
            r.readahead_blocks == DEFAULT_READAHEAD_BLOCKS,
            r.max_open_streams == 64,
            r.disk_cache is None,
    {
        StreamConfig {
            ring_bytes: DEFAULT_RING_BYTES,
            readahead_blocks: DEFAULT_READAHEAD_BLOCKS,
            max_open_streams: 64,
            disk_cache: None,
        }
    }
}

impl StreamConfig {
    pub fn with_disk_cache(self, cache: DiskCacheConfig) -> (r: Self)
        ensures
            r == (StreamConfig { disk_cache: Some(cache), ..self }),
    {
        StreamConfig { disk_cache: Some(cache), ..self }
    }

    pub fn with_readahead(self, blocks: usize) -> (r: Self)
        ensures
            r == (StreamConfig { readahead_blocks: blocks, ..self }),
    {
        StreamConfig { readahead_blocks: blocks, ..self }
    }

    pub fn with_ring_bytes(self, bytes: u64) -> (r: Self)
        ensures
            r == (StreamConfig { ring_bytes: bytes, ..self }),
    {
        StreamConfig { ring_bytes: bytes, ..self }
    }
}

/// Identifies an open stream. The share is part of the key: the same file can
/// legitimately be reachable through two different links.
#[derive(Debug, PartialEq, Eq, Hash)]
pub struct StreamKey {
    pub share: String,
    pub uid: NodeUid,
}

impl View for StreamKey {
    type V = KeyView;

    open spec fn view(&self) -> KeyView {
        stream_key(self.share@, self.uid@)
    }
}

impl Clone for StreamKey {
    fn clone(&self) -> (r: Self)
        ensures
            r == *self,
    {
        StreamKey { share: self.share.clone(), uid: self.uid.clone() }
    }
}

impl StreamKey {
    pub fn new(share: &str, uid: &NodeUid) -> (r: Self)
        ensures
            r.share@ == share@,
            r.uid@ == uid@,
    {
        StreamKey { share: owned(share), uid: uid.clone() }
    }
}

/// What stands for the stream of a node reached through a share.
pub open spec fn stream_key(share: Seq<char>, uid: UidView) -> KeyView {
    (uid, share, 0u64)
}

/// A stream's number, as it is kept.
pub open spec fn stream_number(number: u64) -> KeptView {
    (number, Seq::empty())
}

fn key_of(share: &str, uid: &NodeUid) -> (r: Key)
    ensures
        recency::key_view(r) == stream_key(share@, uid@),
{
    ((uid.volume_id.clone(), uid.link_id.clone()), owned(share), 0)
}

/// The streams that are open once one more is kept: it takes the place of the one
/// open on the same file, else, where there is no more room, that of the one used
/// least recently.
pub open spec fn with_stream(
    open: Seq<(KeyView, KeptView)>,
    most: nat,
    key: KeyView,
    number: u64,
) -> Seq<(KeyView, KeptView)> {
    if recency::lookup(open, key) is Some {
        recency::fronted(open, key, stream_number(number))
    } else if open.len() == most {
        seq![(key, stream_number(number))] + open.drop_last()
    } else {
        seq![(key, stream_number(number))] + open
    }
}

/// The number of the stream that makes way for it.
pub open spec fn displaced(open: Seq<(KeyView, KeptView)>, most: nat, key: KeyView) -> Option<
    u64,
> {
    match recency::lookup(open, key) {
        Some(was) => Some(was.0),
        None => if open.len() == most {
            Some(open.last().1.0)
        } else {
            None
        },
    }
}

/// The streams that are open.
pub struct OpenStreams {
    lru: LruCache<Key, Kept>,
}

impl View for OpenStreams {
    type V = Seq<(KeyView, KeptView)>;

    /// The open streams, most recently used first.
    closed spec fn view(&self) -> Seq<(KeyView, KeptView)> {
        recency::kept_in(self.lru)
    }
}

impl OpenStreams {
    /// How many streams are kept at most.
    pub closed spec fn most(&self) -> nat {
        recency::room_in(self.lru)
    }

    /// No stream is kept twice, and no more than there is room for.
    pub closed spec fn wf(&self) -> bool {
        &&& recency::distinct(self@)
        &&& self@.len() <= self.most()
        &&& self.most() > 0
    }

    /// Room for `max` streams, and for at least one.
    pub fn new(max: usize) -> (r: Self)
        ensures
            r.wf(),
            r@ == Seq::<(KeyView, KeptView)>::empty(),
            r.most() == if max == 0 {
                1
            } else {
                max as nat
            },
    {
        OpenStreams { lru: lru_sparse(non_zero(max)) }
    }

    /// The stream already open on a file, marked most recently used.
    pub fn get(&mut self, share: &str, uid: &NodeUid) -> (r: Option<u64>)
        requires
            old(self).wf(),
        ensures
            final(self).wf(),
            final(self).most() == old(self).most(),
            match recency::lookup(old(self)@, stream_key(share@, uid@)) {
                Some(v) => r == Some(v.0) && final(self)@ == recency::fronted(
                    old(self)@,
                    stream_key(share@, uid@),
                    v,
                ),
                None => r is None && final(self)@ == old(self)@,
            },
    {
        let ghost before = self@;
        let ghost key = stream_key(share@, uid@);
        proof {
            recency::lemma_without(before, key);
            if recency::lookup(before, key) is Some {
                recency::lemma_fronted(before, key, recency::lookup(before, key)->0);
            }
        }
        match lru_get(&mut self.lru, &key_of(share, uid)) {
            Some(kept) => Some(kept.number),
            None => None,
        }
    }

    /// Keep a stream as the most recently used. Gives back the number of the
    /// stream it took the place of: the one open on the same file, else, where
    /// there was no more room, the one used least recently. Its blocks stay in the
    /// ring under the ring's own budget, so a viewer who reopens still gets them.
    pub fn keep(&mut self, share: &str, uid: &NodeUid, number: u64) -> (r: Option<u64>)
        requires
            old(self).wf(),
        ensures
            final(self).wf(),
            final(self).most() == old(self).most(),
            r == displaced(old(self)@, old(self).most(), stream_key(share@, uid@)),
            final(self)@ == with_stream(
                old(self)@,
                old(self).most(),
                stream_key(share@, uid@),
                number,
            ),
    {
        let ghost before = self@;
        let ghost key = stream_key(share@, uid@);
        let ghost value = stream_number(number);
        proof {
            recency::lemma_without(before, key);
            recency::lemma_fronted(before, key, value);
            if before.len() > 0 {
                recency::lemma_distinct_front(before);
            }
        }
        let bytes: Vec<u8> = Vec::new();
        let kept = Kept { number, bytes: Arc::new(bytes) };
        let out = lru_push(&mut self.lru, key_of(share, uid), kept);
        proof {
            if recency::lookup(before, key) is None {
                let rest = if before.len() == self.most() {
                    before.drop_last()
                } else {
                    before
                };
                let now = seq![(key, value)] + rest;
                assert forall|i: int, j: int|
                    #![trigger now[i], now[j]]
                    0 <= i < j < now.len() implies now[i].0 != now[j].0 by {
                    assert(now[j] == rest[j - 1] && rest[j - 1] == before[j - 1]);
                    if i > 0 {
                        assert(now[i] == before[i - 1]);
                    } else {
                        assert(recency::without(before, key) == before);
                        assert(recency::without(before, key)[j - 1].0 != key);
                    }
                }
            }
        }
        match out {
            Some((_, kept)) => Some(kept.number),
            None => None,
        }
    }

    /// Forget the stream open on a file.
    pub fn close(&mut self, share: &str, uid: &NodeUid) -> (r: Option<u64>)
        requires
            old(self).wf(),
        ensures
            final(self).wf(),
            final(self).most() == old(self).most(),
            final(self)@ == recency::without(old(self)@, stream_key(share@, uid@)),
            r == match recency::lookup(old(self)@, stream_key(share@, uid@)) {
                Some(v) => Some(v.0),
                None => None::<u64>,
            },
    {
        proof {
            recency::lemma_without(self@, stream_key(share@, uid@));
        }
        match lru_pop(&mut self.lru, &key_of(share, uid)) {
            Some(kept) => Some(kept.number),
            None => None,
        }
    }
}

/// Each file is open once, and no more are open than there is room for.
pub proof fn law_open_streams_fit_their_room(streams: &OpenStreams)
    requires
        streams.wf(),
    ensures
        recency::distinct(streams@),
        streams@.len() <= streams.most(),
        streams.most() > 0,
{
}

/// A file that was opened through a share is handed back when it is asked for
/// again, no more streams stay open than there is room for, and while there is
/// room every other stream stays open: one on the same file through another share
/// too.
pub proof fn law_an_open_stream_is_handed_back(
    open: Seq<(KeyView, KeptView)>,
    most: nat,
    share: Seq<char>,
    uid: UidView,
    number: u64,
    other: KeyView,
)
    requires
        recency::distinct(open),
        0 < most,
        open.len() <= most,
    ensures
        ({
            let key = stream_key(share, uid);
            let after = with_stream(open, most, key, number);
            &&& recency::lookup(after, key) == Some(stream_number(number))
            &&& after.len() <= most
            &&& open.len() < most && other != key ==> recency::lookup(after, other)
                == recency::lookup(open, other)
        }),
        forall|elsewhere: Seq<char>| elsewhere != share ==> stream_key(share, uid) != #[trigger]
            stream_key(elsewhere, uid),
{
    let key = stream_key(share, uid);
    let value = stream_number(number);
    recency::lemma_without(open, key);
    if recency::lookup(open, key) is Some {
        let rest = recency::without(open, key);
        recency::lemma_lookup_in_front(key, value, rest, key);
        recency::lemma_lookup_in_front(key, value, rest, other);
        if other != key {
            recency::lemma_lookup_without(open, key, other);
        }
    } else if open.len() == most {
        let rest = open.drop_last();
        recency::lemma_lookup_in_front(key, value, rest, key);
    } else {
        recency::lemma_lookup_in_front(key, value, open, key);
        recency::lemma_lookup_in_front(key, value, open, other);
    }
}

/// What makes way for a stream: the one open on the same file, else, where there
/// is no more room, the one used least recently, else none.
pub proof fn law_the_least_recent_stream_makes_way(
    open: Seq<(KeyView, KeptView)>,
    most: nat,
    key: KeyView,
)
    requires
        recency::distinct(open),
        open.len() <= most,
        0 < most,
    ensures
        recency::lookup(open, key) matches Some(was) ==> displaced(open, most, key) == Some(was.0),
        recency::lookup(open, key) is None && open.len() == most ==> displaced(open, most, key)
            == Some(open[open.len() - 1].1.0),
        recency::lookup(open, key) is None && open.len() < most ==> displaced(open, most, key)
            is None,
{
}

} // verus!
