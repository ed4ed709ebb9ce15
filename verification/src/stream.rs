//! A seekable byte stream over one revision: what each read asks for, when it is
//! a seek, and how far ahead to read.
//!
//! ## Read-ahead has to yield to seeks
//!
//! Prefetches queued from the position the viewer just left keep running, and
//! the block they are fetching is exactly the bandwidth the seek needs. So a read
//! that is not a continuation of the previous one cancels every outstanding
//! prefetch before it fetches anything. Read-ahead resumes from wherever the seek
//! settles.

use vstd::prelude::*;

use std::ops::Range;
use std::sync::Arc;

use crate::block;
use crate::block::splice;
use crate::block::BlockMap;
use crate::disk::DiskStats;
use crate::recency;
use crate::ring;
use crate::ring::BlockKey;
use crate::ring::BlockRing;
use crate::ring::CachedBlock;
use crate::ring::RingStats;
use crate::uid::NodeUid;
use crate::uid::UidView;

verus! {

/// Blocks fetched concurrently to satisfy one read.
///
/// A read spanning more than a couple of blocks only happens on a cold seek;
/// steady-state playback reads well inside one.
pub const MAX_CONCURRENT_BLOCKS_PER_READ: usize = 4;

/// How much of the file to pull ahead of the reader, in blocks. Deep enough to
/// overlap fetches, shallow enough never to evict what was just fetched.
pub const DEFAULT_READAHEAD_BLOCKS: usize = 12;

/// How far a read may land from where the previous one ended and still count as
/// a continuation rather than a seek: one 4 MiB block's worth. Demuxers re-read a
/// little behind themselves, and a small forward hop is a container skipping a
/// chunk.
pub const SEQUENTIAL_SLACK: u64 = 4_194_304;

/// What a stream did, for the benchmark and the settings screen.
#[derive(Debug, Clone, Copy, PartialEq, Eq, Structural)]
pub struct StreamStats {
    pub ring: RingStats,
    pub disk: Option<DiskStats>,
    /// Blocks that actually came off the network.
    pub blocks_fetched: u64,
    pub bytes_fetched: u64,
    /// Read-ahead fetches that were started.
    pub readahead_blocks: u64,
    /// Read-ahead fetches cancelled by a seek.
    pub readahead_cancelled: u64,
    /// Reads that were not a continuation of the previous one.
    pub seeks: u64,
}

/// The largest of some sizes; zero when there are none.
pub open spec fn largest(sizes: Seq<u64>) -> u64
    decreases sizes.len(),
{
    if sizes.len() == 0 {
        0
    } else if largest(sizes.drop_last()) >= sizes.last() {
        largest(sizes.drop_last())
    } else {
        sizes.last()
    }
}

/// How many blocks of the largest size half the ring holds, and at least one.
pub open spec fn readahead_limit(ring_budget: u64, block: u64) -> int {
    let half = (ring_budget as int / block as int) / 2;
    if half > 1 {
        half
    } else {
        1
    }
}

/// The read-ahead a stream is allowed.
pub open spec fn clamped_readahead(requested: usize, ring_budget: u64, sizes: Seq<u64>) -> int {
    let block = largest(sizes);
    if block == 0 || requested <= readahead_limit(ring_budget, block) {
        requested as int
    } else {
        readahead_limit(ring_budget, block)
    }
}

/// Cap read-ahead at half the ring's capacity in blocks.
///
/// Reading further ahead than the ring can hold is self-defeating: the blocks at
/// the front of the window are evicted before the player reaches them. Half, not
/// all, because the ring also has to hold what the player has just *passed*.
pub fn clamp_readahead(requested: usize, ring_budget: u64, block_sizes: &[u64]) -> (r: usize)
    ensures
        r == clamped_readahead(requested, ring_budget, block_sizes@),
{
    let mut block: u64 = 0;
    let mut i: usize = 0;
    while i < block_sizes.len()
        invariant
            i <= block_sizes@.len(),
            block == largest(block_sizes@.take(i as int)),
        decreases block_sizes.len() - i,
    {
        assert(block_sizes@.take(i + 1).drop_last() =~= block_sizes@.take(i as int));
        if block < block_sizes[i] {
            block = block_sizes[i];
        }
        i += 1;
    }
    assert(block_sizes@.take(block_sizes@.len() as int) =~= block_sizes@);
    if block == 0 {
        return requested;
    }
    let half = (ring_budget / block) / 2;
    let limit: u64 = if half > 1 {
        half
    } else {
        1
    };
    if requested as u64 <= limit {
        requested
    } else {
        limit as usize
    }
}

/// Whether a read starting at `offset` continues from where the last one ended.
pub open spec fn continues(offset: u64, previous_end: u64) -> bool {
    -SEQUENTIAL_SLACK <= offset - previous_end <= SEQUENTIAL_SLACK
}

/// Whether a read starting at `offset` continues from where the last one ended.
///
/// Deliberately generous in both directions. The first read of a stream at its
/// beginning is a continuation, so opening a file does not count as a seek.
pub fn is_continuation(offset: u64, previous_end: u64) -> (r: bool)
    ensures
        r == continues(offset, previous_end),
{
    offset >= previous_end.saturating_sub(SEQUENTIAL_SLACK) && offset
        <= previous_end.saturating_add(SEQUENTIAL_SLACK)
}

/// What a read asks for.
#[derive(Debug, PartialEq, Eq)]
pub struct ReadPlan {
    /// Just past the last byte to read.
    pub end: u64,
    /// Whether outstanding prefetches are to be cancelled before anything is
    /// fetched.
    pub seek: bool,
    /// The blocks to fetch, in order.
    pub blocks: Range<usize>,
}

/// Where a read of `len` bytes ends.
pub open spec fn read_end(sizes: Seq<u64>, offset: u64, len: nat) -> u64 {
    block::clamped_end(sizes, block::capped((offset + len) as nat))
}

/// One open revision: where its blocks lie, and what reading it has done so far.
pub struct StreamState {
    map: BlockMap,
    readahead: usize,
    /// Plaintext offset just past the previous read, for seek detection.
    last_end: u64,
    fetched_blocks: u64,
    fetched_bytes: u64,
    started: u64,
    cancelled: u64,
    seeks: u64,
}

/// What reading a stream has done so far.
pub struct StreamCounts {
    pub last_end: u64,
    pub fetched_blocks: u64,
    pub fetched_bytes: u64,
    pub started: u64,
    pub cancelled: u64,
    pub seeks: u64,
}

/// The blocks of a window that are not resident, in order, at most `slots` of
/// them.
pub open spec fn to_prefetch(
    held: Seq<(recency::KeyView, recency::KeptView)>,
    uid: UidView,
    revision: Seq<char>,
    from: int,
    upto: int,
    slots: nat,
) -> Seq<usize>
    decreases upto - from,
{
    if from >= upto || slots == 0 {
        Seq::empty()
    } else if recency::lookup(held, (uid, revision, from as u64)) is Some {
        to_prefetch(held, uid, revision, from + 1, upto, slots)
    } else {
        seq![from as usize] + to_prefetch(
            held,
            uid,
            revision,
            from + 1,
            upto,
            (slots - 1) as nat,
        )
    }
}

/// Where the read-ahead window after block `from` ends.
pub open spec fn window_end(from: int, readahead: int, count: int) -> int {
    if from + readahead <= count {
        from + readahead
    } else {
        count
    }
}

impl StreamState {
    pub closed spec fn wf(&self) -> bool {
        self.map.wf()
    }

    /// The sizes of the blocks, in order.
    pub closed spec fn sizes(&self) -> Seq<u64> {
        self.map@
    }

    /// How many blocks are read ahead.
    pub closed spec fn ahead(&self) -> usize {
        self.readahead
    }

    pub closed spec fn counts(&self) -> StreamCounts {
        StreamCounts {
            last_end: self.last_end,
            fetched_blocks: self.fetched_blocks,
            fetched_bytes: self.fetched_bytes,
            started: self.started,
            cancelled: self.cancelled,
            seeks: self.seeks,
        }
    }

    pub fn new(block_sizes: &[u64], ring_budget: u64, readahead: usize) -> (r: Self)
        ensures
            r.wf(),
            r.sizes() == block_sizes@,
            r.ahead() == clamped_readahead(readahead, ring_budget, block_sizes@),
            r.counts() == (StreamCounts {
                last_end: 0,
                fetched_blocks: 0,
                fetched_bytes: 0,
                started: 0,
                cancelled: 0,
                seeks: 0,
            }),
    {
        StreamState {
            map: BlockMap::new(block_sizes),
            readahead: clamp_readahead(readahead, ring_budget, block_sizes),
            last_end: 0,
            fetched_blocks: 0,
            fetched_bytes: 0,
            started: 0,
            cancelled: 0,
            seeks: 0,
        }
    }

    /// Plaintext size of each block, in block order.
    pub fn block_sizes(&self) -> (r: &[u64])
        ensures
            r@ == self.sizes(),
    {
        self.map.sizes()
    }

    /// Total plaintext size of the revision.
    pub fn size(&self) -> (r: u64)
        requires
            self.wf(),
        ensures
            r == block::capped(block::total(self.sizes())),
    {
        self.map.size()
    }

    /// How many prefetches may run at once.
    pub fn slots(&self) -> (r: usize)
        ensures
            r == if self.ahead() == 0 {
                1
            } else {
                self.ahead()
            },
    {
        ring::non_zero(self.readahead)
    }

    /// Start a read of `len` bytes at `offset`. `None` when there is nothing to
    /// read: a read at or past the end returns 0 rather than failing, which is
    /// how a demuxer discovers the end of a file.
    pub fn begin_read(&mut self, offset: u64, len: usize) -> (r: Option<ReadPlan>)
        requires
            old(self).wf(),
        ensures
            final(self).wf(),
            final(self).sizes() == old(self).sizes(),
            final(self).ahead() == old(self).ahead(),
            match r {
                None => {
                    &&& len == 0 || offset >= block::capped(block::total(old(self).sizes()))
                    &&& final(self).counts() == old(self).counts()
                },
                Some(plan) => {
                    &&& len > 0 && offset < block::capped(block::total(old(self).sizes()))
                    &&& plan.end == read_end(old(self).sizes(), offset, len as nat)
                    &&& offset < plan.end && plan.end - offset <= len
                    &&& plan.seek == !continues(offset, old(self).counts().last_end)
                    &&& plan.blocks == block::blocks_over(old(self).sizes(), offset, plan.end)
                    &&& plan.blocks.start <= plan.blocks.end <= old(self).sizes().len()
                    &&& final(self).counts() == (StreamCounts {
                        last_end: plan.end,
                        seeks: if plan.seek {
                            ring::more(old(self).counts().seeks, 1)
                        } else {
                            old(self).counts().seeks
                        },
                        ..old(self).counts()
                    })
                },
            },
    {
        let size = self.map.size();
        if len == 0 || offset >= size {
            return None;
        }
        let wanted = offset.saturating_add(len as u64);
        let end = if wanted <= size {
            wanted
        } else {
            size
        };
        let seek = !is_continuation(offset, self.last_end);
        self.last_end = end;
        if seek {
            self.seeks = self.seeks.saturating_add(1);
        }
        let blocks = self.map.blocks_in(offset, end);
        Some(ReadPlan { end, seek, blocks })
    }

    /// Put fetched blocks together into `buf`, which stands for the bytes from
    /// `offset` on. `blocks` are those from `first` on, in order. Returns how many
    /// bytes were written.
    pub fn fill(
        &self,
        buf: &mut [u8],
        offset: u64,
        end: u64,
        first: usize,
        blocks: &Vec<CachedBlock>,
    ) -> (r: usize)
        requires
            self.wf(),
            offset <= end,
            end - offset <= old(buf)@.len(),
            first + blocks@.len() <= self.sizes().len(),
        ensures
            final(buf)@ == block::filled(
                old(buf)@,
                self.sizes(),
                offset,
                end,
                first as int,
                block::block_bytes(blocks@),
            ),
            r == written(
                self.sizes(),
                offset,
                end,
                first as int,
                block::block_bytes(blocks@),
            ),
    {
        let ghost before = buf@;
        let ghost all = block::block_bytes(blocks@);
        let blocks_there = self.map.len();
        let mut count: usize = 0;
        let mut i: usize = 0;
        assert(all.take(0) =~= Seq::empty());
        while i < blocks.len()
            invariant
                self.wf(),
                i <= blocks@.len(),
                blocks_there == self.sizes().len(),
                first + blocks@.len() <= blocks_there,
                offset <= end,
                end - offset <= before.len(),
                buf@.len() == before.len(),
                all == block::block_bytes(blocks@),
                buf@ == block::filled(
                    before,
                    self.sizes(),
                    offset,
                    end,
                    first as int,
                    all.take(i as int),
                ),
                count == written(self.sizes(), offset, end, first as int, all.take(i as int)),
            decreases blocks.len() - i,
        {
            let start = match self.map.start_of(first + i) {
                Some(start) => start,
                None => 0,
            };
            assert(all.take(i + 1).drop_last() =~= all.take(i as int));
            assert(all.take(i + 1).last() == blocks@[i as int]@);
            let block: &Vec<u8> = &*blocks[i];
            let n = splice(buf, offset, block.as_slice(), start, offset, end);
            count = count.saturating_add(n);
            i += 1;
        }
        assert(all.take(all.len() as int) =~= all);
        count
    }

    /// The blocks to prefetch after a read that ended before block `from`, given
    /// how many prefetches may still be started.
    ///
    /// Blocks already resident are skipped without touching their recency, so
    /// speculation cannot reorder the ring against real playback.
    pub fn read_ahead_from(
        &mut self,
        ring: &BlockRing,
        uid: &NodeUid,
        revision: &str,
        from: usize,
        free_slots: usize,
    ) -> (r: Vec<usize>)
        requires
            old(self).wf(),
        ensures
            final(self).wf(),
            final(self).sizes() == old(self).sizes(),
            final(self).ahead() == old(self).ahead(),
            r@ == to_prefetch(
                ring@,
                uid@,
                revision@,
                from as int,
                window_end(
                    from as int,
                    old(self).ahead() as int,
                    old(self).sizes().len() as int,
                ),
                free_slots as nat,
            ),
            final(self).counts() == (StreamCounts {
                started: ring::more(old(self).counts().started, r@.len()),
                ..old(self).counts()
            }),
    {
        let count = self.map.len();
        let upto = if self.readahead <= count && from <= count - self.readahead {
            from + self.readahead
        } else {
            count
        };
        let ghost wanted = to_prefetch(
            ring@,
            uid@,
            revision@,
            from as int,
            upto as int,
            free_slots as nat,
        );
        let mut out: Vec<usize> = Vec::new();
        let mut slots: usize = free_slots;
        let mut index: usize = from;
        assert(out@ + wanted =~= wanted);
        while index < upto && slots > 0
            invariant
                wanted == out@ + to_prefetch(
                    ring@,
                    uid@,
                    revision@,
                    index as int,
                    upto as int,
                    slots as nat,
                ),
            decreases upto - index,
        {
            let key = BlockKey::new(uid, revision, index);
            let ghost listed = out@;
            if !ring.contains(&key) {
                out.push(index);
                slots -= 1;
                assert(out@ + to_prefetch(
                    ring@,
                    uid@,
                    revision@,
                    index + 1,
                    upto as int,
                    slots as nat,
                ) =~= listed + (seq![index] + to_prefetch(
                    ring@,
                    uid@,
                    revision@,
                    index + 1,
                    upto as int,
                    slots as nat,
                )));
            }
            index += 1;
        }
        assert(out@ =~= wanted);
        self.started = self.started.saturating_add(out.len() as u64);
        out
    }

    /// Count the prefetches that a seek cancelled.
    pub fn cancelled(&mut self, prefetches: u64)
        requires
            old(self).wf(),
        ensures
            final(self).wf(),
            final(self).sizes() == old(self).sizes(),
            final(self).ahead() == old(self).ahead(),
            final(self).counts() == (StreamCounts {
                cancelled: ring::more(old(self).counts().cancelled, prefetches as nat),
                ..old(self).counts()
            }),
    {
        self.cancelled = self.cancelled.saturating_add(prefetches);
    }

    /// Keep a block that was found on disk or fetched, and hand it on. Only what
    /// came off the network is counted as fetched.
    pub fn settle(
        &mut self,
        ring: &mut BlockRing,
        key: BlockKey,
        bytes: Vec<u8>,
        fetched: bool,
    ) -> (r: CachedBlock)
        requires
            old(self).wf(),
            old(ring).wf(),
        ensures
            final(self).wf(),
            final(self).sizes() == old(self).sizes(),
            final(self).ahead() == old(self).ahead(),
            final(ring).wf(),
            final(ring).byte_budget() == old(ring).byte_budget(),
            r@ == bytes@,
            bytes@.len() <= old(ring).byte_budget() && old(ring)@.len() < usize::MAX
                ==> final(ring)@ == recency::fitted(
                recency::fronted(old(ring)@, key@, ring::resident(bytes@)),
                old(ring).byte_budget(),
            ),
            bytes@.len() > old(ring).byte_budget() ==> final(ring)@ == old(ring)@,
            final(ring).counted_hits() == old(ring).counted_hits(),
            final(ring).counted_misses() == old(ring).counted_misses(),
            bytes@.len() <= old(ring).byte_budget() && old(ring)@.len() < usize::MAX
                ==> final(ring).counted_evictions() == ring::more(
                old(ring).counted_evictions(),
                (recency::fronted(old(ring)@, key@, ring::resident(bytes@)).len()
                    - final(ring)@.len()) as nat,
            ),
            final(self).counts() == if fetched {
                StreamCounts {
                    fetched_blocks: ring::more(old(self).counts().fetched_blocks, 1),
                    fetched_bytes: ring::more(old(self).counts().fetched_bytes, bytes@.len()),
                    ..old(self).counts()
                }
            } else {
                old(self).counts()
            },
    {
        if fetched {
            self.fetched_blocks = self.fetched_blocks.saturating_add(1);
            self.fetched_bytes = self.fetched_bytes.saturating_add(bytes.len() as u64);
        }
        let block = Arc::new(bytes);
        ring.insert(key, Arc::clone(&block));
        block
    }

    pub fn stats(&self, ring: RingStats, disk: Option<DiskStats>) -> (r: StreamStats)
        ensures
            r == (StreamStats {
                ring,
                disk,
                blocks_fetched: self.counts().fetched_blocks,
                bytes_fetched: self.counts().fetched_bytes,
                readahead_blocks: self.counts().started,
                readahead_cancelled: self.counts().cancelled,
                seeks: self.counts().seeks,
            }),
    {
        StreamStats {
            ring,
            disk,
            blocks_fetched: self.fetched_blocks,
            bytes_fetched: self.fetched_bytes,
            readahead_blocks: self.started,
            readahead_cancelled: self.cancelled,
            seeks: self.seeks,
        }
    }
}

/// How many bytes of `[offset, end)` each of `blocks` holds, added up, as far as
/// a machine word counts.
pub open spec fn written(
    sizes: Seq<u64>,
    offset: u64,
    end: u64,
    first: int,
    blocks: Seq<Seq<u8>>,
) -> int
    decreases blocks.len(),
{
    if blocks.len() == 0 {
        0
    } else {
        let (from, to) = block::overlap(
            blocks.last(),
            block::start(sizes, first + blocks.len() - 1),
            offset,
            end,
        );
        let front = written(sizes, offset, end, first, blocks.drop_last());
        let n = if from < to {
            to - from
        } else {
            0
        };
        if front + n <= usize::MAX {
            front + n
        } else {
            usize::MAX as int
        }
    }
}

/// What a block contributes to a read.
#[verifier::rlimit(40)]
proof fn lemma_written_so_far(
    sizes: Seq<u64>,
    data: Seq<Seq<u8>>,
    offset: u64,
    end: u64,
    first: int,
    n: int,
)
    requires
        block::measures(sizes, data),
        block::total(sizes) <= u64::MAX,
        0 <= first < first + n <= data.len(),
        offset < end <= block::total(sizes),
        end - offset <= usize::MAX,
        block::start(sizes, first) <= offset,
    ensures
        written(sizes, offset, end, first, data.subrange(first, first + n)) == {
            let upto = block::smaller(end, block::start(sizes, first + n));
            if upto > offset {
                upto - offset
            } else {
                0
            }
        },
    decreases n,
{
    reveal_with_fuel(written, 2);
    let some = data.subrange(first, first + n);
    let i = first + n - 1;
    assert(data[i].len() == sizes[i]);
    assert(some.drop_last() =~= data.subrange(first, i));
    assert(some.last() == data[i]);
    assert(sizes.take(i + 1).drop_last() =~= sizes.take(i));
    block::lemma_total_grows(sizes, i + 1, sizes.len() as int);
    assert(sizes.take(sizes.len() as int) =~= sizes);
    if n > 1 {
        lemma_written_so_far(sizes, data, offset, end, first, n - 1);
    } else {
        assert(data.subrange(first, i) =~= Seq::empty());
    }
}

/// A read that its blocks cover is written in full.
#[verifier::rlimit(40)]
pub proof fn law_a_read_is_written_in_full(
    sizes: Seq<u64>,
    data: Seq<Seq<u8>>,
    offset: u64,
    end: u64,
)
    requires
        block::measures(sizes, data),
        block::total(sizes) <= u64::MAX,
        sizes.len() <= usize::MAX,
        offset < end <= block::total(sizes),
        end - offset <= usize::MAX,
    ensures
        ({
            let wanted = block::blocks_over(sizes, offset, end);
            written(
                sizes,
                offset,
                end,
                wanted.start as int,
                data.subrange(wanted.start as int, wanted.end as int),
            ) == end - offset
        }),
{
    let wanted = block::blocks_over(sizes, offset, end);
    block::lemma_blocks_over(sizes, offset, end);
    lemma_written_so_far(
        sizes,
        data,
        offset,
        end,
        wanted.start as int,
        wanted.end - wanted.start,
    );
}

/// Read-ahead asks for nothing that is already resident, for nothing twice, for
/// nothing outside its window, and for no more than there are slots for.
pub proof fn law_read_ahead_asks_only_for_what_is_missing(
    held: Seq<(recency::KeyView, recency::KeptView)>,
    uid: UidView,
    revision: Seq<char>,
    from: int,
    upto: int,
    slots: nat,
)
    requires
        0 <= from,
        upto <= usize::MAX,
    ensures
        ({
            let asked = to_prefetch(held, uid, revision, from, upto, slots);
            &&& asked.len() <= slots
            &&& forall|i: int|
                0 <= i < asked.len() ==> from <= #[trigger] asked[i] < upto && recency::lookup(
                    held,
                    (uid, revision, asked[i] as u64),
                ) is None
            &&& forall|i: int, j: int|
                #![trigger asked[i], asked[j]]
                0 <= i < j < asked.len() ==> asked[i] < asked[j]
        }),
    decreases upto - from,
{
    if from < upto && slots > 0 {
        if recency::lookup(held, (uid, revision, from as u64)) is Some {
            law_read_ahead_asks_only_for_what_is_missing(
                held,
                uid,
                revision,
                from + 1,
                upto,
                slots,
            );
        } else {
            let less = (slots - 1) as nat;
            law_read_ahead_asks_only_for_what_is_missing(
                held,
                uid,
                revision,
                from + 1,
                upto,
                less,
            );
            let rest = to_prefetch(held, uid, revision, from + 1, upto, less);
            let asked = to_prefetch(held, uid, revision, from, upto, slots);
            assert(asked == seq![from as usize] + rest);
            assert forall|i: int| 0 <= i < asked.len() implies from <= #[trigger] asked[i] < upto
                && recency::lookup(held, (uid, revision, asked[i] as u64)) is None by {
                if i > 0 {
                    assert(asked[i] == rest[i - 1]);
                }
            }
            assert forall|i: int, j: int|
                #![trigger asked[i], asked[j]]
                0 <= i < j < asked.len() implies asked[i] < asked[j] by {
                assert(asked[j] == rest[j - 1]);
                if i > 0 {
                    assert(asked[i] == rest[i - 1]);
                }
            }
        }
    }
}

proof fn lemma_largest(sizes: Seq<u64>, i: int)
    requires
        0 <= i < sizes.len(),
    ensures
        sizes[i] <= largest(sizes),
    decreases sizes.len(),
{
    if i < sizes.len() - 1 {
        lemma_largest(sizes.drop_last(), i);
    }
}

proof fn lemma_total_bounded(sizes: Seq<u64>, most: u64)
    requires
        forall|i: int| 0 <= i < sizes.len() ==> #[trigger] sizes[i] <= most,
    ensures
        block::total(sizes) <= sizes.len() * most,
    decreases sizes.len(),
{
    if sizes.len() > 0 {
        let front = sizes.drop_last();
        assert forall|i: int| 0 <= i < front.len() implies #[trigger] front[i] <= most by {
            assert(front[i] == sizes[i]);
        }
        lemma_total_bounded(front, most);
        assert(sizes.len() * most == front.len() * most + most) by (nonlinear_arith)
            requires
                sizes.len() == front.len() + 1,
        ;
        assert(sizes[sizes.len() - 1] <= most);
    }
}

/// Read-ahead never evicts what it has just fetched: wherever its window lies,
/// the blocks in it take up at most half the ring, save that one block is always
/// read ahead where any is asked for.
pub proof fn law_read_ahead_fits_half_the_ring(
    requested: usize,
    ring_budget: u64,
    sizes: Seq<u64>,
    from: int,
)
    requires
        clamped_readahead(requested, ring_budget, sizes) > 1,
        0 <= from <= from + clamped_readahead(requested, ring_budget, sizes) <= sizes.len(),
    ensures
        2 * block::total(
            sizes.subrange(from, from + clamped_readahead(requested, ring_budget, sizes)),
        ) <= ring_budget,
{
    let n = clamped_readahead(requested, ring_budget, sizes);
    let window = sizes.subrange(from, from + n);
    let most = largest(sizes);
    assert forall|i: int| 0 <= i < window.len() implies #[trigger] window[i] <= most by {
        lemma_largest(sizes, from + i);
    }
    lemma_total_bounded(window, most);
    if most > 0 {
        assert(2 * (n * most) <= ring_budget) by (nonlinear_arith)
            requires
                most > 0,
                0 <= n <= (ring_budget as int / most as int) / 2,
        ;
    }
}

/// What becomes of one block that a reader wants.
#[derive(Debug, Clone, Copy, PartialEq, Eq, Structural)]
pub enum BlockStep {
    /// Look for it in the disk cache.
    AskDisk,
    /// Fetch it.
    Fetch,
    /// Write it to the disk cache.
    StoreOnDisk,
    /// Put it in the ring and hand it to whoever waits.
    Settle,
}

/// What is known of a block so far.
#[derive(Debug, Clone, Copy, PartialEq, Eq, Structural)]
pub enum BlockEvent {
    /// It is not in memory.
    NotInMemory,
    /// It was found on disk.
    FoundOnDisk,
    /// It is not on disk.
    NotOnDisk,
    /// It came off the network.
    Fetched,
    /// It was written to the disk cache.
    StoredOnDisk,
}

/// Memory, then disk, then the network; and what comes off the network is
/// written to disk before it is settled.
pub fn next_step(event: BlockEvent, has_disk: bool) -> (r: BlockStep)
    ensures
        r == match event {
            BlockEvent::NotInMemory => if has_disk {
                BlockStep::AskDisk
            } else {
                BlockStep::Fetch
            },
            BlockEvent::FoundOnDisk => BlockStep::Settle,
            BlockEvent::NotOnDisk => BlockStep::Fetch,
            BlockEvent::Fetched => if has_disk {
                BlockStep::StoreOnDisk
            } else {
                BlockStep::Settle
            },
            BlockEvent::StoredOnDisk => BlockStep::Settle,
        },
{
    match event {
        BlockEvent::NotInMemory => if has_disk {
            BlockStep::AskDisk
        } else {
            BlockStep::Fetch
        },
        BlockEvent::FoundOnDisk => BlockStep::Settle,
        BlockEvent::NotOnDisk => BlockStep::Fetch,
        BlockEvent::Fetched => if has_disk {
            BlockStep::StoreOnDisk
        } else {
            BlockStep::Settle
        },
        BlockEvent::StoredOnDisk => BlockStep::Settle,
    }
}

/// How many bytes a ranged read asks for.
pub fn range_length(size: u64, offset: u64, length: u64) -> (r: u64)
    ensures
        r == ({
            let end = block::smaller(block::capped((offset + length) as nat), size);
            if length == 0 || offset >= end {
                0
            } else {
                (end - offset) as u64
            }
        }),
{
    let wanted = offset.saturating_add(length);
    let end = if wanted <= size {
        wanted
    } else {
        size
    };
    if length == 0 || offset >= end {
        0
    } else {
        end - offset
    }
}

/// A read that begins within four mebibytes of where the last one ended goes on
/// from it, before or behind; any other is a seek.
pub proof fn law_a_seek_is_a_jump(offset: u64, previous_end: u64)
    ensures
        continues(offset, previous_end) <==> (offset >= previous_end ==> offset - previous_end <= 4
            * 1024 * 1024) && (offset < previous_end ==> previous_end - offset <= 4 * 1024 * 1024),
{
}

/// A read ends where it was asked to, or at the end of the file where that comes
/// first.
pub proof fn law_a_read_ends_with_the_file(sizes: Seq<u64>, offset: u64, len: nat)
    requires
        block::total(sizes) <= u64::MAX,
    ensures
        offset + len <= block::total(sizes) ==> read_end(sizes, offset, len) == offset + len,
        offset + len > block::total(sizes) ==> read_end(sizes, offset, len) == block::total(sizes),
{
}

/// The size of a file is that of all its blocks.
pub proof fn law_a_file_is_as_long_as_its_blocks(sizes: Seq<u64>, more: u64)
    ensures
        block::total(Seq::<u64>::empty()) == 0,
        block::total(sizes.push(more)) == block::total(sizes) + more,
{
    assert(sizes.push(more).drop_last() =~= sizes);
}

/// The largest block is one of the blocks, and none is larger.
pub proof fn law_the_largest_block_is_found(sizes: Seq<u64>, i: int)
    requires
        0 <= i < sizes.len(),
    ensures
        sizes[i] <= largest(sizes),
        sizes.contains(largest(sizes)),
    decreases sizes.len(),
{
    let front = sizes.drop_last();
    assert(sizes[sizes.len() - 1] == sizes.last());
    if front.len() > 0 {
        law_the_largest_block_is_found(front, if i < front.len() {
            i
        } else {
            0
        });
        let k = choose|k: int| 0 <= k < front.len() && front[k] == largest(front);
        assert(sizes[k] == largest(front));
        if i < front.len() {
            assert(front[i] == sizes[i]);
        }
    } else {
        reveal_with_fuel(largest, 2);
        assert(sizes[0] == largest(sizes));
    }
}

/// What is read ahead lies in the window behind the read: from the block asked for
/// on, no more blocks than are read ahead, and none past the end.
pub proof fn law_the_window_lies_behind_the_read(from: int, readahead: int, count: int)
    requires
        0 <= from <= count,
        0 <= readahead,
    ensures
        from <= window_end(from, readahead, count) <= count,
        window_end(from, readahead, count) - from <= readahead,
        window_end(from, readahead, count) < count ==> window_end(from, readahead, count) - from
            == readahead,
{
}

/// No less is read ahead than was asked for unless one block more would take up
/// more than half the ring; one block is always read ahead where any is asked for.
pub proof fn law_read_ahead_gives_up_no_more_than_it_must(
    requested: usize,
    ring_budget: u64,
    sizes: Seq<u64>,
)
    ensures
        ({
            let n = clamped_readahead(requested, ring_budget, sizes);
            &&& 0 <= n <= requested
            &&& requested > 0 ==> n > 0
            &&& n < requested ==> 2 * ((n + 1) * largest(sizes)) > ring_budget
        }),
{
    let most = largest(sizes) as int;
    let n = clamped_readahead(requested, ring_budget, sizes);
    if n < requested {
        let budget = ring_budget as int;
        let fit = budget / most;
        assert(budget < (fit + 1) * most) by {
            vstd::arithmetic::div_mod::lemma_fundamental_div_mod(budget, most);
            assert((fit + 1) * most == most * fit + most) by (nonlinear_arith);
        }
        assert(2 * (n + 1) >= fit + 1);
        assert(2 * ((n + 1) * most) >= (fit + 1) * most) by (nonlinear_arith)
            requires
                2 * (n + 1) >= fit + 1,
                most > 0,
        ;
    }
}

} // verus!
