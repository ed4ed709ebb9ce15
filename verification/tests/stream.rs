use std::sync::Arc;

use proton_stream::block::{checked_block, BlockMap};
use proton_stream::ring::{BlockKey, BlockRing, DEFAULT_RING_BYTES};
use proton_stream::single_flight::SingleFlight;
use proton_stream::stream::{
    clamp_readahead, is_continuation, next_step, range_length, BlockEvent, BlockStep, StreamState,
    StreamStats, SEQUENTIAL_SLACK,
};
use proton_stream::stream_error::Error;
use proton_stream::uid::NodeUid;

/// Deterministic content: byte `i` of the file is `(i % 251) as u8`, so any range
/// can be checked without holding the whole file.
fn expected(offset: u64, len: usize) -> Vec<u8> {
    (0..len)
        .map(|i| ((offset + i as u64) % 251) as u8)
        .collect()
}

fn uid() -> NodeUid {
    NodeUid::new("vol", "link")
}

/// One open revision, read without a network: what would be fetched is made up on
/// the spot and counted. A prefetch is done at once, unless the source is slow:
/// then it stays in flight until something waits for it or aborts it.
struct Fake {
    state: StreamState,
    ring: BlockRing,
    flight: SingleFlight<BlockKey, usize>,
    sizes: Vec<u64>,
    per_block: Vec<usize>,
    fail_block: Option<usize>,
    slow: bool,
    in_flight: Vec<usize>,
}

impl Fake {
    fn with_ring(sizes: &[u64], ring_bytes: u64, readahead: usize) -> Self {
        Fake {
            state: StreamState::new(sizes, ring_bytes, readahead),
            ring: BlockRing::new(ring_bytes),
            flight: SingleFlight::new(),
            sizes: sizes.to_vec(),
            per_block: vec![0; sizes.len()],
            fail_block: None,
            slow: false,
            in_flight: Vec::new(),
        }
    }

    fn new(sizes: &[u64], readahead: usize) -> Self {
        Fake::with_ring(sizes, DEFAULT_RING_BYTES, readahead)
    }

    fn slow(sizes: &[u64], readahead: usize) -> Self {
        let mut fake = Fake::new(sizes, readahead);
        fake.slow = true;
        fake
    }

    fn failing(sizes: &[u64], readahead: usize, block: usize) -> Self {
        let mut fake = Fake::new(sizes, readahead);
        fake.fail_block = Some(block);
        fake
    }

    fn fetches(&self) -> usize {
        self.per_block.iter().sum()
    }

    fn key(index: usize) -> BlockKey {
        BlockKey::new(&uid(), "rev1", index)
    }

    /// Start fetching a block that nobody is fetching.
    fn lead(&mut self, index: usize) {
        assert!(self.flight.running(&Fake::key(index)).is_none());
        self.flight.lead(Fake::key(index), index);
        if self.fail_block != Some(index) {
            self.per_block[index] += 1;
        }
    }

    /// What the fetch of a block came to.
    fn land(&mut self, index: usize) -> Result<Arc<Vec<u8>>, Error> {
        self.flight.finish(&Fake::key(index));
        self.in_flight.retain(|other| *other != index);
        if self.fail_block == Some(index) {
            return Err(Error::NotFound(format!("block {index} is broken")));
        }
        let start: u64 = self.sizes[..index].iter().sum();
        let bytes = expected(start, self.sizes[index] as usize);
        let bytes = checked_block(&BlockMap::new(&self.sizes), index, "rev1", bytes)?;
        assert_eq!(next_step(BlockEvent::Fetched, false), BlockStep::Settle);
        let key = Fake::key(index);
        Ok(self.state.settle(&mut self.ring, key, bytes, true))
    }

    fn block(&mut self, index: usize) -> Result<Arc<Vec<u8>>, Error> {
        if let Some(block) = self.ring.get(&Fake::key(index)) {
            return Ok(block);
        }
        assert_eq!(next_step(BlockEvent::NotInMemory, false), BlockStep::Fetch);
        if self.flight.running(&Fake::key(index)).is_none() {
            self.lead(index);
        }
        self.land(index)
    }

    fn read_at(&mut self, offset: u64, buf: &mut [u8]) -> Result<usize, Error> {
        let plan = match self.state.begin_read(offset, buf.len()) {
            Some(plan) => plan,
            None => return Ok(0),
        };
        if plan.seek {
            let aborted = std::mem::take(&mut self.in_flight);
            for index in &aborted {
                self.flight.finish(&Fake::key(*index));
            }
            self.state.cancelled(aborted.len() as u64);
        }
        let mut blocks = Vec::new();
        for index in plan.blocks.clone() {
            blocks.push(self.block(index)?);
        }
        let read = self.state.fill(buf, offset, plan.end, plan.blocks.start, &blocks);
        let free = self.state.slots() - self.in_flight.len();
        let from = plan.blocks.end;
        let ahead = self.state.read_ahead_from(&self.ring, &uid(), "rev1", from, free);
        for index in ahead {
            if self.flight.running(&Fake::key(index)).is_some() {
                continue;
            }
            self.lead(index);
            self.in_flight.push(index);
            if !self.slow {
                let _ = self.land(index);
            }
        }
        Ok(read)
    }

    fn read_range(&mut self, offset: u64, length: u64) -> Result<Vec<u8>, Error> {
        let length = range_length(self.state.size(), offset, length);
        let mut out = vec![0_u8; length as usize];
        let read = self.read_at(offset, &mut out)?;
        out.truncate(read);
        Ok(out)
    }

    fn stats(&self) -> StreamStats {
        self.state.stats(self.ring.stats(), None)
    }
}

#[test]
fn a_stream_reports_the_revisions_size() {
    let stream = Fake::new(&[1000, 1000, 500], 0);
    assert_eq!(stream.state.size(), 2500);
    assert_eq!(stream.state.block_sizes(), &[1000, 1000, 500]);
}

#[test]
fn a_read_inside_one_block_returns_the_right_bytes() {
    let mut stream = Fake::new(&[1000, 1000, 500], 0);
    assert_eq!(stream.read_range(10, 20).unwrap(), expected(10, 20));
}

/// The case that matters for playback: a read straddling a block boundary must
/// stitch two blocks without a seam.
#[test]
fn a_read_across_a_boundary_stitches_blocks_correctly() {
    let mut stream = Fake::new(&[1000, 1000, 500], 0);
    assert_eq!(stream.read_range(990, 30).unwrap(), expected(990, 30));
}

#[test]
fn a_read_spanning_every_block_returns_the_whole_file() {
    let mut stream = Fake::new(&[1000, 1000, 500], 0);
    assert_eq!(stream.read_range(0, 2500).unwrap(), expected(0, 2500));
}

/// A cold seek to the middle must fetch only the block it lands in.
#[test]
fn a_seek_fetches_only_the_blocks_it_touches() {
    let mut stream = Fake::new(&[1000; 100], 0);
    stream.read_range(75_000, 100).unwrap();
    assert_eq!(stream.fetches(), 1, "seek pulled more than the landing block");
}

/// The short tail. Reading past it yields what exists, not an error.
#[test]
fn a_read_past_the_end_is_clamped_rather_than_failing() {
    let mut stream = Fake::new(&[1000, 500], 0);
    assert_eq!(stream.read_range(1400, 1000).unwrap(), expected(1400, 100));
}

#[test]
fn a_read_at_or_past_the_end_returns_nothing() {
    let mut stream = Fake::new(&[100], 0);
    assert!(stream.read_range(100, 10).unwrap().is_empty());
    assert!(stream.read_range(5_000, 10).unwrap().is_empty());
    assert!(stream.read_range(u64::MAX, 10).unwrap().is_empty());
}

/// Rewatching a scene must come out of memory, not off the wire.
#[test]
fn a_repeated_read_is_served_from_the_ring() {
    let mut stream = Fake::new(&[1000, 1000], 0);
    stream.read_range(0, 100).unwrap();
    stream.read_range(200, 100).unwrap();
    stream.read_range(500, 100).unwrap();

    assert_eq!(stream.fetches(), 1);
    assert!(stream.stats().ring.hits >= 2);
}

/// Read-ahead exists so the demuxer's *next* read is already resident.
#[test]
fn read_ahead_pulls_the_following_blocks() {
    let mut stream = Fake::new(&[1000; 10], 3);
    stream.read_range(0, 100).unwrap();

    for index in 0..4 {
        assert_eq!(stream.per_block[index], 1, "block {index} not read ahead");
    }
    assert_eq!(stream.per_block[4], 0, "read-ahead ran past its window");
    assert_eq!(stream.stats().readahead_blocks, 3);

    // And the next read is served from what read-ahead already pulled.
    assert_eq!(stream.read_range(1000, 50).unwrap(), expected(1000, 50));
    assert_eq!(stream.per_block[1], 1, "read-ahead's block was refetched");
}

/// Read-ahead must stop at the end rather than fetching blocks that do not exist.
#[test]
fn read_ahead_stops_at_the_end_of_the_file() {
    let mut stream = Fake::new(&[1000, 1000], 8);
    stream.read_range(0, 10).unwrap();
    assert_eq!(stream.fetches(), 2, "fetched past the last block");
}

/// The collision read-ahead makes inevitable: the demand read wants the block a
/// prefetch is already fetching. It must wait for it, not start a second fetch.
#[test]
fn a_demand_read_joins_an_in_flight_read_ahead_instead_of_refetching() {
    let mut stream = Fake::slow(&[1000; 10], 4);
    stream.read_range(0, 10).unwrap();
    assert_eq!(stream.in_flight, vec![1, 2, 3, 4]);

    assert_eq!(stream.read_range(1000, 10).unwrap(), expected(1000, 10));
    assert_eq!(
        stream.per_block[1], 1,
        "the demand read started a second fetch of an in-flight block"
    );
}

/// Read-ahead is speculative; its failures must never surface to the player.
#[test]
fn a_failing_read_ahead_does_not_fail_the_read() {
    let mut stream = Fake::failing(&[1000; 5], 4, 2);
    assert_eq!(stream.read_range(0, 10).unwrap(), expected(0, 10));
    // And the demand read for that block still reports the real failure.
    assert!(stream.read_range(2000, 10).is_err());
}

/// A source failure on the demand path is an error, not silence.
#[test]
fn a_failing_block_surfaces_as_an_error() {
    let mut stream = Fake::failing(&[1000; 3], 0, 0);
    assert_eq!(
        stream.read_range(0, 10),
        Err(Error::NotFound("block 0 is broken".into()))
    );
}

/// Concurrent readers of one stream must not multiply the fetches.
#[test]
fn concurrent_reads_of_the_same_block_fetch_it_once() {
    let mut stream = Fake::new(&[4096], 0);
    stream.lead(0);
    for _ in 1..8 {
        assert_eq!(stream.flight.running(&Fake::key(0)), Some(&0));
    }
    for i in 0..8_u64 {
        assert_eq!(stream.read_range(i * 10, 10).unwrap(), expected(i * 10, 10));
    }
    assert_eq!(stream.fetches(), 1);
}

/// Non-uniform block sizes must read correctly: assuming one size serves bytes
/// from the wrong offset, silently.
#[test]
fn non_uniform_block_sizes_read_correctly() {
    let mut stream = Fake::new(&[13, 1021, 7, 4096, 1], 0);
    assert_eq!(stream.state.size(), 5138);
    assert_eq!(stream.read_range(0, 5138).unwrap(), expected(0, 5138));
    assert_eq!(stream.read_range(1030, 40).unwrap(), expected(1030, 40));
}

/// The memory promise holds even for a file far larger than the ring.
#[test]
fn streaming_a_file_larger_than_the_ring_stays_inside_the_budget() {
    let mut stream = Fake::with_ring(&[1024; 200], 8 * 1024, 0);
    let mut offset = 0;
    while offset < stream.state.size() {
        stream.read_range(offset, 512).unwrap();
        assert!(stream.stats().ring.resident_bytes <= 8 * 1024);
        offset += 512;
    }
    assert_eq!(stream.stats().blocks_fetched, 200);
    assert_eq!(stream.stats().bytes_fetched, 204_800);
}

#[test]
fn read_at_fills_the_callers_buffer() {
    let mut stream = Fake::new(&[1000, 1000], 0);
    let mut buf = vec![0_u8; 64];
    assert_eq!(stream.read_at(990, &mut buf).unwrap(), 64);
    assert_eq!(buf, expected(990, 64));
}

#[test]
fn read_ahead_is_capped_at_half_the_rings_capacity() {
    // 128 MiB of 4 MiB blocks is 32 blocks, so at most 16 ahead.
    let four_mib = 4 * 1024 * 1024;
    assert_eq!(clamp_readahead(32, 128 * 1024 * 1024, &[four_mib; 200]), 16);
    assert_eq!(clamp_readahead(12, 128 * 1024 * 1024, &[four_mib; 200]), 12);
}

/// A ring too small for even one block must still read ahead by one, or playback
/// degenerates to a stall per block with nothing overlapping.
#[test]
fn a_tiny_ring_still_reads_one_block_ahead() {
    assert_eq!(clamp_readahead(12, 1024, &[4 * 1024 * 1024]), 1);
}

/// A stream configured with no read-ahead must keep none.
#[test]
fn read_ahead_stays_off_when_it_is_configured_off() {
    let mut stream = Fake::with_ring(&[1024; 32], 1024, 0);
    stream.read_range(0, 100).unwrap();
    assert_eq!(stream.fetches(), 1);
}

#[test]
fn a_forward_read_within_one_block_continues_the_previous_one() {
    assert!(is_continuation(0, 0), "the first read is not a seek");
    assert!(is_continuation(1_000, 1_000));
    assert!(is_continuation(1_000 + SEQUENTIAL_SLACK, 1_000));
}

/// Demuxers re-read a little behind themselves for headers and index entries.
/// Calling that a seek would cancel read-ahead constantly.
#[test]
fn a_small_backward_read_still_continues_the_previous_one() {
    assert!(is_continuation(100_000_000 - SEQUENTIAL_SLACK, 100_000_000));
    assert!(is_continuation(0, SEQUENTIAL_SLACK));
}

#[test]
fn a_jump_past_the_slack_is_a_seek() {
    assert!(!is_continuation(100_000_000, 1_000));
    assert!(!is_continuation(0, 100_000_000));
}

/// Prefetches from the position the viewer left would hold the bandwidth that the
/// seek needs.
#[test]
fn a_seek_cancels_the_read_ahead_it_invalidates() {
    let mut stream = Fake::slow(&[1024 * 1024; 200], 4);
    stream.read_range(0, 1_000).unwrap();
    assert!(stream.stats().readahead_blocks > 0, "nothing to cancel");

    // Far past the slack: a seek-bar drag.
    stream.read_range(150 * 1024 * 1024, 1_000).unwrap();

    let stats = stream.stats();
    assert_eq!(stats.seeks, 1);
    assert_eq!(
        stats.readahead_cancelled, 4,
        "seek did not cancel the stale prefetches"
    );
}

/// And the mirror image: steady playback must not keep throwing its own read-ahead
/// away.
#[test]
fn sequential_playback_never_cancels_its_own_read_ahead() {
    let mut stream = Fake::new(&[1024; 64], 4);
    let mut offset = 0;
    while offset < stream.state.size() {
        stream.read_range(offset, 256).unwrap();
        offset += 256;
    }
    let stats = stream.stats();
    assert_eq!(stats.seeks, 0, "sequential reads read as seeks");
    assert_eq!(stats.readahead_cancelled, 0);
}

/// A cancelled prefetch must not leave the block unfetchable.
#[test]
fn a_block_whose_prefetch_was_cancelled_can_still_be_read() {
    let mut stream = Fake::slow(&[1024 * 1024; 200], 4);
    stream.read_range(0, 1_000).unwrap();
    stream.read_range(150 * 1024 * 1024, 1_000).unwrap();
    assert_eq!(
        stream.read_range(1024 * 1024, 16).unwrap(),
        expected(1024 * 1024, 16)
    );
}

/// The player passes a fixed-size buffer at every offset, including the last one;
/// a short read there is normal and must be reported honestly.
#[test]
fn a_short_read_at_the_tail_reports_what_it_wrote() {
    let mut stream = Fake::new(&[100], 0);
    let mut buf = vec![9_u8; 64];
    assert_eq!(stream.read_at(80, &mut buf).unwrap(), 20);
    assert_eq!(buf[..20].to_vec(), expected(80, 20));
    assert!(buf[20..].iter().all(|byte| *byte == 9), "the rest is untouched");
}

#[test]
fn a_block_comes_from_memory_then_disk_then_the_network() {
    assert_eq!(next_step(BlockEvent::NotInMemory, true), BlockStep::AskDisk);
    assert_eq!(next_step(BlockEvent::FoundOnDisk, true), BlockStep::Settle);
    assert_eq!(next_step(BlockEvent::NotOnDisk, true), BlockStep::Fetch);
    assert_eq!(next_step(BlockEvent::Fetched, true), BlockStep::StoreOnDisk);
    assert_eq!(next_step(BlockEvent::StoredOnDisk, true), BlockStep::Settle);
}

#[test]
fn read_ahead_passes_over_what_is_already_resident() {
    let mut fake = Fake::new(&[4096, 4096, 4096, 1000], 2);
    fake.read_range(0, 10).expect("read");
    let (ring, state) = (&fake.ring, &mut fake.state);
    assert!(state.read_ahead_from(ring, &uid(), "rev1", 1, 2).is_empty());
    assert_eq!(
        state.read_ahead_from(ring, &uid(), "rev1", 2, 2),
        vec![3],
        "block 2 is resident, block 3 is the last"
    );
    assert_eq!(
        state.read_ahead_from(ring, &uid(), "rev2", 1, 1),
        vec![1],
        "another revision shares nothing, and there is one slot"
    );
}
