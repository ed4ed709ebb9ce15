use std::sync::Arc;

use proton_stream::block::MemoryBlocks;
use proton_stream::disk::DiskCacheConfig;
use proton_stream::ring::{BlockKey, BlockRing};
use proton_stream::single_flight::SingleFlight;
use proton_stream::source::{OpenStreams, StreamConfig, StreamKey};
use proton_stream::stream::{range_length, StreamState};
use proton_stream::uid::NodeUid;

fn uid(link: &str) -> NodeUid {
    NodeUid::new("vol", link)
}

/// A source whose files are all the same two blocks, and that counts how often it
/// had to open one.
struct Source {
    kept: OpenStreams,
    ring: BlockRing,
    opens: u64,
}

impl Source {
    fn new(max_open_streams: usize) -> Self {
        Source {
            kept: OpenStreams::new(max_open_streams),
            ring: BlockRing::new(StreamConfig::default().ring_bytes),
            opens: 0,
        }
    }

    fn open(&mut self, share: &str, uid: &NodeUid) -> u64 {
        match self.kept.get(share, uid) {
            Some(number) => number,
            None => {
                self.opens += 1;
                self.kept.keep(share, uid, self.opens);
                self.opens
            }
        }
    }

    fn read_range(&mut self, uid: &NodeUid, offset: u64, length: u64) -> Vec<u8> {
        let blocks = MemoryBlocks::new("rev1".into(), vec![vec![1_u8; 64], vec![2_u8; 64]]);
        let mut state = StreamState::new(blocks.block_sizes(), self.ring.budget(), 0);
        let mut out = vec![0_u8; range_length(state.size(), offset, length) as usize];
        let plan = state.begin_read(offset, out.len()).expect("a read");
        let mut fetched: Vec<Arc<Vec<u8>>> = Vec::new();
        for index in plan.blocks.clone() {
            let bytes = blocks.read_block(index).expect("a block");
            let key = BlockKey::new(uid, blocks.revision_id(), index);
            fetched.push(state.settle(&mut self.ring, key, bytes, true));
        }
        let read = state.fill(&mut out, offset, plan.end, plan.blocks.start, &fetched);
        out.truncate(read);
        out
    }

    fn close(&mut self, share: &str, uid: &NodeUid) {
        if self.kept.close(share, uid).is_some() {
            self.ring.forget(uid, "rev1");
        }
    }
}

#[test]
fn an_opened_stream_reads_its_blocks() {
    let mut source = Source::new(64);
    source.open("share", &uid("a"));
    let blocks = MemoryBlocks::new("rev1".into(), vec![vec![1_u8; 64], vec![2_u8; 64]]);
    assert_eq!(StreamState::new(blocks.block_sizes(), 1024, 0).size(), 128);
    assert_eq!(
        source.read_range(&uid("a"), 60, 8),
        vec![1, 1, 1, 1, 2, 2, 2, 2]
    );
}

/// Reopening the episode you paused must not re-run the handshake.
#[test]
fn reopening_the_same_file_reuses_the_open_stream() {
    let mut source = Source::new(64);
    assert_eq!(source.open("share", &uid("a")), 1);
    assert_eq!(source.open("share", &uid("a")), 1);
    assert_eq!(source.open("share", &uid("a")), 1);
    assert_eq!(source.opens, 1);
}

/// The race the single flight exists for: several opens of one file before the
/// first of them is done.
#[test]
fn concurrent_opens_of_one_file_handshake_once() {
    let mut source = Source::new(64);
    let mut flight: SingleFlight<StreamKey, u64> = SingleFlight::new();
    let key = StreamKey::new("share", &uid("a"));
    for caller in 0..6 {
        assert_eq!(source.kept.get("share", &uid("a")), None);
        match flight.running(&key) {
            Some(leader) => assert_eq!(*leader, 0),
            None => flight.lead(key.clone(), caller),
        }
    }
    source.open("share", &uid("a"));
    flight.finish(&key);
    assert!(flight.running(&key).is_none());
    assert_eq!(source.opens, 1);
}

/// The same file behind two links is two streams: the shares may have different
/// lifetimes and different credentials.
#[test]
fn the_same_file_in_two_shares_is_two_streams() {
    let mut source = Source::new(64);
    source.open("share-one", &uid("a"));
    source.open("share-two", &uid("a"));
    assert_eq!(source.opens, 2);

    let mut flight: SingleFlight<StreamKey, u64> = SingleFlight::new();
    flight.lead(StreamKey::new("share-one", &uid("a")), 1);
    assert!(flight.running(&StreamKey::new("share-two", &uid("a"))).is_none());
}

/// Closing must reclaim the memory, or a long session leaks a ring's worth of
/// every episode watched.
#[test]
fn closing_a_stream_releases_its_blocks() {
    let mut source = Source::new(64);
    source.open("share", &uid("a"));
    source.read_range(&uid("a"), 0, 128);
    assert!(source.ring.stats().resident_bytes > 0);

    source.close("share", &uid("a"));
    assert_eq!(source.ring.stats().resident_bytes, 0);
}

#[test]
fn closing_a_stream_forgets_it() {
    let mut open = OpenStreams::new(4);
    open.keep("share", &uid("a"), 1);
    assert_eq!(open.close("share", &uid("a")), Some(1));
    assert_eq!(open.close("share", &uid("a")), None);
    assert_eq!(open.get("share", &uid("a")), None);
}

/// Beyond the capacity the oldest handle is dropped; the next open re-runs the
/// handshake rather than failing.
#[test]
fn the_open_stream_lru_is_bounded() {
    let mut source = Source::new(2);
    for link in ["a", "b", "c"] {
        source.open("share", &uid(link));
    }
    // "a" was evicted, so this is a fourth open.
    source.open("share", &uid("a"));
    assert_eq!(source.opens, 4);
}

#[test]
fn the_stream_used_least_recently_makes_way() {
    let mut open = OpenStreams::new(2);
    assert_eq!(open.keep("s", &uid("a"), 1), None);
    assert_eq!(open.keep("s", &uid("b"), 2), None);
    // `a` is used again, so `b` is the one to go.
    assert_eq!(open.get("s", &uid("a")), Some(1));
    assert_eq!(open.keep("s", &uid("c"), 3), Some(2));
    assert_eq!(open.get("s", &uid("b")), None);
    assert_eq!(open.get("s", &uid("a")), Some(1));
    // A configured zero holds one.
    let mut one = OpenStreams::new(0);
    assert_eq!(one.keep("s", &uid("a"), 1), None);
    assert_eq!(one.keep("s", &uid("b"), 2), Some(1));
}

#[test]
fn a_configuration_is_built_up_from_the_defaults() {
    let config = StreamConfig::default();
    assert_eq!(config.ring_bytes, 134_217_728);
    assert_eq!(config.readahead_blocks, 12);
    assert_eq!(config.max_open_streams, 64);
    assert!(config.disk_cache.is_none());
    let config = config
        .with_disk_cache(DiskCacheConfig::new("/blocks".into()))
        .with_readahead(0)
        .with_ring_bytes(9);
    assert_eq!(config.disk_cache.as_ref().map(|c| c.root.as_str()), Some("/blocks"));
    assert_eq!(config.readahead_blocks, 0);
    assert_eq!(config.ring_bytes, 9);
}

#[test]
fn room_for_any_number_of_streams_costs_nothing_in_advance() {
    let mut open = OpenStreams::new(usize::MAX);
    let uid = NodeUid::new("vol", "link");
    assert_eq!(open.keep("s", &uid, 7), None);
    assert_eq!(open.get("s", &uid), Some(7));
}
