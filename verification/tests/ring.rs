use std::sync::Arc;

use proton_stream::ring::{non_zero, BlockKey, BlockRing, DEFAULT_RING_BYTES};
use proton_stream::uid::NodeUid;

fn uid(link: &str) -> NodeUid {
    NodeUid::new("vol", link)
}

fn block(byte: u8, len: usize) -> Arc<Vec<u8>> {
    Arc::new(vec![byte; len])
}

#[test]
fn ring_a_stored_block_reads_back() {
    let mut ring = BlockRing::new(1024);
    let key = BlockKey::new(&uid("a"), "rev1", 0);
    ring.insert(key.clone(), block(7, 16));

    assert_eq!(ring.get(&key).expect("hit").as_slice(), &[7_u8; 16]);
    assert_eq!(ring.stats().hits, 1);
}

/// The budget is the app's memory promise. Exceeding it is the one thing
/// this type must not do.
#[test]
fn the_ring_never_exceeds_its_byte_budget() {
    let mut ring = BlockRing::new(100);
    for index in 0..10 {
        ring.insert(BlockKey::new(&uid("a"), "rev1", index), block(1, 30));
        assert!(
            ring.stats().resident_bytes <= 100,
            "over budget at block {index}"
        );
    }
    assert_eq!(ring.stats().blocks, 3);
    assert!(ring.stats().evictions > 0);
}

/// Eviction order must be least-recently-*used*, not insertion order, or a
/// viewer scrubbing back and forth loses the block they keep returning to.
#[test]
fn the_least_recently_used_block_is_evicted_first() {
    let mut ring = BlockRing::new(60);
    let (a, b) = (
        BlockKey::new(&uid("x"), "rev1", 0),
        BlockKey::new(&uid("x"), "rev1", 1),
    );
    ring.insert(a.clone(), block(1, 30));
    ring.insert(b.clone(), block(2, 30));

    // Touch `a`, making `b` the eviction candidate.
    assert!(ring.get(&a).is_some());
    ring.insert(BlockKey::new(&uid("x"), "rev1", 2), block(3, 30));

    assert!(ring.get(&a).is_some(), "recently used block was evicted");
    assert!(ring.get(&b).is_none(), "stale block survived");
}

/// The reason the revision id is in the key: a resealed file must never
/// serve a byte of its previous content.
#[test]
fn a_new_revision_does_not_hit_the_old_revisions_blocks() {
    let mut ring = BlockRing::new(1024);
    ring.insert(BlockKey::new(&uid("a"), "rev1", 0), block(1, 8));

    assert!(ring.get(&BlockKey::new(&uid("a"), "rev2", 0)).is_none());
}

/// And neither must two different files at the same block index.
#[test]
fn two_files_do_not_collide_at_the_same_block_index() {
    let mut ring = BlockRing::new(1024);
    ring.insert(BlockKey::new(&uid("a"), "rev1", 0), block(1, 8));
    ring.insert(BlockKey::new(&uid("b"), "rev1", 0), block(2, 8));

    assert_eq!(
        ring.get(&BlockKey::new(&uid("a"), "rev1", 0)).unwrap()[0],
        1
    );
    assert_eq!(
        ring.get(&BlockKey::new(&uid("b"), "rev1", 0)).unwrap()[0],
        2
    );
}

/// Read-ahead polls this constantly; it must not distort demand statistics
/// or promote a block it only *considered* fetching.
#[test]
fn a_containment_check_records_no_traffic_and_no_recency() {
    let mut ring = BlockRing::new(60);
    let (a, b) = (
        BlockKey::new(&uid("x"), "rev1", 0),
        BlockKey::new(&uid("x"), "rev1", 1),
    );
    ring.insert(a.clone(), block(1, 30));
    ring.insert(b.clone(), block(2, 30));

    assert!(ring.contains(&a));
    assert_eq!(ring.stats().hits, 0);
    assert_eq!(ring.stats().misses, 0);

    // `a` is still the LRU victim despite having been asked about.
    ring.insert(BlockKey::new(&uid("x"), "rev1", 2), block(3, 30));
    assert!(!ring.contains(&a));
}

/// A block bigger than the whole budget must not flush the cache to make
/// room for something that cannot fit anyway.
#[test]
fn a_block_larger_than_the_budget_is_not_stored() {
    let mut ring = BlockRing::new(50);
    let keeper = BlockKey::new(&uid("a"), "rev1", 0);
    ring.insert(keeper.clone(), block(1, 40));
    ring.insert(BlockKey::new(&uid("a"), "rev1", 1), block(2, 500));

    assert!(ring.get(&keeper).is_some(), "existing block was flushed");
    assert_eq!(ring.stats().blocks, 1);
}

#[test]
fn forgetting_a_revision_reclaims_its_bytes() {
    let mut ring = BlockRing::new(1024);
    for index in 0..4 {
        ring.insert(BlockKey::new(&uid("a"), "rev1", index), block(1, 32));
    }
    ring.insert(BlockKey::new(&uid("b"), "rev1", 0), block(2, 32));

    ring.forget(&uid("a"), "rev1");
    let stats = ring.stats();
    assert_eq!(stats.blocks, 1);
    assert_eq!(stats.resident_bytes, 32);
}

/// Re-inserting the same key must not double-count its bytes; a refetched
/// block would otherwise inflate the accounting until the ring evicted
/// everything.
#[test]
fn reinserting_a_block_does_not_double_count_its_bytes() {
    let mut ring = BlockRing::new(1024);
    let key = BlockKey::new(&uid("a"), "rev1", 0);
    ring.insert(key.clone(), block(1, 64));
    ring.insert(key.clone(), block(1, 64));

    assert_eq!(ring.stats().resident_bytes, 64);
    assert_eq!(ring.stats().blocks, 1);
}

#[test]
fn a_cache_of_streams_holds_at_least_one() {
    assert_eq!(non_zero(0), 1);
    assert_eq!(non_zero(7), 7);
    assert_eq!(BlockRing::new(DEFAULT_RING_BYTES).budget(), 134_217_728);
}

#[test]
fn a_node_is_told_by_both_parts_of_its_name() {
    let mut ring = BlockRing::new(1024);
    let left = NodeUid::new("a~b", "c");
    let right = NodeUid::new("a", "b~c");
    assert_eq!(left.text(), "a~b~c");
    assert_eq!(left.text(), right.text());
    assert!(!left.same(&right));
    assert!(left.same(&left.clone()));
    ring.insert(BlockKey::new(&left, "rev1", 0), block(1, 8));
    assert!(ring.get(&BlockKey::new(&right, "rev1", 0)).is_none());
    assert_eq!(ring.get(&BlockKey::new(&left, "rev1", 0)).unwrap()[0], 1);
}
