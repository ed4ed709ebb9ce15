use proton_stream::block::{checked_block, splice, BlockMap, MemoryBlocks};
use proton_stream::stream_error::Error;

/// The realistic shape: uniform blocks with a short tail.
fn map() -> BlockMap {
    BlockMap::new(&[4096, 4096, 1000])
}

#[test]
fn a_block_map_sums_to_the_revision_size() {
    assert_eq!(map().size(), 9192);
    assert_eq!(map().len(), 3);
}

#[test]
fn an_offset_resolves_to_the_block_holding_it() {
    let map = map();
    assert_eq!(map.block_at(0), Some(0));
    assert_eq!(map.block_at(4095), Some(0));
    assert_eq!(map.block_at(4096), Some(1));
    assert_eq!(map.block_at(8191), Some(1));
    assert_eq!(map.block_at(8192), Some(2));
    assert_eq!(map.block_at(9191), Some(2));
}

#[test]
fn an_offset_at_or_past_the_end_resolves_to_nothing() {
    assert_eq!(map().block_at(9192), None);
    assert_eq!(map().block_at(u64::MAX), None);
}

#[test]
fn a_range_covers_every_block_it_touches() {
    let map = map();
    assert_eq!(map.blocks_in(0, 1), 0..1);
    assert_eq!(map.blocks_in(4095, 4097), 0..2);
    assert_eq!(map.blocks_in(0, 9192), 0..3);
    assert_eq!(map.blocks_in(8192, 9192), 2..3);
}

/// A read ending exactly on a boundary must not pull the next block — that
/// would be a 4 MiB fetch for zero bytes.
#[test]
fn a_range_ending_on_a_boundary_stops_short_of_the_next_block() {
    assert_eq!(map().blocks_in(0, 4096), 0..1);
    assert_eq!(map().blocks_in(4096, 8192), 1..2);
}

#[test]
fn an_empty_or_past_the_end_range_covers_nothing() {
    let map = map();
    assert!(map.blocks_in(100, 100).is_empty());
    assert!(map.blocks_in(9192, 10000).is_empty());
    assert!(map.blocks_in(500, 100).is_empty());
}

/// Non-uniform block sizes are the case a divide-by-block-size would get
/// wrong, so they are pinned explicitly.
#[test]
fn non_uniform_blocks_still_resolve_correctly() {
    let map = BlockMap::new(&[10, 1000, 5]);
    assert_eq!(map.block_at(9), Some(0));
    assert_eq!(map.block_at(10), Some(1));
    assert_eq!(map.block_at(1009), Some(1));
    assert_eq!(map.block_at(1010), Some(2));
    assert_eq!(map.size(), 1015);
}

#[test]
fn a_spliced_block_lands_at_the_right_place_in_the_output() {
    // Reading bytes 4090..4106 of the map above: 6 bytes from block 0, 10
    // from block 1.
    let (offset, end) = (4090_u64, 4106_u64);
    let mut out = vec![0_u8; (end - offset) as usize];

    let block0 = vec![b'a'; 4096];
    let block1 = vec![b'b'; 4096];
    assert_eq!(splice(&mut out, offset, &block0, 0, offset, end), 6);
    assert_eq!(splice(&mut out, offset, &block1, 4096, offset, end), 10);

    assert_eq!(&out[..6], b"aaaaaa");
    assert_eq!(&out[6..], b"bbbbbbbbbb");
}

/// A block wholly outside the range writes nothing rather than corrupting
/// the buffer.
#[test]
fn a_block_outside_the_range_writes_nothing() {
    let mut out = vec![0_u8; 8];
    let block = vec![b'x'; 4096];
    assert_eq!(splice(&mut out, 0, &block, 8192, 0, 8), 0);
    assert_eq!(out, vec![0_u8; 8]);
}

#[test]
fn sizes_that_overflow_saturate_rather_than_wrap() {
    let map = BlockMap::new(&[u64::MAX, 5]);
    assert_eq!(map.size(), u64::MAX);
    assert_eq!(map.start_of(1), Some(u64::MAX));
    assert_eq!(map.size_of(1), Some(5));
    assert_eq!(map.size_of(2), None);
    assert!(BlockMap::new(&[]).is_empty());
}

#[test]
fn memory_blocks_read_back_and_an_absent_one_is_an_error() {
    let blocks = MemoryBlocks::new("rev-1".into(), vec![vec![1, 2, 3], vec![4]]);
    assert_eq!(blocks.revision_id(), "rev-1");
    assert_eq!(blocks.block_sizes(), &[3, 1]);
    assert_eq!(blocks.read_block(1), Ok(vec![4]));
    assert!(matches!(blocks.read_block(2), Err(Error::NotFound(_))));
}

#[test]
fn a_block_of_the_wrong_length_is_refused() {
    let map = BlockMap::new(&[3]);
    assert_eq!(checked_block(&map, 0, "rev-1", vec![1, 2, 3]), Ok(vec![1, 2, 3]));
    assert!(checked_block(&map, 0, "rev-1", vec![1, 2]).is_err());
}

#[test]
fn every_stream_error_says_what_failed() {
    assert_eq!(Error::Io("full".into()).message(), "block cache: full");
    for error in [
        Error::Core("x".into()),
        Error::Drive("x".into()),
        Error::NotFound("x".into()),
        Error::Shared("x".into()),
    ] {
        assert_eq!(error.message(), "x");
    }
}

#[test]
fn a_copy_of_a_map_finds_the_same_blocks() {
    let map = BlockMap::new(&[1000, 0, 500]);
    let copy = map.clone();
    assert_eq!(copy, map);
    assert_eq!(copy.sizes(), &[1000, 0, 500]);
    assert_eq!(copy.block_at(1200), Some(2));
}
