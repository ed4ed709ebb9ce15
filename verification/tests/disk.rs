use std::collections::HashMap;

use proton_stream::disk::{
    block_path, discard_order, is_entry, meta_name, place, read_entry, sidecar_text, write_order,
    DiskCacheConfig, DiskIndex, EntryHalf, Scanned, WriteStep,
};
use proton_stream::ring::BlockKey;
use proton_stream::stream_error::Error;
use proton_stream::uid::NodeUid;

/// The cache with its files in memory.
struct Cache {
    index: DiskIndex,
    files: HashMap<String, Vec<u8>>,
}

fn path(key: &BlockKey) -> String {
    block_path(key).join("/")
}

impl Cache {
    fn open(budget: u64, files: HashMap<String, Vec<u8>>) -> Self {
        let mut found: Vec<Scanned> = files
            .iter()
            .filter(|(name, _)| !name.ends_with(".meta"))
            .map(|(name, block)| Scanned {
                path: name.clone(),
                len: block.len() as u64,
                modified: block[0] as u64,
            })
            .collect();
        found.sort_by(|a, b| a.path.cmp(&b.path));
        let (index, dropped) = DiskIndex::open(budget, found);
        let mut cache = Cache { index, files };
        cache.discard(dropped);
        cache
    }

    fn discard(&mut self, names: Vec<String>) {
        for name in names {
            for half in discard_order() {
                match half {
                    EntryHalf::Sidecar => self.files.remove(&meta_name(&name)),
                    EntryHalf::Block => self.files.remove(&name),
                };
            }
        }
    }

    fn put(&mut self, key: &BlockKey, block: &[u8]) {
        if !self.index.admits(block.len() as u64) {
            return;
        }
        let name = path(key);
        for step in write_order() {
            match step {
                WriteStep::WriteAside => {}
                WriteStep::MoveIntoPlace => {
                    self.files.insert(name.clone(), block.to_vec());
                }
                WriteStep::WriteSidecar => {
                    self.files.insert(meta_name(&name), sidecar_text(block.len()).into_bytes());
                }
            }
        }
        let dropped = self.index.stored(&name, block.len() as u64);
        self.discard(dropped);
    }

    fn get(&mut self, key: &BlockKey) -> Option<Vec<u8>> {
        let name = path(key);
        let sidecar = self
            .files
            .get(&meta_name(&name))
            .map(|text| String::from_utf8_lossy(text).into_owned());
        match read_entry(sidecar, self.files.get(&name).cloned(), &meta_name(&name)) {
            Ok(Some(block)) => {
                self.index.hit(&name, block.len() as u64);
                Some(block)
            }
            Ok(None) => {
                self.index.miss();
                None
            }
            Err(_) => {
                self.index.reject();
                self.discard(vec![name]);
                None
            }
        }
    }
}

fn key(link: &str, revision: &str, index: usize) -> BlockKey {
    BlockKey::new(&NodeUid::new("vol", link), revision, index)
}

fn cache() -> Cache {
    Cache::open(DiskCacheConfig::new("/blocks".into()).budget_bytes, HashMap::new())
}

#[test]
fn disk_a_stored_block_reads_back() {
    let mut cache = cache();
    let block = vec![9_u8; 4096];
    cache.put(&key("a", "rev1", 3), &block);
    assert_eq!(cache.get(&key("a", "rev1", 3)), Some(block));
    assert_eq!(cache.index.stats().hits, 1);
}

#[test]
fn an_absent_block_is_a_miss_and_not_an_error() {
    let mut cache = cache();
    assert!(cache.get(&key("a", "rev1", 0)).is_none());
    assert_eq!(cache.index.stats().misses, 1);
    assert_eq!(cache.index.stats().rejected, 0);
}

/// The reason the sidecar is written last. A truncated block must never be served:
/// for video it would not fail, it would decode as corruption.
#[test]
fn a_block_that_disagrees_with_its_sidecar_is_rejected_and_removed() {
    let mut cache = cache();
    let k = key("a", "rev1", 0);
    cache.put(&k, &[1_u8; 100]);

    // Simulate the torn write the ordering is designed to catch.
    cache.files.insert(path(&k), vec![1_u8; 40]);

    assert!(cache.get(&k).is_none());
    assert_eq!(cache.index.stats().rejected, 1);
    assert!(
        !cache.files.contains_key(&path(&k)),
        "invalid entry should be cleaned up"
    );
}

/// A block with no sidecar at all: the crash-between-writes case.
#[test]
fn a_block_without_a_sidecar_is_a_miss() {
    let mut cache = cache();
    let k = key("a", "rev1", 0);
    cache.put(&k, &[1_u8; 100]);

    cache.files.remove(&meta_name(&path(&k)));
    assert!(cache.get(&k).is_none());
    assert_eq!(cache.index.stats().rejected, 0);
}

#[test]
fn the_cache_stays_inside_its_budget() {
    let mut cache = Cache::open(300, HashMap::new());
    for index in 0..10 {
        cache.put(&key("a", "rev1", index), &[1_u8; 100]);
        assert!(
            cache.index.stats().stored_bytes <= 300,
            "over budget at {index}"
        );
    }
    assert_eq!(cache.index.stats().entries, 3);
    assert_eq!(cache.index.stats().evictions, 7);
}

/// Eviction must delete the files, not merely forget them, or the budget is a
/// fiction and the disk fills up anyway.
#[test]
fn eviction_removes_the_files_from_disk() {
    let mut cache = Cache::open(150, HashMap::new());
    let first = key("a", "rev1", 0);
    cache.put(&first, &[1_u8; 100]);
    cache.put(&key("a", "rev1", 1), &[2_u8; 100]);

    assert!(
        !cache.files.contains_key(&path(&first)),
        "evicted block still on disk"
    );
    assert!(
        !cache.files.contains_key(&meta_name(&path(&first))),
        "evicted sidecar still on disk"
    );
}

/// The point of the cache: a second run reuses the first run's bytes.
#[test]
fn a_reopened_cache_adopts_what_the_previous_run_wrote() {
    let mut first = cache();
    first.put(&key("a", "rev1", 0), &[7_u8; 256]);

    let mut cache = Cache::open(DiskCacheConfig::DEFAULT_BUDGET_BYTES, first.files);
    assert_eq!(cache.index.stats().entries, 1);
    assert_eq!(cache.index.stats().stored_bytes, 256);
    assert_eq!(cache.get(&key("a", "rev1", 0)), Some(vec![7_u8; 256]));
}

/// Reopening with a smaller budget must shrink the cache, not sit over it until
/// enough new blocks arrive to trigger eviction.
#[test]
fn reopening_with_a_smaller_budget_evicts_immediately() {
    let mut first = cache();
    for index in 0..5 {
        first.put(&key("a", "rev1", index), &[index as u8 + 1; 100]);
    }
    let cache = Cache::open(250, first.files);
    assert!(cache.index.stats().stored_bytes <= 250);
    assert_eq!(cache.index.stats().entries, 2);
    // The oldest go first.
    assert!(!cache.files.contains_key(&path(&key("a", "rev1", 0))));
    assert!(cache.files.contains_key(&path(&key("a", "rev1", 4))));
}

/// Two revisions of the same file are different entries, so stale bytes are
/// unreachable rather than merely unlikely.
#[test]
fn a_new_revision_does_not_read_the_old_ones_blocks() {
    let mut cache = cache();
    cache.put(&key("a", "rev1", 0), &[1_u8; 64]);
    assert!(cache.get(&key("a", "rev2", 0)).is_none());
}

/// Nothing about the library should be legible from the cache directory.
#[test]
fn cache_paths_carry_no_names() {
    let rendered = path(&key("Frieren-S01E01", "rev1", 0));
    assert!(
        !rendered.contains("Frieren"),
        "path leaks content: {rendered}"
    );
    let parts = block_path(&key("Frieren-S01E01", "rev1", 12));
    assert_eq!(parts.len(), 3);
    assert_eq!(parts[0].len(), 2);
    assert_eq!(parts[1].len(), 64);
    assert!(parts[1].starts_with(&parts[0]));
    assert_eq!(parts[2], "b12");
}

/// A cache root that does not exist yet is the first-run case.
#[test]
fn a_missing_cache_root_opens_empty() {
    let cache = cache();
    assert_eq!(cache.index.stats().entries, 0);
}

/// The digest is of the node and the revision with a zero byte between them.
#[test]
fn a_block_lies_where_its_digest_says() {
    let digest: Vec<u8> = (0..32).collect();
    assert_eq!(
        place(&digest, 3),
        vec![
            "00",
            "000102030405060708090a0b0c0d0e0f101112131415161718191a1b1c1d1e1f",
            "b3"
        ]
    );
    assert_eq!(
        block_path(&BlockKey::new(&NodeUid::new("vol", "link"), "rev1", 0))[1],
        "c81c4285c7765ae0fe66e30c03eb3c020d37fb03fb0d18f22de06c888cbf2df4"
    );
}

#[test]
fn a_sidecar_that_is_no_length_is_an_error() {
    assert_eq!(
        read_entry(Some("x".into()), Some(vec![1]), "b0.meta"),
        Err(Error::NotFound("b0.meta holds no usable length".into()))
    );
    assert_eq!(
        read_entry(Some("1".into()), None, "b0.meta"),
        Err(Error::NotFound("cached block is missing".into()))
    );
    assert_eq!(
        read_entry(Some("3".into()), Some(vec![1]), "b0.meta"),
        Err(Error::NotFound("cached block is 1 bytes, sidecar claims 3".into()))
    );
    assert_eq!(read_entry(Some(" 1\n".into()), Some(vec![5]), "b0.meta"), Ok(Some(vec![5])));
}

#[test]
fn a_budget_is_four_gibibytes_unless_said_otherwise() {
    let config = DiskCacheConfig::new("/blocks".into());
    assert_eq!(config.budget_bytes, 4 * 1024 * 1024 * 1024);
    assert_eq!(config.with_budget(5).budget_bytes, 5);
}

#[test]
fn a_scan_passes_over_what_is_no_finished_block() {
    assert!(is_entry("b0", true, true));
    assert!(!is_entry("b0", true, false), "no sidecar: never finished");
    assert!(!is_entry("b0", false, true), "a directory");
    assert!(!is_entry("b0.meta", true, true));
    assert!(!is_entry("b0.part", true, true));
    assert!(is_entry(".b0", true, true));
}

#[test]
fn two_revisions_land_in_different_directories() {
    let node = NodeUid::new("vol", "link");
    let at = |revision: &str, index: usize| block_path(&BlockKey::new(&node, revision, index));
    assert_ne!(at("rev1", 0)[1], at("rev2", 0)[1]);
    assert_eq!(at("rev1", 0)[1], at("rev1", 1)[1]);
    assert_ne!(at("rev1", 0)[2], at("rev1", 1)[2]);
    // The same letters, cut in another place.
    let other = NodeUid::new("vol", "linkr");
    assert_ne!(block_path(&BlockKey::new(&other, "ev1", 0))[1], at("rev1", 0)[1]);
}
