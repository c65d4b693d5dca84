use cloyster::database::{Database, Stored};
use cloyster::pagecache::cache::PageCache;
use cloyster::pagecache::config::{
    Config, ConfigBuilder, DEFAULT_CONSOLIDATION_THRESHOLD, DEFAULT_SEGMENT_SIZE,
    DEFAULT_SNAPSHOT_AFTER_OPS,
};
use cloyster::pagecache::files::{
    is_in_motion, is_stale, motion_name, newest_snapshot, parse_snapshot_name, snapshot_name,
};
use cloyster::pagecache::snapshot::Snapshot;
use cloyster::pagecache::Error;

#[test]
fn snapshot_names() {
    assert_eq!(snapshot_name(0), b"snap.0000000000000000".to_vec());
    assert_eq!(snapshot_name(0x1f), b"snap.000000000000001f".to_vec());
    assert_eq!(snapshot_name(u64::MAX), b"snap.ffffffffffffffff".to_vec());
    assert_eq!(snapshot_name(0x0123_4567_89ab_cdef), b"snap.0123456789abcdef".to_vec());
    assert_eq!(motion_name(48), b"snap.0000000000000030.in___motion".to_vec());
    for lsn in [0u64, 1, 24, 48, 4096, 1 << 40, u64::MAX - 1, u64::MAX] {
        assert_eq!(parse_snapshot_name(&snapshot_name(lsn)), Some(lsn));
        assert_eq!(parse_snapshot_name(&motion_name(lsn)), None);
        assert!(is_in_motion(&motion_name(lsn)));
        assert!(!is_in_motion(&snapshot_name(lsn)));
    }
    assert_eq!(parse_snapshot_name(b"snap.000000000000001F"), None);
    assert_eq!(parse_snapshot_name(b"snap.1f"), None);
    assert_eq!(parse_snapshot_name(b"snap.000000000000001g"), None);
    assert_eq!(parse_snapshot_name(b"snap_000000000000001f"), None);
    assert_eq!(parse_snapshot_name(b"db"), None);
    assert_eq!(parse_snapshot_name(b"conf"), None);
    assert_eq!(parse_snapshot_name(b""), None);
    assert!(!is_in_motion(b"db.in___motion"));
    assert!(is_in_motion(b"snap..in___motion"));
    assert!(!is_in_motion(b"snap.in___motion"));
}

#[test]
fn newest_snapshot_is_chosen() {
    let names = vec![
        b"conf".to_vec(),
        snapshot_name(48),
        b"db".to_vec(),
        motion_name(4096),
        snapshot_name(1024),
        snapshot_name(96),
    ];
    assert_eq!(newest_snapshot(&names), Some((4, 1024)));
    assert_eq!(newest_snapshot(&vec![b"db".to_vec(), motion_name(7)]), None);
    assert_eq!(newest_snapshot(&Vec::new()), None);
    // once the snapshot at 1024 is whole, older ones and unfinished ones go
    let stale: Vec<bool> = names.iter().map(|n| is_stale(n, 1024)).collect();
    assert_eq!(stale, vec![false, true, false, true, false, true]);
}

#[test]
fn snapshot_file_round_trip() {
    let snapshot = Snapshot {
        last_lsn: 4096,
        max_pid: 4,
        pt: vec![vec![24, 48], vec![], vec![72], vec![96, 120, 144]],
    };
    let bytes = snapshot.encode();
    // the offset, the number of chains, four counts, six offsets, a checksum
    assert_eq!(bytes.len(), 8 + 8 + 4 * 8 + 6 * 8 + 4);
    assert_eq!(&bytes[0..8], &4096u64.to_le_bytes());
    assert_eq!(&bytes[8..16], &4u64.to_le_bytes());
    assert_eq!(&bytes[16..24], &2u64.to_le_bytes());
    assert_eq!(&bytes[24..32], &24u64.to_le_bytes());
    let back = Snapshot::decode(&bytes).unwrap();
    assert_eq!(back.last_lsn, 4096);
    assert_eq!(back.max_pid, 4);
    assert_eq!(back.pt, snapshot.pt);
    for cut in 0..bytes.len() {
        assert!(Snapshot::decode(&bytes[..cut]).is_none());
    }
    for i in 0..bytes.len() {
        let mut bad = bytes.clone();
        bad[i] ^= 1;
        assert!(Snapshot::decode(&bad).is_none());
    }
    let empty = Snapshot { last_lsn: 0, max_pid: 0, pt: vec![] };
    assert_eq!(Snapshot::decode(&empty.encode()).unwrap().pt, Vec::<Vec<u64>>::new());
}

#[test]
fn snapshot_of_a_cache_round_trips() {
    let config = ConfigBuilder::new().segment_size(256).build();
    let mut pc: PageCache<Vec<u8>> = PageCache::new(config).unwrap();
    let (a, ka) = pc.allocate(b"a".to_vec()).unwrap();
    let (b, _) = pc.allocate(b"b".to_vec()).unwrap();
    pc.link(a, ka, b"c".to_vec()).unwrap();
    pc.free(b).unwrap();
    pc.cas_block_in_meta(b"h", None, Some(a)).unwrap().unwrap();
    let file = pc.snapshot().encode();
    let snapshot = Snapshot::decode(&file).unwrap();
    assert!(snapshot.validate());
    let config = ConfigBuilder::new().segment_size(256).build();
    let mut again: PageCache<Vec<u8>> =
        PageCache::start(config, Some(&snapshot), &pc.image()).unwrap();
    assert_eq!(again.get(a).unwrap().1, b"ac".to_vec());
    assert_eq!(again.get(b).err(), Some(Error::ReportableBug));
    assert_eq!(again.meta().get_block(b"h"), Some(a));
}

#[test]
fn options_file() {
    let config = ConfigBuilder::new().build();
    assert_eq!(config.segment_size, DEFAULT_SEGMENT_SIZE);
    assert_eq!(config.segment_size, 8 * 1024 * 1024);
    assert_eq!(config.page_consolidation_threshold, DEFAULT_CONSOLIDATION_THRESHOLD);
    assert_eq!(config.page_consolidation_threshold, 10);
    assert_eq!(config.snapshot_after_ops, DEFAULT_SNAPSHOT_AFTER_OPS);
    assert_eq!(config.snapshot_after_ops, 1_000_000);
    assert_eq!(config.flush_every_ms, Some(500));
    assert!(!config.temporary);
    assert_eq!(config.path, "");
    let bytes = config.encode();
    assert_eq!(bytes.len(), 33);
    assert_eq!(&bytes[0..8], &(8u64 * 1024 * 1024).to_le_bytes());
    assert_eq!(&bytes[8..16], &10u64.to_le_bytes());
    assert_eq!(&bytes[16..24], &1_000_000u64.to_le_bytes());
    assert_eq!(bytes[24], 1);
    assert_eq!(&bytes[25..33], &500u64.to_le_bytes());
    assert_eq!(config.check(None), Ok(()));
    assert_eq!(config.check(Some(&bytes)), Ok(()));
    // the directory and whether it is temporary are not in the file
    let moved = ConfigBuilder::new().path("elsewhere".to_string()).temporary(true).build();
    assert_eq!(moved.path, "elsewhere");
    assert!(moved.temporary);
    assert_eq!(moved.check(Some(&bytes)), Ok(()));
    let others: Vec<Config> = vec![
        ConfigBuilder::new().segment_size(4096).build(),
        ConfigBuilder::new().page_consolidation_threshold(3).build(),
        ConfigBuilder::new().snapshot_after_ops(5).build(),
        ConfigBuilder::new().flush_every_ms(None).build(),
        ConfigBuilder::new().flush_every_ms(Some(1)).build(),
    ];
    for other in &others {
        assert_eq!(other.check(Some(&bytes)), Err(Error::Unsupported));
        assert_eq!(other.check(Some(&other.encode())), Ok(()));
        assert_eq!(other.duplicate().encode(), other.encode());
    }
    assert_eq!(config.check(Some(&bytes[..32])), Err(Error::Unsupported));
}

#[test]
fn store_with_other_options_is_not_opened() {
    let mut db = Database::default();
    let block = db.genesis().unwrap();
    block.commit(&mut db.context).unwrap();
    let stored = db.stored();
    assert_eq!(stored.conf, Some(ConfigBuilder::new().build().encode()));
    assert!(Database::open("a".to_string(), &stored).is_ok());
    let other = Stored {
        conf: Some(ConfigBuilder::new().segment_size(4096).build().encode()),
        snapshot: None,
        log: stored.log.clone(),
    };
    assert_eq!(
        Database::open("a".to_string(), &other).err(),
        Some(cloyster::Error::PCError(Error::Unsupported))
    );
    assert_eq!(Database::open("a".to_string(), &stored).unwrap().path(), "a");
    assert_eq!(Database::default().path(), "");
}

#[test]
fn poisoned_cache_fails_changes() {
    let config = ConfigBuilder::new().segment_size(256).build();
    let mut pc: PageCache<Vec<u8>> = PageCache::new(config).unwrap();
    let (pid, key) = pc.allocate(b"a".to_vec()).unwrap();
    assert!(!pc.is_poisoned());
    pc.poison();
    assert!(pc.is_poisoned());
    let tail = pc.tail();
    assert_eq!(pc.allocate(b"b".to_vec()).err(), Some(Error::Io));
    assert_eq!(pc.link(pid, key, b"b".to_vec()), Err(Error::Io));
    assert_eq!(pc.replace(pid, key, b"b".to_vec()), Err(Error::Io));
    assert_eq!(pc.rewrite(pid), Err(Error::Io));
    assert_eq!(pc.free(pid), Err(Error::Io));
    assert_eq!(pc.cas_block_in_meta(b"h", None, Some(1)), Err(Error::Io));
    // what was there is still read
    assert_eq!(pc.get(pid).unwrap().1, b"a".to_vec());
    assert_eq!(pc.tail(), tail);
    // until the store is opened again
    let config = ConfigBuilder::new().segment_size(256).build();
    let mut again: PageCache<Vec<u8>> = PageCache::start(config, None, &pc.image()).unwrap();
    assert!(!again.is_poisoned());
    let key = again.head(pid).unwrap();
    assert!(again.link(pid, key, b"b".to_vec()).is_ok());
}

#[test]
fn snapshot_is_due_after_so_many_changes() {
    let config = ConfigBuilder::new().segment_size(256).snapshot_after_ops(3).build();
    let mut pc: PageCache<Vec<u8>> = PageCache::new(config).unwrap();
    assert!(!pc.snapshot_due());
    let (pid, key) = pc.allocate(b"a".to_vec()).unwrap();
    let key = pc.link(pid, key, b"b".to_vec()).unwrap();
    assert!(!pc.snapshot_due());
    // a change that fails is not counted
    assert!(pc.link(pid, 0, b"c".to_vec()).is_err());
    assert!(!pc.snapshot_due());
    pc.get(pid).unwrap();
    assert!(!pc.snapshot_due());
    pc.link(pid, key, b"c".to_vec()).unwrap();
    assert!(pc.snapshot_due());
    pc.snapshot_written();
    assert!(!pc.snapshot_due());
}

#[test]
fn rewriting_the_owners_frees_a_segment() {
    let config = ConfigBuilder::new().segment_size(128).build();
    let mut pc: PageCache<Vec<u8>> = PageCache::new(config).unwrap();
    let (a, ka) = pc.allocate(vec![1u8; 30]).unwrap();
    let (b, _) = pc.allocate(vec![2u8; 30]).unwrap();
    let (c, _) = pc.allocate(vec![3u8; 30]).unwrap();
    pc.link(a, ka, vec![4u8; 30]).unwrap();
    assert_eq!(pc.segment_pages(0), vec![a, b]);
    assert_eq!(pc.segment_pages(1), vec![a, c]);
    // the anchors of a and b; the anchor of c and the link of a
    assert_eq!(pc.segment_refs(0), 2);
    assert_eq!(pc.segment_refs(1), 2);
    assert_eq!(pc.segment_refs(2), 0);
    assert_eq!(pc.segment_pages(9), Vec::<u64>::new());
    assert!(!pc.segment_reusable(0));
    for pid in pc.segment_pages(0) {
        pc.rewrite(pid).unwrap();
    }
    assert_eq!(pc.segment_pages(0), Vec::<u64>::new());
    assert_eq!(pc.segment_refs(0), 0);
    assert!(pc.segment_reusable(0));
    pc.cas_block_in_meta(b"h", None, Some(a)).unwrap().unwrap();
    let last = pc.tail() / 128;
    assert!(pc.segment_refs(last) >= 1);
    assert_eq!(pc.get(a).unwrap().1, [vec![1u8; 30], vec![4u8; 30]].concat());
    assert_eq!(pc.get(b).unwrap().1, vec![2u8; 30]);
    assert_eq!(pc.rewrite(77), Err(Error::ReportableBug));
}

#[test]
fn many_pages() {
    let config = ConfigBuilder::new().segment_size(4096).build();
    let mut pc: PageCache<Vec<u8>> = PageCache::new(config).unwrap();
    let mut keys = Vec::new();
    for i in 0..5000u32 {
        let (pid, key) = pc.allocate(i.to_le_bytes().to_vec()).unwrap();
        assert_eq!(pid, i as u64 + 1);
        keys.push(key);
    }
    for i in (0..5000u32).step_by(7) {
        pc.link(i as u64 + 1, keys[i as usize], b"!".to_vec()).unwrap();
    }
    let config = ConfigBuilder::new().segment_size(4096).build();
    let mut again: PageCache<Vec<u8>> = PageCache::start(config, None, &pc.image()).unwrap();
    assert_eq!(again.max_pid(), 5001);
    for i in 0..5000u32 {
        let mut expected = i.to_le_bytes().to_vec();
        if i % 7 == 0 {
            expected.push(b'!');
        }
        assert_eq!(again.get(i as u64 + 1).unwrap().1, expected);
    }
}
