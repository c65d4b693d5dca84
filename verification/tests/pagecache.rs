use cloyster::pagecache::cache::PageCache;
use cloyster::pagecache::entry::PageEntry;
use cloyster::pagecache::steps::PageState;
use cloyster::pagecache::config::{Config, ConfigBuilder};
use cloyster::pagecache::log::Log;
use cloyster::pagecache::record::RecordKind;
use cloyster::pagecache::snapshot::Snapshot;
use cloyster::pagecache::Error;

fn small_config(segment_size: u64) -> Config {
    ConfigBuilder::new().temporary(true).segment_size(segment_size).build()
}

fn cache(segment_size: u64) -> PageCache<Vec<u8>> {
    PageCache::new(small_config(segment_size)).unwrap()
}

fn page(pc: &mut PageCache<Vec<u8>>, pid: u64) -> Vec<u8> {
    pc.get(pid).unwrap().1
}

fn kinds(bytes: &[u8], segment_size: u64) -> Vec<RecordKind> {
    let log = Log::open(bytes, segment_size).unwrap();
    (0..log.len()).map(|i| log.entry(i).record.kind).collect()
}

fn count(kinds: &[RecordKind], kind: RecordKind) -> usize {
    kinds.iter().filter(|k| **k == kind).count()
}

#[test]
fn concat_materializer() {
    let mut pc = cache(4096);
    let (pid, key) = pc.allocate(b"a".to_vec()).unwrap();
    let key = pc.link(pid, key, b"b".to_vec()).unwrap();
    let key = pc.link(pid, key, b"c".to_vec()).unwrap();
    let (head, value, size) = pc.get(pid).unwrap();
    assert_eq!(value, b"abc".to_vec());
    assert_eq!(head, key);
    // three frames of one byte of payload each
    assert_eq!(size, 72);
    let key = pc.replace(pid, key, b"d".to_vec()).unwrap();
    let (head, value, size) = pc.get(pid).unwrap();
    assert_eq!(value, b"d".to_vec());
    assert_eq!(head, key);
    assert_eq!(size, 24);
}

#[test]
fn first_page_and_offsets() {
    let mut pc = cache(4096);
    let (pid, key) = pc.allocate(b"a".to_vec()).unwrap();
    // page 0 is the metadata page; the first frame stands behind the header
    assert_eq!(pid, 1);
    assert_eq!(key, 24);
    assert_eq!(pc.tail(), 48);
    let key = pc.link(pid, key, vec![7u8; 8]).unwrap();
    assert_eq!(key, 48);
    // 17 bytes around 8 bytes of payload, filled up to 32
    assert_eq!(pc.tail(), 80);
    assert_eq!(pc.max_pid(), 2);
    assert_eq!(pc.head(pid), Some(48));
    assert_eq!(pc.head(2), None);
}

#[test]
fn chain_order_is_link_order() {
    let mut pc = cache(4096);
    let (pid, mut key) = pc.allocate(Vec::new()).unwrap();
    let mut expected = Vec::new();
    for i in 0..8u8 {
        key = pc.link(pid, key, vec![i]).unwrap();
        expected.push(i);
        assert_eq!(page(&mut pc, pid), expected);
    }
}

#[test]
fn one_linker_wins() {
    let mut pc = cache(4096);
    let (pid, k0) = pc.allocate(b"a".to_vec()).unwrap();
    let first = pc.link(pid, k0, b"1".to_vec());
    let second = pc.link(pid, k0, b"2".to_vec());
    let k1 = first.unwrap();
    assert!(k1 > k0);
    assert_eq!(second, Err(Error::CasFailed { head: k1 }));
    assert_eq!(page(&mut pc, pid), b"a1".to_vec());
    // the loser tries again with the head that it was given
    let k2 = pc.link(pid, k1, b"2".to_vec()).unwrap();
    assert!(k2 > k1);
    assert_eq!(page(&mut pc, pid), b"a12".to_vec());
    // a replacement with a stale key fails as well
    assert_eq!(pc.replace(pid, k0, b"x".to_vec()), Err(Error::CasFailed { head: k2 }));
    assert_eq!(page(&mut pc, pid), b"a12".to_vec());
}

#[test]
fn unknown_page_is_a_bug() {
    let mut pc = cache(4096);
    assert_eq!(pc.get(1).err(), Some(Error::ReportableBug));
    assert_eq!(pc.get(0).err(), Some(Error::ReportableBug));
    assert_eq!(pc.link(1, 24, b"x".to_vec()), Err(Error::ReportableBug));
    assert_eq!(pc.replace(1, 24, b"x".to_vec()), Err(Error::ReportableBug));
    assert_eq!(pc.free(1), Err(Error::ReportableBug));
    let (pid, _) = pc.allocate(b"a".to_vec()).unwrap();
    pc.free(pid).unwrap();
    assert_eq!(pc.get(pid).err(), Some(Error::ReportableBug));
    assert_eq!(pc.free(pid), Err(Error::ReportableBug));
}

#[test]
fn fragment_larger_than_a_segment_is_unsupported() {
    let mut pc = cache(64);
    let tail = pc.tail();
    // a segment of 64 bytes holds a frame of at most 40 bytes
    assert_eq!(pc.allocate(vec![0u8; 24]).err(), Some(Error::Unsupported));
    assert_eq!(pc.tail(), tail);
    let (pid, key) = pc.allocate(vec![0u8; 23]).unwrap();
    assert_eq!(pc.link(pid, key, vec![0u8; 24]), Err(Error::Unsupported));
    assert_eq!(page(&mut pc, pid), vec![0u8; 23]);
}

#[test]
fn unsupported_segment_size() {
    assert_eq!(PageCache::<Vec<u8>>::new(small_config(40)).err(), Some(Error::Unsupported));
    assert_eq!(PageCache::<Vec<u8>>::new(small_config(50)).err(), Some(Error::Unsupported));
    assert!(PageCache::<Vec<u8>>::new(small_config(48)).is_ok());
    assert_eq!(
        PageCache::<Vec<u8>>::start(small_config(44), None, &[]).err(),
        Some(Error::Unsupported)
    );
}

#[test]
fn consolidation() {
    let mut pc = cache(4096);
    let (pid, mut key) = pc.allocate(Vec::new()).unwrap();
    for _ in 0..10 {
        key = pc.link(pid, key, b"x".to_vec()).unwrap();
    }
    let found = kinds(&pc.image(), 4096);
    assert_eq!(count(&found, RecordKind::Allocate), 1);
    assert_eq!(count(&found, RecordKind::Link), 10);
    assert_eq!(count(&found, RecordKind::Replace), 0);
    // the eleventh link rewrites the page
    key = pc.link(pid, key, b"x".to_vec()).unwrap();
    let found = kinds(&pc.image(), 4096);
    assert_eq!(count(&found, RecordKind::Allocate), 1);
    assert_eq!(count(&found, RecordKind::Link), 10);
    assert_eq!(count(&found, RecordKind::Replace), 1);
    let (head, before, size) = pc.get(pid).unwrap();
    assert_eq!(head, key);
    assert_eq!(before, vec![b'x'; 11]);
    // one frame with 11 bytes of payload
    assert_eq!(size, 32);

    let image = pc.image();
    let mut again: PageCache<Vec<u8>> = PageCache::start(small_config(4096), None, &image).unwrap();
    // after a start every chain is left in the log until it is read
    assert!(!again.is_resident(pid));
    assert_eq!(again.get(pid).unwrap(), (head, before, size));
    assert!(again.is_resident(pid));
}

#[test]
fn consolidation_threshold_is_honoured() {
    let config = ConfigBuilder::new().segment_size(4096).page_consolidation_threshold(2).build();
    let mut pc: PageCache<Vec<u8>> = PageCache::new(config).unwrap();
    let (pid, mut key) = pc.allocate(b"a".to_vec()).unwrap();
    key = pc.link(pid, key, b"b".to_vec()).unwrap();
    key = pc.link(pid, key, b"c".to_vec()).unwrap();
    assert_eq!(count(&kinds(&pc.image(), 4096), RecordKind::Replace), 0);
    pc.link(pid, key, b"d".to_vec()).unwrap();
    assert_eq!(count(&kinds(&pc.image(), 4096), RecordKind::Replace), 1);
    assert_eq!(page(&mut pc, pid), b"abcd".to_vec());
}

#[test]
fn recovery_equivalence() {
    let mut pc = cache(256);
    let mut keys = Vec::new();
    for i in 0..6u8 {
        let (pid, key) = pc.allocate(vec![i]).unwrap();
        keys.push((pid, key));
    }
    for round in 0..5u8 {
        for (pid, key) in keys.iter_mut() {
            *key = pc.link(*pid, *key, vec![round; (*pid as usize) * 3]).unwrap();
        }
    }
    let (pid3, key3) = keys[3];
    keys[3].1 = pc.replace(pid3, key3, b"anchor".to_vec()).unwrap();
    pc.free(keys[5].0).unwrap();
    pc.cas_block_in_meta(b"h1", None, Some(2)).unwrap().unwrap();

    let before: Vec<_> = (0..8u64).map(|pid| pc.get(pid)).collect();
    let image = pc.image();
    let snapshot = pc.snapshot();

    // from the log alone
    let mut from_log: PageCache<Vec<u8>> =
        PageCache::start(small_config(256), None, &image).unwrap();
    // from the snapshot at the end of the log
    let mut from_snapshot: PageCache<Vec<u8>> =
        PageCache::start(small_config(256), Some(&snapshot), &image).unwrap();
    for pid in 0..8u64 {
        assert_eq!(from_log.get(pid), before[pid as usize]);
        assert_eq!(from_snapshot.get(pid), before[pid as usize]);
    }
    assert_eq!(from_log.meta().get_block(b"h1"), Some(2));
    assert_eq!(from_snapshot.meta().get_block(b"h1"), Some(2));
    assert_eq!(from_log.image(), image);
    assert_eq!(from_log.max_pid(), pc.max_pid());
    assert_eq!(from_log.tail(), pc.tail());
}

#[test]
fn crash_mid_link() {
    let mut pc = cache(4096);
    let (pid, key) = pc.allocate(b"k0v0".to_vec()).unwrap();
    let stable = pc.flush();
    pc.link(pid, key, b"k1v1".to_vec()).unwrap();
    let image = pc.image();
    assert!(image.len() as u64 > stable);
    for cut in (stable as usize)..=image.len() {
        let mut again: PageCache<Vec<u8>> =
            PageCache::start(small_config(4096), None, &image[..cut]).unwrap();
        let value = again.get(pid).unwrap().1;
        if cut == image.len() {
            assert_eq!(value, b"k0v0k1v1".to_vec());
        } else {
            assert_eq!(value, b"k0v0".to_vec());
        }
    }
}

#[test]
fn crash_keeps_what_was_stable() {
    let mut pc = cache(128);
    let mut chains = Vec::new();
    let mut ends = Vec::new();
    let (pid, mut key) = pc.allocate(b"0".to_vec()).unwrap();
    chains.push(b"0".to_vec());
    ends.push(pc.tail());
    for i in 1..12u8 {
        key = pc.link(pid, key, vec![b'0' + i; (i as usize) % 5 + 1]).unwrap();
        let mut next = chains.last().unwrap().clone();
        next.extend(vec![b'0' + i; (i as usize) % 5 + 1]);
        chains.push(next);
        ends.push(pc.tail());
    }
    let image = pc.image();
    for cut in 48..=image.len() {
        let mut again: PageCache<Vec<u8>> =
            PageCache::start(small_config(128), None, &image[..cut]).unwrap();
        let whole = ends.iter().filter(|end| **end as usize <= cut).count();
        assert!(whole >= 1);
        assert_eq!(again.get(pid).unwrap().1, chains[whole - 1]);
        // the log goes on after a torn tail
        let key = again.head(pid).unwrap();
        again.link(pid, key, b"!".to_vec()).unwrap();
        let mut expected = chains[whole - 1].clone();
        expected.push(b'!');
        assert_eq!(again.get(pid).unwrap().1, expected);
        let mut third: PageCache<Vec<u8>> =
            PageCache::start(small_config(128), None, &again.image()).unwrap();
        assert_eq!(third.get(pid).unwrap().1, expected);
    }
}

#[test]
fn corruption_before_the_last_segment() {
    let mut pc = cache(128);
    let (pid, mut key) = pc.allocate(b"a".to_vec()).unwrap();
    for _ in 0..9 {
        key = pc.link(pid, key, vec![1u8; 20]).unwrap();
    }
    let image = pc.image();
    assert!(image.len() > 3 * 128);
    // a bit of the first record is flipped
    let mut bad = image.clone();
    bad[24 + 13] ^= 1;
    assert_eq!(
        PageCache::<Vec<u8>>::start(small_config(128), None, &bad).err(),
        Some(Error::Corruption { at: 24 })
    );
    // the same in the last segment is a torn tail
    let last = image.len() / 128 * 128;
    let mut torn = image.clone();
    torn[last + 24 + 13] ^= 1;
    let again: PageCache<Vec<u8>> = PageCache::start(small_config(128), None, &torn).unwrap();
    assert_eq!(again.tail(), (last + 128) as u64);
}

#[test]
fn page_that_outgrows_a_segment_cannot_be_rewritten() {
    let mut pc = cache(128);
    let (pid, mut key) = pc.allocate(b"a".to_vec()).unwrap();
    for _ in 0..10 {
        key = pc.link(pid, key, vec![1u8; 20]).unwrap();
    }
    // the page has 201 bytes, more than a frame of a segment holds
    assert_eq!(pc.link(pid, key, vec![1u8; 20]), Err(Error::Unsupported));
    assert_eq!(pc.get(pid).unwrap().1.len(), 201);
}

#[test]
fn snapshot_and_replay_parity() {
    let mut pc = cache(256);
    let mut live = Vec::new();
    for i in 0..5u8 {
        live.push(pc.allocate(vec![i]).unwrap());
    }
    for (pid, key) in live.iter_mut() {
        *key = pc.link(*pid, *key, b"n".to_vec()).unwrap();
    }
    let early = pc.snapshot();
    for (pid, key) in live.iter_mut() {
        *key = pc.link(*pid, *key, b"m".to_vec()).unwrap();
    }
    pc.free(live[0].0).unwrap();
    let late = pc.snapshot();
    let (pid1, key1) = live[1];
    pc.replace(pid1, key1, b"r".to_vec()).unwrap();
    pc.cas_bucket_in_meta(b"bucket", None, Some(pid1)).unwrap().unwrap();
    let image = pc.image();

    let mut scratch: PageCache<Vec<u8>> =
        PageCache::start(small_config(256), None, &image).unwrap();
    let mut from_early: PageCache<Vec<u8>> =
        PageCache::start(small_config(256), Some(&early), &image).unwrap();
    let mut from_late: PageCache<Vec<u8>> =
        PageCache::start(small_config(256), Some(&late), &image).unwrap();
    assert!(early.last_lsn < late.last_lsn);
    for pid in 0..7u64 {
        let expected = pc.get(pid);
        assert_eq!(scratch.get(pid), expected);
        assert_eq!(from_early.get(pid), expected);
        assert_eq!(from_late.get(pid), expected);
    }
    let table = pc.snapshot();
    assert_eq!(scratch.snapshot().pt, table.pt);
    assert_eq!(from_early.snapshot().pt, table.pt);
    assert_eq!(from_late.snapshot().pt, table.pt);
    assert_eq!(from_late.meta().get_bucket(b"bucket"), Some(pid1));
}

#[test]
fn snapshot_that_does_not_fit_the_log() {
    let mut pc = cache(256);
    let (pid, _) = pc.allocate(b"a".to_vec()).unwrap();
    let image = pc.image();
    let good = pc.snapshot();
    assert_eq!(good.last_lsn, 48);
    assert_eq!(good.max_pid, 2);
    assert_eq!(good.pt, vec![vec![], vec![24]]);
    assert_eq!(pid, 1);
    // an offset at the offset of the snapshot
    let bad = Snapshot { last_lsn: 24, max_pid: 2, pt: vec![vec![], vec![24]] };
    assert!(!bad.validate());
    assert_eq!(
        PageCache::<Vec<u8>>::start(small_config(256), Some(&bad), &image).err(),
        Some(Error::Corruption { at: 24 })
    );
    // a snapshot behind the end of the log
    let ahead = Snapshot { last_lsn: 96, max_pid: 2, pt: vec![vec![], vec![24]] };
    assert!(ahead.validate());
    assert_eq!(
        PageCache::<Vec<u8>>::start(small_config(256), Some(&ahead), &image).err(),
        Some(Error::Corruption { at: 96 })
    );
    // a table of another size
    let short = Snapshot { last_lsn: 48, max_pid: 3, pt: vec![vec![], vec![24]] };
    assert!(!short.validate());
}

#[test]
fn pid_reuse_waits_for_guards() {
    let mut pc = cache(4096);
    let (a, _) = pc.allocate(b"a".to_vec()).unwrap();
    let (b, _) = pc.allocate(b"b".to_vec()).unwrap();
    assert_eq!((a, b), (1, 2));
    let reader = pc.pin();
    pc.free(a).unwrap();
    // the reader may still look at page 1: it is not given out
    let (c, _) = pc.allocate(b"c".to_vec()).unwrap();
    assert_eq!(c, 3);
    // a guard that is taken after the release does not hold the page back
    let late = pc.pin();
    let (d, _) = pc.allocate(b"d".to_vec()).unwrap();
    assert_eq!(d, 4);
    pc.unpin(reader).unwrap();
    let (e, _) = pc.allocate(b"e".to_vec()).unwrap();
    assert_eq!(e, a);
    assert_eq!(page(&mut pc, e), b"e".to_vec());
    pc.unpin(late).unwrap();
    // nothing is left to give out again
    let (f, _) = pc.allocate(b"f".to_vec()).unwrap();
    assert_eq!(f, 5);
}

#[test]
fn guard_that_is_not_held() {
    let mut pc = cache(4096);
    let mut other = cache(4096);
    let (p, _) = other.allocate(b"x".to_vec()).unwrap();
    other.free(p).unwrap();
    let foreign = other.pin();
    assert_eq!(pc.unpin(foreign), Err(Error::ReportableBug));
    let own = pc.pin();
    assert_eq!(pc.unpin(own), Ok(()));
}

#[test]
fn freed_pages_are_reused_oldest_first() {
    let mut pc = cache(4096);
    for _ in 0..4 {
        pc.allocate(b"a".to_vec()).unwrap();
    }
    pc.free(3).unwrap();
    pc.free(1).unwrap();
    assert_eq!(pc.allocate(b"b".to_vec()).unwrap().0, 3);
    assert_eq!(pc.allocate(b"b".to_vec()).unwrap().0, 1);
    assert_eq!(pc.allocate(b"b".to_vec()).unwrap().0, 5);
    // after a restart the free pages are given out in ascending order
    pc.free(4).unwrap();
    pc.free(2).unwrap();
    let mut again: PageCache<Vec<u8>> =
        PageCache::start(small_config(4096), None, &pc.image()).unwrap();
    assert_eq!(again.allocate(b"c".to_vec()).unwrap().0, 2);
    assert_eq!(again.allocate(b"c".to_vec()).unwrap().0, 4);
    assert_eq!(again.allocate(b"c".to_vec()).unwrap().0, 6);
}

#[test]
fn meta_round_trip() {
    let mut pc = cache(4096);
    let (mid, _) = pc.allocate(b"a".to_vec()).unwrap();
    assert_eq!(pc.cas_block_in_meta(b"h1", None, Some(mid)), Ok(Ok(())));
    assert_eq!(pc.meta().get_block(b"h1"), Some(mid));
    // the expected page is not the current one
    assert_eq!(pc.cas_block_in_meta(b"h1", None, Some(9)), Ok(Err(Some(mid))));
    assert_eq!(pc.cas_block_in_meta(b"h2", Some(3), Some(9)), Ok(Err(None)));
    assert_eq!(pc.meta().get_block(b"h1"), Some(mid));
    assert_eq!(pc.cas_bucket_in_meta(b"b", None, Some(7)), Ok(Ok(())));
    assert_eq!(pc.cas_bucket_in_meta(b"b", Some(7), Some(8)), Ok(Ok(())));
    assert_eq!(pc.cas_bucket_in_meta(b"gone", None, Some(1)), Ok(Ok(())));
    assert_eq!(pc.cas_bucket_in_meta(b"gone", Some(1), None), Ok(Ok(())));

    let stored = pc.image();
    let again: PageCache<Vec<u8>> = PageCache::start(small_config(4096), None, &stored).unwrap();
    assert_eq!(again.meta().get_block(b"h1"), Some(mid));
    assert_eq!(again.meta().get_block(b"h2"), None);
    assert_eq!(again.meta().get_bucket(b"b"), Some(8));
    assert_eq!(again.meta().get_bucket(b"gone"), None);
    assert_eq!(count(&kinds(&stored, 4096), RecordKind::Meta), 5);
}

#[test]
fn segment_is_reusable_when_nothing_points_into_it() {
    let mut pc = cache(128);
    let (a, mut ka) = pc.allocate(vec![1u8; 30]).unwrap();
    let (b, kb) = pc.allocate(vec![2u8; 30]).unwrap();
    // both anchors stand in segment 0, which is full
    assert_eq!((ka / 128, kb / 128), (0, 0));
    ka = pc.link(a, ka, vec![3u8; 30]).unwrap();
    assert_eq!(ka / 128, 1);
    assert!(!pc.segment_reusable(0));
    // the log has not gone on behind segment 1
    assert!(!pc.segment_reusable(1));
    ka = pc.replace(a, ka, vec![4u8; 60]).unwrap();
    assert_eq!(ka / 128, 2);
    // page b still has its anchor in segment 0
    assert!(!pc.segment_reusable(0));
    assert!(pc.segment_reusable(1));
    pc.free(b).unwrap();
    assert!(pc.segment_reusable(0));
    let guard = pc.pin();
    assert!(!pc.segment_reusable(0));
    pc.unpin(guard).unwrap();
    assert!(pc.segment_reusable(0));
    assert!(!pc.segment_reusable(100));
}

#[test]
fn paged_out_chain_reads_as_before() {
    let mut pc = cache(4096);
    let (pid, key) = pc.allocate(b"a".to_vec()).unwrap();
    let (other, _) = pc.allocate(b"o".to_vec()).unwrap();
    let key = pc.link(pid, key, b"b".to_vec()).unwrap();
    assert!(pc.is_resident(pid));
    assert!(pc.is_resident(other));
    pc.page_out(pid);
    // only the chain of this page is given up
    assert!(!pc.is_resident(pid));
    assert!(pc.is_resident(other));
    pc.page_out(pid);
    pc.page_out(0);
    pc.page_out(77);
    assert!(!pc.is_resident(0));
    assert!(!pc.is_resident(77));
    assert!(pc.is_resident(other));
    let key = pc.link(pid, key, b"c".to_vec()).unwrap();
    assert!(!pc.is_resident(pid));
    // reading the page brings its chain back
    assert_eq!(pc.get(pid).unwrap(), (key, b"abc".to_vec(), 72));
    assert!(pc.is_resident(pid));
    assert!(pc.get(77).is_err());
    assert!(!pc.is_resident(77));
    pc.page_out(pid);
    assert!(!pc.is_resident(pid));
    let key = pc.replace(pid, key, b"z".to_vec()).unwrap();
    assert_eq!(pc.get(pid).unwrap(), (key, b"z".to_vec(), 24));
}

#[test]
fn stable_offset() {
    let mut pc = cache(4096);
    assert_eq!(pc.stable(), 0);
    let (pid, key) = pc.allocate(b"a".to_vec()).unwrap();
    assert_eq!(pc.stable(), 0);
    assert_eq!(pc.make_stable(49), Err(Error::ReportableBug));
    assert_eq!(pc.make_stable(24), Ok(()));
    assert_eq!(pc.stable(), 24);
    assert_eq!(pc.make_stable(8), Ok(()));
    assert_eq!(pc.stable(), 24);
    pc.link(pid, key, b"b".to_vec()).unwrap();
    assert_eq!(pc.flush(), 72);
    assert_eq!(pc.stable(), 72);
}

#[test]
fn page_entry_states() {
    let free: PageEntry<Vec<u8>> = PageEntry::Free;
    assert!(matches!(free, PageEntry::Free));
}

#[test]
fn page_states() {
    let config = ConfigBuilder::new().segment_size(4096).page_consolidation_threshold(2).build();
    let mut pc: PageCache<Vec<u8>> = PageCache::new(config).unwrap();
    assert_eq!(pc.state(1), PageState::Freed);
    assert_eq!(pc.state(0), PageState::Freed);
    let (pid, key) = pc.allocate(b"a".to_vec()).unwrap();
    assert_eq!(pc.state(pid), PageState::Allocated);
    // a change that fails changes no state
    assert!(pc.link(pid, key + 1, b"x".to_vec()).is_err());
    assert_eq!(pc.state(pid), PageState::Allocated);
    let key = pc.link(pid, key, b"b".to_vec()).unwrap();
    assert_eq!(pc.state(pid), PageState::Chained(1));
    let key = pc.link(pid, key, b"c".to_vec()).unwrap();
    assert_eq!(pc.state(pid), PageState::Chained(2));
    pc.page_out(pid);
    assert_eq!(pc.state(pid), PageState::Chained(2));
    // the chain is as long as the threshold allows: the link rewrites it
    let key = pc.link(pid, key, b"d".to_vec()).unwrap();
    assert_eq!(pc.state(pid), PageState::Replaced);
    let key = pc.link(pid, key, b"e".to_vec()).unwrap();
    assert_eq!(pc.state(pid), PageState::Chained(1));
    pc.replace(pid, key, b"f".to_vec()).unwrap();
    assert_eq!(pc.state(pid), PageState::Replaced);
    pc.free(pid).unwrap();
    assert_eq!(pc.state(pid), PageState::Freed);
    let (again, _) = pc.allocate(b"g".to_vec()).unwrap();
    assert_eq!(again, pid);
    assert_eq!(pc.state(pid), PageState::Allocated);
}

#[test]
fn snapshot_with_chains_that_the_log_does_not_hold() {
    let mut pc = cache(256);
    let (a, ka) = pc.allocate(b"a".to_vec()).unwrap();
    let (b, _) = pc.allocate(b"b".to_vec()).unwrap();
    let kl = pc.link(a, ka, b"l".to_vec()).unwrap();
    pc.cas_block_in_meta(b"h", None, Some(a)).unwrap().unwrap();
    let image = pc.image();
    let good = pc.snapshot();
    assert_eq!(good.pt, vec![vec![96], vec![24, 72], vec![48]]);
    assert_eq!((a, b, ka, kl), (1, 2, 24, 72));
    let start = |pt: Vec<Vec<u64>>| {
        let snapshot = Snapshot { last_lsn: good.last_lsn, max_pid: 3, pt };
        PageCache::<Vec<u8>>::start(small_config(256), Some(&snapshot), &image).err()
    };
    let bad = Some(Error::Corruption { at: good.last_lsn });
    assert_eq!(start(good.pt.clone()), None);
    // a link in place of an anchor
    assert_eq!(start(vec![vec![96], vec![72], vec![48]]), bad);
    // an anchor in place of a link
    assert_eq!(start(vec![vec![96], vec![24, 48], vec![48]]), bad);
    // the fragments of another page
    assert_eq!(start(vec![vec![96], vec![48], vec![24, 72]]), bad);
    // offsets out of their order
    assert_eq!(start(vec![vec![96], vec![72, 24], vec![48]]), bad);
    // an offset at which no record stands
    assert_eq!(start(vec![vec![96], vec![24, 73], vec![48]]), bad);
    assert_eq!(start(vec![vec![96], vec![32], vec![48]]), bad);
    // a fragment of a page as a change of the metadata
    assert_eq!(start(vec![vec![24], vec![24, 72], vec![48]]), bad);
    // a page that is free in the snapshot is free
    assert_eq!(start(vec![vec![96], vec![24, 72], vec![]]), None);
}
