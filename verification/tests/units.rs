use cloyster::block::{Bound, IndexBlock, KeyRange};
use cloyster::bytes::{compare, copy_bytes, extend_bytes, same_bytes, Order};
use cloyster::config::{Config, ConfigInner};
use cloyster::crc::{crc32, crc_begin, crc_end, crc_feed};
use cloyster::ds::stack::{Node, Stack};
use cloyster::hasher::{calc_root, root_bytes};
use cloyster::keymap::{Duplicate, KeyMap};
use cloyster::node::Node as BlockNode;
use cloyster::pagecache::materializer::Materializer;
use cloyster::pagecache::meta::{Meta, MetaDiff};
use cloyster::pagecache::metrics::Metrics;
use cloyster::pagecache::pagetable::{PageTable, PAGETABLE_NODE_SZ};
use cloyster::pagecache::record::{frame_size, put_frame, take_frame, RecordKind};
use cloyster::promise::{Polled, PromiseState};
use cloyster::{Entry, Error};
use either::Either;

fn key(s: &str) -> Vec<u8> {
    s.as_bytes().to_vec()
}

#[test]
fn lexicographic_order() {
    assert_eq!(compare(b"", b""), Order::Equal);
    assert_eq!(compare(b"", b"a"), Order::Less);
    assert_eq!(compare(b"a", b""), Order::Greater);
    assert_eq!(compare(b"12", b"123"), Order::Less);
    assert_eq!(compare(b"123", b"12"), Order::Greater);
    assert_eq!(compare(b"2", b"10"), Order::Greater);
    assert_eq!(compare(b"abc", b"abd"), Order::Less);
    assert_eq!(compare(&[0xff], &[0x00, 0xff]), Order::Greater);
    assert_eq!(compare(b"same", b"same"), Order::Equal);
    // the order is that of byte vectors
    let samples: [&[u8]; 6] = [b"", b"a", b"ab", b"b", &[0xff], &[0, 0]];
    for a in samples {
        for b in samples {
            let expected = match a.cmp(b) {
                std::cmp::Ordering::Less => Order::Less,
                std::cmp::Ordering::Equal => Order::Equal,
                std::cmp::Ordering::Greater => Order::Greater,
            };
            assert_eq!(compare(a, b), expected);
            assert_eq!(same_bytes(a, b), a == b);
        }
    }
}

#[test]
fn byte_copies() {
    assert_eq!(copy_bytes(b"abc"), b"abc".to_vec());
    assert_eq!(copy_bytes(b""), Vec::<u8>::new());
    let mut v = b"ab".to_vec();
    extend_bytes(&mut v, b"cd");
    extend_bytes(&mut v, b"");
    assert_eq!(v, b"abcd".to_vec());
}

#[test]
fn crc32_check_values() {
    assert_eq!(crc32(b"123456789"), 0xCBF4_3926);
    assert_eq!(crc32(b""), 0);
    assert_eq!(crc32(b"a"), 0xE8B7_BE43);
    assert_eq!(crc32(b"The quick brown fox jumps over the lazy dog"), 0x414F_A339);
    // feeding in parts is feeding the whole
    let c = crc_feed(crc_feed(crc_begin(), b"1234"), b"56789");
    assert_eq!(crc_end(c), 0xCBF4_3926);
}

#[test]
fn frame_layout() {
    assert_eq!(frame_size(0), 24);
    assert_eq!(frame_size(7), 24);
    assert_eq!(frame_size(8), 32);
    assert_eq!(frame_size(15), 32);
    assert_eq!(frame_size(16), 40);
    let mut out = vec![0xAAu8];
    put_frame(&mut out, RecordKind::Link, 0x0102_0304_0506_0708, b"xy");
    assert_eq!(out.len(), 1 + 24);
    let frame = &out[1..];
    // the length of the payload
    assert_eq!(&frame[0..4], &[2, 0, 0, 0]);
    // the kind: a link
    assert_eq!(frame[4], 2);
    // the page, little-endian
    assert_eq!(&frame[5..13], &[8, 7, 6, 5, 4, 3, 2, 1]);
    assert_eq!(&frame[13..15], b"xy");
    // the checksum over kind, page and payload
    let crc = crc32(&frame[4..15]);
    assert_eq!(&frame[15..19], &crc.to_le_bytes());
    // zero bytes up to a multiple of 8
    assert_eq!(&frame[19..24], &[0, 0, 0, 0, 0]);

    let record = take_frame(&out, 1).unwrap();
    assert_eq!(record.kind, RecordKind::Link);
    assert_eq!(record.pid, 0x0102_0304_0506_0708);
    assert_eq!(record.payload, b"xy".to_vec());
    // no frame where none begins, and none where a byte is changed
    assert!(take_frame(&out, 0).is_none());
    assert!(take_frame(&out, 2).is_none());
    assert!(take_frame(&out, 30).is_none());
    for i in 1..20 {
        let mut bad = out.clone();
        bad[i] ^= 0x10;
        assert!(take_frame(&bad, 1).is_none(), "byte {}", i);
    }
    // a frame that is cut is none
    for cut in 1..out.len() {
        assert!(take_frame(&out[..cut], 1).is_none());
    }
}

#[test]
fn record_kinds() {
    let kinds = [
        RecordKind::Pad,
        RecordKind::Allocate,
        RecordKind::Link,
        RecordKind::Replace,
        RecordKind::Free,
        RecordKind::Meta,
    ];
    for (code, kind) in kinds.iter().enumerate() {
        assert_eq!(kind.to_code(), code as u8);
        assert_eq!(RecordKind::from_code(code as u8), Some(*kind));
    }
    assert_eq!(RecordKind::from_code(6), None);
    assert_eq!(RecordKind::from_code(255), None);
    // padding is no record of its own
    let mut out = Vec::new();
    put_frame(&mut out, RecordKind::Pad, 0, b"");
    assert!(take_frame(&out, 0).is_none());
}

#[test]
fn key_map() {
    let mut m: KeyMap<u64> = KeyMap::new();
    assert_eq!(m.len(), 0);
    assert_eq!(m.insert(key("b"), 2), None);
    assert_eq!(m.insert(key("a"), 1), None);
    assert_eq!(m.insert(key("c"), 3), None);
    assert_eq!(m.insert(key("ab"), 12), None);
    assert_eq!(m.insert(key("b"), 20), Some(2));
    assert_eq!(m.len(), 4);
    assert_eq!(m.get(b"b"), Some(&20));
    assert_eq!(m.get(b"ab"), Some(&12));
    assert_eq!(m.get(b"d"), None);
    assert!(m.contains_key(b"a"));
    assert!(!m.contains_key(b""));
    // the keys come in their order
    let keys: Vec<Vec<u8>> = (0..m.len()).map(|i| m.key_at(i).clone()).collect();
    assert_eq!(keys, vec![key("a"), key("ab"), key("b"), key("c")]);
    let values: Vec<u64> = (0..m.len()).map(|i| *m.value_at(i)).collect();
    assert_eq!(values, vec![1, 12, 20, 3]);
    assert_eq!(m.remove(b"ab"), Some(12));
    assert_eq!(m.remove(b"ab"), None);
    assert_eq!(m.len(), 3);

    let mut other: KeyMap<u64> = KeyMap::new();
    other.insert(key("c"), 30);
    other.insert(key("z"), 26);
    let copy = m.duplicate();
    m.extend_from(&other);
    assert_eq!(m.get(b"c"), Some(&30));
    assert_eq!(m.get(b"z"), Some(&26));
    assert_eq!(m.get(b"a"), Some(&1));
    assert_eq!(m.len(), 4);
    // the copy is not changed
    assert_eq!(copy.get(b"c"), Some(&3));
    assert_eq!(copy.len(), 3);
    assert_eq!(7u64.duplicate(), 7);
    assert_eq!(key("k").duplicate(), key("k"));
}

#[test]
fn index_block_overlaps() {
    let block = IndexBlock::new(key("c"), key("f"));
    assert_eq!(block.min(), &key("c"));
    assert_eq!(block.max(), &key("f"));
    let inc = |s: &str| Bound::Included(key(s));
    let exc = |s: &str| Bound::Excluded(key(s));
    // the range holds an end of the block
    assert!(block.overlaps(&KeyRange::full()));
    assert!(block.overlaps(&KeyRange::new(inc("a"), inc("c"))));
    assert!(block.overlaps(&KeyRange::new(inc("f"), Bound::Unbounded)));
    assert!(block.overlaps(&KeyRange::new(Bound::Unbounded, exc("d"))));
    // the range lies within the block
    assert!(block.overlaps(&KeyRange::new(inc("d"), inc("e"))));
    assert!(block.overlaps(&KeyRange::new(exc("d"), exc("e"))));
    assert!(block.overlaps(&KeyRange::new(exc("c"), exc("f"))));
    // the range lies beside the block
    assert!(!block.overlaps(&KeyRange::new(inc("a"), inc("b"))));
    assert!(!block.overlaps(&KeyRange::new(inc("a"), exc("c"))));
    assert!(!block.overlaps(&KeyRange::new(exc("f"), Bound::Unbounded)));
    assert!(!block.overlaps(&KeyRange::new(inc("g"), inc("h"))));
    // the range is empty
    assert!(!block.overlaps(&KeyRange::new(inc("e"), inc("d"))));
    assert!(block.overlaps(&KeyRange::new(exc("c"), Bound::Unbounded)));
    assert!(block.overlaps(&KeyRange::new(exc("a"), exc("z"))));
    let range = KeyRange::new(inc("d"), exc("e"));
    assert!(range.contains(b"d"));
    assert!(range.contains(b"dz"));
    assert!(!range.contains(b"e"));
    assert!(!range.contains(b"c"));
    assert!(!range.bounds_collapsed());
    assert!(KeyRange::new(inc("e"), inc("d")).bounds_collapsed());
    assert!(!KeyRange::new(inc("d"), inc("d")).bounds_collapsed());
    assert!(!KeyRange::new(inc("e"), Bound::Unbounded).bounds_collapsed());
}

#[test]
fn stack_compare_and_set() {
    let mut stack: Stack<u8> = Stack::new();
    assert_eq!(stack.head(), None);
    stack.push(1, 10);
    assert_eq!(stack.head(), Some(10));
    // the head is as expected: the node is put on the stack
    match stack.cap(Some(10), Node { inner: 2, id: 20 }) {
        Either::Left(head) => assert_eq!(head, Some(20)),
        Either::Right(_) => panic!("the head was as expected"),
    }
    assert_eq!(stack.len(), 2);
    // the head is another: the node comes back with the head
    match stack.cap(Some(10), Node { inner: 3, id: 30 }) {
        Either::Left(_) => panic!("the head was another"),
        Either::Right((head, node)) => {
            assert_eq!(head, Some(20));
            assert_eq!((node.inner, node.id), (3, 30));
        }
    }
    assert_eq!(stack.len(), 2);
    assert_eq!((stack.node(0).inner, stack.node(1).inner), (1, 2));
    match stack.cas(None, Node { inner: 4, id: 40 }) {
        Either::Left(_) => panic!("the head was another"),
        Either::Right((head, node)) => {
            assert_eq!(head, Some(20));
            assert_eq!(node.id, 40);
        }
    }
    match stack.cas(Some(20), Node { inner: 4, id: 40 }) {
        Either::Left(head) => assert_eq!(head, Some(40)),
        Either::Right(_) => panic!("the head was as expected"),
    }
    assert_eq!(stack.len(), 1);
    assert_eq!(stack.node(0).inner, 4);
}

#[test]
fn meta_page() {
    let mut meta = Meta::new();
    assert_eq!(meta.get_block(b"h"), None);
    meta.set_block(key("h"), 3);
    meta.set_bucket(key("users"), 4);
    meta.set_bucket(key("orders"), 5);
    assert_eq!(meta.get_block(b"h"), Some(3));
    assert_eq!(meta.get_bucket(b"h"), None);
    assert_eq!(meta.get_bucket(b"users"), Some(4));
    // for each bucket the length of its name and eight bytes
    assert_eq!(meta.size_in_bytes(), (5 + 8) + (6 + 8));
    assert_eq!(meta.block_tenants().len(), 1);
    assert_eq!(meta.bucket_tenants().get(b"orders"), Some(&5));
    assert_eq!(meta.del_bucket(b"users"), Some(4));
    assert_eq!(meta.del_bucket(b"users"), None);
    assert_eq!(meta.del_block(b"h"), Some(3));
    assert_eq!(meta.get_block(b"h"), None);
    assert_eq!(meta.size_in_bytes(), 14);

    let diffs = vec![
        MetaDiff::SetBlock { name: key("h"), pid: 7 },
        MetaDiff::SetBucket { name: key("b"), pid: 8 },
        MetaDiff::DelBlock { name: key("h") },
        MetaDiff::DelBucket { name: key("") },
    ];
    for diff in &diffs {
        let bytes = diff.encode();
        let back = MetaDiff::decode(&bytes).unwrap();
        assert_eq!(back.encode(), bytes);
    }
    assert_eq!(diffs[0].encode(), vec![0, 7, 0, 0, 0, 0, 0, 0, 0, b'h']);
    assert!(MetaDiff::decode(&[0, 1, 2]).is_none());
    assert!(MetaDiff::decode(&[4, 0, 0, 0, 0, 0, 0, 0, 0]).is_none());
    // a removal names no page
    assert!(MetaDiff::decode(&[1, 9, 0, 0, 0, 0, 0, 0, 0]).is_none());
    meta.apply(&diffs[0]);
    meta.apply(&diffs[1]);
    assert_eq!(meta.get_block(b"h"), Some(7));
    meta.apply(&diffs[2]);
    assert_eq!(meta.get_block(b"h"), None);
    assert_eq!(meta.get_bucket(b"b"), Some(8));
}

#[test]
fn node_round_trip() {
    let mut node = BlockNode::new(Some(9));
    node.hash = Some([7u8; 32]);
    node.inner.insert(key("b"), Entry::Value { value: key("2") });
    node.inner.insert(key("a"), Entry::Deletion);
    node.inner.insert(key(""), Entry::Value { value: Vec::new() });
    let bytes = node.encode();
    let back = BlockNode::decode(&bytes).unwrap();
    assert_eq!(back.prev, Some(9));
    assert_eq!(back.hash, Some([7u8; 32]));
    assert_eq!(back.inner.len(), 3);
    assert!(matches!(back.inner.get(b"a"), Some(Entry::Deletion)));
    assert!(matches!(back.inner.get(b"b"), Some(Entry::Value { value }) if value == &key("2")));
    assert_eq!(back.encode(), bytes);
    // the header: no block before, no hash, no entries
    let empty = BlockNode::new(None).encode();
    assert_eq!(empty.len(), 50);
    assert!(empty.iter().all(|b| *b == 0));
    // what is cut, or goes on, is no fragment
    for cut in 0..bytes.len() {
        assert!(BlockNode::decode(&bytes[..cut]).is_none());
    }
    let mut longer = bytes.clone();
    longer.push(0);
    assert!(BlockNode::decode(&longer).is_none());

    // the newer fragment wins; the header of the older stays but for the hash
    let mut acc = BlockNode::new(Some(1));
    acc.inner.insert(key("k"), Entry::Value { value: key("old") });
    acc.inner.insert(key("only"), Entry::Value { value: key("x") });
    let mut other = BlockNode::new(Some(1));
    other.hash = Some([1u8; 32]);
    other.inner.insert(key("k"), Entry::Deletion);
    acc.merge(&other);
    assert_eq!(acc.prev, Some(1));
    assert_eq!(acc.hash, Some([1u8; 32]));
    assert!(matches!(acc.inner.get(b"k"), Some(Entry::Deletion)));
    assert!(matches!(acc.inner.get(b"only"), Some(Entry::Value { .. })));
    let copy = acc.duplicate();
    assert_eq!(copy.encode(), acc.encode());
}

#[test]
fn block_hash_is_blake3() {
    let mut entries: KeyMap<Entry> = KeyMap::new();
    entries.insert(key("b"), Entry::Value { value: key("2") });
    entries.insert(key("a"), Entry::Value { value: key("1") });
    entries.insert(key("gone"), Entry::Deletion);
    let prev = [9u8; 32];

    let mut hasher = blake3::Hasher::new();
    hasher.update(&prev);
    hasher.update(b"a");
    hasher.update(b"1");
    hasher.update(b"b");
    hasher.update(b"2");
    let expected = hasher.finalize();
    assert_eq!(calc_root(Some(&prev), &entries), *expected.as_bytes());
    assert_eq!(root_bytes(Some(&prev), &entries).len(), 36);

    let mut hasher = blake3::Hasher::new();
    hasher.update(b"a");
    hasher.update(b"1");
    hasher.update(b"b");
    hasher.update(b"2");
    assert_eq!(calc_root(None, &entries), *hasher.finalize().as_bytes());
    assert_eq!(root_bytes(None, &entries), b"a1b2".to_vec());
    // the hash of nothing
    assert_eq!(
        calc_root(None, &KeyMap::new()),
        *blake3::hash(b"").as_bytes()
    );
    assert_ne!(calc_root(None, &entries), [0u8; 32]);
}

#[test]
fn counters() {
    let mut m = Metrics::default();
    m.tree_looped();
    m.tree_looped();
    m.log_reservation_attempted();
    m.log_reservation_success();
    m.tree_child_split_attempt();
    m.tree_child_split_success();
    m.tree_parent_split_attempt();
    m.tree_parent_split_success();
    m.tree_root_split_attempt();
    m.tree_root_split_success();
    m.log_looped();
    assert_eq!(m.tree_loops, 2);
    assert_eq!(m.log_reservation_attempts, 1);
    assert_eq!(m.log_reservations, 1);
    assert_eq!(m.tree_child_split_attempt, 1);
    assert_eq!(m.tree_child_split_success, 1);
    assert_eq!(m.tree_parent_split_attempt, 1);
    assert_eq!(m.tree_parent_split_success, 1);
    assert_eq!(m.tree_root_split_attempt, 1);
    assert_eq!(m.tree_root_split_success, 1);
    // a full counter begins again
    m.tree_loops = usize::MAX;
    m.tree_looped();
    assert_eq!(m.tree_loops, 0);
}

#[test]
fn promise_state() {
    let mut state: PromiseState<u8> = PromiseState::default();
    assert!(!state.filled());
    assert!(!state.settled());
    assert!(matches!(state.poll(), Polled::Pending));
    state.resolve(7);
    assert!(state.filled());
    assert!(state.settled());
    assert!(matches!(state.poll(), Polled::Ready(7)));
    assert!(!state.filled());
    state.reject();
    assert!(state.settled());
    assert!(state.rejected);
    assert_eq!(state.take(), None);
    assert!(matches!(state.poll(), Polled::Rejected));
    // a value that came before the promise was given up is still given
    let mut state: PromiseState<u8> = PromiseState::default();
    state.resolve(1);
    state.reject();
    assert_eq!(state.take(), Some(1));
    assert_eq!(state.take(), None);
}

#[test]
fn page_table_grows_by_blocks() {
    let mut table: PageTable<usize> = PageTable::new();
    assert_eq!(table.len(), 0);
    for i in 0..(2 * PAGETABLE_NODE_SZ + 5) {
        table.push(i);
    }
    assert_eq!(table.len(), 2 * PAGETABLE_NODE_SZ + 5);
    assert_eq!(*table.get(0), 0);
    assert_eq!(*table.get(PAGETABLE_NODE_SZ - 1), PAGETABLE_NODE_SZ - 1);
    assert_eq!(*table.get(PAGETABLE_NODE_SZ), PAGETABLE_NODE_SZ);
    assert_eq!(*table.get(2 * PAGETABLE_NODE_SZ + 4), 2 * PAGETABLE_NODE_SZ + 4);
    table.set(PAGETABLE_NODE_SZ, 7);
    *table.get_mut(PAGETABLE_NODE_SZ + 1) += 1;
    assert_eq!(*table.get(PAGETABLE_NODE_SZ), 7);
    assert_eq!(*table.get(PAGETABLE_NODE_SZ + 1), PAGETABLE_NODE_SZ + 2);
    assert_eq!(*table.get(PAGETABLE_NODE_SZ - 1), PAGETABLE_NODE_SZ - 1);
}

#[test]
fn store_configuration() {
    let config = Config::new(Some("./db".to_string()));
    assert_eq!(config.inner().path, Some("./db".to_string()));
    assert_eq!(config.duplicate().inner().path, Some("./db".to_string()));
    assert_eq!(Config::default().inner().path, None);
    assert_eq!(ConfigInner::default().path, None);
    assert_eq!(Error::CommitedState.to_text(), "error");
    assert_eq!(Error::IOError.to_text(), "error");
}

#[test]
fn vec_fragments_are_appended() {
    let mut page = b"ab".to_vec();
    Materializer::merge(&mut page, &b"cd".to_vec());
    assert_eq!(page, b"abcd".to_vec());
    assert_eq!(Materializer::encode(&page), b"abcd".to_vec());
    assert_eq!(<Vec<u8> as Materializer>::decode(b"xy"), Some(b"xy".to_vec()));
}
