use cloyster::block::{Bound, KeyRange};
use cloyster::database::{Database, Stored};
use cloyster::tree::TreeBlock;

fn init() -> (Database, cloyster::hasher::Hash) {
    let mut db = Database::default();
    let block = db.genesis().unwrap();
    let hash = block.commit(&mut db.context).unwrap();
    (db, hash)
}

fn keys_of(block: &TreeBlock, db: &mut Database, range: KeyRange) -> Vec<Vec<u8>> {
    let mut iter = block.range(&mut db.context, range).unwrap();
    iter.collect(block, &mut db.context).into_iter().map(|(k, _)| k).collect()
}

fn digits(from: u8, to: u8) -> Vec<Vec<u8>> {
    (from..=to).map(|d| vec![b'0' + d]).collect()
}

#[test]
fn test_block_persistence() {
    let stored = Stored { conf: None, snapshot: None, log: Vec::new() };
    let mut db = Database::open("./cloyster.db".into(), &stored).unwrap();
    let mut block = db.genesis().unwrap();
    block.insert(b"key".to_vec(), b"value".to_vec()).unwrap();
    let ref hash = block.commit(&mut db.context).unwrap();
    let stored = db.stored();
    drop(db);

    let mut db = Database::open("./cloyster.db".into(), &stored).unwrap();
    let block = db.open_block(hash).unwrap().unwrap();
    assert_eq!(block.get(&mut db.context, &b"key".to_vec()).unwrap(), Some(b"value".to_vec()));
}

#[test]
fn test_open_block() {
    let (mut db, hash) = init();
    let block = db.open_block(&hash).unwrap();

    assert!(block.is_some(), "open by id should be ok.");
    let mut block = block.unwrap();

    block.insert(b"210".to_vec(), b"2".to_vec()).unwrap();
    block.insert(b"220".to_vec(), b"2".to_vec()).unwrap();
    block.insert(b"100".to_vec(), b"1".to_vec()).unwrap();

    let hash = block.commit(&mut db.context).unwrap();
    let block = db.open_block(&hash).unwrap().unwrap();
    block.commit(&mut db.context).unwrap();
}

#[test]
fn test_block_insert_get() {
    let (mut db, hash) = init();
    let mut block = db.open_block(&hash).unwrap().unwrap();

    assert_eq!(block.get(&mut db.context, &b"0".to_vec()).unwrap(), None);
    assert_eq!(block.get(&mut db.context, &b"1".to_vec()).unwrap(), None);
    assert_eq!(block.get(&mut db.context, &b"2".to_vec()).unwrap(), None);
    assert_eq!(block.get(&mut db.context, &b"3".to_vec()).unwrap(), None);
    assert_eq!(block.get(&mut db.context, &b"4".to_vec()).unwrap(), None);
    assert_eq!(block.get(&mut db.context, &b"5".to_vec()).unwrap(), None);

    block.insert(b"0".to_vec(), b"0".to_vec()).unwrap();
    block.insert(b"1".to_vec(), b"1".to_vec()).unwrap();
    block.insert(b"2".to_vec(), b"2".to_vec()).unwrap();
    block.insert(b"3".to_vec(), b"3".to_vec()).unwrap();
    block.insert(b"4".to_vec(), b"4".to_vec()).unwrap();

    assert_eq!(block.get(&mut db.context, &b"0".to_vec()).unwrap(), Some(b"0".to_vec()));
    assert_eq!(block.get(&mut db.context, &b"1".to_vec()).unwrap(), Some(b"1".to_vec()));
    assert_eq!(block.get(&mut db.context, &b"2".to_vec()).unwrap(), Some(b"2".to_vec()));
    assert_eq!(block.get(&mut db.context, &b"3".to_vec()).unwrap(), Some(b"3".to_vec()));
    assert_eq!(block.get(&mut db.context, &b"4".to_vec()).unwrap(), Some(b"4".to_vec()));
    assert_eq!(block.get(&mut db.context, &b"5".to_vec()).unwrap(), None);

    block.delete(b"0".to_vec()).unwrap();
    block.delete(b"1".to_vec()).unwrap();
    block.delete(b"2".to_vec()).unwrap();
    block.delete(b"3".to_vec()).unwrap();
    block.delete(b"4".to_vec()).unwrap();
    block.delete(b"5".to_vec()).unwrap();

    assert_eq!(block.get(&mut db.context, &b"0".to_vec()).unwrap(), None);
    assert_eq!(block.get(&mut db.context, &b"1".to_vec()).unwrap(), None);
    assert_eq!(block.get(&mut db.context, &b"2".to_vec()).unwrap(), None);
    assert_eq!(block.get(&mut db.context, &b"3".to_vec()).unwrap(), None);
    assert_eq!(block.get(&mut db.context, &b"4".to_vec()).unwrap(), None);
    assert_eq!(block.get(&mut db.context, &b"5".to_vec()).unwrap(), None);

    let hash = block.commit(&mut db.context).unwrap();
    let mut block = db.open_block(&hash).unwrap().unwrap();

    assert_eq!(block.get(&mut db.context, &b"0".to_vec()).unwrap(), None);
    assert_eq!(block.get(&mut db.context, &b"1".to_vec()).unwrap(), None);
    assert_eq!(block.get(&mut db.context, &b"2".to_vec()).unwrap(), None);
    assert_eq!(block.get(&mut db.context, &b"3".to_vec()).unwrap(), None);
    assert_eq!(block.get(&mut db.context, &b"4".to_vec()).unwrap(), None);
    assert_eq!(block.get(&mut db.context, &b"5".to_vec()).unwrap(), None);

    block.insert(b"0".to_vec(), b"0".to_vec()).unwrap();
    block.insert(b"1".to_vec(), b"1".to_vec()).unwrap();
    block.insert(b"2".to_vec(), b"2".to_vec()).unwrap();
    block.insert(b"3".to_vec(), b"3".to_vec()).unwrap();
    block.insert(b"4".to_vec(), b"4".to_vec()).unwrap();

    assert_eq!(block.get(&mut db.context, &b"0".to_vec()).unwrap(), Some(b"0".to_vec()));
    assert_eq!(block.get(&mut db.context, &b"1".to_vec()).unwrap(), Some(b"1".to_vec()));
    assert_eq!(block.get(&mut db.context, &b"2".to_vec()).unwrap(), Some(b"2".to_vec()));
    assert_eq!(block.get(&mut db.context, &b"3".to_vec()).unwrap(), Some(b"3".to_vec()));
    assert_eq!(block.get(&mut db.context, &b"4".to_vec()).unwrap(), Some(b"4".to_vec()));
    assert_eq!(block.get(&mut db.context, &b"5".to_vec()).unwrap(), None);
}

#[test]
fn test_block_range() {
    let (mut db, hash) = init();
    let mut block = db.open_block(&hash).unwrap().unwrap();

    // an empty store
    assert!(block.iter(&mut db.context).unwrap().next(&block, &mut db.context).is_none());

    block.insert(b"2".to_vec(), b"2".to_vec()).unwrap();
    block.insert(b"1".to_vec(), b"1".to_vec()).unwrap();
    block.insert(b"4".to_vec(), b"4".to_vec()).unwrap();
    block.insert(b"3".to_vec(), b"3".to_vec()).unwrap();
    block.insert(b"9".to_vec(), b"*".to_vec()).unwrap();
    block.insert(b"8".to_vec(), b"0".to_vec()).unwrap();
    block.insert(b"6".to_vec(), b"0".to_vec()).unwrap();
    block.insert(b"7".to_vec(), b"0".to_vec()).unwrap();
    block.insert(b"5".to_vec(), b"0".to_vec()).unwrap();
    block.insert(b"0".to_vec(), b"0".to_vec()).unwrap();

    // the first and the last of a store that is not empty
    assert_eq!(
        block.iter(&mut db.context).unwrap().next(&block, &mut db.context).transpose().unwrap(),
        Some((b"0".to_vec(), b"0".to_vec()))
    );
    assert_eq!(
        block.iter(&mut db.context).unwrap().last(&block, &mut db.context).transpose().unwrap(),
        Some((b"9".to_vec(), b"*".to_vec()))
    );

    // unbound to unbound
    assert_eq!(keys_of(&block, &mut db, KeyRange::full()), digits(0, 9));

    // inclusive to unbound
    assert_eq!(
        keys_of(&block, &mut db, KeyRange::new(Bound::Included(b"1".to_vec()), Bound::Unbounded)),
        digits(1, 9)
    );

    // unbound to exclusive
    assert_eq!(
        keys_of(&block, &mut db, KeyRange::new(Bound::Unbounded, Bound::Excluded(b"9".to_vec()))),
        digits(0, 8)
    );

    // inclusive to exclusive
    assert_eq!(
        keys_of(
            &block,
            &mut db,
            KeyRange::new(Bound::Included(b"1".to_vec()), Bound::Excluded(b"9".to_vec()))
        ),
        digits(1, 8)
    );

    assert_eq!(
        block.iter(&mut db.context).unwrap().last(&block, &mut db.context).unwrap().unwrap(),
        (b"9".to_vec(), b"*".to_vec())
    );
}

#[test]
fn test_block_scan_prefix() {
    let (mut db, hash) = init();
    let mut block = db.open_block(&hash).unwrap().unwrap();

    block.insert(b"210".to_vec(), b"2".to_vec()).unwrap();
    block.insert(b"220".to_vec(), b"2".to_vec()).unwrap();
    block.insert(b"100".to_vec(), b"1".to_vec()).unwrap();
    block.insert(b"12".to_vec(), b"1".to_vec()).unwrap();
    block.insert(b"123".to_vec(), b"1".to_vec()).unwrap();
    block.insert(b"400".to_vec(), b"4".to_vec()).unwrap();
    block.insert(b"300".to_vec(), b"3".to_vec()).unwrap();
    block.insert(b"010".to_vec(), b"0".to_vec()).unwrap();
    block.insert(b"020".to_vec(), b"0".to_vec()).unwrap();

    let result = block
        .scan_prefix(&mut db.context, &b"0".to_vec())
        .unwrap()
        .collect(&block, &mut db.context);

    assert_eq!(
        result,
        vec![(b"010".to_vec(), b"0".to_vec()), (b"020".to_vec(), b"0".to_vec()),]
    );

    let result = block
        .scan_prefix(&mut db.context, &b"12".to_vec())
        .unwrap()
        .collect(&block, &mut db.context);

    assert_eq!(
        result,
        vec![(b"12".to_vec(), b"1".to_vec()), (b"123".to_vec(), b"1".to_vec()),]
    );
}

#[test]
fn test_block_iter_count() {
    let (mut db, hash) = init();
    let mut block = db.open_block(&hash).unwrap().unwrap();

    block.insert(b"210".to_vec(), b"2".to_vec()).unwrap();
    block.insert(b"220".to_vec(), b"2".to_vec()).unwrap();
    block.insert(b"100".to_vec(), b"1".to_vec()).unwrap();
    block.insert(b"12".to_vec(), b"1".to_vec()).unwrap();

    let ref hash = block.commit(&mut db.context).unwrap();

    let mut block = db.open_block(hash).unwrap().unwrap();

    block.insert(b"123".to_vec(), b"1".to_vec()).unwrap();
    block.insert(b"400".to_vec(), b"4".to_vec()).unwrap();
    block.insert(b"300".to_vec(), b"3".to_vec()).unwrap();

    assert_eq!(block.iter(&mut db.context).unwrap().collect(&block, &mut db.context).len(), 7);

    let ref hash = block.commit(&mut db.context).unwrap();
    let mut block = db.open_block(hash).unwrap().unwrap();

    // two more insertions
    block.insert(b"010".to_vec(), b"0".to_vec()).unwrap();
    block.insert(b"020".to_vec(), b"0".to_vec()).unwrap();

    // delete an old item
    block.delete(b"300".to_vec()).unwrap();

    assert_eq!(block.iter(&mut db.context).unwrap().collect(&block, &mut db.context).len(), 8);
}

#[test]
fn committed_block_cannot_be_changed() {
    let (mut db, hash) = init();
    let mut block = db.open_block(&hash).unwrap().unwrap();
    assert!(!block.commited());
    assert_eq!(block.insert(b"k".to_vec(), b"1".to_vec()), Ok(None));
    assert_eq!(block.insert(b"k".to_vec(), b"2".to_vec()), Ok(Some(b"1".to_vec())));
    assert_eq!(block.delete(b"k".to_vec()), Ok(Some(b"2".to_vec())));
    assert_eq!(block.delete(b"k".to_vec()), Ok(None));
    block.hash = Some([3u8; 32]);
    assert!(block.commited());
    assert_eq!(block.insert(b"k".to_vec(), b"3".to_vec()), Err(cloyster::Error::CommitedState));
    assert_eq!(block.delete(b"k".to_vec()), Err(cloyster::Error::CommitedState));
    // a block that is committed commits to the hash that it has
    assert_eq!(block.hash(&mut db.context), Ok([3u8; 32]));
    assert_eq!(block.commit(&mut db.context), Ok([3u8; 32]));
}

#[test]
fn blocks_follow_one_another() {
    let (mut db, genesis) = init();
    let mut first = db.open_block(&genesis).unwrap().unwrap();
    first.insert(b"a".to_vec(), b"1".to_vec()).unwrap();
    first.insert(b"b".to_vec(), b"1".to_vec()).unwrap();
    let first_id = first.id;
    let expected = first.hash(&mut db.context).unwrap();
    let first_hash = first.commit(&mut db.context).unwrap();
    assert_eq!(first_hash, expected);
    // the hash is BLAKE3 over the hash of the block before it and the keys
    // and values of the block
    let mut hasher = blake3::Hasher::new();
    hasher.update(&genesis);
    hasher.update(b"a1b1");
    assert_eq!(first_hash, *hasher.finalize().as_bytes());
    // the first block of all holds nothing and follows no block
    assert_eq!(genesis, *blake3::hash(b"").as_bytes());

    let mut second = db.open_block(&first_hash).unwrap().unwrap();
    second.insert(b"b".to_vec(), b"2".to_vec()).unwrap();
    second.delete(b"a".to_vec()).unwrap();
    second.insert(b"c".to_vec(), b"2".to_vec()).unwrap();
    // the block before the new block is the committed one
    let before = second.prev(&mut db.context).unwrap().unwrap();
    assert_eq!(before.id, first_id);
    assert_eq!(second.get(&mut db.context, b"a"), Ok(None));
    assert_eq!(second.get(&mut db.context, b"b"), Ok(Some(b"2".to_vec())));
    assert_eq!(before.get(&mut db.context, b"a"), Ok(Some(b"1".to_vec())));
    assert_eq!(before.get(&mut db.context, b"b"), Ok(Some(b"1".to_vec())));
    assert_eq!(before.get(&mut db.context, b"c"), Ok(None));
    let second_hash = second.commit(&mut db.context).unwrap();
    assert_ne!(second_hash, first_hash);
    // both blocks are in the metadata page
    assert!(db.open_block(&first_hash).unwrap().is_some());
    assert!(db.open_block(&second_hash).unwrap().is_some());
    assert!(db.open_block(&[0u8; 32]).unwrap().is_none());

    let third = db.open_block(&second_hash).unwrap().unwrap();
    assert_eq!(third.get(&mut db.context, b"a"), Ok(None));
    assert_eq!(third.get(&mut db.context, b"b"), Ok(Some(b"2".to_vec())));
    assert_eq!(third.get(&mut db.context, b"c"), Ok(Some(b"2".to_vec())));
    let all = third.iter(&mut db.context).unwrap().collect(&third, &mut db.context);
    assert_eq!(all, vec![(b"b".to_vec(), b"2".to_vec()), (b"c".to_vec(), b"2".to_vec())]);
    // the first block of all has no block before it
    let root = db.genesis().unwrap();
    assert!(root.prev(&mut db.context).unwrap().is_none());
}

#[test]
fn store_survives_reopening() {
    let mut db = Database::default();
    let mut block = db.genesis().unwrap();
    for i in 0..40u8 {
        block.insert(vec![b'k', i], vec![i; 3]).unwrap();
    }
    let hash = block.commit(&mut db.context).unwrap();
    let mut next = db.open_block(&hash).unwrap().unwrap();
    next.delete(vec![b'k', 7]).unwrap();
    let next_hash = next.commit(&mut db.context).unwrap();
    let stored = db.stored();

    // from the snapshot and from the log alone
    let bare = Stored { conf: None, snapshot: None, log: stored.log.clone() };
    for files in [&stored, &bare] {
        let mut again = Database::open("dir".to_string(), files).unwrap();
        let top = again.open_block(&next_hash).unwrap().unwrap();
        let keys = keys_of(&top, &mut again, KeyRange::full());
        assert_eq!(keys.len(), 39);
        assert_eq!(top.get(&mut again.context, &[b'k', 7]), Ok(None));
        assert_eq!(top.get(&mut again.context, &[b'k', 8]), Ok(Some(vec![8; 3])));
        let old = again.open_block(&hash).unwrap().unwrap();
        assert_eq!(old.get(&mut again.context, &[b'k', 7]), Ok(Some(vec![7; 3])));
    }
}

fn assert_send_sync<S: Send + Sync>() {}

#[test]
fn store_and_blocks_can_cross_threads() {
    assert_send_sync::<Database>();
    assert_send_sync::<TreeBlock>();
}
