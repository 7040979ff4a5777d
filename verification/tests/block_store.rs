use new_pbft::database::{bytes_before, KeyValueStore, MemoryStore};
use new_pbft::store::{
    accepts_next, block_key_bytes, create_block_after, decode_last_index, genesis_block,
    last_block_index_key_bytes, Block, BlockStore, RocksDBBlockStore, Transaction,
};
use new_pbft::utils::{calculate_block_hash, get_current_timestamp};
use sha2::{Digest, Sha256};
fn tag(t: &Transaction) -> u32 {
    match t {
        Transaction::Tx0 => 0,
        Transaction::Tx1 => 1,
        Transaction::Tx2 => 2,
    }
}

fn expected_hash(index: u64, timestamp: u64, txs: &[Transaction], previous: &[u8]) -> Vec<u8> {
    let tags: Vec<u32> = txs.iter().map(tag).collect();
    let bytes = bincode::serialize(&(index, &timestamp, &tags, &previous)).unwrap();
    Sha256::digest(&bytes).to_vec()
}

#[test]
fn opening_an_empty_store_writes_the_genesis_block() {
    let store = RocksDBBlockStore::new(MemoryStore::new()).unwrap();
    let last = store.get_last_block().unwrap().unwrap();
    assert_eq!(last.index, 0);
    assert!(last.transactions.is_empty());
    assert!(last.previous_hash.is_empty());
    assert!(last.hash.is_empty());
    assert_eq!(store.db.entries_from(&[]).len(), 2);
    assert_eq!(store.db.get(b"last_block_index").unwrap(), Some(0u64.to_le_bytes().to_vec()));
}

#[test]
fn reopening_keeps_the_chain() {
    let store = RocksDBBlockStore::new(MemoryStore::new()).unwrap();
    let genesis = store.get_last_block().unwrap().unwrap();
    let again = RocksDBBlockStore::new(store.db).unwrap();
    let last = again.get_last_block().unwrap().unwrap();
    assert_eq!(last.timestamp, genesis.timestamp);
}

#[test]
fn block_hash_is_sha256_of_the_block_bytes() {
    let txs = vec![Transaction::Tx0, Transaction::Tx1];
    let h = calculate_block_hash(5, 1234, &txs, &[1, 2, 3]).unwrap();
    assert_eq!(h, expected_hash(5, 1234, &txs, &[1, 2, 3]));
    assert_eq!(h.len(), 32);
    let genesis = calculate_block_hash(0, 0, &vec![], &[]).unwrap();
    assert_eq!(genesis, Sha256::digest(&[0u8; 32]).to_vec());
}

#[test]
fn created_block_follows_the_last_and_is_appended() {
    let mut store = RocksDBBlockStore::new(MemoryStore::new()).unwrap();
    let txs = vec![Transaction::Tx2, Transaction::Tx2];
    let block = store.create_block(&txs).unwrap();
    let genesis = store.get_last_block().unwrap().unwrap();
    assert_eq!(block.index, 1);
    assert_eq!(block.previous_hash, genesis.hash);
    assert_eq!(block.transactions, txs);
    assert_eq!(block.hash, expected_hash(1, block.timestamp, &txs, &genesis.hash));
    assert!(accepts_next(&genesis, &block));
    store.put_block(&block).unwrap();
    let last = store.get_last_block().unwrap().unwrap();
    assert_eq!(last.index, 1);
    assert_eq!(last.hash, block.hash);
    let read = store.get_block_by_index(1).unwrap().unwrap();
    assert_eq!(read.transactions, txs);
    assert_eq!(read.timestamp, block.timestamp);
}

#[test]
fn a_block_that_does_not_follow_is_ignored() {
    let mut store = RocksDBBlockStore::new(MemoryStore::new()).unwrap();
    let mut block = store.create_block(&vec![Transaction::Tx0]).unwrap();
    block.index = 2;
    store.put_block(&block).unwrap();
    assert_eq!(store.get_last_block().unwrap().unwrap().index, 0);
    let mut block = store.create_block(&vec![Transaction::Tx0]).unwrap();
    block.previous_hash = vec![1];
    store.put_block(&block).unwrap();
    assert_eq!(store.get_last_block().unwrap().unwrap().index, 0);
    assert!(store.get_block_by_index(1).unwrap().is_none());
}

#[test]
fn range_query_returns_the_blocks_in_range() {
    let mut store = RocksDBBlockStore::new(MemoryStore::new()).unwrap();
    for i in 0..4 {
        let block = store.create_block(&vec![Transaction::Tx1; i]).unwrap();
        store.put_block(&block).unwrap();
    }
    let blocks = store.get_blocks_in_range(1, 2).unwrap().unwrap();
    let indices: Vec<u64> = blocks.iter().map(|b| b.index).collect();
    assert_eq!(indices, vec![1, 2]);
    let all = store.get_blocks_in_range(0, 100).unwrap().unwrap();
    assert_eq!(all.len(), 5);
}

#[test]
fn unreadable_last_index_is_an_error() {
    let mut db = MemoryStore::new();
    db.write_batch(vec![(b"last_block_index".to_vec(), vec![1, 2, 3])]).unwrap();
    let mut store = RocksDBBlockStore::new(db).unwrap();
    assert!(store.get_last_block().is_err());
    assert!(store.create_block(&vec![]).is_err());
    assert!(store.put_block(&genesis_block(0)).is_err());
}

#[test]
fn unreadable_block_is_an_error() {
    let mut store = RocksDBBlockStore::new(MemoryStore::new()).unwrap();
    store.db.write_batch(vec![(0u64.to_le_bytes().to_vec(), vec![1])]).unwrap();
    assert!(store.get_block_by_index(0).is_err());
    assert!(store.get_last_block().is_err());
}

#[test]
fn missing_genesis_is_an_error() {
    let mut store = RocksDBBlockStore { db: MemoryStore::new() };
    assert_eq!(store.get_last_block().unwrap().map(|b| b.index), None);
    assert!(store.create_block(&vec![]).is_err());
    assert!(store.put_block(&genesis_block(0)).is_err());
}

#[test]
fn keys_and_last_index() {
    assert_eq!(block_key_bytes(258), vec![2, 1, 0, 0, 0, 0, 0, 0]);
    assert_eq!(last_block_index_key_bytes(), b"last_block_index".to_vec());
    assert_eq!(decode_last_index(&258u64.to_le_bytes()), Some(258));
    assert_eq!(decode_last_index(&[1, 2]), None);
}

#[test]
fn no_block_after_the_greatest_index() {
    let mut last = genesis_block(1);
    last.index = u64::MAX;
    assert!(create_block_after(&last, &vec![], 2).is_none());
    let next = Block { index: 0, timestamp: 0, transactions: vec![], previous_hash: vec![], hash: vec![] };
    assert!(!accepts_next(&last, &next));
}

#[test]
fn the_clock_reads_after_2020() {
    assert!(get_current_timestamp().unwrap() > 1_577_836_800);
}

#[test]
fn memory_store_reads_back_what_it_wrote() {
    let mut db = MemoryStore::new();
    assert_eq!(db.get(b"a").unwrap(), None);
    db.write_batch(vec![(b"b".to_vec(), vec![2]), (b"a".to_vec(), vec![1]), (b"b".to_vec(), vec![3])])
        .unwrap();
    assert_eq!(db.get(b"a").unwrap(), Some(vec![1]));
    assert_eq!(db.get(b"b").unwrap(), Some(vec![3]));
    assert_eq!(db.get(b"c").unwrap(), None);
}

#[test]
fn memory_store_scans_in_byte_order() {
    let mut db = MemoryStore::new();
    db.write_batch(vec![
        (vec![2, 0], vec![20]),
        (vec![1], vec![10]),
        (vec![1, 5], vec![15]),
        (vec![3], vec![30]),
    ])
    .unwrap();
    let keys: Vec<Vec<u8>> = db.entries_from(&[1, 1]).into_iter().map(|(k, _)| k).collect();
    assert_eq!(keys, vec![vec![1, 5], vec![2, 0], vec![3]]);
    assert_eq!(db.entries_from(&[]).len(), 4);
    assert!(db.entries_from(&[4]).is_empty());
}

#[test]
fn byte_order_puts_prefixes_first() {
    assert!(bytes_before(&[1], &[1, 0]));
    assert!(!bytes_before(&[1, 0], &[1]));
    assert!(bytes_before(&[0, 9], &[1]));
    assert!(!bytes_before(&[2], &[2]));
    assert!(bytes_before(&[], &[0]));
    assert!(!bytes_before(&[], &[]));
}

#[test]
fn range_query_gives_the_blocks_in_index_order() {
    let mut store = RocksDBBlockStore::new(MemoryStore::new()).unwrap();
    for i in 0..300u64 {
        let block = store.create_block(&vec![]).unwrap();
        assert_eq!(block.index, i + 1);
        store.put_block(&block).unwrap();
    }
    let blocks = store.get_blocks_in_range(1, 3).unwrap().unwrap();
    let indices: Vec<u64> = blocks.iter().map(|b| b.index).collect();
    assert_eq!(indices, vec![1, 2, 3]);
    let blocks = store.get_blocks_in_range(250, 260).unwrap().unwrap();
    let indices: Vec<u64> = blocks.iter().map(|b| b.index).collect();
    assert_eq!(indices, (250..=260).collect::<Vec<u64>>());
    let tail = store.get_blocks_in_range(299, 1000).unwrap().unwrap();
    assert_eq!(tail.iter().map(|b| b.index).collect::<Vec<u64>>(), vec![299, 300]);
    assert!(store.get_blocks_in_range(301, 400).unwrap().unwrap().is_empty());
    assert!(store.get_blocks_in_range(5, 4).unwrap().unwrap().is_empty());
}

#[test]
fn the_journal_holds_the_writes_until_taken() {
    let mut store = RocksDBBlockStore::new(MemoryStore::new()).unwrap();
    let genesis_writes = store.db.take_journal();
    assert_eq!(genesis_writes.len(), 2);
    assert_eq!(genesis_writes[1], (b"last_block_index".to_vec(), 0u64.to_le_bytes().to_vec()));
    assert!(store.db.take_journal().is_empty());
    let block = store.create_block(&vec![Transaction::Tx0]).unwrap();
    store.put_block(&block).unwrap();
    let writes = store.db.take_journal();
    assert_eq!(writes.len(), 2);
    assert_eq!(writes[0].0, 1u64.to_le_bytes().to_vec());
    assert_eq!(writes[1].1, 1u64.to_le_bytes().to_vec());
    assert_eq!(store.get_last_block().unwrap().unwrap().index, 1);
}
