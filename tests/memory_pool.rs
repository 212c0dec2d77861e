use snarkos_node::block::{Block, Transaction};
use snarkos_node::memory_pool::{Entry, MemoryPool, PoolError};

fn tx(id: u8, serial: u8, size: u8) -> Transaction {
    Transaction {
        id: vec![id; 32],
        network_id: 1,
        value_balance: 0,
        serial_numbers: vec![vec![serial; 32]],
        data: vec![id; size as usize],
    }
}

fn entry(id: u8, serial: u8, size: u8) -> Entry {
    Entry { size_in_bytes: size as usize, transaction: tx(id, serial, size) }
}

#[test]
fn insert_dedups_and_screens_double_spends() {
    let chain: Vec<Block> = Vec::new();
    let mut pool = MemoryPool::new();
    assert_eq!(pool.insert(&chain, entry(1, 1, 10)), Ok(Some(vec![1; 32])));
    assert_eq!(pool.insert(&chain, entry(1, 1, 10)), Ok(None));
    assert_eq!(pool.insert(&chain, entry(2, 1, 10)), Err(PoolError::DoubleSpend));
    let mut coinbase = entry(3, 3, 10);
    coinbase.transaction.value_balance = -1;
    assert_eq!(pool.insert(&chain, coinbase), Err(PoolError::Coinbase));
    assert_eq!(pool.len(), 1);
    assert!(pool.contains(&vec![1; 32]));
    assert!(!pool.contains(&vec![2; 32]));
}

#[test]
fn candidates_fit_in_insertion_order() {
    let chain: Vec<Block> = Vec::new();
    let mut pool = MemoryPool::new();
    pool.insert(&chain, entry(1, 1, 40)).unwrap();
    pool.insert(&chain, entry(2, 2, 70)).unwrap();
    pool.insert(&chain, entry(3, 3, 50)).unwrap();
    let picked = pool.get_candidates(100);
    let ids: Vec<Vec<u8>> = picked.iter().map(|t| t.id.clone()).collect();
    assert_eq!(ids, vec![vec![1; 32], vec![3; 32]]);
    assert_eq!(pool.get_candidates(0).len(), 0);
    assert_eq!(pool.get_candidates(1000).len(), 3);
}
