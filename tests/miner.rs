use snarkos_node::block::Transaction;
use snarkos_node::memory_pool::{Entry, MemoryPool};
use snarkos_node::miner::{ConsensusError, Miner};

fn tx(id: u8, network_id: u8) -> Transaction {
    Transaction { id: vec![id; 32], network_id, value_balance: 0, serial_numbers: vec![vec![id; 32]], data: vec![id; 10] }
}

#[test]
fn coinbase_is_appended_after_network_check() {
    let miner = Miner::new(vec![1, 2, 3], 1, 1000);
    let mut txs = vec![tx(1, 1), tx(2, 1)];
    let mut coinbase = tx(9, 1);
    coinbase.value_balance = -50;
    miner.add_coinbase_transaction(&mut txs, coinbase).unwrap();
    assert_eq!(txs.len(), 3);
    assert_eq!(txs[2].id, vec![9; 32]);

    let mut mixed = vec![tx(1, 1), tx(2, 2), tx(3, 3)];
    assert_eq!(miner.add_coinbase_transaction(&mut mixed, tx(9, 1)), Err(ConsensusError::ConflictingNetworkId(1, 2)));
    assert_eq!(mixed.len(), 3);
}

#[test]
fn miner_takes_candidates_from_the_pool() {
    let mut pool = MemoryPool::new();
    pool.insert(&Vec::new(), Entry { size_in_bytes: 10, transaction: tx(1, 1) }).unwrap();
    pool.insert(&Vec::new(), Entry { size_in_bytes: 10, transaction: tx(2, 1) }).unwrap();
    assert_eq!(Miner::fetch_memory_pool_transactions(&pool, 15).len(), 1);
    assert_eq!(Miner::fetch_memory_pool_transactions(&pool, 20).len(), 2);
}
