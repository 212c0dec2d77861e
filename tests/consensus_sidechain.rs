use snarkos_node::block::{Block, BlockHeader, Transaction};
use snarkos_node::chain::{BlockOutcome, Ledger, RejectReason};
use snarkos_node::memory_pool::{Entry, MemoryPool};

fn tx(id: u8, serial: u8) -> Transaction {
    Transaction {
        id: vec![id; 32],
        network_id: 1,
        value_balance: 0,
        serial_numbers: vec![vec![serial; 32]],
        data: vec![id, serial],
    }
}

fn coinbase(id: u8) -> Transaction {
    Transaction { id: vec![id; 32], network_id: 1, value_balance: -100, serial_numbers: vec![], data: vec![id] }
}

fn block(hash: u8, parent: u8, difficulty: u64, transactions: Vec<Transaction>) -> Block {
    Block {
        hash: vec![hash; 32],
        header: BlockHeader {
            previous_hash: vec![parent; 32],
            merkle_root: vec![0; 32],
            time: 0,
            difficulty,
            nonce: 0,
        },
        transactions,
    }
}

const GENESIS: u8 = 0;
const BLOCK_1: u8 = 1;
const BLOCK_2: u8 = 2;
const ALTERNATIVE_BLOCK_1: u8 = 11;
const ALTERNATIVE_BLOCK_2: u8 = 12;

fn genesis() -> Block {
    block(GENESIS, 255, 1, vec![coinbase(200)])
}

fn block_1() -> Block {
    block(BLOCK_1, GENESIS, 1, vec![coinbase(201), tx(101, 1)])
}

fn block_2() -> Block {
    block(BLOCK_2, BLOCK_1, 1, vec![coinbase(202), tx(102, 2)])
}

fn alternative_block_1() -> Block {
    block(ALTERNATIVE_BLOCK_1, GENESIS, 1, vec![coinbase(211), tx(111, 11)])
}

fn alternative_block_2() -> Block {
    block(ALTERNATIVE_BLOCK_2, ALTERNATIVE_BLOCK_1, 1, vec![coinbase(212), tx(112, 12)])
}

fn fixture() -> (Ledger, MemoryPool) {
    (Ledger::new(genesis()), MemoryPool::new())
}

// Block 2 arrives before its parent, waits as an orphan, and joins the chain
// once block 1 arrives.
#[test]
fn new_out_of_order() {
    let (mut blockchain, mut memory_pool) = fixture();

    let old_block_height = blockchain.height();

    let outcome = blockchain.receive_block(&mut memory_pool, block_2(), 0);
    assert_eq!(outcome, BlockOutcome::Orphan);
    assert_eq!(old_block_height, blockchain.height());

    let outcome = blockchain.receive_block(&mut memory_pool, block_1(), 0);
    assert_eq!(outcome, BlockOutcome::Accepted);

    let new_block_height = blockchain.height();
    assert_eq!(old_block_height + 2, new_block_height);
    assert_eq!(blockchain.latest_block().hash, vec![BLOCK_2; 32]);
    assert!(!blockchain.in_orphan_store(&vec![BLOCK_2; 32]));
}

// Two blocks on the same parent: the first stays canonical, the second is
// kept in the side-chain store.
#[test]
fn reject() {
    let (mut blockchain, mut memory_pool) = fixture();

    let block_1_canon = block_1();
    let block_1_side = alternative_block_1();

    let old_block_height = blockchain.height();

    blockchain.receive_block(&mut memory_pool, block_1_canon, 0);
    let outcome = blockchain.receive_block(&mut memory_pool, block_1_side, 0);
    assert_eq!(outcome, BlockOutcome::SideChain);

    let new_block_height = blockchain.height();
    assert_eq!(old_block_height + 1, new_block_height);

    let accepted = blockchain.latest_block();
    assert_ne!(accepted.hash, vec![ALTERNATIVE_BLOCK_1; 32]);
    assert_eq!(accepted.hash, vec![BLOCK_1; 32]);
    assert!(blockchain.in_side_store(&vec![ALTERNATIVE_BLOCK_1; 32]));
}

// A side chain that overtakes the canonical chain becomes canonical.
#[test]
fn accept() {
    let (mut blockchain, mut memory_pool) = fixture();

    let block_1_canon = alternative_block_1();
    let block_1_side = block_1();
    let block_2_side = block_2();

    let mut old_block_height = blockchain.height();
    blockchain.receive_block(&mut memory_pool, block_1_canon, 0);
    let mut new_block_height = blockchain.height();
    assert_eq!(old_block_height + 1, new_block_height);

    old_block_height = blockchain.height();
    blockchain.receive_block(&mut memory_pool, block_1_side, 0);
    blockchain.receive_block(&mut memory_pool, block_2_side, 0);
    new_block_height = blockchain.height();
    assert_eq!(old_block_height + 1, new_block_height);
}

// A side chain received out of order overtakes the canonical chain.
#[test]
fn fork_out_of_order() {
    let (mut blockchain, mut memory_pool) = fixture();

    let block_1_canon = block_1();
    let block_2_canon = block_2();
    let block_1_side = alternative_block_1();
    let block_2_side = alternative_block_2();

    let mut old_block_height = blockchain.height();
    blockchain.receive_block(&mut memory_pool, block_2_canon, 0);
    let mut new_block_height = blockchain.height();
    assert_eq!(old_block_height, new_block_height);

    old_block_height = blockchain.height();
    blockchain.receive_block(&mut memory_pool, block_1_side, 0);
    new_block_height = blockchain.height();
    assert_eq!(old_block_height + 1, new_block_height);

    old_block_height = blockchain.height();
    blockchain.receive_block(&mut memory_pool, block_1_canon, 0);
    new_block_height = blockchain.height();
    assert_eq!(old_block_height + 1, new_block_height);

    old_block_height = blockchain.height();
    blockchain.receive_block(&mut memory_pool, block_2_side, 0);
    new_block_height = blockchain.height();
    assert_eq!(old_block_height, new_block_height);
}

#[test]
fn heavier_side_branch_reorganizes_one_block() {
    let (mut blockchain, mut memory_pool) = fixture();
    assert_eq!(blockchain.receive_block(&mut memory_pool, alternative_block_1(), 0), BlockOutcome::Accepted);
    assert_eq!(blockchain.receive_block(&mut memory_pool, block_1(), 0), BlockOutcome::SideChain);
    assert_eq!(blockchain.receive_block(&mut memory_pool, block_2(), 0), BlockOutcome::Accepted);
    assert_eq!(blockchain.height(), 2);
    assert_eq!(blockchain.latest_block().hash, vec![BLOCK_2; 32]);
    assert!(blockchain.in_side_store(&vec![ALTERNATIVE_BLOCK_1; 32]));
    assert_eq!(blockchain.reorg_count(), 1);
    assert_eq!(blockchain.reorgs[0].depth, 1);
    assert_eq!(blockchain.reorgs[0].from, vec![ALTERNATIVE_BLOCK_1; 32]);
    assert_eq!(blockchain.reorgs[0].to, vec![BLOCK_2; 32]);
    // The rolled-back block's transaction went back to the pool.
    assert!(memory_pool.contains(&vec![111; 32]));
    assert!(!memory_pool.contains(&vec![101; 32]));
}

#[test]
fn heavier_single_block_wins_by_work_not_count() {
    let (mut blockchain, mut memory_pool) = fixture();
    blockchain.receive_block(&mut memory_pool, block_1(), 0);
    blockchain.receive_block(&mut memory_pool, block_2(), 0);
    assert_eq!(blockchain.height(), 2);
    let heavy = block(ALTERNATIVE_BLOCK_1, GENESIS, 5, vec![coinbase(211)]);
    assert_eq!(blockchain.receive_block(&mut memory_pool, heavy, 0), BlockOutcome::Accepted);
    assert_eq!(blockchain.height(), 1);
    assert_eq!(blockchain.latest_block().hash, vec![ALTERNATIVE_BLOCK_1; 32]);
    assert_eq!(blockchain.reorgs[0].depth, 2);
}

#[test]
fn duplicate_block_is_rejected() {
    let (mut blockchain, mut memory_pool) = fixture();
    blockchain.receive_block(&mut memory_pool, block_1(), 0);
    assert_eq!(
        blockchain.receive_block(&mut memory_pool, block_1(), 0),
        BlockOutcome::Rejected(RejectReason::Duplicate)
    );
    assert_eq!(
        blockchain.receive_block(&mut memory_pool, genesis(), 0),
        BlockOutcome::Rejected(RejectReason::Duplicate)
    );
    assert_eq!(blockchain.height(), 1);
}

#[test]
fn invalid_blocks_are_rejected() {
    let (mut blockchain, mut memory_pool) = fixture();
    // A block from the far future.
    let mut late = block_1();
    late.header.time = 10_000_000;
    assert_eq!(blockchain.receive_block(&mut memory_pool, late, 0), BlockOutcome::Rejected(RejectReason::Invalid));
    // Two transactions with one identifier.
    let twice = block(BLOCK_1, GENESIS, 1, vec![tx(101, 1), tx(101, 2)]);
    assert_eq!(blockchain.receive_block(&mut memory_pool, twice, 0), BlockOutcome::Rejected(RejectReason::Invalid));
    // A coinbase transaction that is not the first.
    let second_coinbase = block(BLOCK_1, GENESIS, 1, vec![tx(101, 1), coinbase(201)]);
    assert_eq!(
        blockchain.receive_block(&mut memory_pool, second_coinbase, 0),
        BlockOutcome::Rejected(RejectReason::Invalid)
    );
    // A transaction that the chain holds already.
    blockchain.receive_block(&mut memory_pool, block_1(), 0);
    let again = block(BLOCK_2, BLOCK_1, 1, vec![tx(101, 9)]);
    assert_eq!(blockchain.receive_block(&mut memory_pool, again, 0), BlockOutcome::Rejected(RejectReason::Invalid));
    // A transaction that spends what the chain has spent.
    let spent = block(BLOCK_2, BLOCK_1, 1, vec![tx(150, 1)]);
    assert_eq!(blockchain.receive_block(&mut memory_pool, spent, 0), BlockOutcome::Rejected(RejectReason::Invalid));
    assert_eq!(blockchain.height(), 1);
}

#[test]
fn accepted_block_clears_its_transactions_from_the_pool() {
    let (mut blockchain, mut memory_pool) = fixture();
    let inserted = memory_pool.insert(&blockchain.canonical, Entry { size_in_bytes: 2, transaction: tx(101, 1) });
    assert_eq!(inserted, Ok(Some(vec![101; 32])));
    assert!(memory_pool.contains(&vec![101; 32]));
    blockchain.receive_block(&mut memory_pool, block_1(), 0);
    assert!(!memory_pool.contains(&vec![101; 32]));
}

#[test]
fn canonical_chain_stays_linked_from_genesis() {
    let (mut blockchain, mut memory_pool) = fixture();
    for b in vec![block_2(), alternative_block_1(), block_1(), alternative_block_2(), block(13, 12, 1, vec![])] {
        blockchain.receive_block(&mut memory_pool, b, 0);
        assert_eq!(blockchain.canonical[0].hash, vec![GENESIS; 32]);
        for i in 1..blockchain.canonical.len() {
            assert_eq!(blockchain.canonical[i].header.previous_hash, blockchain.canonical[i - 1].hash);
        }
    }
    assert_eq!(blockchain.latest_block().hash, vec![13; 32]);
    assert_eq!(blockchain.height(), 3);
}
