//! The parts of block assembly that the miner decides.
use vstd::prelude::*;

use crate::block::{txs_model, Transaction};
use crate::memory_pool::{candidates, MemoryPool};

verus! {

/// Why a block could not be assembled.
#[derive(Debug, Clone, Copy, PartialEq, Eq, Structural)]
pub enum ConsensusError {
    /// A candidate belongs to another network: (this network, the candidate's).
    ConflictingNetworkId(u8, u8),
}

/// The settings of the miner.
#[derive(Debug)]
pub struct Miner {
    /// The address that mining rewards are paid to.
    pub address: Vec<u8>,
    pub network_id: u8,
    /// The largest number of bytes of transactions that a block may hold.
    pub max_block_size: usize,
}

impl Miner {
    pub fn new(address: Vec<u8>, network_id: u8, max_block_size: usize) -> (r: Miner)
        ensures
            r.address@ == address@,
            r.network_id == network_id,
            r.max_block_size == max_block_size,
    {
        Miner { address, network_id, max_block_size }
    }

    /// The pool's candidates for a block of at most `max_size` bytes.
    pub fn fetch_memory_pool_transactions(memory_pool: &MemoryPool, max_size: usize) -> (r: Vec<Transaction>)
        ensures
            txs_model(r@) == candidates(memory_pool@, max_size as nat).0,
    {
        memory_pool.get_candidates(max_size)
    }

    /// Appends the coinbase transaction to the candidates, once every
    /// candidate is checked to belong to this miner's network. The first
    /// candidate of another network is reported.
    pub fn add_coinbase_transaction(&self, transactions: &mut Vec<Transaction>, coinbase: Transaction) -> (r: Result<
        (),
        ConsensusError,
    >)
        ensures
            (forall|i: int| 0 <= i < old(transactions)@.len() ==> #[trigger] old(transactions)@[i].network_id == self.network_id)
                ==> r is Ok && final(transactions)@ == old(transactions)@.push(coinbase),
            (exists|i: int| 0 <= i < old(transactions)@.len() && #[trigger] old(transactions)@[i].network_id != self.network_id)
                ==> r is Err,
            r matches Err(ConsensusError::ConflictingNetworkId(mine, theirs)) ==> {
                &&& final(transactions)@ == old(transactions)@
                &&& mine == self.network_id
                &&& exists|i: int|
                    0 <= i < old(transactions)@.len() && #[trigger] old(transactions)@[i].network_id == theirs
                        && theirs != self.network_id && forall|j: int|
                        0 <= j < i ==> #[trigger] old(transactions)@[j].network_id == self.network_id
            },
    {
        let mut i: usize = 0;
        while i < transactions.len()
            invariant
                i <= transactions@.len(),
                transactions@ == old(transactions)@,
                forall|j: int| 0 <= j < i ==> #[trigger] transactions@[j].network_id == self.network_id,
            decreases transactions@.len() - i,
        {
            if transactions[i].network_id != self.network_id {
                return Err(ConsensusError::ConflictingNetworkId(self.network_id, transactions[i].network_id));
            }
            i = i + 1;
        }
        transactions.push(coinbase);
        Ok(())
    }
}

} // verus!
