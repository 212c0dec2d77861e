//! Transactions, blocks and what can be asked of a chain of blocks.
use vstd::prelude::*;

use crate::bytes::{byte_strings, bytes_eq, contains_bytes, copy_byte_strings, copy_bytes};

verus! {

/// A transaction, as the node core sees it: its identifier (a digest of its
/// bytes), the network it belongs to, its value balance (negative only for a
/// coinbase transaction), the serial numbers of the records it spends, and
/// its serialized bytes.
#[derive(Debug)]
pub struct Transaction {
    pub id: Vec<u8>,
    pub network_id: u8,
    pub value_balance: i64,
    pub serial_numbers: Vec<Vec<u8>>,
    pub data: Vec<u8>,
}

pub struct TransactionModel {
    pub id: Seq<u8>,
    pub network_id: u8,
    pub value_balance: i64,
    pub serial_numbers: Seq<Seq<u8>>,
    pub data: Seq<u8>,
}

impl View for Transaction {
    type V = TransactionModel;

    open spec fn view(&self) -> TransactionModel {
        TransactionModel {
            id: self.id@,
            network_id: self.network_id,
            value_balance: self.value_balance,
            serial_numbers: byte_strings(self.serial_numbers@),
            data: self.data@,
        }
    }
}

impl Transaction {
    /// A copy of this transaction.
    pub fn copy(&self) -> (r: Transaction)
        ensures
            r@ == self@,
    {
        Transaction {
            id: copy_bytes(&self.id),
            network_id: self.network_id,
            value_balance: self.value_balance,
            serial_numbers: copy_byte_strings(&self.serial_numbers),
            data: copy_bytes(&self.data),
        }
    }

    /// Whether this transaction is a coinbase transaction.
    pub fn is_coinbase(&self) -> (r: bool)
        ensures
            r == (self.value_balance < 0),
    {
        self.value_balance < 0
    }
}

/// The header of a block. `difficulty` is the work that the block's proof of
/// work stands for; the weight of a branch is the sum of it over the branch.
#[derive(Debug)]
pub struct BlockHeader {
    pub previous_hash: Vec<u8>,
    pub merkle_root: Vec<u8>,
    pub time: i64,
    pub difficulty: u64,
    pub nonce: u32,
}

/// A block: the digest of its header, the header and its transactions.
#[derive(Debug)]
pub struct Block {
    pub hash: Vec<u8>,
    pub header: BlockHeader,
    pub transactions: Vec<Transaction>,
}

pub struct BlockModel {
    pub hash: Seq<u8>,
    pub previous_hash: Seq<u8>,
    pub merkle_root: Seq<u8>,
    pub time: i64,
    pub difficulty: u64,
    pub nonce: u32,
    pub transactions: Seq<TransactionModel>,
}

pub open spec fn txs_model(v: Seq<Transaction>) -> Seq<TransactionModel> {
    v.map_values(|t: Transaction| t@)
}

pub open spec fn blocks_model(v: Seq<Block>) -> Seq<BlockModel> {
    v.map_values(|b: Block| b@)
}

impl View for Block {
    type V = BlockModel;

    open spec fn view(&self) -> BlockModel {
        BlockModel {
            hash: self.hash@,
            previous_hash: self.header.previous_hash@,
            merkle_root: self.header.merkle_root@,
            time: self.header.time,
            difficulty: self.header.difficulty,
            nonce: self.header.nonce,
            transactions: txs_model(self.transactions@),
        }
    }
}

// ---------------------------------------------------------------------------
// Questions about a chain of blocks.

pub open spec fn tx_has_serial(t: TransactionModel, sn: Seq<u8>) -> bool {
    t.serial_numbers.contains(sn)
}

pub open spec fn block_has_id(b: BlockModel, id: Seq<u8>) -> bool {
    exists|j: int| 0 <= j < b.transactions.len() && #[trigger] b.transactions[j].id == id
}

pub open spec fn block_has_serial(b: BlockModel, sn: Seq<u8>) -> bool {
    exists|j: int| 0 <= j < b.transactions.len() && #[trigger] tx_has_serial(b.transactions[j], sn)
}

/// Some block of the chain holds a transaction with this identifier.
pub open spec fn chain_has_id(c: Seq<BlockModel>, id: Seq<u8>) -> bool {
    exists|i: int| 0 <= i < c.len() && #[trigger] block_has_id(c[i], id)
}

/// Some transaction of the chain spends this serial number.
pub open spec fn chain_has_serial(c: Seq<BlockModel>, sn: Seq<u8>) -> bool {
    exists|i: int| 0 <= i < c.len() && #[trigger] block_has_serial(c[i], sn)
}

/// The transaction spends a serial number that the chain has spent already.
pub open spec fn conflicts_with_chain(c: Seq<BlockModel>, t: TransactionModel) -> bool {
    exists|k: int| 0 <= k < t.serial_numbers.len() && #[trigger] chain_has_serial(c, t.serial_numbers[k])
}

pub fn block_contains_id(b: &Block, id: &Vec<u8>) -> (r: bool)
    ensures
        r == block_has_id(b@, id@),
{
    let mut j: usize = 0;
    while j < b.transactions.len()
        invariant
            j <= b.transactions.len(),
            forall|k: int| 0 <= k < j ==> #[trigger] txs_model(b.transactions@)[k].id != id@,
        decreases b.transactions.len() - j,
    {
        if bytes_eq(&b.transactions[j].id, id) {
            assert(b@.transactions[j as int].id == id@);
            return true;
        }
        j = j + 1;
    }
    false
}

fn block_contains_serial(b: &Block, sn: &Vec<u8>) -> (r: bool)
    ensures
        r == block_has_serial(b@, sn@),
{
    let mut j: usize = 0;
    while j < b.transactions.len()
        invariant
            j <= b.transactions.len(),
            forall|k: int| 0 <= k < j ==> !tx_has_serial(#[trigger] txs_model(b.transactions@)[k], sn@),
        decreases b.transactions.len() - j,
    {
        if contains_bytes(&b.transactions[j].serial_numbers, sn) {
            assert(tx_has_serial(b@.transactions[j as int], sn@));
            return true;
        }
        j = j + 1;
    }
    false
}

pub fn chain_contains_id(c: &Vec<Block>, id: &Vec<u8>) -> (r: bool)
    ensures
        r == chain_has_id(blocks_model(c@), id@),
{
    let mut i: usize = 0;
    while i < c.len()
        invariant
            i <= c.len(),
            forall|k: int| 0 <= k < i ==> !block_has_id(#[trigger] blocks_model(c@)[k], id@),
        decreases c.len() - i,
    {
        if block_contains_id(&c[i], id) {
            assert(block_has_id(blocks_model(c@)[i as int], id@));
            return true;
        }
        i = i + 1;
    }
    false
}

pub fn chain_contains_serial(c: &Vec<Block>, sn: &Vec<u8>) -> (r: bool)
    ensures
        r == chain_has_serial(blocks_model(c@), sn@),
{
    let mut i: usize = 0;
    while i < c.len()
        invariant
            i <= c.len(),
            forall|k: int| 0 <= k < i ==> !block_has_serial(#[trigger] blocks_model(c@)[k], sn@),
        decreases c.len() - i,
    {
        if block_contains_serial(&c[i], sn) {
            assert(block_has_serial(blocks_model(c@)[i as int], sn@));
            return true;
        }
        i = i + 1;
    }
    false
}

/// Whether the transaction spends a serial number that the chain has spent.
pub fn chain_conflicts(c: &Vec<Block>, t: &Transaction) -> (r: bool)
    ensures
        r == conflicts_with_chain(blocks_model(c@), t@),
{
    let mut k: usize = 0;
    while k < t.serial_numbers.len()
        invariant
            k <= t.serial_numbers.len(),
            forall|m: int|
                0 <= m < k ==> !chain_has_serial(blocks_model(c@), #[trigger] byte_strings(t.serial_numbers@)[m]),
        decreases t.serial_numbers.len() - k,
    {
        if chain_contains_serial(c, &t.serial_numbers[k]) {
            assert(chain_has_serial(blocks_model(c@), t@.serial_numbers[k as int]));
            return true;
        }
        k = k + 1;
    }
    false
}

} // verus!
