//! The memory pool: verified transactions that wait for a block.
use vstd::prelude::*;

use crate::block::{
    block_contains_id, block_has_id, chain_conflicts, chain_contains_id, chain_has_id, conflicts_with_chain,
    tx_has_serial, txs_model, Block, BlockModel, blocks_model, Transaction, TransactionModel,
};
use crate::bytes::{contains_bytes, copy_bytes};

verus! {

/// A transaction waiting in the pool, with the size of its encoding.
#[derive(Debug)]
pub struct Entry {
    pub size_in_bytes: usize,
    pub transaction: Transaction,
}

pub struct EntryModel {
    pub size_in_bytes: usize,
    pub transaction: TransactionModel,
}

impl View for Entry {
    type V = EntryModel;

    open spec fn view(&self) -> EntryModel {
        EntryModel { size_in_bytes: self.size_in_bytes, transaction: self.transaction@ }
    }
}

impl Entry {
    pub fn copy(&self) -> (r: Entry)
        ensures
            r@ == self@,
    {
        Entry { size_in_bytes: self.size_in_bytes, transaction: self.transaction.copy() }
    }
}

/// Why the pool refused a transaction.
#[derive(Debug, Clone, Copy, PartialEq, Eq, Structural)]
pub enum PoolError {
    /// The transaction is a coinbase transaction.
    Coinbase,
    /// The transaction is already part of the canonical chain.
    Committed,
    /// The transaction spends a serial number that the canonical chain or
    /// another pool entry spends.
    DoubleSpend,
}

pub open spec fn pool_has_id(p: Seq<EntryModel>, id: Seq<u8>) -> bool {
    exists|i: int| 0 <= i < p.len() && #[trigger] p[i].transaction.id == id
}

/// Some entry spends one of the serial numbers that `t` spends.
pub open spec fn pool_conflicts(p: Seq<EntryModel>, t: TransactionModel) -> bool {
    exists|i: int, k: int|
        0 <= i < p.len() && 0 <= k < t.serial_numbers.len() && #[trigger] tx_has_serial(
            p[i].transaction,
            #[trigger] t.serial_numbers[k],
        )
}

/// No two entries share an identifier or a serial number.
pub open spec fn pool_wf(p: Seq<EntryModel>) -> bool {
    &&& forall|i: int, j: int|
        0 <= i < p.len() && 0 <= j < p.len() && i != j ==> #[trigger] p[i].transaction.id
            != #[trigger] p[j].transaction.id
    &&& forall|i: int, j: int, sn: Seq<u8>|
        0 <= i < p.len() && 0 <= j < p.len() && i != j && #[trigger] tx_has_serial(p[i].transaction, sn)
            ==> !#[trigger] tx_has_serial(p[j].transaction, sn)
    &&& forall|i: int| 0 <= i < p.len() ==> #[trigger] p[i].transaction.value_balance >= 0
}

/// The transaction is taken by the pool: it is no coinbase, not pooled, not
/// on the chain, and spends nothing that the chain or the pool spends.
pub open spec fn admissible(p: Seq<EntryModel>, c: Seq<BlockModel>, e: EntryModel) -> bool {
    &&& e.transaction.value_balance >= 0
    &&& !pool_has_id(p, e.transaction.id)
    &&& !chain_has_id(c, e.transaction.id)
    &&& !conflicts_with_chain(c, e.transaction)
    &&& !pool_conflicts(p, e.transaction)
}

/// The pool after an entry is offered to it.
pub open spec fn offer(p: Seq<EntryModel>, c: Seq<BlockModel>, e: EntryModel) -> Seq<EntryModel> {
    if admissible(p, c, e) {
        p.push(e)
    } else {
        p
    }
}

/// The pool after the entries are offered to it one after the other.
pub open spec fn offer_all(p: Seq<EntryModel>, c: Seq<BlockModel>, es: Seq<EntryModel>) -> Seq<EntryModel>
    decreases es.len(),
{
    if es.len() == 0 {
        p
    } else {
        offer(offer_all(p, c, es.drop_last()), c, es.last())
    }
}

/// No entry of the pool is a transaction of the chain.
pub open spec fn disjoint_from_chain(p: Seq<EntryModel>, c: Seq<BlockModel>) -> bool {
    forall|i: int| 0 <= i < p.len() ==> !chain_has_id(c, #[trigger] p[i].transaction.id)
}

/// The transactions that fit into `max` bytes, taken greedily in insertion
/// order (an entry that does not fit is passed over), and the bytes they use.
pub open spec fn candidates(p: Seq<EntryModel>, max: nat) -> (Seq<TransactionModel>, nat)
    decreases p.len(),
{
    if p.len() == 0 {
        (Seq::empty(), 0)
    } else {
        let (picked, used) = candidates(p.drop_last(), max);
        if used + p.last().size_in_bytes <= max {
            (picked.push(p.last().transaction), (used + p.last().size_in_bytes) as nat)
        } else {
            (picked, used)
        }
    }
}

/// Verified but unconfirmed transactions, in insertion order.
pub struct MemoryPool {
    pub entries: Vec<Entry>,
}

impl View for MemoryPool {
    type V = Seq<EntryModel>;

    open spec fn view(&self) -> Seq<EntryModel> {
        self.entries@.map_values(|e: Entry| e@)
    }
}

impl MemoryPool {
    pub open spec fn wf(&self) -> bool {
        pool_wf(self@)
    }

    pub fn new() -> (r: MemoryPool)
        ensures
            r@.len() == 0,
            r.wf(),
    {
        MemoryPool { entries: Vec::new() }
    }

    pub fn len(&self) -> (r: usize)
        ensures
            r == self@.len(),
    {
        self.entries.len()
    }

    /// Whether a transaction with this identifier waits in the pool.
    pub fn contains(&self, id: &Vec<u8>) -> (r: bool)
        ensures
            r == pool_has_id(self@, id@),
    {
        let mut i: usize = 0;
        while i < self.entries.len()
            invariant
                i <= self.entries.len(),
                forall|k: int| 0 <= k < i ==> #[trigger] self@[k].transaction.id != id@,
            decreases self.entries.len() - i,
        {
            if crate::bytes::bytes_eq(&self.entries[i].transaction.id, id) {
                assert(self@[i as int].transaction.id == id@);
                return true;
            }
            i = i + 1;
        }
        false
    }

    fn conflicts(&self, t: &Transaction) -> (r: bool)
        ensures
            r == pool_conflicts(self@, t@),
    {
        let mut i: usize = 0;
        while i < self.entries.len()
            invariant
                i <= self.entries.len(),
                forall|a: int, k: int|
                    0 <= a < i && 0 <= k < t@.serial_numbers.len() ==> !#[trigger] tx_has_serial(
                        self@[a].transaction,
                        #[trigger] t@.serial_numbers[k],
                    ),
            decreases self.entries.len() - i,
        {
            let mut k: usize = 0;
            while k < t.serial_numbers.len()
                invariant
                    i < self.entries.len(),
                    k <= t.serial_numbers.len(),
                    forall|a: int, m: int|
                        0 <= a < i && 0 <= m < t@.serial_numbers.len() ==> !#[trigger] tx_has_serial(
                            self@[a].transaction,
                            #[trigger] t@.serial_numbers[m],
                        ),
                    forall|m: int|
                        0 <= m < k ==> !tx_has_serial(self@[i as int].transaction, #[trigger] t@.serial_numbers[m]),
                decreases t.serial_numbers.len() - k,
            {
                if contains_bytes(&self.entries[i].transaction.serial_numbers, &t.serial_numbers[k]) {
                    assert(tx_has_serial(self@[i as int].transaction, t@.serial_numbers[k as int]));
                    return true;
                }
                k = k + 1;
            }
            i = i + 1;
        }
        false
    }

    /// Adds a transaction to the pool.
    ///
    /// A coinbase transaction is refused; one already in the pool is dropped
    /// silently (`Ok(None)`); one that the chain holds, or that spends a serial
    /// number that the chain or another entry spends, is refused. Otherwise the
    /// entry is appended and its identifier returned.
    pub fn insert(&mut self, canonical: &Vec<Block>, entry: Entry) -> (r: Result<Option<Vec<u8>>, PoolError>)
        requires
            old(self).wf(),
        ensures
            final(self).wf(),
            disjoint_from_chain(old(self)@, blocks_model(canonical@)) ==> disjoint_from_chain(
                final(self)@,
                blocks_model(canonical@),
            ),
            entry.transaction.value_balance < 0 ==> r == Err::<Option<Vec<u8>>, PoolError>(PoolError::Coinbase),
            entry.transaction.value_balance >= 0 && pool_has_id(old(self)@, entry.transaction.id@) ==> r == Ok::<
                Option<Vec<u8>>,
                PoolError,
            >(None),
            entry.transaction.value_balance >= 0 && !pool_has_id(old(self)@, entry.transaction.id@) && chain_has_id(
                blocks_model(canonical@),
                entry.transaction.id@,
            ) ==> r == Err::<Option<Vec<u8>>, PoolError>(PoolError::Committed),
            entry.transaction.value_balance >= 0 && !pool_has_id(old(self)@, entry.transaction.id@) && !chain_has_id(
                blocks_model(canonical@),
                entry.transaction.id@,
            ) && (conflicts_with_chain(blocks_model(canonical@), entry.transaction@) || pool_conflicts(
                old(self)@,
                entry.transaction@,
            )) ==> r == Err::<Option<Vec<u8>>, PoolError>(PoolError::DoubleSpend),
            entry.transaction.value_balance >= 0 && !pool_has_id(old(self)@, entry.transaction.id@) && !chain_has_id(
                blocks_model(canonical@),
                entry.transaction.id@,
            ) && !conflicts_with_chain(blocks_model(canonical@), entry.transaction@) && !pool_conflicts(
                old(self)@,
                entry.transaction@,
            ) ==> r matches Ok(Some(_)),
            final(self)@ == offer(old(self)@, blocks_model(canonical@), entry@),
            match r {
                Ok(Some(id)) => id@ == entry.transaction.id@ && final(self)@ == old(self)@.push(entry@),
                _ => final(self)@ == old(self)@,
            },
    {
        if entry.transaction.is_coinbase() {
            return Err(PoolError::Coinbase);
        }
        if self.contains(&entry.transaction.id) {
            return Ok(None);
        }
        if chain_contains_id(canonical, &entry.transaction.id) {
            return Err(PoolError::Committed);
        }
        if chain_conflicts(canonical, &entry.transaction) || self.conflicts(&entry.transaction) {
            return Err(PoolError::DoubleSpend);
        }
        let id = copy_bytes(&entry.transaction.id);
        let ghost before = self@;
        let ghost e = entry@;
        self.entries.push(entry);
        assert(self@ =~= before.push(e));
        assert forall|i: int, j: int, sn: Seq<u8>|
            0 <= i < self@.len() && 0 <= j < self@.len() && i != j && #[trigger] tx_has_serial(
                self@[i].transaction,
                sn,
            ) implies !#[trigger] tx_has_serial(self@[j].transaction, sn) by {
            if j == before.len() {
                if tx_has_serial(e.transaction, sn) {
                    let k = choose|k: int| 0 <= k < e.transaction.serial_numbers.len() && e.transaction.serial_numbers[k] == sn;
                    assert(!tx_has_serial(before[i].transaction, e.transaction.serial_numbers[k]));
                }
            } else if i == before.len() {
                let k = choose|k: int| 0 <= k < e.transaction.serial_numbers.len() && e.transaction.serial_numbers[k] == sn;
                assert(!tx_has_serial(before[j].transaction, e.transaction.serial_numbers[k]));
            }
        }
        Ok(Some(id))
    }

    /// Drops the entries whose transaction the block holds.
    pub fn remove_confirmed(&mut self, block: &Block)
        requires
            old(self).wf(),
        ensures
            final(self).wf(),
            forall|id: Seq<u8>|
                #[trigger] pool_has_id(final(self)@, id) <==> (pool_has_id(old(self)@, id) && !block_has_id(
                    block@,
                    id,
                )),
    {
        let ghost old_p = self@;
        let mut kept: Vec<Entry> = Vec::new();
        let ghost mut idx: Seq<int> = Seq::empty();
        let mut i: usize = 0;
        while i < self.entries.len()
            invariant
                self@ == old_p,
                pool_wf(old_p),
                i <= self.entries.len(),
                idx.len() == kept@.len(),
                forall|a: int| 0 <= a < idx.len() ==> 0 <= #[trigger] idx[a] < i,
                forall|a: int, b: int| 0 <= a < b < idx.len() ==> #[trigger] idx[a] < #[trigger] idx[b],
                forall|a: int| 0 <= a < idx.len() ==> #[trigger] kept@[a]@ == old_p[idx[a]],
                forall|a: int| 0 <= a < idx.len() ==> !block_has_id(block@, #[trigger] kept@[a]@.transaction.id),
                forall|j: int|
                    0 <= j < i && !block_has_id(block@, #[trigger] old_p[j].transaction.id) ==> exists|a: int|
                        0 <= a < idx.len() && idx[a] == j,
            decreases self.entries.len() - i,
        {
            let ghost old_idx = idx;
            if !block_contains_id(block, &self.entries[i].transaction.id) {
                let e = self.entries[i].copy();
                proof {
                    idx = idx.push(i as int);
                }
                kept.push(e);
                assert(kept@[idx.len() - 1]@ == old_p[i as int]);
            }
            proof {
                assert forall|j: int|
                    0 <= j < i + 1 && !block_has_id(block@, #[trigger] old_p[j].transaction.id) implies exists|a: int|
                    0 <= a < idx.len() && idx[a] == j by {
                    if j < i {
                        let a = choose|a: int| 0 <= a < old_idx.len() && old_idx[a] == j;
                        assert(idx[a] == j);
                    } else {
                        assert(idx[idx.len() - 1] == j);
                    }
                }
            }
            i = i + 1;
        }
        self.entries = kept;
        let ghost new_p = self@;
        assert forall|a: int| 0 <= a < new_p.len() implies #[trigger] new_p[a] == old_p[idx[a]] by {
            assert(new_p[a] == kept@[a]@);
        }
        assert forall|id: Seq<u8>| #[trigger] pool_has_id(new_p, id) <==> (pool_has_id(old_p, id) && !block_has_id(block@, id)) by {
            if pool_has_id(new_p, id) {
                let a = choose|a: int| 0 <= a < new_p.len() && new_p[a].transaction.id == id;
                assert(old_p[idx[a]].transaction.id == id);
                assert(!block_has_id(block@, kept@[a]@.transaction.id));
            }
            if pool_has_id(old_p, id) && !block_has_id(block@, id) {
                let j = choose|j: int| 0 <= j < old_p.len() && old_p[j].transaction.id == id;
                let a = choose|a: int| 0 <= a < idx.len() && idx[a] == j;
                assert(new_p[a].transaction.id == id);
            }
        }
        assert forall|a: int, b: int|
            0 <= a < new_p.len() && 0 <= b < new_p.len() && a != b implies #[trigger] new_p[a].transaction.id
            != #[trigger] new_p[b].transaction.id by {
            assert(idx[a] != idx[b]);
            assert(new_p[a] == old_p[idx[a]]);
            assert(new_p[b] == old_p[idx[b]]);
        }
        assert forall|a: int, b: int, sn: Seq<u8>|
            0 <= a < new_p.len() && 0 <= b < new_p.len() && a != b && #[trigger] tx_has_serial(
                new_p[a].transaction,
                sn,
            ) implies !#[trigger] tx_has_serial(new_p[b].transaction, sn) by {
            assert(idx[a] != idx[b]);
            assert(new_p[a] == old_p[idx[a]]);
            assert(new_p[b] == old_p[idx[b]]);
        }
    }

    /// The transactions to put into a block of at most `max_bytes` bytes:
    /// in insertion order, each one that still fits.
    pub fn get_candidates(&self, max_bytes: usize) -> (r: Vec<Transaction>)
        ensures
            txs_model(r@) == candidates(self@, max_bytes as nat).0,
    {
        let mut picked: Vec<Transaction> = Vec::new();
        let mut used: usize = 0;
        let mut i: usize = 0;
        while i < self.entries.len()
            invariant
                i <= self.entries.len(),
                used <= max_bytes,
                (txs_model(picked@), used as nat) == candidates(self@.take(i as int), max_bytes as nat),
            decreases self.entries.len() - i,
        {
            let ghost before = picked@;
            assert(self@.take(i + 1).drop_last() =~= self@.take(i as int));
            let size = self.entries[i].size_in_bytes;
            if size <= max_bytes - used {
                picked.push(self.entries[i].transaction.copy());
                used = used + size;
                assert(txs_model(picked@) =~= txs_model(before).push(self@[i as int].transaction));
            }
            i = i + 1;
        }
        assert(self@.take(self@.len() as int) =~= self@);
        picked
    }

    /// Drops the entries that the chain has made invalid: those the chain
    /// holds, and those that spend what the chain has spent.
    pub fn cleanse(&mut self, canonical: &Vec<Block>)
        requires
            old(self).wf(),
        ensures
            final(self).wf(),
            disjoint_from_chain(final(self)@, blocks_model(canonical@)),
            forall|id: Seq<u8>|
                #[trigger] pool_has_id(final(self)@, id) ==> pool_has_id(old(self)@, id),
            forall|i: int|
                0 <= i < old(self)@.len() ==> (#[trigger] pool_has_id(final(self)@, old(self)@[i].transaction.id) <==> (
                !chain_has_id(blocks_model(canonical@), old(self)@[i].transaction.id) && !conflicts_with_chain(
                    blocks_model(canonical@),
                    old(self)@[i].transaction,
                ))),
    {
        let ghost old_p = self@;
        let ghost c = blocks_model(canonical@);
        let mut kept: Vec<Entry> = Vec::new();
        let ghost mut idx: Seq<int> = Seq::empty();
        let mut i: usize = 0;
        while i < self.entries.len()
            invariant
                self@ == old_p,
                c == blocks_model(canonical@),
                pool_wf(old_p),
                i <= self.entries.len(),
                idx.len() == kept@.len(),
                forall|a: int| 0 <= a < idx.len() ==> 0 <= #[trigger] idx[a] < i,
                forall|a: int, b: int| 0 <= a < b < idx.len() ==> #[trigger] idx[a] < #[trigger] idx[b],
                forall|a: int| 0 <= a < idx.len() ==> #[trigger] kept@[a]@ == old_p[idx[a]],
                forall|a: int|
                    0 <= a < idx.len() ==> !chain_has_id(c, #[trigger] kept@[a]@.transaction.id) && !conflicts_with_chain(
                        c,
                        kept@[a]@.transaction,
                    ),
                forall|j: int|
                    0 <= j < i && !chain_has_id(c, #[trigger] old_p[j].transaction.id) && !conflicts_with_chain(
                        c,
                        old_p[j].transaction,
                    ) ==> exists|a: int| 0 <= a < idx.len() && idx[a] == j,
            decreases self.entries.len() - i,
        {
            let ghost old_idx = idx;
            let ghost kept_before = kept@;
            if !chain_contains_id(canonical, &self.entries[i].transaction.id) && !chain_conflicts(
                canonical,
                &self.entries[i].transaction,
            ) {
                let e = self.entries[i].copy();
                proof {
                    idx = idx.push(i as int);
                }
                kept.push(e);
                assert(kept@[idx.len() - 1]@ == old_p[i as int]);
                assert(old_p[i as int].transaction == self.entries@[i as int].transaction@);
                assert(!chain_has_id(c, kept@[idx.len() - 1]@.transaction.id));
                assert(!conflicts_with_chain(c, kept@[idx.len() - 1]@.transaction));
                assert forall|a: int| 0 <= a < idx.len() implies !chain_has_id(c, #[trigger] kept@[a]@.transaction.id)
                    && !conflicts_with_chain(c, kept@[a]@.transaction) by {
                    if a < kept_before.len() {
                        assert(kept@[a] == kept_before[a]);
                        assert(!chain_has_id(c, kept_before[a]@.transaction.id));
                    }
                }
            } else {
                assert(kept@ == kept_before);
                assert(idx == old_idx);
            }
            assert(forall|a: int| 0 <= a < idx.len() ==> !chain_has_id(c, #[trigger] kept@[a]@.transaction.id) && !conflicts_with_chain(c, kept@[a]@.transaction));
            proof {
                assert forall|j: int|
                    0 <= j < i + 1 && !chain_has_id(c, #[trigger] old_p[j].transaction.id) && !conflicts_with_chain(
                        c,
                        old_p[j].transaction,
                    ) implies exists|a: int| 0 <= a < idx.len() && idx[a] == j by {
                    if j < i {
                        let a = choose|a: int| 0 <= a < old_idx.len() && old_idx[a] == j;
                        assert(idx[a] == j);
                    } else {
                        assert(idx[idx.len() - 1] == j);
                    }
                }
            }
            i = i + 1;
        }
        self.entries = kept;
        let ghost new_p = self@;
        assert forall|a: int| 0 <= a < new_p.len() implies #[trigger] new_p[a] == old_p[idx[a]] by {
            assert(new_p[a] == kept@[a]@);
        }
        assert forall|a: int, b: int|
            0 <= a < new_p.len() && 0 <= b < new_p.len() && a != b implies #[trigger] new_p[a].transaction.id
            != #[trigger] new_p[b].transaction.id by {
            assert(idx[a] != idx[b]);
            assert(new_p[a] == old_p[idx[a]]);
            assert(new_p[b] == old_p[idx[b]]);
        }
        assert forall|a: int, b: int, sn: Seq<u8>|
            0 <= a < new_p.len() && 0 <= b < new_p.len() && a != b && #[trigger] tx_has_serial(
                new_p[a].transaction,
                sn,
            ) implies !#[trigger] tx_has_serial(new_p[b].transaction, sn) by {
            assert(idx[a] != idx[b]);
            assert(new_p[a] == old_p[idx[a]]);
            assert(new_p[b] == old_p[idx[b]]);
        }
        assert forall|a: int| 0 <= a < new_p.len() implies !chain_has_id(
            c,
            #[trigger] new_p[a].transaction.id,
        ) by {
            assert(new_p[a] == kept@[a]@);
        }
        assert forall|id: Seq<u8>| #[trigger] pool_has_id(new_p, id) implies pool_has_id(old_p, id) by {
            let a = choose|a: int| 0 <= a < new_p.len() && new_p[a].transaction.id == id;
            assert(old_p[idx[a]].transaction.id == id);
        }
        assert forall|i: int|
            0 <= i < old_p.len() implies (#[trigger] pool_has_id(new_p, old_p[i].transaction.id) <==> (!chain_has_id(
            c,
            old_p[i].transaction.id,
        ) && !conflicts_with_chain(c, old_p[i].transaction))) by {
            let id = old_p[i].transaction.id;
            if pool_has_id(new_p, id) {
                let a = choose|a: int| 0 <= a < new_p.len() && new_p[a].transaction.id == id;
                assert(old_p[idx[a]].transaction.id == id);
                assert(idx[a] == i);
                assert(new_p[a] == kept@[a]@);
            }
            if !chain_has_id(c, id) && !conflicts_with_chain(c, old_p[i].transaction) {
                let a = choose|a: int| 0 <= a < idx.len() && idx[a] == i;
                assert(new_p[a].transaction.id == id);
            }
        }
    }
}

} // verus!
