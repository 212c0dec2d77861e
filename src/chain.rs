//! The chain state engine: block admission, fork choice, reorganization and
//! orphan replay.
use vstd::prelude::*;

use crate::block::{
    block_has_id, chain_conflicts, chain_contains_id, chain_has_id, conflicts_with_chain, Block, BlockModel,
    blocks_model,
};
use crate::bytes::{bytes_eq, copy_bytes};
use crate::memory_pool::{disjoint_from_chain, pool_has_id, Entry, MemoryPool};

verus! {

/// How far ahead of the local clock a block's timestamp may be, in milliseconds.
pub const MAX_FUTURE_MILLIS: i64 = 7200000;

/// Why a block was turned away.
#[derive(Debug, Clone, Copy, PartialEq, Eq, Structural)]
pub enum RejectReason {
    /// The block is already known to the node.
    Duplicate,
    /// The block breaks a rule of the ledger.
    Invalid,
}

/// What became of a received block.
#[derive(Debug, Clone, Copy, PartialEq, Eq, Structural)]
pub enum BlockOutcome {
    /// The block is on the canonical chain.
    Accepted,
    /// The block was kept in the side-chain store.
    SideChain,
    /// The block's parent is unknown; it waits in the orphan store.
    Orphan,
    Rejected(RejectReason),
}

/// A switch of the canonical chain to a heavier branch.
#[derive(Debug)]
pub struct Reorg {
    /// The tip before the switch.
    pub from: Vec<u8>,
    /// The tip after the switch.
    pub to: Vec<u8>,
    /// The number of canonical blocks that were rolled back.
    pub depth: usize,
}

/// Each block's parent is the block before it.
pub open spec fn linked(c: Seq<BlockModel>) -> bool {
    forall|i: int| 1 <= i < c.len() ==> #[trigger] c[i].previous_hash == c[i - 1].hash
}

pub open spec fn store_has(v: Seq<BlockModel>, h: Seq<u8>) -> bool {
    exists|i: int| 0 <= i < v.len() && #[trigger] v[i].hash == h
}

/// The sum of the difficulties of the blocks.
pub open spec fn work(s: Seq<BlockModel>) -> int
    decreases s.len(),
{
    if s.len() == 0 {
        0
    } else {
        work(s.drop_last()) + s.last().difficulty
    }
}

/// No two transactions of the block share an identifier, and only the first
/// may be a coinbase transaction.
pub open spec fn well_formed_block(b: BlockModel) -> bool {
    &&& forall|i: int, j: int|
        0 <= i < b.transactions.len() && 0 <= j < b.transactions.len() && i != j ==> #[trigger] b.transactions[i].id
            != #[trigger] b.transactions[j].id
    &&& forall|i: int| 1 <= i < b.transactions.len() ==> #[trigger] b.transactions[i].value_balance >= 0
}

/// The block is well formed and its timestamp is not too far in the future.
pub open spec fn valid_structure(b: BlockModel, now: i64) -> bool {
    &&& well_formed_block(b)
    &&& b.time <= now + MAX_FUTURE_MILLIS
}

/// No transaction of the block is in the chain already, nor spends what the
/// chain has spent.
pub open spec fn fits_chain(c: Seq<BlockModel>, b: BlockModel) -> bool {
    forall|j: int|
        #![trigger b.transactions[j]]
        0 <= j < b.transactions.len() ==> !chain_has_id(c, b.transactions[j].id) && !conflicts_with_chain(
            c,
            b.transactions[j],
        )
}

proof fn lemma_chain_id_push(c: Seq<BlockModel>, b: BlockModel, id: Seq<u8>)
    ensures
        chain_has_id(c.push(b), id) == (chain_has_id(c, id) || block_has_id(b, id)),
{
    let c2 = c.push(b);
    if chain_has_id(c, id) {
        let i = choose|i: int| 0 <= i < c.len() && block_has_id(c[i], id);
        assert(c2[i] == c[i]);
    }
    if block_has_id(b, id) {
        assert(c2[c.len() as int] == b);
    }
    if chain_has_id(c2, id) {
        let i = choose|i: int| 0 <= i < c2.len() && block_has_id(c2[i], id);
        if i < c.len() {
            assert(c2[i] == c[i]);
        }
    }
}

proof fn lemma_chain_id_prefix(c: Seq<BlockModel>, n: int, id: Seq<u8>)
    requires
        0 <= n <= c.len(),
        chain_has_id(c.subrange(0, n), id),
    ensures
        chain_has_id(c, id),
{
    let i = choose|i: int| 0 <= i < n && block_has_id(c.subrange(0, n)[i], id);
    assert(c.subrange(0, n)[i] == c[i]);
}

proof fn lemma_has_push(s: Seq<BlockModel>, b: BlockModel, h: Seq<u8>)
    ensures
        store_has(s.push(b), h) == (store_has(s, h) || b.hash == h),
{
    let t = s.push(b);
    if store_has(s, h) {
        let i = choose|i: int| 0 <= i < s.len() && s[i].hash == h;
        assert(t[i] == s[i]);
    }
    if b.hash == h {
        assert(t[s.len() as int] == b);
    }
    if store_has(t, h) {
        let i = choose|i: int| 0 <= i < t.len() && t[i].hash == h;
        if i < s.len() {
            assert(t[i] == s[i]);
        }
    }
}

proof fn lemma_has_drop_last(s: Seq<BlockModel>, h: Seq<u8>)
    requires
        s.len() > 0,
    ensures
        store_has(s, h) == (store_has(s.drop_last(), h) || s.last().hash == h),
{
    assert(s.drop_last().push(s.last()) =~= s);
    lemma_has_push(s.drop_last(), s.last(), h);
}

proof fn lemma_has_remove(s: Seq<BlockModel>, i: int, h: Seq<u8>)
    requires
        0 <= i < s.len(),
    ensures
        store_has(s, h) == (store_has(s.remove(i), h) || s[i].hash == h),
{
    let t = s.remove(i);
    if store_has(s, h) && s[i].hash != h {
        let j = choose|j: int| 0 <= j < s.len() && s[j].hash == h;
        let j2 = if j < i { j } else { j - 1 };
        assert(t[j2] == s[j]);
    }
    if store_has(t, h) {
        let j = choose|j: int| 0 <= j < t.len() && t[j].hash == h;
        let j2 = if j < i { j } else { j + 1 };
        assert(t[j] == s[j2]);
    }
}

/// The first index of a block with this hash, or -1.
pub open spec fn first_index(s: Seq<BlockModel>, h: Seq<u8>) -> int
    decreases s.len(),
{
    if s.len() == 0 {
        -1
    } else if s[0].hash == h {
        0
    } else {
        let r = first_index(s.drop_first(), h);
        if r < 0 {
            -1
        } else {
            r + 1
        }
    }
}

proof fn lemma_first_index(s: Seq<BlockModel>, h: Seq<u8>, i: int)
    requires
        0 <= i < s.len(),
        s[i].hash == h,
        forall|j: int| 0 <= j < i ==> #[trigger] s[j].hash != h,
    ensures
        first_index(s, h) == i,
    decreases i,
{
    if i > 0 {
        let t = s.drop_first();
        assert forall|j: int| 0 <= j < i - 1 implies #[trigger] t[j].hash != h by {
            assert(t[j] == s[j + 1]);
        }
        lemma_first_index(t, h, i - 1);
    }
}

proof fn lemma_first_none(s: Seq<BlockModel>, h: Seq<u8>)
    requires
        forall|j: int| 0 <= j < s.len() ==> #[trigger] s[j].hash != h,
    ensures
        first_index(s, h) == -1,
    decreases s.len(),
{
    if s.len() > 0 {
        let t = s.drop_first();
        assert forall|j: int| 0 <= j < t.len() implies #[trigger] t[j].hash != h by {
            assert(t[j] == s[j + 1]);
        }
        lemma_first_none(t, h);
    }
}

/// The ancestors of a block with parent hash `h` that a side-chain store
/// holds, nearest first: at each step the first block with the wanted hash
/// is taken out of the store.
pub open spec fn ancestry(side: Seq<BlockModel>, h: Seq<u8>) -> Seq<BlockModel>
    decreases side.len(),
{
    let i = first_index(side, h);
    if 0 <= i < side.len() {
        seq![side[i]] + ancestry(side.remove(i), side[i].previous_hash)
    } else {
        Seq::empty()
    }
}

/// The branch of a block over a side-chain store: the block, then its
/// ancestors in the store.
pub open spec fn branch_of(side: Seq<BlockModel>, b: BlockModel) -> Seq<BlockModel> {
    seq![b] + ancestry(side, b.previous_hash)
}

/// The blocks in the opposite order.
pub open spec fn reversed(s: Seq<BlockModel>) -> Seq<BlockModel> {
    Seq::new(s.len(), |j: int| s[s.len() - 1 - j])
}

/// Each block of the list, in order, fits the chain built so far from
/// `base`.
pub open spec fn fits_all(base: Seq<BlockModel>, bs: Seq<BlockModel>) -> bool
    decreases bs.len(),
{
    if bs.len() == 0 {
        true
    } else {
        fits_chain(base, bs[0]) && fits_all(base.push(bs[0]), bs.drop_first())
    }
}

/// Some block of the list has this hash.
pub open spec fn in_blocks(v: Seq<Block>, h: Seq<u8>) -> bool {
    store_has(blocks_model(v), h)
}

proof fn lemma_in_push(before: Seq<Block>, after: Seq<Block>, h: Seq<u8>)
    requires
        after.len() == before.len() + 1,
        forall|i: int| 0 <= i < before.len() ==> after[i] == before[i],
    ensures
        in_blocks(after, h) == (in_blocks(before, h) || after[before.len() as int]@.hash == h),
{
    assert(blocks_model(after) =~= blocks_model(before).push(after[before.len() as int]@));
    lemma_has_push(blocks_model(before), after[before.len() as int]@, h);
}

proof fn lemma_in_drop_last(v: Seq<Block>, h: Seq<u8>)
    requires
        v.len() > 0,
    ensures
        in_blocks(v, h) == (in_blocks(v.drop_last(), h) || v.last()@.hash == h),
{
    assert(blocks_model(v.drop_last()) =~= blocks_model(v).drop_last());
    lemma_has_drop_last(blocks_model(v), h);
}

/// What fork choice does with a block whose parent is known but is not the
/// tip. Its branch is the block and its ancestors in the side-chain store;
/// the branch's root hangs below the first canonical block with the root's
/// parent hash, at index `k`. A branch with no such block, or with no more
/// work than the canonical blocks above `k`, stays on the side and nothing
/// else changes. A strictly heavier branch becomes canonical above `k` if
/// each of its blocks fits the chain in turn, and one reorganization is
/// recorded (from the old tip to the block, of depth the number of blocks
/// rolled back); if one does not fit, the canonical chain is left as it was.
pub open spec fn fork_choice_result(before: Ledger, after: Ledger, block: BlockModel, r: BlockOutcome) -> bool {
    let br = branch_of(before.side_blocks(), block);
    let c = before.canon();
    let k = first_index(c, br[br.len() - 1].previous_hash);
    let base = c.subrange(0, k + 1);
    let rev = reversed(br);
    let heavier = 0 <= k && work(br) > work(c.subrange(k + 1, c.len() as int));
    &&& (!heavier || !fits_all(base, rev)) ==> {
        &&& r == BlockOutcome::SideChain
        &&& after.canon() == c
        &&& after.reorgs@ == before.reorgs@
    }
    &&& (heavier && fits_all(base, rev)) ==> {
        &&& r == BlockOutcome::Accepted
        &&& after.canon() == base + rev
        &&& after.reorgs@.len() == before.reorgs@.len() + 1
        &&& forall|j: int| 0 <= j < before.reorgs@.len() ==> #[trigger] after.reorgs@[j] == before.reorgs@[j]
        &&& after.reorgs@[before.reorgs@.len() as int].from@ == c.last().hash
        &&& after.reorgs@[before.reorgs@.len() as int].to@ == block.hash
        &&& after.reorgs@[before.reorgs@.len() as int].depth == c.len() - (k + 1)
    }
}

/// No block of the orphan store has this parent hash.
pub open spec fn no_orphan_child(l: Ledger, h: Seq<u8>) -> bool {
    forall|i: int| 0 <= i < l.orphans@.len() ==> #[trigger] l.orphan_blocks()[i].previous_hash != h
}

/// What receiving `block` at time `now` does to a ledger and its pool.
pub open spec fn admission_result(
    before: Ledger,
    pool_before: MemoryPool,
    after: Ledger,
    pool_after: MemoryPool,
    block: Block,
    now: i64,
    r: BlockOutcome,
) -> bool {
    let b = block@;
    &&& after.consistent(&pool_after)
    &&& after.canon()[0] == before.canon()[0]
    &&& before.knows(b.hash) ==> {
        &&& r == BlockOutcome::Rejected(RejectReason::Duplicate)
        &&& after == before
        &&& pool_after == pool_before
    }
    &&& !before.knows(b.hash) && !valid_structure(b, now) ==> {
        &&& r == BlockOutcome::Rejected(RejectReason::Invalid)
        &&& after == before
        &&& pool_after == pool_before
    }
    &&& !before.knows(b.hash) && valid_structure(b, now) && !before.knows(b.previous_hash) ==> {
        &&& r == BlockOutcome::Orphan
        &&& after.orphans@ == before.orphans@.push(block)
        &&& after.canonical@ == before.canonical@
        &&& after.side@ == before.side@
        &&& after.reorgs@ == before.reorgs@
        &&& pool_after == pool_before
    }
    &&& !before.knows(b.hash) && valid_structure(b, now) && b.previous_hash == before.tip().hash ==> {
        &&& fits_chain(before.canon(), b) ==> r == BlockOutcome::Accepted
        &&& fits_chain(before.canon(), b) && no_orphan_child(before, b.hash) ==> {
            &&& after.canon() == before.canon().push(b)
            &&& after.reorgs@ == before.reorgs@
        }
        &&& !fits_chain(before.canon(), b) ==> {
            &&& r == BlockOutcome::Rejected(RejectReason::Invalid)
            &&& after == before
            &&& pool_after == pool_before
        }
    }
    &&& !before.knows(b.hash) && valid_structure(b, now) && before.knows(b.previous_hash) && b.previous_hash
        != before.tip().hash ==> {
        &&& r == BlockOutcome::Accepted || r == BlockOutcome::SideChain
        &&& no_orphan_child(before, b.hash) ==> fork_choice_result(before, after, b, r)
    }
    &&& forall|h: Seq<u8>| #![trigger before.settled(h)] before.settled(h) ==> after.settled(h)
    &&& r == BlockOutcome::Accepted || r == BlockOutcome::SideChain ==> after.settled(b.hash)
}

/// A transaction that is committed into a canonical block is not in the
/// memory pool, in every state that the ledger and the pool can reach
/// together.
pub proof fn lemma_committed_not_pooled(ledger: &Ledger, pool: &MemoryPool, id: Seq<u8>)
    requires
        ledger.consistent(pool),
        chain_has_id(ledger.canon(), id),
    ensures
        !pool_has_id(pool@, id),
{
    if pool_has_id(pool@, id) {
        let i = choose|i: int| 0 <= i < pool@.len() && pool@[i].transaction.id == id;
        assert(!chain_has_id(ledger.canon(), pool@[i].transaction.id));
    }
}

/// The ledger: the canonical chain from genesis, the side-chain store, the
/// orphan store, and the reorganizations that took place.
pub struct Ledger {
    pub canonical: Vec<Block>,
    pub side: Vec<Block>,
    pub orphans: Vec<Block>,
    pub reorgs: Vec<Reorg>,
}

impl Ledger {
    pub open spec fn canon(&self) -> Seq<BlockModel> {
        blocks_model(self.canonical@)
    }

    pub open spec fn side_blocks(&self) -> Seq<BlockModel> {
        blocks_model(self.side@)
    }

    pub open spec fn orphan_blocks(&self) -> Seq<BlockModel> {
        blocks_model(self.orphans@)
    }

    /// The canonical chain is not empty and is hash-linked.
    pub open spec fn wf(&self) -> bool {
        &&& self.canonical@.len() >= 1
        &&& linked(self.canon())
    }

    /// The ledger is well formed, the pool is well formed, and no pooled
    /// transaction is on the canonical chain.
    pub open spec fn consistent(&self, pool: &MemoryPool) -> bool {
        &&& self.wf()
        &&& pool.wf()
        &&& disjoint_from_chain(pool@, self.canon())
    }

    /// A block with this hash is on the canonical chain or in the
    /// side-chain store.
    pub open spec fn settled(&self, h: Seq<u8>) -> bool {
        store_has(self.canon(), h) || store_has(self.side_blocks(), h)
    }

    pub open spec fn knows(&self, h: Seq<u8>) -> bool {
        store_has(self.canon(), h) || store_has(self.side_blocks(), h) || store_has(self.orphan_blocks(), h)
    }

    pub open spec fn tip(&self) -> BlockModel {
        self.canon().last()
    }

    /// A ledger whose canonical chain is the genesis block alone.
    pub fn new(genesis: Block) -> (r: Ledger)
        ensures
            r.wf(),
            r.canon() == seq![genesis@],
            r.side@.len() == 0,
            r.orphans@.len() == 0,
            r.reorgs@.len() == 0,
    {
        let mut canonical: Vec<Block> = Vec::new();
        canonical.push(genesis);
        let r = Ledger { canonical, side: Vec::new(), orphans: Vec::new(), reorgs: Vec::new() };
        assert(r.canon() =~= seq![genesis@]);
        r
    }

    /// The number of blocks above genesis on the canonical chain.
    pub fn height(&self) -> (r: usize)
        requires
            self.wf(),
        ensures
            r == self.canon().len() - 1,
    {
        self.canonical.len() - 1
    }

    /// The tip of the canonical chain.
    pub fn latest_block(&self) -> (r: &Block)
        requires
            self.wf(),
        ensures
            r@ == self.tip(),
    {
        &self.canonical[self.canonical.len() - 1]
    }

    pub fn reorg_count(&self) -> (r: usize)
        ensures
            r == self.reorgs@.len(),
    {
        self.reorgs.len()
    }

    fn find(v: &Vec<Block>, h: &Vec<u8>) -> (r: Option<usize>)
        ensures
            match r {
                Some(i) => i < v@.len() && blocks_model(v@)[i as int].hash == h@ && i == first_index(blocks_model(v@), h@),
                None => !store_has(blocks_model(v@), h@) && first_index(blocks_model(v@), h@) == -1,
            },
    {
        let mut i: usize = 0;
        while i < v.len()
            invariant
                i <= v.len(),
                forall|k: int| 0 <= k < i ==> #[trigger] blocks_model(v@)[k].hash != h@,
            decreases v.len() - i,
        {
            if bytes_eq(&v[i].hash, h) {
                proof {
                    lemma_first_index(blocks_model(v@), h@, i as int);
                }
                return Some(i);
            }
            i = i + 1;
        }
        proof {
            lemma_first_none(blocks_model(v@), h@);
        }
        None
    }

    /// Where a block with this hash stands on the canonical chain.
    pub fn find_canonical(&self, h: &Vec<u8>) -> (r: Option<usize>)
        ensures
            match r {
                Some(i) => i < self.canonical@.len() && i < self.canon().len() && self.canon()[i as int].hash == h@
                    && i == first_index(self.canon(), h@),
                None => !store_has(self.canon(), h@) && first_index(self.canon(), h@) == -1,
            },
    {
        Self::find(&self.canonical, h)
    }

    /// Whether a block with this hash is in any of the three stores.
    pub fn is_known(&self, h: &Vec<u8>) -> (r: bool)
        ensures
            r == self.knows(h@),
    {
        Self::find(&self.canonical, h).is_some() || Self::find(&self.side, h).is_some() || Self::find(
            &self.orphans,
            h,
        ).is_some()
    }

    /// Whether a block with this hash waits in the side-chain store.
    pub fn in_side_store(&self, h: &Vec<u8>) -> (r: bool)
        ensures
            r == store_has(self.side_blocks(), h@),
    {
        Self::find(&self.side, h).is_some()
    }

    /// Whether a block with this hash waits in the orphan store.
    pub fn in_orphan_store(&self, h: &Vec<u8>) -> (r: bool)
        ensures
            r == store_has(self.orphan_blocks(), h@),
    {
        Self::find(&self.orphans, h).is_some()
    }

    /// Appends a block whose parent is the tip, and drops its transactions
    /// from the pool.
    fn extend(&mut self, pool: &mut MemoryPool, block: Block)
        requires
            old(self).consistent(old(pool)),
            block@.previous_hash == old(self).tip().hash,
        ensures
            final(self).consistent(final(pool)),
            final(self).canon() == old(self).canon().push(block@),
            final(self).canonical@.len() == old(self).canonical@.len() + 1,
            forall|h: Seq<u8>| #[trigger] final(self).settled(h) == (old(self).settled(h) || block@.hash == h),
            final(self).side@ == old(self).side@,
            final(self).orphans@ == old(self).orphans@,
            final(self).reorgs@ == old(self).reorgs@,
            forall|id: Seq<u8>|
                #[trigger] pool_has_id(final(pool)@, id) <==> (pool_has_id(old(pool)@, id) && !block_has_id(
                    block@,
                    id,
                )),
    {
        let ghost c = self.canon();
        let ghost old_pool = pool@;
        pool.remove_confirmed(&block);
        let ghost b = block@;
        self.canonical.push(block);
        assert(self.canon() =~= c.push(b));
        assert forall|h: Seq<u8>| #[trigger] self.settled(h) == (old(self).settled(h) || b.hash == h) by {
            lemma_has_push(c, b, h);
        }
        assert forall|i: int| 1 <= i < self.canon().len() implies #[trigger] self.canon()[i].previous_hash
            == self.canon()[i - 1].hash by {
            if i < c.len() {
                assert(self.canon()[i] == c[i]);
                assert(self.canon()[i - 1] == c[i - 1]);
            }
        }
        assert forall|i: int| 0 <= i < pool@.len() implies !chain_has_id(
            self.canon(),
            #[trigger] pool@[i].transaction.id,
        ) by {
            let id = pool@[i].transaction.id;
            assert(pool_has_id(pool@, id));
            let j = choose|j: int| 0 <= j < old_pool.len() && old_pool[j].transaction.id == id;
            lemma_chain_id_push(c, b, id);
        }
    }

    /// Takes the tip off the canonical chain and hands its transactions back
    /// to the pool.
    fn rollback_tip(&mut self, pool: &mut MemoryPool) -> (b: Block)
        requires
            old(self).consistent(old(pool)),
            old(self).canonical@.len() >= 2,
        ensures
            final(self).consistent(final(pool)),
            final(self).canon() == old(self).canon().drop_last(),
            final(self).canonical@.len() == old(self).canonical@.len() - 1,
            b@ == old(self).tip(),
            forall|h: Seq<u8>| #[trigger] old(self).settled(h) == (final(self).settled(h) || b@.hash == h),
            final(self).side@ == old(self).side@,
            final(self).orphans@ == old(self).orphans@,
            final(self).reorgs@ == old(self).reorgs@,
    {
        let ghost c = self.canon();
        let b = self.canonical.pop().unwrap();
        assert(self.canon() =~= c.drop_last());
        assert forall|h: Seq<u8>| #[trigger] old(self).settled(h) == (self.settled(h) || b@.hash == h) by {
            lemma_has_drop_last(c, h);
        }
        assert forall|i: int| 0 <= i < pool@.len() implies !chain_has_id(
            self.canon(),
            #[trigger] pool@[i].transaction.id,
        ) by {
            if chain_has_id(self.canon(), pool@[i].transaction.id) {
                assert(self.canon() =~= c.subrange(0, c.len() - 1));
                lemma_chain_id_prefix(c, c.len() - 1, pool@[i].transaction.id);
            }
        }
        let mut j: usize = 0;
        while j < b.transactions.len()
            invariant
                self.wf(),
                self.canon() == c.drop_last(),
                self.side@ == old(self).side@,
                self.orphans@ == old(self).orphans@,
                self.reorgs@ == old(self).reorgs@,
                pool.wf(),
                disjoint_from_chain(pool@, self.canon()),
                j <= b.transactions.len(),
                forall|h: Seq<u8>| #[trigger] old(self).settled(h) == (self.settled(h) || b@.hash == h),
            decreases b.transactions.len() - j,
        {
            let tx = b.transactions[j].copy();
            let size = tx.data.len();
            let _ = pool.insert(&self.canonical, Entry { size_in_bytes: size, transaction: tx });
            j = j + 1;
        }
        b
    }

    /// Takes out of the side-chain store the ancestors of `block` that it
    /// holds. The result starts with `block`; each block after it is the
    /// parent of the one before.
    fn take_branch(&mut self, block: Block) -> (branch: Vec<Block>)
        ensures
            branch@.len() >= 1,
            branch@[0]@ == block@,
            forall|j: int|
                0 <= j < branch@.len() - 1 ==> #[trigger] branch@[j]@.previous_hash == branch@[j + 1]@.hash,
            final(self).canonical@ == old(self).canonical@,
            final(self).orphans@ == old(self).orphans@,
            final(self).reorgs@ == old(self).reorgs@,
            forall|h: Seq<u8>|
                #[trigger] store_has(old(self).side_blocks(), h) ==> store_has(final(self).side_blocks(), h) || store_has(
                    blocks_model(branch@),
                    h,
                ),
            blocks_model(branch@) == branch_of(old(self).side_blocks(), block@),
    {
        let mut cur = copy_bytes(&block.header.previous_hash);
        let mut branch: Vec<Block> = Vec::new();
        let ghost bm = block@;
        branch.push(block);
        assert(blocks_model(branch@) =~= seq![bm]);
        loop
            invariant
                branch@.len() >= 1,
                branch@[0]@ == block@,
                forall|j: int|
                    0 <= j < branch@.len() - 1 ==> #[trigger] branch@[j]@.previous_hash == branch@[j + 1]@.hash,
                cur@ == branch@[branch@.len() - 1]@.previous_hash,
                blocks_model(branch@) + ancestry(self.side_blocks(), cur@) == branch_of(old(self).side_blocks(), block@),
                self.canonical@ == old(self).canonical@,
                self.orphans@ == old(self).orphans@,
                self.reorgs@ == old(self).reorgs@,
                forall|h: Seq<u8>|
                    #[trigger] store_has(old(self).side_blocks(), h) ==> store_has(self.side_blocks(), h) || store_has(
                        blocks_model(branch@),
                        h,
                    ),
            ensures
                blocks_model(branch@) == branch_of(old(self).side_blocks(), block@),
            decreases self.side@.len(),
        {
            match Self::find(&self.side, &cur) {
                Some(i) => {
                    let ghost side_before = self.side_blocks();
                    let ghost branch_before = blocks_model(branch@);
                    let ghost anc_before = ancestry(side_before, cur@);
                    let b = self.side.remove(i);
                    assert(self.side_blocks() =~= side_before.remove(i as int));
                    assert(anc_before == seq![side_before[i as int]] + ancestry(self.side_blocks(), side_before[i as int].previous_hash));
                    cur = copy_bytes(&b.header.previous_hash);
                    let ghost before = branch@;
                    branch.push(b);
                    assert(blocks_model(branch@) =~= branch_before.push(side_before[i as int]));
                    assert(blocks_model(branch@) + ancestry(self.side_blocks(), cur@) =~= branch_before + anc_before);
                    assert forall|h: Seq<u8>|
                        #[trigger] store_has(old(self).side_blocks(), h) implies store_has(self.side_blocks(), h)
                            || store_has(blocks_model(branch@), h) by {
                        lemma_has_remove(side_before, i as int, h);
                        lemma_has_push(branch_before, side_before[i as int], h);
                    }
                    assert forall|j: int| 0 <= j < branch@.len() - 1 implies #[trigger] branch@[j]@.previous_hash
                        == branch@[j + 1]@.hash by {
                        if j < before.len() - 1 {
                            assert(branch@[j] == before[j]);
                            assert(branch@[j + 1] == before[j + 1]);
                        }
                    }
                },
                None => {
                    assert(ancestry(self.side_blocks(), cur@) =~= Seq::<BlockModel>::empty());
                    assert(blocks_model(branch@) + ancestry(self.side_blocks(), cur@) =~= blocks_model(branch@));
                    break ;
                },
            }
        }
        branch
    }

    /// Puts every block of the list into the side-chain store.
    fn store_side(&mut self, blocks: Vec<Block>)
        ensures
            final(self).canonical@ == old(self).canonical@,
            final(self).orphans@ == old(self).orphans@,
            final(self).reorgs@ == old(self).reorgs@,
            forall|h: Seq<u8>|
                store_has(old(self).side_blocks(), h) || store_has(blocks_model(blocks@), h) ==> #[trigger] store_has(
                    final(self).side_blocks(),
                    h,
                ),
    {
        let ghost all = blocks_model(blocks@);
        let mut blocks = blocks;
        while blocks.len() > 0
            invariant
                self.canonical@ == old(self).canonical@,
                self.orphans@ == old(self).orphans@,
                self.reorgs@ == old(self).reorgs@,
                forall|h: Seq<u8>|
                    store_has(old(self).side_blocks(), h) || store_has(all, h) ==> #[trigger] store_has(
                        self.side_blocks(),
                        h,
                    ) || store_has(blocks_model(blocks@), h),
            decreases blocks@.len(),
        {
            let ghost side_before = self.side_blocks();
            let ghost rest_before = blocks_model(blocks@);
            let b = blocks.pop().unwrap();
            self.side.push(b);
            assert(self.side_blocks() =~= side_before.push(b@));
            assert(blocks_model(blocks@) =~= rest_before.drop_last());
            assert forall|h: Seq<u8>|
                store_has(old(self).side_blocks(), h) || store_has(all, h) implies #[trigger] store_has(
                    self.side_blocks(),
                    h,
                ) || store_has(blocks_model(blocks@), h) by {
                lemma_has_push(side_before, b@, h);
                lemma_has_drop_last(rest_before, h);
            }
        }
        assert forall|h: Seq<u8>|
            store_has(old(self).side_blocks(), h) || store_has(all, h) implies #[trigger] store_has(
                self.side_blocks(),
                h,
            ) by {
            if store_has(blocks_model(blocks@), h) {
                let i = choose|i: int| 0 <= i < blocks_model(blocks@).len() && blocks_model(blocks@)[i].hash == h;
            }
        }
    }

    /// The sum of the difficulties of the blocks of `v` from index `from` on.
    fn total_difficulty(v: &Vec<Block>, from: usize) -> (r: u128)
        requires
            from <= v@.len(),
        ensures
            r == work(blocks_model(v@).subrange(from as int, v@.len() as int)),
    {
        let mut total: u128 = 0;
        let mut i: usize = from;
        while i < v.len()
            invariant
                from <= i <= v@.len(),
                total == work(blocks_model(v@).subrange(from as int, i as int)),
                total <= (i - from) * (u64::MAX as int),
            decreases v@.len() - i,
        {
            let ghost s = blocks_model(v@);
            assert(s.subrange(from as int, i + 1).drop_last() =~= s.subrange(from as int, i as int));
            total = total + v[i].header.difficulty as u128;
            i = i + 1;
        }
        total
    }

    /// Switches the canonical chain to `branch` (tip first) above the block at
    /// index `k`. If a block of the branch does not fit, the switch is undone.
    fn reorganize(&mut self, pool: &mut MemoryPool, branch: Vec<Block>, k: usize) -> (r: BlockOutcome)
        requires
            old(self).consistent(old(pool)),
            k < old(self).canonical@.len(),
            branch@.len() >= 1,
            forall|j: int|
                0 <= j < branch@.len() - 1 ==> #[trigger] branch@[j]@.previous_hash == branch@[j + 1]@.hash,
            branch@[branch@.len() - 1]@.previous_hash == old(self).canon()[k as int].hash,
        ensures
            ({
                let base = old(self).canon().subrange(0, k + 1);
                let rev = reversed(blocks_model(branch@));
                &&& fits_all(base, rev) ==> {
                    &&& r == BlockOutcome::Accepted
                    &&& final(self).canon() == base + rev
                    &&& final(self).reorgs@.len() == old(self).reorgs@.len() + 1
                    &&& forall|j: int| 0 <= j < old(self).reorgs@.len() ==> #[trigger] final(self).reorgs@[j] == old(self).reorgs@[j]
                    &&& final(self).reorgs@[old(self).reorgs@.len() as int].from@ == old(self).tip().hash
                    &&& final(self).reorgs@[old(self).reorgs@.len() as int].to@ == blocks_model(branch@)[0].hash
                    &&& final(self).reorgs@[old(self).reorgs@.len() as int].depth == old(self).canon().len() - (k + 1)
                }
                &&& !fits_all(base, rev) ==> {
                    &&& r == BlockOutcome::SideChain
                    &&& final(self).canon() == old(self).canon()
                    &&& final(self).reorgs@ == old(self).reorgs@
                }
            }),
            final(self).consistent(final(pool)),
            final(self).canon()[0] == old(self).canon()[0],
            final(self).orphans@ == old(self).orphans@,
            r == BlockOutcome::Accepted || r == BlockOutcome::SideChain,
            forall|h: Seq<u8>|
                #![trigger old(self).settled(h)]
                #![trigger in_blocks(branch@, h)]
                old(self).settled(h) || in_blocks(branch@, h) ==> final(self).settled(h),
    {
        let ghost g = self.canon()[0];
        let ghost b0 = branch@;
        let ghost oc = self.canon();
        let ghost ol = oc.len();
        let ghost base = oc.subrange(0, k + 1);
        let ghost br = blocks_model(branch@);
        let ghost n = br.len();
        let ghost rev = reversed(br);
        let old_tip = copy_bytes(&self.canonical[self.canonical.len() - 1].hash);
        let mut rolled: Vec<Block> = Vec::new();
        while self.canonical.len() > k + 1
            invariant
                self.consistent(pool),
                self.canon()[0] == g,
                self.orphans@ == old(self).orphans@,
                self.canonical@.len() >= k + 1,
                forall|h: Seq<u8>|
                    #![trigger old(self).settled(h)]
                    old(self).settled(h) ==> self.settled(h) || in_blocks(rolled@, h),
                oc == old(self).canon(),
                ol == oc.len(),
                self.canon() == oc.subrange(0, self.canon().len() as int),
                rolled@.len() == ol - self.canon().len(),
                forall|m: int| 0 <= m < rolled@.len() ==> #[trigger] rolled@[m]@ == oc[ol - 1 - m],
                self.reorgs@ == old(self).reorgs@,
            decreases self.canonical@.len(),
        {
            let ghost rolled_before = rolled@;
            let ghost pre = self.canon();
            let b = self.rollback_tip(pool);
            rolled.push(b);
            proof {
                assert(self.canon() =~= oc.subrange(0, self.canon().len() as int));
                assert(b@ == oc[pre.len() - 1]);
                assert forall|m: int| 0 <= m < rolled@.len() implies #[trigger] rolled@[m]@ == oc[ol - 1 - m] by {
                    if m < rolled_before.len() {
                        assert(rolled@[m] == rolled_before[m]);
                    }
                }
                assert forall|h: Seq<u8>|
                    #![trigger old(self).settled(h)]
                    old(self).settled(h) implies self.settled(h) || in_blocks(rolled@, h) by {
                    lemma_in_push(rolled_before, rolled@, h);
                }
            }
        }
        assert(self.canon() =~= base);
        assert(base + rev.subrange(0, 0) =~= base);
        assert(rev.subrange(0, n as int) =~= rev);
        let mut branch = branch;
        let mut failed = false;
        while branch.len() > 0 && !failed
            invariant
                self.consistent(pool),
                self.canon()[0] == g,
                self.orphans@ == old(self).orphans@,
                self.canonical@.len() >= k + 1,
                forall|h: Seq<u8>|
                    #![trigger old(self).settled(h)]
                    #![trigger in_blocks(b0, h)]
                    old(self).settled(h) || in_blocks(b0, h) ==> self.settled(h) || in_blocks(rolled@, h) || in_blocks(
                        branch@,
                        h,
                    ),
                oc == old(self).canon(),
                ol == oc.len(),
                base == oc.subrange(0, k + 1),
                br == blocks_model(b0),
                n == br.len(),
                rev == reversed(br),
                n >= 1,
                forall|j: int| 0 <= j < n - 1 ==> #[trigger] br[j].previous_hash == br[j + 1].hash,
                br[n - 1].previous_hash == oc[k as int].hash,
                blocks_model(branch@) == br.subrange(0, branch@.len() as int),
                branch@.len() <= n,
                rolled@.len() == ol - (k + 1),
                forall|m: int| 0 <= m < rolled@.len() ==> #[trigger] rolled@[m]@ == oc[ol - 1 - m],
                self.reorgs@ == old(self).reorgs@,
                self.canon().len() >= k + 1,
                self.canon().subrange(0, k + 1) == base,
                !failed ==> self.canon() == base + rev.subrange(0, n - branch@.len()) && (fits_all(base, rev) == fits_all(
                    self.canon(),
                    rev.subrange(n - branch@.len(), n as int),
                )),
                failed ==> !fits_all(base, rev),
            decreases branch@.len(),
        {
            let ghost branch_before = branch@;
            let ghost pre_canon = self.canon();
            let ghost pre_side = self.side_blocks();
            let ghost applied = n - branch@.len();
            let b = branch.pop().unwrap();
            let ghost bm = b@;
            proof {
                assert(branch@ =~= branch_before.drop_last());
                assert(blocks_model(branch_before)[branch_before.len() - 1] == bm);
                assert(bm == br[n - 1 - applied]);
                assert(rev[applied] == bm);
                if applied == 0 {
                    assert(pre_canon =~= base);
                } else {
                    assert(pre_canon.last() == rev[applied - 1]);
                    assert(rev[applied - 1] == br[n - applied]);
                }
                assert(pre_canon.last().hash == bm.previous_hash);
                assert(blocks_model(branch@) =~= br.subrange(0, branch@.len() as int));
                let rs = rev.subrange(applied, n as int);
                assert(rs[0] == rev[applied]);
                assert(rs.drop_first() =~= rev.subrange(applied + 1, n as int));
            }
            if self.tip_is(&b.header.previous_hash) && check_fits_chain(&self.canonical, &b) {
                self.extend(pool, b);
                proof {
                    assert(self.canon() =~= base + rev.subrange(0, applied + 1));
                    assert(self.canon().subrange(0, k + 1) =~= base);
                    assert forall|h: Seq<u8>|
                        #![trigger old(self).settled(h)]
                        #![trigger in_blocks(b0, h)]
                        old(self).settled(h) || in_blocks(b0, h) implies self.settled(h) || in_blocks(rolled@, h)
                            || in_blocks(branch@, h) by {
                        lemma_in_drop_last(branch_before, h);
                        lemma_has_push(pre_canon, bm, h);
                        assert(self.canon() == pre_canon.push(bm));
                        assert(self.side_blocks() == pre_side);
                    }
                }
            } else {
                self.side.push(b);
                proof {
                    assert(!fits_chain(pre_canon, bm));
                    assert(self.side_blocks() =~= pre_side.push(bm));
                    assert forall|h: Seq<u8>|
                        #![trigger old(self).settled(h)]
                        #![trigger in_blocks(b0, h)]
                        old(self).settled(h) || in_blocks(b0, h) implies self.settled(h) || in_blocks(rolled@, h)
                            || in_blocks(branch@, h) by {
                        lemma_in_drop_last(branch_before, h);
                        lemma_has_push(pre_side, bm, h);
                    }
                }
                failed = true;
            }
        }
        if failed {
            let ghost rest = branch@;
            self.store_side(branch);
            assert forall|h: Seq<u8>|
                #![trigger old(self).settled(h)]
                #![trigger in_blocks(b0, h)]
                old(self).settled(h) || in_blocks(b0, h) implies self.settled(h) || in_blocks(rolled@, h) by {
                if in_blocks(rest, h) {
                    assert(store_has(blocks_model(rest), h));
                }
            }
            while self.canonical.len() > k + 1
                invariant
                    self.consistent(pool),
                    self.canon()[0] == g,
                    self.orphans@ == old(self).orphans@,
                    self.canonical@.len() >= k + 1,
                    forall|h: Seq<u8>|
                        #![trigger old(self).settled(h)]
                        #![trigger in_blocks(b0, h)]
                        old(self).settled(h) || in_blocks(b0, h) ==> self.settled(h) || in_blocks(rolled@, h),
                    oc == old(self).canon(),
                    ol == oc.len(),
                    base == oc.subrange(0, k + 1),
                    rolled@.len() == ol - (k + 1),
                    forall|m: int| 0 <= m < rolled@.len() ==> #[trigger] rolled@[m]@ == oc[ol - 1 - m],
                    self.reorgs@ == old(self).reorgs@,
                    self.canon().subrange(0, k + 1) == base,
                    !fits_all(base, rev),
                decreases self.canonical@.len(),
            {
                let ghost pre_canon = self.canon();
                let ghost pre_side = self.side_blocks();
                let b = self.rollback_tip(pool);
                let ghost bm = b@;
                let ghost side_before = self.side_blocks();
                self.side.push(b);
                proof {
                    assert(self.side_blocks() =~= side_before.push(bm));
                    assert(pre_canon == self.canon().push(bm)) by {
                        assert(self.canon() == pre_canon.drop_last());
                        assert(bm == pre_canon.last());
                        assert(pre_canon.drop_last().push(pre_canon.last()) =~= pre_canon);
                    }
                    assert forall|h: Seq<u8>|
                        #![trigger old(self).settled(h)]
                        #![trigger in_blocks(b0, h)]
                        old(self).settled(h) || in_blocks(b0, h) implies self.settled(h) || in_blocks(rolled@, h) by {
                        lemma_has_push(side_before, bm, h);
                        lemma_has_push(self.canon(), bm, h);
                    }
                    assert(self.canon().subrange(0, k + 1) =~= pre_canon.subrange(0, k + 1));
                }
            }
            assert(self.canon() =~= base);
            while rolled.len() > 0
                invariant
                    self.consistent(pool),
                    self.canon()[0] == g,
                    self.orphans@ == old(self).orphans@,
                    forall|h: Seq<u8>|
                        #![trigger old(self).settled(h)]
                        #![trigger in_blocks(b0, h)]
                        old(self).settled(h) || in_blocks(b0, h) ==> self.settled(h) || in_blocks(rolled@, h),
                    oc == old(self).canon(),
                    ol == oc.len(),
                    linked(oc),
                    rolled@.len() <= ol - (k + 1),
                    forall|m: int| 0 <= m < rolled@.len() ==> #[trigger] rolled@[m]@ == oc[ol - 1 - m],
                    self.canon() == oc.subrange(0, ol - rolled@.len()),
                    self.reorgs@ == old(self).reorgs@,
                    !fits_all(base, rev),
                decreases rolled@.len(),
            {
                let ghost rolled_before = rolled@;
                let ghost pre_canon = self.canon();
                let b = rolled.pop().unwrap();
                proof {
                    let rl = rolled_before.len();
                    assert(b@ == oc[ol - rl]);
                    assert(pre_canon.last() == oc[ol - rl - 1]);
                    assert(oc[ol - rl].previous_hash == oc[ol - rl - 1].hash);
                    assert(self.tip().hash == b@.previous_hash);
                    assert(rolled@ =~= rolled_before.drop_last());
                    assert forall|h: Seq<u8>| in_blocks(rolled_before, h) implies in_blocks(rolled@, h) || #[trigger] b@.hash
                        == h by {
                        lemma_in_drop_last(rolled_before, h);
                    }
                }
                if self.tip_is(&b.header.previous_hash) {
                    self.extend(pool, b);
                    assert(self.canon() =~= oc.subrange(0, ol - rolled@.len()));
                } else {
                    let ghost side_before = self.side_blocks();
                    self.side.push(b);
                    proof {
                        assert(self.side_blocks() =~= side_before.push(b@));
                        assert forall|h: Seq<u8>| #[trigger] store_has(side_before, h) || b@.hash == h implies store_has(
                            self.side_blocks(),
                            h,
                        ) by {
                            lemma_has_push(side_before, b@, h);
                        }
                    }
                }
            }
            assert(self.canon() =~= oc);
            BlockOutcome::SideChain
        } else {
            assert(branch@.len() == 0);
            assert(self.canon() =~= base + rev);
            assert(rev.subrange(n as int, n as int) =~= Seq::<BlockModel>::empty());
            assert(fits_all(base, rev));
            assert(self.tip() == rev[n - 1]);
            assert(rev[n - 1] == br[0]);
            let depth = rolled.len();
            let ghost rolled_all = rolled@;
            self.store_side(rolled);
            assert forall|h: Seq<u8>|
                #![trigger old(self).settled(h)]
                #![trigger in_blocks(b0, h)]
                old(self).settled(h) || in_blocks(b0, h) implies self.settled(h) by {
                if in_blocks(rolled_all, h) {
                    assert(store_has(blocks_model(rolled_all), h));
                }
            }
            let to = copy_bytes(&self.canonical[self.canonical.len() - 1].hash);
            let ghost reorgs_before = self.reorgs@;
            self.reorgs.push(Reorg { from: old_tip, to, depth });
            assert forall|j: int| 0 <= j < old(self).reorgs@.len() implies #[trigger] self.reorgs@[j] == old(self).reorgs@[j] by {
                assert(self.reorgs@[j] == reorgs_before[j]);
            }
            BlockOutcome::Accepted
        }
    }

    /// Stores a block whose parent is known but is not the tip, and switches
    /// to its branch if that branch holds strictly more work than the
    /// canonical blocks above their common ancestor.
    fn fork_choice(&mut self, pool: &mut MemoryPool, block: Block) -> (r: BlockOutcome)
        requires
            old(self).consistent(old(pool)),
        ensures
            final(self).consistent(final(pool)),
            final(self).canon()[0] == old(self).canon()[0],
            final(self).orphans@ == old(self).orphans@,
            r == BlockOutcome::Accepted || r == BlockOutcome::SideChain,
            forall|h: Seq<u8>| #![trigger old(self).settled(h)] old(self).settled(h) ==> final(self).settled(h),
            final(self).settled(block@.hash),
            fork_choice_result(*old(self), *final(self), block@, r),
    {
        let ghost bh = block@.hash;
        let ghost bmod = block@;
        let ghost oc = self.canon();
        let ghost old_reorgs = self.reorgs@;
        let branch = self.take_branch(block);
        assert(blocks_model(branch@)[blocks_model(branch@).len() - 1] == branch@[branch@.len() - 1]@);
        proof {
            assert(blocks_model(branch@)[0].hash == bh);
            assert(in_blocks(branch@, bh));
            assert forall|h: Seq<u8>| #![trigger old(self).settled(h)] old(self).settled(h) implies self.settled(h)
                || in_blocks(branch@, h) by {
                assert(self.canon() == old(self).canon());
            }
        }
        let root = branch.len() - 1;
        let k = match self.find_canonical(&branch[root].header.previous_hash) {
            Some(k) => k,
            None => {
                let ghost bm = branch@;
                self.store_side(branch);
                proof {
                    assert forall|h: Seq<u8>| #![trigger old(self).settled(h)] old(self).settled(h) implies self.settled(h) by {
                        if in_blocks(bm, h) {
                            assert(store_has(blocks_model(bm), h));
                        }
                    }
                    assert(store_has(blocks_model(bm), bh));
                }
                return BlockOutcome::SideChain;
            },
        };
        let side_work = Self::total_difficulty(&branch, 0);
        let n = self.canonical.len();
        assert(k < n);
        let canonical_work = Self::total_difficulty(&self.canonical, k + 1);
        let ghost br = branch_of(old(self).side_blocks(), bmod);
        assert(blocks_model(branch@).subrange(0, branch@.len() as int) =~= br);
        assert(side_work == work(br));
        assert(self.canon() == oc);
        assert(k == first_index(oc, br[br.len() - 1].previous_hash));
        assert(canonical_work == work(oc.subrange(k + 1, oc.len() as int)));
        if side_work <= canonical_work {
            let ghost bm = branch@;
            self.store_side(branch);
            assert(self.canon() == oc);
            proof {
                assert forall|h: Seq<u8>| #![trigger old(self).settled(h)] old(self).settled(h) implies self.settled(h) by {
                    if in_blocks(bm, h) {
                        assert(store_has(blocks_model(bm), h));
                    }
                }
                assert(store_has(blocks_model(bm), bh));
            }
            return BlockOutcome::SideChain;
        }
        let ghost bm = branch@;
        let ghost pre = self.canon();
        let ghost pre_side = self.side_blocks();
        let ghost before_reorganize = *self;
        let r = self.reorganize(pool, branch, k);
        proof {
            assert(before_reorganize.canon() == oc);
            assert(before_reorganize.reorgs@ == old(self).reorgs@);
            assert(blocks_model(bm) == br);
            assert(oc.last() == before_reorganize.tip());
            assert(in_blocks(bm, bh));
            assert forall|h: Seq<u8>| #![trigger old(self).settled(h)] old(self).settled(h) implies self.settled(h) by {
                assert(store_has(pre, h) || store_has(pre_side, h) || in_blocks(bm, h));
            }
        }
        r
    }

    /// Admits a block whose parent is known: on top of the tip if it fits the
    /// chain, or else into the side-chain store, followed by fork choice.
    fn attach(&mut self, pool: &mut MemoryPool, block: Block) -> (r: BlockOutcome)
        requires
            old(self).consistent(old(pool)),
        ensures
            final(self).consistent(final(pool)),
            final(self).canon()[0] == old(self).canon()[0],
            final(self).orphans@ == old(self).orphans@,
            block@.previous_hash == old(self).tip().hash && fits_chain(old(self).canon(), block@) ==> {
                &&& r == BlockOutcome::Accepted
                &&& final(self).canon() == old(self).canon().push(block@)
            },
            block@.previous_hash == old(self).tip().hash && !fits_chain(old(self).canon(), block@) ==> {
                &&& r == BlockOutcome::Rejected(RejectReason::Invalid)
                &&& *final(self) == *old(self)
                &&& *final(pool) == *old(pool)
            },
            block@.previous_hash != old(self).tip().hash ==> r == BlockOutcome::Accepted || r
                == BlockOutcome::SideChain,
            block@.previous_hash != old(self).tip().hash ==> fork_choice_result(*old(self), *final(self), block@, r),
            block@.previous_hash == old(self).tip().hash ==> final(self).reorgs@ == old(self).reorgs@,
            forall|h: Seq<u8>| #![trigger old(self).settled(h)] old(self).settled(h) ==> final(self).settled(h),
            r == BlockOutcome::Accepted || r == BlockOutcome::SideChain ==> final(self).settled(block@.hash),
    {
        if self.tip_is(&block.header.previous_hash) {
            if check_fits_chain(&self.canonical, &block) {
                self.extend(pool, block);
                BlockOutcome::Accepted
            } else {
                BlockOutcome::Rejected(RejectReason::Invalid)
            }
        } else {
            self.fork_choice(pool, block)
        }
    }

    /// The index of an orphan whose parent has the given hash.
    fn find_child(&self, parent: &Vec<u8>) -> (r: Option<usize>)
        ensures
            match r {
                Some(i) => i < self.orphans@.len() && self.orphan_blocks()[i as int].previous_hash == parent@,
                None => forall|i: int|
                    0 <= i < self.orphans@.len() ==> #[trigger] self.orphan_blocks()[i].previous_hash != parent@,
            },
    {
        let mut i: usize = 0;
        while i < self.orphans.len()
            invariant
                i <= self.orphans@.len(),
                forall|k: int| 0 <= k < i ==> #[trigger] self.orphan_blocks()[k].previous_hash != parent@,
            decreases self.orphans@.len() - i,
        {
            if bytes_eq(&self.orphans[i].header.previous_hash, parent) {
                return Some(i);
            }
            i = i + 1;
        }
        None
    }

    /// Admits, one after the other, the orphans that descend from the block
    /// with hash `h`.
    fn replay_orphans(&mut self, pool: &mut MemoryPool, h: Vec<u8>, now: i64)
        requires
            old(self).consistent(old(pool)),
        ensures
            final(self).consistent(final(pool)),
            final(self).canon()[0] == old(self).canon()[0],
            forall|h: Seq<u8>| #![trigger old(self).settled(h)] old(self).settled(h) ==> final(self).settled(h),
            no_orphan_child(*old(self), h@) ==> *final(self) == *old(self) && *final(pool) == *old(pool),
    {
        if self.find_child(&h).is_none() {
            return;
        }
        let ghost g = self.canon()[0];
        let mut pending: Vec<Vec<u8>> = Vec::new();
        pending.push(h);
        while pending.len() > 0
            invariant
                self.consistent(pool),
                self.canon()[0] == g,
                forall|h: Seq<u8>| #![trigger old(self).settled(h)] old(self).settled(h) ==> self.settled(h),
            decreases 2 * self.orphans@.len() + pending@.len(),
        {
            let parent = pending.pop().unwrap();
            let ghost bound = 2 * self.orphans@.len() + pending@.len();
            loop
                invariant
                    self.consistent(pool),
                    self.canon()[0] == g,
                    2 * self.orphans@.len() + pending@.len() <= bound,
                    forall|h: Seq<u8>| #![trigger old(self).settled(h)] old(self).settled(h) ==> self.settled(h),
                decreases self.orphans@.len(),
            {
                match self.find_child(&parent) {
                    Some(i) => {
                        let ghost pre_c = self.canon();
                        let ghost pre_s = self.side_blocks();
                        let orphan = self.orphans.remove(i);
                        assert(self.canon() == pre_c && self.side_blocks() == pre_s);
                        if check_structure(&orphan, now) {
                            let child = copy_bytes(&orphan.hash);
                            let ghost snap = *self;
                            let r = self.attach(pool, orphan);
                            assert forall|h: Seq<u8>| #![trigger old(self).settled(h)] old(self).settled(h) implies self.settled(h) by {
                                assert(snap.settled(h));
                            }
                            if r == BlockOutcome::Accepted || r == BlockOutcome::SideChain {
                                pending.push(child);
                            }
                        }
                    },
                    None => {
                        break ;
                    },
                }
            }
        }
    }

    /// Receives a block from a peer or from the local miner.
    ///
    /// A known block is a duplicate; one that breaks a rule of its own is
    /// invalid. A block whose parent is unknown waits in the orphan store. A
    /// block on top of the tip extends the canonical chain if none of its
    /// transactions is on the chain already or spends what the chain spent;
    /// any other block with a known parent goes to the side-chain store and
    /// may make its branch canonical. After a block is admitted, the orphans
    /// that descend from it are admitted in turn.
    pub fn receive_block(&mut self, pool: &mut MemoryPool, block: Block, now: i64) -> (r: BlockOutcome)
        requires
            old(self).consistent(old(pool)),
        ensures
            admission_result(*old(self), *old(pool), *final(self), *final(pool), block, now, r),
    {
        if self.is_known(&block.hash) {
            return BlockOutcome::Rejected(RejectReason::Duplicate);
        }
        if !check_structure(&block, now) {
            return BlockOutcome::Rejected(RejectReason::Invalid);
        }
        if !self.is_known(&block.header.previous_hash) {
            self.orphans.push(block);
            return BlockOutcome::Orphan;
        }
        let h = copy_bytes(&block.hash);
        let ghost bh = block@.hash;
        let ghost bmod = block@;
        let ghost before = *self;
        let r = self.attach(pool, block);
        let ghost mid = *self;
        assert(mid.orphans@ == before.orphans@);
        if r == BlockOutcome::Accepted || r == BlockOutcome::SideChain {
            let ghost mid_c = self.canon();
            let ghost mid_s = self.side_blocks();
            assert(self.settled(bh));
            self.replay_orphans(pool, h, now);
            assert(no_orphan_child(before, bh) ==> no_orphan_child(mid, bh));
            assert(store_has(mid_c, bh) || store_has(mid_s, bh));
            assert forall|x: Seq<u8>| #![trigger old(self).settled(x)] old(self).settled(x) implies self.settled(x) by {
                assert(store_has(mid_c, x) || store_has(mid_s, x));
            }
        }
        r
    }

    /// The block with this hash, from whichever store holds it, the
    /// canonical chain first.
    pub fn get_block(&self, h: &Vec<u8>) -> (r: Option<&Block>)
        ensures
            match r {
                Some(b) => b@.hash == h@,
                None => !self.knows(h@),
            },
    {
        if let Some(i) = Self::find(&self.canonical, h) {
            return Some(&self.canonical[i]);
        }
        if let Some(i) = Self::find(&self.side, h) {
            return Some(&self.side[i]);
        }
        if let Some(i) = Self::find(&self.orphans, h) {
            return Some(&self.orphans[i]);
        }
        None
    }

    fn tip_is(&self, h: &Vec<u8>) -> (r: bool)
        requires
            self.wf(),
        ensures
            r == (self.tip().hash == h@),
    {
        bytes_eq(&self.canonical[self.canonical.len() - 1].hash, h)
    }
}

/// Checks the rules that a block must meet on its own.
pub fn check_structure(b: &Block, now: i64) -> (r: bool)
    ensures
        r == valid_structure(b@, now),
{
    if now <= i64::MAX - MAX_FUTURE_MILLIS && b.header.time > now + MAX_FUTURE_MILLIS {
        return false;
    }
    let n = b.transactions.len();
    let mut i: usize = 0;
    while i < n
        invariant
            n == b.transactions.len(),
            i <= n,
            forall|a: int, c: int|
                0 <= a < i && 0 <= c < n && a != c ==> #[trigger] b@.transactions[a].id != #[trigger] b@.transactions[c].id,
            forall|a: int| 1 <= a < i ==> #[trigger] b@.transactions[a].value_balance >= 0,
        decreases n - i,
    {
        if i >= 1 && b.transactions[i].value_balance < 0 {
            assert(b@.transactions[i as int].value_balance < 0);
            return false;
        }
        let mut j: usize = 0;
        while j < n
            invariant
                n == b.transactions.len(),
                i < n,
                j <= n,
                forall|c: int| 0 <= c < j && c != i ==> b@.transactions[i as int].id != #[trigger] b@.transactions[c].id,
            decreases n - j,
        {
            if j != i && bytes_eq(&b.transactions[i].id, &b.transactions[j].id) {
                assert(b@.transactions[i as int].id == b@.transactions[j as int].id);
                return false;
            }
            j = j + 1;
        }
        i = i + 1;
    }
    true
}

/// Checks that none of the block's transactions is on the chain already or
/// spends what the chain has spent.
pub fn check_fits_chain(c: &Vec<Block>, b: &Block) -> (r: bool)
    ensures
        r == fits_chain(blocks_model(c@), b@),
{
    let mut j: usize = 0;
    while j < b.transactions.len()
        invariant
            j <= b.transactions.len(),
            forall|k: int|
                #![trigger b@.transactions[k]]
                0 <= k < j ==> !chain_has_id(blocks_model(c@), b@.transactions[k].id) && !conflicts_with_chain(
                    blocks_model(c@),
                    b@.transactions[k],
                ),
        decreases b.transactions.len() - j,
    {
        if chain_contains_id(c, &b.transactions[j].id) {
            assert(chain_has_id(blocks_model(c@), b@.transactions[j as int].id));
            return false;
        }
        if chain_conflicts(c, &b.transactions[j]) {
            assert(b@.transactions[j as int] == b.transactions@[j as int]@);
            assert(conflicts_with_chain(blocks_model(c@), b@.transactions[j as int]));
            return false;
        }
        j = j + 1;
    }
    true
}

} // verus!
