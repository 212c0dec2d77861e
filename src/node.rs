//! The node's decisions: what to do with what peers send, and whom to tell.
//! The caller performs the returned messages; this module sends nothing.
use vstd::prelude::*;

use crate::address::SocketAddress;
use crate::block::{chain_has_id, conflicts_with_chain, Block, BlockModel, Transaction};
use crate::bytes::copy_bytes;
use crate::chain::{admission_result, store_has, BlockOutcome, Ledger};
use crate::codec::{blobs_model, Payload, PayloadModel};
use crate::environment::Environment;
use crate::handshake::Version;
use crate::memory_pool::{offer_all, pool_conflicts, pool_has_id, Entry, EntryModel, MemoryPool};
use crate::peer_book::{follows_state_machine, PeerBook};
use crate::peer_info::{bump8, overdue, valid_transition, PeerInfo, PeerStatus, MAX_FAILURES};

verus! {

/// `hashes` answers `locator`: they are the hashes of the canonical blocks
/// from index `start` on, as many as there are up to `MAX_SYNC_HASHES`,
/// where the block below `start` is genesis or holds a locator hash.
pub open spec fn sync_answer(canon: Seq<BlockModel>, locator: Seq<Seq<u8>>, start: int, hashes: Seq<Seq<u8>>) -> bool {
    &&& 1 <= start <= canon.len()
    &&& (start == 1 || locator.contains(canon[start - 1].hash))
    &&& start + hashes.len() <= canon.len()
    &&& hashes == canon.subrange(start, start + hashes.len()).map_values(|b: BlockModel| b.hash)
    &&& (hashes.len() == MAX_SYNC_HASHES || start + hashes.len() == canon.len())
}

/// The pool entries that a list of transactions is offered as: each with
/// the length of its bytes.
pub open spec fn entries_of(txs: Seq<Transaction>) -> Seq<EntryModel> {
    txs.map_values(|t: Transaction| EntryModel { size_in_bytes: t.data@.len() as usize, transaction: t@ })
}

/// The two books hold the same record, or none, for `x`.
pub open spec fn same_entry(b1: Map<SocketAddress, PeerInfo>, b0: Map<SocketAddress, PeerInfo>, x: SocketAddress) -> bool {
    b1.contains_key(x) == b0.contains_key(x) && (b0.contains_key(x) ==> b1[x] == b0[x])
}

/// A connection attempt may start with `t`: it is not this node, and it
/// is neither connecting nor connected.
pub open spec fn dialable(book: Map<SocketAddress, PeerInfo>, local: SocketAddress, t: SocketAddress) -> bool {
    t != local && !(book.contains_key(t) && (book[t].status == PeerStatus::Connecting || book[t].status
        == PeerStatus::Connected))
}

/// The message is a `Version` for a connecting peer, with its nonce.
pub open spec fn version_matches(book: Map<SocketAddress, PeerInfo>, m: Message, height: u32, port: u16) -> bool {
    &&& book.contains_key(m.receiver)
    &&& book[m.receiver].status == PeerStatus::Connecting
    &&& book[m.receiver].handshake_nonce is Some
    &&& m.payload@ == (PayloadModel::Version {
        nonce: book[m.receiver].handshake_nonce->Some_0,
        block_height: height,
        listener_port: port,
    })
}

/// Every message is a `Version` for a connecting peer, with its nonce.
pub open spec fn only_versions(book: Map<SocketAddress, PeerInfo>, msgs: Seq<Message>, height: u32, port: u16) -> bool {
    forall|a: int| 0 <= a < msgs.len() ==> version_matches(book, #[trigger] msgs[a], height, port)
}

/// `t` is connecting, and a `Version` with its nonce is addressed to it.
pub open spec fn dialed(book: Map<SocketAddress, PeerInfo>, msgs: Seq<Message>, t: SocketAddress, height: u32, port: u16) -> bool {
    &&& book.contains_key(t)
    &&& book[t].status == PeerStatus::Connecting
    &&& book[t].handshake_nonce is Some
    &&& exists|a: int|
        0 <= a < msgs.len() && #[trigger] msgs[a].receiver == t && msgs[a].payload@ == (PayloadModel::Version {
            nonce: book[t].handshake_nonce->Some_0,
            block_height: height,
            listener_port: port,
        })
}

/// A round of connection attempts from `before` to `after`: each wanted
/// address that may be dialled is connecting with a `Version` of its nonce
/// among `msgs`, every message is such a `Version`, and no other record
/// changes.
pub open spec fn dial_round(
    before: Map<SocketAddress, PeerInfo>,
    after: Map<SocketAddress, PeerInfo>,
    msgs: Seq<Message>,
    wanted: spec_fn(SocketAddress) -> bool,
    local: SocketAddress,
    height: u32,
    port: u16,
) -> bool {
    &&& forall|t: SocketAddress| wanted(t) && #[trigger] dialable(before, local, t) ==> dialed(after, msgs, t, height, port)
    &&& only_versions(after, msgs, height, port)
    &&& forall|x: SocketAddress| !(wanted(x) && dialable(before, local, x)) ==> #[trigger] same_entry(after, before, x)
}

/// A round of connection attempts moves each peer along the state machine.
proof fn lemma_dial_follows(
    before: Map<SocketAddress, PeerInfo>,
    after: Map<SocketAddress, PeerInfo>,
    msgs: Seq<Message>,
    wanted: spec_fn(SocketAddress) -> bool,
    local: SocketAddress,
    height: u32,
    port: u16,
)
    requires
        dial_round(before, after, msgs, wanted, local, height, port),
    ensures
        follows_state_machine(before, after),
{
    assert forall|a: SocketAddress| #[trigger] after.contains_key(a) implies if before.contains_key(a) {
        valid_transition(before[a].status, after[a].status)
    } else {
        valid_transition(PeerStatus::NeverConnected, after[a].status)
    } by {
        if wanted(a) && dialable(before, local, a) {
            assert(dialed(after, msgs, a, height, port));
        } else {
            assert(same_entry(after, before, a));
        }
    }
}

/// Two rounds of connection attempts make one round over both sets of
/// wanted addresses.
proof fn lemma_dial_compose(
    before: Map<SocketAddress, PeerInfo>,
    mid: Map<SocketAddress, PeerInfo>,
    after: Map<SocketAddress, PeerInfo>,
    m1: Seq<Message>,
    m2: Seq<Message>,
    w1: spec_fn(SocketAddress) -> bool,
    w2: spec_fn(SocketAddress) -> bool,
    local: SocketAddress,
    height: u32,
    port: u16,
)
    requires
        dial_round(before, mid, m1, w1, local, height, port),
        dial_round(mid, after, m2, w2, local, height, port),
    ensures
        dial_round(before, after, m1 + m2, |t: SocketAddress| w1(t) || w2(t), local, height, port),
{
    let m = m1 + m2;
    assert forall|t: SocketAddress| (w1(t) || w2(t)) && #[trigger] dialable(before, local, t) implies dialed(after, m, t, height, port) by {
        if w1(t) {
            assert(dialed(mid, m1, t, height, port));
            assert(!dialable(mid, local, t));
            assert(same_entry(after, mid, t));
            let a = choose|a: int| 0 <= a < m1.len() && #[trigger] m1[a].receiver == t && m1[a].payload@ == (PayloadModel::Version {
                nonce: mid[t].handshake_nonce->Some_0,
                block_height: height,
                listener_port: port,
            });
            assert(m[a] == m1[a]);
        } else {
            assert(same_entry(mid, before, t));
            assert(dialable(mid, local, t));
            assert(dialed(after, m2, t, height, port));
            let a = choose|a: int| 0 <= a < m2.len() && #[trigger] m2[a].receiver == t && m2[a].payload@ == (PayloadModel::Version {
                nonce: after[t].handshake_nonce->Some_0,
                block_height: height,
                listener_port: port,
            });
            assert(m[m1.len() + a] == m2[a]);
        }
    }
    assert forall|a: int| 0 <= a < m.len() implies version_matches(after, #[trigger] m[a], height, port) by {
        if a < m1.len() {
            assert(m[a] == m1[a]);
            assert(version_matches(mid, m1[a], height, port));
            assert(!dialable(mid, local, m1[a].receiver));
            assert(same_entry(after, mid, m1[a].receiver));
        } else {
            assert(m[a] == m2[a - m1.len()]);
            assert(version_matches(after, m2[a - m1.len()], height, port));
        }
    }
    assert forall|x: SocketAddress| !((w1(x) || w2(x)) && dialable(before, local, x)) implies #[trigger] same_entry(after, before, x) by {
        assert(same_entry(mid, before, x));
        assert(same_entry(after, mid, x));
    }
}

/// A target that is passed over, or that the book refuses, changes nothing
/// that the attempts so far have established.
proof fn lemma_not_dialed_again(
    cur: Map<SocketAddress, PeerInfo>,
    book0: Map<SocketAddress, PeerInfo>,
    out: Seq<Message>,
    targets: Seq<SocketAddress>,
    i: int,
    local: SocketAddress,
    height: u32,
)
    requires
        0 <= i < targets.len(),
        !dialable(cur, local, targets[i]),
        forall|k: int|
            0 <= k < i && dialable(book0, local, #[trigger] targets[k]) ==> dialed(cur, out, targets[k], height, local.port),
        forall|x: SocketAddress| !(visited(targets, i, x) && dialable(book0, local, x)) ==> #[trigger] same_entry(cur, book0, x),
    ensures
        forall|k: int|
            0 <= k < i + 1 && dialable(book0, local, #[trigger] targets[k]) ==> dialed(cur, out, targets[k], height, local.port),
        forall|x: SocketAddress|
            !(visited(targets, i + 1, x) && dialable(book0, local, x)) ==> #[trigger] same_entry(cur, book0, x),
{
    let t = targets[i];
    if dialable(book0, local, t) {
        if !visited(targets, i, t) {
            assert(same_entry(cur, book0, t));
        } else {
            let k = choose|k: int| 0 <= k < i && targets[k] == t;
            assert(dialed(cur, out, targets[k], height, local.port));
        }
    }
    assert forall|x: SocketAddress| !(visited(targets, i + 1, x) && dialable(book0, local, x)) implies #[trigger] same_entry(cur, book0, x) by {
        if visited(targets, i, x) {
            let k = choose|k: int| 0 <= k < i && targets[k] == x;
            assert(visited(targets, i + 1, x)) by {
                assert(0 <= k < i + 1);
            }
        }
        if x == t && dialable(book0, local, x) {
            assert(visited(targets, i + 1, x)) by {
                assert(targets[i] == x);
            }
        }
    }
}

/// Some of the first `i` addresses is `x`.
pub open spec fn visited(addresses: Seq<SocketAddress>, i: int, x: SocketAddress) -> bool {
    exists|k: int| 0 <= k < i && addresses[k] == x
}

/// How long a pong may be awaited, in milliseconds: one sync interval.
pub open spec fn keepalive_window(sync_interval: u64) -> u64 {
    if sync_interval > u64::MAX / 1000 {
        u64::MAX
    } else {
        (sync_interval * 1000) as u64
    }
}

/// A connected peer whose pong is overdue.
pub open spec fn charged(book: Map<SocketAddress, PeerInfo>, x: SocketAddress, now: i64, window: u64) -> bool {
    is_connected_in(book, x) && overdue(book[x], now, window)
}

/// The peer was charged one failure; it was returned and disconnected
/// exactly when its failures now exceed `MAX_FAILURES`, and stays
/// connected otherwise.
pub open spec fn keepalive_done(
    after: Map<SocketAddress, PeerInfo>,
    before: Map<SocketAddress, PeerInfo>,
    dropped: Seq<SocketAddress>,
    x: SocketAddress,
) -> bool {
    &&& after.contains_key(x)
    &&& after[x].quality.failures == bump8(before[x].quality.failures)
    &&& after[x].quality.failures > MAX_FAILURES ==> after[x].status == PeerStatus::Disconnected && dropped.contains(x)
    &&& after[x].quality.failures <= MAX_FAILURES ==> after[x].status == PeerStatus::Connected && !dropped.contains(x)
}

/// The peer is in the book and disconnected.
pub open spec fn is_disconnected_in(book: Map<SocketAddress, PeerInfo>, x: SocketAddress) -> bool {
    book.contains_key(x) && book[x].status == PeerStatus::Disconnected
}

/// The peer is in the book and connected.
pub open spec fn is_connected_in(book: Map<SocketAddress, PeerInfo>, x: SocketAddress) -> bool {
    book.contains_key(x) && book[x].status == PeerStatus::Connected
}

/// The most hashes that one `Sync` answer holds.
pub const MAX_SYNC_HASHES: usize = 250;

/// The protocol version that this node announces.
pub const PROTOCOL_VERSION: u64 = 1;

/// A payload addressed to a peer.
#[derive(Debug)]
pub struct Message {
    pub receiver: SocketAddress,
    pub payload: Payload,
}

/// Some message is addressed to `x`.
pub open spec fn sent_to(msgs: Seq<Message>, x: SocketAddress) -> bool {
    exists|i: int| 0 <= i < msgs.len() && #[trigger] msgs[i].receiver == x
}

/// The peer was last heard from more than three sync intervals (given in
/// seconds) before `now` (in milliseconds).
pub open spec fn needs_ping(p: PeerInfo, now: i64, sync_interval: u64) -> bool {
    match p.quality.last_seen {
        Some(t) => now - t > 3000 * sync_interval,
        None => false,
    }
}

/// The peers that an item received from `source` is relayed to: every
/// connected peer but the source and the node itself.
pub open spec fn relay_to(connected: Seq<SocketAddress>, source: SocketAddress, local: SocketAddress, x: SocketAddress) -> bool {
    connected.contains(x) && x != source && x != local
}

/// Relays `payload` bytes to every listed peer but `source` and `local`, once each.
fn relay(
    connected: &Vec<SocketAddress>,
    source: SocketAddress,
    local: SocketAddress,
    bytes: &Vec<u8>,
    as_block: bool,
) -> (r: Vec<Message>)
    requires
        connected@.no_duplicates(),
    ensures
        forall|x: SocketAddress|
            relay_to(connected@, source, local, x) <==> sent_to(r@, x),
        forall|i: int, j: int| 0 <= i < j < r@.len() ==> #[trigger] r@[i].receiver != #[trigger] r@[j].receiver,
        forall|i: int|
            0 <= i < r@.len() ==> #[trigger] r@[i].payload@ == (if as_block {
                PayloadModel::Block(bytes@)
            } else {
                PayloadModel::Transaction(bytes@)
            }),
{
    let mut out: Vec<Message> = Vec::new();
    let ghost mut idx: Seq<int> = Seq::empty();
    let mut i: usize = 0;
    while i < connected.len()
        invariant
            connected@.no_duplicates(),
            i <= connected@.len(),
            idx.len() == out@.len(),
            forall|a: int| 0 <= a < idx.len() ==> 0 <= #[trigger] idx[a] < i,
            forall|a: int| 0 <= a < idx.len() ==> #[trigger] out@[a].receiver == connected@[idx[a]],
            forall|a: int, b: int| 0 <= a < b < idx.len() ==> #[trigger] idx[a] < #[trigger] idx[b],
            forall|a: int| 0 <= a < idx.len() ==> connected@[#[trigger] idx[a]] != source && connected@[idx[a]] != local,
            forall|j: int|
                0 <= j < i && connected@[j] != source && connected@[j] != local ==> exists|a: int|
                    0 <= a < idx.len() && #[trigger] idx[a] == j,
            forall|a: int|
                0 <= a < out@.len() ==> #[trigger] out@[a].payload@ == (if as_block {
                    PayloadModel::Block(bytes@)
                } else {
                    PayloadModel::Transaction(bytes@)
                }),
        decreases connected@.len() - i,
    {
        let x = connected[i];
        let ghost old_idx = idx;
        if x != source && x != local {
            let data = copy_bytes(bytes);
            let payload = if as_block {
                Payload::Block(data)
            } else {
                Payload::Transaction(data)
            };
            out.push(Message { receiver: x, payload });
            proof {
                idx = idx.push(i as int);
            }
        }
        proof {
            assert forall|j: int|
                0 <= j < i + 1 && connected@[j] != source && connected@[j] != local implies exists|a: int|
                0 <= a < idx.len() && #[trigger] idx[a] == j by {
                if j < i {
                    let a = choose|a: int| 0 <= a < old_idx.len() && #[trigger] old_idx[a] == j;
                    assert(idx[a] == j);
                } else {
                    assert(idx[idx.len() - 1] == j);
                }
            }
        }
        i = i + 1;
    }
    assert forall|x: SocketAddress|
        relay_to(connected@, source, local, x) <==> sent_to(out@, x) by {
        if relay_to(connected@, source, local, x) {
            let j = choose|j: int| 0 <= j < connected@.len() && connected@[j] == x;
            let a = choose|a: int| 0 <= a < idx.len() && #[trigger] idx[a] == j;
            assert(out@[a].receiver == x);
        }
        if sent_to(out@, x) {
            let a = choose|a: int| 0 <= a < out@.len() && #[trigger] out@[a].receiver == x;
            assert(connected@[idx[a]] == x);
        }
    }
    assert forall|a: int, b: int| 0 <= a < b < out@.len() implies #[trigger] out@[a].receiver != #[trigger] out@[b].receiver by {
        assert(idx[a] < idx[b]);
    }
    out
}

/// A node: its settings, its ledger, its memory pool and its peer book.
pub struct Node {
    pub environment: Environment,
    pub ledger: Ledger,
    pub memory_pool: MemoryPool,
    pub peer_book: PeerBook,
}

impl Node {
    pub open spec fn wf(&self) -> bool {
        &&& self.ledger.consistent(&self.memory_pool)
        &&& self.peer_book.wf()
        &&& self.peer_book.local_address == self.environment.local_address
    }

    /// A node whose chain is the genesis block alone.
    pub fn new(environment: Environment, genesis: Block) -> (r: Node)
        ensures
            r.wf(),
            r.ledger.canon() == seq![genesis@],
            r.memory_pool@.len() == 0,
            r.peer_book@.len() == 0,
    {
        let local = environment.local_address;
        let ledger = Ledger::new(genesis);
        let memory_pool = MemoryPool::new();
        assert(memory_pool@ =~= Seq::empty());
        Node { environment, ledger, memory_pool, peer_book: PeerBook::new(local) }
    }

    /// Relays an accepted block to every connected peer but the one it came
    /// from and this node, once each.
    pub fn propagate_block(&self, block_bytes: &Vec<u8>, block_miner: SocketAddress) -> (r: Vec<Message>)
        requires
            self.wf(),
        ensures
            forall|x: SocketAddress|
                (self.peer_book@.contains_key(x) && self.peer_book@[x].status == PeerStatus::Connected && x != block_miner
                    && x != self.environment.local_address) <==> sent_to(r@, x),
            forall|i: int, j: int| 0 <= i < j < r@.len() ==> #[trigger] r@[i].receiver != #[trigger] r@[j].receiver,
            forall|i: int| 0 <= i < r@.len() ==> #[trigger] r@[i].payload@ == PayloadModel::Block(block_bytes@),
    {
        let connected = self.peer_book.connected_peers();
        let r = relay(&connected, block_miner, self.environment.local_address, block_bytes, true);
        assert forall|x: SocketAddress|
            (self.peer_book@.contains_key(x) && self.peer_book@[x].status == PeerStatus::Connected && x != block_miner
                && x != self.environment.local_address) <==> sent_to(r@, x) by {
            assert(relay_to(connected@, block_miner, self.environment.local_address, x) <==> (
            self.peer_book@.contains_key(x) && self.peer_book@[x].status == PeerStatus::Connected && x != block_miner
                && x != self.environment.local_address));
        }
        r
    }

    /// Relays an accepted transaction to every connected peer but its sender
    /// and this node, once each.
    pub fn propagate_transaction(&self, transaction_bytes: &Vec<u8>, transaction_sender: SocketAddress) -> (r: Vec<
        Message,
    >)
        requires
            self.wf(),
        ensures
            forall|x: SocketAddress|
                (self.peer_book@.contains_key(x) && self.peer_book@[x].status == PeerStatus::Connected && x
                    != transaction_sender && x != self.environment.local_address) <==> sent_to(r@, x),
            forall|i: int, j: int| 0 <= i < j < r@.len() ==> #[trigger] r@[i].receiver != #[trigger] r@[j].receiver,
            forall|i: int| 0 <= i < r@.len() ==> #[trigger] r@[i].payload@ == PayloadModel::Transaction(transaction_bytes@),
    {
        let connected = self.peer_book.connected_peers();
        let r = relay(&connected, transaction_sender, self.environment.local_address, transaction_bytes, false);
        assert forall|x: SocketAddress|
            (self.peer_book@.contains_key(x) && self.peer_book@[x].status == PeerStatus::Connected && x
                != transaction_sender && x != self.environment.local_address) <==> sent_to(r@, x) by {
            assert(relay_to(connected@, transaction_sender, self.environment.local_address, x) <==> (
            self.peer_book@.contains_key(x) && self.peer_book@[x].status == PeerStatus::Connected && x
                != transaction_sender && x != self.environment.local_address));
        }
        r
    }

    /// A peer sent a transaction. `verified` is the verdict of the proof
    /// checks on it. A verified transaction that the pool takes is relayed to
    /// every connected peer but the source and this node, once each.
    pub fn received_transaction(&mut self, source: SocketAddress, transaction: Transaction, verified: bool) -> (r: Vec<
        Message,
    >)
        requires
            old(self).wf(),
        ensures
            final(self).wf(),
            final(self).ledger == old(self).ledger,
            final(self).peer_book == old(self).peer_book,
            !verified || transaction.value_balance < 0 ==> r@.len() == 0 && final(self).memory_pool@ == old(self).memory_pool@,
            ({
                let id = transaction.id@;
                let accepted = verified && transaction.value_balance >= 0 && !pool_has_id(old(self).memory_pool@, id)
                    && !chain_has_id(old(self).ledger.canon(), id) && !conflicts_with_chain(
                    old(self).ledger.canon(),
                    transaction@,
                ) && !pool_conflicts(old(self).memory_pool@, transaction@);
                &&& accepted ==> {
                    &&& final(self).memory_pool@ == old(self).memory_pool@.push(
                        EntryModel { size_in_bytes: transaction.data@.len() as usize, transaction: transaction@ },
                    )
                    &&& pool_has_id(final(self).memory_pool@, id)
                    &&& forall|x: SocketAddress|
                        (old(self).peer_book@.contains_key(x) && old(self).peer_book@[x].status == PeerStatus::Connected
                            && x != source && x != old(self).environment.local_address) <==> sent_to(r@, x)
                    &&& forall|i: int, j: int|
                        0 <= i < j < r@.len() ==> #[trigger] r@[i].receiver != #[trigger] r@[j].receiver
                    &&& forall|i: int| 0 <= i < r@.len() ==> #[trigger] r@[i].payload@ == PayloadModel::Transaction(transaction.data@)
                }
                &&& !accepted ==> r@.len() == 0 && final(self).memory_pool@ == old(self).memory_pool@
            }),
    {
        if !verified || transaction.is_coinbase() {
            return Vec::new();
        }
        let bytes = copy_bytes(&transaction.data);
        let size = transaction.data.len();
        let entry = Entry { size_in_bytes: size, transaction };
        match self.memory_pool.insert(&self.ledger.canonical, entry) {
            Ok(Some(_)) => {
                proof {
                    let p = self.memory_pool@;
                    assert(pool_has_id(p, p[p.len() - 1].transaction.id));
                }
                let r = self.propagate_transaction(&bytes, source);
                r
            },
            _ => Vec::new(),
        }
    }

    /// A peer (or the local miner, as `source` = this node) sent a block,
    /// with its encoding `bytes`. A block that lands on the canonical chain
    /// is relayed to every connected peer but the source and this node.
    pub fn received_block(&mut self, source: SocketAddress, block: Block, bytes: &Vec<u8>, now: i64) -> (r: (
        BlockOutcome,
        Vec<Message>,
    ))
        requires
            old(self).wf(),
        ensures
            final(self).wf(),
            final(self).peer_book == old(self).peer_book,
            final(self).environment == old(self).environment,
            admission_result(old(self).ledger, old(self).memory_pool, final(self).ledger, final(self).memory_pool, block, now, r.0),
            r.0 != BlockOutcome::Accepted ==> r.1@.len() == 0,
            r.0 == BlockOutcome::Accepted ==> {
                &&& forall|x: SocketAddress|
                    (old(self).peer_book@.contains_key(x) && old(self).peer_book@[x].status == PeerStatus::Connected
                        && x != source && x != old(self).environment.local_address) <==> sent_to(r.1@, x)
                &&& forall|i: int, j: int| 0 <= i < j < r.1@.len() ==> #[trigger] r.1@[i].receiver != #[trigger] r.1@[j].receiver
                &&& forall|i: int| 0 <= i < r.1@.len() ==> #[trigger] r.1@[i].payload@ == PayloadModel::Block(bytes@)
            },
    {
        let outcome = self.ledger.receive_block(&mut self.memory_pool, block, now);
        if outcome == BlockOutcome::Accepted {
            let messages = self.propagate_block(bytes, source);
            (outcome, messages)
        } else {
            (outcome, Vec::new())
        }
    }

    /// A peer asked for the memory pool: the encodings of the pooled
    /// transactions in insertion order, or nothing when the pool is empty.
    pub fn received_get_memory_pool(&self, remote: SocketAddress) -> (r: Option<Message>)
        ensures
            self.memory_pool@.len() == 0 ==> r is None,
            self.memory_pool@.len() > 0 ==> r is Some && r->Some_0.receiver == remote && r->Some_0.payload@
                == PayloadModel::MemoryPool(self.memory_pool@.map_values(|e: crate::memory_pool::EntryModel| e.transaction.data)),
    {
        let mut txs: Vec<Vec<u8>> = Vec::new();
        let mut i: usize = 0;
        while i < self.memory_pool.entries.len()
            invariant
                i <= self.memory_pool@.len(),
                blobs_model(txs@) == self.memory_pool@.take(i as int).map_values(
                    |e: crate::memory_pool::EntryModel| e.transaction.data,
                ),
            decreases self.memory_pool@.len() - i,
        {
            let ghost before = txs@;
            txs.push(copy_bytes(&self.memory_pool.entries[i].transaction.data));
            assert(self.memory_pool@[i as int].transaction.data == self.memory_pool.entries@[i as int].transaction.data@);
            assert(blobs_model(txs@) =~= blobs_model(before).push(self.memory_pool@[i as int].transaction.data));
            assert(self.memory_pool@.take(i + 1) =~= self.memory_pool@.take(i as int).push(self.memory_pool@[i as int]));
            assert(blobs_model(txs@) =~= self.memory_pool@.take(i + 1).map_values(
                |e: crate::memory_pool::EntryModel| e.transaction.data,
            ));
            i = i + 1;
        }
        assert(self.memory_pool@.take(self.memory_pool@.len() as int) =~= self.memory_pool@);
        if txs.len() == 0 {
            None
        } else {
            Some(Message { receiver: remote, payload: Payload::MemoryPool(txs) })
        }
    }

    /// A peer sent its memory pool: each transaction is offered to the pool,
    /// then the pool drops what the chain has made invalid.
    pub fn received_memory_pool(&mut self, transactions: Vec<Transaction>)
        requires
            old(self).wf(),
        ensures
            final(self).wf(),
            final(self).ledger == old(self).ledger,
            final(self).peer_book == old(self).peer_book,
            ({
                let c = old(self).ledger.canon();
                let offered = offer_all(old(self).memory_pool@, c, entries_of(transactions@));
                &&& forall|id: Seq<u8>| #[trigger] pool_has_id(final(self).memory_pool@, id) ==> pool_has_id(offered, id)
                &&& forall|i: int|
                    0 <= i < offered.len() ==> (#[trigger] pool_has_id(final(self).memory_pool@, offered[i].transaction.id)
                        <==> (!chain_has_id(c, offered[i].transaction.id) && !conflicts_with_chain(c, offered[i].transaction)))
            }),
    {
        let ghost c = self.ledger.canon();
        let ghost start = self.memory_pool@;
        let mut i: usize = 0;
        while i < transactions.len()
            invariant
                self.wf(),
                self.ledger == old(self).ledger,
                self.peer_book == old(self).peer_book,
                c == self.ledger.canon(),
                i <= transactions@.len(),
                self.memory_pool@ == offer_all(start, c, entries_of(transactions@).take(i as int)),
            decreases transactions@.len() - i,
        {
            let tx = transactions[i].copy();
            let size = tx.data.len();
            let entry = Entry { size_in_bytes: size, transaction: tx };
            proof {
                let es = entries_of(transactions@);
                assert(es.take(i + 1).drop_last() =~= es.take(i as int));
                assert(es.take(i + 1).last() == entry@);
            }
            let _ = self.memory_pool.insert(&self.ledger.canonical, entry);
            i = i + 1;
        }
        assert(entries_of(transactions@).take(transactions@.len() as int) =~= entries_of(transactions@));
        self.memory_pool.cleanse(&self.ledger.canonical);
    }

    /// Asks every connected peer for more peers.
    pub fn broadcast_getpeers_requests(&self) -> (r: Vec<Message>)
        requires
            self.wf(),
        ensures
            forall|x: SocketAddress|
                (self.peer_book@.contains_key(x) && self.peer_book@[x].status == PeerStatus::Connected) <==> sent_to(r@, x),
            forall|i: int| 0 <= i < r@.len() ==> #[trigger] r@[i].payload@ == PayloadModel::GetPeers,
    {
        let connected = self.peer_book.connected_peers();
        let mut out: Vec<Message> = Vec::new();
        let mut i: usize = 0;
        while i < connected.len()
            invariant
                i <= connected@.len(),
                out@.len() == i,
                forall|a: int| 0 <= a < i ==> #[trigger] out@[a].receiver == connected@[a],
                forall|a: int| 0 <= a < i ==> #[trigger] out@[a].payload@ == PayloadModel::GetPeers,
            decreases connected@.len() - i,
        {
            out.push(Message { receiver: connected[i], payload: Payload::GetPeers });
            i = i + 1;
        }
        assert forall|x: SocketAddress|
            (self.peer_book@.contains_key(x) && self.peer_book@[x].status == PeerStatus::Connected) <==> sent_to(out@, x) by {
            if connected@.contains(x) {
                let a = choose|a: int| 0 <= a < connected@.len() && connected@[a] == x;
                assert(out@[a].receiver == x);
            }
            if sent_to(out@, x) {
                let a = choose|a: int| 0 <= a < out@.len() && #[trigger] out@[a].receiver == x;
                assert(connected@[a] == x);
            }
        }
        out
    }

    /// Starts a connection attempt with each listed address that is neither
    /// this node nor connected: the peer is set to connecting with a fresh
    /// nonce, and a `Version` is addressed to it.
    fn connect_to(&mut self, targets: &Vec<SocketAddress>, height: u32) -> (r: Vec<Message>)
        requires
            old(self).wf(),
        ensures
            final(self).wf(),
            final(self).ledger == old(self).ledger,
            final(self).memory_pool == old(self).memory_pool,
            final(self).environment == old(self).environment,
            forall|i: int| 0 <= i < r@.len() ==> #[trigger] r@[i].receiver != old(self).environment.local_address,
            forall|t: SocketAddress|
                targets@.contains(t) && #[trigger] dialable(old(self).peer_book@, old(self).environment.local_address, t)
                    ==> dialed(final(self).peer_book@, r@, t, height, old(self).environment.local_address.port),
            only_versions(final(self).peer_book@, r@, height, old(self).environment.local_address.port),
            forall|x: SocketAddress|
                !(targets@.contains(x) && dialable(old(self).peer_book@, old(self).environment.local_address, x))
                    ==> #[trigger] same_entry(final(self).peer_book@, old(self).peer_book@, x),
            dial_round(
                old(self).peer_book@,
                final(self).peer_book@,
                r@,
                |t: SocketAddress| targets@.contains(t),
                old(self).environment.local_address,
                height,
                old(self).environment.local_address.port,
            ),
            follows_state_machine(old(self).peer_book@, final(self).peer_book@),
    {
        let local = self.environment.local_address;
        let ghost book0 = self.peer_book@;
        let mut out: Vec<Message> = Vec::new();
        let mut i: usize = 0;
        while i < targets.len()
            invariant
                self.wf(),
                self.environment == old(self).environment,
                self.ledger == old(self).ledger,
                self.memory_pool == old(self).memory_pool,
                local == self.environment.local_address,
                book0 == old(self).peer_book@,
                i <= targets@.len(),
                forall|a: int| 0 <= a < out@.len() ==> #[trigger] out@[a].receiver != local,
                forall|k: int|
                    0 <= k < i && dialable(book0, local, #[trigger] targets@[k]) ==> dialed(
                        self.peer_book@,
                        out@,
                        targets@[k],
                        height,
                        local.port,
                    ),
                only_versions(self.peer_book@, out@, height, local.port),
                forall|x: SocketAddress|
                    !(visited(targets@, i as int, x) && dialable(book0, local, x)) ==> #[trigger] same_entry(
                        self.peer_book@,
                        book0,
                        x,
                    ),
            decreases targets@.len() - i,
        {
            let target = targets[i];
            let ghost cur = self.peer_book@;
            let ghost before_out = out@;
            if target != local && !self.peer_book.is_connected(target) {
                let version = Version::new_with_rng(PROTOCOL_VERSION, height, local, target);
                if self.peer_book.set_connecting(target, version.nonce).is_ok() {
                    out.push(
                        Message {
                            receiver: target,
                            payload: Payload::Version {
                                nonce: version.nonce,
                                block_height: height,
                                listener_port: local.port,
                            },
                        },
                    );
                    proof {
                        // The target was not dialled before: it was neither
                        // connecting nor connected.
                        if visited(targets@, i as int, target) {
                            let k = choose|k: int| 0 <= k < i && targets@[k] == target;
                            if dialable(book0, local, target) {
                                assert(dialed(cur, before_out, targets@[k], height, local.port));
                            } else {
                                assert(same_entry(cur, book0, target));
                            }
                        }
                        assert(same_entry(cur, book0, target));
                        assert(dialable(book0, local, target));
                        assert(out@[out@.len() - 1].receiver == target);
                        assert forall|a: int| 0 <= a < out@.len() implies #[trigger] out@[a].receiver != local by {
                            if a < before_out.len() {
                                assert(out@[a] == before_out[a]);
                            }
                        }
                        assert(only_versions(self.peer_book@, out@, height, local.port)) by {
                            assert forall|a: int| 0 <= a < out@.len() implies version_matches(self.peer_book@, #[trigger] out@[a], height, local.port) by {
                                if a < before_out.len() {
                                    assert(out@[a] == before_out[a]);
                                    assert(version_matches(cur, before_out[a], height, local.port));
                                    assert(before_out[a].receiver != target);
                                }
                            }
                        }
                        assert forall|k: int|
                            0 <= k < i + 1 && dialable(book0, local, #[trigger] targets@[k]) implies dialed(
                            self.peer_book@,
                            out@,
                            targets@[k],
                            height,
                            local.port,
                        ) by {
                            if k < i {
                                assert(dialed(cur, before_out, targets@[k], height, local.port));
                                assert(targets@[k] != target);
                                let a = choose|a: int| 0 <= a < before_out.len() && #[trigger] before_out[a].receiver == targets@[k]
                                    && before_out[a].payload@ == (PayloadModel::Version {
                                    nonce: cur[targets@[k]].handshake_nonce->Some_0,
                                    block_height: height,
                                    listener_port: local.port,
                                });
                                assert(out@[a] == before_out[a]);
                            } else {
                                let a = out@.len() - 1;
                                assert(out@[a].receiver == targets@[k]);
                            }
                        }
                        assert forall|x: SocketAddress|
                            !(visited(targets@, i + 1, x) && dialable(book0, local, x)) implies #[trigger] same_entry(
                            self.peer_book@,
                            book0,
                            x,
                        ) by {
                            if x == target {
                                assert(visited(targets@, i + 1, x)) by {
                                    assert(targets@[i as int] == x);
                                }
                            } else {
                                if visited(targets@, i as int, x) {
                                    let k = choose|k: int| 0 <= k < i && targets@[k] == x;
                                    assert(visited(targets@, i + 1, x)) by {
                                        assert(0 <= k < i + 1);
                                    }
                                }
                                assert(same_entry(cur, book0, x));
                            }
                        }
                    }
                } else {
                    proof {
                        lemma_not_dialed_again(cur, book0, before_out, targets@, i as int, local, height);
                    }
                }
            } else {
                proof {
                    lemma_not_dialed_again(cur, book0, before_out, targets@, i as int, local, height);
                }
            }
            i = i + 1;
        }
        proof {
            assert forall|t: SocketAddress|
                targets@.contains(t) && #[trigger] dialable(book0, local, t) implies dialed(self.peer_book@, out@, t, height, local.port) by {
                let k = choose|k: int| 0 <= k < targets@.len() && targets@[k] == t;
            }
            assert forall|x: SocketAddress|
                !(targets@.contains(x) && dialable(book0, local, x)) implies #[trigger] same_entry(self.peer_book@, book0, x) by {
                if visited(targets@, targets@.len() as int, x) {
                    let k = choose|k: int| 0 <= k < targets@.len() && targets@[k] == x;
                    assert(targets@.contains(x));
                }
            }
        }
        proof {
            lemma_dial_follows(book0, self.peer_book@, out@, |t: SocketAddress| targets@.contains(t), local, height, local.port);
        }
        out
    }

    /// Connection attempts with the bootnodes.
    pub fn connect_to_bootnodes(&mut self, height: u32) -> (r: Vec<Message>)
        requires
            old(self).wf(),
        ensures
            final(self).wf(),
            final(self).ledger == old(self).ledger,
            final(self).memory_pool == old(self).memory_pool,
            final(self).environment == old(self).environment,
            forall|i: int| 0 <= i < r@.len() ==> #[trigger] r@[i].receiver != old(self).environment.local_address,
            dial_round(
                old(self).peer_book@,
                final(self).peer_book@,
                r@,
                |t: SocketAddress| old(self).environment.bootnodes@.contains(t),
                old(self).environment.local_address,
                height,
                old(self).environment.local_address.port,
            ),
            follows_state_machine(old(self).peer_book@, final(self).peer_book@),
    {
        let mut targets: Vec<SocketAddress> = Vec::new();
        let mut i: usize = 0;
        while i < self.environment.bootnodes.len()
            invariant
                i <= self.environment.bootnodes@.len(),
                targets@ == self.environment.bootnodes@.take(i as int),
            decreases self.environment.bootnodes@.len() - i,
        {
            targets.push(self.environment.bootnodes[i]);
            assert(self.environment.bootnodes@.take(i + 1) =~= self.environment.bootnodes@.take(i as int).push(
                self.environment.bootnodes@[i as int],
            ));
            i = i + 1;
        }
        assert(targets@ =~= self.environment.bootnodes@);
        self.connect_to(&targets, height)
    }

    /// Connection attempts with the disconnected peers of the book.
    pub fn connect_to_disconnected_peers(&mut self, height: u32) -> (r: Vec<Message>)
        requires
            old(self).wf(),
        ensures
            final(self).wf(),
            final(self).ledger == old(self).ledger,
            final(self).memory_pool == old(self).memory_pool,
            final(self).environment == old(self).environment,
            dial_round(
                old(self).peer_book@,
                final(self).peer_book@,
                r@,
                |t: SocketAddress| is_disconnected_in(old(self).peer_book@, t),
                old(self).environment.local_address,
                height,
                old(self).environment.local_address.port,
            ),
            follows_state_machine(old(self).peer_book@, final(self).peer_book@),
    {
        let targets = self.peer_book.disconnected_peers();
        let ghost book0 = self.peer_book@;
        let r = self.connect_to(&targets, height);
        assert forall|t: SocketAddress| targets@.contains(t) == is_disconnected_in(book0, t) by {}
        assert((|t: SocketAddress| targets@.contains(t)) =~= (|t: SocketAddress| is_disconnected_in(book0, t)));
        r
    }

    /// One round of peer sync. When fewer peers than the minimum are
    /// connected: `GetPeers` to every connected peer, then a connection
    /// attempt with each disconnected peer and each bootnode that is neither
    /// this node nor connecting or connected. Otherwise nothing happens.
    pub fn update(&mut self, height: u32) -> (r: Vec<Message>)
        requires
            old(self).wf(),
        ensures
            final(self).wf(),
            final(self).ledger == old(self).ledger,
            final(self).memory_pool == old(self).memory_pool,
            final(self).environment == old(self).environment,
            old(self).peer_book@.dom().filter(|x: SocketAddress| old(self).peer_book@[x].status == PeerStatus::Connected).len()
                >= old(self).environment.minimum_number_of_connected_peers ==> r@.len() == 0 && final(self).peer_book
                == old(self).peer_book,
            old(self).peer_book@.dom().filter(|x: SocketAddress| old(self).peer_book@[x].status == PeerStatus::Connected).len()
                < old(self).environment.minimum_number_of_connected_peers ==> exists|g: Seq<Message>, d: Seq<Message>|
                {
                    &&& r@ == g + d
                    &&& forall|x: SocketAddress| is_connected_in(old(self).peer_book@, x) <==> #[trigger] sent_to(g, x)
                    &&& forall|a: int| 0 <= a < g.len() ==> #[trigger] g[a].payload@ == PayloadModel::GetPeers
                    &&& dial_round(
                        old(self).peer_book@,
                        final(self).peer_book@,
                        d,
                        |t: SocketAddress| is_disconnected_in(old(self).peer_book@, t) || old(self).environment.bootnodes@.contains(t),
                        old(self).environment.local_address,
                        height,
                        old(self).environment.local_address.port,
                    )
                },
            follows_state_machine(old(self).peer_book@, final(self).peer_book@),
    {
        let mut out: Vec<Message> = Vec::new();
        if self.peer_book.number_of_connected_peers() < self.environment.minimum_number_of_connected_peers as usize {
            let ghost book0 = self.peer_book@;
            let mut getpeers = self.broadcast_getpeers_requests();
            let ghost g = getpeers@;
            out.append(&mut getpeers);
            let mut dials = self.connect_to_disconnected_peers(height);
            let ghost book1 = self.peer_book@;
            let ghost d1 = dials@;
            let mut boots = self.connect_to_bootnodes(height);
            let ghost d2 = boots@;
            proof {
                let local = self.environment.local_address;
                lemma_dial_compose(book0, book1, self.peer_book@, d1, d2,
                    |t: SocketAddress| is_disconnected_in(book0, t),
                    |t: SocketAddress| self.environment.bootnodes@.contains(t),
                    local, height, local.port);
                assert forall|x: SocketAddress| is_connected_in(book0, x) <==> #[trigger] sent_to(g, x) by {}
            }
            out.append(&mut dials);
            out.append(&mut boots);
            assert(out@ =~= g + (d1 + d2));
            let ghost w1 = |t: SocketAddress| is_disconnected_in(book0, t);
            let ghost w2 = |t: SocketAddress| self.environment.bootnodes@.contains(t);
            assert((|t: SocketAddress| w1(t) || w2(t)) =~= (|t: SocketAddress| is_disconnected_in(book0, t)
                || self.environment.bootnodes@.contains(t)));
            assert(dial_round(
                book0,
                self.peer_book@,
                d1 + d2,
                |t: SocketAddress| is_disconnected_in(book0, t) || self.environment.bootnodes@.contains(t),
                self.environment.local_address,
                height,
                self.environment.local_address.port,
            ));
            proof {
                lemma_dial_follows(book0, self.peer_book@, d1 + d2,
                    |t: SocketAddress| is_disconnected_in(book0, t) || self.environment.bootnodes@.contains(t),
                    self.environment.local_address, height, self.environment.local_address.port);
            }
        }
        out
    }

    /// Pings every connected peer that has not been heard from for more than
    /// three sync intervals.
    pub fn broadcast_ping_requests(&self, now: i64, height: u32) -> (r: Vec<Message>)
        requires
            self.wf(),
        ensures
            forall|x: SocketAddress|
                (self.peer_book@.contains_key(x) && self.peer_book@[x].status == PeerStatus::Connected && needs_ping(
                    self.peer_book@[x],
                    now,
                    self.environment.sync_interval,
                )) <==> sent_to(r@, x),
            forall|i: int| 0 <= i < r@.len() ==> #[trigger] r@[i].payload@ == PayloadModel::Ping(height),
    {
        let connected = self.peer_book.connected_peers();
        let mut out: Vec<Message> = Vec::new();
        let mut i: usize = 0;
        while i < connected.len()
            invariant
                self.wf(),
                i <= connected@.len(),
                forall|x: SocketAddress| connected@.contains(x) <==> (self.peer_book@.contains_key(x) && self.peer_book@[x].status == PeerStatus::Connected),
                forall|x: SocketAddress|
                    sent_to(out@, x) <==> exists|j: int|
                        0 <= j < i && #[trigger] connected@[j] == x && needs_ping(self.peer_book@[x], now, self.environment.sync_interval),
                forall|a: int| 0 <= a < out@.len() ==> #[trigger] out@[a].payload@ == PayloadModel::Ping(height),
            decreases connected@.len() - i,
        {
            let x = connected[i];
            assert(connected@.contains(x));
            let peer = self.peer_book.get(x).unwrap();
            let stale = match peer.quality.last_seen {
                Some(t) => (now as i128) - (t as i128) > 3000 * (self.environment.sync_interval as i128),
                None => false,
            };
            let ghost before = out@;
            if stale {
                out.push(Message { receiver: x, payload: Payload::Ping(height) });
            }
            assert forall|y: SocketAddress|
                sent_to(out@, y) <==> exists|j: int|
                    0 <= j < i + 1 && #[trigger] connected@[j] == y && needs_ping(self.peer_book@[y], now, self.environment.sync_interval) by {
                if sent_to(out@, y) {
                    let a = choose|a: int| 0 <= a < out@.len() && #[trigger] out@[a].receiver == y;
                    if a < before.len() {
                        assert(before[a] == out@[a]);
                        assert(sent_to(before, y));
                    }
                }
                if exists|j: int| 0 <= j < i + 1 && #[trigger] connected@[j] == y && needs_ping(self.peer_book@[y], now, self.environment.sync_interval) {
                    let j = choose|j: int| 0 <= j < i + 1 && #[trigger] connected@[j] == y && needs_ping(self.peer_book@[y], now, self.environment.sync_interval);
                    if j < i {
                        assert(sent_to(before, y));
                        let a = choose|a: int| 0 <= a < before.len() && #[trigger] before[a].receiver == y;
                        assert(out@[a] == before[a]);
                    } else {
                        assert(out@[out@.len() - 1].receiver == y);
                    }
                }
            }
            i = i + 1;
        }
        assert forall|x: SocketAddress|
            (self.peer_book@.contains_key(x) && self.peer_book@[x].status == PeerStatus::Connected && needs_ping(
                self.peer_book@[x],
                now,
                self.environment.sync_interval,
            )) <==> sent_to(out@, x) by {
            if connected@.contains(x) {
                let j = choose|j: int| 0 <= j < connected@.len() && connected@[j] == x;
                assert(connected@[j] == x);
            }
        }
        out
    }

    /// Startup: connection attempts with the bootnodes and, unless this
    /// node is a bootnode, with the disconnected peers of the book.
    pub fn initialize(&mut self, height: u32) -> (r: Vec<Message>)
        requires
            old(self).wf(),
        ensures
            final(self).wf(),
            final(self).ledger == old(self).ledger,
            final(self).memory_pool == old(self).memory_pool,
            final(self).environment == old(self).environment,
            dial_round(
                old(self).peer_book@,
                final(self).peer_book@,
                r@,
                |t: SocketAddress| old(self).environment.bootnodes@.contains(t) || (!old(self).environment.is_bootnode
                    && is_disconnected_in(old(self).peer_book@, t)),
                old(self).environment.local_address,
                height,
                old(self).environment.local_address.port,
            ),
            follows_state_machine(old(self).peer_book@, final(self).peer_book@),
    {
        let ghost book0 = self.peer_book@;
        let ghost local = self.environment.local_address;
        let ghost boots = self.environment.bootnodes@;
        let ghost is_boot = self.environment.is_bootnode;
        let mut out = self.connect_to_bootnodes(height);
        let ghost book1 = self.peer_book@;
        let ghost m1 = out@;
        if !self.environment.is_bootnode {
            let mut more = self.connect_to_disconnected_peers(height);
            proof {
                lemma_dial_compose(book0, book1, self.peer_book@, m1, more@,
                    |t: SocketAddress| boots.contains(t),
                    |t: SocketAddress| is_disconnected_in(book1, t),
                    local, height, local.port);
                assert forall|t: SocketAddress|
                    (boots.contains(t) || is_disconnected_in(book1, t)) == (boots.contains(t) || (!is_boot
                        && is_disconnected_in(book0, t))) by {
                    if !(boots.contains(t) && dialable(book0, local, t)) {
                        assert(same_entry(book1, book0, t));
                    }
                    if boots.contains(t) && dialable(book0, local, t) {
                    }
                }
                assert((|t: SocketAddress| (|t: SocketAddress| boots.contains(t))(t) || (|t: SocketAddress| is_disconnected_in(book1, t))(t))
                    =~= (|t: SocketAddress| boots.contains(t) || (!is_boot && is_disconnected_in(book0, t))));
            }
            let ghost m2 = more@;
            out.append(&mut more);
            assert(out@ =~= m1 + m2);
        } else {
            assert((|t: SocketAddress| boots.contains(t)) =~= (|t: SocketAddress| boots.contains(t) || (!is_boot
                && is_disconnected_in(book0, t))));
        }
        proof {
            lemma_dial_follows(book0, self.peer_book@, out@, |t: SocketAddress| boots.contains(t) || (!is_boot
                && is_disconnected_in(book0, t)), local, height, local.port);
        }
        out
    }

    /// Asks the sync node, if there is one, for its memory pool.
    pub fn update_transactions(&self, sync_node: Option<SocketAddress>) -> (r: Option<Message>)
        ensures
            match sync_node {
                Some(a) => r is Some && r->Some_0.receiver == a && r->Some_0.payload@ == PayloadModel::GetMemoryPool,
                None => r is None,
            },
    {
        match sync_node {
            Some(a) => Some(Message { receiver: a, payload: Payload::GetMemoryPool }),
            None => None,
        }
    }

    /// Sends each connected peer a `Version` with the nonce of its
    /// handshake, once each; a connected peer without a nonce is
    /// disconnected. No other record changes.
    pub fn broadcast_version_requests(&mut self, height: u32) -> (r: Vec<Message>)
        requires
            old(self).wf(),
        ensures
            final(self).wf(),
            final(self).ledger == old(self).ledger,
            final(self).memory_pool == old(self).memory_pool,
            final(self).environment == old(self).environment,
            forall|i: int|
                0 <= i < r@.len() ==> is_connected_in(old(self).peer_book@, #[trigger] r@[i].receiver) && old(
                    self,
                ).peer_book@[r@[i].receiver].handshake_nonce is Some && r@[i].payload@ == (PayloadModel::Version {
                    nonce: old(self).peer_book@[r@[i].receiver].handshake_nonce->Some_0,
                    block_height: height,
                    listener_port: old(self).environment.local_address.port,
                }),
            forall|i: int, j: int| 0 <= i < j < r@.len() ==> #[trigger] r@[i].receiver != #[trigger] r@[j].receiver,
            forall|x: SocketAddress|
                #[trigger] is_connected_in(old(self).peer_book@, x) && old(self).peer_book@[x].handshake_nonce is Some
                    ==> sent_to(r@, x),
            forall|x: SocketAddress|
                #[trigger] is_connected_in(old(self).peer_book@, x) && old(self).peer_book@[x].handshake_nonce is None
                    ==> final(self).peer_book@.contains_key(x) && final(self).peer_book@[x].status
                    == PeerStatus::Disconnected,
            forall|x: SocketAddress|
                !(is_connected_in(old(self).peer_book@, x) && old(self).peer_book@[x].handshake_nonce is None) ==> #[trigger] same_entry(final(self).peer_book@, old(self).peer_book@, x),
            follows_state_machine(old(self).peer_book@, final(self).peer_book@),
    {
        let local = self.environment.local_address;
        let connected = self.peer_book.connected_peers();
        let ghost book0 = self.peer_book@;
        let mut out: Vec<Message> = Vec::new();
        let mut i: usize = 0;
        while i < connected.len()
            invariant
                self.wf(),
                self.environment == old(self).environment,
                self.ledger == old(self).ledger,
                self.memory_pool == old(self).memory_pool,
                book0 == old(self).peer_book@,
                local == self.environment.local_address,
                i <= connected@.len(),
                connected@.no_duplicates(),
                forall|x: SocketAddress| connected@.contains(x) <==> is_connected_in(book0, x),
                forall|a: int|
                    0 <= a < out@.len() ==> is_connected_in(book0, #[trigger] out@[a].receiver)
                        && book0[out@[a].receiver].handshake_nonce is Some && out@[a].payload@ == (PayloadModel::Version {
                        nonce: book0[out@[a].receiver].handshake_nonce->Some_0,
                        block_height: height,
                        listener_port: local.port,
                    }),
                forall|a: int| 0 <= a < out@.len() ==> exists|j: int| 0 <= j < i && connected@[j] == #[trigger] out@[a].receiver,
                forall|a: int, b: int| 0 <= a < b < out@.len() ==> #[trigger] out@[a].receiver != #[trigger] out@[b].receiver,
                forall|k: int|
                    0 <= k < i && book0[#[trigger] connected@[k]].handshake_nonce is Some ==> sent_to(out@, connected@[k]),
                forall|k: int|
                    0 <= k < i && book0[#[trigger] connected@[k]].handshake_nonce is None ==> self.peer_book@.contains_key(
                        connected@[k],
                    ) && self.peer_book@[connected@[k]].status == PeerStatus::Disconnected,
                forall|x: SocketAddress|
                    !(is_connected_in(book0, x) && book0[x].handshake_nonce is None) ==> #[trigger] same_entry(self.peer_book@, book0, x),
                forall|x: SocketAddress|
                    !visited(connected@, i as int, x) ==> #[trigger] same_entry(self.peer_book@, book0, x),
            decreases connected@.len() - i,
        {
            let remote = connected[i];
            assert(connected@.contains(remote));
            assert(is_connected_in(book0, remote));
            assert(!visited(connected@, i as int, remote)) by {
                assert forall|k: int| 0 <= k < i implies connected@[k] != remote by {
                    assert(connected@[k] != connected@[i as int]);
                }
            }
            let ghost before_out = out@;
            let ghost before_book = self.peer_book@;
            assert(same_entry(before_book, book0, remote));
            match self.peer_book.handshake(remote) {
                Ok(nonce) => {
                    out.push(
                        Message {
                            receiver: remote,
                            payload: Payload::Version { nonce, block_height: height, listener_port: local.port },
                        },
                    );
                    proof {
                        assert forall|x: SocketAddress|
                            !visited(connected@, i + 1, x) implies #[trigger] same_entry(self.peer_book@, book0, x) by {
                            if visited(connected@, i as int, x) {
                                let k = choose|k: int| 0 <= k < i && connected@[k] == x;
                                assert(0 <= k < i + 1 && connected@[k] == x);
                            }
                        }
                        assert forall|a: int| 0 <= a < out@.len() implies exists|j: int| 0 <= j < i + 1 && connected@[j] == #[trigger] out@[a].receiver by {
                            if a < before_out.len() {
                                assert(out@[a] == before_out[a]);
                                let j = choose|j: int| 0 <= j < i && connected@[j] == before_out[a].receiver;
                                assert(connected@[j] == out@[a].receiver);
                            } else {
                                assert(connected@[i as int] == out@[a].receiver);
                            }
                        }
                        assert forall|a: int, b: int| 0 <= a < b < out@.len() implies #[trigger] out@[a].receiver != #[trigger] out@[b].receiver by {
                            if b == out@.len() - 1 {
                                assert(out@[a] == before_out[a]);
                                let j = choose|j: int| 0 <= j < i && connected@[j] == before_out[a].receiver;
                                assert(connected@[j] != connected@[i as int]);
                            } else {
                                assert(out@[a] == before_out[a]);
                                assert(out@[b] == before_out[b]);
                            }
                        }
                        assert forall|k: int|
                            0 <= k < i + 1 && book0[#[trigger] connected@[k]].handshake_nonce is Some implies sent_to(out@, connected@[k]) by {
                            if k < i {
                                let a = choose|a: int| 0 <= a < before_out.len() && #[trigger] before_out[a].receiver == connected@[k];
                                assert(out@[a] == before_out[a]);
                            } else {
                                assert(out@[out@.len() - 1].receiver == connected@[k]);
                            }
                        }
                        assert forall|a: int| 0 <= a < out@.len() implies is_connected_in(book0, #[trigger] out@[a].receiver)
                            && book0[out@[a].receiver].handshake_nonce is Some && out@[a].payload@ == (PayloadModel::Version {
                            nonce: book0[out@[a].receiver].handshake_nonce->Some_0,
                            block_height: height,
                            listener_port: local.port,
                        }) by {
                            if a < before_out.len() {
                                assert(out@[a] == before_out[a]);
                            }
                        }
                    }
                },
                Err(_) => {
                    assert(before_book.contains_key(remote) && before_book[remote] == book0[remote]);
                    assert(book0[remote].status == PeerStatus::Connected);
                    assert(book0[remote].handshake_nonce is None);
                    let _ = self.peer_book.set_disconnected(remote);
                    proof {
                        assert(self.peer_book@.contains_key(remote) && self.peer_book@[remote].status == PeerStatus::Disconnected);
                        assert forall|k: int|
                            0 <= k < i + 1 && book0[#[trigger] connected@[k]].handshake_nonce is Some implies sent_to(out@, connected@[k]) by {
                            if k == i {
                                assert(connected@[k] == remote);
                            }
                        }
                        assert forall|x: SocketAddress|
                            !visited(connected@, i + 1, x) implies #[trigger] same_entry(self.peer_book@, book0, x) by {
                            if connected@[i as int] == x {
                                assert(0 <= i < i + 1 && connected@[i as int] == x);
                            }
                            if visited(connected@, i as int, x) {
                                let k = choose|k: int| 0 <= k < i && connected@[k] == x;
                                assert(0 <= k < i + 1 && connected@[k] == x);
                            }
                            assert(same_entry(before_book, book0, x));
                            assert(self.peer_book@.dom().contains(x) == before_book.dom().contains(x));
                        }
                        assert forall|x: SocketAddress|
                            !(is_connected_in(book0, x) && book0[x].handshake_nonce is None) implies #[trigger] same_entry(self.peer_book@, book0, x) by {
                            assert(x != remote);
                            assert(self.peer_book@.dom().contains(x) == before_book.dom().contains(x));
                            assert(same_entry(before_book, book0, x));
                        }
                        assert forall|k: int|
                            0 <= k < i + 1 && book0[#[trigger] connected@[k]].handshake_nonce is None implies self.peer_book@.contains_key(
                                connected@[k],
                            ) && self.peer_book@[connected@[k]].status == PeerStatus::Disconnected by {
                            if k < i {
                                assert(connected@[k] != remote);
                            }
                        }
                    }
                },
            }
            i = i + 1;
        }
        proof {
            assert forall|a: SocketAddress| #[trigger] self.peer_book@.contains_key(a) implies if book0.contains_key(a) {
                valid_transition(book0[a].status, self.peer_book@[a].status)
            } else {
                valid_transition(PeerStatus::NeverConnected, self.peer_book@[a].status)
            } by {
                if is_connected_in(book0, a) && book0[a].handshake_nonce is None {
                } else {
                    assert(same_entry(self.peer_book@, book0, a));
                }
            }
        }
        out
    }

    /// A peer opened a handshake with `nonce`: it is answered with an
    /// acknowledgement of that nonce. If it was neither connecting nor
    /// connected (and is not this node), it is added to the book if new, set
    /// to connecting with a fresh nonce, and sent this node's `Version`, so
    /// that its acknowledgement completes the handshake on this side too.
    pub fn received_version(&mut self, source: SocketAddress, nonce: u64, height: u32) -> (r: Vec<Message>)
        requires
            old(self).wf(),
        ensures
            final(self).wf(),
            final(self).ledger == old(self).ledger,
            final(self).memory_pool == old(self).memory_pool,
            final(self).environment == old(self).environment,
            follows_state_machine(old(self).peer_book@, final(self).peer_book@),
            r@.len() >= 1,
            r@[0].receiver == source,
            r@[0].payload@ == (PayloadModel::Verack { nonce }),
            dialable(old(self).peer_book@, old(self).environment.local_address, source) ==> {
                &&& r@.len() == 2
                &&& version_matches(final(self).peer_book@, r@[1], height, old(self).environment.local_address.port)
                &&& r@[1].receiver == source
                &&& forall|x: SocketAddress| x != source ==> #[trigger] same_entry(final(self).peer_book@, old(self).peer_book@, x)
            },
            !dialable(old(self).peer_book@, old(self).environment.local_address, source) ==> r@.len() == 1
                && final(self).peer_book == old(self).peer_book,
    {
        let local = self.environment.local_address;
        let mut out: Vec<Message> = Vec::new();
        out.push(Message { receiver: source, payload: Payload::Verack { nonce } });
        let ghost book0 = self.peer_book@;
        if source != local && !self.peer_book.is_connecting(source) && !self.peer_book.is_connected(source) {
            let version = Version::new_with_rng(PROTOCOL_VERSION, height, local, source);
            let _ = self.peer_book.set_connecting(source, version.nonce);
            out.push(
                Message {
                    receiver: source,
                    payload: Payload::Version { nonce: version.nonce, block_height: height, listener_port: local.port },
                },
            );
            proof {
                assert forall|x: SocketAddress| x != source implies #[trigger] same_entry(self.peer_book@, book0, x) by {}
                assert(follows_state_machine(book0, self.peer_book@));
            }
        } else {
            proof {
                assert(follows_state_machine(self.peer_book@, self.peer_book@)) by {
                    assert forall|a: SocketAddress| #[trigger] self.peer_book@.contains_key(a) implies valid_transition(
                        self.peer_book@[a].status,
                        self.peer_book@[a].status,
                    ) by {}
                }
            }
        }
        out
    }

    /// A peer acknowledged this node's handshake: the peer is connected if
    /// the nonce is the one sent, and disconnected otherwise.
    pub fn received_verack(&mut self, source: SocketAddress, nonce: u64)
        requires
            old(self).wf(),
        ensures
            final(self).wf(),
            final(self).ledger == old(self).ledger,
            final(self).memory_pool == old(self).memory_pool,
            follows_state_machine(old(self).peer_book@, final(self).peer_book@),
            old(self).peer_book@.contains_key(source) && old(self).peer_book@[source].status == PeerStatus::Connecting
                && old(self).peer_book@[source].handshake_nonce == Some(nonce) ==> final(self).peer_book@[source].status
                == PeerStatus::Connected,
            old(self).peer_book@.contains_key(source) && old(self).peer_book@[source].status == PeerStatus::Connecting
                && old(self).peer_book@[source].handshake_nonce != Some(nonce) ==> final(self).peer_book@[source].status
                == PeerStatus::Disconnected,
    {
        if self.peer_book.set_connected(source, nonce).is_err() {
            let _ = self.peer_book.set_disconnected(source);
        }
    }

    /// A peer asked for peers: the connected ones.
    pub fn received_get_peers(&self, source: SocketAddress) -> (r: Message)
        requires
            self.wf(),
        ensures
            r.receiver == source,
            r.payload matches Payload::Peers(v) && forall|x: SocketAddress|
                v@.contains(x) <==> (self.peer_book@.contains_key(x) && self.peer_book@[x].status == PeerStatus::Connected),
    {
        let peers = self.peer_book.connected_peers();
        Message { receiver: source, payload: Payload::Peers(peers) }
    }

    /// A peer sent addresses: each new one other than this node's joins the book.
    pub fn received_peers(&mut self, addresses: &Vec<SocketAddress>)
        requires
            old(self).wf(),
        ensures
            final(self).wf(),
            final(self).ledger == old(self).ledger,
            final(self).memory_pool == old(self).memory_pool,
            forall|i: int|
                0 <= i < addresses@.len() && #[trigger] addresses@[i] != old(self).environment.local_address
                    ==> final(self).peer_book@.contains_key(addresses@[i]),
            forall|x: SocketAddress| #[trigger] old(self).peer_book@.contains_key(x) ==> final(self).peer_book@.contains_key(x),
    {
        let mut i: usize = 0;
        while i < addresses.len()
            invariant
                self.wf(),
                self.environment == old(self).environment,
                self.ledger == old(self).ledger,
                self.memory_pool == old(self).memory_pool,
                i <= addresses@.len(),
                forall|k: int|
                    0 <= k < i && #[trigger] addresses@[k] != self.environment.local_address ==> self.peer_book@.contains_key(addresses@[k]),
                forall|x: SocketAddress| #[trigger] old(self).peer_book@.contains_key(x) ==> self.peer_book@.contains_key(x),
            decreases addresses@.len() - i,
        {
            let _ = self.peer_book.add_peer(addresses[i]);
            i = i + 1;
        }
    }

    /// A peer pinged: it is answered with a pong.
    pub fn received_ping(&self, source: SocketAddress) -> (r: Message)
        ensures
            r.receiver == source,
            r.payload@ == PayloadModel::Pong,
    {
        Message { receiver: source, payload: Payload::Pong }
    }

    /// A peer answered a ping.
    pub fn received_pong(&mut self, source: SocketAddress, now: i64)
        requires
            old(self).wf(),
        ensures
            final(self).wf(),
            final(self).ledger == old(self).ledger,
            final(self).memory_pool == old(self).memory_pool,
            old(self).peer_book@.contains_key(source) ==> final(self).peer_book@[source].quality.last_seen == Some(now)
                && !final(self).peer_book@[source].quality.expecting_pong,
    {
        self.peer_book.record_pong(source, now);
    }

    /// Charges a failure to each connected peer whose pong is overdue by
    /// more than one sync interval, and returns the peers that this
    /// disconnected.
    pub fn check_keepalive(&mut self, now: i64) -> (r: Vec<SocketAddress>)
        requires
            old(self).wf(),
        ensures
            final(self).wf(),
            final(self).ledger == old(self).ledger,
            final(self).memory_pool == old(self).memory_pool,
            final(self).environment == old(self).environment,
            forall|x: SocketAddress|
                !charged(old(self).peer_book@, x, now, keepalive_window(old(self).environment.sync_interval)) ==> #[trigger] same_entry(
                    final(self).peer_book@,
                    old(self).peer_book@,
                    x,
                ),
            forall|x: SocketAddress|
                #[trigger] charged(old(self).peer_book@, x, now, keepalive_window(old(self).environment.sync_interval))
                    ==> keepalive_done(final(self).peer_book@, old(self).peer_book@, r@, x),
            forall|i: int|
                0 <= i < r@.len() ==> charged(old(self).peer_book@, #[trigger] r@[i], now, keepalive_window(old(self).environment.sync_interval)),
            follows_state_machine(old(self).peer_book@, final(self).peer_book@),
    {
        let window: u64 = if self.environment.sync_interval > u64::MAX / 1000 {
            u64::MAX
        } else {
            self.environment.sync_interval * 1000
        };
        let ghost book0 = self.peer_book@;
        let connected = self.peer_book.connected_peers();
        let mut dropped: Vec<SocketAddress> = Vec::new();
        let mut i: usize = 0;
        while i < connected.len()
            invariant
                self.wf(),
                self.environment == old(self).environment,
                self.ledger == old(self).ledger,
                self.memory_pool == old(self).memory_pool,
                book0 == old(self).peer_book@,
                window == keepalive_window(self.environment.sync_interval),
                i <= connected@.len(),
                connected@.no_duplicates(),
                forall|x: SocketAddress| connected@.contains(x) <==> is_connected_in(book0, x),
                forall|x: SocketAddress|
                    !(visited(connected@, i as int, x) && charged(book0, x, now, window)) ==> #[trigger] same_entry(
                        self.peer_book@,
                        book0,
                        x,
                    ),
                forall|k: int|
                    0 <= k < i && charged(book0, #[trigger] connected@[k], now, window) ==> keepalive_done(
                        self.peer_book@,
                        book0,
                        dropped@,
                        connected@[k],
                    ),
                forall|a: int|
                    0 <= a < dropped@.len() ==> charged(book0, #[trigger] dropped@[a], now, window) && visited(
                        connected@,
                        i as int,
                        dropped@[a],
                    ),
            decreases connected@.len() - i,
        {
            let x = connected[i];
            let ghost cur = self.peer_book@;
            let ghost before = dropped@;
            proof {
                assert(connected@.contains(x));
                assert(!visited(connected@, i as int, x)) by {
                    if visited(connected@, i as int, x) {
                        let k = choose|k: int| 0 <= k < i && connected@[k] == x;
                        assert(connected@[k] != connected@[i as int]);
                    }
                }
                assert(same_entry(cur, book0, x));
                assert(!before.contains(x)) by {
                    if before.contains(x) {
                        let a = choose|a: int| 0 <= a < before.len() && before[a] == x;
                        assert(visited(connected@, i as int, before[a]));
                    }
                }
            }
            let is_overdue = match self.peer_book.get(x) {
                Some(p) => p.pong_overdue(now, window),
                None => false,
            };
            if is_overdue {
                let drop = self.peer_book.register_failure(x);
                if drop {
                    dropped.push(x);
                }
                proof {
                    assert(charged(book0, x, now, window));
                    assert forall|y: SocketAddress| y != x implies dropped@.contains(y) == before.contains(y) by {
                        if dropped@.contains(y) {
                            let a = choose|a: int| 0 <= a < dropped@.len() && dropped@[a] == y;
                            assert(a < before.len());
                            assert(before[a] == y);
                        }
                        if before.contains(y) {
                            let a = choose|a: int| 0 <= a < before.len() && before[a] == y;
                            assert(dropped@[a] == y);
                        }
                    }
                    if drop {
                        assert(dropped@[dropped@.len() - 1] == x);
                    } else {
                        assert(dropped@ == before);
                    }
                    assert(keepalive_done(self.peer_book@, book0, dropped@, x));
                }
            }
            proof {
                assert forall|y: SocketAddress|
                    !(visited(connected@, i + 1, y) && charged(book0, y, now, window)) implies #[trigger] same_entry(
                    self.peer_book@,
                    book0,
                    y,
                ) by {
                    if visited(connected@, i as int, y) {
                        let k = choose|k: int| 0 <= k < i && connected@[k] == y;
                        assert(visited(connected@, i + 1, y)) by {
                            assert(0 <= k < i + 1);
                        }
                    }
                    if y == x {
                        assert(visited(connected@, i + 1, y)) by {
                            assert(connected@[i as int] == y);
                        }
                    }
                    assert(same_entry(cur, book0, y));
                }
                assert forall|k: int|
                    0 <= k < i + 1 && charged(book0, #[trigger] connected@[k], now, window) implies keepalive_done(
                    self.peer_book@,
                    book0,
                    dropped@,
                    connected@[k],
                ) by {
                    if k < i {
                        let y = connected@[k];
                        assert(y != x);
                        assert(keepalive_done(cur, book0, before, y));
                        assert(dropped@.contains(y) == before.contains(y)) by {
                            if dropped@.contains(y) {
                                let a = choose|a: int| 0 <= a < dropped@.len() && dropped@[a] == y;
                                if a < before.len() {
                                    assert(before[a] == y);
                                }
                            }
                            if before.contains(y) {
                                let a = choose|a: int| 0 <= a < before.len() && before[a] == y;
                                assert(dropped@[a] == y);
                            }
                        }
                    }
                }
                assert forall|a: int|
                    0 <= a < dropped@.len() implies charged(book0, #[trigger] dropped@[a], now, window) && visited(
                    connected@,
                    i + 1,
                    dropped@[a],
                ) by {
                    if a < before.len() {
                        assert(dropped@[a] == before[a]);
                        let k = choose|k: int| 0 <= k < i && connected@[k] == before[a];
                        assert(0 <= k < i + 1);
                    } else {
                        assert(connected@[i as int] == dropped@[a]);
                    }
                }
            }
            i = i + 1;
        }
        proof {
            assert forall|x: SocketAddress| #[trigger] charged(book0, x, now, window) implies keepalive_done(
                self.peer_book@,
                book0,
                dropped@,
                x,
            ) by {
                assert(connected@.contains(x));
                let k = choose|k: int| 0 <= k < connected@.len() && connected@[k] == x;
            }
        }
        proof {
            assert forall|a: SocketAddress| #[trigger] self.peer_book@.contains_key(a) implies if book0.contains_key(a) {
                valid_transition(book0[a].status, self.peer_book@[a].status)
            } else {
                valid_transition(PeerStatus::NeverConnected, self.peer_book@[a].status)
            } by {
                if charged(book0, a, now, window) {
                    assert(keepalive_done(self.peer_book@, book0, dropped@, a));
                } else {
                    assert(same_entry(self.peer_book@, book0, a));
                }
            }
        }
        dropped
    }

    /// A sparse list of canonical hashes from the tip back to genesis: the
    /// ten latest blocks, then ever larger steps back.
    pub fn block_locator(&self) -> (r: Vec<Vec<u8>>)
        requires
            self.wf(),
        ensures
            r@.len() >= 1,
            r@[0]@ == self.ledger.tip().hash,
            r@[r@.len() - 1]@ == self.ledger.canon()[0].hash,
            forall|i: int| 0 <= i < r@.len() ==> store_has(self.ledger.canon(), #[trigger] r@[i]@),
    {
        let chain = &self.ledger.canonical;
        let mut out: Vec<Vec<u8>> = Vec::new();
        let mut i: usize = chain.len() - 1;
        let mut step: usize = 1;
        while i > 0
            invariant
                chain == &self.ledger.canonical,
                self.wf(),
                i < chain@.len(),
                step >= 1,
                out@.len() == 0 ==> i == chain@.len() - 1,
                out@.len() > 0 ==> out@[0]@ == self.ledger.tip().hash,
                forall|k: int| 0 <= k < out@.len() ==> store_has(self.ledger.canon(), #[trigger] out@[k]@),
            decreases i,
        {
            let ghost before = out@;
            out.push(copy_bytes(&chain[i].hash));
            proof {
                assert(self.ledger.canon()[i as int].hash == chain@[i as int]@.hash);
                assert(store_has(self.ledger.canon(), out@[out@.len() - 1]@));
                assert forall|k: int| 0 <= k < out@.len() implies store_has(self.ledger.canon(), #[trigger] out@[k]@) by {
                    if k < before.len() {
                        assert(out@[k] == before[k]);
                    }
                }
            }
            if out.len() >= 10 && step <= usize::MAX / 2 {
                step = step * 2;
            }
            i = if i > step {
                i - step
            } else {
                0
            };
        }
        let ghost before = out@;
        out.push(copy_bytes(&chain[0].hash));
        proof {
            assert(self.ledger.canon()[0].hash == chain@[0]@.hash);
            assert(store_has(self.ledger.canon(), out@[out@.len() - 1]@));
            assert forall|k: int| 0 <= k < out@.len() implies store_has(self.ledger.canon(), #[trigger] out@[k]@) by {
                if k < before.len() {
                    assert(out@[k] == before[k]);
                }
            }
        }
        out
    }

    /// A peer sent its locator: the hashes of the canonical blocks above the
    /// first locator hash that is on this node's canonical chain (above
    /// genesis if none is), at most `MAX_SYNC_HASHES` of them.
    pub fn received_get_blocks(&self, remote: SocketAddress, locator: &Vec<Vec<u8>>) -> (r: Message)
        requires
            self.wf(),
        ensures
            r.receiver == remote,
            r.payload is Sync,
            r.payload matches Payload::Sync(v) && exists|start: int|
                #[trigger] sync_answer(self.ledger.canon(), blobs_model(locator@), start, blobs_model(v@)),
    {
        let n = self.ledger.canonical.len();
        let mut start: usize = 1;
        let mut j: usize = 0;
        while j < locator.len()
            invariant
                self.wf(),
                n == self.ledger.canonical@.len(),
                1 <= start <= self.ledger.canonical@.len(),
                start == 1 || blobs_model(locator@).contains(self.ledger.canon()[start - 1].hash),
            decreases locator@.len() - j,
        {
            match self.ledger.find_canonical(&locator[j]) {
                Some(k) => {
                    start = k + 1;
                    assert(blobs_model(locator@)[j as int] == locator@[j as int]@);
                    break ;
                },
                None => {},
            }
            j = j + 1;
        }
        let chain = &self.ledger.canonical;
        let mut hashes: Vec<Vec<u8>> = Vec::new();
        let mut i: usize = start;
        while i < chain.len() && hashes.len() < MAX_SYNC_HASHES
            invariant
                chain == &self.ledger.canonical,
                start <= i <= chain@.len(),
                hashes@.len() == i - start,
                hashes@.len() <= MAX_SYNC_HASHES,
                blobs_model(hashes@) == self.ledger.canon().subrange(start as int, i as int).map_values(|b: BlockModel| b.hash),
            decreases chain@.len() - i,
        {
            let ghost before = hashes@;
            hashes.push(copy_bytes(&chain[i].hash));
            proof {
                let c = self.ledger.canon();
                assert(c[i as int].hash == chain@[i as int]@.hash);
                assert(c.subrange(start as int, i + 1) =~= c.subrange(start as int, i as int).push(c[i as int]));
                assert(blobs_model(hashes@) =~= blobs_model(before).push(c[i as int].hash));
                assert(c.subrange(start as int, i + 1).map_values(|b: BlockModel| b.hash) =~= c.subrange(
                    start as int,
                    i as int,
                ).map_values(|b: BlockModel| b.hash).push(c[i as int].hash));
            }
            i = i + 1;
        }
        assert(sync_answer(self.ledger.canon(), blobs_model(locator@), start as int, blobs_model(hashes@)));
        let ghost hm = blobs_model(hashes@);
        assert(exists|st: int| #[trigger] sync_answer(self.ledger.canon(), blobs_model(locator@), st, hm));
        let m = Message { receiver: remote, payload: Payload::Sync(hashes) };
        assert(m.payload matches Payload::Sync(v) && blobs_model(v@) == hm);
        m
    }

    /// A peer listed the hashes it has: the unknown ones are asked for.
    pub fn received_sync(&self, remote: SocketAddress, hashes: &Vec<Vec<u8>>) -> (r: Option<Message>)
        requires
            self.wf(),
        ensures
            match r {
                Some(m) => m.receiver == remote && (m.payload matches Payload::GetSync(v) && v@.len() > 0 && (forall|a: int|
                    0 <= a < v@.len() ==> !self.ledger.knows(#[trigger] v@[a]@) && blobs_model(hashes@).contains(v@[a]@))
                    && (forall|k: int|
                    0 <= k < hashes@.len() && !self.ledger.knows(#[trigger] hashes@[k]@) ==> blobs_model(v@).contains(
                        hashes@[k]@,
                    ))),
                None => forall|k: int| 0 <= k < hashes@.len() ==> self.ledger.knows(#[trigger] hashes@[k]@),
            },
    {
        let mut wanted: Vec<Vec<u8>> = Vec::new();
        let mut i: usize = 0;
        while i < hashes.len()
            invariant
                i <= hashes@.len(),
                forall|a: int|
                    0 <= a < wanted@.len() ==> !self.ledger.knows(#[trigger] wanted@[a]@) && blobs_model(hashes@).contains(
                        wanted@[a]@,
                    ),
                forall|k: int|
                    0 <= k < i && !self.ledger.knows(#[trigger] hashes@[k]@) ==> blobs_model(wanted@).contains(hashes@[k]@),
            decreases hashes@.len() - i,
        {
            let ghost before = wanted@;
            if !self.ledger.is_known(&hashes[i]) {
                wanted.push(copy_bytes(&hashes[i]));
                proof {
                    assert(blobs_model(hashes@)[i as int] == hashes@[i as int]@);
                    assert(blobs_model(wanted@)[wanted@.len() - 1] == hashes@[i as int]@);
                    assert forall|a: int|
                        0 <= a < wanted@.len() implies !self.ledger.knows(#[trigger] wanted@[a]@) && blobs_model(
                        hashes@,
                    ).contains(wanted@[a]@) by {
                        if a < before.len() {
                            assert(wanted@[a] == before[a]);
                        }
                    }
                    assert forall|k: int|
                        0 <= k < i + 1 && !self.ledger.knows(#[trigger] hashes@[k]@) implies blobs_model(wanted@).contains(
                        hashes@[k]@,
                    ) by {
                        if k < i {
                            let a = choose|a: int| 0 <= a < blobs_model(before).len() && blobs_model(before)[a] == hashes@[k]@;
                            assert(blobs_model(wanted@)[a] == blobs_model(before)[a]);
                        }
                    }
                }
            }
            i = i + 1;
        }
        if wanted.len() == 0 {
            None
        } else {
            Some(Message { receiver: remote, payload: Payload::GetSync(wanted) })
        }
    }

    /// A peer asked for blocks by hash: those this node has, in the order
    /// asked. The caller encodes each into a `SyncBlock`.
    pub fn received_get_sync(&self, hashes: &Vec<Vec<u8>>) -> (r: Vec<&Block>)
        requires
            self.wf(),
        ensures
            forall|i: int| 0 <= i < r@.len() ==> blobs_model(hashes@).contains(#[trigger] r@[i]@.hash),
            forall|x: Seq<u8>| #[trigger] blobs_model(hashes@).contains(x) && self.ledger.knows(x) ==> exists|i: int|
                0 <= i < r@.len() && r@[i]@.hash == x,
    {
        let mut out: Vec<&Block> = Vec::new();
        let mut i: usize = 0;
        while i < hashes.len()
            invariant
                i <= hashes@.len(),
                forall|a: int| 0 <= a < out@.len() ==> blobs_model(hashes@).contains(#[trigger] out@[a]@.hash),
                forall|k: int|
                    0 <= k < i && self.ledger.knows(#[trigger] blobs_model(hashes@)[k]) ==> exists|a: int|
                        0 <= a < out@.len() && out@[a]@.hash == blobs_model(hashes@)[k],
            decreases hashes@.len() - i,
        {
            let ghost before = out@;
            match self.ledger.get_block(&hashes[i]) {
                Some(b) => {
                    out.push(b);
                    assert(blobs_model(hashes@)[i as int] == hashes@[i as int]@);
                    assert(blobs_model(hashes@).contains(b@.hash));
                    assert forall|a: int| 0 <= a < out@.len() implies blobs_model(hashes@).contains(#[trigger] out@[a]@.hash) by {
                        if a < before.len() {
                            assert(out@[a] == before[a]);
                        }
                    }
                    assert forall|k: int|
                        0 <= k < i + 1 && self.ledger.knows(#[trigger] blobs_model(hashes@)[k]) implies exists|a: int|
                        0 <= a < out@.len() && out@[a]@.hash == blobs_model(hashes@)[k] by {
                        if k < i {
                            let a = choose|a: int| 0 <= a < before.len() && before[a]@.hash == blobs_model(hashes@)[k];
                            assert(out@[a] == before[a]);
                        } else {
                            assert(out@[out@.len() - 1]@.hash == blobs_model(hashes@)[k]);
                        }
                    }
                },
                None => {
                    assert(!self.ledger.knows(blobs_model(hashes@)[i as int]));
                },
            }
            i = i + 1;
        }
        assert forall|x: Seq<u8>| #[trigger] blobs_model(hashes@).contains(x) && self.ledger.knows(x) implies exists|a: int|
            0 <= a < out@.len() && out@[a]@.hash == x by {
            let k = choose|k: int| 0 <= k < blobs_model(hashes@).len() && blobs_model(hashes@)[k] == x;
        }
        out
    }

    /// Asks the sync node for the blocks above this node's locator.
    pub fn update_blocks(&self, sync_node: Option<SocketAddress>) -> (r: Option<Message>)
        requires
            self.wf(),
        ensures
            sync_node is None ==> r is None,
            sync_node matches Some(a) ==> (r matches Some(m) && m.receiver == a && (m.payload matches Payload::GetBlocks(
                l,
            ) && l@.len() >= 1 && l@[0]@ == self.ledger.tip().hash && l@[l@.len() - 1]@ == self.ledger.canon()[0].hash
                && forall|i: int| 0 <= i < l@.len() ==> store_has(self.ledger.canon(), #[trigger] l@[i]@))),
    {
        match sync_node {
            Some(a) => Some(Message { receiver: a, payload: Payload::GetBlocks(self.block_locator()) }),
            None => None,
        }
    }
}

} // verus!
