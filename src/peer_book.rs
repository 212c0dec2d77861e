//! The peer book: what the node knows of each peer, by address.
use vstd::prelude::*;

use crate::address::SocketAddress;
use crate::error::NetworkError;
use crate::peer_info::{bump8, new_peer, valid_transition, PeerInfo, PeerQuality, PeerStatus, MAX_FAILURES};

verus! {

/// No two records share an address.
pub open spec fn unique_addresses(s: Seq<PeerInfo>) -> bool {
    forall|i: int, j: int| 0 <= i < s.len() && 0 <= j < s.len() && i != j ==> #[trigger] s[i].address != #[trigger] s[j].address
}

pub open spec fn has_address(s: Seq<PeerInfo>, a: SocketAddress) -> bool {
    exists|i: int| 0 <= i < s.len() && #[trigger] s[i].address == a
}

/// The records, as a map from address to record.
pub open spec fn as_map(s: Seq<PeerInfo>) -> Map<SocketAddress, PeerInfo> {
    Map::new(
        |a: SocketAddress| has_address(s, a),
        |a: SocketAddress| s[choose|i: int| 0 <= i < s.len() && s[i].address == a],
    )
}

/// Every peer's status moved along the state machine: a peer that was known
/// took at most one edge, and a new peer is at most one edge away from
/// `NeverConnected`.
pub open spec fn follows_state_machine(
    before: Map<SocketAddress, PeerInfo>,
    after: Map<SocketAddress, PeerInfo>,
) -> bool {
    forall|a: SocketAddress|
        #[trigger] after.contains_key(a) ==> if before.contains_key(a) {
            valid_transition(before[a].status, after[a].status)
        } else {
            valid_transition(PeerStatus::NeverConnected, after[a].status)
        }
}

proof fn lemma_index(s: Seq<PeerInfo>, i: int)
    requires
        unique_addresses(s),
        0 <= i < s.len(),
    ensures
        as_map(s).contains_key(s[i].address),
        as_map(s)[s[i].address] == s[i],
{
    let a = s[i].address;
    assert(has_address(s, a));
    let k = choose|k: int| 0 <= k < s.len() && s[k].address == a;
    assert(k == i);
}

proof fn lemma_update(s: Seq<PeerInfo>, i: int, p: PeerInfo)
    requires
        unique_addresses(s),
        0 <= i < s.len(),
        p.address == s[i].address,
    ensures
        unique_addresses(s.update(i, p)),
        as_map(s.update(i, p)) == as_map(s).insert(p.address, p),
{
    let t = s.update(i, p);
    assert forall|x: int, y: int| 0 <= x < t.len() && 0 <= y < t.len() && x != y implies #[trigger] t[x].address
        != #[trigger] t[y].address by {
        assert(s[x].address != s[y].address);
    }
    assert forall|a: SocketAddress| as_map(t).contains_key(a) <==> as_map(s).insert(p.address, p).contains_key(a) by {
        if has_address(t, a) {
            let k = choose|k: int| 0 <= k < t.len() && t[k].address == a;
            assert(s[k].address == a);
        }
        if has_address(s, a) {
            let k = choose|k: int| 0 <= k < s.len() && s[k].address == a;
            assert(t[k].address == a);
        }
    }
    assert forall|a: SocketAddress| #[trigger] as_map(t).contains_key(a) implies as_map(t)[a] == as_map(s).insert(
        p.address,
        p,
    )[a] by {
        let k = choose|k: int| 0 <= k < t.len() && t[k].address == a;
        lemma_index(t, k);
        if k != i {
            lemma_index(s, k);
        }
    }
    assert(as_map(t) =~= as_map(s).insert(p.address, p));
}

proof fn lemma_push(s: Seq<PeerInfo>, p: PeerInfo)
    requires
        unique_addresses(s),
        !has_address(s, p.address),
    ensures
        unique_addresses(s.push(p)),
        as_map(s.push(p)) == as_map(s).insert(p.address, p),
{
    let t = s.push(p);
    assert forall|x: int, y: int| 0 <= x < t.len() && 0 <= y < t.len() && x != y implies #[trigger] t[x].address
        != #[trigger] t[y].address by {
        if x < s.len() && y < s.len() {
            assert(s[x].address != s[y].address);
        } else if x < s.len() {
            assert(t[x] == s[x]);
        } else {
            assert(t[y] == s[y]);
        }
    }
    assert forall|a: SocketAddress| as_map(t).contains_key(a) <==> as_map(s).insert(p.address, p).contains_key(a) by {
        if has_address(t, a) {
            let k = choose|k: int| 0 <= k < t.len() && t[k].address == a;
            if k < s.len() {
                assert(s[k].address == a);
            }
        }
        if has_address(s, a) {
            let k = choose|k: int| 0 <= k < s.len() && s[k].address == a;
            assert(t[k].address == a);
        }
        if a == p.address {
            assert(t[s.len() as int].address == a);
        }
    }
    assert forall|a: SocketAddress| #[trigger] as_map(t).contains_key(a) implies as_map(t)[a] == as_map(s).insert(
        p.address,
        p,
    )[a] by {
        let k = choose|k: int| 0 <= k < t.len() && t[k].address == a;
        lemma_index(t, k);
        if k < s.len() {
            assert(t[k] == s[k]);
            lemma_index(s, k);
        }
    }
    assert(as_map(t) =~= as_map(s).insert(p.address, p));
}

/// The peers known to the node, with the node's own address.
pub struct PeerBook {
    pub local_address: SocketAddress,
    pub peers: Vec<PeerInfo>,
}

impl View for PeerBook {
    type V = Map<SocketAddress, PeerInfo>;

    open spec fn view(&self) -> Map<SocketAddress, PeerInfo> {
        as_map(self.peers@)
    }
}

impl PeerBook {
    pub open spec fn wf(&self) -> bool {
        &&& unique_addresses(self.peers@)
        &&& forall|a: SocketAddress| #[trigger] self@.contains_key(a) ==> self@[a].address == a
    }

    pub fn new(local_address: SocketAddress) -> (r: PeerBook)
        ensures
            r.wf(),
            r@ == Map::<SocketAddress, PeerInfo>::empty(),
            r.local_address == local_address,
    {
        let r = PeerBook { local_address, peers: Vec::new() };
        assert(r@ =~= Map::<SocketAddress, PeerInfo>::empty());
        r
    }

    fn index_of(&self, a: SocketAddress) -> (r: Option<usize>)
        requires
            self.wf(),
        ensures
            match r {
                Some(i) => i < self.peers@.len() && self.peers@[i as int].address == a && self@.contains_key(a)
                    && self@[a] == self.peers@[i as int],
                None => !self@.contains_key(a),
            },
    {
        let mut i: usize = 0;
        while i < self.peers.len()
            invariant
                self.wf(),
                i <= self.peers@.len(),
                forall|k: int| 0 <= k < i ==> #[trigger] self.peers@[k].address != a,
            decreases self.peers@.len() - i,
        {
            if self.peers[i].address == a {
                proof {
                    lemma_index(self.peers@, i as int);
                }
                return Some(i);
            }
            i = i + 1;
        }
        None
    }

    proof fn lemma_wf_after(s: Seq<PeerInfo>)
        requires
            unique_addresses(s),
        ensures
            forall|a: SocketAddress| #[trigger] as_map(s).contains_key(a) ==> as_map(s)[a].address == a,
    {
        assert forall|a: SocketAddress| #[trigger] as_map(s).contains_key(a) implies as_map(s)[a].address == a by {
            let k = choose|k: int| 0 <= k < s.len() && s[k].address == a;
            lemma_index(s, k);
        }
    }

    /// Whether the address is in the book.
    pub fn contains(&self, a: SocketAddress) -> (r: bool)
        requires
            self.wf(),
        ensures
            r == self@.contains_key(a),
    {
        self.index_of(a).is_some()
    }

    /// The record of a peer.
    pub fn get(&self, a: SocketAddress) -> (r: Option<PeerInfo>)
        requires
            self.wf(),
        ensures
            r == (if self@.contains_key(a) {
                Some(self@[a])
            } else {
                None::<PeerInfo>
            }),
    {
        match self.index_of(a) {
            Some(i) => Some(self.peers[i]),
            None => None,
        }
    }

    /// The status of a peer, if it is in the book.
    pub fn status(&self, a: SocketAddress) -> (r: Option<PeerStatus>)
        requires
            self.wf(),
        ensures
            r == (if self@.contains_key(a) {
                Some(self@[a].status)
            } else {
                None::<PeerStatus>
            }),
    {
        match self.index_of(a) {
            Some(i) => Some(self.peers[i].status),
            None => None,
        }
    }

    pub fn is_connecting(&self, a: SocketAddress) -> (r: bool)
        requires
            self.wf(),
        ensures
            r == (self@.contains_key(a) && self@[a].status == PeerStatus::Connecting),
    {
        self.status(a) == Some(PeerStatus::Connecting)
    }

    pub fn is_connected(&self, a: SocketAddress) -> (r: bool)
        requires
            self.wf(),
        ensures
            r == (self@.contains_key(a) && self@[a].status == PeerStatus::Connected),
    {
        self.status(a) == Some(PeerStatus::Connected)
    }

    pub fn is_disconnected(&self, a: SocketAddress) -> (r: bool)
        requires
            self.wf(),
        ensures
            r == (self@.contains_key(a) && self@[a].status == PeerStatus::Disconnected),
    {
        self.status(a) == Some(PeerStatus::Disconnected)
    }

    /// Adds a never-connected record for a new address. The node's own
    /// address and a known address are refused.
    pub fn add_peer(&mut self, a: SocketAddress) -> (r: Result<(), NetworkError>)
        requires
            old(self).wf(),
        ensures
            final(self).wf(),
            final(self).local_address == old(self).local_address,
            follows_state_machine(old(self)@, final(self)@),
            a == old(self).local_address ==> r == Err::<(), NetworkError>(NetworkError::PeerAddressIsLocalAddress)
                && final(self)@ == old(self)@,
            a != old(self).local_address && old(self)@.contains_key(a) ==> r == Err::<(), NetworkError>(
                NetworkError::PeerAlreadyExists,
            ) && final(self)@ == old(self)@,
            a != old(self).local_address && !old(self)@.contains_key(a) ==> r is Ok && final(self)@ == old(
                self,
            )@.insert(a, new_peer(a)),
    {
        if a == self.local_address {
            return Err(NetworkError::PeerAddressIsLocalAddress);
        }
        if self.index_of(a).is_some() {
            return Err(NetworkError::PeerAlreadyExists);
        }
        let p = PeerInfo::new(a);
        proof {
            if has_address(self.peers@, a) {
                let k = choose|k: int| 0 <= k < self.peers@.len() && self.peers@[k].address == a;
                lemma_index(self.peers@, k);
            }
            lemma_push(self.peers@, p);
        }
        self.peers.push(p);
        proof {
            Self::lemma_wf_after(self.peers@);
        }
        Ok(())
    }

    /// Replaces the record at index `i` by `p`, which has the same address.
    fn put(&mut self, i: usize, p: PeerInfo)
        requires
            old(self).wf(),
            i < old(self).peers@.len(),
            p.address == old(self).peers@[i as int].address,
        ensures
            final(self).wf(),
            final(self).local_address == old(self).local_address,
            final(self)@ == old(self)@.insert(p.address, p),
    {
        proof {
            lemma_update(self.peers@, i as int, p);
        }
        self.peers.set(i, p);
        proof {
            Self::lemma_wf_after(self.peers@);
        }
    }

    /// Starts a connection attempt with the given handshake nonce, adding the
    /// peer first if it is new. The node's own address is refused.
    pub fn set_connecting(&mut self, a: SocketAddress, nonce: u64) -> (r: Result<(), NetworkError>)
        requires
            old(self).wf(),
        ensures
            final(self).wf(),
            final(self).local_address == old(self).local_address,
            follows_state_machine(old(self)@, final(self)@),
            a == old(self).local_address ==> r == Err::<(), NetworkError>(NetworkError::PeerAddressIsLocalAddress)
                && final(self)@ == old(self)@,
            a != old(self).local_address ==> {
                &&& final(self)@.contains_key(a)
                &&& forall|b: SocketAddress| b != a ==> #[trigger] final(self)@.contains_key(b) == old(self)@.contains_key(b)
                    && (old(self)@.contains_key(b) ==> final(self)@[b] == old(self)@[b])
                &&& (r is Ok <==> !(old(self)@.contains_key(a) && (old(self)@[a].status == PeerStatus::Connecting
                    || old(self)@[a].status == PeerStatus::Connected)))
                &&& r is Ok ==> final(self)@[a].status == PeerStatus::Connecting && final(self)@[a].handshake_nonce
                    == Some(nonce)
                &&& r is Err ==> r == Err::<(), NetworkError>(NetworkError::PeerAlreadyConnected) && final(self)@
                    == old(self)@
            },
    {
        if a == self.local_address {
            return Err(NetworkError::PeerAddressIsLocalAddress);
        }
        if self.index_of(a).is_none() {
            let _ = self.add_peer(a);
        }
        let i = match self.index_of(a) {
            Some(i) => i,
            None => return Err(NetworkError::PeerBookMissingPeer),
        };
        let mut p = self.peers[i];
        let r = p.set_connecting(nonce);
        if r.is_ok() {
            self.put(i, p);
        }
        r
    }

    /// Completes the handshake with a connecting peer whose stored nonce is
    /// the given one.
    pub fn set_connected(&mut self, a: SocketAddress, nonce: u64) -> (r: Result<(), NetworkError>)
        requires
            old(self).wf(),
        ensures
            final(self).wf(),
            final(self).local_address == old(self).local_address,
            follows_state_machine(old(self)@, final(self)@),
            !old(self)@.contains_key(a) ==> r == Err::<(), NetworkError>(NetworkError::PeerBookMissingPeer),
            old(self)@.contains_key(a) && old(self)@[a].status == PeerStatus::Connecting && old(self)@[a].handshake_nonce
                != Some(nonce) ==> r == Err::<(), NetworkError>(NetworkError::PeerNonceMismatch),
            old(self)@.contains_key(a) && old(self)@[a].status == PeerStatus::Connecting && old(self)@[a].handshake_nonce
                == Some(nonce) ==> r is Ok,
            old(self)@.contains_key(a) && old(self)@[a].status == PeerStatus::Connected ==> r == Err::<
                (),
                NetworkError,
            >(NetworkError::PeerAlreadyConnected),
            old(self)@.contains_key(a) && (old(self)@[a].status == PeerStatus::Disconnected || old(self)@[a].status
                == PeerStatus::NeverConnected) ==> r == Err::<(), NetworkError>(NetworkError::PeerIsDisconnected),
            r is Err ==> final(self)@ == old(self)@,
            r is Ok ==> old(self)@.contains_key(a) && old(self)@[a].status == PeerStatus::Connecting && old(
                self,
            )@[a].handshake_nonce == Some(nonce) && final(self)@.dom() == old(self)@.dom() && final(self)@[a].status
                == PeerStatus::Connected && forall|b: SocketAddress| #[trigger] final(self)@.contains_key(b) && b
                != a ==> final(self)@[b] == old(self)@[b],
    {
        let i = match self.index_of(a) {
            Some(i) => i,
            None => return Err(NetworkError::PeerBookMissingPeer),
        };
        let mut p = self.peers[i];
        if p.status == PeerStatus::Connecting && p.handshake_nonce != Some(nonce) {
            return Err(NetworkError::PeerNonceMismatch);
        }
        let r = p.set_connected();
        if r.is_ok() {
            self.put(i, p);
            assert(self@.dom() =~= old(self)@.dom());
        }
        r
    }

    /// Ends the connection with a connecting or connected peer.
    pub fn set_disconnected(&mut self, a: SocketAddress) -> (r: Result<(), NetworkError>)
        requires
            old(self).wf(),
        ensures
            final(self).wf(),
            final(self).local_address == old(self).local_address,
            follows_state_machine(old(self)@, final(self)@),
            !old(self)@.contains_key(a) ==> r == Err::<(), NetworkError>(NetworkError::PeerBookMissingPeer),
            old(self)@.contains_key(a) && (old(self)@[a].status == PeerStatus::Disconnected || old(self)@[a].status
                == PeerStatus::NeverConnected) ==> r == Err::<(), NetworkError>(NetworkError::PeerAlreadyDisconnected),
            old(self)@.contains_key(a) && (old(self)@[a].status == PeerStatus::Connecting || old(self)@[a].status
                == PeerStatus::Connected) ==> r is Ok,
            r is Err ==> final(self)@ == old(self)@,
            r is Ok ==> old(self)@.contains_key(a) && (old(self)@[a].status == PeerStatus::Connecting || old(
                self,
            )@[a].status == PeerStatus::Connected) && final(self)@.dom() == old(self)@.dom() && final(self)@[a].status
                == PeerStatus::Disconnected && final(self)@[a].handshake_nonce is None && final(self)@[a].quality == old(
                self,
            )@[a].quality && forall|b: SocketAddress|
                #[trigger] final(self)@.contains_key(b) && b != a ==> final(self)@[b] == old(self)@[b],
    {
        let i = match self.index_of(a) {
            Some(i) => i,
            None => return Err(NetworkError::PeerBookMissingPeer),
        };
        let mut p = self.peers[i];
        let r = p.set_disconnected();
        if r.is_ok() {
            self.put(i, p);
            assert(self@.dom() =~= old(self)@.dom());
        }
        r
    }

    /// The handshake nonce of a connected peer.
    pub fn handshake(&self, a: SocketAddress) -> (r: Result<u64, NetworkError>)
        requires
            self.wf(),
        ensures
            !self@.contains_key(a) ==> r == Err::<u64, NetworkError>(NetworkError::PeerBookMissingPeer),
            self@.contains_key(a) && self@[a].status != PeerStatus::Connected ==> r == Err::<u64, NetworkError>(
                NetworkError::PeerIsDisconnected,
            ),
            self@.contains_key(a) && self@[a].status == PeerStatus::Connected ==> match self@[a].handshake_nonce {
                Some(n) => r == Ok::<u64, NetworkError>(n),
                None => r == Err::<u64, NetworkError>(NetworkError::PeerIsMissingNonce),
            },
    {
        match self.get(a) {
            None => Err(NetworkError::PeerBookMissingPeer),
            Some(p) => if p.status != PeerStatus::Connected {
                Err(NetworkError::PeerIsDisconnected)
            } else {
                match p.handshake_nonce {
                    Some(n) => Ok(n),
                    None => Err(NetworkError::PeerIsMissingNonce),
                }
            },
        }
    }

    /// The addresses of the peers with the given status, in the book's order.
    pub fn peers_with_status(&self, status: PeerStatus) -> (r: Vec<SocketAddress>)
        requires
            self.wf(),
        ensures
            forall|x: SocketAddress| r@.contains(x) <==> (self@.contains_key(x) && self@[x].status == status),
            r@.no_duplicates(),
    {
        let mut out: Vec<SocketAddress> = Vec::new();
        let mut i: usize = 0;
        while i < self.peers.len()
            invariant
                self.wf(),
                i <= self.peers@.len(),
                out@.no_duplicates(),
                forall|x: SocketAddress|
                    out@.contains(x) <==> exists|k: int|
                        0 <= k < i && #[trigger] self.peers@[k].address == x && self.peers@[k].status == status,
            decreases self.peers@.len() - i,
        {
            let p = self.peers[i];
            if p.status == status {
                proof {
                    if out@.contains(p.address) {
                        let k = choose|k: int|
                            0 <= k < i && #[trigger] self.peers@[k].address == p.address && self.peers@[k].status
                                == status;
                        assert(self.peers@[k].address != self.peers@[i as int].address);
                    }
                }
                let ghost before = out@;
                out.push(p.address);
                assert forall|x: SocketAddress| out@.contains(x) <==> (before.contains(x) || x == p.address) by {
                    if out@.contains(x) {
                        let m = choose|m: int| 0 <= m < out@.len() && out@[m] == x;
                        if m < before.len() {
                            assert(before[m] == x);
                        }
                    }
                    if before.contains(x) {
                        let m = choose|m: int| 0 <= m < before.len() && before[m] == x;
                        assert(out@[m] == x);
                    }
                    if x == p.address {
                        assert(out@[before.len() as int] == x);
                    }
                }
                assert(self.peers@[i as int].address == p.address);
                assert forall|x: SocketAddress|
                    out@.contains(x) <==> exists|k: int|
                        0 <= k < i + 1 && #[trigger] self.peers@[k].address == x && self.peers@[k].status
                            == status by {
                    if exists|k: int|
                        0 <= k < i + 1 && #[trigger] self.peers@[k].address == x && self.peers@[k].status == status {
                        let k = choose|k: int|
                            0 <= k < i + 1 && #[trigger] self.peers@[k].address == x && self.peers@[k].status
                                == status;
                        if k < i {
                            assert(before.contains(x));
                        }
                    }
                    if before.contains(x) {
                        let k = choose|k: int|
                            0 <= k < i && #[trigger] self.peers@[k].address == x && self.peers@[k].status == status;
                        assert(0 <= k < i + 1);
                    }
                }
            }
            i = i + 1;
        }
        assert forall|x: SocketAddress| out@.contains(x) <==> (self@.contains_key(x) && self@[x].status == status) by {
            if out@.contains(x) {
                let k = choose|k: int| 0 <= k < self.peers@.len() && #[trigger] self.peers@[k].address == x && self.peers@[k].status == status;
                lemma_index(self.peers@, k);
            }
            if self@.contains_key(x) && self@[x].status == status {
                let k = choose|k: int| 0 <= k < self.peers@.len() && self.peers@[k].address == x;
                lemma_index(self.peers@, k);
            }
        }
        out
    }

    /// The addresses of the connected peers.
    pub fn connected_peers(&self) -> (r: Vec<SocketAddress>)
        requires
            self.wf(),
        ensures
            forall|x: SocketAddress| r@.contains(x) <==> (self@.contains_key(x) && self@[x].status == PeerStatus::Connected),
            r@.no_duplicates(),
    {
        self.peers_with_status(PeerStatus::Connected)
    }

    /// The addresses of the disconnected peers.
    pub fn disconnected_peers(&self) -> (r: Vec<SocketAddress>)
        requires
            self.wf(),
        ensures
            forall|x: SocketAddress| r@.contains(x) <==> (self@.contains_key(x) && self@[x].status == PeerStatus::Disconnected),
            r@.no_duplicates(),
    {
        self.peers_with_status(PeerStatus::Disconnected)
    }

    /// The number of connected peers.
    pub fn number_of_connected_peers(&self) -> (r: usize)
        requires
            self.wf(),
        ensures
            r == self@.dom().filter(|x: SocketAddress| self@[x].status == PeerStatus::Connected).len(),
    {
        let v = self.connected_peers();
        proof {
            let s = self@.dom().filter(|x: SocketAddress| self@[x].status == PeerStatus::Connected);
            assert(v@.to_set() =~= s);
            v@.unique_seq_to_set();
        }
        v.len()
    }

    /// Removes a peer from the book.
    pub fn remove_peer(&mut self, a: SocketAddress) -> (r: Option<PeerInfo>)
        requires
            old(self).wf(),
        ensures
            final(self).wf(),
            final(self).local_address == old(self).local_address,
            final(self)@ == old(self)@.remove(a),
            r == (if old(self)@.contains_key(a) {
                Some(old(self)@[a])
            } else {
                None::<PeerInfo>
            }),
    {
        let ghost s = self.peers@;
        match self.index_of(a) {
            Some(i) => {
                let p = self.peers.remove(i);
                let ghost t = self.peers@;
                assert(t =~= s.remove(i as int));
                assert forall|x: int, y: int| 0 <= x < t.len() && 0 <= y < t.len() && x != y implies #[trigger] t[x].address
                    != #[trigger] t[y].address by {
                    let x2 = if x < i { x } else { x + 1 };
                    let y2 = if y < i { y } else { y + 1 };
                    assert(t[x] == s[x2]);
                    assert(t[y] == s[y2]);
                }
                assert forall|b: SocketAddress| #[trigger] self@.contains_key(b) <==> old(self)@.remove(a).contains_key(b) by {
                    if self@.contains_key(b) {
                        let k = choose|k: int| 0 <= k < t.len() && t[k].address == b;
                        let k2 = if k < i { k } else { k + 1 };
                        assert(t[k] == s[k2]);
                        assert(s[k2].address != s[i as int].address);
                    }
                    if old(self)@.contains_key(b) && b != a {
                        let k = choose|k: int| 0 <= k < s.len() && s[k].address == b;
                        assert(k != i);
                        let k2 = if k < i { k } else { k - 1 };
                        assert(t[k2] == s[k]);
                    }
                }
                assert forall|b: SocketAddress| #[trigger] self@.contains_key(b) implies self@[b] == old(self)@.remove(a)[b] by {
                    let k = choose|k: int| 0 <= k < t.len() && t[k].address == b;
                    let k2 = if k < i { k } else { k + 1 };
                    assert(t[k] == s[k2]);
                    lemma_index(t, k);
                    lemma_index(s, k2);
                }
                assert(self@ =~= old(self)@.remove(a));
                proof {
                    Self::lemma_wf_after(self.peers@);
                }
                Some(p)
            },
            None => {
                assert(self@ =~= old(self)@.remove(a));
                None
            },
        }
    }

    /// Records that a `Ping` was sent to the peer at `now`.
    pub fn record_ping(&mut self, a: SocketAddress, now: i64)
        requires
            old(self).wf(),
        ensures
            final(self).wf(),
            final(self).local_address == old(self).local_address,
            follows_state_machine(old(self)@, final(self)@),
            !old(self)@.contains_key(a) ==> final(self)@ == old(self)@,
            old(self)@.contains_key(a) ==> final(self)@ == old(self)@.insert(
                a,
                PeerInfo {
                    quality: PeerQuality { expecting_pong: true, last_ping_sent: Some(now), ..old(self)@[a].quality },
                    ..old(self)@[a]
                },
            ),
    {
        if let Some(i) = self.index_of(a) {
            let mut p = self.peers[i];
            p.record_ping(now);
            self.put(i, p);
        }
    }

    /// Records a `Pong` from the peer at `now`.
    pub fn record_pong(&mut self, a: SocketAddress, now: i64)
        requires
            old(self).wf(),
        ensures
            final(self).wf(),
            final(self).local_address == old(self).local_address,
            follows_state_machine(old(self)@, final(self)@),
            final(self)@.dom() == old(self)@.dom(),
            !old(self)@.contains_key(a) ==> final(self)@ == old(self)@,
            old(self)@.contains_key(a) ==> final(self)@[a].quality.last_seen == Some(now)
                && !final(self)@[a].quality.expecting_pong && final(self)@[a].status == old(self)@[a].status,
            forall|b: SocketAddress| b != a && #[trigger] old(self)@.contains_key(b) ==> final(self)@[b] == old(self)@[b],
    {
        if let Some(i) = self.index_of(a) {
            let mut p = self.peers[i];
            p.record_pong(now);
            self.put(i, p);
            assert(self@.dom() =~= old(self)@.dom());
        }
    }

    /// Charges a failure to the peer and disconnects it once it has failed
    /// more than `MAX_FAILURES` times; the answer says whether it was.
    pub fn register_failure(&mut self, a: SocketAddress) -> (r: bool)
        requires
            old(self).wf(),
        ensures
            final(self).wf(),
            final(self).local_address == old(self).local_address,
            follows_state_machine(old(self)@, final(self)@),
            final(self)@.dom() == old(self)@.dom(),
            !old(self)@.contains_key(a) ==> !r && final(self)@ == old(self)@,
            r ==> final(self)@[a].status == PeerStatus::Disconnected,
            forall|b: SocketAddress| b != a && #[trigger] old(self)@.contains_key(b) ==> final(self)@[b] == old(self)@[b],
            old(self)@.contains_key(a) ==> final(self)@[a].quality.failures == bump8(old(self)@[a].quality.failures),
            r == (old(self)@.contains_key(a) && bump8(old(self)@[a].quality.failures) > MAX_FAILURES && (old(
                self,
            )@[a].status == PeerStatus::Connected || old(self)@[a].status == PeerStatus::Connecting)),
            !r && old(self)@.contains_key(a) ==> final(self)@[a].status == old(self)@[a].status,
    {
        match self.index_of(a) {
            Some(i) => {
                let mut p = self.peers[i];
                let drop = p.register_failure();
                self.put(i, p);
                assert(self@.dom() =~= old(self)@.dom());
                if drop && (p.status == PeerStatus::Connected || p.status == PeerStatus::Connecting) {
                    let _ = self.set_disconnected(a);
                    true
                } else {
                    false
                }
            },
            None => false,
        }
    }
}

} // verus!
