use vstd::prelude::*;

use crate::address::SocketAddress;
use crate::clock::now_millis;
use crate::error::NetworkError;

verus! {

/// The connection state of a peer, as tracked in the peer book.
#[derive(Debug, Clone, Copy, PartialEq, Eq, Structural)]
pub enum PeerStatus {
    Connecting,
    Connected,
    Disconnected,
    NeverConnected,
}

/// The moves of the peer state machine: a status either stays as it is or
/// takes one of these edges.
///
/// ```text
/// NeverConnected -> Connecting -> Connected -> Disconnected
///                                   Connecting -> Disconnected
///                                 Disconnected -> Connecting
/// ```
pub open spec fn valid_transition(from: PeerStatus, to: PeerStatus) -> bool {
    ||| from == to
    ||| (from == PeerStatus::NeverConnected && to == PeerStatus::Connecting)
    ||| (from == PeerStatus::Disconnected && to == PeerStatus::Connecting)
    ||| (from == PeerStatus::Connecting && to == PeerStatus::Connected)
    ||| (from == PeerStatus::Connecting && to == PeerStatus::Disconnected)
    ||| (from == PeerStatus::Connected && to == PeerStatus::Disconnected)
}

/// The number of failures a peer may have before it is dropped.
pub const MAX_FAILURES: u8 = 3;

/// Adds one to a failure counter, staying at the largest value once it is
/// reached.
pub open spec fn bump8(n: u8) -> u8 {
    if n < u8::MAX { (n + 1) as u8 } else { n }
}

/// A `Pong` awaited from the peer is overdue at `now`: more than `window`
/// milliseconds have passed since the `Ping`.
pub open spec fn overdue(p: PeerInfo, now: i64, window: u64) -> bool {
    p.quality.expecting_pong && p.quality.last_ping_sent is Some && now - p.quality.last_ping_sent->Some_0 > window
}

/// Adds one to a counter, staying at the largest value once it is reached.
pub open spec fn bump(n: u64) -> u64 {
    if n < u64::MAX { (n + 1) as u64 } else { n }
}

/// The measurements of a connection that the keep-alive logic keeps.
/// Times are milliseconds since the Unix epoch.
#[derive(Debug, Clone, Copy, PartialEq, Eq, Structural)]
pub struct PeerQuality {
    /// When the peer was seen last.
    pub last_seen: Option<i64>,
    /// Whether a `Pong` is currently expected from this peer.
    pub expecting_pong: bool,
    /// When the last `Ping` was sent to the peer.
    pub last_ping_sent: Option<i64>,
    /// The round-trip time of the last `Ping` / `Pong` exchange.
    pub rtt_ms: u64,
    /// The number of failures charged to the peer; grounds for dismissal.
    pub failures: u8,
}

impl PeerQuality {
    pub fn new() -> (r: PeerQuality)
        ensures
            r.last_seen is None,
            !r.expecting_pong,
            r.last_ping_sent is None,
            r.rtt_ms == 0,
            r.failures == 0,
    {
        PeerQuality { last_seen: None, expecting_pong: false, last_ping_sent: None, rtt_ms: 0, failures: 0 }
    }
}

/// What the node knows of one peer. Times are milliseconds since the Unix epoch.
#[derive(Debug, Clone, Copy, PartialEq, Eq, Structural)]
pub struct PeerInfo {
    /// The address of this peer.
    pub address: SocketAddress,
    /// The current status of this peer.
    pub status: PeerStatus,
    /// When the node first tried to connect to this peer.
    pub first_seen: Option<i64>,
    /// When the last connection to this peer was established.
    pub last_connected: Option<i64>,
    /// When the node last disconnected from this peer.
    pub last_disconnected: Option<i64>,
    /// The number of times the node has connected to this peer.
    pub connected_count: u64,
    /// The number of times the node has disconnected from this peer.
    pub disconnected_count: u64,
    /// The nonce of the handshake in progress or completed; set on `Connecting`,
    /// cleared on `Disconnected`.
    pub handshake_nonce: Option<u64>,
    /// The quality of the connection with the peer.
    pub quality: PeerQuality,
}

/// The record of a peer that has just been heard of.
pub open spec fn new_peer(address: SocketAddress) -> PeerInfo {
    PeerInfo {
        address,
        status: PeerStatus::NeverConnected,
        first_seen: None,
        last_connected: None,
        last_disconnected: None,
        connected_count: 0,
        disconnected_count: 0,
        handshake_nonce: None,
        quality: PeerQuality {
            last_seen: None,
            expecting_pong: false,
            last_ping_sent: None,
            rtt_ms: 0,
            failures: 0,
        },
    }
}

impl PeerInfo {
    /// The record of a peer that has just been heard of.
    pub fn new(address: SocketAddress) -> (r: PeerInfo)
        ensures
            r == new_peer(address),
            r.address == address,
            r.status == PeerStatus::NeverConnected,
            r.first_seen is None,
            r.last_connected is None,
            r.last_disconnected is None,
            r.connected_count == 0,
            r.disconnected_count == 0,
            r.handshake_nonce is None,
            r.quality.last_seen is None,
            r.quality.failures == 0,
            !r.quality.expecting_pong,
    {
        PeerInfo {
            address,
            status: PeerStatus::NeverConnected,
            first_seen: None,
            last_connected: None,
            last_disconnected: None,
            connected_count: 0,
            disconnected_count: 0,
            handshake_nonce: None,
            quality: PeerQuality::new(),
        }
    }

    pub fn address(&self) -> (r: SocketAddress)
        ensures
            r == self.address,
    {
        self.address
    }

    pub fn status(&self) -> (r: PeerStatus)
        ensures
            r == self.status,
    {
        self.status
    }

    pub fn first_seen(&self) -> (r: Option<i64>)
        ensures
            r == self.first_seen,
    {
        self.first_seen
    }

    pub fn last_seen(&self) -> (r: Option<i64>)
        ensures
            r == self.quality.last_seen,
    {
        self.quality.last_seen
    }

    pub fn last_connected(&self) -> (r: Option<i64>)
        ensures
            r == self.last_connected,
    {
        self.last_connected
    }

    pub fn last_disconnected(&self) -> (r: Option<i64>)
        ensures
            r == self.last_disconnected,
    {
        self.last_disconnected
    }

    pub fn connected_count(&self) -> (r: u64)
        ensures
            r == self.connected_count,
    {
        self.connected_count
    }

    pub fn disconnected_count(&self) -> (r: u64)
        ensures
            r == self.disconnected_count,
    {
        self.disconnected_count
    }

    pub fn nonce(&self) -> (r: Option<u64>)
        ensures
            r == self.handshake_nonce,
    {
        self.handshake_nonce
    }

    /// Moves a never-connected or disconnected peer to `Connecting` with the
    /// given handshake nonce; `first_seen` is set on the first attempt.
    /// A connecting or connected peer is refused and left as it is.
    pub fn set_connecting(&mut self, nonce: u64) -> (r: Result<(), NetworkError>)
        ensures
            valid_transition(old(self).status, final(self).status),
            final(self).address == old(self).address,
            final(self).quality == old(self).quality,
            (old(self).status == PeerStatus::Disconnected || old(self).status == PeerStatus::NeverConnected) ==> {
                &&& r is Ok
                &&& final(self).status == PeerStatus::Connecting
                &&& final(self).handshake_nonce == Some(nonce)
                &&& final(self).first_seen is Some
                &&& (old(self).first_seen is Some ==> final(self).first_seen == old(self).first_seen)
                &&& final(self).last_connected == old(self).last_connected
                &&& final(self).last_disconnected == old(self).last_disconnected
                &&& final(self).connected_count == old(self).connected_count
                &&& final(self).disconnected_count == old(self).disconnected_count
            },
            (old(self).status == PeerStatus::Connecting || old(self).status == PeerStatus::Connected) ==> {
                &&& r == Err::<(), NetworkError>(NetworkError::PeerAlreadyConnected)
                &&& *final(self) == *old(self)
            },
    {
        match self.status {
            PeerStatus::Disconnected | PeerStatus::NeverConnected => {
                self.status = PeerStatus::Connecting;
                self.handshake_nonce = Some(nonce);
                if self.first_seen.is_none() {
                    self.first_seen = Some(now_millis());
                }
                Ok(())
            },
            PeerStatus::Connecting | PeerStatus::Connected => Err(NetworkError::PeerAlreadyConnected),
        }
    }

    /// Moves a connecting peer to `Connected`, stamping `last_connected` and
    /// counting the connection. Any other peer is refused and left as it is.
    pub fn set_connected(&mut self) -> (r: Result<(), NetworkError>)
        ensures
            valid_transition(old(self).status, final(self).status),
            final(self).address == old(self).address,
            final(self).quality == old(self).quality,
            old(self).status == PeerStatus::Connecting ==> {
                &&& r is Ok
                &&& final(self).status == PeerStatus::Connected
                &&& final(self).last_connected is Some
                &&& final(self).connected_count == bump(old(self).connected_count)
                &&& final(self).handshake_nonce == old(self).handshake_nonce
                &&& final(self).first_seen == old(self).first_seen
                &&& final(self).last_disconnected == old(self).last_disconnected
                &&& final(self).disconnected_count == old(self).disconnected_count
            },
            old(self).status == PeerStatus::Connected ==> {
                &&& r == Err::<(), NetworkError>(NetworkError::PeerAlreadyConnected)
                &&& *final(self) == *old(self)
            },
            (old(self).status == PeerStatus::Disconnected || old(self).status == PeerStatus::NeverConnected) ==> {
                &&& r == Err::<(), NetworkError>(NetworkError::PeerIsDisconnected)
                &&& *final(self) == *old(self)
            },
    {
        match self.status {
            PeerStatus::Connecting => {
                self.status = PeerStatus::Connected;
                self.last_connected = Some(now_millis());
                if self.connected_count < u64::MAX {
                    self.connected_count = self.connected_count + 1;
                }
                Ok(())
            },
            PeerStatus::Connected => Err(NetworkError::PeerAlreadyConnected),
            PeerStatus::Disconnected | PeerStatus::NeverConnected => Err(NetworkError::PeerIsDisconnected),
        }
    }

    /// Moves a connecting or connected peer to `Disconnected`, stamping
    /// `last_disconnected`, counting the disconnection and clearing the
    /// handshake nonce. Any other peer is refused and left as it is.
    pub fn set_disconnected(&mut self) -> (r: Result<(), NetworkError>)
        ensures
            valid_transition(old(self).status, final(self).status),
            final(self).address == old(self).address,
            final(self).quality == old(self).quality,
            (old(self).status == PeerStatus::Connected || old(self).status == PeerStatus::Connecting) ==> {
                &&& r is Ok
                &&& final(self).status == PeerStatus::Disconnected
                &&& final(self).last_disconnected is Some
                &&& final(self).disconnected_count == bump(old(self).disconnected_count)
                &&& final(self).handshake_nonce is None
                &&& final(self).first_seen == old(self).first_seen
                &&& final(self).last_connected == old(self).last_connected
                &&& final(self).connected_count == old(self).connected_count
            },
            (old(self).status == PeerStatus::Disconnected || old(self).status == PeerStatus::NeverConnected) ==> {
                &&& r == Err::<(), NetworkError>(NetworkError::PeerAlreadyDisconnected)
                &&& *final(self) == *old(self)
            },
    {
        match self.status {
            PeerStatus::Connected | PeerStatus::Connecting => {
                self.status = PeerStatus::Disconnected;
                self.last_disconnected = Some(now_millis());
                if self.disconnected_count < u64::MAX {
                    self.disconnected_count = self.disconnected_count + 1;
                }
                self.handshake_nonce = None;
                Ok(())
            },
            PeerStatus::Disconnected | PeerStatus::NeverConnected => Err(NetworkError::PeerAlreadyDisconnected),
        }
    }

    /// Records that the peer was heard from at `now`.
    pub fn set_last_seen(&mut self, now: i64)
        ensures
            *final(self) == (PeerInfo { quality: PeerQuality { last_seen: Some(now), ..old(self).quality }, ..*old(self) }),
    {
        self.quality.last_seen = Some(now);
    }

    /// Charges a failure to the peer; the answer says whether the peer has now
    /// failed more than `MAX_FAILURES` times and should be dropped.
    pub fn register_failure(&mut self) -> (r: bool)
        ensures
            final(self).quality.failures == (if old(self).quality.failures < u8::MAX {
                (old(self).quality.failures + 1) as u8
            } else {
                old(self).quality.failures
            }),
            final(self).status == old(self).status,
            final(self).address == old(self).address,
            r == (final(self).quality.failures > MAX_FAILURES),
    {
        if self.quality.failures < u8::MAX {
            self.quality.failures = self.quality.failures + 1;
        }
        self.quality.failures > MAX_FAILURES
    }

    /// Records that a `Ping` was sent at `now` and a `Pong` is awaited.
    pub fn record_ping(&mut self, now: i64)
        ensures
            *final(self) == (PeerInfo {
                quality: PeerQuality { expecting_pong: true, last_ping_sent: Some(now), ..old(self).quality },
                ..*old(self)
            }),
    {
        self.quality.expecting_pong = true;
        self.quality.last_ping_sent = Some(now);
    }

    /// Records a `Pong` received at `now`: an awaited one ends the wait and
    /// sets the round-trip time; the peer counts as seen either way.
    pub fn record_pong(&mut self, now: i64)
        ensures
            final(self).status == old(self).status,
            final(self).address == old(self).address,
            final(self).handshake_nonce == old(self).handshake_nonce,
            final(self).quality.last_seen == Some(now),
            !final(self).quality.expecting_pong,
            final(self).quality.failures == old(self).quality.failures,
            final(self).quality.last_ping_sent == old(self).quality.last_ping_sent,
            (old(self).quality.expecting_pong && old(self).quality.last_ping_sent is Some) ==> final(self).quality.rtt_ms
                == (if now >= old(self).quality.last_ping_sent->Some_0 {
                (now - old(self).quality.last_ping_sent->Some_0) as u64
            } else {
                0
            }),
            !(old(self).quality.expecting_pong && old(self).quality.last_ping_sent is Some) ==> final(self).quality.rtt_ms
                == old(self).quality.rtt_ms,
    {
        if self.quality.expecting_pong {
            if let Some(sent) = self.quality.last_ping_sent {
                self.quality.rtt_ms = if now >= sent {
                    (now as i128 - sent as i128) as u64
                } else {
                    0
                };
            }
        }
        self.quality.expecting_pong = false;
        self.quality.last_seen = Some(now);
    }

    /// Whether an awaited `Pong` is overdue at `now`: more than `window`
    /// milliseconds have passed since the `Ping`.
    pub fn pong_overdue(&self, now: i64, window: u64) -> (r: bool)
        ensures
            r == overdue(*self, now, window),
    {
        match self.quality.last_ping_sent {
            Some(sent) => self.quality.expecting_pong && (now as i128 - sent as i128) > window as i128,
            None => false,
        }
    }
}

} // verus!
