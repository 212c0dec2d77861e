//! The version handshake between two nodes.
use vstd::prelude::*;

use crate::address::{IpAddress, SocketAddress};
use crate::codec::{be128, be32, holds_at, lemma_word, push_u128, push_word, word_at};

verus! {

/// Relies on rand::random: a `u64` drawn from the thread-local generator.
/// Nothing is promised of its value.
#[verifier::external_body]
pub(crate) fn random_nonce() -> (r: u64) {
    rand::random::<u64>()
}

/// Where a handshake stands.
#[derive(Debug, Clone, Copy, PartialEq, Eq, Structural)]
pub enum HandshakeStatus {
    Waiting,
    Accepted,
    Rejected,
}

/// Why a handshake failed.
#[derive(Debug, Clone, Copy, PartialEq, Eq, Structural)]
pub enum HandshakeError {
    /// The nonce of the acknowledgement is not the one sent: (expected, received).
    InvalidNonce(u64, u64),
}

/// The message that opens a handshake.
#[derive(Debug, Clone, Copy, PartialEq, Eq, Structural)]
pub struct Version {
    pub version: u64,
    pub height: u32,
    pub nonce: u64,
    pub sender: SocketAddress,
    pub receiver: SocketAddress,
}

impl Version {
    pub fn new(version: u64, height: u32, nonce: u64, sender: SocketAddress, receiver: SocketAddress) -> (r: Version)
        ensures
            r == (Version { version, height, nonce, sender, receiver }),
    {
        Version { version, height, nonce, sender, receiver }
    }

    /// A version message with a fresh random nonce.
    pub fn new_with_rng(version: u64, height: u32, sender: SocketAddress, receiver: SocketAddress) -> (r: Version)
        ensures
            r.version == version,
            r.height == height,
            r.sender == sender,
            r.receiver == receiver,
    {
        Version { version, height, nonce: random_nonce(), sender, receiver }
    }
}

/// The acknowledgement of a version message; it echoes the version's nonce.
#[derive(Debug, Clone, Copy, PartialEq, Eq, Structural)]
pub struct Verack {
    pub nonce: u64,
    pub sender: SocketAddress,
    pub receiver: SocketAddress,
}

/// Why the bytes of an acknowledgement were refused.
#[derive(Debug, Clone, Copy, PartialEq, Eq, Structural)]
pub enum MessageError {
    /// The bytes are not 28 long: (length, expected length).
    InvalidLength(usize, usize),
    /// An address is not an IPv4 address in bincode's layout.
    InvalidAddress,
}

/// The length of an acknowledgement between two IPv4 addresses.
pub const VERACK_SIZE: usize = 28;

pub open spec fn le16(x: u16) -> Seq<u8> {
    seq![x as u8, (x >> 8u16) as u8]
}

pub open spec fn le32(x: u32) -> Seq<u8> {
    seq![x as u8, (x >> 8u32) as u8, (x >> 16u32) as u8, (x >> 24u32) as u8]
}

pub open spec fn le64(x: u64) -> Seq<u8> {
    le32(x as u32) + le32((x >> 32u64) as u32)
}

/// bincode's layout of a socket address: the variant index as a
/// little-endian `u32` (0 for IPv4, 1 for IPv6), the octets of the IP in
/// order, and the port as a little-endian `u16`.
pub open spec fn bincode_address(a: SocketAddress) -> Seq<u8> {
    match a.ip {
        IpAddress::V4(ip) => le32(0) + be32(ip) + le16(a.port),
        IpAddress::V6(ip) => le32(1) + be128(ip) + le16(a.port),
    }
}

/// The bytes of an acknowledgement, as bincode writes them: the nonce as a
/// little-endian `u64`, then the receiver, then the sender.
pub open spec fn encode_verack(v: Verack) -> Seq<u8> {
    le64(v.nonce) + bincode_address(v.receiver) + bincode_address(v.sender)
}

pub open spec fn le16_at(b: Seq<u8>, pos: int) -> u16 {
    (b[pos] as u16) | ((b[pos + 1] as u16) << 8u16)
}

pub open spec fn le64_at(b: Seq<u8>, pos: int) -> u64 {
    (b[pos] as u64) | ((b[pos + 1] as u64) << 8u64) | ((b[pos + 2] as u64) << 16u64) | ((b[pos + 3] as u64)
        << 24u64) | ((b[pos + 4] as u64) << 32u64) | ((b[pos + 5] as u64) << 40u64) | ((b[pos + 6] as u64) << 48u64)
        | ((b[pos + 7] as u64) << 56u64)
}

/// The IPv4 address written at `pos` in bincode's layout, if it is one.
pub open spec fn v4_at(b: Seq<u8>, pos: int) -> Option<SocketAddress> {
    if b[pos] == 0 && b[pos + 1] == 0 && b[pos + 2] == 0 && b[pos + 3] == 0 {
        Some(SocketAddress { ip: IpAddress::V4(word_at(b, pos + 4)), port: le16_at(b, pos + 8) })
    } else {
        None
    }
}

/// What the bytes of an acknowledgement decode to: they must be 28 long,
/// holding the nonce and two IPv4 addresses.
pub open spec fn decode_verack(b: Seq<u8>) -> Result<Verack, MessageError> {
    if b.len() != VERACK_SIZE {
        Err(MessageError::InvalidLength(b.len() as usize, VERACK_SIZE))
    } else {
        match (v4_at(b, 8), v4_at(b, 18)) {
            (Some(receiver), Some(sender)) => Ok(Verack { nonce: le64_at(b, 0), sender, receiver }),
            _ => Err(MessageError::InvalidAddress),
        }
    }
}

pub open spec fn is_v4(a: SocketAddress) -> bool {
    a.ip is V4
}

/// An acknowledgement between two IPv4 addresses decodes back from its
/// bytes; one with an IPv6 address has bytes of another length, which are
/// refused.
pub proof fn lemma_verack_round_trip(v: Verack)
    ensures
        is_v4(v.sender) && is_v4(v.receiver) ==> decode_verack(encode_verack(v)) == Ok::<Verack, MessageError>(v),
        !(is_v4(v.sender) && is_v4(v.receiver)) ==> decode_verack(encode_verack(v)) == Err::<Verack, MessageError>(
            MessageError::InvalidLength(encode_verack(v).len() as usize, VERACK_SIZE),
        ),
{
    let b = encode_verack(v);
    if is_v4(v.sender) && is_v4(v.receiver) {
        let n = v.nonce;
        assert(b.len() == 28);
        lemma_le64_bits(n, b[0], b[1], b[2], b[3], b[4], b[5], b[6], b[7]);
        assert(b.subrange(8, 18) =~= bincode_address(v.receiver));
        assert(b.subrange(18, 28) =~= bincode_address(v.sender));
        lemma_v4_at(b, 8, v.receiver);
        lemma_v4_at(b, 18, v.sender);
    } else {
        assert(b.len() != 28);
    }
}

proof fn lemma_le64_bits(n: u64, b0: u8, b1: u8, b2: u8, b3: u8, b4: u8, b5: u8, b6: u8, b7: u8)
    requires
        b0 == (n as u32) as u8,
        b1 == ((n as u32) >> 8u32) as u8,
        b2 == ((n as u32) >> 16u32) as u8,
        b3 == ((n as u32) >> 24u32) as u8,
        b4 == ((n >> 32u64) as u32) as u8,
        b5 == (((n >> 32u64) as u32) >> 8u32) as u8,
        b6 == (((n >> 32u64) as u32) >> 16u32) as u8,
        b7 == (((n >> 32u64) as u32) >> 24u32) as u8,
    ensures
        (b0 as u64) | ((b1 as u64) << 8u64) | ((b2 as u64) << 16u64) | ((b3 as u64) << 24u64) | ((b4 as u64) << 32u64)
            | ((b5 as u64) << 40u64) | ((b6 as u64) << 48u64) | ((b7 as u64) << 56u64) == n,
{
    assert((b0 as u64) | ((b1 as u64) << 8u64) | ((b2 as u64) << 16u64) | ((b3 as u64) << 24u64) | ((b4 as u64)
        << 32u64) | ((b5 as u64) << 40u64) | ((b6 as u64) << 48u64) | ((b7 as u64) << 56u64) == n) by (bit_vector)
        requires
            b0 == (n as u32) as u8,
            b1 == ((n as u32) >> 8u32) as u8,
            b2 == ((n as u32) >> 16u32) as u8,
            b3 == ((n as u32) >> 24u32) as u8,
            b4 == ((n >> 32u64) as u32) as u8,
            b5 == (((n >> 32u64) as u32) >> 8u32) as u8,
            b6 == (((n >> 32u64) as u32) >> 16u32) as u8,
            b7 == (((n >> 32u64) as u32) >> 24u32) as u8,
    ;
}

proof fn lemma_v4_at(b: Seq<u8>, pos: int, a: SocketAddress)
    requires
        is_v4(a),
        0 <= pos,
        pos + 10 <= b.len(),
        b.subrange(pos, pos + 10) == bincode_address(a),
    ensures
        v4_at(b, pos) == Some(a),
{
    let e = bincode_address(a);
    assert forall|k: int| 0 <= k < 10 implies b[pos + k] == e[k] by {
        assert(b.subrange(pos, pos + 10)[k] == b[pos + k]);
    }
    match a.ip {
        IpAddress::V4(ip) => {
            assert((0u32 as u8) == 0 && (0u32 >> 8u32) as u8 == 0 && (0u32 >> 16u32) as u8 == 0 && (0u32 >> 24u32) as u8
                == 0) by (bit_vector);
            assert(b[pos] == 0 && b[pos + 1] == 0 && b[pos + 2] == 0 && b[pos + 3] == 0) by {
                assert(b[pos] == e[0] && b[pos + 1] == e[1] && b[pos + 2] == e[2] && b[pos + 3] == e[3]);
            }
            assert(holds_at(b, pos + 4, be32(ip))) by {
                assert(b.subrange(pos + 4, pos + 8) =~= be32(ip)) by {
                    assert forall|k: int| 0 <= k < 4 implies b.subrange(pos + 4, pos + 8)[k] == be32(ip)[k] by {
                        assert(b[pos + 4 + k] == e[4 + k]);
                    }
                }
            }
            lemma_word(b, pos + 4, ip);
            let port = a.port;
            assert(b[pos + 8] == e[8] && b[pos + 9] == e[9]);
            assert((((port as u8) as u16) | ((((port >> 8u16) as u8) as u16) << 8u16)) == port) by (bit_vector);
        },
        IpAddress::V6(_) => {},
    }
}

impl Verack {
    pub fn new(nonce: u64, sender: SocketAddress, receiver: SocketAddress) -> (r: Verack)
        ensures
            r == (Verack { nonce, sender, receiver }),
    {
        Verack { nonce, sender, receiver }
    }

    /// The bytes of the acknowledgement, in bincode's layout.
    pub fn serialize(&self) -> (r: Result<Vec<u8>, MessageError>)
        ensures
            r is Ok && r->Ok_0@ == encode_verack(*self),
    {
        let mut out: Vec<u8> = Vec::new();
        push_le64(&mut out, self.nonce);
        push_bincode_address(&mut out, self.receiver);
        push_bincode_address(&mut out, self.sender);
        assert(out@ =~= encode_verack(*self));
        Ok(out)
    }

    /// Decodes an acknowledgement. Bytes that are not 28 long are refused
    /// with `InvalidLength`; an address that is not IPv4 with `InvalidAddress`.
    pub fn deserialize(bytes: &[u8]) -> (r: Result<Verack, MessageError>)
        ensures
            r == decode_verack(bytes@),
    {
        if bytes.len() != VERACK_SIZE {
            return Err(MessageError::InvalidLength(bytes.len(), VERACK_SIZE));
        }
        let receiver = match read_v4(bytes, 8) {
            Some(a) => a,
            None => return Err(MessageError::InvalidAddress),
        };
        let sender = match read_v4(bytes, 18) {
            Some(a) => a,
            None => return Err(MessageError::InvalidAddress),
        };
        let nonce = (bytes[0] as u64) | ((bytes[1] as u64) << 8u64) | ((bytes[2] as u64) << 16u64) | ((bytes[3] as u64)
            << 24u64) | ((bytes[4] as u64) << 32u64) | ((bytes[5] as u64) << 40u64) | ((bytes[6] as u64) << 48u64) | ((
        bytes[7] as u64) << 56u64);
        Ok(Verack { nonce, sender, receiver })
    }
}

fn push_le32(out: &mut Vec<u8>, x: u32)
    ensures
        final(out)@ == old(out)@ + le32(x),
{
    out.push(x as u8);
    out.push((x >> 8u32) as u8);
    out.push((x >> 16u32) as u8);
    out.push((x >> 24u32) as u8);
    assert(final(out)@ =~= old(out)@ + le32(x));
}

fn push_le64(out: &mut Vec<u8>, x: u64)
    ensures
        final(out)@ == old(out)@ + le64(x),
{
    push_le32(out, x as u32);
    push_le32(out, (x >> 32u64) as u32);
    assert(final(out)@ =~= old(out)@ + le64(x));
}

fn push_bincode_address(out: &mut Vec<u8>, a: SocketAddress)
    ensures
        final(out)@ == old(out)@ + bincode_address(a),
{
    match a.ip {
        IpAddress::V4(ip) => {
            push_le32(out, 0);
            push_word(out, ip);
        },
        IpAddress::V6(ip) => {
            push_le32(out, 1);
            push_u128(out, ip);
        },
    }
    out.push(a.port as u8);
    out.push((a.port >> 8u16) as u8);
    assert(final(out)@ =~= old(out)@ + bincode_address(a));
}

fn read_v4(b: &[u8], pos: usize) -> (r: Option<SocketAddress>)
    requires
        pos + 10 <= b@.len(),
    ensures
        r == v4_at(b@, pos as int),
{
    if b[pos] == 0 && b[pos + 1] == 0 && b[pos + 2] == 0 && b[pos + 3] == 0 {
        let ip = ((b[pos + 4] as u32) << 24u32) | ((b[pos + 5] as u32) << 16u32) | ((b[pos + 6] as u32) << 8u32) | (b[pos
            + 7] as u32);
        let port = (b[pos + 8] as u16) | ((b[pos + 9] as u16) << 8u16);
        Some(SocketAddress { ip: IpAddress::V4(ip), port })
    } else {
        None
    }
}

/// One side of a handshake: the nonce this node sent and what became of it.
///
/// 1. The initiator sends a `Version`.
/// 2. The responder answers with a `Verack` of that nonce and its own `Version`.
/// 3. The initiator accepts the `Verack` and answers the responder's `Version`
///    with a `Verack` of its nonce, which the responder accepts.
#[derive(Debug, Clone, Copy, PartialEq, Eq, Structural)]
pub struct Handshake {
    pub state: HandshakeStatus,
    pub height: u32,
    pub nonce: u64,
    pub peer: SocketAddress,
}

impl Handshake {
    /// The initiator's side after sending `version`.
    pub fn send_new(version: &Version) -> (r: Handshake)
        ensures
            r == (Handshake {
                state: HandshakeStatus::Waiting,
                height: version.height,
                nonce: version.nonce,
                peer: version.receiver,
            }),
    {
        Handshake { state: HandshakeStatus::Waiting, height: version.height, nonce: version.nonce, peer: version.receiver }
    }

    /// The responder's side on a first `Version` from a peer: the handshake,
    /// and the acknowledgement to send before the local `Version`.
    pub fn receive_new(local_version: &Version, remote_version: &Version) -> (r: (Handshake, Verack))
        ensures
            r.0 == (Handshake {
                state: HandshakeStatus::Waiting,
                height: local_version.height,
                nonce: local_version.nonce,
                peer: local_version.receiver,
            }),
            r.1 == (Verack {
                nonce: remote_version.nonce,
                sender: local_version.receiver,
                receiver: local_version.sender,
            }),
    {
        let verack = Verack::new(remote_version.nonce, local_version.receiver, local_version.sender);
        let handshake = Handshake {
            state: HandshakeStatus::Waiting,
            height: local_version.height,
            nonce: local_version.nonce,
            peer: local_version.receiver,
        };
        (handshake, verack)
    }

    /// The acknowledgement to send for the peer's `Version`.
    pub fn receive(&self, version: &Version) -> (r: Verack)
        ensures
            r == (Verack { nonce: version.nonce, sender: self.peer, receiver: version.receiver }),
    {
        Verack::new(version.nonce, self.peer, version.receiver)
    }

    /// Accepts the peer's acknowledgement if it carries this side's nonce;
    /// otherwise the handshake is rejected.
    pub fn accept(&mut self, message: &Verack) -> (r: Result<(), HandshakeError>)
        ensures
            final(self).nonce == old(self).nonce,
            final(self).height == old(self).height,
            final(self).peer == old(self).peer,
            old(self).nonce != message.nonce ==> r == Err::<(), HandshakeError>(
                HandshakeError::InvalidNonce(old(self).nonce, message.nonce),
            ) && final(self).state == HandshakeStatus::Rejected,
            old(self).nonce == message.nonce ==> r is Ok && final(self).state == (if old(self).state
                == HandshakeStatus::Waiting {
                HandshakeStatus::Accepted
            } else {
                old(self).state
            }),
    {
        if self.nonce != message.nonce {
            self.state = HandshakeStatus::Rejected;
            return Err(HandshakeError::InvalidNonce(self.nonce, message.nonce));
        } else if self.state == HandshakeStatus::Waiting {
            self.state = HandshakeStatus::Accepted;
        }
        Ok(())
    }

    /// Records the peer's address where it changed.
    pub fn update_address(&mut self, address: SocketAddress)
        ensures
            *final(self) == (Handshake { peer: address, ..*old(self) }),
    {
        if self.peer != address {
            self.peer = address;
        }
    }

    pub fn get_state(&self) -> (r: HandshakeStatus)
        ensures
            r == self.state,
    {
        self.state
    }
}

} // verus!
