//! The byte encoding of the payloads that peers exchange.
//!
//! A payload is one tag byte followed by its fields. Integers are written
//! big-endian in 32-bit words (a `u64` as two words, an IPv6 address as four).
//! A byte blob is its length as one word, then its bytes. A list is its count
//! as one word, then its items. A block hash is 32 bytes with no prefix. An
//! address is a family byte (4 or 6), the IP words and the port as one word.
use vstd::prelude::*;

use crate::address::{IpAddress, SocketAddress};
use crate::bytes::bytes_eq;

verus! {

/// The number of bytes of a block hash.
pub const HASH_SIZE: usize = 32;

pub const TAG_BLOCK: u8 = 0;
pub const TAG_GET_BLOCKS: u8 = 1;
pub const TAG_GET_MEMORY_POOL: u8 = 2;
pub const TAG_GET_PEERS: u8 = 3;
pub const TAG_GET_SYNC: u8 = 4;
pub const TAG_MEMORY_POOL: u8 = 5;
pub const TAG_PEERS: u8 = 6;
pub const TAG_PING: u8 = 7;
pub const TAG_PONG: u8 = 8;
pub const TAG_SYNC: u8 = 9;
pub const TAG_SYNC_BLOCK: u8 = 10;
pub const TAG_TRANSACTION: u8 = 11;
pub const TAG_VERSION: u8 = 12;
pub const TAG_VERACK: u8 = 13;

/// The family byte of an IPv4 address.
pub const FAMILY_V4: u8 = 4;
/// The family byte of an IPv6 address.
pub const FAMILY_V6: u8 = 6;

/// A message body exchanged between peers.
#[derive(Debug, Clone)]
pub enum Payload {
    Block(Vec<u8>),
    GetBlocks(Vec<Vec<u8>>),
    GetMemoryPool,
    GetPeers,
    GetSync(Vec<Vec<u8>>),
    MemoryPool(Vec<Vec<u8>>),
    Peers(Vec<SocketAddress>),
    Ping(u32),
    Pong,
    Sync(Vec<Vec<u8>>),
    SyncBlock(Vec<u8>),
    Transaction(Vec<u8>),
    Version { nonce: u64, block_height: u32, listener_port: u16 },
    Verack { nonce: u64 },
}

/// The mathematical value of a payload.
pub enum PayloadModel {
    Block(Seq<u8>),
    GetBlocks(Seq<Seq<u8>>),
    GetMemoryPool,
    GetPeers,
    GetSync(Seq<Seq<u8>>),
    MemoryPool(Seq<Seq<u8>>),
    Peers(Seq<SocketAddress>),
    Ping(u32),
    Pong,
    Sync(Seq<Seq<u8>>),
    SyncBlock(Seq<u8>),
    Transaction(Seq<u8>),
    Version { nonce: u64, block_height: u32, listener_port: u16 },
    Verack { nonce: u64 },
}

/// Why a payload could not be encoded or decoded.
#[derive(Debug, Clone, Copy, PartialEq, Eq, Structural)]
pub enum CodecError {
    /// The payload has no encoding: a block hash is not 32 bytes long, or a
    /// blob or a list is too long to have its length written in one word.
    Unencodable,
    /// The bytes are not the encoding of any payload.
    Malformed,
}

pub open spec fn blobs_model(v: Seq<Vec<u8>>) -> Seq<Seq<u8>> {
    v.map_values(|x: Vec<u8>| x@)
}

impl View for Payload {
    type V = PayloadModel;

    open spec fn view(&self) -> PayloadModel {
        match self {
            Payload::Block(b) => PayloadModel::Block(b@),
            Payload::GetBlocks(h) => PayloadModel::GetBlocks(blobs_model(h@)),
            Payload::GetMemoryPool => PayloadModel::GetMemoryPool,
            Payload::GetPeers => PayloadModel::GetPeers,
            Payload::GetSync(h) => PayloadModel::GetSync(blobs_model(h@)),
            Payload::MemoryPool(t) => PayloadModel::MemoryPool(blobs_model(t@)),
            Payload::Peers(a) => PayloadModel::Peers(a@),
            Payload::Ping(h) => PayloadModel::Ping(*h),
            Payload::Pong => PayloadModel::Pong,
            Payload::Sync(h) => PayloadModel::Sync(blobs_model(h@)),
            Payload::SyncBlock(b) => PayloadModel::SyncBlock(b@),
            Payload::Transaction(b) => PayloadModel::Transaction(b@),
            Payload::Version { nonce, block_height, listener_port } => PayloadModel::Version {
                nonce: *nonce,
                block_height: *block_height,
                listener_port: *listener_port,
            },
            Payload::Verack { nonce } => PayloadModel::Verack { nonce: *nonce },
        }
    }
}

// ---------------------------------------------------------------------------
// The encoding, as spec functions.

pub open spec fn be32(x: u32) -> Seq<u8> {
    seq![(x >> 24u32) as u8, (x >> 16u32) as u8, (x >> 8u32) as u8, x as u8]
}

pub open spec fn word_at(b: Seq<u8>, pos: int) -> u32 {
    ((b[pos] as u32) << 24u32) | ((b[pos + 1] as u32) << 16u32) | ((b[pos + 2] as u32) << 8u32) | (b[pos + 3] as u32)
}

pub open spec fn be64(x: u64) -> Seq<u8> {
    be32((x >> 32u64) as u32) + be32(x as u32)
}

pub open spec fn be128(x: u128) -> Seq<u8> {
    be32((x >> 96u128) as u32) + be32((x >> 64u128) as u32) + be32((x >> 32u128) as u32) + be32(x as u32)
}

pub open spec fn enc_blob(b: Seq<u8>) -> Seq<u8> {
    be32(b.len() as u32) + b
}

pub open spec fn enc_address(a: SocketAddress) -> Seq<u8> {
    match a.ip {
        IpAddress::V4(ip) => seq![FAMILY_V4] + be32(ip) + be32(a.port as u32),
        IpAddress::V6(ip) => seq![FAMILY_V6] + be128(ip) + be32(a.port as u32),
    }
}

/// The items of a list, each encoded, one after the other.
pub open spec fn enc_items<A>(s: Seq<A>, item: spec_fn(A) -> Seq<u8>) -> Seq<u8>
    decreases s.len(),
{
    if s.len() == 0 {
        Seq::empty()
    } else {
        enc_items(s.drop_last(), item) + item(s.last())
    }
}

pub open spec fn enc_list<A>(s: Seq<A>, item: spec_fn(A) -> Seq<u8>) -> Seq<u8> {
    be32(s.len() as u32) + enc_items(s, item)
}

pub open spec fn enc_hash(h: Seq<u8>) -> Seq<u8> {
    h
}

/// The bytes of a payload.
pub open spec fn encode(p: PayloadModel) -> Seq<u8> {
    match p {
        PayloadModel::Block(b) => seq![TAG_BLOCK] + enc_blob(b),
        PayloadModel::GetBlocks(h) => seq![TAG_GET_BLOCKS] + enc_list(h, |x: Seq<u8>| enc_hash(x)),
        PayloadModel::GetMemoryPool => seq![TAG_GET_MEMORY_POOL],
        PayloadModel::GetPeers => seq![TAG_GET_PEERS],
        PayloadModel::GetSync(h) => seq![TAG_GET_SYNC] + enc_list(h, |x: Seq<u8>| enc_hash(x)),
        PayloadModel::MemoryPool(t) => seq![TAG_MEMORY_POOL] + enc_list(t, |x: Seq<u8>| enc_blob(x)),
        PayloadModel::Peers(a) => seq![TAG_PEERS] + enc_list(a, |x: SocketAddress| enc_address(x)),
        PayloadModel::Ping(h) => seq![TAG_PING] + be32(h),
        PayloadModel::Pong => seq![TAG_PONG],
        PayloadModel::Sync(h) => seq![TAG_SYNC] + enc_list(h, |x: Seq<u8>| enc_hash(x)),
        PayloadModel::SyncBlock(b) => seq![TAG_SYNC_BLOCK] + enc_blob(b),
        PayloadModel::Transaction(b) => seq![TAG_TRANSACTION] + enc_blob(b),
        PayloadModel::Version { nonce, block_height, listener_port } => seq![TAG_VERSION] + be64(nonce) + be32(
            block_height,
        ) + be32(listener_port as u32),
        PayloadModel::Verack { nonce } => seq![TAG_VERACK] + be64(nonce),
    }
}

pub open spec fn fits_word(n: int) -> bool {
    n <= u32::MAX
}

pub open spec fn hashes_ok(h: Seq<Seq<u8>>) -> bool {
    fits_word(h.len() as int) && forall|i: int| 0 <= i < h.len() ==> #[trigger] h[i].len() == HASH_SIZE
}

pub open spec fn blobs_ok(t: Seq<Seq<u8>>) -> bool {
    fits_word(t.len() as int) && forall|i: int| 0 <= i < t.len() ==> fits_word(#[trigger] t[i].len() as int)
}

/// The payloads that have an encoding: every hash is 32 bytes and every
/// length fits in a word.
pub open spec fn encodable(p: PayloadModel) -> bool {
    match p {
        PayloadModel::Block(b) => fits_word(b.len() as int),
        PayloadModel::GetBlocks(h) => hashes_ok(h),
        PayloadModel::GetSync(h) => hashes_ok(h),
        PayloadModel::Sync(h) => hashes_ok(h),
        PayloadModel::MemoryPool(t) => blobs_ok(t),
        PayloadModel::Peers(a) => fits_word(a.len() as int),
        PayloadModel::SyncBlock(b) => fits_word(b.len() as int),
        PayloadModel::Transaction(b) => fits_word(b.len() as int),
        _ => true,
    }
}

// ---------------------------------------------------------------------------
// The decoding, as spec functions over a position in the input.

pub open spec fn parse_word(b: Seq<u8>, pos: int) -> Option<(u32, int)> {
    if 0 <= pos && pos + 4 <= b.len() {
        Some((word_at(b, pos), pos + 4))
    } else {
        None
    }
}

pub open spec fn parse_u64(b: Seq<u8>, pos: int) -> Option<(u64, int)> {
    match parse_word(b, pos) {
        Some((hi, at1)) => match parse_word(b, at1) {
            Some((lo, at2)) => Some(((((hi as u64) << 32u64) | (lo as u64)), at2)),
            None => None,
        },
        None => None,
    }
}

pub open spec fn parse_u128(b: Seq<u8>, pos: int) -> Option<(u128, int)> {
    match parse_u64(b, pos) {
        Some((hi, at1)) => match parse_u64(b, at1) {
            Some((lo, at2)) => Some(((((hi as u128) << 64u128) | (lo as u128)), at2)),
            None => None,
        },
        None => None,
    }
}

pub open spec fn parse_port(b: Seq<u8>, pos: int) -> Option<(u16, int)> {
    match parse_word(b, pos) {
        Some((w, at1)) => if w <= u16::MAX {
            Some((w as u16, at1))
        } else {
            None
        },
        None => None,
    }
}

pub open spec fn parse_blob(b: Seq<u8>, pos: int) -> Option<(Seq<u8>, int)> {
    match parse_word(b, pos) {
        Some((n, at1)) => if at1 + n <= b.len() {
            Some((b.subrange(at1, at1 + n), at1 + n))
        } else {
            None
        },
        None => None,
    }
}

pub open spec fn parse_hash(b: Seq<u8>, pos: int) -> Option<(Seq<u8>, int)> {
    if 0 <= pos && pos + HASH_SIZE <= b.len() {
        Some((b.subrange(pos, pos + HASH_SIZE), pos + HASH_SIZE))
    } else {
        None
    }
}

pub open spec fn parse_address(b: Seq<u8>, pos: int) -> Option<(SocketAddress, int)> {
    if 0 <= pos < b.len() && b[pos] == FAMILY_V4 {
        match parse_word(b, pos + 1) {
            Some((ip, at1)) => match parse_port(b, at1) {
                Some((port, at2)) => Some((SocketAddress { ip: IpAddress::V4(ip), port }, at2)),
                None => None,
            },
            None => None,
        }
    } else if 0 <= pos < b.len() && b[pos] == FAMILY_V6 {
        match parse_u128(b, pos + 1) {
            Some((ip, at1)) => match parse_port(b, at1) {
                Some((port, at2)) => Some((SocketAddress { ip: IpAddress::V6(ip), port }, at2)),
                None => None,
            },
            None => None,
        }
    } else {
        None
    }
}

/// Reads `n` items one after the other, starting at `pos`.
pub open spec fn parse_items<A>(
    b: Seq<u8>,
    pos: int,
    n: nat,
    item: spec_fn(Seq<u8>, int) -> Option<(A, int)>,
) -> Option<(Seq<A>, int)>
    decreases n,
{
    if n == 0 {
        Some((Seq::empty(), pos))
    } else {
        match parse_items(b, pos, (n - 1) as nat, item) {
            Some((xs, at1)) => match item(b, at1) {
                Some((x, at2)) => Some((xs.push(x), at2)),
                None => None,
            },
            None => None,
        }
    }
}

pub open spec fn parse_list<A>(b: Seq<u8>, pos: int, item: spec_fn(Seq<u8>, int) -> Option<(A, int)>) -> Option<
    (Seq<A>, int),
> {
    match parse_word(b, pos) {
        Some((n, at1)) => parse_items(b, at1, n as nat, item),
        None => None,
    }
}

pub open spec fn parse_hashes(b: Seq<u8>, pos: int) -> Option<(Seq<Seq<u8>>, int)> {
    parse_list(b, pos, |b: Seq<u8>, p: int| parse_hash(b, p))
}

pub open spec fn parse_blobs(b: Seq<u8>, pos: int) -> Option<(Seq<Seq<u8>>, int)> {
    parse_list(b, pos, |b: Seq<u8>, p: int| parse_blob(b, p))
}

pub open spec fn parse_addresses(b: Seq<u8>, pos: int) -> Option<(Seq<SocketAddress>, int)> {
    parse_list(b, pos, |b: Seq<u8>, p: int| parse_address(b, p))
}

/// The body of a payload with the given tag, read from position 1.
pub open spec fn parse_body(b: Seq<u8>, tag: u8) -> Option<(PayloadModel, int)> {
    if tag == TAG_BLOCK {
        match parse_blob(b, 1) {
            Some((x, p)) => Some((PayloadModel::Block(x), p)),
            None => None,
        }
    } else if tag == TAG_GET_BLOCKS {
        match parse_hashes(b, 1) {
            Some((x, p)) => Some((PayloadModel::GetBlocks(x), p)),
            None => None,
        }
    } else if tag == TAG_GET_MEMORY_POOL {
        Some((PayloadModel::GetMemoryPool, 1))
    } else if tag == TAG_GET_PEERS {
        Some((PayloadModel::GetPeers, 1))
    } else if tag == TAG_GET_SYNC {
        match parse_hashes(b, 1) {
            Some((x, p)) => Some((PayloadModel::GetSync(x), p)),
            None => None,
        }
    } else if tag == TAG_MEMORY_POOL {
        match parse_blobs(b, 1) {
            Some((x, p)) => Some((PayloadModel::MemoryPool(x), p)),
            None => None,
        }
    } else if tag == TAG_PEERS {
        match parse_addresses(b, 1) {
            Some((x, p)) => Some((PayloadModel::Peers(x), p)),
            None => None,
        }
    } else if tag == TAG_PING {
        match parse_word(b, 1) {
            Some((x, p)) => Some((PayloadModel::Ping(x), p)),
            None => None,
        }
    } else if tag == TAG_PONG {
        Some((PayloadModel::Pong, 1))
    } else if tag == TAG_SYNC {
        match parse_hashes(b, 1) {
            Some((x, p)) => Some((PayloadModel::Sync(x), p)),
            None => None,
        }
    } else if tag == TAG_SYNC_BLOCK {
        match parse_blob(b, 1) {
            Some((x, p)) => Some((PayloadModel::SyncBlock(x), p)),
            None => None,
        }
    } else if tag == TAG_TRANSACTION {
        match parse_blob(b, 1) {
            Some((x, p)) => Some((PayloadModel::Transaction(x), p)),
            None => None,
        }
    } else if tag == TAG_VERSION {
        match parse_u64(b, 1) {
            Some((nonce, at1)) => match parse_word(b, at1) {
                Some((block_height, at2)) => match parse_port(b, at2) {
                    Some((listener_port, at3)) => Some(
                        (PayloadModel::Version { nonce, block_height, listener_port }, at3),
                    ),
                    None => None,
                },
                None => None,
            },
            None => None,
        }
    } else if tag == TAG_VERACK {
        match parse_u64(b, 1) {
            Some((nonce, p)) => Some((PayloadModel::Verack { nonce }, p)),
            None => None,
        }
    } else {
        None
    }
}

/// The payload that the bytes hold, if they hold exactly one and nothing more.
pub open spec fn decode(b: Seq<u8>) -> Option<PayloadModel> {
    if b.len() == 0 {
        None
    } else {
        match parse_body(b, b[0]) {
            Some((p, end)) => if end == b.len() {
                Some(p)
            } else {
                None
            },
            None => None,
        }
    }
}

// ---------------------------------------------------------------------------
// Decoding undoes encoding.

/// `e` stands in `b` from position `pos` on.
pub open spec fn holds_at(b: Seq<u8>, pos: int, e: Seq<u8>) -> bool {
    0 <= pos && pos + e.len() <= b.len() && b.subrange(pos, pos + e.len()) == e
}

pub(crate) proof fn lemma_split(b: Seq<u8>, pos: int, e1: Seq<u8>, e2: Seq<u8>)
    requires
        holds_at(b, pos, e1 + e2),
    ensures
        holds_at(b, pos, e1),
        holds_at(b, pos + e1.len(), e2),
{
    assert(b.subrange(pos, pos + e1.len()) =~= (e1 + e2).subrange(0, e1.len() as int));
    assert((e1 + e2).subrange(0, e1.len() as int) =~= e1);
    assert(b.subrange(pos + e1.len(), pos + e1.len() + e2.len()) =~= (e1 + e2).subrange(
        e1.len() as int,
        (e1.len() + e2.len()) as int,
    ));
    assert((e1 + e2).subrange(e1.len() as int, (e1.len() + e2.len()) as int) =~= e2);
}

proof fn lemma_byte(b: Seq<u8>, pos: int, e: Seq<u8>, k: int)
    requires
        holds_at(b, pos, e),
        0 <= k < e.len(),
    ensures
        b[pos + k] == e[k],
{
    assert(b.subrange(pos, pos + e.len())[k] == b[pos + k]);
}

proof fn lemma_be32_bits(x: u32)
    ensures
        ((((x >> 24u32) as u8) as u32) << 24u32) | ((((x >> 16u32) as u8) as u32) << 16u32) | ((((x
            >> 8u32) as u8) as u32) << 8u32) | ((x as u8) as u32) == x,
{
    assert(((((x >> 24u32) as u8) as u32) << 24u32) | ((((x >> 16u32) as u8) as u32) << 16u32) | ((((x
        >> 8u32) as u8) as u32) << 8u32) | ((x as u8) as u32) == x) by (bit_vector);
}

pub(crate) proof fn lemma_word(b: Seq<u8>, pos: int, x: u32)
    requires
        holds_at(b, pos, be32(x)),
    ensures
        parse_word(b, pos) == Some((x, pos + 4)),
{
    lemma_byte(b, pos, be32(x), 0);
    lemma_byte(b, pos, be32(x), 1);
    lemma_byte(b, pos, be32(x), 2);
    lemma_byte(b, pos, be32(x), 3);
    lemma_be32_bits(x);
}

pub(crate) proof fn lemma_u64(b: Seq<u8>, pos: int, x: u64)
    requires
        holds_at(b, pos, be64(x)),
    ensures
        parse_u64(b, pos) == Some((x, pos + 8)),
{
    lemma_split(b, pos, be32((x >> 32u64) as u32), be32(x as u32));
    lemma_word(b, pos, (x >> 32u64) as u32);
    lemma_word(b, pos + 4, x as u32);
    assert(((((x >> 32u64) as u32) as u64) << 32u64) | ((x as u32) as u64) == x) by (bit_vector);
}

proof fn lemma_u128(b: Seq<u8>, pos: int, x: u128)
    requires
        holds_at(b, pos, be128(x)),
    ensures
        parse_u128(b, pos) == Some((x, pos + 16)),
{
    let w0 = be32((x >> 96u128) as u32);
    let w1 = be32((x >> 64u128) as u32);
    let w2 = be32((x >> 32u128) as u32);
    let w3 = be32(x as u32);
    let hi = (x >> 64u128) as u64;
    let lo = x as u64;
    assert((hi >> 32u64) as u32 == (x >> 96u128) as u32) by (bit_vector)
        requires
            hi == (x >> 64u128) as u64,
    ;
    assert(hi as u32 == (x >> 64u128) as u32) by (bit_vector)
        requires
            hi == (x >> 64u128) as u64,
    ;
    assert((lo >> 32u64) as u32 == (x >> 32u128) as u32) by (bit_vector)
        requires
            lo == x as u64,
    ;
    assert(lo as u32 == x as u32) by (bit_vector)
        requires
            lo == x as u64,
    ;
    assert(be128(x) =~= be64(hi) + be64(lo));
    lemma_split(b, pos, be64(hi), be64(lo));
    lemma_u64(b, pos, hi);
    lemma_u64(b, pos + 8, lo);
    assert((((x >> 64u128) as u64) as u128) << 64u128 | ((x as u64) as u128) == x) by (bit_vector);
}

proof fn lemma_port(b: Seq<u8>, pos: int, port: u16)
    requires
        holds_at(b, pos, be32(port as u32)),
    ensures
        parse_port(b, pos) == Some((port, pos + 4)),
{
    lemma_word(b, pos, port as u32);
}

proof fn lemma_blob(b: Seq<u8>, pos: int, x: Seq<u8>)
    requires
        holds_at(b, pos, enc_blob(x)),
        fits_word(x.len() as int),
    ensures
        parse_blob(b, pos) == Some((x, pos + enc_blob(x).len())),
{
    lemma_split(b, pos, be32(x.len() as u32), x);
    lemma_word(b, pos, x.len() as u32);
}

proof fn lemma_hash(b: Seq<u8>, pos: int, x: Seq<u8>)
    requires
        holds_at(b, pos, enc_hash(x)),
        x.len() == HASH_SIZE,
    ensures
        parse_hash(b, pos) == Some((x, pos + enc_hash(x).len())),
{
}

pub(crate) proof fn lemma_address(b: Seq<u8>, pos: int, a: SocketAddress)
    requires
        holds_at(b, pos, enc_address(a)),
    ensures
        parse_address(b, pos) == Some((a, pos + enc_address(a).len())),
{
    match a.ip {
        IpAddress::V4(ip) => {
            lemma_split(b, pos, seq![FAMILY_V4] + be32(ip), be32(a.port as u32));
            lemma_split(b, pos, seq![FAMILY_V4], be32(ip));
            lemma_byte(b, pos, seq![FAMILY_V4], 0);
            lemma_word(b, pos + 1, ip);
            lemma_port(b, pos + 5, a.port);
        },
        IpAddress::V6(ip) => {
            lemma_split(b, pos, seq![FAMILY_V6] + be128(ip), be32(a.port as u32));
            lemma_split(b, pos, seq![FAMILY_V6], be128(ip));
            lemma_byte(b, pos, seq![FAMILY_V6], 0);
            lemma_u128(b, pos + 1, ip);
            lemma_port(b, pos + 17, a.port);
        },
    }
}

/// Items that each decode back from their encoding make a list that does too.
proof fn lemma_items<A>(
    b: Seq<u8>,
    pos: int,
    s: Seq<A>,
    enc: spec_fn(A) -> Seq<u8>,
    dec: spec_fn(Seq<u8>, int) -> Option<(A, int)>,
)
    requires
        holds_at(b, pos, enc_items(s, enc)),
        forall|i: int, p: int| #![trigger dec(b, p), s[i]]
            0 <= i < s.len() && holds_at(b, p, enc(s[i])) ==> dec(b, p) == Some(
                (s[i], p + enc(s[i]).len()),
            ),
    ensures
        parse_items(b, pos, s.len(), dec) == Some((s, pos + enc_items(s, enc).len())),
    decreases s.len(),
{
    if s.len() > 0 {
        let init = s.drop_last();
        lemma_split(b, pos, enc_items(init, enc), enc(s.last()));
        assert forall|i: int, p: int| #![trigger dec(b, p), init[i]]
            0 <= i < init.len() && holds_at(b, p, enc(init[i])) implies dec(b, p) == Some(
            (init[i], p + enc(init[i]).len()),
        ) by {
            assert(init[i] == s[i]);
        }
        lemma_items(b, pos, init, enc, dec);
        assert(dec(b, pos + enc_items(init, enc).len()) == Some(
            (s[s.len() - 1], pos + enc_items(init, enc).len() + enc(s[s.len() - 1]).len()),
        ));
        assert(init.push(s.last()) =~= s);
    } else {
        assert(enc_items(s, enc) =~= Seq::<u8>::empty());
    }
}

proof fn lemma_list<A>(
    b: Seq<u8>,
    pos: int,
    s: Seq<A>,
    enc: spec_fn(A) -> Seq<u8>,
    dec: spec_fn(Seq<u8>, int) -> Option<(A, int)>,
)
    requires
        holds_at(b, pos, enc_list(s, enc)),
        fits_word(s.len() as int),
        forall|i: int, p: int| #![trigger dec(b, p), s[i]]
            0 <= i < s.len() && holds_at(b, p, enc(s[i])) ==> dec(b, p) == Some(
                (s[i], p + enc(s[i]).len()),
            ),
    ensures
        parse_list(b, pos, dec) == Some((s, pos + enc_list(s, enc).len())),
{
    lemma_split(b, pos, be32(s.len() as u32), enc_items(s, enc));
    lemma_word(b, pos, s.len() as u32);
    lemma_items(b, pos + 4, s, enc, dec);
}

proof fn lemma_hashes(b: Seq<u8>, pos: int, h: Seq<Seq<u8>>)
    requires
        holds_at(b, pos, enc_list(h, |x: Seq<u8>| enc_hash(x))),
        hashes_ok(h),
    ensures
        parse_hashes(b, pos) == Some((h, pos + enc_list(h, |x: Seq<u8>| enc_hash(x)).len())),
{
    let enc = |x: Seq<u8>| enc_hash(x);
    let dec = |b: Seq<u8>, p: int| parse_hash(b, p);
    assert forall|i: int, p: int| #![trigger dec(b, p), h[i]]
        0 <= i < h.len() && holds_at(b, p, enc(h[i])) implies dec(b, p) == Some(
        (h[i], p + enc(h[i]).len()),
    ) by {
        lemma_hash(b, p, h[i]);
    }
    lemma_list(b, pos, h, enc, dec);
}

proof fn lemma_blobs(b: Seq<u8>, pos: int, t: Seq<Seq<u8>>)
    requires
        holds_at(b, pos, enc_list(t, |x: Seq<u8>| enc_blob(x))),
        blobs_ok(t),
    ensures
        parse_blobs(b, pos) == Some((t, pos + enc_list(t, |x: Seq<u8>| enc_blob(x)).len())),
{
    let enc = |x: Seq<u8>| enc_blob(x);
    let dec = |b: Seq<u8>, p: int| parse_blob(b, p);
    assert forall|i: int, p: int| #![trigger dec(b, p), t[i]]
        0 <= i < t.len() && holds_at(b, p, enc(t[i])) implies dec(b, p) == Some(
        (t[i], p + enc(t[i]).len()),
    ) by {
        lemma_blob(b, p, t[i]);
    }
    lemma_list(b, pos, t, enc, dec);
}

proof fn lemma_addresses(b: Seq<u8>, pos: int, a: Seq<SocketAddress>)
    requires
        holds_at(b, pos, enc_list(a, |x: SocketAddress| enc_address(x))),
        fits_word(a.len() as int),
    ensures
        parse_addresses(b, pos) == Some((a, pos + enc_list(a, |x: SocketAddress| enc_address(x)).len())),
{
    let enc = |x: SocketAddress| enc_address(x);
    let dec = |b: Seq<u8>, p: int| parse_address(b, p);
    assert forall|i: int, p: int| #![trigger dec(b, p), a[i]]
        0 <= i < a.len() && holds_at(b, p, enc(a[i])) implies dec(b, p) == Some(
        (a[i], p + enc(a[i]).len()),
    ) by {
        lemma_address(b, p, a[i]);
    }
    lemma_list(b, pos, a, enc, dec);
}

/// The bytes after the tag byte, and their place in the whole.
proof fn lemma_body(p: PayloadModel)
    ensures
        encode(p).len() >= 1,
        holds_at(encode(p), 1, encode(p).subrange(1, encode(p).len() as int)),
{
    let b = encode(p);
    assert(b.len() >= 1);
    let body = b.subrange(1, b.len() as int);
    assert(b.subrange(1, 1 + body.len() as int) =~= body);
}

proof fn lemma_decoded(b: Seq<u8>, p: PayloadModel)
    requires
        b.len() >= 1,
        parse_body(b, b[0]) == Some((p, b.len() as int)),
    ensures
        decode(b) == Some(p),
{
}

proof fn lemma_round_trip_blob(p: PayloadModel, x: Seq<u8>)
    requires
        p == PayloadModel::Block(x) || p == PayloadModel::SyncBlock(x) || p == PayloadModel::Transaction(x),
        fits_word(x.len() as int),
    ensures
        decode(encode(p)) == Some(p),
{
    let b = encode(p);
    lemma_body(p);
    assert(b.subrange(1, b.len() as int) =~= enc_blob(x));
    lemma_blob(b, 1, x);
    lemma_decoded(b, p);
}

proof fn lemma_round_trip_hashes(p: PayloadModel, h: Seq<Seq<u8>>)
    requires
        p == PayloadModel::GetBlocks(h) || p == PayloadModel::GetSync(h) || p == PayloadModel::Sync(h),
        hashes_ok(h),
    ensures
        decode(encode(p)) == Some(p),
{
    let b = encode(p);
    lemma_body(p);
    assert(b.subrange(1, b.len() as int) =~= enc_list(h, |x: Seq<u8>| enc_hash(x)));
    lemma_hashes(b, 1, h);
    lemma_decoded(b, p);
}

proof fn lemma_round_trip_blobs(t: Seq<Seq<u8>>)
    requires
        blobs_ok(t),
    ensures
        decode(encode(PayloadModel::MemoryPool(t))) == Some(PayloadModel::MemoryPool(t)),
{
    let p = PayloadModel::MemoryPool(t);
    let b = encode(p);
    lemma_body(p);
    assert(b.subrange(1, b.len() as int) =~= enc_list(t, |x: Seq<u8>| enc_blob(x)));
    lemma_blobs(b, 1, t);
    lemma_decoded(b, p);
}

proof fn lemma_round_trip_addresses(a: Seq<SocketAddress>)
    requires
        fits_word(a.len() as int),
    ensures
        decode(encode(PayloadModel::Peers(a))) == Some(PayloadModel::Peers(a)),
{
    let p = PayloadModel::Peers(a);
    let b = encode(p);
    lemma_body(p);
    assert(b.subrange(1, b.len() as int) =~= enc_list(a, |x: SocketAddress| enc_address(x)));
    lemma_addresses(b, 1, a);
    lemma_decoded(b, p);
}

proof fn lemma_round_trip_fixed(p: PayloadModel)
    requires
        p is Ping || p is Version || p is Verack || p is Pong || p is GetPeers || p is GetMemoryPool,
    ensures
        decode(encode(p)) == Some(p),
{
    let b = encode(p);
    lemma_body(p);
    match p {
        PayloadModel::Ping(h) => {
            assert(b.subrange(1, b.len() as int) =~= be32(h));
            lemma_word(b, 1, h);
        },
        PayloadModel::Version { nonce, block_height, listener_port } => {
            assert(b.subrange(1, b.len() as int) =~= be64(nonce) + be32(block_height) + be32(
                listener_port as u32,
            ));
            lemma_split(b, 1, be64(nonce) + be32(block_height), be32(listener_port as u32));
            lemma_split(b, 1, be64(nonce), be32(block_height));
            lemma_u64(b, 1, nonce);
            lemma_word(b, 9, block_height);
            lemma_port(b, 13, listener_port);
        },
        PayloadModel::Verack { nonce } => {
            assert(b.subrange(1, b.len() as int) =~= be64(nonce));
            lemma_u64(b, 1, nonce);
        },
        _ => {},
    }
    lemma_decoded(b, p);
}

/// Decoding the encoding of a payload gives the payload back, for every
/// payload that has an encoding.
pub proof fn lemma_payload_round_trip(p: PayloadModel)
    requires
        encodable(p),
    ensures
        decode(encode(p)) == Some(p),
{
    match p {
        PayloadModel::Block(x) => lemma_round_trip_blob(p, x),
        PayloadModel::SyncBlock(x) => lemma_round_trip_blob(p, x),
        PayloadModel::Transaction(x) => lemma_round_trip_blob(p, x),
        PayloadModel::GetBlocks(h) => lemma_round_trip_hashes(p, h),
        PayloadModel::GetSync(h) => lemma_round_trip_hashes(p, h),
        PayloadModel::Sync(h) => lemma_round_trip_hashes(p, h),
        PayloadModel::MemoryPool(t) => lemma_round_trip_blobs(t),
        PayloadModel::Peers(a) => lemma_round_trip_addresses(a),
        _ => lemma_round_trip_fixed(p),
    }
}

// ---------------------------------------------------------------------------
// Encoding.

pub(crate) fn push_word(out: &mut Vec<u8>, x: u32)
    ensures
        final(out)@ == old(out)@ + be32(x),
{
    out.push((x >> 24u32) as u8);
    out.push((x >> 16u32) as u8);
    out.push((x >> 8u32) as u8);
    out.push(x as u8);
    assert(final(out)@ =~= old(out)@ + be32(x));
}

pub(crate) fn push_u64(out: &mut Vec<u8>, x: u64)
    ensures
        final(out)@ == old(out)@ + be64(x),
{
    push_word(out, (x >> 32u64) as u32);
    push_word(out, x as u32);
    assert(final(out)@ =~= old(out)@ + be64(x));
}

pub(crate) fn push_u128(out: &mut Vec<u8>, x: u128)
    ensures
        final(out)@ == old(out)@ + be128(x),
{
    push_word(out, (x >> 96u128) as u32);
    push_word(out, (x >> 64u128) as u32);
    push_word(out, (x >> 32u128) as u32);
    push_word(out, x as u32);
    assert(final(out)@ =~= old(out)@ + be128(x));
}

fn push_bytes(out: &mut Vec<u8>, b: &Vec<u8>)
    ensures
        final(out)@ == old(out)@ + b@,
{
    let mut i: usize = 0;
    while i < b.len()
        invariant
            i <= b.len(),
            out@ == old(out)@ + b@.subrange(0, i as int),
        decreases b.len() - i,
    {
        out.push(b[i]);
        assert(b@.subrange(0, i + 1) =~= b@.subrange(0, i as int).push(b@[i as int]));
        i = i + 1;
    }
    assert(b@.subrange(0, b.len() as int) =~= b@);
}

fn push_blob(out: &mut Vec<u8>, b: &Vec<u8>)
    requires
        fits_word(b.len() as int),
    ensures
        final(out)@ == old(out)@ + enc_blob(b@),
{
    push_word(out, b.len() as u32);
    push_bytes(out, b);
    assert(final(out)@ =~= old(out)@ + enc_blob(b@));
}

proof fn lemma_items_step<A>(s: Seq<A>, i: int, enc: spec_fn(A) -> Seq<u8>)
    requires
        0 <= i < s.len(),
    ensures
        enc_items(s.take(i + 1), enc) == enc_items(s.take(i), enc) + enc(s[i]),
{
    assert(s.take(i + 1).drop_last() =~= s.take(i));
}

fn push_hashes(out: &mut Vec<u8>, h: &Vec<Vec<u8>>)
    requires
        hashes_ok(blobs_model(h@)),
    ensures
        final(out)@ == old(out)@ + enc_list(blobs_model(h@), |x: Seq<u8>| enc_hash(x)),
{
    let ghost m = blobs_model(h@);
    push_word(out, h.len() as u32);
    let ghost start = out@;
    let mut i: usize = 0;
    while i < h.len()
        invariant
            i <= h.len(),
            m == blobs_model(h@),
            out@ == start + enc_items(m.take(i as int), (|x: Seq<u8>| enc_hash(x))),
        decreases h.len() - i,
    {
        push_bytes(out, &h[i]);
        proof {
            lemma_items_step(m, i as int, (|x: Seq<u8>| enc_hash(x)));
            assert(out@ =~= start + enc_items(m.take(i + 1), (|x: Seq<u8>| enc_hash(x))));
        }
        i = i + 1;
    }
    assert(m.take(h.len() as int) =~= m);
}

fn push_blobs(out: &mut Vec<u8>, t: &Vec<Vec<u8>>)
    requires
        blobs_ok(blobs_model(t@)),
    ensures
        final(out)@ == old(out)@ + enc_list(blobs_model(t@), |x: Seq<u8>| enc_blob(x)),
{
    let ghost m = blobs_model(t@);
    push_word(out, t.len() as u32);
    let ghost start = out@;
    let mut i: usize = 0;
    while i < t.len()
        invariant
            i <= t.len(),
            m == blobs_model(t@),
            blobs_ok(m),
            out@ == start + enc_items(m.take(i as int), (|x: Seq<u8>| enc_blob(x))),
        decreases t.len() - i,
    {
        assert(fits_word(m[i as int].len() as int));
        push_blob(out, &t[i]);
        proof {
            lemma_items_step(m, i as int, (|x: Seq<u8>| enc_blob(x)));
            assert(out@ =~= start + enc_items(m.take(i + 1), (|x: Seq<u8>| enc_blob(x))));
        }
        i = i + 1;
    }
    assert(m.take(t.len() as int) =~= m);
}

pub(crate) fn push_address(out: &mut Vec<u8>, a: SocketAddress)
    ensures
        final(out)@ == old(out)@ + enc_address(a),
{
    match a.ip {
        IpAddress::V4(ip) => {
            out.push(FAMILY_V4);
            push_word(out, ip);
        },
        IpAddress::V6(ip) => {
            out.push(FAMILY_V6);
            push_u128(out, ip);
        },
    }
    push_word(out, a.port as u32);
    assert(final(out)@ =~= old(out)@ + enc_address(a));
}

fn push_addresses(out: &mut Vec<u8>, a: &Vec<SocketAddress>)
    requires
        fits_word(a.len() as int),
    ensures
        final(out)@ == old(out)@ + enc_list(a@, |x: SocketAddress| enc_address(x)),
{
    push_word(out, a.len() as u32);
    let ghost start = out@;
    let mut i: usize = 0;
    while i < a.len()
        invariant
            i <= a.len(),
            out@ == start + enc_items(a@.take(i as int), (|x: SocketAddress| enc_address(x))),
        decreases a.len() - i,
    {
        let ghost before = out@;
        push_address(out, a[i]);
        proof {
            lemma_items_step(a@, i as int, (|x: SocketAddress| enc_address(x)));
            assert(out@ =~= start + enc_items(a@.take(i + 1), (|x: SocketAddress| enc_address(x))));
        }
        i = i + 1;
    }
    assert(a@.take(a.len() as int) =~= a@);
}

fn check_hashes(h: &Vec<Vec<u8>>) -> (r: bool)
    ensures
        r == hashes_ok(blobs_model(h@)),
{
    if h.len() > u32::MAX as usize {
        return false;
    }
    let mut i: usize = 0;
    while i < h.len()
        invariant
            i <= h.len(),
            forall|j: int| 0 <= j < i ==> #[trigger] blobs_model(h@)[j].len() == HASH_SIZE,
        decreases h.len() - i,
    {
        if h[i].len() != HASH_SIZE {
            assert(blobs_model(h@)[i as int].len() != HASH_SIZE);
            return false;
        }
        i = i + 1;
    }
    true
}

fn check_blobs(t: &Vec<Vec<u8>>) -> (r: bool)
    ensures
        r == blobs_ok(blobs_model(t@)),
{
    if t.len() > u32::MAX as usize {
        return false;
    }
    let mut i: usize = 0;
    while i < t.len()
        invariant
            i <= t.len(),
            forall|j: int| 0 <= j < i ==> fits_word(#[trigger] blobs_model(t@)[j].len() as int),
        decreases t.len() - i,
    {
        if t[i].len() > u32::MAX as usize {
            assert(!fits_word(blobs_model(t@)[i as int].len() as int));
            return false;
        }
        i = i + 1;
    }
    true
}

/// Encodes a payload. Fails exactly on the payloads that have no encoding.
pub fn serialize_payload(payload: &Payload) -> (r: Result<Vec<u8>, CodecError>)
    ensures
        encodable(payload@) ==> r is Ok && r->Ok_0@ == encode(payload@),
        !encodable(payload@) ==> r == Err::<Vec<u8>, CodecError>(CodecError::Unencodable),
{
    let mut out: Vec<u8> = Vec::new();
    match payload {
        Payload::Block(b) => {
            if b.len() > u32::MAX as usize {
                return Err(CodecError::Unencodable);
            }
            out.push(TAG_BLOCK);
            push_blob(&mut out, b);
        },
        Payload::GetBlocks(h) => {
            if !check_hashes(h) {
                return Err(CodecError::Unencodable);
            }
            out.push(TAG_GET_BLOCKS);
            push_hashes(&mut out, h);
        },
        Payload::GetMemoryPool => {
            out.push(TAG_GET_MEMORY_POOL);
        },
        Payload::GetPeers => {
            out.push(TAG_GET_PEERS);
        },
        Payload::GetSync(h) => {
            if !check_hashes(h) {
                return Err(CodecError::Unencodable);
            }
            out.push(TAG_GET_SYNC);
            push_hashes(&mut out, h);
        },
        Payload::MemoryPool(t) => {
            if !check_blobs(t) {
                return Err(CodecError::Unencodable);
            }
            out.push(TAG_MEMORY_POOL);
            push_blobs(&mut out, t);
        },
        Payload::Peers(a) => {
            if a.len() > u32::MAX as usize {
                return Err(CodecError::Unencodable);
            }
            out.push(TAG_PEERS);
            push_addresses(&mut out, a);
        },
        Payload::Ping(h) => {
            out.push(TAG_PING);
            push_word(&mut out, *h);
        },
        Payload::Pong => {
            out.push(TAG_PONG);
        },
        Payload::Sync(h) => {
            if !check_hashes(h) {
                return Err(CodecError::Unencodable);
            }
            out.push(TAG_SYNC);
            push_hashes(&mut out, h);
        },
        Payload::SyncBlock(b) => {
            if b.len() > u32::MAX as usize {
                return Err(CodecError::Unencodable);
            }
            out.push(TAG_SYNC_BLOCK);
            push_blob(&mut out, b);
        },
        Payload::Transaction(b) => {
            if b.len() > u32::MAX as usize {
                return Err(CodecError::Unencodable);
            }
            out.push(TAG_TRANSACTION);
            push_blob(&mut out, b);
        },
        Payload::Version { nonce, block_height, listener_port } => {
            out.push(TAG_VERSION);
            push_u64(&mut out, *nonce);
            push_word(&mut out, *block_height);
            push_word(&mut out, *listener_port as u32);
        },
        Payload::Verack { nonce } => {
            out.push(TAG_VERACK);
            push_u64(&mut out, *nonce);
        },
    }
    assert(out@ =~= encode(payload@));
    Ok(out)
}

// ---------------------------------------------------------------------------
// Decoding.

fn read_word(b: &[u8], pos: usize) -> (r: Option<(u32, usize)>)
    ensures
        match r {
            Some((x, p)) => parse_word(b@, pos as int) == Some((x, p as int)),
            None => parse_word(b@, pos as int) is None,
        },
{
    if pos <= b.len() && b.len() - pos >= 4 {
        let x = ((b[pos] as u32) << 24u32) | ((b[pos + 1] as u32) << 16u32) | ((b[pos + 2] as u32) << 8u32) | (b[pos
            + 3] as u32);
        Some((x, pos + 4))
    } else {
        None
    }
}

pub(crate) fn read_u64(b: &[u8], pos: usize) -> (r: Option<(u64, usize)>)
    ensures
        match r {
            Some((x, p)) => parse_u64(b@, pos as int) == Some((x, p as int)),
            None => parse_u64(b@, pos as int) is None,
        },
{
    let (hi, at1) = match read_word(b, pos) {
        Some(w) => w,
        None => return None,
    };
    let (lo, at2) = match read_word(b, at1) {
        Some(w) => w,
        None => return None,
    };
    Some((((hi as u64) << 32u64) | (lo as u64), at2))
}

fn read_u128(b: &[u8], pos: usize) -> (r: Option<(u128, usize)>)
    ensures
        match r {
            Some((x, p)) => parse_u128(b@, pos as int) == Some((x, p as int)),
            None => parse_u128(b@, pos as int) is None,
        },
{
    let (hi, at1) = match read_u64(b, pos) {
        Some(w) => w,
        None => return None,
    };
    let (lo, at2) = match read_u64(b, at1) {
        Some(w) => w,
        None => return None,
    };
    Some((((hi as u128) << 64u128) | (lo as u128), at2))
}

fn read_port(b: &[u8], pos: usize) -> (r: Option<(u16, usize)>)
    ensures
        match r {
            Some((x, p)) => parse_port(b@, pos as int) == Some((x, p as int)),
            None => parse_port(b@, pos as int) is None,
        },
{
    let (w, at1) = match read_word(b, pos) {
        Some(w) => w,
        None => return None,
    };
    if w <= u16::MAX as u32 {
        Some((w as u16, at1))
    } else {
        None
    }
}

fn copy_range(b: &[u8], from: usize, to: usize) -> (r: Vec<u8>)
    requires
        from <= to <= b.len(),
    ensures
        r@ == b@.subrange(from as int, to as int),
{
    let mut out: Vec<u8> = Vec::new();
    let mut i: usize = from;
    while i < to
        invariant
            from <= i <= to <= b.len(),
            out@ == b@.subrange(from as int, i as int),
        decreases to - i,
    {
        out.push(b[i]);
        assert(b@.subrange(from as int, i + 1) =~= b@.subrange(from as int, i as int).push(b@[i as int]));
        i = i + 1;
    }
    out
}

fn read_blob(b: &[u8], pos: usize) -> (r: Option<(Vec<u8>, usize)>)
    ensures
        match r {
            Some((x, p)) => parse_blob(b@, pos as int) == Some((x@, p as int)),
            None => parse_blob(b@, pos as int) is None,
        },
{
    let (n, at1) = match read_word(b, pos) {
        Some(w) => w,
        None => return None,
    };
    if b.len() - at1 >= n as usize {
        let x = copy_range(b, at1, at1 + n as usize);
        Some((x, at1 + n as usize))
    } else {
        None
    }
}

fn read_hash(b: &[u8], pos: usize) -> (r: Option<(Vec<u8>, usize)>)
    ensures
        match r {
            Some((x, p)) => parse_hash(b@, pos as int) == Some((x@, p as int)),
            None => parse_hash(b@, pos as int) is None,
        },
{
    if pos <= b.len() && b.len() - pos >= HASH_SIZE {
        let x = copy_range(b, pos, pos + HASH_SIZE);
        Some((x, pos + HASH_SIZE))
    } else {
        None
    }
}

pub(crate) fn read_address(b: &[u8], pos: usize) -> (r: Option<(SocketAddress, usize)>)
    ensures
        match r {
            Some((x, p)) => parse_address(b@, pos as int) == Some((x, p as int)),
            None => parse_address(b@, pos as int) is None,
        },
{
    if pos >= b.len() {
        return None;
    }
    if b[pos] == FAMILY_V4 {
        let (ip, at1) = match read_word(b, pos + 1) {
            Some(w) => w,
            None => return None,
        };
        let (port, at2) = match read_port(b, at1) {
            Some(w) => w,
            None => return None,
        };
        Some((SocketAddress { ip: IpAddress::V4(ip), port }, at2))
    } else if b[pos] == FAMILY_V6 {
        let (ip, at1) = match read_u128(b, pos + 1) {
            Some(w) => w,
            None => return None,
        };
        let (port, at2) = match read_port(b, at1) {
            Some(w) => w,
            None => return None,
        };
        Some((SocketAddress { ip: IpAddress::V6(ip), port }, at2))
    } else {
        None
    }
}

proof fn lemma_items_none<A>(
    b: Seq<u8>,
    pos: int,
    i: nat,
    n: nat,
    item: spec_fn(Seq<u8>, int) -> Option<(A, int)>,
)
    requires
        i <= n,
        parse_items(b, pos, i, item) is None,
    ensures
        parse_items(b, pos, n, item) is None,
    decreases n - i,
{
    if i < n {
        lemma_items_none(b, pos, i, (n - 1) as nat, item);
    }
}

fn read_hashes(b: &[u8], pos: usize) -> (r: Option<(Vec<Vec<u8>>, usize)>)
    ensures
        match r {
            Some((v, p)) => parse_hashes(b@, pos as int) == Some((blobs_model(v@), p as int)),
            None => parse_hashes(b@, pos as int) is None,
        },
{
    let (n, at1) = match read_word(b, pos) {
        Some(w) => w,
        None => return None,
    };
    let mut acc: Vec<Vec<u8>> = Vec::new();
    let mut cur: usize = at1;
    let mut i: u32 = 0;
    assert(blobs_model(acc@) =~= Seq::empty());
    while i < n
        invariant
            i <= n,
            parse_word(b@, pos as int) == Some((n, at1 as int)),
            parse_items(b@, at1 as int, i as nat, |b: Seq<u8>, p: int| parse_hash(b, p)) == Some((blobs_model(acc@), cur as int)),
        decreases n - i,
    {
        match read_hash(b, cur) {
            Some((x, at2)) => {
                let ghost before = blobs_model(acc@);
                acc.push(x);
                cur = at2;
                assert(blobs_model(acc@) =~= before.push(x@));
                i = i + 1;
            },
            None => {
                proof {
                    lemma_items_none(b@, at1 as int, (i + 1) as nat, n as nat, |b: Seq<u8>, p: int| parse_hash(b, p));
                }
                return None;
            },
        }
    }
    Some((acc, cur))
}

fn read_blobs(b: &[u8], pos: usize) -> (r: Option<(Vec<Vec<u8>>, usize)>)
    ensures
        match r {
            Some((v, p)) => parse_blobs(b@, pos as int) == Some((blobs_model(v@), p as int)),
            None => parse_blobs(b@, pos as int) is None,
        },
{
    let (n, at1) = match read_word(b, pos) {
        Some(w) => w,
        None => return None,
    };
    let mut acc: Vec<Vec<u8>> = Vec::new();
    let mut cur: usize = at1;
    let mut i: u32 = 0;
    assert(blobs_model(acc@) =~= Seq::empty());
    while i < n
        invariant
            i <= n,
            parse_word(b@, pos as int) == Some((n, at1 as int)),
            parse_items(b@, at1 as int, i as nat, |b: Seq<u8>, p: int| parse_blob(b, p)) == Some((blobs_model(acc@), cur as int)),
        decreases n - i,
    {
        match read_blob(b, cur) {
            Some((x, at2)) => {
                let ghost before = blobs_model(acc@);
                acc.push(x);
                cur = at2;
                assert(blobs_model(acc@) =~= before.push(x@));
                i = i + 1;
            },
            None => {
                proof {
                    lemma_items_none(b@, at1 as int, (i + 1) as nat, n as nat, |b: Seq<u8>, p: int| parse_blob(b, p));
                }
                return None;
            },
        }
    }
    Some((acc, cur))
}

fn read_addresses(b: &[u8], pos: usize) -> (r: Option<(Vec<SocketAddress>, usize)>)
    ensures
        match r {
            Some((v, p)) => parse_addresses(b@, pos as int) == Some((v@, p as int)),
            None => parse_addresses(b@, pos as int) is None,
        },
{
    let (n, at1) = match read_word(b, pos) {
        Some(w) => w,
        None => return None,
    };
    let mut acc: Vec<SocketAddress> = Vec::new();
    let mut cur: usize = at1;
    let mut i: u32 = 0;
    assert(acc@ =~= Seq::empty());
    while i < n
        invariant
            i <= n,
            parse_word(b@, pos as int) == Some((n, at1 as int)),
            parse_items(b@, at1 as int, i as nat, |b: Seq<u8>, p: int| parse_address(b, p)) == Some((acc@, cur as int)),
        decreases n - i,
    {
        match read_address(b, cur) {
            Some((x, at2)) => {
                let ghost before = acc@;
                acc.push(x);
                cur = at2;
                assert(acc@ =~= before.push(x));
                i = i + 1;
            },
            None => {
                proof {
                    lemma_items_none(b@, at1 as int, (i + 1) as nat, n as nat, |b: Seq<u8>, p: int| parse_address(b, p));
                }
                return None;
            },
        }
    }
    Some((acc, cur))
}


fn read_body(b: &[u8], tag: u8) -> (r: Option<(Payload, usize)>)
    ensures
        match r {
            Some((q, p)) => parse_body(b@, tag) == Some((q@, p as int)),
            None => parse_body(b@, tag) is None,
        },
{
    if tag == TAG_BLOCK {
        match read_blob(b, 1) {
            Some((x, p)) => Some((Payload::Block(x), p)),
            None => None,
        }
    } else if tag == TAG_GET_BLOCKS {
        match read_hashes(b, 1) {
            Some((x, p)) => Some((Payload::GetBlocks(x), p)),
            None => None,
        }
    } else if tag == TAG_GET_MEMORY_POOL {
        Some((Payload::GetMemoryPool, 1))
    } else if tag == TAG_GET_PEERS {
        Some((Payload::GetPeers, 1))
    } else if tag == TAG_GET_SYNC {
        match read_hashes(b, 1) {
            Some((x, p)) => Some((Payload::GetSync(x), p)),
            None => None,
        }
    } else if tag == TAG_MEMORY_POOL {
        match read_blobs(b, 1) {
            Some((x, p)) => Some((Payload::MemoryPool(x), p)),
            None => None,
        }
    } else if tag == TAG_PEERS {
        match read_addresses(b, 1) {
            Some((x, p)) => Some((Payload::Peers(x), p)),
            None => None,
        }
    } else if tag == TAG_PING {
        match read_word(b, 1) {
            Some((x, p)) => Some((Payload::Ping(x), p)),
            None => None,
        }
    } else if tag == TAG_PONG {
        Some((Payload::Pong, 1))
    } else if tag == TAG_SYNC {
        match read_hashes(b, 1) {
            Some((x, p)) => Some((Payload::Sync(x), p)),
            None => None,
        }
    } else if tag == TAG_SYNC_BLOCK {
        match read_blob(b, 1) {
            Some((x, p)) => Some((Payload::SyncBlock(x), p)),
            None => None,
        }
    } else if tag == TAG_TRANSACTION {
        match read_blob(b, 1) {
            Some((x, p)) => Some((Payload::Transaction(x), p)),
            None => None,
        }
    } else if tag == TAG_VERSION {
        let (nonce, at1) = match read_u64(b, 1) {
            Some(w) => w,
            None => return None,
        };
        let (block_height, at2) = match read_word(b, at1) {
            Some(w) => w,
            None => return None,
        };
        let (listener_port, at3) = match read_port(b, at2) {
            Some(w) => w,
            None => return None,
        };
        Some((Payload::Version { nonce, block_height, listener_port }, at3))
    } else if tag == TAG_VERACK {
        match read_u64(b, 1) {
            Some((nonce, p)) => Some((Payload::Verack { nonce }, p)),
            None => None,
        }
    } else {
        None
    }
}

/// Decodes a payload. Succeeds exactly when the bytes are the encoding of a
/// payload, with nothing after it.
pub fn deserialize_payload(bytes: &[u8]) -> (r: Result<Payload, CodecError>)
    ensures
        match r {
            Ok(q) => decode(bytes@) == Some(q@),
            Err(e) => decode(bytes@) is None && e == CodecError::Malformed,
        },
{
    if bytes.len() == 0 {
        return Err(CodecError::Malformed);
    }
    match read_body(bytes, bytes[0]) {
        Some((q, end)) => if end == bytes.len() {
            Ok(q)
        } else {
            Err(CodecError::Malformed)
        },
        None => Err(CodecError::Malformed),
    }
}


// ---------------------------------------------------------------------------
// Equality.

fn blobs_eq(a: &Vec<Vec<u8>>, b: &Vec<Vec<u8>>) -> (r: bool)
    ensures
        r == (blobs_model(a@) == blobs_model(b@)),
{
    if a.len() != b.len() {
        assert(blobs_model(a@).len() != blobs_model(b@).len());
        return false;
    }
    let mut i: usize = 0;
    while i < a.len()
        invariant
            i <= a.len() == b.len(),
            forall|j: int| 0 <= j < i ==> #[trigger] blobs_model(a@)[j] == blobs_model(b@)[j],
        decreases a.len() - i,
    {
        if !bytes_eq(&a[i], &b[i]) {
            assert(blobs_model(a@)[i as int] != blobs_model(b@)[i as int]);
            return false;
        }
        i = i + 1;
    }
    assert(blobs_model(a@) =~= blobs_model(b@));
    true
}

fn addresses_eq(a: &Vec<SocketAddress>, b: &Vec<SocketAddress>) -> (r: bool)
    ensures
        r == (a@ == b@),
{
    if a.len() != b.len() {
        return false;
    }
    let mut i: usize = 0;
    while i < a.len()
        invariant
            i <= a.len() == b.len(),
            forall|j: int| 0 <= j < i ==> a@[j] == b@[j],
        decreases a.len() - i,
    {
        if a[i] != b[i] {
            return false;
        }
        i = i + 1;
    }
    assert(a@ =~= b@);
    true
}

impl PartialEq for Payload {
    fn eq(&self, other: &Payload) -> (r: bool)
        ensures
            r == (self@ == other@),
    {
        match (self, other) {
            (Payload::Block(a), Payload::Block(b)) => bytes_eq(a, b),
            (Payload::GetBlocks(a), Payload::GetBlocks(b)) => blobs_eq(a, b),
            (Payload::GetMemoryPool, Payload::GetMemoryPool) => true,
            (Payload::GetPeers, Payload::GetPeers) => true,
            (Payload::GetSync(a), Payload::GetSync(b)) => blobs_eq(a, b),
            (Payload::MemoryPool(a), Payload::MemoryPool(b)) => blobs_eq(a, b),
            (Payload::Peers(a), Payload::Peers(b)) => addresses_eq(a, b),
            (Payload::Ping(a), Payload::Ping(b)) => *a == *b,
            (Payload::Pong, Payload::Pong) => true,
            (Payload::Sync(a), Payload::Sync(b)) => blobs_eq(a, b),
            (Payload::SyncBlock(a), Payload::SyncBlock(b)) => bytes_eq(a, b),
            (Payload::Transaction(a), Payload::Transaction(b)) => bytes_eq(a, b),
            (
                Payload::Version { nonce: n1, block_height: h1, listener_port: l1 },
                Payload::Version { nonce: n2, block_height: h2, listener_port: l2 },
            ) => *n1 == *n2 && *h1 == *h2 && *l1 == *l2,
            (Payload::Verack { nonce: a }, Payload::Verack { nonce: b }) => *a == *b,
            _ => false,
        }
    }
}

impl vstd::std_specs::cmp::PartialEqSpecImpl for Payload {
    open spec fn obeys_eq_spec() -> bool {
        true
    }

    open spec fn eq_spec(&self, other: &Payload) -> bool {
        self@ == other@
    }
}

} // verus!
