//! The core of a peer-to-peer blockchain node: the chain state engine with
//! fork choice and orphan replay, the memory pool, the peer book and its
//! connection state machine, the version handshake, the payload encoding and
//! framing, and the node's relay and peer-sync decisions.
use vstd::prelude::*;

pub mod address;
pub mod address_book;
pub mod block;
pub mod bytes;
pub mod chain;
pub mod clock;
pub mod codec;
pub mod environment;
pub mod error;
pub mod frame;
pub mod handshake;
pub mod memory_pool;
pub mod miner;
pub mod node;
pub mod optional_vec;
pub mod peer_book;
pub mod peer_info;

verus! {

} // verus!
