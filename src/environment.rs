//! The node's configuration.
use vstd::prelude::*;

use crate::address::SocketAddress;
use crate::error::NetworkError;

verus! {

/// The shortest and the longest accepted peer sync interval, in seconds.
pub const MIN_SYNC_INTERVAL: u64 = 2;
pub const MAX_SYNC_INTERVAL: u64 = 300;

/// The settings of a node.
#[derive(Debug, Clone)]
pub struct Environment {
    pub local_address: SocketAddress,
    pub minimum_number_of_connected_peers: u16,
    pub maximum_number_of_connected_peers: u16,
    /// Seconds between two rounds of peer sync.
    pub sync_interval: u64,
    /// Seconds between two memory-pool syncs.
    pub memory_pool_interval: u8,
    pub bootnodes: Vec<SocketAddress>,
    pub is_bootnode: bool,
    pub is_miner: bool,
    pub network_id: u8,
}

pub open spec fn valid_settings(min_peers: u16, max_peers: u16, sync_interval: u64) -> bool {
    min_peers > 0 && max_peers > 0 && MIN_SYNC_INTERVAL <= sync_interval <= MAX_SYNC_INTERVAL
}

impl Environment {
    /// Checks and gathers the settings. A peer bound of zero and a sync
    /// interval outside 2 to 300 seconds are refused, in that order.
    pub fn new(
        local_address: SocketAddress,
        minimum_number_of_connected_peers: u16,
        maximum_number_of_connected_peers: u16,
        sync_interval: u64,
        memory_pool_interval: u8,
        bootnodes: Vec<SocketAddress>,
        is_bootnode: bool,
        is_miner: bool,
        network_id: u8,
    ) -> (r: Result<Environment, NetworkError>)
        ensures
            (minimum_number_of_connected_peers == 0 || maximum_number_of_connected_peers == 0) ==> r == Err::<
                Environment,
                NetworkError,
            >(NetworkError::PeerCountInvalid),
            minimum_number_of_connected_peers > 0 && maximum_number_of_connected_peers > 0 && !(MIN_SYNC_INTERVAL
                <= sync_interval <= MAX_SYNC_INTERVAL) ==> r == Err::<Environment, NetworkError>(
                NetworkError::SyncIntervalInvalid,
            ),
            valid_settings(minimum_number_of_connected_peers, maximum_number_of_connected_peers, sync_interval)
                ==> r is Ok,
            match r {
                Ok(e) => {
                    &&& e.local_address == local_address
                    &&& e.minimum_number_of_connected_peers == minimum_number_of_connected_peers
                    &&& e.maximum_number_of_connected_peers == maximum_number_of_connected_peers
                    &&& e.sync_interval == sync_interval
                    &&& e.memory_pool_interval == memory_pool_interval
                    &&& e.bootnodes@ == bootnodes@
                    &&& e.is_bootnode == is_bootnode
                    &&& e.is_miner == is_miner
                    &&& e.network_id == network_id
                },
                Err(_) => true,
            },
    {
        if minimum_number_of_connected_peers == 0 || maximum_number_of_connected_peers == 0 {
            return Err(NetworkError::PeerCountInvalid);
        }
        if sync_interval < MIN_SYNC_INTERVAL || sync_interval > MAX_SYNC_INTERVAL {
            return Err(NetworkError::SyncIntervalInvalid);
        }
        Ok(Environment {
            local_address,
            minimum_number_of_connected_peers,
            maximum_number_of_connected_peers,
            sync_interval,
            memory_pool_interval,
            bootnodes,
            is_bootnode,
            is_miner,
            network_id,
        })
    }

    pub fn local_address(&self) -> (r: SocketAddress)
        ensures
            r == self.local_address,
    {
        self.local_address
    }

    pub fn bootnodes(&self) -> (r: &Vec<SocketAddress>)
        ensures
            r == &self.bootnodes,
    {
        &self.bootnodes
    }

    pub fn is_bootnode(&self) -> (r: bool)
        ensures
            r == self.is_bootnode,
    {
        self.is_bootnode
    }

    pub fn is_miner(&self) -> (r: bool)
        ensures
            r == self.is_miner,
    {
        self.is_miner
    }

    pub fn minimum_number_of_connected_peers(&self) -> (r: u16)
        ensures
            r == self.minimum_number_of_connected_peers,
    {
        self.minimum_number_of_connected_peers
    }

    pub fn maximum_number_of_connected_peers(&self) -> (r: u16)
        ensures
            r == self.maximum_number_of_connected_peers,
    {
        self.maximum_number_of_connected_peers
    }

    pub fn sync_interval(&self) -> (r: u64)
        ensures
            r == self.sync_interval,
    {
        self.sync_interval
    }

    pub fn memory_pool_interval(&self) -> (r: u8)
        ensures
            r == self.memory_pool_interval,
    {
        self.memory_pool_interval
    }

    /// The peer that block and memory-pool sync go to: the first bootnode.
    pub fn sync_node(&self) -> (r: Option<SocketAddress>)
        ensures
            self.bootnodes@.len() == 0 ==> r is None,
            self.bootnodes@.len() > 0 ==> r == Some(self.bootnodes@[0]),
    {
        if self.bootnodes.len() > 0 {
            Some(self.bootnodes[0])
        } else {
            None
        }
    }
}

} // verus!
