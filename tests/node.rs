use snarkos_node::address::SocketAddress;
use snarkos_node::block::{Block, BlockHeader, Transaction};
use snarkos_node::chain::BlockOutcome;
use snarkos_node::codec::Payload;
use snarkos_node::environment::Environment;
use snarkos_node::error::NetworkError;
use snarkos_node::node::Node;

fn local() -> SocketAddress {
    SocketAddress::v4(0x0a00_0001, 4130)
}

fn peer(n: u32) -> SocketAddress {
    SocketAddress::v4(0x0a00_0100 + n, 4130)
}

fn genesis() -> Block {
    Block {
        hash: vec![0; 32],
        header: BlockHeader { previous_hash: vec![255; 32], merkle_root: vec![0; 32], time: 0, difficulty: 1, nonce: 0 },
        transactions: vec![],
    }
}

fn environment(bootnodes: Vec<SocketAddress>) -> Environment {
    Environment::new(local(), 2, 10, 10, 5, bootnodes, false, false, 1).unwrap()
}

fn tx(id: u8) -> Transaction {
    Transaction { id: vec![id; 32], network_id: 1, value_balance: 5, serial_numbers: vec![vec![id; 32]], data: vec![id, 1, 2] }
}

fn connect(node: &mut Node, address: SocketAddress, nonce: u64) {
    node.peer_book.set_connecting(address, nonce).unwrap();
    node.peer_book.set_connected(address, nonce).unwrap();
}

#[test]
fn invalid_settings_are_refused() {
    assert_eq!(Environment::new(local(), 0, 10, 10, 5, vec![], false, false, 1).unwrap_err(), NetworkError::PeerCountInvalid);
    assert_eq!(Environment::new(local(), 1, 0, 10, 5, vec![], false, false, 1).unwrap_err(), NetworkError::PeerCountInvalid);
    assert_eq!(Environment::new(local(), 1, 1, 1, 5, vec![], false, false, 1).unwrap_err(), NetworkError::SyncIntervalInvalid);
    assert_eq!(Environment::new(local(), 1, 1, 301, 5, vec![], false, false, 1).unwrap_err(), NetworkError::SyncIntervalInvalid);
    assert!(Environment::new(local(), 1, 1, 2, 5, vec![], false, false, 1).is_ok());
    assert!(Environment::new(local(), 1, 1, 300, 5, vec![], false, false, 1).is_ok());
}

#[test]
fn transaction_propagation() {
    let mut node = Node::new(environment(vec![]), genesis());
    connect(&mut node, peer(1), 1);
    connect(&mut node, peer(2), 2);
    connect(&mut node, peer(3), 3);
    node.peer_book.set_connecting(peer(4), 4).unwrap();

    let messages = node.received_transaction(peer(1), tx(7), true);
    assert!(node.memory_pool.contains(&vec![7; 32]));
    let mut receivers: Vec<SocketAddress> = messages.iter().map(|m| m.receiver).collect();
    receivers.sort_by_key(|a| a.port as u64 + match a.ip { snarkos_node::address::IpAddress::V4(x) => x as u64, _ => 0 });
    assert_eq!(receivers, vec![peer(2), peer(3)]);
    for m in &messages {
        assert_eq!(m.payload, Payload::Transaction(vec![7, 1, 2]));
    }

    // The same transaction again is dropped and not relayed.
    assert!(node.received_transaction(peer(2), tx(7), true).is_empty());
    // An unverified transaction is dropped.
    assert!(node.received_transaction(peer(2), tx(8), false).is_empty());
    assert!(!node.memory_pool.contains(&vec![8; 32]));
}

#[test]
fn accepted_block_is_relayed() {
    let mut node = Node::new(environment(vec![]), genesis());
    connect(&mut node, peer(1), 1);
    connect(&mut node, peer(2), 2);
    let block = Block {
        hash: vec![1; 32],
        header: BlockHeader { previous_hash: vec![0; 32], merkle_root: vec![0; 32], time: 0, difficulty: 1, nonce: 0 },
        transactions: vec![],
    };
    let (outcome, messages) = node.received_block(peer(1), block, &vec![9, 9], 0);
    assert_eq!(outcome, BlockOutcome::Accepted);
    assert_eq!(messages.len(), 1);
    assert_eq!(messages[0].receiver, peer(2));
    assert_eq!(messages[0].payload, Payload::Block(vec![9, 9]));
}

#[test]
fn memory_pool_is_served_and_merged() {
    let mut node = Node::new(environment(vec![]), genesis());
    assert!(node.received_get_memory_pool(peer(1)).is_none());
    node.received_memory_pool(vec![tx(3), tx(4)]);
    assert!(node.memory_pool.contains(&vec![3; 32]));
    assert!(node.memory_pool.contains(&vec![4; 32]));
    let reply = node.received_get_memory_pool(peer(1)).unwrap();
    assert_eq!(reply.receiver, peer(1));
    match reply.payload {
        Payload::MemoryPool(txs) => assert_eq!(txs.len(), 2),
        other => panic!("unexpected payload {:?}", other),
    }
}

#[test]
fn peer_sync_dials_bootnodes_when_short_of_peers() {
    let mut node = Node::new(environment(vec![peer(5), local()]), genesis());
    connect(&mut node, peer(1), 1);
    let messages = node.update(12);
    let getpeers: Vec<_> = messages.iter().filter(|m| m.payload == Payload::GetPeers).collect();
    assert_eq!(getpeers.len(), 1);
    assert_eq!(getpeers[0].receiver, peer(1));
    let versions: Vec<_> = messages.iter().filter(|m| matches!(m.payload, Payload::Version { .. })).collect();
    assert_eq!(versions.len(), 1);
    assert_eq!(versions[0].receiver, peer(5));
    assert!(node.peer_book.is_connecting(peer(5)));
    match versions[0].payload {
        Payload::Version { nonce, block_height, listener_port } => {
            assert_eq!(block_height, 12);
            assert_eq!(listener_port, 4130);
            assert_eq!(node.peer_book.get(peer(5)).unwrap().handshake_nonce, Some(nonce));
        }
        _ => unreachable!(),
    }
}

#[test]
fn stale_peers_are_pinged() {
    let mut node = Node::new(environment(vec![]), genesis());
    connect(&mut node, peer(1), 1);
    connect(&mut node, peer(2), 2);
    let i = node.peer_book.peers.iter().position(|p| p.address == peer(1)).unwrap();
    node.peer_book.peers[i].set_last_seen(0);
    let j = node.peer_book.peers.iter().position(|p| p.address == peer(2)).unwrap();
    node.peer_book.peers[j].set_last_seen(25_000);
    // Three sync intervals of ten seconds have passed for the first peer only.
    let pings = node.broadcast_ping_requests(30_001, 3);
    assert_eq!(pings.len(), 1);
    assert_eq!(pings[0].receiver, peer(1));
    assert_eq!(pings[0].payload, Payload::Ping(3));
}

#[test]
fn version_requests_go_to_connected_peers_with_their_nonce() {
    let mut node = Node::new(environment(vec![]), genesis());
    connect(&mut node, peer(1), 41);
    node.peer_book.set_connecting(peer(2), 42).unwrap();
    let messages = node.broadcast_version_requests(6);
    assert_eq!(messages.len(), 1);
    assert_eq!(messages[0].receiver, peer(1));
    assert_eq!(messages[0].payload, Payload::Version { nonce: 41, block_height: 6, listener_port: 4130 });
}

#[test]
fn transaction_sync_asks_the_sync_node() {
    let node = Node::new(environment(vec![peer(9)]), genesis());
    let sync = node.environment.sync_node();
    assert_eq!(sync, Some(peer(9)));
    let message = node.update_transactions(sync).unwrap();
    assert_eq!(message.receiver, peer(9));
    assert_eq!(message.payload, Payload::GetMemoryPool);
    assert!(node.update_transactions(None).is_none());
}

#[test]
fn initialize_dials_bootnodes_and_disconnected_peers() {
    let mut node = Node::new(environment(vec![peer(5)]), genesis());
    connect(&mut node, peer(1), 1);
    node.peer_book.set_disconnected(peer(1)).unwrap();
    let messages = node.initialize(0);
    let mut receivers: Vec<u16> = messages.iter().map(|m| m.receiver.port).collect();
    receivers.sort();
    assert_eq!(messages.len(), 2);
    assert!(node.peer_book.is_connecting(peer(1)));
    assert!(node.peer_book.is_connecting(peer(5)));
}

#[test]
fn blocks_are_found_by_hash_and_peers_removed() {
    let mut node = Node::new(environment(vec![]), genesis());
    assert!(node.ledger.get_block(&vec![0; 32]).is_some());
    assert!(node.ledger.get_block(&vec![1; 32]).is_none());
    node.peer_book.add_peer(peer(3)).unwrap();
    assert!(node.peer_book.remove_peer(peer(3)).is_some());
    assert!(node.peer_book.remove_peer(peer(3)).is_none());
    assert!(!node.peer_book.contains(peer(3)));
}

#[test]
fn overdue_pongs_lead_to_disconnection() {
    let mut node = Node::new(environment(vec![]), genesis());
    connect(&mut node, peer(1), 1);
    connect(&mut node, peer(2), 2);
    node.peer_book.record_ping(peer(1), 0);
    node.peer_book.record_ping(peer(2), 0);
    node.received_pong(peer(2), 500);
    let info = node.peer_book.get(peer(2)).unwrap();
    assert_eq!(info.quality.rtt_ms, 500);
    assert!(!info.quality.expecting_pong);
    // The window is one sync interval of ten seconds.
    assert!(node.check_keepalive(10_000).is_empty());
    assert!(node.check_keepalive(10_001).is_empty());
    assert!(node.check_keepalive(10_002).is_empty());
    assert!(node.check_keepalive(10_003).is_empty());
    assert_eq!(node.peer_book.get(peer(1)).unwrap().quality.failures, 3);
    assert_eq!(node.check_keepalive(10_004), vec![peer(1)]);
    assert!(node.peer_book.is_disconnected(peer(1)));
    assert!(node.peer_book.is_connected(peer(2)));
}

fn child(hash: u8, parent: u8) -> Block {
    Block {
        hash: vec![hash; 32],
        header: BlockHeader { previous_hash: vec![parent; 32], merkle_root: vec![0; 32], time: 0, difficulty: 1, nonce: 0 },
        transactions: vec![],
    }
}

#[test]
fn block_sync_exchanges_locator_hashes_and_blocks() {
    let mut node = Node::new(environment(vec![peer(9)]), genesis());
    for h in 1u8..=3 {
        node.received_block(peer(9), child(h, h - 1), &vec![h], 0);
    }
    let locator = node.block_locator();
    assert_eq!(locator, vec![vec![3; 32], vec![2; 32], vec![1; 32], vec![0; 32]]);
    match node.update_blocks(Some(peer(9))).unwrap().payload {
        Payload::GetBlocks(l) => assert_eq!(l, locator),
        other => panic!("unexpected payload {:?}", other),
    }

    // A peer whose tip is block 1 gets the hashes above it.
    let answer = node.received_get_blocks(peer(1), &vec![vec![1; 32], vec![0; 32]]);
    assert_eq!(answer.payload, Payload::Sync(vec![vec![2; 32], vec![3; 32]]));
    // A peer with an unknown locator gets everything above genesis.
    let answer = node.received_get_blocks(peer(1), &vec![vec![77; 32]]);
    assert_eq!(answer.payload, Payload::Sync(vec![vec![1; 32], vec![2; 32], vec![3; 32]]));

    // Hashes this node lacks are asked for.
    let ask = node.received_sync(peer(1), &vec![vec![2; 32], vec![4; 32], vec![5; 32]]).unwrap();
    assert_eq!(ask.payload, Payload::GetSync(vec![vec![4; 32], vec![5; 32]]));
    assert!(node.received_sync(peer(1), &vec![vec![2; 32]]).is_none());

    // Blocks are handed out by hash.
    let blocks = node.received_get_sync(&vec![vec![3; 32], vec![9; 32], vec![1; 32]]);
    let hashes: Vec<Vec<u8>> = blocks.iter().map(|b| b.hash.clone()).collect();
    assert_eq!(hashes, vec![vec![3; 32], vec![1; 32]]);
}

#[test]
fn long_chain_locator_is_sparse() {
    let mut node = Node::new(environment(vec![]), genesis());
    for h in 1u8..=40 {
        node.received_block(peer(9), child(h, h - 1), &vec![h], 0);
    }
    let locator = node.block_locator();
    let heights: Vec<u8> = locator.iter().map(|h| h[0]).collect();
    assert_eq!(heights, vec![40, 39, 38, 37, 36, 35, 34, 33, 32, 31, 29, 25, 17, 1, 0]);
}
