use snarkos_node::address::SocketAddress;
use snarkos_node::block::{Block, BlockHeader};
use snarkos_node::codec::{deserialize_payload, serialize_payload, Payload};
use snarkos_node::environment::Environment;
use snarkos_node::node::Node;

fn genesis() -> Block {
    Block {
        hash: vec![0; 32],
        header: BlockHeader { previous_hash: vec![255; 32], merkle_root: vec![0; 32], time: 0, difficulty: 1, nonce: 0 },
        transactions: vec![],
    }
}

fn node(local: SocketAddress) -> Node {
    Node::new(Environment::new(local, 1, 10, 10, 5, vec![], false, false, 1).unwrap(), genesis())
}

fn connect(node: &mut Node, address: SocketAddress, nonce: u64) {
    node.peer_book.set_connecting(address, nonce).unwrap();
    node.peer_book.set_connected(address, nonce).unwrap();
}

#[test]
fn test_pings() {
    let local_address = SocketAddress::v4(0x7f00_0001, 4130);
    let remote_address = SocketAddress::v4(0x7f00_0001, 4131);
    let mut local = node(local_address);
    let mut remote = node(remote_address);
    connect(&mut local, remote_address, 1);
    connect(&mut remote, local_address, 2);

    // The remote peer sends a ping and waits for the pong.
    let ping = Payload::Ping(0);
    remote.peer_book.record_ping(local_address, 1_000);
    assert!(remote.peer_book.get(local_address).unwrap().quality.expecting_pong);

    // The local node answers with a pong.
    let received = deserialize_payload(&serialize_payload(&ping).unwrap()).unwrap();
    assert_eq!(received, Payload::Ping(0));
    let pong = local.received_ping(remote_address);
    assert_eq!(pong.receiver, remote_address);

    // The remote peer accepts the pong.
    let received = deserialize_payload(&serialize_payload(&pong.payload).unwrap()).unwrap();
    assert_eq!(received, Payload::Pong);
    remote.received_pong(local_address, 1_040);
    let info = remote.peer_book.get(local_address).unwrap();
    assert!(!info.quality.expecting_pong);
    assert_eq!(info.quality.rtt_ms, 40);
}

#[test]
fn test_ping_protocol() {
    let local_address = SocketAddress::v4(0x7f00_0001, 4130);
    let remote_address = SocketAddress::v4(0x7f00_0001, 4131);
    let mut local = node(local_address);
    connect(&mut local, remote_address, 1);
    local.peer_book.peers[0].set_last_seen(0);

    // The local node pings a peer it has not heard from for three intervals.
    let pings = local.broadcast_ping_requests(30_001, 7);
    assert_eq!(pings.len(), 1);
    assert_eq!(pings[0].receiver, remote_address);
    assert_eq!(pings[0].payload, Payload::Ping(7));
    local.peer_book.record_ping(remote_address, 30_001);

    // A pong from the peer ends the wait.
    local.received_pong(remote_address, 30_010);
    let info = local.peer_book.get(remote_address).unwrap();
    assert!(!info.quality.expecting_pong);
    assert_eq!(info.quality.last_seen, Some(30_010));
}
