use snarkos_node::address::SocketAddress;
use snarkos_node::block::{Block, BlockHeader};
use snarkos_node::codec::Payload;
use snarkos_node::environment::Environment;
use snarkos_node::handshake::{Handshake, HandshakeError, HandshakeStatus, Verack, Version};
use snarkos_node::node::Node;

fn genesis() -> Block {
    Block {
        hash: vec![0; 32],
        header: BlockHeader { previous_hash: vec![255; 32], merkle_root: vec![0; 32], time: 0, difficulty: 1, nonce: 0 },
        transactions: vec![],
    }
}

#[test]
fn test_handshake_full() {
    let local_address = SocketAddress::v4(0x7f00_0001, 4130);
    let remote_address = SocketAddress::v4(0x7f00_0001, 4131);

    // The local node opens with a Version.
    let local_version = Version::new(1u64, 0u32, 17, local_address, remote_address);
    let mut handshake = Handshake::send_new(&local_version);
    assert_eq!(handshake.get_state(), HandshakeStatus::Waiting);

    // The remote node answers with a Verack of that nonce and its own Version.
    let remote_version = Version::new(1u64, 0u32, 29, remote_address, local_address);
    let (mut remote_handshake, verack) = Handshake::receive_new(&remote_version, &local_version);
    let verack = Verack::deserialize(&verack.serialize().unwrap()).unwrap();

    // The local node accepts the Verack.
    handshake.accept(&verack).unwrap();
    assert_eq!(handshake.get_state(), HandshakeStatus::Accepted);

    // The local node acknowledges the remote Version, and the remote node accepts.
    let verack = handshake.receive(&remote_version);
    remote_handshake.accept(&verack).unwrap();
    assert_eq!(remote_handshake.get_state(), HandshakeStatus::Accepted);
}

#[test]
fn verack_with_wrong_nonce_rejects_the_handshake() {
    let local_address = SocketAddress::v4(0x7f00_0001, 4130);
    let remote_address = SocketAddress::v4(0x7f00_0001, 4131);
    let local_version = Version::new(1u64, 0u32, 17, local_address, remote_address);
    let mut handshake = Handshake::send_new(&local_version);
    let wrong = Verack::new(18, remote_address, local_address);
    assert_eq!(handshake.accept(&wrong), Err(HandshakeError::InvalidNonce(17, 18)));
    assert_eq!(handshake.get_state(), HandshakeStatus::Rejected);
}

#[test]
fn update_address_replaces_the_peer() {
    let local_version = Version::new(1, 0, 5, SocketAddress::v4(1, 1), SocketAddress::v4(2, 2));
    let mut handshake = Handshake::send_new(&local_version);
    handshake.update_address(SocketAddress::v4(3, 3));
    assert_eq!(handshake.peer, SocketAddress::v4(3, 3));
    assert_eq!(handshake.nonce, 5);
}

#[test]
fn two_nodes_complete_the_handshake_and_both_connect() {
    let a_address = SocketAddress::v4(0x7f00_0001, 4130);
    let b_address = SocketAddress::v4(0x7f00_0001, 4131);
    let mut a = Node::new(Environment::new(a_address, 1, 10, 10, 5, vec![b_address], false, false, 1).unwrap(), genesis());
    let mut b = Node::new(Environment::new(b_address, 1, 10, 10, 5, vec![], true, false, 1).unwrap(), genesis());

    // A opens with a Version.
    let opening = a.connect_to_bootnodes(0);
    assert_eq!(opening.len(), 1);
    let a_nonce = match opening[0].payload {
        Payload::Version { nonce, .. } => nonce,
        _ => unreachable!(),
    };
    assert!(a.peer_book.is_connecting(b_address));

    // B acknowledges it and sends its own Version.
    let replies = b.received_version(a_address, a_nonce, 0);
    assert_eq!(replies.len(), 2);
    assert_eq!(replies[0].payload, Payload::Verack { nonce: a_nonce });
    let b_nonce = match replies[1].payload {
        Payload::Version { nonce, .. } => nonce,
        _ => unreachable!(),
    };

    // A accepts the acknowledgement and acknowledges B's Version.
    a.received_verack(b_address, a_nonce);
    assert!(a.peer_book.is_connected(b_address));
    let answer = a.received_version(b_address, b_nonce, 0);
    assert_eq!(answer.len(), 1);
    assert_eq!(answer[0].payload, Payload::Verack { nonce: b_nonce });

    // B accepts it: both sides are connected.
    b.received_verack(a_address, b_nonce);
    assert!(b.peer_book.is_connected(a_address));
}
