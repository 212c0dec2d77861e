use snarkos_node::address::SocketAddress;
use snarkos_node::error::NetworkError;
use snarkos_node::peer_book::PeerBook;
use snarkos_node::peer_info::{PeerInfo, PeerStatus};

// 127.0.0.1:4130
fn address() -> SocketAddress {
    SocketAddress::v4(0x7f00_0001, 4130)
}

#[test]
fn test_new() {
    let address = address();
    let peer_info = PeerInfo::new(address);
    assert_eq!(address, peer_info.address());
    assert_eq!(PeerStatus::NeverConnected, peer_info.status());
    assert_eq!(None, peer_info.nonce());
    assert_eq!(0, peer_info.connected_count());
    assert_eq!(0, peer_info.disconnected_count());
}

#[test]
fn test_set_connecting_from_never_connected() {
    let address = address();

    let mut peer_info = PeerInfo::new(address);
    assert_eq!(address, peer_info.address());
    assert_eq!(PeerStatus::NeverConnected, peer_info.status());

    peer_info.set_connecting(0).unwrap();
    assert_eq!(address, peer_info.address());
    assert_eq!(PeerStatus::Connecting, peer_info.status());
    assert_eq!(Some(0), peer_info.nonce());
    assert_eq!(0, peer_info.connected_count());
    assert_eq!(0, peer_info.disconnected_count());
    assert!(peer_info.first_seen().is_some());
}

#[test]
fn test_set_connected_from_connecting() {
    let address = address();

    let mut peer_info = PeerInfo::new(address);
    peer_info.set_connecting(0).unwrap();
    assert_eq!(address, peer_info.address());
    assert_eq!(PeerStatus::Connecting, peer_info.status());
    assert_eq!(Some(0), peer_info.nonce());
    assert_eq!(0, peer_info.connected_count());
    assert_eq!(0, peer_info.disconnected_count());

    peer_info.set_connected().unwrap();
    assert_eq!(address, peer_info.address());
    assert_eq!(PeerStatus::Connected, peer_info.status());
    assert_eq!(Some(0), peer_info.nonce());
    assert_eq!(1, peer_info.connected_count());
    assert_eq!(0, peer_info.disconnected_count());
    assert!(peer_info.last_connected().is_some());
}

#[test]
fn test_set_disconnected_from_connecting() {
    let address = address();

    let mut peer_info = PeerInfo::new(address);
    peer_info.set_connecting(0).unwrap();
    assert_eq!(address, peer_info.address());
    assert_eq!(PeerStatus::Connecting, peer_info.status());
    assert_eq!(Some(0), peer_info.nonce());
    assert_eq!(0, peer_info.connected_count());
    assert_eq!(0, peer_info.disconnected_count());

    peer_info.set_disconnected().unwrap();
    assert_eq!(address, peer_info.address());
    assert_eq!(PeerStatus::Disconnected, peer_info.status());
    assert_eq!(None, peer_info.nonce());
    assert_eq!(0, peer_info.connected_count());
    assert_eq!(1, peer_info.disconnected_count());
}

#[test]
fn test_set_disconnected_from_connected() {
    let address = address();

    let mut peer_info = PeerInfo::new(address);
    peer_info.set_connecting(0).unwrap();
    assert_eq!(address, peer_info.address());
    assert_eq!(PeerStatus::Connecting, peer_info.status());
    assert_eq!(Some(0), peer_info.nonce());
    assert_eq!(0, peer_info.connected_count());
    assert_eq!(0, peer_info.disconnected_count());

    peer_info.set_connected().unwrap();
    assert_eq!(address, peer_info.address());
    assert_eq!(PeerStatus::Connected, peer_info.status());
    assert_eq!(Some(0), peer_info.nonce());
    assert_eq!(1, peer_info.connected_count());
    assert_eq!(0, peer_info.disconnected_count());

    peer_info.set_disconnected().unwrap();
    assert_eq!(address, peer_info.address());
    assert_eq!(PeerStatus::Disconnected, peer_info.status());
    assert_eq!(None, peer_info.nonce());
    assert_eq!(1, peer_info.connected_count());
    assert_eq!(1, peer_info.disconnected_count());
    assert!(peer_info.last_disconnected().is_some());
}

#[test]
fn test_set_connected_from_never_connected() {
    let address = address();

    let mut peer_info = PeerInfo::new(address);

    assert_eq!(peer_info.set_connected(), Err(NetworkError::PeerIsDisconnected));

    assert_eq!(address, peer_info.address());
    assert_eq!(PeerStatus::NeverConnected, peer_info.status());
    assert_eq!(None, peer_info.nonce());
    assert_eq!(0, peer_info.connected_count());
    assert_eq!(0, peer_info.disconnected_count());
}

#[test]
fn test_set_disconnected_from_never_connected() {
    let address = address();

    let mut peer_info = PeerInfo::new(address);

    assert_eq!(peer_info.set_disconnected(), Err(NetworkError::PeerAlreadyDisconnected));

    assert_eq!(address, peer_info.address());
    assert_eq!(PeerStatus::NeverConnected, peer_info.status());
    assert_eq!(None, peer_info.nonce());
    assert_eq!(0, peer_info.connected_count());
    assert_eq!(0, peer_info.disconnected_count());
}

#[test]
fn test_set_connected_from_disconnected() {
    let address = address();

    let mut peer_info = PeerInfo::new(address);
    peer_info.set_connecting(0).unwrap();
    peer_info.set_connected().unwrap();
    peer_info.set_disconnected().unwrap();
    assert_eq!(address, peer_info.address());
    assert_eq!(PeerStatus::Disconnected, peer_info.status());
    assert_eq!(None, peer_info.nonce());
    assert_eq!(1, peer_info.connected_count());
    assert_eq!(1, peer_info.disconnected_count());

    assert!(peer_info.set_connected().is_err());

    assert_eq!(address, peer_info.address());
    assert_eq!(PeerStatus::Disconnected, peer_info.status());
    assert_eq!(None, peer_info.nonce());
    assert_eq!(1, peer_info.connected_count());
    assert_eq!(1, peer_info.disconnected_count());
}

#[test]
fn reconnecting_a_connected_peer_is_refused() {
    let mut peer_info = PeerInfo::new(address());
    peer_info.set_connecting(3).unwrap();
    assert_eq!(peer_info.set_connecting(4), Err(NetworkError::PeerAlreadyConnected));
    assert_eq!(Some(3), peer_info.nonce());
    peer_info.set_connected().unwrap();
    assert_eq!(peer_info.set_connected(), Err(NetworkError::PeerAlreadyConnected));
}

#[test]
fn failures_past_the_limit_call_for_a_disconnect() {
    let mut peer_info = PeerInfo::new(address());
    assert!(!peer_info.register_failure());
    assert!(!peer_info.register_failure());
    assert!(!peer_info.register_failure());
    assert!(peer_info.register_failure());
    assert_eq!(peer_info.quality.failures, 4);
}

#[test]
fn peer_book_follows_the_state_machine() {
    let local = SocketAddress::v4(0x7f00_0001, 4000);
    let peer = address();
    let mut book = PeerBook::new(local);
    assert_eq!(book.set_connecting(local, 1), Err(NetworkError::PeerAddressIsLocalAddress));
    assert_eq!(book.set_connected(peer, 1), Err(NetworkError::PeerBookMissingPeer));
    book.set_connecting(peer, 7).unwrap();
    assert!(book.is_connecting(peer));
    assert_eq!(book.set_connected(peer, 8), Err(NetworkError::PeerNonceMismatch));
    book.set_connected(peer, 7).unwrap();
    assert!(book.is_connected(peer));
    assert_eq!(book.number_of_connected_peers(), 1);
    assert_eq!(book.connected_peers(), vec![peer]);
    assert_eq!(book.handshake(peer), Ok(7));
    book.set_disconnected(peer).unwrap();
    assert!(book.is_disconnected(peer));
    assert_eq!(book.disconnected_peers(), vec![peer]);
    assert_eq!(book.handshake(peer), Err(NetworkError::PeerIsDisconnected));
    assert_eq!(book.set_disconnected(peer), Err(NetworkError::PeerAlreadyDisconnected));
    assert_eq!(book.add_peer(peer), Err(NetworkError::PeerAlreadyExists));
    assert_eq!(book.number_of_connected_peers(), 0);
}
