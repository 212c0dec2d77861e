use snarkos_node::address::SocketAddress;
use snarkos_node::handshake::{MessageError, Verack, Version};

#[test]
fn test_verack() {
    let version = Version::new_with_rng(1u64, 1u32, SocketAddress::v4(0x7f00_0001, 4130), SocketAddress::v4(0x7f00_0001, 4131));

    let message = Verack::new(version.nonce, version.receiver, version.sender);

    let serialized = message.serialize().unwrap();
    let deserialized = Verack::deserialize(&serialized).unwrap();

    assert_eq!(message, deserialized);
}

#[test]
fn verack_bytes_are_bincode_layout() {
    let message = Verack::new(0x0102_0304_0506_0708, SocketAddress::v4(0x0a00_0001, 1), SocketAddress::v4(0x0a00_0002, 0x0203));
    let bytes = message.serialize().unwrap();
    assert_eq!(
        bytes,
        vec![8, 7, 6, 5, 4, 3, 2, 1, 0, 0, 0, 0, 10, 0, 0, 2, 3, 2, 0, 0, 0, 0, 10, 0, 0, 1, 1, 0]
    );
    assert_eq!(bytes.len(), 28);
}

#[test]
fn verack_of_other_length_is_refused() {
    assert_eq!(Verack::deserialize(&[1, 2, 3]), Err(MessageError::InvalidLength(3, 28)));
    let v6 = Verack::new(5, SocketAddress::v6(1, 4130), SocketAddress::v4(1, 1));
    let bytes = v6.serialize().unwrap();
    assert_eq!(bytes.len(), 40);
    assert_eq!(Verack::deserialize(&bytes), Err(MessageError::InvalidLength(40, 28)));
    let mut bad = Verack::new(5, SocketAddress::v4(1, 1), SocketAddress::v4(2, 2)).serialize().unwrap();
    bad[8] = 1;
    assert_eq!(Verack::deserialize(&bad), Err(MessageError::InvalidAddress));
}
