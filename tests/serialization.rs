use snarkos_node::address::SocketAddress;
use snarkos_node::codec::{deserialize_payload, serialize_payload, CodecError, Payload};

#[test]
fn serialize_deserialize_empty_payloads() {
    for payload in &[Payload::GetMemoryPool, Payload::GetPeers, Payload::Pong] {
        assert_eq!(deserialize_payload(&serialize_payload(payload).unwrap()).unwrap(), *payload);
    }
}

#[test]
fn serialize_deserialize_payloads_with_blobs() {
    let blob = (0u8..255).collect::<Vec<_>>();

    for payload in &[
        Payload::Block(blob.clone()),
        Payload::MemoryPool(vec![blob.clone(); 10]),
        Payload::SyncBlock(blob.clone()),
        Payload::Transaction(blob),
    ] {
        assert_eq!(deserialize_payload(&serialize_payload(payload).unwrap()).unwrap(), *payload);
    }
}

#[test]
fn serialize_deserialize_payloads_with_hashes() {
    let hashes = (0u8..10).map(|i| vec![i; 32]).collect::<Vec<_>>();

    for payload in &[
        Payload::GetBlocks(hashes.clone()),
        Payload::GetSync(hashes.clone()),
        Payload::Sync(hashes),
    ] {
        assert_eq!(deserialize_payload(&serialize_payload(payload).unwrap()).unwrap(), *payload);
    }
}

#[test]
fn serialize_deserialize_peers() {
    // 0.0.0.0:0, 127.0.0.1:4141, 192.168.1.1:4131, [::1]:0,
    // [2001:0db8:85a3:0000:0000:8a2e:0370:7334]:4131, [::ffff:192.0.2.128]:4141
    let addrs: Vec<SocketAddress> = vec![
        SocketAddress::v4(0, 0),
        SocketAddress::v4(0x7f00_0001, 4141),
        SocketAddress::v4(0xc0a8_0101, 4131),
        SocketAddress::v6(1, 0),
        SocketAddress::v6(0x2001_0db8_85a3_0000_0000_8a2e_0370_7334, 4131),
        SocketAddress::v6(0x0000_0000_0000_0000_0000_ffff_c000_0280, 4141),
    ];
    let payload = Payload::Peers(addrs);

    assert_eq!(deserialize_payload(&serialize_payload(&payload).unwrap()).unwrap(), payload);
}

#[test]
fn serialize_deserialize_ping() {
    for i in 0u8..255 {
        let payload = Payload::Ping(i as u32);

        assert_eq!(deserialize_payload(&serialize_payload(&payload).unwrap()).unwrap(), payload);
    }
}

#[test]
fn serialize_deserialize_version_and_verack() {
    for payload in &[
        Payload::Version { nonce: u64::MAX - 7, block_height: 123_456, listener_port: 4130 },
        Payload::Verack { nonce: 0x0102_0304_0506_0708 },
    ] {
        assert_eq!(deserialize_payload(&serialize_payload(payload).unwrap()).unwrap(), *payload);
    }
}

#[test]
fn ping_has_exact_bytes() {
    assert_eq!(serialize_payload(&Payload::Ping(0x0102_0304)).unwrap(), vec![7, 1, 2, 3, 4]);
    assert_eq!(serialize_payload(&Payload::Block(vec![9, 8])).unwrap(), vec![0, 0, 0, 0, 2, 9, 8]);
    assert_eq!(
        serialize_payload(&Payload::Peers(vec![SocketAddress::v4(0x7f00_0001, 4141)])).unwrap(),
        vec![6, 0, 0, 0, 1, 4, 127, 0, 0, 1, 0, 0, 0x10, 0x2d]
    );
}

#[test]
fn hash_of_wrong_length_cannot_be_encoded() {
    assert_eq!(serialize_payload(&Payload::GetBlocks(vec![vec![1; 31]])), Err(CodecError::Unencodable));
}

#[test]
fn malformed_bytes_are_refused() {
    assert_eq!(deserialize_payload(&[]), Err(CodecError::Malformed));
    assert_eq!(deserialize_payload(&[99]), Err(CodecError::Malformed));
    // A ping with a byte too many.
    assert_eq!(deserialize_payload(&[7, 0, 0, 0, 1, 0]), Err(CodecError::Malformed));
    // A blob shorter than it says.
    assert_eq!(deserialize_payload(&[0, 0, 0, 0, 5, 1]), Err(CodecError::Malformed));
    // A port that does not fit in 16 bits.
    assert_eq!(
        deserialize_payload(&[6, 0, 0, 0, 1, 4, 127, 0, 0, 1, 0, 1, 0, 0]),
        Err(CodecError::Malformed)
    );
}
