use terrent::peers::Peer;

// Empty slice – should return an empty Vec
const PEERS_EMPTY: &[u8] = &[];

// One peer  : 1.2.3.4:6881   (6881 = 0x1AE1)
const PEERS_SINGLE: &[u8] = &[1, 2, 3, 4, 0x1A, 0xE1];

// Two peers : 1.1.1.1:80  |  8.8.8.8:6881
const PEERS_TWO: &[u8] = &[
    1, 1, 1, 1, 0x00, 0x50, // 1.1.1.1:80
    8, 8, 8, 8, 0x1A, 0xE1, // 8.8.8.8:6881
];

// Malformed slice – 5 bytes (not divisible by 6)
const PEERS_BAD_LEN: &[u8] = &[127, 0, 0, 1, 0x1A];

#[test]
fn unmarshall_empty_slice() {
    let peers = Peer::unmarshal(PEERS_EMPTY).expect("empty slice must decode");
    assert_eq!(peers.len(), 0);
}

#[test]
fn unmarshall_single_peer_success() {
    let peers = Peer::unmarshal(PEERS_SINGLE).expect("single peer must decode");
    assert_eq!(peers.len(), 1);

    let p = &peers[0];
    assert_eq!(p.ip, [1, 2, 3, 4]);
    assert_eq!(p.port, 6881);
}

#[test]
fn unmarshall_multiple_peers_success() {
    let peers = Peer::unmarshal(PEERS_TWO).expect("two peers must decode");
    assert_eq!(peers.len(), 2);

    assert_eq!(peers[0].ip, [1, 1, 1, 1]);
    assert_eq!(peers[0].port, 80);

    assert_eq!(peers[1].ip, [8, 8, 8, 8]);
    assert_eq!(peers[1].port, 6881);
}

#[test]
fn unmarshall_malformed_length_fails() {
    let err = Peer::unmarshal(PEERS_BAD_LEN);
    assert!(
        err.is_err(),
        "decoder must reject non-multiple-of-6 lengths"
    );

    // Optional: inspect error message content
    let msg = err.unwrap_err().message();
    assert!(
        msg.to_lowercase().contains("malformed") || msg.to_lowercase().contains("divisible"),
        "error message should hint at malformed length, got: {msg}"
    );
}
