use terrent::bencode::BencodeTorrent;
use terrent::torrent::TorrentFile;

// ---- helpers ----
const TORRENT_OK: &[u8] =
    b"d8:announce14:http://tracker4:infod6:lengthi12345e4:name4:test12:piece \
      lengthi262144e6:pieces20:abcdefghijklmnopqrstee";

const TORRENT_HTTPS: &[u8] =
    b"d8:announce26:https://secure.tracker.com4:infod6:lengthi54321e4:name9:test-file12:piece \
      lengthi524288e6:pieces40:abcdefghijklmnopqrst12345678901234567890ee";

fn create_test_torrent_file() -> TorrentFile {
    TorrentFile {
        announce: "http://tracker.example.com/announce".to_string(),
        info_hash: [
            1, 2, 3, 4, 5, 6, 7, 8, 9, 10, 11, 12, 13, 14, 15, 16, 17, 18, 19, 20,
        ],
        piece_hashes: vec![[
            21, 22, 23, 24, 25, 26, 27, 28, 29, 30, 31, 32, 33, 34, 35, 36, 37, 38, 39, 40,
        ]],
        piece_length: 262144,
        length: 1000000,
        name: "example.txt".to_string(),
    }
}

#[test]
fn build_tracker_url_success() {
    let torrent = create_test_torrent_file();
    let peer_id = [65; 20]; // "AAAAAAAAAAAAAAAAAAAA"
    let port = 6881;

    let url = torrent
        .build_tracker_url(peer_id, port)
        .expect("should build tracker URL");

    // Verify the base URL
    assert!(url.starts_with("http://tracker.example.com/announce?"));

    // Verify required parameters are present
    assert!(url.contains("info_hash="));
    assert!(url.contains("peer_id="));
    assert!(url.contains("port=6881"));
    assert!(url.contains("uploaded=0"));
    assert!(url.contains("downloaded=0"));
    assert!(url.contains("compact=1"));
    assert!(url.contains("left=1000000"));
}

#[test]
fn build_tracker_url_exact() {
    let torrent = create_test_torrent_file();
    let peer_id = [65; 20];
    let url = torrent
        .build_tracker_url(peer_id, 6881)
        .expect("should build tracker URL");
    assert_eq!(
        url,
        "http://tracker.example.com/announce?\
         info_hash=%01%02%03%04%05%06%07%08%09%0A%0B%0C%0D%0E%0F%10%11%12%13%14\
         &peer_id=AAAAAAAAAAAAAAAAAAAA\
         &port=6881&uploaded=0&downloaded=0&compact=1&left=1000000"
    );
}

#[test]
fn build_tracker_url_https() {
    let torrent = BencodeTorrent::from_bencode(TORRENT_HTTPS).expect("should decode torrent");
    let torrent_file = TorrentFile::try_from(torrent).expect("should convert to TorrentFile");

    let peer_id = [66; 20]; // "BBBBBBBBBBBBBBBBBBBB"
    let port = 8080;

    let url = torrent_file
        .build_tracker_url(peer_id, port)
        .expect("should build HTTPS tracker URL");

    assert!(url.starts_with("https://secure.tracker.com/?"));
    assert!(url.contains("port=8080"));
}

#[test]
fn build_tracker_url_different_ports() {
    let torrent = create_test_torrent_file();
    let peer_id = [67; 20];

    // Test various port numbers
    for port in [1, 80, 443, 6881, 65535] {
        let url = torrent
            .build_tracker_url(peer_id, port)
            .expect("should build URL with different ports");
        assert!(url.contains(&format!("port={port}")));
    }
}

#[test]
fn build_tracker_url_different_peer_ids() {
    let torrent = create_test_torrent_file();
    let port = 6881;

    // Test different peer IDs
    let peer_ids = [
        [0; 20],   // All zeros
        [255; 20], // All max values
        [
            65, 66, 67, 68, 69, 70, 71, 72, 73, 74, 75, 76, 77, 78, 79, 80, 81, 82, 83, 84,
        ], // Mixed
    ];

    for peer_id in peer_ids {
        let url = torrent
            .build_tracker_url(peer_id, port)
            .expect("should build URL with different peer IDs");
        assert!(url.contains("peer_id="));
    }
}

#[test]
fn build_tracker_url_encoding() {
    let mut torrent = create_test_torrent_file();
    // Use info_hash with bytes that need URL encoding
    torrent.info_hash = [
        0, 32, 127, 128, 255, 10, 13, 37, 38, 63, 35, 43, 61, 47, 92, 34, 39, 60, 62, 124,
    ];

    let peer_id = [
        0, 32, 127, 128, 255, 10, 13, 37, 38, 63, 35, 43, 61, 47, 92, 34, 39, 60, 62, 124,
    ];
    let port = 6881;

    let url = torrent
        .build_tracker_url(peer_id, port)
        .expect("should build URL with encoding");

    // Should contain percent-encoded values
    assert!(url.contains("%"));
    // Should not contain raw special characters that need encoding
    assert!(!url.contains(" "));
    assert!(!url.contains("\n"));
    assert!(!url.contains("\r"));
}

#[test]
fn build_tracker_url_invalid_announce_fails() {
    let mut torrent = create_test_torrent_file();
    torrent.announce = "not-a-valid-url".to_string();

    let peer_id = [68; 20];
    let port = 6881;

    let result = torrent.build_tracker_url(peer_id, port);
    assert!(result.is_err(), "should fail with invalid announce URL");

    let err_msg = result.unwrap_err().message();
    assert!(err_msg.contains("Invalid announce URL"));
    assert!(err_msg.contains("not-a-valid-url"));
}

#[test]
fn try_from_bencode_torrent_success() {
    let bencode = BencodeTorrent::from_bencode(TORRENT_OK).expect("should decode bencode");
    let torrent = TorrentFile::try_from(bencode).expect("should convert from BencodeTorrent");

    assert_eq!(torrent.announce, "http://tracker");
    assert_eq!(torrent.length, 12345);
    assert_eq!(torrent.piece_length, 262144);
    assert_eq!(torrent.name, "test");
    assert_eq!(torrent.piece_hashes.len(), 1);
    assert_eq!(torrent.info_hash.len(), 20);
}

#[test]
fn try_from_rejects_malformed_pieces() {
    let doc =
        b"d8:announce14:http://tracker4:infod6:lengthi1e4:name1:a12:piece lengthi2e6:pieces3:abcee";
    let bencode = BencodeTorrent::from_bencode(doc).expect("should decode bencode");
    let result = TorrentFile::try_from(bencode);
    assert!(result.is_err());
    let err_msg = result.unwrap_err().message();
    assert!(err_msg.contains("not a multiple of 20"));
    assert!(err_msg.contains("3"));
}

#[test]
fn end_to_end_document_to_descriptor() {
    let doc = b"d8:announce14:http://tracker4:infod6:lengthi12345e4:name4:test12:piece lengthi262144e6:pieces20:abcdefghijklmnopqrstee";
    let bencode = BencodeTorrent::from_bencode(doc).expect("should decode");
    assert_eq!(bencode.announce, "http://tracker");
    assert_eq!(bencode.info.length, 12345);
    assert_eq!(bencode.info.piece_length, 262144);
    assert_eq!(bencode.info.name, "test");

    let hash1 = bencode.info.hash();
    let hash2 = bencode.info.hash();
    assert_eq!(hash1.len(), 20);
    assert_eq!(hash1, hash2);

    let torrent = TorrentFile::try_from(bencode).expect("should convert");
    assert_eq!(torrent.piece_hashes.len(), 1);
    assert_eq!(torrent.piece_hashes[0], *b"abcdefghijklmnopqrst");
    assert_eq!(torrent.info_hash, hash1);
}
