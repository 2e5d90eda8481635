use terrent::bencode::{BencodeInfo, BencodeTorrent, DecodeError, Field};
use sha1::{Digest, Sha1};

// ---------- fixtures ----------
const INFO_OK: &[u8] =
    b"d6:lengthi12345e4:name4:test12:piece lengthi262144e6:pieces20:abcdefghijklmnopqrste";

const TORRENT_OK: &[u8] =
    b"d8:announce14:http://tracker4:infod6:lengthi12345e4:name4:test12:piece \
      lengthi262144e6:pieces20:abcdefghijklmnopqrstee";

const INFO_MULTI_PIECES: &[u8] =
    b"d6:lengthi12345e4:name4:test12:piece lengthi262144e6:pieces40:abcdefghijklmnopqrst12345678901234567890e";

const INFO_BAD_PIECES: &[u8] =
    b"d6:lengthi12345e4:name4:test12:piece lengthi262144e6:pieces19:abcdefghijklmnopqrse";

#[test]
fn decode_info_success() {
    let info = BencodeInfo::from_bencode(INFO_OK).expect("should decode");
    assert_eq!(info.length, 12_345);
    assert_eq!(info.piece_length, 262_144);
    assert_eq!(info.name, "test");
    assert_eq!(info.pieces.len(), 20);
    assert_eq!(info.pieces, b"abcdefghijklmnopqrst".to_vec());
}

#[test]
fn decode_info_missing_pieces_fails() {
    let bad = b"d6:lengthi12e4:name4:test12:piece lengthi4ee";
    let err = BencodeInfo::from_bencode(bad);
    assert!(
        err.is_err(),
        "decoder must fail if a mandatory field is absent"
    );
}

#[test]
fn decode_torrent_success() {
    let torrent = BencodeTorrent::from_bencode(TORRENT_OK).expect("decode torrent");
    assert_eq!(torrent.announce, "http://tracker");
    assert_eq!(torrent.info.name, "test"); // `info` propagated
    assert_eq!(torrent.info.length, 12_345);
    assert_eq!(torrent.info.pieces.len(), 20);
}

#[test]
fn hash_success() {
    let info = BencodeInfo::from_bencode(INFO_OK).expect("should decode");
    let hash = info.hash();

    // Hash should be exactly 20 bytes
    assert_eq!(hash.len(), 20);

    // Hash should be deterministic - same input produces same output
    let hash2 = info.hash();
    assert_eq!(hash, hash2);
}

#[test]
fn hash_different_for_different_info() {
    let info1 = BencodeInfo::from_bencode(INFO_OK).expect("should decode");
    let info2 = BencodeInfo::from_bencode(INFO_MULTI_PIECES).expect("should decode");

    let hash1 = info1.hash();
    let hash2 = info2.hash();

    // Different inputs should produce different hashes
    assert_ne!(hash1, hash2);
}

#[test]
fn hash_matches_direct_digest_of_canonical_encoding() {
    let info = BencodeInfo::from_bencode(INFO_OK).expect("should decode");
    let canonical = info.canonical_encode();
    let direct: [u8; 20] = Sha1::digest(&canonical).into();
    assert_eq!(info.hash(), direct);
}

#[test]
fn canonical_encoding_exact_bytes() {
    let info = BencodeInfo::from_bencode(TORRENT_OK).err();
    assert!(info.is_some()); // the whole document is not an info dictionary

    let info = BencodeInfo::from_bencode(INFO_OK).expect("should decode");
    let expected: &[u8] =
        b"d6:lengthi12345e4:name4:test12:piece lengthi262144e6:pieces20:abcdefghijklmnopqrste";
    assert_eq!(info.canonical_encode(), expected.to_vec());
}

#[test]
fn canonical_encoding_round_trips() {
    let info = BencodeInfo::from_bencode(INFO_MULTI_PIECES).expect("should decode");
    let encoded = info.canonical_encode();
    let again = BencodeInfo::from_bencode(&encoded).expect("canonical bytes decode");
    assert_eq!(again.length, info.length);
    assert_eq!(again.piece_length, info.piece_length);
    assert_eq!(again.name, info.name);
    assert_eq!(again.pieces, info.pieces);
}

#[test]
fn split_pieces_hashes_single_piece() {
    let info = BencodeInfo::from_bencode(INFO_OK).expect("should decode");
    let hashes = info.split_pieces_hashes().expect("should split pieces");

    assert_eq!(hashes.len(), 1);
    assert_eq!(hashes[0], *b"abcdefghijklmnopqrst");
}

#[test]
fn split_pieces_hashes_multiple_pieces() {
    let info = BencodeInfo::from_bencode(INFO_MULTI_PIECES).expect("should decode");
    let hashes = info.split_pieces_hashes().expect("should split pieces");

    assert_eq!(hashes.len(), 2);
    assert_eq!(hashes[0], *b"abcdefghijklmnopqrst");
    assert_eq!(hashes[1], *b"12345678901234567890");
}

#[test]
fn split_pieces_hashes_empty_pieces() {
    let info = BencodeInfo {
        pieces: Vec::new(),
        piece_length: 262144,
        length: 0,
        name: "empty".to_string(),
    };

    let hashes = info
        .split_pieces_hashes()
        .expect("should handle empty pieces");
    assert_eq!(hashes.len(), 0);
}

#[test]
fn split_pieces_hashes_malformed_length_fails() {
    let info = BencodeInfo::from_bencode(INFO_BAD_PIECES).expect("should decode");
    let result = info.split_pieces_hashes();

    assert!(result.is_err());
    let err_msg = result.unwrap_err().message();
    assert!(err_msg.contains("not a multiple of 20"));
    assert!(err_msg.contains("19"));
}

#[test]
fn split_pieces_hashes_odd_length_fails() {
    let info = BencodeInfo {
        pieces: vec![1, 2, 3, 4, 5], // 5 bytes, not multiple of 20
        piece_length: 262144,
        length: 12345,
        name: "test".to_string(),
    };

    let result = info.split_pieces_hashes();
    assert!(result.is_err());
    let err_msg = result.unwrap_err().message();
    assert!(err_msg.contains("not a multiple of 20"));
    assert!(err_msg.contains("5"));
}

#[test]
fn split_pieces_hashes_large_number_of_pieces() {
    // Create pieces for 100 hashes (100 * 20 = 2000 bytes)
    let mut pieces = Vec::with_capacity(2000);
    for i in 0..100 {
        // Fill each 20-byte chunk with the same byte value
        let byte_val = (i % 256) as u8;
        for _ in 0..20 {
            pieces.push(byte_val);
        }
    }

    let info = BencodeInfo {
        pieces,
        piece_length: 262144,
        length: 12345,
        name: "test".to_string(),
    };

    let hashes = info
        .split_pieces_hashes()
        .expect("should split many pieces");
    assert_eq!(hashes.len(), 100);

    // Verify each hash is filled with the expected byte value
    for (i, hash) in hashes.iter().enumerate() {
        let expected_byte = (i % 256) as u8;
        assert!(
            hash.iter().all(|&b| b == expected_byte),
            "Hash {i} should be filled with byte {expected_byte}"
        );
    }
}

#[test]
fn decode_error_truncated_input() {
    assert_eq!(
        BencodeInfo::from_bencode(b"d6:length"),
        Err(DecodeError::UnexpectedEof)
    );
    assert_eq!(
        BencodeTorrent::from_bencode(b""),
        Err(DecodeError::UnexpectedEof)
    );
}

#[test]
fn decode_error_invalid_length_prefix() {
    // a byte string that claims more bytes than remain
    assert_eq!(
        BencodeInfo::from_bencode(b"d4:spam5:abe"),
        Err(DecodeError::InvalidLength)
    );
}

#[test]
fn decode_error_invalid_integer() {
    // a leading zero other than the literal `0`
    assert_eq!(
        BencodeInfo::from_bencode(b"d6:lengthi012ee"),
        Err(DecodeError::InvalidInteger)
    );
    // negative zero
    assert_eq!(
        BencodeInfo::from_bencode(b"d6:lengthi-0ee"),
        Err(DecodeError::InvalidInteger)
    );
    // non-digit characters
    assert_eq!(
        BencodeInfo::from_bencode(b"d6:lengthi1x2ee"),
        Err(DecodeError::InvalidInteger)
    );
}

#[test]
fn decode_error_invalid_dictionary_key() {
    assert_eq!(
        BencodeInfo::from_bencode(b"di3e4:spame"),
        Err(DecodeError::InvalidDictionaryKey)
    );
}

#[test]
fn decode_error_unexpected_token() {
    assert_eq!(
        BencodeTorrent::from_bencode(b"x"),
        Err(DecodeError::UnexpectedToken)
    );
    // an unknown key whose value opens no bencode value
    assert_eq!(
        BencodeInfo::from_bencode(b"d4:spamxe"),
        Err(DecodeError::UnexpectedToken)
    );
}

#[test]
fn decode_error_invalid_field() {
    // `pieces` must be a byte string
    assert_eq!(
        BencodeInfo::from_bencode(b"d6:piecesi5ee"),
        Err(DecodeError::InvalidField(Field::Pieces))
    );
    // `piece length` must be at least 1
    assert_eq!(
        BencodeInfo::from_bencode(b"d12:piece lengthi0ee"),
        Err(DecodeError::InvalidField(Field::PieceLength))
    );
    // `length` must not be negative
    assert_eq!(
        BencodeInfo::from_bencode(b"d6:lengthi-5ee"),
        Err(DecodeError::InvalidField(Field::Length))
    );
}

#[test]
fn decode_error_invalid_utf8_name() {
    let mut doc: Vec<u8> = b"d4:name2:".to_vec();
    doc.push(0xff);
    doc.push(0xfe);
    doc.push(b'e');
    assert_eq!(
        BencodeInfo::from_bencode(&doc),
        Err(DecodeError::InvalidUtf8)
    );
}

#[test]
fn decode_missing_fields_reported_in_order() {
    assert_eq!(
        BencodeInfo::from_bencode(b"de"),
        Err(DecodeError::MissingField(Field::Pieces))
    );
    assert_eq!(
        BencodeInfo::from_bencode(b"d6:pieces0:e"),
        Err(DecodeError::MissingField(Field::PieceLength))
    );
    assert_eq!(
        BencodeTorrent::from_bencode(b"de"),
        Err(DecodeError::MissingField(Field::Announce))
    );
    assert_eq!(
        BencodeTorrent::from_bencode(b"d8:announce14:http://trackere"),
        Err(DecodeError::MissingField(Field::Info))
    );
}

#[test]
fn decode_skips_unknown_keys() {
    // an unknown key holding a nested list of values is walked over
    let doc = b"d7:comment4:hihi3:exti1e5:wrapsl4:spami-7eld2:koi8eeee8:announce14:http://tracker4:infod6:lengthi1e4:name1:a12:piece lengthi2e6:pieces0:ee";
    let torrent = BencodeTorrent::from_bencode(doc).expect("unknown keys are skipped");
    assert_eq!(torrent.announce, "http://tracker");
    assert_eq!(torrent.info.name, "a");
    assert_eq!(torrent.info.length, 1);
    assert_eq!(torrent.info.piece_length, 2);
    assert_eq!(torrent.info.pieces.len(), 0);
}

#[test]
fn decode_later_duplicate_key_wins() {
    let doc = b"d6:lengthi1e6:lengthi7e4:name1:a12:piece lengthi2e6:pieces0:e";
    let info = BencodeInfo::from_bencode(doc).expect("should decode");
    assert_eq!(info.length, 7);
}
