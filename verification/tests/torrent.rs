use bittorrent_starter_rust::torrent::{verify_piece, Info, PieceError, Torrent};

fn info() -> Info {
    let mut pieces = Vec::new();
    for i in 0u8..3 {
        pieces.extend_from_slice(&[i; 20]);
    }
    Info { name: "sample.txt".to_string(), pieces, piece_length: 32768, length: 92063 }
}

#[test]
fn info_piece_count_and_hashes() {
    let info = info();
    assert_eq!(info.piece_count(), 3);
    assert_eq!(info.piece_hash(0), &[0u8; 20]);
    assert_eq!(info.piece_hash(2), &[2u8; 20]);
}

#[test]
fn info_length_of_piece() {
    let info = info();
    assert_eq!(info.length_of_piece(0), 32768);
    assert_eq!(info.length_of_piece(1), 32768);
    assert_eq!(info.length_of_piece(2), 92063 - 2 * 32768);
    let total: usize = (0..info.piece_count()).map(|i| info.length_of_piece(i)).sum();
    assert_eq!(total, info.length);
}

#[test]
fn info_length_of_exactly_full_last_piece() {
    let mut info = info();
    info.length = 3 * 32768;
    assert_eq!(info.length_of_piece(2), 32768);
}

#[test]
fn info_hash_is_sha1() {
    assert_eq!(
        hex::encode(Info::info_hash(b"abc")),
        "a9993e364706816aba3e25717850c26c9cd0d89d"
    );
}

#[test]
fn verify_piece_checks_hash() {
    let hash = hex::decode("a9993e364706816aba3e25717850c26c9cd0d89d").unwrap();
    assert_eq!(verify_piece(b"abc", &hash), Ok(()));
    assert_eq!(verify_piece(b"abd", &hash), Err(PieceError::HashMismatch));
    assert_eq!(verify_piece(b"abc", &hash[..19]), Err(PieceError::HashMismatch));
}

#[test]
fn torrent_default_is_empty() {
    let t = Torrent::default();
    assert!(t.announce.is_empty());
    assert_eq!(t.info.piece_count(), 0);
}
