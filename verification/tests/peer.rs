use bittorrent_starter_rust::peer::{
    metadata_piece, ConnectState, ExtendedHandshake, Handshake, Message, PeerAddr, PeerError, PieceDownload,
    Peers, BLOCK_SIZE,
};

fn handshake() -> Handshake {
    Handshake::new([7u8; 20], *b"-TR2940-abcdefghijkl")
}

#[test]
fn peers_from_compact_list() {
    let peers = Peers::new(&[127, 0, 0, 1, 0x1a, 0xe1, 10, 1, 2, 3, 0x00, 0x50]);
    assert_eq!(
        peers.0,
        vec![PeerAddr { ip: [127, 0, 0, 1], port: 6881 }, PeerAddr { ip: [10, 1, 2, 3], port: 80 }]
    );
    assert!(Peers::new(&[]).0.is_empty());
}

#[test]
fn handshake_new_fields() {
    let h = handshake();
    assert_eq!(h.length, 19);
    assert_eq!(&h.protocol, b"BitTorrent protocol");
    assert_eq!(h.reserved, [0u8; 8]);
    assert_eq!(h.info_hash, [7u8; 20]);
    assert_eq!(&h.peer_id, b"-TR2940-abcdefghijkl");
    assert!(!h.supports_extensions());
}

#[test]
fn handshake_extension_bit() {
    let h = handshake().with_extension_support();
    assert_eq!(h.reserved, [0, 0, 0, 0, 0, 0x10, 0, 0]);
    assert!(h.supports_extensions());
    let mut other = handshake();
    other.reserved[5] = 0x01;
    let other = other.with_extension_support();
    assert_eq!(other.reserved[5], 0x11);
}

#[test]
fn handshake_bytes_roundtrip() {
    let h = handshake().with_extension_support();
    let bytes = h.to_bytes();
    assert_eq!(bytes.len(), 68);
    assert_eq!(bytes[0], 19);
    assert_eq!(&bytes[1..20], b"BitTorrent protocol");
    assert_eq!(bytes[25], 0x10);
    assert_eq!(&bytes[28..48], &[7u8; 20]);
    assert_eq!(&bytes[48..68], b"-TR2940-abcdefghijkl");
    let arr: [u8; 68] = bytes[..].try_into().unwrap();
    let back = Handshake::from_bytes(&arr);
    assert_eq!(back.length, h.length);
    assert_eq!(back.protocol, h.protocol);
    assert_eq!(back.reserved, h.reserved);
    assert_eq!(back.info_hash, h.info_hash);
    assert_eq!(back.peer_id, h.peer_id);
    assert_eq!(&back.to_bytes()[..], &arr[..]);
}

#[test]
fn request_payload_is_big_endian() {
    assert_eq!(
        Message::request_payload(1, 16384, 0x01020304),
        vec![0, 0, 0, 1, 0, 0, 0x40, 0, 1, 2, 3, 4]
    );
}

#[test]
fn message_length_prefix_and_payload_length() {
    let m = Message { id: Message::REQUEST, payload: vec![0; 12] };
    let prefix = m.length_prefix();
    assert_eq!(prefix, [0, 0, 0, 13]);
    assert_eq!(Message::payload_length(prefix), 12);
    let empty = Message { id: Message::INTERESTED, payload: Vec::new() };
    assert_eq!(empty.length_prefix(), [0, 0, 0, 1]);
    assert_eq!(Message::payload_length([0, 0, 1, 0]), 255);
}

#[test]
fn message_expect() {
    let m = Message { id: Message::BITFIELD, payload: vec![0xff] };
    assert_eq!(m.expect(Message::BITFIELD), Ok(()));
    assert_eq!(
        m.expect(Message::UNCHOKE),
        Err(PeerError::UnexpectedMessage { expected: Message::UNCHOKE, got: Message::BITFIELD })
    );
}

#[test]
fn extension_message_framing() {
    let m = Message::extension(0, b"d1:md11:ut_metadatai1eee");
    assert_eq!(m.id, Message::EXTENSION);
    assert_eq!(m.payload[0], 0);
    assert_eq!(&m.payload[1..], b"d1:md11:ut_metadatai1eee");
    assert_eq!(m.extension_handshake_dictionary().unwrap(), b"d1:md11:ut_metadatai1eee".to_vec());
}

#[test]
fn extension_handshake_dictionary_errors() {
    let other = Message { id: Message::PIECE, payload: vec![0] };
    assert_eq!(
        other.extension_handshake_dictionary(),
        Err(PeerError::UnexpectedMessage { expected: Message::EXTENSION, got: Message::PIECE })
    );
    let empty = Message { id: Message::EXTENSION, payload: vec![] };
    assert_eq!(
        empty.extension_handshake_dictionary(),
        Err(PeerError::NotExtensionHandshake { extended_id: None })
    );
    let data = Message::extension(3, b"de");
    assert_eq!(
        data.extension_handshake_dictionary(),
        Err(PeerError::NotExtensionHandshake { extended_id: Some(3) })
    );
}

#[test]
fn metadata_body_and_piece() {
    let m = Message::extension(1, b"d8:msg_typei1e5:piecei0e10:total_sizei3eeabc");
    let body = m.metadata_body().unwrap();
    assert_eq!(body, b"d8:msg_typei1e5:piecei0e10:total_sizei3eeabc".to_vec());
    assert_eq!(metadata_piece(&body, 1, 3), Ok(b"abc".to_vec()));
    assert_eq!(metadata_piece(&body, 1, 0), Ok(Vec::new()));
    assert_eq!(metadata_piece(&body, 2, 3), Err(PeerError::UnexpectedMetadataType { msg_type: 2 }));
    assert_eq!(metadata_piece(b"ab", 1, 3), Err(PeerError::MetadataTooShort));
    let other = Message { id: Message::BITFIELD, payload: vec![] };
    assert_eq!(
        other.metadata_body(),
        Err(PeerError::UnexpectedMessage { expected: Message::EXTENSION, got: Message::BITFIELD })
    );
}

#[test]
fn connect_state_machine() {
    let s = ConnectState::start();
    assert_eq!(s, ConnectState::AwaitingBitfield);
    let bitfield = Message { id: Message::BITFIELD, payload: vec![0xff] };
    let (s, reply) = s.on_message(&bitfield).unwrap();
    assert_eq!(s, ConnectState::AwaitingUnchoke);
    let reply = reply.unwrap();
    assert_eq!(reply.id, Message::INTERESTED);
    assert!(reply.payload.is_empty());
    let unchoke = Message { id: Message::UNCHOKE, payload: vec![] };
    let (s, reply) = s.on_message(&unchoke).unwrap();
    assert_eq!(s, ConnectState::Ready);
    assert!(reply.is_none());
}

#[test]
fn connect_state_machine_errors() {
    let unchoke = Message { id: Message::UNCHOKE, payload: vec![] };
    assert_eq!(
        ConnectState::start().on_message(&unchoke).unwrap_err(),
        PeerError::UnexpectedMessage { expected: Message::BITFIELD, got: Message::UNCHOKE }
    );
    let bitfield = Message { id: Message::BITFIELD, payload: vec![] };
    assert_eq!(
        ConnectState::AwaitingUnchoke.on_message(&bitfield).unwrap_err(),
        PeerError::UnexpectedMessage { expected: Message::UNCHOKE, got: Message::BITFIELD }
    );
}

#[test]
fn extended_handshake_decisions() {
    let plain = handshake();
    let ext = handshake().with_extension_support();
    let bitfield = Message { id: Message::BITFIELD, payload: vec![] };
    assert_eq!(ExtendedHandshake::after_bitfield(&plain, &bitfield), Ok(false));
    assert_eq!(ExtendedHandshake::after_bitfield(&ext, &bitfield), Ok(true));
    let other = Message { id: Message::UNCHOKE, payload: vec![] };
    assert_eq!(
        ExtendedHandshake::after_bitfield(&ext, &other),
        Err(PeerError::UnexpectedMessage { expected: Message::BITFIELD, got: Message::UNCHOKE })
    );
    assert_eq!(ExtendedHandshake::new(ext, Some(16)).peer_metadata_id, Some(16));
    assert_eq!(ExtendedHandshake::new(ext, Some(258)).peer_metadata_id, Some(2));
    assert_eq!(ExtendedHandshake::new(ext, None).peer_metadata_id, None);
}

fn piece_message(index: u32, begin: u32, block: &[u8]) -> Message {
    let mut payload = index.to_be_bytes().to_vec();
    payload.extend_from_slice(&begin.to_be_bytes());
    payload.extend_from_slice(block);
    Message { id: Message::PIECE, payload }
}

#[test]
fn piece_download_requests_tile_the_piece() {
    let length = 2 * BLOCK_SIZE as usize + 100;
    let mut d = PieceDownload::new(3, length);
    let r1 = d.next_request().unwrap();
    assert_eq!(r1.id, Message::REQUEST);
    assert_eq!(r1.payload, Message::request_payload(3, 0, BLOCK_SIZE));
    let r2 = d.next_request().unwrap();
    assert_eq!(r2.payload, Message::request_payload(3, BLOCK_SIZE, BLOCK_SIZE));
    let r3 = d.next_request().unwrap();
    assert_eq!(r3.payload, Message::request_payload(3, 2 * BLOCK_SIZE, 100));
    assert!(d.next_request().is_none());
    assert!(!d.is_complete());
}

#[test]
fn piece_download_pipeline_depth() {
    let mut d = PieceDownload::new(0, 10 * BLOCK_SIZE as usize);
    let mut sent = 0;
    while d.next_request().is_some() {
        sent += 1;
    }
    assert_eq!(sent, 5);
    d.receive(&piece_message(0, 0, &[1, 2, 3])).unwrap();
    assert!(d.next_request().is_some());
    assert!(d.next_request().is_none());
}

#[test]
fn piece_download_assembles_blocks() {
    let mut d = PieceDownload::new(0, 6);
    let req = d.next_request().unwrap();
    assert_eq!(req.payload, Message::request_payload(0, 0, 6));
    d.receive(&piece_message(0, 3, &[4, 5, 6])).unwrap();
    assert!(!d.is_complete());
    d.receive(&piece_message(0, 0, &[1, 2, 3])).unwrap();
    assert!(d.is_complete());
    assert_eq!(d.into_data(), vec![1, 2, 3, 4, 5, 6]);
}

#[test]
fn piece_download_refuses_other_messages() {
    let mut d = PieceDownload::new(0, 6);
    d.next_request().unwrap();
    let choke = Message { id: 0, payload: vec![] };
    assert_eq!(
        d.receive(&choke),
        Err(PeerError::UnexpectedMessage { expected: Message::PIECE, got: 0 })
    );
    assert!(!d.is_complete());
}

#[test]
fn piece_download_empty_piece_is_complete() {
    let mut d = PieceDownload::new(0, 0);
    assert!(d.is_complete());
    assert!(d.next_request().is_none());
    assert!(d.into_data().is_empty());
}

#[test]
fn piece_download_whole_run_keeps_pipeline_bound() {
    let length = 7 * BLOCK_SIZE as usize + 5;
    let mut d = PieceDownload::new(9, length);
    let mut next_begin: u32 = 0;
    let mut issued = 0usize;
    let mut answered = 0usize;
    while !d.is_complete() {
        while let Some(req) = d.next_request() {
            let begin = u32::from_be_bytes(req.payload[4..8].try_into().unwrap());
            let len = u32::from_be_bytes(req.payload[8..12].try_into().unwrap());
            assert_eq!(begin, next_begin);
            assert!(len > 0 && len <= BLOCK_SIZE);
            next_begin += len;
            issued += 1;
            assert!(issued - answered <= 5);
        }
        let begin = answered as u32 * BLOCK_SIZE;
        let len = std::cmp::min(BLOCK_SIZE as usize, length - begin as usize);
        d.receive(&piece_message(9, begin, &vec![answered as u8; len])).unwrap();
        answered += 1;
    }
    assert_eq!(next_begin as usize, length);
    assert_eq!(issued, 8);
    let data = d.into_data();
    assert_eq!(data[0], 0);
    assert_eq!(data[length - 1], 7);
}

#[test]
fn extension_handshake_message_bytes() {
    let m = Message::extension_handshake(1);
    assert_eq!(m.id, Message::EXTENSION);
    assert_eq!(m.payload, b"\x00d1:md11:ut_metadatai1eee".to_vec());
    assert_eq!(m.extension_handshake_dictionary().unwrap(), b"d1:md11:ut_metadatai1eee".to_vec());
    assert_eq!(Message::extension_handshake(200).payload, b"\x00d1:md11:ut_metadatai200eee".to_vec());
}

#[test]
fn metadata_request_message_bytes() {
    let m = Message::metadata_request(3, 2);
    assert_eq!(m.id, Message::EXTENSION);
    assert_eq!(m.payload, b"\x03d8:msg_typei0e5:piecei2ee".to_vec());
    assert_eq!(m.metadata_body().unwrap(), b"d8:msg_typei0e5:piecei2ee".to_vec());
}
