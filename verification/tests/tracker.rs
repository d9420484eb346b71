use bittorrent_starter_rust::peer::PeerAddr;
use bittorrent_starter_rust::torrent::{Info, Torrent};
use bittorrent_starter_rust::tracker::{TrackerRequest, TrackerResponse};

#[test]
fn tracker_request_for_magnet_url() {
    let req = TrackerRequest::new_for_magnet(b"abcdefghijklmnopqrst", "http://t/announce", [0u8; 20]);
    assert_eq!(
        req.url(),
        format!(
            "http://t/announce?info_hash={}&peer_id=abcdefghijklmnopqrst&port=6881&uploaded=0&downloaded=0&compact=1&left=999",
            "%00".repeat(20)
        )
    );
}

#[test]
fn tracker_request_for_torrent() {
    let torrent = Torrent {
        announce: "http://tracker.example/announce".to_string(),
        info: Info { name: "f".to_string(), pieces: vec![0; 20], piece_length: 16, length: 1234567890 },
    };
    let req = TrackerRequest::new(&[b'x'; 20], &torrent, b"abc");
    assert_eq!(hex::encode(req.info_hash), "a9993e364706816aba3e25717850c26c9cd0d89d");
    assert_eq!(req.left, 1234567890);
    assert_eq!(req.port, 6881);
    let url = req.url();
    assert!(url.starts_with("http://tracker.example/announce?info_hash=%A9%99%3E6G%06%81j%BA%3E%25qxP%C2l%9C%D0%D8%9D&peer_id=xxxxxxxxxxxxxxxxxxxx"));
    assert!(url.ends_with("&port=6881&uploaded=0&downloaded=0&compact=1&left=1234567890"));
}

#[test]
fn tracker_response_peers() {
    let resp = TrackerResponse { peers: vec![165, 232, 33, 77, 0xc8, 0xd5] };
    assert_eq!(resp.get_peers().0, vec![PeerAddr { ip: [165, 232, 33, 77], port: 51413 }]);
}
