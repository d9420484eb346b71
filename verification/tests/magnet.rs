use bittorrent_starter_rust::magnet::{MagnetError, MagnetLink};

const LINK: &str = "magnet:?xt=urn:btih:ad42ce8109f54c99613ce38f9b4d87e70f24a165&dn=magnet1.gif&tr=http%3A%2F%2Fbittorrent-test-tracker.codecrafters.io%2Fannounce";

#[test]
fn magnet_parse_reads_all_fields() {
    let m = MagnetLink::parse(LINK).unwrap();
    assert_eq!(m.info_hash, "ad42ce8109f54c99613ce38f9b4d87e70f24a165");
    assert_eq!(m.display_name.as_deref(), Some("magnet1.gif"));
    assert_eq!(
        m.tracker_url.as_deref(),
        Some("http://bittorrent-test-tracker.codecrafters.io/announce")
    );
}

#[test]
fn magnet_parse_optional_fields_and_unknown_keys() {
    let m = MagnetLink::parse("magnet:?x.pe=1.2.3.4&xt=urn:btih:abc").unwrap();
    assert_eq!(m.info_hash, "abc");
    assert_eq!(m.display_name, None);
    assert_eq!(m.tracker_url, None);
}

#[test]
fn magnet_parse_later_parameter_wins() {
    let m = MagnetLink::parse("magnet:?xt=urn:btih:aa&dn=one&xt=urn:btih:bb&dn=two%21").unwrap();
    assert_eq!(m.info_hash, "bb");
    assert_eq!(m.display_name.as_deref(), Some("two!"));
}

#[test]
fn magnet_parse_errors() {
    assert_eq!(MagnetLink::parse("http://example.com").unwrap_err(), MagnetError::NotMagnetLink);
    assert_eq!(MagnetLink::parse("magnet:?").unwrap_err(), MagnetError::MalformedParameter);
    assert_eq!(MagnetLink::parse("magnet:?xt=urn:btih:aa&").unwrap_err(), MagnetError::MalformedParameter);
    assert_eq!(MagnetLink::parse("magnet:?xt=urn:sha1:aa").unwrap_err(), MagnetError::UnsupportedXtFormat);
    assert_eq!(MagnetLink::parse("magnet:?dn=x&tr=y").unwrap_err(), MagnetError::MissingInfoHash);
    assert_eq!(MagnetLink::parse("magnet:?dn&xt=urn:btih:aa").unwrap_err(), MagnetError::MalformedParameter);
}

#[test]
fn magnet_info_hash_bytes() {
    let m = MagnetLink::parse(LINK).unwrap();
    let bytes = m.info_hash_bytes().unwrap();
    assert_eq!(bytes[0], 0xad);
    assert_eq!(bytes[1], 0x42);
    assert_eq!(bytes[19], 0x65);
    let upper = MagnetLink::parse("magnet:?xt=urn:btih:AD42CE8109F54C99613CE38F9B4D87E70F24A165").unwrap();
    assert_eq!(upper.info_hash_bytes().unwrap(), bytes);
}

#[test]
fn magnet_info_hash_bytes_errors() {
    let short = MagnetLink::parse("magnet:?xt=urn:btih:abcd").unwrap();
    assert_eq!(short.info_hash_bytes(), Err(MagnetError::InvalidInfoHash));
    let odd = MagnetLink::parse("magnet:?xt=urn:btih:abc").unwrap();
    assert_eq!(odd.info_hash_bytes(), Err(MagnetError::InvalidInfoHash));
    let bad = MagnetLink::parse("magnet:?xt=urn:btih:zz42ce8109f54c99613ce38f9b4d87e70f24a165").unwrap();
    assert_eq!(bad.info_hash_bytes(), Err(MagnetError::InvalidInfoHash));
}

#[test]
fn magnet_parse_parameter_order_does_not_matter() {
    let a = MagnetLink::parse("magnet:?xt=urn:btih:aa&dn=name&tr=http%3A%2F%2Ft").unwrap();
    let b = MagnetLink::parse("magnet:?tr=http%3A%2F%2Ft&xt=urn:btih:aa&dn=name").unwrap();
    assert_eq!(a.info_hash, b.info_hash);
    assert_eq!(a.display_name, b.display_name);
    assert_eq!(a.tracker_url, b.tracker_url);
    assert!(MagnetLink::parse("magnet:?xt=bad&dn").is_err());
    assert!(MagnetLink::parse("magnet:?dn&xt=bad").is_err());
}
