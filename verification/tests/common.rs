use bittorrent_starter_rust::common::{url_decode, url_encode};

#[test]
fn url_encode_keeps_unreserved_bytes() {
    assert_eq!(url_encode(b"AZaz09-_.~"), "AZaz09-_.~");
}

#[test]
fn url_encode_escapes_other_bytes_in_upper_case_hex() {
    assert_eq!(url_encode(b"hello world"), "hello%20world");
    assert_eq!(url_encode(&[0x00, 0xff, b'/', 0xab]), "%00%FF%2F%AB");
    assert_eq!(url_encode(&[]), "");
}

#[test]
fn url_decode_reads_escapes() {
    assert_eq!(url_decode("hello%20world"), "hello world");
    assert_eq!(url_decode("%41%62c"), "Abc");
    assert_eq!(url_decode("http%3A%2F%2Fexample.com%2fx"), "http://example.com/x");
}

#[test]
fn url_decode_keeps_incomplete_or_invalid_escapes() {
    assert_eq!(url_decode("%4"), "%4");
    assert_eq!(url_decode("%zz1"), "%zz1");
    assert_eq!(url_decode("100%"), "100%");
    assert_eq!(url_decode("%-5x"), "%-5x");
}

#[test]
fn url_decode_accepts_plus_sign_escape() {
    assert_eq!(url_decode("%+5x"), "\u{5}x");
}

#[test]
fn url_decode_replaces_invalid_utf8() {
    assert_eq!(url_decode("a%FFb"), "a\u{FFFD}b");
    assert_eq!(url_decode("%C3%A9"), "\u{e9}");
}

#[test]
fn url_decode_of_encode_gives_lossy_original() {
    let bytes: Vec<u8> = (0u8..=255).collect();
    assert_eq!(url_decode(&url_encode(&bytes)), String::from_utf8_lossy(&bytes));
    let text = "caf\u{e9} & t\u{e9}";
    assert_eq!(url_decode(&url_encode(text.as_bytes())), text);
}

#[test]
fn url_encode_length_and_alphabet() {
    let bytes: Vec<u8> = (0u8..=255).collect();
    let encoded = url_encode(&bytes);
    let unreserved = bytes
        .iter()
        .filter(|b| b.is_ascii_alphanumeric() || b"-_.~".contains(b))
        .count();
    assert_eq!(encoded.len(), unreserved + 3 * (256 - unreserved));
    assert!(encoded
        .chars()
        .all(|c| c.is_ascii_alphanumeric() || "-_.~%".contains(c)));
    assert_eq!(url_encode(b"a b"), url_encode(b"a") + &url_encode(b" b"));
}
