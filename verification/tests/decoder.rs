use bittorrent_starter_rust::decoder::{decode_bencoded_value, parse, BencodeValue, DecodeError, JsonValue};

fn to_serde(v: JsonValue) -> serde_json::Value {
    match v {
        JsonValue::String(s) => serde_json::Value::String(s),
        JsonValue::Number(n) => serde_json::Value::Number(n.into()),
        JsonValue::Array(a) => serde_json::Value::Array(a.into_iter().map(to_serde).collect()),
        JsonValue::Object(o) => serde_json::Value::Object(o.into_iter().map(|(k, v)| (k, to_serde(v))).collect()),
    }
}

fn text(s: &str) -> serde_json::Value {
    serde_json::Value::String(s.to_string())
}

#[test]
fn parser_works_str() {
    let input = "4:spam".as_bytes();
    let output = to_serde(parse(input).unwrap());
    assert_eq!(output, text("spam"));
}

#[test]
fn parser_works_int() {
    let input = "i3e".as_bytes();
    let output = to_serde(parse(input).unwrap());
    assert_eq!(output, serde_json::Value::Number(3.into()));
}

#[test]
fn parser_works_list() {
    let input = "l4:spami3ee".as_bytes();
    let output = to_serde(parse(input).unwrap());
    assert_eq!(
        output,
        serde_json::Value::Array(vec![text("spam"), serde_json::Value::Number(3.into())])
    );
}

#[test]
fn parser_works_dict() {
    let input = "d3:cow3:moo4:spam4:eggse".as_bytes();
    let output = to_serde(parse(input).unwrap());
    let mut expected = serde_json::Map::new();
    expected.insert("cow".to_string(), text("moo"));
    expected.insert("spam".to_string(), text("eggs"));
    assert_eq!(output, serde_json::Value::Object(expected));
}

#[test]
fn parser_negative_int_and_nested() {
    let output = to_serde(parse("ld1:ai-42eee".as_bytes()).unwrap());
    let mut inner = serde_json::Map::new();
    inner.insert("a".to_string(), serde_json::Value::Number((-42).into()));
    assert_eq!(output, serde_json::Value::Array(vec![serde_json::Value::Object(inner)]));
}

#[test]
fn parser_rejects_invalid_input() {
    assert_eq!(parse("4:sp".as_bytes()), Err(DecodeError::InvalidBencode));
    assert_eq!(parse("i3".as_bytes()), Err(DecodeError::InvalidBencode));
    assert_eq!(parse("x".as_bytes()), Err(DecodeError::InvalidBencode));
}

#[test]
fn decode_renders_invalid_utf8_lossily() {
    let v = BencodeValue::Bytes(vec![0x66, 0xff]);
    assert_eq!(decode_bencoded_value(&v), JsonValue::String("f\u{FFFD}".to_string()));
}

#[test]
fn decode_sorts_object_keys() {
    let v = BencodeValue::Dict(vec![
        (b"z".to_vec(), BencodeValue::Int(1)),
        (b"a".to_vec(), BencodeValue::List(vec![BencodeValue::Bytes(b"x".to_vec())])),
        (b"ab".to_vec(), BencodeValue::Int(2)),
    ]);
    assert_eq!(
        decode_bencoded_value(&v),
        JsonValue::Object(vec![
            ("a".to_string(), JsonValue::Array(vec![JsonValue::String("x".to_string())])),
            ("ab".to_string(), JsonValue::Number(2)),
            ("z".to_string(), JsonValue::Number(1)),
        ])
    );
}

#[test]
fn parse_gives_equal_values_for_equal_input() {
    let input = "d1:ei5e1:bi2e1:di4e1:ai1e1:ci3ee".as_bytes();
    let first = parse(input).unwrap();
    for _ in 0..8 {
        assert_eq!(parse(input).unwrap(), first);
    }
    match first {
        JsonValue::Object(o) => {
            let keys: Vec<&str> = o.iter().map(|(k, _)| k.as_str()).collect();
            assert_eq!(keys, vec!["a", "b", "c", "d", "e"]);
        }
        _ => panic!("expected an object"),
    }
}

#[test]
fn decode_merges_keys_that_read_as_the_same_text() {
    let v = BencodeValue::Dict(vec![
        (vec![0xff], BencodeValue::Int(1)),
        (b"k".to_vec(), BencodeValue::Int(2)),
        (vec![0xfe], BencodeValue::Int(3)),
    ]);
    assert_eq!(
        decode_bencoded_value(&v),
        JsonValue::Object(vec![
            ("k".to_string(), JsonValue::Number(2)),
            ("\u{FFFD}".to_string(), JsonValue::Number(3)),
        ])
    );
}
