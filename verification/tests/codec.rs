use marvel_explorer::query::{encode_query, parse_query};

fn pairs(src: &[(&str, &str)]) -> Vec<(Vec<u8>, Vec<u8>)> {
    src.iter().map(|(k, v)| (k.as_bytes().to_vec(), v.as_bytes().to_vec())).collect()
}

#[test]
fn round_trip_plain_pairs() {
    let ps = pairs(&[("ts", "1"), ("apikey", "abc123"), ("limit", "100")]);
    let encoded = encode_query(&ps);
    assert_eq!(parse_query(&encoded), Some(ps));
}

#[test]
fn round_trip_reserved_characters() {
    let ps = pairs(&[
        ("name", "Spider-Man (Peter Parker)"),
        ("odd key", "a&b=c%d?e#f"),
        ("", ""),
    ]);
    let encoded = encode_query(&ps);
    assert_eq!(parse_query(&encoded), Some(ps));
}

#[test]
fn round_trip_non_ascii() {
    let ps = pairs(&[("name", "Ms. Marvel \u{2014} Kamala Khan")]);
    let encoded = encode_query(&ps);
    assert!(encoded.iter().all(|b| *b < 128));
    assert_eq!(parse_query(&encoded), Some(ps));
}

#[test]
fn encoding_is_escaped_not_raw() {
    let ps = pairs(&[("k", "a b&c")]);
    let encoded = encode_query(&ps);
    assert_eq!(encoded, b"k=a%20b%26c".to_vec());
}

#[test]
fn parse_rejects_segment_without_separator() {
    assert_eq!(parse_query(&b"novalue".to_vec()), None);
}

#[test]
fn parse_rejects_malformed_escape() {
    assert_eq!(parse_query(&b"k=%2".to_vec()), None);
    assert_eq!(parse_query(&b"k=%zz".to_vec()), None);
}

#[test]
fn parse_empty_query_is_no_pairs() {
    assert_eq!(parse_query(&Vec::new()), Some(Vec::new()));
}
