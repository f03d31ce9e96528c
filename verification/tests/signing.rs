use marvel_explorer::errors::MarvelError;
use marvel_explorer::query::parse_query;
use marvel_explorer::uri::UriMaker;

const BASE: &str = "https://gateway.marvel.com:443/v1/public/";

fn maker() -> UriMaker {
    UriMaker::new(String::from("c"), String::from("b"), String::from(BASE))
}

#[test]
fn sign_is_lowercase_hex() {
    let m = maker();
    let h = m.get_hash("1000");
    assert_eq!(h.len(), 32);
    assert!(h.chars().all(|c| c.is_ascii_digit() || ('a'..='f').contains(&c)));
}

#[test]
fn sign_known_digest() {
    // digest of "a" + "b" + "c" is the well-known md5 of "abc"
    let m = maker();
    let h = m.get_hash("a");
    assert_eq!(h, "900150983cd24fb0d6963f7d28e17f72");
}

#[test]
fn sign_same_inputs_same_hash() {
    let m = maker();
    assert_eq!(m.get_hash("1000"), m.get_hash("1000"));
    let m2 = maker();
    assert_eq!(m.get_hash("1000"), m2.get_hash("1000"));
}

#[test]
fn sign_differs_for_different_timestamps() {
    let m = maker();
    assert_ne!(m.get_hash("1000"), m.get_hash("1001"));
}

fn query_pairs_of(url: &str) -> Vec<(Vec<u8>, Vec<u8>)> {
    let q = url.split('?').nth(1).expect("query part");
    parse_query(&q.as_bytes().to_vec()).expect("well-formed query")
}

#[test]
fn build_url_carries_auth_params() {
    let m = maker();
    let url = m.build_url_at("characters", 7).expect("valid base and path");
    assert!(url.starts_with("https://gateway.marvel.com:443/v1/public/characters?"));
    let pairs = query_pairs_of(&url);
    assert_eq!(pairs.len(), 3);
    assert_eq!(pairs[0], (b"ts".to_vec(), b"7".to_vec()));
    assert_eq!(pairs[1].0, b"hash".to_vec());
    assert_eq!(pairs[1].1, m.get_hash("7").into_bytes());
    assert_eq!(pairs[2], (b"apikey".to_vec(), b"c".to_vec()));
}

#[test]
fn build_url_hash_matches_fresh_timestamp() {
    // even with the clock sampled inside, the hash always signs the ts sent
    let m = maker();
    let url = m.build_url("characters").expect("valid base and path");
    let pairs = query_pairs_of(&url);
    let ts = String::from_utf8(pairs[0].1.clone()).unwrap();
    assert_eq!(pairs[1].1, m.get_hash(&ts).into_bytes());
}

#[test]
fn build_url_rejects_malformed_base() {
    let m = UriMaker::new(
        String::from("c"),
        String::from("b"),
        String::from("ht tp://bad base/"),
    );
    assert!(matches!(m.build_url("characters"), Err(MarvelError::InvalidUri)));
}

#[test]
fn build_url_rejects_malformed_path() {
    let m = maker();
    assert!(matches!(m.build_url_at("bad path", 1), Err(MarvelError::InvalidUri)));
    assert!(matches!(m.build_url_at("x?y", 1), Err(MarvelError::InvalidUri)));
}

#[test]
fn exact_name_lookup_uri() {
    let m = maker();
    let url = m.character_by_name_exact("Spider-Man (Peter Parker)").expect("valid");
    let pairs = query_pairs_of(&url);
    assert_eq!(pairs.len(), 4);
    assert_eq!(
        pairs[3],
        (b"name".to_vec(), b"Spider-Man (Peter Parker)".to_vec())
    );
}

#[test]
fn prefix_lookup_uri() {
    let m = maker();
    let url = m.character_by_name("Spider").expect("valid");
    let pairs = query_pairs_of(&url);
    assert_eq!(pairs[3], (b"nameStartsWith".to_vec(), b"Spider".to_vec()));
}

#[test]
fn character_events_uri() {
    let m = maker();
    let url = m.character_events(1011334).expect("valid");
    assert!(url.contains("/v1/public/characters/1011334/events?"));
    let pairs = query_pairs_of(&url);
    assert_eq!(pairs.len(), 5);
    assert_eq!(pairs[3], (b"limit".to_vec(), b"100".to_vec()));
    assert_eq!(pairs[4], (b"orderBy".to_vec(), b"startDate".to_vec()));
}

#[test]
fn character_events_uri_negative_id() {
    let m = maker();
    let url = m.character_events(-5).expect("valid");
    assert!(url.contains("/v1/public/characters/-5/events?"));
}
