use marvel_explorer::decode::{
    decode_characters, decode_events, first_character_id, format_description,
    pagination_details, Event, PaginationDetails,
};
use marvel_explorer::errors::{to_io_error, MarvelError};
use marvel_explorer::json::parse_response;

const CHARACTERS_BODY: &str = r#"{
  "data": {
    "offset": 0, "limit": 20, "total": 1, "count": 1,
    "results": [
      {"id": 1011334, "name": "3-D Man", "description": ""}
    ]
  }
}"#;

const EVENTS_BODY: &str = r#"{
  "data": {
    "offset": 0, "limit": 100, "total": 2, "count": 2,
    "results": [
      {"id": 116, "title": "Acts of Vengeance!", "start": "1989-12-10 00:00:00", "description": "Loki sets about..."},
      {"id": 240, "title": "Days of Future Present", "start": null, "description": ""}
    ]
  }
}"#;

#[test]
fn characters_decode_to_typed_values() {
    let j = parse_response(CHARACTERS_BODY).expect("valid json");
    let cs = decode_characters(&j).expect("well-formed envelope");
    assert_eq!(cs.len(), 1);
    assert_eq!(cs[0].id, 1011334);
    assert_eq!(cs[0].name, "3-D Man");
    assert_eq!(cs[0].description, "");
}

#[test]
fn events_decode_to_typed_values() {
    let j = parse_response(EVENTS_BODY).expect("valid json");
    let es = decode_events(&j).expect("well-formed envelope");
    assert_eq!(es.len(), 2);
    assert_eq!(es[0].id, 116);
    assert_eq!(es[0].title, "Acts of Vengeance!");
    assert_eq!(es[0].start.as_deref(), Some("1989-12-10 00:00:00"));
    assert_eq!(es[1].id, 240);
    assert_eq!(es[1].start, None);
}

#[test]
fn empty_results_is_empty_collection() {
    let body = r#"{"data": {"offset": 0, "limit": 20, "total": 0, "count": 0, "results": []}}"#;
    let j = parse_response(body).expect("valid json");
    assert_eq!(decode_characters(&j).expect("not an error").len(), 0);
    assert_eq!(decode_events(&j).expect("not an error").len(), 0);
}

#[test]
fn absent_data_is_empty_collection() {
    // some error responses carry no `data` member at all
    let body = r#"{"code": 409, "message": "limit invalid"}"#;
    let j = parse_response(body).expect("valid json");
    assert_eq!(decode_characters(&j).expect("tolerated").len(), 0);
    assert_eq!(decode_events(&j).expect("tolerated").len(), 0);
}

#[test]
fn missing_results_is_decode_error() {
    let body = r#"{"data": {"offset": 0, "limit": 20, "total": 0, "count": 0}}"#;
    let j = parse_response(body).expect("valid json");
    assert!(matches!(decode_characters(&j), Err(MarvelError::DecodeError)));
    assert!(matches!(decode_events(&j), Err(MarvelError::DecodeError)));
}

#[test]
fn entry_missing_required_field_is_decode_error() {
    let body = r#"{"data": {"results": [{"id": 5, "description": "no name"}]}}"#;
    let j = parse_response(body).expect("valid json");
    assert!(matches!(decode_characters(&j), Err(MarvelError::DecodeError)));
}

#[test]
fn id_out_of_range_is_decode_error() {
    let body = r#"{"data": {"results": [{"id": 3000000000, "name": "x", "description": ""}]}}"#;
    let j = parse_response(body).expect("valid json");
    assert!(matches!(decode_characters(&j), Err(MarvelError::DecodeError)));
}

#[test]
fn non_json_body_is_decode_error() {
    assert!(matches!(parse_response("not json at all"), Err(MarvelError::DecodeError)));
}

#[test]
fn non_object_body_is_decode_error() {
    let j = parse_response("[1, 2, 3]").expect("valid json");
    assert!(matches!(decode_characters(&j), Err(MarvelError::DecodeError)));
}

#[test]
fn repeated_decode_gives_identical_results() {
    // the decode pipeline is pure: same body, same list, content and order
    let j1 = parse_response(EVENTS_BODY).expect("valid json");
    let j2 = parse_response(EVENTS_BODY).expect("valid json");
    let a = decode_events(&j1).expect("well-formed");
    let b = decode_events(&j2).expect("well-formed");
    assert_eq!(a.len(), b.len());
    for i in 0..a.len() {
        assert!(a[i] == b[i]);
    }
}

#[test]
fn pagination_is_available_on_request() {
    let j = parse_response(EVENTS_BODY).expect("valid json");
    let p = pagination_details(&j).expect("all four counters present");
    assert!(p == PaginationDetails { offset: 0, limit: 100, total: 2, count: 2 });
}

#[test]
fn first_character_id_picks_first_match() {
    let j = parse_response(CHARACTERS_BODY).expect("valid json");
    let cs = decode_characters(&j).expect("well-formed");
    assert_eq!(first_character_id(&cs, "3-D Man").expect("non-empty"), 1011334);
}

#[test]
fn character_not_found_names_the_queried_side() {
    let empty = Vec::new();
    match first_character_id(&empty, "Nobody Anywhere") {
        Err(MarvelError::CharacterNotFound(n)) => assert_eq!(n, "Nobody Anywhere"),
        _ => panic!("expected CharacterNotFound"),
    }
}

#[test]
fn error_messages_carry_the_name() {
    let e = MarvelError::CharacterNotFound(String::from("Groot"));
    assert_eq!(e.message(), "Character `Groot` Not Found");
    let io = to_io_error(e.message());
    assert!(io.to_string().contains("Groot"));
}

#[test]
fn format_description_cuts_at_forty_characters() {
    let short = Event {
        id: 1,
        title: String::from("t"),
        start: None,
        description: String::from("brief"),
    };
    assert_eq!(format_description(&short), "brief");
    let long = Event {
        id: 2,
        title: String::from("t"),
        start: None,
        description: String::from("0123456789012345678901234567890123456789XYZ"),
    };
    assert_eq!(
        format_description(&long),
        "0123456789012345678901234567890123456789"
    );
}
