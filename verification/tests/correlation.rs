use marvel_explorer::correlate::{contains_event, earliest_shared_event, event_start_le};
use marvel_explorer::decode::Event;

fn ev(id: i32, title: &str, start: Option<&str>) -> Event {
    Event {
        id,
        title: String::from(title),
        start: start.map(String::from),
        description: String::from(""),
    }
}

#[test]
fn intersection_picks_earliest_shared_event() {
    let a = vec![
        ev(1, "E1", Some("1999-05-01")),
        ev(2, "E2", Some("2001-01-01")),
        ev(3, "E3", Some("2005-01-01")),
    ];
    let b = vec![
        ev(2, "E2", Some("2001-01-01")),
        ev(3, "E3", Some("2005-01-01")),
        ev(4, "E4", Some("2000-01-01")),
    ];
    let shared = earliest_shared_event(&a, &b).expect("E2 and E3 are shared");
    assert!(shared == ev(2, "E2", Some("2001-01-01")));
}

#[test]
fn disjoint_sets_yield_no_shared_event() {
    let a = vec![ev(1, "E1", Some("1999-05-01"))];
    let b = vec![ev(4, "E4", Some("2000-01-01"))];
    assert!(earliest_shared_event(&a, &b).is_none());
}

#[test]
fn empty_side_yields_no_shared_event() {
    let a: Vec<Event> = Vec::new();
    let b = vec![ev(4, "E4", None)];
    assert!(earliest_shared_event(&a, &b).is_none());
    assert!(earliest_shared_event(&b, &a).is_none());
}

#[test]
fn undated_event_sorts_before_any_dated_one() {
    // the documented quirk: an absent start is treated as earliest
    let a = vec![ev(2, "E2", Some("2001-01-01")), ev(9, "E9", None)];
    let b = vec![ev(9, "E9", None), ev(2, "E2", Some("2001-01-01"))];
    let shared = earliest_shared_event(&a, &b).expect("both are shared");
    assert!(shared == ev(9, "E9", None));
}

#[test]
fn events_differing_in_any_field_are_distinct() {
    let e = ev(2, "E2", Some("2001-01-01"));
    let b = vec![
        ev(2, "E2", Some("2002-01-01")),
        ev(2, "Other", Some("2001-01-01")),
        ev(7, "E2", Some("2001-01-01")),
    ];
    assert!(!contains_event(&b, &e));
    assert!(earliest_shared_event(&vec![e], &b).is_none());
}

#[test]
fn duplicate_entries_do_not_change_the_answer() {
    let a = vec![
        ev(2, "E2", Some("2001-01-01")),
        ev(2, "E2", Some("2001-01-01")),
        ev(3, "E3", Some("2005-01-01")),
    ];
    let b = vec![ev(3, "E3", Some("2005-01-01")), ev(2, "E2", Some("2001-01-01"))];
    let shared = earliest_shared_event(&a, &b).expect("shared");
    assert!(shared == ev(2, "E2", Some("2001-01-01")));
}

#[test]
fn start_order_is_lexicographic_on_text() {
    let early = ev(1, "a", Some("1989-12-10 00:00:00"));
    let late = ev(2, "b", Some("1990-01-01 00:00:00"));
    let undated = ev(3, "c", None);
    assert!(event_start_le(&early, &late));
    assert!(!event_start_le(&late, &early));
    assert!(event_start_le(&undated, &early));
    assert!(!event_start_le(&early, &undated));
    assert!(event_start_le(&early, &early));
}
