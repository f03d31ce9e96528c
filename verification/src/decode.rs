use vstd::prelude::*;
use vstd::string::StrSliceExecFns;
use vstd::string::StringExecFns;
use crate::errors::MarvelError;
use crate::json::JsonValue;

verus! {

broadcast use vstd::utf8::group_utf8_lib;

// ---------------------------------------------------------------------------
// The decoded entities and their mathematical views
// ---------------------------------------------------------------------------

/// Paging metadata the service's envelope carries.  The decoders consume the
/// result list and discard this; it is decoded only on request.
#[derive(PartialEq, Eq, Structural)]
pub struct PaginationDetails {
    pub offset: i32,
    pub limit: i32,
    pub total: i32,
    pub count: i32,
}

/// One character, as decoded from a response envelope.
pub struct Character {
    pub id: i32,
    pub name: String,
    pub description: String,
}

pub ghost struct CharacterView {
    pub id: int,
    pub name: Seq<char>,
    pub description: Seq<char>,
}

impl View for Character {
    type V = CharacterView;

    open spec fn view(&self) -> CharacterView {
        CharacterView { id: self.id as int, name: self.name@, description: self.description@ }
    }
}

/// One narrative event.  `start` is absent when the service knows no date.
/// Two events are the same exactly when all four fields agree.
pub struct Event {
    pub id: i32,
    pub title: String,
    pub start: Option<String>,
    pub description: String,
}

pub ghost struct EventView {
    pub id: int,
    pub title: Seq<char>,
    pub start: Option<Seq<char>>,
    pub description: Seq<char>,
}

impl View for Event {
    type V = EventView;

    open spec fn view(&self) -> EventView {
        EventView {
            id: self.id as int,
            title: self.title@,
            start: match self.start {
                Some(s) => Some(s@),
                None => None,
            },
            description: self.description@,
        }
    }
}

impl Clone for Event {
    fn clone(&self) -> (r: Self)
        ensures
            r@ == self@,
    {
        Event {
            id: self.id,
            title: self.title.clone(),
            start: match &self.start {
                Some(s) => Some(s.clone()),
                None => None,
            },
            description: self.description.clone(),
        }
    }
}

// ---------------------------------------------------------------------------
// Object field lookup
// ---------------------------------------------------------------------------

/// The first value under `key` among an object's fields, if any.
pub open spec fn obj_lookup(fields: Seq<(String, JsonValue)>, key: Seq<char>) -> Option<JsonValue>
    decreases fields.len(),
{
    if fields.len() == 0 {
        None
    } else if fields[0].0@ == key {
        Some(fields[0].1)
    } else {
        obj_lookup(fields.drop_first(), key)
    }
}

/// Whether two pieces of text are the same, compared byte for byte.
pub fn str_eq(a: &str, b: &str) -> (r: bool)
    ensures
        r == (a@ == b@),
{
    let ab = a.as_bytes();
    let bb = b.as_bytes();
    if ab.len() != bb.len() {
        proof {
            if a@ == b@ {
                assert(ab@ == bb@);
            }
        }
        return false;
    }
    let n = ab.len();
    let mut i: usize = 0;
    while i < n
        invariant
            n == ab@.len() == bb@.len(),
            ab@ == vstd::utf8::encode_utf8(a@),
            bb@ == vstd::utf8::encode_utf8(b@),
            i <= n,
            forall|j: int| 0 <= j < i ==> ab@[j] == bb@[j],
        decreases n - i,
    {
        if ab[i] != bb[i] {
            proof {
                if a@ == b@ {
                    assert(ab@ == bb@);
                    assert(ab@[i as int] == bb@[i as int]);
                }
            }
            return false;
        }
        i += 1;
    }
    proof {
        assert(ab@ =~= bb@);
        vstd::utf8::encode_utf8_decode_utf8(a@);
        vstd::utf8::encode_utf8_decode_utf8(b@);
        assert(vstd::utf8::decode_utf8(ab@) == a@);
        assert(vstd::utf8::decode_utf8(bb@) == b@);
    }
    true
}

/// Find `key` among an object's fields.
fn lookup_field<'a>(fields: &'a Vec<(String, JsonValue)>, key: &str) -> (r: Option<
    &'a JsonValue,
>)
    ensures
        match r {
            Some(v) => obj_lookup(fields@, key@) == Some(*v),
            None => obj_lookup(fields@, key@) is None,
        },
{
    proof {
        assert(fields@.skip(0) =~= fields@);
    }
    let mut i: usize = 0;
    while i < fields.len()
        invariant
            i <= fields@.len(),
            obj_lookup(fields@.skip(i as int), key@) == obj_lookup(fields@, key@),
        decreases fields@.len() - i,
    {
        proof {
            assert(fields@.skip(i as int)[0] == fields@[i as int]);
            assert(fields@.skip(i as int).drop_first() =~= fields@.skip(i as int + 1));
        }
        if str_eq(fields[i].0.as_str(), key) {
            return Some(&fields[i].1);
        }
        i += 1;
    }
    proof {
        assert(fields@.skip(fields@.len() as int).len() == 0);
    }
    None
}

// ---------------------------------------------------------------------------
// The envelope
// ---------------------------------------------------------------------------

/// The result list under `data.results`.  A missing `data` member is the
/// service's way of reporting nothing, and stands for an empty list; any
/// other departure from the envelope shape is a decode failure (`None`).
pub open spec fn envelope_results(j: JsonValue) -> Option<Seq<JsonValue>> {
    match j {
        JsonValue::Obj(fields) => match obj_lookup(fields@, "data"@) {
            None => Some(Seq::empty()),
            Some(d) => match d {
                JsonValue::Obj(dfields) => match obj_lookup(dfields@, "results"@) {
                    Some(JsonValue::Arr(items)) => Some(items@),
                    _ => None,
                },
                _ => None,
            },
        },
        _ => None,
    }
}

/// The paging metadata under `data`, when the envelope carries all four
/// counters as numbers in range.
pub open spec fn pagination_of(j: JsonValue) -> Option<PaginationDetails> {
    match j {
        JsonValue::Obj(fields) => match obj_lookup(fields@, "data"@) {
            Some(JsonValue::Obj(dfields)) => match (
                obj_lookup(dfields@, "offset"@),
                obj_lookup(dfields@, "limit"@),
                obj_lookup(dfields@, "total"@),
                obj_lookup(dfields@, "count"@),
            ) {
                (
                    Some(JsonValue::Int(o)),
                    Some(JsonValue::Int(l)),
                    Some(JsonValue::Int(t)),
                    Some(JsonValue::Int(c)),
                ) => if i32::MIN <= o <= i32::MAX && i32::MIN <= l <= i32::MAX && i32::MIN <= t
                    <= i32::MAX && i32::MIN <= c <= i32::MAX {
                    Some(
                        PaginationDetails {
                            offset: o as i32,
                            limit: l as i32,
                            total: t as i32,
                            count: c as i32,
                        },
                    )
                } else {
                    None
                },
                _ => None,
            },
            _ => None,
        },
        _ => None,
    }
}

/// Read the envelope's paging metadata, when it is there and well formed.
pub fn pagination_details(j: &JsonValue) -> (r: Option<PaginationDetails>)
    ensures
        r == pagination_of(*j),
{
    let fields = match j {
        JsonValue::Obj(fields) => fields,
        _ => {
            return None;
        },
    };
    let dfields = match lookup_field(fields, "data") {
        Some(JsonValue::Obj(dfields)) => dfields,
        _ => {
            return None;
        },
    };
    let o = match lookup_field(dfields, "offset") {
        Some(JsonValue::Int(o)) => *o,
        _ => {
            return None;
        },
    };
    let l = match lookup_field(dfields, "limit") {
        Some(JsonValue::Int(l)) => *l,
        _ => {
            return None;
        },
    };
    let t = match lookup_field(dfields, "total") {
        Some(JsonValue::Int(t)) => *t,
        _ => {
            return None;
        },
    };
    let c = match lookup_field(dfields, "count") {
        Some(JsonValue::Int(c)) => *c,
        _ => {
            return None;
        },
    };
    if o < i32::MIN as i64 || o > i32::MAX as i64 || l < i32::MIN as i64 || l > i32::MAX as i64
        || t < i32::MIN as i64 || t > i32::MAX as i64 || c < i32::MIN as i64 || c
        > i32::MAX as i64 {
        return None;
    }
    Some(
        PaginationDetails {
            offset: o as i32,
            limit: l as i32,
            total: t as i32,
            count: c as i32,
        },
    )
}

// ---------------------------------------------------------------------------
// Entry decoders
// ---------------------------------------------------------------------------

/// One character entry: `id`, `name` and `description` must be there, with
/// `id` a number an `i32` can hold.
pub open spec fn character_of(j: JsonValue) -> Option<CharacterView> {
    match j {
        JsonValue::Obj(fields) => match (
            obj_lookup(fields@, "id"@),
            obj_lookup(fields@, "name"@),
            obj_lookup(fields@, "description"@),
        ) {
            (Some(JsonValue::Int(id)), Some(JsonValue::Str(n)), Some(JsonValue::Str(d))) => if
                i32::MIN <= id <= i32::MAX {
                Some(CharacterView { id: id as int, name: n@, description: d@ })
            } else {
                None
            },
            _ => None,
        },
        _ => None,
    }
}

/// One event entry: `id`, `title` and `description` must be there; a missing
/// or null `start` is an event without a known date.
pub open spec fn event_of(j: JsonValue) -> Option<EventView> {
    match j {
        JsonValue::Obj(fields) => match (
            obj_lookup(fields@, "id"@),
            obj_lookup(fields@, "title"@),
            obj_lookup(fields@, "description"@),
        ) {
            (Some(JsonValue::Int(id)), Some(JsonValue::Str(t)), Some(JsonValue::Str(d))) => if
                i32::MIN <= id <= i32::MAX {
                match obj_lookup(fields@, "start"@) {
                    None => Some(
                        EventView { id: id as int, title: t@, start: None, description: d@ },
                    ),
                    Some(JsonValue::Null) => Some(
                        EventView { id: id as int, title: t@, start: None, description: d@ },
                    ),
                    Some(JsonValue::Str(s)) => Some(
                        EventView { id: id as int, title: t@, start: Some(s@), description: d@ },
                    ),
                    Some(_) => None,
                }
            } else {
                None
            },
            _ => None,
        },
        _ => None,
    }
}

pub open spec fn characters_of(items: Seq<JsonValue>) -> Option<Seq<CharacterView>>
    decreases items.len(),
{
    if items.len() == 0 {
        Some(Seq::empty())
    } else {
        match (character_of(items[0]), characters_of(items.drop_first())) {
            (Some(c), Some(t)) => Some(seq![c] + t),
            _ => None,
        }
    }
}

pub open spec fn events_of(items: Seq<JsonValue>) -> Option<Seq<EventView>>
    decreases items.len(),
{
    if items.len() == 0 {
        Some(Seq::empty())
    } else {
        match (event_of(items[0]), events_of(items.drop_first())) {
            (Some(e), Some(t)) => Some(seq![e] + t),
            _ => None,
        }
    }
}

/// What decoding a whole character response yields.
pub open spec fn decode_characters_spec(j: JsonValue) -> Option<Seq<CharacterView>> {
    match envelope_results(j) {
        Some(items) => characters_of(items),
        None => None,
    }
}

/// What decoding a whole event response yields.
pub open spec fn decode_events_spec(j: JsonValue) -> Option<Seq<EventView>> {
    match envelope_results(j) {
        Some(items) => events_of(items),
        None => None,
    }
}

/// The views of a decoded character list.
pub open spec fn views_of_characters(s: Seq<Character>) -> Seq<CharacterView> {
    Seq::new(s.len(), |i: int| s[i]@)
}

/// The views of a decoded event list.
pub open spec fn views_of_events(s: Seq<Event>) -> Seq<EventView> {
    Seq::new(s.len(), |i: int| s[i]@)
}

/// Decode one character entry.
fn decode_character(j: &JsonValue) -> (r: Result<Character, MarvelError>)
    ensures
        r matches Ok(c) ==> character_of(*j) == Some(c@),
        r is Err <==> character_of(*j) is None,
        r matches Err(e) ==> e is DecodeError,
{
    let fields = match j {
        JsonValue::Obj(fields) => fields,
        _ => {
            return Err(MarvelError::DecodeError);
        },
    };
    let id = match lookup_field(fields, "id") {
        Some(JsonValue::Int(id)) => *id,
        _ => {
            return Err(MarvelError::DecodeError);
        },
    };
    let name = match lookup_field(fields, "name") {
        Some(JsonValue::Str(n)) => n.clone(),
        _ => {
            return Err(MarvelError::DecodeError);
        },
    };
    let description = match lookup_field(fields, "description") {
        Some(JsonValue::Str(d)) => d.clone(),
        _ => {
            return Err(MarvelError::DecodeError);
        },
    };
    if id < i32::MIN as i64 || id > i32::MAX as i64 {
        return Err(MarvelError::DecodeError);
    }
    Ok(Character { id: id as i32, name, description })
}

/// Decode one event entry.
fn decode_event(j: &JsonValue) -> (r: Result<Event, MarvelError>)
    ensures
        r matches Ok(e) ==> event_of(*j) == Some(e@),
        r is Err <==> event_of(*j) is None,
        r matches Err(e) ==> e is DecodeError,
{
    let fields = match j {
        JsonValue::Obj(fields) => fields,
        _ => {
            return Err(MarvelError::DecodeError);
        },
    };
    let id = match lookup_field(fields, "id") {
        Some(JsonValue::Int(id)) => *id,
        _ => {
            return Err(MarvelError::DecodeError);
        },
    };
    let title = match lookup_field(fields, "title") {
        Some(JsonValue::Str(t)) => t.clone(),
        _ => {
            return Err(MarvelError::DecodeError);
        },
    };
    let description = match lookup_field(fields, "description") {
        Some(JsonValue::Str(d)) => d.clone(),
        _ => {
            return Err(MarvelError::DecodeError);
        },
    };
    let start = match lookup_field(fields, "start") {
        None => None,
        Some(JsonValue::Null) => None,
        Some(JsonValue::Str(s)) => Some(s.clone()),
        Some(_) => {
            return Err(MarvelError::DecodeError);
        },
    };
    if id < i32::MIN as i64 || id > i32::MAX as i64 {
        return Err(MarvelError::DecodeError);
    }
    Ok(Event { id: id as i32, title, start, description })
}

/// Take the result list out of an envelope.
fn envelope_items<'a>(j: &'a JsonValue, empty: &'a Vec<JsonValue>) -> (r: Result<
    &'a Vec<JsonValue>,
    MarvelError,
>)
    requires
        empty@.len() == 0,
    ensures
        r matches Ok(items) ==> envelope_results(*j) == Some(items@),
        r is Err <==> envelope_results(*j) is None,
        r matches Err(e) ==> e is DecodeError,
{
    let fields = match j {
        JsonValue::Obj(fields) => fields,
        _ => {
            return Err(MarvelError::DecodeError);
        },
    };
    let d = match lookup_field(fields, "data") {
        None => {
            proof {
                assert(envelope_results(*j) == Some(Seq::<JsonValue>::empty()));
                assert(empty@ =~= Seq::<JsonValue>::empty());
            }
            return Ok(empty);
        },
        Some(d) => d,
    };
    let dfields = match d {
        JsonValue::Obj(dfields) => dfields,
        _ => {
            return Err(MarvelError::DecodeError);
        },
    };
    match lookup_field(dfields, "results") {
        Some(JsonValue::Arr(items)) => Ok(items),
        _ => Err(MarvelError::DecodeError),
    }
}

/// Decode a character response: the typed result list, or the exact failure.
pub fn decode_characters(j: &JsonValue) -> (r: Result<Vec<Character>, MarvelError>)
    ensures
        r matches Ok(v) ==> decode_characters_spec(*j) == Some(views_of_characters(v@)),
        r is Err <==> decode_characters_spec(*j) is None,
        r matches Err(e) ==> e is DecodeError,
{
    let empty: Vec<JsonValue> = Vec::new();
    let items = match envelope_items(j, &empty) {
        Ok(items) => items,
        Err(e) => {
            return Err(e);
        },
    };
    let mut out: Vec<Character> = Vec::new();
    let mut i: usize = 0;
    proof {
        assert(items@.skip(0) =~= items@);
    }
    while i < items.len()
        invariant
            i <= items@.len(),
            envelope_results(*j) == Some(items@),
            match characters_of(items@.skip(i as int)) {
                Some(t) => characters_of(items@) == Some(views_of_characters(out@) + t),
                None => characters_of(items@) is None,
            },
        decreases items@.len() - i,
    {
        proof {
            assert(items@.skip(i as int)[0] == items@[i as int]);
            assert(items@.skip(i as int).drop_first() =~= items@.skip(i as int + 1));
        }
        let c = match decode_character(&items[i]) {
            Ok(c) => c,
            Err(e) => {
                proof {
                    assert(characters_of(items@.skip(i as int)) is None);
                }
                return Err(e);
            },
        };
        let ghost prev = out@;
        out.push(c);
        proof {
            match characters_of(items@.skip(i as int + 1)) {
                Some(t) => {
                    assert(characters_of(items@.skip(i as int)) == Some(seq![c@] + t));
                    assert(views_of_characters(prev) + (seq![c@] + t) =~= views_of_characters(
                        out@,
                    ) + t);
                },
                None => {},
            }
        }
        i += 1;
    }
    proof {
        assert(items@.skip(items@.len() as int).len() == 0);
        assert(views_of_characters(out@) + Seq::<CharacterView>::empty() =~= views_of_characters(
            out@,
        ));
    }
    Ok(out)
}

/// Decode an event response: the typed result list, or the exact failure.
pub fn decode_events(j: &JsonValue) -> (r: Result<Vec<Event>, MarvelError>)
    ensures
        r matches Ok(v) ==> decode_events_spec(*j) == Some(views_of_events(v@)),
        r is Err <==> decode_events_spec(*j) is None,
        r matches Err(e) ==> e is DecodeError,
{
    let empty: Vec<JsonValue> = Vec::new();
    let items = match envelope_items(j, &empty) {
        Ok(items) => items,
        Err(e) => {
            return Err(e);
        },
    };
    let mut out: Vec<Event> = Vec::new();
    let mut i: usize = 0;
    proof {
        assert(items@.skip(0) =~= items@);
    }
    while i < items.len()
        invariant
            i <= items@.len(),
            envelope_results(*j) == Some(items@),
            match events_of(items@.skip(i as int)) {
                Some(t) => events_of(items@) == Some(views_of_events(out@) + t),
                None => events_of(items@) is None,
            },
        decreases items@.len() - i,
    {
        proof {
            assert(items@.skip(i as int)[0] == items@[i as int]);
            assert(items@.skip(i as int).drop_first() =~= items@.skip(i as int + 1));
        }
        let e = match decode_event(&items[i]) {
            Ok(e) => e,
            Err(err) => {
                proof {
                    assert(events_of(items@.skip(i as int)) is None);
                }
                return Err(err);
            },
        };
        let ghost prev = out@;
        out.push(e);
        proof {
            match events_of(items@.skip(i as int + 1)) {
                Some(t) => {
                    assert(events_of(items@.skip(i as int)) == Some(seq![e@] + t));
                    assert(views_of_events(prev) + (seq![e@] + t) =~= views_of_events(out@) + t);
                },
                None => {},
            }
        }
        i += 1;
    }
    proof {
        assert(items@.skip(items@.len() as int).len() == 0);
        assert(views_of_events(out@) + Seq::<EventView>::empty() =~= views_of_events(out@));
    }
    Ok(out)
}

/// The decoders are pure functions of the document: decoding the same
/// document again yields the same result, in content and order.
pub proof fn lemma_decode_events_deterministic(j1: JsonValue, j2: JsonValue)
    requires
        j1 == j2,
    ensures
        decode_events_spec(j1) == decode_events_spec(j2),
{
}

/// Repeated lookups against an unchanged dataset return identical event
/// lists: equal response bodies parse to the same document, and equal
/// documents decode to the same list, in content and order.
pub proof fn lemma_events_lookup_idempotent(b1: Seq<char>, b2: Seq<char>)
    requires
        b1 == b2,
    ensures
        crate::json::json_of(b1) == crate::json::json_of(b2),
        match (crate::json::json_of(b1), crate::json::json_of(b2)) {
            (Some(j1), Some(j2)) => decode_events_spec(j1) == decode_events_spec(j2),
            (None, None) => true,
            _ => false,
        },
{
}

// ---------------------------------------------------------------------------
// Picking the character a lookup was for
// ---------------------------------------------------------------------------

/// The id of the first (and expected only) match of an exact-name lookup;
/// an empty result list names the character that was not found.
pub fn first_character_id(chars: &Vec<Character>, name: &str) -> (r: Result<i32, MarvelError>)
    ensures
        (chars@.len() > 0) <==> r is Ok,
        r matches Ok(id) ==> id == chars@[0].id,
        r matches Err(e) ==> (e matches MarvelError::CharacterNotFound(n) && n@ == name@),
{
    if chars.len() == 0 {
        Err(MarvelError::CharacterNotFound(String::from_str(name)))
    } else {
        Ok(chars[0].id)
    }
}

/// An event's description cut to its first forty characters, for display.
pub fn format_description(event: &Event) -> (r: String)
    ensures
        r@ == if event.description@.len() <= 40 {
            event.description@
        } else {
            event.description@.subrange(0, 40)
        },
{
    let n = event.description.as_str().unicode_len();
    if n <= 40 {
        event.description.clone()
    } else {
        event.description.as_str().substring_char(0, 40).to_owned()
    }
}

} // verus!
