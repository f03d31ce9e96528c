use vstd::prelude::*;
use vstd::string::StrSliceExecFns;
use crate::decode::{Event, EventView, views_of_events};

verus! {

// ---------------------------------------------------------------------------
// Event equality
// ---------------------------------------------------------------------------

impl vstd::std_specs::cmp::PartialEqSpecImpl for Event {
    open spec fn obeys_eq_spec() -> bool {
        true
    }

    open spec fn eq_spec(&self, other: &Self) -> bool {
        self@ == other@
    }
}

impl PartialEq for Event {
    /// Full-value equality: all four fields must agree, the id included.
    fn eq(&self, other: &Self) -> (r: bool) {
        self.id == other.id && self.title == other.title && (match (&self.start, &other.start) {
            (Some(x), Some(y)) => *x == *y,
            (None, None) => true,
            _ => false,
        }) && self.description == other.description
    }
}

impl Eq for Event {

}

// ---------------------------------------------------------------------------
// The order on start dates
// ---------------------------------------------------------------------------

/// Code-point lexicographic order on date text.
pub open spec fn lex_le(a: Seq<char>, b: Seq<char>) -> bool
    decreases a.len(),
{
    if a.len() == 0 {
        true
    } else if b.len() == 0 {
        false
    } else if (a[0] as u32) < (b[0] as u32) {
        true
    } else if (a[0] as u32) > (b[0] as u32) {
        false
    } else {
        lex_le(a.drop_first(), b.drop_first())
    }
}

/// The order the earliest-event selection uses: an event without a date
/// sorts before any dated one, and dates compare as text.
pub open spec fn start_le(a: Option<Seq<char>>, b: Option<Seq<char>>) -> bool {
    match (a, b) {
        (Option::None, _) => true,
        (Option::Some(x), Option::None) => false,
        (Option::Some(x), Option::Some(y)) => lex_le(x, y),
    }
}

pub proof fn lemma_lex_le_total(a: Seq<char>, b: Seq<char>)
    ensures
        lex_le(a, b) || lex_le(b, a),
    decreases a.len(),
{
    if a.len() != 0 && b.len() != 0 && a[0] as u32 == b[0] as u32 {
        lemma_lex_le_total(a.drop_first(), b.drop_first());
    }
}

pub proof fn lemma_lex_le_trans(a: Seq<char>, b: Seq<char>, c: Seq<char>)
    requires
        lex_le(a, b),
        lex_le(b, c),
    ensures
        lex_le(a, c),
    decreases a.len(),
{
    if a.len() != 0 && b.len() != 0 && c.len() != 0 {
        if a[0] as u32 == b[0] as u32 && b[0] as u32 == c[0] as u32 {
            lemma_lex_le_trans(a.drop_first(), b.drop_first(), c.drop_first());
        }
    }
}

/// `start_le` orders every pair of start fields one way or the other.
pub proof fn lemma_start_le_total(a: Option<Seq<char>>, b: Option<Seq<char>>)
    ensures
        start_le(a, b) || start_le(b, a),
{
    match (a, b) {
        (Option::Some(x), Option::Some(y)) => {
            lemma_lex_le_total(x, y);
        },
        _ => {},
    }
}

/// `start_le` chains: what is at or before an earlier date is at or before a
/// later one.
pub proof fn lemma_start_le_trans(a: Option<Seq<char>>, b: Option<Seq<char>>, c: Option<Seq<char>>)
    requires
        start_le(a, b),
        start_le(b, c),
    ensures
        start_le(a, c),
{
    match (a, b, c) {
        (Option::Some(x), Option::Some(y), Option::Some(z)) => {
            lemma_lex_le_trans(x, y, z);
        },
        _ => {},
    }
}

/// Compare two pieces of date text.
fn lex_le_exec(a: &str, b: &str) -> (r: bool)
    ensures
        r == lex_le(a@, b@),
{
    let an = a.unicode_len();
    let bn = b.unicode_len();
    proof {
        assert(a@.skip(0) =~= a@);
        assert(b@.skip(0) =~= b@);
    }
    let mut i: usize = 0;
    loop
        invariant
            i <= an,
            i <= bn,
            an == a@.len(),
            bn == b@.len(),
            lex_le(a@, b@) == lex_le(a@.skip(i as int), b@.skip(i as int)),
        decreases an - i,
    {
        if i >= an {
            proof {
                assert(a@.skip(i as int).len() == 0);
            }
            return true;
        }
        if i >= bn {
            proof {
                assert(b@.skip(i as int).len() == 0);
                assert(a@.skip(i as int).len() > 0);
            }
            return false;
        }
        let ca = a.get_char(i) as u32;
        let cb = b.get_char(i) as u32;
        proof {
            assert(a@.skip(i as int)[0] == a@[i as int]);
            assert(b@.skip(i as int)[0] == b@[i as int]);
            assert(a@.skip(i as int).drop_first() =~= a@.skip(i as int + 1));
            assert(b@.skip(i as int).drop_first() =~= b@.skip(i as int + 1));
        }
        if ca < cb {
            return true;
        }
        if ca > cb {
            return false;
        }
        i += 1;
    }
}

/// Whether `a` starts at or before `b` under the selection order.
pub fn event_start_le(a: &Event, b: &Event) -> (r: bool)
    ensures
        r == start_le(a@.start, b@.start),
{
    match (&a.start, &b.start) {
        (Option::None, _) => true,
        (Option::Some(_), Option::None) => false,
        (Option::Some(x), Option::Some(y)) => lex_le_exec(x.as_str(), y.as_str()),
    }
}

// ---------------------------------------------------------------------------
// Intersection and the earliest shared event
// ---------------------------------------------------------------------------

/// Whether some element of `s` is the event `e`, by full-value equality.
pub open spec fn has_event(s: Seq<EventView>, e: EventView) -> bool {
    exists|i: int| 0 <= i < s.len() && s[i] == e
}

/// Whether `e` appears in both collections: membership in the intersection.
pub open spec fn is_shared(av: Seq<EventView>, bv: Seq<EventView>, e: EventView) -> bool {
    has_event(av, e) && has_event(bv, e)
}

/// Whether the collection holds this event.
pub fn contains_event(v: &Vec<Event>, e: &Event) -> (r: bool)
    ensures
        r == has_event(views_of_events(v@), e@),
{
    let ghost vv = views_of_events(v@);
    let mut i: usize = 0;
    while i < v.len()
        invariant
            i <= v@.len(),
            vv == views_of_events(v@),
            forall|j: int| 0 <= j < i ==> vv[j] != e@,
        decreases v@.len() - i,
    {
        proof {
            assert(vv[i as int] == v@[i as int]@);
        }
        if v[i].eq(e) {
            proof {
                assert(vv[i as int] == e@);
            }
            return true;
        }
        i += 1;
    }
    proof {
        if has_event(vv, e@) {
            let k = choose|k: int| 0 <= k < vv.len() && vv[k] == e@;
            assert(vv[k] != e@);
        }
    }
    false
}

/// The selection the correlation makes: element `k` of `av` is shared, its
/// start is minimal among everything shared, and no earlier shared element
/// of `av` attains that minimum.  For fixed collections exactly one event
/// satisfies this, so the choice is deterministic, and identical duplicate
/// entries cannot change it.
pub open spec fn is_first_earliest(
    av: Seq<EventView>,
    bv: Seq<EventView>,
    e: EventView,
    k: int,
) -> bool {
    &&& 0 <= k < av.len()
    &&& av[k] == e
    &&& has_event(bv, e)
    &&& forall|f: EventView| is_shared(av, bv, f) ==> start_le(e.start, f.start)
    &&& forall|j: int|
        0 <= j < k && has_event(bv, #[trigger] av[j]) ==> !start_le(av[j].start, e.start)
}

/// Two events satisfying the selection from the same collections are the
/// same event: the tie-break is pinned, so a repeated run, or one whose
/// input drops or repeats a duplicate entry, returns the same result.
pub proof fn lemma_selection_unique(
    av: Seq<EventView>,
    bv: Seq<EventView>,
    e1: EventView,
    k1: int,
    e2: EventView,
    k2: int,
)
    requires
        is_first_earliest(av, bv, e1, k1),
        is_first_earliest(av, bv, e2, k2),
    ensures
        e1 == e2,
{
    assert(av[k1] == e1);
    assert(av[k2] == e2);
    assert(is_shared(av, bv, e1));
    assert(is_shared(av, bv, e2));
    if k1 < k2 {
        assert(start_le(e1.start, e2.start));
        assert(!start_le(av[k1].start, e2.start));
        assert(false);
    } else if k2 < k1 {
        assert(start_le(e2.start, e1.start));
        assert(!start_le(av[k2].start, e1.start));
        assert(false);
    }
}

/// Identical duplicate entries are collapsed by membership: dropping a later
/// copy of an event that already stands earlier in the first collection
/// leaves the selected event unchanged.
pub proof fn lemma_duplicate_entry_irrelevant(
    av: Seq<EventView>,
    bv: Seq<EventView>,
    c: int,
    d: int,
    e1: EventView,
    k1: int,
    e2: EventView,
    k2: int,
)
    requires
        0 <= c < d < av.len(),
        av[c] == av[d],
        is_first_earliest(av, bv, e1, k1),
        is_first_earliest(av.remove(d), bv, e2, k2),
    ensures
        e1 == e2,
{
    let av2 = av.remove(d);
    av.remove_ensures(d);
    // membership in the first collection is the same with or without the copy
    assert forall|f: EventView| has_event(av, f) implies has_event(av2, f) by {
        let i = choose|i: int| 0 <= i < av.len() && av[i] == f;
        if i < d {
            assert(av2[i] == f);
        } else if i == d {
            assert(av2[c] == av[c]);
            assert(av2[c] == f);
        } else {
            assert(av2[i - 1] == f);
        }
    }
    assert forall|f: EventView| has_event(av2, f) implies has_event(av, f) by {
        let i = choose|i: int| 0 <= i < av2.len() && av2[i] == f;
        if i < d {
            assert(av[i] == f);
        } else {
            assert(av[i + 1] == f);
        }
    }
    // e2's selection, read back in the collection that still holds the copy
    let m = if k2 < d {
        k2
    } else {
        k2 + 1
    };
    assert(av[m] == e2);
    assert forall|f: EventView| is_shared(av, bv, f) implies start_le(e2.start, f.start) by {
        assert(is_shared(av2, bv, f));
    }
    assert forall|j: int| 0 <= j < m && has_event(bv, #[trigger] av[j]) implies !start_le(
        av[j].start,
        e2.start,
    ) by {
        if j < d {
            assert(av2[j] == av[j]);
            assert(j < k2);
        } else if j == d {
            assert(av2[c] == av[j]);
            assert(c < k2);
        } else {
            assert(av2[j - 1] == av[j]);
            assert(j - 1 < k2);
        }
    }
    assert(is_first_earliest(av, bv, e2, m));
    lemma_selection_unique(av, bv, e1, k1, e2, m);
}

/// The earliest event the two collections share, under `start_le`; `None`
/// exactly when they share nothing.  Ties on the start date keep the first
/// match in the first collection's order, so the choice is deterministic:
/// the result is the one event `is_first_earliest` admits.
pub fn earliest_shared_event(a: &Vec<Event>, b: &Vec<Event>) -> (r: Option<Event>)
    ensures
        (r is None) <==> (forall|f: EventView|
            !is_shared(views_of_events(a@), views_of_events(b@), f)),
        r matches Some(e) ==> is_shared(views_of_events(a@), views_of_events(b@), e@),
        r matches Some(e) ==> forall|f: EventView|
            is_shared(views_of_events(a@), views_of_events(b@), f) ==> start_le(e@.start, f.start),
        r matches Some(e) ==> exists|k: int|
            is_first_earliest(views_of_events(a@), views_of_events(b@), e@, k),
{
    let ghost va = views_of_events(a@);
    let ghost vb = views_of_events(b@);
    let mut best: Option<Event> = None;
    let ghost mut bi: int = 0;
    let mut i: usize = 0;
    while i < a.len()
        invariant
            i <= a@.len(),
            va == views_of_events(a@),
            vb == views_of_events(b@),
            match best {
                Option::None => forall|k: int| 0 <= k < i ==> !has_event(vb, #[trigger] va[k]),
                Option::Some(e) => {
                    &&& 0 <= bi < i
                    &&& va[bi] == e@
                    &&& is_shared(va, vb, e@)
                    &&& forall|k: int|
                        0 <= k < i && has_event(vb, #[trigger] va[k]) ==> start_le(
                            e@.start,
                            va[k].start,
                        )
                    &&& forall|j: int|
                        0 <= j < bi && has_event(vb, #[trigger] va[j]) ==> !start_le(
                            va[j].start,
                            e@.start,
                        )
                },
            },
        decreases a@.len() - i,
    {
        proof {
            assert(va[i as int] == a@[i as int]@);
        }
        if contains_event(b, &a[i]) {
            let replace = match &best {
                Option::None => true,
                Option::Some(e) => !event_start_le(e, &a[i]),
            };
            proof {
                assert(has_event(va, va[i as int])) by {
                    assert(0 <= i < va.len() && va[i as int] == va[i as int]);
                }
            }
            if replace {
                let ghost old_best = best;
                best = Some(a[i].clone());
                proof {
                    let cur = va[i as int];
                    match old_best {
                        Option::None => {
                            assert forall|k: int|
                                0 <= k < i + 1 && has_event(vb, #[trigger] va[k]) implies start_le(
                                cur.start,
                                va[k].start,
                            ) by {
                                if k < i {
                                    assert(!has_event(vb, va[k]));
                                } else {
                                    lemma_start_le_total(cur.start, cur.start);
                                }
                            }
                            assert forall|j: int|
                                0 <= j < i && has_event(vb, #[trigger] va[j]) implies !start_le(
                                va[j].start,
                                cur.start,
                            ) by {
                                assert(!has_event(vb, va[j]));
                            }
                        },
                        Option::Some(e) => {
                            lemma_start_le_total(e@.start, cur.start);
                            assert(start_le(cur.start, e@.start));
                            assert forall|k: int|
                                0 <= k < i + 1 && has_event(vb, #[trigger] va[k]) implies start_le(
                                cur.start,
                                va[k].start,
                            ) by {
                                if k < i {
                                    lemma_start_le_trans(cur.start, e@.start, va[k].start);
                                } else {
                                    lemma_start_le_total(cur.start, cur.start);
                                }
                            }
                            assert forall|j: int|
                                0 <= j < i && has_event(vb, #[trigger] va[j]) implies !start_le(
                                va[j].start,
                                cur.start,
                            ) by {
                                if start_le(va[j].start, cur.start) {
                                    // the old choice was at or before va[j], so it
                                    // would be at or before the new one too
                                    lemma_start_le_trans(e@.start, va[j].start, cur.start);
                                }
                            }
                        },
                    }
                    bi = i as int;
                }
            } else {
                proof {
                    match &best {
                        Option::Some(e) => {
                            assert(start_le(e@.start, va[i as int].start));
                            assert forall|k: int|
                                0 <= k < i + 1 && has_event(vb, #[trigger] va[k]) implies start_le(
                                e@.start,
                                va[k].start,
                            ) by {}
                        },
                        Option::None => {},
                    }
                }
            }
        } else {
            proof {
                match &best {
                    Option::None => {
                        assert forall|k: int| 0 <= k < i + 1 implies !has_event(
                            vb,
                            #[trigger] va[k],
                        ) by {}
                    },
                    Option::Some(e) => {},
                }
            }
        }
        i += 1;
    }
    proof {
        match &best {
            Option::None => {
                assert forall|f: EventView| !is_shared(va, vb, f) by {
                    if is_shared(va, vb, f) {
                        let k = choose|k: int| 0 <= k < va.len() && va[k] == f;
                        assert(!has_event(vb, va[k]));
                    }
                }
            },
            Option::Some(e) => {
                assert forall|f: EventView| is_shared(va, vb, f) implies start_le(
                    e@.start,
                    f.start,
                ) by {
                    let k = choose|k: int| 0 <= k < va.len() && va[k] == f;
                    assert(has_event(vb, va[k]));
                }
                assert(is_first_earliest(va, vb, e@, bi));
            },
        }
    }
    best
}

} // verus!
