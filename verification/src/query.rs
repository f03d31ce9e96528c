use vstd::prelude::*;

verus! {

// ---------------------------------------------------------------------------
// Percent-encoding of query components, and the query-string grammar
// `key=value(&key=value)*`, both as specification functions with executable
// counterparts.  Encoding works on the UTF-8 bytes of the parameter text, so
// a parameter set survives the trip into a URI and back unchanged.
// ---------------------------------------------------------------------------

/// Bytes that stand for themselves in a query component (the unreserved set).
pub open spec fn is_unreserved(b: u8) -> bool {
    (65 <= b && b <= 90)  // 'A'..'Z'
    || (97 <= b && b <= 122)  // 'a'..'z'
    || (48 <= b && b <= 57)  // '0'..'9'
    || b == 45  // '-'
    || b == 46  // '.'
    || b == 95  // '_'
    || b == 126  // '~'
}

/// The uppercase hex digit for a value below sixteen.
pub open spec fn hex_digit(n: u8) -> u8 {
    if n < 10 {
        (48 + n) as u8
    } else {
        (65 + (n - 10)) as u8
    }
}

pub open spec fn is_hex_digit(b: u8) -> bool {
    (48 <= b && b <= 57) || (65 <= b && b <= 70)
}

/// The value of an uppercase hex digit.
pub open spec fn hex_value(b: u8) -> u8 {
    if 48 <= b && b <= 57 {
        (b - 48) as u8
    } else {
        (b - 65 + 10) as u8
    }
}

/// One byte, percent-encoded: unreserved bytes stand for themselves, every
/// other byte becomes `%` and two uppercase hex digits.
pub open spec fn enc_byte(b: u8) -> Seq<u8> {
    if is_unreserved(b) {
        seq![b]
    } else {
        seq![37u8, hex_digit(b / 16), hex_digit(b % 16)]
    }
}

/// A whole component, percent-encoded byte for byte.
pub open spec fn enc_component(s: Seq<u8>) -> Seq<u8>
    decreases s.len(),
{
    if s.len() == 0 {
        Seq::empty()
    } else {
        enc_byte(s[0]) + enc_component(s.drop_first())
    }
}

/// One `key=value` pair, both sides percent-encoded.
pub open spec fn enc_pair(p: (Seq<u8>, Seq<u8>)) -> Seq<u8> {
    enc_component(p.0) + seq![61u8] + enc_component(p.1)
}

/// The pairs after the first one, each preceded by `&`.
pub open spec fn enc_tail(ps: Seq<(Seq<u8>, Seq<u8>)>) -> Seq<u8>
    decreases ps.len(),
{
    if ps.len() == 0 {
        Seq::empty()
    } else {
        seq![38u8] + enc_pair(ps[0]) + enc_tail(ps.drop_first())
    }
}

/// A parameter list as a query string: pairs joined with `&`.
pub open spec fn enc_query(ps: Seq<(Seq<u8>, Seq<u8>)>) -> Seq<u8> {
    if ps.len() == 0 {
        Seq::empty()
    } else {
        enc_pair(ps[0]) + enc_tail(ps.drop_first())
    }
}

/// Position of the first occurrence of `c` in `s`, or `s.len()` when absent.
pub open spec fn find_byte(s: Seq<u8>, c: u8) -> int
    decreases s.len(),
{
    if s.len() == 0 {
        0
    } else if s[0] == c {
        0
    } else {
        1 + find_byte(s.drop_first(), c)
    }
}

/// Percent-decoding of one component; `None` on a malformed escape.
pub open spec fn dec_component(s: Seq<u8>) -> Option<Seq<u8>>
    decreases s.len(),
{
    if s.len() == 0 {
        Some(Seq::empty())
    } else if s[0] == 37 {
        if s.len() >= 3 && is_hex_digit(s[1]) && is_hex_digit(s[2]) {
            match dec_component(s.skip(3)) {
                Some(t) => Some(seq![(hex_value(s[1]) * 16 + hex_value(s[2])) as u8] + t),
                None => None,
            }
        } else {
            None
        }
    } else {
        match dec_component(s.drop_first()) {
            Some(t) => Some(seq![s[0]] + t),
            None => None,
        }
    }
}

/// One `key=value` segment; `None` when `=` is absent or an escape is malformed.
pub open spec fn dec_pair(s: Seq<u8>) -> Option<(Seq<u8>, Seq<u8>)> {
    let j = find_byte(s, 61);
    if j == s.len() {
        None
    } else {
        match (dec_component(s.take(j)), dec_component(s.skip(j + 1))) {
            (Some(k), Some(v)) => Some((k, v)),
            _ => None,
        }
    }
}

/// A whole query string as a parameter list; the empty string holds no pairs.
pub open spec fn dec_query(s: Seq<u8>) -> Option<Seq<(Seq<u8>, Seq<u8>)>>
    decreases s.len() via dec_query_decreases
{
    if s.len() == 0 {
        Some(Seq::empty())
    } else {
        let i = find_byte(s, 38);
        match dec_pair(s.take(i)) {
            None => None,
            Some(p) => if i == s.len() {
                Some(seq![p])
            } else {
                match dec_query(s.skip(i + 1)) {
                    None => None,
                    Some(t) => Some(seq![p] + t),
                }
            },
        }
    }
}

#[via_fn]
proof fn dec_query_decreases(s: Seq<u8>) {
    lemma_find_byte(s, 38);
}

// ---------------------------------------------------------------------------
// Facts about `find_byte`
// ---------------------------------------------------------------------------

/// `find_byte` points at the first occurrence of `c`, or at the end.
pub proof fn lemma_find_byte(s: Seq<u8>, c: u8)
    ensures
        0 <= find_byte(s, c) <= s.len(),
        find_byte(s, c) < s.len() ==> s[find_byte(s, c)] == c,
        forall|j: int| 0 <= j < find_byte(s, c) ==> s[j] != c,
    decreases s.len(),
{
    if s.len() != 0 && s[0] != c {
        lemma_find_byte(s.drop_first(), c);
        assert forall|j: int| 0 <= j < find_byte(s, c) implies s[j] != c by {
            if j > 0 {
                assert(s.drop_first()[j - 1] == s[j]);
            }
        }
    }
}

/// Any index set free of `c` up to a first hit (or the end) pins `find_byte` down.
pub proof fn lemma_find_byte_is(s: Seq<u8>, c: u8, m: int)
    requires
        0 <= m <= s.len(),
        forall|j: int| 0 <= j < m ==> s[j] != c,
        m < s.len() ==> s[m] == c,
    ensures
        find_byte(s, c) == m,
    decreases s.len(),
{
    if s.len() != 0 && s[0] != c {
        assert(m >= 1);
        assert forall|j: int| 0 <= j < m - 1 implies s.drop_first()[j] != c by {
            assert(s.drop_first()[j] == s[j + 1]);
        }
        assert(m - 1 < s.drop_first().len() ==> s.drop_first()[m - 1] == c);
        lemma_find_byte_is(s.drop_first(), c, m - 1);
    }
}

// ---------------------------------------------------------------------------
// The encoder's output contains no separator bytes
// ---------------------------------------------------------------------------

/// Every byte an encoded component holds: unreserved, or the `%` escape head.
pub open spec fn qsafe(b: u8) -> bool {
    is_unreserved(b) || b == 37
}

pub proof fn lemma_enc_component_safe(s: Seq<u8>)
    ensures
        forall|j: int| 0 <= j < enc_component(s).len() ==> qsafe(#[trigger] enc_component(s)[j]),
    decreases s.len(),
{
    if s.len() != 0 {
        lemma_enc_component_safe(s.drop_first());
        let e = enc_byte(s[0]);
        assert forall|j: int| 0 <= j < enc_component(s).len() implies qsafe(
            enc_component(s)[j],
        ) by {
            if j < e.len() {
                assert(enc_component(s)[j] == e[j]);
            } else {
                assert(enc_component(s)[j] == enc_component(s.drop_first())[j - e.len()]);
            }
        }
    }
}

/// An encoded pair never holds the pair separator `&`.
pub proof fn lemma_enc_pair_no_amp(p: (Seq<u8>, Seq<u8>))
    ensures
        forall|j: int| 0 <= j < enc_pair(p).len() ==> (#[trigger] enc_pair(p)[j]) != 38,
{
    lemma_enc_component_safe(p.0);
    lemma_enc_component_safe(p.1);
    let a = enc_component(p.0);
    let b = enc_component(p.1);
    assert forall|j: int| 0 <= j < enc_pair(p).len() implies (enc_pair(p)[j]) != 38 by {
        if j < a.len() {
            assert(enc_pair(p)[j] == a[j]);
        } else if j == a.len() {
            assert(enc_pair(p)[j] == 61);
        } else {
            assert(enc_pair(p)[j] == b[j - a.len() - 1]);
        }
    }
}

// ---------------------------------------------------------------------------
// Round trip: decoding an encoding recovers the original
// ---------------------------------------------------------------------------

pub proof fn lemma_dec_enc_component(s: Seq<u8>)
    ensures
        dec_component(enc_component(s)) == Some(s),
    decreases s.len(),
{
    if s.len() == 0 {
        assert(enc_component(s).len() == 0);
        assert(dec_component(enc_component(s)) == Some(Seq::<u8>::empty()));
        assert(Seq::<u8>::empty() =~= s);
    } else {
        lemma_dec_enc_component(s.drop_first());
        let b = s[0];
        let e = enc_component(s);
        let rest = enc_component(s.drop_first());
        if is_unreserved(b) {
            assert(e == seq![b] + rest);
            assert(e[0] == b);
            assert(b != 37);
            assert(e.drop_first() =~= rest);
            let t = s.drop_first();
            assert(dec_component(e) == Some(seq![b] + t));
            assert(seq![b] + t =~= s);
        } else {
            assert(e == (seq![37u8, hex_digit(b / 16), hex_digit(b % 16)]) + rest);
            assert(e[0] == 37);
            assert(e[1] == hex_digit(b / 16));
            assert(e[2] == hex_digit(b % 16));
            assert(b / 16 < 16 && b % 16 < 16) by {
                assert(b < 256);
            }
            assert(is_hex_digit(hex_digit(b / 16)));
            assert(is_hex_digit(hex_digit(b % 16)));
            assert(hex_value(hex_digit(b / 16)) == b / 16);
            assert(hex_value(hex_digit(b % 16)) == b % 16);
            assert(e.len() >= 3);
            assert(e.skip(3) =~= rest);
            let t = s.drop_first();
            assert((b / 16) * 16 + b % 16 == b) by {
                vstd::arithmetic::div_mod::lemma_fundamental_div_mod(b as int, 16);
            }
            assert(dec_component(e) == Some(seq![b] + t));
            assert(seq![b] + t =~= s);
        }
    }
}

pub proof fn lemma_dec_enc_pair(p: (Seq<u8>, Seq<u8>))
    ensures
        dec_pair(enc_pair(p)) == Some(p),
{
    let a = enc_component(p.0);
    let b = enc_component(p.1);
    let s = enc_pair(p);
    lemma_enc_component_safe(p.0);
    assert forall|j: int| 0 <= j < a.len() implies s[j] != 61 by {
        assert(s[j] == a[j]);
        assert(qsafe(a[j]));
    }
    assert(s[a.len() as int] == 61);
    lemma_find_byte_is(s, 61, a.len() as int);
    assert(s.take(a.len() as int) =~= a);
    assert(s.skip(a.len() as int + 1) =~= b);
    lemma_dec_enc_component(p.0);
    lemma_dec_enc_component(p.1);
    assert(dec_pair(s) == Some((p.0, p.1)));
    assert((p.0, p.1) == p);
}

/// The written-out form of `enc_tail` on a non-empty list.
proof fn lemma_enc_tail_unfold(ps: Seq<(Seq<u8>, Seq<u8>)>)
    requires
        ps.len() > 0,
    ensures
        enc_tail(ps) == seq![38u8] + enc_query(ps),
{
    assert(enc_tail(ps) == seq![38u8] + enc_pair(ps[0]) + enc_tail(ps.drop_first()));
    assert(seq![38u8] + enc_pair(ps[0]) + enc_tail(ps.drop_first()) =~= seq![38u8] + (enc_pair(
        ps[0],
    ) + enc_tail(ps.drop_first())));
}

/// Re-parsing an encoded parameter list recovers exactly that list.
pub proof fn lemma_dec_enc_query(ps: Seq<(Seq<u8>, Seq<u8>)>)
    ensures
        dec_query(enc_query(ps)) == Some(ps),
    decreases ps.len(),
{
    if ps.len() == 0 {
        assert(enc_query(ps).len() == 0);
        assert(dec_query(enc_query(ps)) == Some(Seq::<(Seq<u8>, Seq<u8>)>::empty()));
        assert(Seq::<(Seq<u8>, Seq<u8>)>::empty() =~= ps);
    } else {
        let p = ps[0];
        let rest = ps.drop_first();
        let ep = enc_pair(p);
        let s = enc_query(ps);
        lemma_enc_pair_no_amp(p);
        lemma_dec_enc_pair(p);
        assert(ep.len() > 0) by {
            lemma_find_byte(ep, 61);
            assert(find_byte(ep, 61) < ep.len() || dec_pair(ep) is None);
        }
        if rest.len() == 0 {
            assert(s =~= ep);
            assert(s.len() > 0);
            assert forall|j: int| 0 <= j < s.len() implies s[j] != 38 by {
                assert(s[j] == ep[j]);
            }
            lemma_find_byte_is(s, 38, s.len() as int);
            assert(s.take(s.len() as int) =~= ep);
            assert(dec_query(s) == Some(seq![p]));
            assert(seq![p] =~= ps);
        } else {
            lemma_dec_enc_query(rest);
            lemma_enc_tail_unfold(rest);
            assert(s == ep + enc_tail(rest));
            assert(s =~= ep + seq![38u8] + enc_query(rest));
            assert forall|j: int| 0 <= j < ep.len() implies s[j] != 38 by {
                assert(s[j] == ep[j]);
            }
            assert(s[ep.len() as int] == 38);
            lemma_find_byte_is(s, 38, ep.len() as int);
            assert(s.take(ep.len() as int) =~= ep);
            assert(ep.len() < s.len());
            assert(s.skip(ep.len() as int + 1) =~= enc_query(rest));
            assert(dec_query(s) == Some(seq![p] + rest));
            assert(seq![p] + rest =~= ps);
        }
    }
}


// ---------------------------------------------------------------------------
// Executable encoder
// ---------------------------------------------------------------------------

fn hex_digit_byte(n: u8) -> (r: u8)
    requires
        n < 16,
    ensures
        r == hex_digit(n),
{
    if n < 10 {
        48 + n
    } else {
        65 + (n - 10)
    }
}

fn push_encoded_byte(out: &mut Vec<u8>, b: u8)
    ensures
        final(out)@ == old(out)@ + enc_byte(b),
{
    let unreserved = (65 <= b && b <= 90) || (97 <= b && b <= 122) || (48 <= b && b <= 57)
        || b == 45 || b == 46 || b == 95 || b == 126;
    if unreserved {
        out.push(b);
        assert(out@ =~= old(out)@ + enc_byte(b));
    } else {
        proof {
            assert(b / 16 < 16 && b % 16 < 16) by {
                vstd::arithmetic::div_mod::lemma_fundamental_div_mod(b as int, 16);
            }
        }
        out.push(37);
        let hi = hex_digit_byte(b / 16);
        let lo = hex_digit_byte(b % 16);
        out.push(hi);
        out.push(lo);
        assert(out@ =~= old(out)@ + enc_byte(b));
    }
}

/// Percent-encode the bytes of one component onto the end of `out`.
pub fn push_encoded_component(out: &mut Vec<u8>, s: &Vec<u8>)
    ensures
        final(out)@ == old(out)@ + enc_component(s@),
{
    let ghost orig = out@;
    proof {
        assert(s@.skip(0) =~= s@);
    }
    let mut i: usize = 0;
    while i < s.len()
        invariant
            i <= s.len(),
            out@ + enc_component(s@.skip(i as int)) == orig + enc_component(s@),
        decreases s.len() - i,
    {
        let ghost before = out@;
        proof {
            assert(s@.skip(i as int).len() > 0);
            assert(s@.skip(i as int)[0] == s@[i as int]);
            assert(s@.skip(i as int).drop_first() =~= s@.skip(i as int + 1));
        }
        push_encoded_byte(out, s[i]);
        proof {
            assert(out@ + enc_component(s@.skip(i as int + 1)) =~= before + enc_component(
                s@.skip(i as int),
            ));
        }
        i += 1;
    }
    proof {
        assert(s@.skip(s.len() as int) =~= Seq::<u8>::empty());
        assert(out@ =~= out@ + enc_component(s@.skip(s.len() as int)));
    }
}

/// The parameter list a vector of byte-pairs stands for.
pub open spec fn pair_views(ps: Seq<(Vec<u8>, Vec<u8>)>) -> Seq<(Seq<u8>, Seq<u8>)> {
    Seq::new(ps.len(), |i: int| (ps[i].0@, ps[i].1@))
}

/// A parameter list, encoded as the query part of a URI.
pub fn encode_query(ps: &Vec<(Vec<u8>, Vec<u8>)>) -> (r: Vec<u8>)
    ensures
        r@ == enc_query(pair_views(ps@)),
{
    let ghost v = pair_views(ps@);
    let mut out: Vec<u8> = Vec::new();
    let mut i: usize = 0;
    while i < ps.len()
        invariant
            i <= ps.len(),
            v == pair_views(ps@),
            i == 0 ==> out@ == Seq::<u8>::empty(),
            i > 0 ==> out@ + enc_tail(v.skip(i as int)) == enc_query(v),
        decreases ps.len() - i,
    {
        let ghost before = out@;
        proof {
            assert(v.skip(i as int)[0] == v[i as int]);
            assert(v.skip(i as int).drop_first() =~= v.skip(i as int + 1));
        }
        if i > 0 {
            out.push(38);
        }
        push_encoded_component(&mut out, &ps[i].0);
        out.push(61);
        push_encoded_component(&mut out, &ps[i].1);
        proof {
            let pv = v[i as int];
            assert(pv == (ps@[i as int].0@, ps@[i as int].1@));
            if i == 0 {
                assert(out@ =~= enc_pair(pv));
                assert(enc_pair(v.skip(0)[0]) + enc_tail(v.skip(0).drop_first()) == enc_query(v))
                    by {
                    assert(v.skip(0) =~= v);
                }
                assert(out@ + enc_tail(v.skip(1)) =~= enc_query(v));
            } else {
                assert(out@ =~= before + (seq![38u8] + enc_pair(pv)));
                assert(enc_tail(v.skip(i as int)) == seq![38u8] + enc_pair(pv) + enc_tail(
                    v.skip(i as int + 1),
                ));
                assert(out@ + enc_tail(v.skip(i as int + 1)) =~= before + enc_tail(
                    v.skip(i as int),
                ));
            }
        }
        i += 1;
    }
    proof {
        if ps.len() == 0 {
            assert(out@ =~= enc_query(v));
        } else {
            assert(v.skip(ps.len() as int) =~= Seq::<(Seq<u8>, Seq<u8>)>::empty());
            assert(out@ =~= out@ + enc_tail(v.skip(ps.len() as int)));
        }
    }
    out
}


// ---------------------------------------------------------------------------
// The encoder's output is ASCII
// ---------------------------------------------------------------------------

pub proof fn lemma_enc_pair_ascii(p: (Seq<u8>, Seq<u8>))
    ensures
        forall|j: int| 0 <= j < enc_pair(p).len() ==> (#[trigger] enc_pair(p)[j]) < 128,
{
    lemma_enc_component_safe(p.0);
    lemma_enc_component_safe(p.1);
    let a = enc_component(p.0);
    let b = enc_component(p.1);
    assert forall|j: int| 0 <= j < enc_pair(p).len() implies (enc_pair(p)[j]) < 128 by {
        if j < a.len() {
            assert(enc_pair(p)[j] == a[j]);
        } else if j == a.len() {
            assert(enc_pair(p)[j] == 61);
        } else {
            assert(enc_pair(p)[j] == b[j - a.len() - 1]);
        }
    }
}

proof fn lemma_enc_tail_ascii(ps: Seq<(Seq<u8>, Seq<u8>)>)
    ensures
        forall|j: int| 0 <= j < enc_tail(ps).len() ==> (#[trigger] enc_tail(ps)[j]) < 128,
    decreases ps.len(),
{
    if ps.len() != 0 {
        lemma_enc_tail_ascii(ps.drop_first());
        lemma_enc_pair_ascii(ps[0]);
        let ep = enc_pair(ps[0]);
        let rest = enc_tail(ps.drop_first());
        assert forall|j: int| 0 <= j < enc_tail(ps).len() implies (enc_tail(ps)[j]) < 128 by {
            if j == 0 {
                assert(enc_tail(ps)[j] == 38);
            } else if j <= ep.len() {
                assert(enc_tail(ps)[j] == ep[j - 1]);
            } else {
                assert(enc_tail(ps)[j] == rest[j - 1 - ep.len()]);
            }
        }
    }
}

/// A whole encoded query is ASCII, whatever bytes the parameters held.
pub proof fn lemma_enc_query_ascii(ps: Seq<(Seq<u8>, Seq<u8>)>)
    ensures
        forall|j: int| 0 <= j < enc_query(ps).len() ==> (#[trigger] enc_query(ps)[j]) < 128,
{
    if ps.len() != 0 {
        lemma_enc_pair_ascii(ps[0]);
        lemma_enc_tail_ascii(ps.drop_first());
        let ep = enc_pair(ps[0]);
        let rest = enc_tail(ps.drop_first());
        assert forall|j: int| 0 <= j < enc_query(ps).len() implies (enc_query(ps)[j]) < 128 by {
            if j < ep.len() {
                assert(enc_query(ps)[j] == ep[j]);
            } else {
                assert(enc_query(ps)[j] == rest[j - ep.len()]);
            }
        }
    }
}

// ---------------------------------------------------------------------------
// Executable parser
// ---------------------------------------------------------------------------

/// Scan for `c` in `s[from..]`; the index found, or the length when absent.
fn find_from(s: &Vec<u8>, from: usize, c: u8) -> (r: usize)
    requires
        from <= s.len(),
    ensures
        from <= r <= s.len(),
        r as int - from as int == find_byte(s@.skip(from as int), c),
        r < s.len() ==> s@[r as int] == c,
        forall|j: int| from <= j < r ==> s@[j] != c,
{
    let mut k = from;
    while k < s.len()
        invariant
            from <= k <= s.len(),
            forall|j: int| from <= j < k ==> s@[j] != c,
        decreases s.len() - k,
    {
        if s[k] == c {
            proof {
                let t = s@.skip(from as int);
                assert forall|j: int| 0 <= j < k - from implies t[j] != c by {
                    assert(t[j] == s@[j + from]);
                }
                assert(t[k - from] == s@[k as int]);
                lemma_find_byte_is(t, c, k as int - from as int);
            }
            return k;
        }
        k += 1;
    }
    proof {
        let t = s@.skip(from as int);
        assert forall|j: int| 0 <= j < t.len() implies t[j] != c by {
            assert(t[j] == s@[j + from]);
        }
        lemma_find_byte_is(t, c, t.len() as int);
    }
    s.len()
}

fn is_hex_digit_byte(b: u8) -> (r: bool)
    ensures
        r == is_hex_digit(b),
{
    (48 <= b && b <= 57) || (65 <= b && b <= 70)
}

fn hex_value_byte(b: u8) -> (r: u8)
    requires
        is_hex_digit(b),
    ensures
        r == hex_value(b),
        r < 16,
{
    if 48 <= b && b <= 57 {
        b - 48
    } else {
        b - 65 + 10
    }
}

/// Percent-decode `s[from..to]`; `None` on a malformed escape.
fn decode_range(s: &Vec<u8>, from: usize, to: usize) -> (r: Option<Vec<u8>>)
    requires
        from <= to <= s.len(),
    ensures
        match r {
            Some(v) => dec_component(s@.subrange(from as int, to as int)) == Some(v@),
            None => dec_component(s@.subrange(from as int, to as int)) is None,
        },
{
    let ghost whole = s@.subrange(from as int, to as int);
    let mut out: Vec<u8> = Vec::new();
    let mut k = from;
    while k < to
        invariant
            from <= k <= to <= s.len(),
            whole == s@.subrange(from as int, to as int),
            match dec_component(s@.subrange(k as int, to as int)) {
                Some(t) => dec_component(whole) == Some(out@ + t),
                None => dec_component(whole) is None,
            },
        decreases to - k,
    {
        let ghost cur = s@.subrange(k as int, to as int);
        proof {
            assert(cur.len() > 0);
            assert(cur[0] == s@[k as int]);
        }
        let b = s[k];
        if b == 37 {
            if to - k >= 3 && is_hex_digit_byte(s[k + 1]) && is_hex_digit_byte(s[k + 2]) {
                proof {
                    assert(cur[1] == s@[k as int + 1]);
                    assert(cur[2] == s@[k as int + 2]);
                    assert(cur.skip(3) =~= s@.subrange(k as int + 3, to as int));
                }
                let hi = hex_value_byte(s[k + 1]);
                let lo = hex_value_byte(s[k + 2]);
                let ghost before = out@;
                out.push(hi * 16 + lo);
                proof {
                    assert(hi * 16 + lo == hex_value(cur[1]) * 16 + hex_value(cur[2]));
                    match dec_component(s@.subrange(k as int + 3, to as int)) {
                        Some(t) => {
                            assert(dec_component(cur) == Some(
                                seq![(hex_value(cur[1]) * 16 + hex_value(cur[2])) as u8] + t,
                            ));
                            assert(before + (seq![(hex_value(cur[1]) * 16 + hex_value(cur[2]))
                                as u8] + t) =~= out@ + t);
                        },
                        None => {},
                    }
                }
                k += 3;
            } else {
                proof {
                    assert(dec_component(cur) is None);
                }
                return None;
            }
        } else {
            let ghost before = out@;
            out.push(b);
            proof {
                assert(cur.drop_first() =~= s@.subrange(k as int + 1, to as int));
                match dec_component(s@.subrange(k as int + 1, to as int)) {
                    Some(t) => {
                        assert(dec_component(cur) == Some(seq![cur[0]] + t));
                        assert(before + (seq![cur[0]] + t) =~= out@ + t);
                    },
                    None => {},
                }
            }
            k += 1;
        }
    }
    proof {
        assert(s@.subrange(to as int, to as int) =~= Seq::<u8>::empty());
        assert(out@ + Seq::<u8>::empty() =~= out@);
    }
    Some(out)
}

/// `rest` with the pairs already taken prepended to its successful value.
pub open spec fn lift_query(
    done: Seq<(Seq<u8>, Seq<u8>)>,
    rest: Option<Seq<(Seq<u8>, Seq<u8>)>>,
) -> Option<Seq<(Seq<u8>, Seq<u8>)>> {
    match rest {
        Some(t) => Some(done + t),
        None => None,
    }
}

proof fn lemma_lift_empty(done: Seq<(Seq<u8>, Seq<u8>)>, rest: Option<Seq<(Seq<u8>, Seq<u8>)>>)
    requires
        done.len() == 0,
    ensures
        lift_query(done, rest) == rest,
{
    match rest {
        Some(t) => {
            assert(done + t =~= t);
        },
        None => {},
    }
}

/// One pair prepended to a parse outcome.
pub open spec fn prepend_pair(
    pv: (Seq<u8>, Seq<u8>),
    rest: Option<Seq<(Seq<u8>, Seq<u8>)>>,
) -> Option<Seq<(Seq<u8>, Seq<u8>)>> {
    match rest {
        Some(t) => Some(seq![pv] + t),
        None => None,
    }
}

proof fn lemma_lift_push(
    done: Seq<(Seq<u8>, Seq<u8>)>,
    pv: (Seq<u8>, Seq<u8>),
    rest: Option<Seq<(Seq<u8>, Seq<u8>)>>,
)
    ensures
        lift_query(done, prepend_pair(pv, rest)) == lift_query(done.push(pv), rest),
{
    match rest {
        Some(t) => {
            assert(done + (seq![pv] + t) =~= done.push(pv) + t);
        },
        None => {},
    }
}

/// Parse a query string back into its parameter list; `None` when a segment
/// lacks `=` or an escape is malformed.
pub fn parse_query(q: &Vec<u8>) -> (r: Option<Vec<(Vec<u8>, Vec<u8>)>>)
    ensures
        match r {
            Some(v) => dec_query(q@) == Some(pair_views(v@)),
            None => dec_query(q@) is None,
        },
{
    let mut acc: Vec<(Vec<u8>, Vec<u8>)> = Vec::new();
    if q.len() == 0 {
        proof {
            assert(pair_views(acc@) =~= Seq::<(Seq<u8>, Seq<u8>)>::empty());
        }
        return Some(acc);
    }
    let mut p: usize = 0;
    proof {
        assert(q@.skip(0) =~= q@);
        lemma_lift_empty(pair_views(acc@), dec_query(q@));
        assert(pair_views(acc@).len() == 0);
    }
    loop
        invariant
            p <= q.len(),
            dec_query(q@) == lift_query(pair_views(acc@), dec_query(q@.skip(p as int))),
        decreases q.len() - p,
    {
        if p == q.len() {
            proof {
                assert(q@.skip(p as int) =~= Seq::<u8>::empty());
                assert(dec_query(q@.skip(p as int)) == Some(Seq::<(Seq<u8>, Seq<u8>)>::empty()));
                assert(pair_views(acc@) + Seq::<(Seq<u8>, Seq<u8>)>::empty() =~= pair_views(acc@));
            }
            return Some(acc);
        }
        let ghost srest = q@.skip(p as int);
        let i = find_from(q, p, 38);
        proof {
            assert(srest.len() > 0);
            assert(srest.take(i as int - p as int) =~= q@.subrange(p as int, i as int));
        }
        // the current segment is q[p..i]; find its `=`
        let j = find_from(q, p, 61);
        if j >= i {
            proof {
                let seg = q@.subrange(p as int, i as int);
                assert forall|m: int| 0 <= m < seg.len() implies seg[m] != 61 by {
                    assert(seg[m] == q@[p + m]);
                }
                lemma_find_byte_is(seg, 61, seg.len() as int);
                assert(dec_pair(seg) is None);
                assert(dec_query(srest) is None);
            }
            return None;
        }
        proof {
            let seg = q@.subrange(p as int, i as int);
            assert forall|m: int| 0 <= m < j - p implies seg[m] != 61 by {
                assert(seg[m] == q@[p + m]);
            }
            assert(seg[j - p] == q@[j as int]);
            lemma_find_byte_is(seg, 61, j as int - p as int);
            assert(seg.take(j as int - p as int) =~= q@.subrange(p as int, j as int));
            assert(seg.skip(j as int - p as int + 1) =~= q@.subrange(j as int + 1, i as int));
        }
        let key = match decode_range(q, p, j) {
            Some(v) => v,
            None => {
                proof {
                    assert(dec_pair(q@.subrange(p as int, i as int)) is None);
                    assert(dec_query(srest) is None);
                }
                return None;
            },
        };
        let val = match decode_range(q, j + 1, i) {
            Some(v) => v,
            None => {
                proof {
                    assert(dec_pair(q@.subrange(p as int, i as int)) is None);
                    assert(dec_query(srest) is None);
                }
                return None;
            },
        };
        let ghost pv = (key@, val@);
        proof {
            assert(dec_pair(q@.subrange(p as int, i as int)) == Some(pv));
        }
        let ghost accv = pair_views(acc@);
        acc.push((key, val));
        proof {
            assert(pair_views(acc@) =~= accv.push(pv));
        }
        if i == q.len() {
            proof {
                assert(i as int - p as int == srest.len());
                assert(dec_query(srest) == Some(seq![pv]));
                assert(seq![pv] =~= seq![pv] + Seq::<(Seq<u8>, Seq<u8>)>::empty());
                assert(dec_query(srest) == prepend_pair(
                    pv,
                    Some(Seq::<(Seq<u8>, Seq<u8>)>::empty()),
                ));
                lemma_lift_push(accv, pv, Some(Seq::<(Seq<u8>, Seq<u8>)>::empty()));
                assert(dec_query(q@) == Some(
                    pair_views(acc@) + Seq::<(Seq<u8>, Seq<u8>)>::empty(),
                ));
                assert(pair_views(acc@) + Seq::<(Seq<u8>, Seq<u8>)>::empty() =~= pair_views(acc@));
            }
            return Some(acc);
        }
        proof {
            assert(i < q.len());
            assert((i as int - p as int) < srest.len());
            assert(srest.skip(i as int - p as int + 1) =~= q@.skip(i as int + 1));
            assert(dec_query(srest) == prepend_pair(pv, dec_query(q@.skip(i as int + 1))));
            lemma_lift_push(accv, pv, dec_query(q@.skip(i as int + 1)));
        }
        p = i + 1;
    }
}

} // verus!
