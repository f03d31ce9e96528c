use vstd::prelude::*;
use vstd::string::StringSliceAdditionalSpecFns;
use vstd::string::StrSliceExecFns;
use vstd::string::StringExecFns;
use crate::errors::MarvelError;
use crate::query::{enc_query, enc_pair, pair_views, encode_query, push_encoded_component};

verus! {

broadcast use vstd::string::group_string_axioms, vstd::utf8::is_ascii_chars_encode_utf8;

// ---------------------------------------------------------------------------
// Decimal rendering of timestamps and identifiers
// ---------------------------------------------------------------------------

/// The decimal digits of `n`, most significant first, as ASCII bytes.
pub open spec fn dec_digits(n: nat) -> Seq<u8>
    decreases n,
{
    if n < 10 {
        seq![(48 + n) as u8]
    } else {
        dec_digits(n / 10) + seq![(48 + n % 10) as u8]
    }
}

/// The decimal form of a signed identifier: a `-` head when negative.
pub open spec fn int_digits(id: int) -> Seq<u8> {
    if id < 0 {
        seq![45u8] + dec_digits((-id) as nat)
    } else {
        dec_digits(id as nat)
    }
}

pub proof fn lemma_dec_digits_are_digits(n: nat)
    ensures
        forall|j: int| 0 <= j < dec_digits(n).len() ==> 48 <= #[trigger] dec_digits(n)[j] <= 57,
    decreases n,
{
    if n >= 10 {
        lemma_dec_digits_are_digits(n / 10);
        assert forall|j: int| 0 <= j < dec_digits(n).len() implies 48 <= #[trigger] dec_digits(
            n,
        )[j] <= 57 by {
            if j < dec_digits(n / 10).len() {
                assert(dec_digits(n)[j] == dec_digits(n / 10)[j]);
            } else {
                assert(dec_digits(n)[j] == (48 + n % 10) as u8);
            }
        }
    }
}

/// Append the decimal form of `n`.
pub fn push_decimal(out: &mut Vec<u8>, n: u64)
    ensures
        final(out)@ == old(out)@ + dec_digits(n as nat),
    decreases n,
{
    if n < 10 {
        out.push(48 + n as u8);
        assert(out@ =~= old(out)@ + dec_digits(n as nat));
    } else {
        proof {
            assert(n / 10 < n && n % 10 < 10) by (nonlinear_arith)
                requires
                    n >= 10,
            ;
        }
        push_decimal(out, n / 10);
        out.push(48 + (n % 10) as u8);
        assert(out@ =~= old(out)@ + dec_digits(n as nat));
    }
}

// ---------------------------------------------------------------------------
// ASCII strings
// ---------------------------------------------------------------------------

/// The text a sequence of ASCII bytes spells, one character per byte.
pub open spec fn ascii_str_of(b: Seq<u8>) -> Seq<char> {
    Seq::new(b.len(), |i: int| b[i] as char)
}

/// Relies on `String::from_utf8`: bytes below 128 decode to one character
/// each, with the same code points.
#[verifier::external_body]
fn ascii_to_string(v: Vec<u8>) -> (r: String)
    requires
        forall|i: int| 0 <= i < v@.len() ==> v@[i] < 128,
    ensures
        r@ == ascii_str_of(v@),
{
    match String::from_utf8(v) {
        Ok(s) => s,
        Err(_) => String::new(),
    }
}

// ---------------------------------------------------------------------------
// The request signer
// ---------------------------------------------------------------------------

/// What the service's digest of a byte string is; named, not spelled out.
pub uninterp spec fn md5_hex_of(input: Seq<u8>) -> Seq<char>;

/// A lowercase hex digit: '0' through '9', or 'a' through 'f'.
pub open spec fn is_lower_hex_char(c: char) -> bool {
    (48 <= c as u32 && c as u32 <= 57) || (97 <= c as u32 && c as u32 <= 102)
}

/// Relies on crypto's `Md5` through `Digest`: `result_str` is the 128-bit
/// digest of exactly the bytes fed in, rendered as 32 lowercase hex
/// characters, and depends on those bytes alone.
#[verifier::external_body]
fn md5_hex(input: &Vec<u8>) -> (r: String)
    ensures
        r@ == md5_hex_of(input@),
        r@.len() == 32,
        forall|i: int| 0 <= i < r@.len() ==> is_lower_hex_char(#[trigger] r@[i]),
{
    let mut h = crypto::md5::Md5::new();
    crypto::digest::Digest::input(&mut h, input.as_slice());
    crypto::digest::Digest::result_str(&mut h)
}

/// Relies on std's `SystemTime`: the wall clock's milliseconds since the
/// epoch.  Nothing is assumed of the value; it is the clock's alone.
#[verifier::external_body]
fn now_millis() -> u64 {
    match std::time::SystemTime::now().duration_since(std::time::UNIX_EPOCH) {
        Ok(d) => d.as_millis() as u64,
        Err(_) => 0,
    }
}

// ---------------------------------------------------------------------------
// URI text
// ---------------------------------------------------------------------------

/// Characters allowed to stand unencoded in the base and path of a request:
/// printable ASCII with no space, and neither the query nor fragment opener.
pub open spec fn is_uri_char(c: char) -> bool {
    33 <= c as u32 <= 126 && c as u32 != 63 && c as u32 != 35
}

pub open spec fn is_uri_text(s: Seq<char>) -> bool {
    forall|i: int| 0 <= i < s.len() ==> is_uri_char(#[trigger] s[i])
}

/// Whether every character of `s` may stand in a URI base or path.
pub fn check_uri_text(s: &str) -> (r: bool)
    ensures
        r == is_uri_text(s@),
{
    let n = s.unicode_len();
    let mut i: usize = 0;
    while i < n
        invariant
            i <= n,
            n == s@.len(),
            forall|j: int| 0 <= j < i ==> is_uri_char(#[trigger] s@[j]),
        decreases n - i,
    {
        let c = s.get_char(i);
        let u = c as u32;
        if u < 33 || u > 126 || u == 63 || u == 35 {
            proof {
                assert(!is_uri_char(s@[i as int]));
            }
            return false;
        }
        i += 1;
    }
    true
}

// ---------------------------------------------------------------------------
// UriMaker
// ---------------------------------------------------------------------------

/// Composes fully qualified, authenticated request URIs.  Each call samples a
/// fresh timestamp and signs it, so no two requests need share one.
pub struct UriMaker {
    pub key: String,
    pub secret: String,
    pub api_base: String,
}

impl UriMaker {
    /// The bytes signed for a request: timestamp text, secret key, public key.
    pub open spec fn hash_input(self, ts_text: Seq<u8>) -> Seq<u8> {
        ts_text + vstd::utf8::encode_utf8(self.secret@) + vstd::utf8::encode_utf8(self.key@)
    }

    /// The three authentication parameters every request carries.
    pub open spec fn auth_params(self, ts: u64) -> Seq<(Seq<u8>, Seq<u8>)> {
        seq![
            (vstd::utf8::encode_utf8("ts"@), dec_digits(ts as nat)),
            (
                vstd::utf8::encode_utf8("hash"@),
                vstd::utf8::encode_utf8(md5_hex_of(self.hash_input(dec_digits(ts as nat)))),
            ),
            (vstd::utf8::encode_utf8("apikey"@), vstd::utf8::encode_utf8(self.key@)),
        ]
    }

    /// The authenticated URI for `path` at timestamp `ts`.
    pub open spec fn auth_uri(self, path: Seq<char>, ts: u64) -> Seq<char> {
        ascii_str_of(
            vstd::utf8::encode_utf8(self.api_base@) + vstd::utf8::encode_utf8(path) + seq![63u8]
                + enc_query(self.auth_params(ts)),
        )
    }

    /// Whether the configured base may head a URI.
    pub open spec fn base_ok(self) -> bool {
        is_uri_text(self.api_base@)
    }

    pub fn new(key: String, secret: String, api_base: String) -> (r: UriMaker)
        ensures
            r.key@ == key@,
            r.secret@ == secret@,
            r.api_base@ == api_base@,
    {
        UriMaker { key, secret, api_base }
    }

    /// Whether this maker's base is well formed; `build_url` fails exactly
    /// when this is false or the path is not URI text.
    pub fn check_base(&self) -> (r: bool)
        ensures
            r == self.base_ok(),
    {
        check_uri_text(self.api_base.as_str())
    }

    /// The authorization hash over the timestamp text, private key and public
    /// key, as the service requires.
    pub fn get_hash(&self, ts: &str) -> (r: String)
        ensures
            r@ == md5_hex_of(self.hash_input(ts.spec_bytes())),
            r@.len() == 32,
            forall|i: int| 0 <= i < r@.len() ==> is_lower_hex_char(#[trigger] r@[i]),
    {
        let mut input = ts.as_bytes_vec();
        let mut sb = self.secret.as_str().as_bytes_vec();
        let mut kb = self.key.as_str().as_bytes_vec();
        input.append(&mut sb);
        input.append(&mut kb);
        proof {
            assert(input@ =~= self.hash_input(ts.spec_bytes()));
        }
        md5_hex(&input)
    }

    /// Build the authenticated URI for `path` at timestamp `ts`, failing
    /// exactly when the base or the path is not URI text.
    pub fn build_url_at(&self, path: &str, ts: u64) -> (r: Result<String, MarvelError>)
        ensures
            (self.base_ok() && is_uri_text(path@)) <==> r is Ok,
            r matches Ok(u) ==> u@ == self.auth_uri(path@, ts),
            r matches Err(e) ==> e is InvalidUri,
    {
        if !self.check_base() || !check_uri_text(path) {
            return Err(MarvelError::InvalidUri);
        }
        // the timestamp's decimal text
        let mut tsb: Vec<u8> = Vec::new();
        push_decimal(&mut tsb, ts);
        // the hash over timestamp text, secret key, public key
        let mut hin: Vec<u8> = Vec::new();
        push_decimal(&mut hin, ts);
        let mut sb = self.secret.as_str().as_bytes_vec();
        let mut kb = self.key.as_str().as_bytes_vec();
        hin.append(&mut sb);
        hin.append(&mut kb);
        proof {
            assert(hin@ =~= self.hash_input(dec_digits(ts as nat)));
        }
        let hash = md5_hex(&hin);
        let hash_bytes = hash.as_str().as_bytes_vec();
        // the three authentication parameters
        let mut params: Vec<(Vec<u8>, Vec<u8>)> = Vec::new();
        params.push(("ts".as_bytes_vec(), tsb));
        params.push(("hash".as_bytes_vec(), hash_bytes));
        params.push(("apikey".as_bytes_vec(), self.key.as_str().as_bytes_vec()));
        proof {
            assert(pair_views(params@) =~~= self.auth_params(ts));
        }
        let mut q = encode_query(&params);
        // base, path, `?`, query
        let mut out = self.api_base.as_str().as_bytes_vec();
        let mut pb = path.as_bytes_vec();
        out.append(&mut pb);
        out.push(63);
        out.append(&mut q);
        proof {
            let basev = vstd::utf8::encode_utf8(self.api_base@);
            let pathv = vstd::utf8::encode_utf8(path@);
            let qv = enc_query(self.auth_params(ts));
            assert(out@ =~= basev + pathv + seq![63u8] + qv);
            lemma_uri_text_ascii_bytes(self.api_base@);
            lemma_uri_text_ascii_bytes(path@);
            crate::query::lemma_enc_query_ascii(self.auth_params(ts));
            assert forall|i: int| 0 <= i < out@.len() implies out@[i] < 128 by {
                if i < basev.len() {
                    assert(out@[i] == basev[i]);
                } else if i < basev.len() + pathv.len() {
                    assert(out@[i] == pathv[i - basev.len()]);
                } else if i == basev.len() + pathv.len() {
                    assert(out@[i] == 63);
                } else {
                    assert(out@[i] == qv[i - basev.len() - pathv.len() - 1]);
                }
            }
        }
        Ok(ascii_to_string(out))
    }

    /// Build the authenticated URI for `path` with a fresh wall-clock
    /// timestamp, as every request must.
    pub fn build_url(&self, path: &str) -> (r: Result<String, MarvelError>)
        ensures
            (self.base_ok() && is_uri_text(path@)) <==> r is Ok,
            r matches Ok(u) ==> exists|ts: u64| u@ == self.auth_uri(path@, ts),
            r matches Err(e) ==> e is InvalidUri,
    {
        let ts = now_millis();
        match self.build_url_at(path, ts) {
            Ok(u) => {
                proof {
                    assert(u@ == self.auth_uri(path@, ts));
                }
                Ok(u)
            },
            Err(e) => Err(e),
        }
    }

    /// `url` with one more `key=value` query parameter appended, both sides
    /// percent-encoded.
    pub fn append_pair(url: String, key: &str, value: &Vec<u8>) -> (r: String)
        ensures
            r@ == url@ + ascii_str_of(seq![38u8] + enc_pair((key.spec_bytes(), value@))),
    {
        let mut b: Vec<u8> = Vec::new();
        b.push(38);
        let kb = key.as_bytes_vec();
        push_encoded_component(&mut b, &kb);
        b.push(61);
        push_encoded_component(&mut b, value);
        proof {
            let pv = (key.spec_bytes(), value@);
            assert(b@ =~= seq![38u8] + enc_pair(pv));
            crate::query::lemma_enc_pair_ascii(pv);
            assert forall|i: int| 0 <= i < b@.len() implies b@[i] < 128 by {
                if i == 0 {
                    assert(b@[i] == 38);
                } else {
                    assert(b@[i] == enc_pair(pv)[i - 1]);
                }
            }
        }
        let tail = ascii_to_string(b);
        let mut u = url;
        u.append(tail.as_str());
        u
    }

    /// One more `key=value` query parameter, with its `&` separator, as text.
    pub open spec fn extra_param(key: Seq<u8>, value: Seq<u8>) -> Seq<char> {
        ascii_str_of(seq![38u8] + enc_pair((key, value)))
    }

    /// The full URI of an endpoint that carries one extra query parameter.
    pub open spec fn endpoint_uri(
        self,
        path: Seq<char>,
        extra_key: Seq<u8>,
        extra_val: Seq<u8>,
        ts: u64,
    ) -> Seq<char> {
        self.auth_uri(path, ts) + Self::extra_param(extra_key, extra_val)
    }

    /// The URI that looks character data up by exact name.
    pub fn character_by_name_exact(&self, name: &str) -> (r: Result<String, MarvelError>)
        ensures
            (self.base_ok() && is_uri_text("characters"@)) <==> r is Ok,
            r matches Ok(u) ==> exists|ts: u64|
                u@ == self.endpoint_uri(
                    "characters"@,
                    "name".spec_bytes(),
                    vstd::utf8::encode_utf8(name@),
                    ts,
                ),
            r matches Err(e) ==> e is InvalidUri,
    {
        match self.build_url("characters") {
            Ok(u) => {
                let ghost ts = choose|ts: u64| u@ == self.auth_uri("characters"@, ts);
                let r = Self::append_pair(u, "name", &name.as_bytes_vec());
                proof {
                    assert(r@ == self.endpoint_uri(
                        "characters"@,
                        "name".spec_bytes(),
                        vstd::utf8::encode_utf8(name@),
                        ts,
                    ));
                }
                Ok(r)
            },
            Err(e) => Err(e),
        }
    }

    /// The URI that looks character data up by a name prefix.
    pub fn character_by_name(&self, name_starts_with: &str) -> (r: Result<String, MarvelError>)
        ensures
            (self.base_ok() && is_uri_text("characters"@)) <==> r is Ok,
            r matches Ok(u) ==> exists|ts: u64|
                u@ == self.endpoint_uri(
                    "characters"@,
                    "nameStartsWith".spec_bytes(),
                    vstd::utf8::encode_utf8(name_starts_with@),
                    ts,
                ),
            r matches Err(e) ==> e is InvalidUri,
    {
        match self.build_url("characters") {
            Ok(u) => {
                let ghost ts = choose|ts: u64| u@ == self.auth_uri("characters"@, ts);
                let r = Self::append_pair(u, "nameStartsWith", &name_starts_with.as_bytes_vec());
                proof {
                    assert(r@ == self.endpoint_uri(
                        "characters"@,
                        "nameStartsWith".spec_bytes(),
                        vstd::utf8::encode_utf8(name_starts_with@),
                        ts,
                    ));
                }
                Ok(r)
            },
            Err(e) => Err(e),
        }
    }

    /// The path of the events listing for one character.
    pub open spec fn events_path(id: int) -> Seq<char> {
        "characters/"@ + ascii_str_of(int_digits(id)) + "/events"@
    }

    /// The URI that lists a character's events: a single page at the largest
    /// size the service grants, so one request holds the full set, ordered by
    /// start date ascending.
    pub fn character_events(&self, character_id: i32) -> (r: Result<String, MarvelError>)
        ensures
            (self.base_ok() && is_uri_text(Self::events_path(character_id as int))) <==> r is Ok,
            r matches Ok(u) ==> exists|ts: u64|
                u@ == self.endpoint_uri(
                    Self::events_path(character_id as int),
                    "limit".spec_bytes(),
                    dec_digits(crate::MAX_LIMIT as nat),
                    ts,
                ) + Self::extra_param("orderBy".spec_bytes(), "startDate".spec_bytes()),
            r matches Err(e) ==> e is InvalidUri,
    {
        let mut db: Vec<u8> = Vec::new();
        if character_id < 0 {
            db.push(45);
            let m = -(character_id as i64);
            push_decimal(&mut db, m as u64);
        } else {
            push_decimal(&mut db, character_id as u64);
        }
        proof {
            assert(db@ =~= int_digits(character_id as int));
            lemma_dec_digits_are_digits(
                if character_id < 0 {
                    (-(character_id as int)) as nat
                } else {
                    character_id as nat
                },
            );
            assert forall|i: int| 0 <= i < db@.len() implies db@[i] < 128 by {
                if character_id < 0 && i == 0 {
                    assert(db@[0] == 45);
                }
            }
        }
        let id_text = ascii_to_string(db);
        let mut path = String::from_str("characters/");
        path.append(id_text.as_str());
        path.append("/events");
        proof {
            assert(path@ == Self::events_path(character_id as int));
        }
        let mut lim: Vec<u8> = Vec::new();
        push_decimal(&mut lim, crate::MAX_LIMIT as u64);
        match self.build_url(path.as_str()) {
            Ok(u) => {
                let ghost ts = choose|ts: u64|
                    u@ == self.auth_uri(Self::events_path(character_id as int), ts);
                let r = Self::append_pair(u, "limit", &lim);
                proof {
                    assert(r@ == self.endpoint_uri(
                        Self::events_path(character_id as int),
                        "limit".spec_bytes(),
                        dec_digits(crate::MAX_LIMIT as nat),
                        ts,
                    ));
                }
                let r2 = Self::append_pair(r, "orderBy", &"startDate".as_bytes_vec());
                proof {
                    assert(r2@ == self.endpoint_uri(
                        Self::events_path(character_id as int),
                        "limit".spec_bytes(),
                        dec_digits(crate::MAX_LIMIT as nat),
                        ts,
                    ) + Self::extra_param("orderBy".spec_bytes(), "startDate".spec_bytes()));
                }
                Ok(r2)
            },
            Err(e) => Err(e),
        }
    }
}

/// The UTF-8 bytes of URI text: one byte per character, each below 128.
pub proof fn lemma_uri_text_ascii_bytes(s: Seq<char>)
    requires
        is_uri_text(s),
    ensures
        vstd::utf8::encode_utf8(s).len() == s.len(),
        forall|i: int| 0 <= i < s.len() ==> (#[trigger] vstd::utf8::encode_utf8(s)[i]) < 128,
    decreases s.len(),
{
    if s.len() != 0 {
        assert(is_uri_char(s[0]));
        let u = s[0] as u32;
        assert(33 <= u <= 126);
        assert(u & 0x7F == u) by (bit_vector)
            requires
                33 <= u <= 126,
        ;
        assert(vstd::utf8::encode_scalar(u) =~= seq![(u & 0x7F) as u8]);
        let rest = s.drop_first();
        assert forall|j: int| 0 <= j < rest.len() implies is_uri_char(#[trigger] rest[j]) by {
            assert(rest[j] == s[j + 1]);
        }
        lemma_uri_text_ascii_bytes(rest);
        let e = vstd::utf8::encode_utf8(s);
        assert(e == vstd::utf8::encode_scalar(u) + vstd::utf8::encode_utf8(rest));
        assert forall|i: int| 0 <= i < s.len() implies (#[trigger] e[i]) < 128 by {
            if i == 0 {
                assert(e[0] == (u & 0x7F) as u8);
            } else {
                assert(e[i] == vstd::utf8::encode_utf8(rest)[i - 1]);
            }
        }
    }
}

/// The hash a request carries is a pure function of timestamp text, private
/// key and public key: equal inputs always give equal hashes.
pub proof fn lemma_sign_pure(m1: UriMaker, m2: UriMaker, ts1: Seq<u8>, ts2: Seq<u8>)
    requires
        ts1 == ts2,
        m1.secret@ == m2.secret@,
        m1.key@ == m2.key@,
    ensures
        md5_hex_of(m1.hash_input(ts1)) == md5_hex_of(m2.hash_input(ts2)),
{
}

} // verus!
