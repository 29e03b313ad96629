//! SHA-256 checking of a finished download.
use vstd::prelude::*;

use crate::text::{chars_eq, chars_of, lower, lower_exec, string_of, trim, trim_exec, CharSet};

verus! {

/// A running SHA-256 (a `sha2::Sha256`, whose type Verus cannot declare,
/// held out of Verus's sight).
#[verifier::external_body]
pub struct Sha256Hasher {
    inner: sha2::Sha256,
}

/// The bytes the hasher has been fed so far.
pub uninterp spec fn sha256_fed(h: Sha256Hasher) -> Seq<u8>;

/// The SHA-256 digest of `data`.
pub uninterp spec fn sha256_of(data: Seq<u8>) -> Seq<u8>;

/// Calls `sha2::Digest::new`: a hasher that has been fed nothing.
#[verifier::external_body]
fn sha256_new() -> (h: Sha256Hasher)
    ensures
        sha256_fed(h) == Seq::<u8>::empty(),
{
    Sha256Hasher { inner: <sha2::Sha256 as sha2::Digest>::new() }
}

/// Calls `sha2::Digest::update`: the hasher has been fed `data` in addition.
#[verifier::external_body]
fn sha256_update(h: &mut Sha256Hasher, data: &[u8])
    ensures
        sha256_fed(*final(h)) == sha256_fed(*old(h)) + data@,
{
    sha2::Digest::update(&mut h.inner, data)
}

/// Calls `sha2::Digest::finalize`: the digest of everything fed, 32 bytes.
#[verifier::external_body]
fn sha256_finalize(h: Sha256Hasher) -> (d: Vec<u8>)
    ensures
        d@ == sha256_of(sha256_fed(h)),
        d@.len() == 32,
{
    sha2::Digest::finalize(h.inner).to_vec()
}

/// The lower-case hex digit for `v < 16`.
pub open spec fn hex_digit(v: u8) -> char {
    if v < 10 {
        (48 + v) as char
    } else {
        (87 + v) as char
    }
}

/// Lower-case hex encoding, two digits per byte, high nibble first.
pub open spec fn hex_lower(data: Seq<u8>) -> Seq<char>
    decreases data.len(),
{
    if data.len() == 0 {
        seq![]
    } else {
        hex_lower(data.drop_last()) + seq![
            hex_digit(data.last() / 16),
            hex_digit(data.last() % 16),
        ]
    }
}

/// Calls `hex::encode`, which writes each byte as two lower-case hex digits.
#[verifier::external_body]
fn hex_encode(data: &[u8]) -> (s: String)
    ensures
        s@ == hex_lower(data@),
{
    hex::encode(data)
}

impl View for Sha256Hasher {
    type V = Seq<u8>;

    open spec fn view(&self) -> Seq<u8> {
        sha256_fed(*self)
    }
}

impl Sha256Hasher {
    pub fn new() -> (h: Sha256Hasher)
        ensures
            h@ == Seq::<u8>::empty(),
    {
        sha256_new()
    }

    pub fn update(&mut self, chunk: &[u8])
        ensures
            final(self)@ == old(self)@ + chunk@,
    {
        sha256_update(self, chunk);
    }

    /// The lower-case hex digest of everything fed.
    pub fn finish_hex(self) -> (s: String)
        ensures
            s@ == hex_lower(sha256_of(self@)),
    {
        let d = sha256_finalize(self);
        hex_encode(d.as_slice())
    }
}

pub open spec fn is_hex_digit(c: char) -> bool {
    ('0' <= c <= '9') || ('a' <= c <= 'f') || ('A' <= c <= 'F')
}

/// The expected digest in normal form: trimmed and lower-cased; valid when it
/// is 64 hex digits.
pub open spec fn expected_digest(expect: Seq<char>) -> Option<Seq<char>> {
    let e = lower(trim(expect, CharSet::Space));
    if e.len() == 64 && forall|i: int| 0 <= i < e.len() ==> is_hex_digit(#[trigger] e[i]) {
        Some(e)
    } else {
        None
    }
}

/// Checks the expected SHA-256 value given by the user; the error is `invalid sha256 value`.
pub fn normalize_expected_sha256(expect: &str) -> (r: Result<String, String>)
    ensures
        match r {
            Ok(e) => expected_digest(expect@) == Some(e@),
            Err(m) => expected_digest(expect@) is None && m@ == "invalid sha256 value"@,
        },
{
    let v = chars_of(expect);
    let t = trim_exec(&v, CharSet::Space);
    let e = lower_exec(&t);
    let mut ok = e.len() == 64;
    let mut i: usize = 0;
    while i < e.len()
        invariant
            i <= e@.len(),
            ok == (e@.len() == 64 && forall|j: int| 0 <= j < i ==> is_hex_digit(#[trigger] e@[j])),
        decreases e@.len() - i,
    {
        let c = e[i];
        if !(('0' <= c && c <= '9') || ('a' <= c && c <= 'f') || ('A' <= c && c <= 'F')) {
            ok = false;
        }
        i = i + 1;
    }
    if ok {
        Ok(string_of(&e))
    } else {
        Err(string_of(&chars_of("invalid sha256 value")))
    }
}

/// Compares the computed digest with the expected one.
pub fn check_digest(got: &str, want: &str) -> (r: Result<(), String>)
    ensures
        match r {
            Ok(()) => got@ == want@,
            Err(m) => got@ != want@ && m@ == "sha256 mismatch: got "@ + got@ + ", want "@ + want@,
        },
{
    let g = chars_of(got);
    let w = chars_of(want);
    if chars_eq(&g, &w) {
        return Ok(());
    }
    let mut m = chars_of("sha256 mismatch: got ");
    crate::text::push_all(&mut m, &g);
    let sep = chars_of(", want ");
    crate::text::push_all(&mut m, &sep);
    crate::text::push_all(&mut m, &w);
    Err(string_of(&m))
}

} // verus!
