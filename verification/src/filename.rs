//! Deriving the local file name of a download: from the `Content-Disposition`
//! header when the server sends one, else from the last segment of the URL path.
use vstd::prelude::*;

use crate::text::{
    contains, lead_len, lemma_contains_sub, lemma_lead_len_bound, lemma_split_char_contains,
    lemma_trail_len_bound, occurs_at, trail_len,
    chars_eq, chars_of, find_from, first_occ, has_prefix, is_control, is_control_exec, slice_chars, split_char, split_char_exec,
    starts_with, string_of, trim, trim_end, trim_end_exec, trim_exec, trim_start, trim_start_exec,
    views, CharSet,
};

verus! {

/// What `String::from_utf8_lossy` makes of `bytes`: valid UTF-8 decoded,
/// each invalid sequence replaced by U+FFFD.
pub uninterp spec fn utf8_lossy(bytes: Seq<u8>) -> Seq<char>;

/// Calls `String::from_utf8_lossy`. Its documentation gives the result on
/// valid UTF-8 (the decoded text); the replacement of invalid sequences is
/// only named, not spelled out.
#[verifier::external_body]
fn decode_lossy(bytes: &[u8]) -> (s: String)
    ensures
        s@ == utf8_lossy(bytes@),
        vstd::utf8::valid_utf8(bytes@) ==> s@ == vstd::utf8::decode_utf8(bytes@),
{
    String::from_utf8_lossy(bytes).into_owned()
}

/// The value of an ASCII hex digit.
pub open spec fn hex_val(b: u8) -> Option<u8> {
    if 48 <= b <= 57 {
        Some((b - 48) as u8)
    } else if 97 <= b <= 102 {
        Some((b - 97 + 10) as u8)
    } else if 65 <= b <= 70 {
        Some((b - 65 + 10) as u8)
    } else {
        None
    }
}

pub fn from_hex(b: u8) -> (r: Option<u8>)
    ensures
        r == hex_val(b),
{
    if 48u8 <= b && b <= 57u8 {
        Some(b - 48u8)
    } else if 97u8 <= b && b <= 102u8 {
        Some(b - 97u8 + 10)
    } else if 65u8 <= b && b <= 70u8 {
        Some(b - 65u8 + 10)
    } else {
        None
    }
}

/// Byte-level percent decoding: `%XY` with two hex digits becomes the byte
/// `0xXY`, `+` becomes a space, every other byte stays.
pub open spec fn pct_bytes(b: Seq<u8>) -> Seq<u8>
    decreases b.len(),
{
    if b.len() == 0 {
        seq![]
    } else if b[0] == 37 && b.len() >= 3 && hex_val(b[1]) is Some && hex_val(b[2]) is Some {
        seq![(hex_val(b[1])->0 * 16 + hex_val(b[2])->0) as u8] + pct_bytes(
            b.subrange(3, b.len() as int),
        )
    } else {
        seq![
            if b[0] == 43 {
                32u8
            } else {
                b[0]
            },
        ] + pct_bytes(b.drop_first())
    }
}

/// Percent decoding of text: decode the UTF-8 bytes, then read them back lossily.
pub open spec fn pct_decode(s: Seq<char>) -> Seq<char> {
    utf8_lossy(pct_bytes(vstd::utf8::encode_utf8(s)))
}

pub fn percent_decode_bytes(bytes: &[u8]) -> (out: Vec<u8>)
    ensures
        out@ == pct_bytes(bytes@),
{
    let mut out: Vec<u8> = Vec::new();
    let mut i: usize = 0;
    assert(bytes@.subrange(0, bytes@.len() as int) =~= bytes@);
    while i < bytes.len()
        invariant
            i <= bytes@.len(),
            pct_bytes(bytes@) == out@ + pct_bytes(bytes@.subrange(i as int, bytes@.len() as int)),
        decreases bytes@.len() - i,
    {
        let ghost rest = bytes@.subrange(i as int, bytes@.len() as int);
        if bytes[i] == 37u8 && bytes.len() - i > 2 {
            let h = from_hex(bytes[i + 1]);
            let l = from_hex(bytes[i + 2]);
            if h.is_some() && l.is_some() {
                let hv = h.unwrap();
                let lv = l.unwrap();
                let byte = (hv << 4) | lv;
                assert(byte == (hv * 16 + lv) as u8) by (bit_vector)
                    requires
                        hv < 16,
                        lv < 16,
                        byte == (hv << 4) | lv,
                ;
                assert(rest.subrange(3, rest.len() as int) =~= bytes@.subrange(
                    i + 3,
                    bytes@.len() as int,
                ));
                let ghost before = out@;
                out.push(byte);
                assert(out@ + pct_bytes(bytes@.subrange(i + 3, bytes@.len() as int)) =~= before
                    + pct_bytes(rest));
                i = i + 3;
                continue ;
            }
        }
        let b = if bytes[i] == 43u8 {
            32u8
        } else {
            bytes[i]
        };
        assert(rest.drop_first() =~= bytes@.subrange(i + 1, bytes@.len() as int));
        let ghost before = out@;
        out.push(b);
        assert(out@ + pct_bytes(bytes@.subrange(i + 1, bytes@.len() as int)) =~= before
            + pct_bytes(rest));
        i = i + 1;
    }
    assert(out@ + pct_bytes(bytes@.subrange(i as int, bytes@.len() as int)) =~= out@);
    out
}

/// Percent-decodes `input` (UTF-8 bytes, `%XY`, `+` as space) and reads the
/// result back as UTF-8, replacing invalid sequences.
pub fn percent_decode(input: &str) -> (r: String)
    ensures
        r@ == pct_decode(input@),
{
    let bytes = input.as_bytes();
    let out = percent_decode_bytes(bytes);
    decode_lossy(out.as_slice())
}

/// The characters that `sanitize_filename` replaces by `_`.
pub open spec fn forbidden_char(c: char) -> bool {
    c == '<' || c == '>' || c == ':' || c == '"' || c == '/' || c == '\\' || c == '|' || c == '?'
        || c == '*' || c == '\0' || is_control(c)
}

pub open spec fn replace_forbidden(s: Seq<char>) -> Seq<char> {
    s.map_values(
        |c: char|
            if forbidden_char(c) {
                '_'
            } else {
                c
            },
    )
}

/// Trim, drop surrounding quotes, replace forbidden and control characters
/// by `_`, trim again and drop trailing dots.
pub open spec fn sanitized(name: Seq<char>) -> Seq<char> {
    trim_end(
        trim(replace_forbidden(trim(trim(name, CharSet::Space), CharSet::Quotes)), CharSet::Space),
        CharSet::Dot,
    )
}

fn replace_forbidden_exec(v: &[char]) -> (r: Vec<char>)
    ensures
        r@ == replace_forbidden(v@),
{
    let mut r: Vec<char> = Vec::new();
    let mut i: usize = 0;
    while i < v.len()
        invariant
            i <= v@.len(),
            r@ == replace_forbidden(v@.subrange(0, i as int)),
        decreases v@.len() - i,
    {
        let ch = v[i];
        let bad = ch == '<' || ch == '>' || ch == ':' || ch == '"' || ch == '/' || ch == '\\' || ch
            == '|' || ch == '?' || ch == '*' || ch == '\0' || is_control_exec(ch);
        if bad {
            r.push('_');
        } else {
            r.push(ch);
        }
        assert(replace_forbidden(v@.subrange(0, i + 1)) =~= replace_forbidden(
            v@.subrange(0, i as int),
        ).push(
            if forbidden_char(ch) {
                '_'
            } else {
                ch
            },
        ));
        i = i + 1;
    }
    assert(v@.subrange(0, v@.len() as int) =~= v@);
    r
}

fn sanitize_chars(name: &[char]) -> (r: Vec<char>)
    ensures
        r@ == sanitized(name@),
{
    let a = trim_exec(name, CharSet::Space);
    let b = trim_exec(&a, CharSet::Quotes);
    let c = replace_forbidden_exec(&b);
    let d = trim_exec(&c, CharSet::Space);
    trim_end_exec(&d, CharSet::Dot)
}

/// Makes `name` safe as a Windows file name.
pub fn sanitize_filename(name: &str) -> (r: String)
    ensures
        r@ == sanitized(name@),
{
    let v = chars_of(name);
    let out = sanitize_chars(&v);
    string_of(&out)
}

/// `str::strip_prefix(lo).or_else(|| str::strip_prefix(up))`.
pub open spec fn strip_either(s: Seq<char>, lo: Seq<char>, up: Seq<char>) -> Option<Seq<char>> {
    if has_prefix(s, lo) {
        Some(s.subrange(lo.len() as int, s.len() as int))
    } else if has_prefix(s, up) {
        Some(s.subrange(up.len() as int, s.len() as int))
    } else {
        None
    }
}

fn strip_either_exec(s: &[char], lo: &[char], up: &[char]) -> (r: Option<Vec<char>>)
    ensures
        match r {
            Some(v) => strip_either(s@, lo@, up@) == Some(v@),
            None => strip_either(s@, lo@, up@) is None,
        },
{
    if starts_with(s, lo) {
        Some(slice_chars(s, lo.len(), s.len()))
    } else if starts_with(s, up) {
        Some(slice_chars(s, up.len(), s.len()))
    } else {
        None
    }
}

/// `s.split(p).nth(1)`: the text between the first occurrence of `p` and the next one.
pub open spec fn second_piece(s: Seq<char>, p: Seq<char>) -> Option<Seq<char>> {
    match first_occ(s, p) {
        None => None,
        Some(i) => {
            let t = s.subrange(i + p.len(), s.len() as int);
            match first_occ(t, p) {
                None => Some(t),
                Some(j) => Some(t.subrange(0, j)),
            }
        },
    }
}

fn second_piece_exec(s: &[char], p: &[char]) -> (r: Option<Vec<char>>)
    ensures
        match r {
            Some(v) => second_piece(s@, p@) == Some(v@),
            None => second_piece(s@, p@) is None,
        },
{
    match find_from(s, p, 0) {
        None => None,
        Some(i) => {
            assert(crate::text::occurs_at(s@, p@, i as int));
            assert(i + p.len() <= s.len());
            let t = slice_chars(s, i + p.len(), s.len());
            match find_from(&t, p, 0) {
                None => Some(t),
                Some(j) => {
                    Some(slice_chars(&t, 0, j))
                },
            }
        },
    }
}

/// The `filename*=charset''value` form of one `;`-separated part, decoded.
pub open spec fn star_value(part: Seq<char>) -> Option<Seq<char>> {
    match strip_either(trim(part, CharSet::Space), "filename*"@, "FILENAME*"@) {
        None => None,
        Some(rest) => {
            let r = trim_start(trim(rest, CharSet::Space), CharSet::Equals);
            match second_piece(r, "''"@) {
                None => None,
                Some(enc) => {
                    let dec = pct_decode(trim(enc, CharSet::DoubleQuote));
                    if dec.len() > 0 {
                        Some(dec)
                    } else {
                        None
                    }
                },
            }
        },
    }
}

/// The plain `filename=value` form of one `;`-separated part.
pub open spec fn plain_value(part: Seq<char>) -> Option<Seq<char>> {
    match strip_either(trim(part, CharSet::Space), "filename"@, "FILENAME"@) {
        None => None,
        Some(rest) => {
            if has_prefix(rest, seq!['*']) {
                None
            } else {
                let name = trim(
                    trim(trim_start(trim(rest, CharSet::Space), CharSet::Equals), CharSet::Space),
                    CharSet::DoubleQuote,
                );
                if name.len() > 0 {
                    Some(name)
                } else {
                    None
                }
            }
        },
    }
}

pub open spec fn first_star(parts: Seq<Seq<char>>) -> Option<Seq<char>>
    decreases parts.len(),
{
    if parts.len() == 0 {
        None
    } else {
        match star_value(parts[0]) {
            Some(v) => Some(v),
            None => first_star(parts.drop_first()),
        }
    }
}

pub open spec fn first_plain(parts: Seq<Seq<char>>) -> Option<Seq<char>>
    decreases parts.len(),
{
    if parts.len() == 0 {
        None
    } else {
        match plain_value(parts[0]) {
            Some(v) => Some(v),
            None => first_plain(parts.drop_first()),
        }
    }
}

/// The file name a `Content-Disposition` value gives: the first decodable
/// `filename*` part wins, else the first non-empty `filename` part.
pub open spec fn disposition_name(value: Seq<char>) -> Option<Seq<char>> {
    let parts = split_char(value, ';');
    match first_star(parts) {
        Some(v) => Some(v),
        None => first_plain(parts),
    }
}

proof fn lemma_first_star_nonempty(parts: Seq<Seq<char>>)
    ensures
        first_star(parts) matches Some(v) ==> v.len() > 0,
    decreases parts.len(),
{
    if parts.len() > 0 {
        lemma_first_star_nonempty(parts.drop_first());
    }
}

proof fn lemma_first_plain_nonempty(parts: Seq<Seq<char>>)
    ensures
        first_plain(parts) matches Some(v) ==> v.len() > 0,
    decreases parts.len(),
{
    if parts.len() > 0 {
        lemma_first_plain_nonempty(parts.drop_first());
    }
}

/// A `Content-Disposition` value never yields an empty file name.
pub proof fn lemma_disposition_name_nonempty(value: Seq<char>)
    ensures
        disposition_name(value) matches Some(v) ==> v.len() > 0,
{
    lemma_first_star_nonempty(split_char(value, ';'));
    lemma_first_plain_nonempty(split_char(value, ';'));
}

proof fn lemma_first_star_witness(parts: Seq<Seq<char>>) -> (i: int)
    requires
        first_star(parts) is Some,
    ensures
        0 <= i < parts.len(),
        star_value(parts[i]) is Some,
    decreases parts.len(),
{
    if star_value(parts[0]) is Some {
        0
    } else {
        let j = lemma_first_star_witness(parts.drop_first());
        j + 1
    }
}

proof fn lemma_first_plain_witness(parts: Seq<Seq<char>>) -> (i: int)
    requires
        first_plain(parts) is Some,
    ensures
        0 <= i < parts.len(),
        plain_value(parts[i]) is Some,
    decreases parts.len(),
{
    if plain_value(parts[0]) is Some {
        0
    } else {
        let j = lemma_first_plain_witness(parts.drop_first());
        j + 1
    }
}

proof fn lemma_trim_contains(part: Seq<char>, p: Seq<char>)
    requires
        contains(trim(part, CharSet::Space), p),
    ensures
        contains(part, p),
{
    let ts = trim_start(part, CharSet::Space);
    lemma_lead_len_bound(part, CharSet::Space);
    lemma_trail_len_bound(ts, CharSet::Space);
    lemma_contains_sub(ts, 0, ts.len() - trail_len(ts, CharSet::Space), p);
    lemma_contains_sub(part, lead_len(part, CharSet::Space) as int, part.len() as int, p);
}

proof fn lemma_keyword_part(part: Seq<char>)
    requires
        star_value(part) is Some || plain_value(part) is Some,
    ensures
        contains(part, "filename"@) || contains(part, "FILENAME"@),
{
    reveal_strlit("filename*");
    reveal_strlit("FILENAME*");
    reveal_strlit("filename");
    reveal_strlit("FILENAME");
    let t = trim(part, CharSet::Space);
    if has_prefix(t, "filename*"@) || has_prefix(t, "filename"@) {
        assert(t.subrange(0, 8) =~= "filename"@);
        assert(occurs_at(t, "filename"@, 0));
        lemma_trim_contains(part, "filename"@);
    } else {
        assert(has_prefix(t, "FILENAME*"@) || has_prefix(t, "FILENAME"@));
        assert(t.subrange(0, 8) =~= "FILENAME"@);
        assert(occurs_at(t, "FILENAME"@, 0));
        lemma_trim_contains(part, "FILENAME"@);
    }
}

/// A `Content-Disposition` value names a file only when it holds the word
/// `filename` or `FILENAME`.
pub proof fn lemma_disposition_needs_keyword(value: Seq<char>)
    ensures
        disposition_name(value) is Some ==> contains(value, "filename"@) || contains(
            value,
            "FILENAME"@,
        ),
{
    let parts = split_char(value, ';');
    if disposition_name(value) is Some {
        let i = if first_star(parts) is Some {
            lemma_first_star_witness(parts)
        } else {
            lemma_first_plain_witness(parts)
        };
        lemma_keyword_part(parts[i]);
        lemma_split_char_contains(value, ';', "filename"@);
        lemma_split_char_contains(value, ';', "FILENAME"@);
    }
}

fn star_value_exec(part: &[char]) -> (r: Option<Vec<char>>)
    ensures
        match r {
            Some(v) => star_value(part@) == Some(v@),
            None => star_value(part@) is None,
        },
{
    let p = trim_exec(part, CharSet::Space);
    let lo = chars_of("filename*");
    let up = chars_of("FILENAME*");
    match strip_either_exec(&p, &lo, &up) {
        None => None,
        Some(rest) => {
            let a = trim_exec(&rest, CharSet::Space);
            let r = trim_start_exec(&a, CharSet::Equals);
            let sep = chars_of("''");
            match second_piece_exec(&r, &sep) {
                None => None,
                Some(enc) => {
                    let e = trim_exec(&enc, CharSet::DoubleQuote);
                    let es = string_of(&e);
                    let dec = percent_decode(es.as_str());
                    let dv = chars_of(dec.as_str());
                    if dv.len() > 0 {
                        Some(dv)
                    } else {
                        None
                    }
                },
            }
        },
    }
}

fn plain_value_exec(part: &[char]) -> (r: Option<Vec<char>>)
    ensures
        match r {
            Some(v) => plain_value(part@) == Some(v@),
            None => plain_value(part@) is None,
        },
{
    let p = trim_exec(part, CharSet::Space);
    let lo = chars_of("filename");
    let up = chars_of("FILENAME");
    match strip_either_exec(&p, &lo, &up) {
        None => None,
        Some(rest) => {
            if rest.len() > 0 && rest[0] == '*' {
                assert(rest@.subrange(0, 1) =~= seq!['*']);
                return None;
            }
            assert(!has_prefix(rest@, seq!['*'])) by {
                if has_prefix(rest@, seq!['*']) {
                    assert(rest@.subrange(0, 1)[0] == '*');
                }
            }
            let a = trim_exec(&rest, CharSet::Space);
            let b = trim_start_exec(&a, CharSet::Equals);
            let c = trim_exec(&b, CharSet::Space);
            let name = trim_exec(&c, CharSet::DoubleQuote);
            if name.len() > 0 {
                Some(name)
            } else {
                None
            }
        },
    }
}

fn disposition_name_chars(value: &[char]) -> (r: Option<Vec<char>>)
    ensures
        match r {
            Some(v) => disposition_name(value@) == Some(v@),
            None => disposition_name(value@) is None,
        },
{
    let parts = split_char_exec(value, ';');
    let ghost ps = views(parts@);
    let mut i: usize = 0;
    assert(ps.skip(0) =~= ps);
    while i < parts.len()
        invariant
            i <= parts@.len(),
            ps == views(parts@),
            ps == split_char(value@, ';'),
            first_star(ps) == first_star(ps.skip(i as int)),
        decreases parts@.len() - i,
    {
        assert(ps.skip(i as int).drop_first() =~= ps.skip(i + 1));
        assert(ps.skip(i as int)[0] == parts@[i as int]@);
        match star_value_exec(parts[i].as_slice()) {
            Some(v) => {
                return Some(v);
            },
            None => {},
        }
        i = i + 1;
    }
    assert(ps.skip(i as int) =~= Seq::<Seq<char>>::empty());
    let mut i: usize = 0;
    while i < parts.len()
        invariant
            i <= parts@.len(),
            ps == views(parts@),
            ps == split_char(value@, ';'),
            first_star(ps) is None,
            first_plain(ps) == first_plain(ps.skip(i as int)),
        decreases parts@.len() - i,
    {
        assert(ps.skip(i as int).drop_first() =~= ps.skip(i + 1));
        assert(ps.skip(i as int)[0] == parts@[i as int]@);
        match plain_value_exec(parts[i].as_slice()) {
            Some(v) => {
                return Some(v);
            },
            None => {},
        }
        i = i + 1;
    }
    assert(ps.skip(i as int) =~= Seq::<Seq<char>>::empty());
    None
}

/// Parses a `Content-Disposition` header value for a file name.
pub fn parse_content_disposition(value: &str) -> (r: Option<String>)
    ensures
        match r {
            Some(s) => disposition_name(value@) == Some(s@),
            None => disposition_name(value@) is None,
        },
{
    let v = chars_of(value);
    match disposition_name_chars(&v) {
        Some(n) => Some(string_of(&n)),
        None => None,
    }
}

/// The path component that `url::Url::parse(raw)` yields, or `None` when
/// the text does not parse as a URL.
pub uninterp spec fn url_path(raw: Seq<char>) -> Option<Seq<char>>;

/// Calls `url::Url::parse` and, on success, `Url::path`. The result is only
/// named: the WHATWG parsing rules are not restated here.
#[verifier::external_body]
fn parse_url_path(raw: &str) -> (r: Option<String>)
    ensures
        match r {
            Some(p) => url_path(raw@) == Some(p@),
            None => url_path(raw@) is None,
        },
{
    match url::Url::parse(raw) {
        Ok(u) => Some(u.path().to_string()),
        Err(_) => None,
    }
}

/// The last non-empty piece, if any.
pub open spec fn last_nonempty(ps: Seq<Seq<char>>) -> Option<Seq<char>>
    decreases ps.len(),
{
    if ps.len() == 0 {
        None
    } else if ps.last().len() > 0 {
        Some(ps.last())
    } else {
        last_nonempty(ps.drop_last())
    }
}

/// The name kept from a URL path: its last non-empty `/` segment,
/// percent-decoded and sanitized; `download.bin` when there is no path, or
/// when what is left is empty, `.` or `..`.
pub open spec fn name_from_url_path(path: Option<Seq<char>>) -> Seq<char> {
    match path {
        None => "download.bin"@,
        Some(p) => {
            let seg = match last_nonempty(split_char(p, '/')) {
                Some(n) => n,
                None => "download.bin"@,
            };
            let cleaned = sanitized(pct_decode(seg));
            if cleaned.len() == 0 || cleaned == "."@ || cleaned == ".."@ {
                "download.bin"@
            } else {
                cleaned
            }
        },
    }
}

/// What `filename_from_url` returns for the raw URL text.
pub open spec fn name_from_url(raw: Seq<char>) -> Seq<char> {
    name_from_url_path(url_path(raw))
}

fn last_nonempty_exec(ps: &Vec<Vec<char>>) -> (r: Option<Vec<char>>)
    ensures
        match r {
            Some(v) => last_nonempty(views(ps@)) == Some(v@),
            None => last_nonempty(views(ps@)) is None,
        },
{
    let ghost vs = views(ps@);
    let mut i = ps.len();
    assert(vs.take(i as int) =~= vs);
    while i > 0
        invariant
            i <= ps@.len(),
            vs == views(ps@),
            last_nonempty(vs) == last_nonempty(vs.take(i as int)),
        decreases i,
    {
        assert(vs.take(i as int).drop_last() =~= vs.take(i - 1));
        assert(vs.take(i as int).last() == ps@[i - 1]@);
        if ps[i - 1].len() > 0 {
            let v = slice_chars(ps[i - 1].as_slice(), 0, ps[i - 1].len());
            assert(ps@[i - 1]@.subrange(0, ps@[i - 1]@.len() as int) =~= ps@[i - 1]@);
            return Some(v);
        }
        i = i - 1;
    }
    None
}

/// The name derived from an already parsed URL path (`None` when the URL did not parse).
pub fn filename_from_url_path(path: Option<&str>) -> (r: String)
    ensures
        r@ == name_from_url_path(
            match path {
                Some(p) => Some(p@),
                None => None,
            },
        ),
{
    let fallback = "download.bin";
    let p = match path {
        None => {
            return fallback.to_string();
        },
        Some(p) => p,
    };
    let pv = chars_of(p);
    let pieces = split_char_exec(&pv, '/');
    let seg: Vec<char> = match last_nonempty_exec(&pieces) {
        Some(n) => n,
        None => chars_of(fallback),
    };
    let seg_s = string_of(&seg);
    let decoded = percent_decode(seg_s.as_str());
    let dv = chars_of(decoded.as_str());
    let cleaned = sanitize_chars(&dv);
    let dot = chars_of(".");
    let dotdot = chars_of("..");
    if cleaned.len() == 0 || chars_eq(&cleaned, &dot) || chars_eq(&cleaned, &dotdot) {
        fallback.to_string()
    } else {
        string_of(&cleaned)
    }
}

/// The file name for a URL: its last path segment, decoded and sanitized,
/// or `download.bin`.
pub fn filename_from_url(raw: &str) -> (r: String)
    ensures
        r@ == name_from_url(raw@),
{
    let path = parse_url_path(raw);
    match path {
        Some(p) => filename_from_url_path(Some(p.as_str())),
        None => filename_from_url_path(None),
    }
}

/// What `filename_from_headers` returns.
pub open spec fn name_from_headers(disposition: Option<Seq<char>>, url: Seq<char>) -> Seq<char> {
    match disposition {
        Some(v) => match disposition_name(v) {
            Some(n) => sanitized(n),
            None => name_from_url(url),
        },
        None => name_from_url(url),
    }
}

/// The file name for a response: the `Content-Disposition` value (when the
/// header is present and readable as text) names it, else the URL does.
pub fn filename_from_headers(content_disposition: Option<&str>, fallback_url: &str) -> (r: String)
    ensures
        r@ == name_from_headers(
            match content_disposition {
                Some(v) => Some(v@),
                None => None,
            },
            fallback_url@,
        ),
{
    if let Some(value) = content_disposition {
        if let Some(name) = parse_content_disposition(value) {
            return sanitize_filename(name.as_str());
        }
    }
    filename_from_url(fallback_url)
}

proof fn lemma_trim_end_clean(s: Seq<char>, k: CharSet)
    requires
        s.len() > 0 ==> !crate::text::in_set(k, s.last()),
    ensures
        trim_end(s, k) == s,
{
    assert(trail_len(s, k) == 0);
    assert(s.subrange(0, s.len() as int) =~= s);
}

proof fn lemma_trim_clean(s: Seq<char>, k: CharSet)
    requires
        s.len() > 0 ==> !crate::text::in_set(k, s[0]) && !crate::text::in_set(k, s.last()),
    ensures
        trim(s, k) == s,
{
    assert(lead_len(s, k) == 0);
    assert(s.subrange(0, s.len() as int) =~= s);
    lemma_trim_end_clean(s, k);
}

/// A name that is already safe is kept as it is: when it holds none of
/// `< > : " / \ | ? *`, NUL or a control character, does not begin or end
/// with whitespace or a quote, and does not end with a dot, sanitizing
/// returns it unchanged.
pub proof fn lemma_sanitized_keeps_safe_name(name: Seq<char>)
    requires
        forall|i: int|
            0 <= i < name.len() ==> {
                let c = #[trigger] name[i];
                &&& c != '<' && c != '>' && c != ':' && c != '"' && c != '/' && c != '\\'
                &&& c != '|' && c != '?' && c != '*' && c != '\0'
                &&& !((c as u32) <= 0x1F || (0x7F <= (c as u32) && (c as u32) <= 0x9F))
            },
        name.len() > 0 ==> !crate::text::is_ws(name[0]) && !crate::text::is_ws(name.last())
            && name[0] != '\'' && name.last() != '\'' && name.last() != '.',
    ensures
        sanitized(name) == name,
{
    if name.len() > 0 {
        assert(name[0] != '"' && name.last() == name[name.len() - 1]);
    }
    lemma_trim_clean(name, CharSet::Space);
    lemma_trim_clean(name, CharSet::Quotes);
    assert(replace_forbidden(name) =~= name);
    lemma_trim_end_clean(name, CharSet::Dot);
}

/// A sanitized name holds none of `< > : " / \ | ? *` nor any control
/// character, and does not end with a dot.
pub proof fn lemma_sanitized_safe(name: Seq<char>)
    ensures
        forall|i: int| 0 <= i < sanitized(name).len() ==> !forbidden_char(#[trigger] sanitized(name)[i]),
        forall|i: int|
            0 <= i < sanitized(name).len() ==> {
                let c = #[trigger] sanitized(name)[i];
                &&& c != '<' && c != '>' && c != ':' && c != '"' && c != '/' && c != '\\'
                &&& c != '|' && c != '?' && c != '*' && c != '\0'
                &&& !((c as u32) <= 0x1F || (0x7F <= (c as u32) && (c as u32) <= 0x9F))
            },
        sanitized(name).len() > 0 ==> sanitized(name).last() != '.',
{
    let a = trim(trim(name, CharSet::Space), CharSet::Quotes);
    let b = replace_forbidden(a);
    assert forall|i: int| 0 <= i < b.len() implies !forbidden_char(#[trigger] b[i]) by {}
    let c = trim(b, CharSet::Space);
    let c0 = trim_start(b, CharSet::Space);
    crate::text::lemma_lead_len_bound(b, CharSet::Space);
    crate::text::lemma_trail_len_bound(c0, CharSet::Space);
    assert forall|i: int| 0 <= i < c.len() implies !forbidden_char(#[trigger] c[i]) by {
        assert(c[i] == c0[i]);
        assert(c0[i] == b[i + crate::text::lead_len(b, CharSet::Space)]);
    }
    let r = trim_end(c, CharSet::Dot);
    crate::text::lemma_trail_len_bound(c, CharSet::Dot);
    assert forall|i: int| 0 <= i < r.len() implies !forbidden_char(#[trigger] r[i]) by {
        assert(r[i] == c[i]);
    }
    crate::text::lemma_trim_end_last(c, CharSet::Dot);
}

} // verus!
