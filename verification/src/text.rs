//! Character-level text operations shared by the parsers of the library:
//! the spec side describes `str` behaviour over `Seq<char>`, the exec side
//! works on `Vec<char>` buffers.
use vstd::prelude::*;
use vstd::std_specs::iter::IteratorSpec;

verus! {


/// Unicode `White_Space`, the set that `char::is_whitespace` and `str::trim` use.
pub open spec fn is_ws(c: char) -> bool {
    let u = c as u32;
    ||| 0x9 <= u <= 0xD
    ||| u == 0x20
    ||| u == 0x85
    ||| u == 0xA0
    ||| u == 0x1680
    ||| 0x2000 <= u <= 0x200A
    ||| u == 0x2028
    ||| u == 0x2029
    ||| u == 0x202F
    ||| u == 0x205F
    ||| u == 0x3000
}

/// Unicode general category `Cc`, what `char::is_control` tests.
pub open spec fn is_control(c: char) -> bool {
    let u = c as u32;
    u <= 0x1F || (0x7F <= u <= 0x9F)
}

/// The character sets that the library trims.
#[derive(Clone, Copy, PartialEq, Eq)]
pub enum CharSet {
    Space,
    DoubleQuote,
    Quotes,
    Equals,
    Dot,
}

pub open spec fn in_set(k: CharSet, c: char) -> bool {
    match k {
        CharSet::Space => is_ws(c),
        CharSet::DoubleQuote => c == '"',
        CharSet::Quotes => c == '"' || c == '\'',
        CharSet::Equals => c == '=',
        CharSet::Dot => c == '.',
    }
}

pub fn is_ws_exec(c: char) -> (b: bool)
    ensures
        b == is_ws(c),
{
    let u = c as u32;
    (0x9 <= u && u <= 0xD) || u == 0x20 || u == 0x85 || u == 0xA0 || u == 0x1680 || (0x2000 <= u
        && u <= 0x200A) || u == 0x2028 || u == 0x2029 || u == 0x202F || u == 0x205F || u == 0x3000
}

pub fn is_control_exec(c: char) -> (b: bool)
    ensures
        b == is_control(c),
{
    let u = c as u32;
    u <= 0x1F || (0x7F <= u && u <= 0x9F)
}

pub fn in_set_exec(k: CharSet, c: char) -> (b: bool)
    ensures
        b == in_set(k, c),
{
    match k {
        CharSet::Space => is_ws_exec(c),
        CharSet::DoubleQuote => c == '"',
        CharSet::Quotes => c == '"' || c == '\'',
        CharSet::Equals => c == '=',
        CharSet::Dot => c == '.',
    }
}

/// Number of leading characters of `s` that lie in `k`.
pub open spec fn lead_len(s: Seq<char>, k: CharSet) -> nat
    decreases s.len(),
{
    if s.len() > 0 && in_set(k, s[0]) {
        1 + lead_len(s.drop_first(), k)
    } else {
        0
    }
}

/// Number of trailing characters of `s` that lie in `k`.
pub open spec fn trail_len(s: Seq<char>, k: CharSet) -> nat
    decreases s.len(),
{
    if s.len() > 0 && in_set(k, s.last()) {
        1 + trail_len(s.drop_last(), k)
    } else {
        0
    }
}

/// `str::trim_start_matches` with a character set.
pub open spec fn trim_start(s: Seq<char>, k: CharSet) -> Seq<char> {
    s.subrange(lead_len(s, k) as int, s.len() as int)
}

/// `str::trim_end_matches` with a character set.
pub open spec fn trim_end(s: Seq<char>, k: CharSet) -> Seq<char> {
    s.subrange(0, s.len() - trail_len(s, k))
}

/// `str::trim_matches` with a character set (`str::trim` for `Space`).
pub open spec fn trim(s: Seq<char>, k: CharSet) -> Seq<char> {
    trim_end(trim_start(s, k), k)
}

pub proof fn lemma_lead_len_bound(s: Seq<char>, k: CharSet)
    ensures
        lead_len(s, k) <= s.len(),
    decreases s.len(),
{
    if s.len() > 0 && in_set(k, s[0]) {
        lemma_lead_len_bound(s.drop_first(), k);
    }
}

pub proof fn lemma_trail_len_bound(s: Seq<char>, k: CharSet)
    ensures
        trail_len(s, k) <= s.len(),
    decreases s.len(),
{
    if s.len() > 0 && in_set(k, s.last()) {
        lemma_trail_len_bound(s.drop_last(), k);
    }
}

/// A copy of the characters of `s`.
pub fn chars_of(s: &str) -> (v: Vec<char>)
    ensures
        v@ == s@,
{
    broadcast use vstd::string::group_string_axioms;

    let mut v: Vec<char> = Vec::new();
    let mut it = s.chars();
    let ghost total = it.remaining();
    assert(total == s@);
    loop
        invariant
            total == s@,
            v@ + it.remaining() == total,
            it.obeys_prophetic_iter_laws(),
            it.decrease() is Some,
        decreases it.decrease()->0,
    {
        match it.next() {
            Some(c) => {
                v.push(c);
                assert(v@ + it.remaining() =~= total);
            },
            None => {
                assert(v@ =~= total);
                return v;
            },
        }
    }
}

/// Calls `String::push`, which appends the character.
#[verifier::external_body]
fn push_char(s: &mut String, c: char)
    ensures
        final(s)@ == old(s)@.push(c),
{
    s.push(c);
}

/// A `String` holding the characters of `v`.
pub fn string_of(v: &[char]) -> (s: String)
    ensures
        s@ == v@,
{
    let mut s = String::new();
    let mut i: usize = 0;
    while i < v.len()
        invariant
            i <= v@.len(),
            s@ == v@.subrange(0, i as int),
        decreases v@.len() - i,
    {
        push_char(&mut s, v[i]);
        assert(s@ =~= v@.subrange(0, i + 1));
        i = i + 1;
    }
    assert(s@ =~= v@);
    s
}

/// The characters `v[from..to]`.
pub fn slice_chars(v: &[char], from: usize, to: usize) -> (r: Vec<char>)
    requires
        from <= to <= v@.len(),
    ensures
        r@ == v@.subrange(from as int, to as int),
{
    let mut r: Vec<char> = Vec::new();
    let mut i = from;
    while i < to
        invariant
            from <= i <= to <= v@.len(),
            r@ == v@.subrange(from as int, i as int),
        decreases to - i,
    {
        r.push(v[i]);
        assert(r@ =~= v@.subrange(from as int, i + 1));
        i = i + 1;
    }
    r
}

pub fn lead_count(v: &[char], k: CharSet) -> (n: usize)
    ensures
        n == lead_len(v@, k),
{
    let mut i: usize = 0;
    assert(v@.subrange(0, v@.len() as int) =~= v@);
    while i < v.len() && in_set_exec(k, v[i])
        invariant
            i <= v@.len(),
            lead_len(v@, k) == i + lead_len(v@.subrange(i as int, v@.len() as int), k),
        decreases v@.len() - i,
    {
        let ghost rest = v@.subrange(i as int, v@.len() as int);
        assert(rest.drop_first() =~= v@.subrange(i + 1, v@.len() as int));
        i = i + 1;
    }
    i
}

pub fn trail_count(v: &[char], k: CharSet) -> (n: usize)
    ensures
        n == trail_len(v@, k),
{
    let mut i: usize = 0;
    assert(v@.subrange(0, v@.len() as int) =~= v@);
    while i < v.len() && in_set_exec(k, v[v.len() - 1 - i])
        invariant
            i <= v@.len(),
            trail_len(v@, k) == i + trail_len(v@.subrange(0, v@.len() - i), k),
        decreases v@.len() - i,
    {
        let ghost rest = v@.subrange(0, v@.len() - i);
        assert(rest.drop_last() =~= v@.subrange(0, v@.len() - i - 1));
        i = i + 1;
    }
    i
}

pub fn trim_start_exec(v: &[char], k: CharSet) -> (r: Vec<char>)
    ensures
        r@ == trim_start(v@, k),
{
    let n = lead_count(v, k);
    proof {
        lemma_lead_len_bound(v@, k);
    }
    slice_chars(v, n, v.len())
}

pub fn trim_end_exec(v: &[char], k: CharSet) -> (r: Vec<char>)
    ensures
        r@ == trim_end(v@, k),
{
    let n = trail_count(v, k);
    proof {
        lemma_trail_len_bound(v@, k);
    }
    slice_chars(v, 0, v.len() - n)
}

pub fn trim_exec(v: &[char], k: CharSet) -> (r: Vec<char>)
    ensures
        r@ == trim(v@, k),
{
    let a = trim_start_exec(v, k);
    trim_end_exec(&a, k)
}

/// `s` begins with `p`.
pub open spec fn has_prefix(s: Seq<char>, p: Seq<char>) -> bool {
    p.len() <= s.len() && s.subrange(0, p.len() as int) == p
}

/// `s` ends with `p`.
pub open spec fn has_suffix(s: Seq<char>, p: Seq<char>) -> bool {
    p.len() <= s.len() && s.subrange(s.len() - p.len(), s.len() as int) == p
}

/// `p` occurs in `s` at index `i`.
pub open spec fn occurs_at(s: Seq<char>, p: Seq<char>, i: int) -> bool {
    0 <= i && i + p.len() <= s.len() && s.subrange(i, i + p.len()) == p
}

/// `str::contains` with a string pattern.
pub open spec fn contains(s: Seq<char>, p: Seq<char>) -> bool {
    exists|i: int| occurs_at(s, p, i)
}

/// `i` is the leftmost occurrence of `p` in `s`.
pub open spec fn is_first_occ(s: Seq<char>, p: Seq<char>, i: int) -> bool {
    occurs_at(s, p, i) && forall|j: int| 0 <= j < i ==> !occurs_at(s, p, j)
}

/// The leftmost occurrence of `p` in `s`, if any.
pub open spec fn first_occ(s: Seq<char>, p: Seq<char>) -> Option<int> {
    if contains(s, p) {
        Some(choose|i: int| is_first_occ(s, p, i))
    } else {
        None
    }
}

pub fn eq_at(s: &[char], p: &[char], i: usize) -> (b: bool)
    ensures
        b == occurs_at(s@, p@, i as int),
{
    if i > s.len() || p.len() > s.len() - i {
        return false;
    }
    let mut j: usize = 0;
    while j < p.len()
        invariant
            i + p@.len() <= s@.len(),
            s@.len() == s.len(),
            j <= p@.len(),
            forall|t: int| 0 <= t < j ==> s@[i + t] == p@[t],
        decreases p@.len() - j,
    {
        assert(i + j < s.len());
        if s[i + j] != p[j] {
            assert(s@.subrange(i as int, i + p@.len())[j as int] != p@[j as int]);
            return false;
        }
        j = j + 1;
    }
    assert(s@.subrange(i as int, i + p@.len()) =~= p@);
    true
}

pub fn chars_eq(a: &[char], b: &[char]) -> (r: bool)
    ensures
        r == (a@ == b@),
{
    if a.len() != b.len() {
        return false;
    }
    let r = eq_at(a, b, 0);
    proof {
        if r {
            assert(a@.subrange(0, b@.len() as int) =~= a@);
        } else {
            assert(!occurs_at(a@, b@, 0));
            if a@ == b@ {
                assert(a@.subrange(0, b@.len() as int) =~= a@);
            }
        }
    }
    r
}

pub fn starts_with(s: &[char], p: &[char]) -> (r: bool)
    ensures
        r == has_prefix(s@, p@),
{
    eq_at(s, p, 0)
}

pub fn ends_with(s: &[char], p: &[char]) -> (r: bool)
    ensures
        r == has_suffix(s@, p@),
{
    if p.len() > s.len() {
        return false;
    }
    eq_at(s, p, s.len() - p.len())
}

proof fn lemma_first_occ_unique(s: Seq<char>, p: Seq<char>, i: int)
    requires
        is_first_occ(s, p, i),
    ensures
        first_occ(s, p) == Some(i),
{
    assert(contains(s, p));
    let k = choose|k: int| is_first_occ(s, p, k);
    assert(is_first_occ(s, p, k));
    if k < i {
        assert(!occurs_at(s, p, k));
    }
    if i < k {
        assert(!occurs_at(s, p, i));
    }
}

/// The leftmost occurrence of `p` in `s` at or after `from`.
pub fn find_from(s: &[char], p: &[char], from: usize) -> (r: Option<usize>)
    requires
        from <= s@.len(),
        forall|j: int| 0 <= j < from ==> !occurs_at(s@, p@, j),
    ensures
        match r {
            Some(i) => first_occ(s@, p@) == Some(i as int) && is_first_occ(s@, p@, i as int),
            None => first_occ(s@, p@) is None,
        },
{
    let mut i = from;
    while i < s.len()
        invariant
            from <= i <= s@.len(),
            forall|j: int| 0 <= j < i ==> !occurs_at(s@, p@, j),
        decreases s@.len() - i,
    {
        if eq_at(s, p, i) {
            proof {
                lemma_first_occ_unique(s@, p@, i as int);
            }
            return Some(i);
        }
        i = i + 1;
    }
    if eq_at(s, p, i) {
        proof {
            lemma_first_occ_unique(s@, p@, i as int);
        }
        return Some(i);
    }
    assert(!contains(s@, p@)) by {
        if contains(s@, p@) {
            let k = choose|k: int| occurs_at(s@, p@, k);
            assert(occurs_at(s@, p@, k));
            assert(k <= s@.len());
        }
    }
    None
}

/// `str::contains` on character buffers.
pub fn contains_exec(s: &[char], p: &[char]) -> (r: bool)
    ensures
        r == contains(s@, p@),
{
    let f = find_from(s, p, 0);
    proof {
        if contains(s@, p@) {
            assert(first_occ(s@, p@) is Some);
        }
    }
    f.is_some()
}

/// `char::to_ascii_lowercase`.
pub open spec fn lower_char(c: char) -> char {
    if 'A' <= c <= 'Z' {
        ((c as u32) + 32) as char
    } else {
        c
    }
}

/// `str::to_ascii_lowercase`.
pub open spec fn lower(s: Seq<char>) -> Seq<char> {
    s.map_values(|c: char| lower_char(c))
}

pub fn lower_char_exec(c: char) -> (r: char)
    ensures
        r == lower_char(c),
{
    if 'A' <= c && c <= 'Z' {
        let b = (c as u8) + 32;
        assert(b as char == ((c as u32) + 32) as char);
        b as char
    } else {
        c
    }
}

pub fn lower_exec(v: &[char]) -> (r: Vec<char>)
    ensures
        r@ == lower(v@),
{
    let mut r: Vec<char> = Vec::new();
    let mut i: usize = 0;
    while i < v.len()
        invariant
            i <= v@.len(),
            r@ == lower(v@.subrange(0, i as int)),
        decreases v@.len() - i,
    {
        r.push(lower_char_exec(v[i]));
        assert(lower(v@.subrange(0, i + 1)) =~= lower(v@.subrange(0, i as int)).push(
            lower_char(v@[i as int]),
        ));
        i = i + 1;
    }
    assert(v@.subrange(0, v@.len() as int) =~= v@);
    r
}

/// The character views of a list of buffers.
pub open spec fn views(v: Seq<Vec<char>>) -> Seq<Seq<char>> {
    v.map_values(|x: Vec<char>| x@)
}

pub proof fn lemma_views_push(v: Seq<Vec<char>>, x: Vec<char>)
    ensures
        views(v.push(x)) == views(v).push(x@),
{
    assert(views(v.push(x)) =~= views(v).push(x@));
}

/// Adds `c` to the front of the first piece.
pub open spec fn prepend_first(c: Seq<char>, pieces: Seq<Seq<char>>) -> Seq<Seq<char>> {
    pieces.update(0, c + pieces[0])
}

/// `str::split` with a character-set pattern: the pieces between separators,
/// empty ones included; always at least one piece.
pub open spec fn split_set(s: Seq<char>, k: CharSet) -> Seq<Seq<char>>
    decreases s.len(),
{
    if s.len() == 0 {
        seq![Seq::<char>::empty()]
    } else {
        let rest = split_set(s.drop_first(), k);
        if in_set(k, s[0]) {
            seq![Seq::<char>::empty()] + rest
        } else {
            prepend_first(seq![s[0]], rest)
        }
    }
}

/// `str::split` with a single-character pattern.
pub open spec fn split_char(s: Seq<char>, c: char) -> Seq<Seq<char>>
    decreases s.len(),
{
    if s.len() == 0 {
        seq![Seq::<char>::empty()]
    } else {
        let rest = split_char(s.drop_first(), c);
        if s[0] == c {
            seq![Seq::<char>::empty()] + rest
        } else {
            prepend_first(seq![s[0]], rest)
        }
    }
}

pub proof fn lemma_split_char_nonempty(s: Seq<char>, c: char)
    ensures
        split_char(s, c).len() >= 1,
    decreases s.len(),
{
    if s.len() > 0 {
        lemma_split_char_nonempty(s.drop_first(), c);
    }
}

/// What occurs in a slice of `s` occurs in `s`.
pub proof fn lemma_contains_sub(s: Seq<char>, a: int, b: int, p: Seq<char>)
    requires
        0 <= a <= b <= s.len(),
        contains(s.subrange(a, b), p),
    ensures
        contains(s, p),
{
    let t = s.subrange(a, b);
    let j = choose|j: int| occurs_at(t, p, j);
    assert(s.subrange(a + j, a + j + p.len()) =~= t.subrange(j, j + p.len()));
    assert(occurs_at(s, p, a + j));
}

/// Every piece of `split_char(s, c)` lies inside `s`: the first one is a
/// prefix of `s`, and what occurs in a piece occurs in `s`.
pub proof fn lemma_split_char_contains(s: Seq<char>, c: char, p: Seq<char>)
    ensures
        has_prefix(s, split_char(s, c)[0]),
        forall|i: int|
            0 <= i < split_char(s, c).len() && contains(#[trigger] split_char(s, c)[i], p)
                ==> contains(s, p),
    decreases s.len(),
{
    lemma_split_char_nonempty(s, c);
    let pieces = split_char(s, c);
    if s.len() == 0 {
        assert(pieces =~= seq![Seq::<char>::empty()]);
        assert(s.subrange(0, 0) =~= pieces[0]);
        assert forall|i: int| 0 <= i < pieces.len() && contains(#[trigger] pieces[i], p) implies contains(
            s,
            p,
        ) by {
            assert(s =~= pieces[0]);
        }
    } else {
        let d = s.drop_first();
        let rest = split_char(d, c);
        lemma_split_char_contains(d, c, p);
        lemma_split_char_nonempty(d, c);
        assert(d =~= s.subrange(1, s.len() as int));
        if s[0] == c {
            assert(pieces =~= seq![Seq::<char>::empty()] + rest);
            assert(s.subrange(0, 0) =~= pieces[0]);
            assert forall|i: int| 0 <= i < pieces.len() && contains(#[trigger] pieces[i], p) implies contains(
                s,
                p,
            ) by {
                if i == 0 {
                    let j = choose|j: int| occurs_at(pieces[0], p, j);
                    assert(p.len() == 0);
                    assert(s.subrange(0, 0) =~= p);
                    assert(occurs_at(s, p, 0));
                } else {
                    assert(pieces[i] == rest[i - 1]);
                    lemma_contains_sub(s, 1, s.len() as int, p);
                }
            }
        } else {
            assert(pieces =~= rest.update(0, seq![s[0]] + rest[0]));
            let r0 = rest[0];
            assert(d.subrange(0, r0.len() as int) == r0);
            assert(s.subrange(0, r0.len() as int + 1) =~= seq![s[0]] + r0);
            assert(pieces[0] == seq![s[0]] + r0);
            assert forall|i: int| 0 <= i < pieces.len() && contains(#[trigger] pieces[i], p) implies contains(
                s,
                p,
            ) by {
                if i == 0 {
                    lemma_contains_sub(s, 0, r0.len() as int + 1, p);
                } else {
                    assert(pieces[i] == rest[i]);
                    lemma_contains_sub(s, 1, s.len() as int, p);
                }
            }
        }
    }
}

/// `s` holds no character of `k`.
pub open spec fn free_of(s: Seq<char>, k: CharSet) -> bool {
    forall|i: int| 0 <= i < s.len() ==> !in_set(k, #[trigger] s[i])
}

/// A text without separators glues onto the first piece of what follows.
pub proof fn lemma_split_set_glue(a: Seq<char>, b: Seq<char>, k: CharSet)
    requires
        free_of(a, k),
    ensures
        split_set(a + b, k) == prepend_first(a, split_set(b, k)),
    decreases a.len(),
{
    lemma_split_set_nonempty(b, k);
    let p = split_set(b, k);
    if a.len() == 0 {
        assert(a + b =~= b);
        assert(p[0] =~= a + p[0]);
        assert(p =~= prepend_first(a, p));
    } else {
        let t = a.drop_first();
        assert((a + b).drop_first() =~= t + b);
        assert((a + b)[0] == a[0]);
        assert(free_of(t, k)) by {
            assert forall|i: int| 0 <= i < t.len() implies !in_set(k, #[trigger] t[i]) by {
                assert(t[i] == a[i + 1]);
            }
        }
        lemma_split_set_glue(t, b, k);
        lemma_split_set_nonempty(t + b, k);
        assert(seq![a[0]] + (t + p[0]) =~= a + p[0]);
        assert(prepend_first(seq![a[0]], prepend_first(t, p)) =~= prepend_first(a, p));
    }
}

/// A separator starts a new piece.
pub proof fn lemma_split_set_sep(c: char, b: Seq<char>, k: CharSet)
    requires
        in_set(k, c),
    ensures
        split_set(seq![c] + b, k) == seq![Seq::<char>::empty()] + split_set(b, k),
{
    assert((seq![c] + b).drop_first() =~= b);
    assert((seq![c] + b)[0] == c);
}

/// `a`, then a separator, then `b`, with no other separator, splits into `[a, b]`.
pub proof fn lemma_split_set_two(a: Seq<char>, c: char, b: Seq<char>, k: CharSet)
    requires
        free_of(a, k),
        free_of(b, k),
        in_set(k, c),
    ensures
        split_set(a + seq![c] + b, k) == seq![a, b],
{
    lemma_split_set_glue(b, Seq::<char>::empty(), k);
    assert(b + Seq::<char>::empty() =~= b);
    assert(split_set(Seq::<char>::empty(), k) =~= seq![Seq::<char>::empty()]);
    assert(split_set(b, k) =~= seq![b]);
    lemma_split_set_sep(c, b, k);
    assert(a + seq![c] + b =~= a + (seq![c] + b));
    lemma_split_set_glue(a, seq![c] + b, k);
    assert(seq![Seq::<char>::empty()] + seq![b] =~= seq![Seq::<char>::empty(), b]);
    assert(a + Seq::<char>::empty() =~= a);
    assert(prepend_first(a, seq![Seq::<char>::empty(), b]) =~= seq![a, b]);
}

/// `s` does not hold `c`.
pub open spec fn free_of_char(s: Seq<char>, c: char) -> bool {
    forall|i: int| 0 <= i < s.len() ==> #[trigger] s[i] != c
}

proof fn lemma_split_char_glue(a: Seq<char>, b: Seq<char>, c: char)
    requires
        free_of_char(a, c),
    ensures
        split_char(a + b, c) == prepend_first(a, split_char(b, c)),
    decreases a.len(),
{
    lemma_split_char_nonempty(b, c);
    let p = split_char(b, c);
    if a.len() == 0 {
        assert(a + b =~= b);
        assert(p[0] =~= a + p[0]);
        assert(p =~= prepend_first(a, p));
    } else {
        let t = a.drop_first();
        assert((a + b).drop_first() =~= t + b);
        assert((a + b)[0] == a[0]);
        assert(free_of_char(t, c)) by {
            assert forall|i: int| 0 <= i < t.len() implies #[trigger] t[i] != c by {
                assert(t[i] == a[i + 1]);
            }
        }
        lemma_split_char_glue(t, b, c);
        lemma_split_char_nonempty(t + b, c);
        assert(seq![a[0]] + (t + p[0]) =~= a + p[0]);
        assert(prepend_first(seq![a[0]], prepend_first(t, p)) =~= prepend_first(a, p));
    }
}

/// `a`, then `c`, then `b`, with no other `c`, splits at `c` into `[a, b]`.
pub proof fn lemma_split_char_two(a: Seq<char>, c: char, b: Seq<char>)
    requires
        free_of_char(a, c),
        free_of_char(b, c),
    ensures
        split_char(a + seq![c] + b, c) == seq![a, b],
{
    lemma_split_char_glue(b, Seq::<char>::empty(), c);
    assert(b + Seq::<char>::empty() =~= b);
    assert(split_char(Seq::<char>::empty(), c) =~= seq![Seq::<char>::empty()]);
    assert(split_char(b, c) =~= seq![b]);
    assert((seq![c] + b).drop_first() =~= b);
    assert((seq![c] + b)[0] == c);
    assert(a + seq![c] + b =~= a + (seq![c] + b));
    lemma_split_char_glue(a, seq![c] + b, c);
    assert(seq![Seq::<char>::empty()] + seq![b] =~= seq![Seq::<char>::empty(), b]);
    assert(a + Seq::<char>::empty() =~= a);
    assert(prepend_first(a, seq![Seq::<char>::empty(), b]) =~= seq![a, b]);
}

pub proof fn lemma_split_set_nonempty(s: Seq<char>, k: CharSet)
    ensures
        split_set(s, k).len() >= 1,
    decreases s.len(),
{
    if s.len() > 0 {
        lemma_split_set_nonempty(s.drop_first(), k);
    }
}

/// `str::split(c)` on a character buffer.
pub fn split_char_exec(v: &[char], c: char) -> (r: Vec<Vec<char>>)
    ensures
        views(r@) == split_char(v@, c),
{
    let mut done: Vec<Vec<char>> = Vec::new();
    let mut cur: Vec<char> = Vec::new();
    let mut i: usize = 0;
    proof {
        assert(v@.subrange(0, v@.len() as int) =~= v@);
        lemma_split_char_nonempty(v@, c);
        assert(prepend_first(cur@, split_char(v@, c)) =~= split_char(v@, c));
        assert(views(done@) =~= Seq::<Seq<char>>::empty());
        assert(views(done@) + split_char(v@, c) =~= split_char(v@, c));
    }
    while i < v.len()
        invariant
            i <= v@.len(),
            split_char(v@, c) == views(done@) + prepend_first(
                cur@,
                split_char(v@.subrange(i as int, v@.len() as int), c),
            ),
        decreases v@.len() - i,
    {
        let ghost rest = v@.subrange(i as int, v@.len() as int);
        let ghost tail = v@.subrange(i + 1, v@.len() as int);
        assert(rest.drop_first() =~= tail);
        proof {
            lemma_split_char_nonempty(tail, c);
        }
        if v[i] == c {
            proof {
                lemma_views_push(done@, cur);
                let p = split_char(tail, c);
                assert(prepend_first(cur@, seq![Seq::<char>::empty()] + p) =~= seq![cur@] + p);
                assert(prepend_first(Seq::<char>::empty(), p) =~= p);
                assert(views(done@) + (seq![cur@] + p) =~= views(done@).push(cur@) + p);
            }
            done.push(cur);
            cur = Vec::new();
            proof {
                assert(prepend_first(cur@, split_char(tail, c)) =~= split_char(tail, c));
            }
        } else {
            proof {
                let p = split_char(tail, c);
                assert(cur@ + (seq![v@[i as int]] + p[0]) =~= cur@.push(v@[i as int]) + p[0]);
                assert(prepend_first(cur@, prepend_first(seq![v@[i as int]], p)) =~= prepend_first(
                    cur@.push(v@[i as int]),
                    p,
                ));
            }
            cur.push(v[i]);
        }
        i = i + 1;
    }
    proof {
        lemma_views_push(done@, cur);
        assert(v@.subrange(i as int, v@.len() as int) =~= Seq::<char>::empty());
        assert(prepend_first(cur@, seq![Seq::<char>::empty()]) =~= seq![cur@]);
    }
    done.push(cur);
    done
}

/// `str::split` with a character-set pattern on a character buffer.
pub fn split_set_exec(v: &[char], k: CharSet) -> (r: Vec<Vec<char>>)
    ensures
        views(r@) == split_set(v@, k),
{
    let mut done: Vec<Vec<char>> = Vec::new();
    let mut cur: Vec<char> = Vec::new();
    let mut i: usize = 0;
    proof {
        assert(v@.subrange(0, v@.len() as int) =~= v@);
        lemma_split_set_nonempty(v@, k);
        assert(prepend_first(cur@, split_set(v@, k)) =~= split_set(v@, k));
        assert(views(done@) =~= Seq::<Seq<char>>::empty());
        assert(views(done@) + split_set(v@, k) =~= split_set(v@, k));
    }
    while i < v.len()
        invariant
            i <= v@.len(),
            split_set(v@, k) == views(done@) + prepend_first(
                cur@,
                split_set(v@.subrange(i as int, v@.len() as int), k),
            ),
        decreases v@.len() - i,
    {
        let ghost rest = v@.subrange(i as int, v@.len() as int);
        let ghost tail = v@.subrange(i + 1, v@.len() as int);
        assert(rest.drop_first() =~= tail);
        proof {
            lemma_split_set_nonempty(tail, k);
        }
        if in_set_exec(k, v[i]) {
            proof {
                lemma_views_push(done@, cur);
                let p = split_set(tail, k);
                assert(prepend_first(cur@, seq![Seq::<char>::empty()] + p) =~= seq![cur@] + p);
                assert(views(done@) + (seq![cur@] + p) =~= views(done@).push(cur@) + p);
            }
            done.push(cur);
            cur = Vec::new();
            proof {
                assert(prepend_first(cur@, split_set(tail, k)) =~= split_set(tail, k));
            }
        } else {
            proof {
                let p = split_set(tail, k);
                assert(cur@ + (seq![v@[i as int]] + p[0]) =~= cur@.push(v@[i as int]) + p[0]);
                assert(prepend_first(cur@, prepend_first(seq![v@[i as int]], p)) =~= prepend_first(
                    cur@.push(v@[i as int]),
                    p,
                ));
            }
            cur.push(v[i]);
        }
        i = i + 1;
    }
    proof {
        lemma_views_push(done@, cur);
        assert(v@.subrange(i as int, v@.len() as int) =~= Seq::<char>::empty());
        assert(prepend_first(cur@, seq![Seq::<char>::empty()]) =~= seq![cur@]);
    }
    done.push(cur);
    done
}

/// The non-empty pieces, in order.
pub open spec fn keep_nonempty(ps: Seq<Seq<char>>) -> Seq<Seq<char>>
    decreases ps.len(),
{
    if ps.len() == 0 {
        seq![]
    } else {
        let r = keep_nonempty(ps.drop_last());
        if ps.last().len() > 0 {
            r.push(ps.last())
        } else {
            r
        }
    }
}

/// `str::split_whitespace`.
pub open spec fn words(s: Seq<char>) -> Seq<Seq<char>> {
    keep_nonempty(split_set(s, CharSet::Space))
}

pub fn words_exec(v: &[char]) -> (r: Vec<Vec<char>>)
    ensures
        views(r@) == words(v@),
{
    let pieces = split_set_exec(v, CharSet::Space);
    let ghost ps = views(pieces@);
    let mut out: Vec<Vec<char>> = Vec::new();
    let mut i: usize = 0;
    while i < pieces.len()
        invariant
            i <= pieces@.len(),
            ps == views(pieces@),
            views(out@) == keep_nonempty(ps.take(i as int)),
        decreases pieces@.len() - i,
    {
        assert(ps.take(i + 1).drop_last() =~= ps.take(i as int));
        if pieces[i].len() > 0 {
            proof {
                lemma_views_push(out@, pieces@[i as int]);
            }
            out.push(slice_chars(pieces[i].as_slice(), 0, pieces[i].len()));
            assert(pieces@[i as int]@.subrange(0, pieces@[i as int]@.len() as int) =~= pieces@[i as int]@);
        }
        i = i + 1;
    }
    assert(ps.take(pieces@.len() as int) =~= ps);
    out
}

/// The ASCII digit for `d < 10`.
pub open spec fn digit_char(d: nat) -> char {
    (48 + d) as char
}

/// The decimal representation of `n`, as `u64`'s `Display` writes it.
pub open spec fn dec_seq(n: nat) -> Seq<char>
    decreases n,
{
    if n < 10 {
        seq![digit_char(n)]
    } else {
        dec_seq(n / 10).push(digit_char(n % 10))
    }
}

pub fn push_dec(n: u64, out: &mut Vec<char>)
    ensures
        final(out)@ == old(out)@ + dec_seq(n as nat),
    decreases n,
{
    if n >= 10 {
        push_dec(n / 10, out);
    }
    let d = (n % 10) as u8;
    out.push((48u8 + d) as char);
    proof {
        assert(dec_seq(n as nat) == (if n < 10 {
            seq![digit_char(n as nat)]
        } else {
            dec_seq((n / 10) as nat).push(digit_char((n % 10) as nat))
        }));
    }
}

pub open spec fn is_digit(c: char) -> bool {
    '0' <= c <= '9'
}

pub open spec fn digit_val(c: char) -> nat {
    ((c as u32) - 48) as nat
}

/// Value of a string of decimal digits.
pub open spec fn dec_value(s: Seq<char>) -> nat
    decreases s.len(),
{
    if s.len() == 0 {
        0
    } else {
        dec_value(s.drop_last()) * 10 + digit_val(s.last())
    }
}

pub open spec fn all_digits(s: Seq<char>) -> bool {
    forall|i: int| 0 <= i < s.len() ==> is_digit(#[trigger] s[i])
}

/// `str::parse::<u64>`: an optional `+`, then one or more decimal digits
/// whose value fits in `u64`.
pub open spec fn parse_u64(s: Seq<char>) -> Option<u64> {
    let d = if s.len() > 0 && s[0] == '+' {
        s.drop_first()
    } else {
        s
    };
    if d.len() == 0 || !all_digits(d) || dec_value(d) > u64::MAX {
        None
    } else {
        Some(dec_value(d) as u64)
    }
}

/// The decimal text of `n` is a non-empty run of digits whose value is `n`.
pub proof fn lemma_dec_seq_digits(n: nat)
    ensures
        dec_seq(n).len() > 0,
        forall|i: int| 0 <= i < dec_seq(n).len() ==> is_digit(#[trigger] dec_seq(n)[i]),
        dec_value(dec_seq(n)) == n,
    decreases n,
{
    let d = digit_char(n % 10);
    assert(d as u32 == 48 + n % 10);
    assert(digit_val(d) == n % 10);
    if n < 10 {
        assert(dec_seq(n).drop_last() =~= Seq::<char>::empty());
        assert(n % 10 == n);
        assert(dec_value(dec_seq(n)) == dec_value(Seq::<char>::empty()) * 10 + digit_val(d));
    } else {
        lemma_dec_seq_digits(n / 10);
        let s = dec_seq(n);
        let p = dec_seq(n / 10);
        assert(s.drop_last() =~= p);
        assert(s.last() == d);
        assert(dec_value(s) == dec_value(p) * 10 + digit_val(d));
        assert forall|i: int| 0 <= i < s.len() implies is_digit(#[trigger] s[i]) by {
            if i < p.len() {
                assert(s[i] == p[i]);
            }
        }
        assert((n / 10) * 10 + n % 10 == n);
    }
}

proof fn lemma_dec_value_prefix(s: Seq<char>, i: int)
    requires
        0 <= i <= s.len(),
    ensures
        dec_value(s.take(i)) <= dec_value(s),
    decreases s.len() - i,
{
    if i < s.len() {
        lemma_dec_value_prefix(s, i + 1);
        assert(s.take(i + 1).drop_last() =~= s.take(i));
    } else {
        assert(s.take(i) =~= s);
    }
}

pub fn parse_u64_exec(v: &[char]) -> (r: Option<u64>)
    ensures
        r == parse_u64(v@),
{
    let start: usize = if v.len() > 0 && v[0] == '+' {
        1
    } else {
        0
    };
    let d = slice_chars(v, start, v.len());
    assert(d@ =~= (if v@.len() > 0 && v@[0] == '+' {
        v@.drop_first()
    } else {
        v@
    }));
    assert(parse_u64(v@) == (if d@.len() == 0 || !all_digits(d@) || dec_value(d@) > u64::MAX {
        None
    } else {
        Some(dec_value(d@) as u64)
    }));
    if d.len() == 0 {
        return None;
    }
    let mut i: usize = 0;
    while i < d.len()
        invariant
            i <= d@.len(),
            d@.len() > 0,
            parse_u64(v@) == (if !all_digits(d@) || dec_value(d@) > u64::MAX {
                None
            } else {
                Some(dec_value(d@) as u64)
            }),
            forall|j: int| 0 <= j < i ==> is_digit(#[trigger] d@[j]),
        decreases d@.len() - i,
    {
        if !('0' <= d[i] && d[i] <= '9') {
            assert(!is_digit(d@[i as int]));
            return None;
        }
        i = i + 1;
    }
    assert(all_digits(d@));
    let mut acc: u64 = 0;
    let mut i: usize = 0;
    while i < d.len()
        invariant
            i <= d@.len(),
            all_digits(d@),
            parse_u64(v@) == (if dec_value(d@) > u64::MAX {
                None
            } else {
                Some(dec_value(d@) as u64)
            }),
            acc == dec_value(d@.take(i as int)),
        decreases d@.len() - i,
    {
        assert(d@.take(i + 1).drop_last() =~= d@.take(i as int));
        assert(is_digit(d@[i as int]));
        let dv = (d[i] as u32 - 48) as u64;
        assert(dec_value(d@.take(i + 1)) == acc * 10 + dv);
        match acc.checked_mul(10) {
            Some(m) => match m.checked_add(dv) {
                Some(n) => {
                    acc = n;
                },
                None => {
                    proof {
                        lemma_dec_value_prefix(d@, i + 1);
                    }
                    return None;
                },
            },
            None => {
                proof {
                    lemma_dec_value_prefix(d@, i + 1);
                }
                return None;
            },
        }
        i = i + 1;
    }
    assert(d@.take(d@.len() as int) =~= d@);
    Some(acc)
}

/// Appends the characters of `s`.
pub fn push_str(v: &mut Vec<char>, s: &str)
    ensures
        final(v)@ == old(v)@ + s@,
{
    let w = chars_of(s);
    push_all(v, &w);
}

/// Appends the characters of `w`.
pub fn push_all(v: &mut Vec<char>, w: &[char])
    ensures
        final(v)@ == old(v)@ + w@,
{
    let mut i: usize = 0;
    let ghost start = v@;
    while i < w.len()
        invariant
            i <= w@.len(),
            v@ == start + w@.take(i as int),
        decreases w@.len() - i,
    {
        v.push(w[i]);
        assert(v@ =~= start + w@.take(i + 1));
        i = i + 1;
    }
    assert(w@.take(w@.len() as int) =~= w@);
}

/// What trimming the end leaves does not end with a trimmed character.
pub proof fn lemma_trim_end_last(s: Seq<char>, k: CharSet)
    ensures
        trim_end(s, k).len() > 0 ==> !in_set(k, trim_end(s, k).last()),
    decreases s.len(),
{
    lemma_trail_len_bound(s, k);
    if s.len() > 0 && in_set(k, s.last()) {
        lemma_trim_end_last(s.drop_last(), k);
        lemma_trail_len_bound(s.drop_last(), k);
        assert(trim_end(s, k) =~= trim_end(s.drop_last(), k));
    }
}

/// What trimming the start leaves does not begin with a trimmed character.
pub proof fn lemma_trim_start_first(s: Seq<char>, k: CharSet)
    ensures
        trim_start(s, k).len() > 0 ==> !in_set(k, trim_start(s, k)[0]),
    decreases s.len(),
{
    lemma_lead_len_bound(s, k);
    if s.len() > 0 && in_set(k, s[0]) {
        lemma_trim_start_first(s.drop_first(), k);
        lemma_lead_len_bound(s.drop_first(), k);
        assert(trim_start(s, k) =~= trim_start(s.drop_first(), k));
    }
}

/// Trimming twice is trimming once.
pub proof fn lemma_trim_idempotent(s: Seq<char>, k: CharSet)
    ensures
        trim(trim(s, k), k) == trim(s, k),
{
    let u = trim_start(s, k);
    let t = trim_end(u, k);
    lemma_lead_len_bound(s, k);
    lemma_trail_len_bound(u, k);
    lemma_trim_start_first(s, k);
    lemma_trim_end_last(u, k);
    if t.len() > 0 {
        assert(t[0] == u[0]);
        assert(lead_len(t, k) == 0);
        assert(trim_start(t, k) =~= t);
        assert(trail_len(t, k) == 0);
        assert(trim_end(t, k) =~= t);
    } else {
        assert(trim_start(t, k) =~= t);
        assert(trim_end(t, k) =~= t);
    }
}

} // verus!
