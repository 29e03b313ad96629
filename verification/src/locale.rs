//! UI languages: naming, ordering and choosing the locale files.
use vstd::prelude::*;

use crate::text::{chars_eq, chars_of, has_suffix, slice_chars, string_of};

verus! {

broadcast use vstd::seq_lib::group_to_multiset_ensures;

/// A locale offered in the UI.
#[derive(Debug)]
pub struct LocaleInfo {
    pub id: String,
    pub name: String,
}

/// A loaded locale file: its id, display name and strings.
#[derive(Debug)]
pub struct LocaleFile {
    pub id: String,
    pub name: String,
    pub strings: std::collections::HashMap<String, String>,
}

impl View for LocaleInfo {
    type V = (Seq<char>, Seq<char>);

    open spec fn view(&self) -> (Seq<char>, Seq<char>) {
        (self.id@, self.name@)
    }
}

/// The locale id of a directory entry: the stem of a `<id>.json` file name.
/// The extension is what follows the last `.`, and a name whose only `.` is
/// its first character has none, so `.json` itself names no locale.
pub open spec fn locale_id(file_name: Seq<char>) -> Option<Seq<char>> {
    let ext = ".json"@;
    if has_suffix(file_name, ext) && file_name.len() > ext.len() {
        Some(file_name.subrange(0, file_name.len() - ext.len()))
    } else {
        None
    }
}

/// The locale id of a directory entry named `file_name`, when it is a `.json` file.
pub fn locale_id_from_path(file_name: &str) -> (r: Option<String>)
    ensures
        match r {
            Some(id) => locale_id(file_name@) == Some(id@),
            None => locale_id(file_name@) is None,
        },
{
    let v = chars_of(file_name);
    let ext = chars_of(".json");
    if v.len() > ext.len() && crate::text::ends_with(&v, &ext) {
        let stem = slice_chars(&v, 0, v.len() - ext.len());
        Some(string_of(&stem))
    } else {
        None
    }
}

/// The candidate files for a requested locale, in the order they are tried:
/// the requested one, then `zh`, then `en`, as `(file name, locale id)`.
pub fn locale_candidates(id: &str) -> (r: Vec<(String, String)>)
    ensures
        r@.len() == 3,
        r@[0].0@ == id@ + ".json"@ && r@[0].1@ == id@,
        r@[1].0@ == "zh.json"@ && r@[1].1@ == "zh"@,
        r@[2].0@ == "en.json"@ && r@[2].1@ == "en"@,
{
    let mut first = chars_of(id);
    let ext = chars_of(".json");
    crate::text::push_all(&mut first, &ext);
    let mut v: Vec<(String, String)> = Vec::new();
    v.push((string_of(&first), string_of(&chars_of(id))));
    v.push((string_of(&chars_of("zh.json")), string_of(&chars_of("zh"))));
    v.push((string_of(&chars_of("en.json")), string_of(&chars_of("en"))));
    v
}

/// The name shown for a locale: the file's `name`, or its id when that is empty.
pub fn locale_name(id: &str, manifest_name: &str) -> (r: String)
    ensures
        r@ == if manifest_name@.len() == 0 {
            id@
        } else {
            manifest_name@
        },
{
    if manifest_name.is_empty() {
        string_of(&chars_of(id))
    } else {
        string_of(&chars_of(manifest_name))
    }
}

/// `a` sorts before `b` as `str` does: by the first differing character's
/// code point (UTF-8 byte order and code point order agree), a proper prefix first.
pub open spec fn lex_lt(a: Seq<char>, b: Seq<char>) -> bool
    decreases a.len(),
{
    if a.len() == 0 {
        b.len() > 0
    } else if b.len() == 0 {
        false
    } else if a[0] != b[0] {
        (a[0] as u32) < (b[0] as u32)
    } else {
        lex_lt(a.drop_first(), b.drop_first())
    }
}

/// The locale order: `zh` first, the others by id.
pub open spec fn locale_lt(a: Seq<char>, b: Seq<char>) -> bool {
    if a == "zh"@ {
        b != "zh"@
    } else if b == "zh"@ {
        false
    } else {
        lex_lt(a, b)
    }
}

proof fn lemma_lex_irrefl(a: Seq<char>)
    ensures
        !lex_lt(a, a),
    decreases a.len(),
{
    if a.len() > 0 {
        lemma_lex_irrefl(a.drop_first());
    }
}

proof fn lemma_lex_trans(a: Seq<char>, b: Seq<char>, c: Seq<char>)
    requires
        lex_lt(a, b),
        lex_lt(b, c),
    ensures
        lex_lt(a, c),
    decreases a.len(),
{
    if a.len() > 0 && b.len() > 0 && c.len() > 0 {
        if a[0] == b[0] && b[0] == c[0] {
            lemma_lex_trans(a.drop_first(), b.drop_first(), c.drop_first());
        }
    }
}

proof fn lemma_lex_total(a: Seq<char>, b: Seq<char>)
    requires
        a != b,
    ensures
        lex_lt(a, b) || lex_lt(b, a),
    decreases a.len(),
{
    if a.len() > 0 && b.len() > 0 && a[0] == b[0] {
        if a.drop_first() == b.drop_first() {
            assert(a =~= seq![a[0]] + a.drop_first());
            assert(b =~= seq![b[0]] + b.drop_first());
        }
        lemma_lex_total(a.drop_first(), b.drop_first());
    } else if a.len() > 0 && b.len() > 0 {
        let x = a[0] as u32;
        let y = b[0] as u32;
        assert(x != y) by {
            if x == y {
                vstd::utf8::char_u32_cast(a[0], x);
                vstd::utf8::char_u32_cast(b[0], y);
                assert(a[0] == b[0]);
            }
        }
    } else if a.len() == 0 && b.len() == 0 {
        assert(a =~= b);
    }
}

proof fn lemma_locale_trans(a: Seq<char>, b: Seq<char>, c: Seq<char>)
    requires
        locale_lt(a, b),
        locale_lt(b, c),
    ensures
        locale_lt(a, c),
{
    if a != "zh"@ && b != "zh"@ && c != "zh"@ {
        lemma_lex_trans(a, b, c);
    }
}

proof fn lemma_locale_total(a: Seq<char>, b: Seq<char>)
    requires
        !locale_lt(a, b),
    ensures
        a == b || locale_lt(b, a),
{
    if a != b && a != "zh"@ && b != "zh"@ {
        lemma_lex_total(a, b);
    }
}

proof fn lemma_locale_irrefl(a: Seq<char>)
    ensures
        !locale_lt(a, a),
{
    lemma_lex_irrefl(a);
}

/// No locale sorts before one listed ahead of it.
pub open spec fn locales_sorted(s: Seq<(Seq<char>, Seq<char>)>) -> bool {
    forall|i: int, j: int| 0 <= i < j < s.len() ==> !locale_lt(s[j].0, s[i].0)
}

pub open spec fn info_views(v: Seq<LocaleInfo>) -> Seq<(Seq<char>, Seq<char>)> {
    v.map_values(|l: LocaleInfo| l@)
}

fn lex_lt_exec(a: &[char], b: &[char]) -> (r: bool)
    ensures
        r == lex_lt(a@, b@),
{
    let mut i: usize = 0;
    assert(a@.skip(0) =~= a@);
    assert(b@.skip(0) =~= b@);
    while i < a.len() && i < b.len() && a[i] == b[i]
        invariant
            i <= a@.len(),
            i <= b@.len(),
            lex_lt(a@, b@) == lex_lt(a@.skip(i as int), b@.skip(i as int)),
        decreases a@.len() - i,
    {
        assert(a@.skip(i as int).drop_first() =~= a@.skip(i + 1));
        assert(b@.skip(i as int).drop_first() =~= b@.skip(i + 1));
        i = i + 1;
    }
    if i == a.len() {
        assert(a@.skip(i as int).len() == 0);
        return i < b.len();
    }
    if i == b.len() {
        return false;
    }
    assert(a@.skip(i as int)[0] == a@[i as int]);
    assert(b@.skip(i as int)[0] == b@[i as int]);
    (a[i] as u32) < (b[i] as u32)
}

fn locale_lt_exec(a: &[char], b: &[char]) -> (r: bool)
    ensures
        r == locale_lt(a@, b@),
{
    let zh = chars_of("zh");
    if chars_eq(a, &zh) {
        !chars_eq(b, &zh)
    } else if chars_eq(b, &zh) {
        false
    } else {
        lex_lt_exec(a, b)
    }
}

fn lt_at(out: &Vec<LocaleInfo>, j: usize, xid: &[char]) -> (r: bool)
    requires
        j < out@.len(),
    ensures
        r == locale_lt(xid@, out@[j as int]@.0),
{
    let oid = chars_of(out[j].id.as_str());
    locale_lt_exec(xid, &oid)
}

/// Where `x` goes in the sorted `out`: after every locale it does not sort before.
fn insert_pos(out: &Vec<LocaleInfo>, xid: &[char]) -> (j: usize)
    ensures
        j <= out@.len(),
        forall|k: int| 0 <= k < j ==> !locale_lt(xid@, #[trigger] out@[k]@.0),
        j < out@.len() ==> locale_lt(xid@, out@[j as int]@.0),
{
    let mut j: usize = 0;
    while j < out.len() && !lt_at(out, j, xid)
        invariant
            j <= out@.len(),
            forall|k: int| 0 <= k < j ==> !locale_lt(xid@, #[trigger] out@[k]@.0),
        decreases out@.len() - j,
    {
        j = j + 1;
    }
    j
}

proof fn lemma_insert_sorted(ov: Seq<(Seq<char>, Seq<char>)>, j: int, xv: (Seq<char>, Seq<char>))
    requires
        locales_sorted(ov),
        0 <= j <= ov.len(),
        forall|k: int| 0 <= k < j ==> !locale_lt(xv.0, #[trigger] ov[k].0),
        j < ov.len() ==> locale_lt(xv.0, ov[j].0),
    ensures
        locales_sorted(ov.insert(j, xv)),
{
    let nv = ov.insert(j, xv);
    assert forall|a: int, b: int| 0 <= a < b < nv.len() implies !locale_lt(nv[b].0, nv[a].0) by {
        if a < j && b == j {
            assert(nv[a] == ov[a]);
        } else if a == j && b > j {
            assert(nv[b] == ov[b - 1]);
            if locale_lt(ov[b - 1].0, xv.0) {
                lemma_locale_trans(ov[b - 1].0, xv.0, ov[j].0);
                if j < b - 1 {
                } else {
                    lemma_locale_irrefl(ov[j].0);
                }
            }
        } else if a < j && b > j {
            assert(nv[a] == ov[a]);
            assert(nv[b] == ov[b - 1]);
        } else if a > j {
            assert(nv[a] == ov[a - 1]);
            assert(nv[b] == ov[b - 1]);
        } else {
            assert(nv[a] == ov[a]);
            assert(nv[b] == ov[b]);
        }
    }
}

proof fn lemma_insert_multiset<A>(s: Seq<A>, j: int, x: A)
    requires
        0 <= j <= s.len(),
    ensures
        s.insert(j, x).to_multiset() == s.to_multiset().insert(x),
{
    let t = s.insert(j, x);
    assert(t.remove(j) =~= s);
    assert(t[j] == x);
    assert(t.contains(x));
    assert(t.to_multiset().count(x) > 0);
    assert(s.to_multiset() == t.to_multiset().remove(x));
    assert(t.to_multiset() =~= s.to_multiset().insert(x));
}

/// Orders the locales with `zh` first and the rest by id.
pub fn sort_locales(locales: Vec<LocaleInfo>) -> (r: Vec<LocaleInfo>)
    ensures
        locales_sorted(info_views(r@)),
        info_views(r@).to_multiset() == info_views(locales@).to_multiset(),
{
    let mut out: Vec<LocaleInfo> = Vec::new();
    let mut rest = locales;
    let ghost input = info_views(rest@);
    assert(info_views(out@) =~= Seq::<(Seq<char>, Seq<char>)>::empty());
    assert(info_views(out@).to_multiset() =~= vstd::multiset::Multiset::empty());
    assert(info_views(out@).to_multiset().add(info_views(rest@).to_multiset()) =~= input.to_multiset());
    while rest.len() > 0
        invariant
            locales_sorted(info_views(out@)),
            info_views(out@).to_multiset().add(info_views(rest@).to_multiset())
                == input.to_multiset(),
        decreases rest@.len(),
    {
        let ghost before_rest = info_views(rest@);
        let x = rest.remove(0);
        proof {
            assert(before_rest.remove(0) =~= info_views(rest@));
            assert(before_rest[0] == x@);
            assert(info_views(rest@).to_multiset() == before_rest.to_multiset().remove(x@));
            assert(before_rest.to_multiset().count(x@) > 0) by {
                assert(before_rest.contains(x@));
            }
        }
        let xid = chars_of(x.id.as_str());
        let j = insert_pos(&out, &xid);
        let ghost ov = info_views(out@);
        let ghost xv = x@;
        out.insert(j, x);
        proof {
            assert(info_views(out@) =~= ov.insert(j as int, xv));
            lemma_insert_sorted(ov, j as int, xv);
            lemma_insert_multiset(ov, j as int, xv);
            assert(info_views(out@).to_multiset().add(info_views(rest@).to_multiset())
                =~= input.to_multiset());
        }
    }
    proof {
        assert(info_views(rest@) =~= Seq::<(Seq<char>, Seq<char>)>::empty());
        assert(info_views(out@).to_multiset().add(info_views(rest@).to_multiset())
            =~= info_views(out@).to_multiset());
    }
    out
}

} // verus!
