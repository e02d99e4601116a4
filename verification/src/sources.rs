//! Candidate sources beyond line-directive streams: `PATH` scans,
//! desktop-entry files and package-manager listings, with the builder that
//! configures which sources a session aggregates.

use vstd::prelude::*;

use crate::selection::{ascii_ci_eq, opt_str_view, views_of, ElemV, Element};
use crate::text::{
    find_char, find_char_exec, find_char_from, first_non_ws, is_white, is_white_exec, trim_bounds,
    trim_spec,
};

verus! {

broadcast use vstd::seq_lib::group_seq_properties;

// ----- small string helpers -----

/// Exact string equality, decided character by character.
#[verifier::loop_isolation(false)]
pub fn str_eq(a: &str, b: &str) -> (r: bool)
    ensures
        r == (a@ == b@),
{
    let la = a.unicode_len();
    let lb = b.unicode_len();
    if la != lb {
        proof {
            assert(a@ != b@);
        }
        return false;
    }
    let mut i: usize = 0;
    while i < la
        invariant
            i <= la,
            la == a@.len() == b@.len(),
            forall|t: int| 0 <= t < i ==> a@[t] == b@[t],
        decreases la - i,
    {
        if a.get_char(i) != b.get_char(i) {
            return false;
        }
        i = i + 1;
    }
    proof {
        assert(a@ =~= b@);
    }
    true
}

fn char_ci_eq(a: char, b: char) -> (r: bool)
    ensures
        r == ascii_ci_eq(a, b),
{
    let ua = a as u32;
    let ub = b as u32;
    let fa = if 65 <= ua && ua <= 90 {
        ua + 32
    } else {
        ua
    };
    let fb = if 65 <= ub && ub <= 90 {
        ub + 32
    } else {
        ub
    };
    fa == fb
}

/// Equality of two texts up to ASCII case, position by position.
pub open spec fn seq_ci_eq(a: Seq<char>, b: Seq<char>) -> bool {
    a.len() == b.len() && forall|i: int| 0 <= i < a.len() ==> ascii_ci_eq(#[trigger] a[i], b[i])
}

/// String equality up to ASCII case.
#[verifier::loop_isolation(false)]
pub fn str_ci_eq(a: &str, b: &str) -> (r: bool)
    ensures
        r == seq_ci_eq(a@, b@),
{
    let la = a.unicode_len();
    let lb = b.unicode_len();
    if la != lb {
        return false;
    }
    let mut i: usize = 0;
    while i < la
        invariant
            i <= la,
            la == a@.len() == b@.len(),
            forall|t: int| 0 <= t < i ==> ascii_ci_eq(#[trigger] a@[t], b@[t]),
        decreases la - i,
    {
        if !char_ci_eq(a.get_char(i), b.get_char(i)) {
            return false;
        }
        i = i + 1;
    }
    true
}

/// The needle occurs in the haystack as a contiguous run.
pub open spec fn has_substring(h: Seq<char>, n: Seq<char>) -> bool {
    exists|off: int|
        0 <= off && off + n.len() <= h.len() && #[trigger] h.subrange(off, off + n.len()) == n
}

/// Whether the needle occurs anywhere in the haystack.
#[verifier::loop_isolation(false)]
pub fn contains_str(hay: &str, needle: &str) -> (r: bool)
    ensures
        r == has_substring(hay@, needle@),
{
    let lh = hay.unicode_len();
    let ln = needle.unicode_len();
    if ln > lh {
        return false;
    }
    if ln == 0 {
        proof {
            assert(hay@.subrange(0int, 0int + needle@.len()) =~= needle@);
        }
        return true;
    }
    let mut off: usize = 0;
    while off <= lh - ln
        invariant
            off <= lh - ln + 1,
            ln <= lh,
            lh == hay@.len(),
            ln == needle@.len(),
            forall|o: int|
                0 <= o < off ==> #[trigger] hay@.subrange(o, o + needle@.len()) != needle@,
        decreases lh - ln - off + 1,
    {
        let mut t: usize = 0;
        let mut all = true;
        while t < ln && all
            invariant
                t <= ln,
                off + ln <= lh,
                lh == hay@.len(),
                ln == needle@.len(),
                all ==> forall|u: int| 0 <= u < t ==> hay@[off + u] == needle@[u],
                !all ==> hay@.subrange(off as int, off + needle@.len()) != needle@,
            decreases ln - t + if all { 1int } else { 0int },
        {
            if hay.get_char(off + t) != needle.get_char(t) {
                proof {
                    assert(hay@.subrange(off as int, off + needle@.len())[t as int] != needle@[t as int]);
                }
                all = false;
            } else {
                t = t + 1;
            }
        }
        if all {
            proof {
                assert(hay@.subrange(off as int, off + needle@.len()) =~= needle@);
            }
            return true;
        }
        off = off + 1;
    }
    proof {
        assert forall|o: int| 0 <= o && o + needle@.len() <= hay@.len() implies #[trigger] hay@
            .subrange(o, o + needle@.len()) != needle@ by {
            assert(o < off);
        }
    }
    false
}

// ----- splitting text into lines -----

/// A line with its terminator removed: the `\r` of a `\r\n` ending goes
/// too.
pub open spec fn strip_cr(l: Seq<char>) -> Seq<char> {
    if l.len() > 0 && l.last() == '\r' {
        l.drop_last()
    } else {
        l
    }
}

/// The lines of the text from position `i` on: split at `\n`, each line
/// stripped of a trailing `\r`; a last line without a terminator is kept
/// as it stands.
pub open spec fn spec_split_lines(s: Seq<char>, i: int) -> Seq<Seq<char>>
    decreases s.len() - i,
{
    if i < 0 || i >= s.len() {
        Seq::empty()
    } else {
        let e = find_char(s, '\n', i);
        if e < i || e >= s.len() {
            seq![s.subrange(i, s.len() as int)]
        } else {
            seq![strip_cr(s.subrange(i, e))] + spec_split_lines(s, e + 1)
        }
    }
}

pub open spec fn line_views(ls: Seq<String>) -> Seq<Seq<char>> {
    ls.map_values(|l: String| l@)
}

/// Splits text into lines as `spec_split_lines` describes.
#[verifier::loop_isolation(false)]
pub fn split_lines(content: &str) -> (r: Vec<String>)
    ensures
        line_views(r@) == spec_split_lines(content@, 0),
{
    let ghost s = content@;
    let len = content.unicode_len();
    let mut out: Vec<String> = Vec::new();
    proof {
        assert(line_views(out@) =~= Seq::<Seq<char>>::empty());
    }
    let mut cur: usize = 0;
    while cur < len
        invariant
            cur <= len,
            len == s.len(),
            line_views(out@) + spec_split_lines(s, cur as int) =~= spec_split_lines(s, 0),
        decreases len - cur,
    {
        let ghost before = line_views(out@);
        let e = find_char_from(content, '\n', cur);
        if e >= len {
            let line = String::from_str(content.substring_char(cur, len));
            out.push(line);
            proof {
                assert(line_views(out@) =~= before.push(s.subrange(cur as int, len as int)));
                assert(spec_split_lines(s, cur as int) =~= seq![
                    s.subrange(cur as int, len as int),
                ]);
            }
            cur = len;
        } else {
            let raw_end = if e > cur && content.get_char(e - 1) == '\r' {
                e - 1
            } else {
                e
            };
            let line = String::from_str(content.substring_char(cur, raw_end));
            out.push(line);
            proof {
                assert(line@ =~= strip_cr(s.subrange(cur as int, e as int)));
                assert(line_views(out@) =~= before.push(strip_cr(s.subrange(cur as int, e as int))));
                assert(spec_split_lines(s, cur as int) =~= seq![
                    strip_cr(s.subrange(cur as int, e as int)),
                ] + spec_split_lines(s, e + 1));
            }
            cur = e + 1;
        }
    }
    out
}

// ----- ordering candidates by name -----

/// Lexicographic order on text, decided from position `i` on.
pub open spec fn lex_le_from(a: Seq<char>, b: Seq<char>, i: int) -> bool
    decreases a.len() - i,
{
    if i < 0 || i >= a.len() {
        true
    } else if i >= b.len() {
        false
    } else if (a[i] as int) < (b[i] as int) {
        true
    } else if (a[i] as int) > (b[i] as int) {
        false
    } else {
        lex_le_from(a, b, i + 1)
    }
}

/// Lexicographic order on text by code point.
pub open spec fn lex_le(a: Seq<char>, b: Seq<char>) -> bool {
    lex_le_from(a, b, 0)
}

proof fn lemma_lex_total_from(a: Seq<char>, b: Seq<char>, i: int)
    ensures
        lex_le_from(a, b, i) || lex_le_from(b, a, i),
    decreases a.len() - i,
{
    if 0 <= i && i < a.len() && i < b.len() && a[i] == b[i] {
        lemma_lex_total_from(a, b, i + 1);
    }
}

pub proof fn lemma_lex_total(a: Seq<char>, b: Seq<char>)
    ensures
        lex_le(a, b) || lex_le(b, a),
{
    lemma_lex_total_from(a, b, 0);
}

proof fn lemma_lex_trans_from(a: Seq<char>, b: Seq<char>, c: Seq<char>, i: int)
    requires
        lex_le_from(a, b, i),
        lex_le_from(b, c, i),
    ensures
        lex_le_from(a, c, i),
    decreases a.len() - i,
{
    if 0 <= i && i < a.len() {
        if i < b.len() && a[i] == b[i] && i < c.len() && b[i] == c[i] {
            lemma_lex_trans_from(a, b, c, i + 1);
        }
    }
}

pub proof fn lemma_lex_trans(a: Seq<char>, b: Seq<char>, c: Seq<char>)
    requires
        lex_le(a, b),
        lex_le(b, c),
    ensures
        lex_le(a, c),
{
    lemma_lex_trans_from(a, b, c, 0);
}

/// Decides the lexicographic order of two strings.
#[verifier::loop_isolation(false)]
pub fn str_lex_le(a: &str, b: &str) -> (r: bool)
    ensures
        r == lex_le(a@, b@),
{
    let la = a.unicode_len();
    let lb = b.unicode_len();
    let mut i: usize = 0;
    loop
        invariant
            i <= la,
            la == a@.len(),
            lb == b@.len(),
            lex_le_from(a@, b@, 0) == lex_le_from(a@, b@, i as int),
        decreases la - i,
    {
        if i >= la {
            return true;
        }
        if i >= lb {
            return false;
        }
        let ca = a.get_char(i) as u32;
        let cb = b.get_char(i) as u32;
        if ca < cb {
            return true;
        }
        if ca > cb {
            return false;
        }
        i = i + 1;
    }
}

/// Some candidate in the list carries the given name.
pub open spec fn name_present(es: Seq<Element>, n: Seq<char>) -> bool {
    exists|t: int| 0 <= t < es.len() && (#[trigger] es[t])@.name == n
}

/// The first index at or after `i` whose candidate has the given name.
pub open spec fn first_elem_idx(es: Seq<Element>, n: Seq<char>, i: int) -> int
    decreases es.len() - i,
{
    if i < 0 || i >= es.len() {
        es.len() as int
    } else if es[i]@.name == n {
        i
    } else {
        first_elem_idx(es, n, i + 1)
    }
}

proof fn lemma_first_elem_idx_step(es: Seq<Element>, n: Seq<char>, i: int, j: int)
    requires
        0 <= i <= j <= es.len(),
        forall|t: int| i <= t < j ==> (#[trigger] es[t])@.name != n,
    ensures
        first_elem_idx(es, n, i) == first_elem_idx(es, n, j),
    decreases j - i,
{
    if i < j {
        lemma_first_elem_idx_step(es, n, i + 1, j);
    }
}

/// `e` is the first candidate of its name in `es`.
pub open spec fn is_first_of_name(es: Seq<Element>, e: Element) -> bool {
    first_elem_idx(es, e@.name, 0) < es.len() && es[first_elem_idx(es, e@.name, 0)] == e
}

proof fn lemma_first_elem_idx_views(es: Seq<Element>, n: Seq<char>, i: int)
    requires
        0 <= i <= es.len(),
    ensures
        first_elem_idx(es, n, i) == crate::selection::first_name_idx(views_of(es), n, i),
        i <= first_elem_idx(es, n, i) <= es.len(),
    decreases es.len() - i,
{
    if 0 <= i < es.len() && es[i]@.name != n {
        lemma_first_elem_idx_views(es, n, i + 1);
    }
}

/// One candidate per name, in name order: for each name the first
/// occurrence in the input is kept, and the result is sorted by name.
#[verifier::loop_isolation(false)]
pub fn dedup_elements_by_name(v: &Vec<Element>) -> (r: Vec<Element>)
    ensures
        forall|t: int| 0 <= t < r@.len() ==> v@.contains(#[trigger] r@[t]),
        forall|t: int| 0 <= t < r@.len() ==> is_first_of_name(v@, #[trigger] r@[t]),
        forall|t: int, u: int| 0 <= t < u < r@.len() ==> r@[t]@.name != r@[u]@.name,
        forall|i: int|
            0 <= i < v@.len() ==> name_present(r@, (#[trigger] v@[i])@.name),
        forall|t: int, u: int| 0 <= t < u < r@.len() ==> lex_le(r@[t]@.name, r@[u]@.name),
{
    let n = v.len();
    let mut out: Vec<Element> = Vec::new();
    let mut i: usize = 0;
    while i < n
        invariant
            i <= n,
            n == v@.len(),
            forall|t: int| 0 <= t < out@.len() ==> v@.contains(#[trigger] out@[t]),
            forall|t: int| 0 <= t < out@.len() ==> is_first_of_name(v@, #[trigger] out@[t]),
            forall|t: int, u: int| 0 <= t < u < out@.len() ==> out@[t]@.name != out@[u]@.name,
            forall|i0: int|
                0 <= i0 < i ==> name_present(out@, (#[trigger] v@[i0])@.name),
            forall|t: int, u: int| 0 <= t < u < out@.len() ==> lex_le(out@[t]@.name, out@[u]@.name),
        decreases n - i,
    {
        let mut t: usize = 0;
        let mut found = false;
        while t < out.len() && !found
            invariant
                t <= out@.len(),
                !found ==> forall|u: int| 0 <= u < t ==> (#[trigger] out@[u])@.name != v@[i as int]@.name,
                found ==> name_present(out@, v@[i as int]@.name),
            decreases out@.len() - t + if found { 0int } else { 1int },
        {
            if str_eq(out[t].name.as_str(), v[i].name.as_str()) {
                found = true;
            } else {
                t = t + 1;
            }
        }
        if !found {
            let e = v[i].clone();
            let mut k: usize = 0;
            while k < out.len() && str_lex_le(out[k].name.as_str(), e.name.as_str())
                invariant
                    k <= out@.len(),
                    e == v@[i as int],
                    forall|u: int| 0 <= u < k ==> lex_le((#[trigger] out@[u])@.name, e@.name),
                decreases out@.len() - k,
            {
                k = k + 1;
            }
            let ghost ob = out@;
            proof {
                if (k as int) < ob.len() {
                    lemma_lex_total(ob[k as int]@.name, e@.name);
                }
                assert forall|u: int| k <= u < ob.len() implies lex_le(
                    e@.name,
                    (#[trigger] ob[u])@.name,
                ) by {
                    if u > k {
                        lemma_lex_trans(e@.name, ob[k as int]@.name, ob[u]@.name);
                    }
                }
            }
            out.insert(k, e);
            proof {
                assert(v@.contains(v@[i as int]));
                assert forall|k2: int| 0 <= k2 < i implies (#[trigger] v@[k2])@.name
                    != v@[i as int]@.name by {
                    assert(name_present(ob, v@[k2]@.name));
                    let u0 = choose|u: int|
                        0 <= u < ob.len() && (#[trigger] ob[u])@.name == v@[k2]@.name;
                }
                lemma_first_elem_idx_step(v@, v@[i as int]@.name, 0, i as int);
                assert(is_first_of_name(v@, v@[i as int]));
                ob.insert_ensures(k as int, v@[i as int]);
                assert forall|t2: int| 0 <= t2 < out@.len() implies (#[trigger] out@[t2]) == if t2
                    < k {
                    ob[t2]
                } else if t2 == k {
                    v@[i as int]
                } else {
                    ob[t2 - 1]
                } by {
                    if t2 > k {
                        assert(out@[t2] == ob[t2 - 1]);
                    }
                }
                assert forall|i0: int|
                    0 <= i0 < i + 1 implies name_present(out@, (#[trigger] v@[i0])@.name) by {
                    if i0 == i {
                        assert(out@[k as int]@.name == v@[i0]@.name);
                    } else {
                        assert(name_present(ob, v@[i0]@.name));
                        let t0 = choose|t2: int|
                            0 <= t2 < ob.len() && (#[trigger] ob[t2])@.name == v@[i0]@.name;
                        if t0 < k {
                            assert(out@[t0]@.name == v@[i0]@.name);
                        } else {
                            assert(out@[t0 + 1]@.name == v@[i0]@.name);
                        }
                    }
                }
            }
        } else {
            proof {
                assert forall|i0: int|
                    0 <= i0 < i + 1 implies name_present(out@, (#[trigger] v@[i0])@.name) by {
                }
            }
        }
        i = i + 1;
    }
    out
}

// ----- the PATH source -----

/// The candidates a `PATH` scan yields before ordering: each visible name
/// (dot-files only when hidden files are enabled), the name being both
/// display text and command.
pub open spec fn spec_path_candidates(ns: Seq<Seq<char>>, show_hidden: bool, j: int, acc: Seq<ElemV>) -> Seq<ElemV>
    decreases ns.len() - j,
{
    if j < 0 || j >= ns.len() {
        acc
    } else {
        let n = ns[j];
        if !show_hidden && n.len() > 0 && n[0] == '.' {
            spec_path_candidates(ns, show_hidden, j + 1, acc)
        } else {
            spec_path_candidates(
                ns,
                show_hidden,
                j + 1,
                acc.push(ElemV { name: n, value: n, base_score: 0 }),
            )
        }
    }
}

/// Turns the executable names found on the `PATH` into candidates:
/// dot-files are dropped unless hidden files are enabled, one candidate
/// per name (first occurrence wins), sorted by name.
#[verifier::loop_isolation(false)]
pub fn path_elements(names: &Vec<String>, show_hidden: bool) -> (r: Vec<Element>)
    ensures
        forall|t: int|
            0 <= t < r@.len() ==> spec_path_candidates(
                line_views(names@),
                show_hidden,
                0,
                Seq::empty(),
            ).contains((#[trigger] r@[t])@),
        forall|t: int|
            0 <= t < r@.len() ==> (#[trigger] r@[t])@ == spec_path_candidates(
                line_views(names@),
                show_hidden,
                0,
                Seq::empty(),
            )[crate::selection::first_name_idx(
                spec_path_candidates(line_views(names@), show_hidden, 0, Seq::empty()),
                r@[t]@.name,
                0,
            )],
        forall|t: int, u: int| 0 <= t < u < r@.len() ==> r@[t]@.name != r@[u]@.name,
        forall|i: int|
            #![trigger spec_path_candidates(line_views(names@), show_hidden, 0, Seq::empty())[i]]
            0 <= i < spec_path_candidates(line_views(names@), show_hidden, 0, Seq::empty()).len()
                ==> name_present(
                r@,
                spec_path_candidates(line_views(names@), show_hidden, 0, Seq::empty())[i].name,
            ),
        forall|t: int, u: int| 0 <= t < u < r@.len() ==> lex_le(r@[t]@.name, r@[u]@.name),
{
    let ghost nv = line_views(names@);
    let mut cand: Vec<Element> = Vec::new();
    proof {
        assert(views_of(cand@) =~= Seq::<ElemV>::empty());
    }
    let mut j: usize = 0;
    while j < names.len()
        invariant
            j <= names.len(),
            nv == line_views(names@),
            spec_path_candidates(nv, show_hidden, j as int, views_of(cand@))
                == spec_path_candidates(nv, show_hidden, 0, Seq::empty()),
        decreases names.len() - j,
    {
        let ghost acc0 = views_of(cand@);
        let name = &names[j];
        let nlen = name.as_str().unicode_len();
        let dotted = nlen > 0 && name.as_str().get_char(0) == '.';
        if show_hidden || !dotted {
            let nm = name.clone();
            let vl = name.clone();
            cand.push(Element { name: nm, value: vl, base_score: 0 });
            proof {
                assert(views_of(cand@) =~= acc0.push(
                    ElemV { name: nv[j as int], value: nv[j as int], base_score: 0 },
                ));
            }
        }
        j = j + 1;
    }
    let out = dedup_elements_by_name(&cand);
    proof {
        let cv = spec_path_candidates(nv, show_hidden, 0, Seq::empty());
        assert(views_of(cand@) == cv);
        assert forall|t: int| 0 <= t < out@.len() implies cv.contains(
            (#[trigger] out@[t])@,
        ) by {
            assert(cand@.contains(out@[t]));
            let i0 = choose|i: int| 0 <= i < cand@.len() && cand@[i] == out@[t];
            assert(cv[i0] == out@[t]@);
        }
        assert forall|t: int| 0 <= t < out@.len() implies (#[trigger] out@[t])@
            == cv[crate::selection::first_name_idx(cv, out@[t]@.name, 0)] by {
            assert(is_first_of_name(cand@, out@[t]));
            let fi = first_elem_idx(cand@, out@[t]@.name, 0);
            lemma_first_elem_idx_views(cand@, out@[t]@.name, 0);
            assert(cand@[fi] == out@[t]);
            assert(views_of(cand@)[fi] == cand@[fi]@);
        }
        assert forall|i: int| #![trigger cv[i]] 0 <= i < cv.len() implies name_present(
            out@,
            cv[i].name,
        ) by {
            assert(cand@[i]@ == cv[i]);
            assert(name_present(out@, cand@[i]@.name));
        }
    }
    out
}

// ----- package-manager listings -----

/// The first position at or after `i` holding a whitespace character.
pub open spec fn first_ws(s: Seq<char>, i: int) -> int
    decreases s.len() - i,
{
    if i < 0 || i >= s.len() {
        s.len() as int
    } else if is_white(s[i]) {
        i
    } else {
        first_ws(s, i + 1)
    }
}

/// The first whitespace-separated token of a line; empty when the line is
/// blank.
pub open spec fn spec_first_token(l: Seq<char>) -> Seq<char> {
    let a = first_non_ws(l, 0);
    let e = first_ws(l, a);
    if 0 <= a <= e <= l.len() {
        l.subrange(a, e)
    } else {
        Seq::empty()
    }
}

/// The candidates in a snap listing from line `j` on: the first column of
/// each line, skipping blank lines, `core*` snaps and `snapd`.
pub open spec fn spec_snap_at(ls: Seq<Seq<char>>, j: int, acc: Seq<ElemV>) -> Seq<ElemV>
    decreases ls.len() - j,
{
    if j < 0 || j >= ls.len() {
        acc
    } else {
        let tok = spec_first_token(ls[j]);
        if tok.len() == 0 {
            spec_snap_at(ls, j + 1, acc)
        } else if (tok.len() >= 4 && tok.subrange(0, 4) == "core"@) || tok == "snapd"@ {
            spec_snap_at(ls, j + 1, acc)
        } else {
            spec_snap_at(ls, j + 1, acc.push(ElemV { name: tok, value: tok, base_score: 0 }))
        }
    }
}

/// What a snap listing contributes: its header line is skipped, then one
/// candidate per package name.
pub open spec fn spec_snap_elems(s: Seq<char>) -> Seq<ElemV> {
    spec_snap_at(spec_split_lines(s, 0), 1, Seq::empty())
}

/// Parses the tabular output of a snap listing into candidates.
#[verifier::loop_isolation(false)]
pub fn snap_elements(stdout: &str) -> (r: Vec<Element>)
    ensures
        views_of(r@) == spec_snap_elems(stdout@),
{
    let lines = split_lines(stdout);
    let ghost lv = line_views(lines@);
    let mut out: Vec<Element> = Vec::new();
    proof {
        assert(views_of(out@) =~= Seq::<ElemV>::empty());
    }
    let mut j: usize = 1;
    while j < lines.len()
        invariant
            1 <= j,
            j <= lines.len() || j == 1,
            lv == line_views(lines@),
            spec_snap_at(lv, j as int, views_of(out@)) == spec_snap_at(lv, 1, Seq::empty()),
        decreases lines.len() - j,
    {
        let ghost acc0 = views_of(out@);
        let line = lines[j].as_str();
        let ghost l = line@;
        let llen = line.unicode_len();
        let mut a: usize = 0;
        while a < llen && is_white_exec(line.get_char(a))
            invariant
                a <= llen,
                llen == l.len(),
                first_non_ws(l, 0) == first_non_ws(l, a as int),
            decreases llen - a,
        {
            a = a + 1;
        }
        proof {
            assert(first_non_ws(l, 0) == a as int);
        }
        let mut e: usize = a;
        while e < llen && !is_white_exec(line.get_char(e))
            invariant
                a <= e <= llen,
                llen == l.len(),
                first_ws(l, a as int) == first_ws(l, e as int),
            decreases llen - e,
        {
            e = e + 1;
        }
        proof {
            assert(first_ws(l, a as int) == e as int);
        }
        let tok = line.substring_char(a, e);
        let toklen = e - a;
        if toklen == 0 {
        } else if (toklen >= 4 && str_eq(tok.substring_char(0, 4), "core")) || str_eq(
            tok,
            "snapd",
        ) {
        } else {
            let name = String::from_str(tok);
            let value = String::from_str(tok);
            out.push(Element { name, value, base_score: 0 });
            proof {
                assert(views_of(out@) =~= acc0.push(
                    ElemV {
                        name: spec_first_token(l),
                        value: spec_first_token(l),
                        base_score: 0,
                    },
                ));
            }
        }
        j = j + 1;
    }
    out
}

/// The position of the last `.` strictly before `j`, or `-1`.
pub open spec fn rfind_dot(s: Seq<char>, j: int) -> int
    decreases j,
{
    if j <= 0 || j > s.len() {
        -1
    } else if s[j - 1] == '.' {
        j - 1
    } else {
        rfind_dot(s, j - 1)
    }
}

/// The candidate one line of a flatpak listing declares: the line is split
/// on tabs into the application id and its display name; the display name
/// (or, when blank, the id's last dot-separated segment) names a
/// candidate that runs the application by id.
pub open spec fn spec_flatpak_line(l: Seq<char>) -> Option<ElemV> {
    let p1 = find_char(l, '\t', 0);
    if p1 < 0 || p1 >= l.len() {
        None
    } else {
        let part0 = l.subrange(0, p1);
        let p2raw = find_char(l, '\t', p1 + 1);
        let p2 = if p1 + 1 <= p2raw <= l.len() {
            p2raw
        } else {
            l.len() as int
        };
        let part1 = l.subrange(p1 + 1, p2);
        let app_id = trim_spec(part0);
        let disp = trim_spec(part1);
        if app_id.len() == 0 {
            None
        } else {
            let d = rfind_dot(app_id, app_id.len() as int);
            let name = if disp.len() > 0 {
                disp
            } else if 0 <= d < app_id.len() {
                app_id.subrange(d + 1, app_id.len() as int)
            } else {
                app_id
            };
            Some(ElemV { name, value: "flatpak run "@ + app_id, base_score: 0 })
        }
    }
}

pub open spec fn spec_flatpak_at(ls: Seq<Seq<char>>, j: int, acc: Seq<ElemV>) -> Seq<ElemV>
    decreases ls.len() - j,
{
    if j < 0 || j >= ls.len() {
        acc
    } else {
        match spec_flatpak_line(ls[j]) {
            None => spec_flatpak_at(ls, j + 1, acc),
            Some(e) => spec_flatpak_at(ls, j + 1, acc.push(e)),
        }
    }
}

/// What a flatpak listing contributes: one candidate per application row.
pub open spec fn spec_flatpak_elems(s: Seq<char>) -> Seq<ElemV> {
    spec_flatpak_at(spec_split_lines(s, 0), 0, Seq::empty())
}

/// Parses the tabular output of a flatpak listing into candidates.
#[verifier::loop_isolation(false)]
pub fn flatpak_elements(stdout: &str) -> (r: Vec<Element>)
    ensures
        views_of(r@) == spec_flatpak_elems(stdout@),
{
    let lines = split_lines(stdout);
    let ghost lv = line_views(lines@);
    let mut out: Vec<Element> = Vec::new();
    proof {
        assert(views_of(out@) =~= Seq::<ElemV>::empty());
    }
    let mut j: usize = 0;
    while j < lines.len()
        invariant
            j <= lines.len(),
            lv == line_views(lines@),
            spec_flatpak_at(lv, j as int, views_of(out@)) == spec_flatpak_at(lv, 0, Seq::empty()),
        decreases lines.len() - j,
    {
        let ghost acc0 = views_of(out@);
        let line = lines[j].as_str();
        let ghost l = line@;
        let llen = line.unicode_len();
        let p1 = find_char_exec(line, '\t');
        if p1 < llen {
            let part0 = line.substring_char(0, p1);
            let p2 = find_char_from(line, '\t', p1 + 1);
            let part1 = line.substring_char(p1 + 1, p2);
            let ab = trim_bounds(part0);
            let app_id = part0.substring_char(ab.0, ab.1);
            let db = trim_bounds(part1);
            let disp = part1.substring_char(db.0, db.1);
            let alen = ab.1 - ab.0;
            if alen > 0 {
                let mut d: usize = alen;
                while d > 0 && app_id.get_char(d - 1) != '.'
                    invariant
                        d <= alen,
                        alen == app_id@.len(),
                        rfind_dot(app_id@, alen as int) == rfind_dot(app_id@, d as int),
                    decreases d,
                {
                    d = d - 1;
                }
                let dlen = disp.unicode_len();
                let name_slice = if dlen > 0 {
                    disp
                } else {
                    app_id.substring_char(d, alen)
                };
                let name = String::from_str(name_slice);
                let value = String::from_str("flatpak run ").concat(app_id);
                out.push(Element { name, value, base_score: 0 });
                proof {
                    assert(part0@ == l.subrange(0, p1 as int));
                    assert(app_id@ == trim_spec(part0@));
                    assert(disp@ == trim_spec(part1@));
                    assert(value@ == "flatpak run "@ + app_id@);
                    if d == 0 {
                        assert(rfind_dot(app_id@, 0) == -1);
                        assert(app_id@.subrange(0, alen as int) =~= app_id@);
                    } else {
                        assert(app_id@[d - 1] == '.');
                        assert(rfind_dot(app_id@, d as int) == d - 1);
                    }
                    assert(spec_flatpak_line(l) == Some(
                        ElemV { name: name@, value: value@, base_score: 0 },
                    ));
                    assert(views_of(out@) =~= acc0.push(
                        ElemV { name: name@, value: value@, base_score: 0 },
                    ));
                }
            }
        }
        j = j + 1;
    }
    out
}

// ----- desktop-entry files -----

/// The fields gathered while scanning a desktop-entry file.
pub struct DeskState {
    pub in_entry: bool,
    pub name: Option<Seq<char>>,
    pub exec_cmd: Option<Seq<char>>,
    pub hidden: bool,
    pub no_display: bool,
    pub app_type: Option<Seq<char>>,
}

/// The initial scan state: outside any section, nothing seen.
pub open spec fn desk_init() -> DeskState {
    DeskState {
        in_entry: false,
        name: None,
        exec_cmd: None,
        hidden: false,
        no_display: false,
        app_type: None,
    }
}

/// One line folded into the scan state: section headers switch the
/// `[Desktop Entry]` flag, and inside that section the recognized
/// `KEY=VALUE` lines are recorded.
pub open spec fn desk_step(st: DeskState, line: Seq<char>) -> DeskState {
    let l = trim_spec(line);
    if l == "[Desktop Entry]"@ {
        DeskState { in_entry: true, ..st }
    } else if l.len() >= 1 && l[0] == '[' && l[l.len() - 1] == ']' {
        DeskState { in_entry: false, ..st }
    } else if !st.in_entry {
        st
    } else {
        let p = find_char(l, '=', 0);
        if p < 0 || p >= l.len() {
            st
        } else {
            let key = l.subrange(0, p);
            let value = l.subrange(p + 1, l.len() as int);
            if key == "Name"@ {
                DeskState { name: Some(value), ..st }
            } else if key == "Exec"@ {
                DeskState { exec_cmd: Some(value), ..st }
            } else if key == "Hidden"@ {
                DeskState { hidden: seq_ci_eq(value, "true"@), ..st }
            } else if key == "NoDisplay"@ {
                DeskState { no_display: seq_ci_eq(value, "true"@), ..st }
            } else if key == "Type"@ {
                DeskState { app_type: Some(value), ..st }
            } else {
                st
            }
        }
    }
}

pub open spec fn desk_scan(ls: Seq<Seq<char>>, j: int, st: DeskState) -> DeskState
    decreases ls.len() - j,
{
    if j < 0 || j >= ls.len() {
        st
    } else {
        desk_scan(ls, j + 1, desk_step(st, ls[j]))
    }
}

/// The launch field codes removed: every `%` followed by the given letter
/// goes, scanning left to right.
pub open spec fn remove_code_at(s: Seq<char>, c2: char, i: int, acc: Seq<char>) -> Seq<char>
    decreases s.len() - i,
{
    if i < 0 || i >= s.len() {
        acc
    } else if i + 1 < s.len() && s[i] == '%' && s[i + 1] == c2 {
        remove_code_at(s, c2, i + 2, acc)
    } else {
        remove_code_at(s, c2, i + 1, acc.push(s[i]))
    }
}

pub open spec fn remove_code(s: Seq<char>, c2: char) -> Seq<char> {
    remove_code_at(s, c2, 0, Seq::empty())
}

/// An `Exec` value cleaned for launching: the field codes `%f %F %u %U
/// %i %c %k` are removed in that order, then surrounding whitespace.
pub open spec fn clean_exec(e: Seq<char>) -> Seq<char> {
    trim_spec(
        remove_code(
            remove_code(
                remove_code(
                    remove_code(
                        remove_code(remove_code(remove_code(e, 'f'), 'F'), 'u'),
                        'U',
                    ),
                    'i',
                ),
                'c',
            ),
            'k',
        ),
    )
}

/// What a desktop-entry file yields: nothing when hidden, or not meant
/// for display (unless it is a settings panel), or missing its name or
/// command; otherwise a candidate named by `Name` running the cleaned
/// `Exec`.
pub open spec fn spec_parse_desktop(s: Seq<char>) -> Option<ElemV> {
    let st = desk_scan(spec_split_lines(s, 0), 0, desk_init());
    if st.hidden {
        None
    } else {
        let is_settings = st.app_type is Some && st.app_type.unwrap() == "Settings"@;
        let is_cosmic = st.exec_cmd is Some && has_substring(
            st.exec_cmd.unwrap(),
            "cosmic-settings"@,
        );
        if st.no_display && !is_settings && !is_cosmic {
            None
        } else if st.name is Some && st.exec_cmd is Some {
            Some(
                ElemV {
                    name: st.name.unwrap(),
                    value: clean_exec(st.exec_cmd.unwrap()),
                    base_score: 0,
                },
            )
        } else {
            None
        }
    }
}

/// Removes every `%` followed by the given letter, left to right.
#[verifier::loop_isolation(false)]
fn remove_code_exec(s: &str, c2: char) -> (r: String)
    ensures
        r@ == remove_code(s@, c2),
{
    let len = s.unicode_len();
    let mut out = String::new();
    let mut i: usize = 0;
    while i < len
        invariant
            i <= len,
            len == s@.len(),
            remove_code_at(s@, c2, i as int, out@) == remove_code(s@, c2),
        decreases len - i,
    {
        if i + 1 < len && s.get_char(i) == '%' && s.get_char(i + 1) == c2 {
            proof {
                assert(remove_code_at(s@, c2, i as int, out@) == remove_code_at(
                    s@,
                    c2,
                    i + 2,
                    out@,
                ));
            }
            i = i + 2;
        } else {
            let ghost ob = out@;
            out.append(s.substring_char(i, i + 1));
            proof {
                assert(out@ =~= ob.push(s@[i as int]));
                assert(remove_code_at(s@, c2, i as int, ob) == remove_code_at(
                    s@,
                    c2,
                    i + 1,
                    ob.push(s@[i as int]),
                ));
            }
            i = i + 1;
        }
    }
    out
}

impl ElementListBuilder {
    /// Parses one desktop-entry file into the candidate it declares, if
    /// any.
    #[verifier::loop_isolation(false)]
    pub fn parse_desktop_file(content: &str) -> (r: Option<Element>)
        ensures
            match r {
                Some(e) => spec_parse_desktop(content@) == Some(e@),
                None => spec_parse_desktop(content@) is None,
            },
    {
        let lines = split_lines(content);
        let ghost lv = line_views(lines@);
        let mut in_entry = false;
        let mut name: Option<String> = None;
        let mut exec_cmd: Option<String> = None;
        let mut hidden = false;
        let mut no_display = false;
        let mut app_type: Option<String> = None;
        let mut j: usize = 0;
        while j < lines.len()
            invariant
                j <= lines.len(),
                lv == line_views(lines@),
                desk_scan(
                    lv,
                    j as int,
                    DeskState {
                        in_entry,
                        name: opt_str_view(name),
                        exec_cmd: opt_str_view(exec_cmd),
                        hidden,
                        no_display,
                        app_type: opt_str_view(app_type),
                    },
                ) == desk_scan(lv, 0, desk_init()),
            decreases lines.len() - j,
        {
            let ghost st0 = DeskState {
                in_entry,
                name: opt_str_view(name),
                exec_cmd: opt_str_view(exec_cmd),
                hidden,
                no_display,
                app_type: opt_str_view(app_type),
            };
            let raw = lines[j].as_str();
            let lb = trim_bounds(raw);
            let l = raw.substring_char(lb.0, lb.1);
            let llen = lb.1 - lb.0;
            if str_eq(l, "[Desktop Entry]") {
                in_entry = true;
            } else if llen >= 1 && l.get_char(0) == '[' && l.get_char(llen - 1) == ']' {
                in_entry = false;
            } else if !in_entry {
            } else {
                let p = find_char_exec(l, '=');
                if p < llen {
                    let key = l.substring_char(0, p);
                    let value = String::from_str(l.substring_char(p + 1, llen));
                    if str_eq(key, "Name") {
                        name = Some(value);
                    } else if str_eq(key, "Exec") {
                        exec_cmd = Some(value);
                    } else if str_eq(key, "Hidden") {
                        hidden = str_ci_eq(value.as_str(), "true");
                    } else if str_eq(key, "NoDisplay") {
                        no_display = str_ci_eq(value.as_str(), "true");
                    } else if str_eq(key, "Type") {
                        app_type = Some(value);
                    }
                }
            }
            proof {
                assert(desk_step(st0, lv[j as int]) == DeskState {
                    in_entry,
                    name: opt_str_view(name),
                    exec_cmd: opt_str_view(exec_cmd),
                    hidden,
                    no_display,
                    app_type: opt_str_view(app_type),
                });
            }
            j = j + 1;
        }
        if hidden {
            return None;
        }
        let is_settings = match &app_type {
            Some(t) => str_eq(t.as_str(), "Settings"),
            None => false,
        };
        let is_cosmic = match &exec_cmd {
            Some(e) => contains_str(e.as_str(), "cosmic-settings"),
            None => false,
        };
        if no_display && !is_settings && !is_cosmic {
            return None;
        }
        match (name, exec_cmd) {
            (Some(n), Some(e)) => {
                let c1 = remove_code_exec(e.as_str(), 'f');
                let c2 = remove_code_exec(c1.as_str(), 'F');
                let c3 = remove_code_exec(c2.as_str(), 'u');
                let c4 = remove_code_exec(c3.as_str(), 'U');
                let c5 = remove_code_exec(c4.as_str(), 'i');
                let c6 = remove_code_exec(c5.as_str(), 'c');
                let c7 = remove_code_exec(c6.as_str(), 'k');
                let tb = trim_bounds(c7.as_str());
                let value = String::from_str(c7.as_str().substring_char(tb.0, tb.1));
                Some(Element { name: n, value, base_score: 0 })
            },
            _ => None,
        }
    }
}

// ----- the aggregation builder -----

/// The options of a `PATH` scan.
#[derive(Debug, Clone, Copy, PartialEq, Eq, Structural)]
pub struct SearchConfig {
    pub show_hidden_files: bool,
}

impl Default for SearchConfig {
    fn default() -> (r: Self)
        ensures
            !r.show_hidden_files,
    {
        SearchConfig { show_hidden_files: false }
    }
}

/// Configures which sources a session aggregates candidates from.  The
/// caller runs the enabled sources and feeds their raw text to the parse
/// functions of this module.
#[derive(Debug)]
pub struct ElementListBuilder {
    pub path_config: SearchConfig,
    pub from_path: bool,
    pub from_stdin: bool,
    pub from_file: Vec<String>,
    pub from_snap: bool,
    pub from_flatpak: bool,
    pub from_desktop: bool,
}

impl ElementListBuilder {
    pub fn new() -> (r: Self)
        ensures
            !r.from_path,
            !r.from_stdin,
            r.from_file@.len() == 0,
            !r.from_snap,
            !r.from_flatpak,
            !r.from_desktop,
            !r.path_config.show_hidden_files,
    {
        ElementListBuilder {
            path_config: SearchConfig { show_hidden_files: false },
            from_path: false,
            from_stdin: false,
            from_file: Vec::new(),
            from_snap: false,
            from_flatpak: false,
            from_desktop: false,
        }
    }

    /// Enables the `PATH` scan with the given options.
    pub fn add_path(&mut self, config: SearchConfig)
        ensures
            *final(self) == (ElementListBuilder { from_path: true, path_config: config, ..*old(self) }),
    {
        self.from_path = true;
        self.path_config = config;
    }

    /// Sets the line-directive files to read.
    #[verifier::loop_isolation(false)]
    pub fn add_files(&mut self, files: &[String])
        ensures
            *final(self) == (ElementListBuilder { from_file: final(self).from_file, ..*old(self) }),
            final(self).from_file@ == files@,
    {
        let mut copied: Vec<String> = Vec::new();
        let n = files.len();
        let mut i: usize = 0;
        while i < n
            invariant
                i <= n,
                n == files@.len(),
                copied@ =~= files@.subrange(0, i as int),
            decreases n - i,
        {
            copied.push(files[i].clone());
            i = i + 1;
        }
        proof {
            assert(copied@ =~= files@);
        }
        self.from_file = copied;
    }

    /// Enables reading line directives from standard input.
    pub fn add_stdin(&mut self)
        ensures
            *final(self) == (ElementListBuilder { from_stdin: true, ..*old(self) }),
    {
        self.from_stdin = true;
    }

    /// Enables the snap listing source.
    pub fn add_snap(&mut self)
        ensures
            *final(self) == (ElementListBuilder { from_snap: true, ..*old(self) }),
    {
        self.from_snap = true;
    }

    /// Enables the flatpak listing source.
    pub fn add_flatpak(&mut self)
        ensures
            *final(self) == (ElementListBuilder { from_flatpak: true, ..*old(self) }),
    {
        self.from_flatpak = true;
    }

    /// Enables the desktop-entry source.
    pub fn add_desktop(&mut self)
        ensures
            *final(self) == (ElementListBuilder { from_desktop: true, ..*old(self) }),
    {
        self.from_desktop = true;
    }
}

impl Default for ElementListBuilder {
    fn default() -> (r: Self)
        ensures
            !r.from_path,
            !r.from_stdin,
            r.from_file@.len() == 0,
            !r.from_snap,
            !r.from_flatpak,
            !r.from_desktop,
    {
        ElementListBuilder::new()
    }
}

} // verus!


