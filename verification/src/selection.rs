//! The candidate model and its aggregation sources.
//!
//! An [`Element`] is one selectable target: a display name, the command
//! text it stands for, and a base score fed by usage history.  The
//! [`ElementList`] holds the session's candidates; builders and parsers in
//! this module produce them from line-directive streams, `PATH`-style name
//! lists, desktop-entry files and package-manager listings.

use vstd::prelude::*;

use crate::text::{
    digit_val, find_char, find_char_exec, is_digit, is_digit_exec, trim_bounds, trim_spec,
};

verus! {

broadcast use vstd::seq_lib::group_seq_properties;

/// One selectable candidate.
#[derive(Debug, PartialEq, Eq)]
pub struct Element {
    pub name: String,
    pub value: String,
    pub base_score: usize,
}

/// The mathematical content of an [`Element`].
pub struct ElemV {
    pub name: Seq<char>,
    pub value: Seq<char>,
    pub base_score: int,
}

impl View for Element {
    type V = ElemV;

    open spec fn view(&self) -> ElemV {
        ElemV { name: self.name@, value: self.value@, base_score: self.base_score as int }
    }
}

impl Clone for Element {
    fn clone(&self) -> (res: Self)
        ensures
            res == *self,
    {
        Element {
            name: self.name.clone(),
            value: self.value.clone(),
            base_score: self.base_score,
        }
    }
}

pub open spec fn views_of(s: Seq<Element>) -> Seq<ElemV> {
    s.map_values(|e: Element| e@)
}

/// One usage-history record: how often the named candidate was launched.
#[derive(Debug, PartialEq, Eq)]
pub struct HistoryEntry {
    pub name: String,
    pub value: String,
    pub num_used: usize,
}

/// The mathematical content of a [`HistoryEntry`].
pub struct HistV {
    pub name: Seq<char>,
    pub value: Seq<char>,
    pub num_used: int,
}

impl View for HistoryEntry {
    type V = HistV;

    open spec fn view(&self) -> HistV {
        HistV { name: self.name@, value: self.value@, num_used: self.num_used as int }
    }
}

impl Clone for HistoryEntry {
    fn clone(&self) -> (res: Self)
        ensures
            res == *self,
    {
        HistoryEntry {
            name: self.name.clone(),
            value: self.value.clone(),
            num_used: self.num_used,
        }
    }
}

pub open spec fn hist_views(s: Seq<HistoryEntry>) -> Seq<HistV> {
    s.map_values(|e: HistoryEntry| e@)
}

/// The in-memory usage history; persistence lives with the caller.
#[derive(Debug)]
pub struct History {
    entries: Vec<HistoryEntry>,
}

impl View for History {
    type V = Seq<HistoryEntry>;

    closed spec fn view(&self) -> Seq<HistoryEntry> {
        self.entries@
    }
}

impl History {
    pub fn new() -> (r: Self)
        ensures
            r@.len() == 0,
    {
        History { entries: Vec::new() }
    }

    pub fn from_entries(entries: Vec<HistoryEntry>) -> (r: Self)
        ensures
            r@ == entries@,
    {
        History { entries }
    }

    pub fn as_vec(&self) -> (r: &Vec<HistoryEntry>)
        ensures
            r@ == self@,
    {
        &self.entries
    }

    /// Records one use of the candidate: the same-named entry's counter
    /// grows by one (it saturates at the largest count), or a new entry
    /// with one use is added.
    #[verifier::loop_isolation(false)]
    pub fn inc(&mut self, elem: &Element)
        ensures
            final(self)@ == spec_hist_inc(old(self)@, *elem),
    {
        let ghost orig = self.entries@;
        let mut i: usize = 0;
        while i < self.entries.len()
            invariant
                i <= self.entries.len(),
                self.entries@ == orig,
                forall|t: int| 0 <= t < i ==> (#[trigger] orig[t]).name@ != elem.name@,
            decreases self.entries.len() - i,
        {
            if self.entries[i].name == elem.name {
                proof {
                    assert(hist_first_idx(orig, elem.name@, 0) == i as int) by {
                        lemma_hist_first_idx_step(orig, elem.name@, 0, i as int);
                    }
                }
                let bumped = if self.entries[i].num_used < usize::MAX {
                    self.entries[i].num_used + 1
                } else {
                    self.entries[i].num_used
                };
                self.entries[i].num_used = bumped;
                proof {
                    assert(self.entries@ =~= spec_hist_inc(orig, *elem));
                }
                return ;
            }
            i = i + 1;
        }
        proof {
            lemma_hist_first_idx_step(orig, elem.name@, 0, orig.len() as int);
        }
        self.entries.push(
            HistoryEntry { name: elem.name.clone(), value: elem.value.clone(), num_used: 1 },
        );
        proof {
            assert(self.entries@ =~= spec_hist_inc(orig, *elem));
        }
    }
}

/// The first index at or after `i` whose entry has the given name.
pub open spec fn hist_first_idx(es: Seq<HistoryEntry>, n: Seq<char>, i: int) -> int
    decreases es.len() - i,
{
    if i < 0 || i >= es.len() {
        es.len() as int
    } else if es[i].name@ == n {
        i
    } else {
        hist_first_idx(es, n, i + 1)
    }
}

proof fn lemma_hist_first_idx_step(es: Seq<HistoryEntry>, n: Seq<char>, i: int, j: int)
    requires
        0 <= i <= j <= es.len(),
        forall|t: int| i <= t < j ==> (#[trigger] es[t]).name@ != n,
    ensures
        hist_first_idx(es, n, i) == hist_first_idx(es, n, j),
    decreases j - i,
{
    if i < j {
        lemma_hist_first_idx_step(es, n, i + 1, j);
    }
}

/// What `History::inc` does: bump the first same-named entry's counter
/// (saturating), or append a fresh entry with one use.
pub open spec fn spec_hist_inc(es: Seq<HistoryEntry>, elem: Element) -> Seq<HistoryEntry> {
    let i = hist_first_idx(es, elem.name@, 0);
    if i < es.len() {
        let e = es[i];
        es.update(
            i,
            HistoryEntry {
                name: e.name,
                value: e.value,
                num_used: if e.num_used < usize::MAX {
                    (e.num_used + 1) as usize
                } else {
                    e.num_used
                },
            },
        )
    } else {
        es.push(HistoryEntry { name: elem.name, value: elem.value, num_used: 1 })
    }
}

// ----- merging history into the candidate list -----

/// The first index at or after `i` whose element has the given name.
pub open spec fn first_name_idx(es: Seq<ElemV>, n: Seq<char>, i: int) -> int
    decreases es.len() - i,
{
    if i < 0 || i >= es.len() {
        es.len() as int
    } else if es[i].name == n {
        i
    } else {
        first_name_idx(es, n, i + 1)
    }
}

/// One history record folded into the candidates: the first same-named
/// candidate's base score becomes the usage count, or a new candidate is
/// appended.
pub open spec fn merge_one(es: Seq<ElemV>, h: HistV) -> Seq<ElemV> {
    let i = first_name_idx(es, h.name, 0);
    if i < es.len() {
        es.update(i, ElemV { name: es[i].name, value: es[i].value, base_score: h.num_used })
    } else {
        es.push(ElemV { name: h.name, value: h.value, base_score: h.num_used })
    }
}

/// All history records from `j` on folded in, in order.
pub open spec fn merge_seq(es: Seq<ElemV>, hs: Seq<HistV>, j: int) -> Seq<ElemV>
    decreases hs.len() - j,
{
    if j < 0 || j >= hs.len() {
        es
    } else {
        merge_seq(merge_one(es, hs[j]), hs, j + 1)
    }
}

proof fn lemma_first_name_idx_step(es: Seq<ElemV>, n: Seq<char>, i: int, j: int)
    requires
        0 <= i <= j <= es.len(),
        forall|t: int| i <= t < j ==> (#[trigger] es[t]).name != n,
    ensures
        first_name_idx(es, n, i) == first_name_idx(es, n, j),
    decreases j - i,
{
    if i < j {
        lemma_first_name_idx_step(es, n, i + 1, j);
    }
}

proof fn lemma_first_name_idx_bounds(es: Seq<ElemV>, n: Seq<char>, i: int)
    requires
        0 <= i <= es.len(),
    ensures
        i <= first_name_idx(es, n, i) <= es.len(),
        first_name_idx(es, n, i) < es.len() ==> es[first_name_idx(es, n, i)].name == n,
    decreases es.len() - i,
{
    if i < es.len() && es[i].name != n {
        lemma_first_name_idx_bounds(es, n, i + 1);
    }
}

proof fn lemma_first_name_idx_same_names(es1: Seq<ElemV>, es2: Seq<ElemV>, n: Seq<char>, i: int)
    requires
        es1.len() == es2.len(),
        forall|t: int| 0 <= t < es1.len() ==> (#[trigger] es1[t]).name == es2[t].name,
        0 <= i,
    ensures
        first_name_idx(es1, n, i) == first_name_idx(es2, n, i),
    decreases es1.len() - i,
{
    if i < es1.len() && es1[i].name != n {
        lemma_first_name_idx_same_names(es1, es2, n, i + 1);
    }
}

proof fn lemma_first_name_idx_push(es: Seq<ElemV>, e: ElemV, n: Seq<char>, i: int)
    requires
        0 <= i <= es.len(),
    ensures
        first_name_idx(es, n, i) < es.len() ==> first_name_idx(es.push(e), n, i)
            == first_name_idx(es, n, i),
        first_name_idx(es, n, i) == es.len() && e.name == n ==> first_name_idx(es.push(e), n, i)
            == es.len(),
        first_name_idx(es, n, i) == es.len() && e.name != n ==> first_name_idx(es.push(e), n, i)
            == es.len() + 1,
    decreases es.len() - i,
{
    lemma_first_name_idx_bounds(es, n, i);
    if i < es.len() && es[i].name != n {
        lemma_first_name_idx_push(es, e, n, i + 1);
    } else if i >= es.len() && e.name != n {
        assert(first_name_idx(es.push(e), n, i + 1) == es.len() + 1);
    }
}

/// `x`'s slot is settled in `es`: a candidate with `x`'s name exists and
/// its first occurrence already carries `x`'s usage count.
pub open spec fn settled(es: Seq<ElemV>, x: HistV) -> bool {
    first_name_idx(es, x.name, 0) < es.len() && es[first_name_idx(es, x.name, 0)].base_score
        == x.num_used
}

proof fn lemma_merge_one_settled(es: Seq<ElemV>, x: HistV)
    ensures
        settled(merge_one(es, x), x),
        merge_one(es, x).len() >= es.len(),
        forall|t: int|
            0 <= t < es.len() ==> (#[trigger] merge_one(es, x)[t]).name == es[t].name,
        merge_one(es, x).len() <= es.len() + 1,
{
    lemma_first_name_idx_bounds(es, x.name, 0);
    let i = first_name_idx(es, x.name, 0);
    let m = merge_one(es, x);
    if i < es.len() {
        lemma_first_name_idx_same_names(m, es, x.name, 0);
    } else {
        lemma_first_name_idx_push(es, ElemV { name: x.name, value: x.value, base_score: x.num_used }, x.name, 0);
    }
}

proof fn lemma_merge_one_keeps_settled(es: Seq<ElemV>, y: HistV, x: HistV)
    requires
        settled(es, x),
        y.name != x.name,
    ensures
        settled(merge_one(es, y), x),
{
    lemma_first_name_idx_bounds(es, y.name, 0);
    lemma_first_name_idx_bounds(es, x.name, 0);
    let m = merge_one(es, y);
    let i = first_name_idx(es, y.name, 0);
    if i < es.len() {
        lemma_first_name_idx_same_names(m, es, x.name, 0);
    } else {
        lemma_first_name_idx_push(es, ElemV { name: y.name, value: y.value, base_score: y.num_used }, x.name, 0);
    }
}

proof fn lemma_merge_seq_keeps_settled(es: Seq<ElemV>, hs: Seq<HistV>, j: int, x: HistV)
    requires
        0 <= j <= hs.len(),
        settled(es, x),
        forall|k: int| j <= k < hs.len() ==> (#[trigger] hs[k]).name != x.name,
    ensures
        settled(merge_seq(es, hs, j), x),
    decreases hs.len() - j,
{
    if j < hs.len() {
        lemma_merge_one_keeps_settled(es, hs[j], x);
        lemma_merge_seq_keeps_settled(merge_one(es, hs[j]), hs, j + 1, x);
    }
}

/// No later history record shares the name of the record at `k`.
pub open spec fn is_last_occ(hs: Seq<HistV>, k: int) -> bool {
    forall|l: int| k < l < hs.len() ==> (#[trigger] hs[l]).name != hs[k].name
}

proof fn lemma_merge_seq_last_settled(es: Seq<ElemV>, hs: Seq<HistV>, j: int)
    requires
        0 <= j <= hs.len(),
    ensures
        forall|k: int|
            j <= k < hs.len() && is_last_occ(hs, k) ==> settled(merge_seq(es, hs, j), #[trigger] hs[k]),
    decreases hs.len() - j,
{
    if j < hs.len() {
        let es1 = merge_one(es, hs[j]);
        lemma_merge_one_settled(es, hs[j]);
        lemma_merge_seq_last_settled(es1, hs, j + 1);
        if is_last_occ(hs, j) {
            lemma_merge_seq_keeps_settled(es1, hs, j + 1, hs[j]);
        }
    }
}

proof fn lemma_merge_one_keeps_present(es: Seq<ElemV>, y: HistV, n: Seq<char>)
    requires
        first_name_idx(es, n, 0) < es.len(),
    ensures
        first_name_idx(merge_one(es, y), n, 0) < merge_one(es, y).len(),
{
    lemma_first_name_idx_bounds(es, y.name, 0);
    lemma_first_name_idx_bounds(es, n, 0);
    let m = merge_one(es, y);
    if first_name_idx(es, y.name, 0) < es.len() {
        lemma_first_name_idx_same_names(m, es, n, 0);
    } else {
        lemma_first_name_idx_push(
            es,
            ElemV { name: y.name, value: y.value, base_score: y.num_used },
            n,
            0,
        );
    }
}

proof fn lemma_merge_seq_keeps_present(es: Seq<ElemV>, hs: Seq<HistV>, j: int, n: Seq<char>)
    requires
        0 <= j <= hs.len(),
        first_name_idx(es, n, 0) < es.len(),
    ensures
        first_name_idx(merge_seq(es, hs, j), n, 0) < merge_seq(es, hs, j).len(),
    decreases hs.len() - j,
{
    if j < hs.len() {
        lemma_merge_one_keeps_present(es, hs[j], n);
        lemma_merge_seq_keeps_present(merge_one(es, hs[j]), hs, j + 1, n);
    }
}

proof fn lemma_merge_seq_all_present(es: Seq<ElemV>, hs: Seq<HistV>, j: int)
    requires
        0 <= j <= hs.len(),
    ensures
        forall|k: int|
            j <= k < hs.len() ==> first_name_idx(
                merge_seq(es, hs, j),
                (#[trigger] hs[k]).name,
                0,
            ) < merge_seq(es, hs, j).len(),
    decreases hs.len() - j,
{
    if j < hs.len() {
        let es1 = merge_one(es, hs[j]);
        lemma_merge_one_settled(es, hs[j]);
        lemma_merge_seq_all_present(es1, hs, j + 1);
        lemma_merge_seq_keeps_present(es1, hs, j + 1, hs[j].name);
    }
}

/// The state during a repeated merge may deviate from the settled result
/// only at the first occurrence of a name that a record still to come
/// will overwrite.
pub open spec fn diff_allowed(m: Seq<ElemV>, hs: Seq<HistV>, j: int, t: int) -> bool {
    exists|k: int|
        j <= k < hs.len() && (#[trigger] hs[k]).name == m[t].name && t == first_name_idx(
            m,
            m[t].name,
            0,
        )
}

proof fn lemma_remerge_converges(m: Seq<ElemV>, hs: Seq<HistV>, j: int, st: Seq<ElemV>)
    requires
        0 <= j <= hs.len(),
        st.len() == m.len(),
        forall|t: int|
            0 <= t < m.len() ==> (#[trigger] st[t]).name == m[t].name && st[t].value == m[t].value,
        forall|t: int| 0 <= t < m.len() && #[trigger] st[t] != m[t] ==> diff_allowed(m, hs, j, t),
        forall|k: int|
            j <= k < hs.len() && is_last_occ(hs, k) ==> settled(m, #[trigger] hs[k]),
        forall|k: int|
            j <= k < hs.len() ==> first_name_idx(m, (#[trigger] hs[k]).name, 0) < m.len(),
    ensures
        merge_seq(st, hs, j) == m,
    decreases hs.len() - j,
{
    if j >= hs.len() {
        assert forall|t: int| 0 <= t < m.len() implies #[trigger] st[t] == m[t] by {
            if st[t] != m[t] {
                assert(diff_allowed(m, hs, j, t));
                assert(false);
            }
        }
        assert(st =~= m);
    } else {
        let x = hs[j];
        let im = first_name_idx(m, x.name, 0);
        lemma_first_name_idx_bounds(m, x.name, 0);
        lemma_first_name_idx_same_names(st, m, x.name, 0);
        let st1 = merge_one(st, x);
        assert(st1 == st.update(
            im,
            ElemV { name: st[im].name, value: st[im].value, base_score: x.num_used },
        ));
        assert forall|t: int| 0 <= t < m.len() && #[trigger] st1[t] != m[t] implies diff_allowed(
            m,
            hs,
            j + 1,
            t,
        ) by {
            if t == im {
                if is_last_occ(hs, j) {
                    assert(settled(m, x));
                    assert(st1[im] == m[im]);
                    assert(false);
                } else {
                    let l = choose|l: int| j < l < hs.len() && (#[trigger] hs[l]).name == x.name;
                    assert(m[im].name == x.name);
                    assert(j + 1 <= l < hs.len() && hs[l].name == m[t].name && t
                        == first_name_idx(m, m[t].name, 0));
                }
            } else {
                assert(st[t] != m[t]);
                assert(diff_allowed(m, hs, j, t));
                let k = choose|k: int|
                    j <= k < hs.len() && (#[trigger] hs[k]).name == m[t].name && t
                        == first_name_idx(m, m[t].name, 0);
                assert(k != j);
            }
        }
        lemma_remerge_converges(m, hs, j + 1, st1);
    }
}

/// Merging an unchanged history source twice yields the same base-score
/// assignment as merging it once.
pub proof fn lemma_merge_history_idempotent(es: Seq<ElemV>, hs: Seq<HistV>)
    ensures
        merge_seq(merge_seq(es, hs, 0), hs, 0) == merge_seq(es, hs, 0),
{
    let m = merge_seq(es, hs, 0);
    lemma_merge_seq_last_settled(es, hs, 0);
    lemma_merge_seq_all_present(es, hs, 0);
    lemma_remerge_converges(m, hs, 0, m);
}

/// The session's candidates, in the order they were aggregated.
#[derive(Debug)]
pub struct ElementList {
    inner: Vec<Element>,
}

impl View for ElementList {
    type V = Seq<Element>;

    closed spec fn view(&self) -> Seq<Element> {
        self.inner@
    }
}

impl Default for ElementList {
    fn default() -> (r: Self)
        ensures
            r@.len() == 0,
    {
        ElementList { inner: Vec::new() }
    }
}

impl ElementList {
    pub fn from_elements(inner: Vec<Element>) -> (r: Self)
        ensures
            r@ == inner@,
    {
        ElementList { inner }
    }

    pub fn len(&self) -> (r: usize)
        ensures
            r == self@.len(),
    {
        self.inner.len()
    }

    pub fn get(&self, i: usize) -> (r: &Element)
        requires
            i < self@.len(),
        ensures
            *r == self@[i as int],
    {
        &self.inner[i]
    }

    /// Every candidate by reference, in list order.
    pub fn as_ref_vec(&self) -> (r: Vec<&Element>)
        ensures
            r@.len() == self@.len(),
            forall|i: int| 0 <= i < r@.len() ==> *(#[trigger] r@[i]) == self@[i],
    {
        let mut out: Vec<&Element> = Vec::new();
        let mut i: usize = 0;
        while i < self.inner.len()
            invariant
                i <= self.inner.len(),
                out@.len() == i,
                forall|t: int| 0 <= t < i ==> *(#[trigger] out@[t]) == self.inner@[t],
            decreases self.inner.len() - i,
        {
            out.push(&self.inner[i]);
            i = i + 1;
        }
        out
    }

    /// Folds a history source into the list: for each record, in order,
    /// the first same-named candidate's base score is overwritten with the
    /// usage count, or a new candidate is appended.
    #[verifier::loop_isolation(false)]
    pub fn merge_history(&mut self, history: &History)
        ensures
            views_of(final(self)@) == merge_seq(views_of(old(self)@), hist_views(history@), 0),
    {
        let ghost orig = views_of(self.inner@);
        let ghost hv = hist_views(history@);
        let entries = history.as_vec();
        let mut j: usize = 0;
        while j < entries.len()
            invariant
                j <= entries.len(),
                merge_seq(views_of(self.inner@), hv, j as int) == merge_seq(orig, hv, 0),
            decreases entries.len() - j,
        {
            let ghost before = views_of(self.inner@);
            let entry = &entries[j];
            let mut i: usize = 0;
            let mut found = false;
            while i < self.inner.len() && !found
                invariant
                    i <= self.inner.len(),
                    views_of(self.inner@) == before,
                    !found ==> forall|t: int|
                        0 <= t < i ==> (#[trigger] before[t]).name != entry.name@,
                    found ==> i < self.inner.len() && before[i as int].name == entry.name@
                        && first_name_idx(before, entry.name@, 0) == i as int,
                decreases self.inner.len() - i - if found { 1int } else { 0int },
            {
                if self.inner[i].name == entry.name {
                    found = true;
                    proof {
                        lemma_first_name_idx_step(before, entry.name@, 0, i as int);
                    }
                } else {
                    i = i + 1;
                }
            }
            if found {
                self.inner[i].base_score = entry.num_used;
                proof {
                    assert(views_of(self.inner@) =~= merge_one(before, hv[j as int]));
                }
            } else {
                proof {
                    lemma_first_name_idx_step(before, entry.name@, 0, before.len() as int);
                }
                self.inner.push(
                    Element {
                        name: entry.name.clone(),
                        value: entry.value.clone(),
                        base_score: entry.num_used,
                    },
                );
                proof {
                    assert(views_of(self.inner@) =~= merge_one(before, hv[j as int]));
                }
            }
            j = j + 1;
        }
    }

    /// Reorders the candidates by base score, largest first; the list keeps
    /// exactly the same candidates.
    #[verifier::loop_isolation(false)]
    pub fn sort_score(&mut self)
        ensures
            final(self)@.to_multiset() == old(self)@.to_multiset(),
            forall|i: int, j: int|
                0 <= i < j < final(self)@.len()
                    ==> final(self)@[j].base_score <= final(self)@[i].base_score,
    {
        let n = self.inner.len();
        let mut out: Vec<Element> = Vec::new();
        let mut i: usize = 0;
        while i < n
            invariant
                i <= n,
                n == self.inner@.len(),
                out@.to_multiset() == self.inner@.subrange(0, i as int).to_multiset(),
                forall|a: int, b: int|
                    0 <= a < b < out@.len() ==> out@[b].base_score <= out@[a].base_score,
            decreases n - i,
        {
            let e = self.inner[i].clone();
            let mut k: usize = 0;
            while k < out.len() && out[k].base_score >= e.base_score
                invariant
                    k <= out@.len(),
                    forall|t: int| 0 <= t < k ==> (#[trigger] out@[t]).base_score >= e.base_score,
                decreases out@.len() - k,
            {
                k = k + 1;
            }
            proof {
                let pre = self.inner@.subrange(0, i as int);
                assert(self.inner@.subrange(0, i + 1) =~= pre.push(self.inner@[i as int]));
                broadcast use vstd::seq_lib::group_to_multiset_ensures;
                broadcast use vstd::seq_lib::to_multiset_insert;

            }
            out.insert(k, e);
            i = i + 1;
        }
        proof {
            assert(self.inner@.subrange(0, n as int) =~= self.inner@);
        }
        self.inner = out;
    }
}

// ----- line-directive streams -----

/// The key and optional value of one line: the line is trimmed, split on
/// the first `=` (if any), and both halves are trimmed again.
pub open spec fn spec_parse_line(s: Seq<char>) -> (Seq<char>, Option<Seq<char>>) {
    let t = trim_spec(s);
    let e = find_char(t, '=', 0);
    if e == t.len() {
        (t, None)
    } else {
        (trim_spec(t.subrange(0, e)), Some(trim_spec(t.subrange(e + 1, t.len() as int))))
    }
}

pub open spec fn opt_str_view(o: Option<String>) -> Option<Seq<char>> {
    match o {
        Some(v) => Some(v@),
        None => None,
    }
}

/// Splits a line into its key and optional value.
pub fn parse_line(input: &str) -> (r: Option<(String, Option<String>)>)
    ensures
        r is Some,
        r matches Some(kv) ==> (kv.0@, opt_str_view(kv.1)) == spec_parse_line(input@),
{
    let tb = trim_bounds(input);
    let t = input.substring_char(tb.0, tb.1);
    let e = find_char_exec(t, '=');
    let tlen = t.unicode_len();
    if e >= tlen {
        Some((String::from_str(t), None))
    } else {
        let key_part = t.substring_char(0, e);
        let kb = trim_bounds(key_part);
        let key = String::from_str(key_part.substring_char(kb.0, kb.1));
        let val_part = t.substring_char(e + 1, tlen);
        let vb = trim_bounds(val_part);
        let val = String::from_str(val_part.substring_char(vb.0, vb.1));
        Some((key, Some(val)))
    }
}

/// The value of a run of digits, accumulated left to right; `None` on a
/// non-digit or once the value would no longer fit in `usize`.
pub open spec fn digits_value(s: Seq<char>, i: int, acc: int) -> Option<int>
    decreases s.len() - i,
{
    if i < 0 || i >= s.len() {
        Some(acc)
    } else if is_digit(s[i]) {
        let a2 = acc * 10 + digit_val(s[i]);
        if a2 > usize::MAX {
            None
        } else {
            digits_value(s, i + 1, a2)
        }
    } else {
        None
    }
}

/// What parsing a base-score value yields: an optional leading `+`, then
/// one or more digits whose value fits in `usize`.
pub open spec fn spec_parse_usize(s: Seq<char>) -> Option<int> {
    let start: int = if s.len() > 0 && s[0] == '+' {
        1
    } else {
        0
    };
    if s.len() == start {
        None
    } else {
        digits_value(s, start, 0)
    }
}

/// Parses a non-negative decimal integer as `usize::from_str` does.
#[verifier::loop_isolation(false)]
pub fn parse_usize_str(input: &str) -> (r: Option<usize>)
    ensures
        match r {
            Some(v) => spec_parse_usize(input@) == Some(v as int),
            None => spec_parse_usize(input@) is None,
        },
{
    let ghost s = input@;
    let len = input.unicode_len();
    let start: usize = if len > 0 && input.get_char(0) == '+' {
        1
    } else {
        0
    };
    if len == start {
        return None;
    }
    let mut acc: usize = 0;
    let mut i = start;
    while i < len
        invariant
            start <= i <= len,
            digits_value(s, i as int, acc as int) == digits_value(s, start as int, 0),
        decreases len - i,
    {
        let c = input.get_char(i);
        if !is_digit_exec(c) {
            return None;
        }
        let d: u128 = ((c as u32) - 48) as u128;
        proof {
            assert(d as int == digit_val(c));
        }
        let a2: u128 = (acc as u128) * 10 + d;
        if a2 > usize::MAX as u128 {
            return None;
        }
        acc = a2 as usize;
        i = i + 1;
    }
    Some(acc)
}

/// The candidates declared by the lines from `j` on, with `base` the
/// running base score set by `%base_score=N` directives.
pub open spec fn spec_line_elems(ls: Seq<Seq<char>>, j: int, base: int, acc: Seq<ElemV>) -> Seq<
    ElemV,
>
    decreases ls.len() - j,
{
    if j < 0 || j >= ls.len() {
        acc
    } else {
        let kv = spec_parse_line(ls[j]);
        if kv.0 == "%base_score"@ && kv.1 is Some {
            let nb = spec_parse_usize(kv.1.unwrap());
            let base2 = if nb is Some {
                nb.unwrap()
            } else {
                base
            };
            spec_line_elems(ls, j + 1, base2, acc)
        } else if kv.1 is Some {
            spec_line_elems(
                ls,
                j + 1,
                base,
                acc.push(ElemV { name: kv.0, value: kv.1.unwrap(), base_score: base }),
            )
        } else if kv.0.len() == 0 {
            spec_line_elems(ls, j + 1, base, acc)
        } else {
            spec_line_elems(
                ls,
                j + 1,
                base,
                acc.push(ElemV { name: kv.0, value: kv.0, base_score: base }),
            )
        }
    }
}

pub open spec fn line_views(ls: Seq<String>) -> Seq<Seq<char>> {
    ls.map_values(|l: String| l@)
}

/// The candidates declared by a line-directive stream: `KEY` lines,
/// `KEY=VALUE` lines, and `%base_score=N` directives that set the base
/// score of all candidates after them; blank lines are skipped.
#[verifier::loop_isolation(false)]
pub fn elements_from_lines(lines: &Vec<String>) -> (r: Vec<Element>)
    ensures
        views_of(r@) == spec_line_elems(line_views(lines@), 0, 0, Seq::empty()),
{
    let ghost lv = line_views(lines@);
    let directive = String::from_str("%base_score");
    let mut out: Vec<Element> = Vec::new();
    proof {
        assert(views_of(out@) =~= Seq::<ElemV>::empty());
    }
    let mut base: usize = 0;
    let mut j: usize = 0;
    while j < lines.len()
        invariant
            j <= lines.len(),
            directive@ == "%base_score"@,
            spec_line_elems(lv, j as int, base as int, views_of(out@)) == spec_line_elems(
                lv,
                0,
                0,
                Seq::empty(),
            ),
        decreases lines.len() - j,
    {
        let ghost acc0 = views_of(out@);
        match parse_line(lines[j].as_str()) {
            None => {
                proof {
                    assert(false);
                }
            },
            Some(kv) => {
                let (key, valopt) = kv;
                match valopt {
                    Some(val) => {
                        if key == directive {
                            match parse_usize_str(val.as_str()) {
                                Some(n) => {
                                    base = n;
                                },
                                None => {},
                            }
                        } else {
                            out.push(Element { name: key, value: val, base_score: base });
                            proof {
                                assert(views_of(out@) =~= acc0.push(
                                    spec_line_elems_pushed_kv(lv[j as int], base as int),
                                ));
                            }
                        }
                    },
                    None => {
                        let klen = key.as_str().unicode_len();
                        if klen > 0 {
                            let value = key.clone();
                            out.push(Element { name: key, value, base_score: base });
                            proof {
                                assert(views_of(out@) =~= acc0.push(
                                    spec_line_elems_pushed_key(lv[j as int], base as int),
                                ));
                            }
                        }
                    },
                }
            },
        }
        j = j + 1;
    }
    out
}

/// The candidate that a `KEY=VALUE` line declares.
pub open spec fn spec_line_elems_pushed_kv(line: Seq<char>, base: int) -> ElemV {
    let kv = spec_parse_line(line);
    ElemV { name: kv.0, value: kv.1.unwrap(), base_score: base }
}

/// The candidate that a bare `KEY` line declares.
pub open spec fn spec_line_elems_pushed_key(line: Seq<char>, base: int) -> ElemV {
    let kv = spec_parse_line(line);
    ElemV { name: kv.0, value: kv.0, base_score: base }
}

// ----- fuzzy ranking -----

pub open spec fn is_ascii_upper(c: char) -> bool {
    'A' as int <= c as int <= 'Z' as int
}

/// Character equality up to ASCII case.
pub open spec fn ascii_ci_eq(a: char, b: char) -> bool {
    ||| a == b
    ||| (is_ascii_upper(a) && a as int + 32 == b as int)
    ||| (is_ascii_upper(b) && b as int + 32 == a as int)
}

/// The pattern occurs in the name as an ordered subsequence, comparing
/// characters up to ASCII case.
pub open spec fn is_ci_subsequence(pat: Seq<char>, name: Seq<char>) -> bool {
    exists|m: Seq<int>|
        {
            &&& m.len() == pat.len()
            &&& forall|i: int| 0 <= i < m.len() ==> 0 <= #[trigger] m[i] < name.len()
            &&& forall|i: int| 0 <= i + 1 < m.len() ==> #[trigger] m[i] < m[i + 1]
            &&& forall|i: int| 0 <= i < pat.len() ==> ascii_ci_eq(name[#[trigger] m[i]], pat[i])
        }
}

/// The fuzzy match score of a candidate name against the query pattern,
/// or nothing when the pattern does not match the name.
pub uninterp spec fn fuzzy_score(name: Seq<char>, pattern: Seq<char>) -> Option<i64>;

/// Relies on fuzzy_matcher's `SkimMatcherV2::fuzzy_match` with the default
/// configuration: the score depends on the two texts alone; an empty
/// pattern matches everything with score zero; and a match exists only if
/// the pattern is an ordered subsequence of the name up to ASCII case
/// (its `cheap_matches` pre-pass demands exactly that).
#[verifier::external_body]
fn fuzzy_match_score(name: &str, pattern: &str) -> (r: Option<i64>)
    ensures
        r == fuzzy_score(name@, pattern@),
        pattern@.len() == 0 ==> r == Some(0i64),
        r is Some ==> is_ci_subsequence(pattern@, name@),
{
    let matcher = fuzzy_matcher::skim::SkimMatcherV2::default();
    fuzzy_matcher::FuzzyMatcher::fuzzy_match(&matcher, name, pattern)
}

/// A matched candidate's effective rank: fuzzy score plus base score.
pub open spec fn eff_score(e: ElemV, pat: Seq<char>) -> int {
    fuzzy_score(e.name, pat).unwrap() + e.base_score
}

impl ElementList {
    /// Ranks the candidates against the query: exactly the positions whose
    /// name the pattern fuzzy-matches, ordered by effective score, largest
    /// first.  A candidate that does not contain the pattern as an ordered
    /// character subsequence (up to ASCII case) never appears.
    #[verifier::loop_isolation(false)]
    pub fn search_indices(&self, pattern: &str) -> (r: Vec<usize>)
        ensures
            r@.len() <= self@.len(),
            pattern@.len() == 0 ==> r@.len() == self@.len(),
            pattern@.len() == 0 ==> forall|i: int|
                0 <= i < self@.len() ==> fuzzy_score(
                    (#[trigger] self@[i])@.name,
                    pattern@,
                ) == Some(0i64),
            forall|j: int|
                0 <= j < r@.len() ==> (#[trigger] r@[j]) < self@.len() && fuzzy_score(
                    self@[r@[j] as int]@.name,
                    pattern@,
                ) is Some && is_ci_subsequence(pattern@, self@[r@[j] as int]@.name),
            forall|i: int|
                0 <= i < self@.len() && fuzzy_score(self@[i]@.name, pattern@) is Some
                    ==> exists|j: int| 0 <= j < r@.len() && #[trigger] r@[j] == i,
            forall|j: int, k: int| 0 <= j < k < r@.len() ==> r@[j] != r@[k],
            forall|j: int, k: int|
                0 <= j < k < r@.len() ==> eff_score(self@[r@[k] as int]@, pattern@) <= eff_score(
                    self@[r@[j] as int]@,
                    pattern@,
                ),
    {
        let n = self.inner.len();
        let mut pairs: Vec<(i128, usize)> = Vec::new();
        let mut i: usize = 0;
        while i < n
            invariant
                i <= n,
                n == self@.len(),
                pairs@.len() <= i,
                pattern@.len() == 0 ==> pairs@.len() == i,
                pattern@.len() == 0 ==> forall|x: int|
                    0 <= x < i ==> fuzzy_score(
                        (#[trigger] self@[x])@.name,
                        pattern@,
                    ) == Some(0i64),
                forall|t: int|
                    0 <= t < pairs@.len() ==> (#[trigger] pairs@[t]).1 < i && fuzzy_score(
                        self@[pairs@[t].1 as int]@.name,
                        pattern@,
                    ) is Some && is_ci_subsequence(pattern@, self@[pairs@[t].1 as int]@.name)
                        && pairs@[t].0 as int == eff_score(self@[pairs@[t].1 as int]@, pattern@),
                forall|t: int, u: int|
                    0 <= t < u < pairs@.len() ==> (#[trigger] pairs@[t]).1 != (#[trigger] pairs@[u]).1,
                forall|x: int|
                    0 <= x < i && fuzzy_score(self@[x]@.name, pattern@) is Some
                        ==> exists|t: int| 0 <= t < pairs@.len() && (#[trigger] pairs@[t]).1 == x,
                forall|t: int, u: int|
                    0 <= t < u < pairs@.len() ==> (#[trigger] pairs@[u]).0 <= (#[trigger] pairs@[t]).0,
            decreases n - i,
        {
            match fuzzy_match_score(self.inner[i].name.as_str(), pattern) {
                Some(sc) => {
                    let eff: i128 = sc as i128 + self.inner[i].base_score as i128;
                    let mut k: usize = 0;
                    while k < pairs.len() && pairs[k].0 >= eff
                        invariant
                            k <= pairs@.len(),
                            forall|t: int| 0 <= t < k ==> (#[trigger] pairs@[t]).0 >= eff,
                        decreases pairs@.len() - k,
                    {
                        k = k + 1;
                    }
                    let ghost pb = pairs@;
                    pairs.insert(k, (eff, i));
                    proof {
                        pb.insert_ensures(k as int, (eff, i));
                        assert forall|t: int| 0 <= t < pairs@.len() implies (#[trigger] pairs@[t])
                            == if t < k {
                            pb[t]
                        } else if t == k {
                            (eff, i)
                        } else {
                            pb[t - 1]
                        } by {
                            if t < k {
                            } else if t == k {
                            } else {
                                assert(pairs@[t] == pb[t - 1]);
                            }
                        }
                        assert forall|x: int|
                            0 <= x < i + 1 && fuzzy_score(self@[x]@.name, pattern@) is Some
                            implies exists|t: int|
                            0 <= t < pairs@.len() && (#[trigger] pairs@[t]).1 == x by {
                            if x == i {
                                assert(pairs@[k as int].1 == x);
                            } else {
                                let t0 = choose|t: int|
                                    0 <= t < pb.len() && (#[trigger] pb[t]).1 == x;
                                if t0 < k {
                                    assert(pairs@[t0].1 == x);
                                } else {
                                    assert(pairs@[t0 + 1].1 == x);
                                }
                            }
                        }
                    }
                },
                None => {},
            }
            i = i + 1;
        }
        let mut out: Vec<usize> = Vec::new();
        let mut j: usize = 0;
        while j < pairs.len()
            invariant
                j <= pairs@.len(),
                out@.len() == j,
                forall|t: int| 0 <= t < j ==> (#[trigger] out@[t]) == pairs@[t].1,
            decreases pairs@.len() - j,
        {
            out.push(pairs[j].1);
            j = j + 1;
        }
        proof {
            assert forall|x: int|
                0 <= x < self@.len() && fuzzy_score(self@[x]@.name, pattern@) is Some
                implies exists|t: int| 0 <= t < out@.len() && (#[trigger] out@[t]) == x by {
                let t0 = choose|t: int| 0 <= t < pairs@.len() && (#[trigger] pairs@[t]).1 == x;
                assert(out@[t0] == x);
            }
        }
        out
    }

    /// Ranks the candidates against the query and hands them out by
    /// reference, ordered by effective score, largest first: some
    /// position mapping draws each matching list position exactly once.
    #[verifier::loop_isolation(false)]
    pub fn search(&self, pattern: &str) -> (r: Vec<&Element>)
        ensures
            r@.len() <= self@.len(),
            pattern@.len() == 0 ==> r@.len() == self@.len(),
            exists|m: Seq<int>| ranked_by(self@, pattern@, r@, m),
            forall|j: int|
                0 <= j < r@.len() ==> fuzzy_score((#[trigger] r@[j])@.name, pattern@) is Some
                    && is_ci_subsequence(pattern@, (r@[j])@.name) && exists|i: int|
                    0 <= i < self@.len() && *(r@[j]) == self@[i],
            forall|j: int, k: int|
                0 <= j < k < r@.len() ==> eff_score((r@[k])@, pattern@) <= eff_score(
                    (r@[j])@,
                    pattern@,
                ),
    {
        let idx = self.search_indices(pattern);
        let mut out: Vec<&Element> = Vec::new();
        let mut j: usize = 0;
        while j < idx.len()
            invariant
                j <= idx@.len(),
                out@.len() == j,
                forall|t: int| 0 <= t < j ==> *(#[trigger] out@[t]) == self@[idx@[t] as int],
            decreases idx@.len() - j,
        {
            out.push(&self.inner[idx[j]]);
            j = j + 1;
        }
        proof {
            let mm = idx@.map_values(|u: usize| u as int);
            assert forall|t: int| 0 <= t < mm.len() implies #[trigger] mm[t] == idx@[t] as int by {}
            assert forall|i: int|
                0 <= i < self@.len() && fuzzy_score((#[trigger] self@[i])@.name, pattern@) is Some
                implies exists|t: int| 0 <= t < mm.len() && #[trigger] mm[t] == i by {
                let t0 = choose|t: int| 0 <= t < idx@.len() && #[trigger] idx@[t] == i;
                assert(mm[t0] == i);
            }
            assert(ranked_by(self@, pattern@, out@, mm));
        }
        out
    }
}

/// `m` maps the ranked output back onto candidate-list positions: one
/// distinct, in-bounds position per output slot, every fuzzy-matching
/// position covered, and the slots ordered by effective score, largest
/// first.
pub open spec fn ranked_by(
    es: Seq<Element>,
    pat: Seq<char>,
    r: Seq<&Element>,
    m: Seq<int>,
) -> bool {
    &&& m.len() == r.len()
    &&& forall|j: int| 0 <= j < m.len() ==> 0 <= #[trigger] m[j] < es.len()
    &&& forall|j: int| 0 <= j < m.len() ==> *r[j] == es[#[trigger] m[j]]
    &&& forall|j: int, k: int| 0 <= j < k < m.len() ==> m[j] != m[k]
    &&& forall|j: int| 0 <= j < m.len() ==> fuzzy_score(es[#[trigger] m[j]]@.name, pat) is Some
    &&& forall|i: int|
        0 <= i < es.len() && fuzzy_score((#[trigger] es[i])@.name, pat) is Some ==> exists|j: int|
            0 <= j < m.len() && #[trigger] m[j] == i
    &&& forall|j: int, k: int|
        0 <= j < k < m.len() ==> eff_score(es[m[k]]@, pat) <= eff_score(es[m[j]]@, pat)
}

} // verus!
