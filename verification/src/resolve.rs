//! The resolver: scores documents against a query, ranks them, selects under
//! a budget, and renders the frozen JSON result.
//!
//! Ranking uses the strict total order (score descending, id ascending);
//! selection is first-fit in rank order with no backtracking, and a zero
//! budget selects nothing at all. The output lists the selected documents in
//! rank order together with the selection counts, and is a pure function of
//! the cache bytes, the query, and the budget.

use vstd::prelude::*;
use crate::jsonp::parse_json;
use crate::jsonp::pjson;
use crate::text::tokens;
use crate::text::tokenize;
use crate::score::ratio_bits;
use crate::score::ratio_to_bits;
use crate::score::score_text;
use crate::score::score_bytes;
use crate::cache::IndexDoc;
use crate::cache::IndexDocV;
use crate::cache::ManifestData;
use crate::cache::ManifestV;
use crate::cache::manifest_of;
use crate::cache::index_of;
use crate::cache::extract_manifest;
use crate::cache::extract_index;
use crate::cache::sum_counts;
use crate::model::ErrKind;
use crate::model::ReadOutcome;
use crate::model::ReadView;
use crate::model::bytes_eq;
use crate::jsonw::quoted;
use crate::jsonw::push_quoted;
use crate::jsonw::push_slice;
use crate::numfmt::dec_digits;
use crate::numfmt::push_u64_dec;

verus! {

/// A document with its match statistics, ready for ranking.
pub struct ScoredDoc {
    pub id: Vec<u8>,
    pub matches: u64,
    pub word_count: u64,
    pub bits: u32,
    pub cost: u64,
}

pub struct ScoredV {
    pub id: Seq<u8>,
    pub matches: u64,
    pub word_count: u64,
    pub bits: u32,
    pub cost: u64,
}

impl View for ScoredDoc {
    type V = ScoredV;

    open spec fn view(&self) -> ScoredV {
        ScoredV {
            id: self.id@,
            matches: self.matches,
            word_count: self.word_count,
            bits: self.bits,
            cost: self.cost,
        }
    }
}

/// How many of a document's words belong to the query's term set.
pub open spec fn match_count(terms: Seq<(Seq<u8>, u64)>, q: Seq<u8>) -> int
    decreases terms.len(),
{
    if terms.len() == 0 {
        0
    } else {
        match_count(terms.drop_last(), q) + (if tokens(q).contains(terms.last().0) {
            terms.last().1 as int
        } else {
            0
        })
    }
}

/// Matching words are never more than all counted words.
pub proof fn lemma_match_le_sum(terms: Seq<(Seq<u8>, u64)>, q: Seq<u8>)
    ensures
        0 <= match_count(terms, q) <= sum_counts(terms),
    decreases terms.len(),
{
    if terms.len() > 0 {
        lemma_match_le_sum(terms.drop_last(), q);
    }
}

/// The score bits of a document: zero when nothing matches or nothing was
/// counted, else the binary32 quotient.
pub open spec fn score_bits_of(matches: int, word_count: u64) -> u32 {
    if matches == 0 || word_count == 0 {
        0
    } else {
        ratio_bits(matches as nat, word_count as nat) as u32
    }
}

/// The scored form of one index document under a query.
pub open spec fn scored_of(d: IndexDocV, q: Seq<u8>) -> ScoredV {
    let mc = match_count(d.terms, q);
    ScoredV {
        id: d.id,
        matches: mc as u64,
        word_count: d.word_count,
        bits: score_bits_of(mc, d.word_count),
        cost: d.size,
    }
}

/// Lexicographic order on byte strings.
pub open spec fn lex_le(a: Seq<u8>, b: Seq<u8>) -> bool
    decreases a.len(),
{
    if a.len() == 0 {
        true
    } else if b.len() == 0 {
        false
    } else if a.first() < b.first() {
        true
    } else if a.first() > b.first() {
        false
    } else {
        lex_le(a.drop_first(), b.drop_first())
    }
}

/// Rank order: higher score first, then ascending id.
pub open spec fn doc_le(a: ScoredV, b: ScoredV) -> bool {
    a.bits > b.bits || (a.bits == b.bits && lex_le(a.id, b.id))
}

pub proof fn lemma_lex_le_total(a: Seq<u8>, b: Seq<u8>)
    ensures
        lex_le(a, b) || lex_le(b, a),
    decreases a.len(),
{
    if a.len() > 0 && b.len() > 0 && a.first() == b.first() {
        lemma_lex_le_total(a.drop_first(), b.drop_first());
    }
}

pub proof fn lemma_lex_le_trans(a: Seq<u8>, b: Seq<u8>, c: Seq<u8>)
    requires
        lex_le(a, b),
        lex_le(b, c),
    ensures
        lex_le(a, c),
    decreases a.len(),
{
    if a.len() > 0 && b.len() > 0 && c.len() > 0 && a.first() == b.first() && b.first()
        == c.first() {
        lemma_lex_le_trans(a.drop_first(), b.drop_first(), c.drop_first());
    }
}

pub proof fn lemma_doc_le_total(a: ScoredV, b: ScoredV)
    ensures
        doc_le(a, b) || doc_le(b, a),
{
    lemma_lex_le_total(a.id, b.id);
}

pub proof fn lemma_doc_le_trans(a: ScoredV, b: ScoredV, c: ScoredV)
    requires
        doc_le(a, b),
        doc_le(b, c),
    ensures
        doc_le(a, c),
{
    if a.bits == b.bits && b.bits == c.bits {
        lemma_lex_le_trans(a.id, b.id, c.id);
    }
}

/// Inserts `v` into `s` before the first element it ranks at or above.
pub open spec fn insert_one(v: ScoredV, s: Seq<ScoredV>) -> Seq<ScoredV>
    decreases s.len(),
{
    if s.len() == 0 {
        seq![v]
    } else if doc_le(v, s.first()) {
        seq![v] + s
    } else {
        seq![s.first()] + insert_one(v, s.drop_first())
    }
}

/// Insertion sort of the scored documents, in rank order.
pub open spec fn sort_docs(s: Seq<ScoredV>) -> Seq<ScoredV>
    decreases s.len(),
{
    if s.len() == 0 {
        Seq::empty()
    } else {
        insert_one(s.first(), sort_docs(s.drop_first()))
    }
}

/// Pairwise rank order.
pub open spec fn sorted_docs(s: Seq<ScoredV>) -> bool {
    forall|i: int, j: int| 0 <= i < j < s.len() ==> doc_le(s[i], s[j])
}

pub proof fn lemma_insert_one_len(v: ScoredV, s: Seq<ScoredV>)
    ensures
        insert_one(v, s).len() == s.len() + 1,
    decreases s.len(),
{
    if s.len() > 0 && !doc_le(v, s.first()) {
        lemma_insert_one_len(v, s.drop_first());
    }
}

/// Everything in the insertion result is the new element or an old one.
pub proof fn lemma_insert_one_contains(v: ScoredV, s: Seq<ScoredV>, x: ScoredV)
    requires
        insert_one(v, s).contains(x),
    ensures
        x == v || s.contains(x),
    decreases s.len(),
{
    if s.len() > 0 && !doc_le(v, s.first()) {
        let r = insert_one(v, s);
        let i = choose|i: int| 0 <= i < r.len() && r[i] == x;
        if i == 0 {
            assert(s.contains(s.first())) by {
                assert(s[0] == s.first());
            }
        } else {
            assert(insert_one(v, s.drop_first())[i - 1] == x);
            assert(insert_one(v, s.drop_first()).contains(x));
            lemma_insert_one_contains(v, s.drop_first(), x);
            if s.drop_first().contains(x) {
                let k = choose|k: int| 0 <= k < s.drop_first().len() && s.drop_first()[k] == x;
                assert(s[k + 1] == x);
            }
        }
    } else {
        if s.len() == 0 {
            assert(x == v);
        } else {
            let r = seq![v] + s;
            let i = choose|i: int| 0 <= i < r.len() && r[i] == x;
            if i > 0 {
                assert(s[i - 1] == x);
            }
        }
    }
}

/// Inserting into a sorted sequence keeps it sorted.
pub proof fn lemma_insert_one_sorted(v: ScoredV, s: Seq<ScoredV>)
    requires
        sorted_docs(s),
    ensures
        sorted_docs(insert_one(v, s)),
    decreases s.len(),
{
    if s.len() == 0 {
    } else if doc_le(v, s.first()) {
        let r = seq![v] + s;
        assert forall|i: int, j: int| 0 <= i < j < r.len() implies doc_le(r[i], r[j]) by {
            if i == 0 {
                assert(r[j] == s[j - 1]);
                if j == 1 {
                } else {
                    assert(doc_le(s[0], s[j - 1]));
                    lemma_doc_le_trans(v, s[0], s[j - 1]);
                }
            } else {
                assert(r[i] == s[i - 1] && r[j] == s[j - 1]);
            }
        }
    } else {
        let tail = s.drop_first();
        assert(sorted_docs(tail)) by {
            assert(forall|i: int, j: int| 0 <= i < j < tail.len() ==> tail[i] == s[i + 1] && tail[j]
                == s[j + 1]);
        }
        lemma_insert_one_sorted(v, s.drop_first());
        lemma_doc_le_total(v, s.first());
        let sub = insert_one(v, s.drop_first());
        let r = seq![s.first()] + sub;
        lemma_insert_one_len(v, s.drop_first());
        assert forall|i: int, j: int| 0 <= i < j < r.len() implies doc_le(r[i], r[j]) by {
            if i == 0 {
                assert(r[j] == sub[j - 1]);
                assert(sub.contains(sub[j - 1]));
                lemma_insert_one_contains(v, s.drop_first(), sub[j - 1]);
                if sub[j - 1] == v {
                    assert(doc_le(s.first(), v));
                } else {
                    let k = choose|k: int|
                        0 <= k < s.drop_first().len() && s.drop_first()[k] == sub[j - 1];
                    assert(s[k + 1] == sub[j - 1]);
                    assert(doc_le(s[0], s[k + 1]));
                }
            } else {
                assert(r[i] == sub[i - 1] && r[j] == sub[j - 1]);
            }
        }
    }
}

/// The sorted sequence is in rank order.
pub proof fn lemma_sort_docs_sorted(s: Seq<ScoredV>)
    ensures
        sorted_docs(sort_docs(s)),
        sort_docs(s).len() == s.len(),
    decreases s.len(),
{
    if s.len() > 0 {
        lemma_sort_docs_sorted(s.drop_first());
        lemma_insert_one_sorted(s.first(), sort_docs(s.drop_first()));
        lemma_insert_one_len(s.first(), sort_docs(s.drop_first()));
    }
}

/// Everything in the sorted sequence came from the input.
pub proof fn lemma_sort_docs_contains(s: Seq<ScoredV>, x: ScoredV)
    requires
        sort_docs(s).contains(x),
    ensures
        s.contains(x),
    decreases s.len(),
{
    if s.len() > 0 {
        lemma_insert_one_contains(s.first(), sort_docs(s.drop_first()), x);
        if x == s.first() {
            assert(s[0] == x);
        } else {
            lemma_sort_docs_contains(s.drop_first(), x);
            let k = choose|k: int| 0 <= k < s.drop_first().len() && s.drop_first()[k] == x;
            assert(s[k + 1] == x);
        }
    }
}

/// Compares two byte strings lexicographically.
pub fn lex_le_exec(a: &[u8], b: &[u8]) -> (r: bool)
    ensures
        r == lex_le(a@, b@),
{
    let n = if a.len() < b.len() {
        a.len()
    } else {
        b.len()
    };
    let mut i: usize = 0;
    proof {
        assert(a@.skip(0) =~= a@);
        assert(b@.skip(0) =~= b@);
    }
    while i < n
        invariant
            i <= n,
            n == (if a@.len() < b@.len() {
                a@.len()
            } else {
                b@.len()
            }),
            lex_le(a@, b@) == lex_le(a@.skip(i as int), b@.skip(i as int)),
            forall|k: int| 0 <= k < i ==> a@[k] == b@[k],
        decreases n - i,
    {
        proof {
            assert(a@.skip(i as int).first() == a@[i as int]);
            assert(b@.skip(i as int).first() == b@[i as int]);
            assert(a@.skip(i as int).drop_first() =~= a@.skip(i + 1));
            assert(b@.skip(i as int).drop_first() =~= b@.skip(i + 1));
        }
        if a[i] < b[i] {
            return true;
        }
        if a[i] > b[i] {
            return false;
        }
        i = i + 1;
    }
    proof {
        if a@.len() <= b@.len() {
            assert(a@.skip(i as int).len() == 0);
        } else {
            assert(b@.skip(i as int).len() == 0);
            assert(a@.skip(i as int).len() > 0);
        }
    }
    a.len() <= b.len()
}

/// Decides the rank order between two scored documents.
fn doc_le_exec(a: &ScoredDoc, b: &ScoredDoc) -> (r: bool)
    ensures
        r == doc_le(a@, b@),
{
    if a.bits > b.bits {
        true
    } else if a.bits == b.bits {
        lex_le_exec(a.id.as_slice(), b.id.as_slice())
    } else {
        false
    }
}

/// Sorts scored documents into rank order.
#[verifier::loop_isolation(false)]
pub fn sort_docs_exec(docs: Vec<ScoredDoc>) -> (r: Vec<ScoredDoc>)
    ensures
        Seq::new(r@.len(), |k: int| r@[k]@) == sort_docs(Seq::new(docs@.len(), |k: int| docs@[k]@)),
{
    let ghost full = Seq::new(docs@.len(), |k: int| docs@[k]@);
    let mut out: Vec<ScoredDoc> = Vec::new();
    let n = docs.len();
    let mut i: usize = n;
    proof {
        assert(Seq::new((full.len() - n) as nat, |k: int| full[n + k]) =~= Seq::<ScoredV>::empty());
        assert(Seq::new(out@.len(), |k: int| out@[k]@) =~= Seq::<ScoredV>::empty());
    }
    while i > 0
        invariant
            i <= n,
            n == docs@.len(),
            Seq::new(out@.len(), |k: int| out@[k]@) == sort_docs(
                Seq::new((full.len() - i) as nat, |k: int| full[i + k]),
            ),
        decreases i,
    {
        i = i - 1;
        let ghost pre = Seq::new(out@.len(), |k: int| out@[k]@);
        let ghost tail = Seq::new((full.len() - i - 1) as nat, |k: int| full[i + 1 + k]);
        let ghost cur = Seq::new((full.len() - i) as nat, |k: int| full[i + k]);
        proof {
            assert(cur.first() == full[i as int]);
            assert(cur.drop_first() =~= tail);
        }
        // Find the insertion position for docs[i].
        let v = clone_scored(&docs[i]);
        let mut p: usize = 0;
        while p < out.len() && !doc_le_exec(&v, &out[p])
            invariant
                p <= out@.len(),
                v@ == full[i as int],
                forall|k: int| 0 <= k < p ==> !doc_le(v@, pre[k]),
                pre == Seq::new(out@.len(), |k: int| out@[k]@),
            decreases out@.len() - p,
        {
            p = p + 1;
        }
        out.insert(p, v);
        proof {
            assert(Seq::new(out@.len(), |k: int| out@[k]@) =~= pre.insert(p as int, full[i as int]));
            assert(insert_one(full[i as int], pre) =~= pre.insert(p as int, full[i as int])) by {
                lemma_insert_one_shape(full[i as int], pre, p as int);
            }
        }
    }
    proof {
        assert(Seq::new((full.len() - 0) as nat, |k: int| full[0 + k]) =~= full);
    }
    out
}

/// Where the scan stopped is exactly where the insertion specification
/// places the new element.
proof fn lemma_insert_one_shape(v: ScoredV, s: Seq<ScoredV>, p: int)
    requires
        0 <= p <= s.len(),
        forall|k: int| 0 <= k < p ==> !doc_le(v, s[k]),
        p < s.len() ==> doc_le(v, s[p]),
    ensures
        insert_one(v, s) == s.insert(p, v),
    decreases s.len(),
{
    if s.len() == 0 {
        assert(insert_one(v, s) =~= s.insert(0, v));
    } else if doc_le(v, s.first()) {
        assert(p == 0) by {
            if p > 0 {
                assert(!doc_le(v, s[0]));
            }
        }
        assert(insert_one(v, s) =~= s.insert(0, v));
    } else {
        assert(p > 0) by {
            if p == 0 {
                assert(doc_le(v, s[0]));
            }
        }
        lemma_insert_one_shape(v, s.drop_first(), p - 1);
        assert(insert_one(v, s) == seq![s.first()] + insert_one(v, s.drop_first()));
        assert(seq![s.first()] + s.drop_first().insert(p - 1, v) =~= s.insert(p, v));
    }
}

/// Clones a scored document.
fn clone_scored(d: &ScoredDoc) -> (r: ScoredDoc)
    ensures
        r@ == d@,
{
    ScoredDoc {
        id: d.id.clone(),
        matches: d.matches,
        word_count: d.word_count,
        bits: d.bits,
        cost: d.cost,
    }
}

/// First-fit selection in rank order: a document is taken when the budget is
/// positive and its cost still fits; a document that does not fit is
/// excluded, and later documents are still attempted. Returns the selected
/// documents and the number excluded.
pub open spec fn first_fit(s: Seq<ScoredV>, budget: u64, used: u64) -> (Seq<ScoredV>, int)
    decreases s.len(),
{
    if s.len() == 0 {
        (Seq::empty(), 0)
    } else {
        let c = s.first().cost;
        if budget != 0 && used + c <= budget {
            let r = first_fit(s.drop_first(), budget, (used + c) as u64);
            (seq![s.first()] + r.0, r.1)
        } else {
            let r = first_fit(s.drop_first(), budget, used);
            (r.0, r.1 + 1)
        }
    }
}

/// Selection never invents documents.
pub proof fn lemma_first_fit_contains(s: Seq<ScoredV>, budget: u64, used: u64, x: ScoredV)
    requires
        first_fit(s, budget, used).0.contains(x),
    ensures
        s.contains(x),
    decreases s.len(),
{
    if s.len() > 0 {
        let c = s.first().cost;
        if budget != 0 && used + c <= budget {
            let r = first_fit(s.drop_first(), budget, (used + c) as u64);
            if x == s.first() {
                assert(s[0] == x);
            } else {
                let full = seq![s.first()] + r.0;
                let i = choose|i: int| 0 <= i < full.len() && full[i] == x;
                assert(r.0[i - 1] == x);
                lemma_first_fit_contains(s.drop_first(), budget, (used + c) as u64, x);
                let k = choose|k: int| 0 <= k < s.drop_first().len() && s.drop_first()[k] == x;
                assert(s[k + 1] == x);
            }
        } else {
            lemma_first_fit_contains(s.drop_first(), budget, used, x);
            let k = choose|k: int| 0 <= k < s.drop_first().len() && s.drop_first()[k] == x;
            assert(s[k + 1] == x);
        }
    }
}

/// Selected plus excluded is considered.
pub proof fn lemma_first_fit_counts(s: Seq<ScoredV>, budget: u64, used: u64)
    ensures
        first_fit(s, budget, used).0.len() + first_fit(s, budget, used).1 == s.len(),
        first_fit(s, budget, used).1 >= 0,
    decreases s.len(),
{
    if s.len() > 0 {
        let c = s.first().cost;
        if budget != 0 && used + c <= budget {
            lemma_first_fit_counts(s.drop_first(), budget, (used + c) as u64);
        } else {
            lemma_first_fit_counts(s.drop_first(), budget, used);
        }
    }
}

/// A zero budget selects nothing and excludes everything.
pub proof fn lemma_zero_budget_excludes_all(s: Seq<ScoredV>)
    ensures
        first_fit(s, 0, 0).0 == Seq::<ScoredV>::empty(),
        first_fit(s, 0, 0).1 == s.len(),
    decreases s.len(),
{
    if s.len() > 0 {
        lemma_zero_budget_excludes_all(s.drop_first());
    }
}

/// The total cost of a run of documents.
pub open spec fn total_cost(s: Seq<ScoredV>) -> int
    decreases s.len(),
{
    if s.len() == 0 {
        0
    } else {
        s.first().cost + total_cost(s.drop_first())
    }
}

/// When everything fits inside a positive budget, everything is selected.
pub proof fn lemma_all_fit_all_selected(s: Seq<ScoredV>, budget: u64, used: u64)
    requires
        budget != 0,
        used + total_cost(s) <= budget,
    ensures
        first_fit(s, budget, used).0 == s,
        first_fit(s, budget, used).1 == 0,
    decreases s.len(),
{
    if s.len() > 0 {
        let c = s.first().cost;
        assert(total_cost(s.drop_first()) >= 0) by {
            lemma_total_cost_nonneg(s.drop_first());
        }
        lemma_all_fit_all_selected(s.drop_first(), budget, (used + c) as u64);
        assert(seq![s.first()] + s.drop_first() =~= s);
    }
}

pub proof fn lemma_total_cost_nonneg(s: Seq<ScoredV>)
    ensures
        total_cost(s) >= 0,
    decreases s.len(),
{
    if s.len() > 0 {
        lemma_total_cost_nonneg(s.drop_first());
    }
}

/// Performs first-fit selection on sorted documents.
#[verifier::loop_isolation(false)]
pub fn select_docs(docs: Vec<ScoredDoc>, budget: u64) -> (r: (Vec<ScoredDoc>, u64))
    requires
        docs@.len() <= u64::MAX,
    ensures
        Seq::new(r.0@.len(), |k: int| r.0@[k]@) == first_fit(
            Seq::new(docs@.len(), |k: int| docs@[k]@),
            budget,
            0,
        ).0,
        r.1 == first_fit(Seq::new(docs@.len(), |k: int| docs@[k]@), budget, 0).1,
{
    let ghost full = Seq::new(docs@.len(), |k: int| docs@[k]@);
    let mut sel: Vec<ScoredDoc> = Vec::new();
    let mut ex: u64 = 0;
    let mut used: u64 = 0;
    let n = docs.len();
    let mut i: usize = 0;
    proof {
        assert(full.skip(0) =~= full);
        lemma_first_fit_counts(full, budget, 0);
    }
    while i < n
        invariant
            i <= n,
            n == docs@.len(),
            ex <= i,
            used <= budget || used == 0,
            first_fit(full, budget, 0).0 =~= Seq::new(sel@.len(), |k: int| sel@[k]@) + first_fit(
                full.skip(i as int),
                budget,
                used,
            ).0,
            first_fit(full, budget, 0).1 == ex + first_fit(full.skip(i as int), budget, used).1,
        decreases n - i,
    {
        let ghost pre = Seq::new(sel@.len(), |k: int| sel@[k]@);
        proof {
            assert(full.skip(i as int).first() == full[i as int]);
            assert(full.skip(i as int).drop_first() =~= full.skip(i + 1));
        }
        let c = docs[i].cost;
        if budget != 0 && used <= budget && c <= budget - used {
            let d = clone_scored(&docs[i]);
            sel.push(d);
            used = used + c;
            proof {
                assert(Seq::new(sel@.len(), |k: int| sel@[k]@) =~= pre.push(full[i as int]));
                assert(pre + (seq![full[i as int]] + first_fit(full.skip(i + 1), budget, used).0)
                    =~= pre.push(full[i as int]) + first_fit(full.skip(i + 1), budget, used).0);
            }
        } else {
            ex = ex + 1;
            proof {
                assert(!(budget != 0 && used + c <= budget));
            }
        }
        i = i + 1;
    }
    proof {
        assert(full.skip(n as int) =~= Seq::<ScoredV>::empty());
        assert(Seq::new(sel@.len(), |k: int| sel@[k]@) + Seq::<ScoredV>::empty() =~= Seq::new(
            sel@.len(),
            |k: int| sel@[k]@,
        ));
    }
    (sel, ex)
}

pub open spec fn frag_head() -> Seq<u8> {
    seq![123u8, 34u8, 100u8, 111u8, 99u8, 117u8, 109u8, 101u8, 110u8, 116u8, 115u8, 34u8, 58u8,
        91u8]
}

pub open spec fn frag_id() -> Seq<u8> {
    seq![123u8, 34u8, 105u8, 100u8, 34u8, 58u8]
}

pub open spec fn frag_score() -> Seq<u8> {
    seq![44u8, 34u8, 115u8, 99u8, 111u8, 114u8, 101u8, 34u8, 58u8]
}

pub open spec fn frag_sel() -> Seq<u8> {
    seq![93u8, 44u8, 34u8, 115u8, 101u8, 108u8, 101u8, 99u8, 116u8, 105u8, 111u8, 110u8, 34u8,
        58u8, 123u8, 34u8, 100u8, 111u8, 99u8, 117u8, 109u8, 101u8, 110u8, 116u8, 115u8, 95u8,
        99u8, 111u8, 110u8, 115u8, 105u8, 100u8, 101u8, 114u8, 101u8, 100u8, 34u8, 58u8]
}

pub open spec fn frag_selected() -> Seq<u8> {
    seq![44u8, 34u8, 100u8, 111u8, 99u8, 117u8, 109u8, 101u8, 110u8, 116u8, 115u8, 95u8, 115u8,
        101u8, 108u8, 101u8, 99u8, 116u8, 101u8, 100u8, 34u8, 58u8]
}

pub open spec fn frag_excluded() -> Seq<u8> {
    seq![44u8, 34u8, 100u8, 111u8, 99u8, 117u8, 109u8, 101u8, 110u8, 116u8, 115u8, 95u8, 101u8,
        120u8, 99u8, 108u8, 117u8, 100u8, 101u8, 100u8, 95u8, 98u8, 121u8, 95u8, 98u8, 117u8,
        100u8, 103u8, 101u8, 116u8, 34u8, 58u8]
}

pub open spec fn frag_end() -> Seq<u8> {
    seq![125u8, 125u8]
}

/// One selected document as JSON.
pub open spec fn doc_entry_json(d: ScoredV) -> Seq<u8> {
    frag_id() + quoted(d.id) + frag_score() + score_text(d.matches as nat, d.word_count as nat)
        + seq![125u8]
}

/// The selected documents as a JSON array body.
pub open spec fn docs_json(s: Seq<ScoredV>) -> Seq<u8>
    decreases s.len(),
{
    if s.len() == 0 {
        Seq::empty()
    } else if s.len() == 1 {
        doc_entry_json(s[0])
    } else {
        docs_json(s.drop_last()) + seq![44u8] + doc_entry_json(s.last())
    }
}

/// The whole frozen resolve output.
pub open spec fn selection_json(sel: Seq<ScoredV>, considered: u64, ex: u64) -> Seq<u8> {
    frag_head() + docs_json(sel) + frag_sel() + dec_digits(considered as nat) + frag_selected()
        + dec_digits(sel.len()) + frag_excluded() + dec_digits(ex as nat) + frag_end()
}

fn push_frag_head(out: &mut Vec<u8>)
    ensures
        final(out)@ == old(out)@ + frag_head(),
{
    let f: Vec<u8> = vec![123u8, 34, 100, 111, 99, 117, 109, 101, 110, 116, 115, 34, 58, 91];
    push_slice(f.as_slice(), out);
    assert(final(out)@ =~= old(out)@ + frag_head());
}

fn push_frag_id(out: &mut Vec<u8>)
    ensures
        final(out)@ == old(out)@ + frag_id(),
{
    let f: Vec<u8> = vec![123u8, 34, 105, 100, 34, 58];
    push_slice(f.as_slice(), out);
    assert(final(out)@ =~= old(out)@ + frag_id());
}

fn push_frag_score(out: &mut Vec<u8>)
    ensures
        final(out)@ == old(out)@ + frag_score(),
{
    let f: Vec<u8> = vec![44u8, 34, 115, 99, 111, 114, 101, 34, 58];
    push_slice(f.as_slice(), out);
    assert(final(out)@ =~= old(out)@ + frag_score());
}

fn push_frag_sel(out: &mut Vec<u8>)
    ensures
        final(out)@ == old(out)@ + frag_sel(),
{
    let f: Vec<u8> = vec![93u8, 44, 34, 115, 101, 108, 101, 99, 116, 105, 111, 110, 34, 58, 123,
        34, 100, 111, 99, 117, 109, 101, 110, 116, 115, 95, 99, 111, 110, 115, 105, 100, 101, 114,
        101, 100, 34, 58];
    push_slice(f.as_slice(), out);
    assert(final(out)@ =~= old(out)@ + frag_sel());
}

fn push_frag_selected(out: &mut Vec<u8>)
    ensures
        final(out)@ == old(out)@ + frag_selected(),
{
    let f: Vec<u8> = vec![44u8, 34, 100, 111, 99, 117, 109, 101, 110, 116, 115, 95, 115, 101, 108,
        101, 99, 116, 101, 100, 34, 58];
    push_slice(f.as_slice(), out);
    assert(final(out)@ =~= old(out)@ + frag_selected());
}

fn push_frag_excluded(out: &mut Vec<u8>)
    ensures
        final(out)@ == old(out)@ + frag_excluded(),
{
    let f: Vec<u8> = vec![44u8, 34, 100, 111, 99, 117, 109, 101, 110, 116, 115, 95, 101, 120, 99,
        108, 117, 100, 101, 100, 95, 98, 121, 95, 98, 117, 100, 103, 101, 116, 34, 58];
    push_slice(f.as_slice(), out);
    assert(final(out)@ =~= old(out)@ + frag_excluded());
}

/// Renders the frozen resolve output for the selected documents.
#[verifier::loop_isolation(false)]
pub fn render_selection(sel: &Vec<ScoredDoc>, considered: u64, ex: u64) -> (r: Vec<u8>)
    requires
        forall|k: int| 0 <= k < sel@.len() ==> sel@[k]@.matches <= sel@[k]@.word_count,
    ensures
        r@ == selection_json(Seq::new(sel@.len(), |k: int| sel@[k]@), considered, ex),
{
    let ghost sv = Seq::new(sel@.len(), |k: int| sel@[k]@);
    let mut out: Vec<u8> = Vec::new();
    push_frag_head(&mut out);
    let n = sel.len();
    let mut i: usize = 0;
    proof {
        assert(docs_json(sv.take(0)) =~= Seq::<u8>::empty());
        assert(out@ =~= frag_head() + docs_json(sv.take(0)));
    }
    while i < n
        invariant
            i <= n,
            n == sel@.len(),
            out@ == frag_head() + docs_json(sv.take(i as int)),
        decreases n - i,
    {
        if i > 0 {
            out.push(44);
        }
        push_frag_id(&mut out);
        push_quoted(sel[i].id.as_slice(), &mut out);
        push_frag_score(&mut out);
        let mut sc = score_bytes(sel[i].matches, sel[i].word_count);
        out.append(&mut sc);
        out.push(125);
        i = i + 1;
        proof {
            assert(sv.take(i as int).last() == sv[i - 1]);
            assert(sv.take(i as int).drop_last() =~= sv.take(i - 1));
            if i == 1 {
                assert(docs_json(sv.take(1)) == doc_entry_json(sv[0]));
            }
            assert(out@ =~= frag_head() + docs_json(sv.take(i as int)));
        }
    }
    proof {
        assert(sv.take(n as int) =~= sv);
    }
    push_frag_sel(&mut out);
    push_u64_dec(considered, &mut out);
    push_frag_selected(&mut out);
    push_u64_dec(n as u64, &mut out);
    push_frag_excluded(&mut out);
    push_u64_dec(ex, &mut out);
    out.push(125);
    out.push(125);
    proof {
        assert(dec_digits(sv.len()) == dec_digits(n as nat));
        assert(out@ =~= selection_json(sv, considered, ex));
    }
    out
}

/// The scored forms of a run of index documents.
pub open spec fn scored_seq(ds: Seq<IndexDocV>, q: Seq<u8>) -> Seq<ScoredV> {
    Seq::new(ds.len(), |k: int| scored_of(ds[k], q))
}

/// Every validated index document keeps its counts inside its word count.
proof fn lemma_idocs_wf(elems: Seq<crate::jsonp::JVal>, ds: Seq<IndexDocV>)
    requires
        crate::cache::idocs_of(elems) == Some(ds),
    ensures
        forall|k: int| 0 <= k < ds.len() ==> sum_counts(#[trigger] ds[k].terms) <= ds[k].word_count,
    decreases elems.len(),
{
    if elems.len() > 0 {
        let init = crate::cache::idocs_of(elems.drop_last());
        assert(crate::cache::idocs_of(elems) is Some);
        match (init, crate::cache::idoc_of(elems.last())) {
            (Some(i0), Some(e0)) => {
                lemma_idocs_wf(elems.drop_last(), i0);
                assert(ds == i0.push(e0));
                assert(forall|k: int| 0 <= k < i0.len() ==> ds[k] == i0[k]);
                assert(ds[ds.len() - 1] == e0);
            },
            _ => {
                assert(false);
            },
        }
    }
}

/// The whole index keeps its counts inside its word counts.
pub proof fn lemma_index_wf(j: crate::jsonp::JVal, ds: Seq<IndexDocV>)
    requires
        index_of(j) == Some(ds),
    ensures
        forall|k: int| 0 <= k < ds.len() ==> sum_counts(#[trigger] ds[k].terms) <= ds[k].word_count,
{
    match j {
        crate::jsonp::JVal::Obj(ms) => {
            match crate::model::jget(ms, crate::cache::key_documents()) {
                Some(crate::jsonp::JVal::Arr(elems)) => {
                    lemma_idocs_wf(elems, ds);
                },
                _ => {
                    assert(false);
                },
            }
        },
        _ => {
            assert(false);
        },
    }
}

/// Whether a byte string is among the tokens.
fn tok_contains(toks: &Vec<Vec<u8>>, t: &[u8]) -> (r: bool)
    ensures
        r == crate::text::bytes_view(toks@).contains(t@),
{
    let mut i: usize = 0;
    while i < toks.len()
        invariant
            i <= toks@.len(),
            forall|k: int| 0 <= k < i ==> crate::text::bytes_view(toks@)[k] != t@,
        decreases toks@.len() - i,
    {
        if bytes_eq(toks[i].as_slice(), t) {
            proof {
                assert(crate::text::bytes_view(toks@)[i as int] == t@);
            }
            return true;
        }
        i = i + 1;
    }
    proof {
        if crate::text::bytes_view(toks@).contains(t@) {
            let k = choose|k: int|
                0 <= k < crate::text::bytes_view(toks@).len() && crate::text::bytes_view(toks@)[k]
                    == t@;
            assert(false);
        }
    }
    false
}

/// Scores every index document against the query.
#[verifier::loop_isolation(false)]
pub fn score_all(ds: &Vec<IndexDoc>, query: &[u8]) -> (r: Vec<ScoredDoc>)
    requires
        forall|k: int| 0 <= k < ds@.len() ==> sum_counts(#[trigger] ds@[k]@.terms)
            <= ds@[k]@.word_count,
    ensures
        Seq::new(r@.len(), |k: int| r@[k]@) == scored_seq(
            Seq::new(ds@.len(), |k: int| ds@[k]@),
            query@,
        ),
{
    let ghost dv = Seq::new(ds@.len(), |k: int| ds@[k]@);
    let toks = tokenize(query);
    let mut out: Vec<ScoredDoc> = Vec::new();
    let n = ds.len();
    let mut i: usize = 0;
    while i < n
        invariant
            i <= n,
            n == ds@.len(),
            out@.len() == i,
            crate::text::bytes_view(toks@) == tokens(query@),
            forall|k: int| 0 <= k < i ==> #[trigger] out@[k]@ == scored_of(dv[k], query@),
        decreases n - i,
    {
        let d = &ds[i];
        let ghost tv = dv[i as int].terms;
        let m = d.terms.len();
        let mut mc: u64 = 0;
        let mut j: usize = 0;
        proof {
            assert(tv.take(0) =~= Seq::<(Seq<u8>, u64)>::empty());
        }
        while j < m
            invariant
                j <= m,
                m == d.terms@.len(),
                tv == dv[i as int].terms,
                i < n,
                mc == match_count(tv.take(j as int), query@),
                crate::text::bytes_view(toks@) == tokens(query@),
            decreases m - j,
        {
            proof {
                assert(tv.take(j + 1).drop_last() =~= tv.take(j as int));
                assert(tv.take(j + 1).last() == tv[j as int]);
                lemma_match_le_sum(tv.take(j + 1), query@);
                crate::cache::lemma_sum_take_mono(tv, j + 1);
                assert(sum_counts(tv) <= dv[i as int].word_count);
            }
            if tok_contains(&toks, d.terms[j].0.as_slice()) {
                proof {
                    assert(tv[j as int].0 == d.terms@[j as int].0@);
                }
                mc = mc + d.terms[j].1;
            }
            j = j + 1;
        }
        proof {
            assert(tv.take(m as int) =~= tv);
            lemma_match_le_sum(tv, query@);
            assert(mc <= dv[i as int].word_count);
        }
        let bits: u32 = if mc == 0 || d.word_count == 0 {
            0
        } else {
            ratio_to_bits(mc, d.word_count)
        };
        let sd = ScoredDoc {
            id: d.id.clone(),
            matches: mc,
            word_count: d.word_count,
            bits,
            cost: d.size,
        };
        proof {
            assert(sd@ == scored_of(dv[i as int], query@));
        }
        out.push(sd);
        i = i + 1;
    }
    proof {
        assert(Seq::new(out@.len(), |k: int| out@[k]@) =~= scored_seq(dv, query@));
    }
    out
}

/// Opening a manifest: a missing directory or file is `CacheMissing`, an
/// unreadable one is `IoError`, and bytes that do not form a supported
/// manifest are `CacheInvalid`.
pub open spec fn open_manifest_spec(oc: ReadView) -> Result<ManifestV, ErrKind> {
    match oc {
        ReadView::Missing => Err(ErrKind::CacheMissing),
        ReadView::Unreadable => Err(ErrKind::IoError),
        ReadView::Content(b) => match pjson(b) {
            None => Err(ErrKind::CacheInvalid),
            Some(j) => match manifest_of(j) {
                Some(m) => Ok(m),
                None => Err(ErrKind::CacheInvalid),
            },
        },
    }
}

/// Opens and validates a manifest read outcome.
pub fn open_manifest(oc: &ReadOutcome) -> (r: Result<ManifestData, ErrKind>)
    ensures
        match r {
            Ok(m) => open_manifest_spec(oc@) == Ok::<ManifestV, ErrKind>(m@),
            Err(e) => open_manifest_spec(oc@) == Err::<ManifestV, ErrKind>(e),
        },
{
    match oc {
        ReadOutcome::Missing => Err(ErrKind::CacheMissing),
        ReadOutcome::Unreadable => Err(ErrKind::IoError),
        ReadOutcome::Content(b) => match parse_json(b.as_slice()) {
            Err(_) => Err(ErrKind::CacheInvalid),
            Ok(j) => match extract_manifest(&j) {
                Some(m) => Ok(m),
                None => Err(ErrKind::CacheInvalid),
            },
        },
    }
}

/// Opening an index: the manifest was present, so an absent index file means
/// the cache is incomplete and therefore invalid; an unreadable one is an
/// I/O failure.
pub open spec fn open_index_spec(oc: ReadView) -> Result<Seq<IndexDocV>, ErrKind> {
    match oc {
        ReadView::Missing => Err(ErrKind::CacheInvalid),
        ReadView::Unreadable => Err(ErrKind::IoError),
        ReadView::Content(b) => match pjson(b) {
            None => Err(ErrKind::CacheInvalid),
            Some(j) => match index_of(j) {
                Some(ds) => Ok(ds),
                None => Err(ErrKind::CacheInvalid),
            },
        },
    }
}

/// Opens and validates an index read outcome.
pub fn open_index(oc: &ReadOutcome) -> (r: Result<Vec<IndexDoc>, ErrKind>)
    ensures
        match r {
            Ok(ds) => open_index_spec(oc@) == Ok::<Seq<IndexDocV>, ErrKind>(
                Seq::new(ds@.len(), |k: int| ds@[k]@),
            ),
            Err(e) => open_index_spec(oc@) == Err::<Seq<IndexDocV>, ErrKind>(e),
        },
{
    match oc {
        ReadOutcome::Missing => Err(ErrKind::CacheInvalid),
        ReadOutcome::Unreadable => Err(ErrKind::IoError),
        ReadOutcome::Content(b) => match parse_json(b.as_slice()) {
            Err(_) => Err(ErrKind::CacheInvalid),
            Ok(j) => match extract_index(&j) {
                Some(ds) => Ok(ds),
                None => Err(ErrKind::CacheInvalid),
            },
        },
    }
}

/// The index lists exactly the manifest's documents, in the same order.
pub open spec fn ids_match(entries: Seq<crate::cache::DocEntryV>, ds: Seq<IndexDocV>) -> bool {
    entries.len() == ds.len() && forall|k: int| 0 <= k < ds.len() ==> (#[trigger] ds[k].id)
        == entries[k].id
}

/// The frozen resolve output for a validated cache.
pub open spec fn resolve_doc_output(ds: Seq<IndexDocV>, q: Seq<u8>, budget: u64) -> Seq<u8> {
    let sorted = sort_docs(scored_seq(ds, q));
    let ff = first_fit(sorted, budget, 0);
    selection_json(ff.0, ds.len() as u64, ff.1 as u64)
}

/// What resolving returns for every combination of read outcomes, query and
/// budget: the first applicable error, or the frozen output bytes.
pub open spec fn resolve_spec(moc: ReadView, ioc: ReadView, q: Seq<u8>, budget: u64) -> Result<
    Seq<u8>,
    ErrKind,
> {
    match open_manifest_spec(moc) {
        Err(e) => Err(e),
        Ok(m) => match open_index_spec(ioc) {
            Err(e) => Err(e),
            Ok(ds) => {
                if !ids_match(m.documents, ds) {
                    Err(ErrKind::CacheInvalid)
                } else {
                    Ok(resolve_doc_output(ds, q, budget))
                }
            },
        },
    }
}

/// Checks that the index lists exactly the manifest's documents in order.
#[verifier::loop_isolation(false)]
fn check_ids(m: &ManifestData, ds: &Vec<IndexDoc>) -> (r: bool)
    ensures
        r == ids_match(m@.documents, Seq::new(ds@.len(), |k: int| ds@[k]@)),
{
    let ghost dv = Seq::new(ds@.len(), |k: int| ds@[k]@);
    if ds.len() != m.documents.len() {
        return false;
    }
    let mut k: usize = 0;
    while k < ds.len()
        invariant
            k <= ds@.len(),
            ds@.len() == m.documents@.len(),
            forall|k2: int| 0 <= k2 < k ==> (#[trigger] dv[k2].id) == m@.documents[k2].id,
        decreases ds@.len() - k,
    {
        if !bytes_eq(ds[k].id.as_slice(), m.documents[k].id.as_slice()) {
            proof {
                assert(dv[k as int].id != m@.documents[k as int].id);
            }
            return false;
        }
        k = k + 1;
    }
    true
}

/// Ranks, selects and renders, for a validated index.
fn resolve_core(ds: &Vec<IndexDoc>, query: &[u8], budget: u64) -> (r: Vec<u8>)
    requires
        forall|k: int| 0 <= k < ds@.len() ==> sum_counts(#[trigger] ds@[k]@.terms)
            <= ds@[k]@.word_count,
    ensures
        r@ == resolve_doc_output(Seq::new(ds@.len(), |k: int| ds@[k]@), query@, budget),
{
    let ghost dv = Seq::new(ds@.len(), |k: int| ds@[k]@);
    let considered: u64 = ds.len() as u64;
    let scored = score_all(ds, query);
    let ghost scv = Seq::new(scored@.len(), |k2: int| scored@[k2]@);
    let sorted = sort_docs_exec(scored);
    let ghost sov = Seq::new(sorted@.len(), |k2: int| sorted@[k2]@);
    proof {
        lemma_sort_docs_sorted(scv);
    }
    let (sel, ex) = select_docs(sorted, budget);
    proof {
        let sv = Seq::new(sel@.len(), |k2: int| sel@[k2]@);
        assert forall|k2: int| 0 <= k2 < sel@.len() implies sel@[k2]@.matches
            <= sel@[k2]@.word_count by {
            assert(sv[k2] == sel@[k2]@);
            assert(sv.contains(sv[k2]));
            lemma_first_fit_contains(sov, budget, 0, sv[k2]);
            lemma_sort_docs_contains(scv, sv[k2]);
            let w = choose|w: int| 0 <= w < scv.len() && scv[w] == sv[k2];
            assert(scv[w] == scored_of(dv[w], query@));
            lemma_match_le_sum(dv[w].terms, query@);
        }
    }
    let out = render_selection(&sel, considered, ex);
    proof {
        assert(Seq::new(sel@.len(), |k2: int| sel@[k2]@) == first_fit(sov, budget, 0).0);
        lemma_first_fit_counts(sov, budget, 0);
        assert(out@ == resolve_doc_output(dv, query@, budget));
    }
    out
}

/// Resolves a query against a cache, given what reading the manifest and
/// index produced. An empty query is valid and scores every document zero.
pub fn resolve(moc: &ReadOutcome, ioc: &ReadOutcome, query: &[u8], budget: u64) -> (r: Result<
    Vec<u8>,
    ErrKind,
>)
    ensures
        match r {
            Ok(b) => resolve_spec(moc@, ioc@, query@, budget) == Ok::<Seq<u8>, ErrKind>(b@),
            Err(e) => resolve_spec(moc@, ioc@, query@, budget) == Err::<Seq<u8>, ErrKind>(e),
        },
{
    let m = match open_manifest(moc) {
        Ok(m) => m,
        Err(e) => {
            return Err(e);
        },
    };
    let ds = match open_index(ioc) {
        Ok(ds) => ds,
        Err(e) => {
            return Err(e);
        },
    };
    let ghost dv = Seq::new(ds@.len(), |k: int| ds@[k]@);
    if !check_ids(&m, &ds) {
        return Err(ErrKind::CacheInvalid);
    }
    proof {
        match oc_content_jval(ioc@) {
            Some(j) => {
                lemma_index_wf(j, dv);
            },
            None => {
                assert(false);
            },
        }
        assert forall|k2: int| 0 <= k2 < ds@.len() implies sum_counts(#[trigger] ds@[k2]@.terms)
            <= ds@[k2]@.word_count by {
            assert(dv[k2] == ds@[k2]@);
            assert(sum_counts(dv[k2].terms) <= dv[k2].word_count);
        }
    }
    let out = resolve_core(&ds, query, budget);
    Ok(out)
}

/// The parsed value inside a readable content outcome, where there is one.
pub open spec fn oc_content_jval(oc: ReadView) -> Option<crate::jsonp::JVal> {
    match oc {
        ReadView::Content(b) => pjson(b),
        _ => None,
    }
}

/// Selection keeps rank order: the selected run of a sorted run is sorted.
pub proof fn lemma_first_fit_sorted(s: Seq<ScoredV>, budget: u64, used: u64)
    requires
        sorted_docs(s),
    ensures
        sorted_docs(first_fit(s, budget, used).0),
    decreases s.len(),
{
    if s.len() > 0 {
        let tail = s.drop_first();
        assert(sorted_docs(tail)) by {
            assert(forall|i: int, j: int| 0 <= i < j < tail.len() ==> tail[i] == s[i + 1] && tail[j]
                == s[j + 1]);
        }
        let c = s.first().cost;
        if budget != 0 && used + c <= budget {
            lemma_first_fit_sorted(tail, budget, (used + c) as u64);
            let r0 = first_fit(tail, budget, (used + c) as u64).0;
            let full = seq![s.first()] + r0;
            assert forall|i: int, j: int| 0 <= i < j < full.len() implies doc_le(
                full[i],
                full[j],
            ) by {
                if i == 0 {
                    assert(full[j] == r0[j - 1]);
                    assert(r0.contains(r0[j - 1]));
                    lemma_first_fit_contains(tail, budget, (used + c) as u64, r0[j - 1]);
                    let k = choose|k: int| 0 <= k < tail.len() && tail[k] == r0[j - 1];
                    assert(s[k + 1] == r0[j - 1]);
                    assert(doc_le(s[0], s[k + 1]));
                } else {
                    assert(full[i] == r0[i - 1] && full[j] == r0[j - 1]);
                }
            }
        } else {
            lemma_first_fit_sorted(tail, budget, used);
        }
    }
}

/// Tie-break law: among the output documents, equal scores appear in
/// ascending id order, never in cache order or score-computation order.
pub proof fn lemma_tie_break_order(ds: Seq<IndexDocV>, q: Seq<u8>, budget: u64)
    ensures
        ({
            let sel = first_fit(sort_docs(scored_seq(ds, q)), budget, 0).0;
            forall|i: int, j: int|
                0 <= i < j < sel.len() && (#[trigger] sel[i]).bits == (#[trigger] sel[j]).bits
                    ==> lex_le(sel[i].id, sel[j].id)
        }),
{
    let sorted = sort_docs(scored_seq(ds, q));
    lemma_sort_docs_sorted(scored_seq(ds, q));
    lemma_first_fit_sorted(sorted, budget, 0);
    let sel = first_fit(sorted, budget, 0).0;
    assert forall|i: int, j: int|
        0 <= i < j < sel.len() && (#[trigger] sel[i]).bits == (#[trigger] sel[j]).bits implies
        lex_le(sel[i].id, sel[j].id) by {
        assert(doc_le(sel[i], sel[j]));
    }
}

/// Zero-score inclusion law: when no query term matches any document, every
/// document scores zero, the output order is ascending id, and a budget that
/// covers every document excludes none.
pub proof fn lemma_zero_score_inclusion(ds: Seq<IndexDocV>, q: Seq<u8>, budget: u64)
    requires
        forall|k: int| 0 <= k < ds.len() ==> match_count((#[trigger] ds[k]).terms, q) == 0,
        budget != 0,
        total_cost(sort_docs(scored_seq(ds, q))) <= budget,
    ensures
        ({
            let sorted = sort_docs(scored_seq(ds, q));
            let ff = first_fit(sorted, budget, 0);
            &&& ff.0 == sorted
            &&& ff.1 == 0
            &&& forall|k: int| 0 <= k < sorted.len() ==> (#[trigger] sorted[k]).matches == 0
            &&& forall|i: int, j: int|
                0 <= i < j < sorted.len() ==> lex_le(sorted[i].id, sorted[j].id)
        }),
{
    let scored = scored_seq(ds, q);
    let sorted = sort_docs(scored);
    lemma_sort_docs_sorted(scored);
    lemma_all_fit_all_selected(sorted, budget, 0);
    assert forall|k: int| 0 <= k < sorted.len() implies (#[trigger] sorted[k]).matches == 0
        && sorted[k].bits == 0 by {
        assert(sorted.contains(sorted[k]));
        lemma_sort_docs_contains(scored, sorted[k]);
        let w = choose|w: int| 0 <= w < scored.len() && scored[w] == sorted[k];
        assert(scored[w] == scored_of(ds[w], q));
    }
    assert forall|i: int, j: int| 0 <= i < j < sorted.len() implies lex_le(
        sorted[i].id,
        sorted[j].id,
    ) by {
        assert(doc_le(sorted[i], sorted[j]));
        assert(sorted[i].bits == 0 && sorted[j].bits == 0);
    }
}

/// Budget exhaustion law: a zero budget yields an empty document list, zero
/// selected, and every considered document excluded.
pub proof fn lemma_budget_exhaustion(ds: Seq<IndexDocV>, q: Seq<u8>)
    ensures
        resolve_doc_output(ds, q, 0) == selection_json(
            Seq::<ScoredV>::empty(),
            ds.len() as u64,
            ds.len() as u64,
        ),
{
    let sorted = sort_docs(scored_seq(ds, q));
    lemma_sort_docs_sorted(scored_seq(ds, q));
    lemma_zero_budget_excludes_all(sorted);
}

/// Error-kind separation law: a missing cache is `CacheMissing`, unreadable
/// bytes are `IoError`, and present-but-malformed bytes are `CacheInvalid`;
/// no kind masks another.
pub proof fn lemma_error_kind_separation(b: Seq<u8>, ioc: ReadView, q: Seq<u8>, budget: u64)
    ensures
        open_manifest_spec(ReadView::Missing) == Err::<ManifestV, ErrKind>(ErrKind::CacheMissing),
        open_manifest_spec(ReadView::Unreadable) == Err::<ManifestV, ErrKind>(ErrKind::IoError),
        pjson(b) is None ==> open_manifest_spec(ReadView::Content(b)) == Err::<ManifestV, ErrKind>(
            ErrKind::CacheInvalid,
        ),
        resolve_spec(ReadView::Missing, ioc, q, budget) == Err::<Seq<u8>, ErrKind>(
            ErrKind::CacheMissing,
        ),
        resolve_spec(ReadView::Unreadable, ioc, q, budget) == Err::<Seq<u8>, ErrKind>(
            ErrKind::IoError,
        ),
        pjson(b) is None ==> resolve_spec(ReadView::Content(b), ioc, q, budget) == Err::<
            Seq<u8>,
            ErrKind,
        >(ErrKind::CacheInvalid),
{
}

/// The selection counts always add up: every considered document is either
/// selected or excluded by the budget, and the output lists exactly the
/// selected ones.
pub proof fn lemma_selection_counts(ds: Seq<IndexDocV>, q: Seq<u8>, budget: u64)
    ensures
        ({
            let sorted = sort_docs(scored_seq(ds, q));
            let ff = first_fit(sorted, budget, 0);
            ff.0.len() + ff.1 == ds.len() && ff.1 >= 0
        }),
{
    lemma_sort_docs_sorted(scored_seq(ds, q));
    lemma_first_fit_counts(sort_docs(scored_seq(ds, q)), budget, 0);
}

/// Determinism of resolving: two results of the same inputs are the same
/// bytes, whatever directory the cache stood in.
pub proof fn lemma_resolve_deterministic(
    moc: ReadView,
    ioc: ReadView,
    q: Seq<u8>,
    budget: u64,
    r1: Result<Seq<u8>, ErrKind>,
    r2: Result<Seq<u8>, ErrKind>,
)
    requires
        r1 == resolve_spec(moc, ioc, q, budget),
        r2 == resolve_spec(moc, ioc, q, budget),
    ensures
        r1 == r2,
{
}

} // verus!
