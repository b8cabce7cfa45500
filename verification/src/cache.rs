//! Manifest and index structures, extracted from parsed JSON and validated.
//!
//! A manifest is well formed when it declares a supported format version
//! (`cache_version`, and `build_config.version` where present, at most 1),
//! carries a `documents` array of entries with unique ids, and states a
//! `document_count` equal to that array's length. An index is well formed
//! when every document's term counts sum to at most its word count, so a
//! match count can never exceed the words it is measured against.

use vstd::prelude::*;
use crate::jsonp::Json;
use crate::jsonp::JVal;
use crate::jsonp::jview;
use crate::jsonp::jview_elems;
use crate::jsonp::jview_members;
use crate::model::jget;
use crate::model::obj_get;
use crate::model::bytes_eq;
use crate::model::dec_str_val;
use crate::model::parse_dec_str;
use crate::model::ver_num;
use crate::model::version_of;

verus! {

pub struct DocEntry {
    pub id: Vec<u8>,
    pub file: Vec<u8>,
    pub fingerprint: Vec<u8>,
}

pub struct DocEntryV {
    pub id: Seq<u8>,
    pub file: Seq<u8>,
    pub fingerprint: Seq<u8>,
}

impl View for DocEntry {
    type V = DocEntryV;

    open spec fn view(&self) -> DocEntryV {
        DocEntryV { id: self.id@, file: self.file@, fingerprint: self.fingerprint@ }
    }
}

pub struct ManifestData {
    pub cache_version: Vec<u8>,
    pub document_count: u64,
    pub documents: Vec<DocEntry>,
}

pub struct ManifestV {
    pub cache_version: Seq<u8>,
    pub document_count: u64,
    pub documents: Seq<DocEntryV>,
}

impl View for ManifestData {
    type V = ManifestV;

    open spec fn view(&self) -> ManifestV {
        ManifestV {
            cache_version: self.cache_version@,
            document_count: self.document_count,
            documents: Seq::new(self.documents@.len(), |k: int| self.documents@[k]@),
        }
    }
}

pub struct IndexDoc {
    pub id: Vec<u8>,
    pub word_count: u64,
    pub size: u64,
    pub terms: Vec<(Vec<u8>, u64)>,
}

pub struct IndexDocV {
    pub id: Seq<u8>,
    pub word_count: u64,
    pub size: u64,
    pub terms: Seq<(Seq<u8>, u64)>,
}

impl View for IndexDoc {
    type V = IndexDocV;

    open spec fn view(&self) -> IndexDocV {
        IndexDocV {
            id: self.id@,
            word_count: self.word_count,
            size: self.size,
            terms: Seq::new(self.terms@.len(), |k: int| (self.terms@[k].0@, self.terms@[k].1)),
        }
    }
}

pub open spec fn key_id() -> Seq<u8> {
    seq![105u8, 100u8]
}

pub open spec fn key_file() -> Seq<u8> {
    seq![102u8, 105u8, 108u8, 101u8]
}

pub open spec fn key_fingerprint() -> Seq<u8> {
    seq![102u8, 105u8, 110u8, 103u8, 101u8, 114u8, 112u8, 114u8, 105u8, 110u8, 116u8]
}

pub open spec fn key_cache_version() -> Seq<u8> {
    seq![99u8, 97u8, 99u8, 104u8, 101u8, 95u8, 118u8, 101u8, 114u8, 115u8, 105u8, 111u8, 110u8]
}

pub open spec fn key_document_count() -> Seq<u8> {
    seq![100u8, 111u8, 99u8, 117u8, 109u8, 101u8, 110u8, 116u8, 95u8, 99u8, 111u8, 117u8, 110u8,
        116u8]
}

pub open spec fn key_documents() -> Seq<u8> {
    seq![100u8, 111u8, 99u8, 117u8, 109u8, 101u8, 110u8, 116u8, 115u8]
}

pub open spec fn key_build_config() -> Seq<u8> {
    seq![98u8, 117u8, 105u8, 108u8, 100u8, 95u8, 99u8, 111u8, 110u8, 102u8, 105u8, 103u8]
}

pub open spec fn key_version() -> Seq<u8> {
    seq![118u8, 101u8, 114u8, 115u8, 105u8, 111u8, 110u8]
}

pub open spec fn key_word_count() -> Seq<u8> {
    seq![119u8, 111u8, 114u8, 100u8, 95u8, 99u8, 111u8, 117u8, 110u8, 116u8]
}

pub open spec fn key_size() -> Seq<u8> {
    seq![115u8, 105u8, 122u8, 101u8]
}

pub open spec fn key_terms() -> Seq<u8> {
    seq![116u8, 101u8, 114u8, 109u8, 115u8]
}

/// One manifest entry from its JSON object.
pub open spec fn entry_of(v: JVal) -> Option<DocEntryV> {
    match v {
        JVal::Obj(ms) => {
            match (jget(ms, key_id()), jget(ms, key_file())) {
                (Some(JVal::Str(id)), Some(JVal::Str(file))) => Some(
                    DocEntryV {
                        id,
                        file,
                        fingerprint: match jget(ms, key_fingerprint()) {
                            Some(JVal::Str(fp)) => fp,
                            _ => Seq::empty(),
                        },
                    },
                ),
                _ => None,
            }
        },
        _ => None,
    }
}

/// All manifest entries, or none if any element is malformed.
pub open spec fn entries_of(elems: Seq<JVal>) -> Option<Seq<DocEntryV>>
    decreases elems.len(),
{
    if elems.len() == 0 {
        Some(Seq::empty())
    } else {
        match (entries_of(elems.drop_last()), entry_of(elems.last())) {
            (Some(init), Some(e)) => Some(init.push(e)),
            _ => None,
        }
    }
}

/// No two entries share an id.
pub open spec fn unique_ids(entries: Seq<DocEntryV>) -> bool {
    forall|i: int, j: int| 0 <= i < j < entries.len() ==> entries[i].id != entries[j].id
}

/// Whether the `build_config` member, if any, passes the version gate.
pub open spec fn config_version_ok(ms: Seq<(Seq<u8>, JVal)>) -> bool {
    match jget(ms, key_build_config()) {
        None => true,
        Some(JVal::Obj(bc)) => match jget(bc, key_version()) {
            None => true,
            Some(vv) => match ver_num(vv) {
                Some(k) => k <= 1,
                None => false,
            },
        },
        Some(_) => false,
    }
}

/// A whole manifest from its parsed JSON, when well formed and supported.
pub open spec fn manifest_of(v: JVal) -> Option<ManifestV> {
    match v {
        JVal::Obj(ms) => {
            match (jget(ms, key_cache_version()), jget(ms, key_document_count()), jget(
                ms,
                key_documents(),
            )) {
                (Some(JVal::Str(cv)), Some(JVal::Num { neg, mag, raw }), Some(JVal::Arr(elems))) => {
                    if neg {
                        None
                    } else {
                        match (mag, dec_str_val(cv), entries_of(elems)) {
                            (Some(dc), Some(cvn), Some(entries)) => {
                                if cvn <= 1 && config_version_ok(ms) && dc == entries.len()
                                    && unique_ids(entries) {
                                    Some(
                                        ManifestV {
                                            cache_version: cv,
                                            document_count: dc,
                                            documents: entries,
                                        },
                                    )
                                } else {
                                    None
                                }
                            },
                            _ => None,
                        }
                    }
                },
                _ => None,
            }
        },
        _ => None,
    }
}

/// The sum of a document's term counts.
pub open spec fn sum_counts(terms: Seq<(Seq<u8>, u64)>) -> int
    decreases terms.len(),
{
    if terms.len() == 0 {
        0
    } else {
        sum_counts(terms.drop_last()) + terms.last().1
    }
}

/// The term table of one index document, from its JSON object members.
pub open spec fn terms_of(ms: Seq<(Seq<u8>, JVal)>) -> Option<Seq<(Seq<u8>, u64)>>
    decreases ms.len(),
{
    if ms.len() == 0 {
        Some(Seq::empty())
    } else {
        match (terms_of(ms.drop_last()), ms.last().1) {
            (Some(init), JVal::Num { neg, mag, raw }) => {
                if neg {
                    None
                } else {
                    match mag {
                        Some(c) => Some(init.push((ms.last().0, c))),
                        None => None,
                    }
                }
            },
            _ => None,
        }
    }
}

/// One index document from its JSON object.
pub open spec fn idoc_of(v: JVal) -> Option<IndexDocV> {
    match v {
        JVal::Obj(ms) => {
            match (jget(ms, key_id()), jget(ms, key_word_count()), jget(ms, key_size()), jget(
                ms,
                key_terms(),
            )) {
                (
                    Some(JVal::Str(id)),
                    Some(JVal::Num { neg: wneg, mag: wmag, raw: wraw }),
                    Some(JVal::Num { neg: sneg, mag: smag, raw: sraw }),
                    Some(JVal::Obj(tms)),
                ) => {
                    if wneg || sneg {
                        None
                    } else {
                        match (wmag, smag, terms_of(tms)) {
                            (Some(wc), Some(sz), Some(terms)) => {
                                if sum_counts(terms) <= wc {
                                    Some(IndexDocV { id, word_count: wc, size: sz, terms })
                                } else {
                                    None
                                }
                            },
                            _ => None,
                        }
                    }
                },
                _ => None,
            }
        },
        _ => None,
    }
}

/// All index documents, or none if any is malformed.
pub open spec fn idocs_of(elems: Seq<JVal>) -> Option<Seq<IndexDocV>>
    decreases elems.len(),
{
    if elems.len() == 0 {
        Some(Seq::empty())
    } else {
        match (idocs_of(elems.drop_last()), idoc_of(elems.last())) {
            (Some(init), Some(e)) => Some(init.push(e)),
            _ => None,
        }
    }
}

/// A whole index from its parsed JSON.
pub open spec fn index_of(v: JVal) -> Option<Seq<IndexDocV>> {
    match v {
        JVal::Obj(ms) => match jget(ms, key_documents()) {
            Some(JVal::Arr(elems)) => idocs_of(elems),
            _ => None,
        },
        _ => None,
    }
}

fn k_id() -> (r: Vec<u8>)
    ensures
        r@ == key_id(),
{
    let r: Vec<u8> = vec![105u8, 100];
    proof {
        assert(r@ =~= key_id());
    }
    r
}

fn k_file() -> (r: Vec<u8>)
    ensures
        r@ == key_file(),
{
    let r: Vec<u8> = vec![102u8, 105, 108, 101];
    proof {
        assert(r@ =~= key_file());
    }
    r
}

fn k_fingerprint() -> (r: Vec<u8>)
    ensures
        r@ == key_fingerprint(),
{
    let r: Vec<u8> = vec![102u8, 105, 110, 103, 101, 114, 112, 114, 105, 110, 116];
    proof {
        assert(r@ =~= key_fingerprint());
    }
    r
}

fn k_cache_version() -> (r: Vec<u8>)
    ensures
        r@ == key_cache_version(),
{
    let r: Vec<u8> = vec![99u8, 97, 99, 104, 101, 95, 118, 101, 114, 115, 105, 111, 110];
    proof {
        assert(r@ =~= key_cache_version());
    }
    r
}

fn k_document_count() -> (r: Vec<u8>)
    ensures
        r@ == key_document_count(),
{
    let r: Vec<u8> = vec![100u8, 111, 99, 117, 109, 101, 110, 116, 95, 99, 111, 117, 110, 116];
    proof {
        assert(r@ =~= key_document_count());
    }
    r
}

fn k_documents() -> (r: Vec<u8>)
    ensures
        r@ == key_documents(),
{
    let r: Vec<u8> = vec![100u8, 111, 99, 117, 109, 101, 110, 116, 115];
    proof {
        assert(r@ =~= key_documents());
    }
    r
}

fn k_build_config() -> (r: Vec<u8>)
    ensures
        r@ == key_build_config(),
{
    let r: Vec<u8> = vec![98u8, 117, 105, 108, 100, 95, 99, 111, 110, 102, 105, 103];
    proof {
        assert(r@ =~= key_build_config());
    }
    r
}

fn k_version() -> (r: Vec<u8>)
    ensures
        r@ == key_version(),
{
    let r: Vec<u8> = vec![118u8, 101, 114, 115, 105, 111, 110];
    proof {
        assert(r@ =~= key_version());
    }
    r
}

fn k_word_count() -> (r: Vec<u8>)
    ensures
        r@ == key_word_count(),
{
    let r: Vec<u8> = vec![119u8, 111, 114, 100, 95, 99, 111, 117, 110, 116];
    proof {
        assert(r@ =~= key_word_count());
    }
    r
}

fn k_size() -> (r: Vec<u8>)
    ensures
        r@ == key_size(),
{
    let r: Vec<u8> = vec![115u8, 105, 122, 101];
    proof {
        assert(r@ =~= key_size());
    }
    r
}

fn k_terms() -> (r: Vec<u8>)
    ensures
        r@ == key_terms(),
{
    let r: Vec<u8> = vec![116u8, 101, 114, 109, 115];
    proof {
        assert(r@ =~= key_terms());
    }
    r
}

/// Extracts one manifest entry.
fn extract_entry(v: &Json) -> (r: Option<DocEntry>)
    ensures
        match r {
            Some(e) => entry_of(jview(*v)) == Some(e@),
            None => entry_of(jview(*v)) is None,
        },
{
    match v {
        Json::Obj(ms) => {
            let kid = k_id();
            let kfile = k_file();
            let idj = obj_get(ms, kid.as_slice());
            let filej = obj_get(ms, kfile.as_slice());
            match (idj, filej) {
                (Some(Json::Str(id)), Some(Json::Str(file))) => {
                    let kfp = k_fingerprint();
                    let fpj = obj_get(ms, kfp.as_slice());
                    let fingerprint: Vec<u8> = match fpj {
                        Some(Json::Str(fp)) => fp.clone(),
                        _ => Vec::new(),
                    };
                    Some(DocEntry { id: id.clone(), file: file.clone(), fingerprint })
                },
                _ => None,
            }
        },
        _ => None,
    }
}

/// Extracts and validates a manifest from parsed JSON.
#[verifier::loop_isolation(false)]
pub fn extract_manifest(v: &Json) -> (r: Option<ManifestData>)
    ensures
        match r {
            Some(m) => manifest_of(jview(*v)) == Some(m@),
            None => manifest_of(jview(*v)) is None,
        },
{
    let ms = match v {
        Json::Obj(ms) => ms,
        _ => {
            return None;
        },
    };
    let kcv = k_cache_version();
    let kdc = k_document_count();
    let kdocs = k_documents();
    let cvj = obj_get(ms, kcv.as_slice());
    let dcj = obj_get(ms, kdc.as_slice());
    let docsj = obj_get(ms, kdocs.as_slice());
    let (cv, dc, elems) = match (cvj, dcj, docsj) {
        (Some(Json::Str(cv)), Some(Json::Num { neg, mag, raw }), Some(Json::Arr(elems))) => {
            if *neg {
                return None;
            }
            match mag {
                Some(dc) => (cv, *dc, elems),
                None => {
                    return None;
                },
            }
        },
        _ => {
            return None;
        },
    };
    let cvn = match parse_dec_str(cv.as_slice()) {
        Some(n) => n,
        None => {
            return None;
        },
    };
    if cvn > 1 {
        return None;
    }
    // Version gate on the build configuration.
    let kbc = k_build_config();
    let bcj = obj_get(ms, kbc.as_slice());
    match bcj {
        None => {},
        Some(Json::Obj(bc)) => {
            let kv = k_version();
            let vj = obj_get(bc, kv.as_slice());
            match vj {
                None => {},
                Some(vv) => match version_of(vv) {
                    Some(k) => {
                        if k > 1 {
                            return None;
                        }
                    },
                    None => {
                        return None;
                    },
                },
            }
        },
        Some(_) => {
            return None;
        },
    }
    assert(config_version_ok(jview_members(ms@, ms@.len() as int)));
    // Entries.
    let mut entries: Vec<DocEntry> = Vec::new();
    let n = elems.len();
    let mut i: usize = 0;
    while i < n
        invariant
            i <= n,
            n == elems@.len(),
            entries@.len() == i,
            entries_of(jview_elems(elems@, i as int)) == Some(
                Seq::new(entries@.len(), |k: int| entries@[k]@),
            ),
        decreases n - i,
    {
        let ghost prev = Seq::new(entries@.len(), |k: int| entries@[k]@);
        match extract_entry(&elems[i]) {
            Some(e) => {
                entries.push(e);
            },
            None => {
                proof {
                    lemma_entries_prefix_none(elems@, i as int, n as int);
                }
                return None;
            },
        }
        i = i + 1;
        proof {
            assert(jview_elems(elems@, i as int).drop_last() =~= jview_elems(elems@, i - 1));
            assert(jview_elems(elems@, i as int).last() == jview(elems@[i - 1]));
            assert(Seq::new(entries@.len(), |k: int| entries@[k]@) =~= prev.push(
                entries@.last()@,
            ));
        }
    }
    proof {
        assert(jview_elems(elems@, n as int) == jview_elems(elems@, elems@.len() as int));
    }
    if dc != entries.len() as u64 {
        return None;
    }
    // Uniqueness of ids.
    let mut a: usize = 0;
    while a < entries.len()
        invariant
            a <= entries@.len(),
            forall|i2: int, j2: int| 0 <= i2 < j2 < a ==> entries@[i2]@.id != entries@[j2]@.id,
        decreases entries@.len() - a,
    {
        let mut b: usize = 0;
        while b < a
            invariant
                b <= a < entries@.len(),
                forall|i2: int, j2: int| 0 <= i2 < j2 < a ==> entries@[i2]@.id != entries@[j2]@.id,
                forall|j2: int| 0 <= j2 < b ==> entries@[j2]@.id != entries@[a as int]@.id,
            decreases a - b,
        {
            if bytes_eq(entries[b].id.as_slice(), entries[a].id.as_slice()) {
                proof {
                    let ents = Seq::new(entries@.len(), |k: int| entries@[k]@);
                    assert(ents[b as int].id == ents[a as int].id);
                    assert(!unique_ids(ents));
                }
                return None;
            }
            b = b + 1;
        }
        a = a + 1;
    }
    proof {
        let ents = Seq::new(entries@.len(), |k: int| entries@[k]@);
        assert(unique_ids(ents));
    }
    let m = ManifestData { cache_version: cv.clone(), document_count: dc, documents: entries };
    proof {
        assert(manifest_of(jview(*v)) == Some(m@));
    }
    Some(m)
}

/// A prefix of the term counts never sums to more than the whole.
pub proof fn lemma_sum_take_mono(t: Seq<(Seq<u8>, u64)>, k: int)
    requires
        0 <= k <= t.len(),
    ensures
        sum_counts(t.take(k)) <= sum_counts(t),
    decreases t.len() - k,
{
    if k < t.len() {
        lemma_sum_take_mono(t, k + 1);
        assert(t.take(k + 1).drop_last() =~= t.take(k));
        assert(t.take(k + 1).last() == t[k]);
    } else {
        assert(t.take(k) =~= t);
    }
}

/// Extracts one index document.
#[verifier::loop_isolation(false)]
fn extract_idoc(v: &Json) -> (r: Option<IndexDoc>)
    ensures
        match r {
            Some(e) => idoc_of(jview(*v)) == Some(e@),
            None => idoc_of(jview(*v)) is None,
        },
{
    let ms = match v {
        Json::Obj(ms) => ms,
        _ => {
            return None;
        },
    };
    let kid = k_id();
    let kwc = k_word_count();
    let ksz = k_size();
    let kt = k_terms();
    let idj = obj_get(ms, kid.as_slice());
    let wcj = obj_get(ms, kwc.as_slice());
    let szj = obj_get(ms, ksz.as_slice());
    let tj = obj_get(ms, kt.as_slice());
    let (id, wc, sz, tms) = match (idj, wcj, szj, tj) {
        (
            Some(Json::Str(id)),
            Some(Json::Num { neg: wneg, mag: wmag, raw: _wraw }),
            Some(Json::Num { neg: sneg, mag: smag, raw: _sraw }),
            Some(Json::Obj(tms)),
        ) => {
            if *wneg || *sneg {
                return None;
            }
            match (wmag, smag) {
                (Some(wc), Some(sz)) => (id, *wc, *sz, tms),
                _ => {
                    return None;
                },
            }
        },
        _ => {
            return None;
        },
    };
    // Term table.
    let mut terms: Vec<(Vec<u8>, u64)> = Vec::new();
    let n = tms.len();
    let mut i: usize = 0;
    while i < n
        invariant
            i <= n,
            terms@.len() == i,
            terms_of(jview_members(tms@, i as int)) == Some(
                Seq::new(terms@.len(), |k: int| (terms@[k].0@, terms@[k].1)),
            ),
        decreases n - i,
    {
        let ghost prev = Seq::new(terms@.len(), |k: int| (terms@[k].0@, terms@[k].1));
        proof {
            assert(jview_members(tms@, i + 1).drop_last() =~= jview_members(tms@, i as int));
            assert(jview_members(tms@, i + 1).last() == (tms@[i as int].0@, jview(
                tms@[i as int].1,
            )));
        }
        match &tms[i].1 {
            Json::Num { neg, mag, raw } => {
                if *neg {
                    proof {
                        lemma_terms_suffix_none(tms@, i as int, n as int);
                    }
                    return None;
                }
                match mag {
                    Some(c) => {
                        terms.push((tms[i].0.clone(), *c));
                    },
                    None => {
                        proof {
                            lemma_terms_suffix_none(tms@, i as int, n as int);
                        }
                        return None;
                    },
                }
            },
            _ => {
                proof {
                    lemma_terms_suffix_none(tms@, i as int, n as int);
                }
                return None;
            },
        }
        i = i + 1;
        proof {
            assert(Seq::new(terms@.len(), |k: int| (terms@[k].0@, terms@[k].1)) =~= prev.push(
                (terms@.last().0@, terms@.last().1),
            ));
        }
    }
    proof {
        assert(jview_members(tms@, n as int) == jview_members(tms@, tms@.len() as int));
    }
    // The counts must fit inside the word count.
    let ghost tv = Seq::new(terms@.len(), |k: int| (terms@[k].0@, terms@[k].1));
    let mut sum: u64 = 0;
    let mut p: usize = 0;
    while p < terms.len()
        invariant
            p <= terms@.len(),
            sum == sum_counts(tv.take(p as int)),
            sum <= wc,
        decreases terms@.len() - p,
    {
        let c = terms[p].1;
        proof {
            assert(tv.take(p + 1).drop_last() =~= tv.take(p as int));
            assert(tv.take(p + 1).last() == tv[p as int]);
        }
        if c > wc - sum {
            proof {
                lemma_sum_take_mono(tv, p + 1);
            }
            return None;
        }
        sum = sum + c;
        p = p + 1;
    }
    proof {
        assert(tv.take(terms@.len() as int) =~= tv);
    }
    let d = IndexDoc { id: id.clone(), word_count: wc, size: sz, terms };
    proof {
        assert(idoc_of(jview(*v)) == Some(d@));
    }
    Some(d)
}

/// If any member of the first `n` is not a usable count, the term table
/// fails to extract.
proof fn lemma_terms_suffix_none(tms: Seq<(Vec<u8>, Json)>, i: int, n: int)
    requires
        0 <= i < n <= tms.len(),
        match jview(tms[i].1) {
            JVal::Num { neg, mag, raw } => neg || mag is None,
            _ => true,
        },
    ensures
        terms_of(jview_members(tms, n)) is None,
    decreases n,
{
    if i < n - 1 {
        lemma_terms_suffix_none(tms, i, n - 1);
        assert(jview_members(tms, n).drop_last() =~= jview_members(tms, n - 1));
    } else {
        assert(jview_members(tms, n).last() == (tms[n - 1].0@, jview(tms[n - 1].1)));
    }
}

/// Extracts and validates an index from parsed JSON.
#[verifier::loop_isolation(false)]
pub fn extract_index(v: &Json) -> (r: Option<Vec<IndexDoc>>)
    ensures
        match r {
            Some(ds) => index_of(jview(*v)) == Some(
                Seq::new(ds@.len(), |k: int| ds@[k]@),
            ),
            None => index_of(jview(*v)) is None,
        },
{
    let ms = match v {
        Json::Obj(ms) => ms,
        _ => {
            return None;
        },
    };
    let kdocs = k_documents();
    let docsj = obj_get(ms, kdocs.as_slice());
    let elems = match docsj {
        Some(Json::Arr(elems)) => elems,
        _ => {
            return None;
        },
    };
    let mut out: Vec<IndexDoc> = Vec::new();
    let n = elems.len();
    let mut i: usize = 0;
    while i < n
        invariant
            i <= n,
            out@.len() == i,
            idocs_of(jview_elems(elems@, i as int)) == Some(
                Seq::new(out@.len(), |k: int| out@[k]@),
            ),
        decreases n - i,
    {
        let ghost prev = Seq::new(out@.len(), |k: int| out@[k]@);
        match extract_idoc(&elems[i]) {
            Some(e) => {
                out.push(e);
            },
            None => {
                proof {
                    lemma_idocs_prefix_none(elems@, i as int, n as int);
                }
                return None;
            },
        }
        i = i + 1;
        proof {
            assert(jview_elems(elems@, i as int).drop_last() =~= jview_elems(elems@, i - 1));
            assert(jview_elems(elems@, i as int).last() == jview(elems@[i - 1]));
            assert(Seq::new(out@.len(), |k: int| out@[k]@) =~= prev.push(out@.last()@));
        }
    }
    proof {
        assert(jview_elems(elems@, n as int) == jview_elems(elems@, elems@.len() as int));
    }
    Some(out)
}

proof fn lemma_idocs_prefix_none(elems: Seq<Json>, i: int, n: int)
    requires
        0 <= i < n <= elems.len(),
        idoc_of(jview(elems[i])) is None,
    ensures
        idocs_of(jview_elems(elems, n)) is None,
    decreases n,
{
    if i < n - 1 {
        lemma_idocs_prefix_none(elems, i, n - 1);
        assert(jview_elems(elems, n).drop_last() =~= jview_elems(elems, n - 1));
    } else {
        assert(jview_elems(elems, n).last() == jview(elems[n - 1]));
    }
}

/// If any element of the first `n` is malformed, the whole extraction fails.
proof fn lemma_entries_prefix_none(elems: Seq<Json>, i: int, n: int)
    requires
        0 <= i < n <= elems.len(),
        entry_of(jview(elems[i])) is None,
    ensures
        entries_of(jview_elems(elems, n)) is None,
    decreases n,
{
    if i < n - 1 {
        lemma_entries_prefix_none(elems, i, n - 1);
        assert(jview_elems(elems, n).drop_last() =~= jview_elems(elems, n - 1));
    } else {
        assert(jview_elems(elems, n).last() == jview(elems[n - 1]));
    }
}

} // verus!
