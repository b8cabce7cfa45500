//! The inspector: reports a cache's version, document count, and health
//! without resolving anything.
//!
//! Inspection only hard-fails when the directory or manifest is absent
//! (`CacheMissing`) or the bytes cannot be read (`IoError`). Bytes that are
//! present but corrupt still produce a well-formed report with `valid` false
//! and whatever metadata could be salvaged. The report is a pure function of
//! the manifest bytes, so repeated inspections are identical field for field.

use vstd::prelude::*;
use crate::jsonp::Json;
use crate::jsonp::JVal;
use crate::jsonp::jview;
use crate::jsonp::pjson;
use crate::jsonp::parse_json;
use crate::model::ErrKind;
use crate::model::ReadOutcome;
use crate::model::ReadView;
use crate::model::jget;
use crate::model::obj_get;
use crate::cache::manifest_of;
use crate::cache::extract_manifest;
use crate::cache::key_cache_version;
use crate::cache::key_document_count;
use crate::jsonw::quoted;
use crate::jsonw::push_quoted;
use crate::jsonw::push_slice;
use crate::numfmt::dec_digits;
use crate::numfmt::push_u64_dec;

verus! {

pub open spec fn frag_cv() -> Seq<u8> {
    seq![123u8, 34u8, 99u8, 97u8, 99u8, 104u8, 101u8, 95u8, 118u8, 101u8, 114u8, 115u8, 105u8,
        111u8, 110u8, 34u8, 58u8]
}

pub open spec fn frag_dc() -> Seq<u8> {
    seq![44u8, 34u8, 100u8, 111u8, 99u8, 117u8, 109u8, 101u8, 110u8, 116u8, 95u8, 99u8, 111u8,
        117u8, 110u8, 116u8, 34u8, 58u8]
}

pub open spec fn frag_valid() -> Seq<u8> {
    seq![44u8, 34u8, 118u8, 97u8, 108u8, 105u8, 100u8, 34u8, 58u8]
}

pub open spec fn lit_true() -> Seq<u8> {
    seq![116u8, 114u8, 117u8, 101u8]
}

pub open spec fn lit_false() -> Seq<u8> {
    seq![102u8, 97u8, 108u8, 115u8, 101u8]
}

pub open spec fn lit_unknown() -> Seq<u8> {
    seq![117u8, 110u8, 107u8, 110u8, 111u8, 119u8, 110u8]
}

/// The frozen inspect report.
pub open spec fn inspect_json(cv: Seq<u8>, dc: u64, valid: bool) -> Seq<u8> {
    frag_cv() + quoted(cv) + frag_dc() + dec_digits(dc as nat) + frag_valid() + (if valid {
        lit_true()
    } else {
        lit_false()
    }) + seq![125u8]
}

/// The version string salvageable from arbitrary parsed bytes.
pub open spec fn salvage_cv(j: JVal) -> Seq<u8> {
    match j {
        JVal::Obj(ms) => match jget(ms, key_cache_version()) {
            Some(JVal::Str(s)) => s,
            _ => lit_unknown(),
        },
        _ => lit_unknown(),
    }
}

/// The document count salvageable from arbitrary parsed bytes.
pub open spec fn salvage_dc(j: JVal) -> u64 {
    match j {
        JVal::Obj(ms) => match jget(ms, key_document_count()) {
            Some(JVal::Num { neg, mag, raw }) => {
                if neg {
                    0
                } else {
                    match mag {
                        Some(n) => n,
                        None => 0,
                    }
                }
            },
            _ => 0,
        },
        _ => 0,
    }
}

/// What inspecting returns for every read outcome: an error only when the
/// manifest is absent or unreadable, else the frozen report.
pub open spec fn inspect_spec(oc: ReadView) -> Result<Seq<u8>, ErrKind> {
    match oc {
        ReadView::Missing => Err(ErrKind::CacheMissing),
        ReadView::Unreadable => Err(ErrKind::IoError),
        ReadView::Content(b) => Ok(
            match pjson(b) {
                None => inspect_json(lit_unknown(), 0, false),
                Some(j) => match manifest_of(j) {
                    Some(m) => inspect_json(m.cache_version, m.document_count, true),
                    None => inspect_json(salvage_cv(j), salvage_dc(j), false),
                },
            },
        ),
    }
}

fn push_inspect_json(cv: &[u8], dc: u64, valid: bool) -> (r: Vec<u8>)
    ensures
        r@ == inspect_json(cv@, dc, valid),
{
    let mut out: Vec<u8> = Vec::new();
    let f1: Vec<u8> = vec![123u8, 34, 99, 97, 99, 104, 101, 95, 118, 101, 114, 115, 105, 111, 110,
        34, 58];
    push_slice(f1.as_slice(), &mut out);
    push_quoted(cv, &mut out);
    let f2: Vec<u8> = vec![44u8, 34, 100, 111, 99, 117, 109, 101, 110, 116, 95, 99, 111, 117, 110,
        116, 34, 58];
    push_slice(f2.as_slice(), &mut out);
    push_u64_dec(dc, &mut out);
    let f3: Vec<u8> = vec![44u8, 34, 118, 97, 108, 105, 100, 34, 58];
    push_slice(f3.as_slice(), &mut out);
    if valid {
        let t: Vec<u8> = vec![116u8, 114, 117, 101];
        push_slice(t.as_slice(), &mut out);
    } else {
        let t: Vec<u8> = vec![102u8, 97, 108, 115, 101];
        push_slice(t.as_slice(), &mut out);
    }
    out.push(125);
    proof {
        assert(out@ =~= inspect_json(cv@, dc, valid));
    }
    out
}

/// Inspects a manifest read outcome.
pub fn inspect(oc: &ReadOutcome) -> (r: Result<Vec<u8>, ErrKind>)
    ensures
        match r {
            Ok(b) => inspect_spec(oc@) == Ok::<Seq<u8>, ErrKind>(b@),
            Err(e) => inspect_spec(oc@) == Err::<Seq<u8>, ErrKind>(e),
        },
{
    let b = match oc {
        ReadOutcome::Missing => {
            return Err(ErrKind::CacheMissing);
        },
        ReadOutcome::Unreadable => {
            return Err(ErrKind::IoError);
        },
        ReadOutcome::Content(b) => b,
    };
    let unknown: Vec<u8> = vec![117u8, 110, 107, 110, 111, 119, 110];
    proof {
        assert(unknown@ =~= lit_unknown());
    }
    match parse_json(b.as_slice()) {
        Err(_) => Ok(push_inspect_json(unknown.as_slice(), 0, false)),
        Ok(j) => match extract_manifest(&j) {
            Some(m) => Ok(
                push_inspect_json(m.cache_version.as_slice(), m.document_count, true),
            ),
            None => {
                // Salvage what the bytes still say.
                let mut cv: &Vec<u8> = &unknown;
                let mut dc: u64 = 0;
                match &j {
                    Json::Obj(ms) => {
                        let kcv: Vec<u8> = vec![99u8, 97, 99, 104, 101, 95, 118, 101, 114, 115,
                            105, 111, 110];
                        proof {
                            assert(kcv@ =~= key_cache_version());
                        }
                        match obj_get(ms, kcv.as_slice()) {
                            Some(Json::Str(s)) => {
                                cv = s;
                            },
                            _ => {},
                        }
                        let kdc: Vec<u8> = vec![100u8, 111, 99, 117, 109, 101, 110, 116, 95, 99,
                            111, 117, 110, 116];
                        proof {
                            assert(kdc@ =~= key_document_count());
                        }
                        match obj_get(ms, kdc.as_slice()) {
                            Some(Json::Num { neg, mag, raw }) => {
                                if !*neg {
                                    match mag {
                                        Some(n) => {
                                            dc = *n;
                                        },
                                        None => {},
                                    }
                                }
                            },
                            _ => {},
                        }
                    },
                    _ => {},
                }
                proof {
                    assert(cv@ == salvage_cv(jview(j)));
                    assert(dc == salvage_dc(jview(j)));
                }
                Ok(push_inspect_json(cv.as_slice(), dc, false))
            },
        },
    }
}

/// Idempotent inspection law: inspecting an unmodified cache any number of
/// times yields identical output, field for field.
pub proof fn lemma_inspect_idempotent(
    oc: ReadView,
    r1: Result<Seq<u8>, ErrKind>,
    r2: Result<Seq<u8>, ErrKind>,
)
    requires
        r1 == inspect_spec(oc),
        r2 == inspect_spec(oc),
    ensures
        r1 == r2,
{
}

} // verus!
