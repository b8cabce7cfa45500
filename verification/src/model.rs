//! The cache model: error kinds, read outcomes, and the manifest and index
//! structures with their validation.
//!
//! Reading a file is the caller's business; it reports what happened as a
//! `ReadOutcome`, and everything from there on is a function of those bytes.
//! A directory or manifest that does not exist is `CacheMissing`; bytes that
//! are present but unreadable are `IoError`; bytes that do not parse into a
//! well-formed, supported-version manifest are `CacheInvalid`. The supported
//! schema version is 1; a manifest declaring a higher version is rejected as
//! invalid, never half-loaded.

use vstd::prelude::*;
use crate::jsonp::Json;
use crate::jsonp::JVal;
use crate::jsonp::jview;
use crate::jsonp::jview_members;
use crate::jsonp::is_digit;
use crate::jsonp::digits_val;

verus! {

/// The engine's error taxonomy.
#[derive(PartialEq, Eq, Structural, Clone, Copy, Debug)]
pub enum ErrKind {
    CacheMissing,
    CacheInvalid,
    IoError,
    InvalidQuery,
    InvalidBudget,
    InternalError,
}

/// What happened when the caller tried to read a file.
pub enum ReadOutcome {
    /// The file or its directory does not exist.
    Missing,
    /// The file exists but could not be read.
    Unreadable,
    /// The file's bytes.
    Content(Vec<u8>),
}

/// The specification-level image of a read outcome.
pub enum ReadView {
    Missing,
    Unreadable,
    Content(Seq<u8>),
}

impl View for ReadOutcome {
    type V = ReadView;

    open spec fn view(&self) -> ReadView {
        match self {
            ReadOutcome::Missing => ReadView::Missing,
            ReadOutcome::Unreadable => ReadView::Unreadable,
            ReadOutcome::Content(b) => ReadView::Content(b@),
        }
    }
}

/// The frozen exit code for an error kind: cache missing 4, cache invalid 5,
/// I/O failure 6, and 2 for malformed requests.
pub open spec fn spec_exit_code(e: ErrKind) -> i32 {
    match e {
        ErrKind::CacheMissing => 4,
        ErrKind::CacheInvalid => 5,
        ErrKind::IoError => 6,
        ErrKind::InvalidQuery => 2,
        ErrKind::InvalidBudget => 2,
        ErrKind::InternalError => 2,
    }
}

/// Maps an error kind to the engine's frozen exit code.
pub fn exit_code(e: ErrKind) -> (r: i32)
    ensures
        r == spec_exit_code(e),
{
    match e {
        ErrKind::CacheMissing => 4,
        ErrKind::CacheInvalid => 5,
        ErrKind::IoError => 6,
        ErrKind::InvalidQuery => 2,
        ErrKind::InvalidBudget => 2,
        ErrKind::InternalError => 2,
    }
}

/// The frozen protocol code string for an error kind.
pub open spec fn spec_err_code(e: ErrKind) -> Seq<u8> {
    match e {
        ErrKind::CacheMissing => seq![99u8, 97u8, 99u8, 104u8, 101u8, 95u8, 109u8, 105u8, 115u8,
            115u8, 105u8, 110u8, 103u8],
        ErrKind::CacheInvalid => seq![99u8, 97u8, 99u8, 104u8, 101u8, 95u8, 105u8, 110u8, 118u8,
            97u8, 108u8, 105u8, 100u8],
        ErrKind::IoError => seq![105u8, 111u8, 95u8, 101u8, 114u8, 114u8, 111u8, 114u8],
        ErrKind::InvalidQuery => seq![105u8, 110u8, 118u8, 97u8, 108u8, 105u8, 100u8, 95u8, 113u8,
            117u8, 101u8, 114u8, 121u8],
        ErrKind::InvalidBudget => seq![105u8, 110u8, 118u8, 97u8, 108u8, 105u8, 100u8, 95u8, 98u8,
            117u8, 100u8, 103u8, 101u8, 116u8],
        ErrKind::InternalError => seq![105u8, 110u8, 116u8, 101u8, 114u8, 110u8, 97u8, 108u8, 95u8,
            101u8, 114u8, 114u8, 111u8, 114u8],
    }
}

/// The protocol code string (`cache_missing`, `io_error`, ...) of a kind.
pub fn err_code(e: ErrKind) -> (r: Vec<u8>)
    ensures
        r@ == spec_err_code(e),
{
    let r: Vec<u8> = match e {
        ErrKind::CacheMissing => vec![99u8, 97, 99, 104, 101, 95, 109, 105, 115, 115, 105, 110,
            103],
        ErrKind::CacheInvalid => vec![99u8, 97, 99, 104, 101, 95, 105, 110, 118, 97, 108, 105,
            100],
        ErrKind::IoError => vec![105u8, 111, 95, 101, 114, 114, 111, 114],
        ErrKind::InvalidQuery => vec![105u8, 110, 118, 97, 108, 105, 100, 95, 113, 117, 101, 114,
            121],
        ErrKind::InvalidBudget => vec![105u8, 110, 118, 97, 108, 105, 100, 95, 98, 117, 100, 103,
            101, 116],
        ErrKind::InternalError => vec![105u8, 110, 116, 101, 114, 110, 97, 108, 95, 101, 114, 114,
            111, 114],
    };
    proof {
        assert(r@ =~= spec_err_code(e));
    }
    r
}

/// Looks a key up among object members; the last binding wins.
pub open spec fn jget(ms: Seq<(Seq<u8>, JVal)>, key: Seq<u8>) -> Option<JVal>
    decreases ms.len(),
{
    if ms.len() == 0 {
        None
    } else if ms.last().0 == key {
        Some(ms.last().1)
    } else {
        jget(ms.drop_last(), key)
    }
}

/// Whether two byte strings are equal.
pub fn bytes_eq(a: &[u8], b: &[u8]) -> (r: bool)
    ensures
        r == (a@ == b@),
{
    if a.len() != b.len() {
        assert(a@ != b@);
        return false;
    }
    let mut i: usize = 0;
    while i < a.len()
        invariant
            i <= a@.len(),
            a@.len() == b@.len(),
            forall|k: int| 0 <= k < i ==> a@[k] == b@[k],
        decreases a@.len() - i,
    {
        if a[i] != b[i] {
            return false;
        }
        i = i + 1;
    }
    proof {
        assert(a@ =~= b@);
    }
    true
}

/// Finds a key among the members of a parsed object.
pub fn obj_get<'a>(ms: &'a Vec<(Vec<u8>, Json)>, key: &[u8]) -> (r: Option<&'a Json>)
    ensures
        match r {
            Some(v) => jget(jview_members(ms@, ms@.len() as int), key@) == Some(jview(*v)),
            None => jget(jview_members(ms@, ms@.len() as int), key@) is None,
        },
{
    let mut i: usize = ms.len();
    while i > 0
        invariant
            i <= ms@.len(),
            jget(jview_members(ms@, ms@.len() as int), key@) == jget(
                jview_members(ms@, i as int),
                key@,
            ),
        decreases i,
    {
        proof {
            assert(jview_members(ms@, i as int).last() == (ms@[i - 1].0@, jview(ms@[i - 1].1)));
            assert(jview_members(ms@, i as int).drop_last() =~= jview_members(ms@, i - 1));
        }
        if bytes_eq(ms[i - 1].0.as_slice(), key) {
            return Some(&ms[i - 1].1);
        }
        i = i - 1;
    }
    None
}

/// The decimal value of a digit string, if it is all digits, nonempty, and
/// fits in 64 bits.
pub open spec fn dec_str_val(s: Seq<u8>) -> Option<u64>
    decreases s.len(),
{
    if s.len() == 0 {
        None
    } else if !(forall|k: int| 0 <= k < s.len() ==> is_digit(s[k])) {
        None
    } else if digits_val(s, 0, s.len() as int) > u64::MAX {
        None
    } else {
        Some(digits_val(s, 0, s.len() as int) as u64)
    }
}

/// Parses an all-digits decimal string.
pub fn parse_dec_str(s: &[u8]) -> (r: Option<u64>)
    ensures
        r == dec_str_val(s@),
{
    if s.len() == 0 {
        return None;
    }
    let mut mag: u64 = 0;
    let mut of = false;
    let mut p: usize = 0;
    while p < s.len()
        invariant
            p <= s@.len(),
            forall|k: int| 0 <= k < p ==> is_digit(s@[k]),
            !of ==> mag == digits_val(s@, 0, p as int),
            of ==> digits_val(s@, 0, p as int) > u64::MAX,
        decreases s@.len() - p,
    {
        let b = s[p];
        if b < 48 || b > 57 {
            return None;
        }
        let dg = (b - 48) as u64;
        if of {
        } else if mag > (u64::MAX - dg) / 10 {
            proof {
                assert(mag * 10 + dg > u64::MAX) by (nonlinear_arith)
                    requires
                        mag > (u64::MAX - dg) / 10,
                        dg <= 9,
                        mag >= 0,
                ;
            }
            of = true;
        } else {
            proof {
                assert(mag * 10 + dg <= u64::MAX) by (nonlinear_arith)
                    requires
                        mag <= (u64::MAX - dg) / 10,
                        dg <= 9,
                        mag >= 0,
                ;
            }
            mag = mag * 10 + dg;
        }
        p = p + 1;
        proof {
            if of {
                assert(digits_val(s@, 0, p as int) > u64::MAX) by (nonlinear_arith)
                    requires
                        digits_val(s@, 0, p as int) == digits_val(s@, 0, p - 1) * 10 + (s@[p - 1]
                            - 48),
                        digits_val(s@, 0, p - 1) > u64::MAX || (digits_val(s@, 0, p - 1) * 10 + (
                        s@[p - 1] - 48)) > u64::MAX,
                        s@[p - 1] >= 48,
                ;
            }
        }
    }
    if of {
        None
    } else {
        Some(mag)
    }
}

/// A declared format version: a nonnegative integer, taken from a JSON
/// number or from a decimal string.
pub open spec fn ver_num(v: JVal) -> Option<u64> {
    match v {
        JVal::Str(s) => dec_str_val(s),
        JVal::Num { neg, mag, raw } => {
            if neg {
                None
            } else {
                mag
            }
        },
        _ => None,
    }
}

/// Reads a version declaration.
pub fn version_of(v: &Json) -> (r: Option<u64>)
    ensures
        r == ver_num(jview(*v)),
{
    match v {
        Json::Str(s) => parse_dec_str(s.as_slice()),
        Json::Num { neg, mag, raw } => {
            if *neg {
                None
            } else {
                *mag
            }
        },
        _ => None,
    }
}

} // verus!
