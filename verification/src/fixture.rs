//! Fixture-path conventions and output canonicalization for the contract
//! test-suite that exercises this engine.
//!
//! The path helpers are pure string arithmetic over a caller-supplied base
//! directory (the manifest directory of the consuming crate); reading the
//! files those paths name is the caller's business.

use vstd::prelude::*;
use crate::jsonp::Json;
use crate::jsonp::JVal;
use crate::jsonp::pjson;
use crate::jsonp::parse_json;
use crate::model::jget;
use crate::model::obj_get;

verus! {

/// A query fixture: the query string and unit budget of one stored test case.
pub struct QueryFixture {
    pub query: String,
    pub budget: u64,
}

/// What a stored query fixture denotes: its query text and unit budget.
pub open spec fn query_fixture_spec(b: Seq<u8>) -> Option<(Seq<u8>, u64)> {
    match pjson(b) {
        Some(JVal::Obj(ms)) => match (jget(ms, seq![113u8, 117u8, 101u8, 114u8, 121u8]), jget(
            ms,
            seq![98u8, 117u8, 100u8, 103u8, 101u8, 116u8],
        )) {
            (Some(JVal::Str(q)), Some(JVal::Num { neg, mag, raw })) => {
                if neg {
                    None
                } else {
                    match mag {
                        Some(n) => Some((q, n)),
                        None => None,
                    }
                }
            },
            _ => None,
        },
        _ => None,
    }
}

/// Parses a stored query fixture: its query text (as bytes) and budget.
pub fn parse_query_fixture(b: &[u8]) -> (r: Option<(Vec<u8>, u64)>)
    ensures
        match r {
            Some(p) => query_fixture_spec(b@) == Some((p.0@, p.1)),
            None => query_fixture_spec(b@) is None,
        },
{
    let j = match parse_json(b) {
        Ok(j) => j,
        Err(_) => {
            return None;
        },
    };
    let ms = match &j {
        Json::Obj(ms) => ms,
        _ => {
            return None;
        },
    };
    let kq: Vec<u8> = vec![113u8, 117, 101, 114, 121];
    let kb: Vec<u8> = vec![98u8, 117, 100, 103, 101, 116];
    proof {
        assert(kq@ =~= seq![113u8, 117u8, 101u8, 114u8, 121u8]);
        assert(kb@ =~= seq![98u8, 117u8, 100u8, 103u8, 101u8, 116u8]);
    }
    match (obj_get(ms, kq.as_slice()), obj_get(ms, kb.as_slice())) {
        (Some(Json::Str(q)), Some(Json::Num { neg, mag, raw })) => {
            if *neg {
                None
            } else {
                match mag {
                    Some(n) => Some((q.clone(), *n)),
                    None => None,
                }
            }
        },
        _ => None,
    }
}

/// Root directory for all fixtures: `{base}/fixtures`.
pub fn fixtures_root(base: &str) -> (r: String)
    ensures
        r@ == base@ + "/fixtures"@,
{
    let mut s = base.to_owned();
    s.append("/fixtures");
    s
}

/// Root directory for v0 contract fixtures: `{base}/fixtures/v0`.
pub fn v0_root(base: &str) -> (r: String)
    ensures
        r@ == base@ + "/fixtures"@ + "/v0"@,
{
    let mut s = fixtures_root(base);
    s.append("/v0");
    s
}

/// Path to a pre-built v0 cache: `{base}/fixtures/v0/caches/{name}`.
pub fn cache_path(base: &str, name: &str) -> (r: String)
    ensures
        r@ == base@ + "/fixtures"@ + "/v0"@ + "/caches/"@ + name@,
{
    let mut s = v0_root(base);
    s.append("/caches/");
    s.append(name);
    s
}

/// Path to a document fixture directory: `{base}/fixtures/v0/documents/{name}`.
pub fn documents_path(base: &str, name: &str) -> (r: String)
    ensures
        r@ == base@ + "/fixtures"@ + "/v0"@ + "/documents/"@ + name@,
{
    let mut s = v0_root(base);
    s.append("/documents/");
    s.append(name);
    s
}

/// Root directory for schemas: `{base}/schemas`.
pub fn schemas_root(base: &str) -> (r: String)
    ensures
        r@ == base@ + "/schemas"@,
{
    let mut s = base.to_owned();
    s.append("/schemas");
    s
}

/// Whitespace characters trimmed from line ends: the Unicode white-space set,
/// as `str::trim_end` strips it.
pub open spec fn is_trim_ws(c: char) -> bool {
    c == ' ' || c == '\t' || c == '\n' || c == '\r' || c == '\u{b}' || c == '\u{c}'
        || c == '\u{85}' || c == '\u{a0}' || c == '\u{1680}' || c == '\u{2000}'
        || c == '\u{2001}' || c == '\u{2002}' || c == '\u{2003}' || c == '\u{2004}'
        || c == '\u{2005}' || c == '\u{2006}' || c == '\u{2007}' || c == '\u{2008}'
        || c == '\u{2009}' || c == '\u{200a}' || c == '\u{2028}' || c == '\u{2029}'
        || c == '\u{202f}' || c == '\u{205f}' || c == '\u{3000}'
}

/// One line with its trailing whitespace removed.
pub open spec fn trim_line(l: Seq<char>) -> Seq<char>
    decreases l.len(),
{
    if l.len() == 0 {
        l
    } else if is_trim_ws(l.last()) {
        trim_line(l.drop_last())
    } else {
        l
    }
}

/// Canonical form of the rest of `s` when the current line so far is `cur`:
/// CRLF counts as one line break, each finished line is end-trimmed, lines
/// are joined by single LF, and a break that ends the input emits nothing.
pub open spec fn canon_from(s: Seq<char>, from: int, cur: Seq<char>) -> Seq<char>
    decreases s.len() - from,
{
    if from < 0 || from >= s.len() {
        trim_line(cur)
    } else if s[from] == '\n' {
        trim_line(cur) + (if from + 1 >= s.len() {
            Seq::<char>::empty()
        } else {
            seq!['\n'] + canon_from(s, from + 1, Seq::empty())
        })
    } else if s[from] == '\r' && from + 1 < s.len() && s[from + 1] == '\n' {
        trim_line(cur) + (if from + 2 >= s.len() {
            Seq::<char>::empty()
        } else {
            seq!['\n'] + canon_from(s, from + 2, Seq::empty())
        })
    } else {
        canon_from(s, from + 1, cur.push(s[from]))
    }
}

/// The canonical form of a whole string.
pub open spec fn canon(s: Seq<char>) -> Seq<char> {
    if s.len() == 0 {
        Seq::empty()
    } else {
        canon_from(s, 0, Seq::empty())
    }
}

fn char_is_trim_ws(c: char) -> (r: bool)
    ensures
        r == is_trim_ws(c),
{
    c == ' ' || c == '\t' || c == '\n' || c == '\r' || c == '\u{b}' || c == '\u{c}'
        || c == '\u{85}' || c == '\u{a0}' || c == '\u{1680}' || c == '\u{2000}'
        || c == '\u{2001}' || c == '\u{2002}' || c == '\u{2003}' || c == '\u{2004}'
        || c == '\u{2005}' || c == '\u{2006}' || c == '\u{2007}' || c == '\u{2008}'
        || c == '\u{2009}' || c == '\u{200a}' || c == '\u{2028}' || c == '\u{2029}'
        || c == '\u{202f}' || c == '\u{205f}' || c == '\u{3000}'
}

fn trim_vec(l: &mut Vec<char>)
    ensures
        final(l)@ == trim_line(old(l)@),
{
    loop
        invariant
            trim_line(l@) == trim_line(old(l)@),
        decreases l.len(),
    {
        if l.len() == 0 {
            return ;
        }
        let c = l[l.len() - 1];
        if char_is_trim_ws(c) {
            let ghost prev = l@;
            let _ = l.pop();
            assert(l@ =~= prev.drop_last());
        } else {
            return ;
        }
    }
}

/// The characters of a string slice, in order.
fn str_chars(s: &str) -> (r: Vec<char>)
    ensures
        r@ == s@,
{
    let n = s.unicode_len();
    let mut out: Vec<char> = Vec::new();
    let mut i: usize = 0;
    while i < n
        invariant
            i <= n,
            n == s@.len(),
            out@ == s@.subrange(0, i as int),
        decreases n - i,
    {
        out.push(s.get_char(i));
        i = i + 1;
        assert(out@ =~= s@.subrange(0, i as int));
    }
    assert(out@ =~= s@);
    out
}

/// Relies on `String::from_iter` over characters: collecting a character
/// sequence yields the string of exactly those characters.
#[verifier::external_body]
fn chars_to_string(v: &Vec<char>) -> (s: String)
    ensures
        s@ == v@,
{
    v.iter().collect()
}

/// Canonicalizes output for cross-platform comparison: folds CRLF to LF,
/// trims trailing whitespace from every line, and drops a terminating
/// line break.
pub fn canonicalize(output: &str) -> (r: String)
    ensures
        r@ == canon(output@),
{
    let chars = str_chars(output);
    let n = chars.len();
    let mut out: Vec<char> = Vec::new();
    if n == 0 {
        return chars_to_string(&out);
    }
    let mut cur: Vec<char> = Vec::new();
    let mut i: usize = 0;
    while i < n
        invariant
            i <= n,
            n == chars@.len(),
            chars@ == output@,
            n > 0,
            canon(output@) == out@ + canon_from(chars@, i as int, cur@),
        decreases n - i,
    {
        let c = chars[i];
        let two = c == '\r' && i + 1 < n && chars[i + 1] == '\n';
        if c == '\n' || two {
            trim_vec(&mut cur);
            out.append(&mut cur);
            cur = Vec::new();
            let next = if two {
                i + 2
            } else {
                i + 1
            };
            if next >= n {
                i = next;
            } else {
                out.push('\n');
                i = next;
            }
            assert(canon(output@) =~= out@ + canon_from(chars@, i as int, cur@));
        } else {
            cur.push(c);
            i = i + 1;
            assert(canon(output@) =~= out@ + canon_from(chars@, i as int, cur@));
        }
    }
    trim_vec(&mut cur);
    out.append(&mut cur);
    assert(out@ =~= canon(output@));
    chars_to_string(&out)
}

} // verus!
