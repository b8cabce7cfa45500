//! JSON parsing for the manifest, index, and protocol formats.
//!
//! The parser works on raw bytes and is specified completely: the executable
//! parser returns exactly what the specification-level parser denotes, so
//! everything downstream of a parse is a function of the input bytes.
//!
//! Numbers keep their raw token text; an integral value also carries its
//! magnitude when it fits in 64 bits. String escapes, including `\uXXXX`
//! pairs for supplementary characters, are decoded to UTF-8 bytes. Nesting
//! is limited to a fixed depth so that parsing hostile input cannot exhaust
//! the stack.

use vstd::prelude::*;

verus! {

/// A parsed JSON value at the specification level.
pub enum JVal {
    Null,
    Bool(bool),
    Num { neg: bool, mag: Option<u64>, raw: Seq<u8> },
    Str(Seq<u8>),
    Arr(Seq<JVal>),
    Obj(Seq<(Seq<u8>, JVal)>),
}

/// A parsed JSON value.
pub enum Json {
    Null,
    Bool(bool),
    Num { neg: bool, mag: Option<u64>, raw: Vec<u8> },
    Str(Vec<u8>),
    Arr(Vec<Json>),
    Obj(Vec<(Vec<u8>, Json)>),
}

/// The specification-level denotation of a parsed value.
pub open spec fn jview(j: Json) -> JVal
    decreases j, 0int,
{
    match j {
        Json::Null => JVal::Null,
        Json::Bool(b) => JVal::Bool(b),
        Json::Num { neg, mag, raw } => JVal::Num { neg, mag, raw: raw@ },
        Json::Str(v) => JVal::Str(v@),
        Json::Arr(v) => JVal::Arr(jview_elems(v@, v@.len() as int)),
        Json::Obj(v) => JVal::Obj(jview_members(v@, v@.len() as int)),
    }
}

/// The denotations of the first `n` elements of `v`.
pub open spec fn jview_elems(v: Seq<Json>, n: int) -> Seq<JVal>
    decreases v, n,
    via jview_elems_dec
{
    if n <= 0 || n > v.len() {
        Seq::empty()
    } else {
        jview_elems(v, n - 1).push(jview(v[n - 1]))
    }
}

#[via_fn]
proof fn jview_elems_dec(v: Seq<Json>, n: int) {
    if 0 < n <= v.len() {
        assert(decreases_to!(v, n => v[n - 1], 0int));
    }
}

/// The denotations of the first `n` members of `v`.
pub open spec fn jview_members(v: Seq<(Vec<u8>, Json)>, n: int) -> Seq<(Seq<u8>, JVal)>
    decreases v, n,
    via jview_members_dec
{
    if n <= 0 || n > v.len() {
        Seq::empty()
    } else {
        jview_members(v, n - 1).push((v[n - 1].0@, jview(v[n - 1].1)))
    }
}

#[via_fn]
proof fn jview_members_dec(v: Seq<(Vec<u8>, Json)>, n: int) {
    if 0 < n <= v.len() {
        assert(decreases_to!(v, n => v[n - 1], 0int));
        assert(decreases_to!(v[n - 1] => v[n - 1].1));
    }
}

/// JSON whitespace.
pub open spec fn is_ws(b: u8) -> bool {
    b == 32 || b == 9 || b == 10 || b == 13
}

/// An ASCII decimal digit.
pub open spec fn is_digit(b: u8) -> bool {
    48 <= b <= 57
}

/// The first position at or after `i` that does not hold whitespace.
pub open spec fn skip_ws(s: Seq<u8>, i: int) -> int
    decreases s.len() - i,
{
    if 0 <= i < s.len() && is_ws(s[i]) {
        skip_ws(s, i + 1)
    } else {
        i
    }
}

/// The first position at or after `i` that does not hold a digit.
pub open spec fn skip_digits(s: Seq<u8>, i: int) -> int
    decreases s.len() - i,
{
    if 0 <= i < s.len() && is_digit(s[i]) {
        skip_digits(s, i + 1)
    } else {
        i
    }
}

/// The value of the digits in `s[a..b]`.
pub open spec fn digits_val(s: Seq<u8>, a: int, b: int) -> nat
    decreases b - a,
{
    if a >= b {
        0
    } else {
        (digits_val(s, a, b - 1) * 10 + (s[b - 1] - 48)) as nat
    }
}

/// The value of a hex digit byte, or none.
pub open spec fn hex_val(b: u8) -> Option<u8> {
    if 48 <= b <= 57 {
        Some((b - 48) as u8)
    } else if 97 <= b <= 102 {
        Some((b - 87) as u8)
    } else if 65 <= b <= 70 {
        Some((b - 55) as u8)
    } else {
        None
    }
}

/// The value of four hex digits at `i`, or none.
pub open spec fn hex4(s: Seq<u8>, i: int) -> Option<u32> {
    if i + 4 <= s.len() {
        match (hex_val(s[i]), hex_val(s[i + 1]), hex_val(s[i + 2]), hex_val(s[i + 3])) {
            (Some(a), Some(b), Some(c), Some(d)) => Some(
                ((a as u32) * 0x1000 + (b as u32) * 0x100 + (c as u32) * 0x10 + (d as u32)) as u32,
            ),
            _ => None,
        }
    } else {
        None
    }
}

/// The UTF-8 encoding of the code point `cp`.
pub open spec fn utf8_enc(cp: u32) -> Seq<u8> {
    if cp < 0x80 {
        seq![cp as u8]
    } else if cp < 0x800 {
        seq![(0xC0 + cp / 0x40) as u8, (0x80 + cp % 0x40) as u8]
    } else if cp < 0x10000 {
        seq![(0xE0 + cp / 0x1000) as u8, (0x80 + (cp / 0x40) % 0x40) as u8, (0x80 + cp % 0x40) as u8]
    } else {
        seq![
            (0xF0 + cp / 0x40000) as u8,
            (0x80 + (cp / 0x1000) % 0x40) as u8,
            (0x80 + (cp / 0x40) % 0x40) as u8,
            (0x80 + cp % 0x40) as u8,
        ]
    }
}

/// Parses the rest of a string body from `i` (after the opening quote),
/// with `acc` already decoded; yields the bytes and the position after the
/// closing quote.
pub open spec fn pstr_rest(s: Seq<u8>, i: int, acc: Seq<u8>) -> Option<(Seq<u8>, int)>
    decreases s.len() - i,
{
    if i < 0 || i >= s.len() {
        None
    } else {
        let b = s[i];
        if b == 34 {
            Some((acc, i + 1))
        } else if b == 92 {
            if i + 1 >= s.len() {
                None
            } else {
                let e = s[i + 1];
                if e == 34 || e == 92 || e == 47 {
                    pstr_rest(s, i + 2, acc.push(e))
                } else if e == 98 {
                    pstr_rest(s, i + 2, acc.push(8))
                } else if e == 102 {
                    pstr_rest(s, i + 2, acc.push(12))
                } else if e == 110 {
                    pstr_rest(s, i + 2, acc.push(10))
                } else if e == 114 {
                    pstr_rest(s, i + 2, acc.push(13))
                } else if e == 116 {
                    pstr_rest(s, i + 2, acc.push(9))
                } else if e == 117 {
                    match hex4(s, i + 2) {
                        None => None,
                        Some(cp) => {
                            if 0xD800 <= cp <= 0xDBFF {
                                if i + 12 <= s.len() && s[i + 6] == 92 && s[i + 7] == 117 {
                                    match hex4(s, i + 8) {
                                        None => None,
                                        Some(lo) => {
                                            if 0xDC00 <= lo <= 0xDFFF {
                                                pstr_rest(
                                                    s,
                                                    i + 12,
                                                    acc + utf8_enc(
                                                        (0x10000 + (cp - 0xD800) * 0x400 + (lo
                                                            - 0xDC00)) as u32,
                                                    ),
                                                )
                                            } else {
                                                None
                                            }
                                        },
                                    }
                                } else {
                                    None
                                }
                            } else if 0xDC00 <= cp <= 0xDFFF {
                                None
                            } else {
                                pstr_rest(s, i + 6, acc + utf8_enc(cp))
                            }
                        },
                    }
                } else {
                    None
                }
            }
        } else if b < 32 {
            None
        } else {
            pstr_rest(s, i + 1, acc.push(b))
        }
    }
}

/// Parses a string starting at the opening quote at `i`.
pub open spec fn pstr(s: Seq<u8>, i: int) -> Option<(Seq<u8>, int)> {
    if 0 <= i < s.len() && s[i] == 34 {
        pstr_rest(s, i + 1, Seq::empty())
    } else {
        None
    }
}

/// Parses a number token starting at `i`.
pub open spec fn pnum(s: Seq<u8>, i: int) -> Option<(JVal, int)> {
    if i < 0 || i >= s.len() {
        None
    } else {
        let neg = s[i] == 45;
        let ip = if neg {
            i + 1
        } else {
            i
        };
        if ip >= s.len() || !is_digit(s[ip]) {
            None
        } else {
            let int_end = if s[ip] == 48 {
                ip + 1
            } else {
                skip_digits(s, ip)
            };
            let frac_end = if int_end < s.len() && s[int_end] == 46 {
                let fe = skip_digits(s, int_end + 1);
                if fe == int_end + 1 {
                    int_end
                } else {
                    fe
                }
            } else {
                int_end
            };
            let has_frac = frac_end != int_end;
            if int_end < s.len() && s[int_end] == 46 && !has_frac {
                None
            } else {
                let exp_end = if frac_end < s.len() && (s[frac_end] == 101 || s[frac_end] == 69) {
                    let es = if frac_end + 1 < s.len() && (s[frac_end + 1] == 43 || s[frac_end + 1]
                        == 45) {
                        frac_end + 2
                    } else {
                        frac_end + 1
                    };
                    let ee = skip_digits(s, es);
                    if ee == es {
                        frac_end
                    } else {
                        ee
                    }
                } else {
                    frac_end
                };
                let has_exp = exp_end != frac_end;
                if frac_end < s.len() && (s[frac_end] == 101 || s[frac_end] == 69) && !has_exp {
                    None
                } else {
                    let mag = if has_frac || has_exp {
                        None
                    } else if digits_val(s, ip, int_end) <= u64::MAX {
                        Some(digits_val(s, ip, int_end) as u64)
                    } else {
                        None
                    };
                    Some(
                        (JVal::Num { neg, mag, raw: s.subrange(i, exp_end) }, exp_end),
                    )
                }
            }
        }
    }
}

/// Parses a value starting exactly at `i` with nesting budget `d`.
pub open spec fn pval(s: Seq<u8>, i: int, d: int) -> Option<(JVal, int)>
    decreases s.len() - i, d, 1int,
{
    if d <= 0 || i < 0 || i >= s.len() {
        None
    } else {
        let b = s[i];
        if b == 110 {
            if i + 4 <= s.len() && s[i + 1] == 117 && s[i + 2] == 108 && s[i + 3] == 108 {
                Some((JVal::Null, i + 4))
            } else {
                None
            }
        } else if b == 116 {
            if i + 4 <= s.len() && s[i + 1] == 114 && s[i + 2] == 117 && s[i + 3] == 101 {
                Some((JVal::Bool(true), i + 4))
            } else {
                None
            }
        } else if b == 102 {
            if i + 5 <= s.len() && s[i + 1] == 97 && s[i + 2] == 108 && s[i + 3] == 115 && s[i + 4]
                == 101 {
                Some((JVal::Bool(false), i + 5))
            } else {
                None
            }
        } else if b == 34 {
            match pstr(s, i) {
                None => None,
                Some((v, j)) => Some((JVal::Str(v), j)),
            }
        } else if b == 45 || is_digit(b) {
            pnum(s, i)
        } else if b == 91 {
            let j = skip_ws(s, i + 1);
            if j <= i || j > s.len() {
                None
            } else if j < s.len() && s[j] == 93 {
                Some((JVal::Arr(Seq::empty()), j + 1))
            } else {
                parr_items(s, j, d - 1, Seq::empty())
            }
        } else if b == 123 {
            let j = skip_ws(s, i + 1);
            if j <= i || j > s.len() {
                None
            } else if j < s.len() && s[j] == 125 {
                Some((JVal::Obj(Seq::empty()), j + 1))
            } else {
                pobj_items(s, j, d - 1, Seq::empty())
            }
        } else {
            None
        }
    }
}

/// Parses the elements of an array from the start of an element at `i`.
pub open spec fn parr_items(s: Seq<u8>, i: int, d: int, acc: Seq<JVal>) -> Option<(JVal, int)>
    decreases s.len() - i, d, 2int,
{
    match pval(s, i, d) {
        None => None,
        Some((v, j)) => {
            let j2 = skip_ws(s, j);
            if j2 >= s.len() {
                None
            } else if s[j2] == 44 {
                let j3 = skip_ws(s, j2 + 1);
                if j3 > i && j3 <= s.len() {
                    parr_items(s, j3, d, acc.push(v))
                } else {
                    None
                }
            } else if s[j2] == 93 {
                Some((JVal::Arr(acc.push(v)), j2 + 1))
            } else {
                None
            }
        },
    }
}

/// Parses the members of an object from the start of a key at `i`.
pub open spec fn pobj_items(s: Seq<u8>, i: int, d: int, acc: Seq<(Seq<u8>, JVal)>) -> Option<
    (JVal, int),
>
    decreases s.len() - i, d, 2int,
{
    match pstr(s, i) {
        None => None,
        Some((k, j)) => {
            let j2 = skip_ws(s, j);
            if j2 >= s.len() || s[j2] != 58 {
                None
            } else {
                let j3 = skip_ws(s, j2 + 1);
                if j3 <= i || j3 > s.len() {
                    None
                } else {
                    match pval(s, j3, d) {
                        None => None,
                        Some((v, j4)) => {
                            let j5 = skip_ws(s, j4);
                            if j5 >= s.len() {
                                None
                            } else if s[j5] == 44 {
                                let j6 = skip_ws(s, j5 + 1);
                                if j6 > i && j6 <= s.len() {
                                    pobj_items(s, j6, d, acc.push((k, v)))
                                } else {
                                    None
                                }
                            } else if s[j5] == 125 {
                                Some((JVal::Obj(acc.push((k, v))), j5 + 1))
                            } else {
                                None
                            }
                        },
                    }
                }
            }
        },
    }
}

/// Parses a complete JSON document: one value, possibly surrounded by
/// whitespace, covering the whole input.
pub open spec fn pjson(s: Seq<u8>) -> Option<JVal> {
    let i = skip_ws(s, 0);
    match pval(s, i, 128) {
        None => None,
        Some((v, j)) => {
            if skip_ws(s, j) == s.len() {
                Some(v)
            } else {
                None
            }
        },
    }
}

/// Views agree on sequences that agree on their first `n` items.
proof fn lemma_jview_elems_prefix(a: Seq<Json>, b: Seq<Json>, n: int)
    requires
        n <= a.len(),
        n <= b.len(),
        forall|k: int| 0 <= k < n ==> a[k] == b[k],
    ensures
        jview_elems(a, n) == jview_elems(b, n),
    decreases n,
{
    if n > 0 {
        lemma_jview_elems_prefix(a, b, n - 1);
    }
}

proof fn lemma_jview_members_prefix(a: Seq<(Vec<u8>, Json)>, b: Seq<(Vec<u8>, Json)>, n: int)
    requires
        n <= a.len(),
        n <= b.len(),
        forall|k: int| 0 <= k < n ==> a[k] == b[k],
    ensures
        jview_members(a, n) == jview_members(b, n),
    decreases n,
{
    if n > 0 {
        lemma_jview_members_prefix(a, b, n - 1);
    }
}

/// `skip_digits` never moves backwards.
proof fn lemma_skip_digits_ge(s: Seq<u8>, i: int)
    ensures
        skip_digits(s, i) >= i,
    decreases s.len() - i,
{
    if 0 <= i < s.len() && is_digit(s[i]) {
        lemma_skip_digits_ge(s, i + 1);
    }
}

/// Every byte passed over by `skip_digits` is a digit.
proof fn lemma_skip_digits_all(s: Seq<u8>, i: int)
    requires
        0 <= i,
    ensures
        forall|k: int| i <= k < skip_digits(s, i) ==> is_digit(s[k]),
    decreases s.len() - i,
{
    if 0 <= i < s.len() && is_digit(s[i]) {
        lemma_skip_digits_all(s, i + 1);
    }
}

/// Skips whitespace.
fn ws_skip(s: &[u8], i: usize) -> (r: usize)
    requires
        i <= s@.len(),
    ensures
        r == skip_ws(s@, i as int),
        i <= r <= s@.len(),
{
    let mut cur = i;
    while cur < s.len() && (s[cur] == 32 || s[cur] == 9 || s[cur] == 10 || s[cur] == 13)
        invariant
            i <= cur <= s@.len(),
            skip_ws(s@, i as int) == skip_ws(s@, cur as int),
        decreases s@.len() - cur,
    {
        cur = cur + 1;
    }
    cur
}

/// Skips decimal digits.
fn digit_skip(s: &[u8], i: usize) -> (r: usize)
    requires
        i <= s@.len(),
    ensures
        r == skip_digits(s@, i as int),
        i <= r <= s@.len(),
{
    let mut cur = i;
    while cur < s.len() && 48 <= s[cur] && s[cur] <= 57
        invariant
            i <= cur <= s@.len(),
            skip_digits(s@, i as int) == skip_digits(s@, cur as int),
        decreases s@.len() - cur,
    {
        cur = cur + 1;
    }
    cur
}

/// Reads four hex digits.
fn hex4_exec(s: &[u8], i: usize) -> (r: Option<u32>)
    requires
        i <= s@.len(),
    ensures
        r == hex4(s@, i as int),
        r is Some ==> r->0 < 0x10000,
{
    if s.len() < 4 || i > s.len() - 4 {
        return None;
    }
    let a = hex1(s[i]);
    let b = hex1(s[i + 1]);
    let c = hex1(s[i + 2]);
    let d = hex1(s[i + 3]);
    match (a, b, c, d) {
        (Some(a), Some(b), Some(c), Some(d)) => Some(
            (a as u32) * 0x1000 + (b as u32) * 0x100 + (c as u32) * 0x10 + (d as u32),
        ),
        _ => None,
    }
}

fn hex1(b: u8) -> (r: Option<u8>)
    ensures
        r == hex_val(b),
        r is Some ==> r->0 < 16,
{
    if 48 <= b && b <= 57 {
        Some(b - 48)
    } else if 97 <= b && b <= 102 {
        Some(b - 87)
    } else if 65 <= b && b <= 70 {
        Some(b - 55)
    } else {
        None
    }
}

/// Appends the UTF-8 encoding of `cp`.
fn push_utf8(cp: u32, out: &mut Vec<u8>)
    requires
        cp < 0x110000,
    ensures
        final(out)@ == old(out)@ + utf8_enc(cp),
{
    if cp < 0x80 {
        out.push(cp as u8);
    } else if cp < 0x800 {
        out.push(0xC0 + (cp / 0x40) as u8);
        out.push(0x80 + (cp % 0x40) as u8);
    } else if cp < 0x10000 {
        out.push(0xE0 + (cp / 0x1000) as u8);
        out.push(0x80 + ((cp / 0x40) % 0x40) as u8);
        out.push(0x80 + (cp % 0x40) as u8);
    } else {
        out.push(0xF0 + (cp / 0x40000) as u8);
        out.push(0x80 + ((cp / 0x1000) % 0x40) as u8);
        out.push(0x80 + ((cp / 0x40) % 0x40) as u8);
        out.push(0x80 + (cp % 0x40) as u8);
    }
    assert(final(out)@ =~= old(out)@ + utf8_enc(cp));
}

/// Parses a string whose opening quote stands at `i`.
fn parse_string(s: &[u8], i: usize) -> (r: Result<(Vec<u8>, usize), ()>)
    requires
        i < s@.len(),
        s@[i as int] == 34,
    ensures
        match r {
            Ok(p) => pstr(s@, i as int) == Some((p.0@, p.1 as int)) && i < p.1 <= s@.len(),
            Err(_) => pstr(s@, i as int) is None,
        },
{
    let n = s.len();
    assert(n == s@.len());
    let mut acc: Vec<u8> = Vec::new();
    let mut cur = i + 1;
    loop
        invariant
            i + 1 <= cur,
            cur <= s@.len() + 1,
            pstr(s@, i as int) == pstr_rest(s@, cur as int, acc@),
        decreases s@.len() - cur,
    {
        if cur >= s.len() {
            return Err(());
        }
        let b = s[cur];
        if b == 34 {
            return Ok((acc, cur + 1));
        } else if b == 92 {
            if cur + 1 >= s.len() {
                return Err(());
            }
            let e = s[cur + 1];
            if e == 34 || e == 92 || e == 47 {
                acc.push(e);
                cur = cur + 2;
            } else if e == 98 {
                acc.push(8);
                cur = cur + 2;
            } else if e == 102 {
                acc.push(12);
                cur = cur + 2;
            } else if e == 110 {
                acc.push(10);
                cur = cur + 2;
            } else if e == 114 {
                acc.push(13);
                cur = cur + 2;
            } else if e == 116 {
                acc.push(9);
                cur = cur + 2;
            } else if e == 117 {
                match hex4_exec(s, cur + 2) {
                    None => {
                        return Err(());
                    },
                    Some(cp) => {
                        if 0xD800 <= cp && cp <= 0xDBFF {
                            if s.len() >= 12 && cur <= s.len() - 12 && s[cur + 6] == 92 && s[cur
                                + 7] == 117 {
                                match hex4_exec(s, cur + 8) {
                                    None => {
                                        return Err(());
                                    },
                                    Some(lo) => {
                                        if 0xDC00 <= lo && lo <= 0xDFFF {
                                            let code: u32 = 0x10000 + (cp - 0xD800) * 0x400 + (lo
                                                - 0xDC00);
                                            push_utf8(code, &mut acc);
                                            cur = cur + 12;
                                        } else {
                                            return Err(());
                                        }
                                    },
                                }
                            } else {
                                return Err(());
                            }
                        } else if 0xDC00 <= cp && cp <= 0xDFFF {
                            return Err(());
                        } else {
                            push_utf8(cp, &mut acc);
                            cur = cur + 6;
                        }
                    },
                }
            } else {
                return Err(());
            }
        } else if b < 32 {
            return Err(());
        } else {
            acc.push(b);
            cur = cur + 1;
        }
    }
}

/// Parses a number token starting at `i`.
#[verifier::rlimit(100)]
fn parse_number(s: &[u8], i: usize) -> (r: Result<(Json, usize), ()>)
    requires
        i < s@.len(),
    ensures
        match r {
            Ok(p) => pnum(s@, i as int) == Some((jview(p.0), p.1 as int)) && i < p.1 <= s@.len(),
            Err(_) => pnum(s@, i as int) is None,
        },
{
    let neg = s[i] == 45;
    let ip = if neg {
        i + 1
    } else {
        i
    };
    if ip >= s.len() || !(48 <= s[ip] && s[ip] <= 57) {
        return Err(());
    }
    let int_end = if s[ip] == 48 {
        ip + 1
    } else {
        digit_skip(s, ip)
    };
    proof {
        lemma_skip_digits_ge(s@, ip + 1);
        assert(int_end > ip);
    }
    let mut frac_end = int_end;
    if int_end < s.len() && s[int_end] == 46 {
        let fe = digit_skip(s, int_end + 1);
        if fe == int_end + 1 {
            return Err(());
        }
        frac_end = fe;
    }
    let has_frac = frac_end != int_end;
    let mut exp_end = frac_end;
    if frac_end < s.len() && (s[frac_end] == 101 || s[frac_end] == 69) {
        let es = if frac_end + 1 < s.len() && (s[frac_end + 1] == 43 || s[frac_end + 1] == 45) {
            frac_end + 2
        } else {
            frac_end + 1
        };
        let ee = digit_skip(s, es);
        if ee == es {
            return Err(());
        }
        exp_end = ee;
    }
    let has_exp = exp_end != frac_end;
    proof {
        lemma_skip_digits_all(s@, ip as int);
    }
    let mut mag: u64 = 0;
    let mut of = false;
    let mut p = ip;
    while p < int_end
        invariant
            ip <= p <= int_end <= s@.len(),
            !of ==> mag == digits_val(s@, ip as int, p as int),
            of ==> digits_val(s@, ip as int, p as int) > u64::MAX,
            forall|k: int| ip <= k < int_end ==> is_digit(s@[k]),
        decreases int_end - p,
    {
        let dg = (s[p] - 48) as u64;
        if of {
        } else if mag > (u64::MAX - dg) / 10 {
            proof {
                assert(mag * 10 + dg > u64::MAX) by (nonlinear_arith)
                    requires
                        mag > (u64::MAX - dg) / 10,
                        dg <= 9,
                        mag >= 0,
                ;
            }
            of = true;
        } else {
            proof {
                assert(mag * 10 + dg <= u64::MAX) by (nonlinear_arith)
                    requires
                        mag <= (u64::MAX - dg) / 10,
                        dg <= 9,
                        mag >= 0,
                ;
            }
            mag = mag * 10 + dg;
        }
        p = p + 1;
        proof {
            if of {
                assert(digits_val(s@, ip as int, p as int) > u64::MAX) by (nonlinear_arith)
                    requires
                        digits_val(s@, ip as int, p as int) == digits_val(
                            s@,
                            ip as int,
                            p - 1,
                        ) * 10 + (s@[p - 1] - 48),
                        digits_val(s@, ip as int, p - 1) > u64::MAX || (digits_val(
                            s@,
                            ip as int,
                            p - 1,
                        ) * 10 + (s@[p - 1] - 48)) > u64::MAX,
                        s@[p - 1] >= 48,
                ;
            }
        }
    }
    let mag_opt: Option<u64> = if has_frac || has_exp || of {
        None
    } else {
        Some(mag)
    };
    let mut raw: Vec<u8> = Vec::new();
    let mut rp = i;
    while rp < exp_end
        invariant
            i <= rp <= exp_end <= s@.len(),
            raw@ == s@.subrange(i as int, rp as int),
        decreases exp_end - rp,
    {
        raw.push(s[rp]);
        rp = rp + 1;
        assert(raw@ =~= s@.subrange(i as int, rp as int));
    }
    let v = Json::Num { neg, mag: mag_opt, raw };
    assert(pnum(s@, i as int) == Some((jview(v), exp_end as int)));
    Ok((v, exp_end))
}

/// Parses one JSON value starting exactly at `i`, with nesting budget `d`.
pub fn parse_value(s: &[u8], i: usize, d: u32) -> (r: Result<(Json, usize), ()>)
    requires
        i <= s@.len(),
    ensures
        match r {
            Ok(p) => pval(s@, i as int, d as int) == Some((jview(p.0), p.1 as int)) && i < p.1
                <= s@.len(),
            Err(_) => pval(s@, i as int, d as int) is None,
        },
    decreases s@.len() - i,
{
    if d == 0 || i >= s.len() {
        return Err(());
    }
    let b = s[i];
    if b == 110 {
        if s.len() - i >= 4 && s[i + 1] == 117 && s[i + 2] == 108 && s[i + 3] == 108 {
            Ok((Json::Null, i + 4))
        } else {
            Err(())
        }
    } else if b == 116 {
        if s.len() - i >= 4 && s[i + 1] == 114 && s[i + 2] == 117 && s[i + 3] == 101 {
            Ok((Json::Bool(true), i + 4))
        } else {
            Err(())
        }
    } else if b == 102 {
        if s.len() - i >= 5 && s[i + 1] == 97 && s[i + 2] == 108 && s[i + 3] == 115 && s[i + 4]
            == 101 {
            Ok((Json::Bool(false), i + 5))
        } else {
            Err(())
        }
    } else if b == 34 {
        match parse_string(s, i) {
            Ok((v, j)) => Ok((Json::Str(v), j)),
            Err(_) => Err(()),
        }
    } else if b == 45 || (48 <= b && b <= 57) {
        parse_number(s, i)
    } else if b == 91 {
        let j0 = ws_skip(s, i + 1);
        if j0 < s.len() && s[j0] == 93 {
            let v = Json::Arr(Vec::new());
            assert(jview(v) == JVal::Arr(Seq::<JVal>::empty()));
            return Ok((v, j0 + 1));
        }
        let mut acc: Vec<Json> = Vec::new();
        let mut cur = j0;
        loop
            invariant
                i < j0 <= cur <= s@.len(),
                d >= 1,
                i < s@.len(),
                s@[i as int] == 91,
                j0 == skip_ws(s@, i + 1),
                !(j0 < s@.len() && s@[j0 as int] == 93),
                parr_items(s@, j0 as int, (d - 1) as int, Seq::empty()) == parr_items(
                    s@,
                    cur as int,
                    (d - 1) as int,
                    jview_elems(acc@, acc@.len() as int),
                ),
            decreases s@.len() - cur,
        {
            let ghost prev_elems = jview_elems(acc@, acc@.len() as int);
            match parse_value(s, cur, d - 1) {
                Err(_) => {
                    return Err(());
                },
                Ok((v, j4)) => {
                    let j5 = ws_skip(s, j4);
                    if j5 >= s.len() {
                        return Err(());
                    }
                    if s[j5] == 44 {
                        let j6 = ws_skip(s, j5 + 1);
                        let ghost prev = acc@;
                        acc.push(v);
                        proof {
                            lemma_jview_elems_prefix(acc@, prev, prev.len() as int);
                            assert(jview_elems(acc@, acc@.len() as int) == prev_elems.push(
                                jview(v),
                            ));
                        }
                        cur = j6;
                    } else if s[j5] == 93 {
                        let ghost prev = acc@;
                        acc.push(v);
                        proof {
                            lemma_jview_elems_prefix(acc@, prev, prev.len() as int);
                            assert(jview_elems(acc@, acc@.len() as int) == prev_elems.push(
                                jview(v),
                            ));
                        }
                        return Ok((Json::Arr(acc), j5 + 1));
                    } else {
                        return Err(());
                    }
                },
            }
        }
    } else if b == 123 {
        let j0 = ws_skip(s, i + 1);
        if j0 < s.len() && s[j0] == 125 {
            let v = Json::Obj(Vec::new());
            assert(jview(v) == JVal::Obj(Seq::<(Seq<u8>, JVal)>::empty()));
            return Ok((v, j0 + 1));
        }
        let mut acc: Vec<(Vec<u8>, Json)> = Vec::new();
        let mut cur = j0;
        loop
            invariant
                i < j0 <= cur <= s@.len(),
                d >= 1,
                i < s@.len(),
                s@[i as int] == 123,
                j0 == skip_ws(s@, i + 1),
                !(j0 < s@.len() && s@[j0 as int] == 125),
                pobj_items(s@, j0 as int, (d - 1) as int, Seq::empty()) == pobj_items(
                    s@,
                    cur as int,
                    (d - 1) as int,
                    jview_members(acc@, acc@.len() as int),
                ),
            decreases s@.len() - cur,
        {
            let ghost prev_members = jview_members(acc@, acc@.len() as int);
            if cur >= s.len() || s[cur] != 34 {
                return Err(());
            }
            match parse_string(s, cur) {
                Err(_) => {
                    return Err(());
                },
                Ok((k, j)) => {
                    let j2 = ws_skip(s, j);
                    if j2 >= s.len() || s[j2] != 58 {
                        return Err(());
                    }
                    let j3 = ws_skip(s, j2 + 1);
                    match parse_value(s, j3, d - 1) {
                        Err(_) => {
                            return Err(());
                        },
                        Ok((v, j4)) => {
                            let j5 = ws_skip(s, j4);
                            if j5 >= s.len() {
                                return Err(());
                            }
                            if s[j5] == 44 {
                                let j6 = ws_skip(s, j5 + 1);
                                let ghost prev = acc@;
                                acc.push((k, v));
                                proof {
                                    lemma_jview_members_prefix(acc@, prev, prev.len() as int);
                                    assert(jview_members(acc@, acc@.len() as int)
                                        == prev_members.push((acc@[prev.len() as int].0@, jview(
                                        acc@[prev.len() as int].1,
                                    ))));
                                }
                                cur = j6;
                            } else if s[j5] == 125 {
                                let ghost prev = acc@;
                                acc.push((k, v));
                                proof {
                                    lemma_jview_members_prefix(acc@, prev, prev.len() as int);
                                    assert(jview_members(acc@, acc@.len() as int)
                                        == prev_members.push((acc@[prev.len() as int].0@, jview(
                                        acc@[prev.len() as int].1,
                                    ))));
                                }
                                return Ok((Json::Obj(acc), j5 + 1));
                            } else {
                                return Err(());
                            }
                        },
                    }
                },
            }
        }
    } else {
        Err(())
    }
}

/// Parses a complete JSON document from raw bytes.
pub fn parse_json(s: &[u8]) -> (r: Result<Json, ()>)
    ensures
        match r {
            Ok(v) => pjson(s@) == Some(jview(v)),
            Err(_) => pjson(s@) is None,
        },
{
    let i = ws_skip(s, 0);
    match parse_value(s, i, 128) {
        Err(_) => Err(()),
        Ok((v, j)) => {
            let j2 = ws_skip(s, j);
            if j2 == s.len() {
                Ok(v)
            } else {
                Err(())
            }
        },
    }
}

} // verus!
