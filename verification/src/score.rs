//! Scores as IEEE 754 binary32 values, computed and rendered exactly with
//! integer arithmetic.
//!
//! A document's score is `matches / word_count` rounded to the nearest
//! binary32 value (ties to even); it is rendered as the shortest decimal
//! string that reads back to exactly that value, in plain notation when the
//! decimal exponent is at least -6 and in exponent notation below that, the
//! way the engine's JSON output has always rendered it.

use vstd::prelude::*;
use vstd::arithmetic::power2::*;
use vstd::arithmetic::mul::*;
use vstd::arithmetic::div_mod::*;
use crate::numfmt::pow10;
use crate::numfmt::ndigits;
use crate::numfmt::dec_digits;
use crate::numfmt::lemma_dec_digits_len;
use crate::numfmt::lemma_ndigits_bound;
use crate::numfmt::lemma_ndigits_lower;
use crate::numfmt::lemma_pow10_pos;
use crate::numfmt::count_digits;
use crate::numfmt::push_u128_dec;
use crate::numfmt::push_u64_dec;

verus! {

/// Five to the `e`.
pub open spec fn pow5(e: nat) -> nat
    decreases e,
{
    if e == 0 {
        1
    } else {
        5 * pow5((e - 1) as nat)
    }
}

/// The least `k` with `m * 2^k >= t`.
pub open spec fn msb_shift(m: nat, t: nat) -> nat
    decreases (if m >= t { 0int } else { t - m }) when 1 <= m
{
    if m >= t {
        0
    } else {
        1 + msb_shift(2 * m, t)
    }
}

/// The bits of the binary32 value nearest to `m / t` (ties to even), for
/// `1 <= m <= t`; zero when either argument is zero.
pub open spec fn ratio_bits(m: nat, t: nat) -> int {
    if m == 0 || t == 0 {
        0
    } else {
        let k = msb_shift(m, t);
        let num = (m * pow2((k + 23) as nat)) as int;
        let q = num / (t as int);
        let r = num % (t as int);
        let q1 = if 2 * r > t || (2 * r == t && q % 2 == 1) {
            q + 1
        } else {
            q
        };
        if q1 == 0x1000000 {
            let kk = if k == 0 {
                0
            } else {
                k - 1
            };
            (127 - kk) * 0x800000
        } else {
            (127 - k) * 0x800000 + (q1 - 0x800000)
        }
    }
}

/// Computes the binary32 bits of `m / t`.
pub fn ratio_to_bits(m: u64, t: u64) -> (r: u32)
    requires
        1 <= m <= t,
    ensures
        r == ratio_bits(m as nat, t as nat),
        0x1F800000 <= r <= 0x3F800000,
{
    let tt: u128 = t as u128;
    let mut ms: u128 = m as u128;
    let mut k: u32 = 0;
    proof {
        lemma2_to64();
        lemma2_to64_rest();
    }
    while ms < tt
        invariant
            1 <= m <= t,
            tt == t,
            1 <= ms,
            ms < 2 * tt,
            ms == m as nat * pow2(k as nat),
            k <= 64,
            msb_shift(m as nat, t as nat) == k + msb_shift(ms as nat, t as nat),
        decreases 2 * tt - ms,
    {
        proof {
            lemma_mul_inequality(1, m as int, pow2(k as nat) as int);
            assert(pow2(k as nat) <= ms);
            lemma2_to64();
            lemma2_to64_rest();
            if k >= 64 {
                assert(pow2(64) <= ms);
                assert(false);
            }
            assert(2 * (m as nat * pow2(k as nat)) == m as nat * pow2((k + 1) as nat)) by {
                lemma_pow2_adds(k as nat, 1);
                lemma2_to64();
                lemma_mul_is_associative(m as int, pow2(k as nat) as int, 2);
            }
            assert(msb_shift(ms as nat, t as nat) == 1 + msb_shift((2 * ms) as nat, t as nat));
        }
        ms = ms * 2;
        k = k + 1;
    }
    proof {
        assert(msb_shift(ms as nat, t as nat) == 0);
        assert(k == msb_shift(m as nat, t as nat));
    }
    let num: u128 = ms * 0x800000;
    proof {
        assert(num == m as nat * pow2((k + 23) as nat)) by {
            lemma_pow2_adds(k as nat, 23);
            lemma2_to64();
            lemma_mul_is_associative(m as int, pow2(k as nat) as int, pow2(23) as int);
        }
        assert(num < tt * 0x1000000) by {
            assert(ms < 2 * tt);
            lemma_mul_inequality(ms as int, 2 * tt - 1, 0x800000);
        }
        assert(num >= tt * 0x800000) by {
            lemma_mul_inequality(tt as int, ms as int, 0x800000);
        }
    }
    let q: u128 = num / tt;
    let r: u128 = num % tt;
    proof {
        assert(q < 0x1000000 && q >= 0x800000) by (nonlinear_arith)
            requires
                q == num / tt,
                num < tt * 0x1000000,
                num >= tt * 0x800000,
                tt >= 1,
        ;
    }
    proof {
        if k == 0 {
            assert(pow2(0) == 1) by {
                lemma2_to64();
            }
            assert(ms == m as nat * pow2(0));
            assert(ms == m && ms >= tt && m <= t);
            assert(num == tt * 0x800000);
            assert(q == 0x800000 && r == 0) by (nonlinear_arith)
                requires
                    q == num / tt,
                    r == num % tt,
                    num == tt * 0x800000,
                    tt >= 1,
            ;
        }
    }
    let round_up = 2 * r > tt || (2 * r == tt && q % 2 == 1);
    let q1: u128 = if round_up {
        q + 1
    } else {
        q
    };
    proof {
        let gm = m as nat;
        let gt = t as nat;
        let gk = msb_shift(gm, gt);
        let gnum = (gm * pow2((gk + 23) as nat)) as int;
        assert(gnum == num);
        assert(gnum / (gt as int) == q && gnum % (gt as int) == r);
        assert(q1 == if 2 * (gnum % (gt as int)) > gt || (2 * (gnum % (gt as int)) == gt
            && (gnum / (gt as int)) % 2 == 1) {
            gnum / (gt as int) + 1
        } else {
            gnum / (gt as int)
        });
    }
    if q1 == 0x1000000 {
        proof {
            if k == 0 {
                assert(ms == m as nat * pow2(0));
                assert(pow2(0) == 1) by {
                    lemma2_to64();
                }
                assert(ms == m && ms >= tt && m <= t);
                assert(ms == tt);
                assert(num == tt * 0x800000);
                assert(q == 0x800000 && r == 0) by (nonlinear_arith)
                    requires
                        q == num / tt,
                        r == num % tt,
                        num == tt * 0x800000,
                        tt >= 1,
                ;
                assert(false);
            }
        }
        let kk = k - 1;
        (127 - kk) * 0x800000
    } else {
        (127 - k) * 0x800000 + (q1 as u32 - 0x800000)
    }
}

/// Half-to-even rounding of `nn / den`.
pub open spec fn rounded(nn: nat, den: nat) -> nat {
    let dd = nn / den;
    let rem = nn % den;
    if 2 * rem > den || (2 * rem == den && dd % 2 == 1) {
        dd + 1
    } else {
        dd
    }
}

/// The `d`-significant-digit decimal candidate nearest to the value whose
/// scaled numerator over `2^sh` is `base`, when the value has `nd` digits
/// before scaling.
pub open spec fn cand(base: nat, sh: nat, nd: nat, d: nat) -> nat {
    if nd >= d {
        rounded(base, pow2(sh) * pow10((nd - d) as nat))
    } else {
        rounded(base * pow10((d - nd) as nat), pow2(sh))
    }
}

/// Whether the decimal `dv * 10^-s` reads back to the binary32 value with
/// significand `q` and exponent field `field`: it must lie inside the
/// value's rounding interval, whose ends belong to it exactly when the
/// significand is even.
pub open spec fn in_interval(q: nat, field: nat, dv: nat, s: nat) -> bool {
    let even = q % 2 == 0;
    let delta = if q == 0x800000 {
        1nat
    } else {
        2nat
    };
    let lhs = dv * pow2((152 - field) as nat);
    let lo = (4 * q - delta) * pow10(s);
    let hi = (4 * q + 2) * pow10(s);
    (lo < lhs || (even && lo == lhs)) && (lhs < hi || (even && lhs == hi))
}

/// The shortest decimal that reads back exactly, searched from `d`
/// significant digits up; at nine digits the nearest nine-digit decimal
/// always reads back. Returns the digits value and its scale.
pub open spec fn pick(q: nat, field: nat, base: nat, sh: nat, nd: nat, d: nat) -> (nat, nat)
    decreases 10 - d,
{
    let dv = cand(base, sh, nd, d);
    let s = (20 + d - nd) as nat;
    if d >= 9 {
        (dv, s)
    } else if in_interval(q, field, dv, s) {
        (dv, s)
    } else if dv + 1 < pow10(d) && in_interval(q, field, dv + 1, s) {
        (dv + 1, s)
    } else if dv >= 2 && in_interval(q, field, (dv - 1) as nat, s) {
        ((dv - 1) as nat, s)
    } else {
        pick(q, field, base, sh, nd, (d + 1) as nat)
    }
}

/// `D` with its trailing decimal zeros removed.
pub open spec fn strip_val(dv: nat) -> nat
    decreases dv,
{
    if dv >= 10 && dv % 10 == 0 {
        strip_val(dv / 10)
    } else {
        dv
    }
}

/// A run of `n` zero digits (empty when `n` is negative).
pub open spec fn zeros(n: int) -> Seq<u8> {
    Seq::new(
        (if n >= 0 {
            n
        } else {
            0
        }) as nat,
        |i: int| 48u8,
    )
}

/// Lays out the digits value `dv` at scale `10^-s`: plain notation when the
/// decimal exponent is at least -6, exponent notation below that.
pub open spec fn render(dv: nat, s: nat) -> Seq<u8> {
    let e10p = ndigits(dv) - 1 - s;
    let g = dec_digits(strip_val(dv));
    let gl = g.len() as int;
    if e10p >= -6 {
        if gl - 1 <= e10p {
            g + zeros(e10p - (gl - 1)) + seq![46u8, 48u8]
        } else if e10p >= 0 {
            g.subrange(0, e10p + 1) + seq![46u8] + g.subrange(e10p + 1, gl)
        } else {
            seq![48u8, 46u8] + zeros(-e10p - 1) + g
        }
    } else {
        seq![g[0]] + (if gl > 1 {
            seq![46u8] + g.subrange(1, gl)
        } else {
            Seq::empty()
        }) + seq![101u8, 45u8] + dec_digits((-e10p) as nat)
    }
}

/// The rendered text of the binary32 value with the given bits, for the
/// positive normal values this engine produces as scores.
pub open spec fn fmt_bits(bits: nat) -> Seq<u8> {
    let field = bits / 0x800000;
    let q = 0x800000 + bits % 0x800000;
    let sh = (130 - field) as nat;
    let base = q * pow5(20);
    let w = base / pow2(sh);
    let nd = ndigits(w);
    let picked = pick(q, field, base, sh, nd, 1);
    render(picked.0, picked.1)
}

/// The frozen text of the score `m / t`: `0.0` when there is nothing to
/// divide, else the shortest decimal that reads back to the binary32
/// quotient.
pub open spec fn score_text(m: nat, t: nat) -> Seq<u8> {
    if m == 0 || t == 0 {
        seq![48u8, 46u8, 48u8]
    } else {
        fmt_bits(ratio_bits(m, t) as nat)
    }
}

proof fn lemma_pow2_vals()
    ensures
        pow2(3) == 8,
        pow2(23) == 0x800000,
        pow2(64) == 0x10000000000000000,
        pow2(67) == 0x80000000000000000,
        pow2(89) == 0x20000000000000000000000,
        pow2(127) == 0x80000000000000000000000000000000,
{
    lemma2_to64();
    lemma2_to64_rest();
    lemma_pow2_adds(64, 3);
    lemma_pow2_adds(64, 25);
    lemma_pow2_adds(64, 63);
}

proof fn lemma_pow10_vals()
    ensures
        pow10(8) == 100000000,
        pow10(9) == 1000000000,
        pow10(20) == 100000000000000000000,
        pow10(21) == 1000000000000000000000,
        pow10(28) == 10000000000000000000000000000,
{
    reveal_with_fuel(pow10, 30);
}

fn pow2_u128(e: u32) -> (r: u128)
    requires
        e <= 127,
    ensures
        r == pow2(e as nat),
{
    let mut r: u128 = 1;
    let mut i: u32 = 0;
    proof {
        lemma2_to64();
    }
    while i < e
        invariant
            i <= e <= 127,
            r == pow2(i as nat),
        decreases e - i,
    {
        proof {
            lemma_pow2_vals();
            if i < 127 {
                lemma_pow2_strictly_increases(i as nat, 127);
            }
            lemma_pow2_adds(i as nat, 1);
            lemma2_to64();
        }
        r = r * 2;
        i = i + 1;
    }
    r
}

fn pow10_u128(e: u32) -> (r: u128)
    requires
        e <= 28,
    ensures
        r == pow10(e as nat),
{
    let mut r: u128 = 1;
    let mut i: u32 = 0;
    while i < e
        invariant
            i <= e <= 28,
            r == pow10(i as nat),
        decreases e - i,
    {
        proof {
            lemma_pow10_vals();
            crate::numfmt::lemma_pow10_mono(i as nat, 27);
        }
        r = r * 10;
        i = i + 1;
    }
    r
}

fn pow5_20() -> (r: u128)
    ensures
        r == pow5(20),
        r == 95367431640625,
{
    proof {
        reveal_with_fuel(pow5, 21);
    }
    95367431640625
}

/// Decides whether `dv * 10^-s` reads back to the value `q * 2^(field-150)`.
fn check_in(q: u128, field: u32, dv: u128, s: u32) -> (r: bool)
    requires
        0x800000 <= q < 0x1000000,
        63 <= field <= 127,
        dv <= 1000000001,
        s <= 28,
    ensures
        r == in_interval(q as nat, field as nat, dv as nat, s as nat),
{
    let even = q % 2 == 0;
    let delta: u128 = if q == 0x800000 {
        1
    } else {
        2
    };
    let p2 = pow2_u128(152 - field);
    proof {
        lemma_pow2_vals();
        if 152 - field < 89 {
            lemma_pow2_strictly_increases((152 - field) as nat, 89);
        }
        assert(dv * p2 <= 1000000001 * 0x20000000000000000000000) by (nonlinear_arith)
            requires
                dv <= 1000000001,
                p2 <= 0x20000000000000000000000,
        ;
        lemma_pow10_vals();
        crate::numfmt::lemma_pow10_mono(s as nat, 28);
        assert((4 * q + 2) * pow10(s as nat) <= 0x4000002 * 10000000000000000000000000000)
            by (nonlinear_arith)
            requires
                4 * q + 2 <= 0x4000002,
                pow10(s as nat) <= 10000000000000000000000000000,
        ;
        assert((4 * q - delta) * pow10(s as nat) <= (4 * q + 2) * pow10(s as nat))
            by (nonlinear_arith)
            requires
                delta <= 2,
                q >= 0x800000,
                pow10(s as nat) >= 0,
        ;
    }
    let lhs: u128 = dv * p2;
    let pw: u128 = pow10_u128(s);
    let lo: u128 = (4 * q - delta) * pw;
    let hi: u128 = (4 * q + 2) * pw;
    (lo < lhs || (even && lo == lhs)) && (lhs < hi || (even && lhs == hi))
}

/// Facts tying `base`, its truncation `w`, and the digit count `nd`.
proof fn lemma_base_w(q: nat, sh: nat, base: nat, w: nat, nd: nat)
    requires
        base == q * pow5(20),
        w == base / pow2(sh),
        nd == ndigits(w),
        0x800000 <= q < 0x1000000,
        3 <= sh <= 67,
    ensures
        pow10((nd - 1) as nat) * pow2(sh) <= base,
        base < pow10(nd) * pow2(sh),
        1 <= nd <= 21,
        base < 0x800000000000000000,
        8 <= pow2(sh) <= 0x80000000000000000,
{
    lemma_pow2_vals();
    lemma_pow10_vals();
    reveal_with_fuel(pow5, 21);
    assert(base >= 0x800000 * 95367431640625) by (nonlinear_arith)
        requires
            base == q * 95367431640625,
            q >= 0x800000,
    ;
    assert(base < 0x1000000 * 95367431640625) by (nonlinear_arith)
        requires
            base == q * 95367431640625,
            q < 0x1000000,
    ;
    let den = pow2(sh);
    lemma_pow2_pos(sh);
    if sh < 67 {
        lemma_pow2_strictly_increases(sh, 67);
    }
    if 3 < sh {
        lemma_pow2_strictly_increases(3, sh);
    }
    assert(8 <= den <= 0x80000000000000000);
    vstd::arithmetic::div_mod::lemma_fundamental_div_mod(base as int, den as int);
    assert(w * den <= base < (w + 1) * den) by (nonlinear_arith)
        requires
            base == den * w + (base as int % (den as int)),
            0 <= (base as int % (den as int)) < den,
            den >= 1,
    ;
    assert(w >= 5) by (nonlinear_arith)
        requires
            (w + 1) * den > base,
            w * den <= base,
            base >= 0x800000 * 95367431640625,
            den <= 0x80000000000000000,
    ;
    assert(w < pow10(21)) by (nonlinear_arith)
        requires
            w * den <= base,
            base < 0x1000000 * 95367431640625,
            den >= 8,
            pow10(21) == 1000000000000000000000,
    ;
    crate::numfmt::lemma_ndigits_range(w);
    crate::numfmt::lemma_ndigits_bound(w, 21);
    crate::numfmt::lemma_ndigits_lower(w, (nd - 1) as nat);
    assert(pow10((nd - 1) as nat) * den <= w * den) by (nonlinear_arith)
        requires
            pow10((nd - 1) as nat) <= w,
            den >= 0,
    ;
    assert(base < pow10(nd) * den) by (nonlinear_arith)
        requires
            base < (w + 1) * den,
            w + 1 <= pow10(nd),
            den >= 0,
    ;
}

/// Searches digit counts from `d` up for the shortest readable-back decimal.
fn search(q: u128, field: u32, base: u128, sh: u32, wden: u128, nd: u32, d: u32) -> (r: (
    u128,
    u32,
))
    requires
        0x800000 <= q < 0x1000000,
        63 <= field <= 127,
        3 <= sh <= 67,
        base == q as nat * pow5(20),
        wden == pow2(sh as nat),
        nd == ndigits((base / wden) as nat),
        1 <= nd <= 21,
        1 <= d <= 9,
    ensures
        (r.0 as nat, r.1 as nat) == pick(q as nat, field as nat, base as nat, sh as nat,
            nd as nat, d as nat),
        1 <= r.0 <= 1000000000,
        r.1 <= 28,
    decreases 10 - d,
{
    proof {
        lemma_base_w(q as nat, sh as nat, base as nat, (base / wden) as nat, nd as nat);
        lemma_pow10_vals();
    }
    let nn: u128;
    let den: u128;
    if nd >= d {
        let g = nd - d;
        let pg = pow10_u128(g);
        proof {
            crate::numfmt::lemma_pow10_mono(g as nat, (nd - 1) as nat);
            assert(wden * pg <= base) by (nonlinear_arith)
                requires
                    pg <= pow10((nd - 1) as nat),
                    pow10((nd - 1) as nat) * wden <= base,
                    wden >= 0,
            ;
        }
        nn = base;
        den = wden * pg;
        proof {
            lemma_pow10_adds(d as nat, (nd - d) as nat);
            lemma_pow10_adds((d - 1) as nat, (nd - d) as nat);
            assert(den == pow2(sh as nat) * pow10((nd - d) as nat));
            assert((nn as nat) < pow10(d as nat) * den) by (nonlinear_arith)
                requires
                    base < pow10(nd as nat) * wden,
                    pow10(nd as nat) == pow10(d as nat) * pow10((nd - d) as nat),
                    den == wden * pow10((nd - d) as nat),
                    nn == base,
            ;
            assert(pow10((d - 1) as nat) * den <= nn as nat) by (nonlinear_arith)
                requires
                    pow10((nd - 1) as nat) * wden <= base,
                    pow10((nd - 1) as nat) == pow10((d - 1) as nat) * pow10((nd - d) as nat),
                    den == wden * pow10((nd - d) as nat),
                    nn == base,
            ;
        }
    } else {
        let mg = d - nd;
        let pg = pow10_u128(mg);
        proof {
            crate::numfmt::lemma_pow10_mono(mg as nat, 8);
            lemma_pow10_vals();
            assert(base * pg <= 0x800000000000000000 * 100000000) by (nonlinear_arith)
                requires
                    base <= 0x800000000000000000,
                    pg <= 100000000,
            ;
        }
        nn = base * pg;
        den = wden;
        proof {
            lemma_pow10_adds(nd as nat, (d - nd) as nat);
            lemma_pow10_adds((nd - 1) as nat, (d - nd) as nat);
            crate::numfmt::lemma_pow10_pos((d - nd) as nat);
            assert((nn as nat) < (pow10(nd as nat) * pow10((d - nd) as nat)) * wden)
                by (nonlinear_arith)
                requires
                    base < pow10(nd as nat) * wden,
                    nn == base * pow10((d - nd) as nat),
                    pow10((d - nd) as nat) >= 1,
            ;
            assert((pow10((nd - 1) as nat) * pow10((d - nd) as nat)) * wden <= nn as nat)
                by (nonlinear_arith)
                requires
                    pow10((nd - 1) as nat) * wden <= base,
                    nn == base * pow10((d - nd) as nat),
                    pow10((d - nd) as nat) >= 0,
            ;
            assert((nn as nat) < pow10(d as nat) * den);
            assert(pow10((d - 1) as nat) * den <= nn as nat);
        }
    }
    proof {
        lemma_pow2_pos(sh as nat);
        crate::numfmt::lemma_pow10_pos((if nd >= d { nd - d } else { 0 }) as nat);
        assert(den >= 1) by (nonlinear_arith)
            requires
                den == wden * pow10((if nd >= d { nd - d } else { 0 }) as nat) || den == wden,
                wden >= 1,
                pow10((if nd >= d { nd - d } else { 0 }) as nat) >= 1,
        ;
    }
    let dd: u128 = nn / den;
    let rem: u128 = nn % den;
    proof {
        assert(dd < pow10(d as nat) && pow10((d - 1) as nat) <= dd) by (nonlinear_arith)
            requires
                dd == nn / den,
                nn < pow10(d as nat) * den,
                pow10((d - 1) as nat) * den <= nn,
                den >= 1,
        ;
        crate::numfmt::lemma_pow10_mono(d as nat, 9);
        crate::numfmt::lemma_pow10_pos((d - 1) as nat);
    }
    let dv: u128 = if 2 * rem > den || (2 * rem == den && dd % 2 == 1) {
        dd + 1
    } else {
        dd
    };
    proof {
        assert(dv == cand(base as nat, sh as nat, nd as nat, d as nat));
    }
    let s: u32 = 20 + d - nd;
    if d >= 9 {
        (dv, s)
    } else if check_in(q, field, dv, s) {
        (dv, s)
    } else {
        let p10d = pow10_u128(d);
        if dv + 1 < p10d && check_in(q, field, dv + 1, s) {
            (dv + 1, s)
        } else if dv >= 2 && check_in(q, field, dv - 1, s) {
            (dv - 1, s)
        } else {
            search(q, field, base, sh, wden, nd, d + 1)
        }
    }
}

proof fn lemma_pow10_adds(a: nat, b: nat)
    ensures
        pow10((a + b) as nat) == pow10(a) * pow10(b),
    decreases a,
{
    if a == 0 {
        assert(pow10(0) == 1);
        assert(pow10((a + b) as nat) == pow10(a) * pow10(b));
    } else {
        lemma_pow10_adds((a - 1) as nat, b);
        assert(pow10((a + b) as nat) == 10 * pow10((a + b - 1) as nat));
        assert(pow10(a) == 10 * pow10((a - 1) as nat));
        assert(pow10((a + b) as nat) == pow10(a) * pow10(b)) by (nonlinear_arith)
            requires
                pow10((a + b) as nat) == 10 * pow10((a + b - 1) as nat),
                pow10((a + b - 1) as nat) == pow10((a - 1) as nat) * pow10(b),
                pow10(a) == 10 * pow10((a - 1) as nat),
        ;
    }
}

/// Renders the digits value `dv` at scale `10^-s`.
fn render_exec(dv: u128, s: u32) -> (r: Vec<u8>)
    requires
        1 <= dv <= 1000000001,
        s <= 28,
    ensures
        r@ == render(dv as nat, s as nat),
{
    let ndv = count_digits(dv);
    let e10p: i64 = ndv as i64 - 1 - s as i64;
    let mut dm = dv;
    while dm >= 10 && dm % 10 == 0
        invariant
            strip_val(dm as nat) == strip_val(dv as nat),
            1 <= dm <= dv,
        decreases dm,
    {
        dm = dm / 10;
    }
    assert(dm == strip_val(dv as nat));
    let mut g: Vec<u8> = Vec::new();
    push_u128_dec(dm, &mut g);
    proof {
        lemma_dec_digits_len(dm as nat);
        crate::numfmt::lemma_ndigits_mono(dm as nat, dv as nat);
        reveal_with_fuel(crate::numfmt::pow10, 12);
        assert(pow10(10) == 10000000000);
        crate::numfmt::lemma_ndigits_bound(dv as nat, 10);
    }
    let gl = g.len();
    let mut out: Vec<u8> = Vec::new();
    if e10p >= -6 {
        if gl as i64 - 1 <= e10p {
            out.append(&mut g);
            let mut j: i64 = gl as i64 - 1;
            while j < e10p
                invariant
                    gl as i64 - 1 <= j <= e10p <= 9,
                    out@ == dec_digits(strip_val(dv as nat)) + zeros(j - (gl as i64 - 1)),
                decreases e10p - j,
            {
                out.push(48);
                j = j + 1;
                assert(out@ =~= dec_digits(strip_val(dv as nat)) + zeros(j - (gl as i64 - 1)));
            }
            out.push(46);
            out.push(48);
            assert(out@ =~= render(dv as nat, s as nat));
        } else if e10p >= 0 {
            let cut = (e10p + 1) as usize;
            let mut i: usize = 0;
            while i < cut
                invariant
                    i <= cut <= gl,
                    gl == g@.len(),
                    out@ == g@.subrange(0, i as int),
                decreases cut - i,
            {
                out.push(g[i]);
                i = i + 1;
                assert(out@ =~= g@.subrange(0, i as int));
            }
            out.push(46);
            let mut i2: usize = cut;
            while i2 < gl
                invariant
                    cut <= i2 <= gl,
                    gl == g@.len(),
                    out@ == g@.subrange(0, cut as int) + seq![46u8] + g@.subrange(
                        cut as int,
                        i2 as int,
                    ),
                decreases gl - i2,
            {
                out.push(g[i2]);
                i2 = i2 + 1;
                assert(out@ =~= g@.subrange(0, cut as int) + seq![46u8] + g@.subrange(
                    cut as int,
                    i2 as int,
                ));
            }
            assert(out@ =~= render(dv as nat, s as nat));
        } else {
            out.push(48);
            out.push(46);
            let zn = ((-e10p) - 1) as u64;
            let mut j: u64 = 0;
            while j < zn
                invariant
                    j <= zn <= 28,
                    out@ == seq![48u8, 46u8] + zeros(j as int),
                decreases zn - j,
            {
                out.push(48);
                j = j + 1;
                assert(out@ =~= seq![48u8, 46u8] + zeros(j as int));
            }
            out.append(&mut g);
            assert(out@ =~= render(dv as nat, s as nat));
        }
    } else {
        out.push(g[0]);
        if gl > 1 {
            out.push(46);
            let mut i: usize = 1;
            while i < gl
                invariant
                    1 <= i <= gl,
                    gl == g@.len(),
                    out@ == seq![g@[0]] + seq![46u8] + g@.subrange(1, i as int),
                decreases gl - i,
            {
                out.push(g[i]);
                i = i + 1;
                assert(out@ =~= seq![g@[0]] + seq![46u8] + g@.subrange(1, i as int));
            }
        }
        out.push(101);
        out.push(45);
        push_u64_dec((-e10p) as u64, &mut out);
        assert(out@ =~= render(dv as nat, s as nat));
    }
    out
}

/// Renders the binary32 value with the given bits.
fn fmt_bits_exec(bits: u32) -> (r: Vec<u8>)
    requires
        0x1F800000 <= bits <= 0x3F800000,
    ensures
        r@ == fmt_bits(bits as nat),
{
    let field: u32 = bits / 0x800000;
    let q: u128 = (0x800000 + bits % 0x800000) as u128;
    let sh: u32 = 130 - field;
    let p5 = pow5_20();
    let base: u128 = q * p5;
    let wden = pow2_u128(sh);
    proof {
        lemma_pow2_pos(sh as nat);
        lemma_base_w(q as nat, sh as nat, base as nat, (base / wden) as nat, ndigits(
            (base / wden) as nat,
        ));
    }
    let w = base / wden;
    let nd = count_digits(w);
    let (dv, s) = search(q, field, base, sh, wden, nd, 1);
    render_exec(dv, s)
}

/// Renders the score `m / t` exactly as the engine's JSON output carries it.
pub fn score_bytes(m: u64, t: u64) -> (r: Vec<u8>)
    requires
        m <= t,
    ensures
        r@ == score_text(m as nat, t as nat),
{
    if m == 0 || t == 0 {
        let mut out: Vec<u8> = Vec::new();
        out.push(48);
        out.push(46);
        out.push(48);
        assert(out@ =~= score_text(m as nat, t as nat));
        out
    } else {
        let bits = ratio_to_bits(m, t);
        fmt_bits_exec(bits)
    }
}

} // verus!
