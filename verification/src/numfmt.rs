//! Decimal rendering of unsigned integers, and powers of ten.

use vstd::prelude::*;

verus! {

/// Ten to the `e`.
pub open spec fn pow10(e: nat) -> nat
    decreases e,
{
    if e == 0 {
        1
    } else {
        10 * pow10((e - 1) as nat)
    }
}

/// The decimal digit bytes of `n`, most significant first.
pub open spec fn dec_digits(n: nat) -> Seq<u8>
    decreases n,
{
    if n < 10 {
        seq![(48 + n) as u8]
    } else {
        dec_digits(n / 10).push((48 + n % 10) as u8)
    }
}

/// The number of decimal digits of `n`.
pub open spec fn ndigits(n: nat) -> nat
    decreases n,
{
    if n < 10 {
        1
    } else {
        1 + ndigits(n / 10)
    }
}

pub proof fn lemma_dec_digits_len(n: nat)
    ensures
        dec_digits(n).len() == ndigits(n),
    decreases n,
{
    if n >= 10 {
        lemma_dec_digits_len(n / 10);
    }
}

/// Fewer than `10^k` means at most `k` digits.
pub proof fn lemma_ndigits_bound(n: nat, k: nat)
    requires
        k >= 1,
        n < pow10(k),
    ensures
        ndigits(n) <= k,
    decreases k,
{
    if n >= 10 {
        assert(pow10(k) == 10 * pow10((k - 1) as nat));
        assert(n / 10 < pow10((k - 1) as nat)) by (nonlinear_arith)
            requires
                n < 10 * pow10((k - 1) as nat),
        ;
        assert(k >= 2) by {
            if k == 1 {
                assert(pow10(1nat) == 10);
            }
        }
        lemma_ndigits_bound(n / 10, (k - 1) as nat);
    }
}

/// At least `10^k` means more than `k` digits.
pub proof fn lemma_ndigits_lower(n: nat, k: nat)
    requires
        n >= pow10(k),
    ensures
        ndigits(n) >= k + 1,
    decreases k,
{
    if k >= 1 {
        assert(pow10(k) == 10 * pow10((k - 1) as nat));
        assert(n / 10 >= pow10((k - 1) as nat)) by (nonlinear_arith)
            requires
                n >= 10 * pow10((k - 1) as nat),
        ;
        assert(n >= 10) by {
            lemma_pow10_pos((k - 1) as nat);
        }
        lemma_ndigits_lower(n / 10, (k - 1) as nat);
    }
}

pub proof fn lemma_pow10_pos(e: nat)
    ensures
        pow10(e) >= 1,
    decreases e,
{
    if e > 0 {
        lemma_pow10_pos((e - 1) as nat);
    }
}

/// More exponent never means a smaller power.
pub proof fn lemma_pow10_mono(a: nat, b: nat)
    requires
        a <= b,
    ensures
        pow10(a) <= pow10(b),
    decreases b,
{
    if a < b {
        lemma_pow10_mono(a, (b - 1) as nat);
        lemma_pow10_pos((b - 1) as nat);
    }
}

/// A positive number sits between the powers of ten its digit count names.
pub proof fn lemma_ndigits_range(n: nat)
    requires
        n >= 1,
    ensures
        pow10((ndigits(n) - 1) as nat) <= n,
        n < pow10(ndigits(n)),
    decreases n,
{
    if n < 10 {
        assert(pow10(0) == 1);
        assert(pow10(1) == 10 * pow10(0));
    } else {
        lemma_ndigits_range(n / 10);
        let nd = ndigits(n / 10);
        assert(10 * (n / 10) <= n && n <= 10 * (n / 10) + 9) by (nonlinear_arith)
            requires
                n >= 10,
        ;
        assert(n < 10 * pow10(nd)) by (nonlinear_arith)
            requires
                n <= 10 * (n / 10) + 9,
                n / 10 < pow10(nd),
        ;
        assert(10 * pow10((nd - 1) as nat) <= 10 * (n / 10)) by (nonlinear_arith)
            requires
                pow10((nd - 1) as nat) <= n / 10,
        ;
        assert(pow10(nd) == 10 * pow10((nd - 1) as nat));
        assert(pow10((nd + 1) as nat) == 10 * pow10(nd));
    }
}

/// Monotone growth: more value never means fewer digits.
pub proof fn lemma_ndigits_mono(a: nat, b: nat)
    requires
        a <= b,
    ensures
        ndigits(a) <= ndigits(b),
    decreases b,
{
    if a >= 10 && b >= 10 {
        lemma_ndigits_mono(a / 10, b / 10);
    }
}

/// Appends the decimal digits of `n` to `out`.
pub fn push_u64_dec(n: u64, out: &mut Vec<u8>)
    ensures
        final(out)@ == old(out)@ + dec_digits(n as nat),
    decreases n,
{
    if n < 10 {
        out.push(48 + n as u8);
        assert(final(out)@ =~= old(out)@ + dec_digits(n as nat));
    } else {
        push_u64_dec(n / 10, out);
        out.push(48 + (n % 10) as u8);
        assert(final(out)@ =~= old(out)@ + dec_digits(n as nat));
    }
}

/// Appends the decimal digits of the wider `n` to `out`.
pub fn push_u128_dec(n: u128, out: &mut Vec<u8>)
    ensures
        final(out)@ == old(out)@ + dec_digits(n as nat),
    decreases n,
{
    if n < 10 {
        out.push(48 + n as u8);
        assert(final(out)@ =~= old(out)@ + dec_digits(n as nat));
    } else {
        push_u128_dec(n / 10, out);
        out.push(48 + (n % 10) as u8);
        assert(final(out)@ =~= old(out)@ + dec_digits(n as nat));
    }
}

/// The number of decimal digits of `n`, as a machine integer.
pub fn count_digits(n: u128) -> (r: u32)
    ensures
        r == ndigits(n as nat),
        1 <= r <= 39,
    decreases n,
{
    proof {
        reveal_with_fuel(pow10, 41);
        assert(pow10(39) == 1000000000000000000000000000000000000000nat);
        lemma_ndigits_bound(n as nat, 39);
    }
    if n < 10 {
        1
    } else {
        let sub = count_digits(n / 10);
        1 + sub
    }
}

} // verus!
