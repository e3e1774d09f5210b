//! Rounding to IEEE 754 binary64, in integers.
//!
//! Durations enter as binary64 numbers and playlist durations leave as the
//! decimal text of one. The roundings in between are computed here on
//! integers: a positive binary64 number is a whole number of at most 53 bits
//! times a power of two, and every operation rounds its exact result to the
//! nearest such number, ties to even.

use vstd::arithmetic::div_mod::lemma_multiply_divide_lt;
use vstd::prelude::*;

verus! {

/// 2^52: the least 53-bit number.
pub const MANTISSA_LOW: u64 = 0x10_0000_0000_0000;

/// 2^53: the first number of more than 53 bits.
pub const MANTISSA_END: u64 = 0x20_0000_0000_0000;

/// `num / den` rounded to the nearest whole number, ties to even.
pub open spec fn half_even(num: nat, den: nat) -> nat {
    let q = num / den;
    let r = num % den;
    if 2 * r < den {
        q
    } else if 2 * r > den {
        q + 1
    } else {
        q + q % 2
    }
}

/// `num / den` rounded up to a whole number.
pub open spec fn ceil_div(num: nat, den: nat) -> nat {
    if num % den == 0 {
        num / den
    } else {
        num / den + 1
    }
}

/// The least power of two of which `n` holds less than 2^53.
pub open spec fn unit(n: nat) -> nat
    decreases n,
{
    if n < MANTISSA_END {
        1
    } else {
        2 * unit(n / 2)
    }
}

/// The whole number `n` rounded to 53 significant bits.
pub open spec fn round53(n: nat) -> nat {
    half_even(n, unit(n)) * unit(n)
}

/// The least power of two that lifts a positive `num / den` to 2^52.
pub open spec fn lift(num: nat, den: nat) -> nat
    decreases (if num >= den * MANTISSA_LOW { 0int } else { den * MANTISSA_LOW - num }),
{
    if num >= den * MANTISSA_LOW || num == 0 {
        1
    } else {
        2 * lift(2 * num, den)
    }
}

/// The least power of two that drops `num / den` below 2^53.
pub open spec fn drop_below(num: nat, den: nat) -> nat
    decreases (if num < den * MANTISSA_END { 0int } else { 1 + num - den * MANTISSA_END }),
{
    if num < den * MANTISSA_END || den == 0 {
        1
    } else {
        2 * drop_below(num, 2 * den)
    }
}

/// `num / den` rounded to 53 significant bits, in units of 1 / 1000000, and
/// that rounded to a whole number.
pub open spec fn quotient_micros(num: nat, den: nat) -> nat {
    let up = lift(num, den);
    let down = drop_below(num, den);
    let mantissa = half_even(num * up, den * down);
    half_even(mantissa * down * 1_000_000, up)
}

/// Computes `half_even`.
fn round_half_even(num: u128, den: u128) -> (r: u128)
    requires
        0 < den < 0x4000_0000_0000_0000_0000_0000_0000_0000,
        num < 0x4000_0000_0000_0000_0000_0000_0000_0000,
    ensures
        r == half_even(num as nat, den as nat),
{
    let q: u128 = num / den;
    let r: u128 = num % den;
    assert(q <= num) by (nonlinear_arith)
        requires
            q == num / den,
            den > 0,
    ;
    if 2 * r < den {
        q
    } else if 2 * r > den {
        q + 1
    } else {
        q + q % 2
    }
}

/// Rounds a whole number to 53 significant bits.
pub(crate) fn round_to_53(n: u128) -> (r: u128)
    requires
        n < 0x10_0000_0000_0000_0000_0000_0000,
    ensures
        r == round53(n as nat),
        r <= 2 * n,
{
    let mut top: u128 = n;
    let mut step: u128 = 1;
    while top >= MANTISSA_END as u128
        invariant
            n < 0x10_0000_0000_0000_0000_0000_0000,
            step >= 1,
            step == 1 || step <= n,
            top * step <= n,
            unit(n as nat) == step * unit(top as nat),
        decreases top,
    {
        assert(2 * step <= n && (top / 2) * (2 * step) <= n && step * (2 * unit((top / 2) as nat))
            == (2 * step) * unit((top / 2) as nat)) by (nonlinear_arith)
            requires
                top * step <= n,
                top >= 2,
                step >= 1,
        ;
        top = top / 2;
        step = 2 * step;
    }
    assert(unit(n as nat) == step) by (nonlinear_arith)
        requires
            unit(n as nat) == step * unit(top as nat),
            unit(top as nat) == 1,
    ;
    let q: u128 = round_half_even(n, step);
    assert(q * step <= 2 * n) by {
        assert(q <= n / step + 1);
        assert((n / step) * step <= n) by (nonlinear_arith)
            requires
                step >= 1,
        ;
        if step == 1 {
            assert(n % 1 == 0);
            assert(q == n);
        } else {
            assert(q * step <= (n / step + 1) * step) by (nonlinear_arith)
                requires
                    q <= n / step + 1,
                    step >= 1,
            ;
            assert((n / step + 1) * step == (n / step) * step + step) by (nonlinear_arith);
        }
    }
    q * step
}

/// Computes `quotient_micros`.
pub(crate) fn divide_to_micros(num: u128, den: u128) -> (r: u128)
    requires
        num <= 0x2_0000_0000_0000_0000,
        0 < den <= 0xffff_ffff,
    ensures
        r == quotient_micros(num as nat, den as nat),
{
    let mut lifted: u128 = num;
    let mut up: u128 = 1;
    while lifted > 0 && lifted < den * MANTISSA_LOW as u128
        invariant
            num <= 0x2_0000_0000_0000_0000,
            0 < den <= 0xffff_ffff,
            lifted == num * up,
            lifted == 0 || up <= lifted,
            lifted > 0 ==> num > 0,
            lifted == 0 ==> up == 1,
            up >= 1,
            up > 1 ==> lifted < den * MANTISSA_END && num < den * MANTISSA_LOW,
            lift(num as nat, den as nat) == up * lift(lifted as nat, den as nat),
        decreases (if lifted < den * MANTISSA_LOW { den * MANTISSA_LOW - lifted } else { 0 }),
    {
        assert(2 * lifted == num * (2 * up) && up * (2 * lift(2 * lifted as nat, den as nat)) == (2
            * up) * lift(2 * lifted as nat, den as nat)) by (nonlinear_arith)
            requires
                lifted == num * up,
        ;
        assert(num <= lifted) by (nonlinear_arith)
            requires
                lifted == num * up,
                up >= 1,
        ;
        lifted = 2 * lifted;
        up = 2 * up;
    }
    assert(lift(num as nat, den as nat) == up) by (nonlinear_arith)
        requires
            lift(num as nat, den as nat) == up * lift(lifted as nat, den as nat),
            lift(lifted as nat, den as nat) == 1,
    ;
    let mut dropped: u128 = den;
    let mut down: u128 = 1;
    while num >= dropped * MANTISSA_END as u128
        invariant
            num <= 0x2_0000_0000_0000_0000,
            0 < den <= 0xffff_ffff,
            dropped == den * down,
            1 <= down <= dropped,
            down == 1 || dropped <= 0x2000,
            dropped <= 0xffff_ffff,
            down > 1 ==> num >= den * MANTISSA_END,
            drop_below(num as nat, den as nat) == down * drop_below(num as nat, dropped as nat),
        decreases
                (if num >= dropped * MANTISSA_END {
                    1 + num - dropped * MANTISSA_END
                } else {
                    0
                }),
    {
        assert(2 * dropped == den * (2 * down) && down * (2 * drop_below(
            num as nat,
            2 * dropped as nat,
        )) == (2 * down) * drop_below(num as nat, 2 * dropped as nat)) by (nonlinear_arith)
            requires
                dropped == den * down,
        ;
        assert(den <= dropped) by (nonlinear_arith)
            requires
                dropped == den * down,
                down >= 1,
        ;
        dropped = 2 * dropped;
        down = 2 * down;
    }
    assert(drop_below(num as nat, den as nat) == down) by (nonlinear_arith)
        requires
            drop_below(num as nat, den as nat) == down * drop_below(num as nat, dropped as nat),
            drop_below(num as nat, dropped as nat) == 1,
    ;
    assert(lifted < dropped * MANTISSA_END);
    let mantissa: u128 = round_half_even(lifted, dropped);
    proof {
        lemma_multiply_divide_lt(lifted as int, dropped as int, MANTISSA_END as int);
    }
    assert(mantissa <= MANTISSA_END);
    assert(mantissa * down * 1_000_000 <= MANTISSA_END * 0x2000 * 1_000_000) by (nonlinear_arith)
        requires
            0 <= mantissa <= MANTISSA_END,
            0 <= down <= 0x2000,
    ;
    assert(mantissa * down <= MANTISSA_END * 0x2000) by (nonlinear_arith)
        requires
            0 <= mantissa <= MANTISSA_END,
            0 <= down <= 0x2000,
    ;
    round_half_even(mantissa * down * 1_000_000, up)
}

/// Rounding does not pass a whole number.
pub proof fn lemma_half_even_at_most(num: nat, den: nat, k: nat)
    requires
        den > 0,
        num <= k * den,
    ensures
        half_even(num, den) <= k,
{
    let q = num / den;
    let r = num % den;
    assert(num == q * den + r && 0 <= r < den) by (nonlinear_arith)
        requires
            den > 0,
            q == num / den,
            r == num % den,
    ;
    if q >= k {
        assert(q * den >= k * den) by (nonlinear_arith)
            requires
                q >= k,
                den > 0,
        ;
        assert(q == k && r == 0) by (nonlinear_arith)
            requires
                q >= k,
                den > 0,
                r >= 0,
                q * den + r <= k * den,
        ;
    }
}

proof fn lemma_lift_positive(num: nat, den: nat)
    ensures
        lift(num, den) > 0,
    decreases (if num >= den * MANTISSA_LOW { 0int } else { den * MANTISSA_LOW - num }),
{
    if num < den * MANTISSA_LOW && num > 0 {
        lemma_lift_positive(2 * num, den);
    }
}

/// A quotient of at most `k` prints as at most `k`.
pub proof fn lemma_quotient_micros_at_most(num: nat, den: nat, k: nat)
    requires
        den > 0,
        num <= k * den,
        num < den * MANTISSA_END,
    ensures
        quotient_micros(num, den) <= k * 1_000_000,
{
    let up = lift(num, den);
    lemma_lift_positive(num, den);
    let down = drop_below(num, den);
    assert(down == 1);
    let mantissa = half_even(num * up, den * down);
    assert(num * up <= (k * up) * (den * down)) by (nonlinear_arith)
        requires
            num <= k * den,
            down == 1,
    ;
    lemma_half_even_at_most(num * up, den * down, k * up);
    assert(mantissa * down * 1_000_000 <= (k * 1_000_000) * up) by (nonlinear_arith)
        requires
            mantissa <= k * up,
            down == 1,
    ;
    lemma_half_even_at_most(mantissa * down * 1_000_000, up, k * 1_000_000);
}

} // verus!
