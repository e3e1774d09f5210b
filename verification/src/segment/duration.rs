//! The nominal segment duration.

use vstd::arithmetic::power2::{
    lemma2_to64, lemma2_to64_rest, lemma_pow2_adds, lemma_pow2_pos, lemma_pow2_strictly_increases,
    lemma_pow2_unfold, pow2,
};
use vstd::prelude::*;

use crate::binary64::{ceil_div, round53, round_to_53, MANTISSA_LOW};

verus! {

/// A duration in seconds, held as the bit pattern of a binary64 number.
#[derive(Debug, Clone, Copy, PartialEq, Eq, Structural)]
pub struct SegmentDuration {
    pub bits: u64,
}

/// The pattern of positive infinity, the first that is not a finite number.
pub const INFINITY_BITS: u64 = 0x7ff0_0000_0000_0000;

/// The whole-number part of a positive binary64 number.
pub open spec fn mantissa(bits: u64) -> nat {
    if bits < MANTISSA_LOW {
        bits as nat
    } else {
        (MANTISSA_LOW + bits % MANTISSA_LOW) as nat
    }
}

/// The power of two that the whole-number part is multiplied by.
pub open spec fn exponent(bits: u64) -> int {
    if bits < MANTISSA_LOW {
        -1074
    } else {
        bits / MANTISSA_LOW - 1075
    }
}

/// `n * 2^e`, rounded up to a whole number.
pub open spec fn scaled_up(n: nat, e: int) -> nat {
    if e >= 0 {
        n * pow2(e as nat)
    } else {
        ceil_div(n, pow2((-e) as nat))
    }
}

impl SegmentDuration {
    /// The duration is positive and finite.
    pub open spec fn valid(self) -> bool {
        0 < self.bits < INFINITY_BITS
    }

    /// The duration in ticks of `timescale`: the binary64 product of the two,
    /// rounded up, at least 1 and at most `u64::MAX`.
    pub open spec fn spec_ticks(self, timescale: u32) -> u64 {
        let n = scaled_up(round53(mantissa(self.bits) * timescale as nat), exponent(self.bits));
        if n == 0 {
            1
        } else if n > u64::MAX {
            u64::MAX
        } else {
            n as u64
        }
    }

    /// A duration from the bit pattern of a binary64 number of seconds.
    pub fn from_bits(bits: u64) -> (r: SegmentDuration)
        ensures
            r.bits == bits,
    {
        SegmentDuration { bits }
    }

    /// Whether the duration is positive and finite.
    pub fn is_valid(&self) -> (r: bool)
        ensures
            r == self.valid(),
    {
        0 < self.bits && self.bits < INFINITY_BITS
    }

    /// The duration in ticks of `timescale`.
    pub fn ticks(&self, timescale: u32) -> (r: u64)
        requires
            self.valid(),
            timescale > 0,
        ensures
            r == self.spec_ticks(timescale),
            r >= 1,
    {
        let low: u64 = MANTISSA_LOW;
        let subnormal = self.bits < low;
        let m: u64 = if subnormal { self.bits } else { low + self.bits % low };
        let field: u64 = self.bits / low;
        assert(1 <= m * timescale < 0x20_0000_0000_0000 * 0x1_0000_0000) by (nonlinear_arith)
            requires
                1 <= m < 0x20_0000_0000_0000,
                1 <= timescale <= 0xffff_ffff,
        ;
        let n: u128 = round_to_53(m as u128 * timescale as u128);
        if !subnormal && field >= 1075 {
            double_to_ticks(n, field - 1075)
        } else {
            let halvings: u64 = if subnormal { 1074 } else { 1075 - field };
            halve_to_ticks(n, halvings)
        }
    }
}

/// `n * 2^e`, at least 1 and at most `u64::MAX`.
fn double_to_ticks(n: u128, e: u64) -> (r: u64)
    requires
        n < 0x10_0000_0000_0000_0000_0000_0000,
    ensures
        r >= 1,
        r == {
            let t = n * pow2(e as nat);
            if t == 0 {
                1
            } else if t > u64::MAX {
                u64::MAX as int
            } else {
                t
            }
        },
{
    let mut acc: u128 = n;
    let mut i: u64 = 0;
    proof {
        lemma2_to64();
    }
    while i < e && acc <= u64::MAX as u128
        invariant
            0 <= i <= e,
            acc == n * pow2(i as nat),
            acc < 0x10_0000_0000_0000_0000_0000_0000,
        decreases e - i,
    {
        proof {
            lemma_pow2_unfold((i + 1) as nat);
            assert(n * (2 * pow2(i as nat)) == 2 * (n * pow2(i as nat))) by (nonlinear_arith);
        }
        acc = 2 * acc;
        i += 1;
    }
    if acc > u64::MAX as u128 {
        proof {
            if i < e {
                lemma_pow2_strictly_increases(i as nat, e as nat);
                assert(n * pow2(i as nat) <= n * pow2(e as nat)) by (nonlinear_arith)
                    requires
                        pow2(i as nat) <= pow2(e as nat),
                        n >= 0,
                ;
            }
        }
        u64::MAX
    } else if acc == 0 {
        1
    } else {
        acc as u64
    }
}

/// `n / 2^e` rounded up, at least 1 and at most `u64::MAX`.
fn halve_to_ticks(n: u128, e: u64) -> (r: u64)
    requires
        n < 0x10_0000_0000_0000_0000_0000_0000,
    ensures
        r >= 1,
        r == {
            let t = ceil_div(n as nat, pow2(e as nat));
            if t == 0 {
                1
            } else if t > u64::MAX {
                u64::MAX as nat
            } else {
                t
            }
        },
{
    proof {
        lemma2_to64();
        lemma2_to64_rest();
        lemma_pow2_adds(64, 36);
    }
    if e >= 100 {
        proof {
            if e > 100 {
                lemma_pow2_strictly_increases(100, e as nat);
            }
            let d = pow2(e as nat);
            assert(n as nat / d == 0 && n as nat % d == n as nat) by (nonlinear_arith)
                requires
                    0 <= n < d,
            ;
        }
        return 1;
    }
    let mut d: u128 = 1;
    let mut i: u64 = 0;
    while i < e
        invariant
            0 <= i <= e < 100,
            d == pow2(i as nat),
            d < 0x10_0000_0000_0000_0000_0000_0000,
        decreases e - i,
    {
        proof {
            lemma_pow2_unfold((i + 1) as nat);
            lemma_pow2_strictly_increases((i + 1) as nat, 100);
            lemma2_to64();
            lemma2_to64_rest();
            lemma_pow2_adds(64, 36);
        }
        d = 2 * d;
        i += 1;
    }
    proof {
        lemma_pow2_pos(e as nat);
        assert(n / d <= n) by (nonlinear_arith)
            requires
                d >= 1,
        ;
    }
    let t: u128 = if n % d == 0 { n / d } else { n / d + 1 };
    if t == 0 {
        1
    } else if t > u64::MAX as u128 {
        u64::MAX
    } else {
        t as u64
    }
}

} // verus!
