//! Decimal numbers as ASCII text.

use vstd::prelude::*;

verus! {

/// The ASCII digit of a number below 10.
pub open spec fn digit(d: nat) -> u8 {
    (48 + d) as u8
}

/// The decimal digits of `n`, with leading zeros up to `width` digits.
pub open spec fn digits(n: nat, width: nat) -> Seq<u8>
    decreases n, width,
{
    if n < 10 && width <= 1 {
        seq![digit(n)]
    } else {
        digits(
            n / 10,
            if width > 0 {
                (width - 1) as nat
            } else {
                0
            },
        ).push(digit(n % 10))
    }
}

/// Appends the decimal digits of `n`, at least `width` of them.
pub(crate) fn push_digits(out: &mut Vec<u8>, n: u128, width: u32)
    ensures
        final(out)@ == old(out)@ + digits(n as nat, width as nat),
    decreases n, width,
{
    if !(n < 10 && width <= 1) {
        push_digits(out, n / 10, if width > 0 { width - 1 } else { 0 });
    }
    out.push(48 + (n % 10) as u8);
    assert(out@ =~= old(out)@ + digits(n as nat, width as nat));
}

} // verus!
