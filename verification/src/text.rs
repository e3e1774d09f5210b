//! Text as sequences of characters.

use vstd::prelude::*;
use vstd::string::StringExecFns;

use crate::bytes::{be32, be_bytes};

verus! {

/// The decimal digit of a number below 10.
pub open spec fn digit_char(d: nat) -> char {
    (48 + d) as u8 as char
}

/// The decimal digits of `n`.
pub open spec fn decimal_text(n: nat) -> Seq<char>
    decreases n,
{
    if n < 10 {
        seq![digit_char(n)]
    } else {
        decimal_text(n / 10).push(digit_char(n % 10))
    }
}

/// The text of the digit of a number below 10.
fn digit_text(d: u8) -> (r: &'static str)
    requires
        d < 10,
    ensures
        r@ == seq![digit_char(d as nat)],
{
    proof {
        reveal_strlit("0");
        reveal_strlit("1");
        reveal_strlit("2");
        reveal_strlit("3");
        reveal_strlit("4");
        reveal_strlit("5");
        reveal_strlit("6");
        reveal_strlit("7");
        reveal_strlit("8");
        reveal_strlit("9");
    }
    let r: &'static str = match d {
        0 => "0",
        1 => "1",
        2 => "2",
        3 => "3",
        4 => "4",
        5 => "5",
        6 => "6",
        7 => "7",
        8 => "8",
        _ => "9",
    };
    assert(r@ =~= seq![digit_char(d as nat)]);
    r
}

/// Appends the decimal digits of `n`.
pub(crate) fn push_number(out: &mut String, n: u64)
    ensures
        final(out)@ == old(out)@ + decimal_text(n as nat),
    decreases n,
{
    if n >= 10 {
        push_number(out, n / 10);
    }
    out.append(digit_text((n % 10) as u8));
    assert(out@ =~= old(out)@ + decimal_text(n as nat));
}

/// The characters of `text`.
pub(crate) fn chars_of(text: &str) -> (r: Vec<char>)
    ensures
        r@ == text@,
{
    let mut r: Vec<char> = Vec::new();
    for c in it: text.chars()
        invariant
            r@ == it.seq().take(it.index()),
            it.seq() == text@,
    {
        r.push(c);
    }
    r
}

/// Calls `std::str::from_utf8`: text where the bytes are valid UTF-8, nothing
/// otherwise.
#[verifier::external_body]
fn from_utf8(bytes: &[u8]) -> (r: Option<&str>)
    ensures
        r is Some <==> vstd::utf8::valid_utf8(bytes@),
        r matches Some(text) ==> text@ == vstd::utf8::decode_utf8(bytes@),
{
    std::str::from_utf8(bytes).ok()
}

/// The lower-case hexadecimal digit of a number below 16.
pub open spec fn hex_char(d: nat) -> char {
    if d < 10 {
        digit_char(d)
    } else {
        (87 + d) as u8 as char
    }
}

/// The two hexadecimal digits of a byte.
pub open spec fn hex_text(b: u8) -> Seq<char> {
    seq![hex_char((b / 16) as nat), hex_char((b % 16) as nat)]
}

/// A box type as text: as it reads, or its bytes in hexadecimal where they
/// are not valid UTF-8.
pub open spec fn fourcc_text(fourcc: u32) -> Seq<char> {
    let b = be32(fourcc);
    if vstd::utf8::valid_utf8(b) {
        vstd::utf8::decode_utf8(b)
    } else {
        "["@ + hex_text(b[0]) + ", "@ + hex_text(b[1]) + ", "@ + hex_text(b[2]) + ", "@ + hex_text(
            b[3],
        ) + "]"@
    }
}

/// The text of the hexadecimal digit of a number below 16.
fn hex_digit_text(d: u8) -> (r: &'static str)
    requires
        d < 16,
    ensures
        r@ == seq![hex_char(d as nat)],
{
    proof {
        reveal_strlit("a");
        reveal_strlit("b");
        reveal_strlit("c");
        reveal_strlit("d");
        reveal_strlit("e");
        reveal_strlit("f");
    }
    let r: &'static str = match d {
        10 => "a",
        11 => "b",
        12 => "c",
        13 => "d",
        14 => "e",
        15 => "f",
        _ => digit_text(d),
    };
    assert(r@ =~= seq![hex_char(d as nat)]);
    r
}

/// Appends the two hexadecimal digits of a byte.
fn push_hex(out: &mut String, b: u8)
    ensures
        final(out)@ == old(out)@ + hex_text(b),
{
    out.append(hex_digit_text(b / 16));
    out.append(hex_digit_text(b % 16));
    assert(out@ =~= old(out)@ + hex_text(b));
}

/// Appends a box type as text.
pub(crate) fn push_fourcc(out: &mut String, fourcc: u32)
    ensures
        final(out)@ == old(out)@ + fourcc_text(fourcc),
{
    broadcast use crate::bytes::lemma_be32;

    let b: [u8; 4] = be_bytes(fourcc);
    match from_utf8(b.as_slice()) {
        Some(text) => out.append(text),
        None => {
            out.append("[");
            push_hex(out, b[0]);
            out.append(", ");
            push_hex(out, b[1]);
            out.append(", ");
            push_hex(out, b[2]);
            out.append(", ");
            push_hex(out, b[3]);
            out.append("]");
        },
    }
    assert(out@ =~= old(out)@ + fourcc_text(fourcc));
}

/// A number as text: its last digit stands behind those of the rest, and a
/// number below ten is a single digit.
pub proof fn law_numbers_are_written_in_decimal(n: nat)
    ensures
        decimal_text(n).len() > 0,
        0 < n ==> decimal_text(n)[0] != '0',
        decimal_text(0) == seq!['0'],
        forall|d: nat| 0 < n && d < 10 ==> #[trigger] decimal_text(10 * n + d) == decimal_text(n)
            + decimal_text(d),
        n < 10 ==> decimal_text(n).len() == 1 && decimal_text(n)[0] as u32 == 48 + n,
    decreases n,
{
    assert(decimal_text(0) =~= seq!['0']);
    if n >= 10 {
        law_numbers_are_written_in_decimal(n / 10);
        assert(decimal_text(n)[0] == decimal_text(n / 10)[0]);
    }
    assert forall|d: nat| 0 < n && d < 10 implies #[trigger] decimal_text(10 * n + d)
        == decimal_text(n) + decimal_text(d) by {
        assert((10 * n + d) / 10 == n && (10 * n + d) % 10 == d);
        assert(decimal_text(10 * n + d) =~= decimal_text(n) + decimal_text(d));
    }
}

} // verus!
