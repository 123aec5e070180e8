//! Lowercase hexadecimal rendering of byte sequences.

use vstd::prelude::*;

verus! {

/// The ASCII byte of the lowercase hexadecimal digit for a value below 16.
pub open spec fn hex_digit(d: u8) -> u8
    recommends
        d < 16,
{
    if d < 10 {
        (48 + d as int) as u8
    } else {
        (87 + d as int) as u8
    }
}

/// The lowercase hexadecimal rendering of a byte sequence, as ASCII bytes:
/// two digits per byte, high nibble first, no separators.
pub open spec fn hex_ascii(bs: Seq<u8>) -> Seq<u8> {
    Seq::new(
        bs.len() * 2,
        |i: int|
            if i % 2 == 0 {
                hex_digit(bs[i / 2] / 16)
            } else {
                hex_digit(bs[i / 2] % 16)
            },
    )
}

/// An ASCII byte that can appear in a lowercase hexadecimal rendering:
/// a decimal digit or a letter from `a` to `f`.
pub open spec fn is_lower_hex_digit(b: u8) -> bool {
    (48 <= b && b <= 57) || (97 <= b && b <= 102)
}

/// Law: the hexadecimal rendering of a byte sequence is exactly twice as
/// long as the sequence itself, and every byte of it is a lowercase
/// hexadecimal digit -- no uppercase letters, no separators.
pub proof fn lemma_hex_ascii_shape(bs: Seq<u8>)
    ensures
        hex_ascii(bs).len() == 2 * bs.len(),
        forall|i: int|
            0 <= i < hex_ascii(bs).len() ==> is_lower_hex_digit(#[trigger] hex_ascii(bs)[i]),
{
    assert forall|i: int|
        0 <= i < hex_ascii(bs).len() implies is_lower_hex_digit(#[trigger] hex_ascii(bs)[i]) by {
        let b = bs[i / 2];
        assert(b / 16 < 16);
        assert(b % 16 < 16);
    }
}

fn hex_digit_byte(d: u8) -> (r: u8)
    requires
        d < 16,
    ensures
        r == hex_digit(d),
{
    if d < 10 {
        48 + d
    } else {
        87 + d
    }
}

/// The lowercase hexadecimal rendering of a byte slice, as ASCII bytes.
pub fn hex_bytes(bs: &[u8]) -> (r: Vec<u8>)
    ensures
        r@ == hex_ascii(bs@),
{
    let mut out: Vec<u8> = Vec::new();
    let mut i: usize = 0;
    while i < bs.len()
        invariant
            i <= bs@.len(),
            out@ == hex_ascii(bs@.take(i as int)),
        decreases bs@.len() - i,
    {
        let b = bs[i];
        out.push(hex_digit_byte(b / 16));
        out.push(hex_digit_byte(b % 16));
        i += 1;
        proof {
            assert(out@ =~= hex_ascii(bs@.take(i as int)));
        }
    }
    proof {
        assert(bs@.take(bs@.len() as int) =~= bs@);
    }
    out
}

} // verus!
