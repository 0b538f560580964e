//! Bytes as text.

use ::base64::Engine;
use vstd::prelude::*;

verus! {

/// The character that stands for six bits.
pub open spec fn symbol(n: int) -> char {
    if n < 26 {
        ('A' as int + n) as char
    } else if n < 52 {
        ('a' as int + (n - 26)) as char
    } else if n < 62 {
        ('0' as int + (n - 52)) as char
    } else if n == 62 {
        '+'
    } else {
        '/'
    }
}

/// Bytes in base64: four characters for three bytes, with `=` for what is missing at the end.
pub open spec fn encoded(b: Seq<u8>) -> Seq<char>
    decreases b.len(),
{
    if b.len() == 0 {
        Seq::empty()
    } else {
        let x = b[0] as int;
        let y = if b.len() > 1 {
            b[1] as int
        } else {
            0
        };
        let z = if b.len() > 2 {
            b[2] as int
        } else {
            0
        };
        seq![
            symbol(x / 4),
            symbol((x % 4) * 16 + y / 16),
            if b.len() > 1 {
                symbol((y % 16) * 4 + z / 64)
            } else {
                '='
            },
            if b.len() > 2 {
                symbol(z % 64)
            } else {
                '='
            },
        ] + encoded(
            b.skip(
                if b.len() > 2 {
                    3
                } else {
                    b.len() as int
                },
            ),
        )
    }
}

/// `STANDARD.encode` of the crate `base64`: the bytes in base64 with the usual characters, padded.
#[verifier::external_body]
pub(crate) fn encode(bytes: &[u8]) -> (r: String)
    ensures
        r@ == encoded(bytes@),
{
    ::base64::engine::general_purpose::STANDARD.encode(bytes)
}

} // verus!
