//! Hexadecimal text, through the `hex` crate.

use vstd::prelude::*;
use crate::error::HexFault;

verus! {

/// The lower-case hexadecimal digit for `n` (below 16).
pub open spec fn hex_digit(n: int) -> char {
    if n < 10 {
        ((48 + n) as u8) as char
    } else {
        ((87 + n) as u8) as char
    }
}

/// Two lower-case hexadecimal digits for each byte, high nibble first.
pub open spec fn hex_text(b: Seq<u8>) -> Seq<char>
    decreases b.len(),
{
    if b.len() == 0 {
        Seq::empty()
    } else {
        let v = b.last() as int;
        hex_text(b.drop_last()) + seq![hex_digit(v / 16), hex_digit(v % 16)]
    }
}

/// An ASCII hexadecimal digit, in either case.
pub open spec fn is_hex_char(c: char) -> bool {
    ('0' <= c && c <= '9') || ('a' <= c && c <= 'f') || ('A' <= c && c <= 'F')
}

/// The value of a hexadecimal digit.
pub open spec fn hex_val(c: char) -> int {
    if '0' <= c && c <= '9' {
        c as int - 48
    } else if 'a' <= c && c <= 'f' {
        c as int - 87
    } else {
        c as int - 55
    }
}

/// An even number of hexadecimal digits.
pub open spec fn hex_valid(s: Seq<char>) -> bool {
    &&& s.len() % 2 == 0
    &&& forall|i: int| 0 <= i < s.len() ==> is_hex_char(#[trigger] s[i])
}

/// The bytes that a valid hexadecimal text spells, two digits each.
pub open spec fn hex_decoded(s: Seq<char>) -> Seq<u8> {
    Seq::new(s.len() / 2, |i: int| (16 * hex_val(s[2 * i]) + hex_val(s[2 * i + 1])) as u8)
}

/// Text whose characters are all ASCII, so that they are its bytes.
pub open spec fn is_ascii_text(s: Seq<char>) -> bool {
    forall|i: int| 0 <= i < s.len() ==> (#[trigger] s[i] as u32) < 128
}

/// The first position at or after `i` that is not a hexadecimal digit.
pub open spec fn first_non_hex(s: Seq<char>, i: int) -> int
    decreases s.len() - i,
{
    if i < 0 || i >= s.len() || !is_hex_char(s[i]) {
        i
    } else {
        first_non_hex(s, i + 1)
    }
}

/// Why ASCII text that is not valid hexadecimal is refused: an odd length,
/// else its first character that is not a hexadecimal digit.
pub open spec fn hex_fault_of(s: Seq<char>) -> HexFault {
    if s.len() % 2 == 1 {
        HexFault::OddLength
    } else {
        let i = first_non_hex(s, 0);
        HexFault::InvalidCharacter { c: s[i], index: i as usize }
    }
}

/// Relies on `hex::encode`: each byte becomes two lower-case digits, high
/// nibble first.
#[verifier::external_body]
pub(crate) fn hex_encode(b: &[u8]) -> (r: String)
    ensures
        r@ == hex_text(b@),
{
    hex::encode(b)
}

/// Relies on `hex::decode`: text with an odd number of bytes is refused,
/// as is any byte that is not an ASCII hexadecimal digit, and the error
/// names the first such byte and its offset; otherwise each pair of digits
/// becomes one byte.
#[verifier::external_body]
pub(crate) fn hex_decode(s: &str) -> (r: Result<Vec<u8>, HexFault>)
    ensures
        r is Ok <==> hex_valid(s@),
        r matches Ok(v) ==> v@ == hex_decoded(s@),
        r matches Err(e) ==> (is_ascii_text(s@) ==> e == hex_fault_of(s@)),
{
    hex::decode(s).map_err(|e| match e {
        hex::FromHexError::OddLength => HexFault::OddLength,
        hex::FromHexError::InvalidHexCharacter { c, index } => HexFault::InvalidCharacter {
            c,
            index,
        },
        hex::FromHexError::InvalidStringLength => HexFault::InvalidLength,
    })
}

} // verus!
