use vstd::prelude::*;
use vstd::std_specs::iter::IteratorSpec;
use crate::error::CryptoError;

verus! {

/// The hexadecimal digit, in lower case, of a value below sixteen.
pub open spec fn hex_digit(v: int) -> char {
    if v < 10 {
        ('0' as int + v) as char
    } else {
        ('a' as int + v - 10) as char
    }
}

/// The value of a hexadecimal digit, in either case; none for any other
/// character.
pub open spec fn hex_value(c: char) -> Option<int> {
    if '0' <= c && c <= '9' {
        Some(c as int - '0' as int)
    } else if 'a' <= c && c <= 'f' {
        Some(c as int - 'a' as int + 10)
    } else if 'A' <= c && c <= 'F' {
        Some(c as int - 'A' as int + 10)
    } else {
        None
    }
}

/// The hexadecimal text of a buffer: two digits for each byte, the high half
/// first.
pub open spec fn hex_encoded(bytes: Seq<u8>) -> Seq<char> {
    Seq::new(
        2 * bytes.len(),
        |i: int|
            hex_digit(
                if i % 2 == 0 {
                    bytes[i / 2] as int / 16
                } else {
                    bytes[i / 2] as int % 16
                },
            ),
    )
}

/// A text is hexadecimal: it holds an even number of characters, each a
/// hexadecimal digit.
pub open spec fn is_hex_text(text: Seq<char>) -> bool {
    &&& text.len() % 2 == 0
    &&& forall|i: int| 0 <= i < text.len() ==> hex_value(#[trigger] text[i]) is Some
}

/// The byte that two hexadecimal digits stand for.
pub open spec fn hex_pair(high: char, low: char) -> u8 {
    (hex_value(high)->0 * 16 + hex_value(low)->0) as u8
}

/// The buffer that a hexadecimal text stands for: one byte for each two
/// digits.
pub open spec fn hex_decoded(text: Seq<char>) -> Seq<u8> {
    Seq::new(text.len() / 2, |i: int| hex_pair(text[2 * i], text[2 * i + 1]))
}

/// Decoding the hexadecimal text of a buffer gives the buffer back.
pub proof fn lemma_hex_round_trip(bytes: Seq<u8>)
    ensures
        is_hex_text(hex_encoded(bytes)),
        hex_decoded(hex_encoded(bytes)) == bytes,
{
    let text = hex_encoded(bytes);
    assert forall|i: int| 0 <= i < text.len() implies hex_value(#[trigger] text[i]) is Some by {
        let b = bytes[i / 2] as int;
        assert(0 <= b / 16 < 16 && 0 <= b % 16 < 16);
    }
    assert forall|i: int| 0 <= i < bytes.len() implies hex_decoded(text)[i] == bytes[i] by {
        let b = bytes[i] as int;
        assert(0 <= b / 16 < 16 && 0 <= b % 16 < 16);
        assert(text[2 * i] == hex_digit(b / 16));
        assert(text[2 * i + 1] == hex_digit(b % 16));
        assert(hex_value(hex_digit(b / 16)) == Some(b / 16));
        assert(hex_value(hex_digit(b % 16)) == Some(b % 16));
    }
    assert(hex_decoded(text) =~= bytes);
}

/// The value of a hexadecimal digit.
fn digit_value(c: char) -> (r: Option<u8>)
    ensures
        match r {
            Some(v) => hex_value(c) == Some(v as int) && v < 16,
            None => hex_value(c) is None,
        },
{
    if '0' <= c && c <= '9' {
        Some(c as u8 - '0' as u8)
    } else if 'a' <= c && c <= 'f' {
        Some(c as u8 - 'a' as u8 + 10)
    } else if 'A' <= c && c <= 'F' {
        Some(c as u8 - 'A' as u8 + 10)
    } else {
        None
    }
}

/// The hexadecimal digit of a value below sixteen.
fn digit_of(v: u8) -> (r: char)
    requires
        v < 16,
    ensures
        r == hex_digit(v as int),
{
    if v < 10 {
        ('0' as u8 + v) as char
    } else {
        ('a' as u8 + (v - 10)) as char
    }
}

/// Reads a hexadecimal text as bytes. A text of odd length and a text with a
/// character that is no hexadecimal digit are rejected.
pub fn hex_decode(hex: &str) -> (r: Result<Vec<u8>, CryptoError>)
    ensures
        is_hex_text(hex@) ==> (r matches Ok(bytes) && bytes@ == hex_decoded(hex@)),
        !is_hex_text(hex@) ==> r == Err::<Vec<u8>, CryptoError>(CryptoError::InvalidHexDigit),
{
    let mut out: Vec<u8> = Vec::new();
    let mut high: Option<u8> = None;
    let mut chars = hex.chars();
    let ghost mut n: int = 0;
    loop
        invariant
            0 <= n <= hex@.len(),
            chars.remaining() == hex@.skip(n),
            forall|i: int| 0 <= i < n ==> hex_value(#[trigger] hex@[i]) is Some,
            out@.len() == n / 2,
            forall|i: int| 0 <= i < n / 2 ==> out@[i] == hex_pair(hex@[2 * i], hex@[2 * i + 1]),
            match high {
                Some(v) => n % 2 == 1 && hex_value(hex@[n - 1]) == Some(v as int) && v < 16,
                None => n % 2 == 0,
            },
        decreases hex@.len() - n,
    {
        match chars.next() {
            None => {
                if high.is_some() {
                    return Err(CryptoError::InvalidHexDigit);
                }
                assert(out@ =~= hex_decoded(hex@));
                return Ok(out);
            },
            Some(c) => {
                assert(c == hex@[n]);
                match digit_value(c) {
                    None => {
                        return Err(CryptoError::InvalidHexDigit);
                    },
                    Some(v) => {
                        match high {
                            None => {
                                high = Some(v);
                            },
                            Some(h) => {
                                out.push(h * 16 + v);
                                high = None;
                            },
                        }
                    },
                }
                proof {
                    n = n + 1;
                }
            },
        }
    }
}

/// Writes a buffer as hexadecimal text, in lower case.
pub fn hex_encode(buf: &[u8]) -> (r: String)
    ensures
        r@ == hex_encoded(buf@),
{
    let mut out = String::new();
    let mut i: usize = 0;
    while i < buf.len()
        invariant
            i <= buf.len(),
            out@ == hex_encoded(buf@.take(i as int)),
        decreases buf.len() - i,
    {
        let b: u8 = buf[i];
        out.push(digit_of(b / 16));
        out.push(digit_of(b % 16));
        i += 1;
        assert(out@ =~= hex_encoded(buf@.take(i as int)));
    }
    assert(buf@.take(i as int) =~= buf@);
    out
}

} // verus!
