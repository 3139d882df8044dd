use vstd::prelude::*;
use vstd::std_specs::iter::IteratorSpec;
use crate::error::CryptoError;

verus! {

/// The character that stands for a six-bit value in the standard alphabet:
/// `A` to `Z`, `a` to `z`, `0` to `9`, `+` and `/`.
pub open spec fn sextet_char(v: int) -> char {
    if v < 26 {
        ('A' as int + v) as char
    } else if v < 52 {
        ('a' as int + v - 26) as char
    } else if v < 62 {
        ('0' as int + v - 52) as char
    } else if v == 62 {
        '+'
    } else {
        '/'
    }
}

/// The six-bit value that a character of the standard alphabet stands for;
/// none for any other character.
pub open spec fn char_sextet(c: char) -> Option<int> {
    if 'A' <= c && c <= 'Z' {
        Some(c as int - 'A' as int)
    } else if 'a' <= c && c <= 'z' {
        Some(c as int - 'a' as int + 26)
    } else if '0' <= c && c <= '9' {
        Some(c as int - '0' as int + 52)
    } else if c == '+' {
        Some(62)
    } else if c == '/' {
        Some(63)
    } else {
        None
    }
}

/// The byte at a position of a buffer, and zero beyond its end.
pub open spec fn byte_or_zero(bytes: Seq<u8>, i: int) -> u8 {
    if 0 <= i < bytes.len() {
        bytes[i]
    } else {
        0
    }
}

/// One of the four six-bit values that three bytes are cut into.
pub open spec fn chunk_sextet(b0: u8, b1: u8, b2: u8, p: int) -> u8 {
    if p == 0 {
        b0 >> 2
    } else if p == 1 {
        ((b0 & 3) << 4) | (b1 >> 4)
    } else if p == 2 {
        ((b1 & 15) << 2) | (b2 >> 6)
    } else {
        b2 & 63
    }
}

/// The character at a position of the Base64 text of a buffer. Every three
/// bytes give four characters; where the last bytes are fewer than three, the
/// characters that hold no bit of them are `=`.
pub open spec fn b64_char_at(bytes: Seq<u8>, i: int) -> char {
    let q = i / 4;
    let p = i % 4;
    if 3 * q + p <= bytes.len() {
        sextet_char(
            chunk_sextet(
                byte_or_zero(bytes, 3 * q),
                byte_or_zero(bytes, 3 * q + 1),
                byte_or_zero(bytes, 3 * q + 2),
                p,
            ) as int,
        )
    } else {
        '='
    }
}

/// The Base64 text of a buffer, padded with `=` to a multiple of four
/// characters.
pub open spec fn b64_encoded(bytes: Seq<u8>) -> Seq<char> {
    Seq::new(4 * ((bytes.len() + 2) / 3), |i: int| b64_char_at(bytes, i))
}

/// The part of a Base64 text that is read: what stands before its first `=`,
/// and all of it where it holds none.
pub open spec fn b64_payload(text: Seq<char>) -> Seq<char>
    decreases text.len(),
{
    if text.len() == 0 || text[0] == '=' {
        Seq::empty()
    } else {
        seq![text[0]] + b64_payload(text.drop_first())
    }
}

/// A text is Base64: every character is of the standard alphabet or is `=`,
/// wherever it stands.
pub open spec fn is_b64_text(text: Seq<char>) -> bool {
    forall|i: int|
        0 <= i < text.len() ==> #[trigger] text[i] == '=' || char_sextet(text[i]) is Some
}

/// Every character belongs to the standard alphabet.
pub open spec fn is_b64_payload(payload: Seq<char>) -> bool {
    forall|i: int| 0 <= i < payload.len() ==> char_sextet(#[trigger] payload[i]) is Some
}

/// The byte that two neighbouring six-bit values share: the low bits of the
/// first joined to the high bits of the second.
pub open spec fn join_sextets(a: u8, b: u8, r: int) -> u8 {
    if r == 0 {
        (a << 2) | (b >> 4)
    } else if r == 1 {
        ((a & 15) << 4) | (b >> 2)
    } else {
        ((a & 3) << 6) | b
    }
}

/// The byte at a position of the buffer that a Base64 payload stands for.
pub open spec fn b64_byte_at(payload: Seq<char>, j: int) -> u8 {
    let q = j / 3;
    let r = j % 3;
    join_sextets(
        char_sextet(payload[4 * q + r])->0 as u8,
        char_sextet(payload[4 * q + r + 1])->0 as u8,
        r,
    )
}

/// The buffer that a Base64 payload stands for: the six bits of each
/// character in a row, cut into bytes; bits that fill no byte are dropped.
pub open spec fn b64_decoded(payload: Seq<char>) -> Seq<u8> {
    Seq::new(payload.len() * 3 / 4, |j: int| b64_byte_at(payload, j))
}

/// The payload of a text ends where its first `=` stands.
pub proof fn lemma_payload_ends(text: Seq<char>, n: int)
    requires
        0 <= n <= text.len(),
        forall|i: int| 0 <= i < n ==> text[i] != '=',
        n == text.len() || text[n] == '=',
    ensures
        b64_payload(text) == text.take(n),
    decreases n,
{
    if n == 0 {
        assert(text.take(0) =~= Seq::<char>::empty());
    } else {
        let rest = text.drop_first();
        assert forall|i: int| 0 <= i < n - 1 implies rest[i] != '=' by {
            assert(rest[i] == text[i + 1]);
        }
        lemma_payload_ends(rest, n - 1);
        assert(seq![text[0]] + rest.take(n - 1) =~= text.take(n));
    }
}

/// The alphabet holds one character for each six-bit value, and none of them
/// is `=`.
pub proof fn lemma_sextet_char(v: int)
    requires
        0 <= v < 64,
    ensures
        char_sextet(sextet_char(v)) == Some(v),
        sextet_char(v) != '=',
{
}

/// Cutting three bytes into four six-bit values and joining neighbours gives
/// the three bytes back.
pub proof fn lemma_chunk_round_trip(b0: u8, b1: u8, b2: u8)
    ensures
        chunk_sextet(b0, b1, b2, 0) < 64,
        chunk_sextet(b0, b1, b2, 1) < 64,
        chunk_sextet(b0, b1, b2, 2) < 64,
        chunk_sextet(b0, b1, b2, 3) < 64,
        join_sextets(chunk_sextet(b0, b1, b2, 0), chunk_sextet(b0, b1, b2, 1), 0) == b0,
        join_sextets(chunk_sextet(b0, b1, b2, 1), chunk_sextet(b0, b1, b2, 2), 1) == b1,
        join_sextets(chunk_sextet(b0, b1, b2, 2), chunk_sextet(b0, b1, b2, 3), 2) == b2,
{
    assert((b0 >> 2) < 64 && (((b0 & 3) << 4) | (b1 >> 4)) < 64 && (((b1 & 15) << 2) | (b2 >> 6))
        < 64 && (b2 & 63) < 64) by (bit_vector);
    assert(((b0 >> 2) << 2) | ((((b0 & 3) << 4) | (b1 >> 4)) >> 4) == b0) by (bit_vector);
    assert((((((b0 & 3) << 4) | (b1 >> 4)) & 15) << 4) | ((((b1 & 15) << 2) | (b2 >> 6)) >> 2)
        == b1) by (bit_vector);
    assert((((((b1 & 15) << 2) | (b2 >> 6)) & 3) << 6) | (b2 & 63) == b2) by (bit_vector);
}

/// The number of characters of the Base64 text of `len` bytes that are no
/// padding.
pub open spec fn b64_payload_len(len: nat) -> nat {
    if len % 3 == 0 {
        4 * (len / 3)
    } else {
        4 * (len / 3) + len % 3 + 1
    }
}

/// The payload of a Base64 text holds characters of the alphabet only.
pub proof fn lemma_payload_of_text(text: Seq<char>)
    requires
        is_b64_text(text),
    ensures
        is_b64_payload(b64_payload(text)),
    decreases text.len(),
{
    if text.len() > 0 && text[0] != '=' {
        let rest = text.drop_first();
        assert forall|i: int| 0 <= i < rest.len() implies #[trigger] rest[i] == '='
            || char_sextet(rest[i]) is Some by {
            assert(rest[i] == text[i + 1]);
        }
        lemma_payload_of_text(rest);
        let payload = b64_payload(text);
        assert forall|i: int| 0 <= i < payload.len() implies char_sextet(#[trigger] payload[i])
            is Some by {
            if i > 0 {
                assert(payload[i] == b64_payload(rest)[i - 1]);
            }
        }
    }
}

/// What is written as Base64 is a Base64 text, and decoding it gives the
/// buffer back.
pub proof fn lemma_b64_round_trip(bytes: Seq<u8>)
    ensures
        is_b64_text(b64_encoded(bytes)),
        is_b64_payload(b64_payload(b64_encoded(bytes))),
        b64_decoded(b64_payload(b64_encoded(bytes))) == bytes,
{
    let text = b64_encoded(bytes);
    let n = bytes.len() as int;
    let kept = b64_payload_len(bytes.len()) as int;
    let payload = text.take(kept);
    assert forall|i: int| 0 <= i < kept implies text[i] != '=' && char_sextet(#[trigger] text[i])
        is Some by {
        let q = i / 4;
        lemma_chunk_round_trip(
            byte_or_zero(bytes, 3 * q),
            byte_or_zero(bytes, 3 * q + 1),
            byte_or_zero(bytes, 3 * q + 2),
        );
        lemma_sextet_char(
            chunk_sextet(
                byte_or_zero(bytes, 3 * q),
                byte_or_zero(bytes, 3 * q + 1),
                byte_or_zero(bytes, 3 * q + 2),
                i % 4,
            ) as int,
        );
    }
    lemma_payload_ends(text, kept);
    assert forall|i: int| 0 <= i < text.len() implies #[trigger] text[i] == '=' || char_sextet(
        text[i],
    ) is Some by {
        if i < kept {
            assert(char_sextet(text[i]) is Some);
        }
    }
    assert forall|j: int| 0 <= j < n implies b64_byte_at(payload, j) == bytes[j] by {
        let q = j / 3;
        let r = j % 3;
        let b0 = byte_or_zero(bytes, 3 * q);
        let b1 = byte_or_zero(bytes, 3 * q + 1);
        let b2 = byte_or_zero(bytes, 3 * q + 2);
        lemma_chunk_round_trip(b0, b1, b2);
        lemma_sextet_char(chunk_sextet(b0, b1, b2, r) as int);
        lemma_sextet_char(chunk_sextet(b0, b1, b2, r + 1) as int);
        assert(payload[4 * q + r] == b64_char_at(bytes, 4 * q + r));
        assert(payload[4 * q + r + 1] == b64_char_at(bytes, 4 * q + r + 1));
    }
    assert(b64_decoded(payload) =~= bytes);
}

/// The six-bit value of a character of the alphabet.
fn sextet_of(c: char) -> (r: Option<u8>)
    ensures
        match r {
            Some(v) => char_sextet(c) == Some(v as int) && v < 64,
            None => char_sextet(c) is None,
        },
{
    if 'A' <= c && c <= 'Z' {
        Some(c as u8 - 'A' as u8)
    } else if 'a' <= c && c <= 'z' {
        Some(c as u8 - 'a' as u8 + 26)
    } else if '0' <= c && c <= '9' {
        Some(c as u8 - '0' as u8 + 52)
    } else if c == '+' {
        Some(62)
    } else if c == '/' {
        Some(63)
    } else {
        None
    }
}

/// The character of the alphabet for a six-bit value.
fn char_of(v: u8) -> (r: char)
    requires
        v < 64,
    ensures
        r == sextet_char(v as int),
{
    if v < 26 {
        ('A' as u8 + v) as char
    } else if v < 52 {
        ('a' as u8 + (v - 26)) as char
    } else if v < 62 {
        ('0' as u8 + (v - 52)) as char
    } else if v == 62 {
        '+'
    } else {
        '/'
    }
}

/// Joins the low bits of one six-bit value to the high bits of the next.
fn join(a: u8, b: u8, r: u8) -> (byte: u8)
    requires
        r < 3,
    ensures
        byte == join_sextets(a, b, r as int),
{
    if r == 0 {
        (a << 2) | (b >> 4)
    } else if r == 1 {
        ((a & 15) << 4) | (b >> 2)
    } else {
        ((a & 3) << 6) | b
    }
}

/// Reads a Base64 text as bytes. The bytes are those that stand before the
/// first `=`; what follows it is not read. A character that is neither `=`
/// nor of the standard alphabet is rejected, wherever it stands.
pub fn b64_decode(base64: &str) -> (r: Result<Vec<u8>, CryptoError>)
    ensures
        is_b64_text(base64@) ==> (r matches Ok(bytes) && bytes@ == b64_decoded(
            b64_payload(base64@),
        )),
        !is_b64_text(base64@) ==> r == Err::<Vec<u8>, CryptoError>(
            CryptoError::InvalidAlphabetChar,
        ),
{
    let mut out: Vec<u8> = Vec::new();
    let mut previous: u8 = 0;
    let mut phase: u8 = 0;
    let mut ended: bool = false;
    let mut chars = base64.chars();
    let ghost mut n: int = 0;
    let ghost mut end: int = 0;
    loop
        invariant
            0 <= end <= n <= base64@.len(),
            chars.remaining() == base64@.skip(n),
            forall|i: int|
                0 <= i < n ==> #[trigger] base64@[i] == '=' || char_sextet(base64@[i]) is Some,
            forall|i: int| 0 <= i < end ==> base64@[i] != '=',
            ended ==> end < n && base64@[end] == '=',
            !ended ==> end == n && phase == n % 4 && (n > 0 ==> char_sextet(base64@[n - 1])
                == Some(previous as int)),
            is_b64_payload(base64@.take(end)),
            out@ == b64_decoded(base64@.take(end)),
        decreases base64@.len() - n,
    {
        let ghost read = base64@.take(end);
        match chars.next() {
            None => {
                proof {
                    lemma_payload_ends(base64@, end);
                }
                return Ok(out);
            },
            Some(c) => {
                assert(c == base64@[n]);
                if c == '=' {
                    ended = true;
                } else {
                    let sextet = match sextet_of(c) {
                        Some(sextet) => sextet,
                        None => {
                            return Err(CryptoError::InvalidAlphabetChar);
                        },
                    };
                    if !ended {
                        let ghost longer = base64@.take(n + 1);
                        proof {
                            assert forall|i: int| 0 <= i < longer.len() implies char_sextet(
                                #[trigger] longer[i],
                            ) is Some by {
                                if i < n {
                                    assert(longer[i] == read[i]);
                                }
                            }
                        }
                        if phase != 0 {
                            out.push(join(previous, sextet, phase - 1));
                        }
                        proof {
                            assert forall|j: int|
                                0 <= j < read.len() * 3 / 4 implies b64_byte_at(longer, j)
                                == b64_byte_at(read, j) by {
                                assert(longer[4 * (j / 3) + j % 3] == read[4 * (j / 3) + j % 3]);
                                assert(longer[4 * (j / 3) + j % 3 + 1] == read[4 * (j / 3) + j % 3
                                    + 1]);
                            }
                            assert(out@ =~= b64_decoded(longer));
                            end = n + 1;
                        }
                        previous = sextet;
                        phase = if phase == 3 {
                            0
                        } else {
                            phase + 1
                        };
                    }
                }
                proof {
                    n = n + 1;
                }
            },
        }
    }
}

/// Writes a buffer as Base64 text in the standard alphabet, padded with `=`
/// to a multiple of four characters.
pub fn b64_encode(buf: &[u8]) -> (r: String)
    ensures
        r@ == b64_encoded(buf@),
{
    let mut out = String::new();
    let chunks: usize = buf.len() / 3 + if buf.len() % 3 != 0 {
        1
    } else {
        0
    };
    let mut q: usize = 0;
    while q < chunks
        invariant
            chunks == (buf.len() + 2) / 3,
            q <= chunks,
            out@ == b64_encoded(buf@).take(4 * q),
        decreases chunks - q,
    {
        let start: usize = 3 * q;
        let held: usize = buf.len() - start;
        let b0: u8 = buf[start];
        let b1: u8 = if held > 1 {
            buf[start + 1]
        } else {
            0
        };
        let b2: u8 = if held > 2 {
            buf[start + 2]
        } else {
            0
        };
        proof {
            lemma_chunk_round_trip(b0, b1, b2);
        }
        out.push(char_of(b0 >> 2));
        out.push(char_of(((b0 & 3) << 4) | (b1 >> 4)));
        if held > 1 {
            out.push(char_of(((b1 & 15) << 2) | (b2 >> 6)));
        } else {
            out.push('=');
        }
        if held > 2 {
            out.push(char_of(b2 & 63));
        } else {
            out.push('=');
        }
        q += 1;
        assert(out@ =~= b64_encoded(buf@).take(4 * q));
    }
    assert(b64_encoded(buf@).take(4 * q) =~= b64_encoded(buf@));
    out
}

} // verus!
