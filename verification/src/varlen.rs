//! The compact variable-width unsigned integers of the log format.

use vstd::prelude::*;
use crate::error::DecodeError;
use crate::source::{read_fully, ByteSource};

verus! {

/// Whether a variable-width integer that begins with `prefix` is left
/// undecoded: the 64-bit form, the signed forms and the range above `0xE0`.
pub open spec fn is_unsupported_prefix(prefix: u8) -> bool {
    prefix == 0xCF || (0xD0 <= prefix <= 0xD3) || prefix > 0xE0
}

/// What the bytes at the front of `s` decode to: the value and the number of
/// bytes that its encoding occupies, which is 1, 2, 3 or 5.
///
/// The first byte selects the form. `0xCC`, `0xCD` and `0xCE` announce one,
/// two and four bytes of big-endian payload. A byte of an undecoded form is
/// refused. Any other byte is the value.
pub open spec fn uint_decoding(s: Seq<u8>) -> Result<(nat, nat), DecodeError> {
    if s.len() == 0 {
        Err(DecodeError::Truncated)
    } else if s[0] == 0xCC {
        if s.len() < 2 {
            Err(DecodeError::Truncated)
        } else {
            Ok((s[1] as nat, 2))
        }
    } else if s[0] == 0xCD {
        if s.len() < 3 {
            Err(DecodeError::Truncated)
        } else {
            Ok(((s[1] as nat) * 0x100 + s[2] as nat, 3))
        }
    } else if s[0] == 0xCE {
        if s.len() < 5 {
            Err(DecodeError::Truncated)
        } else {
            Ok(
                (
                    (s[1] as nat) * 0x100_0000 + (s[2] as nat) * 0x1_0000 + (s[3] as nat) * 0x100
                        + s[4] as nat,
                    5,
                ),
            )
        }
    } else if is_unsupported_prefix(s[0]) {
        Err(DecodeError::UnsupportedEncoding { prefix: s[0] })
    } else {
        Ok((s[0] as nat, 1))
    }
}

/// Decodes one variable-width integer from the front of `reader` and returns
/// it with the number of bytes that were consumed. A failure leaves nothing
/// in `reader`.
pub fn read_uint(reader: &mut ByteSource) -> (res: Result<(usize, usize), DecodeError>)
    ensures
        match uint_decoding(old(reader)@) {
            Ok((value, width)) => {
                &&& res matches Ok((decoded, consumed))
                &&& decoded == value
                &&& consumed == width
                &&& value <= u32::MAX
                &&& final(reader)@ == old(reader)@.skip(width as int)
            },
            Err(e) => res == Err::<(usize, usize), DecodeError>(e) && final(reader)@
                == Seq::<u8>::empty(),
        },
{
    let mut len = [0u8; 1];
    let mut len1 = [0u8; 1];
    let mut len2 = [0u8; 2];
    let mut len4 = [0u8; 4];
    match read_fully(reader, &mut len) {
        Ok(()) => {},
        Err(e) => {
            return Err(e);
        },
    }
    let prefix: u8 = len[0];
    if prefix == 0xCC {
        match read_fully(reader, &mut len1) {
            Ok(()) => {},
            Err(e) => {
                return Err(e);
            },
        }
        Ok((len1[0] as usize, 2))
    } else if prefix == 0xCD {
        match read_fully(reader, &mut len2) {
            Ok(()) => {},
            Err(e) => {
                return Err(e);
            },
        }
        Ok(((len2[0] as usize) * 0x100 + (len2[1] as usize), 3))
    } else if prefix == 0xCE {
        match read_fully(reader, &mut len4) {
            Ok(()) => {},
            Err(e) => {
                return Err(e);
            },
        }
        Ok(
            (
                (len4[0] as usize) * 0x100_0000 + (len4[1] as usize) * 0x1_0000 + (len4[2] as usize)
                    * 0x100 + (len4[3] as usize),
                5,
            ),
        )
    } else if prefix == 0xCF || (0xD0 <= prefix && prefix <= 0xD3) || prefix > 0xE0 {
        reader.drain();
        Err(DecodeError::UnsupportedEncoding { prefix })
    } else {
        Ok((prefix as usize, 1))
    }
}

/// The shortest encoding of `n` that `uint_decoding` reads back: one byte
/// where the byte itself can stand for the value, else a prefix and one, two
/// or four bytes of big-endian payload. Values of `0xCC` to `0xD3` take the
/// two-byte form, since those bytes are prefixes.
#[verifier::opaque]
pub open spec fn uint_encoding(n: nat) -> Seq<u8>
    recommends
        n <= u32::MAX,
{
    if n <= 0xE0 && !(0xCC <= n <= 0xD3) {
        seq![n as u8]
    } else if n <= 0xFF {
        seq![0xCCu8, n as u8]
    } else if n <= 0xFFFF {
        seq![0xCDu8, (n / 0x100) as u8, (n % 0x100) as u8]
    } else {
        seq![
            0xCEu8,
            (n / 0x100_0000) as u8,
            (n / 0x1_0000 % 0x100) as u8,
            (n / 0x100 % 0x100) as u8,
            (n % 0x100) as u8,
        ]
    }
}

/// The number of bytes in the shortest encoding of `n`.
pub open spec fn uint_width(n: nat) -> nat
    recommends
        n <= u32::MAX,
{
    if n <= 0xE0 && !(0xCC <= n <= 0xD3) {
        1
    } else if n <= 0xFF {
        2
    } else if n <= 0xFFFF {
        3
    } else {
        5
    }
}

/// Encodes `n` in its shortest form.
pub fn encode_uint(n: u32) -> (bytes: Vec<u8>)
    ensures
        bytes@ == uint_encoding(n as nat),
{
    let mut bytes: Vec<u8> = Vec::new();
    if n <= 0xE0 && !(0xCC <= n && n <= 0xD3) {
        bytes.push(n as u8);
    } else if n <= 0xFF {
        bytes.push(0xCC);
        bytes.push(n as u8);
    } else if n <= 0xFFFF {
        bytes.push(0xCD);
        bytes.push((n / 0x100) as u8);
        bytes.push((n % 0x100) as u8);
    } else {
        bytes.push(0xCE);
        bytes.push((n / 0x100_0000) as u8);
        bytes.push((n / 0x1_0000 % 0x100) as u8);
        bytes.push((n / 0x100 % 0x100) as u8);
        bytes.push((n % 0x100) as u8);
    }
    assert(bytes@ =~= uint_encoding(n as nat)) by {
        reveal(uint_encoding);
    }
    bytes
}

/// The four bytes of a 32-bit number, most significant first, add up to
/// the number.
proof fn lemma_big_endian_digits(x: u32)
    ensures
        x / 0x100_0000 < 0x100,
        (x / 0x100_0000) * 0x100_0000 + (x / 0x1_0000 % 0x100) * 0x1_0000 + (x / 0x100 % 0x100)
            * 0x100 + x % 0x100 == x,
        x <= 0xFFFF ==> x / 0x100 < 0x100 && (x / 0x100) * 0x100 + x % 0x100 == x,
{
    assert(x / 0x100_0000 < 0x100) by (bit_vector);
    assert((x / 0x100_0000) * 0x100_0000 + (x / 0x1_0000 % 0x100) * 0x1_0000 + (x / 0x100 % 0x100)
        * 0x100 + x % 0x100 == x) by (bit_vector);
    assert(x <= 0xFFFF ==> x / 0x100 < 0x100 && (x / 0x100) * 0x100 + x % 0x100 == x)
        by (bit_vector);
}

/// Decoding inverts encoding: whatever follows the encoding of `n`, decoding
/// gives back `n` and consumes exactly the bytes of the encoding, of which
/// there are `uint_width(n)`.
pub proof fn lemma_uint_round_trip(n: nat, rest: Seq<u8>)
    requires
        n <= u32::MAX,
    ensures
        uint_encoding(n).len() == uint_width(n),
        uint_decoding(uint_encoding(n) + rest) == Ok::<(nat, nat), DecodeError>((n, uint_width(n))),
{
    reveal(uint_encoding);
    lemma_big_endian_digits(n as u32);
}

/// Every prefix byte of an undecoded form is refused, whatever follows it.
pub proof fn lemma_unsupported_prefix_fails(prefix: u8, rest: Seq<u8>)
    requires
        is_unsupported_prefix(prefix),
    ensures
        uint_decoding(seq![prefix] + rest) == Err::<(nat, nat), DecodeError>(
            DecodeError::UnsupportedEncoding { prefix },
        ),
{
}

/// Decoding looks only at the bytes that it consumes: a sequence that
/// begins with the same bytes decodes alike.
pub proof fn lemma_uint_decoding_local(s: Seq<u8>, t: Seq<u8>)
    requires
        uint_decoding(s) is Ok,
        uint_decoding(s)->Ok_0.1 <= t.len(),
        s.take(uint_decoding(s)->Ok_0.1 as int) == t.take(uint_decoding(s)->Ok_0.1 as int),
    ensures
        uint_decoding(t) == uint_decoding(s),
{
    let width = uint_decoding(s)->Ok_0.1 as int;
    assert forall|i: int| 0 <= i < width implies s[i] == t[i] by {
        assert(s.take(width)[i] == t.take(width)[i]);
    }
}

/// A decoded integer fits in 32 bits, and its encoding is 1 to 5 bytes of
/// the input.
pub proof fn lemma_uint_decoding_bounds(s: Seq<u8>)
    requires
        uint_decoding(s) is Ok,
    ensures
        uint_decoding(s)->Ok_0.0 <= u32::MAX,
        1 <= uint_decoding(s)->Ok_0.1 <= 5,
        uint_decoding(s)->Ok_0.1 <= s.len(),
{
}

/// An encoding that is cut short is reported as truncated.
pub proof fn lemma_uint_decoding_cut(s: Seq<u8>, k: int)
    requires
        uint_decoding(s) is Ok,
        0 <= k < uint_decoding(s)->Ok_0.1,
    ensures
        uint_decoding(s.take(k)) == Err::<(nat, nat), DecodeError>(DecodeError::Truncated),
{
}

} // verus!
