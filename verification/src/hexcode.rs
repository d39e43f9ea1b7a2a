//! Hexadecimal encoding and decoding of 16-byte hashes, through the `hex`
//! crate, with what its source shows of both calls.

use vstd::prelude::*;

verus! {

/// The lowercase hex digit for `d < 16` (`hex`'s `HEX_CHARS_LOWER`).
pub open spec fn hex_digit(d: int) -> char {
    if d < 10 {
        ((d + 48) as u32) as char
    } else {
        ((d + 87) as u32) as char
    }
}

/// `hex::encode`: each byte becomes two lowercase hex digits, high nibble first.
pub open spec fn hex_lower(bytes: Seq<u8>) -> Seq<char> {
    Seq::new(
        2 * bytes.len(),
        |i: int|
            if i % 2 == 0 {
                hex_digit((bytes[i / 2] / 16) as int)
            } else {
                hex_digit((bytes[i / 2] % 16) as int)
            },
    )
}

/// The value of one hex digit byte, either case (`hex`'s private `val`).
pub open spec fn hex_value(b: u8) -> Option<int> {
    if 48 <= b <= 57 {
        Some(b - 48)
    } else if 97 <= b <= 102 {
        Some(b - 87)
    } else if 65 <= b <= 70 {
        Some(b - 55)
    } else {
        None
    }
}

/// Why a hex string did not decode (the variants of `hex::FromHexError`).
#[derive(Clone, Copy, Debug, PartialEq, Eq, Structural)]
pub enum HexError {
    /// A byte that is no hex digit, as a character, and its position.
    InvalidHexCharacter { c: char, index: usize },
    /// The string has an odd number of bytes.
    OddLength,
    /// The string does not have twice as many bytes as the output.
    InvalidStringLength,
}

/// The first position in `data` that holds no hex digit, if any (when
/// some position holds none, a first one exists).
pub open spec fn first_non_hex(data: Seq<u8>) -> Option<int> {
    if exists|j: int|
        0 <= j < data.len() && hex_value(data[j]) is None && forall|k: int|
            0 <= k < j ==> hex_value(data[k]) is Some {
        Some(
            choose|j: int|
                0 <= j < data.len() && hex_value(data[j]) is None && forall|k: int|
                    0 <= k < j ==> hex_value(data[k]) is Some,
        )
    } else {
        None
    }
}

/// What `hex::decode_to_slice` gives for `data` and a 16-byte output:
/// the length checks first, then the first byte that is no hex digit,
/// else every pair of digits as one byte.
pub open spec fn hex_decode16(data: Seq<u8>) -> Result<Seq<u8>, HexError> {
    if data.len() % 2 != 0 {
        Err(HexError::OddLength)
    } else if data.len() / 2 != 16 {
        Err(HexError::InvalidStringLength)
    } else {
        match first_non_hex(data) {
            Some(j) => Err(
                HexError::InvalidHexCharacter { c: (data[j] as u32) as char, index: j as usize },
            ),
            None => Ok(
                Seq::new(
                    16,
                    |i: int|
                        (hex_value(data[2 * i])->0 * 16 + hex_value(data[2 * i + 1])->0) as u8,
                ),
            ),
        }
    }
}

/// `hex::encode` on a 16-byte hash. Trusted: the result is the 32 lowercase
/// hex digits of the bytes, high nibble first (`BytesToHexChars` with
/// `HEX_CHARS_LOWER`).
#[verifier::external_body]
pub(crate) fn hex_encode16(data: &[u8; 16]) -> (res: String)
    ensures
        res@ == hex_lower(data@),
{
    hex::encode(data)
}

/// `hex::decode_to_slice` into a 16-byte buffer. Trusted: `Ok` with the
/// decoded bytes, or the error that its checks, taken in order, give first
/// (odd length, wrong length, then the first non-digit byte and its index).
/// On an error the buffer is dropped, so what the call left in it is not
/// stated.
#[verifier::external_body]
pub(crate) fn hex_decode_to_16(data: &[u8]) -> (res: Result<[u8; 16], HexError>)
    ensures
        match res {
            Ok(out) => hex_decode16(data@) == Ok::<Seq<u8>, HexError>(out@),
            Err(e) => hex_decode16(data@) == Err::<Seq<u8>, HexError>(e),
        },
{
    let mut out = [0u8; 16];
    match hex::decode_to_slice(data, &mut out) {
        Ok(()) => Ok(out),
        Err(hex::FromHexError::InvalidHexCharacter { c, index }) => Err(
            HexError::InvalidHexCharacter { c, index },
        ),
        Err(hex::FromHexError::OddLength) => Err(HexError::OddLength),
        Err(hex::FromHexError::InvalidStringLength) => Err(HexError::InvalidStringLength),
    }
}

/// Decoding what `hex_lower` wrote gives back the bytes.
pub proof fn lemma_hex_roundtrip(bytes: Seq<u8>)
    requires
        bytes.len() == 16,
    ensures
        vstd::utf8::is_ascii_chars(hex_lower(bytes)),
        hex_decode16(vstd::utf8::encode_utf8(hex_lower(bytes))) == Ok::<Seq<u8>, HexError>(bytes),
{
    let s = hex_lower(bytes);
    assert forall|i: int| 0 <= i < s.len() implies '\0' <= #[trigger] s[i] <= '\u{7f}' by {
        let b = bytes[i / 2];
        if i % 2 == 0 {
            assert(0 <= b / 16 < 16);
        } else {
            assert(0 <= b % 16 < 16);
        }
    }
    vstd::utf8::is_ascii_chars_encode_utf8(s);
    let data = vstd::utf8::encode_utf8(s);
    assert forall|j: int| 0 <= j < data.len() implies hex_value(data[j]) is Some && hex_value(
        data[j],
    )->0 == (if j % 2 == 0 {
        bytes[j / 2] / 16
    } else {
        bytes[j / 2] % 16
    }) by {
        assert(data[j] == s[j] as u8);
        let b = bytes[j / 2];
        let d = if j % 2 == 0 {
            b / 16
        } else {
            b % 16
        };
        assert(0 <= d < 16);
        assert(s[j] == hex_digit(d as int));
    }
    assert(first_non_hex(data) is None);
    match hex_decode16(data) {
        Ok(out) => {
            assert forall|i: int| 0 <= i < 16 implies out[i] == bytes[i] by {
                assert((2 * i) / 2 == i);
                assert((2 * i + 1) / 2 == i);
                assert((2 * i) % 2 == 0);
                assert((2 * i + 1) % 2 == 1);
                let b = bytes[i];
                assert(b == (b / 16) * 16 + b % 16);
            }
            assert(out =~= bytes);
        },
        Err(_) => {},
    }
}

} // verus!
