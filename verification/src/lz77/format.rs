//! The wire format: literals, escaped prefix bytes and back-references,
//! and the base-96 integers that back-references carry.
//!
//! A stream is a sequence of tokens with no header and no end marker:
//!
//! * a literal: any byte but the prefix byte, standing for itself;
//! * an escaped prefix: two prefix bytes, standing for one;
//! * a back-reference: the prefix byte, two digits of distance and one
//!   digit of length less [`MIN_STRING_LENGTH`]. It stands for `length`
//!   bytes of the output so far, the last of them `distance` bytes before
//!   its end.

use crate::lz77::ErrorKind;
use vstd::prelude::*;

verus! {

/// The byte that opens a back-reference, and that escapes itself: `` ` ``.
pub const REFERENCE_PREFIX: u8 = 96u8;

/// The number of digit values of a reference integer.
pub const REFERENCE_INT_BASE: u64 = 96u64;

/// The byte that stands for the digit 0: the space character.
pub const REFERENCE_INT_FLOOR_CODE: u8 = 32u8;

/// The byte that stands for the greatest digit.
pub const REFERENCE_INT_CEIL_CODE: u8 = 127u8;

/// The nominal greatest distance of a back-reference. Two digits could
/// hold it, but [`reference_int_encoding`] accepts only what lies below it.
pub const MAX_STRING_DISTANCE: u64 = 9215u64;

/// The length of the shortest match that is worth a back-reference.
pub const MIN_STRING_LENGTH: usize = 5usize;

/// The nominal greatest length of a match. A match grows only while it is
/// shorter than this and is recorded one byte short of where it stopped,
/// so the longest back-reference copies one byte less.
pub const MAX_STRING_LENGTH: usize = 100usize;

/// The window that stands in for a window length of zero.
pub const DEFAULT_WINDOW_LENGTH: i64 = 144i64;

/// The bytes of a back-reference token.
pub const REFERENCE_TOKEN_LENGTH: usize = 4usize;

/// Whether `code` stands for a digit of a reference integer.
pub open spec fn is_reference_code(code: u8) -> bool {
    REFERENCE_INT_FLOOR_CODE <= code <= REFERENCE_INT_CEIL_CODE
}

/// The number of values that `width` digits can tell apart: 96 to the
/// power `width`.
pub open spec fn reference_int_capacity(width: nat) -> nat
    decreases width,
{
    if width == 0 {
        1
    } else {
        96 * reference_int_capacity((width - 1) as nat)
    }
}

/// The `width` lowest base-96 digits of `value`, most significant first,
/// each as its code.
pub open spec fn reference_digits(value: nat, width: nat) -> Seq<u8>
    decreases width,
{
    if width == 0 {
        Seq::empty()
    } else {
        reference_digits(value / 96, (width - 1) as nat).push((32 + value % 96) as u8)
    }
}

/// The number that the codes in `digits` spell, most significant first.
/// Meaningful where every one of them is a reference code.
pub open spec fn reference_value(digits: Seq<u8>) -> nat
    decreases digits.len(),
{
    if digits.len() == 0 {
        0
    } else {
        (reference_value(digits.drop_last()) * 96 + (digits.last() - 32)) as nat
    }
}

/// What encoding `value` in `width` digits gives. The greatest value that
/// `width` digits could hold is refused along with all that are too large.
pub open spec fn reference_int_encoding(value: nat, width: nat) -> Result<Seq<u8>, ErrorKind> {
    if value >= reference_int_capacity(width) - 1 {
        Err(ErrorKind::ValueOutOfRange)
    } else {
        Ok(reference_digits(value, width))
    }
}

/// What decoding the first `width` bytes of `data` gives.
pub open spec fn reference_int_decoding(data: Seq<u8>, width: nat) -> Result<nat, ErrorKind> {
    if data.len() < width {
        Err(ErrorKind::UnexpectedEnd)
    } else if exists|i: int| 0 <= i < width && !is_reference_code(#[trigger] data[i]) {
        Err(ErrorKind::InvalidCode)
    } else if reference_value(data.take(width as int)) > u64::MAX {
        Err(ErrorKind::ValueOutOfRange)
    } else {
        Ok(reference_value(data.take(width as int)))
    }
}

/// What encoding the length of a match gives: one digit for what it has
/// above [`MIN_STRING_LENGTH`].
pub open spec fn reference_length_encoding(length: nat) -> Result<Seq<u8>, ErrorKind> {
    if length < MIN_STRING_LENGTH {
        Err(ErrorKind::ValueOutOfRange)
    } else {
        reference_int_encoding((length - MIN_STRING_LENGTH) as nat, 1)
    }
}

/// What decoding the length of a match from the first byte of `data` gives.
pub open spec fn reference_length_decoding(data: Seq<u8>) -> Result<nat, ErrorKind> {
    match reference_int_decoding(data, 1) {
        Ok(value) => Ok(value + MIN_STRING_LENGTH as nat),
        Err(kind) => Err(kind),
    }
}

/// One byte of input as it stands in a stream: the prefix byte doubled,
/// any other byte as it is.
pub open spec fn literal(byte: u8) -> Seq<u8> {
    if byte == REFERENCE_PREFIX {
        seq![REFERENCE_PREFIX, REFERENCE_PREFIX]
    } else {
        seq![byte]
    }
}

/// `data` with every prefix byte doubled and every other byte unchanged.
pub open spec fn escaped(data: Seq<u8>) -> Seq<u8>
    decreases data.len(),
{
    if data.len() == 0 {
        Seq::empty()
    } else {
        literal(data.first()) + escaped(data.skip(1))
    }
}

/// The token of a back-reference, where its distance can be encoded.
pub open spec fn reference_token(distance: nat, length: nat) -> Result<Seq<u8>, ErrorKind> {
    match reference_int_encoding(distance, 2) {
        Err(kind) => Err(kind),
        Ok(distance_digits) => match reference_length_encoding(length) {
            Err(kind) => Err(kind),
            Ok(length_digit) => Ok(seq![REFERENCE_PREFIX] + distance_digits + length_digit),
        },
    }
}

/// `head` before what `tail` holds, where `tail` holds anything.
pub open spec fn prepend(head: Seq<u8>, tail: Result<Seq<u8>, ErrorKind>) -> Result<
    Seq<u8>,
    ErrorKind,
> {
    match tail {
        Ok(bytes) => Ok(head + bytes),
        Err(kind) => Err(kind),
    }
}

/// What reading the stream `data` from `pos` on gives, with `out` decoded
/// so far. The first token that cannot be read decides the error.
pub open spec fn decoding_from(data: Seq<u8>, pos: int, out: Seq<u8>) -> Result<Seq<u8>, ErrorKind>
    decreases data.len() - pos,
{
    if pos < 0 || pos >= data.len() {
        Ok(out)
    } else if data[pos] != REFERENCE_PREFIX {
        decoding_from(data, pos + 1, out.push(data[pos]))
    } else if pos + 1 >= data.len() {
        Err(ErrorKind::UnexpectedEnd)
    } else if data[pos + 1] == REFERENCE_PREFIX {
        decoding_from(data, pos + 2, out.push(REFERENCE_PREFIX))
    } else if pos + REFERENCE_TOKEN_LENGTH > data.len() {
        Err(ErrorKind::UnexpectedEnd)
    } else {
        match reference_int_decoding(data.subrange(pos + 1, pos + 3), 2) {
            Err(kind) => Err(kind),
            Ok(distance) => match reference_length_decoding(data.subrange(pos + 3, pos + 4)) {
                Err(kind) => Err(kind),
                Ok(length) => if distance + length > out.len() {
                    Err(ErrorKind::ReferenceOutOfBounds)
                } else {
                    decoding_from(
                        data,
                        pos + REFERENCE_TOKEN_LENGTH,
                        out + copied(out, distance, length),
                    )
                },
            },
        }
    }
}

/// The `length` bytes of `out` that end `distance` bytes before its end.
pub open spec fn copied(out: Seq<u8>, distance: nat, length: nat) -> Seq<u8> {
    out.subrange(out.len() - distance - length, out.len() - distance)
}

/// What decompressing the stream `data` gives.
pub open spec fn decompression(data: Seq<u8>) -> Result<Seq<u8>, ErrorKind> {
    decoding_from(data, 0, Seq::empty())
}

} // verus!
