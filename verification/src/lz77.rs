//! A textual LZ77 coder.

use vstd::prelude::*;

pub mod codec;
pub mod format;
pub mod laws;
pub mod search;

use crate::lz77::format::{
    copied, decoding_from, decompression, escaped, literal, prepend, reference_token,
    DEFAULT_WINDOW_LENGTH, MAX_STRING_DISTANCE, MAX_STRING_LENGTH, MIN_STRING_LENGTH,
    REFERENCE_INT_BASE, REFERENCE_INT_CEIL_CODE, REFERENCE_INT_FLOOR_CODE, REFERENCE_PREFIX,
};
use crate::lz77::laws::{
    lemma_compression_succeeds, lemma_prepend_twice, lemma_short_input_is_escaped,
    MAX_ENCODABLE_WINDOW_LENGTH,
};
use crate::lz77::search::{best_match, effective_window, lemma_best_match_is_earlier_copy};

verus! {

/// The ways in which coding and decoding fail.
#[derive(Clone, Copy, Debug, PartialEq, Eq, Structural)]
pub enum ErrorKind {
    /// An integer does not fit the digits it was to be written in, or the
    /// digits read spell a number too large to hold.
    ValueOutOfRange,
    /// A byte read as a digit of a reference integer is not one.
    InvalidCode,
    /// The input ends inside an escape or a back-reference.
    UnexpectedEnd,
    /// A back-reference reaches before the start of the output.
    ReferenceOutOfBounds,
}

impl ErrorKind {
    /// The text that [`ErrorKind::as_str`] returns.
    pub open spec fn description(&self) -> Seq<char> {
        match *self {
            ErrorKind::ValueOutOfRange => "reference value out of range"@,
            ErrorKind::InvalidCode => "invalid character code"@,
            ErrorKind::UnexpectedEnd => "unexpected end of input"@,
            ErrorKind::ReferenceOutOfBounds => "reference before start of output"@,
        }
    }

    /// A short description of the kind.
    pub fn as_str(&self) -> (s: &'static str)
        ensures
            s@ == self.description(),
    {
        match *self {
            ErrorKind::ValueOutOfRange => "reference value out of range",
            ErrorKind::InvalidCode => "invalid character code",
            ErrorKind::UnexpectedEnd => "unexpected end of input",
            ErrorKind::ReferenceOutOfBounds => "reference before start of output",
        }
    }
}

/// A failure to code or decode.
#[derive(Debug)]
pub struct Error {
    kind: ErrorKind,
}

impl Error {
    /// What went wrong.
    pub closed spec fn kind_of(&self) -> ErrorKind {
        self.kind
    }

    /// What went wrong.
    pub fn kind(&self) -> (k: ErrorKind)
        ensures
            k == self.kind_of(),
    {
        self.kind
    }

    /// The description of the error's kind.
    pub fn message(&self) -> (s: &'static str)
        ensures
            s@ == self.kind_of().description(),
    {
        self.kind.as_str()
    }

    pub(crate) fn new(kind: ErrorKind) -> (e: Error)
        ensures
            e.kind_of() == kind,
    {
        Error { kind }
    }
}

/// What a call returned, over the bytes it gave or the kind of its failure.
pub open spec fn outcome(r: Result<Vec<u8>, Error>) -> Result<Seq<u8>, ErrorKind> {
    match r {
        Ok(bytes) => Ok(bytes@),
        Err(e) => Err(e.kind_of()),
    }
}

/// The back-reference that stands for the text at `pos`, as distance and
/// length: the best match, where at least [`MIN_STRING_LENGTH`] bytes
/// follow the one at `pos`. Nearer the end no match is looked for.
pub open spec fn reference_at(data: Seq<u8>, window_length: int, pos: int) -> Option<(nat, nat)> {
    if 0 <= pos && pos + MIN_STRING_LENGTH < data.len() {
        best_match(data, pos, window_length)
    } else {
        None
    }
}

/// What compressing `data` from `pos` on gives: at each position the
/// token of the back-reference found there, which also covers the bytes
/// it copies, or else the byte as a literal. The first back-reference
/// whose distance cannot be encoded decides the error.
pub open spec fn compression_from(data: Seq<u8>, window_length: int, pos: int) -> Result<
    Seq<u8>,
    ErrorKind,
>
    decreases data.len() - pos,
    via compression_from_advances
{
    if pos < 0 || pos >= data.len() {
        Ok(Seq::empty())
    } else {
        match reference_at(data, window_length, pos) {
            Some((distance, length)) => match reference_token(distance, length) {
                Err(kind) => Err(kind),
                Ok(token) => prepend(token, compression_from(data, window_length, pos + length)),
            },
            None => prepend(literal(data[pos]), compression_from(data, window_length, pos + 1)),
        }
    }
}

#[via_fn]
proof fn compression_from_advances(data: Seq<u8>, window_length: int, pos: int) {
    lemma_best_match_is_earlier_copy(data, pos, window_length);
}

/// What compressing `data` with a window of `window_length` gives.
pub open spec fn compression(data: Seq<u8>, window_length: int) -> Result<Seq<u8>, ErrorKind> {
    compression_from(data, window_length, 0)
}

/// The constants that a coder holds.
pub struct Constants {
    /// The byte that opens a back-reference and escapes itself.
    pub reference_prefix: u8,
    /// The number of digit values of a reference integer.
    pub reference_int_base: u64,
    /// The code of the digit 0.
    pub reference_int_floor_code: u8,
    /// The code of the greatest digit.
    pub reference_int_ceil_code: u8,
    /// The nominal greatest distance of a back-reference.
    pub max_string_distance: u64,
    /// The length of the shortest match that becomes a back-reference.
    pub min_string_length: usize,
    /// The nominal greatest length of a match.
    pub max_string_length: usize,
    /// The window that stands in for a window length of zero.
    pub default_window_length: i64,
}

/// The constants of the printable-ASCII reference encoding.
pub open spec fn format_constants() -> Constants {
    Constants {
        reference_prefix: REFERENCE_PREFIX,
        reference_int_base: REFERENCE_INT_BASE,
        reference_int_floor_code: REFERENCE_INT_FLOOR_CODE,
        reference_int_ceil_code: REFERENCE_INT_CEIL_CODE,
        max_string_distance: MAX_STRING_DISTANCE,
        min_string_length: MIN_STRING_LENGTH,
        max_string_length: MAX_STRING_LENGTH,
        default_window_length: DEFAULT_WINDOW_LENGTH,
    }
}

/// The coder: the constants of the format, derived once. It has no other
/// state, and every coder holds the same constants.
pub struct Compressor {
    reference_prefix: u8,
    reference_int_base: u64,
    reference_int_floor_code: u8,
    reference_int_ceil_code: u8,
    max_string_distance: u64,
    min_string_length: usize,
    max_string_length: usize,
    default_window_length: i64,
}

impl View for Compressor {
    type V = Constants;

    closed spec fn view(&self) -> Constants {
        Constants {
            reference_prefix: self.reference_prefix,
            reference_int_base: self.reference_int_base,
            reference_int_floor_code: self.reference_int_floor_code,
            reference_int_ceil_code: self.reference_int_ceil_code,
            max_string_distance: self.max_string_distance,
            min_string_length: self.min_string_length,
            max_string_length: self.max_string_length,
            default_window_length: self.default_window_length,
        }
    }
}

impl Compressor {
    #[verifier::type_invariant]
    spec fn holds_format_constants(&self) -> bool {
        self@ == format_constants()
    }

    /// A coder for the printable-ASCII reference encoding.
    pub fn new() -> (c: Compressor)
        ensures
            c@ == format_constants(),
    {
        let reference_prefix: u8 = '`' as u8;
        let reference_int_base: u64 = 96;
        let reference_int_floor_code: u8 = ' ' as u8;
        let reference_int_ceil_code: u8 = (reference_int_floor_code as u64 + reference_int_base
            - 1) as u8;
        let max_string_distance: u64 = reference_int_base * reference_int_base - 1;
        let min_string_length: usize = 5;
        let max_string_length: usize = (reference_int_base - 1) as usize + min_string_length;
        let default_window_length: i64 = 144;
        Compressor {
            reference_prefix,
            reference_int_base,
            reference_int_floor_code,
            reference_int_ceil_code,
            max_string_distance,
            min_string_length,
            max_string_length,
            default_window_length,
        }
    }

    /// Compresses `data`, looking for repeats no further back than
    /// `window_length` bytes, or than [`DEFAULT_WINDOW_LENGTH`] where that
    /// is zero.
    ///
    /// Fails, with [`ErrorKind::ValueOutOfRange`], exactly when a
    /// back-reference is found whose distance two digits do not hold. A
    /// window of at most [`MAX_ENCODABLE_WINDOW_LENGTH`] bytes holds no
    /// such back-reference.
    pub fn compress(&self, data: &[u8], window_length: i64) -> (r: Result<Vec<u8>, Error>)
        ensures
            outcome(r) == compression(data@, window_length as int),
            effective_window(window_length as int) <= MAX_ENCODABLE_WINDOW_LENGTH ==> r is Ok,
            r matches Err(e) ==> e.kind_of() == ErrorKind::ValueOutOfRange,
            data@.len() <= MIN_STRING_LENGTH ==> outcome(r) == Ok::<Seq<u8>, ErrorKind>(
                escaped(data@),
            ),
    {
        proof {
            use_type_invariant(self);
        }
        let end: usize = data.len();
        let mut out: Vec<u8> = Vec::new();
        let mut pos: usize = 0;
        assert(Seq::<u8>::empty() + compression(data@, window_length as int)->Ok_0
            =~= compression(data@, window_length as int)->Ok_0);
        while end > self.min_string_length && pos < end - self.min_string_length
            invariant
                self.holds_format_constants(),
                end == data@.len(),
                pos <= end,
                compression(data@, window_length as int) == prepend(
                    out@,
                    compression_from(data@, window_length as int, pos as int),
                ),
            decreases end - pos,
        {
            let ghost before = out@;
            match self.longest_match(data, pos, window_length) {
                Some((distance, length)) => {
                    proof {
                        lemma_best_match_is_earlier_copy(data@, pos as int, window_length as int);
                    }
                    let distance_digits = match self.encode_reference_int(distance as u64, 2) {
                        Ok(digits) => digits,
                        Err(e) => {
                            proof {
                                lemma_compression_succeeds(data@, window_length as int);
                            }
                            return Err(e);
                        },
                    };
                    let length_digit = match self.encode_reference_length(length as u64) {
                        Ok(digits) => digits,
                        Err(e) => {
                            proof {
                                lemma_compression_succeeds(data@, window_length as int);
                            }
                            return Err(e);
                        },
                    };
                    out.push(self.reference_prefix);
                    out.extend_from_slice(distance_digits.as_slice());
                    out.extend_from_slice(length_digit.as_slice());
                    proof {
                        let token = reference_token(distance as nat, length as nat)->Ok_0;
                        assert(out@ =~= before + token);
                        lemma_prepend_twice(
                            before,
                            token,
                            compression_from(data@, window_length as int, pos + length),
                        );
                    }
                    pos = pos + length;
                },
                None => {
                    let byte: u8 = data[pos];
                    if byte != self.reference_prefix {
                        out.push(byte);
                    } else {
                        out.push(self.reference_prefix);
                        out.push(self.reference_prefix);
                    }
                    proof {
                        assert(out@ =~= before + literal(byte));
                        lemma_prepend_twice(
                            before,
                            literal(byte),
                            compression_from(data@, window_length as int, pos + 1),
                        );
                    }
                    pos = pos + 1;
                },
            }
        }
        while pos < end
            invariant
                self.holds_format_constants(),
                end == data@.len(),
                pos <= end,
                pos + MIN_STRING_LENGTH >= end,
                compression(data@, window_length as int) == prepend(
                    out@,
                    compression_from(data@, window_length as int, pos as int),
                ),
            decreases end - pos,
        {
            let ghost before = out@;
            let byte: u8 = data[pos];
            if byte == self.reference_prefix {
                out.push(byte);
            }
            out.push(byte);
            proof {
                assert(out@ =~= before + literal(byte));
                lemma_prepend_twice(
                    before,
                    literal(byte),
                    compression_from(data@, window_length as int, pos + 1),
                );
            }
            pos = pos + 1;
        }
        proof {
            assert(out@ + Seq::<u8>::empty() =~= out@);
            if end <= MIN_STRING_LENGTH {
                lemma_short_input_is_escaped(data@, window_length as int);
            }
        }
        Ok(out)
    }

    /// Decompresses the stream `data`: literals stand for themselves, two
    /// prefix bytes for one, and a back-reference for a copy of output
    /// that is already there.
    ///
    /// Fails at the first token that cannot be read: with
    /// [`ErrorKind::UnexpectedEnd`] where the stream ends inside it, with
    /// [`ErrorKind::InvalidCode`] where a digit of a back-reference is no
    /// printable code, and with [`ErrorKind::ReferenceOutOfBounds`] where
    /// a back-reference asks for bytes before the start of the output.
    pub fn decompress(&self, data: &[u8]) -> (r: Result<Vec<u8>, Error>)
        ensures
            outcome(r) == decompression(data@),
    {
        proof {
            use_type_invariant(self);
        }
        let end: usize = data.len();
        let mut out: Vec<u8> = Vec::new();
        let mut pos: usize = 0;
        while pos < end
            invariant
                self.holds_format_constants(),
                end == data@.len(),
                pos <= end,
                decompression(data@) == decoding_from(data@, pos as int, out@),
            decreases end - pos,
        {
            let current: u8 = data[pos];
            if current != self.reference_prefix {
                out.push(current);
                pos = pos + 1;
            } else {
                if end - pos < 2 {
                    return Err(Error::new(ErrorKind::UnexpectedEnd));
                }
                let next: u8 = data[pos + 1];
                if next != self.reference_prefix {
                    if end - pos < self.min_string_length - 1 {
                        return Err(Error::new(ErrorKind::UnexpectedEnd));
                    }
                    let distance = match self.decode_reference_int(&data[pos + 1..pos + 3], 2) {
                        Ok(value) => value,
                        Err(e) => {
                            return Err(e);
                        },
                    };
                    let length = match self.decode_reference_length(&data[pos + 3..pos + 4]) {
                        Ok(value) => value,
                        Err(e) => {
                            return Err(e);
                        },
                    };
                    let have: u64 = out.len() as u64;
                    if distance > have || length > have - distance {
                        return Err(Error::new(ErrorKind::ReferenceOutOfBounds));
                    }
                    let start: usize = out.len() - distance as usize - length as usize;
                    let stop: usize = start + length as usize;
                    let ghost before = out@;
                    let mut i: usize = start;
                    while i < stop
                        invariant
                            start <= i <= stop <= before.len(),
                            out@ == before + before.subrange(start as int, i as int),
                        decreases stop - i,
                    {
                        let byte: u8 = out[i];
                        out.push(byte);
                        i = i + 1;
                    }
                    assert(out@ == before + copied(before, distance as nat, length as nat));
                    pos = pos + (self.min_string_length - 1);
                } else {
                    out.push(self.reference_prefix);
                    pos = pos + 2;
                }
            }
        }
        Ok(out)
    }
}

} // verus!
