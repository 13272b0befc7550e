//! Reference integers: fixed-width base-96 numbers in printable codes.

use crate::lz77::format::{
    is_reference_code, reference_digits, reference_int_capacity, reference_int_decoding,
    reference_int_encoding, reference_length_decoding, reference_length_encoding, reference_value,
};
use crate::lz77::{Compressor, Error, ErrorKind};
use vstd::prelude::*;

verus! {

/// More digits tell more values apart.
pub proof fn lemma_capacity_grows(narrow: nat, wide: nat)
    requires
        narrow <= wide,
    ensures
        1 <= reference_int_capacity(narrow) <= reference_int_capacity(wide),
    decreases wide,
{
    if narrow < wide {
        lemma_capacity_grows(narrow, (wide - 1) as nat);
    } else if wide > 0 {
        lemma_capacity_grows((narrow - 1) as nat, (wide - 1) as nat);
    }
}

/// Digits are reference codes, as many as were asked for.
pub proof fn lemma_digits_are_codes(value: nat, width: nat)
    ensures
        reference_digits(value, width).len() == width,
        forall|i: int| 0 <= i < width ==> is_reference_code(#[trigger] reference_digits(value, width)[i]),
    decreases width,
{
    if width > 0 {
        lemma_digits_are_codes(value / 96, (width - 1) as nat);
    }
}

/// Reading back the digits of a value that fits them gives the value.
pub proof fn lemma_digits_spell_value(value: nat, width: nat)
    requires
        value < reference_int_capacity(width),
    ensures
        reference_value(reference_digits(value, width)) == value,
    decreases width,
{
    if width > 0 {
        let high = reference_digits(value / 96, (width - 1) as nat);
        lemma_digits_spell_value(value / 96, (width - 1) as nat);
        assert(reference_digits(value, width).drop_last() =~= high);
    }
}

/// A reference integer that can be encoded decodes to itself.
pub proof fn lemma_reference_int_round_trip(value: nat, width: nat)
    requires
        reference_int_encoding(value, width) is Ok,
        value <= u64::MAX,
    ensures
        reference_int_decoding(reference_int_encoding(value, width)->Ok_0, width) == Ok::<
            nat,
            ErrorKind,
        >(value),
{
    let digits = reference_digits(value, width);
    lemma_digits_are_codes(value, width);
    lemma_digits_spell_value(value, width);
    assert(digits.take(width as int) =~= digits);
}

impl Compressor {
    /// Writes `value` as `width` base-96 digits, most significant first,
    /// each digit as the printable code that stands for it.
    ///
    /// Fails with [`ErrorKind::ValueOutOfRange`] exactly when `value` is
    /// not below the greatest number that `width` digits could hold.
    pub fn encode_reference_int(&self, value: u64, width: usize) -> (r: Result<Vec<u8>, Error>)
        ensures
            match r {
                Ok(digits) => reference_int_encoding(value as nat, width as nat) == Ok::<
                    Seq<u8>,
                    ErrorKind,
                >(digits@),
                Err(e) => reference_int_encoding(value as nat, width as nat) == Err::<
                    Seq<u8>,
                    ErrorKind,
                >(e.kind_of()),
            },
    {
        proof {
            use_type_invariant(self);
        }
        let base: u128 = self.reference_int_base as u128;
        let ceiling: u128 = u64::MAX as u128 + 1;
        let mut capacity: u128 = 1;
        let mut counted: usize = 0;
        while counted < width && capacity <= ceiling
            invariant
                counted <= width,
                base == 96,
                ceiling == u64::MAX + 1,
                capacity == reference_int_capacity(counted as nat),
                capacity <= 96 * ceiling,
            decreases width - counted,
        {
            capacity = capacity * base;
            counted = counted + 1;
        }
        proof {
            lemma_capacity_grows(counted as nat, width as nat);
        }
        if value as u128 >= capacity - 1 {
            return Err(Error::new(ErrorKind::ValueOutOfRange));
        }
        let mut out: Vec<u8> = Vec::new();
        let mut rest: u64 = value;
        while rest > 0
            invariant
                self.holds_format_constants(),
                out@.len() <= width,
                rest < reference_int_capacity((width - out@.len()) as nat),
                reference_digits(value as nat, width as nat) == reference_digits(
                    rest as nat,
                    (width - out@.len()) as nat,
                ) + out@,
            decreases rest,
        {
            let digit: u8 = (rest % self.reference_int_base) as u8 + self.reference_int_floor_code;
            proof {
                let left = (width - out@.len()) as nat;
                assert(left > 0);
                let high = reference_digits((rest / 96) as nat, (left - 1) as nat);
                assert(reference_digits(rest as nat, left) == high.push(digit));
                assert(high.push(digit) + out@ =~= high + out@.insert(0, digit));
            }
            out.insert(0, digit);
            rest = rest / self.reference_int_base;
        }
        while out.len() < width
            invariant
                self.holds_format_constants(),
                out@.len() <= width,
                reference_digits(value as nat, width as nat) == reference_digits(
                    0,
                    (width - out@.len()) as nat,
                ) + out@,
            decreases width - out@.len(),
        {
            proof {
                let left = (width - out@.len()) as nat;
                let high = reference_digits(0, (left - 1) as nat);
                assert(reference_digits(0, left) == high.push(32u8));
                assert(high.push(32u8) + out@ =~= high + out@.insert(0, 32u8));
            }
            out.insert(0, self.reference_int_floor_code);
        }
        assert(reference_digits(0, 0) + out@ =~= out@);
        Ok(out)
    }

    /// Writes the length of a match as one digit: what it has above the
    /// shortest match.
    ///
    /// Fails with [`ErrorKind::ValueOutOfRange`] exactly when `length` is
    /// below 5 or above 99.
    pub fn encode_reference_length(&self, length: u64) -> (r: Result<Vec<u8>, Error>)
        ensures
            match r {
                Ok(digits) => reference_length_encoding(length as nat) == Ok::<Seq<u8>, ErrorKind>(
                    digits@,
                ),
                Err(e) => reference_length_encoding(length as nat) == Err::<Seq<u8>, ErrorKind>(
                    e.kind_of(),
                ),
            },
    {
        proof {
            use_type_invariant(self);
        }
        if length < self.min_string_length as u64 {
            return Err(Error::new(ErrorKind::ValueOutOfRange));
        }
        self.encode_reference_int(length - self.min_string_length as u64, 1)
    }

    /// Reads the first `width` bytes of `data` as a base-96 number, most
    /// significant digit first.
    ///
    /// Fails with [`ErrorKind::UnexpectedEnd`] where `data` is shorter
    /// than `width`; else with [`ErrorKind::InvalidCode`] where one of the
    /// bytes is not a printable code; else with
    /// [`ErrorKind::ValueOutOfRange`] where the number is too large for
    /// the result.
    pub fn decode_reference_int(&self, data: &[u8], width: usize) -> (r: Result<u64, Error>)
        ensures
            match r {
                Ok(value) => reference_int_decoding(data@, width as nat) == Ok::<nat, ErrorKind>(
                    value as nat,
                ),
                Err(e) => reference_int_decoding(data@, width as nat) == Err::<nat, ErrorKind>(
                    e.kind_of(),
                ),
            },
    {
        proof {
            use_type_invariant(self);
        }
        if data.len() < width {
            return Err(Error::new(ErrorKind::UnexpectedEnd));
        }
        let base: u128 = self.reference_int_base as u128;
        let ceiling: u128 = u64::MAX as u128;
        let mut value: u128 = 0;
        let mut too_large: bool = false;
        let mut i: usize = 0;
        while i < width
            invariant
                self.holds_format_constants(),
                i <= width <= data@.len(),
                base == 96,
                ceiling == u64::MAX,
                forall|j: int| 0 <= j < i ==> is_reference_code(#[trigger] data@[j]),
                !too_large ==> value == reference_value(data@.take(i as int)) && value <= ceiling,
                too_large ==> reference_value(data@.take(i as int)) > ceiling,
            decreases width - i,
        {
            let code: u8 = data[i];
            if code < self.reference_int_floor_code || code > self.reference_int_ceil_code {
                return Err(Error::new(ErrorKind::InvalidCode));
            }
            proof {
                assert(data@.take(i + 1).drop_last() =~= data@.take(i as int));
            }
            if !too_large {
                value = value * base + (code - self.reference_int_floor_code) as u128;
                if value > ceiling {
                    too_large = true;
                }
            }
            i = i + 1;
        }
        if too_large {
            Err(Error::new(ErrorKind::ValueOutOfRange))
        } else {
            Ok(value as u64)
        }
    }

    /// Reads the length of a match from the first byte of `data`: the
    /// digit it stands for and the length of the shortest match.
    ///
    /// Fails with [`ErrorKind::UnexpectedEnd`] where `data` is empty, and
    /// with [`ErrorKind::InvalidCode`] where the byte is not a printable
    /// code.
    pub fn decode_reference_length(&self, data: &[u8]) -> (r: Result<u64, Error>)
        ensures
            match r {
                Ok(length) => reference_length_decoding(data@) == Ok::<nat, ErrorKind>(
                    length as nat,
                ),
                Err(e) => reference_length_decoding(data@) == Err::<nat, ErrorKind>(e.kind_of()),
            },
    {
        proof {
            use_type_invariant(self);
        }
        match self.decode_reference_int(data, 1) {
            Ok(value) => {
                proof {
                    lemma_one_digit_is_small(data@);
                }
                Ok(value + self.min_string_length as u64)
            },
            Err(e) => Err(e),
        }
    }
}

/// One digit spells a number below 96.
pub proof fn lemma_one_digit_is_small(data: Seq<u8>)
    requires
        data.len() >= 1,
        is_reference_code(data[0]),
    ensures
        reference_value(data.take(1)) == data[0] - 32,
{
    let one = data.take(1);
    assert(one.drop_last().len() == 0);
    assert(reference_value(one.drop_last()) == 0);
    assert(one.last() == data[0]);
}

} // verus!
