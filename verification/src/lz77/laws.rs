//! What holds of compressing and decompressing together.

use crate::lz77::codec::{lemma_digits_are_codes, lemma_reference_int_round_trip};
use crate::lz77::format::{
    copied, decoding_from, decompression, escaped, literal, prepend, reference_digits,
    reference_int_capacity, reference_token, MIN_STRING_LENGTH, REFERENCE_PREFIX,
};
use crate::lz77::search::{
    best_match, effective_window, is_earlier_copy, lemma_best_match_is_earlier_copy,
    lemma_common_prefix_agrees, lemma_scan_keeps_copies, match_reach, scan_from, search_start,
};
use crate::lz77::{compression, compression_from, reference_at, ErrorKind};
use vstd::prelude::*;

verus! {

/// The widest window with which no back-reference can be taken for an
/// escaped prefix byte. A window of this length gives distances below
/// 6144, the least distance whose first digit is the prefix byte.
pub const MAX_PLAIN_WINDOW_LENGTH: i64 = 6148i64;

/// The widest window with which every back-reference can be encoded: it
/// gives distances below 9215, the least that two digits do not take.
pub const MAX_ENCODABLE_WINDOW_LENGTH: i64 = 9219i64;

/// Whether the distance of a back-reference starts with a digit that is
/// not the prefix byte, so that a decoder reads the token as a
/// back-reference and not as an escaped prefix byte.
pub open spec fn reads_as_reference(distance: nat) -> bool {
    reference_digits(distance, 2).first() != REFERENCE_PREFIX
}

/// Whether every back-reference that compressing `data` from `pos` on
/// emits reads as one.
pub open spec fn references_read_back_from(data: Seq<u8>, window_length: int, pos: int) -> bool
    decreases data.len() - pos,
    via references_read_back_from_advances
{
    if pos < 0 || pos >= data.len() {
        true
    } else {
        match reference_at(data, window_length, pos) {
            Some((distance, length)) => reads_as_reference(distance) && references_read_back_from(
                data,
                window_length,
                pos + length,
            ),
            None => references_read_back_from(data, window_length, pos + 1),
        }
    }
}

#[via_fn]
proof fn references_read_back_from_advances(data: Seq<u8>, window_length: int, pos: int) {
    lemma_best_match_is_earlier_copy(data, pos, window_length);
}

/// Whether every back-reference that compressing `data` emits reads as
/// one.
pub open spec fn references_read_back(data: Seq<u8>, window_length: int) -> bool {
    references_read_back_from(data, window_length, 0)
}

/// Bytes put before bytes put before a result are their concatenation
/// put before it.
pub proof fn lemma_prepend_twice(first: Seq<u8>, second: Seq<u8>, tail: Result<Seq<u8>, ErrorKind>)
    ensures
        prepend(first, prepend(second, tail)) == prepend(first + second, tail),
{
    if let Ok(bytes) = tail {
        assert(first + (second + bytes) =~= (first + second) + bytes);
    }
}

/// Within [`MIN_STRING_LENGTH`] bytes of the end, compressing is
/// escaping: no match is looked for there.
pub proof fn lemma_tail_is_escaped(data: Seq<u8>, window_length: int, pos: int)
    requires
        0 <= pos <= data.len(),
        pos + MIN_STRING_LENGTH >= data.len(),
    ensures
        compression_from(data, window_length, pos) == Ok::<Seq<u8>, ErrorKind>(
            escaped(data.skip(pos)),
        ),
    decreases data.len() - pos,
{
    if pos < data.len() {
        lemma_tail_is_escaped(data, window_length, pos + 1);
        assert(data.skip(pos).skip(1) =~= data.skip(pos + 1));
    }
}

/// An input of at most [`MIN_STRING_LENGTH`] bytes compresses to itself
/// with every prefix byte doubled, whatever the window.
pub proof fn lemma_short_input_is_escaped(data: Seq<u8>, window_length: int)
    requires
        data.len() <= MIN_STRING_LENGTH,
    ensures
        compression(data, window_length) == Ok::<Seq<u8>, ErrorKind>(escaped(data)),
{
    lemma_tail_is_escaped(data, window_length, 0);
    assert(data.skip(0) =~= data);
}

/// Compressing fails in one way only, and never with a window of at most
/// [`MAX_ENCODABLE_WINDOW_LENGTH`] bytes.
pub proof fn lemma_compression_succeeds(data: Seq<u8>, window_length: int)
    ensures
        compression(data, window_length) matches Err(kind) ==> kind == ErrorKind::ValueOutOfRange,
        effective_window(window_length) <= MAX_ENCODABLE_WINDOW_LENGTH ==> compression(
            data,
            window_length,
        ) is Ok,
{
    lemma_compression_succeeds_from(data, window_length, 0);
}

proof fn lemma_compression_succeeds_from(data: Seq<u8>, window_length: int, pos: int)
    requires
        0 <= pos <= data.len(),
    ensures
        compression_from(data, window_length, pos) matches Err(kind) ==> kind
            == ErrorKind::ValueOutOfRange,
        effective_window(window_length) <= MAX_ENCODABLE_WINDOW_LENGTH ==> compression_from(
            data,
            window_length,
            pos,
        ) is Ok,
    decreases data.len() - pos,
{
    if pos < data.len() {
        match reference_at(data, window_length, pos) {
            Some((distance, length)) => {
                lemma_best_match_is_earlier_copy(data, pos, window_length);
                reveal_with_fuel(reference_int_capacity, 3);
                lemma_compression_succeeds_from(data, window_length, pos + length);
            },
            None => {
                lemma_compression_succeeds_from(data, window_length, pos + 1);
            },
        }
    }
}

/// The first digit of a distance that two digits hold is the prefix byte
/// exactly for the distances from 6144 to 6239.
pub proof fn lemma_reads_as_reference(distance: nat)
    requires
        distance < 96 * 96,
    ensures
        reads_as_reference(distance) <==> !(6144 <= distance < 6240),
{
    reveal_with_fuel(reference_digits, 3);
}

/// Past the head of what follows `at`, the rest follows.
proof fn lemma_skip_past(stream: Seq<u8>, at: int, head: Seq<u8>, rest: Seq<u8>)
    requires
        0 <= at <= stream.len(),
        stream.skip(at) == head + rest,
    ensures
        at + head.len() <= stream.len(),
        stream.skip(at + head.len()) == rest,
{
    let here = stream.skip(at);
    assert(here.len() == head.len() + rest.len());
    assert forall|j: int| 0 <= j < rest.len() implies stream.skip(at + head.len())[j] == rest[j] by {
        assert(here[head.len() + j] == rest[j]);
        assert(stream[at + (head.len() + j)] == here[head.len() + j]);
    }
    assert(stream.skip(at + head.len()) =~= rest);
}

/// Decoding the rest of a stream that holds the compressed rest of
/// `data`, with the start of `data` decoded so far, gives `data`.
proof fn lemma_round_trip_from(
    data: Seq<u8>,
    window_length: int,
    pos: int,
    stream: Seq<u8>,
    at: int,
)
    requires
        0 <= pos <= data.len(),
        0 <= at <= stream.len(),
        compression_from(data, window_length, pos) == Ok::<Seq<u8>, ErrorKind>(stream.skip(at)),
        references_read_back_from(data, window_length, pos),
    ensures
        decoding_from(stream, at, data.take(pos)) == Ok::<Seq<u8>, ErrorKind>(data),
    decreases data.len() - pos,
{
    let out = data.take(pos);
    let here = stream.skip(at);
    if pos >= data.len() {
        assert(out =~= data);
        assert(here.len() == 0);
    } else {
        match reference_at(data, window_length, pos) {
            Some((distance, length)) => {
                lemma_best_match_is_earlier_copy(data, pos, window_length);
                let first = search_start(pos, window_length);
                assert(is_earlier_copy(data, pos, first, distance, length));
                let token = reference_token(distance, length)->Ok_0;
                let rest = compression_from(data, window_length, pos + length)->Ok_0;
                let distance_digits = reference_digits(distance, 2);
                let length_digit = reference_digits((length - MIN_STRING_LENGTH) as nat, 1);
                reveal_with_fuel(reference_int_capacity, 3);
                lemma_digits_are_codes(distance, 2);
                lemma_digits_are_codes((length - MIN_STRING_LENGTH) as nat, 1);
                lemma_reference_int_round_trip(distance, 2);
                lemma_reference_int_round_trip((length - MIN_STRING_LENGTH) as nat, 1);
                assert(token == seq![REFERENCE_PREFIX] + distance_digits + length_digit);
                assert(here == token + rest);
                assert(token.len() == 4);
                assert(here.len() == 4 + rest.len());
                assert(stream[at] == here[0] && here[0] == token[0]);
                assert(stream[at + 1] == here[1] && here[1] == token[1]);
                assert(stream[at + 2] == here[2] && here[2] == token[2]);
                assert(stream[at + 3] == here[3] && here[3] == token[3]);
                assert(stream.subrange(at + 1, at + 3) =~= distance_digits);
                assert(stream.subrange(at + 3, at + 4) =~= length_digit);
                lemma_skip_past(stream, at, token, rest);
                assert(copied(out, distance, length) =~= data.subrange(pos, pos + length));
                assert(out + copied(out, distance, length) =~= data.take(pos + length));
                lemma_round_trip_from(data, window_length, pos + length, stream, at + 4);
            },
            None => {
                let byte = data[pos];
                let rest = compression_from(data, window_length, pos + 1)->Ok_0;
                assert(here == literal(byte) + rest);
                assert(here.len() == literal(byte).len() + rest.len());
                assert(stream[at] == here[0] && here[0] == literal(byte)[0]);
                assert(out.push(byte) =~= data.take(pos + 1));
                if byte == REFERENCE_PREFIX {
                    assert(stream[at + 1] == here[1] && here[1] == literal(byte)[1]);
                    lemma_skip_past(stream, at, literal(byte), rest);
                    lemma_round_trip_from(data, window_length, pos + 1, stream, at + 2);
                } else {
                    lemma_skip_past(stream, at, literal(byte), rest);
                    lemma_round_trip_from(data, window_length, pos + 1, stream, at + 1);
                }
            },
        }
    }
}

/// Decompressing what compressing gave returns the input, for every input
/// and window with which compressing succeeds and emits no back-reference
/// that reads as an escaped prefix byte.
///
/// A back-reference over a distance from 6144 to 6239 has the prefix byte
/// for its first digit. A decoder takes the two prefix bytes for one
/// escaped, and what it returns from there on need not be the input.
pub proof fn lemma_round_trip(data: Seq<u8>, window_length: int)
    requires
        compression(data, window_length) is Ok,
        references_read_back(data, window_length),
    ensures
        decompression(compression(data, window_length)->Ok_0) == Ok::<Seq<u8>, ErrorKind>(data),
{
    let stream = compression(data, window_length)->Ok_0;
    assert(stream.skip(0) =~= stream);
    assert(data.take(0) =~= Seq::<u8>::empty());
    lemma_round_trip_from(data, window_length, 0, stream, 0);
}

/// With a window of at most [`MAX_PLAIN_WINDOW_LENGTH`] bytes, compressing
/// from `pos` on succeeds, and every back-reference reads as one.
proof fn lemma_plain_window_from(data: Seq<u8>, window_length: int, pos: int)
    requires
        0 <= pos <= data.len(),
        effective_window(window_length) <= MAX_PLAIN_WINDOW_LENGTH,
    ensures
        compression_from(data, window_length, pos) is Ok,
        references_read_back_from(data, window_length, pos),
    decreases data.len() - pos,
{
    if pos < data.len() {
        match reference_at(data, window_length, pos) {
            Some((distance, length)) => {
                lemma_best_match_is_earlier_copy(data, pos, window_length);
                reveal_with_fuel(reference_int_capacity, 3);
                lemma_reads_as_reference(distance);
                lemma_plain_window_from(data, window_length, pos + length);
            },
            None => {
                lemma_plain_window_from(data, window_length, pos + 1);
            },
        }
    }
}

/// Decompressing what compressing gave returns the input, for every input
/// and every window of at most [`MAX_PLAIN_WINDOW_LENGTH`] bytes, the
/// default window among them; and compressing succeeds with such a
/// window.
pub proof fn lemma_round_trip_in_plain_window(data: Seq<u8>, window_length: int)
    requires
        effective_window(window_length) <= MAX_PLAIN_WINDOW_LENGTH,
    ensures
        compression(data, window_length) is Ok,
        decompression(compression(data, window_length)->Ok_0) == Ok::<Seq<u8>, ErrorKind>(data),
{
    lemma_plain_window_from(data, window_length, 0);
    lemma_round_trip(data, window_length);
}

/// A search that starts seven bytes or less before `pos` finds nothing,
/// if at seven bytes the match can grow to six.
proof fn lemma_no_match_nearby(data: Seq<u8>, pos: int, source: int)
    requires
        0 <= source,
        pos - source <= 7,
        pos - source == 7 ==> match_reach(data, source, pos) >= 6,
    ensures
        scan_from(data, pos, source, None) is None,
{
    reveal_with_fuel(scan_from, 2);
}

/// An input of prefix bytes alone compresses to twice as many prefix
/// bytes, if it has at most 13 bytes or the window at most 7: no
/// back-reference is found in it then.
pub proof fn lemma_prefix_run_doubles(data: Seq<u8>, window_length: int)
    requires
        forall|i: int| 0 <= i < data.len() ==> data[i] == REFERENCE_PREFIX,
        data.len() <= 13 || effective_window(window_length) <= 7,
    ensures
        compression(data, window_length) == Ok::<Seq<u8>, ErrorKind>(
            Seq::new(2 * data.len(), |i: int| REFERENCE_PREFIX),
        ),
        compression(data, window_length)->Ok_0.len() == 2 * data.len(),
{
    lemma_prefix_run_doubles_from(data, window_length, 0);
}

proof fn lemma_prefix_run_doubles_from(data: Seq<u8>, window_length: int, pos: int)
    requires
        forall|i: int| 0 <= i < data.len() ==> data[i] == REFERENCE_PREFIX,
        data.len() <= 13 || effective_window(window_length) <= 7,
        0 <= pos <= data.len(),
    ensures
        compression_from(data, window_length, pos) == Ok::<Seq<u8>, ErrorKind>(
            Seq::new((2 * (data.len() - pos)) as nat, |i: int| REFERENCE_PREFIX),
        ),
    decreases data.len() - pos,
{
    if pos < data.len() {
        if pos + MIN_STRING_LENGTH < data.len() {
            let source = search_start(pos, window_length);
            if pos - source == 7 {
                lemma_common_prefix_agrees(data, source, pos, 99, 6);
                assert(data.subrange(source, source + 6) =~= data.subrange(pos, pos + 6));
            }
            lemma_no_match_nearby(data, pos, source);
        }
        lemma_prefix_run_doubles_from(data, window_length, pos + 1);
        let rest = Seq::new((2 * (data.len() - pos - 1)) as nat, |i: int| REFERENCE_PREFIX);
        assert(literal(REFERENCE_PREFIX) + rest =~= Seq::new(
            (2 * (data.len() - pos)) as nat,
            |i: int| REFERENCE_PREFIX,
        ));
    } else {
        assert(Seq::<u8>::empty() =~= Seq::new(
            (2 * (data.len() - pos)) as nat,
            |i: int| REFERENCE_PREFIX,
        ));
    }
}

/// The far edge of the window is the first source that counts. The
/// source of a back-reference found at `pos` starts no earlier than
/// `window_length` bytes before `pos`; and where a match at exactly that
/// distance stops growing before it reaches `pos`, a back-reference at
/// least as long is found.
pub proof fn lemma_window_edge(data: Seq<u8>, pos: int, window_length: int)
    ensures
        best_match(data, pos, window_length) matches Some((distance, length)) ==> pos - distance
            - length >= pos - effective_window(window_length),
        ({
            let edge = pos - effective_window(window_length);
            let grown = match_reach(data, edge, pos);
            0 <= edge && MIN_STRING_LENGTH <= grown && edge + grown + 1 < pos ==> (best_match(
                data,
                pos,
                window_length,
            ) matches Some((_, length)) && length >= grown)
        }),
{
    lemma_best_match_is_earlier_copy(data, pos, window_length);
    let edge = pos - effective_window(window_length);
    let grown = match_reach(data, edge, pos);
    if 0 <= edge && MIN_STRING_LENGTH <= grown && edge + grown + 1 < pos {
        lemma_common_prefix_agrees(data, edge, pos, 99, 0);
        lemma_common_prefix_agrees(data, edge, pos, 99, grown);
        lemma_scan_keeps_copies(
            data,
            pos,
            edge + 1,
            edge,
            Some(((pos - edge - grown) as nat, grown)),
        );
    }
}

} // verus!
