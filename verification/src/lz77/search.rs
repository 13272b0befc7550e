//! The search for the longest earlier copy of the text at a position.
//!
//! Candidates are tried from the far edge of the window towards the
//! position. At a candidate the match grows byte by byte for as long as
//! it agrees with the text at the position, is shorter than
//! [`MAX_STRING_LENGTH`] and ends before the position. A candidate counts
//! once the match has stopped growing while it still ended before the
//! position; where it reaches the position first, the search is over and
//! that candidate and all nearer ones count for nothing. Among the
//! candidates that count, the longest wins, and of equally long ones the
//! first tried.

use crate::lz77::format::{DEFAULT_WINDOW_LENGTH, MAX_STRING_LENGTH, MIN_STRING_LENGTH};
use crate::lz77::Compressor;
use vstd::prelude::*;

verus! {

/// The window that a search uses: the default where none is given.
pub open spec fn effective_window(window_length: int) -> int {
    if window_length == 0 {
        DEFAULT_WINDOW_LENGTH as int
    } else {
        window_length
    }
}

/// The first candidate of the search at `pos`: the far edge of the
/// window, or the start of the data where the window reaches beyond it.
pub open spec fn search_start(pos: int, window_length: int) -> int {
    if pos - effective_window(window_length) < 0 {
        0
    } else {
        pos - effective_window(window_length)
    }
}

/// The number of leading bytes, `cap` at most, on which the text at `a`
/// and the text at `b` agree.
pub open spec fn common_prefix(data: Seq<u8>, a: int, b: int, cap: nat) -> nat
    decreases cap,
{
    if cap == 0 || a < 0 || a >= data.len() || b < 0 || b >= data.len() || data[a] != data[b] {
        0
    } else {
        1 + common_prefix(data, a + 1, b + 1, (cap - 1) as nat)
    }
}

/// The length that a match of the text at `pos` with the text at `source`
/// can grow to.
pub open spec fn match_reach(data: Seq<u8>, source: int, pos: int) -> nat {
    common_prefix(data, source, pos, (MAX_STRING_LENGTH - 1) as nat)
}

/// Whether `data` holds `length` bytes from `b` on, and they are the
/// `length` bytes from `a` on.
pub open spec fn windows_agree(data: Seq<u8>, a: int, b: int, length: int) -> bool {
    &&& b + length <= data.len()
    &&& data.subrange(a, a + length) == data.subrange(b, b + length)
}

/// The length at which the match at a candidate stops growing, given the
/// length it can grow to: the first that is tried and fails.
pub open spec fn stop_length(grown: nat) -> nat {
    if grown >= MIN_STRING_LENGTH {
        grown + 1
    } else {
        MIN_STRING_LENGTH as nat
    }
}

/// Whether a match of `length` bytes replaces `best`.
pub open spec fn beats(length: nat, best: Option<(nat, nat)>) -> bool {
    match best {
        None => true,
        Some((_, best_length)) => length > best_length,
    }
}

/// Whether the match at the candidate `source` stops growing before it
/// reaches `pos`, so that the candidate counts and the search goes on.
pub open spec fn stops_short(data: Seq<u8>, pos: int, source: int) -> bool {
    source + stop_length(match_reach(data, source, pos)) < pos
}

/// The candidate at which a search from `source` on ends: the first
/// whose match does not stop short of `pos`.
pub open spec fn search_end(data: Seq<u8>, pos: int, source: int) -> int
    decreases pos - source,
{
    if stops_short(data, pos, source) {
        search_end(data, pos, source + 1)
    } else {
        source
    }
}

/// The best match, as distance and length, once the candidates from
/// `source` on have been tried, with `best` found before them.
pub open spec fn scan_from(data: Seq<u8>, pos: int, source: int, best: Option<(nat, nat)>) -> Option<
    (nat, nat),
>
    decreases pos - source,
{
    let grown = match_reach(data, source, pos);
    if stops_short(data, pos, source) {
        if grown >= MIN_STRING_LENGTH && beats(grown, best) {
            scan_from(data, pos, source + 1, Some(((pos - source - grown) as nat, grown)))
        } else {
            scan_from(data, pos, source + 1, best)
        }
    } else {
        best
    }
}

/// The back-reference for the text at `pos`, as distance and length: the
/// gap between the end of the copy's source and `pos`, and the number of
/// bytes to copy. `None` where no candidate counts.
pub open spec fn best_match(data: Seq<u8>, pos: int, window_length: int) -> Option<(nat, nat)> {
    scan_from(data, pos, search_start(pos, window_length), None)
}

/// The common prefix is as long as the longest agreeing windows that the
/// cap admits.
pub proof fn lemma_common_prefix_agrees(data: Seq<u8>, a: int, b: int, cap: nat, length: nat)
    requires
        0 <= a <= b,
        length <= cap,
    ensures
        common_prefix(data, a, b, cap) <= cap,
        length > 0 || b <= data.len() ==> (common_prefix(data, a, b, cap) >= length
            <==> windows_agree(data, a, b, length as int)),
    decreases cap,
{
    if length == 0 && b <= data.len() {
        assert(data.subrange(a, a) =~= data.subrange(b, b));
    }
    if cap > 0 {
        let shorter = if length == 0 {
            0nat
        } else {
            (length - 1) as nat
        };
        lemma_common_prefix_agrees(data, a + 1, b + 1, (cap - 1) as nat, shorter);
        if length > 0 && b + length <= data.len() {
            let here = data.subrange(a, a + length);
            let there = data.subrange(b, b + length);
            assert(here.skip(1) =~= data.subrange(a + 1, a + 1 + shorter));
            assert(there.skip(1) =~= data.subrange(b + 1, b + 1 + shorter));
            assert(here[0] == data[a] && there[0] == data[b]);
            if data[a] == data[b] && here.skip(1) == there.skip(1) {
                assert forall|j: int| 0 <= j < length implies here[j] == there[j] by {
                    if j > 0 {
                        assert(here[j] == here.skip(1)[j - 1]);
                        assert(there[j] == there.skip(1)[j - 1]);
                    }
                }
                assert(here =~= there);
            }
        }
    }
}

/// Whether a back-reference of `distance` and `length` at `pos` is one
/// that a search from the candidate `first` on may give: it is of a
/// length that one digit holds, its source starts at `first` or later
/// and ends at least two bytes before `pos`, and the text at `pos` is a
/// copy of the source.
pub open spec fn is_earlier_copy(
    data: Seq<u8>,
    pos: int,
    first: int,
    distance: nat,
    length: nat,
) -> bool {
    &&& MIN_STRING_LENGTH <= length < MAX_STRING_LENGTH
    &&& 2 <= distance
    &&& first <= pos - distance - length
    &&& pos + length <= data.len()
    &&& data.subrange(pos - distance - length, pos - distance) == data.subrange(pos, pos + length)
}

/// Whether `best` is no match, or an earlier copy of the text at `pos`.
pub open spec fn is_none_or_earlier_copy(
    data: Seq<u8>,
    pos: int,
    first: int,
    best: Option<(nat, nat)>,
) -> bool {
    match best {
        None => true,
        Some((distance, length)) => is_earlier_copy(data, pos, first, distance, length),
    }
}

/// Trying further candidates keeps or replaces the best match by an
/// earlier copy of the text at `pos`, and never by a shorter one.
pub proof fn lemma_scan_keeps_copies(
    data: Seq<u8>,
    pos: int,
    source: int,
    first: int,
    best: Option<(nat, nat)>,
)
    requires
        0 <= first <= source,
        is_none_or_earlier_copy(data, pos, first, best),
    ensures
        is_none_or_earlier_copy(data, pos, first, scan_from(data, pos, source, best)),
        best matches Some(before) ==> (scan_from(data, pos, source, best) matches Some(after)
            && after.1 >= before.1),
    decreases pos - source,
{
    let grown = match_reach(data, source, pos);
    if stops_short(data, pos, source) {
        lemma_common_prefix_agrees(data, source, pos, (MAX_STRING_LENGTH - 1) as nat, 0);
        lemma_common_prefix_agrees(data, source, pos, (MAX_STRING_LENGTH - 1) as nat, grown);
        if grown >= MIN_STRING_LENGTH && beats(grown, best) {
            lemma_scan_keeps_copies(
                data,
                pos,
                source + 1,
                first,
                Some(((pos - source - grown) as nat, grown)),
            );
        } else {
            lemma_scan_keeps_copies(data, pos, source + 1, first, best);
        }
    }
}

/// A back-reference that the search gives is an earlier copy of the text
/// at `pos`, with its source inside the window.
pub proof fn lemma_best_match_is_earlier_copy(data: Seq<u8>, pos: int, window_length: int)
    ensures
        is_none_or_earlier_copy(
            data,
            pos,
            search_start(pos, window_length),
            best_match(data, pos, window_length),
        ),
{
    lemma_scan_keeps_copies(
        data,
        pos,
        search_start(pos, window_length),
        search_start(pos, window_length),
        None,
    );
}

/// Whether `best` is the first of the longest matches among the
/// candidates from `first` up to `end`: no match where none of them grows
/// to [`MIN_STRING_LENGTH`], else the match at a candidate that grows at
/// least as far as every other and further than every one before it.
pub open spec fn is_first_longest(
    data: Seq<u8>,
    pos: int,
    first: int,
    end: int,
    best: Option<(nat, nat)>,
) -> bool {
    match best {
        None => forall|s: int|
            first <= s < end ==> #[trigger] match_reach(data, s, pos) < MIN_STRING_LENGTH,
        Some((distance, length)) => {
            let source = pos - distance - length;
            &&& first <= source < end
            &&& length == match_reach(data, source, pos)
            &&& length >= MIN_STRING_LENGTH
            &&& forall|s: int| first <= s < end ==> #[trigger] match_reach(data, s, pos) <= length
            &&& forall|s: int| first <= s < source ==> #[trigger] match_reach(data, s, pos) < length
        },
    }
}

/// Trying the candidates from `source` on keeps the best match the first
/// of the longest, up to where the search ends.
pub proof fn lemma_scan_keeps_first_longest(
    data: Seq<u8>,
    pos: int,
    first: int,
    source: int,
    best: Option<(nat, nat)>,
)
    requires
        first <= source,
        is_first_longest(data, pos, first, source, best),
    ensures
        source <= search_end(data, pos, source),
        !stops_short(data, pos, search_end(data, pos, source)),
        forall|s: int| source <= s < search_end(data, pos, source) ==> stops_short(data, pos, s),
        is_first_longest(
            data,
            pos,
            first,
            search_end(data, pos, source),
            scan_from(data, pos, source, best),
        ),
    decreases pos - source,
{
    let grown = match_reach(data, source, pos);
    if stops_short(data, pos, source) {
        if grown >= MIN_STRING_LENGTH && beats(grown, best) {
            let better = Some(((pos - source - grown) as nat, grown));
            assert(is_first_longest(data, pos, first, source + 1, better));
            lemma_scan_keeps_first_longest(data, pos, first, source + 1, better);
        } else {
            assert(is_first_longest(data, pos, first, source + 1, best));
            lemma_scan_keeps_first_longest(data, pos, first, source + 1, best);
        }
    }
}

/// The search gives the first of the longest matches among the
/// candidates that count: those from the far edge of the window up to
/// the first whose match reaches `pos`.
pub proof fn lemma_best_match_is_first_longest(data: Seq<u8>, pos: int, window_length: int)
    ensures
        is_first_longest(
            data,
            pos,
            search_start(pos, window_length),
            search_end(data, pos, search_start(pos, window_length)),
            best_match(data, pos, window_length),
        ),
{
    let first = search_start(pos, window_length);
    lemma_scan_keeps_first_longest(data, pos, first, first, None);
}

/// Whether the `length` bytes of `data` from `a` on are there again from
/// `b` on.
fn windows_match(data: &[u8], a: usize, b: usize, length: usize) -> (same: bool)
    requires
        a <= b,
    ensures
        same == windows_agree(data@, a as int, b as int, length as int),
{
    let end: usize = data.len();
    if b > end || length > end - b {
        return false;
    }
    let mut j: usize = 0;
    while j < length
        invariant
            a <= b,
            j <= length,
            end == data@.len(),
            b + length <= end,
            data@.subrange(a as int, a + j) == data@.subrange(b as int, b + j),
        decreases length - j,
    {
        if data[a + j] != data[b + j] {
            assert(data@.subrange(a as int, a + length)[j as int] != data@.subrange(
                b as int,
                b + length,
            )[j as int]);
            return false;
        }
        assert(data@.subrange(a as int, a + j + 1) =~= data@.subrange(a as int, a + j).push(
            data@[a + j],
        ));
        assert(data@.subrange(b as int, b + j + 1) =~= data@.subrange(b as int, b + j).push(
            data@[b + j],
        ));
        j = j + 1;
    }
    true
}

impl Compressor {
    /// Searches the window before `pos` for the longest earlier copy of
    /// the text at `pos`, and returns the back-reference to it as
    /// distance and length: the copy's source ends `distance` bytes
    /// before `pos` and is `length` bytes long. A window length of zero
    /// stands for [`DEFAULT_WINDOW_LENGTH`].
    pub fn longest_match(&self, data: &[u8], pos: usize, window_length: i64) -> (r: Option<
        (usize, usize),
    >)
        ensures
            match r {
                Some((distance, length)) => {
                    &&& best_match(data@, pos as int, window_length as int) == Some(
                        (distance as nat, length as nat),
                    )
                    &&& is_earlier_copy(
                        data@,
                        pos as int,
                        search_start(pos as int, window_length as int),
                        distance as nat,
                        length as nat,
                    )
                },
                None => best_match(data@, pos as int, window_length as int) is None,
            },
    {
        proof {
            use_type_invariant(self);
            lemma_best_match_is_earlier_copy(data@, pos as int, window_length as int);
        }
        let window: i64 = if window_length == 0 {
            self.default_window_length
        } else {
            window_length
        };
        if window < 0 {
            return None;
        }
        let mut source: usize = if window as u64 >= pos as u64 {
            0
        } else {
            pos - window as usize
        };
        let mut match_length: usize = self.min_string_length;
        let mut found_match: bool = false;
        let mut best_match_distance: usize = self.max_string_distance as usize;
        let mut best_match_length: usize = 0;
        let ghost first = source as int;
        let ghost best: Option<(nat, nat)> = None;
        while match_length < pos - source
            invariant
                self.holds_format_constants(),
                source <= pos,
                MIN_STRING_LENGTH <= match_length <= MAX_STRING_LENGTH,
                found_match == (match_length > MIN_STRING_LENGTH),
                found_match ==> match_reach(data@, source as int, pos as int)
                    >= match_length - 1,
                best == if best_match_length == 0 {
                    None
                } else {
                    Some((best_match_distance as nat, best_match_length as nat))
                },
                scan_from(data@, pos as int, first, None) == scan_from(
                    data@,
                    pos as int,
                    source as int,
                    best,
                ),
            decreases pos - source, MAX_STRING_LENGTH - match_length,
        {
            proof {
                if match_length < MAX_STRING_LENGTH {
                    lemma_common_prefix_agrees(
                        data@,
                        source as int,
                        pos as int,
                        (MAX_STRING_LENGTH - 1) as nat,
                        match_length as nat,
                    );
                } else {
                    lemma_common_prefix_agrees(
                        data@,
                        source as int,
                        pos as int,
                        (MAX_STRING_LENGTH - 1) as nat,
                        0,
                    );
                }
            }
            let is_valid_match = match_length < self.max_string_length && windows_match(
                data,
                source,
                pos,
                match_length,
            );
            if is_valid_match {
                match_length = match_length + 1;
                found_match = true;
            } else {
                let real_match_length: usize = match_length - 1;
                if found_match && real_match_length > best_match_length {
                    best_match_distance = pos - source - real_match_length;
                    best_match_length = real_match_length;
                    proof {
                        best = Some((best_match_distance as nat, best_match_length as nat));
                    }
                }
                match_length = self.min_string_length;
                source = source + 1;
                found_match = false;
            }
        }
        if best_match_length != 0 {
            Some((best_match_distance, best_match_length))
        } else {
            None
        }
    }
}

} // verus!
