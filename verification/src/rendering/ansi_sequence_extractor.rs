//! Extraction and querying of ANSI sequences.
//!
//! An ANSI sequence is the escape byte, an opening bracket, one or more
//! bytes other than `m`, and an `m`. The sequences of a text are found from
//! its start: where one begins it is taken whole and the search goes on
//! behind it, so no two overlap.
use crate::offsets::{lemma_ranges_within, position_removed, ranges_within};
use crate::text::{lemma_ascii_boundaries, substring};
use vstd::prelude::*;
use vstd::string::*;
use vstd::utf8::*;

verus! {

/// The escape byte that opens a sequence.
pub const ESCAPE: u8 = 0x1b;

/// The bracket that follows the escape byte.
pub const BRACKET: u8 = 0x5b;

/// The `m` that closes a sequence.
pub const TERMINATOR: u8 = 0x6d;

/// Position of the first terminator at or after `from`, or the length of
/// `bytes` where there is none.
pub open spec fn first_terminator(bytes: Seq<u8>, from: int) -> int
    decreases bytes.len() - from,
{
    if from < 0 || from >= bytes.len() {
        bytes.len() as int
    } else if bytes[from] == TERMINATOR {
        from
    } else {
        first_terminator(bytes, from + 1)
    }
}

/// Whether a sequence begins at `at`.
pub open spec fn sequence_starts_at(bytes: Seq<u8>, at: int) -> bool {
    &&& 0 <= at
    &&& at + 2 < bytes.len()
    &&& bytes[at] == ESCAPE
    &&& bytes[at + 1] == BRACKET
    &&& bytes[at + 2] != TERMINATOR
    &&& first_terminator(bytes, at + 2) < bytes.len()
}

/// Position behind the sequence that begins at `at`.
pub open spec fn sequence_end(bytes: Seq<u8>, at: int) -> int {
    first_terminator(bytes, at + 2) + 1
}

/// The sequences of `bytes` that begin at or after `from`, as half-open
/// ranges in the order in which they occur.
pub open spec fn sequences_from(bytes: Seq<u8>, from: int) -> Seq<(usize, usize)>
    decreases bytes.len() - from,
{
    if from < 0 || from >= bytes.len() {
        Seq::empty()
    } else if sequence_starts_at(bytes, from) {
        proof {
            lemma_first_terminator_bounds(bytes, from + 2);
        }
        seq![(from as usize, sequence_end(bytes, from) as usize)] + sequences_from(
            bytes,
            sequence_end(bytes, from),
        )
    } else {
        sequences_from(bytes, from + 1)
    }
}

/// All the sequences of `bytes`.
pub open spec fn ansi_sequences(bytes: Seq<u8>) -> Seq<(usize, usize)> {
    sequences_from(bytes, 0)
}

pub proof fn lemma_first_terminator_bounds(bytes: Seq<u8>, from: int)
    requires
        0 <= from,
    ensures
        from <= first_terminator(bytes, from) || first_terminator(bytes, from) == bytes.len(),
        first_terminator(bytes, from) <= bytes.len(),
        first_terminator(bytes, from) < bytes.len() ==> bytes[first_terminator(bytes, from)]
            == TERMINATOR,
        forall|k: int|
            from <= k < first_terminator(bytes, from) ==> #[trigger] bytes[k] != TERMINATOR,
    decreases bytes.len() - from,
{
    if from < bytes.len() && bytes[from] != TERMINATOR {
        lemma_first_terminator_bounds(bytes, from + 1);
    }
}

/// Where no terminator follows, none follows later either.
proof fn lemma_no_terminator_later(bytes: Seq<u8>, from: int, later: int)
    requires
        0 <= from <= later,
        first_terminator(bytes, from) == bytes.len(),
    ensures
        first_terminator(bytes, later) == bytes.len(),
{
    lemma_first_terminator_bounds(bytes, from);
    lemma_first_terminator_bounds(bytes, later);
}

/// Behind the last terminator no sequence begins: a sequence that begins at
/// `at` needs a terminator at `at + 2` or later.
proof fn lemma_no_terminator_no_sequence(bytes: Seq<u8>, from: int, at: int)
    requires
        0 <= at,
        0 <= from <= at + 2,
        first_terminator(bytes, from) == bytes.len(),
    ensures
        sequences_from(bytes, at) == Seq::<(usize, usize)>::empty(),
    decreases bytes.len() - at,
{
    if at < bytes.len() {
        lemma_no_terminator_later(bytes, from, at + 2);
        lemma_no_terminator_no_sequence(bytes, from, at + 1);
    }
}

/// The sequences found from `from` on lie behind each other between `from`
/// and the end of `bytes`, and each of them is a sequence.
pub proof fn lemma_sequences_within(bytes: Seq<u8>, from: int)
    requires
        0 <= from <= bytes.len() <= usize::MAX,
    ensures
        ranges_within(sequences_from(bytes, from), from, bytes.len() as int),
        forall|i: int|
            0 <= i < sequences_from(bytes, from).len() ==> {
                let range = #[trigger] sequences_from(bytes, from)[i];
                &&& sequence_starts_at(bytes, range.0 as int)
                &&& range.1 == sequence_end(bytes, range.0 as int)
                &&& from <= range.0
                &&& range.0 + 3 < range.1 <= bytes.len()
            },
    decreases bytes.len() - from,
{
    let found = sequences_from(bytes, from);
    if from < bytes.len() {
        if sequence_starts_at(bytes, from) {
            let end = sequence_end(bytes, from);
            lemma_first_terminator_bounds(bytes, from + 2);
            lemma_sequences_within(bytes, end);
            let rest = sequences_from(bytes, end);
            assert(found.drop_first() =~= rest);
            assert forall|i: int| 0 <= i < found.len() implies {
                let range = #[trigger] found[i];
                &&& sequence_starts_at(bytes, range.0 as int)
                &&& range.1 == sequence_end(bytes, range.0 as int)
                &&& from <= range.0
                &&& range.0 + 3 < range.1 <= bytes.len()
            } by {
                if i > 0 {
                    assert(found[i] == rest[i - 1]);
                }
            }
        } else {
            lemma_sequences_within(bytes, from + 1);
        }
    }
}

/// Number of the ranges at the front that end before `location`. Of ranges
/// that follow each other these are all that end before it.
pub open spec fn leading_before(ranges: Seq<(usize, usize)>, location: int) -> nat
    decreases ranges.len(),
{
    if ranges.len() > 0 && ranges[0].1 < location {
        1 + leading_before(ranges.drop_first(), location)
    } else {
        0
    }
}

pub proof fn lemma_leading_before_bounds(ranges: Seq<(usize, usize)>, location: int)
    ensures
        leading_before(ranges, location) <= ranges.len(),
        forall|i: int|
            0 <= i < leading_before(ranges, location) ==> (#[trigger] ranges[i]).1 < location,
        leading_before(ranges, location) < ranges.len() ==> ranges[leading_before(
            ranges,
            location,
        ) as int].1 >= location,
    decreases ranges.len(),
{
    if ranges.len() > 0 && ranges[0].1 < location {
        let rest = ranges.drop_first();
        lemma_leading_before_bounds(rest, location);
        assert forall|i: int| 0 <= i < leading_before(ranges, location) implies (
        #[trigger] ranges[i]).1 < location by {
            if i > 0 {
                assert(ranges[i] == rest[i - 1]);
            }
        }
        if leading_before(ranges, location) < ranges.len() {
            assert(ranges[leading_before(ranges, location) as int] == rest[leading_before(
                rest,
                location,
            ) as int]);
        }
    }
}

/// Of ranges that follow each other, those at the front that end before
/// `location` are all that end before it.
pub proof fn lemma_leading_before_all(
    ranges: Seq<(usize, usize)>,
    from: int,
    len: int,
    location: int,
)
    requires
        ranges_within(ranges, from, len),
    ensures
        forall|i: int|
            0 <= i < ranges.len() ==> ((#[trigger] ranges[i]).1 < location <==> i < leading_before(
                ranges,
                location,
            )),
    decreases ranges.len(),
{
    if ranges.len() > 0 {
        let rest = ranges.drop_first();
        lemma_leading_before_all(rest, ranges[0].1 as int, len, location);
        lemma_ranges_within(rest, ranges[0].1 as int, len);
        assert forall|i: int| 0 <= i < ranges.len() implies ((#[trigger] ranges[i]).1 < location
            <==> i < leading_before(ranges, location)) by {
            if i > 0 {
                assert(ranges[i] == rest[i - 1]);
            }
        }
    }
}

/// The text of each sequence of `bytes`.
pub open spec fn sequence_texts(bytes: Seq<u8>) -> Seq<Seq<char>> {
    Seq::new(
        ansi_sequences(bytes).len(),
        |i: int|
            decode_utf8(
                bytes.subrange(
                    ansi_sequences(bytes)[i].0 as int,
                    ansi_sequences(bytes)[i].1 as int,
                ),
            ),
    )
}

/// One extracted ANSI sequence.
pub struct AnsiSequenceEntry {
    start: usize,
    end: usize,
    content: String,
}

/// A struct to extract and store all ANSI sequences in a string.
pub struct AnsiSequenceExtractor {
    ansi_sequences: Vec<AnsiSequenceEntry>,
}

impl AnsiSequenceExtractor {
    /// The byte ranges of the sequences, in the order of the text.
    pub closed spec fn ranges(&self) -> Seq<(usize, usize)> {
        Seq::new(
            self.ansi_sequences@.len(),
            |i: int| (self.ansi_sequences@[i].start, self.ansi_sequences@[i].end),
        )
    }

    /// The text of each sequence.
    pub closed spec fn contents(&self) -> Seq<Seq<char>> {
        Seq::new(self.ansi_sequences@.len(), |i: int| self.ansi_sequences@[i].content@)
    }

    /// Whether the extractor holds the sequences of the text: the range
    /// of each, and the text of each as it stands in the text.
    pub open spec fn indexes(&self, text: Seq<char>) -> bool {
        &&& self.ranges() == ansi_sequences(encode_utf8(text))
        &&& self.contents() == sequence_texts(encode_utf8(text))
    }

    /// Create a new extractor from the given string.
    pub fn new(data: &str) -> (extractor: Self)
        ensures
            extractor.indexes(data@),
    {
        let bytes = data.as_bytes();
        let ranges = find_sequences(bytes);
        let mut entries: Vec<AnsiSequenceEntry> = Vec::new();
        let mut i: usize = 0;
        proof {
            encode_utf8_valid_utf8(data@);
        }
        while i < ranges.len()
            invariant
                0 <= i <= ranges.len(),
                bytes@ == data.spec_bytes(),
                valid_utf8(bytes@),
                ranges@ == ansi_sequences(bytes@),
                forall|k: int|
                    0 <= k < ranges@.len() ==> {
                        let range = #[trigger] ranges@[k];
                        &&& sequence_starts_at(bytes@, range.0 as int)
                        &&& range.1 == sequence_end(bytes@, range.0 as int)
                        &&& range.0 + 3 < range.1 <= bytes@.len()
                    },
                entries@.len() == i,
                forall|k: int|
                    0 <= k < i ==> {
                        let entry = #[trigger] entries@[k];
                        &&& (entry.start, entry.end) == ranges@[k]
                        &&& encode_utf8(entry.content@) == bytes@.subrange(
                            entry.start as int,
                            entry.end as int,
                        )
                    },
            decreases ranges.len() - i,
        {
            let (start, end) = ranges[i];
            proof {
                let range = ranges@[i as int];
                assert(sequence_starts_at(bytes@, range.0 as int));
                lemma_first_terminator_bounds(bytes@, start + 2);
                lemma_ascii_boundaries(bytes@, start as int);
                lemma_ascii_boundaries(bytes@, end - 1);
            }
            let content = substring(data, start, end);
            entries.push(AnsiSequenceEntry { start, end, content });
            i += 1;
        }
        let extractor = AnsiSequenceExtractor { ansi_sequences: entries };
        proof {
            assert(extractor.ranges() =~= ranges@);
            assert forall|k: int| 0 <= k < ranges@.len() implies extractor.contents()[k]
                == #[trigger] sequence_texts(bytes@)[k] by {
                assert((entries@[k].start, entries@[k].end) == ranges@[k]);
                encode_utf8_decode_utf8(entries@[k].content@);
            }
            assert(extractor.contents() =~= sequence_texts(bytes@));
        }
        extractor
    }

    /// Number of the sequences.
    pub fn count(&self) -> (count: usize)
        ensures
            count == self.ranges().len(),
            count == self.contents().len(),
    {
        self.ansi_sequences.len()
    }

    /// The text of the sequence with the given number.
    pub fn sequence(&self, index: usize) -> (content: &str)
        requires
            index < self.contents().len(),
        ensures
            content@ == self.contents()[index as int],
    {
        self.ansi_sequences[index].content.as_str()
    }

    /// Check if the given byte location is inside any of the extracted
    /// ANSI sequences.
    pub fn is_inside_sequence(&self, location: usize) -> (inside: bool)
        ensures
            inside == position_removed(self.ranges(), location as int),
    {
        let mut i: usize = 0;
        while i < self.ansi_sequences.len()
            invariant
                0 <= i <= self.ansi_sequences.len(),
                forall|k: int|
                    0 <= k < i ==> !((#[trigger] self.ranges()[k]).0 <= location
                        < self.ranges()[k].1),
            decreases self.ansi_sequences.len() - i,
        {
            if self.ansi_sequences[i].start <= location && location < self.ansi_sequences[i].end {
                assert(self.ranges()[i as int].0 <= location < self.ranges()[i as int].1);
                return true;
            }
            i += 1;
        }
        false
    }

    /// Get all extracted ANSI sequences that end before (not including) the
    /// given byte location, up to the first one that does not.
    pub fn get_all_sequences_before(&self, location: usize) -> (sequences: Vec<&str>)
        ensures
            sequences@.len() == leading_before(self.ranges(), location as int),
            forall|i: int|
                0 <= i < sequences@.len() ==> (#[trigger] sequences@[i])@ == self.contents()[i],
    {
        let mut sequences: Vec<&str> = Vec::new();
        let mut i: usize = 0;
        proof {
            lemma_leading_before_bounds(self.ranges(), location as int);
        }
        while i < self.ansi_sequences.len() && self.ansi_sequences[i].end < location
            invariant
                0 <= i <= self.ansi_sequences.len(),
                i <= leading_before(self.ranges(), location as int) <= self.ranges().len(),
                forall|k: int|
                    0 <= k < leading_before(self.ranges(), location as int) ==> (
                    #[trigger] self.ranges()[k]).1 < location,
                leading_before(self.ranges(), location as int) < self.ranges().len()
                    ==> self.ranges()[leading_before(self.ranges(), location as int) as int].1
                    >= location,
                sequences@.len() == i,
                forall|k: int| 0 <= k < i ==> (#[trigger] sequences@[k])@ == self.contents()[k],
            decreases self.ansi_sequences.len() - i,
        {
            assert(self.ranges()[i as int].1 < location);
            sequences.push(self.ansi_sequences[i].content.as_str());
            i += 1;
        }
        proof {
            if i < self.ansi_sequences.len() {
                assert(self.ranges()[i as int].1 >= location);
            }
        }
        sequences
    }
}

/// Finds the sequences of `bytes`: they lie behind each other within
/// `bytes`.
pub fn find_sequences(bytes: &[u8]) -> (ranges: Vec<(usize, usize)>)
    ensures
        ranges@ == ansi_sequences(bytes@),
        ranges_within(ranges@, 0, bytes@.len() as int),
        forall|i: int|
            0 <= i < ranges@.len() ==> {
                let range = #[trigger] ranges@[i];
                &&& sequence_starts_at(bytes@, range.0 as int)
                &&& range.1 == sequence_end(bytes@, range.0 as int)
                &&& range.0 + 3 < range.1 <= bytes@.len()
            },
{
    let mut ranges: Vec<(usize, usize)> = Vec::new();
    let mut at: usize = 0;
    while at < bytes.len()
        invariant
            at <= bytes.len(),
            ansi_sequences(bytes@) == ranges@ + sequences_from(bytes@, at as int),
        decreases bytes.len() - at,
    {
        if bytes.len() - at > 2 && bytes[at] == ESCAPE && bytes[at + 1] == BRACKET && bytes[at + 2]
            != TERMINATOR {
            let mut end: usize = at + 3;
            while end < bytes.len() && bytes[end] != TERMINATOR
                invariant
                    at + 3 <= end <= bytes.len(),
                    at + 2 < bytes.len(),
                    bytes@[at + 2] != TERMINATOR,
                    first_terminator(bytes@, at + 2) == first_terminator(bytes@, end as int),
                decreases bytes.len() - end,
            {
                end += 1;
            }
            if end < bytes.len() {
                proof {
                    assert(sequence_starts_at(bytes@, at as int));
                    assert(sequence_end(bytes@, at as int) == end + 1);
                    assert(ranges@.push((at, (end + 1) as usize)) + sequences_from(
                        bytes@,
                        end + 1,
                    ) =~= ranges@ + sequences_from(bytes@, at as int));
                }
                ranges.push((at, end + 1));
                at = end + 1;
            } else {
                proof {
                    lemma_no_terminator_no_sequence(bytes@, at + 2, at as int);
                }
                at = bytes.len();
            }
        } else {
            at += 1;
        }
    }
    proof {
        assert(ranges@ + Seq::<(usize, usize)>::empty() =~= ranges@);
        lemma_sequences_within(bytes@, 0);
    }
    ranges
}

} // verus!
