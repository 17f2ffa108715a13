//! Offsets in a text from which some ranges were removed.
//!
//! Patterns are matched against the page with its escape sequences taken
//! out, so every offset of a match has to be carried back to the page as it
//! was given. This module defines that mapping and proves what it is good
//! for: the byte of the shortened text at an offset is the byte of the
//! page at the mapped offset.
use crate::text::{lemma_encode_concat, substring};
use vstd::prelude::*;
use vstd::string::*;
use vstd::utf8::*;

verus! {

/// The ranges are half open, none is reversed.
pub open spec fn ranges_ordered(removed: Seq<(usize, usize)>) -> bool {
    forall|i: int| 0 <= i < removed.len() ==> (#[trigger] removed[i]).0 <= removed[i].1
}

/// The ranges follow each other without overlap, from `from` on, and end
/// within `len`.
pub open spec fn ranges_within(removed: Seq<(usize, usize)>, from: int, len: int) -> bool
    decreases removed.len(),
{
    if removed.len() == 0 {
        from <= len
    } else {
        &&& from <= removed[0].0 <= removed[0].1
        &&& ranges_within(removed.drop_first(), removed[0].1 as int, len)
    }
}

/// Every range begins and ends between two characters of the text.
pub open spec fn ranges_on_boundaries(removed: Seq<(usize, usize)>, bytes: Seq<u8>) -> bool {
    forall|i: int|
        0 <= i < removed.len() ==> {
            &&& is_char_boundary(bytes, (#[trigger] removed[i]).0 as int)
            &&& is_char_boundary(bytes, removed[i].1 as int)
        }
}

/// Whether `position` lies in one of the ranges.
pub open spec fn position_removed(removed: Seq<(usize, usize)>, position: int) -> bool {
    exists|i: int| 0 <= i < removed.len() && (#[trigger] removed[i]).0 <= position < removed[i].1
}

/// Number of positions that the ranges cover together.
pub open spec fn removed_len(removed: Seq<(usize, usize)>) -> int
    decreases removed.len(),
{
    if removed.len() == 0 {
        0
    } else {
        (removed[0].1 - removed[0].0) + removed_len(removed.drop_first())
    }
}

/// The position that `index` had before the ranges were removed.
///
/// A range that begins at or before the position reached so far lies in
/// front of it and moves it on by the length of the range.
pub open spec fn original_index(removed: Seq<(usize, usize)>, index: int) -> int
    decreases removed.len(),
{
    if removed.len() == 0 {
        index
    } else if index < removed[0].0 {
        index
    } else {
        original_index(removed.drop_first(), index + (removed[0].1 - removed[0].0))
    }
}

/// What is left of `bytes` from `from` on when the ranges are taken out.
pub open spec fn without_ranges(bytes: Seq<u8>, removed: Seq<(usize, usize)>, from: int) -> Seq<u8>
    decreases removed.len(),
{
    if removed.len() == 0 {
        bytes.subrange(from, bytes.len() as int)
    } else {
        bytes.subrange(from, removed[0].0 as int) + without_ranges(
            bytes,
            removed.drop_first(),
            removed[0].1 as int,
        )
    }
}

/// Ranges that are not reversed cover no negative number of positions.
pub proof fn lemma_removed_len_nonnegative(removed: Seq<(usize, usize)>)
    requires
        ranges_ordered(removed),
    ensures
        0 <= removed_len(removed),
    decreases removed.len(),
{
    if removed.len() > 0 {
        assert(removed[0].0 <= removed[0].1);
        lemma_removed_len_nonnegative(removed.drop_first());
    }
}

/// The mapped position is never before the given one and never more than
/// the removed length after it.
pub proof fn lemma_original_index_bounds(removed: Seq<(usize, usize)>, index: int)
    requires
        ranges_ordered(removed),
    ensures
        index <= original_index(removed, index) <= index + removed_len(removed),
    decreases removed.len(),
{
    if removed.len() > 0 {
        assert(removed[0].0 <= removed[0].1);
        lemma_removed_len_nonnegative(removed.drop_first());
        if index >= removed[0].0 {
            lemma_original_index_bounds(
                removed.drop_first(),
                index + (removed[0].1 - removed[0].0),
            );
        }
    }
}

/// Ranges that follow each other from `from` on within `len` are not
/// reversed, lie between `from` and `len`, and cover no more than lies
/// between the two.
pub proof fn lemma_ranges_within(removed: Seq<(usize, usize)>, from: int, len: int)
    requires
        ranges_within(removed, from, len),
    ensures
        ranges_ordered(removed),
        from <= len,
        removed_len(removed) <= len - from,
        forall|i: int|
            0 <= i < removed.len() ==> from <= (#[trigger] removed[i]).0 <= removed[i].1 <= len,
    decreases removed.len(),
{
    if removed.len() > 0 {
        let rest = removed.drop_first();
        lemma_ranges_within(rest, removed[0].1 as int, len);
        assert forall|i: int| 0 <= i < removed.len() implies from <= (#[trigger] removed[i]).0
            <= removed[i].1 <= len by {
            if i > 0 {
                assert(removed[i] == rest[i - 1]);
            }
        }
    }
}

/// Positions that are further apart after the removal were at least as
/// far apart before it, and in the same order.
pub proof fn lemma_original_index_spreads(removed: Seq<(usize, usize)>, low: int, high: int)
    requires
        ranges_ordered(removed),
        low <= high,
    ensures
        original_index(removed, high) - original_index(removed, low) >= high - low,
    decreases removed.len(),
{
    if removed.len() > 0 {
        let rest = removed.drop_first();
        let moved = removed[0].1 - removed[0].0;
        assert(removed[0].0 <= removed[0].1);
        assert(ranges_ordered(rest)) by {
            assert forall|i: int| 0 <= i < rest.len() implies (#[trigger] rest[i]).0
                <= rest[i].1 by {
                assert(rest[i] == removed[i + 1]);
            }
        }
        if high < removed[0].0 {
        } else if low < removed[0].0 {
            lemma_original_index_bounds(rest, high + moved);
        } else {
            lemma_original_index_spreads(rest, low + moved, high + moved);
        }
    }
}

/// The byte at `index` of what is left is the byte of the text at the
/// original index, which lies in none of the ranges.
pub proof fn lemma_original_index_kept(
    bytes: Seq<u8>,
    removed: Seq<(usize, usize)>,
    from: int,
    index: int,
)
    requires
        0 <= from,
        ranges_within(removed, from, bytes.len() as int),
        0 <= index < without_ranges(bytes, removed, from).len(),
    ensures
        from + index <= original_index(removed, from + index) < bytes.len(),
        bytes[original_index(removed, from + index)] == without_ranges(bytes, removed, from)[index],
        !position_removed(removed, original_index(removed, from + index)),
    decreases removed.len(),
{
    lemma_ranges_within(removed, from, bytes.len() as int);
    if removed.len() > 0 {
        let rest = removed.drop_first();
        let first = removed[0];
        let kept_here = first.0 - from;
        lemma_ranges_within(rest, first.1 as int, bytes.len() as int);
        if from + index >= first.0 {
            lemma_original_index_kept(bytes, rest, first.1 as int, index - kept_here);
            let original = original_index(removed, from + index);
            assert(original == original_index(rest, first.1 + (index - kept_here)));
            assert forall|i: int| 0 <= i < removed.len() implies !((#[trigger] removed[i]).0
                <= original < removed[i].1) by {
                if i > 0 {
                    assert(removed[i] == rest[i - 1]);
                }
            }
        } else {
            let original = from + index;
            assert forall|i: int| 0 <= i < removed.len() implies !((#[trigger] removed[i]).0
                <= original < removed[i].1) by {
                if i > 0 {
                    assert(removed[i] == rest[i - 1]);
                    assert(first.1 <= rest[i - 1].0);
                }
            }
        }
    }
}

/// Every position at or behind `from` that lies in none of the ranges is
/// the original index of an index that is not behind it.
pub proof fn lemma_kept_position_has_index(
    removed: Seq<(usize, usize)>,
    from: int,
    len: int,
    position: int,
)
    requires
        ranges_within(removed, from, len),
        from <= position,
        !position_removed(removed, position),
    ensures
        exists|index: int| from <= index <= position && original_index(removed, index) == position,
    decreases removed.len(),
{
    if removed.len() == 0 || position < removed[0].0 {
        assert(original_index(removed, position) == position);
    } else {
        let rest = removed.drop_first();
        let moved = removed[0].1 - removed[0].0;
        assert(!(removed[0].0 <= position < removed[0].1));
        assert forall|i: int| 0 <= i < rest.len() implies !((#[trigger] rest[i]).0 <= position
            < rest[i].1) by {
            assert(rest[i] == removed[i + 1]);
        }
        lemma_kept_position_has_index(rest, removed[0].1 as int, len, position);
        let behind = choose|index: int|
            removed[0].1 <= index <= position && original_index(rest, index) == position;
        assert(original_index(removed, behind - moved) == position);
    }
}

/// What is left of a text is as much shorter than the text as the ranges
/// are long.
pub proof fn lemma_without_ranges_len(bytes: Seq<u8>, removed: Seq<(usize, usize)>, from: int)
    requires
        0 <= from,
        ranges_within(removed, from, bytes.len() as int),
    ensures
        without_ranges(bytes, removed, from).len() == bytes.len() - from - removed_len(removed),
    decreases removed.len(),
{
    lemma_ranges_within(removed, from, bytes.len() as int);
    if removed.len() > 0 {
        lemma_without_ranges_len(bytes, removed.drop_first(), removed[0].1 as int);
    }
}

/// A part of what is left that maps to a stretch of the same length in the
/// text is that stretch of the text: nothing was removed inside it.
pub proof fn lemma_unbroken_part(
    bytes: Seq<u8>,
    removed: Seq<(usize, usize)>,
    start: int,
    end: int,
)
    requires
        ranges_within(removed, 0, bytes.len() as int),
        0 <= start < end <= without_ranges(bytes, removed, 0).len(),
        original_index(removed, end - 1) - original_index(removed, start) == end - 1 - start,
    ensures
        original_index(removed, start) + (end - start) <= bytes.len(),
        bytes.subrange(
            original_index(removed, start),
            original_index(removed, start) + (end - start),
        ) == without_ranges(bytes, removed, 0).subrange(start, end),
{
    let first = original_index(removed, start);
    let kept = without_ranges(bytes, removed, 0);
    lemma_ranges_within(removed, 0, bytes.len() as int);
    lemma_original_index_kept(bytes, removed, 0, end - 1);
    let in_text = bytes.subrange(first, first + (end - start));
    let in_kept = kept.subrange(start, end);
    assert forall|k: int| 0 <= k < end - start implies #[trigger] in_text[k] == in_kept[k] by {
        lemma_original_index_spreads(removed, start, start + k);
        lemma_original_index_spreads(removed, start + k, end - 1);
        lemma_original_index_kept(bytes, removed, 0, start + k);
    }
    assert(in_text =~= in_kept);
}

/// The text without the ranges.
pub fn remove_ranges(data: &str, removed: &[(usize, usize)]) -> (clean: String)
    requires
        ranges_within(removed@, 0, data.spec_bytes().len() as int),
        ranges_on_boundaries(removed@, data.spec_bytes()),
    ensures
        encode_utf8(clean@) == without_ranges(data.spec_bytes(), removed@, 0),
{
    let ghost bytes = data.spec_bytes();
    let mut clean = String::new();
    let mut from: usize = 0;
    let mut i: usize = 0;
    proof {
        encode_utf8_valid_utf8(data@);
        is_char_boundary_start_end_of_seq(bytes);
        assert(removed@.subrange(0, removed@.len() as int) =~= removed@);
        assert(encode_utf8(clean@) + without_ranges(bytes, removed@, 0) =~= without_ranges(
            bytes,
            removed@,
            0,
        ));
    }
    while i < removed.len()
        invariant
            0 <= i <= removed@.len(),
            bytes == data.spec_bytes(),
            valid_utf8(bytes),
            from <= bytes.len(),
            is_char_boundary(bytes, from as int),
            is_char_boundary(bytes, bytes.len() as int),
            ranges_on_boundaries(removed@, bytes),
            ranges_within(
                removed@.subrange(i as int, removed@.len() as int),
                from as int,
                bytes.len() as int,
            ),
            encode_utf8(clean@) + without_ranges(
                bytes,
                removed@.subrange(i as int, removed@.len() as int),
                from as int,
            ) == without_ranges(bytes, removed@, 0),
        decreases removed.len() - i,
    {
        let ghost rest = removed@.subrange(i as int, removed@.len() as int);
        let ghost before = clean@;
        let (start, end) = removed[i];
        proof {
            assert(rest[0] == removed@[i as int]);
            assert(rest.drop_first() =~= removed@.subrange(i + 1, removed@.len() as int));
            lemma_ranges_within(rest.drop_first(), end as int, bytes.len() as int);
        }
        let kept = substring(data, from, start);
        clean.append(kept.as_str());
        proof {
            lemma_encode_concat(before, kept@);
            assert(encode_utf8(clean@) + without_ranges(bytes, rest.drop_first(), end as int)
                =~= encode_utf8(before) + without_ranges(bytes, rest, from as int));
        }
        from = end;
        i += 1;
    }
    let ghost before = clean@;
    let kept = substring(data, from, data.as_bytes().len());
    clean.append(kept.as_str());
    proof {
        let rest = removed@.subrange(removed@.len() as int, removed@.len() as int);
        lemma_encode_concat(before, kept@);
        assert(rest.len() == 0);
        assert(without_ranges(bytes, rest, from as int) == bytes.subrange(
            from as int,
            bytes.len() as int,
        ));
    }
    clean
}

/// For a sequence from which `removed_ranges` were removed, find the index
/// that the element at `index_after_removal` had before the removal.
///
/// Each range `(a, b)` holds `a` and does not hold `b`.
pub fn get_original_index(removed_ranges: &[(usize, usize)], index_after_removal: usize) -> (index:
    usize)
    requires
        ranges_ordered(removed_ranges@),
        index_after_removal + removed_len(removed_ranges@) <= usize::MAX,
    ensures
        index == original_index(removed_ranges@, index_after_removal as int),
{
    let mut offset_due_to_removed: usize = 0;
    let mut i: usize = 0;
    assert(removed_ranges@.subrange(0, removed_ranges@.len() as int) =~= removed_ranges@);
    while i < removed_ranges.len()
        invariant
            0 <= i <= removed_ranges.len(),
            ranges_ordered(removed_ranges@),
            index_after_removal + offset_due_to_removed + removed_len(
                removed_ranges@.subrange(i as int, removed_ranges@.len() as int),
            ) <= usize::MAX,
            original_index(removed_ranges@, index_after_removal as int) == original_index(
                removed_ranges@.subrange(i as int, removed_ranges@.len() as int),
                index_after_removal + offset_due_to_removed,
            ),
        decreases removed_ranges.len() - i,
    {
        let ghost rest = removed_ranges@.subrange(i as int, removed_ranges@.len() as int);
        let (start, end) = removed_ranges[i];
        proof {
            assert(rest[0] == removed_ranges@[i as int]);
            assert(rest.drop_first() =~= removed_ranges@.subrange(
                i + 1,
                removed_ranges@.len() as int,
            ));
            assert(ranges_ordered(rest.drop_first()));
            lemma_removed_len_nonnegative(rest.drop_first());
        }
        if index_after_removal + offset_due_to_removed < start {
            return index_after_removal + offset_due_to_removed;
        }
        offset_due_to_removed += end - start;
        i += 1;
    }
    index_after_removal + offset_due_to_removed
}

} // verus!
