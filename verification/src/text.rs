//! Strings as bytes: what the library needs of UTF-8 beyond `vstd`, and the
//! few string functions of `std` that it calls.
use vstd::prelude::*;
use vstd::string::*;
use vstd::utf8::*;

verus! {

/// `String::push` of `std` appends the character to the string.
pub assume_specification[ String::push ](text: &mut String, ch: char)
    ensures
        final(text)@ == old(text)@.push(ch),
;

/// The encoding of a text that was put together is the encodings put
/// together.
pub proof fn lemma_encode_concat(left: Seq<char>, right: Seq<char>)
    ensures
        encode_utf8(left + right) == encode_utf8(left) + encode_utf8(right),
    decreases left.len(),
{
    if left.len() == 0 {
        assert(left + right =~= right);
        assert(encode_utf8(left) + encode_utf8(right) =~= encode_utf8(right));
    } else {
        lemma_encode_concat(left.drop_first(), right);
        assert((left + right).drop_first() =~= left.drop_first() + right);
        assert(encode_utf8(left + right) =~= encode_utf8(left) + encode_utf8(right));
    }
}

/// A byte below `0x80` stands for a whole character, so a character
/// begins at it and the next one, or the end, right behind it.
pub proof fn lemma_ascii_boundaries(bytes: Seq<u8>, index: int)
    requires
        valid_utf8(bytes),
        0 <= index < bytes.len(),
        bytes[index] < 0x80,
    ensures
        is_char_boundary(bytes, index),
        is_char_boundary(bytes, index + 1),
    decreases bytes.len(),
{
    if index < length_of_first_scalar(bytes) {
        reveal_with_fuel(is_char_boundary, 3);
        assert(index == 0);
        assert(length_of_first_scalar(bytes) == 1);
    } else {
        reveal_with_fuel(is_char_boundary, 2);
        lemma_ascii_boundaries(pop_first_scalar(bytes), index - length_of_first_scalar(bytes));
    }
}

/// Whether `text` begins with the characters of `prefix`.
pub fn begins_with(text: &[char], prefix: &[char]) -> (begins: bool)
    ensures
        begins == prefix@.is_prefix_of(text@),
{
    if prefix.len() > text.len() {
        return false;
    }
    let mut i: usize = 0;
    while i < prefix.len()
        invariant
            0 <= i <= prefix@.len() <= text@.len(),
            forall|k: int| 0 <= k < i ==> prefix@[k] == text@[k],
        decreases prefix.len() - i,
    {
        if prefix[i] != text[i] {
            assert(text@.subrange(0, prefix@.len() as int)[i as int] != prefix@[i as int]);
            return false;
        }
        i += 1;
    }
    assert(prefix@ =~= text@.subrange(0, prefix@.len() as int));
    true
}

/// The characters of a text as a vector.
pub fn characters(text: &str) -> (characters: Vec<char>)
    ensures
        characters@ == text@,
{
    let mut characters: Vec<char> = Vec::new();
    for character in iter: text.chars()
        invariant
            characters@ == iter.seq().take(iter.index()),
    {
        characters.push(character);
    }
    characters
}

/// Every character of a text with the byte offset at which it begins.
pub open spec fn char_cells(text: Seq<char>) -> Seq<(usize, char)> {
    Seq::new(text.len(), |i: int| (encode_utf8(text.take(i)).len() as usize, text[i]))
}

/// `str::char_indices` of `std`, collected: the characters of the text in
/// their order, each with the byte offset of its first byte.
#[verifier::external_body]
pub(crate) fn char_indices(text: &str) -> (cells: Vec<(usize, char)>)
    ensures
        cells@ == char_cells(text@),
{
    text.char_indices().collect()
}

/// A boundary of a text is a boundary of each part of the text that begins
/// with the text and ends at a later boundary.
pub proof fn lemma_boundary_of_prefix(bytes: Seq<u8>, index: int, end: int)
    requires
        valid_utf8(bytes),
        0 <= index <= end <= bytes.len(),
        is_char_boundary(bytes, index),
        is_char_boundary(bytes, end),
    ensures
        valid_utf8(bytes.subrange(0, end)),
        is_char_boundary(bytes.subrange(0, end), index),
{
    valid_utf8_split(bytes, end);
    let prefix = bytes.subrange(0, end);
    if index == end {
        is_char_boundary_start_end_of_seq(prefix);
    } else {
        is_char_boundary_iff_not_is_continuation_byte(bytes, index);
        is_char_boundary_iff_not_is_continuation_byte(prefix, index);
    }
}

/// The part of a text between two character boundaries, as the text that
/// it encodes.
pub fn substring(text: &str, start: usize, end: usize) -> (part: String)
    requires
        start <= end <= text.spec_bytes().len(),
        is_char_boundary(text.spec_bytes(), start as int),
        is_char_boundary(text.spec_bytes(), end as int),
    ensures
        encode_utf8(part@) == text.spec_bytes().subrange(start as int, end as int),
{
    let (front, _) = text.split_at(end);
    proof {
        encode_utf8_valid_utf8(text@);
        lemma_boundary_of_prefix(text.spec_bytes(), start as int, end as int);
        assert(front.spec_bytes() =~= text.spec_bytes().subrange(0, end as int));
    }
    let (_, part) = front.split_at(start);
    proof {
        assert(part.spec_bytes() =~= text.spec_bytes().subrange(start as int, end as int));
    }
    part.to_owned()
}

} // verus!
