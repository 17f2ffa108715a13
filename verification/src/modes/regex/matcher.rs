//! Matching a pattern against a text.
use regex::Regex;
use vstd::prelude::*;
use vstd::string::*;
use vstd::utf8::*;

verus! {

/// Whether the regex crate accepts the pattern.
pub uninterp spec fn pattern_accepted(pattern: Seq<char>) -> bool;

/// What the regex crate finds of an accepted pattern in a text: the byte
/// ranges of the successive matches.
pub uninterp spec fn pattern_spans(pattern: Seq<char>, haystack: Seq<char>) -> Seq<
    (usize, usize),
>;

/// Each span is a half-open range of the text that begins and ends
/// between two characters.
pub open spec fn valid_spans(spans: Seq<(usize, usize)>, bytes: Seq<u8>) -> bool {
    forall|i: int|
        0 <= i < spans.len() ==> {
            &&& (#[trigger] spans[i]).0 <= spans[i].1 <= bytes.len()
            &&& is_char_boundary(bytes, spans[i].0 as int)
            &&& is_char_boundary(bytes, spans[i].1 as int)
        }
}

/// Compiles the pattern with `Regex::new` and collects the start and end
/// of every match that `Regex::find_iter` yields for the text.
///
/// The contract names the two results after the pattern and the text:
/// whether the pattern is accepted, and what is found of it. It adds what
/// the crate documents of every match: its start is not behind its end,
/// and both are offsets between characters of the text.
#[verifier::external_body]
pub(crate) fn find_spans(pattern: &str, haystack: &str) -> (found: Result<
    Vec<(usize, usize)>,
    regex::Error,
>)
    ensures
        match found {
            Ok(spans) => {
                &&& pattern_accepted(pattern@)
                &&& spans@ == pattern_spans(pattern@, haystack@)
                &&& valid_spans(spans@, haystack.spec_bytes())
            },
            Err(_) => !pattern_accepted(pattern@),
        },
{
    let regex = Regex::new(pattern)?;
    Ok(regex.find_iter(haystack).map(|found| (found.start(), found.end())).collect())
}

/// Whether the regex crate accepts the pattern.
pub fn is_accepted(pattern: &str) -> (accepted: bool)
    ensures
        accepted == pattern_accepted(pattern@),
{
    find_spans(pattern, "").is_ok()
}

} // verus!
