//! A mode that allows selection based on a list of regexes.
//!
//! The idea behind this mode is to allow the user to provide a list
//! of regexes, and then select part of the text that matches any of them.
use crate::configuration::RegexArgs;
use crate::error::RunError;
use crate::hints::{usable, HintGenerator};
use crate::input_handler::KeyPress;
use crate::modes::{Mode, ModeEvent};
use crate::offsets::{
    get_original_index, lemma_kept_position_has_index, lemma_original_index_bounds,
    lemma_original_index_kept, lemma_original_index_spreads, lemma_ranges_within,
    lemma_unbroken_part, lemma_without_ranges_len, original_index, position_removed,
    ranges_within, remove_ranges, without_ranges,
};
use crate::rendering::ansi_sequence_extractor::{
    ansi_sequences, find_sequences, lemma_first_terminator_bounds, sequence_starts_at,
};
use crate::rendering::api_types::{
    hint_style, highlight_style, DataOverlay, Draw, StyledSegment, TextStyle,
};
use crate::text::{lemma_ascii_boundaries, substring};
use vstd::prelude::*;
use vstd::string::*;
use vstd::utf8::*;

pub mod hint_hit_map;
pub mod matcher;
pub mod selection;

use hint_hit_map::{
    assigned_hints, distinct_texts, hit_texts, lemma_position_of, position_of, HintHitMap, Hit,
};
use matcher::{find_spans, pattern_accepted, pattern_spans, valid_spans};
use selection::{
    key_step, lemma_assigned_hints_selectable, lemma_key_step_waits, selectable, waiting,
};

verus! {

/// The spans that are not empty, in their order.
pub open spec fn nonempty_spans(spans: Seq<(usize, usize)>) -> Seq<(usize, usize)>
    decreases spans.len(),
{
    if spans.len() == 0 {
        Seq::empty()
    } else if spans.last().0 < spans.last().1 {
        nonempty_spans(spans.drop_last()).push(spans.last())
    } else {
        nonempty_spans(spans.drop_last())
    }
}

/// Every span is a range of a text of the given length that is not
/// empty.
pub open spec fn spans_within(spans: Seq<(usize, usize)>, len: int) -> bool {
    forall|i: int| 0 <= i < spans.len() ==> (#[trigger] spans[i]).0 < spans[i].1 <= len
}

/// The spans that are not empty are not empty, and lie where all the spans
/// lie.
pub proof fn lemma_nonempty_spans(spans: Seq<(usize, usize)>, bytes: Seq<u8>)
    requires
        valid_spans(spans, bytes),
    ensures
        spans_within(nonempty_spans(spans), bytes.len() as int),
    decreases spans.len(),
{
    if spans.len() > 0 {
        assert forall|i: int| 0 <= i < spans.drop_last().len() implies {
            &&& (#[trigger] spans.drop_last()[i]).0 <= spans.drop_last()[i].1 <= bytes.len()
            &&& is_char_boundary(bytes, spans.drop_last()[i].0 as int)
            &&& is_char_boundary(bytes, spans.drop_last()[i].1 as int)
        } by {
            assert(spans.drop_last()[i] == spans[i]);
        }
        lemma_nonempty_spans(spans.drop_last(), bytes);
        assert(spans.last() == spans[spans.len() - 1]);
    }
}

/// Whether the regex crate accepts every pattern.
pub open spec fn patterns_accepted(patterns: Seq<Seq<char>>) -> bool {
    forall|i: int| 0 <= i < patterns.len() ==> pattern_accepted(#[trigger] patterns[i])
}

/// The matches of all the patterns that are not empty: pattern by pattern
/// in the order of the patterns, and for each pattern in the order in
/// which they are found.
pub open spec fn matched_spans(patterns: Seq<Seq<char>>, clean: Seq<char>) -> Seq<(usize, usize)>
    decreases patterns.len(),
{
    if patterns.len() == 0 {
        Seq::empty()
    } else {
        matched_spans(patterns.drop_last(), clean) + nonempty_spans(
            pattern_spans(patterns.last(), clean),
        )
    }
}

/// The hit stands for the span of the text without the ranges: it begins
/// where the first byte of the span was in the text, ends with the last
/// one, and carries the bytes of the span.
pub open spec fn is_hit_of(
    hit: Hit,
    removed: Seq<(usize, usize)>,
    clean: Seq<u8>,
    span: (usize, usize),
) -> bool {
    &&& hit.start == original_index(removed, span.0 as int)
    &&& hit.length == original_index(removed, span.1 - 1) - hit.start + 1
    &&& encode_utf8(hit.text@) == clean.subrange(span.0 as int, span.1 as int)
}

/// The hits stand for the spans, one for one.
pub open spec fn are_hits_of(
    hits: Seq<Hit>,
    removed: Seq<(usize, usize)>,
    clean: Seq<u8>,
    spans: Seq<(usize, usize)>,
) -> bool {
    &&& hits.len() == spans.len()
    &&& forall|i: int|
        0 <= i < hits.len() ==> is_hit_of(#[trigger] hits[i], removed, clean, spans[i])
}

/// The hit lies in the text, is not empty, and is its text unless
/// something was removed inside it: the bytes of the text from `hit.start`
/// on, `hit.length` of them, are the bytes of `hit.text` wherever the hit
/// is as long as its text. It is longer where ranges were removed inside
/// it.
pub open spec fn hit_in_text(hit: Hit, bytes: Seq<u8>) -> bool {
    &&& hit.start + hit.length <= bytes.len()
    &&& 0 < encode_utf8(hit.text@).len() <= hit.length
    &&& hit.length == encode_utf8(hit.text@).len() ==> bytes.subrange(
        hit.start as int,
        hit.start + hit.length,
    ) == encode_utf8(hit.text@)
}

/// Every hit lies in the text as [`hit_in_text`] says.
pub open spec fn hits_in_text(hits: Seq<Hit>, bytes: Seq<u8>) -> bool {
    forall|i: int| 0 <= i < hits.len() ==> hit_in_text(#[trigger] hits[i], bytes)
}

/// The text of each span.
pub open spec fn span_texts(clean: Seq<u8>, spans: Seq<(usize, usize)>) -> Seq<Seq<char>> {
    Seq::new(
        spans.len(),
        |i: int| decode_utf8(clean.subrange(spans[i].0 as int, spans[i].1 as int)),
    )
}

/// A hit lies within the text, and the bytes of its text are, in their
/// order, the bytes of the text from the start to the end of the hit that
/// lie in none of the removed ranges: each byte of the hit's text is the
/// byte of the text at the original index, these indices lie within the
/// hit, and every position within the hit that was not removed is one of
/// them. Where nothing was removed inside the hit, the hit is its text.
pub proof fn lemma_hit_in_text(
    bytes: Seq<u8>,
    removed: Seq<(usize, usize)>,
    hit: Hit,
    span: (usize, usize),
)
    requires
        ranges_within(removed, 0, bytes.len() as int),
        span.0 < span.1 <= without_ranges(bytes, removed, 0).len(),
        is_hit_of(hit, removed, without_ranges(bytes, removed, 0), span),
    ensures
        hit.start + hit.length <= bytes.len(),
        hit.length >= span.1 - span.0,
        forall|index: int|
            span.0 <= index < span.1 ==> {
                let original = #[trigger] original_index(removed, index);
                &&& hit.start <= original < hit.start + hit.length
                &&& bytes[original] == encode_utf8(hit.text@)[index - span.0]
                &&& !position_removed(removed, original)
            },
        forall|low: int, high: int|
            span.0 <= low < high < span.1 ==> #[trigger] original_index(removed, low)
                < #[trigger] original_index(removed, high),
        forall|position: int|
            hit.start <= position < hit.start + hit.length && !#[trigger] position_removed(
                removed,
                position,
            ) ==> exists|index: int|
                span.0 <= index < span.1 && #[trigger] original_index(removed, index) == position,
        hit.length == span.1 - span.0 ==> bytes.subrange(
            hit.start as int,
            hit.start + hit.length,
        ) == encode_utf8(hit.text@),
        hit_in_text(hit, bytes),
{
    lemma_ranges_within(removed, 0, bytes.len() as int);
    lemma_original_index_kept(bytes, removed, 0, span.1 - 1);
    lemma_original_index_spreads(removed, span.0 as int, span.1 - 1);
    assert forall|index: int| span.0 <= index < span.1 implies {
        let original = #[trigger] original_index(removed, index);
        &&& hit.start <= original < hit.start + hit.length
        &&& bytes[original] == encode_utf8(hit.text@)[index - span.0]
        &&& !position_removed(removed, original)
    } by {
        lemma_original_index_spreads(removed, span.0 as int, index);
        lemma_original_index_spreads(removed, index, span.1 - 1);
        lemma_original_index_kept(bytes, removed, 0, index);
    }
    assert forall|low: int, high: int| span.0 <= low < high < span.1 implies (
    #[trigger] original_index(removed, low)) < (#[trigger] original_index(removed, high)) by {
        lemma_original_index_spreads(removed, low, high);
    }
    assert forall|position: int|
        hit.start <= position < hit.start + hit.length && !#[trigger] position_removed(
            removed,
            position,
        ) implies exists|index: int|
        span.0 <= index < span.1 && #[trigger] original_index(removed, index) == position by {
        lemma_kept_position_has_index(removed, 0, bytes.len() as int, position);
        let index = choose|index: int|
            0 <= index <= position && original_index(removed, index) == position;
        if index < span.0 {
            lemma_original_index_spreads(removed, index, span.0 as int);
        }
        if index > span.1 - 1 {
            lemma_original_index_spreads(removed, span.1 - 1, index);
        }
    }
    if hit.length == span.1 - span.0 {
        lemma_unbroken_part(bytes, removed, span.0 as int, span.1 as int);
    }
}

/// Adds the hit of every span that is not empty to `hits`.
///
/// `removed` are the ranges that were taken out of `data`, `clean` is
/// what was left and `spans` are ranges of `clean`.
pub fn collect_hits(
    data: &str,
    removed: &[(usize, usize)],
    clean: &str,
    spans: &[(usize, usize)],
    hits: &mut Vec<Hit>,
)
    requires
        ranges_within(removed@, 0, data.spec_bytes().len() as int),
        clean.spec_bytes() == without_ranges(data.spec_bytes(), removed@, 0),
        valid_spans(spans@, clean.spec_bytes()),
    ensures
        old(hits)@.is_prefix_of(final(hits)@),
        are_hits_of(
            final(hits)@.skip(old(hits)@.len() as int),
            removed@,
            clean.spec_bytes(),
            nonempty_spans(spans@),
        ),
        spans_within(nonempty_spans(spans@), clean.spec_bytes().len() as int),
        hits_in_text(final(hits)@.skip(old(hits)@.len() as int), data.spec_bytes()),
{
    let ghost bytes = data.spec_bytes();
    let ghost kept = clean.spec_bytes();
    let ghost before = hits@;
    let length = data.as_bytes().len();
    let mut i: usize = 0;
    proof {
        lemma_ranges_within(removed@, 0, bytes.len() as int);
        lemma_without_ranges_len(bytes, removed@, 0);
        assert(spans@.take(0) =~= Seq::<(usize, usize)>::empty());
        assert(hits@.skip(before.len() as int) =~= Seq::<Hit>::empty());
        lemma_nonempty_spans(spans@, kept);
    }
    while i < spans.len()
        invariant
            0 <= i <= spans@.len(),
            bytes == data.spec_bytes(),
            kept == clean.spec_bytes(),
            bytes.len() == length,
            ranges_within(removed@, 0, bytes.len() as int),
            crate::offsets::ranges_ordered(removed@),
            kept == without_ranges(bytes, removed@, 0),
            kept.len() == bytes.len() - crate::offsets::removed_len(removed@),
            valid_spans(spans@, kept),
            before.is_prefix_of(hits@),
            are_hits_of(
                hits@.skip(before.len() as int),
                removed@,
                kept,
                nonempty_spans(spans@.take(i as int)),
            ),
            hits_in_text(hits@.skip(before.len() as int), bytes),
        decreases spans.len() - i,
    {
        let (start, end) = spans[i];
        let ghost added = hits@.skip(before.len() as int);
        proof {
            assert(spans@.take(i + 1).drop_last() =~= spans@.take(i as int));
            assert(spans@.take(i + 1).last() == spans@[i as int]);
        }
        if start < end {
            proof {
                lemma_original_index_kept(bytes, removed@, 0, end - 1);
                lemma_original_index_spreads(removed@, start as int, end - 1);
                lemma_original_index_bounds(removed@, start as int);
            }
            let first_in_original_data = get_original_index(removed, start);
            let last_in_original_data = get_original_index(removed, end - 1);
            let hit = Hit {
                start: first_in_original_data,
                length: last_in_original_data - first_in_original_data + 1,
                text: substring(clean, start, end),
            };
            hits.push(hit);
            proof {
                let longer = hits@.skip(before.len() as int);
                assert(longer =~= added.push(hit));
                lemma_hit_in_text(bytes, removed@, hit, (start, end));
                assert forall|k: int| 0 <= k < longer.len() implies hit_in_text(
                    #[trigger] longer[k],
                    bytes,
                ) by {
                    if k < added.len() {
                        assert(longer[k] == added[k]);
                    }
                }
                assert forall|k: int| 0 <= k < longer.len() implies is_hit_of(
                    #[trigger] longer[k],
                    removed@,
                    kept,
                    nonempty_spans(spans@.take(i + 1))[k],
                ) by {
                    if k < added.len() {
                        assert(longer[k] == added[k]);
                    }
                }
            }
        }
        i += 1;
    }
    assert(spans@.take(spans@.len() as int) =~= spans@);
}

/// Struct representing the regex selection mode.
pub struct RegexMode {
    /// A map between the hint (sequence of characters that select a hit) and
    /// the [Hit] struct itself containing the details of the hit.
    hint_hit_map: HintHitMap,
    /// The sequence of characters pressed so far.
    ///
    /// This is needed for situations when selecting any hit requires at least
    /// two key presses.
    input_buffer: String,
    /// The style in which the hits are drawn.
    highlight: TextStyle,
    /// The style in which the hints are drawn.
    hint: TextStyle,
}

impl RegexMode {
    /// The hints of the mode, one for each hit that can be selected.
    pub closed spec fn hints(&self) -> Seq<Seq<char>> {
        self.hint_hit_map.hints()
    }

    /// The hits of the mode that can be selected.
    pub closed spec fn hits(&self) -> Seq<Hit> {
        self.hint_hit_map.hits()
    }

    /// The text of each hit that can be selected.
    pub open spec fn texts(&self) -> Seq<Seq<char>> {
        hit_texts(self.hits())
    }

    /// The keys typed so far that have not yet selected anything.
    pub closed spec fn typed(&self) -> Seq<char> {
        self.input_buffer@
    }

    /// The style in which the hits are drawn.
    pub closed spec fn highlight(&self) -> TextStyle {
        self.highlight
    }

    /// The style in which the hints are drawn.
    pub closed spec fn hint(&self) -> TextStyle {
        self.hint
    }

    /// What [`RegexMode::new`] makes of the data, the args and the hint
    /// generator.
    ///
    /// The ANSI sequences of the data are left out of the matching. The
    /// mode is refused if and only if the regex crate does not accept one
    /// of the patterns. Otherwise nothing is typed yet, hits and hints are
    /// drawn in the styles of [`highlight_style`] and [`hint_style`], the
    /// hits stand for the
    /// matches that are not empty, in the order of the patterns and of the
    /// matches of each, as far as there are hints, and the hints are the
    /// ones that the generator gives for the number of distinct texts of
    /// the matches, each distinct text with the next hint. Every hit lies
    /// in the data as [`hit_in_text`] says, and with usable hints every
    /// hit of the mode can be selected.
    pub open spec fn made<G: HintGenerator + ?Sized>(
        made: Result<Self, RunError>,
        data: &str,
        args: &RegexArgs,
        hint_generator: &G,
    ) -> bool {
        let bytes = data.spec_bytes();
        let removed = ansi_sequences(bytes);
        let kept = without_ranges(bytes, removed, 0);
        let patterns = args.regexes.deep_view();
        let spans = matched_spans(patterns, decode_utf8(kept));
        let texts = span_texts(kept, spans);
        match made {
            Ok(mode) => {
                &&& args.accepted()
                &&& mode.typed() == Seq::<char>::empty()
                &&& mode.highlight() == highlight_style()
                &&& mode.hint() == hint_style()
                &&& mode.hints() == assigned_hints(
                    texts,
                    hint_generator.hints(distinct_texts(texts).len()),
                )
                &&& mode.hits().len() == mode.hints().len() <= spans.len()
                &&& are_hits_of(mode.hits(), removed, kept, spans.take(mode.hits().len() as int))
                &&& spans_within(spans, kept.len() as int)
                &&& hits_in_text(mode.hits(), bytes)
                &&& usable(hint_generator.hints(distinct_texts(texts).len())) ==> selectable(
                    mode.hints(),
                    mode.texts(),
                )
            },
            Err(_) => !args.accepted(),
        }
    }

    /// Create a new regex mode for selecting from the given data with the given args.
    ///
    /// The ANSI sequences of the data are left out of the matching. The
    /// mode is not made if the regex crate refuses one of the patterns.
    /// Otherwise the matches that are not empty become the hits, in the
    /// order of the patterns and of the matches of each, and get the hints
    /// of the generator as [`HintHitMap::new`] says.
    pub fn new<G: HintGenerator + ?Sized>(
        data: &str,
        args: &RegexArgs,
        hint_generator: &G,
    ) -> (made: Result<
        Self,
        RunError,
    >)
        ensures
            RegexMode::made(made, data, args, hint_generator),
    {
        let ghost bytes = data.spec_bytes();
        let ghost removed = ansi_sequences(bytes);
        let ghost kept = without_ranges(bytes, removed, 0);
        let ghost patterns = args.regexes.deep_view();
        let mut hits: Vec<Hit> = Vec::new();

        // All ANSI color sequences should be ignored while matching
        let ignore_ranges = find_sequences(data.as_bytes());
        proof {
            encode_utf8_valid_utf8(data@);
            assert forall|i: int| 0 <= i < removed.len() implies {
                &&& is_char_boundary(bytes, (#[trigger] removed[i]).0 as int)
                &&& is_char_boundary(bytes, removed[i].1 as int)
            } by {
                assert(sequence_starts_at(bytes, ignore_ranges@[i].0 as int));
                lemma_first_terminator_bounds(bytes, removed[i].0 + 2);
                lemma_ascii_boundaries(bytes, removed[i].0 as int);
                lemma_ascii_boundaries(bytes, removed[i].1 - 1);
            }
        }

        // Remove all the ignored sequences and perform the matching
        // on the resulting data
        let cleaned_data = remove_ranges(data, ignore_ranges.as_slice());
        proof {
            encode_utf8_decode_utf8(cleaned_data@);
            assert(patterns.take(0) =~= Seq::<Seq<char>>::empty());
        }

        let mut i: usize = 0;
        while i < args.regexes.len()
            invariant
                0 <= i <= args.regexes@.len(),
                bytes == data.spec_bytes(),
                removed == ansi_sequences(bytes),
                ignore_ranges@ == removed,
                kept == without_ranges(bytes, removed, 0),
                patterns == args.regexes.deep_view(),
                ranges_within(removed, 0, bytes.len() as int),
                cleaned_data@ == decode_utf8(kept),
                encode_utf8(cleaned_data@) == kept,
                patterns_accepted(patterns.take(i as int)),
                are_hits_of(
                    hits@,
                    removed,
                    kept,
                    matched_spans(patterns.take(i as int), cleaned_data@),
                ),
                spans_within(
                    matched_spans(patterns.take(i as int), cleaned_data@),
                    kept.len() as int,
                ),
                hits_in_text(hits@, bytes),
            decreases args.regexes.len() - i,
        {
            let ghost before = hits@;
            let ghost earlier = matched_spans(patterns.take(i as int), cleaned_data@);
            proof {
                assert(patterns.take(i + 1).drop_last() =~= patterns.take(i as int));
                assert(patterns.take(i + 1).last() == patterns[i as int]);
                assert(patterns[i as int] == args.regexes@[i as int]@);
            }
            let spans = match find_spans(args.regexes[i].as_str(), cleaned_data.as_str()) {
                Ok(spans) => spans,
                Err(source) => {
                    return Err(RunError::InvalidRegex { source });
                },
            };
            collect_hits(
                data,
                ignore_ranges.as_slice(),
                cleaned_data.as_str(),
                spans.as_slice(),
                &mut hits,
            );
            proof {
                let added = hits@.skip(before.len() as int);
                let found = nonempty_spans(spans@);
                let all = matched_spans(patterns.take(i + 1), cleaned_data@);
                assert(all == earlier + found);
                assert(hits@ =~= before + added);
                assert forall|k: int| 0 <= k < hits@.len() implies is_hit_of(
                    #[trigger] hits@[k],
                    removed,
                    kept,
                    all[k],
                ) by {
                    if k < before.len() {
                        assert(hits@[k] == before[k]);
                    } else {
                        assert(hits@[k] == added[k - before.len()]);
                    }
                }
                assert forall|k: int| 0 <= k < hits@.len() implies hit_in_text(
                    #[trigger] hits@[k],
                    bytes,
                ) by {
                    if k < before.len() {
                        assert(hits@[k] == before[k]);
                    } else {
                        assert(hits@[k] == added[k - before.len()]);
                    }
                }
                assert forall|k: int| 0 <= k < all.len() implies (#[trigger] all[k]).0 < all[k].1
                    <= kept.len() by {
                    if k < earlier.len() {
                        assert(all[k] == earlier[k]);
                    } else {
                        assert(all[k] == found[k - earlier.len()]);
                    }
                }
                assert forall|k: int| 0 <= k < i + 1 implies pattern_accepted(
                    #[trigger] patterns.take(i + 1)[k],
                ) by {
                    if k < i {
                        assert(patterns.take(i + 1)[k] == patterns.take(i as int)[k]);
                    }
                }
            }
            i += 1;
        }
        let ghost spans = matched_spans(patterns, cleaned_data@);
        let ghost texts = span_texts(kept, spans);
        let ghost found = hits@;
        proof {
            assert(patterns.take(patterns.len() as int) =~= patterns);
            assert(hit_texts(found) =~= texts) by {
                assert forall|k: int| 0 <= k < found.len() implies found[k].text@
                    == #[trigger] texts[k] by {
                    assert(is_hit_of(found[k], removed, kept, spans[k]));
                    encode_utf8_decode_utf8(found[k].text@);
                }
            }
        }

        let hint_hit_map = HintHitMap::new(hits, hint_generator);
        proof {
            let count = hint_hit_map.pairs@.len() as int;
            assert forall|k: int| 0 <= k < count implies is_hit_of(
                #[trigger] hint_hit_map.hits()[k],
                removed,
                kept,
                spans.take(count)[k],
            ) by {
                assert(hint_hit_map.hits()[k] == found[k]);
            }
            assert forall|k: int| 0 <= k < count implies hit_in_text(
                #[trigger] hint_hit_map.hits()[k],
                bytes,
            ) by {
                assert(hint_hit_map.hits()[k] == found[k]);
            }
            let given = hint_generator.hints(distinct_texts(texts).len());
            if usable(given) {
                lemma_assigned_hints_selectable(texts, given);
                assert(hit_texts(hint_hit_map.hits()) =~= texts.take(count)) by {
                    assert forall|k: int| 0 <= k < count implies hit_texts(hint_hit_map.hits())[k]
                        == texts.take(count)[k] by {
                        assert(hint_hit_map.hits()[k] == found[k]);
                    }
                }
            }
        }

        Ok(
            Self {
                hint_hit_map,
                input_buffer: String::new(),
                highlight: crate::rendering::api_types::highlight(),
                hint: crate::rendering::api_types::hint(),
            },
        )
    }

    /// The mode with other styles for its hits and its hints.
    pub fn with_styles(self, highlight: TextStyle, hint: TextStyle) -> (mode: Self)
        ensures
            mode.highlight() == highlight,
            mode.hint() == hint,
            mode.hints() == self.hints(),
            mode.hits() == self.hits(),
            mode.typed() == self.typed(),
    {
        Self {
            hint_hit_map: self.hint_hit_map,
            input_buffer: self.input_buffer,
            highlight,
            hint,
        }
    }
}

impl Mode for RegexMode {
    /// Takes the key to the keys typed so far. Where they are a hint now,
    /// the text of its first hit is selected; where no hint begins with
    /// them, they are forgotten; else the mode waits for more.
    fn handle_key_press(&mut self, key: KeyPress) -> (event: Option<ModeEvent>)
        ensures
            final(self).hints() == old(self).hints(),
            final(self).hits() == old(self).hits(),
            final(self).highlight() == old(self).highlight(),
            final(self).hint() == old(self).hint(),
            waiting(final(self).hints(), final(self).typed()),
            ({
                let step = key_step(
                    old(self).hints(),
                    old(self).texts(),
                    old(self).typed(),
                    key.key,
                );
                &&& final(self).typed() == step.0
                &&& match event {
                    Some(ModeEvent::TextSelected(text)) => step.1 == Some(text@),
                    Some(_) => false,
                    None => step.1 is None,
                }
            }),
    {
        proof {
            lemma_key_step_waits(self.hints(), self.texts(), self.typed(), key.key);
        }
        self.input_buffer.push(key.key);
        let ghost now = self.input_buffer@;
        let selected = match self.hint_hit_map.get_hit(self.input_buffer.as_str()) {
            Some(hit) => {
                let text = hit.text.clone();
                proof {
                    let at = position_of(self.hint_hit_map.hints(), now);
                    lemma_position_of(self.hint_hit_map.hints(), now);
                    assert(self.hint_hit_map.hits()[at] == *hit);
                    assert(old(self).texts()[at] == text@);
                }
                Some(text)
            },
            None => None,
        };
        match selected {
            Some(text) => {
                self.input_buffer = String::new();
                Some(ModeEvent::TextSelected(text))
            },
            None => {
                if !self.hint_hit_map.has_hint_with_prefix(self.input_buffer.as_str()) {
                    self.input_buffer = String::new();
                }
                None
            },
        }
    }

    /// One instruction: to draw the data with every hit highlighted, the
    /// start of every hit in the style of the hints, as long as the hint,
    /// and the hint written over it.
    fn get_draw_instructions(&self) -> (instructions: Vec<Draw>)
        ensures
            instructions@.len() == 1,
            instructions@[0] matches Draw::StyledData { styled_segments, text_overlays } && {
                let count = self.hits().len() as int;
                &&& styled_segments@.len() == 2 * count
                &&& text_overlays@.len() == count
                &&& forall|i: int|
                    0 <= i < count ==> {
                        let hit = self.hits()[i];
                        let highlight = #[trigger] styled_segments@[i];
                        &&& highlight.start == hit.start
                        &&& highlight.length == hit.length
                        &&& highlight.style == self.highlight()
                    }
                &&& forall|i: int|
                    0 <= i < count ==> {
                        let hit = self.hits()[i];
                        let label = #[trigger] styled_segments@[count + i];
                        &&& label.start == hit.start
                        &&& label.length == encode_utf8(self.hints()[i]).len()
                        &&& label.style == self.hint()
                    }
                &&& forall|i: int|
                    0 <= i < count ==> {
                        let overlay = #[trigger] text_overlays@[i];
                        &&& overlay.location == self.hits()[i].start
                        &&& overlay.text@ == self.hints()[i]
                    }
            },
    {
        let highlight = self.highlight;
        let label = self.hint;
        let count = self.hint_hit_map.pairs.len();
        let mut highlights: Vec<StyledSegment> = Vec::new();
        let mut i: usize = 0;
        while i < count
            invariant
                0 <= i <= count == self.hint_hit_map.pairs@.len(),
                highlight == self.highlight(),
                highlights@.len() == i,
                forall|k: int|
                    0 <= k < i ==> {
                        let segment = #[trigger] highlights@[k];
                        &&& segment.start == self.hits()[k].start
                        &&& segment.length == self.hits()[k].length
                        &&& segment.style == self.highlight()
                    },
            decreases count - i,
        {
            let hit = &self.hint_hit_map.pairs[i].1;
            highlights.push(
                StyledSegment { start: hit.start, length: hit.length, style: highlight },
            );
            i += 1;
        }
        let mut overlays: Vec<DataOverlay> = Vec::new();
        let mut i: usize = 0;
        while i < count
            invariant
                0 <= i <= count == self.hint_hit_map.pairs@.len(),
                label == self.hint(),
                highlights@.len() == count + i,
                overlays@.len() == i,
                forall|k: int|
                    0 <= k < count ==> {
                        let segment = #[trigger] highlights@[k];
                        &&& segment.start == self.hits()[k].start
                        &&& segment.length == self.hits()[k].length
                        &&& segment.style == self.highlight()
                    },
                forall|k: int|
                    0 <= k < i ==> {
                        let segment = #[trigger] highlights@[count + k];
                        &&& segment.start == self.hits()[k].start
                        &&& segment.length == encode_utf8(self.hints()[k]).len()
                        &&& segment.style == self.hint()
                    },
                forall|k: int|
                    0 <= k < i ==> {
                        let overlay = #[trigger] overlays@[k];
                        &&& overlay.location == self.hits()[k].start
                        &&& overlay.text@ == self.hints()[k]
                    },
            decreases count - i,
        {
            let hint = &self.hint_hit_map.pairs[i].0;
            let hit = &self.hint_hit_map.pairs[i].1;
            let ghost before = highlights@;
            let ghost labels = overlays@;
            highlights.push(
                StyledSegment {
                    start: hit.start,
                    length: hint.as_str().as_bytes().len(),
                    style: label,
                },
            );
            overlays.push(DataOverlay { location: hit.start, text: hint.clone() });
            proof {
                assert forall|k: int| 0 <= k < count implies {
                    let segment = #[trigger] highlights@[k];
                    &&& segment.start == self.hits()[k].start
                    &&& segment.length == self.hits()[k].length
                    &&& segment.style == self.highlight()
                } by {
                    assert(highlights@[k] == before[k]);
                }
                assert forall|k: int| 0 <= k < i + 1 implies {
                    let segment = #[trigger] highlights@[count + k];
                    &&& segment.start == self.hits()[k].start
                    &&& segment.length == encode_utf8(self.hints()[k]).len()
                    &&& segment.style == self.hint()
                } by {
                    if k < i {
                        assert(highlights@[count + k] == before[count + k]);
                    }
                }
                assert forall|k: int| 0 <= k < i + 1 implies {
                    let overlay = #[trigger] overlays@[k];
                    &&& overlay.location == self.hits()[k].start
                    &&& overlay.text@ == self.hints()[k]
                } by {
                    if k < i {
                        assert(overlays@[k] == labels[k]);
                    }
                }
            }
            i += 1;
        }
        let mut instructions: Vec<Draw> = Vec::new();
        instructions.push(
            Draw::StyledData { styled_segments: highlights, text_overlays: overlays },
        );
        instructions
    }
}

} // verus!
