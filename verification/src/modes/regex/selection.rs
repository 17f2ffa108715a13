//! Selecting a hit by typing its hint.
//!
//! The keys typed so far are kept as long as some hint begins with them.
//! The key that completes a hint selects the text of the first hit with
//! that hint; a key after which no hint begins with what was typed makes
//! the mode forget what was typed.
use crate::hints::pool_generator::{
    distinct_characters, lemma_pool_hints_prefix_free, lemma_pool_hints_shape, pool_hints,
};
use crate::hints::{prefix_free, usable};
use crate::modes::regex::hint_hit_map::{
    assigned_hints, begins_hint, distinct_texts, lemma_assigned_hints_prefix_free,
    lemma_position_of, lemma_served_position, position_of, served,
};
use vstd::prelude::*;

verus! {

/// What one key does: the keys that are kept afterwards, and the text that
/// was selected, if any.
pub open spec fn key_step(
    hints: Seq<Seq<char>>,
    texts: Seq<Seq<char>>,
    typed: Seq<char>,
    key: char,
) -> (Seq<char>, Option<Seq<char>>) {
    let now = typed.push(key);
    let at = position_of(hints, now);
    if at < hints.len() {
        (Seq::empty(), Some(texts[at]))
    } else if begins_hint(hints, now) {
        (now, None)
    } else {
        (Seq::empty(), None)
    }
}

/// The two states of a selection: nothing is typed, or what is typed begins
/// a hint and is none yet.
pub open spec fn waiting(hints: Seq<Seq<char>>, typed: Seq<char>) -> bool {
    typed.len() == 0 || (begins_hint(hints, typed) && position_of(hints, typed) == hints.len())
}

/// Whatever was typed before, a key leaves the selection in one of its two
/// states.
pub proof fn lemma_key_step_waits(
    hints: Seq<Seq<char>>,
    texts: Seq<Seq<char>>,
    typed: Seq<char>,
    key: char,
)
    ensures
        waiting(hints, key_step(hints, texts, typed, key).0),
{
    lemma_position_of(hints, typed.push(key));
}

/// What a run of keys does: the keys that are kept afterwards, and the
/// texts that were selected on the way, in their order.
pub open spec fn feed(
    hints: Seq<Seq<char>>,
    texts: Seq<Seq<char>>,
    typed: Seq<char>,
    keys: Seq<char>,
) -> (Seq<char>, Seq<Seq<char>>)
    decreases keys.len(),
{
    if keys.len() == 0 {
        (typed, Seq::empty())
    } else {
        let before = feed(hints, texts, typed, keys.drop_last());
        let step = key_step(hints, texts, before.0, keys.last());
        (
            step.0,
            match step.1 {
                Some(text) => before.1.push(text),
                None => before.1,
            },
        )
    }
}

/// The hints tell the texts apart and can be typed: every hit has a hint
/// and a text, no hint is empty, and where the hint of one hit begins the
/// hint of another, the two hits have the same hint and the same text.
pub open spec fn selectable(hints: Seq<Seq<char>>, texts: Seq<Seq<char>>) -> bool {
    &&& hints.len() == texts.len()
    &&& forall|i: int| 0 <= i < hints.len() ==> (#[trigger] hints[i]).len() > 0
    &&& forall|i: int, j: int|
        0 <= i < hints.len() && 0 <= j < hints.len() && (#[trigger] hints[i]).is_prefix_of(
            #[trigger] hints[j],
        ) ==> hints[i] == hints[j] && texts[i] == texts[j]
}

/// Typing a hint key by key, with nothing typed before, selects the text of
/// its hit with the last key and nothing before that: after each key but
/// the last the keys typed are kept and no text was selected; after the
/// last one exactly the text of the hit was selected, and no key is kept.
pub proof fn lemma_typing_a_hint_selects_its_text(
    hints: Seq<Seq<char>>,
    texts: Seq<Seq<char>>,
    hit: int,
    keys: int,
)
    requires
        selectable(hints, texts),
        0 <= hit < hints.len(),
        0 <= keys <= hints[hit].len(),
    ensures
        feed(hints, texts, Seq::empty(), hints[hit].take(keys)) == if keys < hints[hit].len() {
            (hints[hit].take(keys), Seq::<Seq<char>>::empty())
        } else {
            (Seq::<char>::empty(), seq![texts[hit]])
        },
    decreases keys,
{
    let hint = hints[hit];
    let typed = hint.take(keys);
    if keys == 0 {
        assert(typed =~= Seq::<char>::empty());
    } else {
        lemma_typing_a_hint_selects_its_text(hints, texts, hit, keys - 1);
        let before = hint.take(keys - 1);
        assert(typed.drop_last() =~= before);
        assert(typed.last() == hint[keys - 1]);
        assert(before.push(hint[keys - 1]) =~= typed);
        assert(typed.is_prefix_of(hint));
        lemma_position_of(hints, typed);
        let at = position_of(hints, typed);
        if at < hints.len() {
            assert(hints[at].is_prefix_of(hints[hit]));
            assert(seq![texts[hit]] =~= Seq::<Seq<char>>::empty().push(texts[at]));
        } else if keys == hint.len() {
            assert(typed =~= hint);
            assert(hints.contains(typed));
        }
    }
}

/// Hints of which none is empty and none begins another make every hit
/// that gets one selectable.
pub proof fn lemma_assigned_hints_selectable(texts: Seq<Seq<char>>, given: Seq<Seq<char>>)
    requires
        usable(given),
    ensures
        selectable(assigned_hints(texts, given), texts.take(served(texts, given.len()) as int)),
{
    let hints = assigned_hints(texts, given);
    let count = served(texts, given.len()) as int;
    assert forall|i: int| 0 <= i < hints.len() implies (#[trigger] hints[i]).len() > 0 by {
        lemma_served_position(texts, given.len(), i);
    }
    assert forall|i: int, j: int|
        0 <= i < hints.len() && 0 <= j < hints.len() && (#[trigger] hints[i]).is_prefix_of(
            #[trigger] hints[j],
        ) implies hints[i] == hints[j] && texts.take(count)[i] == texts.take(count)[j] by {
        lemma_served_position(texts, given.len(), i);
        lemma_assigned_hints_prefix_free(texts, given, i, j);
    }
    if count > 0 {
        lemma_served_position(texts, given.len(), 0);
    }
}

/// The hints of a pool without repeated characters are usable, however
/// many are asked for.
pub proof fn lemma_pool_hints_usable(pool: Seq<char>, count: nat)
    requires
        distinct_characters(pool),
    ensures
        usable(pool_hints(pool, count)),
{
    lemma_pool_hints_prefix_free(pool, count);
    lemma_pool_hints_shape(pool, count);
}

/// With the hints of a pool without repeated characters every hit that
/// gets a hint is selectable: no hint of the table is empty or begins
/// another one, but the same hint of a hit with the same text.
pub proof fn lemma_pool_hints_selectable(pool: Seq<char>, texts: Seq<Seq<char>>)
    requires
        distinct_characters(pool),
    ensures
        ({
            let given = pool_hints(pool, distinct_texts(texts).len());
            selectable(assigned_hints(texts, given), texts.take(served(texts, given.len()) as int))
        }),
{
    let given = pool_hints(pool, distinct_texts(texts).len());
    lemma_pool_hints_usable(pool, distinct_texts(texts).len());
    lemma_assigned_hints_selectable(texts, given);
}

} // verus!
