//! Structs for handling mapping between hints and hits.
//!
//! Hits with the same text share a hint. The distinct texts take the hints
//! in the order in which they are first seen; the hit whose text would
//! need one hint more than there are, and every hit after it, gets none.
use crate::hints::{prefix_free, HintGenerator};
use crate::text::{begins_with, characters};
use vstd::prelude::*;

verus! {

/// Struct that records a hit (match) that can be selected.
#[derive(Debug, PartialEq, Eq)]
pub struct Hit {
    /// Byte offset of the start of the hit.
    pub start: usize,
    /// Length of the hit in bytes.
    pub length: usize,
    /// The text of the hit.
    ///
    /// This will be returned to the user if this hit is selected.
    pub text: String,
}

/// Struct used to keep associations between hints and the hits they are assigned to.
/// Allows one hint to be associated with multiple hits. This is needed to make it
/// possible for multiple hits with the same text but on different locations to be
/// assigned to the same hint.
#[derive(Debug)]
pub struct HintHitMap {
    pub pairs: Vec<(String, Hit)>,
}

/// The texts of the hits, in their order.
pub open spec fn hit_texts(hits: Seq<Hit>) -> Seq<Seq<char>> {
    Seq::new(hits.len(), |i: int| hits[i].text@)
}

/// The texts without repetitions, each where it occurs first.
pub open spec fn distinct_texts(texts: Seq<Seq<char>>) -> Seq<Seq<char>>
    decreases texts.len(),
{
    if texts.len() == 0 {
        Seq::empty()
    } else {
        let before = distinct_texts(texts.drop_last());
        if before.contains(texts.last()) {
            before
        } else {
            before.push(texts.last())
        }
    }
}

/// Index of the first occurrence of `text` in `list`, or the length of
/// `list` where it does not occur.
pub open spec fn position_of(list: Seq<Seq<char>>, text: Seq<char>) -> int
    decreases list.len(),
{
    if list.len() == 0 || list[0] == text {
        0
    } else {
        1 + position_of(list.drop_first(), text)
    }
}

/// Whether some hint begins with the given characters.
pub open spec fn begins_hint(hints: Seq<Seq<char>>, typed: Seq<char>) -> bool {
    exists|i: int| 0 <= i < hints.len() && typed.is_prefix_of(#[trigger] hints[i])
}

/// Number of the hits at the front that get a hint when `available` hints
/// are there: the longest front with no more distinct texts than hints.
pub open spec fn served(texts: Seq<Seq<char>>, available: nat) -> nat
    decreases texts.len(),
{
    if distinct_texts(texts).len() <= available {
        texts.len()
    } else {
        served(texts.drop_last(), available)
    }
}

/// The hint of each hit that gets one: the hit whose text is the `n`-th
/// distinct text gets the `n`-th hint.
pub open spec fn assigned_hints(texts: Seq<Seq<char>>, hints: Seq<Seq<char>>) -> Seq<Seq<char>> {
    Seq::new(
        served(texts, hints.len()),
        |i: int| hints[position_of(distinct_texts(texts), texts[i])],
    )
}

/// `position_of` finds the first occurrence.
pub proof fn lemma_position_of(list: Seq<Seq<char>>, text: Seq<char>)
    ensures
        0 <= position_of(list, text) <= list.len(),
        list.contains(text) <==> position_of(list, text) < list.len(),
        position_of(list, text) < list.len() ==> list[position_of(list, text)] == text,
        forall|k: int| 0 <= k < position_of(list, text) ==> #[trigger] list[k] != text,
    decreases list.len(),
{
    if list.len() > 0 && list[0] != text {
        let rest = list.drop_first();
        lemma_position_of(rest, text);
        if list.contains(text) {
            let k = choose|k: int| 0 <= k < list.len() && list[k] == text;
            assert(rest[k - 1] == text);
        }
        if position_of(rest, text) < rest.len() {
            assert(list[position_of(rest, text) + 1] == text);
        }
        assert forall|k: int| 0 <= k < position_of(list, text) implies #[trigger] list[k]
            != text by {
            if k > 0 {
                assert(list[k] == rest[k - 1]);
            }
        }
    } else if list.len() > 0 {
        assert(list[0] == text);
    }
}

/// The position of a text is the same in a longer list.
pub proof fn lemma_position_of_prefix(short: Seq<Seq<char>>, long: Seq<Seq<char>>, text: Seq<char>)
    requires
        short.is_prefix_of(long),
        short.contains(text),
    ensures
        position_of(long, text) == position_of(short, text),
    decreases short.len(),
{
    lemma_position_of(short, text);
    assert(short[0] == long.subrange(0, short.len() as int)[0]);
    if short[0] != text {
        let k = choose|k: int| 0 <= k < short.len() && short[k] == text;
        assert(short.drop_first()[k - 1] == text);
        assert(short.drop_first() =~= long.drop_first().subrange(0, short.len() - 1));
        lemma_position_of_prefix(short.drop_first(), long.drop_first(), text);
    }
}

/// The distinct texts are the texts: each text is among them, once.
pub proof fn lemma_distinct_texts(texts: Seq<Seq<char>>)
    ensures
        distinct_texts(texts).len() <= texts.len(),
        forall|text: Seq<char>| #[trigger]
            distinct_texts(texts).contains(text) <==> texts.contains(text),
        forall|i: int, j: int|
            0 <= i < j < distinct_texts(texts).len() ==> #[trigger] distinct_texts(texts)[i]
                != #[trigger] distinct_texts(texts)[j],
    decreases texts.len(),
{
    if texts.len() > 0 {
        let front = texts.drop_last();
        let before = distinct_texts(front);
        let all = distinct_texts(texts);
        lemma_distinct_texts(front);
        assert forall|text: Seq<char>| #[trigger] all.contains(text) <==> texts.contains(text) by {
            if all.contains(text) {
                let k = choose|k: int| 0 <= k < all.len() && all[k] == text;
                if k < before.len() {
                    assert(before[k] == text);
                    assert(before.contains(text));
                    let at = choose|at: int| 0 <= at < front.len() && front[at] == text;
                    assert(texts[at] == text);
                } else {
                    assert(texts[texts.len() - 1] == text);
                }
            }
            if texts.contains(text) {
                let at = choose|at: int| 0 <= at < texts.len() && texts[at] == text;
                if at < front.len() {
                    assert(front[at] == text);
                    assert(before.contains(text));
                    let k = choose|k: int| 0 <= k < before.len() && before[k] == text;
                    assert(all[k] == text);
                } else if before.contains(text) {
                    let k = choose|k: int| 0 <= k < before.len() && before[k] == text;
                    assert(all[k] == text);
                } else {
                    assert(all[before.len() as int] == text);
                }
            }
        }
        assert forall|i: int, j: int| 0 <= i < j < all.len() implies #[trigger] all[i]
            != #[trigger] all[j] by {
            if j == before.len() {
                assert(before[i] == all[i]);
                assert(before.contains(all[i]));
            } else {
                assert(before[i] == all[i] && before[j] == all[j]);
            }
        }
    }
}

/// The distinct texts of a front of the hits begin the distinct texts of
/// all the hits.
pub proof fn lemma_distinct_texts_prefix(texts: Seq<Seq<char>>, front: int)
    requires
        0 <= front <= texts.len(),
    ensures
        distinct_texts(texts.take(front)).is_prefix_of(distinct_texts(texts)),
    decreases texts.len(),
{
    if front == texts.len() {
        assert(texts.take(front) =~= texts);
    } else {
        assert(texts.drop_last().take(front) =~= texts.take(front));
        lemma_distinct_texts_prefix(texts.drop_last(), front);
        let short = distinct_texts(texts.take(front));
        let middle = distinct_texts(texts.drop_last());
        let long = distinct_texts(texts);
        assert(short =~= long.subrange(0, short.len() as int)) by {
            assert(short =~= middle.subrange(0, short.len() as int));
        }
    }
}

/// Where the texts up to `front` need no more hints than there are, and
/// one text more would, exactly `front` hits get a hint.
pub proof fn lemma_served_at(texts: Seq<Seq<char>>, available: nat, front: int)
    requires
        0 <= front <= texts.len(),
        distinct_texts(texts.take(front)).len() <= available,
        front < texts.len() ==> distinct_texts(texts.take(front + 1)).len() > available,
    ensures
        served(texts, available) == front,
    decreases texts.len(),
{
    if front == texts.len() {
        assert(texts.take(front) =~= texts);
    } else {
        lemma_distinct_texts_prefix(texts, front + 1);
        assert(texts.drop_last().take(front) =~= texts.take(front));
        if front + 1 < texts.len() {
            assert(texts.drop_last().take(front + 1) =~= texts.take(front + 1));
        }
        lemma_served_at(texts.drop_last(), available, front);
    }
}

/// Every hit that is served has its hint among the hints.
pub proof fn lemma_served_position(texts: Seq<Seq<char>>, available: nat, i: int)
    requires
        0 <= i < served(texts, available),
    ensures
        served(texts, available) <= texts.len(),
        0 <= position_of(distinct_texts(texts), texts[i]) < available,
        position_of(distinct_texts(texts), texts[i]) < distinct_texts(texts).len(),
        distinct_texts(texts)[position_of(distinct_texts(texts), texts[i])] == texts[i],
    decreases texts.len(),
{
    if distinct_texts(texts).len() <= available {
        lemma_distinct_texts(texts);
        assert(texts.contains(texts[i]));
        lemma_position_of(distinct_texts(texts), texts[i]);
    } else {
        let front = texts.drop_last();
        lemma_served_position(front, available, i);
        lemma_distinct_texts_prefix(texts, texts.len() - 1);
        assert(texts.take(texts.len() - 1) =~= front);
        assert(front[i] == texts[i]);
        lemma_position_of(distinct_texts(front), texts[i]);
        lemma_position_of_prefix(distinct_texts(front), distinct_texts(texts), texts[i]);
        lemma_position_of(distinct_texts(texts), texts[i]);
    }
}

/// Identical texts receive the identical hint, regardless of position.
pub proof fn lemma_same_text_same_hint(
    texts: Seq<Seq<char>>,
    hints: Seq<Seq<char>>,
    i: int,
    j: int,
)
    requires
        0 <= i < assigned_hints(texts, hints).len(),
        0 <= j < assigned_hints(texts, hints).len(),
        texts[i] == texts[j],
    ensures
        assigned_hints(texts, hints)[i] == assigned_hints(texts, hints)[j],
{
}

/// With hints of which none begins another, the hints given to the hits
/// tell the texts apart: where the hint of one hit begins the hint of
/// another, the two hits have the same text and the same hint. So no hint of
/// the table is a proper prefix of another hint of the table.
pub proof fn lemma_assigned_hints_prefix_free(
    texts: Seq<Seq<char>>,
    hints: Seq<Seq<char>>,
    i: int,
    j: int,
)
    requires
        prefix_free(hints),
        0 <= i < assigned_hints(texts, hints).len(),
        0 <= j < assigned_hints(texts, hints).len(),
        assigned_hints(texts, hints)[i].is_prefix_of(assigned_hints(texts, hints)[j]),
    ensures
        texts[i] == texts[j],
        assigned_hints(texts, hints)[i] == assigned_hints(texts, hints)[j],
{
    lemma_served_position(texts, hints.len(), i);
    lemma_served_position(texts, hints.len(), j);
}

/// The pairs are the first hits, each with the hint that its text has
/// among the distinct texts of those hits.
pub open spec fn pairs_follow(
    pairs: Seq<(String, Hit)>,
    hits: Seq<Hit>,
    given: Seq<Seq<char>>,
) -> bool {
    let texts = hit_texts(hits);
    let front = distinct_texts(texts.take(pairs.len() as int));
    forall|k: int|
        0 <= k < pairs.len() ==> {
            let pair = #[trigger] pairs[k];
            &&& pair.1 == hits[k]
            &&& 0 <= position_of(front, texts[k]) < front.len()
            &&& position_of(front, texts[k]) < given.len()
            &&& pair.0@ == given[position_of(front, texts[k])]
        }
}

/// One more pair, with the hint of its text, keeps `pairs_follow`.
proof fn lemma_pairs_follow_push(
    pairs: Seq<(String, Hit)>,
    hits: Seq<Hit>,
    given: Seq<Seq<char>>,
    hint: String,
    hit: Hit,
)
    requires
        pairs_follow(pairs, hits, given),
        pairs.len() < hits.len(),
        hit == hits[pairs.len() as int],
        ({
            let texts = hit_texts(hits);
            let longer = distinct_texts(texts.take(pairs.len() as int + 1));
            let place = position_of(longer, texts[pairs.len() as int]);
            &&& place < longer.len()
            &&& place < given.len()
            &&& hint@ == given[place]
        }),
    ensures
        pairs_follow(pairs.push((hint, hit)), hits, given),
{
    let texts = hit_texts(hits);
    let i = pairs.len() as int;
    let front = distinct_texts(texts.take(i));
    let longer = distinct_texts(texts.take(i + 1));
    let extended = pairs.push((hint, hit));
    assert(texts.take(i + 1).drop_last() =~= texts.take(i));
    assert(front.is_prefix_of(longer));
    lemma_position_of(longer, texts[i]);
    assert forall|k: int| 0 <= k < extended.len() implies {
        let pair = #[trigger] extended[k];
        &&& pair.1 == hits[k]
        &&& 0 <= position_of(longer, texts[k]) < longer.len()
        &&& position_of(longer, texts[k]) < given.len()
        &&& pair.0@ == given[position_of(longer, texts[k])]
    } by {
        if k < i {
            assert(extended[k] == pairs[k]);
            lemma_position_of(front, texts[k]);
            lemma_position_of_prefix(front, longer, texts[k]);
        }
    }
    assert(texts.take(extended.len() as int) =~= texts.take(i + 1));
}

/// Index of the first pair whose hit has the given text.
fn find_text(pairs: &Vec<(String, Hit)>, text: &String) -> (found: Option<usize>)
    ensures
        match found {
            Some(at) => at < pairs@.len() && pairs@[at as int].1.text@ == text@,
            None => forall|k: int|
                0 <= k < pairs@.len() ==> (#[trigger] pairs@[k]).1.text@ != text@,
        },
{
    let mut at: usize = 0;
    while at < pairs.len()
        invariant
            0 <= at <= pairs@.len(),
            forall|k: int| 0 <= k < at ==> (#[trigger] pairs@[k]).1.text@ != text@,
        decreases pairs.len() - at,
    {
        if pairs[at].1.text == *text {
            return Some(at);
        }
        at += 1;
    }
    None
}

/// Number of distinct texts among the hits.
fn count_distinct(hits: &Vec<Hit>) -> (count: usize)
    ensures
        count == distinct_texts(hit_texts(hits@)).len(),
{
    let ghost texts = hit_texts(hits@);
    let mut count: usize = 0;
    let mut i: usize = 0;
    assert(texts.take(0) =~= Seq::<Seq<char>>::empty());
    while i < hits.len()
        invariant
            0 <= i <= hits@.len(),
            texts == hit_texts(hits@),
            count == distinct_texts(texts.take(i as int)).len() <= i,
        decreases hits.len() - i,
    {
        let mut seen = false;
        let mut j: usize = 0;
        while j < i && !seen
            invariant
                0 <= j <= i < hits@.len(),
                texts == hit_texts(hits@),
                seen ==> texts.take(i as int).contains(texts[i as int]),
                !seen ==> forall|k: int| 0 <= k < j ==> #[trigger] texts[k] != texts[i as int],
            decreases i - j + if seen { 0int } else { 1int },
        {
            if hits[j].text == hits[i].text {
                assert(texts.take(i as int)[j as int] == texts[i as int]);
                seen = true;
            } else {
                j += 1;
            }
        }
        proof {
            let front = texts.take(i as int);
            let next = texts.take(i + 1);
            assert(next.drop_last() =~= front);
            assert(next.last() == texts[i as int]);
            lemma_distinct_texts(front);
            if !seen {
                assert forall|k: int| 0 <= k < front.len() implies front[k] != texts[i as int] by {
                    assert(front[k] == texts[k]);
                }
                assert(!front.contains(texts[i as int]));
            }
        }
        if !seen {
            count += 1;
        }
        i += 1;
    }
    assert(texts.take(hits@.len() as int) =~= texts);
    count
}

impl HintHitMap {
    /// The hints of the pairs, in their order.
    pub open spec fn hints(&self) -> Seq<Seq<char>> {
        Seq::new(self.pairs@.len(), |i: int| self.pairs@[i].0@)
    }

    /// The hits of the pairs, in their order.
    pub open spec fn hits(&self) -> Seq<Hit> {
        Seq::new(self.pairs@.len(), |i: int| self.pairs@[i].1)
    }

    /// Index of the first pair with the given hint, or the number of pairs
    /// where there is none.
    pub open spec fn position_of_hint(&self, hint: Seq<char>) -> int {
        position_of(self.hints(), hint)
    }

    /// Pairs the hits with the given hints.
    ///
    /// The hits keep their order. The distinct texts take the hints in the
    /// order in which they are first seen, and every hit gets the hint of
    /// its text. The first hit for whose text no hint is left ends the
    /// map: it and the hits after it are dropped.
    pub fn from_hints(hits: Vec<Hit>, hints: &Vec<String>) -> (map: Self)
        ensures
            map.hints() == assigned_hints(hit_texts(hits@), hints.deep_view()),
            map.hits() == hits@.take(map.pairs@.len() as int),
            map.pairs@.len() <= hits@.len(),
    {
        let ghost texts = hit_texts(hits@);
        let ghost given = hints.deep_view();
        let mut pairs: Vec<(String, Hit)> = Vec::new();
        let mut next: usize = 0;
        let mut exhausted = false;
        assert(texts.take(0) =~= Seq::<Seq<char>>::empty());
        for hit in iter: hits
            invariant
                texts == hit_texts(hits@),
                given == hints.deep_view(),
                iter.seq() == hits@,
                pairs@.len() <= iter.index(),
                !exhausted ==> pairs@.len() == iter.index(),
                exhausted ==> distinct_texts(texts.take(pairs@.len() as int + 1)).len()
                    > hints@.len(),
                next == distinct_texts(texts.take(pairs@.len() as int)).len(),
                next <= hints@.len(),
                pairs_follow(pairs@, hits@, given),
        {
            if !exhausted {
                let ghost i = iter.index() as int;
                let ghost front = distinct_texts(texts.take(i));
                let ghost longer = distinct_texts(texts.take(i + 1));
                proof {
                    assert(texts.take(i + 1).drop_last() =~= texts.take(i));
                    assert(texts.take(i + 1).last() == texts[i]);
                    assert(hit == hits@[i]);
                    lemma_distinct_texts(texts.take(i));
                    lemma_position_of(longer, texts[i]);
                }
                let hint = match find_text(&pairs, &hit.text) {
                    Some(at) => {
                        proof {
                            assert(pairs@[at as int].1 == hits@[at as int]);
                            assert(texts.take(i)[at as int] == texts[i]);
                            assert(longer == front);
                            assert(texts[at as int] == texts[i]);
                        }
                        Some(pairs[at].0.clone())
                    },
                    None => {
                        proof {
                            assert forall|k: int| 0 <= k < i implies texts.take(i)[k]
                                != texts[i] by {
                                assert(pairs@[k].1.text@ == texts[k]);
                            }
                            assert(longer =~= front.push(texts[i]));
                            if position_of(longer, texts[i]) < front.len() {
                                assert(front[position_of(longer, texts[i])] == texts[i]);
                            }
                            assert(longer[front.len() as int] == texts[i]);
                        }
                        if next < hints.len() {
                            let hint = hints[next].clone();
                            assert(hint@ == given[next as int]);
                            next += 1;
                            Some(hint)
                        } else {
                            None
                        }
                    },
                };
                match hint {
                    Some(hint) => {
                        proof {
                            lemma_pairs_follow_push(pairs@, hits@, given, hint, hit);
                        }
                        pairs.push((hint, hit));
                    },
                    None => {
                        exhausted = true;
                    },
                }
            }
        }
        let map = HintHitMap { pairs };
        proof {
            let count = map.pairs@.len() as int;
            if !exhausted {
                assert(texts.take(count) =~= texts);
            }
            lemma_served_at(texts, hints@.len() as nat, count);
            lemma_distinct_texts_prefix(texts, count);
            assert forall|k: int| 0 <= k < count implies map.hints()[k] == assigned_hints(
                texts,
                given,
            )[k] by {
                let front = distinct_texts(texts.take(count));
                let pair = map.pairs@[k];
                lemma_position_of(front, texts[k]);
                lemma_position_of_prefix(front, distinct_texts(texts), texts[k]);
            }
            assert(map.hints() =~= assigned_hints(texts, given));
            assert(map.hits() =~= hits@.take(count));
        }
        map
    }

    /// Create a mapping of hints to hits from the given collection of hits and the generator.
    ///
    /// The generator is asked for as many hints as the hits have distinct
    /// texts, and its hints are given out as [`HintHitMap::from_hints`]
    /// says.
    pub fn new<G: HintGenerator + ?Sized>(hits: Vec<Hit>, hint_generator: &G) -> (map: Self)
        ensures
            map.hints() == assigned_hints(
                hit_texts(hits@),
                hint_generator.hints(distinct_texts(hit_texts(hits@)).len()),
            ),
            map.hits() == hits@.take(map.pairs@.len() as int),
            map.pairs@.len() <= hits@.len(),
    {
        let unique_hit_count = count_distinct(&hits);
        let hints = hint_generator.create_hints(unique_hit_count);
        HintHitMap::from_hints(hits, &hints)
    }

    /// Get the first [Hit] associated with the given hint string.
    pub fn get_hit(&self, hint: &str) -> (hit: Option<&Hit>)
        ensures
            match hit {
                Some(hit) => {
                    &&& self.position_of_hint(hint@) < self.pairs@.len()
                    &&& *hit == self.pairs@[self.position_of_hint(hint@)].1
                },
                None => self.position_of_hint(hint@) == self.pairs@.len(),
            },
    {
        let wanted = hint.to_owned();
        let mut i: usize = 0;
        proof {
            lemma_position_of(self.hints(), hint@);
        }
        while i < self.pairs.len()
            invariant
                0 <= i <= self.pairs@.len(),
                wanted@ == hint@,
                forall|k: int| 0 <= k < i ==> #[trigger] self.hints()[k] != hint@,
                self.hints().len() == self.pairs@.len(),
                0 <= position_of(self.hints(), hint@) <= self.hints().len(),
                position_of(self.hints(), hint@) < self.hints().len() ==> self.hints()[position_of(
                    self.hints(),
                    hint@,
                )] == hint@,
                forall|k: int|
                    0 <= k < position_of(self.hints(), hint@) ==> #[trigger] self.hints()[k]
                        != hint@,
            decreases self.pairs.len() - i,
        {
            if self.pairs[i].0 == wanted {
                assert(self.hints()[i as int] == hint@);
                return Some(&self.pairs[i].1);
            }
            i += 1;
        }
        None
    }

    /// Check if the map contains a hint beginning with the given prefix.
    /// The [Hit] value does not affect the outcome of this function.
    pub fn has_hint_with_prefix(&self, prefix: &str) -> (has: bool)
        ensures
            has == begins_hint(self.hints(), prefix@),
    {
        let beginning = characters(prefix);
        let mut i: usize = 0;
        while i < self.pairs.len()
            invariant
                0 <= i <= self.pairs@.len(),
                beginning@ == prefix@,
                forall|k: int| 0 <= k < i ==> !prefix@.is_prefix_of(#[trigger] self.hints()[k]),
            decreases self.pairs.len() - i,
        {
            let hint = characters(self.pairs[i].0.as_str());
            if begins_with(hint.as_slice(), beginning.as_slice()) {
                assert(prefix@.is_prefix_of(self.hints()[i as int]));
                return true;
            }
            i += 1;
        }
        false
    }
}

} // verus!
