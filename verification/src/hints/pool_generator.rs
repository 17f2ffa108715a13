//! Hint generation from a pool of characters.
use crate::hints::{prefix_free, HintGenerator};
use crate::text::characters;
use vstd::arithmetic::div_mod::{
    lemma_fundamental_div_mod, lemma_fundamental_div_mod_converse, lemma_mod_bound,
};
use vstd::prelude::*;

verus! {

/// Number of hints that a pool of `size` characters can give when `single`
/// of them stand alone: each of the others begins one hint with every
/// character of the pool.
pub open spec fn representable(size: nat, single: nat) -> int {
    single + (size - single) * size
}

/// The largest number of single characters, not above `upto`, with which
/// `count` hints can be represented; 0 where there is none.
pub open spec fn single_count_upto(size: nat, count: nat, upto: nat) -> nat
    decreases upto,
{
    if representable(size, upto) >= count {
        upto
    } else if upto == 0 {
        0
    } else {
        single_count_upto(size, count, (upto - 1) as nat)
    }
}

/// Number of characters of the pool that are hints by themselves.
pub open spec fn single_count(size: nat, count: nat) -> nat {
    single_count_upto(size, count, size)
}

/// Number of hints handed out for a request of `count`.
pub open spec fn hint_count(size: nat, count: nat) -> nat {
    let capacity = representable(size, single_count(size, count));
    if count <= capacity {
        count
    } else {
        capacity as nat
    }
}

/// The hint at `index` when the first `single` characters of the pool stand
/// alone.
pub open spec fn hint_at(pool: Seq<char>, single: nat, index: int) -> Seq<char> {
    if index < single {
        seq![pool[index]]
    } else {
        seq![
            pool[single + (index - single) / (pool.len() as int)],
            pool[(index - single) % (pool.len() as int)],
        ]
    }
}

/// The hints that a pool gives for a request of `count`: first the single
/// characters in the order of the pool, then each remaining character
/// followed by every character of the pool.
pub open spec fn pool_hints(pool: Seq<char>, count: nat) -> Seq<Seq<char>> {
    Seq::new(
        hint_count(pool.len(), count),
        |index: int| hint_at(pool, single_count(pool.len(), count), index),
    )
}

/// No character occurs twice in the pool.
pub open spec fn distinct_characters(pool: Seq<char>) -> bool {
    forall|i: int, j: int|
        0 <= i < pool.len() && 0 <= j < pool.len() && i != j ==> #[trigger] pool[i]
            != #[trigger] pool[j]
}

/// With more single characters fewer hints can be represented, and never
/// more than the square of the pool's size.
pub proof fn lemma_representable_bounds(size: nat, single: nat)
    requires
        single <= size,
    ensures
        single <= representable(size, single) <= size * size,
        representable(size, 0) == size * size,
{
    assert(0 <= (size - single) * size) by (nonlinear_arith)
        requires
            single <= size,
    ;
    assert(single + (size - single) * size <= size * size) by (nonlinear_arith)
        requires
            single <= size,
    ;
}

/// What `single_count_upto` finds: the largest fitting number, or 0 where
/// none fits.
pub proof fn lemma_single_count_upto(size: nat, count: nat, upto: nat)
    ensures
        single_count_upto(size, count, upto) <= upto,
        forall|other: nat|
            single_count_upto(size, count, upto) < other <= upto ==> #[trigger] representable(
                size,
                other,
            ) < count,
        representable(size, single_count_upto(size, count, upto)) >= count || (single_count_upto(
            size,
            count,
            upto,
        ) == 0 && representable(size, 0) < count),
    decreases upto,
{
    if representable(size, upto) < count && upto > 0 {
        lemma_single_count_upto(size, count, (upto - 1) as nat);
    }
}

/// A request is answered with as many hints as were asked for, up to the
/// square of the pool's size.
pub proof fn lemma_hint_count(size: nat, count: nat)
    ensures
        single_count(size, count) <= size,
        hint_count(size, count) == if count <= size * size {
            count
        } else {
            size * size
        },
        hint_count(size, count) <= representable(size, single_count(size, count)),
{
    lemma_single_count_upto(size, count, size);
    lemma_representable_bounds(size, single_count(size, count));
    lemma_representable_bounds(size, 0);
}

/// The two characters of a hint behind the single ones are characters of
/// the pool, and the first of them is none of the single ones.
pub proof fn lemma_pair_indices(size: nat, single: nat, index: int)
    requires
        single <= size,
        single <= index < representable(size, single),
    ensures
        size > 0,
        single <= single + (index - single) / (size as int) < size,
        0 <= (index - single) % (size as int) < size,
        index == single + ((index - single) / (size as int)) * size + (index - single) % (
        size as int),
{
    let offset = index - single;
    let width = size as int;
    if size == 0 {
        assert((size - single) * size == 0) by (nonlinear_arith)
            requires
                size == 0,
        ;
    }
    lemma_fundamental_div_mod(offset, width);
    lemma_mod_bound(offset, width);
    assert(0 <= offset / width < size - single) by (nonlinear_arith)
        requires
            0 <= offset < (size - single) * width,
            width > 0,
            offset == width * (offset / width) + offset % width,
            0 <= offset % width < width,
    ;
    assert(width * (offset / width) == (offset / width) * size) by (nonlinear_arith)
        requires
            width == size,
    ;
}

/// Every hint of a pool has one or two characters, all of them from the
/// pool.
pub proof fn lemma_pool_hints_shape(pool: Seq<char>, count: nat)
    ensures
        forall|i: int|
            0 <= i < pool_hints(pool, count).len() ==> {
                let hint = #[trigger] pool_hints(pool, count)[i];
                &&& 1 <= hint.len() <= 2
                &&& forall|k: int| 0 <= k < hint.len() ==> pool.contains(#[trigger] hint[k])
            },
{
    let size = pool.len();
    let single = single_count(size, count);
    lemma_hint_count(size, count);
    assert forall|i: int| 0 <= i < pool_hints(pool, count).len() implies {
        let hint = #[trigger] pool_hints(pool, count)[i];
        &&& 1 <= hint.len() <= 2
        &&& forall|k: int| 0 <= k < hint.len() ==> pool.contains(#[trigger] hint[k])
    } by {
        let hint = pool_hints(pool, count)[i];
        if i < single {
            assert(hint =~= seq![pool[i]]);
        } else {
            lemma_pair_indices(size, single, i);
            let first = single + (i - single) / (size as int);
            let second = (i - single) % (size as int);
            assert(hint =~= seq![pool[first], pool[second]]);
            assert(pool.contains(pool[first]));
            assert(pool.contains(pool[second]));
        }
    }
}

/// The hints of a pool without repeated characters are prefix-free.
pub proof fn lemma_pool_hints_prefix_free(pool: Seq<char>, count: nat)
    requires
        distinct_characters(pool),
    ensures
        prefix_free(pool_hints(pool, count)),
{
    let size = pool.len();
    let single = single_count(size, count);
    let hints = pool_hints(pool, count);
    lemma_hint_count(size, count);
    assert forall|i: int, j: int|
        0 <= i < hints.len() && 0 <= j < hints.len() && i != j implies !(
    #[trigger] hints[i]).is_prefix_of(#[trigger] hints[j]) by {
        if hints[i].is_prefix_of(hints[j]) {
            assert(hints[i][0] == hints[j].subrange(0, hints[i].len() as int)[0]);
            if i < single {
                if j < single {
                    assert(pool[i] == pool[j]);
                } else {
                    lemma_pair_indices(size, single, j);
                    assert(pool[i] == pool[single + (j - single) / (size as int)]);
                }
            } else {
                lemma_pair_indices(size, single, i);
                assert(j >= single);
                lemma_pair_indices(size, single, j);
                assert(hints[i][1] == hints[j].subrange(0, hints[i].len() as int)[1]);
                assert(pool[single + (i - single) / (size as int)] == pool[single + (j - single) / (
                size as int)]);
                assert(pool[(i - single) % (size as int)] == pool[(j - single) % (size as int)]);
            }
        }
    }
}

/// Whether `count` hints can be represented with `single` single
/// characters of a pool of `size`.
fn can_represent(size: usize, single: usize, count: usize) -> (fits: bool)
    requires
        single <= size,
    ensures
        fits == (representable(size as nat, single as nat) >= count),
{
    match (size - single).checked_mul(size) {
        None => true,
        Some(pairs) => match pairs.checked_add(single) {
            None => true,
            Some(total) => total >= count,
        },
    }
}

/// A [HintGenerator] that generates hints from a character pool.
///
/// It generates hints with one or two characters and attempts to
/// represent them with the least total number of characters.
/// The maximum number of hints it can provide is equal to the square
/// of hint pool size.
pub struct HintPoolGenerator {
    hint_pool: String,
}

impl HintPoolGenerator {
    /// The characters of the pool, in their order.
    pub closed spec fn pool(&self) -> Seq<char> {
        self.hint_pool@
    }

    /// Create a new [HintPoolGenerator] with the given character pool.
    pub fn new(hint_character_pool: &str) -> (generator: Self)
        ensures
            generator.pool() == hint_character_pool@,
    {
        Self { hint_pool: hint_character_pool.to_owned() }
    }
}

/// A hint of one character.
fn single_hint(first: char) -> (hint: String)
    ensures
        hint@ == seq![first],
{
    let mut hint = String::new();
    hint.push(first);
    assert(hint@ =~= seq![first]);
    hint
}

/// A hint of two characters.
fn pair_hint(first: char, second: char) -> (hint: String)
    ensures
        hint@ == seq![first, second],
{
    let mut hint = String::new();
    hint.push(first);
    hint.push(second);
    assert(hint@ =~= seq![first, second]);
    hint
}

impl HintGenerator for HintPoolGenerator {
    open spec fn hints(&self, hint_count: nat) -> Seq<Seq<char>> {
        pool_hints(self.pool(), hint_count)
    }

    /// Creates the hints of the pool: as many as were asked for, up to the
    /// square of the pool's size, each of one or two characters of the pool.
    fn create_hints(&self, hint_count: usize) -> (hints: Vec<String>)
        ensures
            hints@.len() == if hint_count <= self.pool().len() * self.pool().len() {
                hint_count as nat
            } else {
                self.pool().len() * self.pool().len()
            },
            forall|i: int|
                0 <= i < hints@.len() ==> {
                    let hint = (#[trigger] hints@[i])@;
                    &&& 1 <= hint.len() <= 2
                    &&& forall|k: int|
                        0 <= k < hint.len() ==> self.pool().contains(#[trigger] hint[k])
                },
    {
        let pool = characters(self.hint_pool.as_str());
        let size = pool.len();
        let mut single = size;
        while single > 0 && !can_represent(size, single, hint_count)
            invariant
                single <= size,
                single_count(size as nat, hint_count as nat) == single_count_upto(
                    size as nat,
                    hint_count as nat,
                    single as nat,
                ),
            decreases single,
        {
            single -= 1;
        }
        proof {
            lemma_hint_count(size as nat, hint_count as nat);
            lemma_representable_bounds(size as nat, single as nat);
        }
        let ghost wanted = pool_hints(pool@, hint_count as nat);
        let mut hints: Vec<String> = Vec::new();
        let mut index: usize = 0;
        while index < single && index < hint_count
            invariant
                index <= single <= size == pool@.len(),
                index <= hint_count,
                single == single_count(size as nat, hint_count as nat),
                wanted == pool_hints(pool@, hint_count as nat),
                index <= wanted.len(),
                hints@.len() == index,
                forall|k: int| 0 <= k < index ==> (#[trigger] hints@[k])@ == wanted[k],
            decreases single - index,
        {
            hints.push(single_hint(pool[index]));
            index += 1;
        }
        let mut first: usize = single;
        let ghost mut produced: int = single as int;
        while first < size && hints.len() < hint_count
            invariant
                single <= first <= size == pool@.len(),
                single == single_count(size as nat, hint_count as nat),
                wanted == pool_hints(pool@, hint_count as nat),
                wanted.len() <= representable(size as nat, single as nat),
                produced == single + (first - single) * size,
                hints@.len() <= hint_count,
                hints@.len() == hint_count || hints@.len() == produced,
                hints@.len() <= produced,
                hints@.len() <= wanted.len(),
                forall|k: int| 0 <= k < hints@.len() ==> (#[trigger] hints@[k])@ == wanted[k],
            decreases size - first,
        {
            let mut second: usize = 0;
            while second < size && hints.len() < hint_count
                invariant
                    single <= first < size == pool@.len(),
                    second <= size,
                    single == single_count(size as nat, hint_count as nat),
                    wanted == pool_hints(pool@, hint_count as nat),
                    wanted.len() <= representable(size as nat, single as nat),
                    produced == single + (first - single) * size,
                    hints@.len() <= hint_count,
                    hints@.len() == hint_count || hints@.len() == produced + second,
                    hints@.len() <= produced + second,
                    hints@.len() <= wanted.len(),
                    forall|k: int| 0 <= k < hints@.len() ==> (#[trigger] hints@[k])@ == wanted[k],
                decreases size - second,
            {
                proof {
                    let at = hints@.len() as int;
                    assert((first - single) * size + size <= (size - single) * size)
                        by (nonlinear_arith)
                        requires
                            single <= first < size,
                    ;
                    assert(at < representable(size as nat, single as nat));
                    lemma_fundamental_div_mod_converse(
                        at - single,
                        size as int,
                        first - single,
                        second as int,
                    );
                    assert(wanted[at] =~= seq![pool@[first as int], pool@[second as int]]);
                }
                hints.push(pair_hint(pool[first], pool[second]));
                second += 1;
            }
            proof {
                assert((first + 1 - single) * size == (first - single) * size + size)
                    by (nonlinear_arith);
                produced = produced + size;
            }
            first += 1;
        }
        proof {
            assert(hints@.len() == wanted.len());
            assert(hints.deep_view() =~= wanted);
            lemma_pool_hints_shape(pool@, hint_count as nat);
            assert forall|i: int| 0 <= i < hints@.len() implies {
                let hint = (#[trigger] hints@[i])@;
                &&& 1 <= hint.len() <= 2
                &&& forall|k: int| 0 <= k < hint.len() ==> self.pool().contains(#[trigger] hint[k])
            } by {
                assert(hints@[i]@ == wanted[i]);
            }
        }
        hints
    }
}

} // verus!
