//! What a seed and words decide: which number comes out, which entry goes where, and
//! that nothing is lost on the way.
use crate::reality::hello_order::{padding_bytes, shuffled, splitmix_output, splitmix_step, swapped};
use crate::reality::hello_profile::SlotShape;
use crate::reality::randomized_hello::{
    bias, exchanged, is_rc4, mixed, number_below, permuted, ranked_from, ranked_suites,
    seeded_word, suite_rank, LEGACY_CIPHER_SUITES,
};
use vstd::arithmetic::div_mod::{lemma_mod_bound, lemma_mod_multiples_vanish};
use vstd::prelude::*;

verus! {

/// One number of SplitMix64: the state is mixed by two shifted products and a last shift.
pub open spec fn mixed_word(state: u64) -> u64 {
    let first = (state ^ (state >> 30)).wrapping_mul(13787848793156543929);
    let second = (first ^ (first >> 27)).wrapping_mul(10723151780598845931);
    second ^ (second >> 31)
}

/// The state behind another: the odd number next to two to the 64th over the golden ratio
/// more.
pub open spec fn state_behind(state: u64) -> u64 {
    state.wrapping_add(11400714819323198485)
}

/// The generator is SplitMix64, for a connection and for a seeded draw alike.
pub proof fn the_generator_is_splitmix(state: u64)
    ensures
        splitmix_step(state) == state_behind(state),
        splitmix_output(state) == mixed_word(state),
        seeded_word(state, 0) == mixed_word(state_behind(state)),
        seeded_word(state, 1) == mixed_word(state_behind(state_behind(state))),
{
    reveal_with_fuel(crate::reality::randomized_hello::seeded_state, 3);
}

/// A shuffle draws the entry of its last place among all up to it, puts the entry that was
/// there in its stead, and goes on with the places before it and the next number.
pub proof fn a_shuffle_draws_from_the_back(items: Seq<usize>, state: u64, last: nat)
    requires
        0 < last < items.len(),
    ensures
        ({
            let number = mixed_word(state_behind(state));
            let target = number as int % (last as int + 1);
            let rest = items.update(last as int, items[target]).update(target, items[last as int]);
            &&& shuffled(items, state, last)[last as int] == items[target]
            &&& shuffled(items, state, last) == shuffled(
                rest,
                state_behind(state),
                (last - 1) as nat,
            )
            &&& forall|i: int|
                last < i < items.len() ==> #[trigger] shuffled(items, state, last)[i] == items[i]
        }),
{
    let next = splitmix_step(state);
    let target = splitmix_output(next) as int % (last as int + 1);
    lemma_mod_bound(splitmix_output(next) as int, last as int + 1);
    let rest = swapped(items, last as int, target);
    lemma_back_stays(rest, next, (last - 1) as nat);
    assert(shuffled(items, state, last) == shuffled(rest, next, (last - 1) as nat));
    assert(rest[last as int] == items[target]) by {
        if target == last {
        }
    }
}

proof fn lemma_back_stays(items: Seq<usize>, state: u64, last: nat)
    requires
        last < items.len(),
    ensures
        shuffled(items, state, last).len() == items.len(),
        forall|i: int|
            last < i < items.len() ==> #[trigger] shuffled(items, state, last)[i] == items[i],
    decreases last,
{
    if last > 0 {
        let next = splitmix_step(state);
        let target = splitmix_output(next) as int % (last as int + 1);
        lemma_mod_bound(splitmix_output(next) as int, last as int + 1);
        lemma_back_stays(swapped(items, last as int, target), next, (last - 1) as nat);
    }
}

/// A number below a bound is the remainder of the first word that is not passed over, and
/// as many words are passed over as do not fill the bound evenly.
pub proof fn a_number_is_unbiased(words: Seq<u64>, bound: int)
    requires
        0 < bound <= 0xffff_ffff_ffff_ffff,
    ensures
        bias(bound) == 0x1_0000_0000_0000_0000int % bound,
        number_below(words, bound) matches Some((number, rest)) ==> exists|at: int|
            {
                &&& 0 <= at < words.len()
                &&& #[trigger] words[at] >= 0x1_0000_0000_0000_0000int % bound
                &&& number == words[at] as int % bound
                &&& rest == words.skip(at + 1)
                &&& forall|i: int|
                    0 <= i < at ==> (#[trigger] words[i]) < 0x1_0000_0000_0000_0000int % bound
            },
    decreases words.len(),
{
    let whole = 0x1_0000_0000_0000_0000int;
    assert(bias(bound) == (whole - bound) % bound);
    assert((whole - bound) % bound == whole % bound) by {
        lemma_mod_multiples_vanish(-1, whole, bound);
    }
    if words.len() > 0 {
        if words[0] >= bias(bound) {
            assert(words.skip(1) =~= words.drop_first());
            if let Some((number, rest)) = number_below(words, bound) {
                assert(words[0] >= whole % bound);
            }
        } else {
            let others = words.drop_first();
            a_number_is_unbiased(others, bound);
            if let Some((number, rest)) = number_below(words, bound) {
                let at = choose|at: int|
                    {
                        &&& 0 <= at < others.len()
                        &&& #[trigger] others[at] >= whole % bound
                        &&& number == others[at] as int % bound
                        &&& rest == others.skip(at + 1)
                        &&& forall|i: int| 0 <= i < at ==> (#[trigger] others[i]) < whole % bound
                    };
                assert(words[at + 1] == others[at]);
                assert(words.skip(at + 2) =~= others.skip(at + 1));
                assert forall|i: int| 0 <= i < at + 1 implies (#[trigger] words[i]) < whole
                    % bound by {
                    if i > 0 {
                        assert(others[i - 1] == words[i]);
                    }
                }
            }
        }
    }
}

/// A shuffle by words draws the entry of its last place among all up to it and goes on with
/// the places before it.
pub proof fn a_draw_shuffles_from_the_back<T>(values: Seq<T>, last: nat, words: Seq<u64>)
    requires
        0 < last < values.len(),
    ensures
        mixed(values, last, words) matches Some((mix, _)) ==> {
            &&& number_below(words, last as int + 1) matches Some((target, _))
            &&& 0 <= target <= last
            &&& mix[last as int] == values[target]
            &&& forall|i: int| last < i < values.len() ==> #[trigger] mix[i] == values[i]
        },
{
    lemma_below(words, last as int + 1);
    if let Some((mix, _)) = mixed(values, last, words) {
        let (target, rest) = number_below(words, last as int + 1)->0;
        let next = exchanged(values, last as int, target);
        lemma_mix_back(next, (last - 1) as nat, rest);
        assert(next[last as int] == values[target]) by {
            if target == last {
            }
        }
    }
}

proof fn lemma_mix_back<T>(values: Seq<T>, last: nat, words: Seq<u64>)
    requires
        last < values.len(),
    ensures
        mixed(values, last, words) matches Some((mix, _)) ==> mix.len() == values.len() && forall|
            i: int,
        | last < i < values.len() ==> #[trigger] mix[i] == values[i],
    decreases last,
{
    if last > 0 {
        if let Some((target, rest)) = number_below(words, last as int + 1) {
            lemma_below(words, last as int + 1);
            lemma_mix_back(exchanged(values, last as int, target), (last - 1) as nat, rest);
        }
    }
}

proof fn lemma_below(words: Seq<u64>, bound: int)
    requires
        bound > 0,
    ensures
        number_below(words, bound) matches Some((number, _)) ==> 0 <= number < bound,
    decreases words.len(),
{
    if words.len() > 0 {
        if words[0] >= bias(bound) {
            lemma_mod_bound(words[0] as int, bound);
        } else {
            lemma_below(words.drop_first(), bound);
        }
    }
}

/// A drawn permutation is one: every place has its own number below the length.
pub proof fn a_permutation_repeats_nothing(length: nat, n: nat, words: Seq<u64>)
    requires
        n <= length <= usize::MAX,
    ensures
        permuted(length, n, words) matches Some((places, _)) ==> {
            &&& places.len() == length
            &&& forall|i: int| 0 <= i < n ==> (#[trigger] places[i]) < n
            &&& forall|i: int, j: int|
                0 <= i < j < n ==> #[trigger] places[i] != #[trigger] places[j]
        },
    decreases n,
{
    if n > 1 {
        a_permutation_repeats_nothing(length, (n - 1) as nat, words);
        if let Some((before, rest)) = permuted(length, (n - 1) as nat, words) {
            lemma_below(rest, n as int);
            if let Some((target, _)) = number_below(rest, n as int) {
                let moved = before.update(n - 1, before[target]);
                let places = moved.update(target, (n - 1) as usize);
                assert forall|i: int, j: int| 0 <= i < j < n implies #[trigger] places[i]
                    != #[trigger] places[j] by {
                    if target < n - 1 {
                        assert(before[target] < n - 1);
                        if j == n - 1 && i != target {
                            assert(before[i] < n - 1);
                            assert(before[i] != before[target]);
                        }
                        if j < n - 1 {
                            assert(before[i] != before[j]);
                        }
                    } else if j < n - 1 {
                        assert(before[i] != before[j]);
                    }
                }
            }
        }
    }
}

/// No older suite is lost in the order of a draw: each one but RC4 has a rank of its own and
/// stands among the candidates.
pub proof fn every_older_suite_is_a_candidate(tags: Seq<usize>, i: int)
    requires
        tags.len() == 22,
        forall|k: int| 0 <= k < 22 ==> (#[trigger] tags[k]) < 22,
        forall|k: int, l: int| 0 <= k < l < 22 ==> #[trigger] tags[k] != #[trigger] tags[l],
        0 <= i < 22,
        !is_rc4(LEGACY_CIPHER_SUITES@[i].0),
    ensures
        ranked_suites(tags, 44).contains(LEGACY_CIPHER_SUITES@[i].0),
{
    let rank = suite_rank(tags, i);
    assert(tags[i] < 22);
    lemma_rank_found(tags, i, 0);
    lemma_ranked_stays(tags, (rank + 1) as nat, 44, LEGACY_CIPHER_SUITES@[i].0);
}

proof fn lemma_rank_found(tags: Seq<usize>, i: int, from: int)
    requires
        tags.len() == 22,
        forall|k: int| 0 <= k < 22 ==> (#[trigger] tags[k]) < 22,
        forall|k: int, l: int| 0 <= k < l < 22 ==> #[trigger] tags[k] != #[trigger] tags[l],
        0 <= from <= i < 22,
        !is_rc4(LEGACY_CIPHER_SUITES@[i].0),
    ensures
        ranked_from(tags, suite_rank(tags, i), from) == Some(i),
        ranked_suites(tags, (suite_rank(tags, i) + 1) as nat).contains(LEGACY_CIPHER_SUITES@[i].0),
    decreases i - from,
{
    let rank = suite_rank(tags, i);
    assert(tags[i] < 22 && tags[from] < 22);
    if from < i {
        assert(tags[from] != tags[i]);
        lemma_rank_found(tags, i, from + 1);
    } else {
        lemma_rank_first(tags, i, 0);
        let front = ranked_suites(tags, rank as nat);
        let all = ranked_suites(tags, (rank + 1) as nat);
        assert(all == front.push(LEGACY_CIPHER_SUITES@[i].0));
        assert(all[front.len() as int] == LEGACY_CIPHER_SUITES@[i].0);
    }
}

proof fn lemma_rank_first(tags: Seq<usize>, i: int, from: int)
    requires
        tags.len() == 22,
        forall|k: int| 0 <= k < 22 ==> (#[trigger] tags[k]) < 22,
        forall|k: int, l: int| 0 <= k < l < 22 ==> #[trigger] tags[k] != #[trigger] tags[l],
        0 <= from <= i < 22,
    ensures
        ranked_from(tags, suite_rank(tags, i), from) == Some(i),
    decreases i - from,
{
    assert(tags[i] < 22 && tags[from] < 22);
    if from < i {
        assert(tags[from] != tags[i]);
        lemma_rank_first(tags, i, from + 1);
    }
}

proof fn lemma_ranked_stays(tags: Seq<usize>, n: nat, m: nat, id: u16)
    requires
        n <= m,
        ranked_suites(tags, n).contains(id),
    ensures
        ranked_suites(tags, m).contains(id),
    decreases m - n,
{
    if n < m {
        let front = ranked_suites(tags, n);
        let all = ranked_suites(tags, n + 1);
        let at = front.index_of(id);
        assert(all[at] == id);
        lemma_ranked_stays(tags, n + 1, m, id);
    }
}

/// What may move in a hello: everything but GREASE and padding.
pub proof fn only_grease_and_padding_stay(slot: SlotShape)
    ensures
        slot.is_pinned() <==> (slot matches SlotShape::Grease { .. }) || slot == SlotShape::Padding,
{
}

/// The padding of a hello is an extension of type 21 with zeros, for hellos of 256 to 511
/// bytes alone: as many that 512 come out, and at least one.
pub proof fn padding_is_zeros_up_to_512(unpadded: int)
    ensures
        ({
            let bytes = padding_bytes(unpadded);
            let zeros = if unpadded < 508 {
                508 - unpadded
            } else {
                1
            };
            &&& !(256 <= unpadded <= 511) ==> bytes.len() == 0
            &&& 256 <= unpadded <= 511 ==> {
                &&& bytes.len() == 4 + zeros
                &&& bytes[0] == 0 && bytes[1] == 21
                &&& bytes[2] * 256 + bytes[3] == zeros
                &&& forall|i: int| 4 <= i < bytes.len() ==> #[trigger] bytes[i] == 0
            }
        }),
{
}

} // verus!
