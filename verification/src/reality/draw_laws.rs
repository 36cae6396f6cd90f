//! How many words a drawn hello takes, and that a seed always has enough of
//! them.
//!
//! A number below a bound passes over the words that would bias it. No bound of
//! a draw exceeds twenty-two, so only words below that are ever passed over, and
//! a seeded generator gives each of those at most once.
use crate::reality::hello_order::{splitmix_output, splitmix_step};
use crate::reality::randomized_hello::{
    bias, chosen_schemes, chosen_slots, drawn_groups, drawn_hello, drawn_layout, drawn_schemes,
    drawn_suites, exchanged, first_weights, flipped, flips, group_weights, layout_weights,
    lemma_at_most_nineteen, mixed, number_below, permuted, ranked_suites, scheme_weights,
    seeded_state, seeded_words, shuffled_all, trimmed, APPEND_ALPS, REMOVE_RANDOM_CIPHERS,
    TLS13_CIPHER_SUITES,
};
use vstd::arithmetic::div_mod::{
    lemma_add_mod_noop_right, lemma_mul_mod_noop_left, lemma_mul_mod_noop_right,
};
use vstd::prelude::*;
use vstd::set_lib::{lemma_int_range, lemma_len_subset, set_int_range};

verus! {

/// The largest bound of a number in a draw. No number passes over a word that is
/// at least as large.
pub const LARGEST_BOUND: u64 = 22;

/// The most words that a draw takes, those apart that it passes over.
pub const WORDS_TAKEN: usize = 83;

/// How many of the words no number passes over.
pub open spec fn spare(words: Seq<u64>) -> nat
    decreases words.len(),
{
    if words.len() == 0 {
        0
    } else if words[0] >= LARGEST_BOUND {
        1 + spare(words.drop_first())
    } else {
        spare(words.drop_first())
    }
}

/// Whether a draw that succeeded left all of the spare words but `taken`.
spec fn leaves(words: Seq<u64>, rest: Seq<u64>, taken: int) -> bool {
    spare(rest) + taken >= spare(words)
}

proof fn lemma_flipped(words: Seq<u64>, weight: u64)
    ensures
        spare(words) >= 1 ==> flipped(words, weight) is Some,
        flipped(words, weight) matches Some((_, rest)) ==> leaves(words, rest, 1),
{
}

proof fn lemma_number(words: Seq<u64>, bound: int)
    requires
        0 < bound <= LARGEST_BOUND,
    ensures
        spare(words) >= 1 ==> number_below(words, bound) is Some,
        number_below(words, bound) matches Some((number, rest)) ==> 0 <= number < bound && leaves(
            words,
            rest,
            1,
        ),
    decreases words.len(),
{
    assert(bias(bound) < bound);
    if words.len() > 0 && words[0] < bias(bound) {
        lemma_number(words.drop_first(), bound);
    }
}

proof fn lemma_mix<T>(values: Seq<T>, index: nat, words: Seq<u64>)
    requires
        index < LARGEST_BOUND,
    ensures
        spare(words) >= index ==> mixed(values, index, words) is Some,
        mixed(values, index, words) matches Some((_, rest)) ==> leaves(words, rest, index as int),
    decreases index,
{
    if index > 0 {
        lemma_number(words, index as int + 1);
        if let Some((target, rest)) = number_below(words, index as int + 1) {
            lemma_mix(exchanged(values, index as int, target), (index - 1) as nat, rest);
        }
    }
}

proof fn lemma_permutation(len: nat, n: nat, words: Seq<u64>)
    requires
        1 <= n <= LARGEST_BOUND,
    ensures
        spare(words) >= n - 1 ==> permuted(len, n, words) is Some,
        permuted(len, n, words) matches Some((_, rest)) ==> leaves(words, rest, n - 1),
    decreases n,
{
    if n > 1 {
        lemma_permutation(len, (n - 1) as nat, words);
        if let Some((places, rest)) = permuted(len, (n - 1) as nat, words) {
            lemma_number(rest, n as int);
        }
    }
}

proof fn lemma_trim(candidates: Seq<u16>, n: nat, words: Seq<u64>)
    ensures
        spare(words) >= n ==> trimmed(candidates, n, words) is Some,
        trimmed(candidates, n, words) matches Some((kept, rest)) ==> leaves(words, rest, n as int)
            && (n > 0 ==> kept.len() > 0 && leaves(words, rest, n - 1)),
        spare(words) + 1 >= n ==> trimmed(candidates, n, words) is Some,
    decreases n,
{
    if n > 0 {
        lemma_trim(candidates, (n - 1) as nat, words);
        if let Some((kept, rest)) = trimmed(candidates, (n - 1) as nat, words) {
            if kept.len() > 0 {
                lemma_flipped(rest, REMOVE_RANDOM_CIPHERS@[kept.len() - 1]);
            }
        }
    }
}

proof fn lemma_coins(words: Seq<u64>, weights: Seq<u64>)
    ensures
        spare(words) >= weights.len() ==> flips(words, weights) is Some,
        flips(words, weights) matches Some((_, rest)) ==> leaves(words, rest, weights.len() as int),
    decreases weights.len(),
{
    if weights.len() > 0 {
        lemma_coins(words, weights.drop_last());
        if let Some((faces, rest)) = flips(words, weights.drop_last()) {
            lemma_flipped(rest, weights.last());
        }
    }
}

proof fn lemma_suite_words(words: Seq<u64>)
    ensures
        spare(words) >= 44 ==> drawn_suites(words) is Some,
        drawn_suites(words) matches Some((_, rest)) ==> leaves(words, rest, 44),
{
    lemma_permutation(22, 22, words);
    if let Some((tags, rest)) = permuted(22, 22, words) {
        lemma_mix(TLS13_CIPHER_SUITES@, 2, rest);
        if let Some((tls13, left)) = shuffled_all(TLS13_CIPHER_SUITES@, rest) {
            lemma_at_most_nineteen(tags);
            lemma_mixed_len(TLS13_CIPHER_SUITES@, 2, rest);
            let candidates = tls13 + ranked_suites(tags, 44);
            lemma_trim(candidates, candidates.len(), left);
        }
    }
}

proof fn lemma_mixed_len<T>(values: Seq<T>, index: nat, words: Seq<u64>)
    requires
        index < values.len(),
        index < LARGEST_BOUND,
    ensures
        mixed(values, index, words) matches Some((mix, _)) ==> mix.len() == values.len(),
    decreases index,
{
    if index > 0 {
        lemma_number(words, index as int + 1);
        if let Some((target, rest)) = number_below(words, index as int + 1) {
            lemma_mixed_len(exchanged(values, index as int, target), (index - 1) as nat, rest);
        }
    }
}

proof fn lemma_scheme_words(words: Seq<u64>)
    ensures
        spare(words) >= 14 ==> drawn_schemes(words) is Some,
        drawn_schemes(words) matches Some((_, rest)) ==> leaves(words, rest, 14),
{
    lemma_coins(words, scheme_weights());
    if let Some((faces, rest)) = flips(words, scheme_weights()) {
        let schemes = chosen_schemes(faces);
        assert(1 <= schemes.len() <= 11);
        lemma_mix(schemes, (schemes.len() - 1) as nat, rest);
    }
}

proof fn lemma_layout_words(with_alpn: bool, words: Seq<u64>)
    ensures
        spare(words) >= 21 ==> drawn_layout(with_alpn, words) is Some,
{
    lemma_coins(words, layout_weights());
    if let Some((faces, rest)) = flips(words, layout_weights()) {
        lemma_flipped(rest, APPEND_ALPS);
        if with_alpn {
            if let Some((with_alps, left)) = flipped(rest, APPEND_ALPS) {
                let slots = chosen_slots(with_alpn, faces, with_alps);
                assert(1 <= slots.len() <= 15);
                lemma_mix(slots, (slots.len() - 1) as nat, left);
            }
        } else {
            let slots = chosen_slots(with_alpn, faces, false);
            assert(1 <= slots.len() <= 15);
            lemma_mix(slots, (slots.len() - 1) as nat, rest);
        }
    }
}

/// Eighty-three words that no number passes over draw a hello, whatever stands
/// between them.
pub proof fn enough_words_draw_a_hello(words: Seq<u64>)
    requires
        spare(words) >= WORDS_TAKEN,
    ensures
        drawn_hello(words) is Some,
{
    lemma_coins(words, first_weights());
    let (faces, after_coins) = flips(words, first_weights())->0;
    lemma_suite_words(after_coins);
    let (suites, after_suites) = drawn_suites(after_coins)->0;
    lemma_scheme_words(after_suites);
    let (body, after_schemes) = drawn_schemes(after_suites)->0;
    lemma_coins(after_schemes, group_weights());
    let (groups, after_groups) = drawn_groups(after_schemes)->0;
    lemma_layout_words(faces[0], after_groups);
}

/// Words that no number passes over are all spare.
pub proof fn lemma_all_spare(words: Seq<u64>)
    requires
        forall|i: int| 0 <= i < words.len() ==> #[trigger] words[i] >= LARGEST_BOUND,
    ensures
        spare(words) == words.len(),
    decreases words.len(),
{
    if words.len() > 0 {
        lemma_all_spare(words.drop_first());
    }
}

/// The words that a number may pass over.
spec fn passed_over(words: Seq<u64>) -> Seq<int>
    decreases words.len(),
{
    if words.len() == 0 {
        Seq::empty()
    } else if words.last() >= LARGEST_BOUND {
        passed_over(words.drop_last())
    } else {
        passed_over(words.drop_last()).push(words.last() as int)
    }
}

proof fn lemma_spare_last(words: Seq<u64>)
    requires
        words.len() > 0,
    ensures
        spare(words) == spare(words.drop_last()) + if words.last() >= LARGEST_BOUND {
            1int
        } else {
            0
        },
    decreases words.len(),
{
    if words.len() > 1 {
        lemma_spare_last(words.drop_first());
        assert(words.drop_first().drop_last() =~= words.drop_last().drop_first());
    } else {
        assert(words.drop_first() =~= Seq::<u64>::empty());
        assert(words.drop_last() =~= Seq::<u64>::empty());
    }
}

proof fn lemma_passed_over(words: Seq<u64>)
    requires
        words.no_duplicates(),
    ensures
        spare(words) + passed_over(words).len() == words.len(),
        passed_over(words).no_duplicates(),
        forall|k: int|
            0 <= k < passed_over(words).len() ==> 0 <= #[trigger] passed_over(words)[k]
                < LARGEST_BOUND && words.contains(passed_over(words)[k] as u64),
    decreases words.len(),
{
    if words.len() > 0 {
        let front = words.drop_last();
        lemma_passed_over(front);
        lemma_spare_last(words);
        assert forall|k: int| 0 <= k < passed_over(words).len() implies 0
            <= #[trigger] passed_over(words)[k] < LARGEST_BOUND && words.contains(
            passed_over(words)[k] as u64,
        ) by {
            if k < passed_over(front).len() {
                let word = passed_over(front)[k] as u64;
                assert(front.contains(word));
                let at = front.index_of(word);
                assert(words[at] == word);
            } else {
                assert(words[words.len() - 1] == passed_over(words)[k]);
            }
        }
        assert forall|k: int| 0 <= k < passed_over(front).len() implies #[trigger] passed_over(
            front,
        )[k] != words.last() by {
            let word = passed_over(front)[k] as u64;
            assert(front.contains(word));
            let at = front.index_of(word);
            assert(words[at] == word);
        }
    }
}

/// Words that are all different pass over at most twenty-two.
proof fn lemma_few_passed_over(words: Seq<u64>)
    requires
        words.no_duplicates(),
    ensures
        spare(words) + LARGEST_BOUND >= words.len(),
{
    lemma_passed_over(words);
    let passed = passed_over(words);
    passed.unique_seq_to_set();
    lemma_int_range(0, LARGEST_BOUND as int);
    let range = set_int_range(0, LARGEST_BOUND as int);
    assert(passed.to_set().subset_of(range)) by {
        assert forall|word: int| passed.to_set().contains(word) implies range.contains(word) by {
            let k = passed.index_of(word);
            assert(passed[k] == word);
        }
    }
    lemma_len_subset(passed.to_set(), range);
}

/// Multiplication by a number with an inverse can be undone.
proof fn lemma_product_undone(x: int, factor: int, inverse: int)
    requires
        0 <= x < 0x1_0000_0000_0000_0000,
        factor * inverse % 0x1_0000_0000_0000_0000 == 1,
    ensures
        (x * factor % 0x1_0000_0000_0000_0000) * inverse % 0x1_0000_0000_0000_0000 == x,
{
    let range: int = 0x1_0000_0000_0000_0000;
    lemma_mul_mod_noop_left(x * factor, inverse, range);
    assert((x * factor) * inverse == x * (factor * inverse)) by (nonlinear_arith);
    lemma_mul_mod_noop_right(x, factor * inverse, range);
}

proof fn lemma_mix_step(x: u64, y: u64)
    by (bit_vector)
    ensures
        x ^ (x >> 30) == y ^ (y >> 30) ==> x == y,
        x ^ (x >> 27) == y ^ (y >> 27) ==> x == y,
        x ^ (x >> 31) == y ^ (y >> 31) ==> x == y,
{
}

proof fn lemma_product_differs(x: u64, y: u64)
    ensures
        x.wrapping_mul(0xbf58_476d_1ce4_e5b9) == y.wrapping_mul(0xbf58_476d_1ce4_e5b9) ==> x == y,
        x.wrapping_mul(0x94d0_49bb_1331_11eb) == y.wrapping_mul(0x94d0_49bb_1331_11eb) ==> x == y,
{
    lemma_product_undone(x as int, 0xbf58_476d_1ce4_e5b9, 10871156337175269513);
    lemma_product_undone(y as int, 0xbf58_476d_1ce4_e5b9, 10871156337175269513);
    lemma_product_undone(x as int, 0x94d0_49bb_1331_11eb, 3573116690164977347);
    lemma_product_undone(y as int, 0x94d0_49bb_1331_11eb, 3573116690164977347);
}

/// Different states give different words.
proof fn lemma_output_differs(x: u64, y: u64)
    requires
        splitmix_output(x) == splitmix_output(y),
    ensures
        x == y,
{
    let first_x = (x ^ (x >> 30)).wrapping_mul(0xbf58_476d_1ce4_e5b9);
    let first_y = (y ^ (y >> 30)).wrapping_mul(0xbf58_476d_1ce4_e5b9);
    let second_x = (first_x ^ (first_x >> 27)).wrapping_mul(0x94d0_49bb_1331_11eb);
    let second_y = (first_y ^ (first_y >> 27)).wrapping_mul(0x94d0_49bb_1331_11eb);
    lemma_mix_step(second_x, second_y);
    lemma_product_differs(first_x ^ (first_x >> 27), first_y ^ (first_y >> 27));
    lemma_mix_step(first_x, first_y);
    lemma_product_differs(x ^ (x >> 30), y ^ (y >> 30));
    lemma_mix_step(x, y);
}

proof fn lemma_state(seed: u64, n: nat)
    ensures
        seeded_state(seed, n) == (seed + n * 0x9e37_79b9_7f4a_7c15) % 0x1_0000_0000_0000_0000,
    decreases n,
{
    let step: int = 0x9e37_79b9_7f4a_7c15;
    let range: int = 0x1_0000_0000_0000_0000;
    if n > 0 {
        lemma_state(seed, (n - 1) as nat);
        let before = seed + (n - 1) * step;
        lemma_add_mod_noop_right(step, before, range);
        assert(seed + n * step == step + before) by (nonlinear_arith)
            requires
                before == seed + (n - 1) * step,
        ;
        let state = seeded_state(seed, (n - 1) as nat);
        assert(state == before % range);
        assert(splitmix_step(state) == (step + state) % range);
    }
}

/// A seeded generator does not come back to a state within a draw.
proof fn lemma_state_differs(seed: u64, m: nat, n: nat)
    requires
        m < n <= 65536,
    ensures
        seeded_state(seed, m) != seeded_state(seed, n),
{
    lemma_state(seed, m);
    lemma_state(seed, n);
    if seeded_state(seed, m) == seeded_state(seed, n) {
        let apart = n - m;
        assert(apart * 0x9e37_79b9_7f4a_7c15 % 0x1_0000_0000_0000_0000 == 0);
        lemma_product_undone(apart, 0x9e37_79b9_7f4a_7c15, 17428512612931826493);
    }
}

/// Every seed draws a hello.
pub proof fn every_seed_draws_a_hello(seed: u64)
    ensures
        drawn_hello(seeded_words(seed)) is Some,
{
    let words = seeded_words(seed);
    assert forall|i: int, j: int|
        0 <= i < words.len() && 0 <= j < words.len() && i != j implies words[i] != words[j] by {
        let (low, high) = if i < j {
            (i, j)
        } else {
            (j, i)
        };
        lemma_state_differs(seed, (low + 1) as nat, (high + 1) as nat);
        if words[i] == words[j] {
            lemma_output_differs(
                seeded_state(seed, (low + 1) as nat),
                seeded_state(seed, (high + 1) as nat),
            );
        }
    }
    lemma_few_passed_over(words);
    enough_words_draw_a_hello(words);
}

} // verus!
