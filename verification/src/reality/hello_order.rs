//! The order in which a hello's extensions go out, and the padding behind them.
use crate::error::WireError;
use crate::octets::{be16, push_u16};
use crate::reality::hello_profile::{HelloProfile, ProfileShape, SlotShape};
use vstd::prelude::*;
use vstd::set_lib::{lemma_int_range, lemma_subset_equality, set_int_range};

verus! {

/// Code point of the RFC 7685 padding extension.
pub const PADDING: u16 = 0x0015;

/// The number of zero bytes that the padding extension of a hello with
/// `unpadded_len` bytes carries, where it has one.
pub open spec fn padding_len(unpadded_len: int) -> Option<int> {
    if !(0x100 <= unpadded_len < 0x200) {
        None
    } else if 0x200 - unpadded_len > 4 {
        Some(0x200 - unpadded_len - 4)
    } else {
        Some(1)
    }
}

/// The padding extension of a hello with `unpadded_len` bytes.
pub open spec fn padding_bytes(unpadded_len: int) -> Seq<u8> {
    match padding_len(unpadded_len) {
        Some(length) => be16(PADDING) + be16(length as u16) + Seq::new(
            length as nat,
            |i: int| 0u8,
        ),
        None => Seq::empty(),
    }
}

/// RFC 7685 padding in the shape browsers use: only for a hello of 256 to 511
/// bytes, its four-byte handshake header included.
pub fn boring_padding(unpadded_len: usize) -> (length: Option<usize>)
    ensures
        match padding_len(unpadded_len as int) {
            Some(expected) => length matches Some(actual) && actual == expected,
            None => length is None,
        },
{
    if unpadded_len < 0x100 || unpadded_len >= 0x200 {
        return None;
    }
    let deficit: usize = 0x200 - unpadded_len;
    if deficit > 4 {
        Some(deficit - 4)
    } else {
        Some(1)
    }
}

/// Write the padding extension for a hello of `unpadded_len` bytes.
pub fn write_padding(out: &mut Vec<u8>, unpadded_len: usize) -> (result: Result<(), WireError>)
    ensures
        result is Ok,
        final(out)@ == old(out)@ + padding_bytes(unpadded_len as int),
{
    match boring_padding(unpadded_len) {
        Some(length) => {
            push_u16(out, PADDING);
            push_u16(out, length as u16);
            let ghost header = out@;
            for i in 0..length
                invariant
                    out@ == header + Seq::new(i as nat, |j: int| 0u8),
            {
                out.push(0);
                assert(out@ =~= header + Seq::new((i + 1) as nat, |j: int| 0u8));
            }
            assert(out@ =~= old(out)@ + padding_bytes(unpadded_len as int));
            Ok(())
        },
        None => {
            assert(out@ =~= old(out)@ + padding_bytes(unpadded_len as int));
            Ok(())
        },
    }
}

/// A hello in the window with room for the extension's header comes out at
/// exactly 512 bytes, and one outside the window is left as it is.
pub proof fn padding_fills_to_512(unpadded_len: int)
    ensures
        0x100 <= unpadded_len < 0x1fc ==> unpadded_len + padding_bytes(unpadded_len).len() == 0x200,
        !(0x100 <= unpadded_len < 0x200) ==> padding_bytes(unpadded_len).len() == 0,
{
}

/// The state of the generator after one step.
pub open spec fn splitmix_step(state: u64) -> u64 {
    state.wrapping_add(0x9e37_79b9_7f4a_7c15)
}

/// The number that the generator gives in `state`.
pub open spec fn splitmix_output(state: u64) -> u64 {
    let a = (state ^ (state >> 30)).wrapping_mul(0xbf58_476d_1ce4_e5b9);
    let b = (a ^ (a >> 27)).wrapping_mul(0x94d0_49bb_1331_11eb);
    b ^ (b >> 31)
}

/// SplitMix64: seedable and not cryptographic. It only has to spread a seed
/// over a permutation.
pub struct SplitMix64 {
    pub state: u64,
}

impl SplitMix64 {
    /// Advance the generator and return its next number.
    pub fn next(&mut self) -> (number: u64)
        ensures
            final(self).state == splitmix_step(old(self).state),
            number == splitmix_output(final(self).state),
    {
        self.state = self.state.wrapping_add(0x9e37_79b9_7f4a_7c15);
        let z = self.state;
        let a = (z ^ (z >> 30)).wrapping_mul(0xbf58_476d_1ce4_e5b9);
        let b = (a ^ (a >> 27)).wrapping_mul(0x94d0_49bb_1331_11eb);
        b ^ (b >> 31)
    }
}

/// `items` with the entries at `i` and `j` exchanged.
pub open spec fn swapped(items: Seq<usize>, i: int, j: int) -> Seq<usize> {
    items.update(i, items[j]).update(j, items[i])
}

/// A Fisher-Yates shuffle of the entries up to `position`, driven by the
/// generator in `state`.
pub open spec fn shuffled(items: Seq<usize>, state: u64, position: nat) -> Seq<usize>
    decreases position,
{
    if position == 0 {
        items
    } else {
        let next = splitmix_step(state);
        let target = splitmix_output(next) as int % (position as int + 1);
        shuffled(swapped(items, position as int, target), next, (position - 1) as nat)
    }
}

/// The places of the first `n` extensions that may move.
pub open spec fn movable_places(extensions: Seq<SlotShape>, n: nat) -> Seq<usize>
    decreases n,
{
    if n == 0 {
        Seq::empty()
    } else {
        let before = movable_places(extensions, (n - 1) as nat);
        if extensions[n - 1].is_pinned() {
            before
        } else {
            before.push((n - 1) as usize)
        }
    }
}

/// `order` with the entry at each of the first `n` places replaced.
pub open spec fn placed(order: Seq<usize>, places: Seq<usize>, values: Seq<usize>, n: nat) -> Seq<
    usize,
>
    decreases n,
{
    if n == 0 {
        order
    } else {
        placed(order, places, values, (n - 1) as nat).update(
            places[n - 1] as int,
            values[n - 1],
        )
    }
}

/// The order that every extension keeps its own place.
pub open spec fn table_order(len: nat) -> Seq<usize> {
    Seq::new(len, |i: int| i as usize)
}

/// The order in which a profile's extensions go out under `seed`.
pub open spec fn order_of(profile: ProfileShape, seed: u64) -> Seq<usize> {
    let extensions = profile.extensions;
    let places = movable_places(extensions, extensions.len());
    let identity = table_order(extensions.len());
    if !profile.permute_extensions || places.len() < 2 {
        identity
    } else {
        placed(
            identity,
            places,
            shuffled(places, seed, (places.len() - 1) as nat),
            places.len(),
        )
    }
}

pub proof fn lemma_movable_places(extensions: Seq<SlotShape>, n: nat)
    requires
        n <= extensions.len() <= usize::MAX,
    ensures
        movable_places(extensions, n).len() <= n,
        movable_places(extensions, n).no_duplicates(),
        forall|k: int|
            0 <= k < movable_places(extensions, n).len() ==> (#[trigger] movable_places(
                extensions,
                n,
            )[k]) < n && !extensions[movable_places(extensions, n)[k] as int].is_pinned(),
    decreases n,
{
    if n > 0 {
        lemma_movable_places(extensions, (n - 1) as nat);
    }
}

proof fn lemma_swapped_keeps(items: Seq<usize>, i: int, j: int)
    requires
        0 <= i < items.len(),
        0 <= j < items.len(),
        items.no_duplicates(),
    ensures
        swapped(items, i, j).len() == items.len(),
        swapped(items, i, j).no_duplicates(),
        forall|k: int|
            0 <= k < items.len() ==> items.contains(#[trigger] swapped(items, i, j)[k]),
        forall|v: usize| items.contains(v) ==> swapped(items, i, j).contains(v),
{
    let after = swapped(items, i, j);
    assert forall|v: usize| items.contains(v) implies after.contains(v) by {
        let k = items.index_of(v);
        if k == i {
            assert(after[j] == v);
        } else if k == j {
            assert(after[i] == v);
        } else {
            assert(after[k] == v);
        }
    }
}

proof fn lemma_shuffled_keeps(items: Seq<usize>, state: u64, position: nat)
    requires
        position < items.len(),
        items.no_duplicates(),
    ensures
        shuffled(items, state, position).len() == items.len(),
        shuffled(items, state, position).no_duplicates(),
        forall|k: int|
            0 <= k < items.len() ==> items.contains(#[trigger] shuffled(items, state, position)[k]),
    decreases position,
{
    if position > 0 {
        let next = splitmix_step(state);
        let target = splitmix_output(next) as int % (position as int + 1);
        let once = swapped(items, position as int, target);
        lemma_swapped_keeps(items, position as int, target);
        lemma_shuffled_keeps(once, next, (position - 1) as nat);
        let last = shuffled(items, state, position);
        assert forall|k: int| 0 <= k < items.len() implies items.contains(#[trigger] last[k]) by {
            assert(once.contains(last[k]));
            let m = once.index_of(last[k]);
            assert(items.contains(once[m]));
        }
    } else {
        assert forall|k: int| 0 <= k < items.len() implies items.contains(
            #[trigger] shuffled(items, state, position)[k],
        ) by {
            assert(items.contains(items[k]));
        }
    }
}

proof fn lemma_placed(order: Seq<usize>, places: Seq<usize>, values: Seq<usize>, n: nat)
    requires
        n <= places.len(),
        n <= values.len(),
        places.no_duplicates(),
        forall|k: int| 0 <= k < places.len() ==> (#[trigger] places[k]) < order.len(),
    ensures
        placed(order, places, values, n).len() == order.len(),
        forall|k: int|
            0 <= k < n ==> placed(order, places, values, n)[#[trigger] places[k] as int]
                == values[k],
        forall|i: int|
            0 <= i < order.len() && (forall|k: int| 0 <= k < n ==> places[k] != i)
                ==> #[trigger] placed(order, places, values, n)[i] == order[i],
    decreases n,
{
    if n > 0 {
        lemma_placed(order, places, values, (n - 1) as nat);
    }
}

/// Different numbers below their count are all of the numbers below it.
proof fn lemma_every_place(order: Seq<usize>)
    requires
        order.no_duplicates(),
        forall|i: int| 0 <= i < order.len() ==> (#[trigger] order[i]) < order.len(),
    ensures
        forall|place: usize| place < order.len() ==> #[trigger] order.contains(place),
{
    let places = Seq::new(order.len(), |i: int| order[i] as int);
    let range = set_int_range(0, order.len() as int);
    lemma_int_range(0, order.len() as int);
    places.unique_seq_to_set();
    assert forall|place: int| places.to_set().contains(place) implies range.contains(place) by {
        let k = places.index_of(place);
        assert(places[k] == order[k]);
    }
    lemma_subset_equality(places.to_set(), range);
    assert forall|place: usize| place < order.len() implies #[trigger] order.contains(place) by {
        assert(range.contains(place as int));
        assert(places.to_set().contains(place as int));
        let k = places.index_of(place as int);
        assert(order[k] == place);
    }
}

/// Two orders of the same places hold the same entries.
pub proof fn lemma_same_entries(first: Seq<usize>, second: Seq<usize>)
    requires
        first.len() == second.len(),
        first.no_duplicates(),
        second.no_duplicates(),
        forall|i: int| 0 <= i < first.len() ==> (#[trigger] first[i]) < first.len(),
        forall|i: int| 0 <= i < second.len() ==> (#[trigger] second[i]) < second.len(),
    ensures
        first.to_multiset() == second.to_multiset(),
        forall|place: usize| first.contains(place) <==> second.contains(place),
{
    broadcast use vstd::seq_lib::group_to_multiset_ensures;

    lemma_every_place(first);
    lemma_every_place(second);
    first.lemma_multiset_has_no_duplicates();
    second.lemma_multiset_has_no_duplicates();
    assert forall|place: usize| first.contains(place) <==> second.contains(place) by {
        if first.contains(place) {
            let k = first.index_of(place);
            assert(first[k] < first.len());
        }
        if second.contains(place) {
            let k = second.index_of(place);
            assert(second[k] < second.len());
        }
    }
    assert forall|place: usize|
        first.to_multiset().count(place) == second.to_multiset().count(place) by {
        assert(first.contains(place) <==> first.to_multiset().count(place) > 0);
        assert(second.contains(place) <==> second.to_multiset().count(place) > 0);
    }
    assert(first.to_multiset() =~= second.to_multiset());
}

/// Whatever the seed, the order holds every extension exactly once, GREASE and
/// padding keep their places, and so does everything where the table does not
/// permute.
pub proof fn order_is_a_permutation(profile: ProfileShape, seed: u64)
    requires
        profile.extensions.len() <= usize::MAX,
    ensures
        order_of(profile, seed).len() == profile.extensions.len(),
        order_of(profile, seed).no_duplicates(),
        forall|i: int|
            0 <= i < profile.extensions.len() ==> (#[trigger] order_of(profile, seed)[i])
                < profile.extensions.len(),
        forall|i: int|
            0 <= i < profile.extensions.len() && (profile.extensions[i].is_pinned()
                || !profile.permute_extensions) ==> #[trigger] order_of(profile, seed)[i] == i,
        forall|place: usize|
            place < profile.extensions.len() ==> #[trigger] order_of(profile, seed).contains(place),
{
    let extensions = profile.extensions;
    let places = movable_places(extensions, extensions.len());
    let identity = table_order(extensions.len());
    lemma_movable_places(extensions, extensions.len());
    if profile.permute_extensions && places.len() >= 2 {
        let values = shuffled(places, seed, (places.len() - 1) as nat);
        lemma_shuffled_keeps(places, seed, (places.len() - 1) as nat);
        lemma_placed(identity, places, values, places.len());
        let order = order_of(profile, seed);
        assert forall|i: int| 0 <= i < extensions.len() implies (#[trigger] order[i])
            < extensions.len() by {
            lemma_entry(profile, seed, i);
        }
        assert forall|i: int, j: int|
            0 <= i < order.len() && 0 <= j < order.len() && i != j implies order[i] != order[j] by {
            lemma_entry(profile, seed, i);
            lemma_entry(profile, seed, j);
            if places.contains(i as usize) && places.contains(j as usize) {
                let a = places.index_of(i as usize);
                let b = places.index_of(j as usize);
                assert(order[i] == values[a]);
                assert(order[j] == values[b]);
            }
        }
        assert forall|i: int|
            0 <= i < extensions.len() && extensions[i].is_pinned() implies #[trigger] order[i]
            == i by {
            lemma_entry(profile, seed, i);
        }
    }
    lemma_every_place(order_of(profile, seed));
}

pub proof fn lemma_entry(profile: ProfileShape, seed: u64, i: int)
    requires
        profile.extensions.len() <= usize::MAX,
        profile.permute_extensions,
        movable_places(profile.extensions, profile.extensions.len()).len() >= 2,
        0 <= i < profile.extensions.len(),
    ensures
        ({
            let places = movable_places(profile.extensions, profile.extensions.len());
            let values = shuffled(places, seed, (places.len() - 1) as nat);
            let order = order_of(profile, seed);
            &&& places.contains(i as usize) ==> order[i] == values[places.index_of(i as usize)]
                && places.contains(order[i]) && !profile.extensions[i].is_pinned()
            &&& !places.contains(i as usize) ==> order[i] == i
            &&& order[i] < profile.extensions.len()
        }),
{
    let extensions = profile.extensions;
    let places = movable_places(extensions, extensions.len());
    let values = shuffled(places, seed, (places.len() - 1) as nat);
    let identity = table_order(extensions.len());
    lemma_movable_places(extensions, extensions.len());
    lemma_shuffled_keeps(places, seed, (places.len() - 1) as nat);
    lemma_placed(identity, places, values, places.len());
    if places.contains(i as usize) {
        let k = places.index_of(i as usize);
        assert(places[k] == i);
        assert(places.contains(values[k]));
        let m = places.index_of(values[k]);
        assert(places[m] < extensions.len());
    } else {
        assert forall|k: int| 0 <= k < places.len() implies places[k] != i by {
            if places[k] == i {
                assert(places.contains(places[k]));
            }
        }
    }
}

/// The order the extensions go out in, as indices into the table.
///
/// Pinned slots keep their position; the rest are permuted reproducibly from
/// the seed.
pub fn extension_order(profile: &HelloProfile, seed: u64) -> (order: Vec<usize>)
    ensures
        order@ == order_of(profile@, seed),
        forall|i: int| 0 <= i < order@.len() ==> (#[trigger] order@[i]) < profile@.extensions.len(),
{
    let ghost extensions = profile@.extensions;
    let count = profile.extensions.len();
    proof {
        order_is_a_permutation(profile@, seed);
        lemma_movable_places(extensions, extensions.len());
    }
    let mut order: Vec<usize> = Vec::new();
    let mut movable: Vec<usize> = Vec::new();
    for i in 0..count
        invariant
            count == profile.extensions@.len(),
            extensions == profile@.extensions,
            order@ == table_order(i as nat),
            movable@ == movable_places(extensions, i as nat),
    {
        order.push(i);
        assert(order@ =~= table_order((i + 1) as nat));
        assert(extensions[i as int] == profile.extensions@[i as int]@);
        if !profile.extensions[i].position_is_pinned() {
            movable.push(i);
        }
    }
    if !profile.permute_extensions || movable.len() < 2 {
        return order;
    }
    let mut shuffling: Vec<usize> = Vec::new();
    for i in 0..movable.len()
        invariant
            shuffling@ == movable@.subrange(0, i as int),
    {
        shuffling.push(movable[i]);
        assert(shuffling@ =~= movable@.subrange(0, i + 1));
    }
    assert(shuffling@ =~= movable@);
    let mut generator = SplitMix64 { state: seed };
    let mut position: usize = movable.len() - 1;
    while position > 0
        invariant
            position < movable.len(),
            shuffling@.len() == movable@.len(),
            shuffled(shuffling@, generator.state, position as nat) == shuffled(
                movable@,
                seed,
                (movable@.len() - 1) as nat,
            ),
        decreases position,
    {
        let target: usize = (generator.next() % (position as u64 + 1)) as usize;
        let first = shuffling[position];
        let second = shuffling[target];
        shuffling[position] = second;
        shuffling[target] = first;
        position = position - 1;
    }
    let ghost identity = order@;
    for k in 0..movable.len()
        invariant
            extensions == profile@.extensions,
            movable@ == movable_places(extensions, extensions.len()),
            identity == table_order(extensions.len()),
            shuffling@.len() == movable@.len(),
            order@ == placed(identity, movable@, shuffling@, k as nat),
            order@.len() == extensions.len(),
            forall|j: int| 0 <= j < movable@.len() ==> (#[trigger] movable@[j]) < extensions.len(),
    {
        order[movable[k]] = shuffling[k];
    }
    order
}

} // verus!
