//! What holds of a hello's extensions: they are the table's, and the seed decides
//! nothing but their order.
use crate::error::Fault;
use crate::octets::{be16, be24, read16};
use crate::reality::client_hello::{
    client_hello_message, closes_with_padding, extension_list, hello_extensions, hello_front,
    lemma_suite_list_len, share_list, slot_bytes, slot_content, suite_list, SessionShape,
};
use crate::reality::grease::grease_point;
use crate::reality::hello_order::{
    lemma_entry, lemma_movable_places, lemma_same_entries, movable_places, order_is_a_permutation,
    order_of, padding_bytes, padding_len, shuffled, splitmix_output, splitmix_step, swapped,
    PADDING,
};
use crate::reality::hello_profile::{
    extension_complaint, first_extension_complaint, KeyShareSlot, ProfileShape, SlotShape,
};
use crate::reality::hello_tables::RealityHelloProfile;
use vstd::arithmetic::div_mod::lemma_fundamental_div_mod_converse;
use vstd::multiset::Multiset;
use vstd::prelude::*;
use vstd::seq_lib::{commutative_foldr, lemma_fold_right_permutation};

verus! {

/// An extension: its type and its body.
pub type Extension = (u16, Seq<u8>);

/// The extensions that an extension block splits into.
pub open spec fn split_extensions(block: Seq<u8>) -> Option<Seq<Extension>>
    decreases block.len(),
{
    if block.len() == 0 {
        Some(Seq::empty())
    } else if block.len() < 4 || block.len() < 4 + read16(block, 2) {
        None
    } else {
        let end = 4 + read16(block, 2);
        match split_extensions(block.skip(end)) {
            None => None,
            Some(others) => Some(
                seq![(read16(block, 0) as u16, block.subrange(4, end))] + others,
            ),
        }
    }
}

/// Where the extension block of a hello begins, behind its length.
pub open spec fn block_start(message: Seq<u8>) -> int {
    77 + read16(message, 71)
}

/// The extensions of a hello, as they stand on the wire.
pub open spec fn hello_parts(message: Seq<u8>) -> Option<Seq<Extension>> {
    split_extensions(message.skip(block_start(message)))
}

/// The extensions that the slots at `order` stand for. Padding is none of them:
/// what it holds depends on the others.
pub open spec fn table_parts(
    extensions: Seq<SlotShape>,
    session: SessionShape,
    order: Seq<usize>,
) -> Seq<Extension>
    decreases order.len(),
{
    if order.len() == 0 {
        Seq::empty()
    } else {
        let before = table_parts(extensions, session, order.drop_last());
        let slot = extensions[order.last() as int];
        if slot is Padding {
            before
        } else {
            before.push(slot_content(slot, session)->Ok_0)
        }
    }
}

proof fn lemma_extension(extension_type: u16, body: Seq<u8>)
    requires
        body.len() <= 65535,
    ensures
        ({
            let bytes = be16(extension_type) + be16(body.len() as u16) + body;
            &&& bytes.len() == 4 + body.len()
            &&& read16(bytes, 0) == extension_type
            &&& read16(bytes, 2) == body.len()
            &&& bytes.subrange(4, body.len() + 4int) == body
        }),
{
    let bytes = be16(extension_type) + be16(body.len() as u16) + body;
    assert(bytes.subrange(4, body.len() + 4int) =~= body);
}

/// A block with one more extension splits into one more.
pub(crate) proof fn lemma_split_more(block: Seq<u8>, extension_type: u16, body: Seq<u8>)
    requires
        split_extensions(block) is Some,
        body.len() <= 65535,
    ensures
        split_extensions(block + (be16(extension_type) + be16(body.len() as u16) + body)) == Some(
            split_extensions(block)->0.push((extension_type, body)),
        ),
    decreases block.len(),
{
    let bytes = be16(extension_type) + be16(body.len() as u16) + body;
    let whole = block + bytes;
    lemma_extension(extension_type, body);
    if block.len() == 0 {
        assert(whole =~= bytes);
        assert(whole.skip(body.len() + 4int) =~= Seq::<u8>::empty());
        assert(split_extensions(whole.skip(body.len() + 4int)) == Some(Seq::<Extension>::empty()));
        assert(seq![(extension_type, body)] + Seq::<Extension>::empty()
            =~= Seq::<Extension>::empty().push((extension_type, body)));
    } else {
        let end = 4 + read16(block, 2);
        assert(read16(whole, 2) == read16(block, 2));
        assert(read16(whole, 0) == read16(block, 0));
        assert(whole.skip(end) =~= block.skip(end) + bytes);
        lemma_split_more(block.skip(end), extension_type, body);
        assert(whole.subrange(4, end) =~= block.subrange(4, end));
        let first = seq![(read16(block, 0) as u16, block.subrange(4, end))];
        let others = split_extensions(block.skip(end))->0;
        assert(first + others.push((extension_type, body)) =~= (first + others).push(
            (extension_type, body),
        ));
    }
}

/// The bytes of extensions, one behind the other, counted.
pub open spec fn wire_len(parts: Seq<Extension>) -> int
    decreases parts.len(),
{
    if parts.len() == 0 {
        0
    } else {
        wire_len(parts.drop_last()) + 4 + parts.last().1.len()
    }
}

/// The list of the extensions at the first `n` places splits into those that the
/// table has there.
proof fn lemma_list_splits(
    extensions: Seq<SlotShape>,
    order: Seq<usize>,
    session: SessionShape,
    n: nat,
)
    requires
        n <= order.len(),
        extension_list(extensions, order, session, n) is Ok,
    ensures
        ({
            let list = extension_list(extensions, order, session, n)->Ok_0;
            let parts = table_parts(extensions, session, order.take(n as int));
            &&& split_extensions(list) == Some(parts)
            &&& list.len() == wire_len(parts)
            &&& forall|k: int|
                0 <= k < n ==> slot_bytes(extensions[#[trigger] order[k] as int], session) is Ok
        }),
    decreases n,
{
    if n > 0 {
        lemma_list_splits(extensions, order, session, (n - 1) as nat);
        let front = order.take(n - 1);
        assert(order.take(n as int).drop_last() =~= front);
        let slot = extensions[order[n - 1] as int];
        let before = extension_list(extensions, order, session, (n - 1) as nat)->Ok_0;
        let parts = table_parts(extensions, session, front);
        if slot is Padding {
            assert(before + Seq::<u8>::empty() =~= before);
        } else {
            let (extension_type, body) = slot_content(slot, session)->Ok_0;
            lemma_split_more(before, extension_type, body);
            assert(parts.push((extension_type, body)).drop_last() =~= parts);
        }
    } else {
        assert(order.take(0) =~= Seq::<usize>::empty());
    }
}

/// Where every slot can be written, so can the list.
proof fn lemma_list_written(
    extensions: Seq<SlotShape>,
    order: Seq<usize>,
    session: SessionShape,
    n: nat,
)
    requires
        n <= order.len(),
        forall|k: int|
            0 <= k < n ==> slot_bytes(extensions[#[trigger] order[k] as int], session) is Ok,
    ensures
        extension_list(extensions, order, session, n) is Ok,
    decreases n,
{
    if n > 0 {
        lemma_list_written(extensions, order, session, (n - 1) as nat);
        assert(slot_bytes(extensions[order[n - 1] as int], session) is Ok);
    }
}

spec fn gathered(extensions: Seq<SlotShape>, session: SessionShape) -> spec_fn(
    usize,
    Multiset<Extension>,
) -> Multiset<Extension> {
    |i: usize, parts: Multiset<Extension>|
        if extensions[i as int] is Padding {
            parts
        } else {
            parts.insert(slot_content(extensions[i as int], session)->Ok_0)
        }
}

proof fn lemma_gathered(
    extensions: Seq<SlotShape>,
    session: SessionShape,
    order: Seq<usize>,
    more: Multiset<Extension>,
)
    ensures
        order.fold_right(gathered(extensions, session), more) == table_parts(
            extensions,
            session,
            order,
        ).to_multiset().add(more),
    decreases order.len(),
{
    broadcast use vstd::seq_lib::group_to_multiset_ensures;

    let parts = table_parts(extensions, session, order).to_multiset();
    if order.len() == 0 {
        assert(parts.add(more) =~= more);
    } else {
        let step = gathered(extensions, session);
        let front = order.drop_last();
        lemma_gathered(extensions, session, front, step(order.last(), more));
        let slot = extensions[order.last() as int];
        let before = table_parts(extensions, session, front);
        if slot is Padding {
        } else {
            let content = slot_content(slot, session)->Ok_0;
            assert(before.push(content).to_multiset() =~= before.to_multiset().insert(content));
            assert(before.to_multiset().add(more.insert(content)) =~= before.to_multiset().insert(
                content,
            ).add(more));
        }
    }
}

/// Two orders of the same slots have the same parts.
proof fn lemma_same_parts(
    extensions: Seq<SlotShape>,
    session: SessionShape,
    first: Seq<usize>,
    second: Seq<usize>,
)
    requires
        first.to_multiset() == second.to_multiset(),
    ensures
        table_parts(extensions, session, first).to_multiset() == table_parts(
            extensions,
            session,
            second,
        ).to_multiset(),
{
    let step = gathered(extensions, session);
    let none = Multiset::<Extension>::empty();
    assert forall|x: usize, y: usize, parts: Multiset<Extension>| #[trigger]
        step(x, step(y, parts)) == step(y, step(x, parts)) by {
        assert(step(x, step(y, parts)) =~= step(y, step(x, parts)));
    }
    lemma_fold_right_permutation(first, second, step, none);
    lemma_gathered(extensions, session, first, none);
    lemma_gathered(extensions, session, second, none);
    assert(table_parts(extensions, session, first).to_multiset().add(none) =~= table_parts(
        extensions,
        session,
        first,
    ).to_multiset());
    assert(table_parts(extensions, session, second).to_multiset().add(none) =~= table_parts(
        extensions,
        session,
        second,
    ).to_multiset());
}

proof fn lemma_wire_len(parts: Seq<Extension>, more: int)
    ensures
        parts.fold_right(|part: Extension, sum: int| sum + 4 + part.1.len(), more) == wire_len(
            parts,
        ) + more,
    decreases parts.len(),
{
    if parts.len() > 0 {
        lemma_wire_len(parts.drop_last(), more + 4 + parts.last().1.len());
    }
}

proof fn lemma_same_wire_len(first: Seq<Extension>, second: Seq<Extension>)
    requires
        first.to_multiset() == second.to_multiset(),
    ensures
        wire_len(first) == wire_len(second),
{
    let step = |part: Extension, sum: int| sum + 4 + part.1.len();
    assert(commutative_foldr(step));
    lemma_fold_right_permutation(first, second, step, 0);
    lemma_wire_len(first, 0);
    lemma_wire_len(second, 0);
}

/// The padding behind a list of `list_len` bytes: one extension, or none.
pub open spec fn padding_parts(
    profile: ProfileShape,
    session: SessionShape,
    list_len: int,
) -> Seq<Extension> {
    if !closes_with_padding(profile.extensions) {
        Seq::empty()
    } else {
        match padding_len(4 + hello_front(profile, session).len() + 2 + list_len) {
            None => Seq::empty(),
            Some(length) => seq![(PADDING, Seq::new(length as nat, |i: int| 0u8))],
        }
    }
}

/// The block of a hello that can be written splits into the table's extensions,
/// in the order of the seed, and the padding.
proof fn lemma_block_splits(profile: ProfileShape, session: SessionShape)
    requires
        hello_extensions(profile, session) is Ok,
    ensures
        ({
            let order = order_of(profile, session.permutation_seed);
            let parts = table_parts(profile.extensions, session, order);
            let block = hello_extensions(profile, session)->Ok_0;
            &&& extension_list(profile.extensions, order, session, order.len()) is Ok
            &&& split_extensions(block) == Some(
                parts + padding_parts(profile, session, wire_len(parts)),
            )
            &&& block.len() == wire_len(parts) + wire_len(
                padding_parts(profile, session, wire_len(parts)),
            )
        }),
{
    let order = order_of(profile, session.permutation_seed);
    let list = extension_list(profile.extensions, order, session, order.len())->Ok_0;
    lemma_list_splits(profile.extensions, order, session, order.len());
    assert(order.take(order.len() as int) =~= order);
    let parts = table_parts(profile.extensions, session, order);
    let padding = padding_parts(profile, session, wire_len(parts));
    let unpadded = (4 + hello_front(profile, session).len() + 2 + list.len()) as int;
    reveal_with_fuel(wire_len, 2);
    if closes_with_padding(profile.extensions) {
        match padding_len(unpadded) {
            None => {
                assert(list + padding_bytes(unpadded) =~= list);
                assert(parts + padding =~= parts);
            },
            Some(length) => {
                let zeros = Seq::new(length as nat, |i: int| 0u8);
                lemma_split_more(list, PADDING, zeros);
                assert(parts + padding =~= parts.push((PADDING, zeros)));
                assert(padding.drop_last() =~= Seq::<Extension>::empty());
            },
        }
    } else {
        assert(parts + padding =~= parts);
    }
}

/// The block of a hello stands where it is looked for.
proof fn lemma_block_place(profile: ProfileShape, session: SessionShape)
    requires
        session.client_random.len() == 32,
        session.session_id.len() == 32,
        client_hello_message(profile, session) is Ok,
    ensures
        ({
            let message = client_hello_message(profile, session)->Ok_0;
            let block = hello_extensions(profile, session)->Ok_0;
            &&& block_start(message) == 4 + hello_front(profile, session).len() + 2
            &&& message.skip(block_start(message)) == block
            &&& message.len() == block_start(message) + block.len()
            &&& message.take(block_start(message)) == seq![1u8] + be24(
                (hello_front(profile, session).len() + 2 + block.len()) as int,
            ) + hello_front(profile, session) + be16(block.len() as u16)
        }),
{
    let message = client_hello_message(profile, session)->Ok_0;
    let block = hello_extensions(profile, session)->Ok_0;
    let suites = suite_list(profile.cipher_suites, session.grease, profile.cipher_suites.len());
    lemma_suite_list_len(profile.cipher_suites, session.grease, profile.cipher_suites.len());
    let front = hello_front(profile, session);
    assert(front.len() == 71 + suites.len());
    assert(front[67] == be16(suites.len() as u16)[0]);
    assert(front[68] == be16(suites.len() as u16)[1]);
    assert(read16(front, 67) == suites.len());
    assert(read16(message, 71) == read16(front, 67));
    assert(message.skip(block_start(message)) =~= block);
    assert(message.take(block_start(message)) =~= seq![1u8] + be24(
        (front.len() + 2 + block.len()) as int,
    ) + front + be16(block.len() as u16));
}

/// The extensions of a hello are those of the table, in the order of the seed, and
/// behind them the padding, where the table has a slot for it and the length of
/// the hello asks for it.
pub proof fn a_hello_carries_what_the_table_says(profile: ProfileShape, session: SessionShape)
    requires
        session.client_random.len() == 32,
        session.session_id.len() == 32,
    ensures
        client_hello_message(profile, session) matches Ok(message) ==> {
            let order = order_of(profile, session.permutation_seed);
            let parts = table_parts(profile.extensions, session, order);
            hello_parts(message) == Some(parts + padding_parts(profile, session, wire_len(parts)))
        },
{
    if client_hello_message(profile, session) is Ok {
        lemma_block_place(profile, session);
        lemma_block_splits(profile, session);
    }
}

proof fn lemma_no_complaint(extensions: Seq<SlotShape>, n: nat, position: int)
    requires
        0 <= position < n,
        first_extension_complaint(extensions, n) is None,
    ensures
        extension_complaint(extensions, position) is None,
    decreases n,
{
    if position + 1 < n {
        lemma_no_complaint(extensions, (n - 1) as nat, position);
    }
}

proof fn lemma_parts_count(extensions: Seq<SlotShape>, session: SessionShape, order: Seq<usize>)
    requires
        forall|k: int| 0 <= k < order.len() ==> !(extensions[#[trigger] order[k] as int] is Padding),
    ensures
        table_parts(extensions, session, order).len() == order.len(),
        forall|k: int|
            0 <= k < order.len() ==> #[trigger] table_parts(extensions, session, order)[k]
                == slot_content(extensions[order[k] as int], session)->Ok_0,
    decreases order.len(),
{
    if order.len() > 0 {
        let front = order.drop_last();
        assert forall|k: int| 0 <= k < front.len() implies !(extensions[#[trigger] front[k] as int]
            is Padding) by {
            assert(front[k] == order[k]);
        }
        lemma_parts_count(extensions, session, front);
        assert(!(extensions[order[order.len() - 1] as int] is Padding));
    }
}

/// Whether the table itself names the code point of padding.
pub open spec fn names_padding(extensions: Seq<SlotShape>) -> bool {
    exists|i: int|
        0 <= i < extensions.len() && (#[trigger] extensions[i] matches SlotShape::Constant {
            extension_type,
            ..
        } && extension_type == PADDING)
}

proof fn lemma_only_named_padding(slot: SlotShape, session: SessionShape)
    requires
        slot_content(slot, session) is Ok,
        !(slot is Padding),
        (slot_content(slot, session)->Ok_0).0 == PADDING,
    ensures
        slot matches SlotShape::Constant { extension_type, .. } && extension_type == PADDING,
{
    if let SlotShape::Grease { slot: place, .. } = slot {
        let byte = session.grease[place.spec_index()];
        let nibble = byte as int / 16;
        assert((nibble * 16 + 10) * 257 == nibble * 4112 + 2570);
        assert(grease_point(byte) == nibble * 4112 + 2570);
    }
}

/// The extension set of a hello and its padding come out of the table: where the
/// table has no slot for padding, the hello has exactly one extension for each
/// slot, in the order of the seed, and none of the padding type but one that the
/// table itself names.
pub proof fn an_unpadded_table_is_not_padded(profile: ProfileShape, session: SessionShape)
    requires
        profile.extensions.len() <= usize::MAX,
        session.client_random.len() == 32,
        session.session_id.len() == 32,
        !closes_with_padding(profile.extensions),
    ensures
        client_hello_message(profile, session) matches Ok(message) ==> {
            let order = order_of(profile, session.permutation_seed);
            &&& hello_parts(message) matches Some(parts)
            &&& parts.len() == profile.extensions.len()
            &&& forall|k: int|
                0 <= k < parts.len() ==> slot_content(
                    profile.extensions[order[k] as int],
                    session,
                ) == Ok::<Extension, Fault>(#[trigger] parts[k])
            &&& forall|k: int|
                0 <= k < parts.len() && (#[trigger] parts[k]).0 == PADDING ==> names_padding(
                    profile.extensions,
                )
        },
{
    if client_hello_message(profile, session) is Ok {
        let extensions = profile.extensions;
        let order = order_of(profile, session.permutation_seed);
        lemma_block_place(profile, session);
        lemma_block_splits(profile, session);
        lemma_list_splits(extensions, order, session, order.len());
        order_is_a_permutation(profile, session.permutation_seed);
        assert forall|k: int| 0 <= k < order.len() implies !(extensions[#[trigger] order[k] as int]
            is Padding) by {
            lemma_no_complaint(extensions, extensions.len(), order[k] as int);
        }
        lemma_parts_count(extensions, session, order);
        let parts = table_parts(extensions, session, order);
        assert(parts + Seq::<Extension>::empty() =~= parts);
        assert forall|k: int| 0 <= k < parts.len() implies slot_content(
            extensions[order[k] as int],
            session,
        ) == Ok::<Extension, Fault>(#[trigger] parts[k]) by {
            assert(slot_bytes(extensions[order[k] as int], session) is Ok);
        }
        assert forall|k: int|
            0 <= k < parts.len() && (#[trigger] parts[k]).0 == PADDING implies names_padding(
            extensions,
        ) by {
            lemma_only_named_padding(extensions[order[k] as int], session);
        }
    }
}

proof fn lemma_share_list_seed(
    slots: Seq<KeyShareSlot>,
    session: SessionShape,
    other: SessionShape,
    n: nat,
)
    requires
        other == (SessionShape { permutation_seed: other.permutation_seed, ..session }),
    ensures
        share_list(slots, other, n) == share_list(slots, session, n),
    decreases n,
{
    if n > 0 {
        lemma_share_list_seed(slots, session, other, (n - 1) as nat);
    }
}

proof fn lemma_slot_seed(slot: SlotShape, session: SessionShape, other: SessionShape)
    requires
        other == (SessionShape { permutation_seed: other.permutation_seed, ..session }),
    ensures
        slot_content(slot, other) == slot_content(slot, session),
{
    if let SlotShape::KeyShare(entries) = slot {
        lemma_share_list_seed(entries, session, other, entries.len());
    }
}

proof fn lemma_parts_seed(
    extensions: Seq<SlotShape>,
    session: SessionShape,
    other: SessionShape,
    order: Seq<usize>,
)
    requires
        other == (SessionShape { permutation_seed: other.permutation_seed, ..session }),
    ensures
        table_parts(extensions, other, order) == table_parts(extensions, session, order),
    decreases order.len(),
{
    if order.len() > 0 {
        lemma_parts_seed(extensions, session, other, order.drop_last());
        lemma_slot_seed(extensions[order.last() as int], session, other);
    }
}

/// The seed changes the order of the extensions and nothing else: under another
/// seed the hello is written too, it is as long, it has the same bytes before its
/// extensions, and it has the same extensions. Under the same seed it is the same
/// hello.
pub proof fn the_seed_decides_only_the_order(
    profile: ProfileShape,
    session: SessionShape,
    other: SessionShape,
)
    requires
        profile.extensions.len() <= usize::MAX,
        session.client_random.len() == 32,
        session.session_id.len() == 32,
        other == (SessionShape { permutation_seed: other.permutation_seed, ..session }),
    ensures
        client_hello_message(profile, session) matches Ok(first) ==> {
            &&& client_hello_message(profile, other) matches Ok(second)
            &&& second.len() == first.len()
            &&& block_start(second) == block_start(first)
            &&& second.take(block_start(first)) == first.take(block_start(first))
            &&& hello_parts(first) matches Some(first_parts)
            &&& hello_parts(second) matches Some(second_parts)
            &&& second_parts.to_multiset() == first_parts.to_multiset()
            &&& other.permutation_seed == session.permutation_seed ==> second == first
        },
{
    if client_hello_message(profile, session) is Ok {
        let extensions = profile.extensions;
        let first_order = order_of(profile, session.permutation_seed);
        let second_order = order_of(profile, other.permutation_seed);
        order_is_a_permutation(profile, session.permutation_seed);
        order_is_a_permutation(profile, other.permutation_seed);
        lemma_same_entries(first_order, second_order);
        lemma_block_splits(profile, session);
        lemma_list_splits(extensions, first_order, session, first_order.len());
        assert forall|k: int| 0 <= k < second_order.len() implies slot_bytes(
            extensions[#[trigger] second_order[k] as int],
            other,
        ) is Ok by {
            assert(first_order.contains(second_order[k]));
            let at = first_order.index_of(second_order[k]);
            assert(slot_bytes(extensions[first_order[at] as int], session) is Ok);
            lemma_slot_seed(extensions[second_order[k] as int], session, other);
        }
        lemma_list_written(extensions, second_order, other, second_order.len());
        assert(hello_front(profile, other) == hello_front(profile, session));
        lemma_block_splits(profile, other);
        lemma_parts_seed(extensions, session, other, second_order);
        lemma_same_parts(extensions, session, first_order, second_order);
        let first_parts = table_parts(extensions, session, first_order);
        let second_parts = table_parts(extensions, session, second_order);
        lemma_same_wire_len(first_parts, second_parts);
        let padding = padding_parts(profile, session, wire_len(first_parts));
        assert(padding_parts(profile, other, wire_len(second_parts)) == padding);
        vstd::seq_lib::lemma_multiset_commutative(first_parts, padding);
        vstd::seq_lib::lemma_multiset_commutative(second_parts, padding);
        lemma_block_place(profile, session);
        lemma_block_place(profile, other);
    }
}

proof fn lemma_shuffled_last(items: Seq<usize>, state: u64, position: nat, top: int)
    requires
        position < top < items.len(),
    ensures
        shuffled(items, state, position).len() == items.len(),
        shuffled(items, state, position)[top] == items[top],
    decreases position,
{
    if position > 0 {
        let next = splitmix_step(state);
        let target = splitmix_output(next) as int % (position as int + 1);
        lemma_shuffled_last(
            swapped(items, position as int, target),
            next,
            (position - 1) as nat,
            top,
        );
    }
}

/// The last movable entry of an order: the first word of the seed picks it.
proof fn lemma_last_movable(profile: ProfileShape, seed: u64)
    requires
        profile.extensions.len() <= usize::MAX,
        profile.permute_extensions,
        movable_places(profile.extensions, profile.extensions.len()).len() >= 2,
    ensures
        ({
            let places = movable_places(profile.extensions, profile.extensions.len());
            let count = places.len() as int;
            let word = splitmix_output(splitmix_step(seed));
            order_of(profile, seed)[places.last() as int] == places[word as int % count]
        }),
{
    let places = movable_places(profile.extensions, profile.extensions.len());
    let count = places.len() as int;
    let next = splitmix_step(seed);
    let target = splitmix_output(next) as int % count;
    let items = swapped(places, count - 1, target);
    let values = shuffled(places, seed, (count - 1) as nat);
    lemma_movable_places(profile.extensions, profile.extensions.len());
    lemma_shuffled_last(items, next, (count - 2) as nat, count - 1);
    assert(values[count - 1] == places[target]);
    let last = places.last();
    assert(places[count - 1] == last);
    lemma_entry(profile, seed, last as int);
    assert(places.index_of(last) == count - 1);
}

proof fn lemma_product(x: u64, factor: u64, quotient: int, rest: u64)
    requires
        x * factor == quotient * 0x1_0000_0000_0000_0000 + rest,
    ensures
        x.wrapping_mul(factor) == rest,
{
    let range: int = 0x1_0000_0000_0000_0000;
    lemma_fundamental_div_mod_converse(x * factor, range, quotient, rest as int);
}

/// What the first words of two seeds leave by sixteen.
proof fn lemma_first_words()
    ensures
        splitmix_output(splitmix_step(0)) % 16 == 15,
        splitmix_output(splitmix_step(1)) % 16 == 1,
{
    assert(splitmix_step(0) == 0x9e37_79b9_7f4a_7c15);
    assert(0x9e37_79b9_7f4a_7c15u64 ^ (0x9e37_79b9_7f4a_7c15u64 >> 30) == 0x9e37_79bb_0797_9af0u64
        && 0x6f68_261b_57e7_a770u64 ^ (0x6f68_261b_57e7_a770u64 >> 27) == 0x6f68_2616_bae3_641au64
        && 0xe220_a838_bf5c_9ddeu64 ^ (0xe220_a838_bf5c_9ddeu64 >> 31) == 0xe220_a839_7b1d_cdafu64)
        by (bit_vector);
    lemma_product(0x9e37_79bb_0797_9af0, 0xbf58_476d_1ce4_e5b9, 0x7641_f309_3531_f526, 0x6f68_261b_57e7_a770);
    lemma_product(0x6f68_2616_bae3_641a, 0x94d0_49bb_1331_11eb, 0x40c2_daba_32cd_b214, 0xe220_a838_bf5c_9dde);
    assert(splitmix_output(splitmix_step(0)) == 0xe220_a839_7b1d_cdaf);
    assert(splitmix_step(1) == 0x9e37_79b9_7f4a_7c16);
    assert(0x9e37_79b9_7f4a_7c16u64 ^ (0x9e37_79b9_7f4a_7c16u64 >> 30) == 0x9e37_79bb_0797_9af3u64
        && 0xad70_fc62_ae96_589bu64 ^ (0xad70_fc62_ae96_589bu64 >> 27) == 0xad70_fc77_0089_d4ceu64
        && 0x910a_2ded_ab16_071au64 ^ (0x910a_2ded_ab16_071au64 >> 31) == 0x910a_2dec_8902_5cc1u64)
        by (bit_vector);
    lemma_product(0x9e37_79bb_0797_9af3, 0xbf58_476d_1ce4_e5b9, 0x7641_f309_3531_f528, 0xad70_fc62_ae96_589b);
    lemma_product(0xad70_fc77_0089_d4ce, 0x94d0_49bb_1331_11eb, 0x64d2_6fb5_e387_1a99, 0x910a_2ded_ab16_071a);
    assert(splitmix_output(splitmix_step(1)) == 0x910a_2dec_8902_5cc1);
}

/// The Chrome 133 table goes out in more than one order, and the seeds below 64
/// show it.
pub proof fn chrome_133_has_more_than_one_order()
    ensures
        exists|first: u64, second: u64|
            first < 64 && second < 64 && #[trigger] order_of(
                RealityHelloProfile::Chrome133.shape(),
                first,
            ) != #[trigger] order_of(RealityHelloProfile::Chrome133.shape(), second),
{
    let profile = RealityHelloProfile::Chrome133.shape();
    let places = movable_places(profile.extensions, 19);
    reveal_with_fuel(movable_places, 20);
    assert(places =~= Seq::new(16, |i: int| (i + 1) as usize));
    lemma_last_movable(profile, 0);
    lemma_last_movable(profile, 1);
    lemma_first_words();
    assert(order_of(profile, 0)[16] == 16);
    assert(order_of(profile, 1)[16] == 2);
}

} // verus!
