//! What a table of a document says, field by field, and which documents are taken.
use crate::address_laws::{is_digit_of_sixteen, sixteenth, stands_for};
use crate::crypto::sha256_of;
use crate::json::{canonical_text, JsonShape};
use crate::reality::grease::GreaseSlot;
use crate::reality::hello_profile::{
    CipherSuiteSlot, GroupSlot, KeyShareSlot, ProfileShape, SlotShape, VersionSlot,
};
use crate::reality::hello_reading::registered_group;
use crate::reality::hello_tables::RealityHelloProfile;
use crate::reality::runtime_tables::{
    aead_names, aead_suites, aead_texts, after_entry, ascii_lower, digest_fault, document_tables,
    ech_candidates, entry_table, entry_tables, extension_slot, extension_slots,
    extension_slots_field, grease_count, name_taken, named_profile, payload_lengths, table_lists,
    table_profile, ListsShape,
};
use crate::reality::table_fields::{
    body_bytes, code_point, group_slots, group_slots_field, hex_number, hex_numeral, listed_points,
    listed_points_field, paired_bytes, share_slots, share_slots_field, suite_slots,
    suite_slots_field, unsigned_part, version_slots, version_slots_field, without_space,
};
use crate::text::{hex_byte, hex_text};
use vstd::prelude::*;
use vstd::string::*;
use vstd::utf8::{encode_utf8, is_ascii_chars, is_ascii_chars_encode_utf8};

verus! {

proof fn lemma_number(piece: Seq<u8>, word: u16)
    requires
        stands_for(piece, word),
    ensures
        hex_number(piece) == Some(word as int),
        unsigned_part(piece) == piece,
{
    reveal_with_fuel(hex_number, 5);
    let n = piece.len();
    assert(is_digit_of_sixteen(piece[0]));
    let a = piece.drop_last();
    assert(piece.last() == piece[n - 1]);
    assert(is_digit_of_sixteen(piece[n - 1]));
    if n >= 2 {
        assert(a.last() == piece[n - 2]);
        assert(is_digit_of_sixteen(piece[n - 2]));
        let b = a.drop_last();
        if n >= 3 {
            assert(b.last() == piece[n - 3]);
            assert(is_digit_of_sixteen(piece[n - 3]));
            let c = b.drop_last();
            if n >= 4 {
                assert(c.last() == piece[n - 4]);
                assert(c.drop_last().len() == 0);
            }
        }
    }
}

/// Whether a text is read as a code point.
pub open spec fn is_point(name: Seq<char>, text: Seq<char>, point: int) -> bool {
    code_point(name, text) matches Ok(read) && read == point
}

/// Whether a text is read as a body.
pub open spec fn is_body(name: Seq<char>, text: Seq<char>, bytes: Seq<u8>) -> bool {
    body_bytes(name, text) matches Ok(read) && read == bytes
}

/// A code point is written as `0x` and one to four hexadecimal digits, and is the number
/// that they stand for. Without `0x` it is refused.
pub proof fn a_code_point_is_0x_and_digits(name: Seq<char>, text: Seq<char>, word: u16)
    ensures
        ({
            let bytes = encode_utf8(text);
            &&& bytes.len() >= 2 && bytes[0] == 0x30 && bytes[1] == 0x78 && stands_for(
                bytes.subrange(2, bytes.len() as int),
                word,
            ) ==> is_point(name, text, word as int)
            &&& !(bytes.len() >= 2 && bytes[0] == 0x30 && bytes[1] == 0x78) ==> code_point(
                name,
                text,
            ) is Err
            &&& bytes.len() == 2 ==> code_point(name, text) is Err
        }),
{
    let bytes = encode_utf8(text);
    if bytes.len() >= 2 {
        let piece = bytes.subrange(2, bytes.len() as int);
        assert(bytes.skip(2) =~= piece);
        if stands_for(piece, word) {
            lemma_number(piece, word);
        }
    }
}

/// Whether digits are the bytes in hexadecimal, two for each.
pub open spec fn spelt_in_pairs(digits: Seq<u8>, bytes: Seq<u8>) -> bool {
    &&& digits.len() == 2 * bytes.len()
    &&& forall|i: int|
        0 <= i < bytes.len() ==> {
            &&& is_digit_of_sixteen(digits[2 * i])
            &&& is_digit_of_sixteen(digits[2 * i + 1])
            &&& #[trigger] bytes[i] == 16 * sixteenth(digits[2 * i]) + sixteenth(digits[2 * i + 1])
        }
}

proof fn lemma_pairs(digits: Seq<u8>, bytes: Seq<u8>, n: nat)
    requires
        n <= bytes.len(),
        spelt_in_pairs(digits, bytes),
    ensures
        paired_bytes(digits, n) == Some(bytes.take(n as int)),
    decreases n,
{
    if n == 0 {
        assert(bytes.take(0) =~= Seq::<u8>::empty());
    } else {
        lemma_pairs(digits, bytes, (n - 1) as nat);
        let i = n - 1;
        let pair = digits.subrange(2 * n - 2, 2 * n as int);
        assert(bytes[i] == 16 * sixteenth(digits[2 * i]) + sixteenth(digits[2 * i + 1]));
        assert(pair.len() == 2 && pair[0] == digits[2 * i] && pair[1] == digits[2 * i + 1]);
        lemma_number(pair, bytes[i] as u16);
        assert(hex_numeral(pair, 255) == Some(bytes[i] as int));
        assert(bytes.take(n as int) =~= bytes.take(n - 1).push(bytes[i]));
    }
}

/// A body is written as two hexadecimal digits for each byte, 512 bytes at most. White
/// space between them does not count.
pub proof fn a_body_is_pairs_of_digits(name: Seq<char>, text: Seq<char>, bytes: Seq<u8>)
    requires
        spelt_in_pairs(encode_utf8(without_space(text)), bytes),
    ensures
        bytes.len() <= 512 ==> is_body(name, text, bytes),
        bytes.len() > 512 ==> body_bytes(name, text) is Err,
{
    let digits = encode_utf8(without_space(text));
    assert(digits.len() / 2 == bytes.len());
    lemma_pairs(digits, bytes, bytes.len());
    assert(bytes.take(bytes.len() as int) =~= bytes);
}

/// White space falls out of a text wherever it stands, and everything else stays in
/// order: blanks, tabs and line ends are white space, and nothing visible of ASCII is.
pub proof fn white_space_falls_out(front: Seq<char>, character: char, back: Seq<char>)
    ensures
        without_space(front + back) == without_space(front) + without_space(back),
        character == ' ' || character == '\t' || character == '\n' || character == '\r'
            ==> without_space(seq![character]) == Seq::<char>::empty(),
        0x21 <= character as int <= 0x7e ==> without_space(seq![character]) == seq![character],
    decreases back.len(),
{
    let one = seq![character];
    assert(one.last() == character);
    assert(one.drop_last() =~= Seq::<char>::empty());
    assert(without_space(one.drop_last()) =~= Seq::<char>::empty());
    assert(Seq::<char>::empty().push(character) =~= one);
    if back.len() == 0 {
        assert(front + back =~= front);
        assert(without_space(front) + without_space(back) =~= without_space(front));
    } else {
        white_space_falls_out(front, character, back.drop_last());
        assert((front + back).drop_last() =~= front + back.drop_last());
        assert((without_space(front) + without_space(back.drop_last())).push(back.last())
            =~= without_space(front) + without_space(back.drop_last()).push(back.last()));
    }
}

/// Whether an entry has a code point as its value.
pub open spec fn valued(name: Seq<char>, entry: JsonShape, point: int) -> bool {
    entry.text_at("value"@) matches Some(text) && is_point(name, text, point)
}

/// Whether an entry of the list of suites says what its slot is.
pub open spec fn says_suite(name: Seq<char>, entry: JsonShape, slot: CipherSuiteSlot) -> bool {
    match slot {
        CipherSuiteSlot::Grease => entry.text_at("role"@) == Some("grease"@),
        CipherSuiteSlot::Negotiable(id) => entry.text_at("role"@) == Some("negotiable"@) && valued(
            name,
            entry,
            id as int,
        ),
        CipherSuiteSlot::Decorative(id) => entry.text_at("role"@) == Some("decorative"@) && valued(
            name,
            entry,
            id as int,
        ),
    }
}

/// Whether an entry of the list of groups says what its slot is.
pub open spec fn says_group(name: Seq<char>, entry: JsonShape, slot: GroupSlot) -> bool {
    match slot {
        GroupSlot::Grease => entry.text_at("value"@) == Some("GREASE"@),
        GroupSlot::Group(group) => valued(name, entry, registered_group(group)),
    }
}

/// Whether an entry of the list of shares says what its slot is.
pub open spec fn says_share(name: Seq<char>, entry: JsonShape, slot: KeyShareSlot) -> bool {
    match slot {
        KeyShareSlot::Grease => entry.text_at("value"@) == Some("GREASE"@),
        KeyShareSlot::Group(group) => valued(name, entry, registered_group(group)),
    }
}

/// Whether an entry of the list of versions says what its slot is.
pub open spec fn says_version(name: Seq<char>, entry: JsonShape, slot: VersionSlot) -> bool {
    match slot {
        VersionSlot::Grease => entry.text_at("value"@) == Some("GREASE"@),
        VersionSlot::Version(version) => valued(name, entry, version as int),
    }
}

/// Whether an entry of a plain list is a code point, or a list that starts with one.
pub open spec fn says_point(name: Seq<char>, entry: JsonShape, point: u16) -> bool {
    ||| entry matches JsonShape::Text(text) && is_point(name, text, point as int)
    ||| entry matches JsonShape::Array(pair) && pair.len() > 0 && (pair[0]
        matches JsonShape::Text(text) && is_point(name, text, point as int))
}

proof fn lemma_suite_slots(name: Seq<char>, items: Seq<JsonShape>, n: nat)
    requires
        n <= items.len(),
    ensures
        suite_slots(name, items, n) matches Ok(slots) ==> slots.len() == n && forall|i: int|
            0 <= i < n ==> says_suite(name, items[i], #[trigger] slots[i]),
    decreases n,
{
    if n > 0 {
        lemma_suite_slots(name, items, (n - 1) as nat);
    }
}

proof fn lemma_group_slots(name: Seq<char>, items: Seq<JsonShape>, n: nat)
    requires
        n <= items.len(),
    ensures
        group_slots(name, items, n) matches Ok(slots) ==> slots.len() == n && forall|i: int|
            0 <= i < n ==> says_group(name, items[i], #[trigger] slots[i]),
    decreases n,
{
    if n > 0 {
        lemma_group_slots(name, items, (n - 1) as nat);
    }
}

proof fn lemma_share_slots(name: Seq<char>, items: Seq<JsonShape>, n: nat)
    requires
        n <= items.len(),
    ensures
        share_slots(name, items, n) matches Ok(slots) ==> slots.len() == n && forall|i: int|
            0 <= i < n ==> says_share(name, items[i], #[trigger] slots[i]),
    decreases n,
{
    if n > 0 {
        lemma_share_slots(name, items, (n - 1) as nat);
    }
}

proof fn lemma_version_slots(name: Seq<char>, items: Seq<JsonShape>, n: nat)
    requires
        n <= items.len(),
    ensures
        version_slots(name, items, n) matches Ok(slots) ==> slots.len() == n && forall|i: int|
            0 <= i < n ==> says_version(name, items[i], #[trigger] slots[i]),
    decreases n,
{
    if n > 0 {
        lemma_version_slots(name, items, (n - 1) as nat);
    }
}

proof fn lemma_points(name: Seq<char>, field: Seq<char>, items: Seq<JsonShape>, n: nat)
    requires
        n <= items.len(),
    ensures
        listed_points(name, field, items, n) matches Ok(points) ==> points.len() == n && forall|
            i: int,
        |
            0 <= i < n ==> says_point(name, items[i], #[trigger] points[i]),
    decreases n,
{
    if n > 0 {
        lemma_points(name, field, items, (n - 1) as nat);
    }
}

/// A list that is read has a slot for each of its entries, in order, and each says what
/// its slot is.
pub proof fn lists_are_read_entry_by_entry(name: Seq<char>, field: Seq<char>, value: JsonShape)
    ensures
        suite_slots_field(name, value) matches Ok(slots) ==> (value matches JsonShape::Array(items)
            && slots.len() == items.len() && forall|i: int|
            0 <= i < items.len() ==> says_suite(name, items[i], #[trigger] slots[i])),
        group_slots_field(name, value) matches Ok(slots) ==> (value matches JsonShape::Array(items)
            && slots.len() == items.len() && forall|i: int|
            0 <= i < items.len() ==> says_group(name, items[i], #[trigger] slots[i])),
        share_slots_field(name, value) matches Ok(slots) ==> (value matches JsonShape::Array(items)
            && slots.len() == items.len() && forall|i: int|
            0 <= i < items.len() ==> says_share(name, items[i], #[trigger] slots[i])),
        version_slots_field(name, value) matches Ok(slots) ==> (value matches JsonShape::Array(items)
            && slots.len() == items.len() && forall|i: int|
            0 <= i < items.len() ==> says_version(name, items[i], #[trigger] slots[i])),
        listed_points_field(name, field, value) matches Ok(points) ==> (value
            matches JsonShape::Array(items) && points.len() == items.len() && forall|i: int|
            0 <= i < items.len() ==> says_point(name, items[i], #[trigger] points[i])),
{
    if let JsonShape::Array(items) = value {
        lemma_suite_slots(name, items, items.len());
        lemma_group_slots(name, items, items.len());
        lemma_share_slots(name, items, items.len());
        lemma_version_slots(name, items, items.len());
        lemma_points(name, field, items, items.len());
    }
}

/// Whether an entry of the list of extensions says what its slot is, with as many GREASE
/// slots before it.
pub open spec fn says_extension(
    name: Seq<char>,
    lists: ListsShape,
    entry: JsonShape,
    slot: SlotShape,
    seen: nat,
) -> bool {
    match entry.text_at("type"@) {
        None => false,
        Some(declared) => match entry.text_at("body"@) {
            None => false,
            Some(body) => if declared == "GREASE"@ {
                slot matches SlotShape::Grease { slot: which, body: bytes } && is_body(
                    name,
                    body,
                    bytes,
                ) && (seen == 0 ==> which
                    == GreaseSlot::Extension1) && (seen == 1 ==> which == GreaseSlot::Extension2)
                    && seen < 2
            } else {
                code_point(name, declared) matches Ok(point) && says_typed(
                    name,
                    lists,
                    point as int,
                    body,
                    slot,
                )
            },
        },
    }
}

/// Whether a type and a body stand for a slot: one that each connection fills, one of the
/// lists, or the bytes that the body spells.
pub open spec fn says_typed(
    name: Seq<char>,
    lists: ListsShape,
    point: int,
    body: Seq<char>,
    slot: SlotShape,
) -> bool {
    if point == 0 && body == "per_connection"@ {
        slot == SlotShape::ServerName
    } else if point == 10 && body == "table"@ {
        slot == SlotShape::SupportedGroups(lists.groups)
    } else if point == 51 && body == "per_connection"@ {
        slot == SlotShape::KeyShare(lists.key_shares)
    } else if point == 16 && body == "table"@ {
        slot == SlotShape::Alpn
    } else if point == 43 && body == "table"@ {
        slot == SlotShape::SupportedVersions(lists.versions)
    } else if point == 13 && body == "table"@ {
        slot matches SlotShape::Constant { extension_type, body: bytes } && extension_type == 13
            && bytes == lists.signature_algorithms
    } else if point == 0xfe0d && body == "per_connection_grease"@ {
        slot == SlotShape::EchGrease
    } else if point == 21 && body == "conditional"@ {
        slot == SlotShape::Padding
    } else {
        slot matches SlotShape::Constant { extension_type, body: bytes } && extension_type == point
            && is_body(name, body, bytes)
    }
}

/// Whether the `i`th entry of the list of extensions is numbered, and says what its slot
/// is.
pub open spec fn numbered_extension(
    name: Seq<char>,
    lists: ListsShape,
    items: Seq<JsonShape>,
    slots: Seq<SlotShape>,
    i: int,
) -> bool {
    &&& items[i].unsigned_at("order"@) == Some((i + 1) as u64)
    &&& says_extension(name, lists, items[i], slots[i], grease_count(slots.take(i)))
}

proof fn lemma_extension(
    name: Seq<char>,
    lists: ListsShape,
    entry: JsonShape,
    index: nat,
    seen: nat,
)
    ensures
        extension_slot(name, lists, entry, index, seen) matches Ok(slot) ==> entry.unsigned_at(
            "order"@,
        ) == Some((index + 1) as u64) && says_extension(name, lists, entry, slot, seen),
{
}

proof fn lemma_extension_slots(name: Seq<char>, lists: ListsShape, items: Seq<JsonShape>, n: nat)
    requires
        n <= items.len(),
    ensures
        extension_slots(name, lists, items, n) matches Ok(slots) ==> slots.len() == n && forall|
            i: int,
        |
            0 <= i < n ==> #[trigger] numbered_extension(name, lists, items, slots, i),
    decreases n,
{
    if n > 0 {
        lemma_extension_slots(name, lists, items, (n - 1) as nat);
        if let Ok(slots) = extension_slots(name, lists, items, n) {
            let front = extension_slots(name, lists, items, (n - 1) as nat)->Ok_0;
            assert(slots.take(n - 1) =~= front);
            lemma_extension(name, lists, items[n - 1], (n - 1) as nat, grease_count(front));
            assert forall|i: int| 0 <= i < n implies #[trigger] numbered_extension(
                name,
                lists,
                items,
                slots,
                i,
            ) by {
                if i < n - 1 {
                    assert(slots.take(i) =~= front.take(i));
                    assert(slots[i] == front[i]);
                    assert(numbered_extension(name, lists, items, front, i));
                }
            }
        }
    }
}

/// A list of extensions that is read has a slot for each of its entries, numbered from 1
/// on without a gap. The first GREASE entry is the first GREASE extension, the second one
/// the second, and there is no third.
pub proof fn extensions_are_read_entry_by_entry(
    name: Seq<char>,
    lists: ListsShape,
    value: JsonShape,
)
    ensures
        extension_slots_field(name, lists, value) matches Ok(slots) ==> (value
            matches JsonShape::Array(items) && slots.len() == items.len() && forall|i: int|
            0 <= i < items.len() ==> #[trigger] numbered_extension(name, lists, items, slots, i)),
{
    if let JsonShape::Array(items) = value {
        lemma_extension_slots(name, lists, items, items.len());
    }
}

/// Whether a table has a text under a key that is read as a code point.
pub open spec fn pointed(name: Seq<char>, table: JsonShape, key: Seq<char>, point: int) -> bool {
    table.text_at(key) matches Some(text) && is_point(name, text, point)
}

/// A table that is read keeps what no table may change: the versions 0x0303 and 0x0301, a
/// session id of 32 bytes, the one compression method, and the two protocols. Its lists
/// are those under their keys. It says whether it permutes, and reuses the classical
/// share where it says anything about that but `null`.
pub proof fn a_table_is_read_field_by_field(name: Seq<char>, table: JsonShape) -> (lists:
    ListsShape)
    requires
        table_profile(name, table) is Ok,
    ensures
        ({
            let profile = table_profile(name, table)->Ok_0;
            &&& table is Object
            &&& profile.name == name
            &&& pointed(name, table, "legacy_version"@, 0x0303)
            &&& table.at("record_layer_version"@) matches Some(versions) && pointed(
                name,
                versions,
                "initial_client_hello"@,
                0x0301,
            )
            &&& table.unsigned_at("legacy_session_id_bytes"@) == Some(32u64)
            &&& table.at("alpn"@) == Some(
                JsonShape::Array(seq![JsonShape::Text("h2"@), JsonShape::Text("http/1.1"@)]),
            )
            &&& table.at("permute_extensions"@) == Some(
                JsonShape::Bool(profile.permute_extensions),
            )
            &&& profile.reuse_classical_key_share <==> (table.at("key_share_reuse"@)
                matches Some(value) && value !is Null)
        }),
        table.at("compression_methods"@) matches Some(value) && listed_points_field(
            name,
            "compression_methods"@,
            value,
        ) matches Ok(methods) && methods.len() == 1 && methods[0] == 0,
        table.at("cipher_suites"@) matches Some(value) && suite_slots_field(name, value) matches Ok(
            suites,
        ) && suites == table_profile(name, table)->Ok_0.cipher_suites,
        table.at("extension_order"@) matches Some(value) && extension_slots_field(
            name,
            lists,
            value,
        ) matches Ok(slots) && slots == table_profile(name, table)->Ok_0.extensions,
        table.at("supported_groups"@) matches Some(value) && group_slots_field(name, value)
            matches Ok(groups) && groups == lists.groups,
        table.at("key_shares"@) matches Some(value) && share_slots_field(name, value) matches Ok(
            shares,
        ) && shares == lists.key_shares,
        table.at("supported_versions"@) matches Some(value) && version_slots_field(name, value)
            matches Ok(versions) && versions == lists.versions,
{
    table_lists(name, table)->Ok_0
}

/// Whether a suite is that of an AEAD's name, with HKDF-SHA256.
pub open spec fn says_aead(text: Seq<char>, suite: (u16, u16)) -> bool {
    &&& suite.0 == 1
    &&& (text == "AES-128-GCM"@ && suite.1 == 1) || (text == "ChaCha20-Poly1305"@ && suite.1 == 3)
}

proof fn lemma_aead_texts(name: Seq<char>, items: Seq<JsonShape>, n: nat)
    requires
        n <= items.len(),
    ensures
        aead_texts(name, items, n) matches Ok(texts) ==> texts.len() == n && forall|i: int|
            0 <= i < n ==> items[i] == JsonShape::Text(#[trigger] texts[i]),
    decreases n,
{
    if n > 0 {
        lemma_aead_texts(name, items, (n - 1) as nat);
    }
}

proof fn lemma_aead_suites(name: Seq<char>, aeads: Seq<Seq<char>>, n: nat)
    requires
        n <= aeads.len(),
    ensures
        aead_suites(name, aeads, n) matches Ok(suites) ==> suites.len() == n && forall|i: int|
            0 <= i < n ==> says_aead(aeads[i], #[trigger] suites[i]),
    decreases n,
{
    if n > 0 {
        lemma_aead_suites(name, aeads, (n - 1) as nat);
    }
}

proof fn lemma_payload_lengths(name: Seq<char>, items: Seq<JsonShape>, n: nat)
    requires
        n <= items.len(),
    ensures
        payload_lengths(name, items, n) matches Ok(lengths) ==> lengths.len() == n && forall|i: int|
            0 <= i < n ==> says_length(items[i], #[trigger] lengths[i]),
    decreases n,
{
    if n > 0 {
        lemma_payload_lengths(name, items, (n - 1) as nat);
    }
}

/// Whether a value is a number from 1 to 224, and is this length.
pub open spec fn says_length(value: JsonShape, length: usize) -> bool {
    value matches JsonShape::Number { unsigned, .. } && unsigned == Some(length as u64) && 1
        <= length <= 224
}

/// Whether the one AEAD of a shape, or its list of candidates, says what the suites are.
pub open spec fn says_aeads(value: JsonShape, suites: Seq<(u16, u16)>) -> bool {
    match (value.at("aead"@), value.at("aead_candidates"@)) {
        (Some(JsonShape::Text(text)), None) => suites.len() == 1 && says_aead(text, suites[0]),
        (None, Some(JsonShape::Array(items))) => suites.len() == items.len() && forall|i: int|
            0 <= i < items.len() ==> ((#[trigger] items[i]) matches JsonShape::Text(text)
                && says_aead(text, suites[i])),
        _ => false,
    }
}

/// The fake offer of a table names HKDF-SHA256, one AEAD or a list of them, and a list of
/// lengths from 1 to 224. Neither list is empty.
pub proof fn a_fake_offer_is_read_field_by_field(name: Seq<char>, value: JsonShape)
    requires
        ech_candidates(name, value) is Ok,
    ensures
        ({
            let (suites, lengths) = ech_candidates(name, value)->Ok_0;
            &&& value.text_at("kdf"@) == Some("HKDF-SHA256"@)
            &&& suites.len() > 0
            &&& says_aeads(value, suites)
            &&& lengths.len() > 0
            &&& value.at("payload_lengths"@) matches Some(JsonShape::Array(items)) && lengths.len()
                == items.len() && forall|i: int|
                0 <= i < items.len() ==> says_length(items[i], #[trigger] lengths[i])
        }),
{
    let aeads = aead_names(name, value)->Ok_0;
    lemma_aead_suites(name, aeads, aeads.len());
    let (suites, lengths) = ech_candidates(name, value)->Ok_0;
    if let (None, Some(JsonShape::Array(items))) = (value.at("aead"@), value.at("aead_candidates"@)) {
        lemma_aead_texts(name, items, items.len());
        assert forall|i: int| 0 <= i < items.len() implies ((#[trigger] items[i])
            matches JsonShape::Text(text) && says_aead(text, suites[i])) by {
            assert(items[i] == JsonShape::Text(aeads[i]));
            assert(says_aead(aeads[i], suites[i]));
        }
    } else {
        assert(says_aead(aeads[0], suites[0]));
    }
    if let Some(JsonShape::Array(items)) = value.at("payload_lengths"@) {
        lemma_payload_lengths(name, items, items.len());
    }
}

/// Whether a text is the digest in hexadecimal, its letters in either case.
pub open spec fn spells_digest(text: Seq<u8>, digits: Seq<u8>) -> bool {
    &&& text.len() == digits.len()
    &&& forall|i: int|
        0 <= i < text.len() ==> (#[trigger] text[i] == digits[i] || (65 <= text[i] <= 90 && text[i]
            + 32 == digits[i]))
}

/// Whether an entry brings a table for a profile: it names the profile, declares the
/// digest of the table's canonical text, which is ASCII, and the table is read.
pub open spec fn brings(entry: JsonShape, name: Seq<char>, table: ProfileShape) -> bool {
    &&& entry is Object
    &&& entry.text_at("name"@) == Some(name)
    &&& entry.at("fingerprint"@) matches Some(shape) && {
        let text = encode_utf8(canonical_text(shape));
        &&& forall|i: int| 0 <= i < text.len() ==> #[trigger] text[i] < 128
        &&& entry.text_at("fingerprint_sha256"@) matches Some(declared) && spells_digest(
            encode_utf8(declared),
            encode_utf8(hex_text(sha256_of(text))),
        )
        &&& table_profile(name, shape) matches Ok(read) && read == table
    }
}

proof fn lemma_entry_brings(profile: RealityHelloProfile, name: Seq<char>, entry: JsonShape)
    requires
        entry is Object,
        entry.text_at("name"@) == Some(name),
        named_profile(name) == Some(profile),
    ensures
        entry_table(profile, name, entry) matches Ok(table) ==> brings(entry, name, table),
{
    if let Ok(table) = entry_table(profile, name, entry) {
        let shape = entry.at("fingerprint"@)->0;
        let text = encode_utf8(canonical_text(shape));
        assert forall|i: int| 0 <= i < text.len() implies #[trigger] text[i] < 128 by {}
        if let Some(JsonShape::Text(declared)) = entry.at("fingerprint_sha256"@) {
            let digits = encode_utf8(hex_text(sha256_of(text)));
            let bytes = encode_utf8(declared);
            assert(digits == ascii_lower(bytes));
            assert forall|i: int| 0 <= i < bytes.len() implies (#[trigger] bytes[i] == digits[i]
                || (65 <= bytes[i] <= 90 && bytes[i] + 32 == digits[i])) by {
                assert(ascii_lower(bytes)[i] == digits[i]);
            }
        }
    }
}

/// Whether the first `n` entries of a document are objects with names, no two alike.
pub open spec fn distinctly_named(items: Seq<JsonShape>, n: int) -> bool {
    forall|i: int|
        0 <= i < n ==> {
            &&& #[trigger] items[i] is Object
            &&& items[i].text_at("name"@) is Some
            &&& forall|j: int|
                0 <= j < i ==> (#[trigger] items[j]).text_at("name"@) != items[i].text_at("name"@)
        }
}

/// Whether a place holds what the entries bring for a name: the table of the entry with
/// that name, or nothing where there is none.
pub open spec fn holds(
    items: Seq<JsonShape>,
    n: int,
    name: Seq<char>,
    slot: Option<ProfileShape>,
) -> bool {
    match slot {
        Some(table) => exists|i: int| 0 <= i < n && #[trigger] brings(items[i], name, table),
        None => forall|i: int|
            0 <= i < n ==> (#[trigger] items[i]).text_at("name"@) != Some(name),
    }
}

proof fn lemma_holds_more(
    items: Seq<JsonShape>,
    n: int,
    name: Seq<char>,
    slot: Option<ProfileShape>,
)
    requires
        holds(items, n, name, slot),
        n >= 0,
        items[n].text_at("name"@) != Some(name),
    ensures
        holds(items, n + 1, name, slot),
{
    if let Some(table) = slot {
        let i = choose|i: int| 0 <= i < n && #[trigger] brings(items[i], name, table);
        assert(0 <= i < n + 1 && brings(items[i], name, table));
    }
}

proof fn lemma_names(name: Seq<char>)
    ensures
        "chrome_133"@ != "chrome_131"@,
        named_profile(name) == Some(RealityHelloProfile::Chrome133) <==> name == "chrome_133"@,
        named_profile(name) == Some(RealityHelloProfile::Chrome131) <==> name == "chrome_131"@,
{
    reveal_strlit("chrome_133");
    reveal_strlit("chrome_131");
    assert("chrome_133"@[9] != "chrome_131"@[9]);
}

proof fn lemma_entry(items: Seq<JsonShape>, index: int, before: Seq<Option<ProfileShape>>)
    requires
        before.len() == 2,
    ensures
        after_entry(items, index, before) matches Ok(slots) ==> {
            &&& slots.len() == 2
            &&& items[index] is Object
            &&& items[index].text_at("name"@) matches Some(name) && {
                &&& !name_taken(items, index, name)
                &&& name == "chrome_133"@ ==> slots[0] is Some && brings(
                    items[index],
                    name,
                    slots[0]->0,
                )
                &&& name != "chrome_133"@ ==> slots[0] == before[0]
                &&& name == "chrome_131"@ ==> slots[1] is Some && brings(
                    items[index],
                    name,
                    slots[1]->0,
                )
                &&& name != "chrome_131"@ ==> slots[1] == before[1]
            }
        },
{
    if let Ok(slots) = after_entry(items, index, before) {
        let name = items[index].text_at("name"@)->0;
        lemma_names(name);
        if let Some(profile) = named_profile(name) {
            lemma_entry_brings(profile, name, items[index]);
        }
    }
}

proof fn lemma_distinct_more(items: Seq<JsonShape>, n: int)
    requires
        n >= 0,
        distinctly_named(items, n),
        items[n] is Object,
        items[n].text_at("name"@) matches Some(name) && !name_taken(items, n, name),
    ensures
        distinctly_named(items, n + 1),
{
    let name = items[n].text_at("name"@)->0;
    assert forall|j: int| 0 <= j < n implies (#[trigger] items[j]).text_at("name"@) != items[n].text_at(
        "name"@,
    ) by {
        if items[j].text_at("name"@) == Some(name) {
            assert(name_taken(items, n, name));
        }
    }
}

proof fn lemma_entries(items: Seq<JsonShape>, n: nat)
    requires
        n <= items.len(),
    ensures
        entry_tables(items, n) matches Ok(slots) ==> slots.len() == 2 && distinctly_named(
            items,
            n as int,
        ) && holds(items, n as int, "chrome_133"@, slots[0]) && holds(
            items,
            n as int,
            "chrome_131"@,
            slots[1],
        ),
    decreases n,
{
    if n > 0 {
        lemma_entries(items, (n - 1) as nat);
        if let Ok(slots) = entry_tables(items, n) {
            let before = entry_tables(items, (n - 1) as nat)->Ok_0;
            lemma_names("chrome_133"@);
            lemma_entry(items, n - 1, before);
            lemma_distinct_more(items, n - 1);
            let name = items[n - 1].text_at("name"@)->0;
            if name != "chrome_133"@ {
                lemma_holds_more(items, n - 1, "chrome_133"@, before[0]);
            }
            if name != "chrome_131"@ {
                lemma_holds_more(items, n - 1, "chrome_131"@, before[1]);
            }
        }
    }
}

/// A document that is read is of schema 1, and its profiles are objects with names, no
/// two alike. The table of each shipped profile is the one that the entry with its name
/// brings, and there is none where there is no such entry.
pub proof fn a_document_brings_the_tables_that_it_names(root: JsonShape)
    requires
        document_tables(root) is Ok,
    ensures
        ({
            let slots = document_tables(root)->Ok_0;
            &&& root is Object
            &&& root.unsigned_at("schema"@) == Some(1u64)
            &&& slots.len() == 2
            &&& root.at("profiles"@) matches Some(JsonShape::Array(items)) && {
                &&& distinctly_named(items, items.len() as int)
                &&& holds(items, items.len() as int, "chrome_133"@, slots[0])
                &&& holds(items, items.len() as int, "chrome_131"@, slots[1])
            }
        }),
{
    if let Some(JsonShape::Array(items)) = root.at("profiles"@) {
        lemma_entries(items, items.len());
    }
}

proof fn lemma_hex_lower(bytes: Seq<u8>)
    ensures
        forall|i: int|
            0 <= i < hex_text(bytes).len() ==> (48 <= #[trigger] hex_text(bytes)[i] as int <= 57
                || 97 <= hex_text(bytes)[i] as int <= 102),
    decreases bytes.len(),
{
    if bytes.len() > 0 {
        let front = hex_text(bytes.drop_last());
        let text = hex_text(bytes);
        lemma_hex_lower(bytes.drop_last());
        assert forall|i: int| 0 <= i < text.len() implies (48 <= #[trigger] text[i] as int <= 57
            || 97 <= text[i] as int <= 102) by {
            if i < front.len() {
                assert(text[i] == front[i]);
            } else {
                assert(text[i] == hex_byte(bytes.last())[i - front.len()]);
            }
        }
    }
}

/// A digest is taken in capitals and in small letters alike: where it is that of the
/// table's canonical text, and the text is ASCII, there is nothing wrong with it.
pub proof fn a_digest_counts_in_either_case(
    name: Seq<char>,
    declared: Seq<char>,
    table: JsonShape,
)
    requires
        ({
            let text = encode_utf8(canonical_text(table));
            &&& forall|i: int| 0 <= i < text.len() ==> #[trigger] text[i] < 128
            &&& spells_digest(encode_utf8(declared), encode_utf8(hex_text(sha256_of(text))))
        }),
    ensures
        digest_fault(name, Some(JsonShape::Text(declared)), table) is None,
{
    let text = encode_utf8(canonical_text(table));
    let digest = hex_text(sha256_of(text));
    let digits = encode_utf8(digest);
    let bytes = encode_utf8(declared);
    lemma_hex_lower(sha256_of(text));
    assert(is_ascii_chars(digest)) by {
        assert forall|i: int| 0 <= i < digest.len() implies '\0' <= #[trigger] digest[i] <= '\u{7f}' by {}
    }
    is_ascii_chars_encode_utf8(digest);
    assert forall|i: int| 0 <= i < bytes.len() implies ascii_lower(bytes)[i] == digits[i] by {
        assert(bytes[i] == digits[i] || (65 <= bytes[i] <= 90 && bytes[i] + 32 == digits[i]));
        assert(digits[i] == digest[i] as u8);
    }
    assert(ascii_lower(bytes) =~= digits);
}

} // verus!
