//! Fingerprint tables that come in a document: each is checked against its
//! declared digest and against what the library can write, and a document is
//! taken whole or not at all.
use crate::crypto::{sha256, sha256_of};
use crate::error::{Fault, WireError};
use crate::json::{canonical_text, json_reading, read_json, shapes_of, Json, JsonShape};
use crate::octets::{bytes_equal, copy_array, to_vec};
use crate::reality::client_hello::{
    ALPN, ENCRYPTED_CLIENT_HELLO, HPKE_AEAD_AES_128_GCM, HPKE_AEAD_CHACHA20_POLY1305,
    HPKE_KDF_HKDF_SHA256, KEY_SHARE, MAX_ECH_GREASE_PLAINTEXT, SERVER_NAME, SIGNATURE_ALGORITHMS,
    SUPPORTED_GROUPS, SUPPORTED_VERSIONS,
};
use crate::reality::grease::GreaseSlot;
use crate::reality::hello_order::PADDING;
use crate::reality::hello_profile::{
    profile_verdict, slot_shapes, CipherSuiteSlot, EchGreaseShape, ExtensionSlot, GroupSlot,
    HelloProfile, KeyShareSlot, ProfileShape, SlotShape, VersionSlot,
};
use crate::reality::hello_tables::{
    chrome_ech_grease, chrome_ech_payload_lens, chrome_ech_suites, shipped_profiles_validate,
    RealityHelloProfile,
};
use crate::reality::table_fields::{
    body_bytes, build_cipher_suites, build_groups, build_key_shares, build_versions, code_point,
    code_points, entries, field_items, frozen_fault, group_slots_field, hex16, hex_body, in_a_row,
    length_prefixed, listed_points_field, prefixed_points, profile_refusal, refusal, refuse,
    refuse_profile, require_frozen, share_slots_field, suite_slots_field, version_slots_field,
};
use crate::text::{decimal, hex, hex_text, push_decimal, text_equal, text_of};
use std::sync::Arc;
use vstd::prelude::*;
use vstd::string::*;
use vstd::utf8::encode_utf8;

verus! {

/// The schema that is read.
pub const SUPPORTED_SCHEMA: u64 = 1;

/// The largest document that is read.
pub const MAX_DOCUMENT_BYTES: usize = 4 * 1024 * 1024;

/// The lists of a table that its extensions are made of.
pub struct TableLists {
    pub groups: Vec<GroupSlot>,
    pub key_shares: Vec<KeyShareSlot>,
    pub versions: Vec<VersionSlot>,
    pub signature_algorithms: Vec<u8>,
}

/// What the lists of a table hold.
pub struct ListsShape {
    pub groups: Seq<GroupSlot>,
    pub key_shares: Seq<KeyShareSlot>,
    pub versions: Seq<VersionSlot>,
    pub signature_algorithms: Seq<u8>,
}

impl View for TableLists {
    type V = ListsShape;

    open spec fn view(&self) -> ListsShape {
        ListsShape {
            groups: self.groups@,
            key_shares: self.key_shares@,
            versions: self.versions@,
            signature_algorithms: self.signature_algorithms@,
        }
    }
}

/// The slot that an extension type and a body stand for: one that the session
/// fills, or constant bytes.
pub open spec fn typed_slot(
    name: Seq<char>,
    lists: ListsShape,
    extension_type: u16,
    body: Seq<char>,
) -> Result<SlotShape, Fault> {
    if extension_type == SERVER_NAME && body == "per_connection"@ {
        Ok(SlotShape::ServerName)
    } else if extension_type == SUPPORTED_GROUPS && body == "table"@ {
        Ok(SlotShape::SupportedGroups(lists.groups))
    } else if extension_type == KEY_SHARE && body == "per_connection"@ {
        Ok(SlotShape::KeyShare(lists.key_shares))
    } else if extension_type == ALPN && body == "table"@ {
        Ok(SlotShape::Alpn)
    } else if extension_type == SUPPORTED_VERSIONS && body == "table"@ {
        Ok(SlotShape::SupportedVersions(lists.versions))
    } else if extension_type == SIGNATURE_ALGORITHMS && body == "table"@ {
        Ok(SlotShape::Constant { extension_type, body: lists.signature_algorithms })
    } else if extension_type == ENCRYPTED_CLIENT_HELLO && body == "per_connection_grease"@ {
        Ok(SlotShape::EchGrease)
    } else if extension_type == PADDING && body == "conditional"@ {
        Ok(SlotShape::Padding)
    } else {
        match body_bytes(name, body) {
            Ok(bytes) => Ok(SlotShape::Constant { extension_type, body: bytes }),
            Err(fault) => Err(fault),
        }
    }
}

fn copy_groups(groups: &Vec<GroupSlot>) -> (copy: Vec<GroupSlot>)
    ensures
        copy@ == groups@,
{
    vstd::slice::slice_to_vec(groups.as_slice())
}

fn copy_shares(shares: &Vec<KeyShareSlot>) -> (copy: Vec<KeyShareSlot>)
    ensures
        copy@ == shares@,
{
    vstd::slice::slice_to_vec(shares.as_slice())
}

fn copy_versions(versions: &Vec<VersionSlot>) -> (copy: Vec<VersionSlot>)
    ensures
        copy@ == versions@,
{
    vstd::slice::slice_to_vec(versions.as_slice())
}

fn build_typed_slot(name: &str, lists: &TableLists, extension_type: u16, body: &str) -> (result:
    Result<ExtensionSlot, WireError>)
    ensures
        match typed_slot(name@, lists@, extension_type, body@) {
            Ok(slot) => result matches Ok(actual) && actual@ == slot,
            Err(fault) => result matches Err(error) && error@ == fault,
        },
{
    let per_connection = text_equal(body, "per_connection");
    let from_table = text_equal(body, "table");
    if extension_type == SERVER_NAME && per_connection {
        Ok(ExtensionSlot::ServerName)
    } else if extension_type == SUPPORTED_GROUPS && from_table {
        Ok(ExtensionSlot::SupportedGroups(copy_groups(&lists.groups)))
    } else if extension_type == KEY_SHARE && per_connection {
        Ok(ExtensionSlot::KeyShare(copy_shares(&lists.key_shares)))
    } else if extension_type == ALPN && from_table {
        Ok(ExtensionSlot::Alpn)
    } else if extension_type == SUPPORTED_VERSIONS && from_table {
        Ok(ExtensionSlot::SupportedVersions(copy_versions(&lists.versions)))
    } else if extension_type == SIGNATURE_ALGORITHMS && from_table {
        Ok(
            ExtensionSlot::Constant {
                extension_type,
                body: to_vec(lists.signature_algorithms.as_slice()),
            },
        )
    } else if extension_type == ENCRYPTED_CLIENT_HELLO && text_equal(
        body,
        "per_connection_grease",
    ) {
        Ok(ExtensionSlot::EchGrease)
    } else if extension_type == PADDING && text_equal(body, "conditional") {
        Ok(ExtensionSlot::Padding)
    } else {
        match hex_body(name, body) {
            Ok(bytes) => Ok(ExtensionSlot::Constant { extension_type, body: bytes }),
            Err(error) => Err(error),
        }
    }
}

/// The slot that an entry of the extension list stands for, the `index`th, with
/// `seen` GREASE extensions before it.
pub open spec fn extension_slot(
    name: Seq<char>,
    lists: ListsShape,
    entry: JsonShape,
    index: nat,
    seen: nat,
) -> Result<SlotShape, Fault> {
    if entry.unsigned_at("order"@) != Some((index + 1) as u64) {
        Err(
            profile_refusal(
                name,
                " extension_order is not 1-based dense at position "@ + decimal(index),
            ),
        )
    } else {
        match entry.text_at("type"@) {
            None => Err(profile_refusal(name, " has an extension with no type"@)),
            Some(declared) => match entry.text_at("body"@) {
                None => Err(profile_refusal(name, " has an extension with no body"@)),
                Some(body) => if declared == "GREASE"@ {
                    if seen >= 2 {
                        Err(
                            profile_refusal(
                                name,
                                " carries more than two GREASE extensions"@,
                            ),
                        )
                    } else {
                        match body_bytes(name, body) {
                            Err(fault) => Err(fault),
                            Ok(bytes) => Ok(
                                SlotShape::Grease {
                                    slot: if seen == 0 {
                                        GreaseSlot::Extension1
                                    } else {
                                        GreaseSlot::Extension2
                                    },
                                    body: bytes,
                                },
                            ),
                        }
                    }
                } else {
                    match code_point(name, declared) {
                        Err(fault) => Err(fault),
                        Ok(extension_type) => typed_slot(name, lists, extension_type, body),
                    }
                },
            },
        }
    }
}

fn build_extension(name: &str, lists: &TableLists, entry: &Json, index: usize, seen: usize) -> (result:
    Result<ExtensionSlot, WireError>)
    requires
        index < usize::MAX,
    ensures
        match extension_slot(name@, lists@, entry@, index as nat, seen as nat) {
            Ok(slot) => result matches Ok(actual) && actual@ == slot,
            Err(fault) => result matches Err(error) && error@ == fault,
        },
{
    if entry.unsigned_at("order") != Some(index as u64 + 1) {
        let mut rest = text_of(" extension_order is not 1-based dense at position ");
        push_decimal(&mut rest, index as u64);
        return Err(refuse_profile(name, rest.as_str()));
    }
    let declared = match entry.text_at("type") {
        Some(declared) => declared,
        None => {
            return Err(refuse_profile(name, " has an extension with no type"));
        },
    };
    let body = match entry.text_at("body") {
        Some(body) => body,
        None => {
            return Err(refuse_profile(name, " has an extension with no body"));
        },
    };
    if text_equal(declared, "GREASE") {
        if seen >= 2 {
            return Err(refuse_profile(name, " carries more than two GREASE extensions"));
        }
        let slot = if seen == 0 {
            GreaseSlot::Extension1
        } else {
            GreaseSlot::Extension2
        };
        return match hex_body(name, body) {
            Ok(bytes) => Ok(ExtensionSlot::Grease { slot, body: bytes }),
            Err(error) => Err(error),
        };
    }
    match hex16(name, declared) {
        Err(error) => Err(error),
        Ok(extension_type) => build_typed_slot(name, lists, extension_type, body),
    }
}

/// How many of the slots are GREASE.
pub open spec fn grease_count(slots: Seq<SlotShape>) -> nat
    decreases slots.len(),
{
    if slots.len() == 0 {
        0
    } else {
        grease_count(slots.drop_last()) + if slots.last() is Grease {
            1nat
        } else {
            0
        }
    }
}

/// The slots of the first `n` entries of the extension list.
pub open spec fn extension_slots(
    name: Seq<char>,
    lists: ListsShape,
    items: Seq<JsonShape>,
    n: nat,
) -> Result<Seq<SlotShape>, Fault>
    decreases n,
{
    if n == 0 {
        Ok(Seq::empty())
    } else {
        match extension_slots(name, lists, items, (n - 1) as nat) {
            Err(fault) => Err(fault),
            Ok(front) => match extension_slot(
                name,
                lists,
                items[n - 1],
                (n - 1) as nat,
                grease_count(front),
            ) {
                Err(fault) => Err(fault),
                Ok(slot) => Ok(front.push(slot)),
            },
        }
    }
}

proof fn lemma_extension_fault_stays(
    name: Seq<char>,
    lists: ListsShape,
    items: Seq<JsonShape>,
    n: nat,
    m: nat,
)
    requires
        n <= m,
        extension_slots(name, lists, items, n) is Err,
    ensures
        extension_slots(name, lists, items, m) == extension_slots(name, lists, items, n),
    decreases m,
{
    if n < m {
        lemma_extension_fault_stays(name, lists, items, n, (m - 1) as nat);
    }
}

/// The slots of the whole extension list.
pub open spec fn extension_slots_field(
    name: Seq<char>,
    lists: ListsShape,
    value: JsonShape,
) -> Result<Seq<SlotShape>, Fault> {
    match field_items(name, "extension_order"@, value) {
        Err(fault) => Err(fault),
        Ok(items) => extension_slots(name, lists, items, items.len()),
    }
}

/// The slots of the extension list.
pub fn build_extensions(name: &str, value: &Json, lists: &TableLists) -> (result: Result<
    Vec<ExtensionSlot>,
    WireError,
>)
    ensures
        match extension_slots_field(name@, lists@, value@) {
            Ok(slots) => result matches Ok(actual) && slot_shapes(actual@) == slots,
            Err(fault) => result matches Err(error) && error@ == fault,
        },
{
    let items = match entries(name, "extension_order", value) {
        Ok(items) => items,
        Err(error) => {
            return Err(error);
        },
    };
    let mut slots: Vec<ExtensionSlot> = Vec::new();
    let mut seen: usize = 0;
    assert(slot_shapes(slots@) =~= Seq::<SlotShape>::empty());
    for i in 0..items.len()
        invariant
            field_items(name@, "extension_order"@, value@) == Ok::<Seq<JsonShape>, Fault>(
                shapes_of(items@),
            ),
            seen == grease_count(slot_shapes(slots@)),
            seen <= i,
            extension_slots(name@, lists@, shapes_of(items@), i as nat) == Ok::<
                Seq<SlotShape>,
                Fault,
            >(slot_shapes(slots@)),
    {
        assert(shapes_of(items@)[i as int] == items@[i as int]@);
        match build_extension(name, lists, &items[i], i, seen) {
            Err(error) => {
                proof {
                    lemma_extension_fault_stays(
                        name@,
                        lists@,
                        shapes_of(items@),
                        (i + 1) as nat,
                        items@.len(),
                    );
                }
                return Err(error);
            },
            Ok(slot) => {
                let ghost before = slots@;
                let ghost shape = slot@;
                if let ExtensionSlot::Grease { .. } = &slot {
                    seen = seen + 1;
                }
                slots.push(slot);
                proof {
                    assert(slot_shapes(slots@) =~= slot_shapes(before).push(shape));
                    assert(slot_shapes(slots@).drop_last() =~= slot_shapes(before));
                }
            },
        }
    }
    Ok(slots)
}

/// A text, or its absence, as a diagnostic shows it.
pub uninterp spec fn debug_form(text: Option<Seq<char>>) -> Seq<char>;

/// `format!` with `{:?}` on an optional text: its diagnostic form, which depends
/// on the text alone.
#[verifier::external_body]
fn debug_text(text: Option<&str>) -> (form: String)
    ensures
        form@ == debug_form(
            match text {
                Some(text) => Some(text@),
                None => None,
            },
        ),
{
    format!("{text:?}")
}

/// The texts of a list of AEAD names, the first `n` of them.
pub open spec fn aead_texts(name: Seq<char>, items: Seq<JsonShape>, n: nat) -> Result<
    Seq<Seq<char>>,
    Fault,
>
    decreases n,
{
    if n == 0 {
        Ok(Seq::empty())
    } else {
        match aead_texts(name, items, (n - 1) as nat) {
            Err(fault) => Err(fault),
            Ok(front) => match items[n - 1] {
                JsonShape::Text(text) => Ok(front.push(text)),
                _ => Err(profile_refusal(name, " has a non-string ECH GREASE AEAD"@)),
            },
        }
    }
}

/// The AEAD names of an ECH GREASE shape: one, or a list of candidates.
pub open spec fn aead_names(name: Seq<char>, value: JsonShape) -> Result<Seq<Seq<char>>, Fault> {
    match (value.at("aead"@), value.at("aead_candidates"@)) {
        (Some(JsonShape::Text(single)), None) => Ok(seq![single]),
        (None, Some(JsonShape::Array(candidates))) => aead_texts(
            name,
            candidates,
            candidates.len(),
        ),
        _ => Err(profile_refusal(name, " must name exactly one of aead or aead_candidates"@)),
    }
}

/// The HPKE suites that the first `n` AEAD names stand for.
pub open spec fn aead_suites(name: Seq<char>, aeads: Seq<Seq<char>>, n: nat) -> Result<
    Seq<(u16, u16)>,
    Fault,
>
    decreases n,
{
    if n == 0 {
        Ok(Seq::empty())
    } else {
        match aead_suites(name, aeads, (n - 1) as nat) {
            Err(fault) => Err(fault),
            Ok(front) => if aeads[n - 1] == "AES-128-GCM"@ {
                Ok(front.push((HPKE_KDF_HKDF_SHA256, HPKE_AEAD_AES_128_GCM)))
            } else if aeads[n - 1] == "ChaCha20-Poly1305"@ {
                Ok(front.push((HPKE_KDF_HKDF_SHA256, HPKE_AEAD_CHACHA20_POLY1305)))
            } else {
                Err(
                    profile_refusal(
                        name,
                        " asks for ECH GREASE AEAD "@ + aeads[n - 1]
                            + ", which this build does not send"@,
                    ),
                )
            },
        }
    }
}

/// The plaintext lengths of the first `n` items.
pub open spec fn payload_lengths(name: Seq<char>, items: Seq<JsonShape>, n: nat) -> Result<
    Seq<usize>,
    Fault,
>
    decreases n,
{
    if n == 0 {
        Ok(Seq::empty())
    } else {
        match payload_lengths(name, items, (n - 1) as nat) {
            Err(fault) => Err(fault),
            Ok(front) => match items[n - 1] {
                JsonShape::Number {
                    unsigned: Some(length),
                    ..
                } if 0 < length && length <= MAX_ECH_GREASE_PLAINTEXT => Ok(
                    front.push(length as usize),
                ),
                _ => Err(
                    profile_refusal(
                        name,
                        " declares an ECH GREASE payload length this build will not send"@,
                    ),
                ),
            },
        }
    }
}

/// The candidates that an ECH GREASE shape names: suites and plaintext lengths.
pub open spec fn ech_candidates(name: Seq<char>, value: JsonShape) -> Result<
    (Seq<(u16, u16)>, Seq<usize>),
    Fault,
> {
    if value.text_at("kdf"@) != Some("HKDF-SHA256"@) {
        Err(
            profile_refusal(
                name,
                " asks for ECH GREASE KDF "@ + debug_form(value.text_at("kdf"@))
                    + ", which this build does not send"@,
            ),
        )
    } else {
        match aead_names(name, value) {
            Err(fault) => Err(fault),
            Ok(aeads) => match aead_suites(name, aeads, aeads.len()) {
                Err(fault) => Err(fault),
                Ok(suites) => if suites.len() == 0 {
                    Err(profile_refusal(name, " offers no ECH GREASE suite"@))
                } else {
                    match value.at("payload_lengths"@) {
                        Some(JsonShape::Array(items)) => match payload_lengths(
                            name,
                            items,
                            items.len(),
                        ) {
                            Err(fault) => Err(fault),
                            Ok(lengths) => if lengths.len() == 0 {
                                Err(
                                    profile_refusal(
                                        name,
                                        " declares an empty ECH GREASE payload length list"@,
                                    ),
                                )
                            } else {
                                Ok((suites, lengths))
                            },
                        },
                        _ => Err(
                            profile_refusal(
                                name,
                                " declares no ECH GREASE payload lengths"@,
                            ),
                        ),
                    }
                },
            },
        }
    }
}

proof fn lemma_aead_texts_fault(name: Seq<char>, items: Seq<JsonShape>, n: nat, m: nat)
    requires
        n <= m,
        aead_texts(name, items, n) is Err,
    ensures
        aead_texts(name, items, m) == aead_texts(name, items, n),
    decreases m,
{
    if n < m {
        lemma_aead_texts_fault(name, items, n, (m - 1) as nat);
    }
}

proof fn lemma_aead_suites_fault(name: Seq<char>, aeads: Seq<Seq<char>>, n: nat, m: nat)
    requires
        n <= m,
        aead_suites(name, aeads, n) is Err,
    ensures
        aead_suites(name, aeads, m) == aead_suites(name, aeads, n),
    decreases m,
{
    if n < m {
        lemma_aead_suites_fault(name, aeads, n, (m - 1) as nat);
    }
}

proof fn lemma_payload_lengths_fault(name: Seq<char>, items: Seq<JsonShape>, n: nat, m: nat)
    requires
        n <= m,
        payload_lengths(name, items, n) is Err,
    ensures
        payload_lengths(name, items, m) == payload_lengths(name, items, n),
    decreases m,
{
    if n < m {
        lemma_payload_lengths_fault(name, items, n, (m - 1) as nat);
    }
}

/// The texts of string slices.
pub open spec fn slice_texts(texts: Seq<&str>) -> Seq<Seq<char>> {
    Seq::new(texts.len(), |i: int| texts[i]@)
}

fn read_aead_names<'a>(name: &str, value: &'a Json) -> (result: Result<Vec<&'a str>, WireError>)
    ensures
        match aead_names(name@, value@) {
            Ok(names) => result matches Ok(actual) && slice_texts(actual@) == names,
            Err(fault) => result matches Err(error) && error@ == fault,
        },
{
    let mut names: Vec<&'a str> = Vec::new();
    let single = value.get("aead");
    let candidates = value.get("aead_candidates");
    if candidates.is_none() {
        if let Some(aead) = single {
            if let Some(text) = aead.as_str() {
                names.push(text);
                assert(slice_texts(names@) =~= seq![text@]);
                return Ok(names);
            }
        }
    } else if single.is_none() {
        if let Some(list) = candidates {
            if let Some(items) = list.as_array() {
                assert(slice_texts(names@) =~= Seq::<Seq<char>>::empty());
                for i in 0..items.len()
                    invariant
                        aead_names(name@, value@) == aead_texts(
                            name@,
                            shapes_of(items@),
                            items@.len(),
                        ),
                        aead_texts(name@, shapes_of(items@), i as nat) == Ok::<
                            Seq<Seq<char>>,
                            Fault,
                        >(slice_texts(names@)),
                {
                    assert(shapes_of(items@)[i as int] == items@[i as int]@);
                    match items[i].as_str() {
                        Some(text) => {
                            let ghost before = names@;
                            names.push(text);
                            assert(slice_texts(names@) =~= slice_texts(before).push(text@));
                        },
                        None => {
                            proof {
                                lemma_aead_texts_fault(
                                    name@,
                                    shapes_of(items@),
                                    (i + 1) as nat,
                                    items@.len(),
                                );
                            }
                            return Err(refuse_profile(name, " has a non-string ECH GREASE AEAD"));
                        },
                    }
                }
                return Ok(names);
            }
        }
    }
    Err(refuse_profile(name, " must name exactly one of aead or aead_candidates"))
}

fn read_aead_suites(name: &str, aeads: &Vec<&str>) -> (result: Result<Vec<(u16, u16)>, WireError>)
    ensures
        match aead_suites(name@, slice_texts(aeads@), aeads@.len()) {
            Ok(suites) => result matches Ok(actual) && actual@ == suites,
            Err(fault) => result matches Err(error) && error@ == fault,
        },
{
    let mut suites: Vec<(u16, u16)> = Vec::new();
    for i in 0..aeads.len()
        invariant
            aead_suites(name@, slice_texts(aeads@), i as nat) == Ok::<Seq<(u16, u16)>, Fault>(
                suites@,
            ),
    {
        if text_equal(aeads[i], "AES-128-GCM") {
            suites.push((HPKE_KDF_HKDF_SHA256, HPKE_AEAD_AES_128_GCM));
        } else if text_equal(aeads[i], "ChaCha20-Poly1305") {
            suites.push((HPKE_KDF_HKDF_SHA256, HPKE_AEAD_CHACHA20_POLY1305));
        } else {
            proof {
                lemma_aead_suites_fault(
                    name@,
                    slice_texts(aeads@),
                    (i + 1) as nat,
                    aeads@.len(),
                );
            }
            return Err(
                refuse_profile(
                    name,
                    in_a_row(
                        " asks for ECH GREASE AEAD ",
                        aeads[i],
                        ", which this build does not send",
                    ).as_str(),
                ),
            );
        }
    }
    Ok(suites)
}

fn read_payload_lengths(name: &str, items: &Vec<Json>) -> (result: Result<Vec<usize>, WireError>)
    ensures
        match payload_lengths(name@, shapes_of(items@), items@.len()) {
            Ok(lengths) => result matches Ok(actual) && actual@ == lengths,
            Err(fault) => result matches Err(error) && error@ == fault,
        },
{
    let mut lengths: Vec<usize> = Vec::new();
    for i in 0..items.len()
        invariant
            payload_lengths(name@, shapes_of(items@), i as nat) == Ok::<Seq<usize>, Fault>(
                lengths@,
            ),
    {
        assert(shapes_of(items@)[i as int] == items@[i as int]@);
        let length = match items[i].as_u64() {
            Some(length) => length,
            None => 0,
        };
        if length == 0 || length > MAX_ECH_GREASE_PLAINTEXT as u64 {
            proof {
                lemma_payload_lengths_fault(
                    name@,
                    shapes_of(items@),
                    (i + 1) as nat,
                    items@.len(),
                );
            }
            return Err(
                refuse_profile(
                    name,
                    " declares an ECH GREASE payload length this build will not send",
                ),
            );
        }
        lengths.push(length as usize);
    }
    Ok(lengths)
}

/// The candidates that an ECH GREASE shape names.
pub fn build_ech_grease(name: &str, value: &Json) -> (result: Result<EchGreaseShape, WireError>)
    ensures
        match ech_candidates(name@, value@) {
            Ok((suites, lengths)) => result matches Ok(shape) && shape.suites@ == suites
                && shape.payload_lens@ == lengths,
            Err(fault) => result matches Err(error) && error@ == fault,
        },
{
    let kdf = value.text_at("kdf");
    let known = match kdf {
        Some(text) => text_equal(text, "HKDF-SHA256"),
        None => false,
    };
    if !known {
        return Err(
            refuse_profile(
                name,
                in_a_row(
                    " asks for ECH GREASE KDF ",
                    debug_text(kdf).as_str(),
                    ", which this build does not send",
                ).as_str(),
            ),
        );
    }
    let aeads = match read_aead_names(name, value) {
        Ok(aeads) => aeads,
        Err(error) => {
            return Err(error);
        },
    };
    let suites = match read_aead_suites(name, &aeads) {
        Ok(suites) => suites,
        Err(error) => {
            return Err(error);
        },
    };
    if suites.len() == 0 {
        return Err(refuse_profile(name, " offers no ECH GREASE suite"));
    }
    let items = match value.get("payload_lengths") {
        Some(list) => list.as_array(),
        None => None,
    };
    match items {
        None => Err(refuse_profile(name, " declares no ECH GREASE payload lengths")),
        Some(items) => match read_payload_lengths(name, items) {
            Err(error) => Err(error),
            Ok(payload_lens) => {
                if payload_lens.len() == 0 {
                    return Err(
                        refuse_profile(name, " declares an empty ECH GREASE payload length list"),
                    );
                }
                Ok(EchGreaseShape { suites, payload_lens })
            },
        },
    }
}

/// A field that a table has to have.
pub open spec fn required(name: Seq<char>, table: JsonShape, key: Seq<char>) -> Result<
    JsonShape,
    Fault,
> {
    match table.at(key) {
        Some(value) => Ok(value),
        None => Err(profile_refusal(name, " carries no "@ + key)),
    }
}

fn require<'a>(name: &str, table: &'a Json, key: &str) -> (result: Result<&'a Json, WireError>)
    ensures
        match required(name@, table@, key@) {
            Ok(value) => result matches Ok(actual) && actual@ == value,
            Err(fault) => result matches Err(error) && error@ == fault,
        },
{
    match table.get(key) {
        Some(value) => Ok(value),
        None => {
            let mut rest = text_of(" carries no ");
            rest.append(key);
            Err(refuse_profile(name, rest.as_str()))
        },
    }
}

/// What is wrong with the ALPN list, which a table may not change.
pub open spec fn alpn_fault(name: Seq<char>, table: JsonShape) -> Option<Fault> {
    match required(name, table, "alpn"@) {
        Err(fault) => Some(fault),
        Ok(JsonShape::Array(items)) => if exists|i: int|
            0 <= i < items.len() && (#[trigger] items[i]) !is Text {
            Some(profile_refusal(name, " has a non-string ALPN protocol"@))
        } else if items != seq![JsonShape::Text("h2"@), JsonShape::Text("http/1.1"@)] {
            Some(profile_refusal(name, " asks for an ALPN list this build does not write"@))
        } else {
            None
        },
        Ok(_) => Some(profile_refusal(name, " alpn is not a list"@)),
    }
}

fn check_alpn(name: &str, table: &Json) -> (result: Result<(), WireError>)
    ensures
        match alpn_fault(name@, table@) {
            None => result is Ok,
            Some(fault) => result matches Err(error) && error@ == fault,
        },
{
    let value = match require(name, table, "alpn") {
        Ok(value) => value,
        Err(error) => {
            return Err(error);
        },
    };
    let items = match value.as_array() {
        Some(items) => items,
        None => {
            return Err(refuse_profile(name, " alpn is not a list"));
        },
    };
    let ghost shapes = shapes_of(items@);
    for i in 0..items.len()
        invariant
            shapes == shapes_of(items@),
            required(name@, table@, "alpn"@) == Ok::<JsonShape, Fault>(JsonShape::Array(shapes)),
            forall|j: int| 0 <= j < i ==> (#[trigger] shapes[j]) is Text,
    {
        assert(shapes[i as int] == items@[i as int]@);
        if items[i].as_str().is_none() {
            return Err(refuse_profile(name, " has a non-string ALPN protocol"));
        }
    }
    let mut same = items.len() == 2;
    if same {
        assert(shapes[0] == items@[0]@ && shapes[1] == items@[1]@);
        if let Some(first) = items[0].as_str() {
            same = text_equal(first, "h2");
        }
        if let Some(second) = items[1].as_str() {
            same = same && text_equal(second, "http/1.1");
        }
    }
    if !same {
        return Err(refuse_profile(name, " asks for an ALPN list this build does not write"));
    }
    assert(shapes =~= seq![JsonShape::Text("h2"@), JsonShape::Text("http/1.1"@)]);
    Ok(())
}

/// What is wrong with the compression methods, which a table may not change.
pub open spec fn compression_fault(name: Seq<char>, table: JsonShape) -> Option<Fault> {
    match required(name, table, "compression_methods"@) {
        Err(fault) => Some(fault),
        Ok(value) => match listed_points_field(name, "compression_methods"@, value) {
            Err(fault) => Some(fault),
            Ok(methods) => if methods != seq![0u16] {
                Some(
                    profile_refusal(
                        name,
                        " asks for a compression method this build does not write"@,
                    ),
                )
            } else {
                None
            },
        },
    }
}

fn check_compression(name: &str, table: &Json) -> (result: Result<(), WireError>)
    ensures
        match compression_fault(name@, table@) {
            None => result is Ok,
            Some(fault) => result matches Err(error) && error@ == fault,
        },
{
    let value = match require(name, table, "compression_methods") {
        Ok(value) => value,
        Err(error) => {
            return Err(error);
        },
    };
    match code_points(name, "compression_methods", value) {
        Err(error) => Err(error),
        Ok(methods) => {
            if methods.len() != 1 || methods[0] != 0 {
                return Err(
                    refuse_profile(
                        name,
                        " asks for a compression method this build does not write",
                    ),
                );
            }
            assert(methods@ =~= seq![0u16]);
            Ok(())
        },
    }
}

/// What is wrong with the record version, which a table may not change.
pub open spec fn record_version_fault(name: Seq<char>, table: JsonShape) -> Option<Fault> {
    match required(name, table, "record_layer_version"@) {
        Err(fault) => Some(fault),
        Ok(versions) => match versions.at("initial_client_hello"@) {
            None => Some(profile_refusal(name, " carries no record_layer_version"@)),
            Some(value) => frozen_fault(
                name,
                "record_layer_version.initial_client_hello"@,
                value,
                0x0301,
            ),
        },
    }
}

fn check_record_version(name: &str, table: &Json) -> (result: Result<(), WireError>)
    ensures
        match record_version_fault(name@, table@) {
            None => result is Ok,
            Some(fault) => result matches Err(error) && error@ == fault,
        },
{
    let versions = match require(name, table, "record_layer_version") {
        Ok(versions) => versions,
        Err(error) => {
            return Err(error);
        },
    };
    match versions.get("initial_client_hello") {
        None => Err(refuse_profile(name, " carries no record_layer_version")),
        Some(value) => require_frozen(
            name,
            "record_layer_version.initial_client_hello",
            value,
            0x0301,
        ),
    }
}

/// What is wrong with the legacy version, which a table may not change.
pub open spec fn legacy_version_fault(name: Seq<char>, table: JsonShape) -> Option<Fault> {
    match required(name, table, "legacy_version"@) {
        Err(fault) => Some(fault),
        Ok(value) => frozen_fault(name, "legacy_version"@, value, 0x0303),
    }
}

/// What is wrong with the length of the session id, which a table may not
/// change.
pub open spec fn session_id_fault(name: Seq<char>, table: JsonShape) -> Option<Fault> {
    match required(name, table, "legacy_session_id_bytes"@) {
        Err(fault) => Some(fault),
        Ok(_) => if table.unsigned_at("legacy_session_id_bytes"@) != Some(32u64) {
            Some(
                profile_refusal(
                    name,
                    " asks for a legacy session id this build does not write"@,
                ),
            )
        } else {
            None
        },
    }
}

/// The first thing that is wrong with the fields that a table may not change.
pub open spec fn fixed_fields_fault(name: Seq<char>, table: JsonShape) -> Option<Fault> {
    match legacy_version_fault(name, table) {
        Some(fault) => Some(fault),
        None => match record_version_fault(name, table) {
            Some(fault) => Some(fault),
            None => match session_id_fault(name, table) {
                Some(fault) => Some(fault),
                None => match compression_fault(name, table) {
                    Some(fault) => Some(fault),
                    None => alpn_fault(name, table),
                },
            },
        },
    }
}

fn check_fixed_fields(name: &str, table: &Json) -> (result: Result<(), WireError>)
    ensures
        match fixed_fields_fault(name@, table@) {
            None => result is Ok,
            Some(fault) => result matches Err(error) && error@ == fault,
        },
{
    match require(name, table, "legacy_version") {
        Err(error) => {
            return Err(error);
        },
        Ok(value) => {
            if let Err(error) = require_frozen(name, "legacy_version", value, 0x0303) {
                return Err(error);
            }
        },
    }
    if let Err(error) = check_record_version(name, table) {
        return Err(error);
    }
    match require(name, table, "legacy_session_id_bytes") {
        Err(error) => {
            return Err(error);
        },
        Ok(value) => {
            if value.as_u64() != Some(32) {
                return Err(
                    refuse_profile(name, " asks for a legacy session id this build does not write"),
                );
            }
        },
    }
    if let Err(error) = check_compression(name, table) {
        return Err(error);
    }
    check_alpn(name, table)
}

/// The lists that the extensions are made of.
pub open spec fn table_lists(name: Seq<char>, table: JsonShape) -> Result<ListsShape, Fault> {
    match required(name, table, "supported_groups"@) {
        Err(fault) => Err(fault),
        Ok(value) => match group_slots_field(name, value) {
            Err(fault) => Err(fault),
            Ok(groups) => match required(name, table, "key_shares"@) {
                Err(fault) => Err(fault),
                Ok(value) => match share_slots_field(name, value) {
                    Err(fault) => Err(fault),
                    Ok(key_shares) => match required(name, table, "supported_versions"@) {
                        Err(fault) => Err(fault),
                        Ok(value) => match version_slots_field(name, value) {
                            Err(fault) => Err(fault),
                            Ok(versions) => match required(
                                name,
                                table,
                                "signature_algorithms"@,
                            ) {
                                Err(fault) => Err(fault),
                                Ok(value) => match listed_points_field(
                                    name,
                                    "signature_algorithms"@,
                                    value,
                                ) {
                                    Err(fault) => Err(fault),
                                    Ok(points) => Ok(
                                        ListsShape {
                                            groups,
                                            key_shares,
                                            versions,
                                            signature_algorithms: prefixed_points(points),
                                        },
                                    ),
                                },
                            },
                        },
                    },
                },
            },
        },
    }
}

fn read_lists(name: &str, table: &Json) -> (result: Result<TableLists, WireError>)
    ensures
        match table_lists(name@, table@) {
            Ok(lists) => result matches Ok(actual) && actual@ == lists,
            Err(fault) => result matches Err(error) && error@ == fault,
        },
{
    let groups = match require(name, table, "supported_groups") {
        Err(error) => {
            return Err(error);
        },
        Ok(value) => match build_groups(name, value) {
            Ok(groups) => groups,
            Err(error) => {
                return Err(error);
            },
        },
    };
    let key_shares = match require(name, table, "key_shares") {
        Err(error) => {
            return Err(error);
        },
        Ok(value) => match build_key_shares(name, value) {
            Ok(key_shares) => key_shares,
            Err(error) => {
                return Err(error);
            },
        },
    };
    let versions = match require(name, table, "supported_versions") {
        Err(error) => {
            return Err(error);
        },
        Ok(value) => match build_versions(name, value) {
            Ok(versions) => versions,
            Err(error) => {
                return Err(error);
            },
        },
    };
    let points = match require(name, table, "signature_algorithms") {
        Err(error) => {
            return Err(error);
        },
        Ok(value) => match code_points(name, "signature_algorithms", value) {
            Ok(points) => points,
            Err(error) => {
                return Err(error);
            },
        },
    };
    Ok(
        TableLists {
            groups,
            key_shares,
            versions,
            signature_algorithms: length_prefixed(&points),
        },
    )
}

/// Whether a slot carries ECH GREASE.
pub open spec fn has_ech_slot(slots: Seq<SlotShape>) -> bool {
    exists|i: int| 0 <= i < slots.len() && (#[trigger] slots[i]) is EchGrease
}

/// The ECH GREASE candidates of a table: its own, or the shipped ones where it
/// sends no ECH GREASE.
pub open spec fn table_ech(name: Seq<char>, table: JsonShape, slots: Seq<SlotShape>) -> Result<
    (Seq<(u16, u16)>, Seq<usize>),
    Fault,
> {
    match table.at("ech_grease"@) {
        Some(shape) => if shape is Null {
            undeclared_ech(name, slots)
        } else {
            ech_candidates(name, shape)
        },
        None => undeclared_ech(name, slots),
    }
}

/// The ECH GREASE candidates where a table declares none.
pub open spec fn undeclared_ech(name: Seq<char>, slots: Seq<SlotShape>) -> Result<
    (Seq<(u16, u16)>, Seq<usize>),
    Fault,
> {
    if has_ech_slot(slots) {
        Err(
            profile_refusal(
                name,
                " sends an ECH GREASE extension but declares no ech_grease shape"@,
            ),
        )
    } else {
        Ok((chrome_ech_suites(), chrome_ech_payload_lens()))
    }
}

fn read_ech(name: &str, table: &Json, extensions: &Vec<ExtensionSlot>) -> (result: Result<
    EchGreaseShape,
    WireError,
>)
    ensures
        match table_ech(name@, table@, slot_shapes(extensions@)) {
            Ok((suites, lengths)) => result matches Ok(shape) && shape.suites@ == suites
                && shape.payload_lens@ == lengths,
            Err(fault) => result matches Err(error) && error@ == fault,
        },
{
    if let Some(shape) = table.get("ech_grease") {
        match shape {
            Json::Null => {},
            _ => {
                return build_ech_grease(name, shape);
            },
        }
    }
    for i in 0..extensions.len()
        invariant
            table_ech(name@, table@, slot_shapes(extensions@)) == undeclared_ech(
                name@,
                slot_shapes(extensions@),
            ),
            forall|j: int| 0 <= j < i ==> (#[trigger] slot_shapes(extensions@)[j]) !is EchGrease,
    {
        if let ExtensionSlot::EchGrease = &extensions[i] {
            assert(slot_shapes(extensions@)[i as int] is EchGrease);
            return Err(
                refuse_profile(
                    name,
                    " sends an ECH GREASE extension but declares no ech_grease shape",
                ),
            );
        }
    }
    Ok(chrome_ech_grease())
}

/// Whether a table reuses the classical key share.
pub open spec fn reuses_share(table: JsonShape) -> bool {
    match table.at("key_share_reuse"@) {
        Some(value) => value !is Null,
        None => false,
    }
}

/// The profile that a table describes, once its parts are read.
pub open spec fn assembled(
    name: Seq<char>,
    table: JsonShape,
    suites: Seq<CipherSuiteSlot>,
    slots: Seq<SlotShape>,
    ech: (Seq<(u16, u16)>, Seq<usize>),
) -> Result<ProfileShape, Fault> {
    match table.at("permute_extensions"@) {
        Some(JsonShape::Bool(permute)) => {
            let profile = ProfileShape {
                name,
                cipher_suites: suites,
                extensions: slots,
                permute_extensions: permute,
                ech_suites: ech.0,
                ech_payload_lens: ech.1,
                reuse_classical_key_share: reuses_share(table),
            };
            match profile_verdict(profile) {
                Err(fault) => Err(fault),
                Ok(_) => Ok(profile),
            }
        },
        _ => Err(profile_refusal(name, " does not say whether it permutes"@)),
    }
}

/// The profile that a table describes.
pub open spec fn table_profile(name: Seq<char>, table: JsonShape) -> Result<ProfileShape, Fault> {
    if table !is Object {
        Err(profile_refusal(name, " fingerprint is not an object"@))
    } else {
        match fixed_fields_fault(name, table) {
            Some(fault) => Err(fault),
            None => match required(name, table, "cipher_suites"@) {
                Err(fault) => Err(fault),
                Ok(value) => match suite_slots_field(name, value) {
                    Err(fault) => Err(fault),
                    Ok(suites) => match table_lists(name, table) {
                        Err(fault) => Err(fault),
                        Ok(lists) => match required(name, table, "extension_order"@) {
                            Err(fault) => Err(fault),
                            Ok(value) => match extension_slots_field(name, lists, value) {
                                Err(fault) => Err(fault),
                                Ok(slots) => match table_ech(name, table, slots) {
                                    Err(fault) => Err(fault),
                                    Ok(ech) => assembled(name, table, suites, slots, ech),
                                },
                            },
                        },
                    },
                },
            },
        }
    }
}

fn is_object(value: &Json) -> (object: bool)
    ensures
        object == (value@ is Object),
{
    match value {
        Json::Object(_) => true,
        _ => false,
    }
}

/// The profile that a table describes: every field read, the fields that a
/// table may not change as they are, and the whole valid.
pub fn build_profile(profile: RealityHelloProfile, table: &Json) -> (result: Result<
    HelloProfile,
    WireError,
>)
    ensures
        match table_profile(profile.shape().name, table@) {
            Ok(shape) => result matches Ok(actual) && actual@ == shape,
            Err(fault) => result matches Err(error) && error@ == fault,
        },
{
    let name = profile.name();
    if !is_object(table) {
        return Err(refuse_profile(name, " fingerprint is not an object"));
    }
    if let Err(error) = check_fixed_fields(name, table) {
        return Err(error);
    }
    let cipher_suites = match require(name, table, "cipher_suites") {
        Err(error) => {
            return Err(error);
        },
        Ok(value) => match build_cipher_suites(name, value) {
            Ok(suites) => suites,
            Err(error) => {
                return Err(error);
            },
        },
    };
    let lists = match read_lists(name, table) {
        Ok(lists) => lists,
        Err(error) => {
            return Err(error);
        },
    };
    let extensions = match require(name, table, "extension_order") {
        Err(error) => {
            return Err(error);
        },
        Ok(value) => match build_extensions(name, value, &lists) {
            Ok(extensions) => extensions,
            Err(error) => {
                return Err(error);
            },
        },
    };
    let ech_grease = match read_ech(name, table, &extensions) {
        Ok(shape) => shape,
        Err(error) => {
            return Err(error);
        },
    };
    let permute_extensions = match table.get("permute_extensions") {
        Some(Json::Bool(permute)) => *permute,
        _ => {
            return Err(refuse_profile(name, " does not say whether it permutes"));
        },
    };
    let reuse_classical_key_share = match table.get("key_share_reuse") {
        None => false,
        Some(Json::Null) => false,
        Some(_) => true,
    };
    let built = HelloProfile {
        name,
        cipher_suites,
        extensions,
        permute_extensions,
        ech_grease,
        reuse_classical_key_share,
    };
    match built.validate() {
        Err(error) => Err(error),
        Ok(()) => Ok(built),
    }
}

/// The bytes with the upper-case letters of ASCII in lower case.
pub open spec fn ascii_lower(bytes: Seq<u8>) -> Seq<u8> {
    Seq::new(
        bytes.len(),
        |i: int|
            if 65 <= bytes[i] <= 90 {
                (bytes[i] + 32) as u8
            } else {
                bytes[i]
            },
    )
}

fn lower_case(bytes: &[u8]) -> (lower: Vec<u8>)
    ensures
        lower@ == ascii_lower(bytes@),
{
    let mut lower: Vec<u8> = Vec::new();
    for i in 0..bytes.len()
        invariant
            lower@.len() == i,
            forall|j: int| 0 <= j < i ==> #[trigger] lower@[j] == ascii_lower(bytes@)[j],
    {
        let byte = bytes[i];
        if 65 <= byte && byte <= 90 {
            lower.push(byte + 32);
        } else {
            lower.push(byte);
        }
    }
    assert(lower@ =~= ascii_lower(bytes@));
    lower
}

/// Whether a byte is outside ASCII.
pub open spec fn beyond_ascii(bytes: Seq<u8>) -> bool {
    exists|i: int| 0 <= i < bytes.len() && #[trigger] bytes[i] >= 128
}

fn leaves_ascii(bytes: &[u8]) -> (leaves: bool)
    ensures
        leaves == beyond_ascii(bytes@),
{
    for i in 0..bytes.len()
        invariant
            forall|j: int| 0 <= j < i ==> #[trigger] bytes@[j] < 128,
    {
        if bytes[i] >= 128 {
            assert(bytes@[i as int] >= 128);
            return true;
        }
    }
    false
}

/// The digest of a table, in hexadecimal: of its canonical text.
pub open spec fn table_digest(table: JsonShape) -> Seq<char> {
    hex_text(sha256_of(encode_utf8(canonical_text(table))))
}

/// What is wrong with the digest that is declared for a table.
pub open spec fn digest_fault(
    name: Seq<char>,
    declared: Option<JsonShape>,
    table: JsonShape,
) -> Option<Fault> {
    match declared {
        Some(JsonShape::Text(text)) => if beyond_ascii(encode_utf8(canonical_text(table))) {
            Some(
                profile_refusal(
                    name,
                    " contains non-ASCII, so its digest would depend on an escaping convention"@,
                ),
            )
        } else if encode_utf8(table_digest(table)) != ascii_lower(encode_utf8(text)) {
            Some(
                profile_refusal(
                    name,
                    " hashes to "@ + table_digest(table) + " but declares "@ + text,
                ),
            )
        } else {
            None
        },
        _ => Some(profile_refusal(name, " declares no fingerprint_sha256"@)),
    }
}

/// Hold a table to the digest that is declared for it.
pub fn verify_declared_digest(name: &str, declared: Option<&Json>, table: &Json) -> (result: Result<
    (),
    WireError,
>)
    ensures
        match digest_fault(
            name@,
            match declared {
                Some(value) => Some(value@),
                None => None,
            },
            table@,
        ) {
            None => result is Ok,
            Some(fault) => result matches Err(error) && error@ == fault,
        },
{
    let text = match declared {
        Some(value) => value.as_str(),
        None => None,
    };
    let text = match text {
        Some(text) => text,
        None => {
            return Err(refuse_profile(name, " declares no fingerprint_sha256"));
        },
    };
    let canonical = table.canonical();
    if leaves_ascii(canonical.as_str().as_bytes()) {
        return Err(
            refuse_profile(
                name,
                " contains non-ASCII, so its digest would depend on an escaping convention",
            ),
        );
    }
    let derived = hex(sha256(canonical.as_str().as_bytes()).as_slice());
    let lower = lower_case(text.as_bytes());
    if !bytes_equal(derived.as_str().as_bytes(), lower.as_slice()) {
        let mut rest = in_a_row(" hashes to ", derived.as_str(), " but declares ");
        rest.append(text);
        return Err(refuse_profile(name, rest.as_str()));
    }
    Ok(())
}

/// The shipped profile with a name.
pub open spec fn named_profile(name: Seq<char>) -> Option<RealityHelloProfile> {
    if name == RealityHelloProfile::Chrome133.shape().name {
        Some(RealityHelloProfile::Chrome133)
    } else if name == RealityHelloProfile::Chrome131.shape().name {
        Some(RealityHelloProfile::Chrome131)
    } else {
        None
    }
}

/// The shipped profile with a name.
pub fn profile_named(name: &str) -> (profile: Option<RealityHelloProfile>)
    ensures
        profile == named_profile(name@),
{
    if text_equal(name, RealityHelloProfile::Chrome133.name()) {
        Some(RealityHelloProfile::Chrome133)
    } else if text_equal(name, RealityHelloProfile::Chrome131.name()) {
        Some(RealityHelloProfile::Chrome131)
    } else {
        None
    }
}

/// The place of a profile among the shipped ones.
pub open spec fn slot_of(profile: RealityHelloProfile) -> int {
    match profile {
        RealityHelloProfile::Chrome133 => 0,
        RealityHelloProfile::Chrome131 => 1,
    }
}

/// The place of a profile among the shipped ones.
pub fn slot_index(profile: RealityHelloProfile) -> (index: usize)
    ensures
        index == slot_of(profile),
        index < 2,
{
    match profile {
        RealityHelloProfile::Chrome133 => 0,
        RealityHelloProfile::Chrome131 => 1,
    }
}

/// Whether one of the first `n` entries has this name.
pub open spec fn name_taken(items: Seq<JsonShape>, n: int, name: Seq<char>) -> bool {
    exists|i: int| 0 <= i < n && (#[trigger] items[i]).text_at("name"@) == Some(name)
}

/// The table in an entry for a shipped profile, which the entry names.
pub open spec fn entry_table(
    profile: RealityHelloProfile,
    name: Seq<char>,
    entry: JsonShape,
) -> Result<ProfileShape, Fault> {
    match entry.at("fingerprint"@) {
        None => Err(profile_refusal(name, " carries no fingerprint table"@)),
        Some(table) => match digest_fault(name, entry.at("fingerprint_sha256"@), table) {
            Some(fault) => Err(fault),
            None => table_profile(profile.shape().name, table),
        },
    }
}

/// The tables after one more entry, the `index`th.
pub open spec fn after_entry(
    items: Seq<JsonShape>,
    index: int,
    slots: Seq<Option<ProfileShape>>,
) -> Result<Seq<Option<ProfileShape>>, Fault> {
    if items[index] !is Object {
        Err(refusal("has a profile entry that is not an object"@))
    } else {
        match items[index].text_at("name"@) {
            None => Err(refusal("has a profile entry with no name"@)),
            Some(name) => if name_taken(items, index, name) {
                Err(refusal("names the profile "@ + name + " twice"@))
            } else {
                match named_profile(name) {
                    None => Ok(slots),
                    Some(profile) => match entry_table(profile, name, items[index]) {
                        Err(fault) => Err(fault),
                        Ok(table) => Ok(slots.update(slot_of(profile), Some(table))),
                    },
                }
            },
        }
    }
}

/// The tables of the first `n` entries, each in its profile's place.
pub open spec fn entry_tables(items: Seq<JsonShape>, n: nat) -> Result<
    Seq<Option<ProfileShape>>,
    Fault,
>
    decreases n,
{
    if n == 0 {
        Ok(seq![None::<ProfileShape>, None::<ProfileShape>])
    } else {
        match entry_tables(items, (n - 1) as nat) {
            Err(fault) => Err(fault),
            Ok(slots) => after_entry(items, n - 1, slots),
        }
    }
}

proof fn lemma_entry_tables_fault(items: Seq<JsonShape>, n: nat, m: nat)
    requires
        n <= m,
        entry_tables(items, n) is Err,
    ensures
        entry_tables(items, m) == entry_tables(items, n),
    decreases m,
{
    if n < m {
        lemma_entry_tables_fault(items, n, (m - 1) as nat);
    }
}

/// The tables of a document, each in its profile's place.
pub open spec fn document_tables(root: JsonShape) -> Result<Seq<Option<ProfileShape>>, Fault> {
    if root !is Object {
        Err(refusal("is not a JSON object"@))
    } else {
        match root.unsigned_at("schema"@) {
            None => Err(refusal("declares no schema"@)),
            Some(schema) => if schema != SUPPORTED_SCHEMA {
                Err(
                    refusal(
                        "declares schema "@ + decimal(schema as nat)
                            + "; this build reads schema 1"@,
                    ),
                )
            } else {
                match root.at("profiles"@) {
                    Some(JsonShape::Array(items)) => entry_tables(items, items.len()),
                    _ => Err(refusal("carries no profiles array"@)),
                }
            },
        }
    }
}

/// What the bytes of a document come to.
#[verifier::opaque]
pub open spec fn parsed_document(document: Seq<u8>) -> Result<Seq<Option<ProfileShape>>, Fault> {
    if document.len() > MAX_DOCUMENT_BYTES {
        Err(refusal("is larger than any table document this build reads"@))
    } else {
        match json_reading(document) {
            Err(complaint) => Err(refusal("is not valid JSON: "@ + complaint)),
            Ok(root) => document_tables(root),
        }
    }
}

/// Profiles in their places.
pub open spec fn profile_slots(slots: Seq<Option<Arc<HelloProfile>>>) -> Seq<Option<ProfileShape>> {
    Seq::new(
        slots.len(),
        |i: int|
            match slots[i] {
                Some(profile) => Some(profile@),
                None => None,
            },
    )
}

fn is_name_taken(items: &Vec<Json>, n: usize, name: &str) -> (taken: bool)
    requires
        n <= items@.len(),
    ensures
        taken == name_taken(shapes_of(items@), n as int, name@),
{
    for i in 0..n
        invariant
            n <= items@.len(),
            forall|j: int|
                0 <= j < i ==> (#[trigger] shapes_of(items@)[j]).text_at("name"@) != Some(name@),
    {
        assert(shapes_of(items@)[i as int] == items@[i as int]@);
        if let Some(other) = items[i].text_at("name") {
            if text_equal(other, name) {
                return true;
            }
        }
    }
    false
}

fn read_entry(profile: RealityHelloProfile, name: &str, entry: &Json) -> (result: Result<
    HelloProfile,
    WireError,
>)
    ensures
        match entry_table(profile, name@, entry@) {
            Ok(table) => result matches Ok(actual) && actual@ == table,
            Err(fault) => result matches Err(error) && error@ == fault,
        },
{
    let fingerprint = match entry.get("fingerprint") {
        Some(fingerprint) => fingerprint,
        None => {
            return Err(refuse_profile(name, " carries no fingerprint table"));
        },
    };
    if let Err(error) = verify_declared_digest(name, entry.get("fingerprint_sha256"), fingerprint) {
        return Err(error);
    }
    build_profile(profile, fingerprint)
}

fn take_entry(items: &Vec<Json>, index: usize, slots: &mut Vec<Option<Arc<HelloProfile>>>) -> (result:
    Result<(), WireError>)
    requires
        index < items@.len(),
        old(slots)@.len() == 2,
    ensures
        final(slots)@.len() == 2,
        match after_entry(shapes_of(items@), index as int, profile_slots(old(slots)@)) {
            Ok(shapes) => result is Ok && profile_slots(final(slots)@) == shapes,
            Err(fault) => result matches Err(error) && error@ == fault,
        },
{
    let entry = &items[index];
    assert(shapes_of(items@)[index as int] == entry@);
    if !is_object(entry) {
        return Err(refuse("has a profile entry that is not an object"));
    }
    let name = match entry.text_at("name") {
        Some(name) => name,
        None => {
            return Err(refuse("has a profile entry with no name"));
        },
    };
    if is_name_taken(items, index, name) {
        return Err(refuse(in_a_row("names the profile ", name, " twice").as_str()));
    }
    if let Some(profile) = profile_named(name) {
        match read_entry(profile, name, entry) {
            Err(error) => {
                return Err(error);
            },
            Ok(table) => {
                let ghost shape = table@;
                slots.set(slot_index(profile), Some(Arc::new(table)));
                assert(profile_slots(slots@) =~= profile_slots(old(slots)@).update(
                    slot_of(profile),
                    Some(shape),
                ));
            },
        }
    }
    Ok(())
}

fn read_entries(items: &Vec<Json>) -> (result: Result<Vec<Option<Arc<HelloProfile>>>, WireError>)
    ensures
        match entry_tables(shapes_of(items@), items@.len()) {
            Ok(slots) => result matches Ok(actual) && profile_slots(actual@) == slots,
            Err(fault) => result matches Err(error) && error@ == fault,
        },
{
    let mut slots: Vec<Option<Arc<HelloProfile>>> = Vec::new();
    slots.push(None);
    slots.push(None);
    assert(profile_slots(slots@) =~= seq![None::<ProfileShape>, None::<ProfileShape>]);
    for i in 0..items.len()
        invariant
            slots@.len() == 2,
            entry_tables(shapes_of(items@), i as nat) == Ok::<Seq<Option<ProfileShape>>, Fault>(
                profile_slots(slots@),
            ),
    {
        let ghost before = profile_slots(slots@);
        let taken = take_entry(items, i, &mut slots);
        assert(entry_tables(shapes_of(items@), (i + 1) as nat) == after_entry(
            shapes_of(items@),
            i as int,
            before,
        ));
        if let Err(error) = taken {
            proof {
                lemma_entry_tables_fault(shapes_of(items@), (i + 1) as nat, items@.len());
            }
            return Err(error);
        }
    }
    Ok(slots)
}

/// Read the tables of a document that is parsed already.
pub fn read_tables(root: &Json) -> (result: Result<Vec<Option<Arc<HelloProfile>>>, WireError>)
    ensures
        match document_tables(root@) {
            Ok(slots) => result matches Ok(actual) && profile_slots(actual@) == slots,
            Err(fault) => result matches Err(error) && error@ == fault,
        },
{
    if !is_object(root) {
        return Err(refuse("is not a JSON object"));
    }
    match root.unsigned_at("schema") {
        None => {
            return Err(refuse("declares no schema"));
        },
        Some(schema) => {
            if schema != SUPPORTED_SCHEMA {
                let mut message = text_of("declares schema ");
                push_decimal(&mut message, schema);
                message.append("; this build reads schema 1");
                return Err(refuse(message.as_str()));
            }
        },
    }
    let items = match root.get("profiles") {
        Some(list) => list.as_array(),
        None => None,
    };
    match items {
        Some(items) => read_entries(items),
        None => Err(refuse("carries no profiles array")),
    }
}

/// Read the tables of a document.
pub fn parse_document(document: &[u8]) -> (result: Result<
    Vec<Option<Arc<HelloProfile>>>,
    WireError,
>)
    ensures
        match parsed_document(document@) {
            Ok(slots) => result matches Ok(actual) && profile_slots(actual@) == slots,
            Err(fault) => result matches Err(error) && error@ == fault,
        },
{
    proof {
        reveal(parsed_document);
    }
    if document.len() > MAX_DOCUMENT_BYTES {
        return Err(refuse("is larger than any table document this build reads"));
    }
    match read_json(document) {
        Err(complaint) => {
            let mut message = text_of("is not valid JSON: ");
            message.append(complaint.as_str());
            Err(refuse(message.as_str()))
        },
        Ok(root) => read_tables(&root),
    }
}

/// How many of the places hold a table.
pub open spec fn filled(slots: Seq<Option<ProfileShape>>) -> nat
    decreases slots.len(),
{
    if slots.len() == 0 {
        0
    } else {
        filled(slots.drop_last()) + if slots.last() is Some {
            1nat
        } else {
            0
        }
    }
}

fn count_filled(slots: &Vec<Option<Arc<HelloProfile>>>) -> (count: usize)
    ensures
        count == filled(profile_slots(slots@)),
{
    let mut count: usize = 0;
    assert(profile_slots(slots@).take(0) =~= Seq::<Option<ProfileShape>>::empty());
    for i in 0..slots.len()
        invariant
            count <= i,
            count == filled(profile_slots(slots@).take(i as int)),
    {
        proof {
            let shapes = profile_slots(slots@);
            assert(shapes.take(i + 1).drop_last() =~= shapes.take(i as int));
        }
        if slots[i].is_some() {
            count = count + 1;
        }
    }
    assert(profile_slots(slots@).take(slots@.len() as int) =~= profile_slots(slots@));
    count
}

/// The tables of a document that was taken.
struct InstalledTables {
    document_digest: [u8; 32],
    profiles: Vec<Option<Arc<HelloProfile>>>,
}

/// The tables in effect: the shipped ones, or those of a document over them.
pub struct FingerprintTables {
    installed: Option<InstalledTables>,
}

/// The digest of the document that was taken, and its tables.
pub type TablesShape = Option<(Seq<u8>, Seq<Option<ProfileShape>>)>;

impl View for FingerprintTables {
    type V = TablesShape;

    closed spec fn view(&self) -> TablesShape {
        match self.installed {
            None => None,
            Some(tables) => Some((tables.document_digest@, profile_slots(tables.profiles@))),
        }
    }
}

/// How many tables a document brought.
pub open spec fn filled_of(tables: TablesShape) -> nat {
    match tables {
        Some((_, slots)) => filled(slots),
        None => 0,
    }
}

/// What taking a document comes to: how many tables are in effect, or the fault;
/// and the tables afterwards.
pub open spec fn after_install(tables: TablesShape, document: Seq<u8>) -> (
    Result<nat, Fault>,
    TablesShape,
) {
    if document.len() > MAX_DOCUMENT_BYTES {
        (Err(refusal("is larger than any table document this build reads"@)), tables)
    } else if tables matches Some((digest, _)) && digest == sha256_of(document) {
        (Ok(filled_of(tables)), tables)
    } else {
        match parsed_document(document) {
            Err(fault) => (Err(fault), tables),
            Ok(slots) => if filled(slots) == 0 {
                (Err(refusal("carries no table for any profile this build implements"@)), tables)
            } else {
                (Ok(filled(slots)), Some((sha256_of(document), slots)))
            },
        }
    }
}

/// Whether tables are those of a document: it was read, and it brought at least
/// one table.
pub open spec fn taken_from(tables: TablesShape, document: Seq<u8>) -> bool {
    tables matches Some((digest, slots)) && {
        &&& digest == sha256_of(document)
        &&& parsed_document(document) == Ok::<Seq<Option<ProfileShape>>, Fault>(slots)
        &&& filled(slots) >= 1
    }
}

/// What tables in effect always are: the shipped ones, or those of a document.
pub open spec fn kept(tables: TablesShape) -> bool {
    tables is None || exists|document: Seq<u8>| #[trigger] taken_from(tables, document)
}

/// The table in effect for a profile.
pub open spec fn table_in_effect(
    tables: TablesShape,
    profile: RealityHelloProfile,
) -> ProfileShape {
    match tables {
        None => profile.shape(),
        Some((_, slots)) => if slots.len() <= slot_of(profile) {
            profile.shape()
        } else {
            match slots[slot_of(profile)] {
                Some(table) => table,
                None => profile.shape(),
            }
        },
    }
}

impl FingerprintTables {
    #[verifier::type_invariant]
    closed spec fn inv(self) -> bool {
        kept(self@)
    }

    /// The shipped tables.
    pub fn new() -> (tables: FingerprintTables)
        ensures
            tables@ is None,
    {
        FingerprintTables { installed: None }
    }

    /// The table in effect for a profile.
    pub fn table_for(&self, profile: RealityHelloProfile) -> (table: Arc<HelloProfile>)
        ensures
            table@ == table_in_effect(self@, profile),
    {
        if let Some(tables) = &self.installed {
            let index = slot_index(profile);
            if index < tables.profiles.len() {
                if let Some(table) = &tables.profiles[index] {
                    return Arc::clone(table);
                }
            }
        }
        Arc::new(profile.table())
    }

    /// How many tables are held, once a document was taken.
    pub fn replaced(&self) -> (count: Option<usize>)
        ensures
            match self@ {
                Some((_, slots)) => count matches Some(actual) && actual == filled(slots),
                None => count is None,
            },
            count matches Some(actual) ==> actual >= 1,
            kept(self@),
    {
        proof {
            use_type_invariant(self);
        }
        match &self.installed {
            Some(tables) => Some(count_filled(&tables.profiles)),
            None => None,
        }
    }
}

/// Take the tables of a document over the shipped ones, whole or not at all, and
/// say how many there are. The same document again changes nothing.
pub fn install_fingerprint_tables(tables: &mut FingerprintTables, document: &[u8]) -> (result: Result<
    usize,
    WireError,
>)
    ensures
        final(tables)@ == after_install(old(tables)@, document@).1,
        match after_install(old(tables)@, document@).0 {
            Ok(count) => result matches Ok(actual) && actual == count && actual >= 1,
            Err(fault) => result matches Err(error) && error@ == fault,
        },
        kept(final(tables)@),
{
    proof {
        use_type_invariant(&*tables);
    }
    if document.len() > MAX_DOCUMENT_BYTES {
        return Err(refuse("is larger than any table document this build reads"));
    }
    let digest = sha256(document);
    if let Some(installed) = &tables.installed {
        if bytes_equal(installed.document_digest.as_slice(), digest.as_slice()) {
            return Ok(count_filled(&installed.profiles));
        }
    }
    let profiles = match parse_document(document) {
        Ok(profiles) => profiles,
        Err(error) => {
            return Err(error);
        },
    };
    let replaced = count_filled(&profiles);
    if replaced == 0 {
        return Err(refuse("carries no table for any profile this build implements"));
    }
    proof {
        let shape: TablesShape = Some((sha256_of(document@), profile_slots(profiles@)));
        assert(taken_from(shape, document@));
    }
    *tables =
    FingerprintTables {
        installed: Some(
            InstalledTables { document_digest: copy_array(digest.as_slice()), profiles },
        ),
    };
    Ok(replaced)
}

/// Go back to the shipped tables.
pub fn clear_fingerprint_tables(tables: &mut FingerprintTables)
    ensures
        final(tables)@ is None,
{
    *tables = FingerprintTables::new();
}

/// Whether tables of a document are in effect.
pub fn using_downloaded_fingerprint_tables(tables: &FingerprintTables) -> (using: bool)
    ensures
        using == (tables@ is Some),
{
    tables.installed.is_some()
}

/// A refused document changes nothing.
pub proof fn a_refused_document_changes_nothing(tables: TablesShape, document: Seq<u8>)
    requires
        after_install(tables, document).0 is Err,
    ensures
        after_install(tables, document).1 == tables,
{
}

/// Taking a document twice is taking it once.
pub proof fn taking_a_document_again_changes_nothing(tables: TablesShape, document: Seq<u8>)
    requires
        after_install(tables, document).0 is Ok,
    ensures
        after_install(after_install(tables, document).1, document) == after_install(
            tables,
            document,
        ),
{
}

/// Whether a document names a profile.
pub open spec fn names_profile(document: Seq<u8>, profile: RealityHelloProfile) -> bool {
    json_reading(document) matches Ok(root) && root.at("profiles"@) matches Some(
        JsonShape::Array(items),
    ) && name_taken(items, items.len() as int, profile.shape().name)
}

proof fn lemma_names_differ()
    ensures
        RealityHelloProfile::Chrome133.shape().name != RealityHelloProfile::Chrome131.shape().name,
{
    reveal_strlit("chrome_133");
    reveal_strlit("chrome_131");
    assert("chrome_133"@[9] != "chrome_131"@[9]);
}

proof fn lemma_name_taken(items: Seq<JsonShape>, n: int, name: Seq<char>)
    requires
        n > 0,
    ensures
        name_taken(items, n, name) <==> name_taken(items, n - 1, name) || items[n - 1].text_at(
            "name"@,
        ) == Some(name),
{
    if name_taken(items, n - 1, name) {
        let i = choose|i: int| 0 <= i < n - 1 && (#[trigger] items[i]).text_at("name"@) == Some(name);
        assert(items[i].text_at("name"@) == Some(name));
    }
}

/// What an entry fills: the place of the profile that it names.
proof fn lemma_entry_fills(items: Seq<JsonShape>, index: int, slots: Seq<Option<ProfileShape>>)
    requires
        slots.len() == 2,
    ensures
        after_entry(items, index, slots) matches Ok(next) ==> next.len() == 2 && forall|place: int|
            0 <= place < 2 ==> ((#[trigger] next[place]) is Some <==> slots[place] is Some || (
            items[index].text_at("name"@) matches Some(name) && named_profile(
                name,
            ) matches Some(profile) && slot_of(profile) == place)),
{
}

proof fn lemma_named_places(items: Seq<JsonShape>, n: nat, profile: RealityHelloProfile)
    ensures
        entry_tables(items, n) matches Ok(slots) ==> slots.len() == 2 && (slots[slot_of(
            profile,
        )] is Some <==> name_taken(items, n as int, profile.shape().name)),
    decreases n,
{
    if n > 0 {
        let name = profile.shape().name;
        lemma_named_places(items, (n - 1) as nat, profile);
        lemma_name_taken(items, n as int, name);
        lemma_names_differ();
        if let Ok(slots) = entry_tables(items, (n - 1) as nat) {
            lemma_entry_fills(items, n - 1, slots);
            assert(named_profile(name) == Some(profile));
        }
    }
}

/// A document that was taken is in effect: it brought at least one table, the
/// profiles that it names have their table from it and the others keep the
/// shipped one, and taking it again brings as many and changes nothing. That the
/// tables in effect are not those of another document with the same digest is
/// presupposed.
pub proof fn a_taken_document_is_in_effect(
    tables: TablesShape,
    document: Seq<u8>,
    profile: RealityHelloProfile,
)
    requires
        after_install(tables, document).0 is Ok,
        tables matches Some((digest, _)) ==> digest == sha256_of(document) ==> taken_from(
            tables,
            document,
        ),
    ensures
        ({
            let (outcome, after) = after_install(tables, document);
            &&& taken_from(after, document)
            &&& outcome matches Ok(count) && count >= 1
            &&& outcome == Ok::<nat, Fault>(filled_of(after))
            &&& after matches Some((_, slots)) && {
                &&& slots.len() == 2
                &&& slots[slot_of(profile)] is Some <==> names_profile(document, profile)
                &&& slots[slot_of(profile)] matches Some(table) ==> table_in_effect(after, profile)
                    == table
            }
            &&& !names_profile(document, profile) ==> table_in_effect(after, profile)
                == profile.shape()
            &&& after_install(after, document) == (outcome, after)
        }),
{
    reveal(parsed_document);
    if let Ok(root) = json_reading(document) {
        if let Some(JsonShape::Array(items)) = root.at("profiles"@) {
            lemma_named_places(items, items.len(), profile);
        }
    }
}

proof fn lemma_tables_validate(items: Seq<JsonShape>, n: nat)
    ensures
        entry_tables(items, n) matches Ok(slots) ==> slots.len() == 2 && forall|i: int|
            0 <= i < 2 ==> ((#[trigger] slots[i]) matches Some(table) ==> profile_verdict(
                table,
            ) is Ok),
    decreases n,
{
    if n > 0 {
        lemma_tables_validate(items, (n - 1) as nat);
    }
}

/// Where the tables in effect can produce a hello, they still can after any
/// document, taken or refused.
pub proof fn installed_tables_validate(
    tables: TablesShape,
    document: Seq<u8>,
    profile: RealityHelloProfile,
)
    requires
        profile_verdict(table_in_effect(tables, profile)) is Ok,
    ensures
        profile_verdict(table_in_effect(after_install(tables, document).1, profile)) is Ok,
{
    reveal(parsed_document);
    shipped_profiles_validate(profile);
    if let Ok(root) = json_reading(document) {
        if let Some(JsonShape::Array(items)) = root.at("profiles"@) {
            lemma_tables_validate(items, items.len());
        }
    }
}

} // verus!
