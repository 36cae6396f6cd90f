//! What a server reads in a hello: every field and every extension body, taken off
//! the wire by a reader that goes by lengths and bytes alone.
use crate::octets::{be16, be24, read16, read24};
use crate::reality::client_hello::{
    client_hello_message, ech_body_of, group_list, hello_extensions, hello_front,
    hello_keeps_the_session_id_window, lemma_suite_list_len, protocol_list, share_list, share_of, slot_content, suite_list,
    version_list, with_length, SessionShape,
};
use crate::reality::grease::{grease_value, separated, GreaseSlot};
use crate::reality::group::NamedGroup;
use crate::reality::hello_laws::{lemma_split_more, split_extensions, Extension};
use crate::reality::hello_profile::{
    CipherSuiteSlot, GroupSlot, KeyShareSlot, ProfileShape, SlotShape, VersionSlot,
};
use vstd::prelude::*;

verus! {

/// What stands behind two bytes of length, where they count exactly that.
pub open spec fn counted(body: Seq<u8>) -> Option<Seq<u8>> {
    if body.len() >= 2 && body[0] * 256 + body[1] == body.len() - 2 {
        Some(body.skip(2))
    } else {
        None
    }
}

/// The names of a list in which each stands behind one byte of length.
pub open spec fn read_names(list: Seq<u8>) -> Option<Seq<Seq<u8>>>
    decreases list.len(),
{
    if list.len() == 0 {
        Some(Seq::empty())
    } else if list.len() < 1 + list[0] {
        None
    } else {
        match read_names(list.skip(1 + list[0])) {
            None => None,
            Some(others) => Some(seq![list.subrange(1, 1 + list[0])] + others),
        }
    }
}

/// The code points of a list, two bytes each, most significant first.
pub open spec fn read_points(list: Seq<u8>) -> Option<Seq<int>> {
    if list.len() % 2 != 0 {
        None
    } else {
        Some(Seq::new(list.len() / 2, |i: int| list[2 * i] * 256 + list[2 * i + 1]))
    }
}

/// The code point that the TLS registry has for a group.
pub open spec fn registered_group(group: NamedGroup) -> int {
    match group {
        NamedGroup::Secp256r1 => 23,
        NamedGroup::Secp384r1 => 24,
        NamedGroup::Secp521r1 => 25,
        NamedGroup::X25519 => 29,
        NamedGroup::Ffdhe2048 => 256,
        NamedGroup::Ffdhe3072 => 257,
        NamedGroup::X25519MlKem768 => 4588,
    }
}

/// The GREASE point of the `i`th byte of a seed: a byte with that byte's high half
/// and `a` in its low half, twice.
pub open spec fn grease_at(seed: Seq<u8>, i: int) -> int {
    (seed[i] as int / 16 * 16 + 10) * 256 + (seed[i] as int / 16 * 16 + 10)
}

/// Every purpose has a byte of the seed of its own, and its value is that byte's
/// GREASE point.
pub proof fn each_purpose_has_its_grease(seed: Seq<u8>)
    ensures
        grease_value(seed, GreaseSlot::Cipher) == grease_at(seed, 0),
        grease_value(seed, GreaseSlot::Group) == grease_at(seed, 1),
        grease_value(seed, GreaseSlot::Version) == grease_at(seed, 2),
        grease_value(seed, GreaseSlot::Extension1) == grease_at(seed, 3),
        grease_value(seed, GreaseSlot::Extension2) == grease_at(seed, 4),
{
}

/// Numbers of two bytes behind one another read back.
pub(crate) proof fn lemma_points_more(list: Seq<u8>, point: u16)
    requires
        read_points(list) is Some,
    ensures
        read_points(list + be16(point)) == Some(read_points(list)->0.push(point as int)),
{
    let whole = list + be16(point);
    let points = read_points(whole)->0;
    assert(whole.len() % 2 == 0);
    assert(points =~= read_points(list)->0.push(point as int)) by {
        let n = list.len() as int / 2;
        assert(whole[2 * n] == be16(point)[0]);
        assert(whole[2 * n + 1] == be16(point)[1]);
        assert forall|i: int| 0 <= i < n implies points[i] == read_points(list)->0[i] by {
            assert(whole[2 * i] == list[2 * i] && whole[2 * i + 1] == list[2 * i + 1]);
        }
    }
}

/// The code point that a group slot has on the wire.
pub open spec fn group_on_wire(slot: GroupSlot, seed: Seq<u8>) -> int {
    match slot {
        GroupSlot::Grease => grease_at(seed, 1),
        GroupSlot::Group(group) => registered_group(group),
    }
}

/// The code point that a version slot has on the wire.
pub open spec fn version_on_wire(slot: VersionSlot, seed: Seq<u8>) -> int {
    match slot {
        VersionSlot::Grease => grease_at(seed, 2),
        VersionSlot::Version(version) => version as int,
    }
}

/// The code point that a suite slot has on the wire.
pub open spec fn suite_on_wire(slot: CipherSuiteSlot, seed: Seq<u8>) -> int {
    match slot {
        CipherSuiteSlot::Grease => grease_at(seed, 0),
        CipherSuiteSlot::Negotiable(id) => id as int,
        CipherSuiteSlot::Decorative(id) => id as int,
    }
}

proof fn lemma_group_list(slots: Seq<GroupSlot>, seed: Seq<u8>, n: nat)
    requires
        n <= slots.len(),
    ensures
        group_list(slots, seed, n).len() == 2 * n,
        read_points(group_list(slots, seed, n)) == Some(
            Seq::new(n, |i: int| group_on_wire(slots[i], seed)),
        ),
    decreases n,
{
    let points = Seq::new(n, |i: int| group_on_wire(slots[i], seed));
    if n == 0 {
        assert(read_points(group_list(slots, seed, n))->0 =~= points);
    } else {
        let before = group_list(slots, seed, (n - 1) as nat);
        lemma_group_list(slots, seed, (n - 1) as nat);
        let point = crate::reality::client_hello::group_point(slots[n - 1], seed);
        lemma_points_more(before, point);
        assert(point == group_on_wire(slots[n - 1], seed));
        assert(read_points(before)->0.push(point as int) =~= points);
    }
}

proof fn lemma_version_list(slots: Seq<VersionSlot>, seed: Seq<u8>, n: nat)
    requires
        n <= slots.len(),
    ensures
        version_list(slots, seed, n).len() == 2 * n,
        read_points(version_list(slots, seed, n)) == Some(
            Seq::new(n, |i: int| version_on_wire(slots[i], seed)),
        ),
    decreases n,
{
    let points = Seq::new(n, |i: int| version_on_wire(slots[i], seed));
    if n == 0 {
        assert(read_points(version_list(slots, seed, n))->0 =~= points);
    } else {
        let before = version_list(slots, seed, (n - 1) as nat);
        lemma_version_list(slots, seed, (n - 1) as nat);
        let point = crate::reality::client_hello::version_point(slots[n - 1], seed);
        lemma_points_more(before, point);
        assert(read_points(before)->0.push(point as int) =~= points);
    }
}

proof fn lemma_suite_list(slots: Seq<CipherSuiteSlot>, seed: Seq<u8>, n: nat)
    requires
        n <= slots.len(),
    ensures
        read_points(suite_list(slots, seed, n)) == Some(
            Seq::new(n, |i: int| suite_on_wire(slots[i], seed)),
        ),
    decreases n,
{
    let points = Seq::new(n, |i: int| suite_on_wire(slots[i], seed));
    if n == 0 {
        assert(read_points(suite_list(slots, seed, n))->0 =~= points);
    } else {
        let before = suite_list(slots, seed, (n - 1) as nat);
        lemma_suite_list(slots, seed, (n - 1) as nat);
        let point = crate::reality::client_hello::suite_point(slots[n - 1], seed);
        lemma_points_more(before, point);
        assert(read_points(before)->0.push(point as int) =~= points);
    }
}

/// A list with one more name reads back as one more name.
proof fn lemma_names_more(list: Seq<u8>, name: Seq<u8>)
    requires
        read_names(list) is Some,
        name.len() <= 255,
    ensures
        read_names(list.push(name.len() as u8) + name) == Some(read_names(list)->0.push(name)),
    decreases list.len(),
{
    let whole = list.push(name.len() as u8) + name;
    if list.len() == 0 {
        assert(whole.subrange(1, 1 + name.len() as int) =~= name);
        assert(whole.skip(1 + name.len() as int) =~= Seq::<u8>::empty());
        assert(read_names(Seq::<u8>::empty()) == Some(Seq::<Seq<u8>>::empty()));
        assert(seq![name] + Seq::<Seq<u8>>::empty() =~= Seq::<Seq<u8>>::empty().push(name));
    } else {
        let end = 1 + list[0];
        let rest = list.skip(end);
        lemma_names_more(rest, name);
        assert(whole.skip(end) =~= rest.push(name.len() as u8) + name);
        assert(whole.subrange(1, end) =~= list.subrange(1, end));
        let first = seq![list.subrange(1, end)];
        let others = read_names(rest)->0;
        assert(first + others.push(name) =~= (first + others).push(name));
    }
}

proof fn lemma_protocol_list(protocols: Seq<Seq<u8>>, n: nat)
    requires
        n <= protocols.len(),
    ensures
        protocol_list(protocols, n) matches Ok(list) ==> read_names(list) == Some(
            protocols.take(n as int),
        ),
    decreases n,
{
    if n == 0 {
        assert(protocols.take(0) =~= Seq::<Seq<u8>>::empty());
    } else {
        lemma_protocol_list(protocols, (n - 1) as nat);
        if let Ok(before) = protocol_list(protocols, (n - 1) as nat) {
            if protocols[n - 1].len() <= 255 {
                lemma_names_more(before, protocols[n - 1]);
                assert(protocols.take(n - 1).push(protocols[n - 1]) =~= protocols.take(n as int));
            }
        }
    }
}

/// Whether an entry is what a key share slot stands for: the connection's GREASE
/// group with one zero byte, or a group with the first share that the session has
/// for it.
pub open spec fn is_share_of(entry: Extension, slot: KeyShareSlot, session: SessionShape) -> bool {
    match slot {
        KeyShareSlot::Grease => entry.0 == grease_at(session.grease, 1) && entry.1 == seq![0u8],
        KeyShareSlot::Group(group) => {
            &&& entry.0 == registered_group(group)
            &&& exists|j: int|
                {
                    &&& 0 <= j < session.key_shares.len()
                    &&& #[trigger] session.key_shares[j] == (group, entry.1)
                    &&& forall|k: int|
                        0 <= k < j ==> (#[trigger] session.key_shares[k]).0 != group
                }
        },
    }
}

proof fn lemma_first_share(shares: Seq<(NamedGroup, Seq<u8>)>, group: NamedGroup) -> (j: int)
    requires
        share_of(shares, group) is Some,
    ensures
        0 <= j < shares.len(),
        shares[j] == (group, share_of(shares, group)->0),
        forall|k: int| 0 <= k < j ==> (#[trigger] shares[k]).0 != group,
    decreases shares.len(),
{
    if shares[0].0 == group {
        0
    } else {
        let rest = shares.drop_first();
        let j = lemma_first_share(rest, group);
        assert forall|k: int| 0 <= k < j + 1 implies (#[trigger] shares[k]).0 != group by {
            if k > 0 {
                assert(rest[k - 1] == shares[k]);
            }
        }
        j + 1
    }
}

proof fn lemma_share_list(slots: Seq<KeyShareSlot>, session: SessionShape, n: nat)
    requires
        n <= slots.len(),
    ensures
        share_list(slots, session, n) matches Ok(list) ==> {
            &&& split_extensions(list) matches Some(entries)
            &&& entries.len() == n
            &&& forall|i: int|
                0 <= i < n ==> is_share_of(#[trigger] entries[i], slots[i], session)
        },
    decreases n,
{
    if n > 0 {
        lemma_share_list(slots, session, (n - 1) as nat);
        if let Ok(list) = share_list(slots, session, n) {
            let before = share_list(slots, session, (n - 1) as nat)->Ok_0;
            let (point, share) = crate::reality::client_hello::share_entry(
                slots[n - 1],
                session,
            )->Ok_0;
            lemma_split_more(before, point, share);
            assert(list =~= before + (be16(point) + be16(share.len() as u16) + share));
            if let KeyShareSlot::Group(group) = slots[n - 1] {
                let j = lemma_first_share(session.key_shares, group);
                assert(session.key_shares[j] == (group, share));
            }
            assert(is_share_of((point, share), slots[n - 1], session));
        }
    }
}

/// The server name extension reads back as the server name: one list that fills the
/// body, with one entry of the host name type that fills the list.
pub proof fn the_server_name_reads_back(session: SessionShape)
    requires
        session.server_name.len() <= 65532,
    ensures
        slot_content(SlotShape::ServerName, session) matches Ok((extension_type, body)) && {
            &&& extension_type == 0
            &&& counted(body) matches Some(list)
            &&& list[0] == 0
            &&& counted(list.skip(1)) == Some(session.server_name)
        },
{
    let name = session.server_name;
    let (extension_type, body) = slot_content(SlotShape::ServerName, session)->Ok_0;
    assert(body.len() == name.len() + 5);
    assert(body[0] * 256 + body[1] == name.len() + 3);
    let list = body.skip(2);
    let entry = list.skip(1);
    assert(entry =~= be16(name.len() as u16) + name);
    assert(entry.skip(2) =~= name);
}

/// The ALPN extension reads back as the protocols of the session, in order.
pub proof fn the_protocols_read_back(session: SessionShape)
    ensures
        slot_content(SlotShape::Alpn, session) matches Ok((extension_type, body)) ==> {
            &&& extension_type == 16
            &&& counted(body) matches Some(list)
            &&& read_names(list) == Some(session.alpn_protocols)
        },
{
    let protocols = session.alpn_protocols;
    if let Ok((_, body)) = slot_content(SlotShape::Alpn, session) {
        let list = protocol_list(protocols, protocols.len())->Ok_0;
        lemma_protocol_list(protocols, protocols.len());
        assert(protocols.take(protocols.len() as int) =~= protocols);
        assert(body.skip(2) =~= list);
    }
}

/// The supported groups read back as the code points of the slots, in order.
pub proof fn the_groups_read_back(groups: Seq<GroupSlot>, session: SessionShape)
    requires
        groups.len() < 32768,
    ensures
        slot_content(SlotShape::SupportedGroups(groups), session) matches Ok((extension_type, body))
            && {
            &&& extension_type == 10
            &&& counted(body) matches Some(list)
            &&& read_points(list) == Some(
                Seq::new(groups.len(), |i: int| group_on_wire(groups[i], session.grease)),
            )
        },
{
    let (_, body) = slot_content(SlotShape::SupportedGroups(groups), session)->Ok_0;
    let list = group_list(groups, session.grease, groups.len());
    lemma_group_list(groups, session.grease, groups.len());
    assert(body.skip(2) =~= list);
}

/// The supported versions read back as the versions of the slots, in order, behind
/// one byte of length that counts exactly them.
pub proof fn the_versions_read_back(versions: Seq<VersionSlot>, session: SessionShape)
    requires
        versions.len() < 128,
    ensures
        slot_content(SlotShape::SupportedVersions(versions), session) matches Ok(
            (extension_type, body),
        ) && {
            &&& extension_type == 43
            &&& body[0] == body.len() - 1
            &&& read_points(body.skip(1)) == Some(
                Seq::new(versions.len(), |i: int| version_on_wire(versions[i], session.grease)),
            )
        },
{
    let (_, body) = slot_content(SlotShape::SupportedVersions(versions), session)->Ok_0;
    let list = version_list(versions, session.grease, versions.len());
    lemma_version_list(versions, session.grease, versions.len());
    assert(body.skip(1) =~= list);
}

/// The key shares read back, each group with the share that the session has for it,
/// in the order of the slots.
pub proof fn the_shares_read_back(slots: Seq<KeyShareSlot>, session: SessionShape)
    ensures
        slot_content(SlotShape::KeyShare(slots), session) matches Ok((extension_type, body)) ==> {
            &&& extension_type == 51
            &&& counted(body) matches Some(list)
            &&& split_extensions(list) matches Some(entries)
            &&& entries.len() == slots.len()
            &&& forall|i: int|
                0 <= i < slots.len() ==> is_share_of(#[trigger] entries[i], slots[i], session)
        },
{
    if let Ok((_, body)) = slot_content(SlotShape::KeyShare(slots), session) {
        let list = share_list(slots, session, slots.len())->Ok_0;
        lemma_share_list(slots, session, slots.len());
        assert(body.skip(2) =~= list);
    }
}

/// The other extensions are what the table says: a constant one has its type and its
/// body, a GREASE one the value of its purpose, and the fake ECH offer the session's
/// body.
pub proof fn the_other_extensions_are_the_tables(
    extension_type: u16,
    body: Seq<u8>,
    session: SessionShape,
)
    ensures
        slot_content(SlotShape::Constant { extension_type, body }, session) == Ok::<
            Extension,
            crate::error::Fault,
        >((extension_type, body)),
        slot_content(SlotShape::Grease { slot: GreaseSlot::Extension1, body }, session) == Ok::<
            Extension,
            crate::error::Fault,
        >((grease_at(session.grease, 3) as u16, body)),
        slot_content(SlotShape::Grease { slot: GreaseSlot::Extension2, body }, session) == Ok::<
            Extension,
            crate::error::Fault,
        >((grease_at(session.grease, 4) as u16, body)),
        slot_content(SlotShape::EchGrease, session) == Ok::<Extension, crate::error::Fault>(
            (65037u16, session.ech_body),
        ),
{
}

/// A fake ECH offer reads back: an outer offer, a suite of the candidates or
/// HKDF-SHA256 with AES-128-GCM where there are none, the first chooser byte as
/// identifier, a key of 32 bytes, and a payload that ends the body, sixteen bytes
/// longer than a candidate length that is no more than 224.
pub proof fn the_fake_offer_reads_back(
    suites: Seq<(u16, u16)>,
    lengths: Seq<usize>,
    enc: Seq<u8>,
    chooser: Seq<u8>,
    payload: Seq<u8>,
)
    requires
        enc.len() == 32,
        chooser.len() == 3,
        payload.len() == 240,
    ensures
        ({
            let body = ech_body_of(suites, lengths, enc, chooser, payload);
            let suite = (read16(body, 1), read16(body, 3));
            &&& body[0] == 0
            &&& suites.len() == 0 ==> suite == (1int, 1int)
            &&& suites.len() > 0 ==> suite == (
                suites[chooser[1] as int % suites.len() as int].0 as int,
                suites[chooser[1] as int % suites.len() as int].1 as int,
            )
            &&& body[5] == chooser[0]
            &&& counted(body.subrange(6, 40)) == Some(enc)
            &&& counted(body.skip(40)) matches Some(sealed)
            &&& sealed == payload.take(sealed.len() as int)
            &&& lengths.len() == 0 ==> sealed.len() == 144
            &&& lengths.len() > 0 && lengths[chooser[2] as int % lengths.len() as int] <= 224
                ==> sealed.len() == lengths[chooser[2] as int % lengths.len() as int] + 16
            &&& sealed.len() <= 240
        }),
{
    let body = ech_body_of(suites, lengths, enc, chooser, payload);
    let length = crate::reality::client_hello::chosen_payload_len(lengths, chooser[2]);
    let sealed = payload.subrange(0, length);
    let suite = crate::reality::client_hello::chosen_suite(suites, chooser[1]);
    let head = seq![0u8] + be16(suite.0) + be16(suite.1) + seq![chooser[0]];
    assert(head.len() == 6);
    assert(head[1] == be16(suite.0)[0] && head[2] == be16(suite.0)[1]);
    assert(head[3] == be16(suite.1)[0] && head[4] == be16(suite.1)[1]);
    assert(body =~= head + (be16(32) + enc) + (be16(sealed.len() as u16) + sealed));
    assert(body.subrange(6, 40) =~= be16(32) + enc);
    assert((be16(32) + enc).skip(2) =~= enc);
    assert(body.skip(40) =~= be16(sealed.len() as u16) + sealed);
    assert(body.skip(40).skip(2) =~= sealed);
    assert(sealed =~= payload.take(sealed.len() as int));
}

proof fn lemma_front_parts(
    front: Seq<u8>,
    random: Seq<u8>,
    session_id: Seq<u8>,
    suites: Seq<u8>,
    extensions: Seq<u8>,
)
    requires
        random.len() == 32,
        session_id.len() == 32,
        suites.len() <= 65535,
        extensions.len() <= 65535,
        front == seq![3u8, 3u8] + random + seq![32u8] + session_id + be16(suites.len() as u16)
            + suites + seq![1u8, 0u8],
    ensures
        ({
            let body = front + with_length(extensions);
            let message = seq![1u8] + be24(body.len() as int) + body;
            let end = 73 + suites.len() as int;
            &&& message[0] == 1 && message[4] == 3 && message[5] == 3
            &&& message.len() == end + 4 + extensions.len()
            &&& counted(message.subrange(71, end)) == Some(suites)
            &&& message[end] == 1 && message[end + 1] == 0
            &&& counted(message.skip(end + 2)) is Some
        }),
{
    let body = front + with_length(extensions);
    let message = seq![1u8] + be24(body.len() as int) + body;
    let end = 73 + suites.len() as int;
    let head = seq![3u8, 3u8] + random + seq![32u8] + session_id;
    let middle = be16(suites.len() as u16) + suites;
    let last = seq![1u8, 0u8];
    assert(head.len() == 67 && head[0] == 3 && head[1] == 3);
    assert(front =~= head + middle + last);
    assert forall|i: int| 0 <= i < front.len() implies message[4 + i] == front[i] by {
        assert(message[4 + i] == body[i]);
    }
    assert(message[4] == front[0] && message[5] == front[1]);
    assert(front[67 + middle.len() as int] == last[0]);
    assert(front[68 + middle.len() as int] == last[1]);
    assert(message.subrange(71, end) =~= middle) by {
        assert forall|i: int| 0 <= i < middle.len() implies message[71 + i] == middle[i] by {
            assert(message[4 + (67 + i)] == front[67 + i]);
        }
    }
    assert(middle.skip(2) =~= suites);
    assert(message.skip(end + 2) =~= with_length(extensions));
}

/// The fixed part of a hello reads back: a ClientHello whose length counts the rest,
/// the version, the random and the session id of the session, the suites of the
/// table in order, no compression, and a length of the extensions that counts
/// everything behind it.
pub proof fn the_front_reads_back(profile: ProfileShape, session: SessionShape)
    requires
        session.client_random.len() == 32,
        session.session_id.len() == 32,
    ensures
        client_hello_message(profile, session) matches Ok(message) ==> {
            let suites = profile.cipher_suites;
            let end = 73 + 2 * suites.len() as int;
            &&& message[0] == 1
            &&& read24(message, 1) == message.len() - 4
            &&& message[4] == 3 && message[5] == 3
            &&& message.subrange(6, 38) == session.client_random
            &&& message[38] == 32
            &&& message.subrange(39, 71) == session.session_id
            &&& message.len() >= end + 4
            &&& counted(message.subrange(71, end)) matches Some(list)
            &&& read_points(list) == Some(
                Seq::new(suites.len(), |i: int| suite_on_wire(suites[i], session.grease)),
            )
            &&& message[end] == 1 && message[end + 1] == 0
            &&& counted(message.skip(end + 2)) is Some
        },
{
    if let Ok(message) = client_hello_message(profile, session) {
        let slots = profile.cipher_suites;
        let suites = suite_list(slots, session.grease, slots.len());
        let front = hello_front(profile, session);
        let extensions = hello_extensions(profile, session)->Ok_0;
        lemma_suite_list(slots, session.grease, slots.len());
        lemma_suite_list_len(slots, session.grease, slots.len());
        hello_keeps_the_session_id_window(profile, session);
        lemma_front_parts(front, session.client_random, session.session_id, suites, extensions);
        assert(front =~= seq![3u8, 3u8] + session.client_random + seq![32u8] + session.session_id
            + be16(suites.len() as u16) + suites + seq![1u8, 0u8]);
        assert(message == seq![1u8] + be24((front + with_length(extensions)).len() as int) + (front
            + with_length(extensions)));
    }
}

/// A drawn seed is used as it is where its last two bytes have different high halves. Where
/// they are alike the last one moves to the other of its pair, an even half and the odd
/// one behind it, so that the two GREASE extensions never have one point.
pub proof fn the_two_grease_extensions_differ(seed: Seq<u8>)
    requires
        seed.len() == 5,
    ensures
        ({
            let used = separated(seed);
            &&& used.len() == 5
            &&& used.take(4) == seed.take(4)
            &&& used[4] % 16 == seed[4] % 16
            &&& used[4] as int / 32 == seed[4] as int / 32
            &&& used[4] == seed[4] <==> seed[3] / 16 != seed[4] / 16
            &&& grease_at(used, 3) != grease_at(used, 4)
        }),
{
    assert(separated(seed).take(4) =~= seed.take(4));
}

} // verus!
