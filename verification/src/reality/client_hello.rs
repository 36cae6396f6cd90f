//! The ClientHello that a profile and a session make together.
use crate::error::{invalid_input, ErrorKind, Fault, WireError};
use crate::octets::{be16, be24, bytes_equal, push_bytes, push_u16, push_u24, read24};
use crate::random::random_bytes;
use crate::reality::common::{
    HELLO_SESSION_ID_LEN, HELLO_SESSION_ID_OFFSET, VERSION_TLS_1_2_MAJOR, VERSION_TLS_1_2_MINOR,
};
use crate::reality::grease::{grease_value, separated, GreaseSlot, GreaseValues};
use crate::reality::group::NamedGroup;
use crate::reality::hello_order::{extension_order, order_of, padding_bytes, write_padding};
use crate::reality::hello_profile::{
    profile_verdict, slot_shapes, CipherSuiteSlot, EchGreaseShape, ExtensionSlot, GroupSlot,
    HelloProfile, KeyShareSlot, ProfileShape, SlotShape, VersionSlot,
};
use crate::reality::hello_tables::{
    chrome_ech_grease, chrome_ech_payload_lens, chrome_ech_suites,
};
use crate::text::{hex_word, push_hex_word, text_of};
use vstd::prelude::*;
use vstd::string::*;

verus! {

/// Extension code points of the TLS registry.
pub const SERVER_NAME: u16 = 0x0000;

pub const STATUS_REQUEST: u16 = 0x0005;

pub const SUPPORTED_GROUPS: u16 = 0x000a;

pub const EC_POINT_FORMATS: u16 = 0x000b;

pub const SIGNATURE_ALGORITHMS: u16 = 0x000d;

pub const ALPN: u16 = 0x0010;

pub const SIGNED_CERTIFICATE_TIMESTAMP: u16 = 0x0012;

pub const EXTENDED_MASTER_SECRET: u16 = 0x0017;

pub const COMPRESS_CERTIFICATE: u16 = 0x001b;

pub const SESSION_TICKET: u16 = 0x0023;

pub const SUPPORTED_VERSIONS: u16 = 0x002b;

pub const PSK_KEY_EXCHANGE_MODES: u16 = 0x002d;

pub const KEY_SHARE: u16 = 0x0033;

/// `application_settings`, the code point that Chrome 131 and earlier used.
pub const APPLICATION_SETTINGS_OLD: u16 = 0x4469;

/// `application_settings`, the code point that Chrome 132 moved to.
pub const APPLICATION_SETTINGS: u16 = 0x44cd;

pub const ENCRYPTED_CLIENT_HELLO: u16 = 0xfe0d;

pub const RENEGOTIATION_INFO: u16 = 0xff01;

/// HPKE KDF id, RFC 9180 section 7.2.
pub const HPKE_KDF_HKDF_SHA256: u16 = 0x0001;

/// HPKE AEAD ids, RFC 9180 section 7.3.
pub const HPKE_AEAD_AES_128_GCM: u16 = 0x0001;

pub const HPKE_AEAD_CHACHA20_POLY1305: u16 = 0x0003;

/// AEAD ciphertext expansion of both candidate suites.
pub const ECH_GREASE_TAG_LEN: usize = 16;

/// Largest plaintext length that an ECH GREASE payload stands for.
pub const MAX_ECH_GREASE_PLAINTEXT: usize = 224;

/// Largest ECH GREASE payload.
pub const MAX_ECH_GREASE_PAYLOAD: usize = 240;

/// Everything the ECH GREASE extension needs that must not repeat between
/// connections. Its view is the extension body.
pub struct EchGreaseParams {
    /// A real X25519 public key, as a genuine offer would carry.
    enc: [u8; 32],
    config_id: u8,
    /// The HPKE suite: KDF and AEAD.
    suite: (u16, u16),
    payload_len: usize,
    payload: [u8; 240],
}

/// The suite that a choice stands for among the candidates.
pub open spec fn chosen_suite(suites: Seq<(u16, u16)>, choice: u8) -> (u16, u16) {
    if suites.len() == 0 {
        (HPKE_KDF_HKDF_SHA256, HPKE_AEAD_AES_128_GCM)
    } else {
        suites[choice as int % suites.len() as int]
    }
}

/// The payload length that a choice stands for among the candidates: so much
/// plaintext, and the tag.
pub open spec fn chosen_payload_len(lengths: Seq<usize>, choice: u8) -> int {
    let length = if lengths.len() == 0 {
        128
    } else {
        lengths[choice as int % lengths.len() as int] as int
    };
    ECH_GREASE_TAG_LEN + if length > MAX_ECH_GREASE_PLAINTEXT {
        MAX_ECH_GREASE_PLAINTEXT as int
    } else {
        length
    }
}

/// The body of an ECH GREASE extension: an outer ECHClientHello.
pub open spec fn ech_extension_body(
    suite: (u16, u16),
    config_id: u8,
    enc: Seq<u8>,
    payload: Seq<u8>,
) -> Seq<u8> {
    seq![0u8] + be16(suite.0) + be16(suite.1) + seq![config_id] + be16(32) + enc + be16(
        payload.len() as u16,
    ) + payload
}

/// The body that three chooser bytes, a key and a payload make of the
/// candidates.
pub open spec fn ech_body_of(
    suites: Seq<(u16, u16)>,
    lengths: Seq<usize>,
    enc: Seq<u8>,
    chooser: Seq<u8>,
    payload: Seq<u8>,
) -> Seq<u8> {
    ech_extension_body(
        chosen_suite(suites, chooser[1]),
        chooser[0],
        enc,
        payload.subrange(0, chosen_payload_len(lengths, chooser[2])),
    )
}

impl View for EchGreaseParams {
    type V = Seq<u8>;

    closed spec fn view(&self) -> Seq<u8> {
        ech_extension_body(
            self.suite,
            self.config_id,
            self.enc@,
            self.payload@.subrange(0, self.payload_len as int),
        )
    }
}

impl EchGreaseParams {
    #[verifier::type_invariant]
    closed spec fn inv(self) -> bool {
        self.payload_len <= MAX_ECH_GREASE_PAYLOAD
    }

    /// The parameters that three chooser bytes and a payload make of a
    /// profile's candidates.
    pub fn for_shape(
        shape: &EchGreaseShape,
        enc: [u8; 32],
        chooser: [u8; 3],
        payload: [u8; 240],
    ) -> (params: EchGreaseParams)
        ensures
            params@ == ech_body_of(
                shape.suites@,
                shape.payload_lens@,
                enc@,
                chooser@,
                payload@,
            ),
    {
        let suite = if shape.suites.len() == 0 {
            (HPKE_KDF_HKDF_SHA256, HPKE_AEAD_AES_128_GCM)
        } else {
            shape.suites[chooser[1] as usize % shape.suites.len()]
        };
        let length: usize = if shape.payload_lens.len() == 0 {
            128
        } else {
            shape.payload_lens[chooser[2] as usize % shape.payload_lens.len()]
        };
        let payload_len = ECH_GREASE_TAG_LEN + if length > MAX_ECH_GREASE_PLAINTEXT {
            MAX_ECH_GREASE_PLAINTEXT
        } else {
            length
        };
        EchGreaseParams { enc, config_id: chooser[0], suite, payload_len, payload }
    }

    /// The parameters that three chooser bytes and a payload make of the
    /// candidates that the shipped profiles draw from.
    pub fn new(enc: [u8; 32], chooser: [u8; 3], payload: [u8; 240]) -> (params: EchGreaseParams)
        ensures
            params@ == ech_body_of(
                chrome_ech_suites(),
                chrome_ech_payload_lens(),
                enc@,
                chooser@,
                payload@,
            ),
    {
        Self::for_shape(&chrome_ech_grease(), enc, chooser, payload)
    }

    /// Append the extension body.
    pub fn write_body(&self, out: &mut Vec<u8>)
        ensures
            final(out)@ == old(out)@ + self@,
    {
        proof {
            use_type_invariant(self);
        }
        out.push(0x00);
        push_u16(out, self.suite.0);
        push_u16(out, self.suite.1);
        out.push(self.config_id);
        push_u16(out, 32);
        push_bytes(out, self.enc.as_slice());
        push_u16(out, self.payload_len as u16);
        push_bytes(out, vstd::slice::slice_subrange(self.payload.as_slice(), 0, self.payload_len));
        assert(out@ =~= old(out)@ + self@);
    }
}

impl GreaseValues {
    /// The values of a connection with a random seed.
    pub fn random() -> (values: GreaseValues)
        ensures
            exists|seed: [u8; 5]| values@ == separated(#[trigger] seed@),
    {
        let seed: [u8; 5] = random_bytes();
        let values = GreaseValues::from_seed(seed);
        assert(values@ == separated(seed@));
        values
    }
}

/// The per-connection values that the slots need.
pub struct HelloSession<'a> {
    pub client_random: &'a [u8; 32],
    pub session_id: &'a [u8; 32],
    pub server_name: &'a str,
    pub alpn_protocols: &'a [&'a str],
    /// One entry per group the profile's `key_share` names.
    pub key_shares: &'a [(NamedGroup, Vec<u8>)],
    pub grease: GreaseValues,
    pub ech_grease: EchGreaseParams,
    /// Drives the extension permutation.
    pub permutation_seed: u64,
}

/// What a session holds, with strings and lists as sequences.
pub struct SessionShape {
    pub client_random: Seq<u8>,
    pub session_id: Seq<u8>,
    /// The bytes of the server name.
    pub server_name: Seq<u8>,
    /// The bytes of each protocol name.
    pub alpn_protocols: Seq<Seq<u8>>,
    pub key_shares: Seq<(NamedGroup, Seq<u8>)>,
    /// The GREASE seed.
    pub grease: Seq<u8>,
    /// The body of the ECH GREASE extension.
    pub ech_body: Seq<u8>,
    pub permutation_seed: u64,
}

/// The names of protocols, each as its bytes.
pub open spec fn protocol_names(protocols: Seq<&str>) -> Seq<Seq<u8>> {
    Seq::new(protocols.len(), |i: int| protocols[i].spec_bytes())
}

/// Key shares with their bytes as sequences.
pub open spec fn share_shapes(shares: Seq<(NamedGroup, Vec<u8>)>) -> Seq<(NamedGroup, Seq<u8>)> {
    Seq::new(shares.len(), |i: int| (shares[i].0, shares[i].1@))
}

impl<'a> View for HelloSession<'a> {
    type V = SessionShape;

    open spec fn view(&self) -> SessionShape {
        SessionShape {
            client_random: self.client_random@,
            session_id: self.session_id@,
            server_name: self.server_name.spec_bytes(),
            alpn_protocols: protocol_names(self.alpn_protocols@),
            key_shares: share_shapes(self.key_shares@),
            grease: self.grease@,
            ech_body: self.ech_grease@,
            permutation_seed: self.permutation_seed,
        }
    }
}

/// The share that stands first for `group`.
pub open spec fn share_of(shares: Seq<(NamedGroup, Seq<u8>)>, group: NamedGroup) -> Option<Seq<u8>>
    decreases shares.len(),
{
    if shares.len() == 0 {
        None
    } else if shares[0].0 == group {
        Some(shares[0].1)
    } else {
        share_of(shares.drop_first(), group)
    }
}

/// The fault for a share that the session lacks.
pub open spec fn missing_share(group: NamedGroup) -> Fault {
    invalid_input(
        "REALITY hello profile names a "@ + group.spec_name()
            + " key share the session did not generate"@,
    )
}

impl<'a> HelloSession<'a> {
    /// The share that the session made for `group`.
    pub fn key_share(&self, group: NamedGroup) -> (result: Result<&[u8], WireError>)
        ensures
            match share_of(self@.key_shares, group) {
                Some(share) => result matches Ok(bytes) && bytes@ == share,
                None => result matches Err(error) && error@ == missing_share(group),
            },
    {
        let ghost shares = self@.key_shares;
        assert(shares.skip(0) =~= shares);
        for i in 0..self.key_shares.len()
            invariant
                shares == share_shapes(self.key_shares@),
                share_of(shares, group) == share_of(shares.skip(i as int), group),
        {
            assert(shares.skip(i as int).drop_first() =~= shares.skip(i + 1));
            if self.key_shares[i].0 == group {
                return Ok(self.key_shares[i].1.as_slice());
            }
        }
        let mut message = text_of("REALITY hello profile names a ");
        message.append(group.name());
        message.append(" key share the session did not generate");
        Err(WireError { kind: ErrorKind::InvalidInput, message })
    }
}

/// An extension on the wire: type, length, body.
pub open spec fn extension_bytes(extension_type: u16, body: Seq<u8>) -> Result<Seq<u8>, Fault> {
    if body.len() > 65535 {
        Err(
            invalid_input(
                "REALITY ClientHello extension 0x"@ + hex_word(extension_type)
                    + " exceeds 65535 bytes"@,
            ),
        )
    } else {
        Ok(be16(extension_type) + be16(body.len() as u16) + body)
    }
}

/// Append an extension.
pub fn write_extension(out: &mut Vec<u8>, extension_type: u16, body: &[u8]) -> (result: Result<
    (),
    WireError,
>)
    ensures
        match extension_bytes(extension_type, body@) {
            Ok(bytes) => result is Ok && final(out)@ == old(out)@ + bytes,
            Err(fault) => result matches Err(error) && error@ == fault && final(out)@ == old(out)@,
        },
{
    if body.len() > 65535 {
        let mut message = text_of("REALITY ClientHello extension 0x");
        push_hex_word(&mut message, extension_type);
        message.append(" exceeds 65535 bytes");
        return Err(WireError { kind: ErrorKind::InvalidInput, message });
    }
    push_u16(out, extension_type);
    push_u16(out, body.len() as u16);
    push_bytes(out, body);
    assert(out@ =~= old(out)@ + (be16(extension_type) + be16(body@.len() as u16) + body@));
    Ok(())
}

/// The code point that a group slot stands for.
pub open spec fn group_point(slot: GroupSlot, grease: Seq<u8>) -> u16 {
    match slot {
        GroupSlot::Grease => grease_value(grease, GreaseSlot::Group),
        GroupSlot::Group(group) => group.spec_id(),
    }
}

/// The code points of the first `n` group slots.
pub open spec fn group_list(slots: Seq<GroupSlot>, grease: Seq<u8>, n: nat) -> Seq<u8>
    decreases n,
{
    if n == 0 {
        Seq::empty()
    } else {
        group_list(slots, grease, (n - 1) as nat) + be16(group_point(slots[n - 1], grease))
    }
}

/// The code point that a version slot stands for.
pub open spec fn version_point(slot: VersionSlot, grease: Seq<u8>) -> u16 {
    match slot {
        VersionSlot::Grease => grease_value(grease, GreaseSlot::Version),
        VersionSlot::Version(version) => version,
    }
}

/// The code points of the first `n` version slots.
pub open spec fn version_list(slots: Seq<VersionSlot>, grease: Seq<u8>, n: nat) -> Seq<u8>
    decreases n,
{
    if n == 0 {
        Seq::empty()
    } else {
        version_list(slots, grease, (n - 1) as nat) + be16(version_point(slots[n - 1], grease))
    }
}

/// The code point and the bytes of a key share entry. A GREASE share is one
/// zero byte, because an empty one is illegal.
pub open spec fn share_entry(slot: KeyShareSlot, session: SessionShape) -> Result<
    (u16, Seq<u8>),
    Fault,
> {
    match slot {
        KeyShareSlot::Grease => Ok((grease_value(session.grease, GreaseSlot::Group), seq![0u8])),
        KeyShareSlot::Group(group) => match share_of(session.key_shares, group) {
            Some(share) => Ok((group.spec_id(), share)),
            None => Err(missing_share(group)),
        },
    }
}

/// The first `n` key share entries on the wire.
pub open spec fn share_list(slots: Seq<KeyShareSlot>, session: SessionShape, n: nat) -> Result<
    Seq<u8>,
    Fault,
>
    decreases n,
{
    if n == 0 {
        Ok(Seq::empty())
    } else {
        match share_list(slots, session, (n - 1) as nat) {
            Err(fault) => Err(fault),
            Ok(before) => match share_entry(slots[n - 1], session) {
                Err(fault) => Err(fault),
                Ok((point, share)) => if share.len() > 65535 {
                    Err(invalid_input("REALITY key share exceeds 65535 bytes"@))
                } else {
                    Ok(before + be16(point) + be16(share.len() as u16) + share)
                },
            },
        }
    }
}

/// The first `n` ALPN protocols on the wire, each behind its length.
pub open spec fn protocol_list(protocols: Seq<Seq<u8>>, n: nat) -> Result<Seq<u8>, Fault>
    decreases n,
{
    if n == 0 {
        Ok(Seq::empty())
    } else {
        match protocol_list(protocols, (n - 1) as nat) {
            Err(fault) => Err(fault),
            Ok(before) => {
                let name = protocols[n - 1];
                if name.len() > 255 {
                    Err(invalid_input("REALITY ALPN protocol exceeds 255 bytes"@))
                } else {
                    Ok(before.push(name.len() as u8) + name)
                }
            },
        }
    }
}

/// A list behind its 16-bit length.
pub open spec fn with_length(list: Seq<u8>) -> Seq<u8> {
    be16(list.len() as u16) + list
}

/// The type and the body that a slot has in a session.
pub open spec fn slot_content(slot: SlotShape, session: SessionShape) -> Result<
    (u16, Seq<u8>),
    Fault,
> {
    match slot {
        SlotShape::Constant { extension_type, body } => Ok((extension_type, body)),
        SlotShape::Grease { slot, body } => Ok((grease_value(session.grease, slot), body)),
        SlotShape::ServerName => {
            let name = session.server_name;
            if name.len() > 65535 {
                Err(invalid_input("REALITY SNI is too long"@))
            } else {
                Ok(
                    (
                        SERVER_NAME,
                        be16(((name.len() + 3) % 65536) as u16) + seq![0u8] + be16(
                            name.len() as u16,
                        ) + name,
                    ),
                )
            }
        },
        SlotShape::SupportedGroups(groups) => Ok(
            (
                SUPPORTED_GROUPS,
                be16((groups.len() * 2 % 65536) as u16) + group_list(
                    groups,
                    session.grease,
                    groups.len(),
                ),
            ),
        ),
        SlotShape::KeyShare(entries) => match share_list(entries, session, entries.len()) {
            Err(fault) => Err(fault),
            Ok(list) => if list.len() > 65535 {
                Err(invalid_input("REALITY key share list exceeds 65535 bytes"@))
            } else {
                Ok((KEY_SHARE, with_length(list)))
            },
        },
        SlotShape::Alpn => match protocol_list(
            session.alpn_protocols,
            session.alpn_protocols.len(),
        ) {
            Err(fault) => Err(fault),
            Ok(list) => if list.len() > 65535 {
                Err(invalid_input("REALITY ALPN list exceeds 65535 bytes"@))
            } else {
                Ok((ALPN, with_length(list)))
            },
        },
        SlotShape::SupportedVersions(versions) => Ok(
            (
                SUPPORTED_VERSIONS,
                seq![(versions.len() * 2 % 256) as u8] + version_list(
                    versions,
                    session.grease,
                    versions.len(),
                ),
            ),
        ),
        SlotShape::EchGrease => Ok((ENCRYPTED_CLIENT_HELLO, session.ech_body)),
        SlotShape::Padding => Ok((0, Seq::empty())),
    }
}

/// The bytes that a slot writes. Padding writes nothing: its length depends on
/// the finished hello.
pub open spec fn slot_bytes(slot: SlotShape, session: SessionShape) -> Result<Seq<u8>, Fault> {
    if slot is Padding {
        Ok(Seq::empty())
    } else {
        match slot_content(slot, session) {
            Err(fault) => Err(fault),
            Ok((extension_type, body)) => extension_bytes(extension_type, body),
        }
    }
}

fn server_name_body(name: &[u8]) -> (body: Vec<u8>)
    requires
        name@.len() <= 65535,
    ensures
        body@ == be16(((name@.len() + 3) % 65536) as u16) + seq![0u8] + be16(name@.len() as u16)
            + name@,
{
    let name_len = name.len() as u16;
    let mut body: Vec<u8> = Vec::new();
    push_u16(&mut body, name_len.wrapping_add(3));
    body.push(0x00);
    push_u16(&mut body, name_len);
    push_bytes(&mut body, name);
    assert(body@ =~= be16(((name@.len() + 3) % 65536) as u16) + seq![0u8] + be16(
        name@.len() as u16,
    ) + name@);
    body
}

fn supported_groups_body(groups: &Vec<GroupSlot>, grease: &GreaseValues) -> (body: Vec<u8>)
    ensures
        body@ == be16((groups@.len() * 2 % 65536) as u16) + group_list(
            groups@,
            grease@,
            groups@.len(),
        ),
{
    let mut body: Vec<u8> = Vec::new();
    proof {
        vstd::arithmetic::div_mod::lemma_truncate_middle(groups@.len() as int, 2, 32768);
    }
    push_u16(&mut body, (groups.len() % 32768 * 2) as u16);
    let ghost length = be16((groups@.len() * 2 % 65536) as u16);
    assert(body@ =~= length);
    for i in 0..groups.len()
        invariant
            body@ == length + group_list(groups@, grease@, i as nat),
    {
        let id = match groups[i] {
            GroupSlot::Grease => grease.value(GreaseSlot::Group),
            GroupSlot::Group(group) => group.id(),
        };
        push_u16(&mut body, id);
        assert(body@ =~= length + group_list(groups@, grease@, (i + 1) as nat));
    }
    body
}

fn supported_versions_body(versions: &Vec<VersionSlot>, grease: &GreaseValues) -> (body: Vec<u8>)
    ensures
        body@ == seq![(versions@.len() * 2 % 256) as u8] + version_list(
            versions@,
            grease@,
            versions@.len(),
        ),
{
    let mut body: Vec<u8> = Vec::new();
    body.push((versions.len() % 128 * 2) as u8);
    let ghost length = seq![(versions@.len() * 2 % 256) as u8];
    assert(body@ =~= length);
    for i in 0..versions.len()
        invariant
            body@ == length + version_list(versions@, grease@, i as nat),
    {
        let value = match versions[i] {
            VersionSlot::Grease => grease.value(GreaseSlot::Version),
            VersionSlot::Version(version) => version,
        };
        push_u16(&mut body, value);
        assert(body@ =~= length + version_list(versions@, grease@, (i + 1) as nat));
    }
    body
}

proof fn lemma_share_list_fault(slots: Seq<KeyShareSlot>, session: SessionShape, n: nat, m: nat)
    requires
        n <= m,
        share_list(slots, session, n) is Err,
    ensures
        share_list(slots, session, m) == share_list(slots, session, n),
    decreases m,
{
    if n < m {
        lemma_share_list_fault(slots, session, n, (m - 1) as nat);
    }
}

proof fn lemma_protocol_list_fault(protocols: Seq<Seq<u8>>, n: nat, m: nat)
    requires
        n <= m,
        protocol_list(protocols, n) is Err,
    ensures
        protocol_list(protocols, m) == protocol_list(protocols, n),
    decreases m,
{
    if n < m {
        lemma_protocol_list_fault(protocols, n, (m - 1) as nat);
    }
}

fn key_share_list(entries: &Vec<KeyShareSlot>, session: &HelloSession) -> (result: Result<
    Vec<u8>,
    WireError,
>)
    ensures
        match share_list(entries@, session@, entries@.len()) {
            Ok(list) => result matches Ok(bytes) && bytes@ == list,
            Err(fault) => result matches Err(error) && error@ == fault,
        },
{
    let grease_share: [u8; 1] = [0x00];
    let mut list: Vec<u8> = Vec::new();
    for i in 0..entries.len()
        invariant
            grease_share@ == seq![0u8],
            share_list(entries@, session@, i as nat) == Ok::<Seq<u8>, Fault>(list@),
    {
        let (id, share): (u16, &[u8]) = match entries[i] {
            KeyShareSlot::Grease => (
                session.grease.value(GreaseSlot::Group),
                grease_share.as_slice(),
            ),
            KeyShareSlot::Group(group) => match session.key_share(group) {
                Ok(share) => (group.id(), share),
                Err(error) => {
                    proof {
                        lemma_share_list_fault(
                            entries@,
                            session@,
                            (i + 1) as nat,
                            entries@.len(),
                        );
                    }
                    return Err(error);
                },
            },
        };
        if share.len() > 65535 {
            proof {
                lemma_share_list_fault(entries@, session@, (i + 1) as nat, entries@.len());
            }
            return Err(
                WireError::new(ErrorKind::InvalidInput, "REALITY key share exceeds 65535 bytes"),
            );
        }
        let ghost before = list@;
        push_u16(&mut list, id);
        push_u16(&mut list, share.len() as u16);
        push_bytes(&mut list, share);
        assert(list@ =~= before + be16(id) + be16(share@.len() as u16) + share@);
    }
    Ok(list)
}

fn alpn_list(protocols: &[&str]) -> (result: Result<Vec<u8>, WireError>)
    ensures
        match protocol_list(protocol_names(protocols@), protocols@.len()) {
            Ok(list) => result matches Ok(bytes) && bytes@ == list,
            Err(fault) => result matches Err(error) && error@ == fault,
        },
{
    let mut list: Vec<u8> = Vec::new();
    for i in 0..protocols.len()
        invariant
            protocol_list(protocol_names(protocols@), i as nat) == Ok::<Seq<u8>, Fault>(list@),
    {
        let name = protocols[i].as_bytes();
        if name.len() > 255 {
            proof {
                lemma_protocol_list_fault(
                    protocol_names(protocols@),
                    (i + 1) as nat,
                    protocols@.len(),
                );
            }
            return Err(
                WireError::new(ErrorKind::InvalidInput, "REALITY ALPN protocol exceeds 255 bytes"),
            );
        }
        let ghost before = list@;
        list.push(name.len() as u8);
        push_bytes(&mut list, name);
        assert(list@ =~= before.push(name@.len() as u8) + name@);
    }
    Ok(list)
}

fn length_prefixed(list: &Vec<u8>) -> (body: Vec<u8>)
    requires
        list@.len() <= 65535,
    ensures
        body@ == with_length(list@),
{
    let mut body: Vec<u8> = Vec::new();
    push_u16(&mut body, list.len() as u16);
    push_bytes(&mut body, list.as_slice());
    assert(body@ =~= with_length(list@));
    body
}

impl ExtensionSlot {
    /// Append this slot's wire bytes. Padding writes nothing here.
    pub fn encode(&self, session: &HelloSession, out: &mut Vec<u8>) -> (result: Result<
        (),
        WireError,
    >)
        ensures
            match slot_bytes(self@, session@) {
                Ok(bytes) => result is Ok && final(out)@ == old(out)@ + bytes,
                Err(fault) => result matches Err(error) && error@ == fault && final(out)@ == old(
                    out,
                )@,
            },
    {
        match self {
            ExtensionSlot::Padding => {
                assert(out@ =~= old(out)@ + Seq::<u8>::empty());
                Ok(())
            },
            ExtensionSlot::Constant { extension_type, body } => write_extension(
                out,
                *extension_type,
                body.as_slice(),
            ),
            ExtensionSlot::Grease { slot, body } => write_extension(
                out,
                session.grease.value(*slot),
                body.as_slice(),
            ),
            ExtensionSlot::ServerName => {
                let name = session.server_name.as_bytes();
                if name.len() > 65535 {
                    return Err(WireError::new(ErrorKind::InvalidInput, "REALITY SNI is too long"));
                }
                let body = server_name_body(name);
                write_extension(out, SERVER_NAME, body.as_slice())
            },
            ExtensionSlot::SupportedGroups(groups) => {
                let body = supported_groups_body(groups, &session.grease);
                write_extension(out, SUPPORTED_GROUPS, body.as_slice())
            },
            ExtensionSlot::KeyShare(entries) => {
                let list = match key_share_list(entries, session) {
                    Ok(list) => list,
                    Err(error) => {
                        return Err(error);
                    },
                };
                if list.len() > 65535 {
                    return Err(
                        WireError::new(
                            ErrorKind::InvalidInput,
                            "REALITY key share list exceeds 65535 bytes",
                        ),
                    );
                }
                let body = length_prefixed(&list);
                write_extension(out, KEY_SHARE, body.as_slice())
            },
            ExtensionSlot::Alpn => {
                let list = match alpn_list(session.alpn_protocols) {
                    Ok(list) => list,
                    Err(error) => {
                        return Err(error);
                    },
                };
                if list.len() > 65535 {
                    return Err(
                        WireError::new(
                            ErrorKind::InvalidInput,
                            "REALITY ALPN list exceeds 65535 bytes",
                        ),
                    );
                }
                let body = length_prefixed(&list);
                write_extension(out, ALPN, body.as_slice())
            },
            ExtensionSlot::SupportedVersions(versions) => {
                let body = supported_versions_body(versions, &session.grease);
                write_extension(out, SUPPORTED_VERSIONS, body.as_slice())
            },
            ExtensionSlot::EchGrease => {
                let mut body: Vec<u8> = Vec::new();
                session.ech_grease.write_body(&mut body);
                assert(body@ =~= session@.ech_body);
                write_extension(out, ENCRYPTED_CLIENT_HELLO, body.as_slice())
            },
        }
    }
}

/// The id that a cipher suite slot stands for.
pub open spec fn suite_point(slot: CipherSuiteSlot, grease: Seq<u8>) -> u16 {
    match slot {
        CipherSuiteSlot::Grease => grease_value(grease, GreaseSlot::Cipher),
        CipherSuiteSlot::Negotiable(id) => id,
        CipherSuiteSlot::Decorative(id) => id,
    }
}

/// The ids of the first `n` cipher suite slots.
pub open spec fn suite_list(slots: Seq<CipherSuiteSlot>, grease: Seq<u8>, n: nat) -> Seq<u8>
    decreases n,
{
    if n == 0 {
        Seq::empty()
    } else {
        suite_list(slots, grease, (n - 1) as nat) + be16(suite_point(slots[n - 1], grease))
    }
}

/// The extensions at the first `n` places of `order`, one after another.
pub open spec fn extension_list(
    extensions: Seq<SlotShape>,
    order: Seq<usize>,
    session: SessionShape,
    n: nat,
) -> Result<Seq<u8>, Fault>
    decreases n,
{
    if n == 0 {
        Ok(Seq::empty())
    } else {
        match extension_list(extensions, order, session, (n - 1) as nat) {
            Err(fault) => Err(fault),
            Ok(before) => match slot_bytes(extensions[order[n - 1] as int], session) {
                Err(fault) => Err(fault),
                Ok(bytes) => Ok(before + bytes),
            },
        }
    }
}

/// The body of a hello up to its extensions: version, random, session id,
/// cipher suites, compression methods.
pub open spec fn hello_front(profile: ProfileShape, session: SessionShape) -> Seq<u8> {
    let suites = suite_list(profile.cipher_suites, session.grease, profile.cipher_suites.len());
    seq![VERSION_TLS_1_2_MAJOR, VERSION_TLS_1_2_MINOR] + session.client_random + seq![32u8]
        + session.session_id + be16(suites.len() as u16) + suites + seq![1u8, 0u8]
}

/// Whether the table closes with a padding slot, the only place that padding
/// may have.
pub open spec fn closes_with_padding(extensions: Seq<SlotShape>) -> bool {
    extensions.len() > 0 && extensions.last() is Padding
}

/// The whole extension block, without its length. It is padded only where the
/// table has a slot for padding.
pub open spec fn hello_extensions(profile: ProfileShape, session: SessionShape) -> Result<
    Seq<u8>,
    Fault,
> {
    let order = order_of(profile, session.permutation_seed);
    match extension_list(profile.extensions, order, session, order.len()) {
        Err(fault) => Err(fault),
        Ok(list) => if closes_with_padding(profile.extensions) {
            Ok(
                list + padding_bytes(
                    (4 + hello_front(profile, session).len() + 2 + list.len()) as int,
                ),
            )
        } else {
            Ok(list)
        },
    }
}

/// The ClientHello message that a profile and a session make, without a record
/// header.
pub open spec fn client_hello_message(profile: ProfileShape, session: SessionShape) -> Result<
    Seq<u8>,
    Fault,
> {
    match profile_verdict(profile) {
        Err(fault) => Err(fault),
        Ok(_) => if profile.cipher_suites.len() * 2 > 65535 {
            Err(
                invalid_input(
                    "REALITY hello profile offers more cipher suites than a ClientHello can carry"@,
                ),
            )
        } else {
            match hello_extensions(profile, session) {
                Err(fault) => Err(fault),
                Ok(extensions) => if extensions.len() > 65535 {
                    Err(invalid_input("REALITY ClientHello extensions exceed 65535 bytes"@))
                } else {
                    let body = hello_front(profile, session) + with_length(extensions);
                    Ok(seq![1u8] + be24(body.len() as int) + body)
                },
            }
        },
    }
}

pub proof fn lemma_suite_list_len(slots: Seq<CipherSuiteSlot>, grease: Seq<u8>, n: nat)
    ensures
        suite_list(slots, grease, n).len() == 2 * n,
    decreases n,
{
    if n > 0 {
        lemma_suite_list_len(slots, grease, (n - 1) as nat);
    }
}

proof fn lemma_extension_list_fault(
    extensions: Seq<SlotShape>,
    order: Seq<usize>,
    session: SessionShape,
    n: nat,
    m: nat,
)
    requires
        n <= m,
        extension_list(extensions, order, session, n) is Err,
    ensures
        extension_list(extensions, order, session, m) == extension_list(
            extensions,
            order,
            session,
            n,
        ),
    decreases m,
{
    if n < m {
        lemma_extension_list_fault(extensions, order, session, n, (m - 1) as nat);
    }
}

fn front_bytes(profile: &HelloProfile, session: &HelloSession, suites: &Vec<u8>) -> (front: Vec<u8>)
    requires
        suites@ == suite_list(
            profile@.cipher_suites,
            session@.grease,
            profile@.cipher_suites.len(),
        ),
        suites@.len() <= 65535,
    ensures
        front@ == hello_front(profile@, session@),
{
    let mut front: Vec<u8> = Vec::new();
    front.push(VERSION_TLS_1_2_MAJOR);
    front.push(VERSION_TLS_1_2_MINOR);
    push_bytes(&mut front, session.client_random.as_slice());
    front.push(HELLO_SESSION_ID_LEN as u8);
    push_bytes(&mut front, session.session_id.as_slice());
    push_u16(&mut front, suites.len() as u16);
    push_bytes(&mut front, suites.as_slice());
    front.push(0x01);
    front.push(0x00);
    assert(front@ =~= hello_front(profile@, session@));
    front
}

fn suite_bytes(profile: &HelloProfile, grease: &GreaseValues) -> (suites: Vec<u8>)
    ensures
        suites@ == suite_list(profile@.cipher_suites, grease@, profile@.cipher_suites.len()),
{
    let mut suites: Vec<u8> = Vec::new();
    for i in 0..profile.cipher_suites.len()
        invariant
            suites@ == suite_list(profile@.cipher_suites, grease@, i as nat),
    {
        let id = match profile.cipher_suites[i] {
            CipherSuiteSlot::Grease => grease.value(GreaseSlot::Cipher),
            CipherSuiteSlot::Negotiable(id) => id,
            CipherSuiteSlot::Decorative(id) => id,
        };
        push_u16(&mut suites, id);
    }
    suites
}

fn ordered_extensions(profile: &HelloProfile, session: &HelloSession) -> (result: Result<
    Vec<u8>,
    WireError,
>)
    ensures
        match extension_list(
            profile@.extensions,
            order_of(profile@, session.permutation_seed),
            session@,
            order_of(profile@, session.permutation_seed).len(),
        ) {
            Ok(list) => result matches Ok(bytes) && bytes@ == list,
            Err(fault) => result matches Err(error) && error@ == fault,
        },
{
    let order = extension_order(profile, session.permutation_seed);
    let ghost shapes = profile@.extensions;
    let mut list: Vec<u8> = Vec::new();
    for i in 0..order.len()
        invariant
            shapes == profile@.extensions,
            order@ == order_of(profile@, session.permutation_seed),
            forall|k: int| 0 <= k < order@.len() ==> (#[trigger] order@[k]) < shapes.len(),
            extension_list(shapes, order@, session@, i as nat) == Ok::<Seq<u8>, Fault>(list@),
    {
        let index = order[i];
        assert(shapes[index as int] == profile.extensions@[index as int]@);
        if let Err(error) = profile.extensions[index].encode(session, &mut list) {
            proof {
                lemma_extension_list_fault(
                    shapes,
                    order@,
                    session@,
                    (i + 1) as nat,
                    order@.len(),
                );
            }
            return Err(error);
        }
    }
    Ok(list)
}

fn has_padding_slot(extensions: &Vec<ExtensionSlot>) -> (found: bool)
    ensures
        found == closes_with_padding(slot_shapes(extensions@)),
{
    if extensions.len() == 0 {
        return false;
    }
    match &extensions[extensions.len() - 1] {
        ExtensionSlot::Padding => true,
        _ => false,
    }
}

/// Construct a TLS 1.3 ClientHello by executing a profile.
///
/// Returns the handshake message, without a record header. The extension set
/// and the padding are the table's: a profile without a padding slot is not
/// padded.
pub fn construct_client_hello(profile: &HelloProfile, session: &HelloSession) -> (result: Result<
    Vec<u8>,
    WireError,
>)
    ensures
        match client_hello_message(profile@, session@) {
            Ok(message) => result matches Ok(bytes) && bytes@ == message,
            Err(fault) => result matches Err(error) && error@ == fault,
        },
{
    if let Err(error) = profile.validate() {
        return Err(error);
    }
    let suites = suite_bytes(profile, &session.grease);
    proof {
        lemma_suite_list_len(
            profile@.cipher_suites,
            session@.grease,
            profile@.cipher_suites.len(),
        );
    }
    if suites.len() > 65535 {
        return Err(
            WireError::new(
                ErrorKind::InvalidInput,
                "REALITY hello profile offers more cipher suites than a ClientHello can carry",
            ),
        );
    }
    let front = front_bytes(profile, session, &suites);
    let mut extensions = match ordered_extensions(profile, session) {
        Ok(list) => list,
        Err(error) => {
            return Err(error);
        },
    };
    // Everything but the extensions themselves is the handshake header, the
    // front and the two bytes of the extensions' length.
    let unpadded_len = (4 + front.len() + 2).saturating_add(extensions.len());
    if has_padding_slot(&profile.extensions) {
        let _ = write_padding(&mut extensions, unpadded_len);
    }
    assert(hello_extensions(profile@, session@) == Ok::<Seq<u8>, Fault>(extensions@));
    if extensions.len() > 65535 {
        return Err(
            WireError::new(
                ErrorKind::InvalidInput,
                "REALITY ClientHello extensions exceed 65535 bytes",
            ),
        );
    }
    let message_length = front.len() + 2 + extensions.len();
    let mut hello: Vec<u8> = Vec::with_capacity(2048);
    hello.push(0x01);
    push_u24(&mut hello, message_length);
    push_bytes(&mut hello, front.as_slice());
    push_u16(&mut hello, extensions.len() as u16);
    push_bytes(&mut hello, extensions.as_slice());
    let ghost body = hello_front(profile@, session@) + with_length(extensions@);
    assert(hello@ =~= seq![1u8] + be24(body.len() as int) + body);
    Ok(hello)
}

/// Whether the session id of `hello` stands in its constant window.
pub open spec fn session_id_in_window(hello: Seq<u8>, session_id: Seq<u8>) -> bool {
    &&& hello.len() >= HELLO_SESSION_ID_OFFSET + HELLO_SESSION_ID_LEN
    &&& hello[HELLO_SESSION_ID_OFFSET - 1] == HELLO_SESSION_ID_LEN
    &&& hello.subrange(
        HELLO_SESSION_ID_OFFSET as int,
        HELLO_SESSION_ID_OFFSET + HELLO_SESSION_ID_LEN,
    ) == session_id
}

/// Check that the session id stands at [`HELLO_SESSION_ID_OFFSET`], where the
/// server looks for it.
pub fn assert_session_id_window(hello: &[u8], session_id: &[u8; 32]) -> (result: Result<
    (),
    WireError,
>)
    ensures
        result is Ok <==> session_id_in_window(hello@, session_id@),
        result matches Err(error) ==> error@ == (
            ErrorKind::Other,
            "REALITY ClientHello layout moved the session id away from its constant offset; the REALITY AAD would no longer match the server's"@,
        ),
{
    let end = HELLO_SESSION_ID_OFFSET + HELLO_SESSION_ID_LEN;
    if hello.len() < end || hello[HELLO_SESSION_ID_OFFSET - 1] as usize != HELLO_SESSION_ID_LEN
        || !bytes_equal(
        vstd::slice::slice_subrange(hello, HELLO_SESSION_ID_OFFSET, end),
        session_id.as_slice(),
    ) {
        return Err(
            WireError::new(
                ErrorKind::Other,
                "REALITY ClientHello layout moved the session id away from its constant offset; the REALITY AAD would no longer match the server's",
            ),
        );
    }
    Ok(())
}

proof fn lemma_front(profile: ProfileShape, session: SessionShape)
    requires
        session.client_random.len() == 32,
        session.session_id.len() == 32,
    ensures
        ({
            let front = hello_front(profile, session);
            &&& front.subrange(2, 34) == session.client_random
            &&& front[34] == 32
            &&& front.subrange(35, 67) == session.session_id
            &&& front.len() == 71 + 2 * profile.cipher_suites.len()
        }),
{
    let suites = suite_list(profile.cipher_suites, session.grease, profile.cipher_suites.len());
    lemma_suite_list_len(profile.cipher_suites, session.grease, profile.cipher_suites.len());
    let head = seq![VERSION_TLS_1_2_MAJOR, VERSION_TLS_1_2_MINOR] + session.client_random
        + seq![32u8] + session.session_id;
    let tail = be16(suites.len() as u16) + suites + seq![1u8, 0u8];
    let front = hello_front(profile, session);
    assert(front =~= head + tail);
    assert(head.len() == 67);
    assert(front.subrange(2, 34) =~= session.client_random);
    assert(front.subrange(35, 67) =~= session.session_id);
}

spec fn framed(front: Seq<u8>, extensions: Seq<u8>) -> Seq<u8> {
    let body = front + with_length(extensions);
    seq![1u8] + be24(body.len() as int) + body
}

proof fn lemma_framed(front: Seq<u8>, extensions: Seq<u8>)
    requires
        67 <= front.len() <= 70000,
        extensions.len() <= 65535,
    ensures
        ({
            let message = framed(front, extensions);
            &&& message.len() == front.len() + extensions.len() + 6
            &&& message.subrange(6, 38) == front.subrange(2, 34)
            &&& message[38] == front[34]
            &&& message.subrange(39, 71) == front.subrange(35, 67)
            &&& read24(message, 1) == message.len() - 4
        }),
{
    let message = framed(front, extensions);
    assert(message.subrange(6, 38) =~= front.subrange(2, 34));
    assert(message.subrange(39, 71) =~= front.subrange(35, 67));
    assert(message.len() - 4 < 16777216);
}

/// Every hello that a profile makes has its session id in the window that the
/// server and the authentication code read it from, and declares its own
/// length.
pub proof fn hello_keeps_the_session_id_window(profile: ProfileShape, session: SessionShape)
    requires
        session.client_random.len() == 32,
        session.session_id.len() == 32,
    ensures
        client_hello_message(profile, session) matches Ok(message) ==> {
            &&& session_id_in_window(message, session.session_id)
            &&& message.subrange(6, 38) == session.client_random
            &&& read24(message, 1) == message.len() - 4
        },
{
    if let Ok(message) = client_hello_message(profile, session) {
        let front = hello_front(profile, session);
        let extensions = hello_extensions(profile, session)->Ok_0;
        lemma_front(profile, session);
        lemma_framed(front, extensions);
        assert(message == framed(front, extensions));
    }
}

} // verus!
