//! The shipped profiles: the hellos of two Chrome builds.
use crate::reality::client_hello::{
    protocol_names,
    APPLICATION_SETTINGS, APPLICATION_SETTINGS_OLD, COMPRESS_CERTIFICATE, EC_POINT_FORMATS,
    EXTENDED_MASTER_SECRET, HPKE_AEAD_AES_128_GCM, HPKE_AEAD_CHACHA20_POLY1305,
    HPKE_KDF_HKDF_SHA256, PSK_KEY_EXCHANGE_MODES, RENEGOTIATION_INFO, SESSION_TICKET,
    SIGNATURE_ALGORITHMS, SIGNED_CERTIFICATE_TIMESTAMP, STATUS_REQUEST,
};
use crate::reality::grease::GreaseSlot;
use crate::reality::group::NamedGroup;
use crate::reality::hello_profile::{
    advertised_groups, entry_groups, first_extension_complaint, first_share_complaint,
    first_suite_complaint, first_unadvertised, grease_slots, key_share_count, negotiable_suites,
    profile_verdict, shared_groups, slot_shapes, CipherSuiteSlot, EchGreaseShape, ExtensionSlot,
    GroupSlot, HelloProfile, KeyShareSlot, ProfileShape, SlotShape, VersionSlot, TLS_1_2, TLS_1_3,
};
use vstd::prelude::*;
use vstd::string::*;
use vstd::utf8::encode_utf8;

verus! {

/// Which hello a connection writes.
#[derive(Clone, Copy, Debug, PartialEq, Eq, Structural)]
pub enum RealityHelloProfile {
    Chrome133,
    Chrome131,
}

impl Default for RealityHelloProfile {
    fn default() -> (profile: RealityHelloProfile)
        ensures
            profile == RealityHelloProfile::Chrome133,
    {
        RealityHelloProfile::Chrome133
    }
}

/// The suites that Chrome offers, its GREASE entry first.
pub open spec fn chrome_suites() -> Seq<CipherSuiteSlot> {
    seq![
        CipherSuiteSlot::Grease,
        CipherSuiteSlot::Negotiable(0x1301),
        CipherSuiteSlot::Negotiable(0x1302),
        CipherSuiteSlot::Negotiable(0x1303),
        CipherSuiteSlot::Decorative(0xc02b),
        CipherSuiteSlot::Decorative(0xc02f),
        CipherSuiteSlot::Decorative(0xc02c),
        CipherSuiteSlot::Decorative(0xc030),
        CipherSuiteSlot::Decorative(0xcca9),
        CipherSuiteSlot::Decorative(0xcca8),
        CipherSuiteSlot::Decorative(0xc013),
        CipherSuiteSlot::Decorative(0xc014),
        CipherSuiteSlot::Decorative(0x009c),
        CipherSuiteSlot::Decorative(0x009d),
        CipherSuiteSlot::Decorative(0x002f),
        CipherSuiteSlot::Decorative(0x0035),
    ]
}

/// The groups that Chrome names.
pub open spec fn chrome_groups() -> Seq<GroupSlot> {
    seq![
        GroupSlot::Grease,
        GroupSlot::Group(NamedGroup::X25519MlKem768),
        GroupSlot::Group(NamedGroup::X25519),
        GroupSlot::Group(NamedGroup::Secp256r1),
        GroupSlot::Group(NamedGroup::Secp384r1),
    ]
}

/// The shares that Chrome sends.
pub open spec fn chrome_shares() -> Seq<KeyShareSlot> {
    seq![
        KeyShareSlot::Grease,
        KeyShareSlot::Group(NamedGroup::X25519MlKem768),
        KeyShareSlot::Group(NamedGroup::X25519),
    ]
}

/// The versions that Chrome offers.
pub open spec fn chrome_versions() -> Seq<VersionSlot> {
    seq![VersionSlot::Grease, VersionSlot::Version(TLS_1_3), VersionSlot::Version(TLS_1_2)]
}

/// The eight signature schemes that Chrome offers, behind their length.
pub open spec fn chrome_signature_algorithms() -> Seq<u8> {
    seq![
        0x00u8,
        0x10u8,
        0x04u8,
        0x03u8,
        0x08u8,
        0x04u8,
        0x04u8,
        0x01u8,
        0x05u8,
        0x03u8,
        0x08u8,
        0x05u8,
        0x05u8,
        0x01u8,
        0x08u8,
        0x06u8,
        0x06u8,
        0x01u8,
    ]
}

/// Chrome's extension table. Only the `application_settings` code point differs
/// between the two builds.
pub open spec fn chrome_extensions(application_settings: u16) -> Seq<SlotShape> {
    seq![
        SlotShape::Grease { slot: GreaseSlot::Extension1, body: Seq::empty() },
        SlotShape::ServerName,
        SlotShape::Constant { extension_type: EXTENDED_MASTER_SECRET, body: Seq::empty() },
        SlotShape::Constant { extension_type: RENEGOTIATION_INFO, body: seq![0x00u8] },
        SlotShape::SupportedGroups(chrome_groups()),
        SlotShape::Constant { extension_type: EC_POINT_FORMATS, body: seq![0x01u8, 0x00u8] },
        SlotShape::Constant { extension_type: SESSION_TICKET, body: Seq::empty() },
        SlotShape::Alpn,
        SlotShape::Constant {
            extension_type: STATUS_REQUEST,
            body: seq![0x01u8, 0x00u8, 0x00u8, 0x00u8, 0x00u8],
        },
        SlotShape::Constant {
            extension_type: SIGNATURE_ALGORITHMS,
            body: chrome_signature_algorithms(),
        },
        SlotShape::Constant { extension_type: SIGNED_CERTIFICATE_TIMESTAMP, body: Seq::empty() },
        SlotShape::KeyShare(chrome_shares()),
        SlotShape::Constant { extension_type: PSK_KEY_EXCHANGE_MODES, body: seq![0x01u8, 0x01u8] },
        SlotShape::SupportedVersions(chrome_versions()),
        SlotShape::Constant {
            extension_type: COMPRESS_CERTIFICATE,
            body: seq![0x02u8, 0x00u8, 0x02u8],
        },
        SlotShape::Constant {
            extension_type: application_settings,
            body: seq![0x00u8, 0x03u8, 0x02u8, 0x68u8, 0x32u8],
        },
        SlotShape::EchGrease,
        SlotShape::Grease { slot: GreaseSlot::Extension2, body: seq![0x00u8] },
        SlotShape::Padding,
    ]
}

/// A Chrome profile.
pub open spec fn chrome_profile(name: Seq<char>, application_settings: u16) -> ProfileShape {
    ProfileShape {
        name,
        cipher_suites: chrome_suites(),
        extensions: chrome_extensions(application_settings),
        permute_extensions: true,
        ech_suites: chrome_ech_suites(),
        ech_payload_lens: chrome_ech_payload_lens(),
        reuse_classical_key_share: false,
    }
}

impl RealityHelloProfile {
    /// The name of the profile.
    pub fn name(self) -> (name: &'static str)
        ensures
            name@ == self.shape().name,
    {
        match self {
            RealityHelloProfile::Chrome133 => "chrome_133",
            RealityHelloProfile::Chrome131 => "chrome_131",
        }
    }

    pub open spec fn shape(self) -> ProfileShape {
        match self {
            RealityHelloProfile::Chrome133 => chrome_profile("chrome_133"@, APPLICATION_SETTINGS),
            RealityHelloProfile::Chrome131 => chrome_profile(
                "chrome_131"@,
                APPLICATION_SETTINGS_OLD,
            ),
        }
    }

    /// Every shipped profile.
    pub fn all() -> (profiles: Vec<RealityHelloProfile>)
        ensures
            profiles@ == seq![RealityHelloProfile::Chrome133, RealityHelloProfile::Chrome131],
    {
        let profiles: Vec<RealityHelloProfile> = vec![
            RealityHelloProfile::Chrome133,
            RealityHelloProfile::Chrome131,
        ];
        assert(profiles@ =~= seq![RealityHelloProfile::Chrome133, RealityHelloProfile::Chrome131]);
        profiles
    }

    /// The profile's table.
    pub fn table(self) -> (profile: HelloProfile)
        ensures
            profile@ == self.shape(),
    {
        match self {
            RealityHelloProfile::Chrome133 => chrome_table("chrome_133", APPLICATION_SETTINGS),
            RealityHelloProfile::Chrome131 => chrome_table("chrome_131", APPLICATION_SETTINGS_OLD),
        }
    }
}

/// The HPKE suites that ECH GREASE draws from: HKDF-SHA256 with AES-128-GCM or
/// ChaCha20-Poly1305.
pub open spec fn chrome_ech_suites() -> Seq<(u16, u16)> {
    seq![
        (HPKE_KDF_HKDF_SHA256, HPKE_AEAD_AES_128_GCM),
        (HPKE_KDF_HKDF_SHA256, HPKE_AEAD_CHACHA20_POLY1305),
    ]
}

/// The plaintext lengths that ECH GREASE draws from.
pub open spec fn chrome_ech_payload_lens() -> Seq<usize> {
    seq![128usize, 160usize, 192usize, 224usize]
}

/// The candidates that ECH GREASE draws from.
pub fn chrome_ech_grease() -> (shape: EchGreaseShape)
    ensures
        shape.suites@ == chrome_ech_suites(),
        shape.payload_lens@ == chrome_ech_payload_lens(),
{
    let suites: Vec<(u16, u16)> = vec![
        (HPKE_KDF_HKDF_SHA256, HPKE_AEAD_AES_128_GCM),
        (HPKE_KDF_HKDF_SHA256, HPKE_AEAD_CHACHA20_POLY1305),
    ];
    let payload_lens: Vec<usize> = vec![128, 160, 192, 224];
    assert(suites@ =~= chrome_ech_suites());
    assert(payload_lens@ =~= chrome_ech_payload_lens());
    EchGreaseShape { suites, payload_lens }
}

/// The ALPN list that both Chrome profiles send, each name as its bytes.
pub open spec fn alpn_names() -> Seq<Seq<u8>> {
    seq![encode_utf8("h2"@), encode_utf8("http/1.1"@)]
}

/// The ALPN list that both Chrome profiles send.
pub fn chrome_alpn_protocols() -> (protocols: Vec<&'static str>)
    ensures
        protocol_names(protocols@) == alpn_names(),
{
    let protocols: Vec<&'static str> = vec!["h2", "http/1.1"];
    assert(protocol_names(protocols@) =~= alpn_names());
    protocols
}

fn constant(extension_type: u16, body: Vec<u8>) -> (slot: ExtensionSlot)
    ensures
        slot@ == (SlotShape::Constant { extension_type, body: body@ }),
{
    ExtensionSlot::Constant { extension_type, body }
}

fn chrome_suite_table() -> (suites: Vec<CipherSuiteSlot>)
    ensures
        suites@ == chrome_suites(),
{
    let suites: Vec<CipherSuiteSlot> = vec![
        CipherSuiteSlot::Grease,
        CipherSuiteSlot::Negotiable(0x1301),
        CipherSuiteSlot::Negotiable(0x1302),
        CipherSuiteSlot::Negotiable(0x1303),
        CipherSuiteSlot::Decorative(0xc02b),
        CipherSuiteSlot::Decorative(0xc02f),
        CipherSuiteSlot::Decorative(0xc02c),
        CipherSuiteSlot::Decorative(0xc030),
        CipherSuiteSlot::Decorative(0xcca9),
        CipherSuiteSlot::Decorative(0xcca8),
        CipherSuiteSlot::Decorative(0xc013),
        CipherSuiteSlot::Decorative(0xc014),
        CipherSuiteSlot::Decorative(0x009c),
        CipherSuiteSlot::Decorative(0x009d),
        CipherSuiteSlot::Decorative(0x002f),
        CipherSuiteSlot::Decorative(0x0035),
    ];
    assert(suites@ =~= chrome_suites());
    suites
}

fn chrome_extension_table(application_settings: u16) -> (slots: Vec<ExtensionSlot>)
    ensures
        slot_shapes(slots@) == chrome_extensions(application_settings),
{
    let groups: Vec<GroupSlot> = vec![
        GroupSlot::Grease,
        GroupSlot::Group(NamedGroup::X25519MlKem768),
        GroupSlot::Group(NamedGroup::X25519),
        GroupSlot::Group(NamedGroup::Secp256r1),
        GroupSlot::Group(NamedGroup::Secp384r1),
    ];
    assert(groups@ =~= chrome_groups());
    let shares: Vec<KeyShareSlot> = vec![
        KeyShareSlot::Grease,
        KeyShareSlot::Group(NamedGroup::X25519MlKem768),
        KeyShareSlot::Group(NamedGroup::X25519),
    ];
    assert(shares@ =~= chrome_shares());
    let versions: Vec<VersionSlot> = vec![
        VersionSlot::Grease,
        VersionSlot::Version(TLS_1_3),
        VersionSlot::Version(TLS_1_2),
    ];
    assert(versions@ =~= chrome_versions());
    let schemes: Vec<u8> = vec![
        0x00, 0x10, 0x04, 0x03, 0x08, 0x04, 0x04, 0x01, 0x05, 0x03, 0x08, 0x05, 0x05, 0x01, 0x08,
        0x06, 0x06, 0x01,
    ];
    assert(schemes@ =~= chrome_signature_algorithms());
    let zero: Vec<u8> = vec![0x00];
    assert(zero@ =~= seq![0x00u8]);
    let info: Vec<u8> = vec![0x00];
    assert(info@ =~= seq![0x00u8]);
    let points: Vec<u8> = vec![0x01, 0x00];
    assert(points@ =~= seq![0x01u8, 0x00u8]);
    let status: Vec<u8> = vec![0x01, 0x00, 0x00, 0x00, 0x00];
    assert(status@ =~= seq![0x01u8, 0x00u8, 0x00u8, 0x00u8, 0x00u8]);
    let modes: Vec<u8> = vec![0x01, 0x01];
    assert(modes@ =~= seq![0x01u8, 0x01u8]);
    let compression: Vec<u8> = vec![0x02, 0x00, 0x02];
    assert(compression@ =~= seq![0x02u8, 0x00u8, 0x02u8]);
    let settings: Vec<u8> = vec![0x00, 0x03, 0x02, 0x68, 0x32];
    assert(settings@ =~= seq![0x00u8, 0x03u8, 0x02u8, 0x68u8, 0x32u8]);
    let slots: Vec<ExtensionSlot> = vec![
        ExtensionSlot::Grease { slot: GreaseSlot::Extension1, body: Vec::new() },
        ExtensionSlot::ServerName,
        constant(EXTENDED_MASTER_SECRET, Vec::new()),
        constant(RENEGOTIATION_INFO, info),
        ExtensionSlot::SupportedGroups(groups),
        constant(EC_POINT_FORMATS, points),
        constant(SESSION_TICKET, Vec::new()),
        ExtensionSlot::Alpn,
        constant(STATUS_REQUEST, status),
        constant(SIGNATURE_ALGORITHMS, schemes),
        constant(SIGNED_CERTIFICATE_TIMESTAMP, Vec::new()),
        ExtensionSlot::KeyShare(shares),
        constant(PSK_KEY_EXCHANGE_MODES, modes),
        ExtensionSlot::SupportedVersions(versions),
        constant(COMPRESS_CERTIFICATE, compression),
        constant(application_settings, settings),
        ExtensionSlot::EchGrease,
        ExtensionSlot::Grease { slot: GreaseSlot::Extension2, body: zero },
        ExtensionSlot::Padding,
    ];
    assert(slot_shapes(slots@) =~= chrome_extensions(application_settings));
    slots
}

fn chrome_table(name: &'static str, application_settings: u16) -> (profile: HelloProfile)
    ensures
        profile@ == chrome_profile(name@, application_settings),
{
    HelloProfile {
        name,
        cipher_suites: chrome_suite_table(),
        extensions: chrome_extension_table(application_settings),
        permute_extensions: true,
        ech_grease: chrome_ech_grease(),
        reuse_classical_key_share: false,
    }
}

proof fn lemma_chrome_suites()
    ensures
        first_suite_complaint(chrome_suites(), chrome_suites().len()) is None,
        negotiable_suites(chrome_suites(), chrome_suites().len()).len() == 3,
{
    reveal_with_fuel(first_suite_complaint, 17);
    reveal_with_fuel(negotiable_suites, 17);
}

proof fn lemma_chrome_extensions(application_settings: u16)
    ensures
        ({
            let extensions = chrome_extensions(application_settings);
            let n = extensions.len();
            &&& first_extension_complaint(extensions, n) is None
            &&& key_share_count(extensions, n) == 1
            &&& grease_slots(extensions, n) == seq![GreaseSlot::Extension1, GreaseSlot::Extension2]
            &&& shared_groups(extensions, n) == seq![NamedGroup::X25519MlKem768, NamedGroup::X25519]
            &&& advertised_groups(extensions, n) == chrome_groups()
        }),
{
    let extensions = chrome_extensions(application_settings);
    reveal_with_fuel(first_share_complaint, 4);
    reveal_with_fuel(entry_groups, 4);
    reveal_with_fuel(first_extension_complaint, 20);
    reveal_with_fuel(key_share_count, 20);
    reveal_with_fuel(grease_slots, 20);
    reveal_with_fuel(shared_groups, 20);
    reveal_with_fuel(advertised_groups, 20);
    assert(grease_slots(extensions, 19) =~= seq![GreaseSlot::Extension1, GreaseSlot::Extension2]);
    assert(entry_groups(chrome_shares(), 3) =~= seq![
        NamedGroup::X25519MlKem768,
        NamedGroup::X25519,
    ]);
    assert(shared_groups(extensions, 19) =~= seq![NamedGroup::X25519MlKem768, NamedGroup::X25519]);
}

/// Every shipped profile passes validation, offers the three implemented
/// suites and sends a hybrid and a plain X25519 share.
pub proof fn shipped_profiles_validate(profile: RealityHelloProfile)
    ensures
        profile_verdict(profile.shape()) is Ok,
        negotiable_suites(
            profile.shape().cipher_suites,
            profile.shape().cipher_suites.len(),
        ).len() == 3,
        shared_groups(profile.shape().extensions, profile.shape().extensions.len()) == seq![
            NamedGroup::X25519MlKem768,
            NamedGroup::X25519,
        ],
{
    lemma_chrome_suites();
    lemma_chrome_extensions(APPLICATION_SETTINGS);
    lemma_chrome_extensions(APPLICATION_SETTINGS_OLD);
    let shared = seq![NamedGroup::X25519MlKem768, NamedGroup::X25519];
    let advertised = chrome_groups();
    reveal_with_fuel(first_unadvertised, 3);
    assert(advertised[1] == GroupSlot::Group(shared[0]));
    assert(advertised[2] == GroupSlot::Group(shared[1]));
    assert(advertised.contains(GroupSlot::Group(shared[0])));
    assert(advertised.contains(GroupSlot::Group(shared[1])));
}

/// The two Chrome builds differ in their name and in one code point only.
pub proof fn chrome_builds_differ_in_one_code_point()
    ensures
        ({
            let newer = RealityHelloProfile::Chrome133.shape();
            let older = RealityHelloProfile::Chrome131.shape();
            &&& newer.cipher_suites == older.cipher_suites
            &&& newer.permute_extensions == older.permute_extensions
            &&& newer.extensions.len() == older.extensions.len()
            &&& forall|i: int|
                0 <= i < newer.extensions.len() && i != 15 ==> newer.extensions[i]
                    == older.extensions[i]
            &&& newer.extensions[15]->Constant_extension_type == APPLICATION_SETTINGS
            &&& older.extensions[15]->Constant_extension_type == APPLICATION_SETTINGS_OLD
            &&& newer.extensions[15]->Constant_body == older.extensions[15]->Constant_body
        }),
{
}

} // verus!
