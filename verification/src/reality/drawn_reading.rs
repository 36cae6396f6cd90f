//! What a drawn hello is made of: the bodies of its extensions, its lists, and the
//! weights of the coins that decide about them.
use crate::reality::group::NamedGroup;
use crate::reality::hello_profile::{CipherSuiteSlot, GroupSlot, SlotShape, VersionSlot};
use crate::reality::hello_reading::{counted, lemma_points_more, read_points};
use crate::reality::randomized_hello::{
    chosen_schemes, chosen_slots, drawn_groups, drawn_schemes, drawn_suites, encoded,
    first_weights, flipped, flips, group_weights, is_legacy, is_tls13, layout_weights, lemma_mixed,
    lemma_suites, random_profile, rearranged, scheme_weights, shuffled_all, RandomShape, Slot,
    APPEND_ALPS, LEGACY_CIPHER_SUITES, REMOVE_RANDOM_CIPHERS,
};
use crate::reality::table_fields::{point_bytes, prefixed_points};
use vstd::prelude::*;

verus! {

/// Whether an extension of a drawn hello that is the same on every connection has the
/// body that its code point calls for.
pub open spec fn fixed_body(extension_type: u16, body: Seq<u8>) -> bool {
    if extension_type == 5 {
        // A status request: OCSP, no responders, no extensions.
        body == seq![1u8, 0u8, 0u8, 0u8, 0u8]
    } else if extension_type == 11 {
        // Point formats: one, uncompressed.
        body == seq![1u8, 0u8]
    } else if extension_type == 18 || extension_type == 23 || extension_type == 35 {
        // Certificate timestamps, the extended master secret, a session ticket.
        body.len() == 0
    } else if extension_type == 45 {
        // Key exchange modes: one, with (EC)DHE.
        body == seq![1u8, 1u8]
    } else if extension_type == 17513 {
        // Application settings for one protocol, h2.
        body == seq![0u8, 3u8, 2u8, 104u8, 50u8]
    } else if extension_type == 65281 {
        // Renegotiation: an empty verification.
        body == seq![0u8]
    } else {
        extension_type == 13
    }
}

/// Every extension of a drawn hello is one of the known ones with its body: the fixed
/// ones byte for byte, the versions 1.3 to 1.0, one X25519 share, and the drawn groups
/// and signature algorithms. There is one for each place of the layout, and they are
/// not permuted.
pub proof fn a_drawn_hello_has_these_extensions(hello: RandomShape)
    ensures
        ({
            let profile = random_profile(hello);
            &&& profile.extensions.len() == hello.layout.len()
            &&& !profile.permute_extensions && !profile.reuse_classical_key_share
            &&& profile.cipher_suites == hello.cipher_suites
            &&& forall|i: int|
                0 <= i < hello.layout.len() ==> match #[trigger] profile.extensions[i] {
                    SlotShape::Constant { extension_type, body } => {
                        &&& fixed_body(extension_type, body)
                        &&& extension_type == 13 ==> body == hello.signature_algorithms_body
                        &&& extension_type == 35 <==> hello.layout[i] == Slot::SessionTicket
                        &&& extension_type == 13 <==> hello.layout[i] == Slot::SignatureAlgorithms
                        &&& extension_type == 11 <==> hello.layout[i] == Slot::EcPointFormats
                        &&& extension_type == 5 <==> hello.layout[i] == Slot::StatusRequest
                        &&& extension_type == 18 <==> hello.layout[i]
                            == Slot::SignedCertificateTimestamp
                        &&& extension_type == 65281 <==> hello.layout[i] == Slot::RenegotiationInfo
                        &&& extension_type == 23 <==> hello.layout[i] == Slot::ExtendedMasterSecret
                        &&& extension_type == 45 <==> hello.layout[i] == Slot::PskKeyExchangeModes
                        &&& extension_type == 17513 <==> hello.layout[i]
                            == Slot::ApplicationSettings
                    },
                    SlotShape::ServerName => hello.layout[i] == Slot::ServerName,
                    SlotShape::Alpn => hello.layout[i] == Slot::Alpn,
                    SlotShape::SupportedGroups(groups) => hello.layout[i] == Slot::SupportedGroups
                        && groups == hello.supported_groups,
                    SlotShape::KeyShare(shares) => hello.layout[i] == Slot::KeyShare && shares
                        == hello.key_shares,
                    SlotShape::SupportedVersions(versions) => hello.layout[i]
                        == Slot::SupportedVersions && versions == seq![
                        VersionSlot::Version(772),
                        VersionSlot::Version(771),
                        VersionSlot::Version(770),
                        VersionSlot::Version(769),
                    ],
                    SlotShape::Padding => hello.layout[i] == Slot::Padding,
                    _ => false,
                }
        }),
{
    let profile = random_profile(hello);
    assert forall|i: int| 0 <= i < hello.layout.len() implies #[trigger] profile.extensions[i]
        == encoded(hello, hello.layout[i]) by {}
    assert(crate::reality::randomized_hello::random_versions() =~= seq![
        VersionSlot::Version(772),
        VersionSlot::Version(771),
        VersionSlot::Version(770),
        VersionSlot::Version(769),
    ]);
}

proof fn lemma_point_bytes(points: Seq<u16>, n: nat)
    requires
        n <= points.len(),
    ensures
        point_bytes(points, n).len() == 2 * n,
        read_points(point_bytes(points, n)) == Some(Seq::new(n, |i: int| points[i] as int)),
    decreases n,
{
    let expected = Seq::new(n, |i: int| points[i] as int);
    if n == 0 {
        assert(read_points(point_bytes(points, n))->0 =~= expected);
    } else {
        let before = point_bytes(points, (n - 1) as nat);
        lemma_point_bytes(points, (n - 1) as nat);
        lemma_points_more(before, points[n - 1]);
        assert(read_points(before)->0.push(points[n - 1] as int) =~= expected);
    }
}

/// A list of code points behind its length reads back.
pub proof fn a_list_of_points_reads_back(points: Seq<u16>)
    requires
        points.len() < 32768,
    ensures
        counted(prefixed_points(points)) matches Some(list) && read_points(list) == Some(
            Seq::new(points.len(), |i: int| points[i] as int),
        ),
{
    lemma_point_bytes(points, points.len());
    assert(prefixed_points(points).skip(2) =~= point_bytes(points, points.len()));
}

/// Whether a list holds the signature algorithms that a draw may offer: the seven that
/// every draw has, and of the others only known ones, the two longer PSS ones together
/// or not at all, none twice.
pub open spec fn known_schemes(schemes: Seq<int>) -> bool {
    &&& schemes.no_duplicates()
    &&& schemes.contains(0x0403) && schemes.contains(0x0401) && schemes.contains(0x0503)
        && schemes.contains(0x0501) && schemes.contains(0x0201) && schemes.contains(0x0601)
        && schemes.contains(0x0804)
    &&& schemes.contains(0x0805) <==> schemes.contains(0x0806)
    &&& forall|i: int|
        0 <= i < schemes.len() ==> {
            let scheme = #[trigger] schemes[i];
            scheme == 0x0403 || scheme == 0x0401 || scheme == 0x0503 || scheme == 0x0501 || scheme
                == 0x0201 || scheme == 0x0601 || scheme == 0x0804 || scheme == 0x0805 || scheme
                == 0x0806 || scheme == 0x0203 || scheme == 0x0603
        }
}

spec fn wide(points: Seq<u16>) -> Seq<int> {
    Seq::new(points.len(), |i: int| points[i] as int)
}

proof fn lemma_chosen_schemes(faces: Seq<bool>)
    ensures
        ({
            let schemes = chosen_schemes(faces);
            &&& 7 <= schemes.len() <= 11
            &&& known_schemes(wide(schemes))
            &&& schemes.no_duplicates()
        }),
{
    let schemes = chosen_schemes(faces);
    let w = wide(schemes);
    assert(w[0] == 0x0403 && w[1] == 0x0401 && w[2] == 0x0503 && w[3] == 0x0501 && w[4] == 0x0201
        && w[5] == 0x0601);
    let pss = 6 + (if faces[0] {
        1int
    } else {
        0
    }) + (if faces[1] {
        1int
    } else {
        0
    });
    assert(w[pss] == 0x0804);
    if faces[3] {
        assert(w[pss + 1] == 0x0805 && w[pss + 2] == 0x0806);
    }
    assert(schemes.no_duplicates());
    assert forall|i: int, j: int| 0 <= i < j < w.len() implies w[i] != w[j] by {
        assert(schemes[i] != schemes[j]);
    }
}

proof fn lemma_rearranged_schemes(from: Seq<u16>, to: Seq<u16>)
    requires
        rearranged(from, to),
        from.no_duplicates(),
        known_schemes(wide(from)),
    ensures
        known_schemes(wide(to)),
{
    let a = wide(from);
    let b = wide(to);
    assert forall|x: int| a.contains(x) implies b.contains(x) by {
        let i = a.index_of(x);
        assert(from.contains(from[i]));
        assert(to.contains(from[i]));
        let j = to.index_of(from[i]);
        assert(b[j] == x);
    }
    assert forall|x: int| b.contains(x) implies a.contains(x) by {
        let j = b.index_of(x);
        assert(to.contains(to[j]));
        assert(from.contains(to[j]));
        let i = from.index_of(to[j]);
        assert(a[i] == x);
    }
    assert forall|i: int| 0 <= i < b.len() implies a.contains(#[trigger] b[i]) by {
        assert(b.contains(b[i]));
    }
    assert forall|i: int, j: int| 0 <= i < j < b.len() implies b[i] != b[j] by {
        assert(to[i] != to[j]);
    }
}

/// The signature algorithms of a draw read back as a list of known ones.
pub proof fn the_drawn_schemes_read_back(words: Seq<u64>)
    ensures
        drawn_schemes(words) matches Some((body, _)) ==> {
            &&& counted(body) matches Some(list)
            &&& read_points(list) matches Some(schemes)
            &&& known_schemes(schemes)
        },
{
    if let Some((faces, rest)) = flips(words, scheme_weights()) {
        let chosen = chosen_schemes(faces);
        lemma_chosen_schemes(faces);
        lemma_mixed(chosen, (chosen.len() - 1) as nat, rest);
        if let Some((schemes, _)) = shuffled_all(chosen, rest) {
            lemma_rearranged_schemes(chosen, schemes);
            a_list_of_points_reads_back(schemes);
            assert(wide(schemes) =~= Seq::new(schemes.len(), |i: int| schemes[i] as int));
        }
    }
}

/// The groups of a draw are X25519, P-256, P-384 and perhaps P-521, in that order.
pub proof fn the_drawn_groups(words: Seq<u64>)
    ensures
        drawn_groups(words) matches Some((groups, _)) ==> {
            &&& groups.take(3) == seq![
                GroupSlot::Group(NamedGroup::X25519),
                GroupSlot::Group(NamedGroup::Secp256r1),
                GroupSlot::Group(NamedGroup::Secp384r1),
            ]
            &&& groups.len() == 3 || groups.skip(3) == seq![GroupSlot::Group(NamedGroup::Secp521r1)]
        },
{
    if let Some((groups, _)) = drawn_groups(words) {
        let (faces, _) = flips(words, group_weights())->0;
        assert(groups.take(3) =~= seq![
            GroupSlot::Group(NamedGroup::X25519),
            GroupSlot::Group(NamedGroup::Secp256r1),
            GroupSlot::Group(NamedGroup::Secp384r1),
        ]);
        if faces[1] {
            assert(groups.skip(3) =~= seq![GroupSlot::Group(NamedGroup::Secp521r1)]);
        }
    }
}

/// The older suites that a draw may offer.
pub open spec fn older_suite(id: u16) -> bool {
    id == 0xcca8 || id == 0xcca9 || id == 0xc02f || id == 0xc02b || id == 0xc030 || id == 0xc02c
        || id == 0xc027 || id == 0xc013 || id == 0xc023 || id == 0xc009 || id == 0xc014 || id
        == 0xc00a || id == 0x009c || id == 0x009d || id == 0x003c || id == 0x002f || id == 0x0035
        || id == 0xc012 || id == 0x000a
}

/// The older suites that count as obsolete: CBC with SHA-1, and triple DES.
pub open spec fn outdated_suite(id: u16) -> bool {
    id == 0xc013 || id == 0xc009 || id == 0xc014 || id == 0xc00a || id == 0x002f || id == 0x0035
        || id == 0xc012 || id == 0x000a
}

/// Whether a slot offers an outdated suite.
pub open spec fn is_outdated(slot: CipherSuiteSlot) -> bool {
    slot matches CipherSuiteSlot::Decorative(id) && outdated_suite(id)
}

proof fn lemma_older(id: u16)
    requires
        is_legacy(id),
    ensures
        older_suite(id),
        crate::reality::randomized_hello::is_obsolete(id) <==> outdated_suite(id),
{
    let i = choose|i: int| 0 <= i < 22 && id == (#[trigger] LEGACY_CIPHER_SUITES@[i]).0;
    assert(LEGACY_CIPHER_SUITES@[7] == (0xc013u16, true));
    assert(LEGACY_CIPHER_SUITES@[9] == (0xc009u16, true));
    assert(LEGACY_CIPHER_SUITES@[10] == (0xc014u16, true));
    assert(LEGACY_CIPHER_SUITES@[11] == (0xc00au16, true));
    assert(LEGACY_CIPHER_SUITES@[15] == (0x002fu16, true));
    assert(LEGACY_CIPHER_SUITES@[16] == (0x0035u16, true));
    assert(LEGACY_CIPHER_SUITES@[17] == (0xc012u16, true));
    assert(LEGACY_CIPHER_SUITES@[18] == (0x000au16, true));
}

/// The suites of a draw: those that can be negotiated are the three of TLS 1.3, the
/// others are known older ones, and the outdated ones stand behind the rest.
pub proof fn the_drawn_suites(words: Seq<u64>)
    ensures
        drawn_suites(words) matches Some((slots, _)) ==> {
            &&& forall|i: int|
                0 <= i < slots.len() ==> match #[trigger] slots[i] {
                    CipherSuiteSlot::Grease => false,
                    CipherSuiteSlot::Negotiable(id) => 0x1301 <= id <= 0x1303,
                    CipherSuiteSlot::Decorative(id) => older_suite(id),
                }
            &&& forall|i: int, j: int|
                #![trigger slots[i], slots[j]]
                0 <= i < j < slots.len() && is_outdated(slots[i]) ==> is_outdated(slots[j])
        },
{
    lemma_suites(words);
    if let Some((slots, _)) = drawn_suites(words) {
        assert forall|i: int| 0 <= i < slots.len() implies match #[trigger] slots[i] {
            CipherSuiteSlot::Grease => false,
            CipherSuiteSlot::Negotiable(id) => 0x1301 <= id <= 0x1303,
            CipherSuiteSlot::Decorative(id) => older_suite(id),
        } by {
            if let CipherSuiteSlot::Decorative(id) = slots[i] {
                lemma_older(id);
            }
        }
        assert forall|i: int, j: int|
            #![trigger slots[i], slots[j]]
            0 <= i < j < slots.len() && is_outdated(slots[i]) implies is_outdated(slots[j]) by {
            let id = slots[i]->Decorative_0;
            lemma_older(id);
            match slots[j] {
                CipherSuiteSlot::Decorative(other) => {
                    lemma_older(other);
                },
                CipherSuiteSlot::Negotiable(other) => {
                    assert(crate::reality::randomized_hello::is_obsolete(other));
                    let k = choose|k: int|
                        0 <= k < 22 && (#[trigger] LEGACY_CIPHER_SUITES@[k]) == (other, true);
                    assert(!is_tls13(LEGACY_CIPHER_SUITES@[k].0));
                },
                CipherSuiteSlot::Grease => {},
            }
        }
    }
}

/// Which coin decides about which extension: a coin for ALPN, the four last of the
/// layout for the status request, the certificate timestamps, renegotiation and the
/// extended master secret, and one for the application settings.
pub proof fn each_optional_extension_has_its_coin(
    with_alpn: bool,
    faces: Seq<bool>,
    with_alps: bool,
)
    ensures
        ({
            let slots = chosen_slots(with_alpn, faces, with_alps);
            &&& slots.contains(Slot::Alpn) <==> with_alpn
            &&& slots.contains(Slot::StatusRequest) <==> faces[2]
            &&& slots.contains(Slot::SignedCertificateTimestamp) <==> faces[3]
            &&& slots.contains(Slot::RenegotiationInfo) <==> faces[4]
            &&& slots.contains(Slot::ExtendedMasterSecret) <==> faces[5]
            &&& slots.contains(Slot::ApplicationSettings) <==> with_alps
        }),
{
    let slots = chosen_slots(with_alpn, faces, with_alps);
    let at = if with_alpn {
        7int
    } else {
        6
    };
    if with_alpn {
        assert(slots[5] == Slot::Alpn);
    }
    let sct = at + if faces[2] {
        1int
    } else {
        0
    };
    let reneg = sct + if faces[3] {
        1int
    } else {
        0
    };
    let ems = reneg + if faces[4] {
        1int
    } else {
        0
    };
    if faces[2] {
        assert(slots[at] == Slot::StatusRequest);
    }
    if faces[3] {
        assert(slots[sct] == Slot::SignedCertificateTimestamp);
    }
    if faces[4] {
        assert(slots[reneg] == Slot::RenegotiationInfo);
    }
    if faces[5] {
        assert(slots[ems] == Slot::ExtendedMasterSecret);
    }
    if with_alps {
        assert(slots[slots.len() - 1] == Slot::ApplicationSettings);
    }
}

/// Whether a coin with this threshold shows its face for `hundredths` in a hundred of
/// the words, up to the rounding of a fraction.
pub open spec fn weighs(threshold: u64, hundredths: int) -> bool {
    let exact = (100 - hundredths) * 0x8000_0000_0000_0000;
    exact - 204800 <= threshold * 100 <= exact + 204800
}

/// The coins have their weights, in the order in which they are thrown: 0.7 for ALPN;
/// 0.63, 0.59, 0.51 and 0.9 for signature algorithms; 0.71 and 0.46 for groups; 0.25,
/// 0.62, 0.74, 0.46, 0.75 and 0.77 for the layout; 0.33 for application settings. A
/// suite is dropped for 0.4 in the last of twenty-two places and proportionally less
/// further in front.
pub proof fn the_coins_have_their_weights()
    ensures
        first_weights().len() == 2 && weighs(first_weights()[0], 70) && weighs(
            first_weights()[1],
            40,
        ),
        scheme_weights().len() == 4 && weighs(scheme_weights()[0], 63) && weighs(
            scheme_weights()[1],
            59,
        ) && weighs(scheme_weights()[2], 51) && weighs(scheme_weights()[3], 90),
        group_weights().len() == 2 && weighs(group_weights()[0], 71) && weighs(
            group_weights()[1],
            46,
        ),
        layout_weights().len() == 6 && weighs(layout_weights()[0], 25) && weighs(
            layout_weights()[1],
            62,
        ) && weighs(layout_weights()[2], 74) && weighs(layout_weights()[3], 46) && weighs(
            layout_weights()[4],
            75,
        ) && weighs(layout_weights()[5], 77),
        weighs(APPEND_ALPS, 33),
        forall|i: int|
            0 <= i < 21 ==> {
                let exact = (54 - i) * 0x8000_0000_0000_0000;
                exact - 204800 <= (#[trigger] REMOVE_RANDOM_CIPHERS@[i]) * 55 <= exact + 204800
            },
{
}

/// A coin shows its face where the upper 63 bits of a word reach its threshold.
pub proof fn a_coin_takes_the_upper_bits_of_a_word(words: Seq<u64>, weight: u64)
    requires
        words.len() > 0,
    ensures
        flipped(words, weight) == Some((words[0] as int / 2 >= weight, words.drop_first())),
{
    let word = words[0];
    assert(word >> 1 == word / 2) by (bit_vector);
}

} // verus!
