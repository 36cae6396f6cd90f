//! The shape of a ClientHello, as a table.
//!
//! A profile is an ordered list of slots. A slot is either a constant blob or
//! something that the session decides: the server name, the key shares, the
//! GREASE values, the padding length.
use crate::error::{ErrorKind, Fault, WireError};
use crate::reality::cipher_suite::CipherSuite;
use crate::reality::grease::GreaseSlot;
use crate::reality::group::NamedGroup;
use crate::text::{decimal, hex_word, push_decimal, push_hex_word, text_of};
use vstd::prelude::*;
use vstd::string::*;

verus! {

/// One entry of the profile's `cipher_suites`.
#[derive(Clone, Copy, Debug, PartialEq, Eq, Structural)]
pub enum CipherSuiteSlot {
    Grease,
    /// A TLS 1.3 suite that is offered and implemented.
    Negotiable(u16),
    /// A suite offered only because the imitated browser offers it.
    Decorative(u16),
}

/// A `supported_groups` entry.
#[derive(Clone, Copy, Debug, PartialEq, Eq, Structural)]
pub enum GroupSlot {
    Grease,
    Group(NamedGroup),
}

/// A `key_share` entry.
#[derive(Clone, Copy, Debug, PartialEq, Eq, Structural)]
pub enum KeyShareSlot {
    Grease,
    Group(NamedGroup),
}

/// A `supported_versions` entry.
#[derive(Clone, Copy, Debug, PartialEq, Eq, Structural)]
pub enum VersionSlot {
    Grease,
    Version(u16),
}

pub const TLS_1_3: u16 = 0x0304;

pub const TLS_1_2: u16 = 0x0303;

pub const TLS_1_1: u16 = 0x0302;

pub const TLS_1_0: u16 = 0x0301;

/// One extension slot: a constant blob, or something the session decides.
#[derive(Clone, Debug, PartialEq, Eq)]
pub enum ExtensionSlot {
    /// Type and body are the same on every connection.
    Constant { extension_type: u16, body: Vec<u8> },
    /// The type is the connection's GREASE value for the slot.
    Grease { slot: GreaseSlot, body: Vec<u8> },
    ServerName,
    SupportedGroups(Vec<GroupSlot>),
    KeyShare(Vec<KeyShareSlot>),
    Alpn,
    SupportedVersions(Vec<VersionSlot>),
    EchGrease,
    /// RFC 7685. Writes nothing unless the finished hello lands in the window
    /// that is padded.
    Padding,
}

/// What an extension slot holds, with byte strings and lists as sequences.
pub enum SlotShape {
    Constant { extension_type: u16, body: Seq<u8> },
    Grease { slot: GreaseSlot, body: Seq<u8> },
    ServerName,
    SupportedGroups(Seq<GroupSlot>),
    KeyShare(Seq<KeyShareSlot>),
    Alpn,
    SupportedVersions(Seq<VersionSlot>),
    EchGrease,
    Padding,
}

impl View for ExtensionSlot {
    type V = SlotShape;

    open spec fn view(&self) -> SlotShape {
        match self {
            ExtensionSlot::Constant { extension_type, body } => SlotShape::Constant {
                extension_type: *extension_type,
                body: body@,
            },
            ExtensionSlot::Grease { slot, body } => SlotShape::Grease { slot: *slot, body: body@ },
            ExtensionSlot::ServerName => SlotShape::ServerName,
            ExtensionSlot::SupportedGroups(groups) => SlotShape::SupportedGroups(groups@),
            ExtensionSlot::KeyShare(entries) => SlotShape::KeyShare(entries@),
            ExtensionSlot::Alpn => SlotShape::Alpn,
            ExtensionSlot::SupportedVersions(versions) => SlotShape::SupportedVersions(versions@),
            ExtensionSlot::EchGrease => SlotShape::EchGrease,
            ExtensionSlot::Padding => SlotShape::Padding,
        }
    }
}

impl SlotShape {
    /// GREASE keeps its place at the ends, and padding has to be last because
    /// its length depends on everything before it.
    pub open spec fn is_pinned(self) -> bool {
        self is Grease || self is Padding
    }
}

impl ExtensionSlot {
    /// Whether the slot keeps its position when extensions are permuted.
    pub fn position_is_pinned(&self) -> (pinned: bool)
        ensures
            pinned == self@.is_pinned(),
    {
        match self {
            ExtensionSlot::Grease { .. } | ExtensionSlot::Padding => true,
            _ => false,
        }
    }
}

/// The candidates that ECH GREASE draws from: HPKE suites as pairs of KDF and
/// AEAD, and plaintext lengths.
#[derive(Clone, Debug, PartialEq, Eq)]
pub struct EchGreaseShape {
    pub suites: Vec<(u16, u16)>,
    pub payload_lens: Vec<usize>,
}

/// An ordered ClientHello shape.
#[derive(Clone, Debug, PartialEq, Eq)]
pub struct HelloProfile {
    /// Name used in errors, so a refusal says which table produced the hello.
    pub name: &'static str,
    pub cipher_suites: Vec<CipherSuiteSlot>,
    pub extensions: Vec<ExtensionSlot>,
    /// Whether the slots that are not pinned are shuffled on every connection.
    pub permute_extensions: bool,
    pub ech_grease: EchGreaseShape,
    /// Whether the plain X25519 share repeats the hybrid's classical half.
    pub reuse_classical_key_share: bool,
}

/// What a profile holds, with lists as sequences.
pub struct ProfileShape {
    pub name: Seq<char>,
    pub cipher_suites: Seq<CipherSuiteSlot>,
    pub extensions: Seq<SlotShape>,
    pub permute_extensions: bool,
    pub ech_suites: Seq<(u16, u16)>,
    pub ech_payload_lens: Seq<usize>,
    pub reuse_classical_key_share: bool,
}

/// The shapes of a list of slots.
pub open spec fn slot_shapes(slots: Seq<ExtensionSlot>) -> Seq<SlotShape> {
    Seq::new(slots.len(), |i: int| slots[i]@)
}

impl View for HelloProfile {
    type V = ProfileShape;

    open spec fn view(&self) -> ProfileShape {
        ProfileShape {
            name: self.name@,
            cipher_suites: self.cipher_suites@,
            extensions: slot_shapes(self.extensions@),
            permute_extensions: self.permute_extensions,
            ech_suites: self.ech_grease.suites@,
            ech_payload_lens: self.ech_grease.payload_lens@,
            reuse_classical_key_share: self.reuse_classical_key_share,
        }
    }
}

/// The implemented suites among the first `n` slots, in order.
pub open spec fn negotiable_suites(slots: Seq<CipherSuiteSlot>, n: nat) -> Seq<CipherSuite>
    decreases n,
{
    if n == 0 {
        Seq::empty()
    } else {
        let before = negotiable_suites(slots, (n - 1) as nat);
        match slots[n - 1] {
            CipherSuiteSlot::Negotiable(id) => match CipherSuite::spec_from_id(id) {
                Some(suite) => before.push(suite),
                None => before,
            },
            _ => before,
        }
    }
}

/// The groups among the first `n` key share entries, in order.
pub open spec fn entry_groups(entries: Seq<KeyShareSlot>, n: nat) -> Seq<NamedGroup>
    decreases n,
{
    if n == 0 {
        Seq::empty()
    } else {
        let before = entry_groups(entries, (n - 1) as nat);
        match entries[n - 1] {
            KeyShareSlot::Group(group) => before.push(group),
            KeyShareSlot::Grease => before,
        }
    }
}

/// The groups that the first `n` extensions send a share for, in table order.
pub open spec fn shared_groups(extensions: Seq<SlotShape>, n: nat) -> Seq<NamedGroup>
    decreases n,
{
    if n == 0 {
        Seq::empty()
    } else {
        let before = shared_groups(extensions, (n - 1) as nat);
        match extensions[n - 1] {
            SlotShape::KeyShare(entries) => before + entry_groups(entries, entries.len()),
            _ => before,
        }
    }
}

/// The number of `key_share` extensions among the first `n`.
pub open spec fn key_share_count(extensions: Seq<SlotShape>, n: nat) -> nat
    decreases n,
{
    if n == 0 {
        0
    } else {
        key_share_count(extensions, (n - 1) as nat) + if extensions[n - 1] is KeyShare {
            1nat
        } else {
            0nat
        }
    }
}

/// The GREASE slots among the first `n` extensions, in order.
pub open spec fn grease_slots(extensions: Seq<SlotShape>, n: nat) -> Seq<GreaseSlot>
    decreases n,
{
    if n == 0 {
        Seq::empty()
    } else {
        let before = grease_slots(extensions, (n - 1) as nat);
        match extensions[n - 1] {
            SlotShape::Grease { slot, .. } => before.push(slot),
            _ => before,
        }
    }
}

/// The list of the last `supported_groups` among the first `n` extensions.
pub open spec fn advertised_groups(extensions: Seq<SlotShape>, n: nat) -> Seq<GroupSlot>
    decreases n,
{
    if n == 0 {
        Seq::empty()
    } else {
        match extensions[n - 1] {
            SlotShape::SupportedGroups(groups) => groups,
            _ => advertised_groups(extensions, (n - 1) as nat),
        }
    }
}

/// What is wrong with a cipher suite slot on its own.
pub open spec fn suite_complaint(slot: CipherSuiteSlot) -> Option<Seq<char>> {
    match slot {
        CipherSuiteSlot::Grease => None,
        CipherSuiteSlot::Negotiable(id) => if CipherSuite::spec_from_id(id) is None {
            Some(
                "offers cipher suite 0x"@ + hex_word(id)
                    + " as negotiable, but this build does not implement it"@,
            )
        } else {
            None
        },
        CipherSuiteSlot::Decorative(id) => if CipherSuite::spec_from_id(id) is Some {
            Some(
                "lists implemented cipher suite 0x"@ + hex_word(id)
                    + " as decoration; a suite this build can negotiate must be marked negotiable"@,
            )
        } else {
            None
        },
    }
}

/// The first complaint about the first `n` cipher suite slots.
pub open spec fn first_suite_complaint(slots: Seq<CipherSuiteSlot>, n: nat) -> Option<Seq<char>>
    decreases n,
{
    if n == 0 {
        None
    } else {
        match first_suite_complaint(slots, (n - 1) as nat) {
            Some(complaint) => Some(complaint),
            None => suite_complaint(slots[n - 1]),
        }
    }
}

/// The complaint about a key share for a group that cannot be completed.
pub open spec fn share_complaint(group: NamedGroup) -> Seq<char> {
    "sends a "@ + group.spec_name() + " key share, which this build cannot complete"@
}

/// The first complaint about the first `n` key share entries.
pub open spec fn first_share_complaint(entries: Seq<KeyShareSlot>, n: nat) -> Option<Seq<char>>
    decreases n,
{
    if n == 0 {
        None
    } else {
        match first_share_complaint(entries, (n - 1) as nat) {
            Some(complaint) => Some(complaint),
            None => match entries[n - 1] {
                KeyShareSlot::Group(group) => if group.spec_is_executable() {
                    None
                } else {
                    Some(share_complaint(group))
                },
                KeyShareSlot::Grease => None,
            },
        }
    }
}

/// What is wrong with the extension at `position` on its own.
pub open spec fn extension_complaint(extensions: Seq<SlotShape>, position: int) -> Option<
    Seq<char>,
> {
    match extensions[position] {
        SlotShape::Padding => if position + 1 != extensions.len() {
            Some(
                "puts padding somewhere other than last; its length is a function of every byte before it"@,
            )
        } else {
            None
        },
        SlotShape::KeyShare(entries) => first_share_complaint(entries, entries.len()),
        _ => None,
    }
}

/// The first complaint about the first `n` extensions.
pub open spec fn first_extension_complaint(extensions: Seq<SlotShape>, n: nat) -> Option<Seq<char>>
    decreases n,
{
    if n == 0 {
        None
    } else {
        match first_extension_complaint(extensions, (n - 1) as nat) {
            Some(complaint) => Some(complaint),
            None => extension_complaint(extensions, n - 1),
        }
    }
}

/// The complaint about the first of the first `n` shared groups that the hello
/// does not advertise.
pub open spec fn first_unadvertised(
    shared: Seq<NamedGroup>,
    advertised: Seq<GroupSlot>,
    n: nat,
) -> Option<Seq<char>>
    decreases n,
{
    if n == 0 {
        None
    } else {
        match first_unadvertised(shared, advertised, (n - 1) as nat) {
            Some(complaint) => Some(complaint),
            None => if advertised.contains(GroupSlot::Group(shared[n - 1])) {
                None
            } else {
                Some(
                    "sends a "@ + shared[n - 1].spec_name()
                        + " key share without listing the group in supported_groups"@,
                )
            },
        }
    }
}

/// The two GREASE extensions of a hello that carries any.
pub open spec fn both_grease_extensions() -> Seq<GreaseSlot> {
    seq![GreaseSlot::Extension1, GreaseSlot::Extension2]
}

/// What is wrong with a profile, if anything.
pub open spec fn profile_complaint(profile: ProfileShape) -> Option<Seq<char>> {
    let suites = profile.cipher_suites;
    let extensions = profile.extensions;
    let grease = grease_slots(extensions, extensions.len());
    let shared = shared_groups(extensions, extensions.len());
    if first_suite_complaint(suites, suites.len()) is Some {
        first_suite_complaint(suites, suites.len())
    } else if negotiable_suites(suites, suites.len()).len() == 0 {
        Some("offers no cipher suite this build can negotiate"@)
    } else if first_extension_complaint(extensions, extensions.len()) is Some {
        first_extension_complaint(extensions, extensions.len())
    } else if key_share_count(extensions, extensions.len()) != 1 {
        Some(
            "has "@ + decimal(key_share_count(extensions, extensions.len()))
                + " key_share extensions; exactly one is a ClientHello"@,
        )
    } else if grease.len() != 0 && grease != both_grease_extensions() {
        Some("must carry exactly two GREASE extensions, extension1 first and extension2 last"@)
    } else {
        first_unadvertised(shared, advertised_groups(extensions, extensions.len()), shared.len())
    }
}

/// The fault with which a profile is refused.
pub open spec fn profile_fault(name: Seq<char>, complaint: Seq<char>) -> Fault {
    (ErrorKind::InvalidInput, "REALITY hello profile "@ + name + ": "@ + complaint)
}

/// What `validate` finds.
pub open spec fn profile_verdict(profile: ProfileShape) -> Result<(), Fault> {
    match profile_complaint(profile) {
        Some(complaint) => Err(profile_fault(profile.name, complaint)),
        None => Ok(()),
    }
}

fn refuse(name: &str, complaint: String) -> (error: WireError)
    ensures
        error@ == profile_fault(name@, complaint@),
{
    let mut message = text_of("REALITY hello profile ");
    message.append(name);
    message.append(": ");
    message.append(complaint.as_str());
    WireError { kind: ErrorKind::InvalidInput, message }
}

fn suite_refusal(slot: CipherSuiteSlot) -> (complaint: Option<String>)
    ensures
        match suite_complaint(slot) {
            Some(text) => complaint matches Some(actual) && actual@ == text,
            None => complaint is None,
        },
{
    match slot {
        CipherSuiteSlot::Grease => None,
        CipherSuiteSlot::Negotiable(id) => {
            if CipherSuite::from_id(id).is_some() {
                return None;
            }
            let mut text = text_of("offers cipher suite 0x");
            push_hex_word(&mut text, id);
            text.append(" as negotiable, but this build does not implement it");
            Some(text)
        },
        CipherSuiteSlot::Decorative(id) => {
            if CipherSuite::from_id(id).is_none() {
                return None;
            }
            let mut text = text_of("lists implemented cipher suite 0x");
            push_hex_word(&mut text, id);
            text.append(
                " as decoration; a suite this build can negotiate must be marked negotiable",
            );
            Some(text)
        },
    }
}

fn share_refusal(entries: &Vec<KeyShareSlot>) -> (complaint: Option<String>)
    ensures
        match first_share_complaint(entries@, entries@.len()) {
            Some(text) => complaint matches Some(actual) && actual@ == text,
            None => complaint is None,
        },
{
    for i in 0..entries.len()
        invariant
            first_share_complaint(entries@, i as nat) is None,
    {
        if let KeyShareSlot::Group(group) = entries[i] {
            if !group.is_executable() {
                let mut text = text_of("sends a ");
                text.append(group.name());
                text.append(" key share, which this build cannot complete");
                proof {
                    lemma_share_complaint_stays(entries@, (i + 1) as nat, entries@.len());
                }
                return Some(text);
            }
        }
    }
    None
}

proof fn lemma_share_complaint_stays(entries: Seq<KeyShareSlot>, n: nat, m: nat)
    requires
        n <= m,
        first_share_complaint(entries, n) is Some,
    ensures
        first_share_complaint(entries, m) == first_share_complaint(entries, n),
    decreases m,
{
    if n < m {
        lemma_share_complaint_stays(entries, n, (m - 1) as nat);
    }
}

proof fn lemma_suite_complaint_stays(slots: Seq<CipherSuiteSlot>, n: nat, m: nat)
    requires
        n <= m,
        first_suite_complaint(slots, n) is Some,
    ensures
        first_suite_complaint(slots, m) == first_suite_complaint(slots, n),
    decreases m,
{
    if n < m {
        lemma_suite_complaint_stays(slots, n, (m - 1) as nat);
    }
}

proof fn lemma_extension_complaint_stays(extensions: Seq<SlotShape>, n: nat, m: nat)
    requires
        n <= m,
        first_extension_complaint(extensions, n) is Some,
    ensures
        first_extension_complaint(extensions, m) == first_extension_complaint(extensions, n),
    decreases m,
{
    if n < m {
        lemma_extension_complaint_stays(extensions, n, (m - 1) as nat);
    }
}

proof fn lemma_unadvertised_stays(
    shared: Seq<NamedGroup>,
    advertised: Seq<GroupSlot>,
    n: nat,
    m: nat,
)
    requires
        n <= m,
        first_unadvertised(shared, advertised, n) is Some,
    ensures
        first_unadvertised(shared, advertised, m) == first_unadvertised(shared, advertised, n),
    decreases m,
{
    if n < m {
        lemma_unadvertised_stays(shared, advertised, n, (m - 1) as nat);
    }
}

fn lists_group(groups: &Vec<GroupSlot>, group: NamedGroup) -> (listed: bool)
    ensures
        listed == groups@.contains(GroupSlot::Group(group)),
{
    for i in 0..groups.len()
        invariant
            forall|j: int| 0 <= j < i ==> groups@[j] != GroupSlot::Group(group),
    {
        if groups[i] == GroupSlot::Group(group) {
            assert(groups@[i as int] == GroupSlot::Group(group));
            return true;
        }
    }
    false
}

impl HelloProfile {
    /// The TLS 1.3 suites this profile may actually negotiate: the list that a
    /// ServerHello is checked against.
    pub fn negotiable_cipher_suites(&self) -> (suites: Vec<CipherSuite>)
        ensures
            suites@ == negotiable_suites(self@.cipher_suites, self@.cipher_suites.len()),
    {
        let mut suites: Vec<CipherSuite> = Vec::new();
        for i in 0..self.cipher_suites.len()
            invariant
                suites@ == negotiable_suites(self@.cipher_suites, i as nat),
        {
            if let CipherSuiteSlot::Negotiable(id) = self.cipher_suites[i] {
                if let Some(suite) = CipherSuite::from_id(id) {
                    suites.push(suite);
                }
            }
        }
        suites
    }

    /// The groups the profile sends a key share for, in table order.
    pub fn key_share_groups(&self) -> (groups: Vec<NamedGroup>)
        ensures
            groups@ == shared_groups(self@.extensions, self@.extensions.len()),
    {
        let mut groups: Vec<NamedGroup> = Vec::new();
        for i in 0..self.extensions.len()
            invariant
                groups@ == shared_groups(self@.extensions, i as nat),
        {
            if let ExtensionSlot::KeyShare(entries) = &self.extensions[i] {
                let ghost before = groups@;
                for j in 0..entries.len()
                    invariant
                        groups@ == before + entry_groups(entries@, j as nat),
                {
                    if let KeyShareSlot::Group(group) = entries[j] {
                        groups.push(group);
                    }
                    assert(groups@ =~= before + entry_groups(entries@, (j + 1) as nat));
                }
            }
        }
        groups
    }

    /// Everything about a table that must be true before it can produce bytes.
    pub fn validate(&self) -> (result: Result<(), WireError>)
        ensures
            match profile_verdict(self@) {
                Ok(_) => result is Ok,
                Err(fault) => result matches Err(error) && error@ == fault,
            },
    {
        let ghost suites = self@.cipher_suites;
        let ghost extensions = self@.extensions;
        for i in 0..self.cipher_suites.len()
            invariant
                suites == self.cipher_suites@,
                suites == self@.cipher_suites,
                first_suite_complaint(suites, i as nat) is None,
        {
            if let Some(complaint) = suite_refusal(self.cipher_suites[i]) {
                proof {
                    lemma_suite_complaint_stays(suites, (i + 1) as nat, suites.len());
                }
                return Err(refuse(self.name, complaint));
            }
        }
        if self.negotiable_cipher_suites().len() == 0 {
            return Err(
                refuse(self.name, text_of("offers no cipher suite this build can negotiate")),
            );
        }
        let mut key_share_extensions: u64 = 0;
        let mut grease_extension_slots: Vec<GreaseSlot> = Vec::new();
        let no_groups: Vec<GroupSlot> = Vec::new();
        let mut groups: &Vec<GroupSlot> = &no_groups;
        for i in 0..self.extensions.len()
            invariant
                suites == self@.cipher_suites,
                extensions == self@.extensions,
                first_suite_complaint(suites, suites.len()) is None,
                negotiable_suites(suites, suites.len()).len() != 0,
                first_extension_complaint(extensions, i as nat) is None,
                key_share_extensions == key_share_count(extensions, i as nat),
                key_share_extensions <= i,
                grease_extension_slots@ == grease_slots(extensions, i as nat),
                groups@ == advertised_groups(extensions, i as nat),
        {
            assert(extensions[i as int] == self.extensions@[i as int]@);
            match &self.extensions[i] {
                ExtensionSlot::Padding => {
                    if i != self.extensions.len() - 1 {
                        let complaint = text_of(
                            "puts padding somewhere other than last; its length is a function of every byte before it",
                        );
                        proof {
                            lemma_extension_complaint_stays(
                                extensions,
                                (i + 1) as nat,
                                extensions.len(),
                            );
                        }
                        return Err(refuse(self.name, complaint));
                    }
                },
                ExtensionSlot::Grease { slot, .. } => {
                    grease_extension_slots.push(*slot);
                },
                ExtensionSlot::SupportedGroups(listed) => {
                    groups = listed;
                },
                ExtensionSlot::KeyShare(entries) => {
                    key_share_extensions = key_share_extensions + 1;
                    if let Some(complaint) = share_refusal(entries) {
                        proof {
                            lemma_extension_complaint_stays(
                                extensions,
                                (i + 1) as nat,
                                extensions.len(),
                            );
                        }
                        return Err(refuse(self.name, complaint));
                    }
                },
                _ => {},
            }
        }
        if key_share_extensions != 1 {
            let mut complaint = text_of("has ");
            push_decimal(&mut complaint, key_share_extensions);
            complaint.append(" key_share extensions; exactly one is a ClientHello");
            return Err(refuse(self.name, complaint));
        }
        let paired = grease_extension_slots.len() == 2 && grease_extension_slots[0]
            == GreaseSlot::Extension1 && grease_extension_slots[1] == GreaseSlot::Extension2;
        assert(paired == (grease_extension_slots@ =~= both_grease_extensions()));
        if grease_extension_slots.len() != 0 && !paired {
            return Err(
                refuse(
                    self.name,
                    text_of(
                        "must carry exactly two GREASE extensions, extension1 first and extension2 last",
                    ),
                ),
            );
        }
        let shared = self.key_share_groups();
        for i in 0..shared.len()
            invariant
                suites == self@.cipher_suites,
                extensions == self@.extensions,
                first_suite_complaint(suites, suites.len()) is None,
                negotiable_suites(suites, suites.len()).len() != 0,
                first_extension_complaint(extensions, extensions.len()) is None,
                key_share_count(extensions, extensions.len()) == 1,
                grease_slots(extensions, extensions.len()).len() == 0 || grease_slots(
                    extensions,
                    extensions.len(),
                ) == both_grease_extensions(),
                groups@ == advertised_groups(extensions, extensions.len()),
                shared@ == shared_groups(extensions, extensions.len()),
                first_unadvertised(shared@, groups@, i as nat) is None,
        {
            let group = shared[i];
            if !lists_group(groups, group) {
                let mut complaint = text_of("sends a ");
                complaint.append(group.name());
                complaint.append(" key share without listing the group in supported_groups");
                proof {
                    lemma_unadvertised_stays(shared@, groups@, (i + 1) as nat, shared@.len());
                }
                return Err(refuse(self.name, complaint));
            }
        }
        Ok(())
    }
}

} // verus!
