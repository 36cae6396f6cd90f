//! The key exchange groups a hello can name.
use vstd::prelude::*;

verus! {

/// A TLS named group that can be put a name to.
///
/// Naming one is not the same as executing it: [`NamedGroup::is_executable`]
/// answers that, and profiles are checked against it.
#[derive(Clone, Copy, Debug, PartialEq, Eq, Structural)]
pub enum NamedGroup {
    Secp256r1,
    Secp384r1,
    /// Never executed: a server that selects it is refused by name.
    Secp521r1,
    /// Finite-field groups that some browsers list. Never executed.
    Ffdhe2048,
    Ffdhe3072,
    X25519,
    X25519MlKem768,
}

impl NamedGroup {
    pub open spec fn spec_id(self) -> u16 {
        match self {
            NamedGroup::Secp256r1 => 0x0017,
            NamedGroup::Secp384r1 => 0x0018,
            NamedGroup::Secp521r1 => 0x0019,
            NamedGroup::Ffdhe2048 => 0x0100,
            NamedGroup::Ffdhe3072 => 0x0101,
            NamedGroup::X25519 => 0x001d,
            NamedGroup::X25519MlKem768 => 0x11ec,
        }
    }

    pub open spec fn spec_name(self) -> Seq<char> {
        match self {
            NamedGroup::Secp256r1 => "secp256r1"@,
            NamedGroup::Secp384r1 => "secp384r1"@,
            NamedGroup::Secp521r1 => "secp521r1"@,
            NamedGroup::Ffdhe2048 => "ffdhe2048"@,
            NamedGroup::Ffdhe3072 => "ffdhe3072"@,
            NamedGroup::X25519 => "x25519"@,
            NamedGroup::X25519MlKem768 => "X25519MLKEM768"@,
        }
    }

    pub open spec fn spec_is_executable(self) -> bool {
        self == NamedGroup::X25519 || self == NamedGroup::X25519MlKem768 || self
            == NamedGroup::Secp256r1
    }

    /// The IANA `supported_groups` code point.
    pub fn id(self) -> (id: u16)
        ensures
            id == self.spec_id(),
    {
        match self {
            NamedGroup::Secp256r1 => 0x0017,
            NamedGroup::Secp384r1 => 0x0018,
            NamedGroup::Secp521r1 => 0x0019,
            NamedGroup::Ffdhe2048 => 0x0100,
            NamedGroup::Ffdhe3072 => 0x0101,
            NamedGroup::X25519 => 0x001d,
            NamedGroup::X25519MlKem768 => 0x11ec,
        }
    }

    /// The group with this code point, if it has a name here.
    pub fn from_id(id: u16) -> (group: Option<NamedGroup>)
        ensures
            match group {
                Some(named) => named.spec_id() == id,
                None => forall|other: NamedGroup| #[trigger] other.spec_id() != id,
            },
    {
        match id {
            0x0017 => Some(NamedGroup::Secp256r1),
            0x0018 => Some(NamedGroup::Secp384r1),
            0x0019 => Some(NamedGroup::Secp521r1),
            0x0100 => Some(NamedGroup::Ffdhe2048),
            0x0101 => Some(NamedGroup::Ffdhe3072),
            0x001d => Some(NamedGroup::X25519),
            0x11ec => Some(NamedGroup::X25519MlKem768),
            _ => None,
        }
    }

    /// The group's name in messages.
    pub fn name(self) -> (name: &'static str)
        ensures
            name@ == self.spec_name(),
    {
        match self {
            NamedGroup::Secp256r1 => "secp256r1",
            NamedGroup::Secp384r1 => "secp384r1",
            NamedGroup::Secp521r1 => "secp521r1",
            NamedGroup::Ffdhe2048 => "ffdhe2048",
            NamedGroup::Ffdhe3072 => "ffdhe3072",
            NamedGroup::X25519 => "x25519",
            NamedGroup::X25519MlKem768 => "X25519MLKEM768",
        }
    }

    /// Whether a key share for the group can be completed, as opposed to merely
    /// listed in `supported_groups`.
    pub fn is_executable(self) -> (executable: bool)
        ensures
            executable == self.spec_is_executable(),
    {
        match self {
            NamedGroup::X25519 | NamedGroup::X25519MlKem768 | NamedGroup::Secp256r1 => true,
            _ => false,
        }
    }
}

/// No two groups share a code point.
pub proof fn group_ids_are_distinct(first: NamedGroup, second: NamedGroup)
    ensures
        first.spec_id() == second.spec_id() ==> first == second,
{
}

} // verus!
