//! The client's key exchange: one X25519 pair for the plain share, and on demand
//! a hybrid ML-KEM-768 pair and a P-256 pair.
//!
//! The plain share is the one that the server authenticates the client by. In
//! the hybrid group the ML-KEM half stands first in shares and secrets alike.
use crate::crypto::{
    ml_kem_decapsulate, ml_kem_decapsulation, ml_kem_generate, p256_agree, p256_generate,
    p256_public, p256_public_of, p256_secret_of, wipe, x25519_agree as x25519_raw_agree,
    x25519_public, x25519_public_of, x25519_secret_of,
};
use crate::error::{invalid_data, ErrorKind, Fault, WireError};
use crate::octets::{copy_array, push_bytes, to_vec};
use crate::random::random_bytes;
use crate::reality::group::NamedGroup;
use crate::reality::server_hello::{ServerKeyShare, ShareShape, X25519_LEN};
use crate::text::text_of;
use vstd::prelude::*;
use vstd::string::*;

verus! {

/// ML-KEM-768 encapsulation key, FIPS 203.
pub const ML_KEM_768_ENCAPSULATION_KEY_LEN: usize = 1184;

/// ML-KEM-768 shared secret, FIPS 203.
pub const ML_KEM_768_SHARED_SECRET_LEN: usize = 32;

/// Uncompressed P-256 point.
pub const P256_POINT_LEN: usize = 65;

/// Client share of the hybrid group: encapsulation key, then X25519 public key.
pub const X25519MLKEM768_CLIENT_SHARE_LEN: usize = 1184 + 32;

/// Secret of the hybrid group: ML-KEM secret, then X25519 secret.
pub const X25519MLKEM768_SHARED_SECRET_LEN: usize = 32 + 32;

/// A fault of the kind that nothing more is known of.
pub open spec fn other_fault(message: Seq<char>) -> Fault {
    (ErrorKind::Other, message)
}

/// The X25519 public key of a private key.
pub open spec fn public_key_of(private: Seq<u8>) -> Result<Seq<u8>, Fault> {
    match x25519_public_of(private) {
        Err(step) => if step == 0 {
            Err(other_fault("failed to create an X25519 key"@))
        } else {
            Err(other_fault("failed to compute an X25519 public key"@))
        },
        Ok(public) => if public.len() != X25519_LEN {
            Err(other_fault("X25519 public key has an unexpected length"@))
        } else {
            Ok(public)
        },
    }
}

/// The secret that an X25519 key agrees on with a peer.
pub open spec fn agreement_of(private: Seq<u8>, peer: Seq<u8>) -> Result<Seq<u8>, Fault> {
    match x25519_secret_of(private, peer) {
        Err(step) => if step == 0 {
            Err(other_fault("failed to create an X25519 key"@))
        } else {
            Err(invalid_data("REALITY X25519 agreement failed"@))
        },
        Ok(secret) => if secret.len() != X25519_LEN {
            Err(other_fault("X25519 produced an unexpected secret"@))
        } else {
            Ok(secret)
        },
    }
}

/// Compute the X25519 public key of a private key.
pub fn x25519_public_key(private: &[u8; 32]) -> (result: Result<[u8; 32], WireError>)
    ensures
        match public_key_of(private@) {
            Ok(public) => result matches Ok(actual) && actual@ == public,
            Err(fault) => result matches Err(error) && error@ == fault,
        },
{
    match x25519_public(private.as_slice()) {
        Err(step) => {
            if step == 0 {
                Err(WireError::new(ErrorKind::Other, "failed to create an X25519 key"))
            } else {
                Err(WireError::new(ErrorKind::Other, "failed to compute an X25519 public key"))
            }
        },
        Ok(public) => {
            if public.len() != X25519_LEN {
                return Err(
                    WireError::new(ErrorKind::Other, "X25519 public key has an unexpected length"),
                );
            }
            Ok(copy_array(public.as_slice()))
        },
    }
}

/// Agree on a secret with a peer.
pub fn x25519_agree(private: &[u8; 32], peer: &[u8; 32]) -> (result: Result<[u8; 32], WireError>)
    ensures
        match agreement_of(private@, peer@) {
            Ok(secret) => result matches Ok(actual) && actual@ == secret,
            Err(fault) => result matches Err(error) && error@ == fault,
        },
{
    match x25519_raw_agree(private.as_slice(), peer.as_slice()) {
        Err(step) => {
            if step == 0 {
                Err(WireError::new(ErrorKind::Other, "failed to create an X25519 key"))
            } else {
                Err(WireError::new(ErrorKind::InvalidData, "REALITY X25519 agreement failed"))
            }
        },
        Ok(secret) => {
            if secret.len() != X25519_LEN {
                return Err(
                    WireError::new(ErrorKind::Other, "X25519 produced an unexpected secret"),
                );
            }
            Ok(copy_array(secret.as_slice()))
        },
    }
}

/// A fresh X25519 public key with no use for the private half.
///
/// What is returned is the public key of the bytes that were drawn, or the
/// fault for them.
pub fn random_x25519_public_key() -> (result: Result<[u8; 32], WireError>)
    ensures
        exists|private: [u8; 32]|
            match public_key_of(#[trigger] private@) {
                Ok(public) => result matches Ok(actual) && actual@ == public,
                Err(fault) => result matches Err(error) && error@ == fault,
            },
{
    let private: [u8; 32] = random_bytes();
    let result = x25519_public_key(&private);
    assert(match public_key_of(private@) {
        Ok(public) => result matches Ok(actual) && actual@ == public,
        Err(fault) => result matches Err(error) && error@ == fault,
    });
    result
}

/// A P-256 pair: the private key's bytes and the uncompressed public point.
pub struct P256KeyExchange {
    private: Vec<u8>,
    public: Vec<u8>,
}

/// What a P-256 pair holds.
pub struct P256Shape {
    pub private: Seq<u8>,
    pub public: Seq<u8>,
}

impl View for P256KeyExchange {
    type V = P256Shape;

    closed spec fn view(&self) -> P256Shape {
        P256Shape { private: self.private@, public: self.public@ }
    }
}

/// The public point of a P-256 private key.
pub open spec fn p256_point_of(private: Seq<u8>) -> Result<Seq<u8>, Fault> {
    match p256_public_of(private) {
        Err(step) => if step == 0 {
            Err(other_fault("failed to generate a P-256 key"@))
        } else {
            Err(other_fault("failed to compute a P-256 public key"@))
        },
        Ok(public) => if public.len() != P256_POINT_LEN {
            Err(other_fault("P-256 public key is not an uncompressed SEC1 point"@))
        } else {
            Ok(public)
        },
    }
}

/// The secret that a P-256 key agrees on with a peer.
pub open spec fn p256_agreement_of(private: Seq<u8>, peer: Seq<u8>) -> Result<Seq<u8>, Fault> {
    match p256_secret_of(private, peer) {
        Err(step) => Err(invalid_data("REALITY P-256 agreement failed"@)),
        Ok(secret) => if secret.len() != 32 {
            Err(other_fault("P-256 produced an unexpected secret"@))
        } else {
            Ok(secret)
        },
    }
}

impl P256KeyExchange {
    /// The pair of a private key.
    pub fn from_private(private: Vec<u8>) -> (result: Result<P256KeyExchange, WireError>)
        ensures
            match p256_point_of(private@) {
                Ok(public) => result matches Ok(pair) && pair@ == (P256Shape {
                    private: private@,
                    public,
                }),
                Err(fault) => result matches Err(error) && error@ == fault,
            },
    {
        match p256_public(private.as_slice()) {
            Err(step) => {
                if step == 0 {
                    Err(WireError::new(ErrorKind::Other, "failed to generate a P-256 key"))
                } else {
                    Err(WireError::new(ErrorKind::Other, "failed to compute a P-256 public key"))
                }
            },
            Ok(public) => {
                if public.len() != P256_POINT_LEN {
                    return Err(
                        WireError::new(
                            ErrorKind::Other,
                            "P-256 public key is not an uncompressed SEC1 point",
                        ),
                    );
                }
                Ok(P256KeyExchange { private, public })
            },
        }
    }

    /// A pair of a fresh private key.
    fn generate() -> (result: Result<P256KeyExchange, WireError>)
        ensures
            result matches Ok(pair) ==> p256_point_of(pair@.private) == Ok::<Seq<u8>, Fault>(
                pair@.public,
            ),
            result matches Err(error) ==> p256_fault(error@),
    {
        match p256_generate() {
            None => Err(WireError::new(ErrorKind::Other, "failed to generate a P-256 key")),
            Some(private) => P256KeyExchange::from_private(private),
        }
    }

    /// Agree on a secret with a peer's point.
    pub fn agree(&self, peer: &[u8]) -> (result: Result<Vec<u8>, WireError>)
        ensures
            match p256_agreement_of(self@.private, peer@) {
                Ok(secret) => result matches Ok(actual) && actual@ == secret,
                Err(fault) => result matches Err(error) && error@ == fault,
            },
    {
        match p256_agree(self.private.as_slice(), peer) {
            Err(_) => Err(WireError::new(ErrorKind::InvalidData, "REALITY P-256 agreement failed")),
            Ok(secret) => {
                if secret.len() != 32 {
                    return Err(
                        WireError::new(ErrorKind::Other, "P-256 produced an unexpected secret"),
                    );
                }
                Ok(secret)
            },
        }
    }
}

/// The hybrid pair: an ML-KEM-768 key and an X25519 pair of its own.
pub struct HybridKeyExchange {
    ml_kem: Vec<u8>,
    ml_kem_encapsulation_key: Vec<u8>,
    x25519_private: [u8; 32],
    x25519_public: [u8; 32],
}

/// What a hybrid pair holds.
pub struct HybridShape {
    pub ml_kem: Seq<u8>,
    pub encapsulation_key: Seq<u8>,
    pub x25519_private: Seq<u8>,
    pub x25519_public: Seq<u8>,
}

impl View for HybridKeyExchange {
    type V = HybridShape;

    closed spec fn view(&self) -> HybridShape {
        HybridShape {
            ml_kem: self.ml_kem@,
            encapsulation_key: self.ml_kem_encapsulation_key@,
            x25519_private: self.x25519_private@,
            x25519_public: self.x25519_public@,
        }
    }
}

impl HybridShape {
    /// The share on the wire: encapsulation key first.
    pub open spec fn share(self) -> Seq<u8> {
        self.encapsulation_key + self.x25519_public
    }

    /// A pair whose public halves have their lengths and belong to the private
    /// one.
    pub open spec fn is_pair(self) -> bool {
        &&& self.encapsulation_key.len() == ML_KEM_768_ENCAPSULATION_KEY_LEN
        &&& self.x25519_private.len() == X25519_LEN
        &&& public_key_of(self.x25519_private) == Ok::<Seq<u8>, Fault>(self.x25519_public)
    }
}

/// The pair that ML-KEM keys and an X25519 private key make.
pub open spec fn hybrid_of(ml_kem: Seq<u8>, encapsulation_key: Seq<u8>, private: Seq<u8>) -> Result<
    HybridShape,
    Fault,
> {
    if encapsulation_key.len() != ML_KEM_768_ENCAPSULATION_KEY_LEN {
        Err(other_fault("ML-KEM-768 encapsulation key has an unexpected length"@))
    } else {
        match public_key_of(private) {
            Err(fault) => Err(fault),
            Ok(public) => Ok(
                HybridShape {
                    ml_kem,
                    encapsulation_key,
                    x25519_private: private,
                    x25519_public: public,
                },
            ),
        }
    }
}

impl HybridKeyExchange {
    /// The pair that ML-KEM keys and an X25519 private key make.
    pub fn from_keys(ml_kem: Vec<u8>, encapsulation_key: Vec<u8>, private: [u8; 32]) -> (result:
        Result<HybridKeyExchange, WireError>)
        ensures
            match hybrid_of(ml_kem@, encapsulation_key@, private@) {
                Ok(shape) => result matches Ok(pair) && pair@ == shape,
                Err(fault) => result matches Err(error) && error@ == fault,
            },
    {
        if encapsulation_key.len() != ML_KEM_768_ENCAPSULATION_KEY_LEN {
            return Err(
                WireError::new(
                    ErrorKind::Other,
                    "ML-KEM-768 encapsulation key has an unexpected length",
                ),
            );
        }
        match x25519_public_key(&private) {
            Err(error) => Err(error),
            Ok(public) => Ok(
                HybridKeyExchange {
                    ml_kem,
                    ml_kem_encapsulation_key: encapsulation_key,
                    x25519_private: private,
                    x25519_public: public,
                },
            ),
        }
    }

    /// A pair of fresh keys.
    fn generate() -> (result: Result<HybridKeyExchange, WireError>)
        ensures
            result matches Ok(pair) ==> pair@.is_pair(),
            result matches Err(error) ==> hybrid_fault(error@),
    {
        match ml_kem_generate() {
            Err(step) => {
                if step == 0 {
                    Err(WireError::new(ErrorKind::Other, "failed to generate an ML-KEM-768 key"))
                } else {
                    Err(
                        WireError::new(
                            ErrorKind::Other,
                            "failed to encode the ML-KEM-768 encapsulation key",
                        ),
                    )
                }
            },
            Ok((ml_kem, encapsulation_key)) => {
                let private: [u8; 32] = random_bytes();
                assert(public_key_of(private@) is Ok || public_key_of(private@) is Err);
                HybridKeyExchange::from_keys(ml_kem, encapsulation_key, private)
            },
        }
    }
}

/// The client's private key exchange material for one connection.
pub struct ClientKeyExchange {
    x25519_private: [u8; 32],
    x25519_public: [u8; 32],
    hybrid: Option<HybridKeyExchange>,
    p256: Option<P256KeyExchange>,
}

/// What a client's key exchange holds.
pub struct ExchangeShape {
    pub x25519_private: Seq<u8>,
    pub x25519_public: Seq<u8>,
    pub hybrid: Option<HybridShape>,
    pub p256: Option<P256Shape>,
}

impl View for ClientKeyExchange {
    type V = ExchangeShape;

    closed spec fn view(&self) -> ExchangeShape {
        ExchangeShape {
            x25519_private: self.x25519_private@,
            x25519_public: self.x25519_public@,
            hybrid: match self.hybrid {
                Some(hybrid) => Some(hybrid@),
                None => None,
            },
            p256: match self.p256 {
                Some(p256) => Some(p256@),
                None => None,
            },
        }
    }
}

/// The share that an exchange sends for a group.
pub open spec fn share_for(exchange: ExchangeShape, group: NamedGroup) -> Option<Seq<u8>> {
    match group {
        NamedGroup::X25519 => Some(exchange.x25519_public),
        NamedGroup::Secp256r1 => match exchange.p256 {
            Some(p256) => Some(p256.public),
            None => None,
        },
        NamedGroup::X25519MlKem768 => match exchange.hybrid {
            Some(hybrid) => Some(hybrid.share()),
            None => None,
        },
        _ => None,
    }
}

/// The secret that a hybrid pair shares with a server: the ML-KEM secret, then
/// the X25519 secret.
pub open spec fn hybrid_secret(hybrid: HybridShape, ciphertext: Seq<u8>, peer: Seq<u8>) -> Result<
    Seq<u8>,
    Fault,
> {
    match ml_kem_decapsulation(hybrid.ml_kem, ciphertext) {
        None => Err(invalid_data("REALITY ML-KEM-768 decapsulation failed"@)),
        Some(ml_kem_secret) => match agreement_of(hybrid.x25519_private, peer) {
            Err(fault) => Err(fault),
            Ok(ecdh_secret) => if ml_kem_secret.len() + ecdh_secret.len()
                != X25519MLKEM768_SHARED_SECRET_LEN {
                Err(invalid_data("REALITY hybrid shared secret has an unexpected length"@))
            } else {
                Ok(ml_kem_secret + ecdh_secret)
            },
        },
    }
}

/// The secret that an exchange shares with a server that sent `share`.
pub open spec fn completed(exchange: ExchangeShape, share: ShareShape) -> Result<Seq<u8>, Fault> {
    match share {
        ShareShape::X25519(peer) => agreement_of(exchange.x25519_private, peer),
        ShareShape::Secp256r1(peer) => match exchange.p256 {
            None => Err(
                invalid_data(
                    "REALITY server answered with secp256r1, which this hello did not offer a share for"@,
                ),
            ),
            Some(p256) => p256_agreement_of(p256.private, peer),
        },
        ShareShape::X25519MlKem768 { ml_kem_ciphertext, x25519 } => match exchange.hybrid {
            None => Err(
                invalid_data(
                    "REALITY server answered with X25519MLKEM768, which this hello did not offer a share for"@,
                ),
            ),
            Some(hybrid) => hybrid_secret(hybrid, ml_kem_ciphertext, x25519),
        },
    }
}

/// The first of the first `n` groups that no share can be made for.
pub open spec fn first_unexecutable(groups: Seq<NamedGroup>, n: nat) -> Option<NamedGroup>
    decreases n,
{
    if n == 0 {
        None
    } else {
        match first_unexecutable(groups, (n - 1) as nat) {
            Some(group) => Some(group),
            None => if groups[n - 1].spec_is_executable() {
                None
            } else {
                Some(groups[n - 1])
            },
        }
    }
}

/// The fault for a group that no share can be made for.
pub open spec fn unexecutable_fault(group: NamedGroup) -> Fault {
    (
        ErrorKind::Unsupported,
        "REALITY hello profile asks for a "@ + group.spec_name()
            + " key share this build cannot execute"@,
    )
}

/// The faults that come from making an X25519 pair.
pub open spec fn public_key_fault(fault: Fault) -> bool {
    exists|private: [u8; 32]| (#[trigger] public_key_of(private@)) == Err::<Seq<u8>, Fault>(fault)
}

/// The faults that come from making a hybrid pair.
pub open spec fn hybrid_fault(fault: Fault) -> bool {
    ||| fault == other_fault("failed to generate an ML-KEM-768 key"@)
    ||| fault == other_fault("failed to encode the ML-KEM-768 encapsulation key"@)
    ||| fault == other_fault("ML-KEM-768 encapsulation key has an unexpected length"@)
    ||| public_key_fault(fault)
}

/// The faults that come from making a P-256 pair.
pub open spec fn p256_fault(fault: Fault) -> bool {
    ||| fault == other_fault("failed to generate a P-256 key"@)
    ||| fault == other_fault("failed to compute a P-256 public key"@)
    ||| fault == other_fault("P-256 public key is not an uncompressed SEC1 point"@)
}

/// The faults that come from making the keys for `groups`: each only where a
/// group needs the pair.
pub open spec fn generation_fault(groups: Seq<NamedGroup>, fault: Fault) -> bool {
    ||| public_key_fault(fault)
    ||| groups.contains(NamedGroup::X25519MlKem768) && hybrid_fault(fault)
    ||| groups.contains(NamedGroup::Secp256r1) && p256_fault(fault)
}

/// The faults of making an exchange for `groups`: a generator's, or the refusal
/// of the first group that no share can be made for.
pub open spec fn exchange_fault(groups: Seq<NamedGroup>, fault: Fault) -> bool {
    ||| generation_fault(groups, fault)
    ||| first_unexecutable(groups, groups.len()) matches Some(group) && fault
        == unexecutable_fault(group)
}

/// Whether `group` has to be refused whatever the generators do: no share can be
/// made for it, and the groups before it need no pair but the plain one.
pub open spec fn refused_outright(groups: Seq<NamedGroup>, group: NamedGroup) -> bool {
    exists|i: int|
        {
            &&& 0 <= i < groups.len()
            &&& #[trigger] groups[i] == group
            &&& !group.spec_is_executable()
            &&& forall|j: int| 0 <= j < i ==> groups[j] == NamedGroup::X25519
        }
}

/// The exchange that keys make: with reuse, the plain pair is the hybrid's
/// classical one, where there is a hybrid.
pub open spec fn assembled(
    reuse: bool,
    private: Seq<u8>,
    hybrid: Option<HybridShape>,
    p256: Option<P256Shape>,
) -> Result<ExchangeShape, Fault> {
    match hybrid {
        Some(pair) if reuse => Ok(
            ExchangeShape {
                x25519_private: pair.x25519_private,
                x25519_public: pair.x25519_public,
                hybrid,
                p256,
            },
        ),
        _ => match public_key_of(private) {
            Err(fault) => Err(fault),
            Ok(public) => Ok(
                ExchangeShape { x25519_private: private, x25519_public: public, hybrid, p256 },
            ),
        },
    }
}

/// What holds of the exchange that is made for `groups`.
pub open spec fn serves(exchange: ExchangeShape, groups: Seq<NamedGroup>, reuse: bool) -> bool {
    &&& exchange.x25519_private.len() == X25519_LEN
    &&& public_key_of(exchange.x25519_private) == Ok::<Seq<u8>, Fault>(exchange.x25519_public)
    &&& exchange.hybrid is Some <==> groups.contains(NamedGroup::X25519MlKem768)
    &&& exchange.p256 is Some <==> groups.contains(NamedGroup::Secp256r1)
    &&& exchange.hybrid matches Some(hybrid) ==> {
        &&& hybrid.is_pair()
        &&& reuse ==> exchange.x25519_private == hybrid.x25519_private
            && exchange.x25519_public == hybrid.x25519_public
    }
    &&& exchange.p256 matches Some(p256) ==> p256_point_of(p256.private) == Ok::<Seq<u8>, Fault>(
        p256.public,
    )
    &&& forall|i: int| 0 <= i < groups.len() ==> (#[trigger] groups[i]).spec_is_executable()
}

impl ClientKeyExchange {
    /// Generate the private material for `groups`, each key of its own.
    pub fn generate(groups: &[NamedGroup]) -> (result: Result<ClientKeyExchange, WireError>)
        ensures
            result matches Ok(exchange) ==> serves(exchange@, groups@, false),
            result matches Err(error) ==> exchange_fault(groups@, error@),
            forall|group: NamedGroup| #[trigger]
                refused_outright(groups@, group) ==> (result matches Err(error) && error@
                    == unexecutable_fault(group)),
    {
        Self::generate_with_reuse(groups, false)
    }

    /// Generate the private material for `groups`. With `reuse_classical` the
    /// plain share carries the same public key as the hybrid's classical half.
    ///
    /// The keys are fresh, so success rests on the generators; a group that no
    /// share can be made for is always refused.
    pub fn generate_with_reuse(groups: &[NamedGroup], reuse_classical: bool) -> (result: Result<
        ClientKeyExchange,
        WireError,
    >)
        ensures
            result matches Ok(exchange) ==> serves(exchange@, groups@, reuse_classical),
            result matches Err(error) ==> exchange_fault(groups@, error@),
            forall|group: NamedGroup| #[trigger]
                refused_outright(groups@, group) ==> (result matches Err(error) && error@
                    == unexecutable_fault(group)),
    {
        let mut hybrid: Option<HybridKeyExchange> = None;
        let mut p256: Option<P256KeyExchange> = None;
        for i in 0..groups.len()
            invariant
                first_unexecutable(groups@, i as nat) is None,
                forall|j: int| 0 <= j < i ==> (#[trigger] groups@[j]).spec_is_executable(),
                hybrid is Some <==> groups@.subrange(0, i as int).contains(
                    NamedGroup::X25519MlKem768,
                ),
                p256 is Some <==> groups@.subrange(0, i as int).contains(NamedGroup::Secp256r1),
                hybrid matches Some(pair) ==> pair@.is_pair(),
                p256 matches Some(pair) ==> p256_point_of(pair@.private) == Ok::<Seq<u8>, Fault>(
                    pair@.public,
                ),
        {
            let ghost before = groups@.subrange(0, i as int);
            let ghost after = groups@.subrange(0, i + 1);
            proof {
                assert(after =~= before.push(groups@[i as int]));
                assert(after[i as int] == groups@[i as int]);
                assert forall|group: NamedGroup| before.contains(group) implies after.contains(
                    group,
                ) by {
                    let k = before.index_of(group);
                    assert(after[k] == group);
                }
                assert forall|group: NamedGroup|
                    after.contains(group) && group != groups@[i as int] implies before.contains(
                    group,
                ) by {
                    let k = after.index_of(group);
                    assert(before[k] == group);
                }
            }
            match groups[i] {
                NamedGroup::X25519 => {},
                NamedGroup::X25519MlKem768 => {
                    if hybrid.is_none() {
                        match HybridKeyExchange::generate() {
                            Ok(pair) => {
                                hybrid = Some(pair);
                            },
                            Err(error) => {
                                return Err(error);
                            },
                        }
                    }
                },
                NamedGroup::Secp256r1 => {
                    if p256.is_none() {
                        match P256KeyExchange::generate() {
                            Ok(pair) => {
                                p256 = Some(pair);
                            },
                            Err(error) => {
                                return Err(error);
                            },
                        }
                    }
                },
                other => {
                    let mut message = text_of("REALITY hello profile asks for a ");
                    message.append(other.name());
                    message.append(" key share this build cannot execute");
                    proof {
                        lemma_unexecutable_stays(groups@, (i + 1) as nat, groups@.len());
                    }
                    return Err(WireError { kind: ErrorKind::Unsupported, message });
                },
            }
        }
        assert(groups@.subrange(0, groups@.len() as int) =~= groups@);
        let private: [u8; 32] = random_bytes();
        assert(public_key_of(private@) is Ok || public_key_of(private@) is Err);
        Self::assemble(reuse_classical, private, hybrid, p256)
    }

    /// Put an exchange together from keys that are at hand.
    pub fn assemble(
        reuse_classical: bool,
        private: [u8; 32],
        hybrid: Option<HybridKeyExchange>,
        p256: Option<P256KeyExchange>,
    ) -> (result: Result<ClientKeyExchange, WireError>)
        ensures
            match assembled(
                reuse_classical,
                private@,
                match hybrid {
                    Some(pair) => Some(pair@),
                    None => None,
                },
                match p256 {
                    Some(pair) => Some(pair@),
                    None => None,
                },
            ) {
                Ok(shape) => result matches Ok(exchange) && exchange@ == shape,
                Err(fault) => result matches Err(error) && error@ == fault,
            },
    {
        if reuse_classical {
            if let Some(pair) = hybrid {
                return Ok(
                    ClientKeyExchange {
                        x25519_private: pair.x25519_private,
                        x25519_public: pair.x25519_public,
                        hybrid: Some(pair),
                        p256,
                    },
                );
            }
        }
        match x25519_public_key(&private) {
            Err(error) => Err(error),
            Ok(public) => Ok(
                ClientKeyExchange { x25519_private: private, x25519_public: public, hybrid, p256 },
            ),
        }
    }

    /// The private key that authenticates the client: the one behind the plain
    /// share.
    pub fn reality_private_key(&self) -> (private: &[u8; 32])
        ensures
            private@ == self@.x25519_private,
    {
        &self.x25519_private
    }

    /// Wire bytes of the `key_share` entry for `group`.
    pub fn share_bytes(&self, group: NamedGroup) -> (share: Option<Vec<u8>>)
        ensures
            match share_for(self@, group) {
                Some(bytes) => share matches Some(actual) && actual@ == bytes,
                None => share is None,
            },
    {
        match group {
            NamedGroup::X25519 => Some(to_vec(self.x25519_public.as_slice())),
            NamedGroup::Secp256r1 => match &self.p256 {
                Some(p256) => Some(to_vec(p256.public.as_slice())),
                None => None,
            },
            NamedGroup::X25519MlKem768 => match &self.hybrid {
                Some(hybrid) => {
                    let mut share = to_vec(hybrid.ml_kem_encapsulation_key.as_slice());
                    push_bytes(&mut share, hybrid.x25519_public.as_slice());
                    Some(share)
                },
                None => None,
            },
            _ => None,
        }
    }

    /// Complete the exchange against the server's share.
    ///
    /// Returns the input to the key schedule: 32 bytes for the plain groups, 64
    /// for the hybrid.
    pub fn complete(&self, server_share: &ServerKeyShare) -> (result: Result<Vec<u8>, WireError>)
        ensures
            match completed(self@, server_share@) {
                Ok(secret) => result matches Ok(actual) && actual@ == secret,
                Err(fault) => result matches Err(error) && error@ == fault,
            },
    {
        match server_share {
            ServerKeyShare::X25519(peer) => match x25519_agree(&self.x25519_private, peer) {
                Ok(secret) => Ok(to_vec(secret.as_slice())),
                Err(error) => Err(error),
            },
            ServerKeyShare::Secp256r1(peer) => match &self.p256 {
                None => Err(
                    WireError::new(
                        ErrorKind::InvalidData,
                        "REALITY server answered with secp256r1, which this hello did not offer a share for",
                    ),
                ),
                Some(p256) => p256.agree(peer.as_slice()),
            },
            ServerKeyShare::X25519MlKem768 { ml_kem_ciphertext, x25519 } => match &self.hybrid {
                None => Err(
                    WireError::new(
                        ErrorKind::InvalidData,
                        "REALITY server answered with X25519MLKEM768, which this hello did not offer a share for",
                    ),
                ),
                Some(hybrid) => hybrid.secret_with(ml_kem_ciphertext.as_slice(), x25519),
            },
        }
    }
}

impl HybridKeyExchange {
    fn secret_with(&self, ciphertext: &[u8], peer: &[u8; 32]) -> (result: Result<
        Vec<u8>,
        WireError,
    >)
        ensures
            match hybrid_secret(self@, ciphertext@, peer@) {
                Ok(secret) => result matches Ok(actual) && actual@ == secret,
                Err(fault) => result matches Err(error) && error@ == fault,
            },
    {
        let mut secret = match ml_kem_decapsulate(self.ml_kem.as_slice(), ciphertext) {
            Some(secret) => secret,
            None => {
                return Err(
                    WireError::new(
                        ErrorKind::InvalidData,
                        "REALITY ML-KEM-768 decapsulation failed",
                    ),
                );
            },
        };
        match x25519_agree(&self.x25519_private, peer) {
            Err(error) => Err(error),
            Ok(ecdh_secret) => {
                push_bytes(&mut secret, ecdh_secret.as_slice());
                if secret.len() != X25519MLKEM768_SHARED_SECRET_LEN {
                    wipe(&mut secret);
                    return Err(
                        WireError::new(
                            ErrorKind::InvalidData,
                            "REALITY hybrid shared secret has an unexpected length",
                        ),
                    );
                }
                Ok(secret)
            },
        }
    }
}

proof fn lemma_unexecutable_stays(groups: Seq<NamedGroup>, n: nat, m: nat)
    requires
        n <= m,
        first_unexecutable(groups, n) is Some,
    ensures
        first_unexecutable(groups, m) == first_unexecutable(groups, n),
    decreases m,
{
    if n < m {
        lemma_unexecutable_stays(groups, n, (m - 1) as nat);
    }
}

/// The hybrid share is the encapsulation key followed by the classical key, and
/// with reuse that classical key is the plain share.
pub proof fn reuse_repeats_the_classical_key(
    exchange: ExchangeShape,
    groups: Seq<NamedGroup>,
    reuse: bool,
)
    requires
        serves(exchange, groups, reuse),
        groups.contains(NamedGroup::X25519MlKem768),
    ensures
        share_for(exchange, NamedGroup::X25519MlKem768) matches Some(hybrid) && {
            &&& hybrid.len() == X25519MLKEM768_CLIENT_SHARE_LEN
            &&& reuse ==> share_for(exchange, NamedGroup::X25519) == Some(
                hybrid.subrange(
                    ML_KEM_768_ENCAPSULATION_KEY_LEN as int,
                    X25519MLKEM768_CLIENT_SHARE_LEN as int,
                ),
            )
        },
{
    let hybrid = exchange.hybrid->0;
    let share = hybrid.share();
    assert(share.subrange(
        ML_KEM_768_ENCAPSULATION_KEY_LEN as int,
        X25519MLKEM768_CLIENT_SHARE_LEN as int,
    ) =~= hybrid.x25519_public);
}

} // verus!
