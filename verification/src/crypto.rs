//! The cryptographic primitives, each the call of one function of an outside
//! crate. What a call returns is named, not described: the names below stand
//! for the results, and the protocol modules speak of those names.
use aws_lc_rs::{aead, agreement, digest, hmac, kem, signature};
use vstd::prelude::*;

verus! {

/// The SHA-256 digest of `data`.
pub uninterp spec fn sha256_of(data: Seq<u8>) -> Seq<u8>;

/// `aws_lc_rs::digest::digest` with SHA-256: 32 bytes that depend on the
/// data alone.
#[verifier::external_body]
pub(crate) fn sha256(data: &[u8]) -> (hash: Vec<u8>)
    ensures
        hash@ == sha256_of(data@),
        hash@.len() == 32,
{
    digest::digest(&digest::SHA256, data).as_ref().to_vec()
}

/// The SHA-384 digest of `data`.
pub uninterp spec fn sha384_of(data: Seq<u8>) -> Seq<u8>;

/// `aws_lc_rs::digest::digest` with SHA-384: 48 bytes that depend on the
/// data alone.
#[verifier::external_body]
pub(crate) fn sha384(data: &[u8]) -> (hash: Vec<u8>)
    ensures
        hash@ == sha384_of(data@),
        hash@.len() == 48,
{
    digest::digest(&digest::SHA384, data).as_ref().to_vec()
}

/// The HMAC-SHA256 tag of `data` under `key`.
pub uninterp spec fn hmac_sha256_of(key: Seq<u8>, data: Seq<u8>) -> Seq<u8>;

/// `aws_lc_rs::hmac::sign` with HMAC-SHA256: 32 bytes that depend on the key
/// and the data.
#[verifier::external_body]
pub(crate) fn hmac_sha256(key: &[u8], data: &[u8]) -> (tag: Vec<u8>)
    ensures
        tag@ == hmac_sha256_of(key@, data@),
        tag@.len() == 32,
{
    hmac::sign(&hmac::Key::new(hmac::HMAC_SHA256, key), data).as_ref().to_vec()
}

/// The HMAC-SHA384 tag of `data` under `key`.
pub uninterp spec fn hmac_sha384_of(key: Seq<u8>, data: Seq<u8>) -> Seq<u8>;

/// `aws_lc_rs::hmac::sign` with HMAC-SHA384: 48 bytes that depend on the key
/// and the data.
#[verifier::external_body]
pub(crate) fn hmac_sha384(key: &[u8], data: &[u8]) -> (tag: Vec<u8>)
    ensures
        tag@ == hmac_sha384_of(key@, data@),
        tag@.len() == 48,
{
    hmac::sign(&hmac::Key::new(hmac::HMAC_SHA384, key), data).as_ref().to_vec()
}

/// The HMAC-SHA512 tag of `data` under `key`.
pub uninterp spec fn hmac_sha512_of(key: Seq<u8>, data: Seq<u8>) -> Seq<u8>;

/// `aws_lc_rs::hmac::sign` with HMAC-SHA512: 64 bytes that depend on the key
/// and the data.
#[verifier::external_body]
pub(crate) fn hmac_sha512(key: &[u8], data: &[u8]) -> (tag: Vec<u8>)
    ensures
        tag@ == hmac_sha512_of(key@, data@),
        tag@.len() == 64,
{
    hmac::sign(&hmac::Key::new(hmac::HMAC_SHA512, key), data).as_ref().to_vec()
}

/// What AES-128-GCM seals: ciphertext and tag, or nothing where it refuses.
pub uninterp spec fn aes_128_gcm_sealed(
    key: Seq<u8>,
    nonce: Seq<u8>,
    aad: Seq<u8>,
    plaintext: Seq<u8>,
) -> Option<Seq<u8>>;

/// What AES-128-GCM opens, or nothing where it refuses.
pub uninterp spec fn aes_128_gcm_opened(
    key: Seq<u8>,
    nonce: Seq<u8>,
    aad: Seq<u8>,
    sealed: Seq<u8>,
) -> Option<Seq<u8>>;

/// `aws_lc_rs::aead::LessSafeKey::seal_in_place_append_tag` with AES-128-GCM. The
/// result depends on the four arguments, is sixteen bytes longer than the
/// plaintext, and opens to that plaintext again.
#[verifier::external_body]
pub(crate) fn aes_128_gcm_seal(key: &[u8], nonce: &[u8], aad: &[u8], plaintext: &[u8]) -> (sealed: Option<
    Vec<u8>,
>)
    ensures
        match aes_128_gcm_sealed(key@, nonce@, aad@, plaintext@) {
            Some(bytes) => sealed matches Some(actual) && actual@ == bytes,
            None => sealed is None,
        },
        sealed matches Some(actual) ==> actual@.len() == plaintext@.len() + 16
            && aes_128_gcm_opened(key@, nonce@, aad@, actual@) == Some(plaintext@),
{
    let key = aead::LessSafeKey::new(aead::UnboundKey::new(&aead::AES_128_GCM, key).ok()?);
    let nonce = aead::Nonce::try_assume_unique_for_key(nonce).ok()?;
    let mut sealed = plaintext.to_vec();
    key.seal_in_place_append_tag(nonce, aead::Aad::from(aad), &mut sealed).ok()?;
    Some(sealed)
}

/// `aws_lc_rs::aead::LessSafeKey::open_in_place` with AES-128-GCM. The result
/// depends on the four arguments and is sixteen bytes shorter than the sealed
/// bytes.
#[verifier::external_body]
pub(crate) fn aes_128_gcm_open(key: &[u8], nonce: &[u8], aad: &[u8], sealed: &[u8]) -> (opened: Option<
    Vec<u8>,
>)
    ensures
        match aes_128_gcm_opened(key@, nonce@, aad@, sealed@) {
            Some(bytes) => opened matches Some(actual) && actual@ == bytes,
            None => opened is None,
        },
        opened matches Some(actual) ==> actual@.len() + 16 == sealed@.len(),
{
    let key = aead::LessSafeKey::new(aead::UnboundKey::new(&aead::AES_128_GCM, key).ok()?);
    let nonce = aead::Nonce::try_assume_unique_for_key(nonce).ok()?;
    let mut buffer = sealed.to_vec();
    let plaintext = key.open_in_place(nonce, aead::Aad::from(aad), &mut buffer).ok()?;
    Some(plaintext.to_vec())
}

/// What AES-256-GCM seals: ciphertext and tag, or nothing where it refuses.
pub uninterp spec fn aes_256_gcm_sealed(
    key: Seq<u8>,
    nonce: Seq<u8>,
    aad: Seq<u8>,
    plaintext: Seq<u8>,
) -> Option<Seq<u8>>;

/// What AES-256-GCM opens, or nothing where it refuses.
pub uninterp spec fn aes_256_gcm_opened(
    key: Seq<u8>,
    nonce: Seq<u8>,
    aad: Seq<u8>,
    sealed: Seq<u8>,
) -> Option<Seq<u8>>;

/// `aws_lc_rs::aead::LessSafeKey::seal_in_place_append_tag` with AES-256-GCM. The
/// result depends on the four arguments, is sixteen bytes longer than the
/// plaintext, and opens to that plaintext again.
#[verifier::external_body]
pub(crate) fn aes_256_gcm_seal(key: &[u8], nonce: &[u8], aad: &[u8], plaintext: &[u8]) -> (sealed: Option<
    Vec<u8>,
>)
    ensures
        match aes_256_gcm_sealed(key@, nonce@, aad@, plaintext@) {
            Some(bytes) => sealed matches Some(actual) && actual@ == bytes,
            None => sealed is None,
        },
        sealed matches Some(actual) ==> actual@.len() == plaintext@.len() + 16
            && aes_256_gcm_opened(key@, nonce@, aad@, actual@) == Some(plaintext@),
{
    let key = aead::LessSafeKey::new(aead::UnboundKey::new(&aead::AES_256_GCM, key).ok()?);
    let nonce = aead::Nonce::try_assume_unique_for_key(nonce).ok()?;
    let mut sealed = plaintext.to_vec();
    key.seal_in_place_append_tag(nonce, aead::Aad::from(aad), &mut sealed).ok()?;
    Some(sealed)
}

/// `aws_lc_rs::aead::LessSafeKey::open_in_place` with AES-256-GCM. The result
/// depends on the four arguments and is sixteen bytes shorter than the sealed
/// bytes.
#[verifier::external_body]
pub(crate) fn aes_256_gcm_open(key: &[u8], nonce: &[u8], aad: &[u8], sealed: &[u8]) -> (opened: Option<
    Vec<u8>,
>)
    ensures
        match aes_256_gcm_opened(key@, nonce@, aad@, sealed@) {
            Some(bytes) => opened matches Some(actual) && actual@ == bytes,
            None => opened is None,
        },
        opened matches Some(actual) ==> actual@.len() + 16 == sealed@.len(),
{
    let key = aead::LessSafeKey::new(aead::UnboundKey::new(&aead::AES_256_GCM, key).ok()?);
    let nonce = aead::Nonce::try_assume_unique_for_key(nonce).ok()?;
    let mut buffer = sealed.to_vec();
    let plaintext = key.open_in_place(nonce, aead::Aad::from(aad), &mut buffer).ok()?;
    Some(plaintext.to_vec())
}

/// What ChaCha20-Poly1305 seals: ciphertext and tag, or nothing where it refuses.
pub uninterp spec fn chacha20_poly1305_sealed(
    key: Seq<u8>,
    nonce: Seq<u8>,
    aad: Seq<u8>,
    plaintext: Seq<u8>,
) -> Option<Seq<u8>>;

/// What ChaCha20-Poly1305 opens, or nothing where it refuses.
pub uninterp spec fn chacha20_poly1305_opened(
    key: Seq<u8>,
    nonce: Seq<u8>,
    aad: Seq<u8>,
    sealed: Seq<u8>,
) -> Option<Seq<u8>>;

/// `aws_lc_rs::aead::LessSafeKey::seal_in_place_append_tag` with ChaCha20-Poly1305. The
/// result depends on the four arguments, is sixteen bytes longer than the
/// plaintext, and opens to that plaintext again.
#[verifier::external_body]
pub(crate) fn chacha20_poly1305_seal(key: &[u8], nonce: &[u8], aad: &[u8], plaintext: &[u8]) -> (sealed: Option<
    Vec<u8>,
>)
    ensures
        match chacha20_poly1305_sealed(key@, nonce@, aad@, plaintext@) {
            Some(bytes) => sealed matches Some(actual) && actual@ == bytes,
            None => sealed is None,
        },
        sealed matches Some(actual) ==> actual@.len() == plaintext@.len() + 16
            && chacha20_poly1305_opened(key@, nonce@, aad@, actual@) == Some(plaintext@),
{
    let key = aead::LessSafeKey::new(aead::UnboundKey::new(&aead::CHACHA20_POLY1305, key).ok()?);
    let nonce = aead::Nonce::try_assume_unique_for_key(nonce).ok()?;
    let mut sealed = plaintext.to_vec();
    key.seal_in_place_append_tag(nonce, aead::Aad::from(aad), &mut sealed).ok()?;
    Some(sealed)
}

/// `aws_lc_rs::aead::LessSafeKey::open_in_place` with ChaCha20-Poly1305. The result
/// depends on the four arguments and is sixteen bytes shorter than the sealed
/// bytes.
#[verifier::external_body]
pub(crate) fn chacha20_poly1305_open(key: &[u8], nonce: &[u8], aad: &[u8], sealed: &[u8]) -> (opened: Option<
    Vec<u8>,
>)
    ensures
        match chacha20_poly1305_opened(key@, nonce@, aad@, sealed@) {
            Some(bytes) => opened matches Some(actual) && actual@ == bytes,
            None => opened is None,
        },
        opened matches Some(actual) ==> actual@.len() + 16 == sealed@.len(),
{
    let key = aead::LessSafeKey::new(aead::UnboundKey::new(&aead::CHACHA20_POLY1305, key).ok()?);
    let nonce = aead::Nonce::try_assume_unique_for_key(nonce).ok()?;
    let mut buffer = sealed.to_vec();
    let plaintext = key.open_in_place(nonce, aead::Aad::from(aad), &mut buffer).ok()?;
    Some(plaintext.to_vec())
}

/// The X25519 public key of a private key. The error is 0 where the private
/// key is refused and 1 where the public key cannot be computed.
pub uninterp spec fn x25519_public_of(private: Seq<u8>) -> Result<Seq<u8>, u8>;

/// The raw secret that a private key and a peer's public key agree on. The
/// error is 0 where the private key is refused and 1 where the agreement fails.
pub uninterp spec fn x25519_secret_of(private: Seq<u8>, peer: Seq<u8>) -> Result<Seq<u8>, u8>;

/// `aws_lc_rs::agreement::PrivateKey::compute_public_key` for X25519, on the key
/// made of the given bytes. The result depends on those bytes alone.
#[verifier::external_body]
pub(crate) fn x25519_public(private: &[u8]) -> (public: Result<Vec<u8>, u8>)
    ensures
        match x25519_public_of(private@) {
            Ok(bytes) => public matches Ok(actual) && actual@ == bytes,
            Err(step) => public == Err::<Vec<u8>, u8>(step),
        },
{
    let key = agreement::PrivateKey::from_private_key(&agreement::X25519, private)
        .map_err(|_| 0_u8)?;
    let public = key.compute_public_key().map_err(|_| 1_u8)?;
    Ok(public.as_ref().to_vec())
}

/// `aws_lc_rs::agreement::agree` for X25519, on the key made of the given bytes.
/// The result depends on that key and the peer's.
#[verifier::external_body]
pub(crate) fn x25519_agree(private: &[u8], peer: &[u8]) -> (secret: Result<Vec<u8>, u8>)
    ensures
        match x25519_secret_of(private@, peer@) {
            Ok(bytes) => secret matches Ok(actual) && actual@ == bytes,
            Err(step) => secret == Err::<Vec<u8>, u8>(step),
        },
{
    let key = agreement::PrivateKey::from_private_key(&agreement::X25519, private)
        .map_err(|_| 0_u8)?;
    let peer = agreement::UnparsedPublicKey::new(&agreement::X25519, peer);
    agreement::agree(&key, peer, 1_u8, |material| Ok(material.to_vec()))
}

/// The P-256 public key of a private key. The error is 0 where the private
/// key is refused and 1 where the public key cannot be computed.
pub uninterp spec fn p256_public_of(private: Seq<u8>) -> Result<Seq<u8>, u8>;

/// The raw secret that a private key and a peer's public key agree on. The
/// error is 0 where the private key is refused and 1 where the agreement fails.
pub uninterp spec fn p256_secret_of(private: Seq<u8>, peer: Seq<u8>) -> Result<Seq<u8>, u8>;

/// `aws_lc_rs::agreement::PrivateKey::compute_public_key` for P-256, on the key
/// made of the given bytes. The result depends on those bytes alone.
#[verifier::external_body]
pub(crate) fn p256_public(private: &[u8]) -> (public: Result<Vec<u8>, u8>)
    ensures
        match p256_public_of(private@) {
            Ok(bytes) => public matches Ok(actual) && actual@ == bytes,
            Err(step) => public == Err::<Vec<u8>, u8>(step),
        },
{
    let key = agreement::PrivateKey::from_private_key(&agreement::ECDH_P256, private)
        .map_err(|_| 0_u8)?;
    let public = key.compute_public_key().map_err(|_| 1_u8)?;
    Ok(public.as_ref().to_vec())
}

/// `aws_lc_rs::agreement::agree` for P-256, on the key made of the given bytes.
/// The result depends on that key and the peer's.
#[verifier::external_body]
pub(crate) fn p256_agree(private: &[u8], peer: &[u8]) -> (secret: Result<Vec<u8>, u8>)
    ensures
        match p256_secret_of(private@, peer@) {
            Ok(bytes) => secret matches Ok(actual) && actual@ == bytes,
            Err(step) => secret == Err::<Vec<u8>, u8>(step),
        },
{
    let key = agreement::PrivateKey::from_private_key(&agreement::ECDH_P256, private)
        .map_err(|_| 0_u8)?;
    let peer = agreement::UnparsedPublicKey::new(&agreement::ECDH_P256, peer);
    agreement::agree(&key, peer, 1_u8, |material| Ok(material.to_vec()))
}

/// `aws_lc_rs::agreement::PrivateKey::generate` for P-256, as the big-endian
/// bytes of the private key. Nothing is claimed of a fresh key.
#[verifier::external_body]
pub(crate) fn p256_generate() -> (private: Option<Vec<u8>>)
{
    let key = agreement::PrivateKey::generate(&agreement::ECDH_P256).ok()?;
    let bytes: aws_lc_rs::encoding::EcPrivateKeyBin<'static> =
        aws_lc_rs::encoding::AsBigEndian::as_be_bytes(&key).ok()?;
    Some(bytes.as_ref().to_vec())
}

/// `aws_lc_rs::kem::DecapsulationKey::generate` for ML-KEM-768, as the raw bytes
/// of the decapsulation key and of its encapsulation key. The error is 0 where
/// no key is made and 1 where it cannot be encoded. Nothing is claimed of a
/// fresh key.
#[verifier::external_body]
pub(crate) fn ml_kem_generate() -> (keys: Result<(Vec<u8>, Vec<u8>), u8>)
{
    let key = kem::DecapsulationKey::generate(&kem::ML_KEM_768).map_err(|_| 0_u8)?;
    let public = key.encapsulation_key().map_err(|_| 1_u8)?;
    let private = key.key_bytes().map_err(|_| 1_u8)?;
    let public = public.key_bytes().map_err(|_| 1_u8)?;
    Ok((private.as_ref().to_vec(), public.as_ref().to_vec()))
}

/// The secret that an ML-KEM-768 ciphertext stands for under a decapsulation
/// key, if it can be decapsulated.
pub uninterp spec fn ml_kem_decapsulation(key: Seq<u8>, ciphertext: Seq<u8>) -> Option<Seq<u8>>;

/// `aws_lc_rs::kem::DecapsulationKey::decapsulate` for ML-KEM-768, on the key made
/// of the given bytes. The result depends on the key and the ciphertext.
#[verifier::external_body]
pub(crate) fn ml_kem_decapsulate(key: &[u8], ciphertext: &[u8]) -> (secret: Option<Vec<u8>>)
    ensures
        match ml_kem_decapsulation(key@, ciphertext@) {
            Some(bytes) => secret matches Some(actual) && actual@ == bytes,
            None => secret is None,
        },
{
    let key = kem::DecapsulationKey::new(&kem::ML_KEM_768, key).ok()?;
    let secret = key.decapsulate(kem::Ciphertext::from(ciphertext)).ok()?;
    Some(secret.as_ref().to_vec())
}

/// Whether an Ed25519 signature verifies.
pub uninterp spec fn ed25519_verifies(
    public_key: Seq<u8>,
    message: Seq<u8>,
    signature: Seq<u8>,
) -> bool;

/// `aws_lc_rs::signature::UnparsedPublicKey::verify` with Ed25519: whether the
/// signature verifies, which depends on the three arguments.
#[verifier::external_body]
pub(crate) fn ed25519_verify(public_key: &[u8], message: &[u8], signature_bytes: &[u8]) -> (valid: bool)
    ensures
        valid == ed25519_verifies(public_key@, message@, signature_bytes@),
{
    let key = signature::UnparsedPublicKey::new(&signature::ED25519, public_key);
    key.verify(message, signature_bytes).is_ok()
}

/// The Ed25519 public key of a seed, if the seed makes a key.
pub uninterp spec fn ed25519_public_of(seed: Seq<u8>) -> Option<Seq<u8>>;

/// The Ed25519 signature of a message under a seed's key, if it can be made.
pub uninterp spec fn ed25519_signature_of(seed: Seq<u8>, message: Seq<u8>) -> Option<Seq<u8>>;

/// `aws_lc_rs::signature::Ed25519KeyPair::from_seed_unchecked` and its public key,
/// 32 bytes that depend on the seed alone.
#[verifier::external_body]
pub(crate) fn ed25519_public(seed: &[u8]) -> (public: Option<Vec<u8>>)
    ensures
        match ed25519_public_of(seed@) {
            Some(bytes) => public matches Some(actual) && actual@ == bytes,
            None => public is None,
        },
        public matches Some(actual) ==> actual@.len() == 32,
{
    let pair = signature::Ed25519KeyPair::from_seed_unchecked(seed).ok()?;
    Some(signature::KeyPair::public_key(&pair).as_ref().to_vec())
}

/// `aws_lc_rs::signature::Ed25519KeyPair::try_sign` with the key pair of a seed:
/// 64 bytes that depend on the seed and the message, and that verify under the
/// seed's public key.
#[verifier::external_body]
pub(crate) fn ed25519_sign(seed: &[u8], message: &[u8]) -> (signed: Option<Vec<u8>>)
    ensures
        match ed25519_signature_of(seed@, message@) {
            Some(bytes) => signed matches Some(actual) && actual@ == bytes,
            None => signed is None,
        },
        signed matches Some(actual) ==> actual@.len() == 64,
        signed matches Some(actual) ==> (ed25519_public_of(seed@) matches Some(public)
            ==> ed25519_verifies(public, message@, actual@)),
{
    let pair = signature::Ed25519KeyPair::from_seed_unchecked(seed).ok()?;
    Some(pair.try_sign(message).ok()?.as_ref().to_vec())
}

/// The PKCS #8 document of a seed's Ed25519 key, if it can be made.
pub uninterp spec fn ed25519_pkcs8_of(seed: Seq<u8>) -> Option<Seq<u8>>;

/// `aws_lc_rs::signature::Ed25519KeyPair::to_pkcs8` with the key pair of a seed:
/// a document that depends on the seed alone.
#[verifier::external_body]
pub(crate) fn ed25519_pkcs8(seed: &[u8]) -> (document: Option<Vec<u8>>)
    ensures
        match ed25519_pkcs8_of(seed@) {
            Some(bytes) => document matches Some(actual) && actual@ == bytes,
            None => document is None,
        },
{
    let pair = signature::Ed25519KeyPair::from_seed_unchecked(seed).ok()?;
    Some(pair.to_pkcs8().ok()?.as_ref().to_vec())
}

/// The self-signed certificate of an Ed25519 key for a server name, in DER, if
/// it can be made.
pub uninterp spec fn self_signed_of(pkcs8: Seq<u8>, server_name: Seq<char>) -> Option<Seq<u8>>;

/// `rcgen::CertificateParams::self_signed` with an Ed25519 key: a certificate
/// whose serial number, dates and signature depend on the key and the name
/// alone.
#[verifier::external_body]
pub(crate) fn self_signed(pkcs8: &[u8], server_name: &str) -> (certificate: Option<Vec<u8>>)
    ensures
        match self_signed_of(pkcs8@, server_name@) {
            Some(bytes) => certificate matches Some(actual) && actual@ == bytes,
            None => certificate is None,
        },
{
    let document = rustls_pki_types::PrivatePkcs8KeyDer::from(pkcs8);
    let pair = rcgen::KeyPair::from_pkcs8_der_and_sign_algo(&document, &rcgen::PKCS_ED25519);
    let params = rcgen::CertificateParams::new(vec![server_name.to_owned()]).ok()?;
    Some(params.self_signed(&pair.ok()?).ok()?.der().to_vec())
}

/// `subtle::ConstantTimeEq::ct_eq` on byte strings: whether they are equal, found
/// in time that does not depend on where they differ.
#[verifier::external_body]
pub(crate) fn constant_time_eq(left: &[u8], right: &[u8]) -> (equal: bool)
    ensures
        equal == (left@ == right@),
{
    subtle::ConstantTimeEq::ct_eq(left, right).into()
}

/// `zeroize::Zeroize::zeroize` on a vector of bytes: the bytes are overwritten
/// with zeros and the vector is empty afterwards.
#[verifier::external_body]
pub(crate) fn wipe(secret: &mut Vec<u8>)
    ensures
        final(secret)@.len() == 0,
{
    zeroize::Zeroize::zeroize(secret);
}

} // verus!
