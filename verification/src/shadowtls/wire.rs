//! The pieces of the protocol: chained tags, the signature in the hello, the mask
//! of the proof, and record headers.
use crate::crypto::constant_time_eq;
use crate::error::{invalid_data, ErrorKind, Fault, WireError};
use crate::octets::{be16, copy_array, copy_range, get_u16, get_u24, push_bytes, read16, read24};
use vstd::prelude::*;
use vstd::slice::slice_subrange;

verus! {

pub const TLS_CHANGE_CIPHER_SPEC: u8 = 20;

pub const TLS_ALERT: u8 = 21;

pub const TLS_HANDSHAKE: u8 = 22;

pub const TLS_APPLICATION_DATA: u8 = 23;

/// The version that every record claims.
pub const TLS_LEGACY_VERSION: [u8; 2] = [3, 3];

/// The length of a record header.
pub const RECORD_HEADER: usize = 5;

/// The longest payload that a record header may declare.
pub const MAX_TLS_RECORD: usize = 18 * 1024;

/// The most data that goes into one record, beside its tag.
pub const MAX_DATA_PER_RECORD: usize = 16 * 1024 - 4;

/// A running `hmac::Hmac<sha1::Sha1>`: it collects the bytes that are given to it
/// and tells their tag at any time.
#[verifier::external_body]
pub struct RunningMac {
    inner: hmac::Hmac<sha1::Sha1>,
}

/// The key that a running HMAC was made with.
pub uninterp spec fn mac_key(mac: RunningMac) -> Seq<u8>;

/// The bytes that a running HMAC has collected.
pub uninterp spec fn mac_data(mac: RunningMac) -> Seq<u8>;

/// The HMAC-SHA1 tag of bytes under a key.
pub uninterp spec fn hmac_sha1_of(key: Seq<u8>, data: Seq<u8>) -> Seq<u8>;

/// `hmac::Mac::new_from_slice`, which takes a key of any length: an HMAC that has
/// collected nothing.
#[verifier::external_body]
fn mac_new(key: &[u8]) -> (mac: RunningMac)
    ensures
        mac_key(mac) == key@,
        mac_data(mac) == Seq::<u8>::empty(),
{
    RunningMac {
        inner: hmac::Mac::new_from_slice(key).expect("HMAC takes a key of any length"),
    }
}

/// `hmac::Mac::update`: the bytes are collected behind those before them.
#[verifier::external_body]
fn mac_update(mac: &mut RunningMac, data: &[u8])
    ensures
        mac_key(*final(mac)) == mac_key(*old(mac)),
        mac_data(*final(mac)) == mac_data(*old(mac)) + data@,
{
    hmac::Mac::update(&mut mac.inner, data);
}

/// `Clone::clone` of an HMAC: another with the same key that has collected the
/// same bytes.
#[verifier::external_body]
fn mac_copy(mac: &RunningMac) -> (copy: RunningMac)
    ensures
        mac_key(copy) == mac_key(*mac),
        mac_data(copy) == mac_data(*mac),
{
    RunningMac { inner: mac.inner.clone() }
}

/// `hmac::Mac::finalize`: the tag of what has been collected, 20 bytes that depend
/// on the key and on those bytes alone.
#[verifier::external_body]
fn mac_finalize(mac: RunningMac) -> (tag: Vec<u8>)
    ensures
        tag@ == hmac_sha1_of(mac_key(mac), mac_data(mac)),
        tag@.len() == 20,
{
    hmac::Mac::finalize(mac.inner).into_bytes().to_vec()
}

/// The SHA-256 digest of bytes.
pub uninterp spec fn sha2_of(data: Seq<u8>) -> Seq<u8>;

/// `sha2::Digest::digest` of SHA-256: 32 bytes that depend on the data alone.
#[verifier::external_body]
fn sha2_digest(data: &[u8]) -> (hash: Vec<u8>)
    ensures
        hash@ == sha2_of(data@),
        hash@.len() == 32,
{
    <sha2::Sha256 as sha2::Digest>::digest(data).to_vec()
}

/// A chain of tags: each covers everything before it, the earlier tags too.
pub struct HmacChain {
    mac: RunningMac,
}

/// The view of a chain: its key and everything that it covers.
pub struct ChainShape {
    pub key: Seq<u8>,
    pub data: Seq<u8>,
}

impl View for HmacChain {
    type V = ChainShape;

    closed spec fn view(&self) -> ChainShape {
        ChainShape { key: mac_key(self.mac), data: mac_data(self.mac) }
    }
}

/// A chain that covers its initial bytes.
pub open spec fn chain_of(key: Seq<u8>, initial: Seq<u8>) -> ChainShape {
    ChainShape { key, data: initial }
}

impl ChainShape {
    /// The tag of the next data.
    pub open spec fn tag(self, data: Seq<u8>) -> Seq<u8> {
        hmac_sha1_of(self.key, self.data + data).subrange(0, 4)
    }

    /// The chain behind the next data and its tag.
    pub open spec fn behind(self, data: Seq<u8>) -> ChainShape {
        ChainShape { data: self.data + data + self.tag(data), ..self }
    }

    /// Whether a tag is that of the next data.
    pub open spec fn takes(self, tag: Seq<u8>, data: Seq<u8>) -> bool {
        tag.len() == 4 && tag == self.tag(data)
    }

    /// The chain behind data with a tag: it goes on only where the tag is right.
    pub open spec fn offered(self, tag: Seq<u8>, data: Seq<u8>) -> ChainShape {
        if self.takes(tag, data) {
            self.behind(data)
        } else {
            self
        }
    }
}

impl HmacChain {
    /// A chain under a key that covers the initial bytes.
    pub fn new(key: &[u8], initial: &[u8]) -> (chain: HmacChain)
        ensures
            chain@ == chain_of(key@, initial@),
            chain@.key == key@,
            chain@.data == initial@,
    {
        let mut mac = mac_new(key);
        mac_update(&mut mac, initial);
        let chain = HmacChain { mac };
        assert(chain@.data =~= initial@);
        chain
    }

    /// The same chain.
    pub fn copy(&self) -> (copy: HmacChain)
        ensures
            copy@ == self@,
    {
        HmacChain { mac: mac_copy(&self.mac) }
    }

    /// The tag of the next data, with which the chain goes on.
    pub fn tag_and_advance(&mut self, data: &[u8]) -> (tag: [u8; 4])
        ensures
            tag@ == old(self)@.tag(data@),
            final(self)@ == old(self)@.behind(data@),
            tag@ == hmac_sha1_of(old(self)@.key, old(self)@.data + data@).subrange(0, 4),
            final(self)@.key == old(self)@.key,
            final(self)@.data == old(self)@.data + data@ + tag@,
    {
        mac_update(&mut self.mac, data);
        let digest = mac_finalize(mac_copy(&self.mac));
        let tag: [u8; 4] = copy_array::<4>(slice_subrange(digest.as_slice(), 0, 4));
        mac_update(&mut self.mac, tag.as_slice());
        tag
    }

    /// Whether a tag is that of the next data. Only then does the chain go on.
    pub fn verify_and_advance(&mut self, tag: &[u8], data: &[u8]) -> (valid: bool)
        ensures
            valid == old(self)@.takes(tag@, data@),
            final(self)@ == old(self)@.offered(tag@, data@),
    {
        if tag.len() != 4 {
            return false;
        }
        let mut candidate = self.copy();
        let expected = candidate.tag_and_advance(data);
        if constant_time_eq(expected.as_slice(), tag) {
            *self = candidate;
            true
        } else {
            false
        }
    }
}

/// Why a record is not one: it has no header, or its length is not what the header
/// says, or that is too much.
pub open spec fn record_fault(record: Seq<u8>) -> Option<Fault> {
    if record.len() < 5 {
        Some(invalid_data("ShadowTLS TLS record is truncated"@))
    } else if read16(record, 3) > MAX_TLS_RECORD || record.len() != 5 + read16(record, 3) {
        Some(invalid_data("ShadowTLS TLS record length is invalid"@))
    } else {
        None
    }
}

/// Check that bytes are one record.
pub fn validate_record(record: &[u8]) -> (result: Result<(), WireError>)
    ensures
        match record_fault(record@) {
            None => result is Ok,
            Some(fault) => result matches Err(error) && error@ == fault,
        },
{
    if record.len() < 5 {
        return Err(invalid("ShadowTLS TLS record is truncated"));
    }
    let length = get_u16(record, 3) as usize;
    if length > MAX_TLS_RECORD || record.len() != 5 + length {
        return Err(invalid("ShadowTLS TLS record length is invalid"));
    }
    Ok(())
}

/// An `InvalidData` error.
pub(crate) fn invalid(message: &str) -> (error: WireError)
    ensures
        error@ == invalid_data(message@),
{
    WireError::new(ErrorKind::InvalidData, message)
}

/// Why a record is not a ClientHello that can be signed.
pub open spec fn hello_fault(record: Seq<u8>) -> Option<Fault> {
    match record_fault(record) {
        Some(fault) => Some(fault),
        None => if record[0] != TLS_HANDSHAKE {
            Some(invalid_data("ShadowTLS first TLS record is not a handshake"@))
        } else if record.len() < 44 || record[5] != 1 {
            Some(invalid_data("ShadowTLS first handshake is not ClientHello"@))
        } else if read24(record, 6) + 4 > record.len() - 5 {
            Some(invalid_data("ShadowTLS ClientHello is truncated"@))
        } else if record[43] != 32 {
            Some(invalid_data("ShadowTLS v3 requires a 32-byte TLS legacy session id"@))
        } else if record.len() < 76 {
            Some(invalid_data("ShadowTLS ClientHello is truncated"@))
        } else {
            None
        },
    }
}

/// The record with four zeros at the end of its session id.
pub open spec fn unsigned_hello(record: Seq<u8>) -> Seq<u8> {
    record.subrange(0, 72) + seq![0u8, 0u8, 0u8, 0u8] + record.subrange(
        76,
        record.len() as int,
    )
}

/// The signature of a ClientHello: the front of the tag of the handshake message
/// with zeros in the signature's place.
pub open spec fn hello_signature(record: Seq<u8>, password: Seq<u8>) -> Seq<u8> {
    let message = unsigned_hello(record);
    hmac_sha1_of(password, message.subrange(5, message.len() as int)).subrange(0, 4)
}

/// The signed record.
pub open spec fn signed_hello(record: Seq<u8>, password: Seq<u8>) -> Seq<u8> {
    record.subrange(0, 72) + hello_signature(record, password) + record.subrange(
        76,
        record.len() as int,
    )
}

/// Sign the session id of a ClientHello, in place. A record that is none is left as
/// it is.
pub fn sign_client_hello(record: &mut [u8], password: &[u8]) -> (result: Result<(), WireError>)
    ensures
        match hello_fault(old(record)@) {
            None => result is Ok && final(record)@ == signed_hello(old(record)@, password@),
            Some(fault) => final(record)@ == old(record)@ && (result matches Err(error) && error@
                == fault),
        },
{
    if let Err(error) = validate_record(record) {
        return Err(error);
    }
    if record[0] != TLS_HANDSHAKE {
        return Err(invalid("ShadowTLS first TLS record is not a handshake"));
    }
    if record.len() < 44 || record[5] != 1 {
        return Err(invalid("ShadowTLS first handshake is not ClientHello"));
    }
    if get_u24(record, 6) + 4 > record.len() - 5 {
        return Err(invalid("ShadowTLS ClientHello is truncated"));
    }
    if record[43] != 32 {
        return Err(invalid("ShadowTLS v3 requires a 32-byte TLS legacy session id"));
    }
    if record.len() < 76 {
        return Err(invalid("ShadowTLS ClientHello is truncated"));
    }
    record[72] = 0;
    record[73] = 0;
    record[74] = 0;
    record[75] = 0;
    assert(record@ =~= unsigned_hello(old(record)@));
    let mut mac = mac_new(password);
    mac_update(&mut mac, slice_subrange(record, 5, record.len()));
    proof {
        let covered = record@.subrange(5, record@.len() as int);
        assert(Seq::<u8>::empty() + covered =~= covered);
    }
    let digest = mac_finalize(mac);
    record[72] = digest[0];
    record[73] = digest[1];
    record[74] = digest[2];
    record[75] = digest[3];
    assert(record@ =~= signed_hello(old(record)@, password@));
    Ok(())
}

/// The mask of the proof.
pub open spec fn proof_mask(password: Seq<u8>, random: Seq<u8>) -> Seq<u8> {
    sha2_of(password + random)
}

/// Data under the mask of the proof.
pub open spec fn masked(data: Seq<u8>, password: Seq<u8>, random: Seq<u8>) -> Seq<u8> {
    Seq::new(data.len(), |i: int| data[i] ^ proof_mask(password, random)[i % 32])
}

/// Data under the mask of the proof.
pub fn xor_proof(data: &[u8], password: &[u8], random: &[u8; 32]) -> (result: Vec<u8>)
    ensures
        result@ == masked(data@, password@, random@),
        result@.len() == data@.len(),
        forall|i: int|
            0 <= i < data@.len() ==> #[trigger] result@[i] == data@[i] ^ sha2_of(
                password@ + random@,
            )[i % 32],
{
    let mut seed = copy_range(password, 0, password.len());
    push_bytes(&mut seed, random.as_slice());
    assert(seed@ =~= password@ + random@);
    let mask = sha2_digest(seed.as_slice());
    let mut result: Vec<u8> = Vec::with_capacity(data.len());
    for i in 0..data.len()
        invariant
            mask@ == proof_mask(password@, random@),
            mask@.len() == 32,
            result@.len() == i,
            forall|j: int|
                0 <= j < i ==> #[trigger] result@[j] == masked(data@, password@, random@)[j],
    {
        result.push(data[i] ^ mask[i % 32]);
    }
    assert(result@ =~= masked(data@, password@, random@));
    result
}

/// A record header.
pub open spec fn header_of(kind: u8, length: u16) -> Seq<u8> {
    seq![kind, 3u8, 3u8] + be16(length)
}

/// The header of a record with a payload of this length.
pub fn record_header(kind: u8, payload_length: usize) -> (result: Result<[u8; 5], WireError>)
    ensures
        if payload_length > 65535 {
            result matches Err(error) && error@ == invalid_data(
                "ShadowTLS TLS record exceeds 65535 bytes"@,
            )
        } else {
            result matches Ok(header) && header@ == header_of(kind, payload_length as u16)
        },
{
    if payload_length > 65535 {
        return Err(invalid("ShadowTLS TLS record exceeds 65535 bytes"));
    }
    let length = payload_length as u16;
    let header: [u8; 5] = [kind, 3, 3, (length / 256) as u8, (length % 256) as u8];
    assert(header@ =~= header_of(kind, length));
    Ok(header)
}

/// A record with its payload.
pub open spec fn record_of(kind: u8, payload: Seq<u8>) -> Seq<u8> {
    header_of(kind, payload.len() as u16) + payload
}

/// A record with its payload.
pub fn write_record(kind: u8, payload: &[u8]) -> (result: Result<Vec<u8>, WireError>)
    ensures
        if payload@.len() > 65535 {
            result matches Err(error) && error@ == invalid_data(
                "ShadowTLS TLS record exceeds 65535 bytes"@,
            )
        } else {
            result matches Ok(record) && record@ == record_of(kind, payload@)
        },
{
    match record_header(kind, payload.len()) {
        Err(error) => Err(error),
        Ok(header) => {
            let mut record = copy_range(header.as_slice(), 0, 5);
            push_bytes(&mut record, payload);
            assert(record@ =~= record_of(kind, payload@));
            Ok(record)
        },
    }
}

/// Two chains that cover the same go on together: the tag of one is right for the
/// other, and both cover the same afterwards.
pub proof fn chains_go_on_together(chain: ChainShape, data: Seq<u8>)
    ensures
        chain.tag(data).len() == 4 ==> chain.offered(chain.tag(data), data) == chain.behind(data),
        chain.behind(data).data.len() == chain.data.len() + data.len() + chain.tag(data).len(),
{
}

/// The mask taken twice leaves the data as it was.
pub proof fn the_mask_undoes_itself(data: Seq<u8>, password: Seq<u8>, random: Seq<u8>)
    ensures
        masked(masked(data, password, random), password, random) == data,
{
    let twice = masked(masked(data, password, random), password, random);
    assert forall|i: int| 0 <= i < data.len() implies twice[i] == data[i] by {
        let byte = data[i];
        let mask = proof_mask(password, random)[i % 32];
        assert((byte ^ mask) ^ mask == byte) by (bit_vector);
    }
    assert(twice =~= data);
}

/// A signature changes nothing but the last four bytes of the session id, and does
/// not depend on what stood there.
pub proof fn a_signature_is_local(record: Seq<u8>, other: Seq<u8>, password: Seq<u8>)
    requires
        hello_fault(record) is None,
        hello_signature(record, password).len() == 4,
        other.len() == record.len(),
        forall|i: int| 0 <= i < record.len() && !(72 <= i < 76) ==> record[i] == other[i],
    ensures
        signed_hello(record, password).len() == record.len(),
        forall|i: int|
            0 <= i < record.len() && !(72 <= i < 76) ==> #[trigger] signed_hello(
                record,
                password,
            )[i] == record[i],
        signed_hello(other, password) == signed_hello(record, password),
{
    assert(record.subrange(0, 72) =~= other.subrange(0, 72));
    assert(record.subrange(76, record.len() as int) =~= other.subrange(76, other.len() as int));
}

} // verus!
