//! The TLS 1.3 record layer: sealing and opening records, splitting a stream of
//! application data into records.
use crate::crypto::{
    aes_128_gcm_open, aes_128_gcm_opened, aes_128_gcm_seal, aes_128_gcm_sealed, aes_256_gcm_open,
    aes_256_gcm_opened, aes_256_gcm_seal, aes_256_gcm_sealed, chacha20_poly1305_open,
    chacha20_poly1305_opened, chacha20_poly1305_seal, chacha20_poly1305_sealed,
};
use crate::error::{invalid_data, invalid_input, ErrorKind, Fault, WireError};
use crate::octets::{be16, push_bytes, push_u16, read16, to_vec};
use crate::reality::cipher_suite::CipherSuite;
use crate::reality::common::{
    is_inner_content_type, padded_content_type, strip_content_type_with_padding,
    without_trailing_zeros, ALERT_DESC_CLOSE_NOTIFY, ALERT_LEVEL_WARNING, CONTENT_TYPE_ALERT,
    CONTENT_TYPE_APPLICATION_DATA, CONTENT_TYPE_HANDSHAKE, MAX_TLS_CIPHERTEXT_LEN,
    MAX_TLS_PLAINTEXT_LEN, TLS_RECORD_HEADER_SIZE,
};
use crate::text::{hex_byte, push_hex_byte, text_of};
use vstd::prelude::*;
use vstd::slice::slice_subrange;

verus! {

/// Largest plaintext one record may carry before fragmentation.
pub const MAX_PLAINTEXT: usize = MAX_TLS_PLAINTEXT_LEN;

/// Largest ciphertext a record header may declare.
pub const MAX_CIPHERTEXT: usize = MAX_TLS_CIPHERTEXT_LEN;

/// Content type, version and length.
pub const RECORD_HEADER: usize = TLS_RECORD_HEADER_SIZE;

/// Tag that the AEAD appends.
pub const TAG: usize = 16;

/// Key length of the suite that the two free functions use.
pub const KEY_LEN: usize = 16;

/// IV length that the nonce construction requires.
pub const IV_LEN: usize = 12;

/// What a suite's AEAD seals.
pub open spec fn sealed_by(
    suite: CipherSuite,
    key: Seq<u8>,
    nonce: Seq<u8>,
    aad: Seq<u8>,
    plaintext: Seq<u8>,
) -> Option<Seq<u8>> {
    match suite {
        CipherSuite::Aes128GcmSha256 => aes_128_gcm_sealed(key, nonce, aad, plaintext),
        CipherSuite::Aes256GcmSha384 => aes_256_gcm_sealed(key, nonce, aad, plaintext),
        CipherSuite::ChaCha20Poly1305Sha256 => chacha20_poly1305_sealed(key, nonce, aad, plaintext),
    }
}

/// What a suite's AEAD opens.
pub open spec fn opened_by(
    suite: CipherSuite,
    key: Seq<u8>,
    nonce: Seq<u8>,
    aad: Seq<u8>,
    sealed: Seq<u8>,
) -> Option<Seq<u8>> {
    match suite {
        CipherSuite::Aes128GcmSha256 => aes_128_gcm_opened(key, nonce, aad, sealed),
        CipherSuite::Aes256GcmSha384 => aes_256_gcm_opened(key, nonce, aad, sealed),
        CipherSuite::ChaCha20Poly1305Sha256 => chacha20_poly1305_opened(key, nonce, aad, sealed),
    }
}

fn seal_with(suite: CipherSuite, key: &[u8], nonce: &[u8], aad: &[u8], plaintext: &[u8]) -> (sealed:
    Option<Vec<u8>>)
    ensures
        match sealed_by(suite, key@, nonce@, aad@, plaintext@) {
            Some(bytes) => sealed matches Some(actual) && actual@ == bytes,
            None => sealed is None,
        },
        sealed matches Some(actual) ==> actual@.len() == plaintext@.len() + TAG && opened_by(
            suite,
            key@,
            nonce@,
            aad@,
            actual@,
        ) == Some(plaintext@),
{
    match suite {
        CipherSuite::Aes128GcmSha256 => aes_128_gcm_seal(key, nonce, aad, plaintext),
        CipherSuite::Aes256GcmSha384 => aes_256_gcm_seal(key, nonce, aad, plaintext),
        CipherSuite::ChaCha20Poly1305Sha256 => chacha20_poly1305_seal(key, nonce, aad, plaintext),
    }
}

fn open_with(suite: CipherSuite, key: &[u8], nonce: &[u8], aad: &[u8], sealed: &[u8]) -> (opened:
    Option<Vec<u8>>)
    ensures
        match opened_by(suite, key@, nonce@, aad@, sealed@) {
            Some(bytes) => opened matches Some(actual) && actual@ == bytes,
            None => opened is None,
        },
{
    match suite {
        CipherSuite::Aes128GcmSha256 => aes_128_gcm_open(key, nonce, aad, sealed),
        CipherSuite::Aes256GcmSha384 => aes_256_gcm_open(key, nonce, aad, sealed),
        CipherSuite::ChaCha20Poly1305Sha256 => chacha20_poly1305_open(key, nonce, aad, sealed),
    }
}

/// A record key of a suite.
#[derive(Clone)]
pub struct AeadKey {
    suite: CipherSuite,
    key: Vec<u8>,
}

impl View for AeadKey {
    type V = (CipherSuite, Seq<u8>);

    closed spec fn view(&self) -> (CipherSuite, Seq<u8>) {
        (self.suite, self.key@)
    }
}

/// The fault for a key of the wrong length.
pub open spec fn key_length_fault() -> Fault {
    invalid_input("AEAD key has an unexpected length for its cipher suite"@)
}

impl AeadKey {
    /// The record key of `suite` with these bytes.
    pub fn new(suite: CipherSuite, key: &[u8]) -> (result: Result<AeadKey, WireError>)
        ensures
            if key@.len() == suite.spec_key_len() {
                result matches Ok(actual) && actual@ == (suite, key@)
            } else {
                result matches Err(error) && error@ == key_length_fault()
            },
    {
        if key.len() != suite.key_len() {
            return Err(
                WireError::new(
                    ErrorKind::InvalidInput,
                    "AEAD key has an unexpected length for its cipher suite",
                ),
            );
        }
        Ok(AeadKey { suite, key: to_vec(key) })
    }
}

/// The byte of the sequence number that goes over the `i`th byte of an IV: the
/// number stands at the end, most significant byte first.
pub open spec fn sequence_byte(seq: u64, i: int) -> u8 {
    if i < 4 {
        0
    } else {
        ((seq >> ((8 * (11 - i)) as u64)) & 0xff) as u8
    }
}

/// The nonce of a record: the IV with the sequence number over it.
pub open spec fn record_nonce(iv: Seq<u8>, seq: u64) -> Seq<u8> {
    Seq::new(12, |i: int| iv[i] ^ sequence_byte(seq, i))
}

fn nonce_for(iv: &[u8], seq: u64) -> (nonce: Vec<u8>)
    requires
        iv@.len() == IV_LEN,
    ensures
        nonce@ == record_nonce(iv@, seq),
{
    let mut nonce: Vec<u8> = Vec::new();
    for i in 0..12usize
        invariant
            iv@.len() == IV_LEN,
            nonce@.len() == i,
            forall|j: int| 0 <= j < i ==> #[trigger] nonce@[j] == iv@[j] ^ sequence_byte(seq, j),
    {
        let byte: u8 = if i < 4 {
            0
        } else {
            ((seq >> ((8 * (11 - i)) as u64)) & 0xff) as u8
        };
        nonce.push(iv[i] ^ byte);
    }
    assert(nonce@ =~= record_nonce(iv@, seq));
    nonce
}

/// The header of an encrypted record, which is also what its tag covers.
pub open spec fn sealed_header(length: u16) -> Seq<u8> {
    seq![CONTENT_TYPE_APPLICATION_DATA, 0x03u8, 0x03u8] + be16(length)
}

fn header_bytes(length: u16) -> (header: Vec<u8>)
    ensures
        header@ == sealed_header(length),
{
    let mut header: Vec<u8> = vec![CONTENT_TYPE_APPLICATION_DATA, 0x03, 0x03];
    push_u16(&mut header, length);
    assert(header@ =~= sealed_header(length));
    header
}

/// One end of a connection's encryption: a key, an IV, and the number of the
/// next record.
pub struct SealState {
    pub suite: CipherSuite,
    pub key: Seq<u8>,
    pub iv: Seq<u8>,
    pub seq: int,
}

/// A record with content of one type.
pub open spec fn sealed_record(state: SealState, content: Seq<u8>, content_type: u8) -> Result<
    Seq<u8>,
    Fault,
> {
    let header = sealed_header((content.len() + 1 + TAG) as u16);
    if state.seq >= u64::MAX {
        Err(invalid_data("TLS record sequence number is exhausted"@))
    } else {
        match sealed_by(
            state.suite,
            state.key,
            record_nonce(state.iv, state.seq as u64),
            header,
            content.push(content_type),
        ) {
            None => Err(invalid_data("TLS record encryption failed"@)),
            Some(sealed) => Ok(header + sealed),
        }
    }
}

/// The records that carry `content`, split at the largest plaintext, and how
/// many they are.
pub open spec fn sealed_stream(state: SealState, content: Seq<u8>, content_type: u8) -> Result<
    (Seq<u8>, nat),
    Fault,
>
    decreases content.len(),
{
    if content.len() == 0 {
        Ok((Seq::empty(), 0))
    } else {
        let take = if content.len() <= MAX_TLS_PLAINTEXT_LEN {
            content.len() as int
        } else {
            MAX_TLS_PLAINTEXT_LEN as int
        };
        match sealed_record(state, content.subrange(0, take), content_type) {
            Err(fault) => Err(fault),
            Ok(first) => {
                let next = SealState { seq: state.seq + 1, ..state };
                match sealed_stream(
                    next,
                    content.subrange(take, content.len() as int),
                    content_type,
                ) {
                    Err(fault) => Err(fault),
                    Ok((rest, count)) => Ok((first + rest, count + 1)),
                }
            },
        }
    }
}

/// The records that are written for `content` before the first that fails, and
/// how many they are: all of them where none does.
pub open spec fn sealed_prefix(state: SealState, content: Seq<u8>, content_type: u8) -> (
    Seq<u8>,
    nat,
)
    decreases content.len(),
{
    if content.len() == 0 {
        (Seq::empty(), 0)
    } else {
        let take = if content.len() <= MAX_TLS_PLAINTEXT_LEN {
            content.len() as int
        } else {
            MAX_TLS_PLAINTEXT_LEN as int
        };
        match sealed_record(state, content.subrange(0, take), content_type) {
            Err(_) => (Seq::empty(), 0),
            Ok(first) => {
                let rest = sealed_prefix(
                    SealState { seq: state.seq + 1, ..state },
                    content.subrange(take, content.len() as int),
                    content_type,
                );
                (first + rest.0, rest.1 + 1)
            },
        }
    }
}

/// The content type and the content of a sealed record's body.
pub open spec fn opened_record(state: SealState, sealed: Seq<u8>, declared: u16) -> Result<
    (u8, Seq<u8>),
    Fault,
> {
    if state.seq >= u64::MAX {
        Err(invalid_data("TLS record sequence number is exhausted"@))
    } else {
        match opened_by(
            state.suite,
            state.key,
            record_nonce(state.iv, state.seq as u64),
            sealed_header(declared),
            sealed,
        ) {
            None => Err(invalid_data("TLS record decryption failed"@)),
            Some(inner) => match padded_content_type(inner) {
                Err(fault) => Err(fault),
                Ok(content_type) => Ok((content_type, without_trailing_zeros(inner).drop_last())),
            },
        }
    }
}

/// The content of a stream of records that all have one content type, read
/// from its first byte to its last, and how many records they are; nothing where
/// a record is cut, is too long, carries nothing, is refused, or has another
/// header or type.
pub open spec fn opened_stream(state: SealState, records: Seq<u8>, content_type: u8) -> Option<
    (Seq<u8>, nat),
>
    decreases records.len(),
{
    if records.len() == 0 {
        Some((Seq::empty(), 0))
    } else if records.len() < 5 || read16(records, 3) > MAX_CIPHERTEXT || records.len() < 5
        + read16(records, 3) || records.subrange(0, 5) != sealed_header(
        read16(records, 3) as u16,
    ) {
        None
    } else {
        let end = 5 + read16(records, 3);
        match opened_record(state, records.subrange(5, end), read16(records, 3) as u16) {
            Err(_) => None,
            Ok((actual, content)) => if actual != content_type || content.len() == 0 {
                None
            } else {
                match opened_stream(
                    SealState { seq: state.seq + 1, ..state },
                    records.subrange(end, records.len() as int),
                    content_type,
                ) {
                    None => None,
                    Some((rest, count)) => Some((content + rest, count + 1)),
                }
            },
        }
    }
}

/// A single record that opens, put before a stream that opens, makes a stream
/// that opens.
proof fn lemma_stream_of(
    state: SealState,
    sealed: Seq<u8>,
    content: Seq<u8>,
    content_type: u8,
    rest: Seq<u8>,
)
    requires
        sealed.len() <= MAX_CIPHERTEXT,
        content.len() > 0,
        opened_record(state, sealed, sealed.len() as u16) == Ok::<(u8, Seq<u8>), Fault>(
            (content_type, content),
        ),
    ensures
        opened_stream(state, sealed_header(sealed.len() as u16) + sealed + rest, content_type)
            == match opened_stream(
            SealState { seq: state.seq + 1, ..state },
            rest,
            content_type,
        ) {
            Some((more, count)) => Some((content + more, count + 1)),
            None => None,
        },
{
    let header = sealed_header(sealed.len() as u16);
    let records = header + sealed + rest;
    assert(records[3] == header[3] && records[4] == header[4]);
    assert(read16(records, 3) == sealed.len());
    assert(records.subrange(0, 5) =~= header);
    assert(records.subrange(5, 5 + sealed.len() as int) =~= sealed);
    assert(records.subrange(5 + sealed.len() as int, records.len() as int) =~= rest);
}

/// A stream that opens, put before another that goes on under the number behind
/// it, makes a stream that opens.
pub proof fn lemma_streams_join(
    state: SealState,
    first: Seq<u8>,
    second: Seq<u8>,
    content_type: u8,
)
    requires
        opened_stream(state, first, content_type) is Some,
    ensures
        opened_stream(state, first + second, content_type) == match opened_stream(
            SealState {
                seq: state.seq + (opened_stream(state, first, content_type)->0).1,
                ..state
            },
            second,
            content_type,
        ) {
            Some((more, count)) => Some(
                (
                    (opened_stream(state, first, content_type)->0).0 + more,
                    (opened_stream(state, first, content_type)->0).1 + count,
                ),
            ),
            None => None,
        },
    decreases first.len(),
{
    let whole = first + second;
    if first.len() == 0 {
        assert(whole =~= second);
        if let Some((more, _)) = opened_stream(state, second, content_type) {
            assert(Seq::<u8>::empty() + more =~= more);
        }
    } else {
        let end = 5 + read16(first, 3);
        let next = SealState { seq: state.seq + 1, ..state };
        let rest = first.subrange(end, first.len() as int);
        let (_, content) = opened_record(
            state,
            first.subrange(5, end),
            read16(first, 3) as u16,
        )->Ok_0;
        lemma_streams_join(next, rest, second, content_type);
        assert(whole.subrange(0, 5) =~= first.subrange(0, 5));
        assert(whole.subrange(5, end) =~= first.subrange(5, end));
        assert(whole.subrange(end, whole.len() as int) =~= rest + second);
        if let Some((more, _)) = opened_stream(
            SealState {
                seq: state.seq + (opened_stream(state, first, content_type)->0).1,
                ..state
            },
            second,
            content_type,
        ) {
            let behind = (opened_stream(next, rest, content_type)->0).0;
            assert(content + (behind + more) =~= content + behind + more);
        }
    }
}

proof fn lemma_unpadded(content: Seq<u8>, content_type: u8)
    requires
        is_inner_content_type(content_type),
    ensures
        padded_content_type(content.push(content_type)) == Ok::<u8, Fault>(content_type),
        without_trailing_zeros(content.push(content_type)).drop_last() == content,
{
    assert(content.push(content_type).drop_last() =~= content);
}

/// Writes encrypted records under one key.
pub struct RecordEncryptor<'a> {
    key: &'a AeadKey,
    iv: &'a [u8],
    seq: u64,
}

impl<'a> RecordEncryptor<'a> {
    pub closed spec fn state(&self) -> SealState {
        SealState { suite: self.key@.0, key: self.key@.1, iv: self.iv@, seq: self.seq as int }
    }

    /// An encryptor whose next record has number `seq`.
    pub fn new(key: &'a AeadKey, iv: &'a [u8], seq: u64) -> (encryptor: RecordEncryptor<'a>)
        ensures
            encryptor.state() == (SealState { suite: key@.0, key: key@.1, iv: iv@, seq: seq as int }),
    {
        RecordEncryptor { key, iv, seq }
    }

    /// The number of the next record.
    pub fn sequence(&self) -> (seq: u64)
        ensures
            seq == self.state().seq,
    {
        self.seq
    }

    fn seal_one(&mut self, content: &[u8], content_type: u8, out: &mut Vec<u8>) -> (result: Result<
        (),
        WireError,
    >)
        requires
            old(self).state().iv.len() == IV_LEN,
            content@.len() <= MAX_TLS_PLAINTEXT_LEN,
        ensures
            match sealed_record(old(self).state(), content@, content_type) {
                Ok(record) => result is Ok && final(out)@ == old(out)@ + record
                    && final(self).state() == (SealState {
                    seq: old(self).state().seq + 1,
                    ..old(self).state()
                }),
                Err(fault) => result matches Err(error) && error@ == fault && final(out)@ == old(
                    out,
                )@ && final(self).state() == old(self).state(),
            },
            result is Ok && is_inner_content_type(content_type) ==> {
                let record = final(out)@.subrange(
                    old(out)@.len() as int,
                    final(out)@.len() as int,
                );
                &&& record.len() == content@.len() + 22
                &&& record.subrange(0, 5) == sealed_header((content@.len() + 17) as u16)
                &&& opened_record(
                    old(self).state(),
                    record.subrange(5, record.len() as int),
                    (content@.len() + 17) as u16,
                ) == Ok::<(u8, Seq<u8>), Fault>((content_type, content@))
            },
    {
        if self.seq == u64::MAX {
            return Err(
                WireError::new(ErrorKind::InvalidData, "TLS record sequence number is exhausted"),
            );
        }
        let mut inner = to_vec(content);
        inner.push(content_type);
        let header = header_bytes((content.len() + 1 + TAG) as u16);
        let nonce = nonce_for(self.iv, self.seq);
        match seal_with(
            self.key.suite,
            self.key.key.as_slice(),
            nonce.as_slice(),
            header.as_slice(),
            inner.as_slice(),
        ) {
            None => Err(WireError::new(ErrorKind::InvalidData, "TLS record encryption failed")),
            Some(sealed) => {
                push_bytes(out, header.as_slice());
                push_bytes(out, sealed.as_slice());
                assert(out@ =~= old(out)@ + (header@ + sealed@));
                proof {
                    let record = out@.subrange(old(out)@.len() as int, out@.len() as int);
                    assert(inner@ == content@.push(content_type));
                    assert(record =~= header@ + sealed@);
                    assert(record.subrange(0, 5) =~= header@);
                    assert(record.subrange(5, record.len() as int) =~= sealed@);
                    if is_inner_content_type(content_type) {
                        lemma_unpadded(content@, content_type);
                    }
                }
                self.seq = self.seq + 1;
                Ok(())
            },
        }
    }

    fn seal_all(&mut self, content: &[u8], content_type: u8, out: &mut Vec<u8>) -> (result: Result<
        (),
        WireError,
    >)
        requires
            old(self).state().iv.len() == IV_LEN,
        ensures
            match sealed_stream(old(self).state(), content@, content_type) {
                Ok((records, count)) => result is Ok && final(out)@ == old(out)@ + records
                    && final(self).state() == (SealState {
                    seq: old(self).state().seq + count,
                    ..old(self).state()
                }),
                Err(fault) => result matches Err(error) && error@ == fault,
            },
            ({
                let (records, count) = sealed_prefix(old(self).state(), content@, content_type);
                &&& final(out)@ == old(out)@ + records
                &&& final(self).state() == (SealState {
                    seq: old(self).state().seq + count,
                    ..old(self).state()
                })
            }),
            result is Ok && is_inner_content_type(content_type) ==> opened_stream(
                old(self).state(),
                final(out)@.subrange(old(out)@.len() as int, final(out)@.len() as int),
                content_type,
            ) == Some(
                (content@, (final(self).state().seq - old(self).state().seq) as nat),
            ),
        decreases content@.len(),
    {
        if content.len() == 0 {
            assert(out@ =~= old(out)@ + Seq::<u8>::empty());
            assert(content@ =~= Seq::<u8>::empty());
            return Ok(());
        }
        let take: usize = if content.len() <= MAX_TLS_PLAINTEXT_LEN {
            content.len()
        } else {
            MAX_TLS_PLAINTEXT_LEN
        };
        let ghost before = self.state();
        if let Err(error) = self.seal_one(slice_subrange(content, 0, take), content_type, out) {
            return Err(error);
        }
        let ghost first = sealed_record(before, content@.subrange(0, take as int), content_type)->Ok_0;
        let ghost middle = out@;
        let result = self.seal_all(slice_subrange(content, take, content.len()), content_type, out);
        proof {
            assert(middle == old(out)@ + first);
            assert(out@ =~= old(out)@ + sealed_prefix(before, content@, content_type).0);
            assert(out@.subrange(0, middle.len() as int) =~= middle);
            if let Ok((records, _)) = sealed_stream(before, content@, content_type) {
                assert(out@ =~= old(out)@ + records);
            }
            if result is Ok && is_inner_content_type(content_type) {
                let start = old(out)@.len() as int;
                let record = middle.subrange(start, middle.len() as int);
                let sealed = record.subrange(5, record.len() as int);
                let rest = out@.subrange(middle.len() as int, out@.len() as int);
                lemma_stream_of(
                    before,
                    sealed,
                    content@.subrange(0, take as int),
                    content_type,
                    rest,
                );
                assert(record =~= record.subrange(0, 5) + sealed);
                assert(out@.subrange(0, middle.len() as int) == middle);
                assert(out@.subrange(start, out@.len() as int) =~= record + rest) by {
                    assert forall|i: int| start <= i < middle.len() implies out@[i]
                        == middle[i] by {
                        assert(out@.subrange(0, middle.len() as int)[i] == middle[i]);
                    }
                }
                assert(out@.subrange(start, out@.len() as int) =~= sealed_header(
                    sealed.len() as u16,
                ) + sealed + rest);
                assert(content@ =~= content@.subrange(0, take as int) + content@.subrange(
                    take as int,
                    content@.len() as int,
                ));
            }
        }
        result
    }

    /// Encrypt `plaintext` into records. It is empty afterwards, unless a
    /// record fails; and the records open to it again.
    pub fn encrypt_app_data(&mut self, plaintext: &mut Vec<u8>, out: &mut Vec<u8>) -> (result: Result<
        (),
        WireError,
    >)
        requires
            old(self).state().iv.len() == IV_LEN,
        ensures
            match sealed_stream(
                old(self).state(),
                old(plaintext)@,
                CONTENT_TYPE_APPLICATION_DATA,
            ) {
                Ok((records, count)) => result is Ok && final(out)@ == old(out)@ + records
                    && final(plaintext)@.len() == 0 && final(self).state() == (SealState {
                    seq: old(self).state().seq + count,
                    ..old(self).state()
                }),
                Err(fault) => result matches Err(error) && error@ == fault && final(plaintext)@
                    == old(plaintext)@,
            },
            ({
                let (records, count) = sealed_prefix(
                    old(self).state(),
                    old(plaintext)@,
                    CONTENT_TYPE_APPLICATION_DATA,
                );
                &&& final(out)@ == old(out)@ + records
                &&& final(self).state() == (SealState {
                    seq: old(self).state().seq + count,
                    ..old(self).state()
                })
            }),
            result is Ok ==> opened_stream(
                old(self).state(),
                final(out)@.subrange(old(out)@.len() as int, final(out)@.len() as int),
                CONTENT_TYPE_APPLICATION_DATA,
            ) == Some(
                (old(plaintext)@, (final(self).state().seq - old(self).state().seq) as nat),
            ),
    {
        match self.seal_all(plaintext.as_slice(), CONTENT_TYPE_APPLICATION_DATA, out) {
            Ok(()) => {
                plaintext.clear();
                Ok(())
            },
            Err(error) => Err(error),
        }
    }

    /// Encrypt a handshake message.
    pub fn encrypt_handshake(&mut self, message: &[u8], out: &mut Vec<u8>) -> (result: Result<
        (),
        WireError,
    >)
        requires
            old(self).state().iv.len() == IV_LEN,
        ensures
            match sealed_stream(old(self).state(), message@, CONTENT_TYPE_HANDSHAKE) {
                Ok((records, count)) => result is Ok && final(out)@ == old(out)@ + records
                    && final(self).state() == (SealState {
                    seq: old(self).state().seq + count,
                    ..old(self).state()
                }),
                Err(fault) => result matches Err(error) && error@ == fault,
            },
            ({
                let (records, count) = sealed_prefix(
                    old(self).state(),
                    message@,
                    CONTENT_TYPE_HANDSHAKE,
                );
                &&& final(out)@ == old(out)@ + records
                &&& final(self).state() == (SealState {
                    seq: old(self).state().seq + count,
                    ..old(self).state()
                })
            }),
            result is Ok ==> opened_stream(
                old(self).state(),
                final(out)@.subrange(old(out)@.len() as int, final(out)@.len() as int),
                CONTENT_TYPE_HANDSHAKE,
            ) == Some(
                (message@, (final(self).state().seq - old(self).state().seq) as nat),
            ),
    {
        self.seal_all(message, CONTENT_TYPE_HANDSHAKE, out)
    }

    /// Encrypt a close_notify alert.
    pub fn encrypt_close_notify(&mut self, out: &mut Vec<u8>) -> (result: Result<(), WireError>)
        requires
            old(self).state().iv.len() == IV_LEN,
        ensures
            match sealed_record(
                old(self).state(),
                seq![ALERT_LEVEL_WARNING, ALERT_DESC_CLOSE_NOTIFY],
                CONTENT_TYPE_ALERT,
            ) {
                Ok(record) => result is Ok && final(out)@ == old(out)@ + record
                    && final(self).state() == (SealState {
                    seq: old(self).state().seq + 1,
                    ..old(self).state()
                }),
                Err(fault) => result matches Err(error) && error@ == fault && final(out)@ == old(
                    out,
                )@ && final(self).state() == old(self).state(),
            },
    {
        let alert: Vec<u8> = vec![ALERT_LEVEL_WARNING, ALERT_DESC_CLOSE_NOTIFY];
        assert(alert@ =~= seq![ALERT_LEVEL_WARNING, ALERT_DESC_CLOSE_NOTIFY]);
        self.seal_one(alert.as_slice(), CONTENT_TYPE_ALERT, out)
    }
}

/// Reads encrypted records under one key.
pub struct RecordDecryptor<'a> {
    key: &'a AeadKey,
    iv: &'a [u8],
    seq: u64,
}

impl<'a> RecordDecryptor<'a> {
    pub closed spec fn state(&self) -> SealState {
        SealState { suite: self.key@.0, key: self.key@.1, iv: self.iv@, seq: self.seq as int }
    }

    /// A decryptor whose next record has number `seq`.
    pub fn new(key: &'a AeadKey, iv: &'a [u8], seq: u64) -> (decryptor: RecordDecryptor<'a>)
        ensures
            decryptor.state() == (SealState { suite: key@.0, key: key@.1, iv: iv@, seq: seq as int }),
    {
        RecordDecryptor { key, iv, seq }
    }

    /// The number of the next record.
    pub fn sequence(&self) -> (seq: u64)
        ensures
            seq == self.state().seq,
    {
        self.seq
    }

    /// Open the body of a record whose header declared `record_len` bytes.
    ///
    /// The record counts only where it opens.
    pub fn decrypt_record(&mut self, sealed: &[u8], record_len: u16) -> (result: Result<
        (u8, Vec<u8>),
        WireError,
    >)
        requires
            old(self).state().iv.len() == IV_LEN,
        ensures
            match opened_record(old(self).state(), sealed@, record_len) {
                Ok((content_type, content)) => result matches Ok((actual, bytes)) && actual
                    == content_type && bytes@ == content && final(self).state() == (SealState {
                    seq: old(self).state().seq + 1,
                    ..old(self).state()
                }),
                Err(fault) => result matches Err(error) && error@ == fault && final(self).state()
                    == old(self).state(),
            },
    {
        if self.seq == u64::MAX {
            return Err(
                WireError::new(ErrorKind::InvalidData, "TLS record sequence number is exhausted"),
            );
        }
        let header = header_bytes(record_len);
        let nonce = nonce_for(self.iv, self.seq);
        match open_with(
            self.key.suite,
            self.key.key.as_slice(),
            nonce.as_slice(),
            header.as_slice(),
            sealed,
        ) {
            None => Err(WireError::new(ErrorKind::InvalidData, "TLS record decryption failed")),
            Some(inner) => {
                let mut inner = inner;
                match strip_content_type_with_padding(&mut inner) {
                    Err(error) => Err(error),
                    Ok(content_type) => {
                        self.seq = self.seq + 1;
                        Ok((content_type, inner))
                    },
                }
            },
        }
    }
}

/// The outcome of opening a record that has to be a handshake record.
pub open spec fn opened_handshake(state: SealState, sealed: Seq<u8>, declared: u16) -> Result<
    Seq<u8>,
    Fault,
> {
    match opened_record(state, sealed, declared) {
        Err(fault) => Err(fault),
        Ok((content_type, content)) => if content_type != CONTENT_TYPE_HANDSHAKE {
            Err(
                invalid_data(
                    "Expected a handshake record, got content type 0x"@ + hex_byte(content_type),
                ),
            )
        } else {
            Ok(content)
        },
    }
}

/// Decrypt one record of the encrypted handshake.
pub fn decrypt_handshake_message(
    key: &AeadKey,
    iv: &[u8],
    seq: u64,
    ciphertext: &[u8],
    record_len: u16,
) -> (result: Result<Vec<u8>, WireError>)
    requires
        iv@.len() == IV_LEN,
    ensures
        match opened_handshake(
            SealState { suite: key@.0, key: key@.1, iv: iv@, seq: seq as int },
            ciphertext@,
            record_len,
        ) {
            Ok(content) => result matches Ok(bytes) && bytes@ == content,
            Err(fault) => result matches Err(error) && error@ == fault,
        },
{
    let mut decryptor = RecordDecryptor::new(key, iv, seq);
    match decryptor.decrypt_record(ciphertext, record_len) {
        Err(error) => Err(error),
        Ok((content_type, content)) => {
            if content_type != CONTENT_TYPE_HANDSHAKE {
                let mut message = text_of("Expected a handshake record, got content type 0x");
                push_hex_byte(&mut message, content_type);
                return Err(WireError { kind: ErrorKind::InvalidData, message });
            }
            Ok(content)
        },
    }
}

/// The fault for an IV of the wrong length.
pub open spec fn iv_length_fault() -> Fault {
    invalid_input("record IV has an unexpected length"@)
}

/// The state of AES-128-GCM under this key, IV and number.
pub open spec fn pinned_state(key: Seq<u8>, iv: Seq<u8>, seq: u64) -> SealState {
    SealState { suite: CipherSuite::Aes128GcmSha256, key, iv, seq: seq as int }
}

/// Encrypt `plaintext` into a record stream under AES-128-GCM, and advance
/// `seq` past the records. Where it succeeds `plaintext` is empty afterwards, and
/// opening the records under the same key, IV and number gives it back.
pub fn encrypt_app_data(
    key: &[u8],
    iv: &[u8],
    seq: &mut u64,
    plaintext: &mut Vec<u8>,
    out: &mut Vec<u8>,
) -> (result: Result<(), WireError>)
    ensures
        if key@.len() != KEY_LEN {
            result matches Err(error) && error@ == key_length_fault() && final(plaintext)@ == old(
                plaintext,
            )@ && final(out)@ == old(out)@ && *final(seq) == *old(seq)
        } else if iv@.len() != IV_LEN {
            result matches Err(error) && error@ == iv_length_fault() && final(plaintext)@ == old(
                plaintext,
            )@ && final(out)@ == old(out)@ && *final(seq) == *old(seq)
        } else {
            match sealed_stream(
                pinned_state(key@, iv@, *old(seq)),
                old(plaintext)@,
                CONTENT_TYPE_APPLICATION_DATA,
            ) {
                Ok((records, count)) => result is Ok && final(out)@ == old(out)@ + records
                    && final(plaintext)@.len() == 0 && *final(seq) == *old(seq) + count,
                Err(fault) => result matches Err(error) && error@ == fault && final(plaintext)@
                    == old(plaintext)@,
            }
        },
        key@.len() == KEY_LEN && iv@.len() == IV_LEN ==> {
            let (records, count) = sealed_prefix(
                pinned_state(key@, iv@, *old(seq)),
                old(plaintext)@,
                CONTENT_TYPE_APPLICATION_DATA,
            );
            &&& final(out)@ == old(out)@ + records
            &&& *final(seq) == *old(seq) + count
        },
        result is Ok ==> opened_stream(
            pinned_state(key@, iv@, *old(seq)),
            final(out)@.subrange(old(out)@.len() as int, final(out)@.len() as int),
            CONTENT_TYPE_APPLICATION_DATA,
        ) == Some((old(plaintext)@, (*final(seq) - *old(seq)) as nat)),
{
    let key = match AeadKey::new(CipherSuite::Aes128GcmSha256, key) {
        Ok(key) => key,
        Err(error) => {
            return Err(error);
        },
    };
    if iv.len() != IV_LEN {
        return Err(WireError::new(ErrorKind::InvalidInput, "record IV has an unexpected length"));
    }
    let mut encryptor = RecordEncryptor::new(&key, iv, *seq);
    let result = encryptor.encrypt_app_data(plaintext, out);
    *seq = encryptor.sequence();
    result
}

/// Decrypt one record's body under AES-128-GCM and return its content type and
/// content. `seq` advances where it succeeds.
pub fn decrypt_record(
    key: &[u8],
    iv: &[u8],
    seq: &mut u64,
    ciphertext: &[u8],
    record_len: u16,
) -> (result: Result<(u8, Vec<u8>), WireError>)
    ensures
        if key@.len() != KEY_LEN {
            result matches Err(error) && error@ == key_length_fault() && *final(seq) == *old(seq)
        } else if iv@.len() != IV_LEN {
            result matches Err(error) && error@ == iv_length_fault() && *final(seq) == *old(seq)
        } else {
            match opened_record(pinned_state(key@, iv@, *old(seq)), ciphertext@, record_len) {
                Ok((content_type, content)) => result matches Ok((actual, bytes)) && actual
                    == content_type && bytes@ == content && *final(seq) == *old(seq) + 1,
                Err(fault) => result matches Err(error) && error@ == fault && *final(seq) == *old(
                    seq,
                ),
            }
        },
{
    let key = match AeadKey::new(CipherSuite::Aes128GcmSha256, key) {
        Ok(key) => key,
        Err(error) => {
            return Err(error);
        },
    };
    if iv.len() != IV_LEN {
        return Err(WireError::new(ErrorKind::InvalidInput, "record IV has an unexpected length"));
    }
    let mut decryptor = RecordDecryptor::new(&key, iv, *seq);
    let result = decryptor.decrypt_record(ciphertext, record_len);
    *seq = decryptor.sequence();
    result
}

} // verus!
