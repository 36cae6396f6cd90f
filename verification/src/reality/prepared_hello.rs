//! The first message of a connection: the hello that a profile makes of a key
//! exchange and of fresh draws, with the client's metadata sealed into its
//! session id.
use crate::crypto::{aes_256_gcm_opened, hmac_sha256_of, x25519_secret_of};
use crate::error::{invalid_data, invalid_input, ErrorKind, Fault, WireError};
use crate::octets::{be16, be32, copy_range, push_bytes};
use crate::random::{random_bytes, random_u64, unix_seconds};
use crate::reality::auth::{
    auth_key_of, derive_auth_key, encrypt_session_id, sealed_session_id, session_id_metadata,
    session_metadata,
};
use crate::reality::client_hello::{
    client_hello_message, construct_client_hello, ech_body_of, hello_keeps_the_session_id_window,
    session_id_in_window, share_shapes, EchGreaseParams, HelloSession, SessionShape,
};
use crate::reality::common::{CONTENT_TYPE_HANDSHAKE, HELLO_SESSION_ID_LEN, HELLO_SESSION_ID_OFFSET};
use crate::reality::grease::{separated, GreaseValues};
use crate::reality::group::NamedGroup;
use crate::reality::hello_profile::{shared_groups, HelloProfile, ProfileShape};
use crate::reality::hello_tables::{alpn_names, chrome_alpn_protocols};
use crate::reality::key_exchange::{
    agreement_of, other_fault, public_key_fault, public_key_of, random_x25519_public_key, share_for,
    x25519_agree, ClientKeyExchange, ExchangeShape,
};
use crate::reality::messages::{record_header_bytes, write_record_header, INITIAL_RECORD_VERSION};
use crate::text::text_of;
use vstd::prelude::*;
use vstd::slice::slice_subrange;
use vstd::string::*;
use vstd::utf8::encode_utf8;

verus! {

/// What a client authenticates itself with.
pub struct ClientIdentity<'a> {
    /// The server's X25519 public key.
    pub public_key: &'a [u8; 32],
    pub short_id: &'a [u8; 8],
    pub server_name: &'a str,
}

/// What an identity holds.
pub struct IdentityShape {
    pub public_key: Seq<u8>,
    pub short_id: Seq<u8>,
    /// The bytes of the server name.
    pub server_name: Seq<u8>,
}

impl<'a> View for ClientIdentity<'a> {
    type V = IdentityShape;

    open spec fn view(&self) -> IdentityShape {
        IdentityShape {
            public_key: self.public_key@,
            short_id: self.short_id@,
            server_name: encode_utf8(self.server_name@),
        }
    }
}

/// What a hello takes from its surroundings, apart from the key exchange.
pub struct HelloDraws {
    pub client_random: [u8; 32],
    /// Seconds since the Unix epoch.
    pub timestamp: u64,
    pub grease: GreaseValues,
    /// The key of the ECH GREASE extension.
    pub ech_enc: [u8; 32],
    /// Decides the identifier, the suite and the length of ECH GREASE.
    pub ech_chooser: [u8; 3],
    pub ech_payload: [u8; 240],
    pub permutation_seed: u64,
}

impl HelloDraws {
    /// Fresh draws for one connection.
    ///
    /// The values are random and the clock decides the time, so nothing is
    /// claimed of them; only a clock before the epoch and a failure to make the
    /// ECH GREASE key are errors.
    pub fn draw() -> (result: Result<HelloDraws, WireError>)
        ensures
            result matches Err(error) ==> error@ == other_fault("System time error"@)
                || public_key_fault(error@),
            result matches Ok(draws) ==> {
                &&& exists|seed: [u8; 5]| draws.grease@ == separated(#[trigger] seed@)
                &&& exists|private: [u8; 32]|
                    (#[trigger] public_key_of(private@)) == Ok::<Seq<u8>, Fault>(draws.ech_enc@)
            },
    {
        let client_random: [u8; 32] = random_bytes();
        let timestamp = match unix_seconds() {
            Some(seconds) => seconds,
            None => {
                return Err(WireError::new(ErrorKind::Other, "System time error"));
            },
        };
        let grease = GreaseValues::random();
        let ech_enc = match random_x25519_public_key() {
            Ok(ech_enc) => ech_enc,
            Err(error) => {
                return Err(error);
            },
        };
        Ok(
            HelloDraws {
                client_random,
                timestamp,
                grease,
                ech_enc,
                ech_chooser: random_bytes(),
                ech_payload: random_bytes(),
                permutation_seed: random_u64(),
            },
        )
    }
}

/// The shares of the first `n` groups.
pub open spec fn shares_for(exchange: ExchangeShape, groups: Seq<NamedGroup>, n: nat) -> Result<
    Seq<(NamedGroup, Seq<u8>)>,
    Fault,
>
    decreases n,
{
    if n == 0 {
        Ok(Seq::empty())
    } else {
        match shares_for(exchange, groups, (n - 1) as nat) {
            Err(fault) => Err(fault),
            Ok(shares) => match share_for(exchange, groups[n - 1]) {
                Some(share) => Ok(shares.push((groups[n - 1], share))),
                None => Err(
                    invalid_input(
                        "REALITY key exchange produced no "@ + groups[n - 1].spec_name()
                            + " share for the hello profile"@,
                    ),
                ),
            },
        }
    }
}

/// The groups that a profile sends a share for.
pub open spec fn profile_groups(profile: ProfileShape) -> Seq<NamedGroup> {
    shared_groups(profile.extensions, profile.extensions.len())
}

proof fn lemma_share_fault_stays(
    exchange: ExchangeShape,
    groups: Seq<NamedGroup>,
    n: nat,
    m: nat,
)
    requires
        n <= m,
        shares_for(exchange, groups, n) is Err,
    ensures
        shares_for(exchange, groups, m) == shares_for(exchange, groups, n),
    decreases m,
{
    if n < m {
        lemma_share_fault_stays(exchange, groups, n, (m - 1) as nat);
    }
}

fn collect_shares(exchange: &ClientKeyExchange, groups: &Vec<NamedGroup>) -> (result: Result<
    Vec<(NamedGroup, Vec<u8>)>,
    WireError,
>)
    ensures
        match shares_for(exchange@, groups@, groups@.len()) {
            Ok(shares) => result matches Ok(actual) && share_shapes(actual@) == shares,
            Err(fault) => result matches Err(error) && error@ == fault,
        },
{
    let mut shares: Vec<(NamedGroup, Vec<u8>)> = Vec::new();
    assert(share_shapes(shares@) =~= Seq::<(NamedGroup, Seq<u8>)>::empty());
    for i in 0..groups.len()
        invariant
            shares_for(exchange@, groups@, i as nat) == Ok::<
                Seq<(NamedGroup, Seq<u8>)>,
                Fault,
            >(share_shapes(shares@)),
    {
        let ghost before = shares@;
        match exchange.share_bytes(groups[i]) {
            Some(share) => {
                shares.push((groups[i], share));
                assert(share_shapes(shares@) =~= share_shapes(before).push(
                    (groups@[i as int], share@),
                ));
            },
            None => {
                let mut message = text_of("REALITY key exchange produced no ");
                message.append(groups[i].name());
                message.append(" share for the hello profile");
                proof {
                    lemma_share_fault_stays(
                        exchange@,
                        groups@,
                        (i + 1) as nat,
                        groups@.len(),
                    );
                }
                return Err(WireError { kind: ErrorKind::InvalidInput, message });
            },
        }
    }
    Ok(shares)
}

/// The session that a hello is made of before its session id is sealed: the
/// metadata stands in the clear, with zeros behind it.
pub open spec fn plain_session(
    profile: ProfileShape,
    identity: IdentityShape,
    draws: HelloDraws,
    shares: Seq<(NamedGroup, Seq<u8>)>,
) -> SessionShape {
    SessionShape {
        client_random: draws.client_random@,
        session_id: session_metadata((draws.timestamp % 0x1_0000_0000) as u32, identity.short_id)
            + Seq::new(16, |i: int| 0u8),
        server_name: identity.server_name,
        alpn_protocols: alpn_names(),
        key_shares: shares,
        grease: draws.grease@,
        ech_body: ech_body_of(
            profile.ech_suites,
            profile.ech_payload_lens,
            draws.ech_enc@,
            draws.ech_chooser@,
            draws.ech_payload@,
        ),
        permutation_seed: draws.permutation_seed,
    }
}

/// A message with other bytes in the session id's window.
pub open spec fn with_session_id(message: Seq<u8>, session_id: Seq<u8>) -> Seq<u8> {
    message.subrange(0, 39) + session_id + message.subrange(71, message.len() as int)
}

/// What a prepared hello holds.
pub struct PreparedShape {
    /// The handshake message, as it goes over the wire.
    pub client_hello: Seq<u8>,
    pub auth_key: Seq<u8>,
    /// The message in its record.
    pub record: Seq<u8>,
}

/// A hello ready to send, and the key that its answer is checked with.
pub struct PreparedHello {
    pub client_hello: Vec<u8>,
    pub auth_key: [u8; 32],
    pub record: Vec<u8>,
}

impl View for PreparedHello {
    type V = PreparedShape;

    open spec fn view(&self) -> PreparedShape {
        PreparedShape {
            client_hello: self.client_hello@,
            auth_key: self.auth_key@,
            record: self.record@,
        }
    }
}

/// The label of the authentication key.
pub open spec fn auth_info() -> Seq<u8> {
    seq![82u8, 69u8, 65u8, 76u8, 73u8, 84u8, 89u8]
}

/// The authentication key of a connection: from the client's plain share and
/// the server's key, salted with the first twenty bytes of the client random.
pub open spec fn connection_auth_key(secret: Seq<u8>, client_random: Seq<u8>) -> Seq<u8> {
    auth_key_of(secret, client_random.subrange(0, 20), auth_info())
}

/// The hello with its session id sealed: the metadata under the authentication
/// key, over the hello with a zeroed session id, with the last twelve bytes of
/// the client random as nonce.
pub open spec fn sealed_hello(
    identity: IdentityShape,
    draws: HelloDraws,
    auth_key: Seq<u8>,
    plain: Seq<u8>,
) -> Result<PreparedShape, Fault> {
    match sealed_session_id(
        session_metadata((draws.timestamp % 0x1_0000_0000) as u32, identity.short_id),
        auth_key,
        draws.client_random@.subrange(20, 32),
        with_session_id(plain, Seq::new(32, |i: int| 0u8)),
    ) {
        Err(fault) => Err(fault),
        Ok(session_id) => {
            let hello = with_session_id(plain, session_id);
            if hello.len() > 65535 {
                Err(invalid_input("REALITY ClientHello does not fit in one TLS record"@))
            } else {
                Ok(
                    PreparedShape {
                        client_hello: hello,
                        auth_key,
                        record: record_header_bytes(
                            CONTENT_TYPE_HANDSHAKE,
                            INITIAL_RECORD_VERSION@,
                            hello.len() as u16,
                        ) + hello,
                    },
                )
            }
        },
    }
}

/// Whether a server that derives the same authentication key reads the client's
/// metadata out of the hello: it zeroes the session id, and opens what stood
/// there over the rest.
pub open spec fn server_reads(
    hello: PreparedShape,
    client_random: Seq<u8>,
    metadata: Seq<u8>,
) -> bool {
    aes_256_gcm_opened(
        hello.auth_key,
        client_random.subrange(20, 32),
        with_session_id(hello.client_hello, Seq::new(32, |i: int| 0u8)),
        hello.client_hello.subrange(39, 71),
    ) == Some(metadata)
}

/// Whether a hello is another with its session id, of 32 bytes, replaced and
/// nothing else: as long, and the same in front of the window and behind it.
pub open spec fn resealed(plain: Seq<u8>, hello: Seq<u8>) -> bool {
    &&& hello.len() == plain.len()
    &&& session_id_in_window(hello, hello.subrange(39, 71))
    &&& hello.subrange(0, 39) == plain.subrange(0, 39)
    &&& hello.subrange(71, hello.len() as int) == plain.subrange(71, plain.len() as int)
}

/// The hello that a profile makes before its session id is sealed.
pub open spec fn plain_hello(
    profile: ProfileShape,
    identity: IdentityShape,
    exchange: ExchangeShape,
    draws: HelloDraws,
) -> Result<Seq<u8>, Fault> {
    let groups = profile_groups(profile);
    match shares_for(exchange, groups, groups.len()) {
        Err(fault) => Err(fault),
        Ok(shares) => client_hello_message(
            profile,
            plain_session(profile, identity, draws, shares),
        ),
    }
}

/// The hello that a profile makes.
pub open spec fn prepared(
    profile: ProfileShape,
    identity: IdentityShape,
    exchange: ExchangeShape,
    draws: HelloDraws,
) -> Result<PreparedShape, Fault> {
    let groups = profile_groups(profile);
    match shares_for(exchange, groups, groups.len()) {
        Err(fault) => Err(fault),
        Ok(shares) => match agreement_of(exchange.x25519_private, identity.public_key) {
            Err(fault) => Err(invalid_data(fault.1)),
            Ok(secret) => match client_hello_message(
                profile,
                plain_session(profile, identity, draws, shares),
            ) {
                Err(fault) => Err(fault),
                Ok(plain) => sealed_hello(
                    identity,
                    draws,
                    connection_auth_key(secret, draws.client_random@),
                    plain,
                ),
            },
        },
    }
}

fn replace_session_id(message: &[u8], session_id: &[u8; 32]) -> (replaced: Vec<u8>)
    requires
        message@.len() >= 71,
    ensures
        replaced@ == with_session_id(message@, session_id@),
{
    let end = HELLO_SESSION_ID_OFFSET + HELLO_SESSION_ID_LEN;
    let mut replaced = copy_range(message, 0, HELLO_SESSION_ID_OFFSET);
    push_bytes(&mut replaced, session_id.as_slice());
    push_bytes(&mut replaced, slice_subrange(message, end, message.len()));
    replaced
}

fn seal_hello(
    identity: &ClientIdentity,
    draws: &HelloDraws,
    auth_key: [u8; 32],
    metadata: &[u8; 16],
    plain: &[u8],
) -> (result: Result<PreparedHello, WireError>)
    requires
        metadata@ == session_metadata(
            (draws.timestamp % 0x1_0000_0000) as u32,
            identity@.short_id,
        ),
        plain@.len() >= 71,
        plain@[38] == 32,
    ensures
        match sealed_hello(identity@, *draws, auth_key@, plain@) {
            Ok(shape) => result matches Ok(actual) && actual@ == shape,
            Err(fault) => result matches Err(error) && error@ == fault,
        },
        result matches Ok(hello) ==> server_reads(hello@, draws.client_random@, metadata@)
            && resealed(plain@, hello@.client_hello),
{
    let zero_id: [u8; 32] = [0u8; 32];
    assert(zero_id@ =~= Seq::new(32, |i: int| 0u8));
    let zeroed = replace_session_id(plain, &zero_id);
    let session_id = match encrypt_session_id(
        metadata,
        &auth_key,
        slice_subrange(draws.client_random.as_slice(), 20, 32),
        zeroed.as_slice(),
    ) {
        Ok(session_id) => session_id,
        Err(error) => {
            return Err(error);
        },
    };
    let client_hello = replace_session_id(plain, &session_id);
    if client_hello.len() > 65535 {
        return Err(
            WireError::new(
                ErrorKind::InvalidInput,
                "REALITY ClientHello does not fit in one TLS record",
            ),
        );
    }
    let mut record = write_record_header(
        CONTENT_TYPE_HANDSHAKE,
        INITIAL_RECORD_VERSION,
        client_hello.len() as u16,
    );
    push_bytes(&mut record, client_hello.as_slice());
    assert(with_session_id(client_hello@, zero_id@) =~= zeroed@);
    assert(client_hello@.subrange(39, 71) =~= session_id@);
    assert(client_hello@[38] == plain@[38]);
    assert(client_hello@.subrange(0, 39) =~= plain@.subrange(0, 39));
    assert(client_hello@.subrange(71, client_hello@.len() as int) =~= plain@.subrange(
        71,
        plain@.len() as int,
    ));
    Ok(PreparedHello { client_hello, auth_key, record })
}

proof fn lemma_random_in_message(plain: Seq<u8>, message: Seq<u8>, random: Seq<u8>)
    requires
        resealed(plain, message),
        plain.len() >= 71,
        plain.subrange(6, 38) == random,
    ensures
        message.subrange(6, 38) == random,
        message.subrange(6, 26) == random.subrange(0, 20),
        message.subrange(26, 38) == random.subrange(20, 32),
        message.take(39) + Seq::new(32, |i: int| 0u8) + message.skip(71) == with_session_id(
            message,
            Seq::new(32, |i: int| 0u8),
        ),
{
    let blank = Seq::new(32, |i: int| 0u8);
    assert(message.subrange(6, 38) =~= message.subrange(0, 39).subrange(6, 38));
    assert(plain.subrange(6, 38) =~= plain.subrange(0, 39).subrange(6, 38));
    assert(message.subrange(6, 26) =~= message.subrange(6, 38).subrange(0, 20));
    assert(message.subrange(26, 38) =~= message.subrange(6, 38).subrange(20, 32));
    assert(message.take(39) + blank + message.skip(71) =~= with_session_id(message, blank));
}

/// Prepare the hello of a connection: every share of the profile, the
/// authentication key from the plain one, and the sealed session id, which a
/// server with the same key reads the client's metadata from. Sealing changes
/// nothing but the session id.
#[verifier::spinoff_prover]
#[verifier::rlimit(60)]
pub fn prepare_hello(
    profile: &HelloProfile,
    identity: &ClientIdentity,
    exchange: &ClientKeyExchange,
    draws: HelloDraws,
) -> (result: Result<PreparedHello, WireError>)
    ensures
        match prepared(profile@, identity@, exchange@, draws) {
            Ok(shape) => result matches Ok(actual) && actual@ == shape,
            Err(fault) => result matches Err(error) && error@ == fault,
        },
        result matches Ok(hello) ==> server_reads(
            hello@,
            draws.client_random@,
            session_metadata((draws.timestamp % 0x1_0000_0000) as u32, identity@.short_id),
        ) && (plain_hello(profile@, identity@, exchange@, draws) matches Ok(plain) && resealed(
            plain,
            hello@.client_hello,
        )),
        result matches Ok(hello) ==> {
            let message = hello.client_hello@;
            &&& message.subrange(6, 38) == draws.client_random@
            &&& x25519_secret_of(exchange@.x25519_private, identity.public_key@) matches Ok(secret)
            &&& hello.auth_key@ == hmac_sha256_of(
                hmac_sha256_of(message.subrange(6, 26), secret),
                seq![82u8, 69u8, 65u8, 76u8, 73u8, 84u8, 89u8, 1u8],
            )
            &&& aes_256_gcm_opened(
                hello.auth_key@,
                message.subrange(26, 38),
                message.take(39) + Seq::new(32, |i: int| 0u8) + message.skip(71),
                message.subrange(39, 71),
            ) == Some(
                seq![1u8, 8u8, 0u8, 0u8] + be32((draws.timestamp % 0x1_0000_0000) as u32)
                    + identity.short_id@,
            )
            &&& hello.record@ == seq![22u8, 3u8, 1u8] + be16(message.len() as u16) + message
        },
{
    let groups = profile.key_share_groups();
    let key_shares = match collect_shares(exchange, &groups) {
        Ok(shares) => shares,
        Err(error) => {
            return Err(error);
        },
    };
    let secret = match x25519_agree(exchange.reality_private_key(), identity.public_key) {
        Ok(secret) => secret,
        Err(error) => {
            return Err(WireError { kind: ErrorKind::InvalidData, message: error.message });
        },
    };
    let info: [u8; 7] = [82, 69, 65, 76, 73, 84, 89];
    assert(info@ =~= auth_info());
    let auth_key = derive_auth_key(
        &secret,
        slice_subrange(draws.client_random.as_slice(), 0, 20),
        info.as_slice(),
    );
    let metadata = session_id_metadata(
        (draws.timestamp % 0x1_0000_0000) as u32,
        identity.short_id,
    );
    let mut session_id: [u8; 32] = [0u8; 32];
    for i in 0..16usize
        invariant
            forall|j: int| 0 <= j < i ==> session_id@[j] == metadata@[j],
            forall|j: int| i <= j < 32 ==> session_id@[j] == 0,
    {
        session_id[i] = metadata[i];
    }
    assert(session_id@ =~= metadata@ + Seq::new(16, |i: int| 0u8));
    let protocols = chrome_alpn_protocols();
    let session = HelloSession {
        client_random: &draws.client_random,
        session_id: &session_id,
        server_name: identity.server_name,
        alpn_protocols: protocols.as_slice(),
        key_shares: key_shares.as_slice(),
        grease: draws.grease,
        ech_grease: EchGreaseParams::for_shape(
            &profile.ech_grease,
            draws.ech_enc,
            draws.ech_chooser,
            draws.ech_payload,
        ),
        permutation_seed: draws.permutation_seed,
    };
    assert(session@ == plain_session(profile@, identity@, draws, share_shapes(key_shares@)));
    let plain = match construct_client_hello(profile, &session) {
        Ok(plain) => plain,
        Err(error) => {
            return Err(error);
        },
    };
    proof {
        hello_keeps_the_session_id_window(profile@, session@);
    }
    let result = seal_hello(identity, &draws, auth_key, &metadata, plain.as_slice());
    proof {
        if result is Ok {
            let message = result->Ok_0.client_hello@;
            assert(auth_info().push(1u8) =~= seq![82u8, 69u8, 65u8, 76u8, 73u8, 84u8, 89u8, 1u8]);
            lemma_random_in_message(plain@, message, draws.client_random@);
        }
    }
    result
}

} // verus!
