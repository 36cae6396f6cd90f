//! What surrounds a connection: the names and timeouts that are accepted, which
//! hello is written, and the decisions of the loop that moves bytes between a
//! connection and a socket.
use crate::address_text::{
    ipv4_of, ipv6_of, piece_bytes, pieces_of, read_ipv4, read_ipv6, split_pieces,
};
use crate::error::{invalid_data, invalid_input, ErrorKind, Fault, WireError};
use crate::reality::client_connection::{
    fed, flushed, identity_of, opening_fault, opens_as, processed, ConnectionShape,
    RealityClientConfig, RealityClientConnection,
};
use crate::reality::common::CIPHERTEXT_READ_BUF_CAPACITY;
use crate::reality::group::NamedGroup;
use crate::reality::hello_profile::{HelloProfile, ProfileShape};
use crate::reality::hello_tables::RealityHelloProfile;
use crate::reality::key_exchange::{refused_outright, unexecutable_fault};
use crate::reality::prepared_hello::profile_groups;
use crate::reality::randomized_hello::{
    drawn_hello, random_profile, seeded_words, RandomizedHello,
};
use crate::reality::runtime_tables::{table_in_effect, FingerprintTables, TablesShape};
use std::sync::Arc;
use vstd::prelude::*;
use vstd::slice::slice_subrange;
use vstd::string::*;
use vstd::utf8::encode_utf8;

verus! {

/// How often a handshake may go round before it is given up.
pub const MAX_HANDSHAKE_ITERATIONS: usize = 64;

/// The longest handshake, in seconds.
pub const MAX_HANDSHAKE_SECONDS: u64 = 60;

/// The bytes without dots at the end.
pub open spec fn without_trailing_dots(bytes: Seq<u8>) -> Seq<u8>
    decreases bytes.len(),
{
    if bytes.len() > 0 && bytes.last() == 46 {
        without_trailing_dots(bytes.drop_last())
    } else {
        bytes
    }
}

/// Whether a byte may stand in a label: a letter, a digit or a hyphen of ASCII.
pub open spec fn label_byte(byte: u8) -> bool {
    48 <= byte <= 57 || 65 <= byte <= 90 || 97 <= byte <= 122 || byte == 45
}

/// Whether a label may stand in a DNS name.
pub open spec fn valid_label(label: Seq<u8>) -> bool {
    &&& 1 <= label.len() <= 63
    &&& label[0] != 45
    &&& label.last() != 45
    &&& forall|i: int| 0 <= i < label.len() ==> label_byte(#[trigger] label[i])
}

/// Whether bytes are a DNS name that a hello may carry: not an address, and made
/// of valid labels. Dots at the end do not count.
pub open spec fn valid_server_name(name: Seq<u8>) -> bool {
    let bytes = without_trailing_dots(name);
    let pieces = pieces_of(bytes, 46, bytes.len());
    &&& 1 <= bytes.len() <= 253
    &&& ipv4_of(bytes) is None
    &&& ipv6_of(bytes) is None
    &&& forall|i: int| 0 <= i < pieces.len() ==> valid_label(#[trigger] pieces[i])
}

fn trim_dots(name: &[u8]) -> (end: usize)
    ensures
        end <= name@.len(),
        name@.subrange(0, end as int) == without_trailing_dots(name@),
{
    let mut end: usize = name.len();
    assert(name@.subrange(0, end as int) =~= name@);
    while end > 0 && name[end - 1] == 46
        invariant
            end <= name@.len(),
            without_trailing_dots(name@) == without_trailing_dots(name@.subrange(0, end as int)),
        decreases end,
    {
        assert(name@.subrange(0, end as int).drop_last() =~= name@.subrange(0, end - 1));
        end = end - 1;
    }
    end
}

fn is_valid_label(label: &[u8]) -> (valid: bool)
    ensures
        valid == valid_label(label@),
{
    if label.len() == 0 || label.len() > 63 || label[0] == 45 || label[label.len() - 1] == 45 {
        return false;
    }
    for i in 0..label.len()
        invariant
            forall|j: int| 0 <= j < i ==> label_byte(#[trigger] label@[j]),
    {
        let byte = label[i];
        if !((48 <= byte && byte <= 57) || (65 <= byte && byte <= 90) || (97 <= byte && byte
            <= 122) || byte == 45) {
            assert(!label_byte(label@[i as int]));
            return false;
        }
    }
    true
}

/// Check the server name of a hello.
pub fn validate_server_name(name: &str) -> (result: Result<(), WireError>)
    ensures
        if valid_server_name(encode_utf8(name@)) {
            result is Ok
        } else {
            result matches Err(error) && error@ == invalid_input(
                "REALITY server name must be an ASCII DNS name"@,
            )
        },
{
    let all = name.as_bytes();
    let end = trim_dots(all);
    let bytes = slice_subrange(all, 0, end);
    let pieces = split_pieces(bytes, 46);
    let ghost shapes = piece_bytes(pieces@);
    let mut valid = 1 <= end && end <= 253 && read_ipv4(bytes).is_none() && read_ipv6(
        bytes,
    ).is_none();
    for i in 0..pieces.len()
        invariant
            shapes == piece_bytes(pieces@),
            bytes@ == without_trailing_dots(encode_utf8(name@)),
            shapes == pieces_of(bytes@, 46, bytes@.len()),
            forall|j: int| 0 <= j < i ==> (valid ==> valid_label(#[trigger] shapes[j])),
            valid ==> 1 <= bytes@.len() <= 253 && ipv4_of(bytes@) is None && ipv6_of(
                bytes@,
            ) is None,
            !valid ==> !valid_server_name(encode_utf8(name@)),
    {
        assert(shapes[i as int] == pieces@[i as int]@);
        if !is_valid_label(pieces[i].as_slice()) {
            assert(!valid_label(shapes[i as int]));
            valid = false;
        }
    }
    if !valid {
        return Err(
            WireError::new(
                ErrorKind::InvalidInput,
                "REALITY server name must be an ASCII DNS name",
            ),
        );
    }
    Ok(())
}

/// Whether a handshake may take this long: more than no time, and no more than a
/// minute.
pub open spec fn valid_timeout(seconds: u64, nanoseconds: u32) -> bool {
    &&& seconds > 0 || nanoseconds > 0
    &&& seconds < MAX_HANDSHAKE_SECONDS || (seconds == MAX_HANDSHAKE_SECONDS && nanoseconds == 0)
}

/// Check the time that a handshake may take.
pub fn validate_handshake_timeout(seconds: u64, nanoseconds: u32) -> (result: Result<(), WireError>)
    ensures
        if valid_timeout(seconds, nanoseconds) {
            result is Ok
        } else {
            result matches Err(error) && error@ == invalid_input(
                "REALITY handshake timeout must be in 1ms..=60s"@,
            )
        },
{
    if (seconds == 0 && nanoseconds == 0) || seconds > MAX_HANDSHAKE_SECONDS || (seconds
        == MAX_HANDSHAKE_SECONDS && nanoseconds > 0) {
        return Err(
            WireError::new(
                ErrorKind::InvalidInput,
                "REALITY handshake timeout must be in 1ms..=60s",
            ),
        );
    }
    Ok(())
}

/// Which hello a connection writes: a table, a fresh draw, or the draw of a seed.
#[derive(Clone, Copy, Debug, PartialEq, Eq, Structural)]
pub enum RealityHello {
    Profile(RealityHelloProfile),
    Randomized,
    RandomizedSeeded(u64),
}

impl From<RealityHelloProfile> for RealityHello {
    fn from(profile: RealityHelloProfile) -> (hello: RealityHello) {
        RealityHello::Profile(profile)
    }
}

impl vstd::std_specs::convert::FromSpecImpl<RealityHelloProfile> for RealityHello {
    open spec fn obeys_from_spec() -> bool {
        true
    }

    open spec fn from_spec(profile: RealityHelloProfile) -> RealityHello {
        RealityHello::Profile(profile)
    }
}

/// Whether a profile is one that a hello may be written from under the tables in
/// effect.
pub open spec fn written_from(
    hello: RealityHello,
    tables: TablesShape,
    profile: ProfileShape,
) -> bool {
    match hello {
        RealityHello::Profile(table) => profile == table_in_effect(tables, table),
        RealityHello::Randomized => exists|words: Seq<u64>|
            (#[trigger] drawn_hello(words)) matches Some((drawn, _)) && profile == random_profile(
                drawn,
            ),
        RealityHello::RandomizedSeeded(seed) => drawn_hello(seeded_words(seed)) matches Some(
            (drawn, _),
        ) && profile == random_profile(drawn),
    }
}

impl RealityHello {
    /// The profile that the hello is written from, under the tables in effect.
    pub fn profile(self, tables: &FingerprintTables) -> (profile: Arc<HelloProfile>)
        ensures
            written_from(self, tables@, profile@),
    {
        match self {
            RealityHello::Profile(profile) => tables.table_for(profile),
            RealityHello::Randomized => Arc::new(RandomizedHello::random().with_profile()),
            RealityHello::RandomizedSeeded(seed) => Arc::new(
                RandomizedHello::seeded(seed).with_profile(),
            ),
        }
    }
}

/// Open a connection after its server name and its timeout have been checked, in
/// this order.
pub fn open_connection(
    config: &RealityClientConfig,
    hello: RealityHello,
    seconds: u64,
    nanoseconds: u32,
    tables: &FingerprintTables,
) -> (result: Result<RealityClientConnection, WireError>)
    ensures
        if !valid_server_name(encode_utf8(config.server_name@)) {
            result matches Err(error) && error@ == invalid_input(
                "REALITY server name must be an ASCII DNS name"@,
            )
        } else if !valid_timeout(seconds, nanoseconds) {
            result matches Err(error) && error@ == invalid_input(
                "REALITY handshake timeout must be in 1ms..=60s"@,
            )
        } else {
            exists|profile: ProfileShape|
                {
                    &&& #[trigger] written_from(hello, tables@, profile)
                    &&& result matches Ok(connection) ==> opens_as(
                        profile,
                        identity_of(*config),
                        connection@,
                    )
                    &&& result matches Err(error) ==> opening_fault(
                        profile,
                        identity_of(*config),
                        error@,
                    )
                    &&& forall|group: NamedGroup| #[trigger]
                        refused_outright(profile_groups(profile), group) ==> (result matches Err(
                            error,
                        ) && error@ == unexecutable_fault(group))
                }
        },
{
    if let Err(error) = validate_server_name(config.server_name.as_str()) {
        return Err(error);
    }
    if let Err(error) = validate_handshake_timeout(seconds, nanoseconds) {
        return Err(error);
    }
    let profile = hello.profile(tables);
    assert(written_from(hello, tables@, profile@));
    RealityClientConnection::with_profile(config, profile)
}

/// What feeding bytes comes to: all of them, or as many as the buffer holds and a
/// fault.
pub open spec fn fed_whole(connection: ConnectionShape, data: Seq<u8>) -> (
    Result<(), Fault>,
    ConnectionShape,
) {
    let free = CIPHERTEXT_READ_BUF_CAPACITY - connection.incoming.len();
    if data.len() <= free || data.len() == 0 {
        (Ok(()), fed(connection, data))
    } else {
        (
            Err(invalid_data("REALITY ciphertext buffer limit exceeded"@)),
            fed(connection, data.subrange(0, if free < 0 {
                0
            } else {
                free
            })),
        )
    }
}

/// Feed a connection with bytes that came in.
pub fn feed_ciphertext(connection: &mut RealityClientConnection, data: &[u8]) -> (result: Result<
    (),
    WireError,
>)
    ensures
        final(connection)@ == fed_whole(old(connection)@, data@).1,
        match fed_whole(old(connection)@, data@).0 {
            Ok(_) => result is Ok,
            Err(fault) => result matches Err(error) && error@ == fault,
        },
{
    let mut at: usize = 0;
    assert(fed(old(connection)@, data@.subrange(0, 0)).incoming =~= old(connection)@.incoming);
    while at < data.len()
        invariant
            at <= data@.len(),
            connection@ == fed(old(connection)@, data@.subrange(0, at as int)),
            at > 0 ==> at <= CIPHERTEXT_READ_BUF_CAPACITY - old(connection)@.incoming.len(),
        decreases data.len() - at,
    {
        let ghost before = connection@;
        match connection.read_tls(slice_subrange(data, at, data.len())) {
            Err(error) => {
                return Err(error);
            },
            Ok(count) => {
                proof {
                    let rest = data@.subrange(at as int, data@.len() as int);
                    assert(before.incoming + rest.subrange(0, count as int) =~= old(
                        connection,
                    )@.incoming + data@.subrange(0, at + count));
                }
                at = at + count;
            },
        }
    }
    assert(data@.subrange(0, data@.len() as int) =~= data@);
    Ok(())
}

/// The fault of a writer that gives nothing although it wants to write.
pub open spec fn no_progress() -> Fault {
    (ErrorKind::WriteZero, "REALITY record writer made no progress"@)
}

/// What draining comes to: every byte that has to go out, or the fault. Plaintext
/// that cannot be encrypted yet is such a fault.
pub open spec fn drained(connection: ConnectionShape) -> (
    Result<Seq<u8>, Fault>,
    ConnectionShape,
) {
    if connection.outgoing.len() == 0 && connection.pending.len() == 0 {
        (Ok(Seq::empty()), connection)
    } else {
        match flushed(connection) {
            (Err(fault), next) => (Err(fault), next),
            (Ok(_), next) => {
                let empty = ConnectionShape { outgoing: Seq::empty(), ..next };
                if next.outgoing.len() == 0 || next.pending.len() > 0 {
                    (Err(no_progress()), empty)
                } else {
                    (Ok(next.outgoing), empty)
                }
            },
        }
    }
}

/// Take every byte that has to go out.
pub fn drain_ciphertext(connection: &mut RealityClientConnection) -> (result: Result<
    Vec<u8>,
    WireError,
>)
    ensures
        final(connection)@ == drained(old(connection)@).1,
        match drained(old(connection)@).0 {
            Ok(bytes) => result matches Ok(actual) && actual@ == bytes,
            Err(fault) => result matches Err(error) && error@ == fault,
        },
{
    if !connection.wants_write() {
        let nothing: Vec<u8> = Vec::new();
        assert(nothing@ =~= Seq::<u8>::empty());
        return Ok(nothing);
    }
    let bytes = match connection.write_tls(usize::MAX) {
        Ok(bytes) => bytes,
        Err(error) => {
            return Err(error);
        },
    };
    proof {
        let next = flushed(old(connection)@).1;
        assert(bytes@ =~= next.outgoing);
        assert(connection@.outgoing =~= Seq::<u8>::empty());
    }
    if bytes.len() == 0 || connection.wants_write() {
        return Err(
            WireError::new(ErrorKind::WriteZero, "REALITY record writer made no progress"),
        );
    }
    Ok(bytes)
}

/// The whole plaintext that is at hand, and whether the peer has closed.
pub fn take_plaintext(connection: &mut RealityClientConnection) -> (taken: (Vec<u8>, bool))
    ensures
        taken.0@ == old(connection)@.received,
        taken.1 == old(connection)@.closed,
        final(connection)@ == (ConnectionShape { received: Seq::empty(), ..old(connection)@ }),
{
    let mut plaintext: Vec<u8> = Vec::new();
    let first = connection.read_plaintext(usize::MAX);
    match first {
        Err(_) => {
            assert(old(connection)@.received =~= Seq::<u8>::empty());
            (plaintext, false)
        },
        Ok(bytes) => {
            proof {
                let received = old(connection)@.received;
                assert(received.subrange(0, received.len() as int) =~= received);
                assert(connection@.received =~= Seq::<u8>::empty());
                assert(bytes@ =~= received);
            }
            let closed = connection.read_plaintext(usize::MAX).is_ok();
            (bytes, closed)
        },
    }
}

/// What a round of the handshake asks for once its bytes are sent.
#[derive(Clone, Copy, Debug, PartialEq, Eq, Structural)]
pub enum HandshakeStep {
    /// The handshake is complete.
    Done,
    /// Bytes have to be read.
    Read,
}

/// The fault of a handshake that can neither read nor write.
pub open spec fn stalled() -> Fault {
    invalid_data("REALITY handshake state stalled"@)
}

/// What follows when everything that had to go out has been sent.
pub open spec fn step_after_send(connection: ConnectionShape) -> Result<HandshakeStep, Fault> {
    if connection.phase is Complete {
        Ok(HandshakeStep::Done)
    } else if connection.closed || connection.failed is Some {
        Err(stalled())
    } else {
        Ok(HandshakeStep::Read)
    }
}

/// What bytes read from the peer do to the connection. No bytes at all are the
/// end of the stream.
pub open spec fn taken_in(connection: ConnectionShape, data: Seq<u8>) -> (
    Result<(), Fault>,
    ConnectionShape,
) {
    if data.len() == 0 {
        (Err((ErrorKind::UnexpectedEof, "peer closed during REALITY handshake"@)), connection)
    } else {
        match fed_whole(connection, data) {
            (Err(fault), next) => (Err(fault), next),
            (Ok(_), next) => processed(next),
        }
    }
}

/// The rounds that a handshake has gone.
pub struct HandshakeRounds {
    rounds: usize,
}

impl View for HandshakeRounds {
    type V = nat;

    closed spec fn view(&self) -> nat {
        self.rounds as nat
    }
}

impl HandshakeRounds {
    pub fn new() -> (rounds: Self)
        ensures
            rounds@ == 0,
    {
        HandshakeRounds { rounds: 0 }
    }

    /// Begin a round: the bytes to send, unless there have been too many rounds.
    pub fn begin(&mut self, connection: &mut RealityClientConnection) -> (result: Result<
        Vec<u8>,
        WireError,
    >)
        ensures
            if old(self)@ >= MAX_HANDSHAKE_ITERATIONS {
                &&& final(self)@ == old(self)@
                &&& final(connection)@ == old(connection)@
                &&& result matches Err(error) && error@ == invalid_data(
                    "REALITY handshake iteration limit exceeded"@,
                )
            } else {
                &&& final(self)@ == old(self)@ + 1
                &&& final(connection)@ == drained(old(connection)@).1
                &&& match drained(old(connection)@).0 {
                    Ok(bytes) => result matches Ok(actual) && actual@ == bytes,
                    Err(fault) => result matches Err(error) && error@ == fault,
                }
            },
    {
        if self.rounds >= MAX_HANDSHAKE_ITERATIONS {
            return Err(
                WireError::new(
                    ErrorKind::InvalidData,
                    "REALITY handshake iteration limit exceeded",
                ),
            );
        }
        self.rounds = self.rounds + 1;
        drain_ciphertext(connection)
    }

    /// What follows once the bytes of the round are sent. A connection that has
    /// nothing to send, as after a round has begun, and does not read is stalled.
    pub fn sent(&self, connection: &RealityClientConnection) -> (result: Result<
        HandshakeStep,
        WireError,
    >)
        requires
            connection@.outgoing.len() == 0 && connection@.pending.len() == 0,
        ensures
            match step_after_send(connection@) {
                Ok(step) => result matches Ok(actual) && actual == step,
                Err(fault) => result matches Err(error) && error@ == fault,
            },
    {
        if !connection.is_handshaking() {
            return Ok(HandshakeStep::Done);
        }
        if !connection.wants_read() && !connection.wants_write() {
            return Err(WireError::new(ErrorKind::InvalidData, "REALITY handshake state stalled"));
        }
        Ok(HandshakeStep::Read)
    }

    /// Take in what was read in this round.
    pub fn received(&self, connection: &mut RealityClientConnection, data: &[u8]) -> (result:
        Result<(), WireError>)
        ensures
            final(connection)@ == taken_in(old(connection)@, data@).1,
            match taken_in(old(connection)@, data@).0 {
                Ok(_) => result is Ok,
                Err(fault) => result matches Err(error) && error@ == fault,
            },
    {
        if data.len() == 0 {
            return Err(
                WireError::new(ErrorKind::UnexpectedEof, "peer closed during REALITY handshake"),
            );
        }
        match feed_ciphertext(connection, data) {
            Err(error) => Err(error),
            Ok(()) => connection.process_new_packets(),
        }
    }
}

/// After a round has begun nothing is left to send, so that the step that
/// follows it can be asked for.
pub proof fn a_drained_connection_has_nothing_to_send(connection: ConnectionShape)
    requires
        drained(connection).0 is Ok,
    ensures
        drained(connection).1.outgoing.len() == 0,
        drained(connection).1.pending.len() == 0,
        drained(drained(connection).1) == (Ok::<Seq<u8>, Fault>(Seq::empty()), drained(
            connection,
        ).1),
{
}

} // verus!
