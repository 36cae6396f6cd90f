//! The client's side of the handshake, as a machine that is told what was read
//! and says what to send or how much to read next.
use crate::destination::{Destination, DestinationShape};
use crate::error::{invalid_input, ErrorKind, Fault, WireError};
use crate::octets::{copy_array, copy_range, push_bytes};
use crate::socks::codec::{
    a_written_address_reads_back, address_bytes, auth_request, auth_verdict, encode_auth,
    encode_greeting, encode_request, method_verdict, offered_method, read_auth_status,
    read_destination,
    read_method_selection, read_reply, reply_reading, request_bytes, Reading, ReadingShape,
    AUTH_VERSION, METHOD_NO_AUTH, METHOD_USERNAME_PASSWORD, VERSION,
};
use crate::socks::error::{SocksError, SocksFault};
use vstd::prelude::*;
use vstd::slice::slice_subrange;
use vstd::string::*;
use vstd::utf8::encode_utf8;

verus! {

/// How long a handshake may take unless configured otherwise, in milliseconds.
pub const DEFAULT_HANDSHAKE_TIMEOUT_MS: u64 = 15_000;

/// The configuration of a SOCKS5 client, as far as it is checked.
pub struct SocksConfig {
    pub username: Option<String>,
    pub password: Option<String>,
    pub handshake_timeout_ms: u64,
}

/// Why a configuration is refused. Half of the credentials is as bad as an empty
/// password: connecting without authentication in their place would be a silent
/// downgrade.
pub open spec fn config_fault(config: SocksConfig) -> Option<Fault> {
    if config.username is Some != config.password is Some {
        Some(invalid_input("SOCKS5 requires both username and password, or neither"@))
    } else if config.password matches Some(password) && password@.len() == 0 {
        Some(invalid_input("SOCKS5 password must not be empty"@))
    } else if config.handshake_timeout_ms == 0 {
        Some(invalid_input("SOCKS5 handshake_timeout_ms must be greater than zero"@))
    } else {
        None
    }
}

impl SocksConfig {
    /// Check the configuration.
    pub fn validate(&self) -> (result: Result<(), WireError>)
        ensures
            match config_fault(*self) {
                None => result is Ok,
                Some(fault) => result matches Err(error) && error@ == fault,
            },
    {
        if self.username.is_some() != self.password.is_some() {
            return Err(
                WireError::new(
                    ErrorKind::InvalidInput,
                    "SOCKS5 requires both username and password, or neither",
                ),
            );
        }
        if let Some(password) = &self.password {
            if password.as_str().unicode_len() == 0 {
                return Err(
                    WireError::new(ErrorKind::InvalidInput, "SOCKS5 password must not be empty"),
                );
            }
        }
        if self.handshake_timeout_ms == 0 {
            return Err(
                WireError::new(
                    ErrorKind::InvalidInput,
                    "SOCKS5 handshake_timeout_ms must be greater than zero",
                ),
            );
        }
        Ok(())
    }

    /// The username and the password, where both are there.
    pub fn credentials(&self) -> (credentials: Option<(&str, &str)>)
        ensures
            match (self.username, self.password) {
                (Some(username), Some(password)) => credentials matches Some((name, secret))
                    && name@ == username@ && secret@ == password@,
                _ => credentials is None,
            },
    {
        match (&self.username, &self.password) {
            (Some(username), Some(password)) => Some((username.as_str(), password.as_str())),
            _ => None,
        }
    }
}

/// What is awaited.
#[derive(Clone, Copy, Debug, PartialEq, Eq, Structural)]
pub enum Phase {
    /// The server's choice of a method.
    Method,
    /// The answer to the credentials.
    Auth,
    /// The reply to the request.
    Reply,
    /// Nothing more.
    Done,
}

/// What a step asks for.
#[derive(Debug)]
pub enum Action {
    /// Send these bytes, and step again with nothing read.
    Send(Vec<u8>),
    /// Read up to this many bytes.
    Read(usize),
    /// The handshake is over; this is the address that the server has bound.
    Done(Destination),
}

/// The view of an action.
pub enum ActionShape {
    Send(Seq<u8>),
    Read(int),
    Done(DestinationShape),
}

impl View for Action {
    type V = ActionShape;

    open spec fn view(&self) -> ActionShape {
        match self {
            Action::Send(bytes) => ActionShape::Send(bytes@),
            Action::Read(count) => ActionShape::Read(*count as int),
            Action::Done(bound) => ActionShape::Done(bound@),
        }
    }
}

/// The client's side of a handshake.
pub struct SocksHandshake {
    credentials: Option<(String, String)>,
    command: u8,
    destination: Destination,
    phase: Phase,
    received: Vec<u8>,
}

/// The view of a handshake.
pub struct HandshakeShape {
    pub credentials: Option<(Seq<char>, Seq<char>)>,
    pub command: u8,
    pub destination: DestinationShape,
    pub phase: Phase,
    pub received: Seq<u8>,
}

impl View for SocksHandshake {
    type V = HandshakeShape;

    closed spec fn view(&self) -> HandshakeShape {
        HandshakeShape {
            credentials: match self.credentials {
                Some((username, password)) => Some((username@, password@)),
                None => None,
            },
            command: self.command,
            destination: self.destination@,
            phase: self.phase,
            received: self.received@,
        }
    }
}

/// A handshake that has sent its greeting.
pub open spec fn started(
    credentials: Option<(Seq<char>, Seq<char>)>,
    command: u8,
    destination: DestinationShape,
) -> HandshakeShape {
    HandshakeShape {
        credentials,
        command,
        destination,
        phase: Phase::Method,
        received: Seq::empty(),
    }
}

/// The handshake in another phase, with the first `taken` bytes taken.
pub open spec fn in_phase(shape: HandshakeShape, phase: Phase, taken: int) -> HandshakeShape {
    HandshakeShape {
        phase,
        received: shape.received.subrange(taken, shape.received.len() as int),
        ..shape
    }
}

/// The request goes out.
pub open spec fn request_step(shape: HandshakeShape) -> (
    Result<ActionShape, SocksFault>,
    HandshakeShape,
) {
    match request_bytes(shape.command, shape.destination) {
        Err(fault) => (Err(fault), shape),
        Ok(bytes) => (Ok(ActionShape::Send(bytes)), in_phase(shape, Phase::Reply, 2)),
    }
}

/// What a handshake does when it has read more bytes. Credentials go out only
/// once the server has chosen them.
pub open spec fn step(before: HandshakeShape, data: Seq<u8>) -> (
    Result<ActionShape, SocksFault>,
    HandshakeShape,
) {
    let shape = HandshakeShape { received: before.received + data, ..before };
    let received = shape.received;
    match shape.phase {
        Phase::Method => if received.len() < 2 {
            (Ok(ActionShape::Read(2 - received.len())), shape)
        } else {
            match method_verdict(
                received.subrange(0, 2),
                offered_method(shape.credentials is Some),
            ) {
                Err(fault) => (Err(fault), shape),
                Ok(_) => match shape.credentials {
                    None => request_step(shape),
                    Some((username, password)) => match auth_request(
                        encode_utf8(username),
                        encode_utf8(password),
                    ) {
                        Err(fault) => (Err(fault), shape),
                        Ok(bytes) => (
                            Ok(ActionShape::Send(bytes)),
                            in_phase(shape, Phase::Auth, 2),
                        ),
                    },
                },
            }
        },
        Phase::Auth => if received.len() < 2 {
            (Ok(ActionShape::Read(2 - received.len())), shape)
        } else {
            match auth_verdict(received.subrange(0, 2)) {
                Err(fault) => (Err(fault), shape),
                Ok(_) => request_step(shape),
            }
        },
        _ => match reply_reading(received) {
            Err(fault) => (Err(fault), shape),
            Ok(ReadingShape::Short(more)) => (Ok(ActionShape::Read(more)), shape),
            Ok(ReadingShape::Whole(bound, length)) => (
                Ok(ActionShape::Done(bound)),
                in_phase(shape, Phase::Done, length),
            ),
        },
    }
}

impl SocksHandshake {
    /// Begin a handshake: the machine, and the greeting to send.
    pub fn start(credentials: Option<(&str, &str)>, command: u8, destination: &Destination) -> (
    begun: (SocksHandshake, Vec<u8>))
        ensures
            begun.0@ == started(
                match credentials {
                    Some((username, password)) => Some((username@, password@)),
                    None => None,
                },
                command,
                destination@,
            ),
            begun.1@ == seq![VERSION, 1u8, offered_method(credentials is Some)],
    {
        let greeting = encode_greeting(credentials.is_some());
        let owned: Option<(String, String)> = match credentials {
            Some((username, password)) => Some((username.to_owned(), password.to_owned())),
            None => None,
        };
        let handshake = SocksHandshake {
            credentials: owned,
            command,
            destination: destination.copy(),
            phase: Phase::Method,
            received: Vec::new(),
        };
        assert(handshake@.received =~= Seq::<u8>::empty());
        (handshake, greeting)
    }

    /// Whether the handshake is over.
    pub fn is_done(&self) -> (done: bool)
        ensures
            done == (self@.phase == Phase::Done),
    {
        match self.phase {
            Phase::Done => true,
            _ => false,
        }
    }

    fn take(&mut self, phase: Phase, taken: usize)
        requires
            taken <= old(self)@.received.len(),
        ensures
            final(self)@ == in_phase(old(self)@, phase, taken as int),
    {
        let rest = copy_range(self.received.as_slice(), taken, self.received.len());
        self.received = rest;
        self.phase = phase;
    }

    fn request(&mut self) -> (result: Result<Action, SocksError>)
        requires
            old(self)@.received.len() >= 2,
        ensures
            final(self)@ == request_step(old(self)@).1,
            match request_step(old(self)@).0 {
                Ok(action) => result matches Ok(actual) && actual@ == action,
                Err(fault) => result matches Err(error) && error@ == fault,
            },
    {
        match encode_request(self.command, &self.destination) {
            Err(error) => Err(error),
            Ok(bytes) => {
                self.take(Phase::Reply, 2);
                Ok(Action::Send(bytes))
            },
        }
    }

    /// Take what was read, if anything, and say what to do next.
    pub fn step(&mut self, data: &[u8]) -> (result: Result<Action, SocksError>)
        requires
            old(self)@.phase != Phase::Done,
        ensures
            final(self)@ == step(old(self)@, data@).1,
            match step(old(self)@, data@).0 {
                Ok(action) => result matches Ok(actual) && actual@ == action,
                Err(fault) => result matches Err(error) && error@ == fault,
            },
    {
        push_bytes(&mut self.received, data);
        let length = self.received.len();
        match self.phase {
            Phase::Method => {
                if length < 2 {
                    return Ok(Action::Read(2 - length));
                }
                let selection: [u8; 2] = copy_array::<2>(
                    slice_subrange(self.received.as_slice(), 0, 2),
                );
                let offered = if self.credentials.is_some() {
                    METHOD_USERNAME_PASSWORD
                } else {
                    METHOD_NO_AUTH
                };
                if let Err(error) = read_method_selection(selection, offered) {
                    return Err(error);
                }
                let encoded = match &self.credentials {
                    None => None,
                    Some((username, password)) => Some(
                        encode_auth(username.as_str(), password.as_str()),
                    ),
                };
                match encoded {
                    None => self.request(),
                    Some(Err(error)) => Err(error),
                    Some(Ok(bytes)) => {
                        self.take(Phase::Auth, 2);
                        Ok(Action::Send(bytes))
                    },
                }
            },
            Phase::Auth => {
                if length < 2 {
                    return Ok(Action::Read(2 - length));
                }
                let status: [u8; 2] = copy_array::<2>(
                    slice_subrange(self.received.as_slice(), 0, 2),
                );
                if let Err(error) = read_auth_status(status) {
                    return Err(error);
                }
                self.request()
            },
            _ => match read_reply(self.received.as_slice()) {
                Err(error) => Err(error),
                Ok(Reading::Short(more)) => Ok(Action::Read(more)),
                Ok(Reading::Whole(bound, taken)) => {
                    proof {
                        crate::socks::codec::a_reply_reads_alike_however_it_is_cut(
                            self.received@,
                            Seq::empty(),
                        );
                    }
                    self.take(Phase::Done, taken);
                    Ok(Action::Done(bound))
                },
            },
        }
    }
}

/// The credentials go out only where the server has chosen them, and then before
/// the request.
pub proof fn credentials_go_out_only_when_chosen(
    before: HandshakeShape,
    data: Seq<u8>,
)
    requires
        before.phase == Phase::Method,
        before.credentials is Some,
    ensures
        step(before, data) matches (Ok(ActionShape::Send(bytes)), after) ==> {
            &&& (before.received + data).subrange(0, 2) =~= seq![VERSION, METHOD_USERNAME_PASSWORD]
            &&& auth_request(
                encode_utf8(before.credentials->Some_0.0),
                encode_utf8(before.credentials->Some_0.1),
            ) == Ok::<Seq<u8>, SocksFault>(bytes)
            &&& after.phase == Phase::Auth
        },
{
}

/// A server that chooses what was offered, takes the credentials and grants the
/// request brings the handshake to its end, with the address that it has bound.
pub proof fn an_obliging_server_completes_the_handshake(
    credentials: Option<(Seq<char>, Seq<char>)>,
    command: u8,
    destination: DestinationShape,
    bound: DestinationShape,
)
    requires
        bound.host.valid(),
        address_bytes(destination) is Ok,
        address_bytes(bound) is Ok,
        credentials matches Some((username, password)) ==> auth_request(
            encode_utf8(username),
            encode_utf8(password),
        ) is Ok,
    ensures
        ({
            let start = started(credentials, command, destination);
            let chosen = step(start, seq![VERSION, offered_method(credentials is Some)]);
            let asked = if credentials is Some {
                step(chosen.1, seq![AUTH_VERSION, 0u8])
            } else {
                chosen
            };
            let answer = seq![VERSION, 0u8, 0u8] + address_bytes(bound)->Ok_0;
            let end = step(asked.1, answer);
            &&& credentials matches Some((username, password)) ==> chosen.0 == Ok::<
                ActionShape,
                SocksFault,
            >(
                ActionShape::Send(
                    auth_request(encode_utf8(username), encode_utf8(password))->Ok_0,
                ),
            )
            &&& asked.0 == Ok::<ActionShape, SocksFault>(
                ActionShape::Send(request_bytes(command, destination)->Ok_0),
            )
            &&& end.0 == Ok::<ActionShape, SocksFault>(ActionShape::Done(read_destination(bound)))
            &&& end.1.phase == Phase::Done
            &&& end.1.received.len() == 0
        }),
{
    let start = started(credentials, command, destination);
    let choice = seq![VERSION, offered_method(credentials is Some)];
    let chosen = step(start, choice);
    assert((start.received + choice).subrange(0, 2) =~= choice);
    assert((start.received + choice).subrange(2, 2) =~= Seq::<u8>::empty());
    let status = seq![AUTH_VERSION, 0u8];
    let asked = if credentials is Some {
        step(chosen.1, status)
    } else {
        chosen
    };
    assert((Seq::<u8>::empty() + status).subrange(0, 2) =~= status);
    assert((Seq::<u8>::empty() + status).subrange(2, 2) =~= Seq::<u8>::empty());
    assert(asked.1.received =~= Seq::<u8>::empty());
    assert(asked.1.phase == Phase::Reply);
    let address = address_bytes(bound)->Ok_0;
    let answer = seq![VERSION, 0u8, 0u8] + address;
    a_written_address_reads_back(bound, Seq::empty());
    assert(asked.1.received + answer =~= answer);
    assert(answer.subrange(3, answer.len() as int) =~= address + Seq::<u8>::empty());
    assert(reply_reading(answer) == Ok::<ReadingShape, SocksFault>(
        ReadingShape::Whole(read_destination(bound), answer.len() as int),
    ));
}

} // verus!
