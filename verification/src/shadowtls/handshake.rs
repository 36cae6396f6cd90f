//! The first stage: the outer TLS handshake, with the hello signed on its way out
//! and the server's proof taken off its way in.
use crate::error::{invalid_data, ErrorKind, Fault, WireError};
use crate::octets::{
    copy_array, copy_range, get_u16, get_u24, push_bytes, push_u16, read16, read24, split_front,
    to_vec, be16,
};
use crate::shadowtls::wire::{
    chain_of, hello_fault, invalid, masked, sign_client_hello, signed_hello, xor_proof, ChainShape,
    HmacChain, MAX_TLS_RECORD, TLS_APPLICATION_DATA, TLS_HANDSHAKE,
};
use vstd::prelude::*;
use vstd::slice::slice_subrange;
use vstd::string::*;
use vstd::utf8::encode_utf8;

verus! {

/// How many bytes of handshake messages are collected in search of the ServerHello.
pub const MAX_HANDSHAKE_BUFFER: usize = 64 * 1024;

/// How many bytes of the client are held back until its hello is whole.
pub const MAX_PENDING_WRITE: usize = MAX_TLS_RECORD * 2;

/// How much of the answer to a muddled request is read.
pub const MUDDLED_RESPONSE_LIMIT: usize = 16 * 1024;

/// How much of it is read at once.
pub const MUDDLED_READ: usize = 2048;

/// The machine of the first stage. It is handed what the socket gives and what TLS
/// writes, and it says what TLS reads and what goes to the socket.
pub struct HandshakeMachine {
    password: Vec<u8>,
    read_wire: Vec<u8>,
    read_ready: Vec<u8>,
    write_input: Vec<u8>,
    write_pending: Vec<u8>,
    client_hello_signed: bool,
    handshake_messages: Vec<u8>,
    server_random: Option<[u8; 32]>,
    proof_chain: Option<HmacChain>,
    authenticated: bool,
    hijacked: bool,
}

/// The view of what comes in: the password, bytes of a record that is not whole,
/// records for TLS, messages in which the ServerHello is sought, and what has been
/// found out about the server.
pub struct IncomingShape {
    pub password: Seq<u8>,
    pub wire: Seq<u8>,
    pub ready: Seq<u8>,
    pub messages: Seq<u8>,
    pub random: Option<Seq<u8>>,
    pub proof_chain: Option<ChainShape>,
    pub authenticated: bool,
    pub hijacked: bool,
}

/// The view of what goes out: the password, bytes of a hello that is not whole,
/// bytes for the socket, and whether the hello has been signed.
pub struct OutgoingShape {
    pub password: Seq<u8>,
    pub input: Seq<u8>,
    pub pending: Seq<u8>,
    pub signed: bool,
}

impl HandshakeMachine {
    /// What comes in.
    pub closed spec fn incoming(self) -> IncomingShape {
        IncomingShape {
            password: self.password@,
            wire: self.read_wire@,
            ready: self.read_ready@,
            messages: self.handshake_messages@,
            random: match self.server_random {
                Some(random) => Some(random@),
                None => None,
            },
            proof_chain: match self.proof_chain {
                Some(chain) => Some(chain@),
                None => None,
            },
            authenticated: self.authenticated,
            hijacked: self.hijacked,
        }
    }

    /// What goes out.
    pub closed spec fn outgoing_shape(self) -> OutgoingShape {
        OutgoingShape {
            password: self.password@,
            input: self.write_input@,
            pending: self.write_pending@,
            signed: self.client_hello_signed,
        }
    }
}

/// The messages behind the first `taken` bytes.
pub open spec fn past_message(shape: IncomingShape, taken: int) -> IncomingShape {
    IncomingShape {
        messages: shape.messages.subrange(taken, shape.messages.len() as int),
        ..shape
    }
}

/// The ServerHello is sought among the messages: what is in front of it is dropped,
/// and its random value keys the proof.
pub open spec fn sought(shape: IncomingShape) -> (Result<(), Fault>, IncomingShape)
    decreases shape.messages.len(),
{
    let messages = shape.messages;
    let length = read24(messages, 1);
    if messages.len() < 4 {
        (Ok(()), shape)
    } else if 4 + length > MAX_HANDSHAKE_BUFFER {
        (Err(invalid_data("ShadowTLS handshake message is too large"@)), shape)
    } else if messages.len() < 4 + length {
        (Ok(()), shape)
    } else if messages[0] != 2 {
        sought(past_message(shape, 4 + length))
    } else if length < 34 {
        (
            Err(invalid_data("ShadowTLS ServerHello is too short"@)),
            past_message(shape, 4 + length),
        )
    } else {
        let random = messages.subrange(6, 38);
        (
            Ok(()),
            IncomingShape {
                messages: Seq::empty(),
                random: Some(random),
                proof_chain: Some(chain_of(shape.password, random)),
                ..shape
            },
        )
    }
}

/// The payload of a handshake record is added to the messages.
pub open spec fn collected(shape: IncomingShape, payload: Seq<u8>) -> (
    Result<(), Fault>,
    IncomingShape,
) {
    if shape.messages.len() + payload.len() > MAX_HANDSHAKE_BUFFER {
        (Err(invalid_data("ShadowTLS TLS handshake transcript is too large"@)), shape)
    } else {
        sought(IncomingShape { messages: shape.messages + payload, ..shape })
    }
}

/// A record whose proof does not hold: a fault once the server has been
/// authenticated, and before that the mark of a server that is not ours.
pub open spec fn rejected(shape: IncomingShape, record: Seq<u8>) -> (
    Result<(), Fault>,
    IncomingShape,
) {
    if shape.authenticated {
        (
            Err(invalid_data("ShadowTLS server proof chain failed after authentication"@)),
            shape,
        )
    } else {
        (Ok(()), IncomingShape { hijacked: true, ready: shape.ready + record, ..shape })
    }
}

/// A record under proof: where its tag is the next of the chain, its data is
/// unmasked and handed on as a record of its own. The chain goes on even where the
/// data is too much for one.
pub open spec fn proven(shape: IncomingShape, record: Seq<u8>) -> (
    Result<(), Fault>,
    IncomingShape,
) {
    let tag = record.subrange(5, 9);
    let data = record.subrange(9, record.len() as int);
    match shape.proof_chain {
        Some(chain) => if record.len() >= 9 && chain.takes(tag, data) {
            let next = IncomingShape { proof_chain: Some(chain.behind(data)), ..shape };
            match shape.random {
                None => (
                    Err(invalid_data("ShadowTLS proof exists without ServerRandom"@)),
                    next,
                ),
                Some(random) => if data.len() > 65535 {
                    (Err(invalid_data("ShadowTLS restored TLS record is too large"@)), next)
                } else {
                    (
                        Ok(()),
                        IncomingShape {
                            ready: shape.ready + record.subrange(0, 3) + be16(data.len() as u16)
                                + masked(data, shape.password, random),
                            authenticated: true,
                            ..next
                        },
                    )
                },
            }
        } else {
            rejected(shape, record)
        },
        None => rejected(shape, record),
    }
}

/// What a whole record does.
pub open spec fn taken_record(shape: IncomingShape, record: Seq<u8>) -> (
    Result<(), Fault>,
    IncomingShape,
) {
    let sought = if record[0] == TLS_HANDSHAKE && shape.random is None {
        collected(shape, record.subrange(5, record.len() as int))
    } else {
        (Ok(()), shape)
    };
    match sought {
        (Err(fault), next) => (Err(fault), next),
        (Ok(_), next) => if record[0] == TLS_APPLICATION_DATA && next.random is Some
            && !next.hijacked {
            proven(next, record)
        } else {
            (Ok(()), IncomingShape { ready: next.ready + record, ..next })
        },
    }
}

/// The shape with the first `taken` bytes of the wire gone.
pub open spec fn past_wire(shape: IncomingShape, taken: int) -> IncomingShape {
    IncomingShape { wire: shape.wire.subrange(taken, shape.wire.len() as int), ..shape }
}

/// What the records on the wire do, one after another.
pub open spec fn walked(shape: IncomingShape) -> (Result<(), Fault>, IncomingShape)
    decreases shape.wire.len(),
    when true
    via walked_decreases
{
    let wire = shape.wire;
    let length = read16(wire, 3);
    if wire.len() < 5 {
        (Ok(()), shape)
    } else if length > MAX_TLS_RECORD {
        (Err(invalid_data("ShadowTLS handshake TLS record is too large"@)), shape)
    } else if wire.len() < 5 + length {
        (Ok(()), shape)
    } else {
        match taken_record(past_wire(shape, 5 + length), wire.subrange(0, 5 + length)) {
            (Err(fault), next) => (Err(fault), next),
            (Ok(_), next) => walked(next),
        }
    }
}

#[via_fn]
proof fn walked_decreases(shape: IncomingShape) {
    let wire = shape.wire;
    let length = read16(wire, 3);
    if wire.len() >= 5 && wire.len() >= 5 + length {
        lemma_record_keeps(past_wire(shape, 5 + length), wire.subrange(0, 5 + length));
    }
}

/// What seeking the ServerHello leaves alone.
pub(crate) proof fn lemma_sought_keeps(shape: IncomingShape)
    ensures
        ({
            let next = sought(shape).1;
            &&& next.wire == shape.wire
            &&& next.password == shape.password
            &&& next.ready == shape.ready
            &&& next.authenticated == shape.authenticated
            &&& next.hijacked == shape.hijacked
            &&& next.messages.len() <= shape.messages.len()
            &&& (shape.random is Some <==> shape.proof_chain is Some) ==> (next.random is Some
                <==> next.proof_chain is Some)
            &&& next.random == shape.random || (next.random is Some && next.random->Some_0.len()
                == 32)
        }),
    decreases shape.messages.len(),
{
    let messages = shape.messages;
    let length = read24(messages, 1);
    if messages.len() >= 4 && 4 + length <= messages.len() && 4 + length <= MAX_HANDSHAKE_BUFFER
        && messages[0] != 2 {
        lemma_sought_keeps(past_message(shape, 4 + length));
    }
}

/// What a record leaves alone.
proof fn lemma_record_keeps(shape: IncomingShape, record: Seq<u8>)
    ensures
        taken_record(shape, record).1.wire == shape.wire,
        taken_record(shape, record).1.password == shape.password,
{
    if record[0] == TLS_HANDSHAKE && shape.random is None {
        let payload = record.subrange(5, record.len() as int);
        lemma_sought_keeps(IncomingShape { messages: shape.messages + payload, ..shape });
    }
}

/// What a password's machine is before anything has happened.
pub open spec fn fresh_incoming(password: Seq<u8>) -> IncomingShape {
    IncomingShape {
        password,
        wire: Seq::empty(),
        ready: Seq::empty(),
        messages: Seq::empty(),
        random: None,
        proof_chain: None,
        authenticated: false,
        hijacked: false,
    }
}

/// The incoming side with a segment behind what is on the wire.
pub open spec fn with_segment(shape: IncomingShape, segment: Seq<u8>) -> IncomingShape {
    IncomingShape { wire: shape.wire + segment, ..shape }
}

impl HandshakeMachine {
    /// A machine for a password.
    pub fn new(password: &str) -> (machine: HandshakeMachine)
        ensures
            machine.incoming() == fresh_incoming(encode_utf8(password@)),
            machine.outgoing_shape() == (OutgoingShape {
                password: encode_utf8(password@),
                input: Seq::empty(),
                pending: Seq::empty(),
                signed: false,
            }),
    {
        let machine = HandshakeMachine {
            password: to_vec(password.as_bytes()),
            read_wire: Vec::new(),
            read_ready: Vec::new(),
            write_input: Vec::new(),
            write_pending: Vec::new(),
            client_hello_signed: false,
            handshake_messages: Vec::new(),
            server_random: None,
            proof_chain: None,
            authenticated: false,
            hijacked: false,
        };
        assert(machine.incoming().wire =~= Seq::<u8>::empty());
        assert(machine.incoming().ready =~= Seq::<u8>::empty());
        assert(machine.incoming().messages =~= Seq::<u8>::empty());
        assert(machine.outgoing_shape().input =~= Seq::<u8>::empty());
        assert(machine.outgoing_shape().pending =~= Seq::<u8>::empty());
        machine
    }

    /// Whether the server has proved that it knows the password.
    pub fn authenticated(&self) -> (authenticated: bool)
        ensures
            authenticated == (self.incoming().authenticated && !self.incoming().hijacked),
    {
        self.authenticated && !self.hijacked
    }

    /// Whether the server has been found to be another.
    pub fn hijacked(&self) -> (hijacked: bool)
        ensures
            hijacked == self.incoming().hijacked,
    {
        self.hijacked
    }

    /// The random value of the ServerHello, once it has come.
    pub fn server_random(&self) -> (random: Option<[u8; 32]>)
        ensures
            match self.incoming().random {
                Some(expected) => random matches Some(actual) && actual@ == expected,
                None => random is None,
            },
    {
        self.server_random
    }

    /// How many bytes of a record that is not whole are held.
    pub fn buffered_wire(&self) -> (count: usize)
        ensures
            count == self.incoming().wire.len(),
    {
        self.read_wire.len()
    }

    /// How many bytes of a handshake message that is not whole are held.
    pub fn buffered_transcript(&self) -> (count: usize)
        ensures
            count == self.incoming().messages.len(),
    {
        self.handshake_messages.len()
    }

    fn seek_server_hello(&mut self) -> (result: Result<(), WireError>)
        ensures
            final(self).incoming() == sought(old(self).incoming()).1,
            final(self).outgoing_shape() == old(self).outgoing_shape(),
            match sought(old(self).incoming()).0 {
                Ok(_) => result is Ok,
                Err(fault) => result matches Err(error) && error@ == fault,
            },
    {
        loop
            invariant
                sought(self.incoming()) == sought(old(self).incoming()),
                self.outgoing_shape() == old(self).outgoing_shape(),
            decreases self.handshake_messages.len(),
        {
            if self.handshake_messages.len() < 4 {
                return Ok(());
            }
            let length = get_u24(self.handshake_messages.as_slice(), 1);
            if 4 + length > MAX_HANDSHAKE_BUFFER {
                return Err(invalid("ShadowTLS handshake message is too large"));
            }
            if self.handshake_messages.len() < 4 + length {
                return Ok(());
            }
            let ghost before = self.handshake_messages@;
            let message = split_front(&mut self.handshake_messages, 4 + length);
            if message[0] == 2 {
                if length < 34 {
                    return Err(invalid("ShadowTLS ServerHello is too short"));
                }
                let random: [u8; 32] = copy_array::<32>(
                    slice_subrange(message.as_slice(), 6, 38),
                );
                self.proof_chain = Some(HmacChain::new(self.password.as_slice(), random.as_slice()));
                self.server_random = Some(random);
                self.handshake_messages = Vec::new();
                proof {
                    assert(random@ =~= before.subrange(6, 38));
                    assert(self.handshake_messages@ =~= Seq::<u8>::empty());
                }
                return Ok(());
            }
        }
    }

    /// Add the payload of a handshake record to the messages in which the
    /// ServerHello is sought.
    pub fn collect_server_hello(&mut self, payload: &[u8]) -> (result: Result<(), WireError>)
        ensures
            final(self).incoming() == collected(old(self).incoming(), payload@).1,
            final(self).outgoing_shape() == old(self).outgoing_shape(),
            match collected(old(self).incoming(), payload@).0 {
                Ok(_) => result is Ok,
                Err(fault) => result matches Err(error) && error@ == fault,
            },
    {
        if payload.len() > MAX_HANDSHAKE_BUFFER || self.handshake_messages.len()
            > MAX_HANDSHAKE_BUFFER - payload.len() {
            return Err(invalid("ShadowTLS TLS handshake transcript is too large"));
        }
        push_bytes(&mut self.handshake_messages, payload);
        self.seek_server_hello()
    }

    fn reject_or_mark_hijacked(&mut self, record: &[u8]) -> (result: Result<(), WireError>)
        ensures
            final(self).incoming() == rejected(old(self).incoming(), record@).1,
            final(self).outgoing_shape() == old(self).outgoing_shape(),
            match rejected(old(self).incoming(), record@).0 {
                Ok(_) => result is Ok,
                Err(fault) => result matches Err(error) && error@ == fault,
            },
    {
        if self.authenticated {
            return Err(invalid("ShadowTLS server proof chain failed after authentication"));
        }
        self.hijacked = true;
        push_bytes(&mut self.read_ready, record);
        Ok(())
    }

    /// Take a record under proof.
    pub fn process_proof_record(&mut self, record: &[u8]) -> (result: Result<(), WireError>)
        requires
            record@.len() >= 5,
        ensures
            final(self).incoming() == proven(old(self).incoming(), record@).1,
            final(self).outgoing_shape() == old(self).outgoing_shape(),
            match proven(old(self).incoming(), record@).0 {
                Ok(_) => result is Ok,
                Err(fault) => result matches Err(error) && error@ == fault,
            },
    {
        if record.len() < 9 {
            return self.reject_or_mark_hijacked(record);
        }
        let mut chain = match &self.proof_chain {
            Some(chain) => chain.copy(),
            None => {
                return self.reject_or_mark_hijacked(record);
            },
        };
        let tag = slice_subrange(record, 5, 9);
        let data = slice_subrange(record, 9, record.len());
        if !chain.verify_and_advance(tag, data) {
            return self.reject_or_mark_hijacked(record);
        }
        self.proof_chain = Some(chain);
        let random = match self.server_random {
            Some(random) => random,
            None => {
                return Err(invalid("ShadowTLS proof exists without ServerRandom"));
            },
        };
        if data.len() > 65535 {
            return Err(invalid("ShadowTLS restored TLS record is too large"));
        }
        let restored = xor_proof(data, self.password.as_slice(), &random);
        push_bytes(&mut self.read_ready, slice_subrange(record, 0, 3));
        push_u16(&mut self.read_ready, data.len() as u16);
        push_bytes(&mut self.read_ready, restored.as_slice());
        self.authenticated = true;
        Ok(())
    }

    fn take_record(&mut self, record: &[u8]) -> (result: Result<(), WireError>)
        requires
            record@.len() >= 5,
        ensures
            final(self).incoming() == taken_record(old(self).incoming(), record@).1,
            final(self).outgoing_shape() == old(self).outgoing_shape(),
            match taken_record(old(self).incoming(), record@).0 {
                Ok(_) => result is Ok,
                Err(fault) => result matches Err(error) && error@ == fault,
            },
    {
        if record[0] == TLS_HANDSHAKE && self.server_random.is_none() {
            if let Err(error) = self.collect_server_hello(
                slice_subrange(record, 5, record.len()),
            ) {
                return Err(error);
            }
        }
        if record[0] == TLS_APPLICATION_DATA && self.server_random.is_some() && !self.hijacked {
            self.process_proof_record(record)
        } else {
            push_bytes(&mut self.read_ready, record);
            Ok(())
        }
    }

    fn process_read_records(&mut self) -> (result: Result<(), WireError>)
        ensures
            final(self).incoming() == walked(old(self).incoming()).1,
            final(self).outgoing_shape() == old(self).outgoing_shape(),
            match walked(old(self).incoming()).0 {
                Ok(_) => result is Ok,
                Err(fault) => result matches Err(error) && error@ == fault,
            },
    {
        loop
            invariant
                walked(self.incoming()) == walked(old(self).incoming()),
                self.outgoing_shape() == old(self).outgoing_shape(),
            decreases self.read_wire.len(),
        {
            if self.read_wire.len() < 5 {
                return Ok(());
            }
            let length = get_u16(self.read_wire.as_slice(), 3) as usize;
            if length > MAX_TLS_RECORD {
                return Err(invalid("ShadowTLS handshake TLS record is too large"));
            }
            if self.read_wire.len() < 5 + length {
                return Ok(());
            }
            let ghost before = self.incoming();
            let record = split_front(&mut self.read_wire, 5 + length);
            proof {
                assert(self.incoming() == past_wire(before, 5 + length));
                lemma_record_keeps(past_wire(before, 5 + length), record@);
            }
            if let Err(error) = self.take_record(record.as_slice()) {
                return Err(error);
            }
        }
    }

    /// Take what the socket gave. After an error nothing more may be fed.
    pub fn feed(&mut self, segment: &[u8]) -> (result: Result<(), WireError>)
        ensures
            final(self).incoming() == walked(with_segment(old(self).incoming(), segment@)).1,
            final(self).outgoing_shape() == old(self).outgoing_shape(),
            match walked(with_segment(old(self).incoming(), segment@)).0 {
                Ok(_) => result is Ok,
                Err(fault) => result matches Err(error) && error@ == fault,
            },
    {
        push_bytes(&mut self.read_wire, segment);
        self.process_read_records()
    }

    /// The socket has ended. It may do so only between two records.
    pub fn end_of_input(&self) -> (result: Result<(), WireError>)
        ensures
            if self.incoming().wire.len() == 0 {
                result is Ok
            } else {
                result matches Err(error) && error@ == (
                    ErrorKind::UnexpectedEof,
                    "ShadowTLS handshake ended inside a TLS record"@,
                )
            },
    {
        if self.read_wire.len() == 0 {
            Ok(())
        } else {
            Err(
                WireError::new(
                    ErrorKind::UnexpectedEof,
                    "ShadowTLS handshake ended inside a TLS record",
                ),
            )
        }
    }

    /// Everything that is ready for TLS.
    pub fn take_ready(&mut self) -> (ready: Vec<u8>)
        ensures
            ready@ == old(self).incoming().ready,
            final(self).incoming() == (IncomingShape {
                ready: Seq::empty(),
                ..old(self).incoming()
            }),
            final(self).outgoing_shape() == old(self).outgoing_shape(),
    {
        let count = self.read_ready.len();
        let ready = split_front(&mut self.read_ready, count);
        assert(self.read_ready@ =~= Seq::<u8>::empty());
        assert(ready@ =~= old(self).incoming().ready);
        ready
    }

    /// Up to `room` bytes of what is ready for TLS.
    pub fn read_ready(&mut self, room: usize) -> (data: Vec<u8>)
        ensures
            ({
                let ready = old(self).incoming().ready;
                let count = if room < ready.len() {
                    room as int
                } else {
                    ready.len() as int
                };
                &&& data@ == ready.subrange(0, count)
                &&& final(self).incoming() == (IncomingShape {
                    ready: ready.subrange(count, ready.len() as int),
                    ..old(self).incoming()
                })
            }),
            final(self).outgoing_shape() == old(self).outgoing_shape(),
    {
        let count: usize = if room < self.read_ready.len() {
            room
        } else {
            self.read_ready.len()
        };
        split_front(&mut self.read_ready, count)
    }
}

/// The hello is signed once it is whole, and what stands behind it goes with it.
/// Where it cannot be signed its record is gone.
pub open spec fn hello_processed(shape: OutgoingShape) -> (Result<(), Fault>, OutgoingShape) {
    let input = shape.input;
    let length = read16(input, 3);
    if shape.signed || input.len() < 5 {
        (Ok(()), shape)
    } else if length > MAX_TLS_RECORD {
        (Err(invalid_data("ShadowTLS ClientHello TLS record is too large"@)), shape)
    } else if input.len() < 5 + length {
        (Ok(()), shape)
    } else {
        let record = input.subrange(0, 5 + length);
        let rest = input.subrange(5 + length, input.len() as int);
        match hello_fault(record) {
            Some(fault) => (Err(fault), OutgoingShape { input: rest, ..shape }),
            None => (
                Ok(()),
                OutgoingShape {
                    input: Seq::empty(),
                    pending: shape.pending + signed_hello(record, shape.password) + rest,
                    signed: true,
                    ..shape
                },
            ),
        }
    }
}

/// What a write comes to.
#[derive(Clone, Copy, Debug, PartialEq, Eq, Structural)]
pub enum WriteStep {
    /// This many bytes have been taken.
    Taken(usize),
    /// The bytes go to the socket as they are.
    Direct,
}

/// What a write does.
pub open spec fn written(shape: OutgoingShape, input: Seq<u8>) -> (
    Result<WriteStep, Fault>,
    OutgoingShape,
) {
    let capacity = MAX_PENDING_WRITE - shape.input.len();
    let taken = if input.len() < capacity {
        input.len() as int
    } else {
        capacity
    };
    if shape.signed {
        (Ok(WriteStep::Direct), shape)
    } else if input.len() == 0 {
        (Ok(WriteStep::Taken(0)), shape)
    } else if capacity <= 0 {
        (Err(invalid_data("ShadowTLS ClientHello buffering limit exceeded"@)), shape)
    } else {
        match hello_processed(
            OutgoingShape { input: shape.input + input.subrange(0, taken), ..shape },
        ) {
            (Err(fault), next) => (Err(fault), next),
            (Ok(_), next) => (Ok(WriteStep::Taken(taken as usize)), next),
        }
    }
}

/// What a flush does. A hello that is not whole cannot be flushed.
pub open spec fn flushed(shape: OutgoingShape) -> (Result<(), Fault>, OutgoingShape) {
    if shape.signed || shape.input.len() == 0 {
        (Ok(()), shape)
    } else {
        match hello_processed(shape) {
            (Err(fault), next) => (Err(fault), next),
            (Ok(_), next) => if next.signed {
                (Ok(()), next)
            } else {
                (
                    Err(
                        (
                            ErrorKind::UnexpectedEof,
                            "ShadowTLS ClientHello was flushed before a complete TLS record"@,
                        ),
                    ),
                    next,
                )
            },
        }
    }
}

impl HandshakeMachine {
    fn process_client_hello(&mut self) -> (result: Result<(), WireError>)
        ensures
            final(self).outgoing_shape() == hello_processed(old(self).outgoing_shape()).1,
            final(self).incoming() == old(self).incoming(),
            match hello_processed(old(self).outgoing_shape()).0 {
                Ok(_) => result is Ok,
                Err(fault) => result matches Err(error) && error@ == fault,
            },
    {
        if self.client_hello_signed || self.write_input.len() < 5 {
            return Ok(());
        }
        let length = get_u16(self.write_input.as_slice(), 3) as usize;
        if length > MAX_TLS_RECORD {
            return Err(invalid("ShadowTLS ClientHello TLS record is too large"));
        }
        if self.write_input.len() < 5 + length {
            return Ok(());
        }
        let mut first = split_front(&mut self.write_input, 5 + length);
        if let Err(error) = sign_client_hello(first.as_mut_slice(), self.password.as_slice()) {
            return Err(error);
        }
        push_bytes(&mut self.write_pending, first.as_slice());
        push_bytes(&mut self.write_pending, self.write_input.as_slice());
        self.write_input = Vec::new();
        self.client_hello_signed = true;
        assert(self.write_input@ =~= Seq::<u8>::empty());
        Ok(())
    }

    /// Take what TLS writes.
    pub fn write(&mut self, input: &[u8]) -> (result: Result<WriteStep, WireError>)
        ensures
            final(self).outgoing_shape() == written(old(self).outgoing_shape(), input@).1,
            final(self).incoming() == old(self).incoming(),
            match written(old(self).outgoing_shape(), input@).0 {
                Ok(step) => result matches Ok(actual) && actual == step,
                Err(fault) => result matches Err(error) && error@ == fault,
            },
    {
        if self.client_hello_signed {
            return Ok(WriteStep::Direct);
        }
        if input.len() == 0 {
            return Ok(WriteStep::Taken(0));
        }
        if self.write_input.len() >= MAX_PENDING_WRITE {
            return Err(invalid("ShadowTLS ClientHello buffering limit exceeded"));
        }
        let capacity: usize = MAX_PENDING_WRITE - self.write_input.len();
        let taken: usize = if input.len() < capacity {
            input.len()
        } else {
            capacity
        };
        push_bytes(&mut self.write_input, slice_subrange(input, 0, taken));
        match self.process_client_hello() {
            Err(error) => Err(error),
            Ok(()) => Ok(WriteStep::Taken(taken)),
        }
    }

    /// Make everything that TLS wrote ready for the socket.
    pub fn flush(&mut self) -> (result: Result<(), WireError>)
        ensures
            final(self).outgoing_shape() == flushed(old(self).outgoing_shape()).1,
            final(self).incoming() == old(self).incoming(),
            match flushed(old(self).outgoing_shape()).0 {
                Ok(_) => result is Ok,
                Err(fault) => result matches Err(error) && error@ == fault,
            },
    {
        if self.client_hello_signed || self.write_input.len() == 0 {
            return Ok(());
        }
        if let Err(error) = self.process_client_hello() {
            return Err(error);
        }
        if !self.client_hello_signed {
            return Err(
                WireError::new(
                    ErrorKind::UnexpectedEof,
                    "ShadowTLS ClientHello was flushed before a complete TLS record",
                ),
            );
        }
        Ok(())
    }

    /// The bytes that have to go to the socket before any others.
    pub fn outgoing(&self) -> (bytes: &[u8])
        ensures
            bytes@ == self.outgoing_shape().pending,
    {
        self.write_pending.as_slice()
    }

    /// The socket has accepted `written` bytes. One that accepts none is at fault.
    pub fn sent(&mut self, written: usize) -> (result: Result<(), WireError>)
        requires
            written <= old(self).outgoing_shape().pending.len(),
        ensures
            final(self).incoming() == old(self).incoming(),
            if written == 0 {
                &&& final(self).outgoing_shape() == old(self).outgoing_shape()
                &&& result matches Err(error) && error@ == (
                    ErrorKind::WriteZero,
                    "ShadowTLS socket stopped accepting handshake bytes"@,
                )
            } else {
                &&& result is Ok
                &&& final(self).outgoing_shape() == (OutgoingShape {
                    pending: old(self).outgoing_shape().pending.subrange(
                        written as int,
                        old(self).outgoing_shape().pending.len() as int,
                    ),
                    ..old(self).outgoing_shape()
                })
            },
    {
        if written == 0 {
            return Err(
                WireError::new(
                    ErrorKind::WriteZero,
                    "ShadowTLS socket stopped accepting handshake bytes",
                ),
            );
        }
        let rest = copy_range(self.write_pending.as_slice(), written, self.write_pending.len());
        self.write_pending = rest;
        Ok(())
    }
}

/// What the second stage starts from.
pub struct SwitchState {
    pub password: Vec<u8>,
    pub server_random: [u8; 32],
    pub proof_chain: HmacChain,
    /// Bytes of the socket that the first stage has not taken.
    pub prefix: Vec<u8>,
}

/// Why the second stage cannot start.
pub open spec fn switch_fault(incoming: IncomingShape, outgoing: OutgoingShape) -> Option<Fault> {
    if !incoming.authenticated || incoming.hijacked {
        Some(
            (
                ErrorKind::PermissionDenied,
                "ShadowTLS switch attempted before server authentication"@,
            ),
        )
    } else if outgoing.input.len() > 0 || outgoing.pending.len() > 0 {
        Some((ErrorKind::WriteZero, "ShadowTLS handshake left unsent client bytes"@))
    } else if incoming.random is None {
        Some(invalid_data("ShadowTLS ServerRandom is missing"@))
    } else if incoming.proof_chain is None {
        Some(invalid_data("ShadowTLS proof state is missing"@))
    } else {
        None
    }
}

impl HandshakeMachine {
    /// Go over to the second stage. What is ready for TLS and was not read belongs
    /// to the outer handshake and is dropped.
    pub fn into_switch_state(self) -> (result: Result<SwitchState, WireError>)
        ensures
            match switch_fault(self.incoming(), self.outgoing_shape()) {
                Some(fault) => result matches Err(error) && error@ == fault,
                None => result matches Ok(state) && {
                    &&& state.password@ == self.incoming().password
                    &&& Some(state.server_random@) == self.incoming().random
                    &&& Some(state.proof_chain@) == self.incoming().proof_chain
                    &&& state.prefix@ == self.incoming().wire
                },
            },
    {
        if !self.authenticated() {
            return Err(
                WireError::new(
                    ErrorKind::PermissionDenied,
                    "ShadowTLS switch attempted before server authentication",
                ),
            );
        }
        if self.write_input.len() > 0 || self.write_pending.len() > 0 {
            return Err(
                WireError::new(
                    ErrorKind::WriteZero,
                    "ShadowTLS handshake left unsent client bytes",
                ),
            );
        }
        let server_random = match self.server_random {
            Some(random) => random,
            None => {
                return Err(invalid("ShadowTLS ServerRandom is missing"));
            },
        };
        match self.proof_chain {
            None => Err(invalid("ShadowTLS proof state is missing")),
            Some(proof_chain) => Ok(
                SwitchState {
                    password: self.password,
                    server_random,
                    proof_chain,
                    prefix: self.read_wire,
                },
            ),
        }
    }
}

} // verus!
