//! The server's half of the proof, and what holds between it and the client's.
use crate::error::{invalid_data, Fault, WireError};
use crate::octets::{be16, push_bytes, read16, read24, to_vec};
use crate::shadowtls::handshake::{
    fresh_incoming, lemma_sought_keeps, past_message, past_wire, sought, taken_record, walked,
    with_segment, MAX_HANDSHAKE_BUFFER, IncomingShape,
};
use crate::shadowtls::wire::{
    chain_of, masked, record_of, the_mask_undoes_itself, write_record, xor_proof, ChainShape,
    HmacChain, MAX_TLS_RECORD, TLS_APPLICATION_DATA, TLS_HANDSHAKE,
};
use vstd::prelude::*;
use vstd::string::*;
use vstd::utf8::encode_utf8;

verus! {

/// The most data that goes into one record under proof, beside its tag.
pub const MAX_PROOF_PLAINTEXT: usize = MAX_TLS_RECORD - 4;

/// The payload of the smallest ServerHello.
pub open spec fn hello_payload(random: Seq<u8>) -> Seq<u8> {
    seq![2u8, 0u8, 0u8, 34u8, 3u8, 3u8] + random
}

/// The smallest record with a ServerHello: its random value keys every proof that
/// follows.
pub fn server_hello_record(random: [u8; 32]) -> (record: Vec<u8>)
    ensures
        record@ == record_of(TLS_HANDSHAKE, hello_payload(random@)),
{
    let front: [u8; 11] = [22, 3, 3, 0, 38, 2, 0, 0, 34, 3, 3];
    let mut record = to_vec(front.as_slice());
    push_bytes(&mut record, random.as_slice());
    assert(record@ =~= record_of(TLS_HANDSHAKE, hello_payload(random@)));
    record
}

/// The server's half of the proof.
pub struct ProofSender {
    chain: HmacChain,
    password: Vec<u8>,
    random: [u8; 32],
}

/// The view of the server's half.
pub struct SenderShape {
    pub chain: ChainShape,
    pub password: Seq<u8>,
    pub random: Seq<u8>,
}

impl View for ProofSender {
    type V = SenderShape;

    closed spec fn view(&self) -> SenderShape {
        SenderShape { chain: self.chain@, password: self.password@, random: self.random@ }
    }
}

/// The payload of a record under proof.
pub open spec fn proof_payload(sender: SenderShape, plaintext: Seq<u8>) -> Seq<u8> {
    let data = masked(plaintext, sender.password, sender.random);
    sender.chain.tag(data) + data
}

/// A server's half that has sent nothing.
pub open spec fn fresh_sender(password: Seq<u8>, random: Seq<u8>) -> SenderShape {
    SenderShape { chain: chain_of(password, random), password, random }
}

/// The server's half behind a record.
pub open spec fn sender_behind(sender: SenderShape, plaintext: Seq<u8>) -> SenderShape {
    SenderShape {
        chain: sender.chain.behind(masked(plaintext, sender.password, sender.random)),
        ..sender
    }
}

impl ProofSender {
    /// A server that knows the password and has sent this random value.
    pub fn new(password: &str, random: [u8; 32]) -> (sender: ProofSender)
        ensures
            sender@ == fresh_sender(encode_utf8(password@), random@),
    {
        ProofSender {
            chain: HmacChain::new(password.as_bytes(), random.as_slice()),
            password: to_vec(password.as_bytes()),
            random,
        }
    }

    /// A record that carries `plaintext` under proof. Records have to arrive in the
    /// order in which they are made.
    pub fn record(&mut self, plaintext: &[u8]) -> (result: Result<Vec<u8>, WireError>)
        ensures
            final(self)@ == sender_behind(old(self)@, plaintext@),
            if plaintext@.len() > 65531 {
                result matches Err(error) && error@ == invalid_data(
                    "ShadowTLS TLS record exceeds 65535 bytes"@,
                )
            } else {
                result matches Ok(record) && record@ == record_of(
                    TLS_APPLICATION_DATA,
                    proof_payload(old(self)@, plaintext@),
                )
            },
    {
        let processed = xor_proof(plaintext, self.password.as_slice(), &self.random);
        let tag = self.chain.tag_and_advance(processed.as_slice());
        let mut payload = to_vec(tag.as_slice());
        push_bytes(&mut payload, processed.as_slice());
        assert(payload@ =~= proof_payload(old(self)@, plaintext@));
        write_record(TLS_APPLICATION_DATA, payload.as_slice())
    }
}

proof fn lemma_sought_elsewhere(shape: IncomingShape, wire: Seq<u8>)
    ensures
        sought(IncomingShape { wire, ..shape }) == (
            sought(shape).0,
            IncomingShape { wire, ..sought(shape).1 },
        ),
    decreases shape.messages.len(),
{
    let messages = shape.messages;
    let length = read24(messages, 1);
    if messages.len() >= 4 && 4 + length <= messages.len() && 4 + length <= MAX_HANDSHAKE_BUFFER
        && messages[0] != 2 {
        let next = past_message(shape, 4 + length);
        lemma_sought_elsewhere(next, wire);
        assert(past_message(IncomingShape { wire, ..shape }, 4 + length) == (IncomingShape {
            wire,
            ..next
        }));
    }
}

/// What a record does depends on nothing that stands behind it on the wire.
proof fn lemma_record_elsewhere(shape: IncomingShape, record: Seq<u8>, wire: Seq<u8>)
    ensures
        taken_record(IncomingShape { wire, ..shape }, record) == (
            taken_record(shape, record).0,
            IncomingShape { wire, ..taken_record(shape, record).1 },
        ),
{
    if record[0] == TLS_HANDSHAKE && shape.random is None {
        let payload = record.subrange(5, record.len() as int);
        lemma_sought_elsewhere(
            IncomingShape { messages: shape.messages + payload, ..shape },
            wire,
        );
    }
}

proof fn lemma_record_kept(shape: IncomingShape, record: Seq<u8>)
    ensures
        ({
            let next = taken_record(shape, record).1;
            &&& next.wire == shape.wire
            &&& shape.random is Some ==> next.random == shape.random
            &&& shape.hijacked ==> next.hijacked
            &&& shape.authenticated ==> next.authenticated && next.hijacked == shape.hijacked
            &&& shape.messages.len() <= MAX_HANDSHAKE_BUFFER ==> next.messages.len()
                <= MAX_HANDSHAKE_BUFFER
        }),
{
    if record[0] == TLS_HANDSHAKE && shape.random is None {
        let payload = record.subrange(5, record.len() as int);
        lemma_sought_keeps(IncomingShape { messages: shape.messages + payload, ..shape });
    }
}

/// What has been found out about the server is never taken back: its random value
/// stays, a server found to be another stays that, and one that has proved itself
/// stays authenticated. What is held back stays bounded.
pub proof fn what_is_known_of_the_server_stays(shape: IncomingShape)
    ensures
        ({
            let (result, next) = walked(shape);
            &&& shape.random is Some ==> next.random == shape.random
            &&& shape.hijacked ==> next.hijacked
            &&& shape.authenticated ==> next.authenticated && next.hijacked == shape.hijacked
            &&& shape.messages.len() <= MAX_HANDSHAKE_BUFFER ==> next.messages.len()
                <= MAX_HANDSHAKE_BUFFER
            &&& result is Ok ==> next.wire.len() < 5 + MAX_TLS_RECORD
        }),
    decreases shape.wire.len(),
{
    let wire = shape.wire;
    let length = read16(wire, 3);
    if wire.len() >= 5 && length <= MAX_TLS_RECORD && wire.len() >= 5 + length {
        let onward = past_wire(shape, 5 + length);
        let record = wire.subrange(0, 5 + length);
        lemma_record_kept(onward, record);
        if taken_record(onward, record).0 is Ok {
            what_is_known_of_the_server_stays(taken_record(onward, record).1);
        }
    }
}

/// How the server's bytes are cut into segments does not matter: two segments one
/// after another do what their concatenation does.
pub proof fn segments_may_be_cut_anywhere(shape: IncomingShape, more: Seq<u8>)
    ensures
        walked(with_segment(shape, more)) == match walked(shape) {
            (Err(fault), next) => (Err::<(), Fault>(fault), with_segment(next, more)),
            (Ok(_), next) => walked(with_segment(next, more)),
        },
    decreases shape.wire.len(),
{
    let wire = shape.wire;
    let all = wire + more;
    let length = read16(wire, 3);
    if wire.len() >= 5 {
        assert(all[3] == wire[3] && all[4] == wire[4]);
        if length <= MAX_TLS_RECORD && wire.len() >= 5 + length {
            let onward = past_wire(shape, 5 + length);
            let record = wire.subrange(0, 5 + length);
            let next = taken_record(onward, record).1;
            lemma_record_kept(onward, record);
            assert(all.subrange(0, 5 + length) =~= record);
            assert(all.subrange(5 + length, all.len() as int) =~= onward.wire + more);
            assert(past_wire(with_segment(shape, more), 5 + length) == with_segment(
                onward,
                more,
            ));
            lemma_record_elsewhere(onward, record, onward.wire + more);
            assert(with_segment(next, more) == (IncomingShape {
                wire: onward.wire + more,
                ..next
            }));
            if taken_record(onward, record).0 is Ok {
                segments_may_be_cut_anywhere(next, more);
            }
        }
    }
}

/// The smallest ServerHello gives a fresh client the random value that it carries,
/// and the chain of a server that knows the password.
pub proof fn a_server_hello_keys_the_proof(password: Seq<u8>, random: Seq<u8>)
    requires
        random.len() == 32,
    ensures
        ({
            let record = record_of(TLS_HANDSHAKE, hello_payload(random));
            walked(with_segment(fresh_incoming(password), record)) == (
                Ok::<(), Fault>(()),
                IncomingShape {
                    ready: record,
                    random: Some(random),
                    proof_chain: Some(fresh_sender(password, random).chain),
                    ..fresh_incoming(password)
                },
            )
        }),
{
    let fresh = fresh_incoming(password);
    let payload = hello_payload(random);
    let record = record_of(TLS_HANDSHAKE, payload);
    let fed = with_segment(fresh, record);
    assert(fed.wire =~= record);
    assert(payload.len() == 38);
    assert(record.len() == 43 && read16(record, 3) == 38);
    let onward = past_wire(fed, 43);
    assert(onward.wire =~= Seq::<u8>::empty());
    assert(record.subrange(0, 43) =~= record);
    assert(record.subrange(5, 43) =~= payload);
    assert(fresh.messages + payload =~= payload);
    assert(read24(payload, 1) == 34);
    assert(payload.subrange(6, 38) =~= random);
    let next = taken_record(onward, record).1;
    assert(fresh.ready + record =~= record);
    assert(sought(IncomingShape { messages: payload, ..onward }) == (
        Ok::<(), Fault>(()),
        IncomingShape {
            messages: Seq::empty(),
            random: Some(random),
            proof_chain: Some(chain_of(password, random)),
            ..onward
        },
    ));
    assert(next.wire =~= Seq::<u8>::empty());
    assert(walked(next) == (Ok::<(), Fault>(()), next));
}

/// A record that a server makes under proof authenticates it to a client with the
/// same chain: the client hands on the very plaintext, and both chains go on
/// together.
pub proof fn a_proof_restores_its_plaintext(
    client: IncomingShape,
    sender: SenderShape,
    plaintext: Seq<u8>,
)
    requires
        client.proof_chain == Some(sender.chain),
        client.random == Some(sender.random),
        client.password == sender.password,
        !client.hijacked,
        plaintext.len() <= MAX_PROOF_PLAINTEXT,
        sender.chain.tag(masked(plaintext, sender.password, sender.random)).len() == 4,
    ensures
        taken_record(client, record_of(TLS_APPLICATION_DATA, proof_payload(sender, plaintext)))
            == (
            Ok::<(), Fault>(()),
            IncomingShape {
                ready: client.ready + record_of(TLS_APPLICATION_DATA, plaintext),
                proof_chain: Some(sender_behind(sender, plaintext).chain),
                authenticated: true,
                ..client
            },
        ),
{
    let data = masked(plaintext, sender.password, sender.random);
    let payload = proof_payload(sender, plaintext);
    let record = record_of(TLS_APPLICATION_DATA, payload);
    assert(record.subrange(5, 9) =~= sender.chain.tag(data));
    assert(record.subrange(9, record.len() as int) =~= data);
    the_mask_undoes_itself(plaintext, sender.password, sender.random);
    assert(record.subrange(0, 3) =~= seq![TLS_APPLICATION_DATA, 3u8, 3u8]);
    assert(client.ready + record.subrange(0, 3) + be16(data.len() as u16) + plaintext
        =~= client.ready + record_of(TLS_APPLICATION_DATA, plaintext));
}

/// Once a server is authenticated, a record whose tag is not the next of the chain
/// is a fault: reordered, replayed and forged records never reach TLS.
pub proof fn a_broken_chain_fails_closed(client: IncomingShape, record: Seq<u8>)
    requires
        client.authenticated,
        client.random is Some,
        client.proof_chain matches Some(chain) && !chain.takes(
            record.subrange(5, 9),
            record.subrange(9, record.len() as int),
        ),
        !client.hijacked,
        record.len() >= 5,
        record[0] == TLS_APPLICATION_DATA,
    ensures
        taken_record(client, record) == (
            Err::<(), Fault>(
                invalid_data("ShadowTLS server proof chain failed after authentication"@),
            ),
            client,
        ),
{
}

} // verus!
