//! The protocol in the bytes of the wire: what is masked with what, what each tag
//! covers, and which records get through.
use crate::error::{ErrorKind, Fault};
use crate::octets::{be16, read16, read24};
use crate::shadowtls::config::muddled_text;
use crate::shadowtls::handshake::{
    hello_processed, proven, sought, switch_fault, taken_record, written, IncomingShape,
    OutgoingShape, WriteStep,
};
use crate::shadowtls::transport::{ended, record_step, upload_records, DownloadShape, DownloadStepShape};
use crate::shadowtls::wire::{
    chain_of, hello_fault, hello_signature, hmac_sha1_of, masked, sha2_of, signed_hello,
    unsigned_hello, ChainShape,
};
use crate::text::hex_text;
use vstd::prelude::*;
use vstd::string::*;

verus! {

/// The mask is SHA-256 of the password followed by the server's random, over and over.
pub proof fn the_mask_is_the_hash_of_password_and_random(
    data: Seq<u8>,
    password: Seq<u8>,
    random: Seq<u8>,
)
    ensures
        masked(data, password, random).len() == data.len(),
        forall|i: int|
            0 <= i < data.len() ==> #[trigger] masked(data, password, random)[i] == data[i]
                ^ sha2_of(password + random)[i % 32],
{
}

/// A record with four zeros where a signature stands.
pub open spec fn blank_signature(record: Seq<u8>) -> Seq<u8> {
    record.take(72) + seq![0u8, 0u8, 0u8, 0u8] + record.skip(76)
}

/// A hello is signed where it is one whole handshake record with a ClientHello and a
/// session id of 32 bytes, and nothing else is.
pub proof fn only_a_whole_hello_is_signed(record: Seq<u8>)
    ensures
        hello_fault(record) is None <==> {
            &&& record.len() >= 76
            &&& record[0] == 22
            &&& read16(record, 3) == record.len() - 5
            &&& read16(record, 3) <= 18432
            &&& record[5] == 1
            &&& read24(record, 6) + 9 <= record.len()
            &&& record[43] == 32
        },
{
}

/// What a server checks of a signed hello: the last four bytes of the session id are
/// the front of the HMAC-SHA1, under the password, of the handshake message with those
/// four bytes zero. Everything else is as it was. That a tag has twenty bytes is
/// presupposed.
pub proof fn a_signed_hello_carries_its_tag(record: Seq<u8>, password: Seq<u8>)
    requires
        hello_fault(record) is None,
        forall|data: Seq<u8>| #[trigger] hmac_sha1_of(password, data).len() == 20,
    ensures
        ({
            let signed = signed_hello(record, password);
            &&& signed.len() == record.len()
            &&& signed.take(72) == record.take(72)
            &&& signed.skip(76) == record.skip(76)
            &&& signed.subrange(72, 76) == hmac_sha1_of(
                password,
                blank_signature(signed).skip(5),
            ).take(4)
        }),
{
    let signed = signed_hello(record, password);
    assert(hello_signature(record, password).len() == 4);
    assert(signed.take(72) =~= record.take(72));
    assert(signed.skip(76) =~= record.skip(76));
    assert(blank_signature(signed) =~= unsigned_hello(record));
    let message = unsigned_hello(record);
    assert(message.skip(5) =~= message.subrange(5, message.len() as int));
    assert(signed.subrange(72, 76) =~= hello_signature(record, password));
    let tag = hmac_sha1_of(password, message.skip(5));
    assert(tag.take(4) =~= tag.subrange(0, 4));
}

/// The hello goes out signed, with what stands behind it, as soon as it is whole.
pub proof fn a_whole_hello_goes_out_signed(shape: OutgoingShape, record: Seq<u8>, rest: Seq<u8>)
    requires
        hello_fault(record) is None,
        !shape.signed,
        shape.input == record + rest,
    ensures
        hello_processed(shape) == (
            Ok::<(), Fault>(()),
            OutgoingShape {
                input: Seq::empty(),
                pending: shape.pending + signed_hello(record, shape.password) + rest,
                signed: true,
                ..shape
            },
        ),
{
    let length = read16(record, 3);
    assert(read16(shape.input, 3) == length);
    assert(shape.input.subrange(0, 5 + length) =~= record);
    assert(shape.input.subrange(5 + length, shape.input.len() as int) =~= rest);
}

/// Once the hello is signed, nothing more is.
pub proof fn a_hello_is_signed_once(shape: OutgoingShape)
    requires
        shape.signed,
    ensures
        hello_processed(shape) == (Ok::<(), Fault>(()), shape),
{
}

/// The bytes that a chain has covered: what it started from, then each data with its
/// tag behind it.
pub open spec fn ledger(initial: Seq<u8>, writes: Seq<Seq<u8>>, tags: Seq<Seq<u8>>) -> Seq<u8>
    decreases writes.len(),
{
    if writes.len() == 0 {
        initial
    } else {
        ledger(initial, writes.drop_last(), tags.drop_last()) + writes.last() + tags.last()
    }
}

/// A chain starts from its key and its initial bytes, its tags are the fronts of
/// HMAC-SHA1 over everything so far and the next data, and behind data it has covered
/// the data and its tag too.
pub proof fn a_tag_covers_everything_before_it(key: Seq<u8>, initial: Seq<u8>, data: Seq<u8>)
    requires
        hmac_sha1_of(key, initial + data).len() == 20,
    ensures
        chain_of(key, initial).tag(data) == hmac_sha1_of(key, initial + data).take(4),
        chain_of(key, initial).behind(data) == chain_of(
            key,
            initial + data + hmac_sha1_of(key, initial + data).take(4),
        ),
        forall|tag: Seq<u8>|
            #[trigger] chain_of(key, initial).takes(tag, data) <==> tag == hmac_sha1_of(
                key,
                initial + data,
            ).take(4),
{
    let whole = hmac_sha1_of(key, initial + data);
    assert(whole.take(4) =~= whole.subrange(0, 4));
}

proof fn lemma_ledger_front(
    initial: Seq<u8>,
    first: Seq<u8>,
    tag: Seq<u8>,
    writes: Seq<Seq<u8>>,
    tags: Seq<Seq<u8>>,
)
    requires
        writes.len() == tags.len(),
    ensures
        ledger(initial, seq![first] + writes, seq![tag] + tags) == ledger(
            initial + first + tag,
            writes,
            tags,
        ),
    decreases writes.len(),
{
    let all = seq![first] + writes;
    let marks = seq![tag] + tags;
    if writes.len() == 0 {
        assert(all.drop_last() =~= Seq::<Seq<u8>>::empty());
        assert(marks.drop_last() =~= Seq::<Seq<u8>>::empty());
        assert(ledger(initial, all.drop_last(), marks.drop_last()) == initial);
    } else {
        assert(all.drop_last() =~= seq![first] + writes.drop_last());
        assert(marks.drop_last() =~= seq![tag] + tags.drop_last());
        lemma_ledger_front(initial, first, tag, writes.drop_last(), tags.drop_last());
    }
}

/// The records of an upload, as they stand on the wire: each is an application data
/// record of TLS 1.2 whose length counts four bytes of tag and the data, and its tag
/// is the front of the HMAC-SHA1 of everything before it, the earlier tags too, and of
/// its data. That a tag of the MAC has twenty bytes is presupposed.
pub proof fn an_upload_is_tagged_record_by_record(
    key: Seq<u8>,
    initial: Seq<u8>,
    writes: Seq<Seq<u8>>,
)
    requires
        forall|data: Seq<u8>| #[trigger] hmac_sha1_of(key, data).len() == 20,
        forall|i: int| 0 <= i < writes.len() ==> (#[trigger] writes[i]).len() <= 65531,
    ensures
        ({
            let records = upload_records(chain_of(key, initial), writes);
            let tags = Seq::new(records.len(), |i: int| records[i].subrange(5, 9));
            &&& records.len() == writes.len()
            &&& forall|i: int|
                0 <= i < writes.len() ==> {
                    let record = #[trigger] records[i];
                    &&& record.take(3) == seq![23u8, 3u8, 3u8]
                    &&& read16(record, 3) == writes[i].len() + 4
                    &&& record.skip(9) == writes[i]
                    &&& record.subrange(5, 9) == hmac_sha1_of(
                        key,
                        ledger(initial, writes.take(i), tags.take(i)) + writes[i],
                    ).take(4)
                }
        }),
    decreases writes.len(),
{
    let chain = chain_of(key, initial);
    let records = upload_records(chain, writes);
    let tags = Seq::new(records.len(), |i: int| records[i].subrange(5, 9));
    if writes.len() > 0 {
        let first = writes[0];
        let others = writes.drop_first();
        let tag = hmac_sha1_of(key, initial + first).take(4);
        a_tag_covers_everything_before_it(key, initial, first);
        let next = initial + first + tag;
        an_upload_is_tagged_record_by_record(key, next, others);
        let rest = upload_records(chain_of(key, next), others);
        let marks = Seq::new(rest.len(), |i: int| rest[i].subrange(5, 9));
        let record = records[0];
        assert(record =~= seq![23u8, 3u8, 3u8] + be16((4 + first.len()) as u16) + (tag + first));
        assert(record.take(3) =~= seq![23u8, 3u8, 3u8]);
        assert(record.subrange(5, 9) =~= tag);
        assert(record.skip(9) =~= first);
        assert(tags =~= seq![tag] + marks) by {
            assert forall|i: int| 1 <= i < tags.len() implies tags[i] == marks[i - 1] by {
                assert(records[i] == rest[i - 1]);
            }
        }
        assert forall|i: int| 0 <= i < writes.len() implies {
            let record = #[trigger] records[i];
            &&& record.take(3) == seq![23u8, 3u8, 3u8]
            &&& read16(record, 3) == writes[i].len() + 4
            &&& record.skip(9) == writes[i]
            &&& record.subrange(5, 9) == hmac_sha1_of(
                key,
                ledger(initial, writes.take(i), tags.take(i)) + writes[i],
            ).take(4)
        } by {
            if i == 0 {
                assert(writes.take(0) =~= Seq::<Seq<u8>>::empty());
                assert(ledger(initial, writes.take(0), tags.take(0)) == initial);
            } else {
                assert(records[i] == rest[i - 1]);
                assert(writes.take(i) =~= seq![first] + others.take(i - 1));
                assert(tags.take(i) =~= seq![tag] + marks.take(i - 1));
                lemma_ledger_front(initial, first, tag, others.take(i - 1), marks.take(i - 1));
                assert(others[i - 1] == writes[i]);
            }
        }
    }
}

/// What gets through behind the handshake: an application data record whose first four
/// bytes are the server's next tag over the rest delivers exactly that rest, and
/// nothing else delivers anything. A record under the next tag of the proof is passed
/// over until the server has sent data, an alert closes, and a record of the handshake
/// is passed over until then as well. Everything else is refused.
pub proof fn only_tagged_data_gets_through(shape: DownloadShape, record: Seq<u8>)
    requires
        record.len() >= 5,
        hmac_sha1_of(shape.server_chain.key, shape.server_chain.data + record.skip(9)).len() == 20,
        hmac_sha1_of(shape.proof_chain.key, shape.proof_chain.data + record.skip(9)).len() == 20,
    ensures
        ({
            let data = record.skip(9);
            let tag = record.subrange(5, 9);
            let server = hmac_sha1_of(shape.server_chain.key, shape.server_chain.data + data);
            let late = hmac_sha1_of(shape.proof_chain.key, shape.proof_chain.data + data);
            let step = record_step(shape, record).0;
            let next = record_step(shape, record).1;
            let sealed = record[0] == 23 && record.len() >= 9;
            &&& step is Deliver <==> sealed && tag == server.take(4)
            &&& step is Deliver ==> step == DownloadStepShape::Deliver(data)
                && next.server_chain.data == shape.server_chain.data + data + tag
                && next.server_chain.key == shape.server_chain.key && next.server_data_seen
                && next.proof_chain == shape.proof_chain
            &&& step is Close <==> record[0] == 21
            &&& step is Skip <==> !shape.server_data_seen && (record[0] == 20 || record[0] == 22 || (
            sealed && tag != server.take(4) && tag == late.take(4)))
            &&& step is Skip && record[0] == 23 ==> next.proof_chain.data
                == shape.proof_chain.data + data + tag
            &&& !(step is Deliver) ==> next.server_chain == shape.server_chain
                && next.server_data_seen == shape.server_data_seen
        }),
{
    let data = record.skip(9);
    let server = hmac_sha1_of(shape.server_chain.key, shape.server_chain.data + data);
    let late = hmac_sha1_of(shape.proof_chain.key, shape.proof_chain.data + data);
    assert(server.take(4) =~= server.subrange(0, 4));
    assert(late.take(4) =~= late.subrange(0, 4));
    let payload = record.subrange(5, record.len() as int);
    if record.len() >= 9 {
        assert(payload.subrange(0, 4) =~= record.subrange(5, 9));
        assert(payload.subrange(4, payload.len() as int) =~= data);
    }
}

/// What a ServerHello tells: the 32 bytes behind its version are the random, and the
/// proof is tagged under the password from that random on.
pub proof fn the_server_random_keys_the_proof(shape: IncomingShape)
    requires
        shape.messages.len() >= 38,
        shape.messages[0] == 2,
        34 <= read24(shape.messages, 1) <= 65532,
        4 + read24(shape.messages, 1) <= shape.messages.len(),
    ensures
        ({
            let (result, next) = sought(shape);
            &&& result is Ok
            &&& next.random == Some(shape.messages.subrange(6, 38))
            &&& next.proof_chain == Some(
                ChainShape { key: shape.password, data: shape.messages.subrange(6, 38) },
            )
            &&& next.wire == shape.wire && next.ready == shape.ready && next.authenticated
                == shape.authenticated && next.hijacked == shape.hijacked
        }),
{
}

/// What a record under proof gives TLS: its data, where the four bytes before it are
/// the next tag of the chain, with the mask of SHA-256 over password and random taken
/// off, under the header that it came with and a length that counts it. The server is
/// authenticated by that and by nothing else.
pub proof fn a_proven_record_is_unmasked(shape: IncomingShape, record: Seq<u8>)
    requires
        9 <= record.len() <= 65544,
        record[0] == 23,
        !shape.hijacked,
        shape.random is Some,
        shape.proof_chain is Some,
        hmac_sha1_of(
            shape.proof_chain->0.key,
            shape.proof_chain->0.data + record.skip(9),
        ).len() == 20,
    ensures
        ({
            let chain = shape.proof_chain->0;
            let data = record.skip(9);
            let tag = hmac_sha1_of(chain.key, chain.data + data).take(4);
            let (result, next) = taken_record(shape, record);
            let added = next.ready.skip(shape.ready.len() as int);
            &&& record.subrange(5, 9) == tag ==> {
                &&& result is Ok
                &&& next.authenticated
                &&& next.ready.take(shape.ready.len() as int) == shape.ready
                &&& added.take(3) == record.take(3)
                &&& read16(added, 3) == data.len()
                &&& added.len() == 5 + data.len()
                &&& forall|i: int|
                    0 <= i < data.len() ==> #[trigger] added[5 + i] == data[i] ^ sha2_of(
                        shape.password + shape.random->0,
                    )[i % 32]
                &&& next.proof_chain == Some(
                    ChainShape { key: chain.key, data: chain.data + data + tag },
                )
            }
            &&& record.subrange(5, 9) != tag ==> {
                &&& next.proof_chain == shape.proof_chain
                &&& next.authenticated == shape.authenticated
                &&& shape.authenticated ==> result is Err && next == shape
                &&& !shape.authenticated ==> result is Ok && next.hijacked && next.ready
                    == shape.ready + record
            }
        }),
{
    let chain = shape.proof_chain->0;
    let data = record.skip(9);
    let whole = hmac_sha1_of(chain.key, chain.data + data);
    assert(whole.take(4) =~= whole.subrange(0, 4));
    assert(record.subrange(9, record.len() as int) =~= data);
    let (result, next) = taken_record(shape, record);
    assert((result, next) == proven(shape, record));
    let random = shape.random->0;
    let restored = masked(data, shape.password, random);
    let added = record.subrange(0, 3) + be16(data.len() as u16) + restored;
    if record.subrange(5, 9) == whole.take(4) {
        assert(chain.takes(record.subrange(5, 9), data));
        assert(next.ready =~= shape.ready + added);
        assert(next.ready.skip(shape.ready.len() as int) =~= added);
        assert(next.ready.take(shape.ready.len() as int) =~= shape.ready);
        assert(added.take(3) =~= record.take(3));
        assert(added.len() == 5 + data.len());
        assert forall|i: int| 0 <= i < data.len() implies #[trigger] added[5 + i] == data[i]
            ^ sha2_of(shape.password + random)[i % 32] by {
            assert(added[5 + i] == restored[i]);
        }
    }
}

/// Once the hello is signed bytes go straight to the socket. Before that a write is taken
/// as far as 36864 bytes of hello hold it, and never more of it than there is; a buffer
/// that is full is an error.
pub proof fn a_write_is_taken_as_far_as_it_fits(shape: OutgoingShape, input: Seq<u8>)
    requires
        input.len() <= usize::MAX,
    ensures
        ({
            let (result, after) = written(shape, input);
            let room = 36864 - shape.input.len();
            &&& shape.signed ==> result is Ok && result->Ok_0 is Direct && after == shape
            &&& !shape.signed && input.len() == 0 ==> result == Ok::<WriteStep, Fault>(
                WriteStep::Taken(0),
            ) && after == shape
            &&& !shape.signed && input.len() > 0 && room <= 0 ==> result is Err && after == shape
            &&& !shape.signed && input.len() > 0 && room > 0 ==> {
                let held = if input.len() <= room {
                    input
                } else {
                    input.take(room)
                };
                let fed = OutgoingShape { input: shape.input + held, ..shape };
                &&& after == hello_processed(fed).1
                &&& result is Ok <==> hello_processed(fed).0 is Ok
                &&& result matches Ok(step) ==> (step matches WriteStep::Taken(count) && count
                    == held.len())
            }
        }),
{
    let room = 36864 - shape.input.len();
    if !shape.signed && input.len() > 0 && room > 0 {
        if input.len() <= room {
            assert(input.subrange(0, input.len() as int) =~= input);
        } else {
            assert(input.subrange(0, room) =~= input.take(room));
        }
    }
}

/// The second stage starts only with a server that has proved itself and nobody else has
/// taken over from, and with nothing left to send.
pub proof fn the_second_stage_needs_a_proven_server(
    incoming: IncomingShape,
    outgoing: OutgoingShape,
)
    ensures
        switch_fault(incoming, outgoing) is None <==> {
            &&& incoming.authenticated
            &&& !incoming.hijacked
            &&& incoming.random is Some
            &&& incoming.proof_chain is Some
            &&& outgoing.input.len() == 0
            &&& outgoing.pending.len() == 0
        },
        !incoming.authenticated || incoming.hijacked ==> (switch_fault(incoming, outgoing)
            matches Some((kind, _)) && kind == ErrorKind::PermissionDenied),
{
}

/// A request to a server that is not ours asks for a page by twelve bytes in hexadecimal,
/// of the host with the server's name, and closes the connection. It ends with an empty
/// line.
pub proof fn a_request_asks_for_a_page_that_nobody_has(path: Seq<u8>, server_name: Seq<char>)
    ensures
        ({
            let text = muddled_text(path, server_name);
            let name = hex_text(path);
            let at: int = 5 + name.len() as int + 17;
            &&& text.take(5) == seq!['G', 'E', 'T', ' ', '/']
            &&& text.subrange(5, 5 + name.len() as int) == name
            &&& text.subrange(5 + name.len() as int, at) == seq![
                ' ',
                'H',
                'T',
                'T',
                'P',
                '/',
                '1',
                '.',
                '1',
                '\r',
                '\n',
                'H',
                'o',
                's',
                't',
                ':',
                ' ',
            ]
            &&& text.subrange(at, at + server_name.len()) == server_name
            &&& text.skip(text.len() - 4) == seq!['\r', '\n', '\r', '\n']
            &&& text.len() == at + server_name.len() + 36
        }),
{
    reveal_strlit("GET /");
    reveal_strlit(" HTTP/1.1\r\nHost: ");
    reveal_strlit("\r\nAccept: */*\r\nConnection: close\r\n\r\n");
    let text = muddled_text(path, server_name);
    let name = hex_text(path);
    let at: int = 5 + name.len() as int + 17;
    assert(text.take(5) =~= seq!['G', 'E', 'T', ' ', '/']);
    assert(text.subrange(5, 5 + name.len() as int) =~= name);
    assert(text.subrange(5 + name.len() as int, at) =~= " HTTP/1.1\r\nHost: "@);
    assert(text.subrange(at, at + server_name.len()) =~= server_name);
    assert(text.skip(text.len() - 4) =~= seq!['\r', '\n', '\r', '\n']);
}

/// A socket that ends within a record, or before one, ends too early.
pub proof fn a_socket_may_not_end_within_a_record(bytes: Seq<u8>)
    ensures
        ({
            let (kind, _) = ended(bytes);
            kind == ErrorKind::UnexpectedEof
        }),
{
}

} // verus!
