//! The messages in the bytes of the wire: what each one is, whole, and nothing else.
use crate::destination::{
    all_zero, effective_destination, lemma_read_host, DestinationShape, HostShape,
};
use crate::octets::be16;
use crate::socks::codec::{
    address_bytes, address_reading, auth_request, framed_datagram, read_datagram, read_destination,
    reply_reading, request_bytes, ReadingShape,
};
use crate::socks::error::{reply_of, SocksFault};
use crate::socks::handshake::{step, ActionShape, HandshakeShape, Phase};
use crate::socks::udp::{
    control_action, incoming_action, outgoing_action, relay_of, slack_after, RelayActionShape,
};
use vstd::prelude::*;
use vstd::utf8::{
    decode_utf8_encode_utf8, encode_utf8, encode_utf8_decode_utf8, encode_utf8_valid_utf8,
};

verus! {

/// Whether bytes are a destination: one byte of type, the address or the name behind its
/// length, and the port in two bytes, most significant first.
pub open spec fn spells(bytes: Seq<u8>, destination: DestinationShape) -> bool {
    let n = bytes.len() as int;
    &&& n >= 4
    &&& bytes[n - 2] * 256 + bytes[n - 1] == destination.port
    &&& match destination.host {
        HostShape::V4(octets) => n == 7 && bytes[0] == 1 && bytes.subrange(1, 5) == octets,
        HostShape::V6(octets) => n == 19 && bytes[0] == 4 && bytes.subrange(1, 17) == octets,
        HostShape::Name(name) => bytes[0] == 3 && 1 <= bytes[1] && n == 4 + bytes[1]
            && bytes.subrange(2, n - 2) == encode_utf8(name),
    }
}

/// A written address is the destination, byte for byte. Only a name that is empty or
/// longer than 255 bytes cannot be written.
pub proof fn a_written_address_spells_the_destination(destination: DestinationShape)
    requires
        destination.host.valid(),
    ensures
        address_bytes(destination) matches Ok(bytes) ==> spells(
            bytes,
            read_destination(destination),
        ),
        address_bytes(destination) is Err <==> (destination.host.read() matches HostShape::Name(
            name,
        ) && !(1 <= encode_utf8(name).len() <= 255)),
{
    lemma_read_host(destination.host);
    if let Ok(bytes) = address_bytes(destination) {
        let n = bytes.len() as int;
        let port = be16(destination.port);
        assert(bytes[n - 2] == port[0] && bytes[n - 1] == port[1]);
        match destination.host.read() {
            HostShape::V4(octets) => {
                assert(bytes.subrange(1, 5) =~= octets);
            },
            HostShape::V6(octets) => {
                assert(bytes.subrange(1, 17) =~= octets);
            },
            HostShape::Name(name) => {
                assert(bytes.subrange(2, n - 2) =~= encode_utf8(name));
            },
        }
    }
}

/// What is read as an address is what the bytes spell, and whatever they spell is read,
/// with any bytes behind it.
pub proof fn an_address_is_read_as_it_is_spelt(
    bytes: Seq<u8>,
    destination: DestinationShape,
    more: Seq<u8>,
)
    ensures
        address_reading(bytes) matches Ok(ReadingShape::Whole(found, length)) ==> 0 <= length
            <= bytes.len() && spells(bytes.take(length), found),
        destination.host.valid() && spells(bytes, destination) ==> address_reading(bytes + more)
            == Ok::<ReadingShape, SocksFault>(
            ReadingShape::Whole(destination, bytes.len() as int),
        ),
{
    if let Ok(ReadingShape::Whole(found, length)) = address_reading(bytes) {
        let front = bytes.take(length);
        match found.host {
            HostShape::V4(octets) => {
                assert(front.subrange(1, 5) =~= bytes.subrange(1, 5));
            },
            HostShape::V6(octets) => {
                assert(front.subrange(1, 17) =~= bytes.subrange(1, 17));
            },
            HostShape::Name(name) => {
                let text = bytes.subrange(2, 2 + bytes[1]);
                decode_utf8_encode_utf8(text);
                assert(front.subrange(2, length - 2) =~= text);
            },
        }
    }
    if destination.host.valid() && spells(bytes, destination) {
        let all = bytes + more;
        let n = bytes.len() as int;
        assert(all[n - 2] == bytes[n - 2] && all[n - 1] == bytes[n - 1]);
        match destination.host {
            HostShape::V4(octets) => {
                assert(all.subrange(1, 5) =~= octets);
            },
            HostShape::V6(octets) => {
                assert(all.subrange(1, 17) =~= octets);
            },
            HostShape::Name(name) => {
                assert(all.subrange(2, 2 + bytes[1]) =~= bytes.subrange(2, n - 2));
                encode_utf8_valid_utf8(name);
                encode_utf8_decode_utf8(name);
            },
        }
    }
}

/// A request is version five, the command, a zero, and the destination.
pub proof fn a_request_is_version_command_and_destination(
    command: u8,
    destination: DestinationShape,
)
    requires
        destination.host.valid(),
    ensures
        request_bytes(command, destination) matches Ok(bytes) ==> bytes.take(3) == seq![
            5u8,
            command,
            0u8,
        ] && spells(bytes.skip(3), read_destination(destination)),
        request_bytes(command, destination) is Ok <==> address_bytes(destination) is Ok,
{
    a_written_address_spells_the_destination(destination);
    if let Ok(bytes) = request_bytes(command, destination) {
        assert(bytes.take(3) =~= seq![5u8, command, 0u8]);
        assert(bytes.skip(3) =~= address_bytes(destination)->Ok_0);
    }
}

/// Credentials are version one, the name behind its length and the password behind its
/// length, each of one byte to 255.
pub proof fn credentials_are_two_counted_texts(username: Seq<u8>, password: Seq<u8>)
    ensures
        auth_request(username, password) is Ok <==> 1 <= username.len() <= 255 && 1
            <= password.len() <= 255,
        auth_request(username, password) matches Ok(bytes) ==> {
            let at = 2 + username.len() as int;
            &&& bytes[0] == 1
            &&& bytes[1] == username.len()
            &&& bytes.subrange(2, at) == username
            &&& bytes[at] == password.len()
            &&& bytes.skip(at + 1) == password
        },
{
    if let Ok(bytes) = auth_request(username, password) {
        let at = 2 + username.len() as int;
        assert(bytes.subrange(2, at) =~= username);
        assert(bytes.skip(at + 1) =~= password);
    }
}

/// A reply is taken where it is version five, success, any reserved byte, and the address
/// that was bound; every other code is refused as what it says.
pub proof fn a_reply_is_taken_only_on_success(bytes: Seq<u8>)
    ensures
        reply_reading(bytes) matches Ok(ReadingShape::Whole(bound, length)) ==> 3 <= length
            <= bytes.len() && bytes[0] == 5 && bytes[1] == 0 && spells(
            bytes.subrange(3, length),
            bound,
        ),
        bytes.len() >= 3 && bytes[0] == 5 && bytes[1] != 0 ==> (reply_reading(bytes) matches Err(
            SocksFault::Refused(reply),
        ) && reply == reply_of(bytes[1]) && reply.wire_code() == bytes[1]),
        bytes.len() >= 3 && bytes[0] != 5 ==> reply_reading(bytes) == Err::<
            ReadingShape,
            SocksFault,
        >(SocksFault::UnexpectedVersion(bytes[0])),
{
    if bytes.len() >= 3 {
        let address = bytes.subrange(3, bytes.len() as int);
        an_address_is_read_as_it_is_spelt(
            address,
            DestinationShape { host: HostShape::V4(Seq::empty()), port: 0 },
            Seq::empty(),
        );
        if let Ok(ReadingShape::Whole(bound, length)) = address_reading(address) {
            assert(address.take(length) =~= bytes.subrange(3, 3 + length));
        }
    }
}

/// A datagram is three zeros, a destination and the payload: a framed one is that, and
/// what is read is what stands there.
pub proof fn a_datagram_is_three_zeros_a_destination_and_the_payload(
    destination: DestinationShape,
    payload: Seq<u8>,
    frame: Seq<u8>,
)
    requires
        destination.host.valid(),
    ensures
        framed_datagram(Seq::empty(), destination, payload) matches (Ok(_), framed) ==> {
            let end = framed.len() - payload.len();
            &&& framed.len() <= 65507
            &&& framed.take(3) == seq![0u8, 0u8, 0u8]
            &&& spells(framed.subrange(3, end), read_destination(destination))
            &&& framed.skip(end) == payload
        },
        read_datagram(frame) matches Ok((source, data)) ==> {
            let end = frame.len() - data.len();
            &&& frame.take(3) == seq![0u8, 0u8, 0u8]
            &&& spells(frame.subrange(3, end), source)
            &&& frame.skip(end) == data
        },
{
    a_written_address_spells_the_destination(destination);
    if let (Ok(_), framed) = framed_datagram(Seq::empty(), destination, payload) {
        let address = address_bytes(destination)->Ok_0;
        let end = framed.len() - payload.len();
        assert(framed.take(3) =~= seq![0u8, 0u8, 0u8]);
        assert(framed.subrange(3, end) =~= address);
        assert(framed.skip(end) =~= payload);
    }
    if let Ok((source, data)) = read_datagram(frame) {
        let end = frame.len() - data.len();
        let middle = frame.subrange(3, end);
        assert(frame.take(3) =~= seq![0u8, 0u8, 0u8]);
        assert(frame.skip(end) =~= data);
        match source.host {
            HostShape::V4(octets) => {
                assert(middle.subrange(1, 5) =~= octets);
            },
            HostShape::V6(octets) => {
                assert(middle.subrange(1, 17) =~= octets);
            },
            HostShape::Name(name) => {
                let text = frame.subrange(5, 5 + frame[4]);
                decode_utf8_encode_utf8(text);
                assert(middle.subrange(2, middle.len() - 2) =~= text);
            },
        }
    }
}

/// What a client says when: after the server's choice of the method that was offered,
/// two for credentials and zero without, the credentials or the request; after the
/// credentials were taken with version one and status zero, the request; and it is done
/// with the reply. Every other choice and every other status ends the handshake.
pub proof fn each_answer_is_followed_by_its_message(before: HandshakeShape, data: Seq<u8>)
    requires
        before.received + data == data,
        data.len() == 2,
        before.destination.host.valid(),
    ensures
        ({
            let (result, after) = step(before, data);
            &&& before.phase == Phase::Method && before.credentials is None ==> {
                &&& result is Ok <==> data == seq![5u8, 0u8] && address_bytes(before.destination)
                    is Ok
                &&& result matches Ok(action) ==> action == ActionShape::Send(
                    request_bytes(before.command, before.destination)->Ok_0,
                ) && after.phase == Phase::Reply
            }
            &&& before.phase == Phase::Method && before.credentials is Some ==> {
                let (username, password) = before.credentials->0;
                let sent = auth_request(encode_utf8(username), encode_utf8(password));
                &&& result is Ok <==> data == seq![5u8, 2u8] && sent is Ok
                &&& result matches Ok(action) ==> action == ActionShape::Send(sent->Ok_0)
                    && after.phase == Phase::Auth
            }
            &&& before.phase == Phase::Auth ==> {
                &&& result is Ok <==> data == seq![1u8, 0u8] && address_bytes(before.destination)
                    is Ok
                &&& result matches Ok(action) ==> action == ActionShape::Send(
                    request_bytes(before.command, before.destination)->Ok_0,
                ) && after.phase == Phase::Reply
            }
        }),
{
    assert(data.subrange(0, 2) =~= data);
    if data[0] == 5 && data[1] == 0 {
        assert(data =~= seq![5u8, 0u8]);
    }
    if data[0] == 5 && data[1] == 2 {
        assert(data =~= seq![5u8, 2u8]);
    }
    if data[0] == 1 && data[1] == 0 {
        assert(data =~= seq![1u8, 0u8]);
    }
}

/// A datagram goes to its own destination, but to that of the flow where it names no
/// host. It goes out in a frame without anything before it; one that fits no frame is
/// dropped, and the end of the flow is the end of the association.
pub proof fn a_datagram_goes_where_it_says(
    flow: DestinationShape,
    datagram: DestinationShape,
    payload: Seq<u8>,
)
    ensures
        datagram.host != HostShape::Name(Seq::empty()) ==> effective_destination(flow, datagram)
            == datagram,
        datagram.host == HostShape::Name(Seq::empty()) ==> effective_destination(flow, datagram)
            == flow,
        outgoing_action(flow, None) is End,
        ({
            let to = if datagram.host == HostShape::Name(Seq::empty()) {
                flow
            } else {
                datagram
            };
            let (result, frame) = framed_datagram(Seq::empty(), to, payload);
            outgoing_action(flow, Some((datagram, payload))) == if result is Ok {
                RelayActionShape::Send(frame)
            } else {
                RelayActionShape::Continue
            }
        }),
{
    if let HostShape::Name(name) = datagram.host {
        if name.len() == 0 {
            assert(name =~= Seq::empty());
        }
    }
}

/// A frame from the relay is handed on as its source and payload, a bad one is dropped,
/// and the end of the frames is the end of the association.
pub proof fn a_frame_is_handed_on_or_dropped(frame: Seq<u8>)
    ensures
        incoming_action(None) is End,
        read_datagram(frame) matches Ok((source, payload)) ==> incoming_action(Some(frame))
            == RelayActionShape::Deliver(source, payload),
        read_datagram(frame) is Err ==> incoming_action(Some(frame)) is Continue,
{
}

/// What reads in a row leave of an allowance, or nothing where the association has ended.
pub open spec fn left_of(slack: int, reads: Seq<usize>) -> Option<int>
    decreases reads.len(),
{
    if reads.len() == 0 {
        Some(slack)
    } else if control_action(slack, Some(reads[0])) is End {
        None
    } else {
        left_of(slack_after(slack, reads[0] as int), reads.drop_first())
    }
}

/// The bytes of reads in a row.
pub open spec fn total(reads: Seq<usize>) -> int
    decreases reads.len(),
{
    if reads.len() == 0 {
        0
    } else {
        reads[0] + total(reads.drop_first())
    }
}

/// An association lasts as long as its control connection has neither ended nor failed
/// nor sent as many bytes as its allowance.
pub proof fn the_control_connection_has_an_allowance(slack: int, reads: Seq<usize>)
    requires
        slack > 0,
    ensures
        control_action(slack, None) is End,
        total(reads) >= 0,
        left_of(slack, reads) == if (forall|i: int| 0 <= i < reads.len() ==> #[trigger] reads[i] > 0)
            && total(reads) < slack {
            Some(slack - total(reads))
        } else {
            None
        },
    decreases reads.len(),
{
    if reads.len() > 0 {
        let rest = reads.drop_first();
        let length = reads[0] as int;
        if length > 0 && length < slack {
            the_control_connection_has_an_allowance(slack - length, rest);
            assert((forall|i: int| 0 <= i < reads.len() ==> #[trigger] reads[i] > 0) <==> (forall|
                i: int,
            |
                0 <= i < rest.len() ==> #[trigger] rest[i] > 0)) by {
                if forall|i: int| 0 <= i < rest.len() ==> #[trigger] rest[i] > 0 {
                    assert forall|i: int| 0 <= i < reads.len() implies #[trigger] reads[i] > 0 by {
                        if i > 0 {
                            assert(reads[i] == rest[i - 1]);
                        }
                    }
                }
                if forall|i: int| 0 <= i < reads.len() ==> #[trigger] reads[i] > 0 {
                    assert forall|i: int| 0 <= i < rest.len() implies #[trigger] rest[i] > 0 by {
                        assert(rest[i] == reads[i + 1]);
                    }
                }
            }
        } else {
            the_control_connection_has_an_allowance(1, rest);
        }
    }
}

/// A relay is where the server says, with a name that spells an address read as one; on
/// the server's own host where it names an address of zeros only; and nowhere on port 0.
pub proof fn a_relay_is_where_the_server_says(bound: DestinationShape, server: HostShape)
    ensures
        bound.port == 0 ==> relay_of(bound, server) is Err,
        bound.port != 0 ==> (relay_of(bound, server) matches Ok(relay) && relay.port == bound.port),
        bound.port != 0 && (bound.host == HostShape::V4(seq![0u8, 0u8, 0u8, 0u8]) || bound.host
            == HostShape::V6(Seq::new(16, |i: int| 0u8))) ==> relay_of(bound, server)->Ok_0.host
            == server,
        bound.port != 0 && (bound.host matches HostShape::V4(octets) && octets.len() == 4 && octets
            != seq![0u8, 0u8, 0u8, 0u8]) ==> relay_of(bound, server)->Ok_0.host == bound.host,
        bound.port != 0 && (bound.host matches HostShape::V6(octets) && octets.len() == 16 && octets
            != Seq::new(16, |i: int| 0u8)) ==> relay_of(bound, server)->Ok_0.host == bound.host,
        bound.host is Name ==> relay_of(bound, server) == relay_of(
            DestinationShape { host: bound.host.read(), port: bound.port },
            server,
        ),
{
    match bound.host {
        HostShape::V4(octets) => {
            let zeros = seq![0u8, 0u8, 0u8, 0u8];
            if octets.len() == 4 && octets != zeros {
                if all_zero(octets) {
                    assert(octets =~= zeros);
                }
            }
        },
        HostShape::V6(octets) => {
            let zeros = Seq::new(16, |i: int| 0u8);
            if octets.len() == 16 && octets != zeros {
                if all_zero(octets) {
                    assert(octets =~= zeros);
                }
            }
        },
        HostShape::Name(_) => {},
    }
}

} // verus!
