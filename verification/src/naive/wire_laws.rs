//! What goes over the wire and what comes of it: frames, headers, answers and leases,
//! in bytes and plain numbers.
use crate::naive::connect::{config_fault, NaiveConfig};
use crate::naive::error::NaiveFault;
use crate::naive::padding::{frame, frame_length, header_value, sixteen_to, NONINDEX_CODES};
use crate::naive::request::{
    answer_verdict, authority_of, authorization, blank, chosen_padding, credentials_fit_a_header,
    request_of, target_fault, trimmed_back, trimmed_front, visible, PaddingType,
};
use crate::naive::session::{
    advertised, first_with_room, going_away, place_of, released, reserved, staying, with_session,
    PoolShape, Session,
};
use crate::naive::stream::{after_write, PaddedShape, WriteStep};
use crate::octets::read16;
use crate::address_text::ipv6_of;
use crate::text::{base64_of, decimal};
use crate::text_laws::{a_numeral_reads_back, number_read};
use vstd::prelude::*;
use vstd::string::*;
use vstd::utf8::{encode_utf8, is_ascii_chars, is_ascii_chars_encode_utf8};

verus! {

/// A frame is the length of its payload in two bytes, that of its padding in one, the
/// payload, and as many zeros.
pub proof fn a_frame_counts_its_payload_and_its_padding(payload: Seq<u8>, padding: u8)
    requires
        payload.len() <= 65535,
    ensures
        ({
            let bytes = frame(payload, padding);
            let end = 3 + payload.len() as int;
            &&& read16(bytes, 0) == payload.len()
            &&& bytes[2] == padding
            &&& bytes.subrange(3, end) == payload
            &&& bytes.len() == end + padding
            &&& forall|i: int| end <= i < bytes.len() ==> #[trigger] bytes[i] == 0
        }),
{
    let bytes = frame(payload, padding);
    let end = 3 + payload.len() as int;
    assert(bytes.subrange(3, end) =~= payload);
}

/// The first eight writes of a stream are framed, each with at most 65535 bytes, and every
/// later one goes out as it is. An empty write frames nothing.
pub proof fn the_first_eight_writes_are_framed(stream: PaddedShape, buffer: Seq<u8>, padding: u8)
    ensures
        ({
            let (step, after) = after_write(stream, buffer, padding);
            &&& buffer.len() == 0 ==> step == WriteStep::Framed(0) && after == stream
            &&& buffer.len() > 0 && stream.framer.written_frames >= 8 ==> step == WriteStep::Raw
                && after == stream
            &&& buffer.len() > 0 && stream.framer.written_frames < 8 ==> {
                let taken = if buffer.len() < 65535 {
                    buffer.len() as int
                } else {
                    65535
                };
                &&& step == WriteStep::Framed(taken as usize)
                &&& after.pending == stream.pending + frame(buffer.take(taken), padding)
                &&& after.framer.written_frames == stream.framer.written_frames + 1
                &&& after.decoded == stream.decoded
            }
        }),
{
    let taken = frame_length(buffer.len() as int);
    assert(buffer.subrange(0, taken) =~= buffer.take(taken));
}

/// The seventeen symbols of a padding header: none that a table of HPACK holds or that
/// takes fewer than eight bits there.
pub open spec fn long_symbols() -> Seq<u8> {
    seq![
        33u8, 34u8, 35u8, 36u8, 38u8, 39u8, 40u8, 41u8, 42u8, 43u8, 44u8, 59u8, 60u8, 62u8, 63u8,
        64u8, 88u8,
    ]
}

/// A padding header has one symbol for each half byte of its seed, lowest first, and is
/// filled up with the last symbol.
pub proof fn a_padding_header_spells_its_seed(seed: u64, length: nat)
    ensures
        ({
            let value = header_value(seed, length);
            &&& value.len() == length
            &&& forall|i: int|
                0 <= i < length && i < 16 ==> #[trigger] value[i] == long_symbols()[(seed as int
                    / sixteen_to(i as nat) as int) % 16]
            &&& forall|i: int| 16 <= i < length ==> #[trigger] value[i] == 88
        }),
{
    assert(NONINDEX_CODES@ =~= long_symbols());
}

/// The powers of sixteen.
pub proof fn the_powers_of_sixteen(exponent: nat)
    ensures
        sixteen_to(0) == 1,
        sixteen_to(exponent + 1) == 16 * sixteen_to(exponent),
{
}

/// A request is a CONNECT to the authority with the padding types 1 and 0 in order of
/// preference, padding, and the authorization where there is one, and with nothing else.
pub proof fn a_request_is_a_connect_with_padding(
    authority: Seq<char>,
    parts: Option<(bool, bool, Option<Seq<char>>)>,
    authorization: Option<Result<Seq<u8>, NaiveFault>>,
    length: nat,
    seed: u64,
)
    ensures
        request_of(authority, parts, authorization, length, seed) matches Ok(request) ==> {
            &&& request.method == "CONNECT"@
            &&& request.authority == authority
            &&& request.headers.len() == 2 + (if authorization is Some {
                1int
            } else {
                0
            })
            &&& request.headers[0] == ("padding-type-request"@, encode_utf8("1, 0"@))
            &&& request.headers[1] == ("padding"@, header_value(seed, length))
            &&& authorization matches Some(Ok(value)) ==> request.headers[2] == (
                "proxy-authorization"@,
                value,
            )
        },
        request_of(authority, parts, authorization, length, seed) is Ok <==> !(authorization
            matches Some(Err(_))) && (parts matches Some((scheme, path, Some(host))) && !scheme
            && !path && host.len() > 0),
{
}

/// Whether bytes are one byte with blanks around it.
pub open spec fn one_in_blanks(value: Seq<u8>, byte: u8) -> bool {
    exists|at: int|
        {
            &&& 0 <= at < value.len()
            &&& #[trigger] value[at] == byte
            &&& forall|i: int| 0 <= i < value.len() && i != at ==> blank(#[trigger] value[i])
        }
}

proof fn lemma_trimmed_front(bytes: Seq<u8>) -> (from: int)
    ensures
        0 <= from <= bytes.len(),
        trimmed_front(bytes) == bytes.skip(from),
        forall|i: int| 0 <= i < from ==> blank(#[trigger] bytes[i]),
        from < bytes.len() ==> !blank(bytes[from]),
    decreases bytes.len(),
{
    if bytes.len() > 0 && blank(bytes[0]) {
        let rest = bytes.subrange(1, bytes.len() as int);
        let from = lemma_trimmed_front(rest);
        assert(rest.skip(from) =~= bytes.skip(from + 1));
        assert forall|i: int| 0 <= i < from + 1 implies blank(#[trigger] bytes[i]) by {
            if i > 0 {
                assert(rest[i - 1] == bytes[i]);
            }
        }
        from + 1
    } else {
        assert(bytes.skip(0) =~= bytes);
        0
    }
}

proof fn lemma_trimmed_back(bytes: Seq<u8>) -> (to: int)
    ensures
        0 <= to <= bytes.len(),
        trimmed_back(bytes) == bytes.take(to),
        forall|i: int| to <= i < bytes.len() ==> blank(#[trigger] bytes[i]),
        to > 0 ==> !blank(bytes[to - 1]),
    decreases bytes.len(),
{
    if bytes.len() > 0 && blank(bytes.last()) {
        let front = bytes.drop_last();
        let to = lemma_trimmed_back(front);
        assert(front.take(to) =~= bytes.take(to));
        assert forall|i: int| to <= i < bytes.len() implies blank(#[trigger] bytes[i]) by {
            if i < front.len() {
                assert(front[i] == bytes[i]);
            }
        }
        to
    } else {
        assert(bytes.take(bytes.len() as int) =~= bytes);
        bytes.len() as int
    }
}

proof fn lemma_one_in_blanks(value: Seq<u8>, byte: u8)
    requires
        !blank(byte),
    ensures
        trimmed_back(trimmed_front(value)) =~= seq![byte] <==> one_in_blanks(value, byte),
{
    let from = lemma_trimmed_front(value);
    let front = value.skip(from);
    let to = lemma_trimmed_back(front);
    let text = front.take(to);
    if text =~= seq![byte] {
        assert(to == 1);
        assert(text[0] == byte);
        assert(value[from] == byte);
        assert forall|i: int| 0 <= i < value.len() && i != from implies blank(
            #[trigger] value[i],
        ) by {
            if i > from {
                assert(front[i - from] == value[i]);
            }
        }
        assert(one_in_blanks(value, byte));
    }
    if one_in_blanks(value, byte) {
        let at = choose|at: int|
            {
                &&& 0 <= at < value.len()
                &&& #[trigger] value[at] == byte
                &&& forall|i: int| 0 <= i < value.len() && i != at ==> blank(#[trigger] value[i])
            };
        assert(from == at) by {
            if from < at {
                assert(blank(value[from]));
            }
            if from > at {
                assert(blank(value[at]));
            }
        }
        assert(front[0] == byte);
        assert(to == 1) by {
            if to > 1 {
                assert(front[to - 1] == value[from + to - 1]);
            }
            if to == 0 {
                assert(blank(front[0]));
            }
        }
        assert(text =~= seq![byte]);
    }
}

/// What the server chooses: its reply decides where there is one, a one between blanks for
/// padding and a zero between blanks for none; and without a reply a padding header means
/// padding.
pub proof fn the_reply_decides_about_padding(reply: Seq<u8>, padding: bool)
    requires
        forall|i: int| 0 <= i < reply.len() ==> visible(#[trigger] reply[i]),
    ensures
        chosen_padding(Some(reply), padding) == Ok::<PaddingType, NaiveFault>(PaddingType::Variant1)
            <==> one_in_blanks(reply, 49),
        chosen_padding(Some(reply), padding) == Ok::<PaddingType, NaiveFault>(PaddingType::Unpadded)
            <==> one_in_blanks(reply, 48),
        chosen_padding(None, true) == Ok::<PaddingType, NaiveFault>(PaddingType::Variant1),
        chosen_padding(None, false) == Ok::<PaddingType, NaiveFault>(PaddingType::Unpadded),
{
    lemma_one_in_blanks(reply, 48);
    lemma_one_in_blanks(reply, 49);
    let text = trimmed_back(trimmed_front(reply));
    if text =~= seq![48u8] {
        assert(text[0] == 48);
        if text =~= seq![49u8] {
            assert(text[0] == 49);
        }
    }
}

/// Only a status from 200 to 299 opens a tunnel, any other is reported as it came, and the
/// tunnel is padded where padding is required.
pub proof fn only_a_success_opens_a_tunnel(
    status: u16,
    reply: Option<Seq<u8>>,
    padding: bool,
    required: bool,
)
    ensures
        !(200 <= status <= 299) ==> answer_verdict(status, reply, padding, required) == Err::<
            PaddingType,
            NaiveFault,
        >(NaiveFault::Status(status)),
        200 <= status <= 299 && !required ==> answer_verdict(status, reply, padding, required)
            == chosen_padding(reply, padding),
        200 <= status <= 299 && required ==> answer_verdict(status, reply, padding, required) == (
        match chosen_padding(reply, padding) {
            Ok(PaddingType::Variant1) => Ok::<PaddingType, NaiveFault>(PaddingType::Variant1),
            Ok(PaddingType::Unpadded) => Err(NaiveFault::PaddingRefused),
            Err(fault) => Err(fault),
        }),
{
}

/// A configuration is taken where TLS is on, the protocols are none or h2 alone, both or
/// neither of the credentials are there and the password is not empty, and there is time
/// for a handshake.
pub proof fn a_configuration_is_complete(config: NaiveConfig)
    ensures
        config_fault(config) is None <==> {
            &&& config.tls_enabled
            &&& config.alpn@.len() == 0 || (config.alpn@.len() == 1 && config.alpn@[0]@ == "h2"@)
            &&& config.username is Some <==> config.password is Some
            &&& config.password matches Some(password) ==> password@.len() > 0
            &&& config.handshake_timeout_ms > 0
        },
{
}

/// A reservation takes the first connection that does not go away and carries fewer
/// streams than it takes, adds one stream to it, and drops those that go away.
pub proof fn a_reservation_takes_the_first_with_room(pool: PoolShape, at: int)
    requires
        0 <= at < pool.sessions.len(),
        !pool.sessions[at].retired,
        pool.sessions[at].in_flight < pool.sessions[at].limit,
        pool.sessions[at].in_flight < usize::MAX,
        forall|i: int|
            0 <= i < at ==> (#[trigger] pool.sessions[i]).retired || (pool.sessions[i].in_flight
                >= pool.sessions[i].limit && pool.sessions[i].in_flight >= 1),
    ensures
        reserved(pool).0 == Some(pool.sessions[at].id),
        exists|place: int|
            {
                &&& 0 <= place < reserved(pool).1.sessions.len()
                &&& #[trigger] reserved(pool).1.sessions[place] == (Session {
                    in_flight: (pool.sessions[at].in_flight + 1) as usize,
                    ..pool.sessions[at]
                })
            },
{
    let n = pool.sessions.len();
    let place = lemma_place(pool.sessions, at, n);
    let sessions = staying(pool.sessions, n);
    lemma_first(sessions, place, 0);
    assert(reserved(pool).1.sessions[place] == sessions[place].leased());
}

proof fn lemma_place(sessions: Seq<Session>, at: int, n: nat) -> (place: int)
    requires
        0 <= at < n <= sessions.len(),
        !sessions[at].retired,
        forall|i: int|
            0 <= i < at ==> (#[trigger] sessions[i]).retired || !sessions[i].has_room(),
    ensures
        0 <= place < staying(sessions, n).len(),
        staying(sessions, n)[place] == sessions[at],
        forall|i: int| 0 <= i < place ==> !(#[trigger] staying(sessions, n)[i]).has_room(),
    decreases n,
{
    if at == n - 1 {
        lemma_roomless(sessions, at as nat);
        staying(sessions, at as nat).len() as int
    } else {
        let place = lemma_place(sessions, at, (n - 1) as nat);
        let before = staying(sessions, (n - 1) as nat);
        let after = staying(sessions, n);
        assert forall|i: int| 0 <= i < place implies !(#[trigger] after[i]).has_room() by {
            assert(after[i] == before[i]);
        }
        place
    }
}

proof fn lemma_roomless(sessions: Seq<Session>, n: nat)
    requires
        n <= sessions.len(),
        forall|i: int| 0 <= i < n ==> (#[trigger] sessions[i]).retired || !sessions[i].has_room(),
    ensures
        forall|i: int|
            0 <= i < staying(sessions, n).len() ==> !(#[trigger] staying(
                sessions,
                n,
            )[i]).has_room(),
    decreases n,
{
    if n > 0 {
        lemma_roomless(sessions, (n - 1) as nat);
        let before = staying(sessions, (n - 1) as nat);
        let after = staying(sessions, n);
        assert forall|i: int| 0 <= i < after.len() implies !(#[trigger] after[i]).has_room() by {
            if i < before.len() {
                assert(after[i] == before[i]);
            }
        }
    }
}

proof fn lemma_first(sessions: Seq<Session>, place: int, from: int)
    requires
        0 <= from <= place < sessions.len(),
        sessions[place].has_room(),
        forall|i: int| 0 <= i < place ==> !(#[trigger] sessions[i]).has_room(),
    ensures
        first_with_room(sessions, from) == Some(place),
    decreases place - from,
{
    if from < place {
        lemma_first(sessions, place, from + 1);
    }
}

/// What happens to one connection happens to it alone: a stream that ends is one less, down
/// to none; a connection that goes away is marked; and what its peer allows, at least one
/// stream and at most 128, becomes its limit.
pub proof fn a_change_is_to_one_connection(pool: PoolShape, at: int, streams: usize)
    requires
        0 <= at < pool.sessions.len(),
        forall|i: int|
            0 <= i < at ==> (#[trigger] pool.sessions[i]).id != pool.sessions[at].id,
    ensures
        ({
            let id = pool.sessions[at].id;
            let before = pool.sessions[at];
            &&& with_session(pool, id, released()) == (PoolShape {
                sessions: pool.sessions.update(
                    at,
                    Session {
                        in_flight: if before.in_flight > 0 {
                            (before.in_flight - 1) as usize
                        } else {
                            0
                        },
                        ..before
                    },
                ),
                ..pool
            })
            &&& with_session(pool, id, going_away()) == (PoolShape {
                sessions: pool.sessions.update(at, Session { retired: true, ..before }),
                ..pool
            })
            &&& with_session(pool, id, advertised(streams)) == (PoolShape {
                sessions: pool.sessions.update(
                    at,
                    Session {
                        limit: if streams < 1 {
                            1
                        } else if streams > 128 {
                            128
                        } else {
                            streams
                        },
                        ..before
                    },
                ),
                ..pool
            })
        }),
{
    lemma_place_of(pool.sessions, at, 0);
}

proof fn lemma_place_of(sessions: Seq<Session>, at: int, from: int)
    requires
        0 <= from <= at < sessions.len(),
        forall|i: int| 0 <= i < at ==> (#[trigger] sessions[i]).id != sessions[at].id,
    ensures
        place_of(sessions, sessions[at].id, from) == Some(at),
    decreases at - from,
{
    if from < at {
        lemma_place_of(sessions, at, from + 1);
    }
}

/// An authority is a host, a colon and a port in decimal, with the host in brackets where
/// it is an IPv6 address.
pub proof fn an_authority_is_host_and_port(host: Seq<char>, port: u16)
    ensures
        ({
            let text = authority_of(host, port);
            let digits = decimal(port as nat);
            let front = text.take(text.len() - digits.len() - 1);
            &&& text.len() > digits.len()
            &&& text.skip(text.len() - digits.len()) == digits
            &&& number_read(digits) == port
            &&& text[text.len() - digits.len() - 1] == ':'
            &&& ipv6_of(encode_utf8(host)) is Some ==> front == seq!['['] + host + seq![']']
            &&& ipv6_of(encode_utf8(host)) is None ==> front == host
        }),
{
    reveal_strlit("[");
    reveal_strlit("]:");
    reveal_strlit(":");
    a_numeral_reads_back(port as nat);
    let text = authority_of(host, port);
    let digits = decimal(port as nat);
    assert(text.skip(text.len() - digits.len()) =~= digits);
    let front = text.take(text.len() - digits.len() - 1);
    if ipv6_of(encode_utf8(host)) is Some {
        assert(front =~= seq!['['] + host + seq![']']);
    } else {
        assert(front =~= host);
    }
}

/// Credentials go out as `Basic`, a blank, and the base64 of the name, a colon and the
/// password. A name with a colon is refused.
pub proof fn credentials_are_name_colon_password(username: Seq<char>, password: Seq<char>)
    ensures
        username.contains(':') ==> authorization(username, password) is Err,
        !username.contains(':') ==> (authorization(username, password) matches Ok(value) && value
            == seq![0x42u8, 0x61u8, 0x73u8, 0x69u8, 0x63u8, 0x20u8] + encode_utf8(
            base64_of(encode_utf8(username) + seq![0x3au8] + encode_utf8(password)),
        )),
{
    credentials_fit_a_header(username, password);
    reveal_strlit("Basic ");
    assert(is_ascii_chars("Basic "@));
    is_ascii_chars_encode_utf8("Basic "@);
    assert(encode_utf8("Basic "@) =~= seq![0x42u8, 0x61u8, 0x73u8, 0x69u8, 0x63u8, 0x20u8]);
}

/// A target is a bare authority with a host: no scheme, no path, and a host that is not
/// empty.
pub proof fn a_target_is_a_bare_authority(scheme: bool, path: bool, host: Option<Seq<char>>)
    ensures
        target_fault(None) is Some,
        target_fault(Some((scheme, path, host))) is None <==> !scheme && !path && (host
            matches Some(name) && name.len() > 0),
{
}

} // verus!
