//! What the other side reads in a disguise: the ClientHello field by field and its
//! extensions one by one, and where the first response ends.
use crate::error::Fault;
use crate::octets::{be16, be32, read16, read24};
use crate::reality::hello_laws::{lemma_split_more, split_extensions, Extension};
use crate::reality::hello_reading::counted;
use crate::shadowsocks::outline::{
    chunk_of, datagram_fault, prefix_fault, CipherCategory, MethodShape, OpeningShape,
};
use crate::shadowsocks::simple_obfs::{
    after_write, disguised_hello, framed_length, header_end, hello_front, hello_name, hello_ticket,
    http_request, low16, parsed_header, terminator_at, InShape, ModeShape, ObfsDraws, OutShape,
    ReadState, APPLICATION_DATA, CIPHER_SUITES, OTHER_EXTENSIONS,
};
use crate::text::{base64_of, decimal};
use crate::text_laws::{a_numeral_reads_back, number_read};
use vstd::prelude::*;
use vstd::string::*;
use vstd::utf8::encode_utf8;

verus! {

/// The suites that the disguise offers.
#[verifier::opaque]
pub open spec fn disguise_suites() -> Seq<u8> {
    seq![
        0xc0u8, 0x2cu8, 0xc0u8, 0x30u8, 0x00u8, 0x9fu8, 0xccu8, 0xa9u8, 0xccu8, 0xa8u8, 0xccu8,
        0xaau8, 0xc0u8, 0x2bu8, 0xc0u8, 0x2fu8, 0x00u8, 0x9eu8, 0xc0u8, 0x24u8, 0xc0u8, 0x28u8,
        0x00u8, 0x6bu8, 0xc0u8, 0x23u8, 0xc0u8, 0x27u8, 0x00u8, 0x67u8, 0xc0u8, 0x0au8, 0xc0u8,
        0x14u8, 0x00u8, 0x39u8, 0xc0u8, 0x09u8, 0xc0u8, 0x13u8, 0x00u8, 0x33u8, 0x00u8, 0x9du8,
        0x00u8, 0x9cu8, 0x00u8, 0x3du8, 0x00u8, 0x3cu8, 0x00u8, 0x35u8, 0x00u8, 0x2fu8, 0x00u8,
        0xffu8,
    ]
}

/// The signature algorithms of the disguise, behind their length.
#[verifier::opaque]
pub open spec fn disguise_schemes() -> Seq<u8> {
    seq![
        0x00u8, 0x1eu8, 0x06u8, 0x01u8, 0x06u8, 0x02u8, 0x06u8, 0x03u8, 0x05u8, 0x01u8, 0x05u8,
        0x02u8, 0x05u8, 0x03u8, 0x04u8, 0x01u8, 0x04u8, 0x02u8, 0x04u8, 0x03u8, 0x03u8, 0x01u8,
        0x03u8, 0x02u8, 0x03u8, 0x03u8, 0x02u8, 0x01u8, 0x02u8, 0x02u8, 0x02u8, 0x03u8,
    ]
}

/// Whether extensions are those of a disguise: the session ticket with the payload,
/// the server name with the host, and then the point formats, the groups, the
/// signature algorithms, encrypt-then-MAC and the extended master secret.
pub open spec fn disguise_extensions(
    extensions: Seq<Extension>,
    host: Seq<u8>,
    payload: Seq<u8>,
) -> bool {
    &&& extensions.len() == 7
    &&& extensions[0] == (35u16, payload)
    &&& extensions[1].0 == 0
    &&& counted(extensions[1].1) matches Some(names)
    &&& names[0] == 0
    &&& counted(names.skip(1)) == Some(host)
    &&& extensions[2] == (11u16, seq![3u8, 1u8, 0u8, 2u8])
    &&& extensions[3] == (
        10u16,
        seq![0u8, 8u8, 0u8, 29u8, 0u8, 23u8, 0u8, 25u8, 0u8, 24u8],
    )
    &&& extensions[4] == (13u16, disguise_schemes())
    &&& extensions[5] == (22u16, Seq::<u8>::empty())
    &&& extensions[6] == (23u16, Seq::<u8>::empty())
}

spec fn extension(extension_type: u16, body: Seq<u8>) -> Seq<u8> {
    be16(extension_type) + be16(body.len() as u16) + body
}

spec fn fixed_extensions() -> Seq<u8> {
    extension(11, seq![3u8, 1u8, 0u8, 2u8]) + extension(
        10,
        seq![0u8, 8u8, 0u8, 29u8, 0u8, 23u8, 0u8, 25u8, 0u8, 24u8],
    ) + extension(13, disguise_schemes()) + extension(22, Seq::empty()) + extension(
        23,
        Seq::empty(),
    )
}

proof fn lemma_other_extensions()
    ensures
        OTHER_EXTENSIONS@ == fixed_extensions(),
        OTHER_EXTENSIONS@.len() == 66,
        disguise_schemes().len() == 32,
{
    reveal(disguise_schemes);
    let formats = extension(11, seq![3u8, 1u8, 0u8, 2u8]);
    let groups = extension(10, seq![0u8, 8u8, 0u8, 29u8, 0u8, 23u8, 0u8, 25u8, 0u8, 24u8]);
    let schemes = extension(13, disguise_schemes());
    let mac = extension(22, Seq::empty());
    let master = extension(23, Seq::empty());
    let all = OTHER_EXTENSIONS@;
    assert(all.len() == 66);
    assert(all.subrange(0, 8) =~= formats);
    assert(all.subrange(8, 22) =~= groups);
    assert(all.subrange(22, 58) =~= schemes);
    assert(all.subrange(58, 62) =~= mac);
    assert(all.subrange(62, 66) =~= master);
    assert(all =~= all.subrange(0, 8) + all.subrange(8, 22) + all.subrange(22, 58)
        + all.subrange(58, 62) + all.subrange(62, 66));
}

proof fn lemma_in_a_row(
    a: Seq<u8>,
    b: Seq<u8>,
    c: Seq<u8>,
    d: Seq<u8>,
    e: Seq<u8>,
    f: Seq<u8>,
    g: Seq<u8>,
)
    ensures
        a + (b + (c + d + e + f + g)) == Seq::<u8>::empty() + a + b + c + d + e + f + g,
{
    assert(a + (b + (c + d + e + f + g)) =~= Seq::<u8>::empty() + a + b + c + d + e + f + g);
}

proof fn lemma_seven(bodies: Seq<Seq<u8>>, types: Seq<u16>)
    requires
        bodies.len() == 7,
        types.len() == 7,
        forall|i: int| 0 <= i < 7 ==> (#[trigger] bodies[i]).len() <= 65535,
    ensures
        split_extensions(
            extension(types[0], bodies[0]) + (extension(types[1], bodies[1]) + (extension(
                types[2],
                bodies[2],
            ) + extension(types[3], bodies[3]) + extension(types[4], bodies[4]) + extension(
                types[5],
                bodies[5],
            ) + extension(types[6], bodies[6]))),
        ) == Some(
            Seq::<Extension>::empty().push((types[0], bodies[0])).push((types[1], bodies[1])).push(
                (types[2], bodies[2]),
            ).push((types[3], bodies[3])).push((types[4], bodies[4])).push(
                (types[5], bodies[5]),
            ).push((types[6], bodies[6])),
        ),
{
    let nothing = Seq::<u8>::empty();
    let b0 = nothing + extension(types[0], bodies[0]);
    let b1 = b0 + extension(types[1], bodies[1]);
    let b2 = b1 + extension(types[2], bodies[2]);
    let b3 = b2 + extension(types[3], bodies[3]);
    let b4 = b3 + extension(types[4], bodies[4]);
    let b5 = b4 + extension(types[5], bodies[5]);
    assert(split_extensions(nothing) == Some(Seq::<Extension>::empty()));
    lemma_split_more(nothing, types[0], bodies[0]);
    lemma_split_more(b0, types[1], bodies[1]);
    lemma_split_more(b1, types[2], bodies[2]);
    lemma_split_more(b2, types[3], bodies[3]);
    lemma_split_more(b3, types[4], bodies[4]);
    lemma_split_more(b4, types[5], bodies[5]);
    lemma_split_more(b5, types[6], bodies[6]);
    lemma_in_a_row(
        extension(types[0], bodies[0]),
        extension(types[1], bodies[1]),
        extension(types[2], bodies[2]),
        extension(types[3], bodies[3]),
        extension(types[4], bodies[4]),
        extension(types[5], bodies[5]),
        extension(types[6], bodies[6]),
    );
}

spec fn name_body(host: Seq<u8>) -> Seq<u8> {
    be16((host.len() + 3) as u16) + seq![0u8] + be16(host.len() as u16) + host
}

spec fn name_front(host: Seq<u8>) -> Seq<u8> {
    seq![0x00u8, 0x00u8] + low16(host.len() as int + 5) + low16(host.len() as int + 3) + seq![
        0x00u8,
    ] + low16(host.len() as int) + host
}

proof fn lemma_name_front(host: Seq<u8>)
    requires
        host.len() <= 65000,
    ensures
        name_front(host) == extension(0, name_body(host)),
        name_front(host).len() == 9 + host.len(),
        name_body(host).len() == host.len() + 5,
        counted(name_body(host)) matches Some(names) && names[0] == 0 && counted(names.skip(1))
            == Some(host),
{
    let body = name_body(host);
    let names = body.skip(2);
    let entry = names.skip(1);
    assert(body.len() == host.len() + 5);
    assert(body[0] == be16((host.len() + 3) as u16)[0] && body[1] == be16(
        (host.len() + 3) as u16,
    )[1]);
    assert(entry =~= be16(host.len() as u16) + host);
    assert(entry.skip(2) =~= host);
    assert(name_front(host) =~= extension(0, body));
}

#[verifier::spinoff_prover]
proof fn lemma_name(host: Seq<u8>)
    requires
        host.len() <= 65000,
    ensures
        hello_name(host) == extension(0, name_body(host)) + fixed_extensions(),
        hello_name(host).len() == 75 + host.len(),
        name_body(host).len() == host.len() + 5,
        counted(name_body(host)) matches Some(names) && names[0] == 0 && counted(names.skip(1))
            == Some(host),
{
    lemma_name_front(host);
    lemma_other_extensions();
    assert(hello_name(host) == name_front(host) + OTHER_EXTENSIONS@);
}

proof fn lemma_schemes()
    ensures
        disguise_schemes().len() == 32,
{
    reveal(disguise_schemes);
}

proof fn lemma_block(host: Seq<u8>, payload: Seq<u8>, name: Seq<u8>)
    requires
        payload.len() + host.len() <= 65000,
        name == extension(0, name_body(host)) + fixed_extensions(),
        name_body(host).len() == host.len() + 5,
        counted(name_body(host)) matches Some(names) && names[0] == 0 && counted(names.skip(1))
            == Some(host),
    ensures
        split_extensions(extension(35, payload) + name) matches Some(extensions)
            && disguise_extensions(extensions, host, payload),
{
    let nothing = Seq::<u8>::empty();
    let groups = seq![0u8, 8u8, 0u8, 29u8, 0u8, 23u8, 0u8, 25u8, 0u8, 24u8];
    let formats = seq![3u8, 1u8, 0u8, 2u8];
    lemma_schemes();
    let bodies = seq![payload, name_body(host), formats, groups, disguise_schemes(), nothing, nothing];
    let types = seq![35u16, 0u16, 11u16, 10u16, 13u16, 22u16, 23u16];
    lemma_seven(bodies, types);
}

/// What holds of a disguise, put together from its front, its ticket and its name.
proof fn lemma_assembled(front: Seq<u8>, payload: Seq<u8>, name: Seq<u8>, total: int)
    requires
        front.len() == 134,
        217 <= total <= 65535,
        name.len() == total - 142 - payload.len(),
        read16(front, 76) == 56,
        payload.len() <= 65000,
    ensures
        ({
            let opening = seq![0x01u8, 0x00u8] + low16(total - 138);
            let hello = front + (opening + extension(35, payload)) + name;
            &&& hello.len() == total
            &&& hello.take(134) == front
            &&& hello[134] == 1 && hello[135] == 0
            &&& read16(hello, 136) == total - 138
            &&& read16(hello, 138) == 35
            &&& read16(hello, 140) == payload.len()
            &&& hello.skip(138) == extension(35, payload) + name
        }),
{
    let opening = seq![0x01u8, 0x00u8] + low16(total - 138);
    let ticket = extension(35, payload);
    let hello = front + (opening + ticket) + name;
    assert(opening.len() == 4 && opening[2] == low16(total - 138)[0] && opening[3] == low16(
        total - 138,
    )[1]);
    assert(ticket.len() == 4 + payload.len());
    assert(hello.take(134) =~= front);
    assert(hello[134] == opening[0] && hello[135] == opening[1] && hello[136] == opening[2]
        && hello[137] == opening[3]);
    assert(hello[138] == ticket[0] && hello[139] == ticket[1] && hello[140] == ticket[2]
        && hello[141] == ticket[3]);
    assert(hello.skip(138) =~= ticket + name);
}

proof fn lemma_fields(hello: Seq<u8>, front: Seq<u8>)
    requires
        front.len() == 134,
        hello.len() >= 134,
        hello.take(134) == front,
        read16(front, 76) == 56,
    ensures
        forall|i: int| 0 <= i < 134 ==> hello[i] == #[trigger] front[i],
        hello.take(3) == front.take(3),
        hello.subrange(11, 15) == front.subrange(11, 15),
        hello.subrange(15, 43) == front.subrange(15, 43),
        hello.subrange(44, 76) == front.subrange(44, 76),
        counted(hello.subrange(76, 134)) == Some(front.subrange(78, 134)),
{
    assert forall|i: int| 0 <= i < 134 implies hello[i] == #[trigger] front[i] by {
        assert(hello.take(134)[i] == front[i]);
    }
    assert(hello.take(3) =~= front.take(3));
    assert(hello.subrange(11, 15) =~= front.subrange(11, 15));
    assert(hello.subrange(15, 43) =~= front.subrange(15, 43));
    assert(hello.subrange(44, 76) =~= front.subrange(44, 76));
    let list = hello.subrange(76, 134);
    assert(list[0] == front[76] && list[1] == front[77]);
    assert(list.skip(2) =~= front.subrange(78, 134));
}

proof fn lemma_ticket(total: int, payload: Seq<u8>)
    requires
        217 <= total <= 65535,
        payload.len() <= 65000,
    ensures
        hello_ticket(total, payload) == (seq![0x01u8, 0x00u8] + low16(total - 138)) + extension(
            35,
            payload,
        ),
{
    assert(hello_ticket(total, payload) =~= (seq![0x01u8, 0x00u8] + low16(total - 138))
        + extension(35, payload));
}

proof fn lemma_front(total: int, draws: ObfsDraws)
    requires
        217 <= total <= 65535,
    ensures
        ({
            let front = hello_front(total, draws);
            &&& front.len() == 134
            &&& front.take(3) == seq![22u8, 3u8, 1u8]
            &&& read16(front, 3) == total - 5
            &&& front[5] == 1
            &&& read24(front, 6) == total - 9
            &&& front[9] == 3 && front[10] == 3
            &&& front.subrange(11, 15) == be32(draws.time)
            &&& front.subrange(15, 43) == draws.random@
            &&& front[43] == 32
            &&& front.subrange(44, 76) == draws.session_id@
            &&& read16(front, 76) == 56
            &&& front.subrange(78, 134) == disguise_suites()
        }),
{
    let front = hello_front(total, draws);
    let start = seq![0x16u8, 0x03u8, 0x01u8] + low16(total - 5) + seq![0x01u8, 0x00u8] + low16(
        total - 9,
    ) + seq![0x03u8, 0x03u8];
    assert(start.len() == 11);
    assert(start[3] == low16(total - 5)[0] && start[4] == low16(total - 5)[1]);
    assert(start[7] == low16(total - 9)[0] && start[8] == low16(total - 9)[1]);
    let randoms = be32(draws.time) + draws.random@ + seq![32u8] + draws.session_id@;
    assert(randoms.len() == 65);
    let suites = be16(56) + CIPHER_SUITES@;
    reveal(disguise_suites);
    assert(CIPHER_SUITES@ =~= disguise_suites());
    assert(front =~= start + randoms + suites);
    assert(front.take(3) =~= seq![22u8, 3u8, 1u8]);
    assert(randoms.subrange(0, 4) =~= be32(draws.time));
    assert(randoms.subrange(4, 32) =~= draws.random@);
    assert(randoms.subrange(33, 65) =~= draws.session_id@);
    assert(front.subrange(11, 15) =~= randoms.subrange(0, 4));
    assert(front.subrange(15, 43) =~= randoms.subrange(4, 32));
    assert(front.subrange(44, 76) =~= randoms.subrange(33, 65));
    assert(front[43] == randoms[32]);
    assert(front[76] == suites[0] && front[77] == suites[1]);
    assert(front.subrange(78, 134) =~= CIPHER_SUITES@);
}

/// The disguise reads as a ClientHello from its first byte to its last: one handshake
/// record of TLS 1.0 with one message, whose lengths count what is there; the time and
/// the random values as they were drawn; the suites, no compression; and extensions
/// that fill it, the session ticket with the payload first and the server name with
/// the host behind it.
#[verifier::spinoff_prover]
pub proof fn the_disguise_reads_as_a_hello(host: Seq<u8>, payload: Seq<u8>, draws: ObfsDraws)
    requires
        payload.len() + host.len() <= 65000,
    ensures
        ({
            let hello = disguised_hello(host, payload, draws);
            &&& hello.take(3) == seq![22u8, 3u8, 1u8]
            &&& read16(hello, 3) == hello.len() - 5
            &&& hello[5] == 1
            &&& read24(hello, 6) == hello.len() - 9
            &&& hello[9] == 3 && hello[10] == 3
            &&& hello.subrange(11, 15) == be32(draws.time)
            &&& hello.subrange(15, 43) == draws.random@
            &&& hello[43] == 32
            &&& hello.subrange(44, 76) == draws.session_id@
            &&& counted(hello.subrange(76, 134)) == Some(disguise_suites())
            &&& hello[134] == 1 && hello[135] == 0
            &&& read16(hello, 136) == hello.len() - 138
            &&& read16(hello, 138) == 35
            &&& read16(hello, 140) == payload.len()
            &&& split_extensions(hello.skip(138)) matches Some(extensions)
            &&& disguise_extensions(extensions, host, payload)
        }),
{
    let total = 217int + payload.len() + host.len();
    let front = hello_front(total, draws);
    let name = hello_name(host);
    lemma_front(total, draws);
    lemma_name(host);
    lemma_ticket(total, payload);
    lemma_block(host, payload, name);
    lemma_assembled(front, payload, name, total);
    lemma_fields(disguised_hello(host, payload, draws), front);
}

/// The header of a response ends behind its first empty line: carriage return and line
/// feed twice in a row, and no such place before.
pub proof fn a_header_ends_at_its_first_empty_line(bytes: Seq<u8>, from: int)
    requires
        0 <= from,
    ensures
        header_end(bytes, from) matches Some(end) ==> {
            &&& from + 4 <= end <= bytes.len()
            &&& bytes.subrange(end - 4, end) == seq![13u8, 10u8, 13u8, 10u8]
            &&& forall|at: int|
                from <= at < end - 4 ==> #[trigger] bytes.subrange(at, at + 4) != seq![
                    13u8,
                    10u8,
                    13u8,
                    10u8,
                ]
        },
        header_end(bytes, from) is None ==> forall|at: int|
            from <= at <= bytes.len() - 4 ==> #[trigger] bytes.subrange(at, at + 4) != seq![
                13u8,
                10u8,
                13u8,
                10u8,
            ],
    decreases bytes.len() - from,
{
    let blank = seq![13u8, 10u8, 13u8, 10u8];
    if from + 4 <= bytes.len() {
        let here = bytes.subrange(from, from + 4);
        if terminator_at(bytes, from) {
            assert(here =~= blank);
        } else {
            a_header_ends_at_its_first_empty_line(bytes, from + 1);
            assert(here != blank) by {
                if here == blank {
                    assert(here[0] == 13 && here[1] == 10 && here[2] == 13 && here[3] == 10);
                }
            }
        }
    }
}

/// What stands before the first payload of a TLS response: 107 bytes, of which the
/// last two count the payload. They are taken for a response where the first record
/// and the last one are handshake records, the last of TLS 1.2. A record afterwards
/// has five bytes before its payload, is application data of TLS 1.2, and counts at
/// most 16384 bytes.
pub proof fn payloads_are_counted_by_the_bytes_before_them(reading: InShape)
    ensures
        reading.state is TlsFirstResponse && reading.inbox.len() >= 107 ==> {
            let inbox = reading.inbox;
            let (result, next) = parsed_header(reading);
            &&& next.inbox == inbox.skip(107)
            &&& result is Ok <==> inbox[0] == 22 && inbox.subrange(102, 105) == seq![22u8, 3u8, 3u8]
            &&& result is Ok ==> next.state == (ReadState::Payload {
                remaining: (inbox[105] * 256 + inbox[106]) as usize,
            })
        },
        reading.state is TlsRecordHeader && reading.inbox.len() >= 5 ==> {
            let inbox = reading.inbox;
            let (result, next) = parsed_header(reading);
            &&& next.inbox == inbox.skip(5)
            &&& result is Ok <==> inbox.take(3) == seq![23u8, 3u8, 3u8] && inbox[3] * 256 + inbox[4]
                <= 16384
            &&& result is Ok ==> next.state == (ReadState::Payload {
                remaining: (inbox[3] * 256 + inbox[4]) as usize,
            })
        },
        (reading.state is TlsFirstResponse && reading.inbox.len() < 107) || (
        reading.state is TlsRecordHeader && reading.inbox.len() < 5) ==> parsed_header(reading) == (
            Ok::<bool, Fault>(false),
            reading,
        ),
{
    let inbox = reading.inbox;
    if reading.state is TlsFirstResponse && inbox.len() >= 107 {
        let mark = inbox.subrange(102, 105);
        assert(mark[0] == inbox[102] && mark[1] == inbox[103] && mark[2] == inbox[104]);
        if inbox[102] == 22 && inbox[103] == 3 && inbox[104] == 3 {
            assert(mark =~= seq![22u8, 3u8, 3u8]);
        }
        assert(inbox.subrange(107, inbox.len() as int) =~= inbox.skip(107));
    }
    if reading.state is TlsRecordHeader && inbox.len() >= 5 {
        let mark = inbox.take(3);
        assert(mark[0] == inbox[0] && mark[1] == inbox[1] && mark[2] == inbox[2]);
        if inbox[0] == 23 && inbox[1] == 3 && inbox[2] == 3 {
            assert(mark =~= seq![23u8, 3u8, 3u8]);
        }
        assert(inbox.subrange(5, inbox.len() as int) =~= inbox.skip(5));
    }
}

/// The request that the first payload hides behind asks the host for an upgrade: its port
/// stands behind the host unless it is 80, and the length that it announces is that of the
/// payload. It ends in an empty line.
pub proof fn the_request_announces_the_payload(
    host: Seq<char>,
    uri: Seq<char>,
    method: Seq<char>,
    port: u16,
    draws: ObfsDraws,
    length: nat,
)
    ensures
        exists|authority: Seq<char>, minor: Seq<char>, patch: Seq<char>, count: Seq<char>|
            {
                &&& port == 80 ==> authority == host
                &&& port != 80 ==> authority.len() > host.len() && authority.take(
                    host.len() as int,
                ) == host && authority[host.len() as int] == ':' && number_read(
                    authority.skip(host.len() + 1int),
                ) == port
                &&& number_read(minor) == draws.minor
                &&& number_read(patch) == draws.patch
                &&& number_read(count) == length
                &&& http_request(host, uri, method, port, draws, length)
                    == #[trigger] request_text(
                    method,
                    uri,
                    authority,
                    minor,
                    patch,
                    base64_of(draws.key@),
                    count,
                )
            },
{
    let authority = if port == 80 {
        host
    } else {
        host + ":"@ + decimal(port as nat)
    };
    let minor = decimal(draws.minor as nat);
    let patch = decimal(draws.patch as nat);
    let count = decimal(length);
    a_numeral_reads_back(port as nat);
    a_numeral_reads_back(draws.minor as nat);
    a_numeral_reads_back(draws.patch as nat);
    a_numeral_reads_back(length);
    reveal_strlit(":");
    if port != 80 {
        assert(authority.take(host.len() as int) =~= host);
        assert(authority.skip(host.len() + 1int) =~= decimal(port as nat));
    }
    let text = request_text(method, uri, authority, minor, patch, base64_of(draws.key@), count);
    assert(http_request(host, uri, method, port, draws, length) =~= text);
}

/// A request for an upgrade to a WebSocket.
pub open spec fn request_text(
    method: Seq<char>,
    uri: Seq<char>,
    authority: Seq<char>,
    minor: Seq<char>,
    patch: Seq<char>,
    key: Seq<char>,
    count: Seq<char>,
) -> Seq<char> {
    method + " "@ + uri + " HTTP/1.1\r\nHost: "@ + authority + "\r\nUser-Agent: curl/7."@ + minor
        + "."@ + patch
        + "\r\nUpgrade: websocket\r\nConnection: Upgrade\r\nSec-WebSocket-Key: "@ + key
        + "\r\nContent-Length: "@ + count + "\r\n\r\n"@
}

/// What a write puts on the wire: an HTTP stream hides its first payload behind the request
/// and relays the rest; a TLS stream hides its first payload in the disguise and puts each
/// later one in a record of application data that counts it. One write takes at most 16384
/// bytes, but for what is relayed, and nothing is written for an empty one.
pub proof fn each_write_has_its_disguise(writing: OutShape, buffer: Seq<u8>, draws: ObfsDraws)
    ensures
        ({
            let after = after_write(writing, buffer, draws);
            let taken = buffer.take(
                if buffer.len() < 16384 {
                    buffer.len() as int
                } else {
                    16384
                },
            );
            &&& after.mode == writing.mode
            &&& buffer.len() == 0 ==> after == writing
            &&& buffer.len() > 0 ==> !after.first_request
            &&& buffer.len() > 0 && writing.mode is Http && !writing.first_request ==> after.outbox
                == writing.outbox + buffer
            &&& buffer.len() > 0 && writing.first_request ==> (writing.mode matches ModeShape::Http {
                host,
                uri,
                method,
                port,
            } ==> after.outbox == writing.outbox + (encode_utf8(
                http_request(host, uri, method, port, draws, taken.len()),
            ) + taken))
            &&& buffer.len() > 0 && writing.first_request ==> (writing.mode matches ModeShape::Tls {
                host,
            } ==> after.outbox == writing.outbox + disguised_hello(encode_utf8(host), taken, draws))
            &&& buffer.len() > 0 && writing.mode is Tls && !writing.first_request ==> {
                let record = after.outbox.skip(writing.outbox.len() as int);
                &&& after.outbox.take(writing.outbox.len() as int) == writing.outbox
                &&& record.take(3) == seq![23u8, 3u8, 3u8]
                &&& read16(record, 3) == taken.len()
                &&& record.skip(5) == taken
            }
        }),
{
    let after = after_write(writing, buffer, draws);
    if buffer.len() > 0 {
        let count = framed_length(writing, buffer.len() as int);
        let taken = buffer.subrange(0, count);
        assert(taken =~= buffer.take(count));
        if writing.mode is Http && !writing.first_request {
            assert(taken =~= buffer);
        } else if writing.mode is Tls && !writing.first_request {
            let record = APPLICATION_DATA@ + be16(taken.len() as u16) + taken;
            assert(after.outbox =~= writing.outbox + record);
            assert(after.outbox.skip(writing.outbox.len() as int) =~= record);
            assert(after.outbox.take(writing.outbox.len() as int) =~= writing.outbox);
            assert(record.take(3) =~= seq![23u8, 3u8, 3u8]);
            assert(record.skip(5) =~= taken);
        }
    }
}

/// A prefix is carried by the plain AEAD methods alone, and takes at least one byte of the
/// salt and at most half of it.
pub proof fn a_prefix_leaves_half_of_the_salt(method: MethodShape, length: int)
    requires
        length >= 0,
    ensures
        prefix_fault(method, length) is None <==> method.category == CipherCategory::Aead && length
            >= 1 && 2 * length <= method.salt_len,
{
}

/// Datagrams are carried only where they are switched on and nothing stands between the
/// codec and the socket.
pub proof fn datagrams_need_a_bare_socket(udp: bool, raw: bool, obfuscated: bool)
    ensures
        datagram_fault(udp, raw, obfuscated) is None <==> udp && raw && !obfuscated,
{
}

/// The first chunk of a stream is the header of its target and the first payload, and
/// stays the same until it is accepted. From then on a chunk is the payload alone.
pub proof fn the_first_chunk_carries_the_target(header: Seq<u8>, buffer: Seq<u8>, again: Seq<u8>)
    ensures
        ({
            let first = chunk_of(OpeningShape::Connect(header), buffer);
            &&& first.len() == header.len() + buffer.len()
            &&& first.take(header.len() as int) == header
            &&& first.skip(header.len() as int) == buffer
            &&& chunk_of(OpeningShape::Connecting(first), again) == first
            &&& chunk_of(OpeningShape::Connected, again) == again
        }),
{
    let first = chunk_of(OpeningShape::Connect(header), buffer);
    assert(first.take(header.len() as int) =~= header);
    assert(first.skip(header.len() as int) =~= buffer);
}

} // verus!
