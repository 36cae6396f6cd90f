//! The `simple-obfs` disguise. Only the first message in each direction is
//! disguised, as an HTTP exchange or a TLS handshake; after it HTTP relays
//! verbatim and TLS wraps each write in an application data record.
use crate::error::{invalid_data, ErrorKind, Fault, WireError};
use crate::octets::{be16, be32, get_u16, push_bytes, push_u16, push_u32, read16, split_front};
use crate::random::{random_below, random_bytes, unix_seconds};
use crate::text::{base64, base64_of, decimal, push_decimal, text_of};
use vstd::prelude::*;
use vstd::slice::slice_subrange;
use vstd::string::*;
use vstd::utf8::encode_utf8;

verus! {

/// The longest record that a peer reads.
pub const MAX_RECORD: usize = 16_384;

/// The front of an application data record.
pub const APPLICATION_DATA: [u8; 3] = [0x17, 0x03, 0x03];

/// The length of the ServerHello record in the first response.
pub const SERVER_HELLO_LEN: usize = 96;

/// The length of the ChangeCipherSpec record in the first response.
pub const CHANGE_CIPHER_SPEC_LEN: usize = 6;

/// The length of the header of the record that carries the first payload.
pub const ENCRYPTED_HANDSHAKE_LEN: usize = 5;

/// The length of everything that precedes the first payload.
pub const TLS_FIRST_RESPONSE_LEN: usize = 107;

/// The longest response header that is awaited.
pub const MAX_HTTP_RESPONSE_HEADER: usize = 8 * 1024;

/// How much is read from the carrier at once.
pub const READ_CHUNK: usize = 4 * 1024;

/// The cipher suites of the disguised ClientHello.
pub const CIPHER_SUITES: [u8; 56] = [
    0xc0, 0x2c, 0xc0, 0x30, 0x00, 0x9f, 0xcc, 0xa9, 0xcc, 0xa8, 0xcc, 0xaa, 0xc0, 0x2b, 0xc0, 0x2f,
    0x00, 0x9e, 0xc0, 0x24, 0xc0, 0x28, 0x00, 0x6b, 0xc0, 0x23, 0xc0, 0x27, 0x00, 0x67, 0xc0, 0x0a,
    0xc0, 0x14, 0x00, 0x39, 0xc0, 0x09, 0xc0, 0x13, 0x00, 0x33, 0x00, 0x9d, 0x00, 0x9c, 0x00, 0x3d,
    0x00, 0x3c, 0x00, 0x35, 0x00, 0x2f, 0x00, 0xff,
];

/// The extensions behind the session ticket and the server name:
/// ec_point_formats, supported_groups, signature_algorithms, encrypt_then_mac and
/// extended_master_secret.
pub const OTHER_EXTENSIONS: [u8; 66] = [
    0x00, 0x0b, 0x00, 0x04, 0x03, 0x01, 0x00, 0x02,
    0x00, 0x0a, 0x00, 0x0a, 0x00, 0x08, 0x00, 0x1d, 0x00, 0x17, 0x00, 0x19, 0x00, 0x18,
    0x00, 0x0d, 0x00, 0x20, 0x00, 0x1e, 0x06, 0x01, 0x06, 0x02, 0x06, 0x03, 0x05, 0x01, 0x05, 0x02,
    0x05, 0x03, 0x04, 0x01, 0x04, 0x02, 0x04, 0x03, 0x03, 0x01, 0x03, 0x02, 0x03, 0x03, 0x02, 0x01,
    0x02, 0x02, 0x02, 0x03,
    0x00, 0x16, 0x00, 0x00,
    0x00, 0x17, 0x00, 0x00,
];

/// The length of the disguised ClientHello without its payload and its host.
pub const CLIENT_HELLO_OVERHEAD: usize = 217;

/// How a connection is disguised.
#[derive(Clone, Debug)]
pub enum SimpleObfsConfig {
    Http { host: String, uri: String, method: String },
    Tls { host: String },
}

/// What a disguised message takes from its surroundings.
#[derive(Clone, Copy)]
pub struct ObfsDraws {
    /// The bytes of the WebSocket key.
    pub key: [u8; 16],
    /// The two numbers of the user agent's version.
    pub minor: u32,
    pub patch: u32,
    /// The random part of the ClientHello.
    pub random: [u8; 28],
    pub session_id: [u8; 32],
    /// The time in the ClientHello.
    pub time: u32,
}

impl ObfsDraws {
    /// Draw afresh. The version numbers are below 51 and below 2.
    pub fn draw() -> (draws: ObfsDraws)
        ensures
            draws.minor < 51,
            draws.patch < 2,
    {
        let time = match unix_seconds() {
            Some(seconds) => (seconds % 4294967296) as u32,
            None => 0u32,
        };
        ObfsDraws {
            key: random_bytes::<16>(),
            minor: random_below(51),
            patch: random_below(2),
            random: random_bytes::<28>(),
            session_id: random_bytes::<32>(),
            time,
        }
    }
}

/// The Host header. Only port 80 is left out.
pub open spec fn host_header(host: Seq<char>, port: u16) -> Seq<char> {
    if port == 80 {
        host
    } else {
        host + ":"@ + decimal(port as nat)
    }
}

fn http_host(host: &str, port: u16) -> (header: String)
    ensures
        header@ == host_header(host@, port),
{
    let mut header = text_of(host);
    if port != 80 {
        header.append(":");
        push_decimal(&mut header, port as u64);
    }
    header
}

/// The request that the first payload hides behind.
pub open spec fn http_request(
    host: Seq<char>,
    uri: Seq<char>,
    method: Seq<char>,
    port: u16,
    draws: ObfsDraws,
    length: nat,
) -> Seq<char> {
    method + " "@ + uri + " HTTP/1.1\r\nHost: "@ + host_header(host, port)
        + "\r\nUser-Agent: curl/7."@ + decimal(draws.minor as nat) + "."@ + decimal(
        draws.patch as nat,
    ) + "\r\nUpgrade: websocket\r\nConnection: Upgrade\r\nSec-WebSocket-Key: "@ + base64_of(
        draws.key@,
    ) + "\r\nContent-Length: "@ + decimal(length) + "\r\n\r\n"@
}

fn write_http_request(
    host: &str,
    uri: &str,
    method: &str,
    port: u16,
    draws: &ObfsDraws,
    length: usize,
) -> (request: String)
    ensures
        request@ == http_request(host@, uri@, method@, port, *draws, length as nat),
{
    let mut request = text_of(method);
    request.append(" ");
    request.append(uri);
    request.append(" HTTP/1.1\r\nHost: ");
    let header = http_host(host, port);
    request.append(header.as_str());
    request.append("\r\nUser-Agent: curl/7.");
    push_decimal(&mut request, draws.minor as u64);
    request.append(".");
    push_decimal(&mut request, draws.patch as u64);
    request.append("\r\nUpgrade: websocket\r\nConnection: Upgrade\r\nSec-WebSocket-Key: ");
    let key = base64(draws.key.as_slice());
    request.append(key.as_str());
    request.append("\r\nContent-Length: ");
    push_decimal(&mut request, length as u64);
    request.append("\r\n\r\n");
    request
}

/// A length in two bytes, of which only the low sixteen bits are written.
pub open spec fn low16(length: int) -> Seq<u8> {
    be16((length % 65536) as u16)
}

/// The front of the disguised ClientHello: the headers, the random values and the
/// cipher suites.
pub open spec fn hello_front(total: int, draws: ObfsDraws) -> Seq<u8> {
    seq![0x16u8, 0x03u8, 0x01u8] + low16(total - 5) + seq![0x01u8, 0x00u8] + low16(total - 9)
        + seq![0x03u8, 0x03u8] + be32(draws.time) + draws.random@ + seq![32u8] + draws.session_id@
        + be16(56) + CIPHER_SUITES@
}

/// The middle of it: the compression methods, the length of the extensions, and
/// the session ticket with the payload.
pub open spec fn hello_ticket(total: int, payload: Seq<u8>) -> Seq<u8> {
    seq![0x01u8, 0x00u8] + low16(total - 138) + seq![0x00u8, 0x23u8] + low16(
        payload.len() as int,
    ) + payload
}

/// The rest of it: the server name and the fixed extensions.
pub open spec fn hello_name(host: Seq<u8>) -> Seq<u8> {
    seq![0x00u8, 0x00u8] + low16(host.len() as int + 5) + low16(host.len() as int + 3)
        + seq![0x00u8] + low16(host.len() as int) + host + OTHER_EXTENSIONS@
}

/// The disguised ClientHello, with the payload in its session ticket.
pub open spec fn disguised_hello(host: Seq<u8>, payload: Seq<u8>, draws: ObfsDraws) -> Seq<u8> {
    let total = CLIENT_HELLO_OVERHEAD + payload.len() + host.len();
    hello_front(total, draws) + hello_ticket(total, payload) + hello_name(host)
}

fn push_two(out: &mut Vec<u8>, first: u8, second: u8)
    ensures
        final(out)@ == old(out)@ + seq![first, second],
{
    out.push(first);
    out.push(second);
    assert(out@ =~= old(out)@ + seq![first, second]);
}

fn push_one(out: &mut Vec<u8>, byte: u8)
    ensures
        final(out)@ == old(out)@ + seq![byte],
{
    out.push(byte);
    assert(out@ =~= old(out)@ + seq![byte]);
}

fn push_low16(out: &mut Vec<u8>, length: usize, Ghost(whole): Ghost<int>)
    requires
        length as int % 65536 == whole % 65536,
    ensures
        final(out)@ == old(out)@ + low16(whole),
{
    push_u16(out, (length % 65536) as u16);
}

fn write_hello_front(total_low: usize, draws: &ObfsDraws, Ghost(total): Ghost<int>) -> (out:
    Vec<u8>)
    requires
        217 <= total_low,
        total_low as int % 65536 == total % 65536,
    ensures
        out@ == hello_front(total, *draws),
{
    let mut out: Vec<u8> = Vec::new();
    push_bytes(&mut out, &[0x16, 0x03, 0x01]);
    assert(out@ =~= seq![0x16u8, 0x03u8, 0x01u8]);
    push_low16(&mut out, total_low - 5, Ghost(total - 5));
    push_two(&mut out, 0x01, 0x00);
    push_low16(&mut out, total_low - 9, Ghost(total - 9));
    push_two(&mut out, 0x03, 0x03);
    push_u32(&mut out, draws.time);
    push_bytes(&mut out, draws.random.as_slice());
    push_one(&mut out, 32);
    push_bytes(&mut out, draws.session_id.as_slice());
    push_u16(&mut out, 56);
    push_bytes(&mut out, CIPHER_SUITES.as_slice());
    out
}

fn write_hello_ticket(total_low: usize, payload: &[u8], Ghost(total): Ghost<int>) -> (out: Vec<u8>)
    requires
        217 <= total_low,
        total_low as int % 65536 == total % 65536,
    ensures
        out@ == hello_ticket(total, payload@),
{
    let mut out: Vec<u8> = Vec::new();
    push_two(&mut out, 0x01, 0x00);
    assert(out@ =~= seq![0x01u8, 0x00u8]);
    push_low16(&mut out, total_low - 138, Ghost(total - 138));
    push_two(&mut out, 0x00, 0x23);
    push_low16(&mut out, payload.len(), Ghost(payload@.len() as int));
    push_bytes(&mut out, payload);
    out
}

fn write_hello_name(host: &[u8]) -> (out: Vec<u8>)
    ensures
        out@ == hello_name(host@),
{
    let host_low: usize = host.len() % 65536;
    let mut out: Vec<u8> = Vec::new();
    push_two(&mut out, 0x00, 0x00);
    assert(out@ =~= seq![0x00u8, 0x00u8]);
    push_low16(&mut out, host_low + 5, Ghost(host@.len() as int + 5));
    push_low16(&mut out, host_low + 3, Ghost(host@.len() as int + 3));
    push_one(&mut out, 0x00);
    push_low16(&mut out, host_low, Ghost(host@.len() as int));
    push_bytes(&mut out, host);
    push_bytes(&mut out, OTHER_EXTENSIONS.as_slice());
    out
}

fn client_hello(host: &[u8], payload: &[u8], draws: &ObfsDraws) -> (hello: Vec<u8>)
    ensures
        hello@ == disguised_hello(host@, payload@, *draws),
{
    let ghost total = CLIENT_HELLO_OVERHEAD + payload@.len() + host@.len();
    let total_low: usize = CLIENT_HELLO_OVERHEAD + payload.len() % 65536 + host.len() % 65536;
    let mut hello = write_hello_front(total_low, draws, Ghost(total));
    let ticket = write_hello_ticket(total_low, payload, Ghost(total));
    push_bytes(&mut hello, ticket.as_slice());
    let name = write_hello_name(host);
    push_bytes(&mut hello, name.as_slice());
    hello
}

/// What is read next.
#[derive(Clone, Copy, Debug, PartialEq, Eq, Structural)]
pub enum ReadState {
    /// The header of the HTTP response, which is stripped.
    HttpHeader,
    /// The fixed front of the first TLS response.
    TlsFirstResponse,
    /// The header of a record.
    TlsRecordHeader,
    /// What is left of a record.
    Payload { remaining: usize },
    /// Everything, verbatim.
    Relay,
}

/// The mode of a stream, with what its first message needs.
enum Mode {
    Http { host: String, uri: String, method: String, port: u16 },
    Tls { host: String },
}

/// The view of a mode.
pub enum ModeShape {
    Http { host: Seq<char>, uri: Seq<char>, method: Seq<char>, port: u16 },
    Tls { host: Seq<char> },
}

/// A disguised stream, without the carrier that it runs over: bytes of the carrier
/// are handed in and taken out.
pub struct SimpleObfsStream {
    mode: Mode,
    read_state: ReadState,
    inbox: Vec<u8>,
    outbox: Vec<u8>,
    first_request: bool,
    eof: bool,
}

/// The reading half of a stream: what is read next, the bytes that came in, and
/// whether the carrier has ended.
#[verifier::ext_equal]
pub struct InShape {
    pub state: ReadState,
    pub inbox: Seq<u8>,
    pub eof: bool,
}

/// The writing half of a stream: its mode, the bytes that have to go out, and
/// whether nothing has been written yet.
pub struct OutShape {
    pub mode: ModeShape,
    pub outbox: Seq<u8>,
    pub first_request: bool,
}

/// The view of a stream.
pub struct StreamShape {
    pub reading: InShape,
    pub writing: OutShape,
}

impl View for SimpleObfsStream {
    type V = StreamShape;

    closed spec fn view(&self) -> StreamShape {
        StreamShape {
            reading: InShape { state: self.read_state, inbox: self.inbox@, eof: self.eof },
            writing: OutShape {
                mode: match self.mode {
                    Mode::Http { host, uri, method, port } => ModeShape::Http {
                        host: host@,
                        uri: uri@,
                        method: method@,
                        port,
                    },
                    Mode::Tls { host } => ModeShape::Tls { host: host@ },
                },
                outbox: self.outbox@,
                first_request: self.first_request,
            },
        }
    }
}

/// A stream on which nothing has happened.
pub open spec fn opened_stream(config: SimpleObfsConfig, port: u16) -> StreamShape {
    match config {
        SimpleObfsConfig::Http { host, uri, method } => StreamShape {
            reading: InShape { state: ReadState::HttpHeader, inbox: Seq::empty(), eof: false },
            writing: OutShape {
                mode: ModeShape::Http { host: host@, uri: uri@, method: method@, port },
                outbox: Seq::empty(),
                first_request: true,
            },
        },
        SimpleObfsConfig::Tls { host } => StreamShape {
            reading: InShape {
                state: ReadState::TlsFirstResponse,
                inbox: Seq::empty(),
                eof: false,
            },
            writing: OutShape {
                mode: ModeShape::Tls { host: host@ },
                outbox: Seq::empty(),
                first_request: true,
            },
        },
    }
}

/// How many bytes of a write are framed at once: all of them where the stream
/// relays, and one record otherwise.
pub open spec fn framed_length(writing: OutShape, length: int) -> int {
    if (writing.mode is Http && !writing.first_request) || length < MAX_RECORD {
        length
    } else {
        MAX_RECORD as int
    }
}

/// What a payload looks like on the wire.
pub open spec fn framed(writing: OutShape, payload: Seq<u8>, draws: ObfsDraws) -> Seq<u8> {
    match (writing.mode, writing.first_request) {
        (ModeShape::Http { .. }, false) => payload,
        (ModeShape::Http { host, uri, method, port }, true) => encode_utf8(
            http_request(host, uri, method, port, draws, payload.len()),
        ) + payload,
        (ModeShape::Tls { host }, true) => disguised_hello(encode_utf8(host), payload, draws),
        (ModeShape::Tls { .. }, false) => APPLICATION_DATA@ + be16(payload.len() as u16)
            + payload,
    }
}

/// The writing half after a write. Nothing is framed for an empty one.
pub open spec fn after_write(writing: OutShape, buffer: Seq<u8>, draws: ObfsDraws) -> OutShape {
    if buffer.len() == 0 {
        writing
    } else {
        let taken = buffer.subrange(0, framed_length(writing, buffer.len() as int));
        OutShape {
            outbox: writing.outbox + framed(writing, taken, draws),
            first_request: false,
            ..writing
        }
    }
}

/// Whether a header ends at `at`.
pub open spec fn terminator_at(bytes: Seq<u8>, at: int) -> bool {
    bytes[at] == 13 && bytes[at + 1] == 10 && bytes[at + 2] == 13 && bytes[at + 3] == 10
}

/// The end of the first header at or behind `from`.
pub open spec fn header_end(bytes: Seq<u8>, from: int) -> Option<int>
    decreases bytes.len() - from,
{
    if from + 4 > bytes.len() {
        None
    } else if terminator_at(bytes, from) {
        Some(from + 4)
    } else {
        header_end(bytes, from + 1)
    }
}

fn find_crlf_crlf(bytes: &[u8]) -> (end: Option<usize>)
    ensures
        match header_end(bytes@, 0) {
            Some(at) => end matches Some(found) && found == at && 4 <= at <= bytes@.len(),
            None => end is None,
        },
{
    let mut from: usize = 0;
    while from < bytes.len() && bytes.len() - from >= 4
        invariant
            from <= bytes@.len(),
            header_end(bytes@, 0) == header_end(bytes@, from as int),
        decreases bytes.len() - from,
    {
        if bytes[from] == 13 && bytes[from + 1] == 10 && bytes[from + 2] == 13 && bytes[from + 3]
            == 10 {
            return Some(from + 4);
        }
        from = from + 1;
    }
    None
}

/// The reading half with the first `taken` bytes gone and another state.
pub open spec fn past(reading: InShape, taken: int, state: ReadState) -> InShape {
    InShape {
        state,
        inbox: reading.inbox.subrange(taken, reading.inbox.len() as int),
        ..reading
    }
}

/// What becomes of a header that is at the front of what came in: whether the
/// stream is past it, or a fault. A header that has come whole is taken even
/// where it is refused.
pub open spec fn parsed_header(reading: InShape) -> (Result<bool, Fault>, InShape) {
    let inbox = reading.inbox;
    match reading.state {
        ReadState::HttpHeader => match header_end(inbox, 0) {
            Some(end) => (Ok(true), past(reading, end, ReadState::Relay)),
            None => if inbox.len() > MAX_HTTP_RESPONSE_HEADER {
                (
                    Err(invalid_data("simple-obfs http response header is not terminated"@)),
                    reading,
                )
            } else {
                (Ok(false), reading)
            },
        },
        ReadState::TlsFirstResponse => if inbox.len() < TLS_FIRST_RESPONSE_LEN {
            (Ok(false), reading)
        } else if inbox[0] != 0x16 || inbox[102] != 0x16 || inbox[103] != 0x03 || inbox[104]
            != 0x03 {
            (
                Err(invalid_data("simple-obfs tls response is not a ServerHello"@)),
                past(reading, TLS_FIRST_RESPONSE_LEN as int, reading.state),
            )
        } else {
            (
                Ok(true),
                past(
                    reading,
                    TLS_FIRST_RESPONSE_LEN as int,
                    ReadState::Payload { remaining: read16(inbox, 105) as usize },
                ),
            )
        },
        ReadState::TlsRecordHeader => if inbox.len() < 5 {
            (Ok(false), reading)
        } else if inbox[0] != 0x17 || inbox[1] != 0x03 || inbox[2] != 0x03 {
            (
                Err(invalid_data("simple-obfs tls record is not application data"@)),
                past(reading, 5, reading.state),
            )
        } else if read16(inbox, 3) > MAX_RECORD {
            (
                Err(invalid_data("simple-obfs tls record is over 16384 bytes"@)),
                past(reading, 5, reading.state),
            )
        } else {
            (
                Ok(true),
                past(reading, 5, ReadState::Payload { remaining: read16(inbox, 3) as usize }),
            )
        },
        _ => (Ok(true), reading),
    }
}

/// What a read comes to.
#[derive(Debug)]
pub enum ReadStep {
    /// These bytes, which are none only where there is no room for any.
    Data(Vec<u8>),
    /// The carrier has to be read first.
    Fill,
    /// The carrier may be read straight into the reader's buffer.
    Direct,
    /// The stream has ended.
    End,
}

/// The view of such a step.
pub enum ReadStepShape {
    Data(Seq<u8>),
    Fill,
    Direct,
    End,
}

impl View for ReadStep {
    type V = ReadStepShape;

    open spec fn view(&self) -> ReadStepShape {
        match self {
            ReadStep::Data(bytes) => ReadStepShape::Data(bytes@),
            ReadStep::Fill => ReadStepShape::Fill,
            ReadStep::Direct => ReadStepShape::Direct,
            ReadStep::End => ReadStepShape::End,
        }
    }
}

/// The fault of a carrier that ends inside a message.
pub open spec fn cut_short() -> Fault {
    (ErrorKind::UnexpectedEof, "unexpected end of file"@)
}

/// The lesser of two numbers.
pub open spec fn least(left: int, right: int) -> int {
    if left < right {
        left
    } else {
        right
    }
}

/// What a read comes to when no header stands before the payload any more.
pub open spec fn payload_step(reading: InShape, room: int) -> (
    Result<ReadStepShape, Fault>,
    InShape,
) {
    let available = reading.inbox.len() as int;
    match reading.state {
        ReadState::Payload { remaining } => if available == 0 {
            if reading.eof {
                (Err(cut_short()), reading)
            } else {
                (Ok(ReadStepShape::Fill), reading)
            }
        } else {
            let take = least(least(remaining as int, available), room);
            (
                Ok(ReadStepShape::Data(reading.inbox.subrange(0, take))),
                past(
                    reading,
                    take,
                    ReadState::Payload { remaining: (remaining - take) as usize },
                ),
            )
        },
        _ => if available > 0 {
            let take = least(available, room);
            (
                Ok(ReadStepShape::Data(reading.inbox.subrange(0, take))),
                past(reading, take, reading.state),
            )
        } else if reading.eof {
            (Ok(ReadStepShape::End), reading)
        } else {
            (Ok(ReadStepShape::Direct), reading)
        },
    }
}

/// What a read with room for `room` bytes comes to. A stream may end only where
/// a record could begin.
pub open spec fn read_step(reading: InShape, room: int) -> (Result<ReadStepShape, Fault>, InShape)
    decreases
            reading.inbox.len(),
            if reading.state is Payload {
                1int
            } else {
                0
            },
{
    match parsed_header(reading) {
        (Err(fault), next) => (Err(fault), next),
        (Ok(false), next) => if !reading.eof {
            (Ok(ReadStepShape::Fill), next)
        } else if reading.state == ReadState::TlsRecordHeader && reading.inbox.len() == 0 {
            (Ok(ReadStepShape::End), next)
        } else {
            (Err(cut_short()), next)
        },
        (Ok(true), next) => if next.state == (ReadState::Payload { remaining: 0 }) {
            read_step(InShape { state: ReadState::TlsRecordHeader, ..next }, room)
        } else {
            payload_step(next, room)
        },
    }
}

impl SimpleObfsStream {
    /// A stream over a server at `port`.
    pub fn new(config: &SimpleObfsConfig, port: u16) -> (stream: SimpleObfsStream)
        ensures
            stream@ == opened_stream(*config, port),
    {
        let (mode, read_state) = match config {
            SimpleObfsConfig::Http { host, uri, method } => (
                Mode::Http {
                    host: text_of(host.as_str()),
                    uri: text_of(uri.as_str()),
                    method: text_of(method.as_str()),
                    port,
                },
                ReadState::HttpHeader,
            ),
            SimpleObfsConfig::Tls { host } => (
                Mode::Tls { host: text_of(host.as_str()) },
                ReadState::TlsFirstResponse,
            ),
        };
        let stream = SimpleObfsStream {
            mode,
            read_state,
            inbox: Vec::new(),
            outbox: Vec::new(),
            first_request: true,
            eof: false,
        };
        assert(stream@.reading.inbox =~= Seq::<u8>::empty());
        assert(stream@.writing.outbox =~= Seq::<u8>::empty());
        stream
    }

    fn write_limit(&self) -> (limit: usize)
        ensures
            limit == if self@.writing.mode is Http && !self@.writing.first_request {
                usize::MAX
            } else {
                MAX_RECORD
            },
    {
        match self.mode {
            Mode::Http { .. } => if !self.first_request {
                usize::MAX
            } else {
                MAX_RECORD
            },
            _ => MAX_RECORD,
        }
    }

    fn frame(&mut self, payload: &[u8], draws: &ObfsDraws)
        requires
            payload@.len() <= MAX_RECORD || (old(self)@.writing.mode is Http && !old(
                self,
            )@.writing.first_request),
        ensures
            final(self)@ == (StreamShape {
                reading: old(self)@.reading,
                writing: OutShape {
                    outbox: old(self)@.writing.outbox + framed(
                        old(self)@.writing,
                        payload@,
                        *draws,
                    ),
                    first_request: false,
                    ..old(self)@.writing
                },
            }),
    {
        let ghost before = self.outbox@;
        match &self.mode {
            Mode::Http { host, uri, method, port } => {
                if self.first_request {
                    let request = write_http_request(
                        host.as_str(),
                        uri.as_str(),
                        method.as_str(),
                        *port,
                        draws,
                        payload.len(),
                    );
                    push_bytes(&mut self.outbox, request.as_str().as_bytes());
                    push_bytes(&mut self.outbox, payload);
                    assert(self.outbox@ =~= before + framed(
                        old(self)@.writing,
                        payload@,
                        *draws,
                    ));
                } else {
                    push_bytes(&mut self.outbox, payload);
                }
            },
            Mode::Tls { host } => {
                if self.first_request {
                    let hello = client_hello(host.as_str().as_bytes(), payload, draws);
                    push_bytes(&mut self.outbox, hello.as_slice());
                } else {
                    push_bytes(&mut self.outbox, APPLICATION_DATA.as_slice());
                    push_u16(&mut self.outbox, payload.len() as u16);
                    push_bytes(&mut self.outbox, payload);
                    assert(self.outbox@ =~= before + framed(
                        old(self)@.writing,
                        payload@,
                        *draws,
                    ));
                }
            },
        }
        self.first_request = false;
    }

    /// Frame the front of `buffer`, with the draws given; the count of bytes that
    /// were framed.
    pub fn write_with(&mut self, buffer: &[u8], draws: &ObfsDraws) -> (taken: usize)
        ensures
            taken == framed_length(old(self)@.writing, buffer@.len() as int),
            final(self)@ == (StreamShape {
                reading: old(self)@.reading,
                writing: after_write(old(self)@.writing, buffer@, *draws),
            }),
    {
        if buffer.len() == 0 {
            return 0;
        }
        let limit = self.write_limit();
        let take: usize = if buffer.len() < limit {
            buffer.len()
        } else {
            limit
        };
        self.frame(slice_subrange(buffer, 0, take), draws);
        take
    }

    /// Frame the front of `buffer`; the count of bytes that were framed.
    pub fn write(&mut self, buffer: &[u8]) -> (taken: usize)
        ensures
            taken == framed_length(old(self)@.writing, buffer@.len() as int),
            exists|draws: ObfsDraws|
                {
                    &&& draws.minor < 51
                    &&& draws.patch < 2
                    &&& final(self)@ == (StreamShape {
                        reading: old(self)@.reading,
                        writing: #[trigger] after_write(old(self)@.writing, buffer@, draws),
                    })
                },
    {
        let draws = ObfsDraws::draw();
        self.write_with(buffer, &draws)
    }

    /// The bytes that have to go out.
    pub fn outgoing(&self) -> (bytes: &[u8])
        ensures
            bytes@ == self@.writing.outbox,
    {
        self.outbox.as_slice()
    }

    /// The carrier has accepted `written` bytes. A carrier that accepts none is at
    /// fault.
    pub fn sent(&mut self, written: usize) -> (result: Result<(), WireError>)
        requires
            written <= old(self)@.writing.outbox.len(),
        ensures
            if written == 0 {
                &&& final(self)@ == old(self)@
                &&& result matches Err(error) && error@ == (ErrorKind::WriteZero, "write zero"@)
            } else {
                &&& result is Ok
                &&& final(self)@ == (StreamShape {
                    reading: old(self)@.reading,
                    writing: OutShape {
                        outbox: old(self)@.writing.outbox.subrange(
                            written as int,
                            old(self)@.writing.outbox.len() as int,
                        ),
                        ..old(self)@.writing
                    },
                })
            },
    {
        if written == 0 {
            return Err(WireError::new(ErrorKind::WriteZero, "write zero"));
        }
        let _ = split_front(&mut self.outbox, written);
        Ok(())
    }

    /// The carrier gave these bytes; none are its end.
    pub fn fill(&mut self, data: &[u8])
        ensures
            final(self)@ == (StreamShape {
                reading: InShape {
                    inbox: old(self)@.reading.inbox + data@,
                    eof: old(self)@.reading.eof || data@.len() == 0,
                    ..old(self)@.reading
                },
                writing: old(self)@.writing,
            }),
    {
        if data.len() == 0 {
            self.eof = true;
        }
        push_bytes(&mut self.inbox, data);
    }

    fn skip(&mut self, taken: usize, state: ReadState)
        requires
            taken <= old(self)@.reading.inbox.len(),
        ensures
            final(self)@ == (StreamShape {
                reading: past(old(self)@.reading, taken as int, state),
                writing: old(self)@.writing,
            }),
    {
        let _ = split_front(&mut self.inbox, taken);
        self.read_state = state;
    }

    /// Take a header off the front of what came in; whether the stream is past it.
    fn parse_header(&mut self) -> (result: Result<bool, WireError>)
        ensures
            final(self)@ == (StreamShape {
                reading: parsed_header(old(self)@.reading).1,
                writing: old(self)@.writing,
            }),
            match parsed_header(old(self)@.reading).0 {
                Ok(past) => result matches Ok(actual) && actual == past,
                Err(fault) => result matches Err(error) && error@ == fault,
            },
    {
        let state = self.read_state;
        match state {
            ReadState::HttpHeader => {
                match find_crlf_crlf(self.inbox.as_slice()) {
                    Some(end) => {
                        self.skip(end, ReadState::Relay);
                        Ok(true)
                    },
                    None => {
                        if self.inbox.len() > MAX_HTTP_RESPONSE_HEADER {
                            return Err(
                                WireError::new(
                                    ErrorKind::InvalidData,
                                    "simple-obfs http response header is not terminated",
                                ),
                            );
                        }
                        Ok(false)
                    },
                }
            },
            ReadState::TlsFirstResponse => {
                if self.inbox.len() < TLS_FIRST_RESPONSE_LEN {
                    return Ok(false);
                }
                if self.inbox[0] != 0x16 || self.inbox[102] != 0x16 || self.inbox[103] != 0x03
                    || self.inbox[104] != 0x03 {
                    self.skip(TLS_FIRST_RESPONSE_LEN, state);
                    return Err(
                        WireError::new(
                            ErrorKind::InvalidData,
                            "simple-obfs tls response is not a ServerHello",
                        ),
                    );
                }
                let length = get_u16(self.inbox.as_slice(), 105) as usize;
                self.skip(TLS_FIRST_RESPONSE_LEN, ReadState::Payload { remaining: length });
                Ok(true)
            },
            ReadState::TlsRecordHeader => {
                if self.inbox.len() < 5 {
                    return Ok(false);
                }
                let length = get_u16(self.inbox.as_slice(), 3) as usize;
                if self.inbox[0] != 0x17 || self.inbox[1] != 0x03 || self.inbox[2] != 0x03 {
                    self.skip(5, state);
                    return Err(
                        WireError::new(
                            ErrorKind::InvalidData,
                            "simple-obfs tls record is not application data",
                        ),
                    );
                }
                if length > MAX_RECORD {
                    self.skip(5, state);
                    return Err(
                        WireError::new(
                            ErrorKind::InvalidData,
                            "simple-obfs tls record is over 16384 bytes",
                        ),
                    );
                }
                self.skip(5, ReadState::Payload { remaining: length });
                Ok(true)
            },
            _ => Ok(true),
        }
    }

    fn take_payload(&mut self, room: usize) -> (result: Result<ReadStep, WireError>)
        requires
            old(self)@.reading.state is Payload || old(self)@.reading.state is Relay,
        ensures
            final(self)@ == (StreamShape {
                reading: payload_step(old(self)@.reading, room as int).1,
                writing: old(self)@.writing,
            }),
            match payload_step(old(self)@.reading, room as int).0 {
                Ok(step) => result matches Ok(actual) && actual@ == step,
                Err(fault) => result matches Err(error) && error@ == fault,
            },
    {
        let available = self.inbox.len();
        match self.read_state {
            ReadState::Payload { remaining } => {
                if available == 0 {
                    if self.eof {
                        return Err(
                            WireError::new(ErrorKind::UnexpectedEof, "unexpected end of file"),
                        );
                    }
                    return Ok(ReadStep::Fill);
                }
                let mut take: usize = if remaining < available {
                    remaining
                } else {
                    available
                };
                if room < take {
                    take = room;
                }
                let data = split_front(&mut self.inbox, take);
                self.read_state = ReadState::Payload { remaining: remaining - take };
                Ok(ReadStep::Data(data))
            },
            _ => {
                if available == 0 {
                    if self.eof {
                        return Ok(ReadStep::End);
                    }
                    return Ok(ReadStep::Direct);
                }
                let take: usize = if available < room {
                    available
                } else {
                    room
                };
                Ok(ReadStep::Data(split_front(&mut self.inbox, take)))
            },
        }
    }

    /// Read up to `room` bytes of payload, as far as what came in allows.
    pub fn read(&mut self, room: usize) -> (result: Result<ReadStep, WireError>)
        ensures
            final(self)@ == (StreamShape {
                reading: read_step(old(self)@.reading, room as int).1,
                writing: old(self)@.writing,
            }),
            match read_step(old(self)@.reading, room as int).0 {
                Ok(step) => result matches Ok(actual) && actual@ == step,
                Err(fault) => result matches Err(error) && error@ == fault,
            },
    {
        loop
            invariant
                read_step(self@.reading, room as int) == read_step(
                    old(self)@.reading,
                    room as int,
                ),
                self@.writing == old(self)@.writing,
            decreases
                    self@.reading.inbox.len(),
                    if self@.reading.state is Payload {
                        1int
                    } else {
                        0
                    },
        {
            let ghost before = self@.reading;
            match self.parse_header() {
                Err(error) => {
                    return Err(error);
                },
                Ok(true) => {},
                Ok(false) => {
                    if !self.eof {
                        return Ok(ReadStep::Fill);
                    }
                    let at_boundary = match self.read_state {
                        ReadState::TlsRecordHeader => self.inbox.len() == 0,
                        _ => false,
                    };
                    if at_boundary {
                        return Ok(ReadStep::End);
                    }
                    return Err(WireError::new(ErrorKind::UnexpectedEof, "unexpected end of file"));
                },
            }
            match self.read_state {
                ReadState::Payload { remaining: 0 } => {
                    self.read_state = ReadState::TlsRecordHeader;
                },
                _ => {
                    return self.take_payload(room);
                },
            }
        }
    }
}

} // verus!
