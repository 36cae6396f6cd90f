//! The messages of RFC 1928 and RFC 1929. Every length that a peer controls is
//! checked before anything is taken from behind it.
use crate::destination::{lemma_read_host, Destination, DestinationShape, Host, HostShape};
use crate::octets::{be16, copy_array, get_u16, push_bytes, push_u16, read16};
use crate::socks::error::{reply_of, SocksError, SocksFault, SocksReply};
use crate::text::utf8_text;
use vstd::prelude::*;
use vstd::slice::slice_subrange;
use vstd::string::*;
use vstd::utf8::{
    decode_utf8, encode_utf8, encode_utf8_decode_utf8, encode_utf8_valid_utf8, valid_utf8,
};

verus! {

pub const VERSION: u8 = 0x05;

pub const AUTH_VERSION: u8 = 0x01;

pub const METHOD_NO_AUTH: u8 = 0x00;

pub const METHOD_USERNAME_PASSWORD: u8 = 0x02;

pub const METHOD_NONE_ACCEPTABLE: u8 = 0xff;

pub const CMD_CONNECT: u8 = 0x01;

pub const CMD_UDP_ASSOCIATE: u8 = 0x03;

pub const ATYP_IPV4: u8 = 0x01;

pub const ATYP_DOMAIN: u8 = 0x03;

pub const ATYP_IPV6: u8 = 0x04;

/// The longest name that an address can carry.
pub const MAX_DOMAIN_LEN: usize = 255;

/// The largest request that fits one IPv4 datagram.
pub const MAX_UDP_DATAGRAM: usize = 65_507;

/// The one method that is offered.
pub open spec fn offered_method(authenticated: bool) -> u8 {
    if authenticated {
        METHOD_USERNAME_PASSWORD
    } else {
        METHOD_NO_AUTH
    }
}

/// The greeting, which offers exactly one method. With credentials configured
/// the absence of authentication is not offered beside them: a server that chose
/// it would drop the credentials without anyone noticing.
pub fn encode_greeting(authenticated: bool) -> (greeting: Vec<u8>)
    ensures
        greeting@ == seq![VERSION, 1u8, offered_method(authenticated)],
        greeting@ == seq![
            5u8,
            1u8,
            if authenticated {
                2u8
            } else {
                0u8
            },
        ],
{
    let method = if authenticated {
        METHOD_USERNAME_PASSWORD
    } else {
        METHOD_NO_AUTH
    };
    let mut greeting: Vec<u8> = Vec::with_capacity(3);
    greeting.push(VERSION);
    greeting.push(0x01);
    greeting.push(method);
    assert(greeting@ =~= seq![VERSION, 1u8, offered_method(authenticated)]);
    greeting
}

/// Whether bytes fit behind a length byte that may not be zero.
pub open spec fn one_byte_length(bytes: Seq<u8>) -> bool {
    1 <= bytes.len() <= 255
}

/// Bytes behind their length byte.
pub open spec fn length_and_bytes(bytes: Seq<u8>) -> Seq<u8> {
    seq![bytes.len() as u8] + bytes
}

/// The request that carries credentials, given as bytes.
pub open spec fn auth_request(username: Seq<u8>, password: Seq<u8>) -> Result<
    Seq<u8>,
    SocksFault,
> {
    if !one_byte_length(username) {
        Err(SocksFault::Malformed("SOCKS5 username must contain 1..=255 bytes"@))
    } else if !one_byte_length(password) {
        Err(SocksFault::Malformed("SOCKS5 password must contain 1..=255 bytes"@))
    } else {
        Ok(seq![AUTH_VERSION] + length_and_bytes(username) + length_and_bytes(password))
    }
}

/// The request that carries credentials.
pub fn encode_auth(username: &str, password: &str) -> (result: Result<Vec<u8>, SocksError>)
    ensures
        match auth_request(encode_utf8(username@), encode_utf8(password@)) {
            Ok(bytes) => result matches Ok(actual) && actual@ == bytes,
            Err(fault) => result matches Err(error) && error@ == fault,
        },
{
    let name = username.as_bytes();
    let secret = password.as_bytes();
    if name.len() == 0 || name.len() > 255 {
        return Err(SocksError::Malformed("SOCKS5 username must contain 1..=255 bytes"));
    }
    if secret.len() == 0 || secret.len() > 255 {
        return Err(SocksError::Malformed("SOCKS5 password must contain 1..=255 bytes"));
    }
    let mut out: Vec<u8> = Vec::with_capacity(3 + name.len() + secret.len());
    out.push(AUTH_VERSION);
    out.push(name.len() as u8);
    push_bytes(&mut out, name);
    out.push(secret.len() as u8);
    push_bytes(&mut out, secret);
    assert(out@ =~= seq![AUTH_VERSION] + length_and_bytes(name@) + length_and_bytes(secret@));
    Ok(out)
}

/// The bytes of a destination. A name stays a name, so that the proxy resolves it,
/// unless it spells an address.
pub open spec fn address_bytes(destination: DestinationShape) -> Result<Seq<u8>, SocksFault> {
    match destination.host.read() {
        HostShape::V4(octets) => Ok(seq![ATYP_IPV4] + octets + be16(destination.port)),
        HostShape::V6(octets) => Ok(seq![ATYP_IPV6] + octets + be16(destination.port)),
        HostShape::Name(name) => if one_byte_length(encode_utf8(name)) {
            Ok(seq![ATYP_DOMAIN] + length_and_bytes(encode_utf8(name)) + be16(destination.port))
        } else {
            Err(SocksFault::Malformed("SOCKS5 domain name must contain 1..=255 bytes"@))
        },
    }
}

/// Append the bytes of a destination. Where they cannot be written nothing is
/// appended.
pub fn encode_address(destination: &Destination, out: &mut Vec<u8>) -> (result: Result<
    (),
    SocksError,
>)
    ensures
        match address_bytes(destination@) {
            Ok(bytes) => result is Ok && final(out)@ == old(out)@ + bytes,
            Err(fault) => final(out)@ == old(out)@ && (result matches Err(error) && error@
                == fault),
        },
{
    match destination.host.read() {
        Host::V4(octets) => {
            out.push(ATYP_IPV4);
            push_bytes(out, octets.as_slice());
        },
        Host::V6(octets) => {
            out.push(ATYP_IPV6);
            push_bytes(out, octets.as_slice());
        },
        Host::Name(name) => {
            let domain = name.as_str().as_bytes();
            if domain.len() == 0 || domain.len() > 255 {
                return Err(SocksError::Malformed("SOCKS5 domain name must contain 1..=255 bytes"));
            }
            out.push(ATYP_DOMAIN);
            out.push(domain.len() as u8);
            push_bytes(out, domain);
        },
    }
    push_u16(out, destination.port);
    proof {
        let bytes = address_bytes(destination@)->Ok_0;
        assert(out@ =~= old(out)@ + bytes);
    }
    Ok(())
}

/// The request for a command.
pub open spec fn request_bytes(command: u8, destination: DestinationShape) -> Result<
    Seq<u8>,
    SocksFault,
> {
    match address_bytes(destination) {
        Ok(address) => Ok(seq![VERSION, command, 0u8] + address),
        Err(fault) => Err(fault),
    }
}

/// The request for a command.
pub fn encode_request(command: u8, destination: &Destination) -> (result: Result<
    Vec<u8>,
    SocksError,
>)
    ensures
        match request_bytes(command, destination@) {
            Ok(bytes) => result matches Ok(actual) && actual@ == bytes,
            Err(fault) => result matches Err(error) && error@ == fault,
        },
{
    let mut out: Vec<u8> = Vec::new();
    out.push(VERSION);
    out.push(command);
    out.push(0x00);
    assert(out@ =~= seq![VERSION, command, 0u8]);
    match encode_address(destination, &mut out) {
        Ok(()) => Ok(out),
        Err(error) => Err(error),
    }
}

/// What a server's choice of a method comes to.
pub open spec fn method_verdict(selection: Seq<u8>, offered: u8) -> Result<(), SocksFault> {
    if selection[0] != VERSION {
        Err(SocksFault::UnexpectedVersion(selection[0]))
    } else if selection[1] == METHOD_NONE_ACCEPTABLE {
        Err(SocksFault::NoAcceptableAuthMethod)
    } else if selection[1] == offered {
        Ok(())
    } else {
        Err(SocksFault::UnexpectedAuthMethod(selection[1]))
    }
}

/// Take the two bytes by which a server chooses a method. Only the method that
/// was offered will do.
pub fn read_method_selection(selection: [u8; 2], offered: u8) -> (result: Result<(), SocksError>)
    ensures
        match method_verdict(selection@, offered) {
            Ok(_) => result is Ok,
            Err(fault) => result matches Err(error) && error@ == fault,
        },
{
    if selection[0] != VERSION {
        return Err(SocksError::UnexpectedVersion(selection[0]));
    }
    if selection[1] == METHOD_NONE_ACCEPTABLE {
        Err(SocksError::NoAcceptableAuthMethod)
    } else if selection[1] == offered {
        Ok(())
    } else {
        Err(SocksError::UnexpectedAuthMethod(selection[1]))
    }
}

/// What the answer to credentials comes to.
pub open spec fn auth_verdict(status: Seq<u8>) -> Result<(), SocksFault> {
    if status[0] != AUTH_VERSION {
        Err(SocksFault::UnexpectedAuthVersion(status[0]))
    } else if status[1] != 0 {
        Err(SocksFault::AuthenticationFailed(status[1]))
    } else {
        Ok(())
    }
}

/// Take the two bytes by which a server answers credentials.
pub fn read_auth_status(status: [u8; 2]) -> (result: Result<(), SocksError>)
    ensures
        match auth_verdict(status@) {
            Ok(_) => result is Ok,
            Err(fault) => result matches Err(error) && error@ == fault,
        },
{
    if status[0] != AUTH_VERSION {
        return Err(SocksError::UnexpectedAuthVersion(status[0]));
    }
    if status[1] != 0x00 {
        return Err(SocksError::AuthenticationFailed(status[1]));
    }
    Ok(())
}

/// What a reader makes of the bytes that it has so far.
#[derive(Debug)]
pub enum Reading {
    /// This many bytes more belong to the message, at least.
    Short(usize),
    /// The message is whole and has this many bytes.
    Whole(Destination, usize),
}

/// The view of a reading.
pub enum ReadingShape {
    Short(int),
    Whole(DestinationShape, int),
}

impl View for Reading {
    type V = ReadingShape;

    open spec fn view(&self) -> ReadingShape {
        match self {
            Reading::Short(more) => ReadingShape::Short(*more as int),
            Reading::Whole(destination, length) => ReadingShape::Whole(
                destination@,
                *length as int,
            ),
        }
    }
}

/// What the bytes of an address of fixed length come to.
pub open spec fn fixed_reading(bytes: Seq<u8>, octets: int, host: HostShape) -> ReadingShape {
    if bytes.len() < octets + 3 {
        ReadingShape::Short(octets + 3 - bytes.len())
    } else {
        ReadingShape::Whole(
            DestinationShape { host, port: read16(bytes, octets + 1) as u16 },
            octets + 3,
        )
    }
}

/// What the bytes of a name come to: its length, the name itself, and the port
/// are each awaited in turn, and a name that is not text is refused before the
/// port. The text of a name is kept, whatever it spells.
pub open spec fn name_reading(bytes: Seq<u8>) -> Result<ReadingShape, SocksFault> {
    let length = bytes[1] as int;
    if bytes.len() < 2 {
        Ok(ReadingShape::Short(2 - bytes.len()))
    } else if length == 0 {
        Err(SocksFault::Malformed("empty SOCKS5 domain name"@))
    } else if bytes.len() < 2 + length {
        Ok(ReadingShape::Short(2 + length - bytes.len()))
    } else if !valid_utf8(bytes.subrange(2, 2 + length)) {
        Err(SocksFault::Malformed("non-UTF-8 SOCKS5 domain name"@))
    } else if bytes.len() < 4 + length {
        Ok(ReadingShape::Short(4 + length - bytes.len()))
    } else {
        Ok(
            ReadingShape::Whole(
                DestinationShape {
                    host: HostShape::Name(decode_utf8(bytes.subrange(2, 2 + length))),
                    port: read16(bytes, 2 + length) as u16,
                },
                4 + length,
            ),
        )
    }
}

/// What the bytes of an address come to.
pub open spec fn address_reading(bytes: Seq<u8>) -> Result<ReadingShape, SocksFault> {
    if bytes.len() == 0 {
        Ok(ReadingShape::Short(1))
    } else if bytes[0] == ATYP_IPV4 {
        Ok(fixed_reading(bytes, 4, HostShape::V4(bytes.subrange(1, 5))))
    } else if bytes[0] == ATYP_IPV6 {
        Ok(fixed_reading(bytes, 16, HostShape::V6(bytes.subrange(1, 17))))
    } else if bytes[0] == ATYP_DOMAIN {
        name_reading(bytes)
    } else {
        Err(SocksFault::UnsupportedAddressType(bytes[0]))
    }
}

fn read_name(bytes: &[u8]) -> (result: Result<Reading, SocksError>)
    requires
        bytes@.len() > 0,
    ensures
        match name_reading(bytes@) {
            Ok(reading) => result matches Ok(actual) && actual@ == reading,
            Err(fault) => result matches Err(error) && error@ == fault,
        },
{
    if bytes.len() < 2 {
        return Ok(Reading::Short(2 - bytes.len()));
    }
    let length = bytes[1] as usize;
    if length == 0 {
        return Err(SocksError::Malformed("empty SOCKS5 domain name"));
    }
    if bytes.len() < 2 + length {
        return Ok(Reading::Short(2 + length - bytes.len()));
    }
    let name = match utf8_text(slice_subrange(bytes, 2, 2 + length)) {
        Some(name) => name,
        None => {
            return Err(SocksError::Malformed("non-UTF-8 SOCKS5 domain name"));
        },
    };
    if bytes.len() < 4 + length {
        return Ok(Reading::Short(4 + length - bytes.len()));
    }
    let port = get_u16(bytes, 2 + length);
    Ok(Reading::Whole(Destination { host: Host::Name(name), port }, 4 + length))
}

/// Read an address off the front of what has come in.
pub fn read_address(bytes: &[u8]) -> (result: Result<Reading, SocksError>)
    ensures
        match address_reading(bytes@) {
            Ok(reading) => result matches Ok(actual) && actual@ == reading,
            Err(fault) => result matches Err(error) && error@ == fault,
        },
{
    if bytes.len() == 0 {
        return Ok(Reading::Short(1));
    }
    match bytes[0] {
        ATYP_IPV4 => {
            if bytes.len() < 7 {
                return Ok(Reading::Short(7 - bytes.len()));
            }
            let octets: [u8; 4] = copy_array::<4>(slice_subrange(bytes, 1, 5));
            let port = get_u16(bytes, 5);
            Ok(Reading::Whole(Destination { host: Host::V4(octets), port }, 7))
        },
        ATYP_IPV6 => {
            if bytes.len() < 19 {
                return Ok(Reading::Short(19 - bytes.len()));
            }
            let octets: [u8; 16] = copy_array::<16>(slice_subrange(bytes, 1, 17));
            let port = get_u16(bytes, 17);
            Ok(Reading::Whole(Destination { host: Host::V6(octets), port }, 19))
        },
        ATYP_DOMAIN => read_name(bytes),
        other => Err(SocksError::UnsupportedAddressType(other)),
    }
}

/// What the bytes of a reply come to: the version and the reply code are looked
/// at once their three bytes are there, and the bound address follows.
pub open spec fn reply_reading(bytes: Seq<u8>) -> Result<ReadingShape, SocksFault> {
    if bytes.len() < 3 {
        Ok(ReadingShape::Short(3 - bytes.len()))
    } else if bytes[0] != VERSION {
        Err(SocksFault::UnexpectedVersion(bytes[0]))
    } else if reply_of(bytes[1]) != SocksReply::Succeeded {
        Err(SocksFault::Refused(reply_of(bytes[1])))
    } else {
        match address_reading(bytes.subrange(3, bytes.len() as int)) {
            Ok(ReadingShape::Whole(destination, length)) => Ok(
                ReadingShape::Whole(destination, length + 3),
            ),
            other => other,
        }
    }
}

/// Read a reply, with the address that the server has bound, off the front of
/// what has come in.
pub fn read_reply(bytes: &[u8]) -> (result: Result<Reading, SocksError>)
    ensures
        match reply_reading(bytes@) {
            Ok(reading) => result matches Ok(actual) && actual@ == reading,
            Err(fault) => result matches Err(error) && error@ == fault,
        },
{
    if bytes.len() < 3 {
        return Ok(Reading::Short(3 - bytes.len()));
    }
    if bytes[0] != VERSION {
        return Err(SocksError::UnexpectedVersion(bytes[0]));
    }
    let reply = SocksReply::from_code(bytes[1]);
    if reply != SocksReply::Succeeded {
        return Err(SocksError::Refused(reply));
    }
    match read_address(slice_subrange(bytes, 3, bytes.len())) {
        Ok(Reading::Whole(destination, length)) => {
            proof {
                lemma_within(bytes@.subrange(3, bytes@.len() as int));
            }
            Ok(Reading::Whole(destination, length + 3))
        },
        Ok(Reading::Short(more)) => Ok(Reading::Short(more)),
        Err(error) => Err(error),
    }
}

proof fn lemma_within(bytes: Seq<u8>)
    ensures
        address_reading(bytes) matches Ok(ReadingShape::Whole(_, length)) ==> length
            <= bytes.len(),
{
}

/// The frame of a datagram, or why there is none, and what is then in the buffer.
pub open spec fn framed_datagram(
    before: Seq<u8>,
    destination: DestinationShape,
    payload: Seq<u8>,
) -> (Result<(), SocksFault>, Seq<u8>) {
    let header = before + seq![0u8, 0u8, 0u8];
    match address_bytes(destination) {
        Err(fault) => (Err(fault), header),
        Ok(address) => if header.len() + address.len() + payload.len() > MAX_UDP_DATAGRAM {
            (
                Err(SocksFault::Malformed("SOCKS5 UDP request exceeds one datagram"@)),
                header + address,
            )
        } else {
            (Ok(()), header + address + payload)
        },
    }
}

/// Append the frame of a datagram.
pub fn encode_udp_datagram(
    destination: &Destination,
    payload: &[u8],
    out: &mut Vec<u8>,
) -> (result: Result<(), SocksError>)
    ensures
        final(out)@ == framed_datagram(old(out)@, destination@, payload@).1,
        match framed_datagram(old(out)@, destination@, payload@).0 {
            Ok(_) => result is Ok,
            Err(fault) => result matches Err(error) && error@ == fault,
        },
{
    out.push(0x00);
    out.push(0x00);
    out.push(0x00);
    assert(out@ =~= old(out)@ + seq![0u8, 0u8, 0u8]);
    if let Err(error) = encode_address(destination, out) {
        return Err(error);
    }
    if payload.len() > MAX_UDP_DATAGRAM || out.len() > MAX_UDP_DATAGRAM - payload.len() {
        return Err(SocksError::Malformed("SOCKS5 UDP request exceeds one datagram"));
    }
    push_bytes(out, payload);
    Ok(())
}

/// A datagram that is too short at some place.
pub open spec fn malformed(what: Seq<char>) -> Result<(HostShape, int), SocksFault> {
    Err(SocksFault::Malformed(what))
}

/// The host in the header of a datagram, and how many bytes it takes behind the
/// address type.
pub open spec fn udp_host(frame: Seq<u8>) -> Result<(HostShape, int), SocksFault> {
    if frame[3] == ATYP_IPV4 {
        if frame.len() < 8 {
            malformed("truncated SOCKS5 UDP IPv4 address"@)
        } else {
            Ok((HostShape::V4(frame.subrange(4, 8)), 4))
        }
    } else if frame[3] == ATYP_IPV6 {
        if frame.len() < 20 {
            malformed("truncated SOCKS5 UDP IPv6 address"@)
        } else {
            Ok((HostShape::V6(frame.subrange(4, 20)), 16))
        }
    } else if frame[3] == ATYP_DOMAIN {
        let length = frame[4] as int;
        if frame.len() < 5 {
            malformed("truncated SOCKS5 UDP domain length"@)
        } else if length == 0 {
            malformed("empty SOCKS5 UDP domain name"@)
        } else if frame.len() < 5 + length {
            malformed("truncated SOCKS5 UDP domain name"@)
        } else if !valid_utf8(frame.subrange(5, 5 + length)) {
            malformed("non-UTF-8 SOCKS5 UDP domain name"@)
        } else {
            Ok((HostShape::Name(decode_utf8(frame.subrange(5, 5 + length))), 1 + length))
        }
    } else {
        Err(SocksFault::UnsupportedAddressType(frame[3]))
    }
}

/// The source and the payload of a datagram, or why it is refused. The reserved
/// bytes have to be zero, and a fragment is never taken for a whole datagram.
pub open spec fn read_datagram(frame: Seq<u8>) -> Result<(DestinationShape, Seq<u8>), SocksFault> {
    if frame.len() < 4 {
        Err(SocksFault::Malformed("truncated SOCKS5 UDP header"@))
    } else if frame[0] != 0 || frame[1] != 0 {
        Err(SocksFault::Malformed("SOCKS5 UDP header RSV field must be zero"@))
    } else if frame[2] != 0 {
        Err(SocksFault::Malformed("SOCKS5 UDP fragmentation is not supported"@))
    } else {
        match udp_host(frame) {
            Err(fault) => Err(fault),
            Ok((host, length)) => if frame.len() < length + 6 {
                Err(SocksFault::Malformed("truncated SOCKS5 UDP port"@))
            } else {
                Ok(
                    (
                        DestinationShape { host, port: read16(frame, length + 4) as u16 },
                        frame.subrange(length + 6, frame.len() as int),
                    ),
                )
            },
        }
    }
}

fn read_udp_host(frame: &[u8]) -> (result: Result<(Host, usize), SocksError>)
    requires
        frame@.len() >= 4,
    ensures
        match udp_host(frame@) {
            Ok((host, length)) => result matches Ok((actual, taken)) && actual@ == host && taken
                == length && length <= frame@.len() - 4,
            Err(fault) => result matches Err(error) && error@ == fault,
        },
{
    match frame[3] {
        ATYP_IPV4 => {
            if frame.len() < 8 {
                return Err(SocksError::Malformed("truncated SOCKS5 UDP IPv4 address"));
            }
            Ok((Host::V4(copy_array::<4>(slice_subrange(frame, 4, 8))), 4))
        },
        ATYP_IPV6 => {
            if frame.len() < 20 {
                return Err(SocksError::Malformed("truncated SOCKS5 UDP IPv6 address"));
            }
            Ok((Host::V6(copy_array::<16>(slice_subrange(frame, 4, 20))), 16))
        },
        ATYP_DOMAIN => {
            if frame.len() < 5 {
                return Err(SocksError::Malformed("truncated SOCKS5 UDP domain length"));
            }
            let length = frame[4] as usize;
            if length == 0 {
                return Err(SocksError::Malformed("empty SOCKS5 UDP domain name"));
            }
            if frame.len() < 5 + length {
                return Err(SocksError::Malformed("truncated SOCKS5 UDP domain name"));
            }
            match utf8_text(slice_subrange(frame, 5, 5 + length)) {
                Some(name) => Ok((Host::Name(name), 1 + length)),
                None => Err(SocksError::Malformed("non-UTF-8 SOCKS5 UDP domain name")),
            }
        },
        other => Err(SocksError::UnsupportedAddressType(other)),
    }
}

/// Split a received datagram into the source that its header names and its
/// payload.
pub fn decode_udp_datagram(frame: &[u8]) -> (result: Result<(Destination, &[u8]), SocksError>)
    ensures
        match read_datagram(frame@) {
            Ok((source, payload)) => result matches Ok((actual, bytes)) && actual@ == source
                && bytes@ == payload,
            Err(fault) => result matches Err(error) && error@ == fault,
        },
{
    if frame.len() < 4 {
        return Err(SocksError::Malformed("truncated SOCKS5 UDP header"));
    }
    if frame[0] != 0x00 || frame[1] != 0x00 {
        return Err(SocksError::Malformed("SOCKS5 UDP header RSV field must be zero"));
    }
    if frame[2] != 0x00 {
        return Err(SocksError::Malformed("SOCKS5 UDP fragmentation is not supported"));
    }
    let (host, length) = match read_udp_host(frame) {
        Ok(read) => read,
        Err(error) => {
            return Err(error);
        },
    };
    if frame.len() - 4 < length + 2 {
        return Err(SocksError::Malformed("truncated SOCKS5 UDP port"));
    }
    let port = get_u16(frame, length + 4);
    Ok((Destination { host, port }, slice_subrange(frame, length + 6, frame.len())))
}

proof fn lemma_port(before: Seq<u8>, port: u16, after: Seq<u8>)
    ensures
        read16(before + be16(port) + after, before.len() as int) as u16 == port,
{
    let all = before + be16(port) + after;
    assert(all[before.len() as int] == be16(port)[0]);
    assert(all[before.len() as int + 1] == be16(port)[1]);
}

/// A destination with its host read.
pub open spec fn read_destination(destination: DestinationShape) -> DestinationShape {
    DestinationShape { host: destination.host.read(), port: destination.port }
}

/// An address that has been written reads back as the destination it was
/// written from, whatever follows it: a name that spells an address as that
/// address.
pub proof fn a_written_address_reads_back(destination: DestinationShape, more: Seq<u8>)
    requires
        destination.host.valid(),
    ensures
        address_bytes(destination) matches Ok(bytes) ==> address_reading(bytes + more) == Ok::<
            ReadingShape,
            SocksFault,
        >(ReadingShape::Whole(read_destination(destination), bytes.len() as int)),
{
    lemma_read_host(destination.host);
    if let Ok(bytes) = address_bytes(destination) {
        let all = bytes + more;
        match destination.host.read() {
            HostShape::V4(octets) => {
                lemma_port(seq![ATYP_IPV4] + octets, destination.port, more);
                assert(all =~= (seq![ATYP_IPV4] + octets) + be16(destination.port) + more);
                assert(all.subrange(1, 5) =~= octets);
            },
            HostShape::V6(octets) => {
                lemma_port(seq![ATYP_IPV6] + octets, destination.port, more);
                assert(all =~= (seq![ATYP_IPV6] + octets) + be16(destination.port) + more);
                assert(all.subrange(1, 17) =~= octets);
            },
            HostShape::Name(name) => {
                let text = encode_utf8(name);
                let front = seq![ATYP_DOMAIN] + length_and_bytes(text);
                lemma_port(front, destination.port, more);
                assert(all =~= front + be16(destination.port) + more);
                assert(all.subrange(2, 2 + text.len() as int) =~= text);
                encode_utf8_valid_utf8(name);
                encode_utf8_decode_utf8(name);
            },
        }
    }
}

/// A datagram that has been framed reads back as the destination and the payload
/// it was framed from: a name that spells an address as that address.
pub proof fn a_framed_datagram_reads_back(destination: DestinationShape, payload: Seq<u8>)
    requires
        destination.host.valid(),
    ensures
        framed_datagram(Seq::empty(), destination, payload) matches (Ok(_), frame)
            ==> read_datagram(frame) == Ok::<(DestinationShape, Seq<u8>), SocksFault>(
            (read_destination(destination), payload),
        ),
{
    lemma_read_host(destination.host);
    if let (Ok(_), frame) = framed_datagram(Seq::empty(), destination, payload) {
        let head = Seq::<u8>::empty() + seq![0u8, 0u8, 0u8];
        let bytes = address_bytes(destination)->Ok_0;
        assert(frame == head + bytes + payload);
        assert(frame.subrange(3 + bytes.len() as int, frame.len() as int) =~= payload);
        match destination.host.read() {
            HostShape::V4(octets) => {
                let front = head + (seq![ATYP_IPV4] + octets);
                lemma_port(front, destination.port, payload);
                assert(frame =~= front + be16(destination.port) + payload);
                assert(frame.subrange(4, 8) =~= octets);
            },
            HostShape::V6(octets) => {
                let front = head + (seq![ATYP_IPV6] + octets);
                lemma_port(front, destination.port, payload);
                assert(frame =~= front + be16(destination.port) + payload);
                assert(frame.subrange(4, 20) =~= octets);
            },
            HostShape::Name(name) => {
                let text = encode_utf8(name);
                let front = head + (seq![ATYP_DOMAIN] + length_and_bytes(text));
                lemma_port(front, destination.port, payload);
                assert(frame =~= front + be16(destination.port) + payload);
                assert(frame.subrange(5, 5 + text.len() as int) =~= text);
                encode_utf8_valid_utf8(name);
                encode_utf8_decode_utf8(name);
            },
        }
    }
}

/// How an address is cut into pieces does not matter: what is settled stays
/// settled, and what is asked for never reaches past the end of the address.
pub proof fn an_address_reads_alike_however_it_is_cut(bytes: Seq<u8>, more: Seq<u8>)
    ensures
        match address_reading(bytes) {
            Ok(ReadingShape::Short(wanted)) => {
                &&& wanted > 0
                &&& address_reading(bytes + more) matches Ok(ReadingShape::Whole(_, length))
                    ==> bytes.len() + wanted <= length
            },
            Ok(ReadingShape::Whole(_, length)) => {
                &&& length <= bytes.len()
                &&& address_reading(bytes + more) == address_reading(bytes)
            },
            Err(_) => address_reading(bytes + more) == address_reading(bytes),
        },
{
    let all = bytes + more;
    if bytes.len() >= 1 {
        assert(all[0] == bytes[0]);
        if bytes.len() >= 7 && bytes[0] == ATYP_IPV4 {
            assert(all.subrange(1, 5) =~= bytes.subrange(1, 5));
        }
        if bytes.len() >= 19 && bytes[0] == ATYP_IPV6 {
            assert(all.subrange(1, 17) =~= bytes.subrange(1, 17));
        }
        if bytes.len() >= 2 && bytes[0] == ATYP_DOMAIN && bytes.len() >= 2 + bytes[1] {
            assert(all.subrange(2, 2 + bytes[1]) =~= bytes.subrange(2, 2 + bytes[1]));
        }
    }
}

/// How a reply is cut into pieces does not matter: what is settled stays settled,
/// and what is asked for never reaches past the end of the reply into the bytes
/// of the tunnel.
pub proof fn a_reply_reads_alike_however_it_is_cut(bytes: Seq<u8>, more: Seq<u8>)
    ensures
        match reply_reading(bytes) {
            Ok(ReadingShape::Short(wanted)) => {
                &&& wanted > 0
                &&& reply_reading(bytes + more) matches Ok(ReadingShape::Whole(_, length))
                    ==> bytes.len() + wanted <= length
            },
            Ok(ReadingShape::Whole(_, length)) => {
                &&& length <= bytes.len()
                &&& reply_reading(bytes + more) == reply_reading(bytes)
            },
            Err(_) => reply_reading(bytes + more) == reply_reading(bytes),
        },
{
    let all = bytes + more;
    if bytes.len() >= 3 {
        let address = bytes.subrange(3, bytes.len() as int);
        an_address_reads_alike_however_it_is_cut(address, more);
        assert(all.subrange(3, all.len() as int) =~= address + more);
    } else if all.len() >= 3 {
        lemma_within(all.subrange(3, all.len() as int));
    }
}

} // verus!
