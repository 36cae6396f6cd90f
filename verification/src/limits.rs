//! The limits that the protocols keep to, in numbers.
use crate::naive::padding::{FIRST_PADDINGS, MAX_PAYLOAD_SIZE};
use crate::naive::request::{MAX_CONNECT_ATTEMPTS, MAX_PADDING_HEADER, MIN_PADDING_HEADER};
use crate::naive::session::{allowed, ASSUMED_MAX_STREAMS, MAX_STREAMS_PER_CONNECTION};
use crate::reality::common::{OUTGOING_BUFFER_LIMIT, PLAINTEXT_READ_BUF_CAPACITY};
use crate::reality::driver::MAX_HANDSHAKE_ITERATIONS;
use crate::reality::runtime_tables::{after_install, parsed_document, TablesShape};
use crate::shadowsocks::simple_obfs::{MAX_HTTP_RESPONSE_HEADER, MAX_RECORD};
use crate::shadowtls::handshake::{MAX_HANDSHAKE_BUFFER, MUDDLED_RESPONSE_LIMIT};
use crate::shadowtls::sender::MAX_PROOF_PLAINTEXT;
use crate::shadowtls::wire::{MAX_DATA_PER_RECORD, MAX_TLS_RECORD};
use crate::socks::codec::{MAX_DOMAIN_LEN, MAX_UDP_DATAGRAM};
use crate::socks::udp::MAX_UNSOLICITED_CONTROL_BYTES;
use vstd::prelude::*;

verus! {

/// A document of more than four mebibytes is refused unread, and changes nothing.
pub proof fn a_document_has_at_most_four_mebibytes(tables: TablesShape, document: Seq<u8>)
    requires
        document.len() > 4194304,
    ensures
        parsed_document(document) is Err,
        after_install(tables, document).0 is Err,
        after_install(tables, document).1 == tables,
{
    reveal(parsed_document);
}

/// A connection carries as many streams as its peer allows, but one at least and 128 at
/// most.
pub proof fn a_connection_carries_up_to_128_streams(streams: usize)
    ensures
        1 <= allowed(streams) <= 128,
        1 <= streams <= 128 ==> allowed(streams) == streams,
        streams > 128 ==> allowed(streams) == 128,
{
}

/// The other limits: on the rounds of a handshake, on what is buffered, on what goes into
/// one record, frame, header, datagram or name, and on what is tried again.
pub proof fn the_other_limits_are_these()
    ensures
        MAX_HANDSHAKE_ITERATIONS == 64,
        OUTGOING_BUFFER_LIMIT == 65536,
        PLAINTEXT_READ_BUF_CAPACITY == 33290,
        MAX_TLS_RECORD == 18432,
        MAX_DATA_PER_RECORD == 16380,
        MAX_PROOF_PLAINTEXT == 18428,
        MAX_HANDSHAKE_BUFFER == 65536,
        MUDDLED_RESPONSE_LIMIT == 16384,
        MAX_RECORD == 16384,
        MAX_HTTP_RESPONSE_HEADER == 8192,
        MAX_UNSOLICITED_CONTROL_BYTES == 65536,
        MAX_DOMAIN_LEN == 255,
        MAX_UDP_DATAGRAM == 65507,
        FIRST_PADDINGS == 8,
        MAX_PAYLOAD_SIZE == 65535,
        MIN_PADDING_HEADER == 16,
        MAX_PADDING_HEADER == 32,
        ASSUMED_MAX_STREAMS == 16,
        MAX_STREAMS_PER_CONNECTION == 128,
        MAX_CONNECT_ATTEMPTS == 3,
{
}

} // verus!
