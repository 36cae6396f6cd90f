//! A disguised TLS stream from its first byte to its end: however the carrier cuts
//! the bytes and however the reads are made, the payloads arrive in order, and the
//! stream ends cleanly only between two records.
use crate::error::Fault;
use crate::octets::{be16, read16};
use crate::shadowsocks::obfs_laws::{
    a_read_gives_the_front_of_the_payload, a_written_record_reads_back, behind, filled, may_end,
    stripped, the_payload_does_not_depend_on_the_cuts, Stripped,
};
use crate::shadowsocks::simple_obfs::{
    cut_short, least, parsed_header, past, read_step, InShape, ReadState, ReadStepShape,
    APPLICATION_DATA, MAX_RECORD, TLS_FIRST_RESPONSE_LEN,
};
use vstd::prelude::*;

verus! {

/// What happens to the reading half: the carrier gives bytes, none being its end,
/// or a read with so much room is made.
pub enum Turn {
    Fill(Seq<u8>),
    Read(int),
}

/// All that the carrier gives.
pub open spec fn carried(turns: Seq<Turn>) -> Seq<u8>
    decreases turns.len(),
{
    if turns.len() == 0 {
        Seq::empty()
    } else {
        match turns[0] {
            Turn::Fill(bytes) => bytes + carried(turns.drop_first()),
            Turn::Read(_) => carried(turns.drop_first()),
        }
    }
}

/// Whether a carrier that has ended gives nothing more.
pub open spec fn orderly(turns: Seq<Turn>, eof: bool) -> bool
    decreases turns.len(),
{
    turns.len() == 0 || match turns[0] {
        Turn::Fill(bytes) => (eof ==> bytes.len() == 0) && orderly(
            turns.drop_first(),
            eof || bytes.len() == 0,
        ),
        Turn::Read(room) => room >= 0 && orderly(turns.drop_first(), eof),
    }
}

/// What turns come to: the bytes that the reads gave out, the reading half
/// afterwards, and the fault that a read ended in.
pub struct Outcome {
    pub delivered: Seq<u8>,
    pub rest: InShape,
    pub fault: Option<Fault>,
}

/// The reading half after the carrier gave bytes.
pub open spec fn fed(reading: InShape, bytes: Seq<u8>) -> InShape {
    InShape {
        inbox: reading.inbox + bytes,
        eof: reading.eof || bytes.len() == 0,
        ..reading
    }
}

/// What turns come to, one after another, up to the first fault.
pub open spec fn outcome(reading: InShape, turns: Seq<Turn>) -> Outcome
    decreases turns.len(),
{
    if turns.len() == 0 {
        Outcome { delivered: Seq::empty(), rest: reading, fault: None }
    } else {
        let others = turns.drop_first();
        match turns[0] {
            Turn::Fill(bytes) => outcome(fed(reading, bytes), others),
            Turn::Read(room) => match read_step(reading, room) {
                (Err(fault), next) => Outcome {
                    delivered: Seq::empty(),
                    rest: next,
                    fault: Some(fault),
                },
                (Ok(ReadStepShape::Data(data)), next) => {
                    let later = outcome(next, others);
                    Outcome { delivered: data + later.delivered, ..later }
                },
                (Ok(_), next) => outcome(next, others),
            },
        }
    }
}

/// Payloads in a row.
pub open spec fn joined(payloads: Seq<Seq<u8>>) -> Seq<u8>
    decreases payloads.len(),
{
    if payloads.len() == 0 {
        Seq::empty()
    } else {
        payloads[0] + joined(payloads.drop_first())
    }
}

/// A record of application data.
pub open spec fn record(payload: Seq<u8>) -> Seq<u8> {
    APPLICATION_DATA@ + be16(payload.len() as u16) + payload
}

/// Records in a row.
pub open spec fn records(payloads: Seq<Seq<u8>>) -> Seq<u8>
    decreases payloads.len(),
{
    if payloads.len() == 0 {
        Seq::empty()
    } else {
        record(payloads[0]) + records(payloads.drop_first())
    }
}

/// Whether bytes are the first response of a server up to its payload, which has
/// `length` bytes.
pub open spec fn response_head(head: Seq<u8>, length: nat) -> bool {
    &&& head.len() == TLS_FIRST_RESPONSE_LEN
    &&& head[0] == 0x16 && head[102] == 0x16 && head[103] == 0x03 && head[104] == 0x03
    &&& length <= 65535
    &&& read16(head, 105) == length
}

/// The reading half of a TLS stream before anything came in.
pub open spec fn fresh() -> InShape {
    InShape { state: ReadState::TlsFirstResponse, inbox: Seq::empty(), eof: false }
}

/// The reading half between two records.
pub open spec fn between_records() -> InShape {
    InShape { state: ReadState::TlsRecordHeader, inbox: Seq::empty(), eof: false }
}

/// Two reading halves that differ at most in whether the carrier has ended.
spec fn alike(left: InShape, right: InShape) -> bool {
    left.state == right.state && left.inbox == right.inbox
}

/// That the carrier has ended does not change what came in.
proof fn lemma_eof(reading: InShape, eof: bool)
    ensures
        ({
            let other = InShape { eof, ..reading };
            &&& stripped(other).payload == stripped(reading).payload
            &&& stripped(other).fault == stripped(reading).fault
            &&& stripped(other).rest == (InShape { eof, ..stripped(reading).rest })
        }),
    decreases
            reading.inbox.len(),
            if reading.state is Payload {
                1int
            } else {
                0
            },
{
    let other = InShape { eof, ..reading };
    let (settled, next) = parsed_header(reading);
    assert(parsed_header(other) == (settled, InShape { eof, ..next }));
    if settled == Ok::<bool, Fault>(true) {
        if let ReadState::Payload { remaining } = next.state {
            if remaining == 0 {
                lemma_eof(InShape { state: ReadState::TlsRecordHeader, ..next }, eof);
            } else if next.inbox.len() > 0 {
                let take = least(remaining as int, next.inbox.len() as int);
                let state = ReadState::Payload { remaining: (remaining - take) as usize };
                lemma_eof(past(next, take, state), eof);
                assert(past(InShape { eof, ..next }, take, state) == (InShape {
                    eof,
                    ..past(next, take, state)
                }));
            }
        }
    }
}

proof fn lemma_nothing_carried(turns: Seq<Turn>)
    requires
        orderly(turns, true),
    ensures
        carried(turns) == Seq::<u8>::empty(),
    decreases turns.len(),
{
    if turns.len() > 0 {
        lemma_nothing_carried(turns.drop_first());
        assert(carried(turns) =~= Seq::<u8>::empty());
    }
}

/// A read takes nothing from the whole but what it gives out.
proof fn lemma_read_keeps(reading: InShape, room: int, more: Seq<u8>)
    requires
        0 <= room,
        reading.state != ReadState::HttpHeader,
        stripped(filled(reading, more)).fault is None,
    ensures
        stripped(reading).fault is None,
        match read_step(reading, room) {
            (Ok(ReadStepShape::Data(data)), next) => stripped(filled(reading, more)) == behind(
                data,
                stripped(filled(next, more)),
            ),
            (Ok(_), next) => stripped(filled(reading, more)) == stripped(filled(next, more)),
            (Err(_), _) => true,
        },
{
    the_payload_does_not_depend_on_the_cuts(reading, more);
    a_read_gives_the_front_of_the_payload(reading, room);
    let first = stripped(reading);
    match read_step(reading, room) {
        (Ok(ReadStepShape::Data(data)), next) => {
            lemma_no_header(reading, room);
            the_payload_does_not_depend_on_the_cuts(next, more);
            let later = stripped(filled(first.rest, more));
            assert(data + (stripped(next).payload + later.payload) =~= (data + stripped(
                next,
            ).payload) + later.payload);
        },
        (Ok(_), next) => {
            let later = stripped(filled(next, more));
            assert(Seq::<u8>::empty() + later.payload =~= later.payload);
        },
        _ => {},
    }
}

/// A stream that is not before an HTTP header never comes before one.
proof fn lemma_no_header(reading: InShape, room: int)
    requires
        reading.state != ReadState::HttpHeader,
    ensures
        read_step(reading, room).1.state != ReadState::HttpHeader,
    decreases
            reading.inbox.len(),
            if reading.state is Payload {
                1int
            } else {
                0
            },
{
    let (settled, next) = parsed_header(reading);
    if settled == Ok::<bool, Fault>(true) && next.state == (ReadState::Payload { remaining: 0 }) {
        lemma_no_header(InShape { state: ReadState::TlsRecordHeader, ..next }, room);
    }
}

/// Whatever the turns are, what the reads gave out and what is left of the bytes
/// make the payload of all the bytes together.
proof fn lemma_outcome(reading: InShape, turns: Seq<Turn>)
    requires
        reading.state != ReadState::HttpHeader,
        orderly(turns, reading.eof),
        stripped(filled(reading, carried(turns))).fault is None,
    ensures
        ({
            let whole = stripped(filled(reading, carried(turns)));
            let end = outcome(reading, turns);
            match end.fault {
                Some(fault) => fault == cut_short() && !may_end(whole.rest) && end.delivered
                    == whole.payload,
                None => {
                    &&& end.delivered + stripped(end.rest).payload == whole.payload
                    &&& stripped(end.rest).fault is None
                    &&& alike(stripped(end.rest).rest, whole.rest)
                },
            }
        }),
    decreases turns.len(),
{
    let more = carried(turns);
    let whole = stripped(filled(reading, more));
    if turns.len() == 0 {
        assert(filled(reading, more).inbox =~= reading.inbox);
        assert(Seq::<u8>::empty() + stripped(reading).payload =~= stripped(reading).payload);
    } else {
        let others = turns.drop_first();
        let later = carried(others);
        match turns[0] {
            Turn::Fill(bytes) => {
                let next = fed(reading, bytes);
                assert(filled(next, later).inbox =~= filled(reading, more).inbox);
                lemma_eof(filled(reading, more), next.eof);
                assert(filled(next, later) == (InShape {
                    eof: next.eof,
                    ..filled(reading, more)
                }));
                lemma_outcome(next, others);
            },
            Turn::Read(room) => {
                lemma_read_keeps(reading, room, more);
                a_read_gives_the_front_of_the_payload(reading, room);
                lemma_no_header(reading, room);
                match read_step(reading, room) {
                    (Err(fault), _) => {
                        lemma_nothing_carried(others);
                        assert(filled(reading, more).inbox =~= reading.inbox);
                        assert(whole.payload =~= Seq::<u8>::empty());
                    },
                    (Ok(ReadStepShape::Data(data)), next) => {
                        lemma_outcome(next, others);
                        let end = outcome(next, others);
                        if end.fault is None {
                            assert(data + (end.delivered + stripped(end.rest).payload) =~= (data
                                + end.delivered) + stripped(end.rest).payload);
                        }
                    },
                    (Ok(_), next) => {
                        lemma_outcome(next, others);
                    },
                }
            },
        }
    }
}

/// Records in a row, read where a record begins, give their payloads.
proof fn lemma_records(payloads: Seq<Seq<u8>>)
    requires
        forall|i: int| 0 <= i < payloads.len() ==> (#[trigger] payloads[i]).len() <= MAX_RECORD,
    ensures
        stripped(filled(between_records(), records(payloads))) == (Stripped {
            payload: joined(payloads),
            rest: between_records(),
            fault: None,
        }),
    decreases payloads.len(),
{
    let start = between_records();
    if payloads.len() == 0 {
        assert(filled(start, records(payloads)).inbox =~= Seq::<u8>::empty());
    } else {
        let others = payloads.drop_first();
        let first = filled(start, record(payloads[0]));
        lemma_records(others);
        a_written_record_reads_back(payloads[0], false);
        assert(first.inbox =~= record(payloads[0]));
        the_payload_does_not_depend_on_the_cuts(first, records(others));
        assert(filled(start, records(payloads)).inbox =~= filled(first, records(others)).inbox);
    }
}

/// The first response gives its payload and leaves the stream between two records.
proof fn lemma_response(head: Seq<u8>, payload: Seq<u8>)
    requires
        response_head(head, payload.len()),
    ensures
        stripped(filled(fresh(), head + payload)) == (Stripped {
            payload,
            rest: between_records(),
            fault: None,
        }),
{
    let reading = filled(fresh(), head + payload);
    let inbox = reading.inbox;
    assert(inbox =~= head + payload);
    assert(read16(inbox, 105) == read16(head, 105));
    let next = parsed_header(reading).1;
    assert(next.inbox =~= payload);
    let state = ReadState::Payload { remaining: 0 };
    let empty = InShape { state, inbox: Seq::empty(), eof: false };
    assert(stripped(between_records()) == (Stripped {
        payload: Seq::empty(),
        rest: between_records(),
        fault: None,
    }));
    assert(parsed_header(empty) == (Ok::<bool, Fault>(true), empty));
    assert(stripped(empty) == stripped(between_records()));
    if payload.len() == 0 {
        assert(next.inbox =~= Seq::<u8>::empty());
        assert(payload =~= Seq::<u8>::empty());
    } else {
        let after = past(next, payload.len() as int, state);
        assert(after.inbox =~= Seq::<u8>::empty());
        assert(next.inbox.subrange(0, payload.len() as int) =~= payload);
        assert(payload + Seq::<u8>::empty() =~= payload);
        assert(parsed_header(next) == (Ok::<bool, Fault>(true), next));
    }
}

/// What a response and whole records in front of more bytes come to.
proof fn lemma_units(head: Seq<u8>, first: Seq<u8>, payloads: Seq<Seq<u8>>, more: Seq<u8>)
    requires
        response_head(head, first.len()),
        forall|i: int| 0 <= i < payloads.len() ==> (#[trigger] payloads[i]).len() <= MAX_RECORD,
    ensures
        stripped(filled(fresh(), head + first + records(payloads) + more)) == behind(
            first + joined(payloads),
            stripped(filled(between_records(), more)),
        ),
{
    let start = filled(fresh(), head + first);
    lemma_response(head, first);
    lemma_records(payloads);
    let behind_first = records(payloads) + more;
    the_payload_does_not_depend_on_the_cuts(start, behind_first);
    let second = filled(between_records(), records(payloads));
    the_payload_does_not_depend_on_the_cuts(second, more);
    assert(filled(fresh(), head + first + records(payloads) + more).inbox =~= filled(
        start,
        behind_first,
    ).inbox);
    assert(filled(between_records(), behind_first).inbox =~= filled(second, more).inbox);
    let last = stripped(filled(between_records(), more));
    assert(first + (joined(payloads) + last.payload) =~= (first + joined(payloads))
        + last.payload);
}

/// A disguised stream arrives whole. The carrier gives the first response, its
/// payload and any number of records, cut in any way, and reads of any size are
/// made between: no read fails, and what the reads give out is the payloads in
/// order as far as they go. Once the carrier has ended, a read gives more of them
/// until there are no more, and then the end of the stream.
pub proof fn a_disguised_stream_arrives_whole(
    head: Seq<u8>,
    first: Seq<u8>,
    payloads: Seq<Seq<u8>>,
    turns: Seq<Turn>,
)
    requires
        response_head(head, first.len()),
        forall|i: int| 0 <= i < payloads.len() ==> (#[trigger] payloads[i]).len() <= MAX_RECORD,
        orderly(turns, false),
        carried(turns) == head + first + records(payloads),
    ensures
        ({
            let whole = first + joined(payloads);
            let end = outcome(fresh(), turns);
            &&& end.fault is None
            &&& end.delivered + stripped(end.rest).payload == whole
            &&& end.rest.eof ==> forall|room: int|
                room > 0 ==> match (#[trigger] read_step(end.rest, room)).0 {
                    Ok(ReadStepShape::Data(data)) => data.len() > 0 && (end.delivered
                        + data).is_prefix_of(whole),
                    Ok(ReadStepShape::End) => end.delivered == whole,
                    _ => false,
                }
        }),
{
    let whole = first + joined(payloads);
    let nothing = Seq::<u8>::empty();
    lemma_units(head, first, payloads, nothing);
    assert(head + first + records(payloads) + nothing =~= carried(turns));
    assert(filled(between_records(), nothing).inbox =~= nothing);
    let all = stripped(filled(fresh(), carried(turns)));
    assert(all.rest == between_records());
    assert(all.payload =~= whole);
    lemma_outcome(fresh(), turns);
    let end = outcome(fresh(), turns);
    if end.rest.eof {
        assert forall|room: int| room > 0 implies match (#[trigger] read_step(end.rest, room)).0 {
            Ok(ReadStepShape::Data(data)) => data.len() > 0 && (end.delivered + data).is_prefix_of(
                whole,
            ),
            Ok(ReadStepShape::End) => end.delivered == whole,
            _ => false,
        } by {
            a_read_gives_the_front_of_the_payload(end.rest, room);
            if let (Ok(ReadStepShape::Data(data)), next) = read_step(end.rest, room) {
                let later = stripped(next).payload;
                assert(whole =~= (end.delivered + data) + later);
            } else {
                assert(end.delivered + nothing =~= end.delivered);
                assert(stripped(end.rest).payload =~= nothing);
            }
        }
    }
}

/// The bytes of a unit that has only begun are not a place where the stream may
/// end, and give no more than the front of the unit's payload.
proof fn lemma_begun_record(payload: Seq<u8>, length: int)
    requires
        payload.len() <= MAX_RECORD,
        0 < length < record(payload).len(),
    ensures
        ({
            let begun = stripped(filled(between_records(), record(payload).take(length)));
            &&& begun.fault is None
            &&& !may_end(begun.rest)
            &&& begun.payload.is_prefix_of(payload)
        }),
{
    let all = record(payload);
    let cut = all.take(length);
    let reading = filled(between_records(), cut);
    assert(reading.inbox =~= cut);
    assert(all[3] == be16(payload.len() as u16)[0]);
    assert(all[4] == be16(payload.len() as u16)[1]);
    assert(all.subrange(5, all.len() as int) =~= payload);
    if length >= 5 {
        assert(read16(cut, 3) == payload.len());
        lemma_begun_payload(reading, payload, 5);
    } else {
        assert(stripped(reading) == (Stripped {
            payload: Seq::empty(),
            rest: reading,
            fault: None,
        }));
    }
}

/// Behind a header that promises more payload than there is.
proof fn lemma_begun_payload(reading: InShape, payload: Seq<u8>, front: int)
    requires
        0 <= front <= reading.inbox.len() < front + payload.len(),
        payload.len() <= 65535,
        forall|i: int|
            front <= i < reading.inbox.len() ==> #[trigger] reading.inbox[i] == payload[i - front],
        parsed_header(reading) == (
            Ok::<bool, Fault>(true),
            past(reading, front, ReadState::Payload { remaining: payload.len() as usize }),
        ),
    ensures
        ({
            let begun = stripped(reading);
            &&& begun.fault is None
            &&& !may_end(begun.rest)
            &&& begun.payload.is_prefix_of(payload)
        }),
{
    let next = parsed_header(reading).1;
    let length = next.inbox.len() as int;
    assert(next.inbox =~= payload.take(length));
    if length > 0 {
        let state = ReadState::Payload { remaining: (payload.len() - length) as usize };
        let after = past(next, length, state);
        assert(after.inbox =~= Seq::<u8>::empty());
        assert(parsed_header(after) == (Ok::<bool, Fault>(true), after));
        assert(stripped(after) == (Stripped {
            payload: Seq::empty(),
            rest: after,
            fault: None,
        }));
        assert(parsed_header(next) == (Ok::<bool, Fault>(true), next));
        assert(next.inbox.subrange(0, length) + Seq::<u8>::empty() =~= payload.take(length));
        assert(stripped(reading).payload == payload.take(length));
    } else {
        assert(stripped(reading).payload =~= Seq::<u8>::empty());
    }
}

/// What holds of any turns whose bytes end inside a unit.
pub open spec fn cut_off(turns: Seq<Turn>, promised: Seq<u8>) -> bool {
    let end = outcome(fresh(), turns);
    &&& end.delivered.is_prefix_of(promised)
    &&& end.fault matches Some(fault) ==> fault == cut_short()
    &&& end.fault is None && end.rest.eof ==> forall|room: int|
        room > 0 ==> match (#[trigger] read_step(end.rest, room)).0 {
            Ok(ReadStepShape::Data(data)) => data.len() > 0 && (end.delivered + data).is_prefix_of(
                promised,
            ),
            Err(fault) => fault == cut_short(),
            _ => false,
        }
}

proof fn lemma_cut_off(turns: Seq<Turn>, promised: Seq<u8>)
    requires
        orderly(turns, false),
        stripped(filled(fresh(), carried(turns))).fault is None,
        !may_end(stripped(filled(fresh(), carried(turns))).rest),
        stripped(filled(fresh(), carried(turns))).payload.is_prefix_of(promised),
    ensures
        cut_off(turns, promised),
{
    let all = stripped(filled(fresh(), carried(turns)));
    lemma_outcome(fresh(), turns);
    let end = outcome(fresh(), turns);
    if end.fault is None {
        assert(end.delivered =~= all.payload.take(end.delivered.len() as int));
        assert(end.delivered =~= promised.take(end.delivered.len() as int));
        if end.rest.eof {
            assert forall|room: int| room > 0 implies match (#[trigger] read_step(
                end.rest,
                room,
            )).0 {
                Ok(ReadStepShape::Data(data)) => data.len() > 0 && (end.delivered
                    + data).is_prefix_of(promised),
                Err(fault) => fault == cut_short(),
                _ => false,
            } by {
                a_read_gives_the_front_of_the_payload(end.rest, room);
                if let (Ok(ReadStepShape::Data(data)), next) = read_step(end.rest, room) {
                    let given = end.delivered + data;
                    assert(all.payload =~= given + stripped(next).payload);
                    assert(given =~= promised.take(given.len() as int));
                }
            }
        }
    }
}

/// A stream that is cut off inside a record never ends cleanly: the reads give out
/// the payloads in order as far as they came, and then say that the carrier ended
/// unexpectedly.
pub proof fn a_record_cut_off_is_no_clean_end(
    head: Seq<u8>,
    first: Seq<u8>,
    payloads: Seq<Seq<u8>>,
    begun: Seq<u8>,
    length: int,
    turns: Seq<Turn>,
)
    requires
        response_head(head, first.len()),
        forall|i: int| 0 <= i < payloads.len() ==> (#[trigger] payloads[i]).len() <= MAX_RECORD,
        begun.len() <= MAX_RECORD,
        0 < length < record(begun).len(),
        orderly(turns, false),
        carried(turns) == head + first + records(payloads) + record(begun).take(length),
    ensures
        cut_off(turns, first + joined(payloads) + begun),
{
    let cut = record(begun).take(length);
    lemma_units(head, first, payloads, cut);
    lemma_begun_record(begun, length);
    let last = stripped(filled(between_records(), cut));
    let all = stripped(filled(fresh(), carried(turns)));
    let front = first + joined(payloads);
    assert(all.payload =~= (front + begun).take(all.payload.len() as int)) by {
        assert(last.payload =~= begun.take(last.payload.len() as int));
    }
    lemma_cut_off(turns, front + begun);
}

/// A stream that is cut off inside the first response or its payload never ends
/// cleanly either.
pub proof fn a_response_cut_off_is_no_clean_end(
    head: Seq<u8>,
    first: Seq<u8>,
    length: int,
    turns: Seq<Turn>,
)
    requires
        response_head(head, first.len()),
        0 <= length < head.len() + first.len(),
        orderly(turns, false),
        carried(turns) == (head + first).take(length),
    ensures
        cut_off(turns, first),
{
    let cut = (head + first).take(length);
    let reading = filled(fresh(), cut);
    assert(reading.inbox =~= cut);
    if length >= 107 {
        assert(read16(cut, 105) == read16(head, 105));
        lemma_begun_payload(reading, first, 107);
    } else {
        assert(stripped(reading) == (Stripped {
            payload: Seq::empty(),
            rest: reading,
            fault: None,
        }));
    }
    lemma_cut_off(turns, first);
}

} // verus!
