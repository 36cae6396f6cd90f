//! What holds of a disguised stream as a whole: the payload does not depend on how
//! the carrier cuts its bytes, and what is written can be read.
use crate::error::Fault;
use crate::octets::{be16, read16};
use crate::shadowsocks::simple_obfs::{
    cut_short, disguised_hello, header_end, hello_front, hello_name, hello_ticket, least, low16,
    parsed_header, past, payload_step, read_step, terminator_at, InShape, ObfsDraws, ReadState,
    ReadStepShape, APPLICATION_DATA, CIPHER_SUITES, CLIENT_HELLO_OVERHEAD,
    MAX_HTTP_RESPONSE_HEADER, MAX_RECORD, OTHER_EXTENSIONS,
};
use vstd::prelude::*;

verus! {

/// All the payload that what came in holds, where it stops, and the fault that
/// stopped it, if one did.
pub struct Stripped {
    pub payload: Seq<u8>,
    pub rest: InShape,
    pub fault: Option<Fault>,
}

/// The same with more payload in front.
pub open spec fn behind(front: Seq<u8>, stripped: Stripped) -> Stripped {
    Stripped { payload: front + stripped.payload, ..stripped }
}

/// The reading half with more bytes from the carrier.
pub open spec fn filled(reading: InShape, more: Seq<u8>) -> InShape {
    InShape { inbox: reading.inbox + more, ..reading }
}

/// The payload of what came in.
pub open spec fn stripped(reading: InShape) -> Stripped
    decreases
            reading.inbox.len(),
            if reading.state is Payload {
                1int
            } else {
                0
            },
{
    match parsed_header(reading) {
        (Err(fault), next) => Stripped { payload: Seq::empty(), rest: next, fault: Some(fault) },
        (Ok(false), next) => Stripped { payload: Seq::empty(), rest: next, fault: None },
        (Ok(true), next) => match next.state {
            ReadState::Payload { remaining } => if remaining == 0 {
                stripped(InShape { state: ReadState::TlsRecordHeader, ..next })
            } else if next.inbox.len() == 0 {
                Stripped { payload: Seq::empty(), rest: next, fault: None }
            } else {
                let take = least(remaining as int, next.inbox.len() as int);
                behind(
                    next.inbox.subrange(0, take),
                    stripped(
                        past(
                            next,
                            take,
                            ReadState::Payload { remaining: (remaining - take) as usize },
                        ),
                    ),
                )
            },
            _ => Stripped {
                payload: next.inbox,
                rest: past(next, next.inbox.len() as int, next.state),
                fault: None,
            },
        },
    }
}

proof fn lemma_header_end_stays(bytes: Seq<u8>, more: Seq<u8>, from: int)
    requires
        0 <= from,
        header_end(bytes, from) is Some,
    ensures
        header_end(bytes + more, from) == header_end(bytes, from),
        from + 4 <= header_end(bytes, from)->Some_0 <= bytes.len(),
    decreases bytes.len() - from,
{
    let all = bytes + more;
    if from + 4 <= bytes.len() {
        assert(all[from] == bytes[from] && all[from + 1] == bytes[from + 1] && all[from + 2]
            == bytes[from + 2] && all[from + 3] == bytes[from + 3]);
        if !terminator_at(bytes, from) {
            lemma_header_end_stays(bytes, more, from + 1);
        }
    }
}

proof fn lemma_past_filled(reading: InShape, more: Seq<u8>, taken: int, state: ReadState)
    requires
        0 <= taken <= reading.inbox.len(),
    ensures
        past(filled(reading, more), taken, state) == filled(past(reading, taken, state), more),
{
    let all = reading.inbox + more;
    assert(all.subrange(taken, all.len() as int) =~= reading.inbox.subrange(
        taken,
        reading.inbox.len() as int,
    ) + more);
}

/// A header that is settled stays settled when more bytes come.
proof fn lemma_header_stays(reading: InShape, more: Seq<u8>)
    requires
        reading.state == ReadState::HttpHeader ==> header_end(reading.inbox, 0) is Some,
        parsed_header(reading).0 != Ok::<bool, Fault>(false),
    ensures
        parsed_header(filled(reading, more)) == (
            parsed_header(reading).0,
            filled(parsed_header(reading).1, more),
        ),
{
    let all = reading.inbox + more;
    match reading.state {
        ReadState::HttpHeader => {
            lemma_header_end_stays(reading.inbox, more, 0);
            lemma_past_filled(
                reading,
                more,
                header_end(reading.inbox, 0)->Some_0,
                ReadState::Relay,
            );
        },
        ReadState::TlsFirstResponse => {
            assert(all[0] == reading.inbox[0] && all[102] == reading.inbox[102] && all[103]
                == reading.inbox[103] && all[104] == reading.inbox[104] && all[105]
                == reading.inbox[105] && all[106] == reading.inbox[106]);
            lemma_past_filled(reading, more, 107, reading.state);
            lemma_past_filled(
                reading,
                more,
                107,
                ReadState::Payload { remaining: read16(reading.inbox, 105) as usize },
            );
        },
        ReadState::TlsRecordHeader => {
            assert(all[0] == reading.inbox[0] && all[1] == reading.inbox[1] && all[2]
                == reading.inbox[2] && all[3] == reading.inbox[3] && all[4] == reading.inbox[4]);
            lemma_past_filled(reading, more, 5, reading.state);
            lemma_past_filled(
                reading,
                more,
                5,
                ReadState::Payload { remaining: read16(reading.inbox, 3) as usize },
            );
        },
        _ => {},
    }
}

/// How the carrier cuts its bytes does not matter: the payload of the bytes that
/// came first, followed by the payload of what is left of them with those that
/// came later, is the payload of all of them. The one exception is a response
/// header that has already been given up as too long.
pub proof fn the_payload_does_not_depend_on_the_cuts(reading: InShape, more: Seq<u8>)
    requires
        reading.state == ReadState::HttpHeader ==> reading.inbox.len()
            <= MAX_HTTP_RESPONSE_HEADER || header_end(reading.inbox, 0) is Some,
    ensures
        ({
            let first = stripped(reading);
            stripped(filled(reading, more)) == match first.fault {
                Some(_) => Stripped { rest: filled(first.rest, more), ..first },
                None => behind(first.payload, stripped(filled(first.rest, more))),
            }
        }),
    decreases
            reading.inbox.len(),
            if reading.state is Payload {
                1int
            } else {
                0
            },
{
    let first = stripped(reading);
    let (settled, next) = parsed_header(reading);
    match settled {
        Ok(false) => {
            let later = stripped(filled(reading, more));
            assert(Seq::<u8>::empty() + later.payload =~= later.payload);
        },
        Err(_) => {
            lemma_header_stays(reading, more);
        },
        Ok(true) => {
            lemma_header_stays(reading, more);
            match next.state {
                ReadState::Payload { remaining } => {
                    if remaining == 0 {
                        let onward = InShape { state: ReadState::TlsRecordHeader, ..next };
                        the_payload_does_not_depend_on_the_cuts(onward, more);
                        assert(filled(onward, more) == (InShape {
                            state: ReadState::TlsRecordHeader,
                            ..filled(next, more)
                        }));
                    } else {
                        lemma_payload_cut(next, remaining, more);
                    }
                },
                _ => {
                    lemma_relay_cut(next, more);
                },
            }
        },
    }
}

proof fn lemma_relay_cut(next: InShape, more: Seq<u8>)
    requires
        next.state == ReadState::Relay,
    ensures
        ({
            let rest = past(next, next.inbox.len() as int, next.state);
            let later = stripped(filled(rest, more));
            stripped(filled(next, more)) == behind(next.inbox, later)
        }),
{
    let rest = past(next, next.inbox.len() as int, next.state);
    let later = filled(rest, more);
    let all = filled(next, more);
    assert(later.inbox =~= more);
    assert(past(later, later.inbox.len() as int, later.state).inbox =~= Seq::<u8>::empty());
    assert(past(all, all.inbox.len() as int, all.state).inbox =~= Seq::<u8>::empty());
}

#[verifier::spinoff_prover]
#[verifier::rlimit(60)]
proof fn lemma_payload_cut(next: InShape, remaining: usize, more: Seq<u8>)
    requires
        next.state == (ReadState::Payload { remaining }),
        remaining > 0,
    ensures
        ({
            let first = stripped(next);
            stripped(filled(next, more)) == match first.fault {
                Some(_) => Stripped { rest: filled(first.rest, more), ..first },
                None => behind(first.payload, stripped(filled(first.rest, more))),
            }
        }),
    decreases next.inbox.len(), 0int,
{
    let all = filled(next, more);
    let length = next.inbox.len() as int;
    if length == 0 {
        let later = stripped(all);
        assert(Seq::<u8>::empty() + later.payload =~= later.payload);
    } else if remaining <= length {
        let take = remaining as int;
        let state = ReadState::Payload { remaining: 0 };
        let onward = past(next, take, state);
        assert(all.inbox.subrange(0, take) =~= next.inbox.subrange(0, take));
        lemma_past_filled(next, more, take, state);
        the_payload_does_not_depend_on_the_cuts(onward, more);
        let front = next.inbox.subrange(0, take);
        let tail = stripped(onward);
        assert(stripped(next) == behind(front, tail));
        assert(stripped(all) == behind(front, stripped(filled(onward, more))));
        if tail.fault is None {
            let later = stripped(filled(tail.rest, more));
            assert(front + (tail.payload + later.payload) =~= (front + tail.payload)
                + later.payload);
        }
    } else {
        let state = ReadState::Payload { remaining: (remaining - length) as usize };
        let onward = past(next, length, state);
        assert(onward.inbox =~= Seq::<u8>::empty());
        assert(next.inbox.subrange(0, length) =~= next.inbox);
        let tail = stripped(onward);
        assert(tail == (Stripped { payload: Seq::empty(), rest: onward, fault: None }));
        assert(stripped(next) == behind(next.inbox, tail));
        assert(next.inbox + Seq::<u8>::empty() =~= next.inbox);
        let later = filled(onward, more);
        assert(later.inbox =~= more);
        if more.len() == 0 {
            assert(all.inbox =~= next.inbox);
            assert(later.inbox =~= onward.inbox);
        } else {
            let wanted = least(remaining as int, all.inbox.len() as int);
            let behind_first = least(remaining - length, more.len() as int);
            assert(wanted == length + behind_first);
            assert(all.inbox.subrange(0, wanted) =~= next.inbox + more.subrange(0, behind_first));
            let after = ReadState::Payload { remaining: (remaining - wanted) as usize };
            assert(past(all, wanted, after).inbox =~= past(later, behind_first, after).inbox);
            assert(past(all, wanted, after) == past(later, behind_first, after));
            let rest = stripped(past(all, wanted, after));
            assert(next.inbox + (more.subrange(0, behind_first) + rest.payload) =~= (next.inbox
                + more.subrange(0, behind_first)) + rest.payload);
        }
    }
}

/// Whether a stream may end here: nothing is left, and a record could begin.
pub open spec fn may_end(reading: InShape) -> bool {
    reading.inbox.len() == 0 && (reading.state == ReadState::TlsRecordHeader || reading.state
        == ReadState::Relay)
}

/// What a read gives out is the front of the payload, and the rest of the payload
/// is still to come. A read that gives nothing leaves no payload behind: it ends
/// the stream only where the carrier has ended and the stream may, and else asks
/// for more bytes. One that fails leaves no payload behind either: it gives the
/// fault of what came in, or says that the carrier has ended where the stream may
/// not.
pub proof fn a_read_gives_the_front_of_the_payload(reading: InShape, room: int)
    requires
        0 <= room,
    ensures
        match read_step(reading, room) {
            (Ok(ReadStepShape::Data(data)), next) => {
                &&& stripped(reading) == behind(data, stripped(next))
                &&& room > 0 ==> data.len() > 0
                &&& next.eof == reading.eof
            },
            (Ok(step), next) => {
                &&& stripped(reading) == (Stripped {
                    payload: Seq::empty(),
                    rest: next,
                    fault: None,
                })
                &&& next.eof == reading.eof
                &&& step is End <==> reading.eof
                &&& step is End ==> may_end(next)
            },
            (Err(fault), _) => {
                &&& stripped(reading).payload.len() == 0
                &&& match stripped(reading).fault {
                    Some(actual) => actual == fault,
                    None => fault == cut_short() && reading.eof && !may_end(
                        stripped(reading).rest,
                    ),
                }
            },
        },
    decreases
            reading.inbox.len(),
            if reading.state is Payload {
                1int
            } else {
                0
            },
{
    let (settled, next) = parsed_header(reading);
    if settled == Ok::<bool, Fault>(true) {
        match next.state {
            ReadState::Payload { remaining } => {
                if remaining == 0 {
                    let onward = InShape { state: ReadState::TlsRecordHeader, ..next };
                    a_read_gives_the_front_of_the_payload(onward, room);
                } else {
                    lemma_payload_front(next, remaining, room);
                }
            },
            _ => {
                let take = least(next.inbox.len() as int, room);
                let after = past(next, take, next.state);
                assert(next.inbox.subrange(0, take) + after.inbox =~= next.inbox);
                assert(past(after, after.inbox.len() as int, after.state).inbox =~= past(
                    next,
                    next.inbox.len() as int,
                    next.state,
                ).inbox);
                if next.inbox.len() == 0 {
                    assert(past(next, 0, next.state).inbox =~= next.inbox);
                    assert(next.inbox =~= Seq::<u8>::empty());
                }
            },
        }
    }
}

proof fn lemma_payload_front(next: InShape, remaining: usize, room: int)
    requires
        next.state == (ReadState::Payload { remaining }),
        remaining > 0,
        0 <= room,
    ensures
        payload_step(next, room) matches (Ok(ReadStepShape::Data(data)), after) ==> stripped(next)
            == behind(data, stripped(after)),
{
    if next.inbox.len() > 0 {
        let whole = least(remaining as int, next.inbox.len() as int);
        let take = least(whole, room);
        let after_state = ReadState::Payload { remaining: (remaining - take) as usize };
        let end_state = ReadState::Payload { remaining: (remaining - whole) as usize };
        let after = past(next, take, after_state);
        let end = past(next, whole, end_state);
        if take == whole {
            assert(after == end);
        } else {
            let rest = whole - take;
            assert(least((remaining - take) as int, after.inbox.len() as int) == rest);
            assert(past(after, rest, end_state).inbox =~= end.inbox);
            assert(past(after, rest, end_state) == end);
            assert(next.inbox.subrange(0, whole) =~= next.inbox.subrange(0, take)
                + after.inbox.subrange(0, rest));
            let tail = stripped(end);
            assert(next.inbox.subrange(0, take) + (after.inbox.subrange(0, rest) + tail.payload)
                =~= next.inbox.subrange(0, whole) + tail.payload);
        }
    }
}

/// A record as it is written, read where a record begins, gives its payload back
/// and leaves the stream where a record may begin.
pub proof fn a_written_record_reads_back(payload: Seq<u8>, eof: bool)
    requires
        payload.len() <= MAX_RECORD,
    ensures
        stripped(
            InShape {
                state: ReadState::TlsRecordHeader,
                inbox: APPLICATION_DATA@ + be16(payload.len() as u16) + payload,
                eof,
            },
        ) == (Stripped {
            payload,
            rest: InShape { state: ReadState::TlsRecordHeader, inbox: Seq::empty(), eof },
            fault: None,
        }),
{
    let inbox = APPLICATION_DATA@ + be16(payload.len() as u16) + payload;
    let reading = InShape { state: ReadState::TlsRecordHeader, inbox, eof };
    let end = InShape { state: ReadState::TlsRecordHeader, inbox: Seq::empty(), eof };
    assert(inbox[3] == be16(payload.len() as u16)[0]);
    assert(inbox[4] == be16(payload.len() as u16)[1]);
    assert(read16(inbox, 3) == payload.len());
    let next = parsed_header(reading).1;
    assert(next.inbox =~= payload);
    let state = ReadState::Payload { remaining: 0 };
    let empty = InShape { state, inbox: Seq::empty(), eof };
    assert(stripped(end) == (Stripped { payload: Seq::empty(), rest: end, fault: None }));
    assert(parsed_header(empty) == (Ok::<bool, Fault>(true), empty));
    assert(stripped(empty) == stripped(end));
    if payload.len() == 0 {
        assert(next.inbox =~= Seq::<u8>::empty());
    } else {
        let after = past(next, payload.len() as int, state);
        assert(after.inbox =~= Seq::<u8>::empty());
        assert(next.inbox.subrange(0, payload.len() as int) =~= payload);
        assert(payload + Seq::<u8>::empty() =~= payload);
        assert(parsed_header(next) == (Ok::<bool, Fault>(true), next));
    }
}

/// The disguised ClientHello is as long as its record header says, as long as it
/// fits one, and carries the payload verbatim behind the session ticket's header.
#[verifier::spinoff_prover]
#[verifier::rlimit(60)]
pub proof fn the_hello_hides_the_payload(host: Seq<u8>, payload: Seq<u8>, draws: ObfsDraws)
    ensures
        ({
            let hello = disguised_hello(host, payload, draws);
            &&& hello.len() == CLIENT_HELLO_OVERHEAD + payload.len() + host.len()
            &&& hello.subrange(142, 142 + payload.len() as int) == payload
            &&& hello.len() < 65541 ==> read16(hello, 3) == hello.len() - 5
        }),
{
    let total = CLIENT_HELLO_OVERHEAD + payload.len() + host.len();
    let front = hello_front(total, draws);
    let ticket = hello_ticket(total, payload);
    let name = hello_name(host);
    let hello = front + ticket + name;
    lemma_hello_lengths(total, host, payload, draws);
    assert(hello.subrange(142, 142 + payload.len() as int) =~= payload) by {
        assert forall|i: int| 0 <= i < payload.len() implies hello[142 + i] == payload[i] by {
            assert(hello[142 + i] == ticket[8 + i]);
        }
    }
    assert(hello[3] == front[3] && hello[4] == front[4]);
}

proof fn lemma_hello_lengths(total: int, host: Seq<u8>, payload: Seq<u8>, draws: ObfsDraws)
    ensures
        hello_front(total, draws).len() == 134,
        hello_front(total, draws)[3] == low16(total - 5)[0],
        hello_front(total, draws)[4] == low16(total - 5)[1],
        hello_ticket(total, payload).len() == 8 + payload.len(),
        forall|i: int|
            0 <= i < payload.len() ==> #[trigger] hello_ticket(total, payload)[8 + i]
                == payload[i],
        hello_name(host).len() == 75 + host.len(),
{
    let start = seq![0x16u8, 0x03u8, 0x01u8] + low16(total - 5);
    assert(start.len() == 5 && start[3] == low16(total - 5)[0] && start[4] == low16(total - 5)[1]);
    assert(draws.random@.len() == 28 && draws.session_id@.len() == 32);
    assert(CIPHER_SUITES@.len() == 56 && OTHER_EXTENSIONS@.len() == 66);
}

} // verus!
