//! The second stage: data in tagged records, behind the handshake.
use crate::error::{invalid_data, ErrorKind, Fault, WireError};
use crate::octets::{get_u16, push_bytes, read16, split_front, to_vec};
use crate::shadowtls::handshake::SwitchState;
use crate::shadowtls::wire::{
    chain_of, hmac_sha1_of, invalid, record_of, write_record, ChainShape, HmacChain,
    MAX_DATA_PER_RECORD, MAX_TLS_RECORD, TLS_ALERT, TLS_APPLICATION_DATA, TLS_CHANGE_CIPHER_SPEC,
    TLS_HANDSHAKE,
};
use vstd::prelude::*;
use vstd::slice::slice_subrange;

verus! {

/// The alert by which a side closes.
pub const ALERT_CLOSE_NOTIFY: [u8; 2] = [1, 0];

/// The alert for a record whose tag is wrong.
pub const ALERT_BAD_RECORD_MAC: [u8; 2] = [2, 20];

/// Reads records off what the socket gives.
pub struct RecordReader {
    buffer: Vec<u8>,
}

impl View for RecordReader {
    type V = Seq<u8>;

    closed spec fn view(&self) -> Seq<u8> {
        self.buffer@
    }
}

/// How long the record is at the front of the bytes, where it is whole.
pub open spec fn front_record(bytes: Seq<u8>) -> Result<Option<int>, Fault> {
    if bytes.len() < 5 {
        Ok(None)
    } else if bytes[1] != 3 || bytes[2] != 3 {
        Err(invalid_data("ShadowTLS stage-2 TLS record version is not 1.2"@))
    } else if read16(bytes, 3) > MAX_TLS_RECORD {
        Err(invalid_data("ShadowTLS stage-2 TLS record is too large"@))
    } else if bytes.len() < 5 + read16(bytes, 3) {
        Ok(None)
    } else {
        Ok(Some(5 + read16(bytes, 3)))
    }
}

/// The fault of a socket that ends.
pub open spec fn ended(bytes: Seq<u8>) -> Fault {
    if bytes.len() < 5 {
        (ErrorKind::UnexpectedEof, "ShadowTLS socket closed before a TLS record header"@)
    } else {
        (ErrorKind::UnexpectedEof, "ShadowTLS socket closed inside a TLS record"@)
    }
}

impl RecordReader {
    /// A reader that starts from bytes that have come already.
    pub fn new(prefix: Vec<u8>) -> (reader: RecordReader)
        ensures
            reader@ == prefix@,
    {
        RecordReader { buffer: prefix }
    }

    /// The socket gave these bytes.
    pub fn fill(&mut self, data: &[u8])
        ensures
            final(self)@ == old(self)@ + data@,
    {
        push_bytes(&mut self.buffer, data);
    }

    /// The next record, where it is whole.
    pub fn read(&mut self) -> (result: Result<Option<Vec<u8>>, WireError>)
        ensures
            match front_record(old(self)@) {
                Err(fault) => final(self)@ == old(self)@ && (result matches Err(error) && error@
                    == fault),
                Ok(None) => final(self)@ == old(self)@ && (result matches Ok(None)),
                Ok(Some(length)) => {
                    &&& result matches Ok(Some(record)) && record@ == old(self)@.subrange(
                        0,
                        length,
                    )
                    &&& final(self)@ == old(self)@.subrange(length, old(self)@.len() as int)
                },
            },
    {
        if self.buffer.len() < 5 {
            return Ok(None);
        }
        if self.buffer[1] != 3 || self.buffer[2] != 3 {
            return Err(invalid("ShadowTLS stage-2 TLS record version is not 1.2"));
        }
        let length = get_u16(self.buffer.as_slice(), 3) as usize;
        if length > MAX_TLS_RECORD {
            return Err(invalid("ShadowTLS stage-2 TLS record is too large"));
        }
        if self.buffer.len() < 5 + length {
            return Ok(None);
        }
        Ok(Some(split_front(&mut self.buffer, 5 + length)))
    }

    /// The socket has ended before the next record.
    pub fn end_of_input(&self) -> (error: WireError)
        ensures
            error@ == ended(self@),
    {
        if self.buffer.len() < 5 {
            WireError::new(
                ErrorKind::UnexpectedEof,
                "ShadowTLS socket closed before a TLS record header",
            )
        } else {
            WireError::new(
                ErrorKind::UnexpectedEof,
                "ShadowTLS socket closed inside a TLS record",
            )
        }
    }
}

/// The whole records at the front of bytes, and what is left behind them.
pub open spec fn cut_records(bytes: Seq<u8>) -> (Result<Seq<Seq<u8>>, Fault>, Seq<u8>)
    decreases bytes.len(),
{
    match front_record(bytes) {
        Err(fault) => (Err(fault), bytes),
        Ok(None) => (Ok(Seq::empty()), bytes),
        Ok(Some(length)) => {
            let rest = cut_records(bytes.subrange(length, bytes.len() as int));
            (
                match rest.0 {
                    Ok(records) => Ok(seq![bytes.subrange(0, length)] + records),
                    Err(fault) => Err(fault),
                },
                rest.1,
            )
        },
    }
}

/// The bytes of records.
pub open spec fn record_bytes(records: Seq<Vec<u8>>) -> Seq<Seq<u8>> {
    Seq::new(records.len(), |i: int| records[i]@)
}

/// A reader that is fed one segment at a time.
pub struct SwitchedRecordReader {
    reader: RecordReader,
}

impl View for SwitchedRecordReader {
    type V = Seq<u8>;

    closed spec fn view(&self) -> Seq<u8> {
        self.reader@
    }
}

impl SwitchedRecordReader {
    /// A reader that starts from what the first stage has left.
    pub fn new(prefix: &[u8]) -> (reader: SwitchedRecordReader)
        ensures
            reader@ == prefix@,
    {
        SwitchedRecordReader { reader: RecordReader::new(to_vec(prefix)) }
    }

    /// Every record that a segment completes, in order. What is left of the segment
    /// is kept for the next.
    pub fn feed(&mut self, segment: &[u8]) -> (result: Result<Vec<Vec<u8>>, WireError>)
        ensures
            final(self)@ == cut_records(old(self)@ + segment@).1,
            match cut_records(old(self)@ + segment@).0 {
                Ok(records) => result matches Ok(actual) && record_bytes(actual@) == records,
                Err(fault) => result matches Err(error) && error@ == fault,
            },
    {
        self.reader.fill(segment);
        let mut records: Vec<Vec<u8>> = Vec::new();
        let ghost whole = cut_records(old(self)@ + segment@);
        proof {
            assert(record_bytes(records@) =~= Seq::<Seq<u8>>::empty());
            if let Ok(rest) = whole.0 {
                assert(Seq::<Seq<u8>>::empty() + rest =~= rest);
            }
        }
        loop
            invariant
                whole == cut_records(old(self)@ + segment@),
                whole.1 == cut_records(self@).1,
                match cut_records(self@).0 {
                    Ok(rest) => whole.0 == Ok::<Seq<Seq<u8>>, Fault>(
                        record_bytes(records@) + rest,
                    ),
                    Err(fault) => whole.0 == Err::<Seq<Seq<u8>>, Fault>(fault),
                },
            decreases self@.len(),
        {
            let ghost before = self@;
            let ghost earlier = record_bytes(records@);
            match self.reader.read() {
                Err(error) => {
                    return Err(error);
                },
                Ok(None) => {
                    assert(earlier + Seq::<Seq<u8>>::empty() =~= earlier);
                    return Ok(records);
                },
                Ok(Some(record)) => {
                    let ghost bytes = record@;
                    records.push(record);
                    proof {
                        assert(record_bytes(records@) =~= earlier.push(bytes));
                        if let Ok(rest) = cut_records(self@).0 {
                            assert(earlier + (seq![bytes] + rest) =~= earlier.push(bytes) + rest);
                        }
                    }
                },
            }
        }
    }
}

/// How the socket cuts records does not matter: the records that two segments
/// complete one after another are those that their concatenation completes.
pub proof fn records_may_be_cut_anywhere(bytes: Seq<u8>, more: Seq<u8>)
    ensures
        match cut_records(bytes) {
            (Err(fault), _) => cut_records(bytes + more).0 == Err::<Seq<Seq<u8>>, Fault>(fault),
            (Ok(first), rest) => cut_records(bytes + more) == (
                match cut_records(rest + more).0 {
                    Ok(second) => Ok::<Seq<Seq<u8>>, Fault>(first + second),
                    Err(fault) => Err(fault),
                },
                cut_records(rest + more).1,
            ),
        },
    decreases bytes.len(),
{
    let all = bytes + more;
    if bytes.len() >= 5 {
        assert(all[1] == bytes[1] && all[2] == bytes[2] && all[3] == bytes[3] && all[4]
            == bytes[4]);
    }
    match front_record(bytes) {
        Err(_) => {},
        Ok(None) => {
            if let Ok(second) = cut_records(all).0 {
                assert(Seq::<Seq<u8>>::empty() + second =~= second);
            }
        },
        Ok(Some(length)) => {
            let onward = bytes.subrange(length, bytes.len() as int);
            assert(all.subrange(0, length) =~= bytes.subrange(0, length));
            assert(all.subrange(length, all.len() as int) =~= onward + more);
            records_may_be_cut_anywhere(onward, more);
            if let (Ok(later), rest) = cut_records(onward) {
                if let Ok(second) = cut_records(rest + more).0 {
                    assert(seq![bytes.subrange(0, length)] + (later + second) =~= (
                    seq![bytes.subrange(0, length)] + later) + second);
                }
            }
        },
    }
}

/// What a record of the server leads to.
#[derive(Debug)]
pub enum DownloadStep {
    /// These bytes are for the flow.
    Deliver(Vec<u8>),
    /// The record is left over from the outer handshake.
    Skip,
    /// The server closes, and is answered in kind.
    Close,
    /// The record is refused, which the server is told.
    Refuse(WireError),
}

/// The view of such a step.
pub enum DownloadStepShape {
    Deliver(Seq<u8>),
    Skip,
    Close,
    Refuse(Fault),
}

impl View for DownloadStep {
    type V = DownloadStepShape;

    open spec fn view(&self) -> DownloadStepShape {
        match self {
            DownloadStep::Deliver(data) => DownloadStepShape::Deliver(data@),
            DownloadStep::Skip => DownloadStepShape::Skip,
            DownloadStep::Close => DownloadStepShape::Close,
            DownloadStep::Refuse(error) => DownloadStepShape::Refuse(error@),
        }
    }
}

/// The receiving side of the second stage.
pub struct Download {
    server_chain: HmacChain,
    proof_chain: HmacChain,
    server_data_seen: bool,
}

/// The view of the receiving side.
pub struct DownloadShape {
    pub server_chain: ChainShape,
    pub proof_chain: ChainShape,
    pub server_data_seen: bool,
}

impl View for Download {
    type V = DownloadShape;

    closed spec fn view(&self) -> DownloadShape {
        DownloadShape {
            server_chain: self.server_chain@,
            proof_chain: self.proof_chain@,
            server_data_seen: self.server_data_seen,
        }
    }
}

/// What a record of data leads to. Until the server has sent data of its own, a
/// record may still belong to the proof.
pub open spec fn data_step(shape: DownloadShape, payload: Seq<u8>) -> (
    DownloadStepShape,
    DownloadShape,
) {
    let tag = payload.subrange(0, 4);
    let data = payload.subrange(4, payload.len() as int);
    if payload.len() < 4 {
        (
            DownloadStepShape::Refuse(
                invalid_data("ShadowTLS application record is missing its HMAC"@),
            ),
            shape,
        )
    } else if shape.server_chain.takes(tag, data) {
        (
            DownloadStepShape::Deliver(data),
            DownloadShape {
                server_chain: shape.server_chain.behind(data),
                server_data_seen: true,
                ..shape
            },
        )
    } else if !shape.server_data_seen && shape.proof_chain.takes(tag, data) {
        (
            DownloadStepShape::Skip,
            DownloadShape { proof_chain: shape.proof_chain.behind(data), ..shape },
        )
    } else {
        (
            DownloadStepShape::Refuse(
                invalid_data("ShadowTLS server data failed chained HMAC authentication"@),
            ),
            shape,
        )
    }
}

/// What a record leads to.
pub open spec fn record_step(shape: DownloadShape, record: Seq<u8>) -> (
    DownloadStepShape,
    DownloadShape,
) {
    let kind = record[0];
    if kind == TLS_APPLICATION_DATA {
        data_step(shape, record.subrange(5, record.len() as int))
    } else if kind == TLS_ALERT {
        (DownloadStepShape::Close, shape)
    } else if (kind == TLS_HANDSHAKE || kind == TLS_CHANGE_CIPHER_SPEC)
        && !shape.server_data_seen {
        (DownloadStepShape::Skip, shape)
    } else {
        (
            DownloadStepShape::Refuse(
                invalid_data("ShadowTLS received an unexpected TLS record after switching"@),
            ),
            shape,
        )
    }
}

impl Download {
    fn take_data(&mut self, payload: &[u8]) -> (step: DownloadStep)
        ensures
            (step@, final(self)@) == data_step(old(self)@, payload@),
    {
        if payload.len() < 4 {
            return DownloadStep::Refuse(
                invalid("ShadowTLS application record is missing its HMAC"),
            );
        }
        let tag = slice_subrange(payload, 0, 4);
        let data = slice_subrange(payload, 4, payload.len());
        if self.server_chain.verify_and_advance(tag, data) {
            self.server_data_seen = true;
            return DownloadStep::Deliver(to_vec(data));
        }
        if !self.server_data_seen {
            if self.proof_chain.verify_and_advance(tag, data) {
                return DownloadStep::Skip;
            }
        }
        DownloadStep::Refuse(invalid("ShadowTLS server data failed chained HMAC authentication"))
    }

    /// Take a record of the server.
    pub fn take_record(&mut self, record: &[u8]) -> (step: DownloadStep)
        requires
            record@.len() >= 5,
        ensures
            (step@, final(self)@) == record_step(old(self)@, record@),
    {
        let kind = record[0];
        if kind == TLS_APPLICATION_DATA {
            return self.take_data(slice_subrange(record, 5, record.len()));
        }
        if kind == TLS_ALERT {
            return DownloadStep::Close;
        }
        if (kind == TLS_HANDSHAKE || kind == TLS_CHANGE_CIPHER_SPEC) && !self.server_data_seen {
            return DownloadStep::Skip;
        }
        DownloadStep::Refuse(
            invalid("ShadowTLS received an unexpected TLS record after switching"),
        )
    }
}

/// The sending side of the second stage.
pub struct Upload {
    chain: HmacChain,
}

impl View for Upload {
    type V = ChainShape;

    closed spec fn view(&self) -> ChainShape {
        self.chain@
    }
}

/// The payload of a record of data.
pub open spec fn tagged(chain: ChainShape, data: Seq<u8>) -> Seq<u8> {
    chain.tag(data) + data
}

impl Upload {
    /// The record for data of the flow.
    pub fn data_record(&mut self, data: &[u8]) -> (result: Result<Vec<u8>, WireError>)
        ensures
            final(self)@ == old(self)@.behind(data@),
            if data@.len() > 65531 {
                result matches Err(error) && error@ == invalid_data(
                    "ShadowTLS TLS record exceeds 65535 bytes"@,
                )
            } else {
                result matches Ok(record) && record@ == record_of(
                    TLS_APPLICATION_DATA,
                    tagged(old(self)@, data@),
                )
            },
    {
        let tag = self.chain.tag_and_advance(data);
        let mut payload = to_vec(tag.as_slice());
        push_bytes(&mut payload, data);
        assert(payload@ =~= tagged(old(self)@, data@));
        write_record(TLS_APPLICATION_DATA, payload.as_slice())
    }
}

/// The record with which a side closes, or tells that a tag was wrong.
pub fn alert_record(bad_record_mac: bool) -> (record: Vec<u8>)
    ensures
        record@ == record_of(
            TLS_ALERT,
            if bad_record_mac {
                ALERT_BAD_RECORD_MAC@
            } else {
                ALERT_CLOSE_NOTIFY@
            },
        ),
{
    let mut record: Vec<u8> = Vec::new();
    push_bytes(&mut record, &[21, 3, 3, 0, 2]);
    let alert = if bad_record_mac {
        ALERT_BAD_RECORD_MAC
    } else {
        ALERT_CLOSE_NOTIFY
    };
    push_bytes(&mut record, alert.as_slice());
    assert(record@ =~= record_of(TLS_ALERT, alert@));
    record
}

/// The three parts of the second stage.
pub struct SwitchedStream {
    pub reader: RecordReader,
    pub download: Download,
    pub upload: Upload,
}

/// Start the second stage: each direction has a chain of its own, which starts from
/// the server's random value and a letter.
pub fn switched_stream(state: SwitchState) -> (stream: SwitchedStream)
    ensures
        stream.reader@ == state.prefix@,
        stream.upload@ == chain_of(state.password@, state.server_random@ + seq![67u8]),
        stream.download@ == (DownloadShape {
            server_chain: chain_of(state.password@, state.server_random@ + seq![83u8]),
            proof_chain: state.proof_chain@,
            server_data_seen: false,
        }),
{
    let mut client_seed = to_vec(state.server_random.as_slice());
    client_seed.push(67);
    let mut server_seed = to_vec(state.server_random.as_slice());
    server_seed.push(83);
    assert(client_seed@ =~= state.server_random@ + seq![67u8]);
    assert(server_seed@ =~= state.server_random@ + seq![83u8]);
    SwitchedStream {
        reader: RecordReader::new(state.prefix),
        download: Download {
            server_chain: HmacChain::new(state.password.as_slice(), server_seed.as_slice()),
            proof_chain: state.proof_chain,
            server_data_seen: false,
        },
        upload: Upload {
            chain: HmacChain::new(state.password.as_slice(), client_seed.as_slice()),
        },
    }
}

/// What one side uploads, another with the same chain delivers, and both chains go
/// on together.
pub proof fn uploaded_data_is_delivered(sender: ChainShape, receiver: DownloadShape, data: Seq<u8>)
    requires
        receiver.server_chain == sender,
        sender.tag(data).len() == 4,
        data.len() <= MAX_DATA_PER_RECORD,
    ensures
        record_step(receiver, record_of(TLS_APPLICATION_DATA, tagged(sender, data))) == (
            DownloadStepShape::Deliver(data),
            DownloadShape {
                server_chain: sender.behind(data),
                server_data_seen: true,
                ..receiver
            },
        ),
{
    let payload = tagged(sender, data);
    let record = record_of(TLS_APPLICATION_DATA, payload);
    assert(record.subrange(5, record.len() as int) =~= payload);
    assert(payload.subrange(0, 4) =~= sender.tag(data));
    assert(payload.subrange(4, payload.len() as int) =~= data);
}

/// The records that carry data, one after another under the same chain.
pub open spec fn upload_records(chain: ChainShape, writes: Seq<Seq<u8>>) -> Seq<Seq<u8>>
    decreases writes.len(),
{
    if writes.len() == 0 {
        Seq::empty()
    } else {
        seq![record_of(TLS_APPLICATION_DATA, tagged(chain, writes[0]))] + upload_records(
            chain.behind(writes[0]),
            writes.drop_first(),
        )
    }
}

/// The chain behind data, one after another.
pub open spec fn chain_behind(chain: ChainShape, writes: Seq<Seq<u8>>) -> ChainShape
    decreases writes.len(),
{
    if writes.len() == 0 {
        chain
    } else {
        chain_behind(chain.behind(writes[0]), writes.drop_first())
    }
}

/// Pieces in a row.
pub open spec fn in_a_row(pieces: Seq<Seq<u8>>) -> Seq<u8>
    decreases pieces.len(),
{
    if pieces.len() == 0 {
        Seq::empty()
    } else {
        pieces[0] + in_a_row(pieces.drop_first())
    }
}

/// What a reader that holds `rest` makes of segments, one after another: the records
/// that they complete, and what is left.
pub open spec fn fed_segments(rest: Seq<u8>, segments: Seq<Seq<u8>>) -> (
    Result<Seq<Seq<u8>>, Fault>,
    Seq<u8>,
)
    decreases segments.len(),
{
    if segments.len() == 0 {
        (Ok(Seq::empty()), rest)
    } else {
        match cut_records(rest + segments[0]) {
            (Err(fault), left) => (Err(fault), left),
            (Ok(first), left) => {
                let later = fed_segments(left, segments.drop_first());
                (
                    match later.0 {
                        Ok(records) => Ok(first + records),
                        Err(fault) => Err(fault),
                    },
                    later.1,
                )
            },
        }
    }
}

/// What records lead to, one after another, each step with what it is.
pub open spec fn taken_records(shape: DownloadShape, records: Seq<Seq<u8>>) -> (
    Seq<DownloadStepShape>,
    DownloadShape,
)
    decreases records.len(),
{
    if records.len() == 0 {
        (Seq::empty(), shape)
    } else {
        let (step, next) = record_step(shape, records[0]);
        let later = taken_records(next, records.drop_first());
        (seq![step] + later.0, later.1)
    }
}

/// Records in a row are cut at their boundaries.
proof fn lemma_uploads_cut(chain: ChainShape, writes: Seq<Seq<u8>>)
    requires
        forall|data: Seq<u8>| #[trigger] hmac_sha1_of(chain.key, data).len() == 20,
        forall|i: int| 0 <= i < writes.len() ==> (#[trigger] writes[i]).len()
            <= MAX_DATA_PER_RECORD,
    ensures
        cut_records(in_a_row(upload_records(chain, writes))) == (
            Ok::<Seq<Seq<u8>>, Fault>(upload_records(chain, writes)),
            Seq::<u8>::empty(),
        ),
    decreases writes.len(),
{
    let records = upload_records(chain, writes);
    if writes.len() > 0 {
        let payload = tagged(chain, writes[0]);
        let first = record_of(TLS_APPLICATION_DATA, payload);
        let others = upload_records(chain.behind(writes[0]), writes.drop_first());
        lemma_uploads_cut(chain.behind(writes[0]), writes.drop_first());
        assert(records.drop_first() =~= others);
        let all = in_a_row(records);
        assert(all == first + in_a_row(others));
        assert(payload.len() == 4 + writes[0].len());
        assert(first.len() == 5 + payload.len());
        assert(all[1] == first[1] && all[2] == first[2] && all[3] == first[3] && all[4]
            == first[4]);
        assert(read16(all, 3) == payload.len());
        assert(all.subrange(0, first.len() as int) =~= first);
        assert(all.subrange(first.len() as int, all.len() as int) =~= in_a_row(others));
    }
}

/// Where a reader is fed segments, the records are those of the segments in a row.
proof fn lemma_fed_segments(rest: Seq<u8>, segments: Seq<Seq<u8>>)
    requires
        cut_records(rest) == (Ok::<Seq<Seq<u8>>, Fault>(Seq::empty()), rest),
        cut_records(rest + in_a_row(segments)).0 is Ok,
    ensures
        fed_segments(rest, segments) == cut_records(rest + in_a_row(segments)),
    decreases segments.len(),
{
    if segments.len() == 0 {
        assert(rest + in_a_row(segments) =~= rest);
    } else {
        let others = segments.drop_first();
        let front = rest + segments[0];
        assert(rest + in_a_row(segments) =~= front + in_a_row(others));
        records_may_be_cut_anywhere(front, in_a_row(others));
        let left = cut_records(front).1;
        lemma_left_is_cut(front);
        lemma_fed_segments(left, others);
    }
}

/// What is left behind the whole records holds no whole record.
proof fn lemma_left_is_cut(bytes: Seq<u8>)
    requires
        cut_records(bytes).0 is Ok,
    ensures
        cut_records(cut_records(bytes).1) == (
            Ok::<Seq<Seq<u8>>, Fault>(Seq::empty()),
            cut_records(bytes).1,
        ),
    decreases bytes.len(),
{
    if let Ok(Some(length)) = front_record(bytes) {
        lemma_left_is_cut(bytes.subrange(length, bytes.len() as int));
    }
}

/// A whole upload is delivered. However the socket cuts the records of a sequence of
/// writes, the other side with the same chain gets the data of each write, in order
/// and nothing else, has nothing left over, and both chains end up the same. That a
/// tag of the MAC has twenty bytes is presupposed.
pub proof fn a_whole_upload_is_delivered(
    sender: ChainShape,
    receiver: DownloadShape,
    writes: Seq<Seq<u8>>,
    segments: Seq<Seq<u8>>,
)
    requires
        receiver.server_chain == sender,
        forall|data: Seq<u8>| #[trigger] hmac_sha1_of(sender.key, data).len() == 20,
        forall|i: int| 0 <= i < writes.len() ==> (#[trigger] writes[i]).len()
            <= MAX_DATA_PER_RECORD,
        in_a_row(segments) == in_a_row(upload_records(sender, writes)),
    ensures
        ({
            let (records, left) = fed_segments(Seq::empty(), segments);
            let (steps, end) = taken_records(receiver, upload_records(sender, writes));
            &&& records == Ok::<Seq<Seq<u8>>, Fault>(upload_records(sender, writes))
            &&& left == Seq::<u8>::empty()
            &&& steps == Seq::new(writes.len(), |i: int| DownloadStepShape::Deliver(writes[i]))
            &&& end == (DownloadShape {
                server_chain: chain_behind(sender, writes),
                server_data_seen: receiver.server_data_seen || writes.len() > 0,
                ..receiver
            })
        }),
{
    let nothing = Seq::<u8>::empty();
    lemma_uploads_cut(sender, writes);
    assert(nothing + in_a_row(segments) =~= in_a_row(segments));
    assert(cut_records(nothing) == (Ok::<Seq<Seq<u8>>, Fault>(Seq::empty()), nothing));
    lemma_fed_segments(nothing, segments);
    lemma_uploads_taken(sender, receiver, writes);
}

/// Records in a row deliver their data, one after another.
proof fn lemma_uploads_taken(sender: ChainShape, receiver: DownloadShape, writes: Seq<Seq<u8>>)
    requires
        receiver.server_chain == sender,
        forall|data: Seq<u8>| #[trigger] hmac_sha1_of(sender.key, data).len() == 20,
        forall|i: int| 0 <= i < writes.len() ==> (#[trigger] writes[i]).len()
            <= MAX_DATA_PER_RECORD,
    ensures
        ({
            let (steps, end) = taken_records(receiver, upload_records(sender, writes));
            &&& steps == Seq::new(writes.len(), |i: int| DownloadStepShape::Deliver(writes[i]))
            &&& end == (DownloadShape {
                server_chain: chain_behind(sender, writes),
                server_data_seen: receiver.server_data_seen || writes.len() > 0,
                ..receiver
            })
        }),
    decreases writes.len(),
{
    let records = upload_records(sender, writes);
    if writes.len() > 0 {
        let others = writes.drop_first();
        uploaded_data_is_delivered(sender, receiver, writes[0]);
        let next = record_step(receiver, records[0]).1;
        assert(records.drop_first() =~= upload_records(sender.behind(writes[0]), others));
        lemma_uploads_taken(sender.behind(writes[0]), next, others);
        let steps = taken_records(receiver, records).0;
        assert(steps =~= Seq::new(writes.len(), |i: int| DownloadStepShape::Deliver(writes[i])));
    } else {
        assert(taken_records(receiver, records).0 =~= Seq::new(
            writes.len(),
            |i: int| DownloadStepShape::Deliver(writes[i]),
        ));
    }
}

} // verus!
