//! The padding of a byte stream: one write becomes one frame, and what is read is
//! stripped before it is handed on.
use crate::error::{ErrorKind, WireError};
use crate::naive::padding::{
    a_frame_reads_back, between_frames, counted, frame, frame_length, new_framer, whole, FramerShape,
    PaddingFramer, FIRST_PADDINGS,
};
use crate::octets::{copy_range, split_front};
use crate::random::random_below;
use vstd::prelude::*;

verus! {

/// How much is read from the transport at once.
pub const READ_SCRATCH: usize = 16 * 1024;

/// A padded stream, without the transport that it runs over: bytes of the
/// transport are handed in and taken out.
pub struct PaddedStream {
    framer: PaddingFramer,
    /// Frames that the transport has not accepted yet. A payload that is in here
    /// belongs to the stream and is not written again.
    pending: Vec<u8>,
    /// Payload that has not been handed on yet.
    decoded: Vec<u8>,
}

/// The view of a padded stream.
pub struct PaddedShape {
    pub framer: FramerShape,
    pub pending: Seq<u8>,
    pub decoded: Seq<u8>,
}

impl View for PaddedStream {
    type V = PaddedShape;

    closed spec fn view(&self) -> PaddedShape {
        PaddedShape { framer: self.framer@, pending: self.pending@, decoded: self.decoded@ }
    }
}

/// What a write comes to.
#[derive(Clone, Copy, Debug, PartialEq, Eq, Structural)]
pub enum WriteStep {
    /// This many bytes are framed and pending.
    Framed(usize),
    /// Nothing is framed any more: the transport takes the bytes as they are.
    Raw,
}

/// What a read comes to.
#[derive(Debug)]
pub enum ReadStep {
    /// These bytes, which are none only where there is no room for any.
    Data(Vec<u8>),
    /// Nothing is framed any more: the transport may be read straight into the
    /// reader's buffer.
    Raw,
    /// The transport has to be read first. Its end is the end of the stream.
    Fill,
}

/// A draw of how much padding a frame carries.
pub fn draw_padding_size() -> (size: u8)
{
    random_below(256) as u8
}

/// The stream after a write whose frame carries `padding` zeros. An empty write
/// frames nothing.
pub open spec fn after_write(stream: PaddedShape, buffer: Seq<u8>, padding: u8) -> (
    WriteStep,
    PaddedShape,
) {
    let taken = frame_length(buffer.len() as int);
    if buffer.len() == 0 {
        (WriteStep::Framed(0), stream)
    } else if stream.framer.written_frames >= FIRST_PADDINGS {
        (WriteStep::Raw, stream)
    } else {
        (
            WriteStep::Framed(taken as usize),
            PaddedShape {
                framer: FramerShape {
                    written_frames: counted(stream.framer.written_frames),
                    ..stream.framer
                },
                pending: stream.pending + frame(buffer.subrange(0, taken), padding),
                ..stream
            },
        )
    }
}

impl PaddedStream {
    pub fn new() -> (stream: PaddedStream)
        ensures
            stream@ == (PaddedShape {
                framer: new_framer(Some(FIRST_PADDINGS)),
                pending: Seq::empty(),
                decoded: Seq::empty(),
            }),
    {
        let stream = PaddedStream {
            framer: PaddingFramer::new(Some(FIRST_PADDINGS)),
            pending: Vec::new(),
            decoded: Vec::new(),
        };
        assert(stream@.pending =~= Seq::<u8>::empty());
        assert(stream@.decoded =~= Seq::<u8>::empty());
        stream
    }

    /// Frame the front of `buffer`, with as much padding as given.
    pub fn write_with(&mut self, buffer: &[u8], padding: u8) -> (step: WriteStep)
        ensures
            (step, final(self)@) == after_write(old(self)@, buffer@, padding),
    {
        if buffer.len() == 0 {
            return WriteStep::Framed(0);
        }
        if self.framer.written_frames() >= FIRST_PADDINGS {
            return WriteStep::Raw;
        }
        let taken = self.framer.write(buffer, padding, &mut self.pending);
        WriteStep::Framed(taken)
    }

    /// Frame the front of `buffer`, with padding as it is drawn.
    pub fn write(&mut self, buffer: &[u8]) -> (step: WriteStep)
        ensures
            exists|padding: u8|
                (step, final(self)@) == #[trigger] after_write(old(self)@, buffer@, padding),
    {
        let padding = draw_padding_size();
        self.write_with(buffer, padding)
    }

    /// The bytes that have to go out before anything else is framed.
    pub fn outgoing(&self) -> (bytes: &[u8])
        ensures
            bytes@ == self@.pending,
    {
        self.pending.as_slice()
    }

    /// The transport has accepted `written` bytes. One that accepts none is at
    /// fault.
    pub fn sent(&mut self, written: usize) -> (result: Result<(), WireError>)
        requires
            written <= old(self)@.pending.len(),
        ensures
            if written == 0 {
                &&& final(self)@ == old(self)@
                &&& result matches Err(error) && error@ == (
                    ErrorKind::WriteZero,
                    "failed to write a NaiveProxy padded frame"@,
                )
            } else {
                &&& result is Ok
                &&& final(self)@ == (PaddedShape {
                    pending: old(self)@.pending.subrange(
                        written as int,
                        old(self)@.pending.len() as int,
                    ),
                    ..old(self)@
                })
            },
    {
        if written == 0 {
            return Err(
                WireError::new(ErrorKind::WriteZero, "failed to write a NaiveProxy padded frame"),
            );
        }
        let rest = copy_range(self.pending.as_slice(), written, self.pending.len());
        self.pending = rest;
        Ok(())
    }

    /// The transport gave these bytes.
    pub fn fill(&mut self, data: &[u8])
        ensures
            final(self)@ == (PaddedShape {
                framer: whole(old(self)@.framer, data@).1,
                decoded: old(self)@.decoded + whole(old(self)@.framer, data@).0,
                ..old(self)@
            }),
    {
        self.framer.read(data, &mut self.decoded);
    }

    /// Read up to `room` bytes of payload.
    pub fn read(&mut self, room: usize) -> (step: ReadStep)
        ensures
            if old(self)@.decoded.len() > 0 {
                let take = if room < old(self)@.decoded.len() {
                    room as int
                } else {
                    old(self)@.decoded.len() as int
                };
                &&& step matches ReadStep::Data(data) && data@ == old(self)@.decoded.subrange(
                    0,
                    take,
                )
                &&& final(self)@ == (PaddedShape {
                    decoded: old(self)@.decoded.subrange(take, old(self)@.decoded.len() as int),
                    ..old(self)@
                })
            } else {
                &&& final(self)@ == old(self)@
                &&& if old(self)@.framer.raw() {
                    step is Raw
                } else {
                    step is Fill
                }
            },
    {
        if self.decoded.len() > 0 {
            let take: usize = if room < self.decoded.len() {
                room
            } else {
                self.decoded.len()
            };
            return ReadStep::Data(split_front(&mut self.decoded, take));
        }
        if self.framer.read_is_raw() {
            return ReadStep::Raw;
        }
        ReadStep::Fill
    }
}

/// What a stream writes, another that has read as many frames reads: a write that
/// is framed puts exactly its bytes into the payload of the reader.
pub proof fn a_framed_write_reaches_the_reader(
    writer: PaddedShape,
    reader: FramerShape,
    buffer: Seq<u8>,
    padding: u8,
)
    requires
        buffer.len() > 0,
        writer.framer.written_frames < FIRST_PADDINGS,
        reader.max_read_frames == Some(FIRST_PADDINGS),
        between_frames(reader, writer.framer.written_frames),
    ensures
        after_write(writer, buffer, padding) matches (WriteStep::Framed(taken), after) && {
            let sent = after.pending.subrange(
                writer.pending.len() as int,
                after.pending.len() as int,
            );
            &&& whole(reader, sent).0 == buffer.subrange(0, taken as int)
            &&& between_frames(
                whole(reader, sent).1,
                after.framer.written_frames,
            )
        },
{
    let taken = frame_length(buffer.len() as int);
    let after = after_write(writer, buffer, padding).1;
    let bytes = frame(buffer.subrange(0, taken), padding);
    assert(after.pending.subrange(writer.pending.len() as int, after.pending.len() as int)
        =~= bytes);
    a_frame_reads_back(
        reader,
        writer.framer.written_frames,
        buffer.subrange(0, taken),
        padding,
    );
}

} // verus!
