//! The padded frames. The first frames of each direction carry padding behind
//! their payload; everything after them is raw. A frame is the length of its
//! payload in two bytes, the length of its padding in one, the payload, and zeros.
use crate::octets::{be16, push_bytes};
use vstd::prelude::*;
use vstd::slice::slice_subrange;

verus! {

/// How many frames of each direction carry padding.
pub const FIRST_PADDINGS: u32 = 8;

/// The most padding that a frame carries.
pub const MAX_PADDING_SIZE: u8 = 255;

/// The longest payload that a frame describes.
pub const MAX_PAYLOAD_SIZE: usize = 65535;

/// The length of the header of a frame.
pub const FRAME_HEADER_SIZE: usize = 3;

/// What the reader expects next.
#[derive(Debug, Clone, Copy, PartialEq, Eq, Structural)]
pub enum ReadState {
    PayloadLengthHigh,
    PayloadLengthLow,
    PaddingLength,
    Payload,
    Padding,
}

/// Writes frames, and strips them from what is read however it is cut.
#[derive(Debug)]
pub struct PaddingFramer {
    max_read_frames: Option<u32>,
    state: ReadState,
    read_payload_length: usize,
    read_padding_length: usize,
    read_frames: u32,
    written_frames: u32,
}

/// The view of a framer.
pub struct FramerShape {
    pub max_read_frames: Option<u32>,
    pub state: ReadState,
    pub payload_length: int,
    pub padding_length: int,
    pub read_frames: u32,
    pub written_frames: u32,
}

impl View for PaddingFramer {
    type V = FramerShape;

    closed spec fn view(&self) -> FramerShape {
        FramerShape {
            max_read_frames: self.max_read_frames,
            state: self.state,
            payload_length: self.read_payload_length as int,
            padding_length: self.read_padding_length as int,
            read_frames: self.read_frames,
            written_frames: self.written_frames,
        }
    }
}

/// One frame more, as far as the counter goes.
pub open spec fn counted(frames: u32) -> u32 {
    if frames == u32::MAX {
        u32::MAX
    } else {
        (frames + 1) as u32
    }
}

impl FramerShape {
    /// Whether everything that is still to come is raw payload.
    pub open spec fn raw(self) -> bool {
        self.state == ReadState::PayloadLengthHigh && (self.max_read_frames matches Some(limit)
            && self.read_frames >= limit)
    }

    /// The reader with nothing left of an empty payload or an empty padding. A
    /// frame without padding is counted only when a byte comes behind it.
    pub open spec fn settled(self) -> FramerShape {
        let padding = if self.state == ReadState::Payload && self.payload_length == 0 {
            FramerShape { state: ReadState::Padding, ..self }
        } else {
            self
        };
        if padding.state == ReadState::Padding && padding.padding_length == 0 {
            FramerShape {
                state: ReadState::PayloadLengthHigh,
                read_frames: counted(self.read_frames),
                ..padding
            }
        } else {
            padding
        }
    }

    /// What one byte adds to the payload, and the reader behind it.
    pub open spec fn after_byte(self, byte: u8) -> (Seq<u8>, FramerShape) {
        let reader = self.settled();
        match reader.state {
            ReadState::PayloadLengthHigh => if reader.raw() {
                (seq![byte], reader)
            } else {
                (
                    Seq::empty(),
                    FramerShape {
                        payload_length: byte as int,
                        state: ReadState::PayloadLengthLow,
                        ..reader
                    },
                )
            },
            ReadState::PayloadLengthLow => (
                Seq::empty(),
                FramerShape {
                    payload_length: reader.payload_length * 256 + byte,
                    state: ReadState::PaddingLength,
                    ..reader
                },
            ),
            ReadState::PaddingLength => (
                Seq::empty(),
                FramerShape {
                    padding_length: byte as int,
                    state: ReadState::Payload,
                    ..reader
                },
            ),
            ReadState::Payload => (
                seq![byte],
                FramerShape {
                    payload_length: reader.payload_length - 1,
                    state: if reader.payload_length == 1 {
                        ReadState::Padding
                    } else {
                        ReadState::Payload
                    },
                    ..reader
                },
            ),
            ReadState::Padding => (
                Seq::empty(),
                if reader.padding_length == 1 {
                    FramerShape {
                        padding_length: 0,
                        state: ReadState::PayloadLengthHigh,
                        read_frames: counted(reader.read_frames),
                        ..reader
                    }
                } else {
                    FramerShape { padding_length: reader.padding_length - 1, ..reader }
                },
            ),
        }
    }
}

/// The payload in the first `n` bytes, and the reader behind them.
pub open spec fn unframed(reader: FramerShape, bytes: Seq<u8>, n: nat) -> (Seq<u8>, FramerShape)
    decreases n,
{
    if n == 0 {
        (Seq::empty(), reader)
    } else {
        let (payload, next) = unframed(reader, bytes, (n - 1) as nat);
        let (more, last) = next.after_byte(bytes[n - 1]);
        (payload + more, last)
    }
}

/// How much of a payload one frame takes.
pub open spec fn frame_length(length: int) -> int {
    if length < MAX_PAYLOAD_SIZE {
        length
    } else {
        MAX_PAYLOAD_SIZE as int
    }
}

/// A frame.
pub open spec fn frame(payload: Seq<u8>, padding: u8) -> Seq<u8> {
    be16(payload.len() as u16) + seq![padding] + payload + Seq::new(padding as nat, |i: int| 0u8)
}

/// The payload in some bytes, and the reader behind them.
pub open spec fn whole(reader: FramerShape, bytes: Seq<u8>) -> (Seq<u8>, FramerShape) {
    unframed(reader, bytes, bytes.len())
}

proof fn lemma_same_front(reader: FramerShape, bytes: Seq<u8>, other: Seq<u8>, n: nat)
    requires
        n <= bytes.len(),
        n <= other.len(),
        forall|i: int| 0 <= i < n ==> bytes[i] == other[i],
    ensures
        unframed(reader, bytes, n) == unframed(reader, other, n),
    decreases n,
{
    if n > 0 {
        lemma_same_front(reader, bytes, other, (n - 1) as nat);
        assert(bytes[n - 1] == other[n - 1]);
    }
}

proof fn lemma_cut(reader: FramerShape, first: Seq<u8>, second: Seq<u8>, n: nat)
    requires
        n <= second.len(),
    ensures
        unframed(reader, first + second, first.len() + n) == (
            whole(reader, first).0 + unframed(whole(reader, first).1, second, n).0,
            unframed(whole(reader, first).1, second, n).1,
        ),
    decreases n,
{
    let all = first + second;
    if n == 0 {
        lemma_same_front(reader, all, first, first.len());
        assert(whole(reader, first).0 + Seq::<u8>::empty() =~= whole(reader, first).0);
    } else {
        lemma_cut(reader, first, second, (n - 1) as nat);
        assert(all[first.len() + n - 1] == second[n - 1]);
        let (payload, next) = unframed(whole(reader, first).1, second, (n - 1) as nat);
        let more = next.after_byte(second[n - 1]).0;
        assert((whole(reader, first).0 + payload) + more =~= whole(reader, first).0 + (payload
            + more));
    }
}

/// How frames are cut on their way does not matter: the payload of the bytes that
/// came first, followed by that of the bytes that came later, is the payload of
/// all of them.
pub proof fn frames_read_alike_however_they_are_cut(
    reader: FramerShape,
    first: Seq<u8>,
    second: Seq<u8>,
)
    ensures
        whole(reader, first + second) == (
            whole(reader, first).0 + whole(whole(reader, first).1, second).0,
            whole(whole(reader, first).1, second).1,
        ),
{
    lemma_cut(reader, first, second, second.len());
}

proof fn lemma_one(reader: FramerShape, byte: u8)
    ensures
        whole(reader, seq![byte]) == reader.after_byte(byte),
{
    reveal_with_fuel(unframed, 2);
    let (more, last) = reader.after_byte(byte);
    assert(Seq::<u8>::empty() + more =~= more);
}

proof fn lemma_settled(reader: FramerShape, other: FramerShape, bytes: Seq<u8>)
    requires
        bytes.len() > 0,
        reader.settled() == other.settled(),
    ensures
        whole(reader, bytes) == whole(other, bytes),
{
    let front = seq![bytes[0]];
    let rest = bytes.subrange(1, bytes.len() as int);
    assert(bytes =~= front + rest);
    lemma_one(reader, bytes[0]);
    lemma_one(other, bytes[0]);
    frames_read_alike_however_they_are_cut(reader, front, rest);
    frames_read_alike_however_they_are_cut(other, front, rest);
}

proof fn lemma_payload_run(reader: FramerShape, bytes: Seq<u8>, n: nat)
    requires
        reader.state == ReadState::Payload,
        n <= bytes.len(),
        n <= reader.payload_length,
    ensures
        unframed(reader, bytes, n) == (
            bytes.subrange(0, n as int),
            FramerShape {
                payload_length: reader.payload_length - n,
                state: if n > 0 && n == reader.payload_length {
                    ReadState::Padding
                } else {
                    ReadState::Payload
                },
                ..reader
            },
        ),
    decreases n,
{
    if n == 0 {
        assert(bytes.subrange(0, 0) =~= Seq::<u8>::empty());
    } else {
        lemma_payload_run(reader, bytes, (n - 1) as nat);
        assert(bytes.subrange(0, n - 1) + seq![bytes[n - 1]] =~= bytes.subrange(0, n as int));
    }
}

proof fn lemma_padding_run(reader: FramerShape, bytes: Seq<u8>, n: nat)
    requires
        reader.state == ReadState::Padding,
        n <= bytes.len(),
        n <= reader.padding_length,
    ensures
        unframed(reader, bytes, n) == (
            Seq::<u8>::empty(),
            if n > 0 && n == reader.padding_length {
                FramerShape {
                    padding_length: 0,
                    state: ReadState::PayloadLengthHigh,
                    read_frames: counted(reader.read_frames),
                    ..reader
                }
            } else {
                FramerShape { padding_length: reader.padding_length - n, ..reader }
            },
        ),
    decreases n,
{
    if n > 0 {
        lemma_padding_run(reader, bytes, (n - 1) as nat);
        assert(Seq::<u8>::empty() + Seq::<u8>::empty() =~= Seq::<u8>::empty());
    }
}

proof fn lemma_raw_run(reader: FramerShape, bytes: Seq<u8>, n: nat)
    requires
        reader.raw(),
        n <= bytes.len(),
    ensures
        unframed(reader, bytes, n) == (bytes.subrange(0, n as int), reader),
    decreases n,
{
    if n == 0 {
        assert(bytes.subrange(0, 0) =~= Seq::<u8>::empty());
    } else {
        lemma_raw_run(reader, bytes, (n - 1) as nat);
        assert(bytes.subrange(0, n - 1) + seq![bytes[n - 1]] =~= bytes.subrange(0, n as int));
    }
}

impl PaddingFramer {
    #[verifier::type_invariant]
    spec fn bounded(self) -> bool {
        self.read_payload_length <= 65535 && self.read_padding_length <= 255 && (self.state
            == ReadState::PayloadLengthLow ==> self.read_payload_length <= 255)
    }

    /// A framer that takes this many frames for padded, or all.
    pub fn new(max_read_frames: Option<u32>) -> (framer: PaddingFramer)
        ensures
            framer@ == new_framer(max_read_frames),
    {
        PaddingFramer {
            max_read_frames,
            state: ReadState::PayloadLengthHigh,
            read_payload_length: 0,
            read_padding_length: 0,
            read_frames: 0,
            written_frames: 0,
        }
    }

    /// How many frames have been read.
    pub fn read_frames(&self) -> (frames: u32)
        ensures
            frames == self@.read_frames,
    {
        self.read_frames
    }

    /// How many frames have been written.
    pub fn written_frames(&self) -> (frames: u32)
        ensures
            frames == self@.written_frames,
    {
        self.written_frames
    }

    /// Whether everything that is still to come is raw payload.
    pub fn read_is_raw(&self) -> (raw: bool)
        ensures
            raw == self@.raw(),
    {
        match self.state {
            ReadState::PayloadLengthHigh => match self.max_read_frames {
                Some(limit) => self.read_frames >= limit,
                None => false,
            },
            _ => false,
        }
    }

    /// Strip the frames from `padded` and append the payload to `out`.
    #[verifier::rlimit(40)]
    pub fn read(&mut self, padded: &[u8], out: &mut Vec<u8>)
        ensures
            final(out)@ == old(out)@ + whole(old(self)@, padded@).0,
            final(self)@ == whole(old(self)@, padded@).1,
    {
        let max_read_frames = self.max_read_frames;
        let written_frames = self.written_frames;
        let mut state = self.state;
        let mut payload_length: usize = self.read_payload_length;
        let mut padding_length: usize = self.read_padding_length;
        let mut read_frames: u32 = self.read_frames;
        let mut at: usize = 0;
        proof {
            use_type_invariant(&*self);
        }
        let ghost mut reader = self@;
        assert(padded@.subrange(0, padded@.len() as int) =~= padded@);
        assert(old(out)@ + whole(old(self)@, padded@).0 == out@ + whole(reader, padded@).0);
        while at < padded.len()
            invariant
                at <= padded@.len(),
                payload_length <= 65535,
                padding_length <= 255,
                state == ReadState::PayloadLengthLow ==> payload_length <= 255,
                max_read_frames == old(self)@.max_read_frames,
                written_frames == old(self)@.written_frames,
                reader == (FramerShape {
                    max_read_frames,
                    state,
                    payload_length: payload_length as int,
                    padding_length: padding_length as int,
                    read_frames,
                    written_frames,
                }),
                old(out)@ + whole(old(self)@, padded@).0 == out@ + whole(
                    reader,
                    padded@.subrange(at as int, padded@.len() as int),
                ).0,
                whole(old(self)@, padded@).1 == whole(
                    reader,
                    padded@.subrange(at as int, padded@.len() as int),
                ).1,
            decreases
                    padded.len() - at,
                    match state {
                        ReadState::Payload => 2int,
                        ReadState::Padding => 1,
                        _ => 0,
                    },
        {
            let ghost before = reader;
            let ghost rest = padded@.subrange(at as int, padded@.len() as int);
            let ghost out_before = out@;
            let from = at;
            match state {
                ReadState::PayloadLengthHigh => {
                    let raw = match max_read_frames {
                        Some(limit) => read_frames >= limit,
                        None => false,
                    };
                    if raw {
                        push_bytes(out, slice_subrange(padded, at, padded.len()));
                        proof {
                            lemma_raw_run(reader, rest, rest.len());
                            assert(rest.subrange(0, rest.len() as int) =~= rest);
                        }
                        at = padded.len();
                    } else {
                        payload_length = padded[at] as usize;
                        state = ReadState::PayloadLengthLow;
                        at = at + 1;
                    }
                },
                ReadState::PayloadLengthLow => {
                    payload_length = payload_length * 256 + padded[at] as usize;
                    state = ReadState::PaddingLength;
                    at = at + 1;
                },
                ReadState::PaddingLength => {
                    padding_length = padded[at] as usize;
                    state = ReadState::Payload;
                    at = at + 1;
                },
                ReadState::Payload => {
                    let take: usize = if payload_length < padded.len() - at {
                        payload_length
                    } else {
                        padded.len() - at
                    };
                    push_bytes(out, slice_subrange(padded, at, at + take));
                    at = at + take;
                    payload_length = payload_length - take;
                    if payload_length == 0 {
                        state = ReadState::Padding;
                    }
                },
                ReadState::Padding => {
                    let take: usize = if padding_length < padded.len() - at {
                        padding_length
                    } else {
                        padded.len() - at
                    };
                    at = at + take;
                    padding_length = padding_length - take;
                    if padding_length == 0 {
                        read_frames = if read_frames < u32::MAX {
                            read_frames + 1
                        } else {
                            read_frames
                        };
                        state = ReadState::PayloadLengthHigh;
                    }
                },
            }
            proof {
                reader = FramerShape {
                    max_read_frames,
                    state,
                    payload_length: payload_length as int,
                    padding_length: padding_length as int,
                    read_frames,
                    written_frames,
                };
                let taken = at - from;
                let front = rest.subrange(0, taken);
                let later = padded@.subrange(at as int, padded@.len() as int);
                assert(rest.subrange(taken, rest.len() as int) =~= later);
                let emitted = if taken > 0 {
                    lemma_step(before, front);
                    whole(before, front).0
                } else {
                    Seq::empty()
                };
                assert(out@ =~= out_before + emitted);
                lemma_progress(before, reader, rest, taken, emitted);
                assert((out_before + emitted) + whole(reader, later).0 =~= out_before + (emitted
                    + whole(reader, later).0));
            }
        }
        proof {
            assert(padded@.subrange(at as int, padded@.len() as int) =~= Seq::<u8>::empty());
            assert(out@ + Seq::<u8>::empty() =~= out@);
        }
        *self = PaddingFramer {
            max_read_frames,
            state,
            read_payload_length: payload_length,
            read_padding_length: padding_length,
            read_frames,
            written_frames,
        };
    }

    /// Append a frame with the front of `payload` to `out`; the count of bytes that
    /// went into it.
    pub fn write(&mut self, payload: &[u8], padding_size: u8, out: &mut Vec<u8>) -> (taken: usize)
        ensures
            taken == frame_length(payload@.len() as int),
            final(out)@ == old(out)@ + frame(payload@.subrange(0, taken as int), padding_size),
            final(self)@ == (FramerShape {
                written_frames: counted(old(self)@.written_frames),
                ..old(self)@
            }),
    {
        proof {
            use_type_invariant(&*self);
        }
        let take: usize = if payload.len() < MAX_PAYLOAD_SIZE {
            payload.len()
        } else {
            MAX_PAYLOAD_SIZE
        };
        out.push((take / 256) as u8);
        out.push((take % 256) as u8);
        out.push(padding_size);
        push_bytes(out, slice_subrange(payload, 0, take));
        let ghost body = out@;
        for i in 0..padding_size
            invariant
                out@ == body + Seq::new(i as nat, |j: int| 0u8),
        {
            out.push(0);
            assert(out@ =~= body + Seq::new((i + 1) as nat, |j: int| 0u8));
        }
        assert(out@ =~= old(out)@ + frame(payload@.subrange(0, take as int), padding_size));
        self.written_frames = if self.written_frames < u32::MAX {
            self.written_frames + 1
        } else {
            self.written_frames
        };
        take
    }
}

proof fn lemma_progress(
    before: FramerShape,
    after: FramerShape,
    rest: Seq<u8>,
    taken: int,
    emitted: Seq<u8>,
)
    requires
        0 <= taken <= rest.len(),
        rest.len() > 0,
        if taken == 0 {
            before.settled() == after.settled() && emitted.len() == 0
        } else {
            whole(before, rest.subrange(0, taken)) == (emitted, after)
        },
    ensures
        ({
            let later = rest.subrange(taken, rest.len() as int);
            whole(before, rest) == (emitted + whole(after, later).0, whole(after, later).1)
        }),
{
    let front = rest.subrange(0, taken);
    let later = rest.subrange(taken, rest.len() as int);
    assert(rest =~= front + later);
    if taken == 0 {
        assert(later =~= rest);
        lemma_settled(before, after, rest);
        assert(emitted + whole(after, later).0 =~= whole(after, later).0);
    } else {
        frames_read_alike_however_they_are_cut(before, front, later);
    }
}

/// A framer that has neither read nor written.
pub open spec fn new_framer(max_read_frames: Option<u32>) -> FramerShape {
    FramerShape {
        max_read_frames,
        state: ReadState::PayloadLengthHigh,
        payload_length: 0,
        padding_length: 0,
        read_frames: 0,
        written_frames: 0,
    }
}

proof fn lemma_step(reader: FramerShape, front: Seq<u8>)
    requires
        front.len() > 0,
        match reader.state {
            ReadState::Payload => front.len() <= reader.payload_length,
            ReadState::Padding => front.len() <= reader.padding_length,
            _ => front.len() == 1 || reader.raw(),
        },
    ensures
        whole(reader, front) == match reader.state {
            ReadState::Payload => (
                front,
                FramerShape {
                    payload_length: reader.payload_length - front.len(),
                    state: if front.len() == reader.payload_length {
                        ReadState::Padding
                    } else {
                        ReadState::Payload
                    },
                    ..reader
                },
            ),
            ReadState::Padding => (
                Seq::<u8>::empty(),
                if front.len() == reader.padding_length {
                    FramerShape {
                        padding_length: 0,
                        state: ReadState::PayloadLengthHigh,
                        read_frames: counted(reader.read_frames),
                        ..reader
                    }
                } else {
                    FramerShape { padding_length: reader.padding_length - front.len(), ..reader }
                },
            ),
            _ => if reader.raw() {
                (front, reader)
            } else {
                reader.after_byte(front[0])
            },
        },
{
    assert(front.subrange(0, front.len() as int) =~= front);
    match reader.state {
        ReadState::Payload => {
            lemma_payload_run(reader, front, front.len());
        },
        ReadState::Padding => {
            lemma_padding_run(reader, front, front.len());
        },
        _ => {
            if reader.raw() {
                lemma_raw_run(reader, front, front.len());
            } else {
                assert(front =~= seq![front[0]]);
                lemma_one(reader, front[0]);
            }
        },
    }
}

/// A reader between two frames, which has taken this many.
pub open spec fn between_frames(reader: FramerShape, frames: u32) -> bool {
    reader.settled() == (FramerShape {
        state: ReadState::PayloadLengthHigh,
        payload_length: 0,
        padding_length: 0,
        read_frames: frames,
        ..reader
    })
}

/// A frame gives its payload back, and its padding reaches nobody.
pub proof fn a_frame_reads_back(reader: FramerShape, frames: u32, payload: Seq<u8>, padding: u8)
    requires
        between_frames(reader, frames),
        !reader.settled().raw(),
        payload.len() <= MAX_PAYLOAD_SIZE,
    ensures
        whole(reader, frame(payload, padding)).0 == payload,
        between_frames(whole(reader, frame(payload, padding)).1, counted(frames)),
        whole(reader, frame(payload, padding)).1.max_read_frames == reader.max_read_frames,
        whole(reader, frame(payload, padding)).1.written_frames == reader.written_frames,
{
    let length = be16(payload.len() as u16);
    let zeros = Seq::new(padding as nat, |i: int| 0u8);
    let bytes = frame(payload, padding);
    let start = reader.settled();
    lemma_settled(reader, start, bytes);
    let high = seq![length[0]];
    let low = seq![length[1]];
    let size = seq![padding];
    lemma_one(start, length[0]);
    let second = whole(start, high).1;
    lemma_one(second, length[1]);
    let third = whole(second, low).1;
    lemma_one(third, padding);
    let fourth = whole(third, size).1;
    assert(fourth.payload_length == payload.len());
    let tail = payload + zeros;
    assert(bytes =~= high + (low + (size + tail)));
    frames_read_alike_however_they_are_cut(start, high, low + (size + tail));
    frames_read_alike_however_they_are_cut(second, low, size + tail);
    frames_read_alike_however_they_are_cut(third, size, tail);
    frames_read_alike_however_they_are_cut(fourth, payload, zeros);
    let fifth = whole(fourth, payload).1;
    if payload.len() > 0 {
        lemma_step(fourth, payload);
    } else {
        assert(payload =~= Seq::<u8>::empty());
    }
    let ready = FramerShape { state: ReadState::Padding, ..fifth };
    if padding > 0 {
        lemma_settled(fifth, ready, zeros);
        lemma_step(ready, zeros);
    } else {
        assert(zeros =~= Seq::<u8>::empty());
    }
    let read = whole(reader, bytes).0;
    assert(read =~= payload);
}

/// The first `n` frames on the wire.
pub open spec fn frames_on_the_wire(frames: Seq<(Seq<u8>, u8)>, n: nat) -> Seq<u8>
    decreases n,
{
    if n == 0 {
        Seq::empty()
    } else {
        frames_on_the_wire(frames, (n - 1) as nat) + frame(frames[n - 1].0, frames[n - 1].1)
    }
}

/// The payloads of the first `n` frames, one behind another.
pub open spec fn payloads_of(frames: Seq<(Seq<u8>, u8)>, n: nat) -> Seq<u8>
    decreases n,
{
    if n == 0 {
        Seq::empty()
    } else {
        payloads_of(frames, (n - 1) as nat) + frames[n - 1].0
    }
}

/// Frames, up to as many as a reader takes for padded, give their payloads back in
/// order.
pub proof fn frames_read_back(limit: u32, frames: Seq<(Seq<u8>, u8)>, n: nat)
    requires
        n <= frames.len(),
        n <= limit,
        forall|i: int| 0 <= i < frames.len() ==> (#[trigger] frames[i]).0.len() <= MAX_PAYLOAD_SIZE,
    ensures
        whole(new_framer(Some(limit)), frames_on_the_wire(frames, n)).0 == payloads_of(frames, n),
        between_frames(
            whole(new_framer(Some(limit)), frames_on_the_wire(frames, n)).1,
            n as u32,
        ),
        whole(new_framer(Some(limit)), frames_on_the_wire(frames, n)).1.max_read_frames == Some(
            limit,
        ),
    decreases n,
{
    let start = new_framer(Some(limit));
    if n > 0 {
        let before = (n - 1) as nat;
        frames_read_back(limit, frames, before);
        let wire = frames_on_the_wire(frames, before);
        let reader = whole(start, wire).1;
        let last = frames[n - 1];
        a_frame_reads_back(reader, before as u32, last.0, last.1);
        frames_read_alike_however_they_are_cut(start, wire, frame(last.0, last.1));
    }
}

/// Behind the last padded frame everything is payload as it stands.
pub proof fn what_follows_the_padded_frames_is_raw(
    limit: u32,
    frames: Seq<(Seq<u8>, u8)>,
    tail: Seq<u8>,
)
    requires
        frames.len() == limit,
        forall|i: int| 0 <= i < frames.len() ==> (#[trigger] frames[i]).0.len() <= MAX_PAYLOAD_SIZE,
    ensures
        whole(
            new_framer(Some(limit)),
            frames_on_the_wire(frames, frames.len()) + tail,
        ).0 == payloads_of(frames, frames.len()) + tail,
{
    let start = new_framer(Some(limit));
    let wire = frames_on_the_wire(frames, frames.len());
    frames_read_back(limit, frames, frames.len());
    let reader = whole(start, wire).1;
    frames_read_alike_however_they_are_cut(start, wire, tail);
    if tail.len() > 0 {
        lemma_settled(reader, reader.settled(), tail);
        lemma_raw_run(reader.settled(), tail, tail.len());
        assert(tail.subrange(0, tail.len() as int) =~= tail);
    } else {
        assert(tail =~= Seq::<u8>::empty());
    }
}

/// The symbols that HPACK cannot shorten.
pub const NONINDEX_CODES: [u8; 17] = [
    33, 34, 35, 36, 38, 39, 40, 41, 42, 43, 44, 59, 60, 62, 63, 64, 88,
];

/// The power of sixteen.
pub open spec fn sixteen_to(exponent: nat) -> nat
    decreases exponent,
{
    if exponent == 0 {
        1
    } else {
        16 * sixteen_to((exponent - 1) as nat)
    }
}

/// The symbol at a place of a padding header: one for each of the sixteen nibbles
/// of the seed, lowest first, and the last symbol behind them.
pub open spec fn header_symbol(unique_bits: u64, at: int) -> u8 {
    if at < 16 {
        NONINDEX_CODES@[(unique_bits as int / sixteen_to(at as nat) as int) % 16]
    } else {
        NONINDEX_CODES@[16]
    }
}

/// The value of a padding header.
pub open spec fn header_value(unique_bits: u64, length: nat) -> Seq<u8> {
    Seq::new(length, |i: int| header_symbol(unique_bits, i))
}

/// Fill a padding header with symbols that HPACK will neither shorten nor index.
pub fn fill_nonindex_header_value(unique_bits: u64, span: &mut [u8])
    ensures
        final(span)@ == header_value(unique_bits, old(span)@.len()),
{
    let mut bits: u64 = unique_bits;
    let length = span.len();
    assert(unique_bits as int / sixteen_to(0) as int == unique_bits as int) by {
        assert(sixteen_to(0) == 1);
        vstd::arithmetic::div_mod::lemma_div_basics(unique_bits as int);
    }
    for i in 0..length
        invariant
            length == span@.len(),
            length == old(span)@.len(),
            i <= 16 ==> bits as int == unique_bits as int / sixteen_to(i as nat) as int,
            forall|j: int| 0 <= j < i ==> #[trigger] span@[j] == header_symbol(unique_bits, j),
    {
        if i < 16 {
            span[i] = NONINDEX_CODES[(bits % 16) as usize];
            proof {
                lemma_next_nibble(unique_bits, i as nat);
            }
            bits = bits / 16;
        } else {
            span[i] = NONINDEX_CODES[16];
        }
    }
    assert(span@ =~= header_value(unique_bits, old(span)@.len()));
}

proof fn lemma_next_nibble(unique_bits: u64, at: nat)
    ensures
        sixteen_to(at) > 0,
        (unique_bits as int / sixteen_to(at) as int) / 16 == unique_bits as int / sixteen_to(
            at + 1,
        ) as int,
    decreases at,
{
    lemma_positive(at);
    vstd::arithmetic::div_mod::lemma_div_denominator(
        unique_bits as int,
        sixteen_to(at) as int,
        16,
    );
    assert(sixteen_to(at) * 16 == sixteen_to(at + 1)) by {
        assert(sixteen_to(at + 1) == 16 * sixteen_to(at));
    }
}

proof fn lemma_positive(at: nat)
    ensures
        sixteen_to(at) > 0,
    decreases at,
{
    if at > 0 {
        lemma_positive((at - 1) as nat);
    }
}

/// Every symbol of a padding header is one that HPACK cannot shorten.
pub proof fn a_padding_header_uses_only_those_symbols(unique_bits: u64, length: nat)
    ensures
        forall|i: int|
            0 <= i < length ==> NONINDEX_CODES@.contains(
                #[trigger] header_value(unique_bits, length)[i],
            ),
{
    assert forall|i: int| 0 <= i < length implies NONINDEX_CODES@.contains(
        #[trigger] header_value(unique_bits, length)[i],
    ) by {
        if i < 16 {
            lemma_positive(i as nat);
            let at = (unique_bits as int / sixteen_to(i as nat) as int) % 16;
            assert(NONINDEX_CODES@[at] == header_symbol(unique_bits, i));
        } else {
            assert(NONINDEX_CODES@[16] == header_symbol(unique_bits, i));
        }
    }
}

} // verus!
