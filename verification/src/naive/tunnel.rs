//! The bytes of one CONNECT stream between the tunnel and HTTP/2: what has come in
//! and was not read yet, and what was written and did not fit the send window yet.
use crate::octets::{push_bytes, split_front};
use vstd::prelude::*;

verus! {

/// The bytes of a stream.
pub struct H2Stream {
    write_pending: Vec<u8>,
    inbound: Vec<u8>,
    recv_eof: bool,
}

/// The view of the bytes of a stream.
pub struct TunnelShape {
    pub write_pending: Seq<u8>,
    pub inbound: Seq<u8>,
    pub recv_eof: bool,
}

impl View for H2Stream {
    type V = TunnelShape;

    closed spec fn view(&self) -> TunnelShape {
        TunnelShape {
            write_pending: self.write_pending@,
            inbound: self.inbound@,
            recv_eof: self.recv_eof,
        }
    }
}

/// What a read comes to.
#[derive(Debug)]
pub enum InboundStep {
    Data(Vec<u8>),
    /// The stream has to be asked for data first.
    Fill,
    End,
}

/// What sending comes to, given how much the send window takes.
#[derive(Debug)]
pub enum SendStep {
    /// Nothing is left to send.
    Done,
    /// The window is full.
    Blocked,
    /// Send these bytes.
    Send(Vec<u8>),
}

/// The lesser of two lengths.
pub open spec fn lesser(left: int, right: int) -> int {
    if left < right {
        left
    } else {
        right
    }
}

impl H2Stream {
    pub fn new() -> (stream: H2Stream)
        ensures
            stream@ == (TunnelShape {
                write_pending: Seq::empty(),
                inbound: Seq::empty(),
                recv_eof: false,
            }),
    {
        let stream = H2Stream { write_pending: Vec::new(), inbound: Vec::new(), recv_eof: false };
        assert(stream@.write_pending =~= Seq::<u8>::empty());
        assert(stream@.inbound =~= Seq::<u8>::empty());
        stream
    }

    /// Read up to `room` bytes of what has come in.
    pub fn read(&mut self, room: usize) -> (step: InboundStep)
        ensures
            ({
                let inbound = old(self)@.inbound;
                if inbound.len() > 0 {
                    let take = lesser(inbound.len() as int, room as int);
                    &&& step matches InboundStep::Data(data) && data@ == inbound.subrange(0, take)
                    &&& final(self)@ == (TunnelShape {
                        inbound: inbound.subrange(take, inbound.len() as int),
                        ..old(self)@
                    })
                } else {
                    &&& final(self)@ == old(self)@
                    &&& if old(self)@.recv_eof {
                        step is End
                    } else {
                        step is Fill
                    }
                }
            }),
    {
        if self.inbound.len() > 0 {
            let take: usize = if self.inbound.len() < room {
                self.inbound.len()
            } else {
                room
            };
            return InboundStep::Data(split_front(&mut self.inbound, take));
        }
        if self.recv_eof {
            InboundStep::End
        } else {
            InboundStep::Fill
        }
    }

    /// The stream gave these bytes, or has ended.
    pub fn received(&mut self, data: Option<&[u8]>)
        ensures
            final(self)@ == match data {
                Some(bytes) => TunnelShape {
                    inbound: old(self)@.inbound + bytes@,
                    ..old(self)@
                },
                None => TunnelShape { recv_eof: true, ..old(self)@ },
            },
    {
        match data {
            Some(bytes) => {
                push_bytes(&mut self.inbound, bytes);
            },
            None => {
                self.recv_eof = true;
            },
        }
    }

    /// Whether an earlier write is still to be sent, so that nothing may be written.
    pub fn is_blocked(&self) -> (blocked: bool)
        ensures
            blocked == (self@.write_pending.len() > 0),
    {
        self.write_pending.len() > 0
    }

    /// Take bytes to send. All of them belong to the stream from here on.
    pub fn write(&mut self, buffer: &[u8])
        requires
            old(self)@.write_pending.len() == 0,
        ensures
            final(self)@ == (TunnelShape { write_pending: buffer@, ..old(self)@ }),
    {
        push_bytes(&mut self.write_pending, buffer);
        assert(self.write_pending@ =~= buffer@);
    }

    /// What to send, when the send window takes `capacity` bytes.
    pub fn send_step(&mut self, capacity: usize) -> (step: SendStep)
        ensures
            ({
                let pending = old(self)@.write_pending;
                if pending.len() == 0 {
                    step is Done && final(self)@ == old(self)@
                } else if capacity == 0 {
                    step is Blocked && final(self)@ == old(self)@
                } else {
                    let take = lesser(pending.len() as int, capacity as int);
                    &&& step matches SendStep::Send(data) && data@ == pending.subrange(0, take)
                    &&& final(self)@ == (TunnelShape {
                        write_pending: pending.subrange(take, pending.len() as int),
                        ..old(self)@
                    })
                }
            }),
    {
        if self.write_pending.len() == 0 {
            return SendStep::Done;
        }
        if capacity == 0 {
            return SendStep::Blocked;
        }
        let take: usize = if self.write_pending.len() < capacity {
            self.write_pending.len()
        } else {
            capacity
        };
        SendStep::Send(split_front(&mut self.write_pending, take))
    }
}

} // verus!
