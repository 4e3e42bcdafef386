//! The in-memory transport: bytes from the peer that `h2` has still to read, and
//! bytes from `h2` that the caller has still to write to the peer.
use crate::outside::{filled, room};
use tokio::io::ReadBuf;
use vstd::prelude::*;

verus! {

/// What a read from the transport answers. A read at the end of the input is
/// `Ready` with nothing filled in.
#[derive(Clone, Copy, Debug, PartialEq, Eq, Structural)]
pub enum ReadPoll {
    Ready,
    Pending,
}

/// The transport as a value: the bytes to read, the bytes to write, and whether
/// the peer has closed its side.
pub struct IoView {
    pub unread: Seq<u8>,
    pub outbound: Seq<u8>,
    pub closed: bool,
}

/// The smaller of two numbers.
pub open spec fn least(a: nat, b: nat) -> nat {
    if a <= b {
        a
    } else {
        b
    }
}

impl IoView {
    /// The transport once more bytes have come from the peer.
    pub open spec fn pushed(self, data: Seq<u8>) -> IoView {
        IoView { unread: self.unread + data, ..self }
    }

    /// The transport once the peer has closed its side.
    pub open spec fn shut(self) -> IoView {
        IoView { closed: true, ..self }
    }

    /// The transport once more bytes are there for the peer.
    pub open spec fn written(self, data: Seq<u8>) -> IoView {
        IoView { outbound: self.outbound + data, ..self }
    }

    /// The transport once the bytes for the peer have been handed out.
    pub open spec fn drained(self) -> IoView {
        IoView { outbound: Seq::empty(), ..self }
    }

    /// The bytes that a read with room for `room` bytes takes.
    pub open spec fn readable(self, room: nat) -> Seq<u8> {
        self.unread.take(least(room, self.unread.len()) as int)
    }

    /// The transport after such a read.
    pub open spec fn after_read(self, room: nat) -> IoView {
        IoView { unread: self.unread.skip(least(room, self.unread.len()) as int), ..self }
    }

    /// What a read answers: only an input that is empty and still open makes the
    /// reader wait.
    pub open spec fn read_poll(self) -> ReadPoll {
        if self.unread.len() == 0 && !self.closed {
            ReadPoll::Pending
        } else {
            ReadPoll::Ready
        }
    }
}

/// The buffers behind the transport. `inbound` is contiguous and `inbound_pos`
/// marks how much of it has been read.
#[derive(Debug)]
pub struct IoInner {
    inbound: Vec<u8>,
    inbound_pos: usize,
    outbound: Vec<u8>,
    inbound_closed: bool,
}

impl View for IoInner {
    type V = IoView;

    closed spec fn view(&self) -> IoView {
        IoView {
            unread: self.inbound@.skip(self.inbound_pos as int),
            outbound: self.outbound@,
            closed: self.inbound_closed,
        }
    }
}

/// A transport as a value shows all that is still to come out of it, byte for byte.
proof fn law_a_transport_shows_all_it_holds(io: IoInner)
    ensures
        io.wf() ==> io@.unread.len() + io.read_kept() == io.inbound@.len(),
        io.wf() ==> forall|i: int|
            0 <= i < io@.unread.len() ==> #[trigger] io@.unread[i] == io.inbound@[io.read_kept() + i],
        io@.outbound == io.outbound@,
        io@.closed == io.inbound_closed,
{
}

impl Default for IoInner {
    fn default() -> (r: IoInner)
        ensures
            r.wf(),
            r@ == (IoView { unread: Seq::empty(), outbound: Seq::empty(), closed: false }),
            r.read_kept() == 0,
    {
        let r = IoInner {
            inbound: Vec::new(),
            inbound_pos: 0,
            outbound: Vec::new(),
            inbound_closed: false,
        };
        assert(r@.unread =~= Seq::empty());
        r
    }
}

impl IoInner {
    /// The read mark lies inside the inbound buffer, and a buffer that has been
    /// read to its end holds nothing any more.
    pub closed spec fn wf(&self) -> bool {
        &&& self.inbound_pos <= self.inbound@.len()
        &&& self.inbound_pos > 0 ==> self.inbound_pos < self.inbound@.len()
    }

    /// The number of bytes that have been read and still take up space in the inbound
    /// buffer. The bytes behind them are those to read.
    pub closed spec fn read_kept(&self) -> nat {
        self.inbound_pos as nat
    }

    /// Takes in bytes that came from the peer. What has been read already is
    /// dropped before the buffer grows, which keeps it small.
    pub fn push_inbound(&mut self, data: &[u8])
        requires
            old(self).wf(),
        ensures
            final(self).wf(),
            final(self)@ == old(self)@.pushed(data@),
            final(self).read_kept() == 0,
    {
        if self.inbound_pos > 0 {
            let rest = self.inbound.split_off(self.inbound_pos);
            self.inbound = rest;
            self.inbound_pos = 0;
        }
        self.inbound.extend_from_slice(data);
        assert(self@.unread =~= old(self)@.unread + data@);
    }

    /// Notes that the peer has closed its side: once all is read, reads are at the
    /// end of the input.
    pub fn close_inbound(&mut self)
        requires
            old(self).wf(),
        ensures
            final(self).wf(),
            final(self)@ == old(self)@.shut(),
            final(self).read_kept() == old(self).read_kept(),
    {
        self.inbound_closed = true;
    }

    /// Reads as many bytes as there are and as fit into `buf`. With none to read,
    /// the reader waits while the input is open and is at its end otherwise. A buffer
    /// that has been read to its end is emptied.
    pub fn poll_read(&mut self, buf: &mut ReadBuf<'_>) -> (r: ReadPoll)
        requires
            old(self).wf(),
        ensures
            final(self).wf(),
            r == old(self)@.read_poll(),
            final(self)@ == old(self)@.after_read(
                (room(*old(buf)) - filled(*old(buf)).len()) as nat,
            ),
            filled(*final(buf)) == filled(*old(buf)) + old(self)@.readable(
                (room(*old(buf)) - filled(*old(buf)).len()) as nat,
            ),
            room(*final(buf)) == room(*old(buf)),
            r is Pending ==> final(self).read_kept() == old(self).read_kept(),
            final(self).read_kept() == if final(self)@.unread.len() == 0 {
                0
            } else {
                old(self).read_kept() + old(self)@.readable(
                    (room(*old(buf)) - filled(*old(buf)).len()) as nat,
                ).len()
            },
    {
        let avail: usize = self.inbound.len() - self.inbound_pos;
        let ghost space = (room(*old(buf)) - filled(*old(buf)).len()) as nat;
        if avail == 0 {
            assert(self@.unread =~= old(self)@.after_read(space).unread);
            assert(filled(*buf) + old(self)@.readable(space) =~= filled(*buf));
            if self.inbound_closed {
                return ReadPoll::Ready;
            }
            return ReadPoll::Pending;
        }
        let remaining: usize = buf.remaining();
        let n: usize = if remaining < avail {
            remaining
        } else {
            avail
        };
        let start: usize = self.inbound_pos;
        let part = vstd::slice::slice_subrange(self.inbound.as_slice(), start, start + n);
        assert(part@ =~= old(self)@.readable(space));
        buf.put_slice(part);
        self.inbound_pos = self.inbound_pos + n;
        if self.inbound_pos == self.inbound.len() {
            self.inbound.clear();
            self.inbound_pos = 0;
        }
        assert(self@.unread =~= old(self)@.after_read(space).unread);
        ReadPoll::Ready
    }

    /// Takes in bytes for the peer and says how many it took: all of them.
    pub fn poll_write(&mut self, data: &[u8]) -> (n: usize)
        requires
            old(self).wf(),
        ensures
            final(self).wf(),
            n == data@.len(),
            final(self)@ == old(self)@.written(data@),
            final(self).read_kept() == old(self).read_kept(),
    {
        self.outbound.extend_from_slice(data);
        assert(self@.outbound =~= old(self)@.outbound + data@);
        data.len()
    }

    /// Hands out the bytes for the peer and keeps none of them.
    pub fn take_outbound(&mut self) -> (out: Vec<u8>)
        requires
            old(self).wf(),
        ensures
            final(self).wf(),
            out@ == old(self)@.outbound,
            final(self)@ == old(self)@.drained(),
            final(self).read_kept() == old(self).read_kept(),
    {
        let mut out: Vec<u8> = Vec::new();
        std::mem::swap(&mut out, &mut self.outbound);
        out
    }
}

} // verus!
