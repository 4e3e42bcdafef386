//! The handles that a connection has let go. Only the log of a handle is kept, as ghost
//! state, and it can be put here in no other way than by giving up the handle itself.
use crate::outside::{recv_log, send_log, RecvExchange, SendExchange};
use bytes::Bytes;
use h2::{RecvStream, SendStream};
use vstd::prelude::*;

verus! {

/// The sending halves that have been let go, with what passed through each.
pub struct PastSend {
    logs: Ghost<Seq<(u32, Seq<SendExchange>)>>,
}

impl View for PastSend {
    type V = Seq<(u32, Seq<SendExchange>)>;

    closed spec fn view(&self) -> Seq<(u32, Seq<SendExchange>)> {
        self.logs@
    }
}

impl PastSend {
    /// None have been let go yet.
    pub(crate) fn none() -> (r: PastSend)
        ensures
            r@ == Seq::<(u32, Seq<SendExchange>)>::empty(),
    {
        PastSend { logs: Ghost(Seq::empty()) }
    }

    /// Lets a sending half go.
    pub(crate) fn let_go(&mut self, stream_id: u32, send: SendStream<Bytes>)
        ensures
            final(self)@ == old(self)@.push((stream_id, send_log(send))),
    {
        self.logs = Ghost(self.logs@.push((stream_id, send_log(send))));
    }
}

/// The receiving halves that have been let go, with what passed through each.
pub struct PastRecv {
    logs: Ghost<Seq<(u32, Seq<RecvExchange>)>>,
}

impl View for PastRecv {
    type V = Seq<(u32, Seq<RecvExchange>)>;

    closed spec fn view(&self) -> Seq<(u32, Seq<RecvExchange>)> {
        self.logs@
    }
}

impl PastRecv {
    /// None have been let go yet.
    pub(crate) fn none() -> (r: PastRecv)
        ensures
            r@ == Seq::<(u32, Seq<RecvExchange>)>::empty(),
    {
        PastRecv { logs: Ghost(Seq::empty()) }
    }

    /// Lets a receiving half go.
    pub(crate) fn let_go(&mut self, stream_id: u32, recv: RecvStream)
        ensures
            final(self)@ == old(self)@.push((stream_id, recv_log(recv))),
    {
        self.logs = Ghost(self.logs@.push((stream_id, recv_log(recv))));
    }
}

} // verus!
