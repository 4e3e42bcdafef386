//! A connection as a value, and how each thing that can happen changes it.
//!
//! What `h2` answers depends on the peer. The functions here take its answers as
//! arguments; the relations that end in `leads_to` say that some answers lead from
//! one state to another. Which answers these are can be read from the logs of the
//! handles, which are part of the state.
use crate::event::EventView;
use crate::head::{first_fault, head_status, response_fields, HeadView};
use crate::outside::{AcceptAnswer, LinkExchange, RecvExchange, SendExchange};
use crate::receiving::{
    capped, lemma_unacknowledged, read_answers, unacknowledged, BodyReply, Receiving, MAX_WINDOW,
};
use crate::sending::{Room, Sending};
use vstd::prelude::*;

verus! {

/// How far a connection has come.
pub enum Phase {
    /// The client preface has not come yet. The handshake has been polled so many times.
    Handshaking { polls: nat },
    /// The connection is up.
    Ready,
    /// The connection is over.
    Closed,
}

/// A connection as a value.
pub struct ConnView {
    pub phase: Phase,
    /// What has passed through the connection since the handshake.
    pub link: Seq<LinkExchange>,
    /// The open receiving halves, with what has passed through each.
    pub recv: Map<u32, Seq<RecvExchange>>,
    /// The receiving halves that have been let go, with what passed through each.
    pub past_recv: Seq<(u32, Seq<RecvExchange>)>,
    /// The streams whose request waits for an answer.
    pub responders: Set<u32>,
    /// The open sending halves, with what has passed through each.
    pub send: Map<u32, Seq<SendExchange>>,
    /// The sending halves that have been let go, with what passed through each.
    pub past_send: Seq<(u32, Seq<SendExchange>)>,
    /// The body chunks that wait, in order: their bytes, and whether they end the
    /// stream.
    pub pending: Map<u32, Seq<(Seq<u8>, bool)>>,
    /// The events that have not been handed out.
    pub events: Seq<EventView>,
}

/// One answer to the question for a new stream. Whether the stream has ended already is
/// asked of its receiving half.
pub enum AcceptReply {
    Stream { stream_id: u32, head: HeadView, stream_ended: bool },
    Failed,
    Done,
    Pending,
}

impl AcceptReply {
    /// What `h2` answered to the question for a new stream.
    pub open spec fn answer(self) -> AcceptAnswer {
        match self {
            AcceptReply::Stream { stream_id, head, .. } => AcceptAnswer::Stream { stream_id, head },
            AcceptReply::Failed => AcceptAnswer::Failed,
            AcceptReply::Done => AcceptAnswer::Done,
            AcceptReply::Pending => AcceptAnswer::Pending,
        }
    }
}

/// `replies` are the answers of one round of accepting: streams up to the first
/// answer that is none.
pub open spec fn accept_answers(replies: Seq<AcceptReply>) -> bool {
    &&& replies.len() > 0
    &&& forall|i: int| 0 <= i < replies.len() - 1 ==> #[trigger] replies[i] is Stream
    &&& !(replies.last() is Stream)
}

/// The width of the window of a connection to start with.
pub const BASE_WINDOW: u32 = 65535;

/// The bytes that are unacknowledged on the streams of a connection in all.
pub open spec fn owed_on(recv: Map<u32, Seq<RecvExchange>>) -> nat
    decreases recv.dom().len(),
    when recv.dom().finite()
{
    if recv.dom().len() == 0 {
        0
    } else {
        let stream_id = recv.dom().choose();
        unacknowledged(recv[stream_id]) + owed_on(recv.remove(stream_id))
    }
}

/// The width of the window of a connection on whose streams so many bytes are
/// unacknowledged: they do not count against it.
pub open spec fn window_for(owed: nat) -> nat {
    capped(BASE_WINDOW as nat + owed)
}

/// A receiving half once all that is unacknowledged there has been given back.
pub open spec fn settled(log: Seq<RecvExchange>) -> Seq<RecvExchange> {
    if unacknowledged(log) > 0 {
        log.push(RecvExchange::Release(unacknowledged(log) as usize))
    } else {
        log
    }
}

/// `order` walks the keys, each once.
pub open spec fn walks(order: Seq<u32>, keys: Set<u32>) -> bool {
    &&& order.no_duplicates()
    &&& order.to_set() == keys
}

// ---------------------------------------------------------------------------
// Taking in what the peer sends
// ---------------------------------------------------------------------------

impl ConnView {
    /// A connection that has just been set up.
    pub open spec fn fresh() -> ConnView {
        ConnView {
            phase: Phase::Handshaking { polls: 0 },
            link: Seq::empty(),
            recv: Map::empty(),
            past_recv: Seq::empty(),
            responders: Set::empty(),
            send: Map::empty(),
            past_send: Seq::empty(),
            pending: Map::empty(),
            events: Seq::empty(),
        }
    }

    /// A connection that is up is told at once how wide to keep its window, where the
    /// bytes that are unacknowledged on its streams are no longer `before`.
    pub open spec fn windowed(self, before: nat) -> ConnView {
        if self.phase is Ready && owed_on(self.recv) != before {
            self.link_said(LinkExchange::Window(window_for(owed_on(self.recv)) as u32))
        } else {
            self
        }
    }

    /// The receiving half of a stream is let go, if there is one. What is unacknowledged
    /// there is given back first.
    pub open spec fn recv_retired(self, stream_id: u32) -> ConnView {
        if self.recv.contains_key(stream_id) {
            let log = self.recv[stream_id];
            (ConnView {
                recv: self.recv.remove(stream_id),
                past_recv: self.past_recv.push((stream_id, settled(log))),
                ..self
            }).windowed(owed_on(self.recv))
        } else {
            self
        }
    }

    /// What follows from one answer to the question for a new stream. A new stream is
    /// kept and reported with its header list; the end of the connection is reported.
    pub open spec fn admitted(self, reply: AcceptReply) -> ConnView {
        match reply {
            AcceptReply::Stream { stream_id, head, stream_ended } => {
                let free = self.recv_retired(stream_id);
                ConnView {
                    recv: free.recv.insert(stream_id, seq![RecvExchange::Ended(stream_ended)]),
                    responders: self.responders.insert(stream_id),
                    events: self.events.push(
                        EventView::Request { stream_id, headers: head.header_list(), stream_ended },
                    ),
                    ..free
                }
            },
            AcceptReply::Failed => ConnView {
                phase: Phase::Closed,
                events: self.events.push(EventView::Terminated),
                ..self
            },
            AcceptReply::Done => ConnView { events: self.events.push(EventView::Terminated), ..self },
            AcceptReply::Pending => self,
        }
    }

    /// Something passes through the connection.
    pub open spec fn link_said(self, exchange: LinkExchange) -> ConnView {
        ConnView { link: self.link.push(exchange), ..self }
    }

    /// The connection after it has been asked for a new stream, with one answer.
    pub open spec fn accepted(self, reply: AcceptReply) -> ConnView {
        self.link_said(LinkExchange::Accept(reply.answer())).admitted(reply)
    }

    /// The connection after several such answers.
    pub open spec fn accepted_all(self, replies: Seq<AcceptReply>) -> ConnView
        decreases replies.len(),
    {
        if replies.len() == 0 {
            self
        } else {
            self.accepted_all(replies.drop_last()).accepted(replies.last())
        }
    }

    /// The connection after the body data on one stream has been read. What it brings is
    /// given back to the window of the connection at once, while the window of the stream
    /// waits for the acknowledgement. A stream that does not stay open is let go.
    pub open spec fn body_read(self, stream_id: u32, replies: Seq<BodyReply>) -> ConnView {
        if self.recv.contains_key(stream_id) {
            let after = (Receiving { log: self.recv[stream_id], events: self.events }).read(
                stream_id,
                replies,
            );
            let now = (ConnView {
                recv: self.recv.insert(stream_id, after.log),
                events: after.events,
                ..self
            }).windowed(owed_on(self.recv));
            if replies.last().keeps_stream() {
                now
            } else {
                now.recv_retired(stream_id)
            }
        } else {
            self
        }
    }

    /// The connection after the body data on several streams has been read.
    pub open spec fn bodies_read(self, order: Seq<u32>, bodies: Seq<Seq<BodyReply>>) -> ConnView
        decreases order.len(),
    {
        if order.len() == 0 {
            self
        } else {
            self.bodies_read(order.drop_last(), bodies.drop_last()).body_read(
                order.last(),
                bodies.last(),
            )
        }
    }

    /// The answers of one drive of the connection: new streams are accepted, and then
    /// the body data of every stream is read, in any order. A connection that fails
    /// has no body data read.
    pub open spec fn drive_answers(
        self,
        accepts: Seq<AcceptReply>,
        order: Seq<u32>,
        bodies: Seq<Seq<BodyReply>>,
    ) -> bool {
        &&& accept_answers(accepts)
        &&& bodies.len() == order.len()
        &&& if accepts.last() is Failed {
            order.len() == 0
        } else {
            walks(order, self.accepted_all(accepts).recv.dom())
        }
        &&& forall|i: int| 0 <= i < bodies.len() ==> read_answers(#[trigger] bodies[i])
    }

    /// The connection after one drive.
    pub open spec fn driven(
        self,
        accepts: Seq<AcceptReply>,
        order: Seq<u32>,
        bodies: Seq<Seq<BodyReply>>,
    ) -> ConnView {
        self.accepted_all(accepts).bodies_read(order, bodies)
    }

    /// Some answers make one drive lead to `end`.
    pub open spec fn drive_leads_to(self, end: ConnView) -> bool {
        if self.phase is Ready {
            exists|accepts: Seq<AcceptReply>, order: Seq<u32>, bodies: Seq<Seq<BodyReply>>| #[trigger]
                self.drive_answers(accepts, order, bodies) && end == self.driven(accepts, order, bodies)
        } else {
            end == self
        }
    }
}

// ---------------------------------------------------------------------------
// Handing over what waits for the peer
// ---------------------------------------------------------------------------

impl ConnView {
    /// Body data can go out on the stream: its head has been sent.
    pub open spec fn sendable(self, stream_id: u32) -> bool {
        self.send.contains_key(stream_id) && self.pending.contains_key(stream_id)
    }

    /// The sending half of a stream, at the start of a flush.
    pub open spec fn sending(self, stream_id: u32) -> Sending {
        Sending { log: self.send[stream_id], queue: self.pending[stream_id], sent: false }
    }

    /// The connection after the chunks of one stream have been flushed.
    pub open spec fn stream_flushed(self, stream_id: u32, rooms: Seq<Room>) -> ConnView {
        if self.sendable(stream_id) {
            let after = self.sending(stream_id).flushed(rooms);
            ConnView {
                send: self.send.insert(stream_id, after.log),
                pending: self.pending.insert(stream_id, after.queue),
                ..self
            }
        } else {
            self
        }
    }

    /// The connection after the chunks of several streams have been flushed.
    pub open spec fn flushed(self, order: Seq<u32>, rooms: Seq<Seq<Room>>) -> ConnView
        decreases order.len(),
    {
        if order.len() == 0 {
            self
        } else {
            self.flushed(order.drop_last(), rooms.drop_last()).stream_flushed(
                order.last(),
                rooms.last(),
            )
        }
    }

    /// Data was handed over on some stream.
    pub open spec fn flush_sends(self, order: Seq<u32>, rooms: Seq<Seq<Room>>) -> bool {
        exists|i: int|
            #![trigger order[i]]
            0 <= i < order.len() && self.sendable(order[i]) && self.sending(order[i]).flushed(
                rooms[i],
            ).sent
    }

    /// The answers of one flush: every stream with chunks is taken once, in any
    /// order.
    pub open spec fn flush_answers(self, order: Seq<u32>, rooms: Seq<Seq<Room>>) -> bool {
        &&& walks(order, self.pending.dom())
        &&& rooms.len() == order.len()
        &&& forall|i: int|
            #![trigger order[i]]
            0 <= i < order.len() && self.sendable(order[i]) ==> self.sending(
                order[i],
            ).flush_answers(rooms[i])
    }

    /// Some answers make one flush lead to `end`, with data handed over or not.
    pub open spec fn flush_leads_to(self, end: ConnView, sent: bool) -> bool {
        exists|order: Seq<u32>, rooms: Seq<Seq<Room>>| #[trigger]
            self.flush_answers(order, rooms) && end == self.flushed(order, rooms) && sent
                == self.flush_sends(order, rooms)
    }
}

// ---------------------------------------------------------------------------
// Pumping
// ---------------------------------------------------------------------------

/// A pump goes through no more rounds than this.
pub const MAX_ROUNDS: u32 = 64;

impl ConnView {
    /// One round is a drive and then a flush. It makes progress where it brings events
    /// or hands over data.
    pub open spec fn round_leads_to(self, end: ConnView, progress: bool) -> bool {
        exists|mid: ConnView, sent: bool|
            #![trigger self.drive_leads_to(mid), mid.flush_leads_to(end, sent)]
            {
                &&& self.drive_leads_to(mid)
                &&& mid.flush_leads_to(end, sent)
                &&& progress == (mid.events.len() != self.events.len() || sent)
            }
    }

    /// Up to `n` rounds: another one follows each that makes progress.
    pub open spec fn rounds_lead_to(self, n: nat, end: ConnView) -> bool
        decreases n,
    {
        if n == 0 {
            end == self
        } else {
            exists|next: ConnView, progress: bool| #[trigger]
                self.round_leads_to(next, progress) && if progress {
                    next.rounds_lead_to((n - 1) as nat, end)
                } else {
                    end == next
                }
        }
    }

    /// The connection in another phase, with nothing passed through it yet.
    pub open spec fn in_phase(self, phase: Phase) -> ConnView {
        ConnView { phase, link: Seq::empty(), ..self }
    }

    /// Some answers make a pump lead to `end`, and succeed or not. A handshake that has
    /// not come to its end is polled once. A pump fails only where the handshake does,
    /// and then the connection is closed.
    pub open spec fn pump_leads_to(self, end: ConnView, ok: bool) -> bool {
        match self.phase {
            Phase::Handshaking { polls } => {
                ||| ok && end == self.in_phase(Phase::Handshaking { polls: polls + 1 })
                ||| !ok && end == self.in_phase(Phase::Closed)
                ||| ok && self.in_phase(Phase::Ready).rounds_lead_to(MAX_ROUNDS as nat, end)
            },
            Phase::Ready => ok && self.rounds_lead_to(MAX_ROUNDS as nat, end),
            Phase::Closed => ok && end == self,
        }
    }
}

// ---------------------------------------------------------------------------
// What the caller asks for
// ---------------------------------------------------------------------------

impl ConnView {
    /// The connection without its events.
    pub open spec fn without_events(self) -> ConnView {
        ConnView { events: Seq::empty(), ..self }
    }

    /// The connection once the request on a stream no longer waits for an answer.
    pub open spec fn answering(self, stream_id: u32) -> ConnView {
        ConnView { responders: self.responders.remove(stream_id), ..self }
    }

    /// The sending half of a stream is let go, if there is one.
    pub open spec fn send_retired(self, stream_id: u32) -> ConnView {
        if self.send.contains_key(stream_id) {
            ConnView {
                send: self.send.remove(stream_id),
                past_send: self.past_send.push((stream_id, self.send[stream_id])),
                ..self
            }
        } else {
            self
        }
    }

    /// The head of a response, as it passes through a sending half.
    pub open spec fn head_sent(
        status: u16,
        headers: Seq<(Seq<u8>, Seq<u8>)>,
        end_stream: bool,
    ) -> SendExchange {
        SendExchange::Head { status, fields: response_fields(headers), end_stream }
    }

    /// A sending half is opened by the head of a response. One that the head ends is
    /// let go at once.
    pub open spec fn opened(self, stream_id: u32, head: SendExchange, end_stream: bool) -> ConnView {
        if end_stream {
            ConnView { past_send: self.past_send.push((stream_id, seq![head])), ..self }
        } else {
            let free = self.send_retired(stream_id);
            ConnView { send: free.send.insert(stream_id, seq![head]), ..free }
        }
    }

    /// The chunks that wait on a stream.
    pub open spec fn queue(self, stream_id: u32) -> Seq<(Seq<u8>, bool)> {
        if self.pending.contains_key(stream_id) {
            self.pending[stream_id]
        } else {
            Seq::empty()
        }
    }

    /// A chunk is put at the end of the queue of a stream.
    pub open spec fn data_queued(self, stream_id: u32, data: Seq<u8>, end_stream: bool) -> ConnView {
        ConnView {
            pending: self.pending.insert(stream_id, self.queue(stream_id).push((data, end_stream))),
            ..self
        }
    }

    /// Something passes through the sending half of a stream, if there is one.
    pub open spec fn send_said(self, stream_id: u32, exchange: SendExchange) -> ConnView {
        if self.send.contains_key(stream_id) {
            ConnView {
                send: self.send.insert(stream_id, self.send[stream_id].push(exchange)),
                ..self
            }
        } else {
            self
        }
    }

    /// A stream is reset: its sending half, if there is one, is told of the error
    /// code, and nothing of the stream is kept.
    pub open spec fn stream_reset(self, stream_id: u32, error_code: u32) -> ConnView {
        let told = self.send_said(stream_id, SendExchange::Reset(error_code)).send_retired(stream_id);
        ConnView {
            responders: told.responders.remove(stream_id),
            pending: told.pending.remove(stream_id),
            ..told.recv_retired(stream_id)
        }
    }

    /// The window of a stream is refilled by `size` bytes, where so many are unacknowledged
    /// there. The window of the connection had them back already.
    pub open spec fn acknowledged(self, stream_id: u32, size: usize) -> ConnView {
        if self.recv.contains_key(stream_id) && size <= unacknowledged(self.recv[stream_id]) {
            (ConnView {
                recv: self.recv.insert(
                    stream_id,
                    self.recv[stream_id].push(RecvExchange::Release(size)),
                ),
                ..self
            }).windowed(owed_on(self.recv))
        } else {
            self
        }
    }

    /// The connection is asked to shut down, if it is up.
    pub open spec fn shutdown_asked(self) -> ConnView {
        if self.phase is Ready {
            self.link_said(LinkExchange::Shutdown)
        } else {
            self
        }
    }

    /// A head can be sent on a stream: a request waits there, the response has a status
    /// code, and nothing is wrong with the header fields.
    pub open spec fn head_accepted(
        self,
        stream_id: u32,
        status: u16,
        headers: Seq<(Seq<u8>, Seq<u8>)>,
    ) -> bool {
        &&& self.responders.contains(stream_id)
        &&& head_status(status, headers) is Some
        &&& first_fault(headers) is None
    }
}

// ---------------------------------------------------------------------------
// Counting what is unacknowledged
// ---------------------------------------------------------------------------

/// What is unacknowledged in all is what is so on one stream and on the others.
pub proof fn lemma_owed_without(recv: Map<u32, Seq<RecvExchange>>, stream_id: u32)
    requires
        recv.dom().finite(),
        recv.contains_key(stream_id),
    ensures
        owed_on(recv) == unacknowledged(recv[stream_id]) + owed_on(recv.remove(stream_id)),
    decreases recv.dom().len(),
{
    let first = recv.dom().choose();
    assert(recv.dom().contains(stream_id));
    assert(recv.dom().len() > 0);
    if first != stream_id {
        assert(recv.remove(first).dom() =~= recv.dom().remove(first));
        assert(recv.remove(stream_id).dom() =~= recv.dom().remove(stream_id));
        lemma_owed_without(recv.remove(first), stream_id);
        lemma_owed_without(recv.remove(stream_id), first);
        assert(recv.remove(first).remove(stream_id) =~= recv.remove(stream_id).remove(first));
    }
}

/// What is unacknowledged in all, after one stream has been put in its place.
pub proof fn lemma_owed_with(
    recv: Map<u32, Seq<RecvExchange>>,
    stream_id: u32,
    log: Seq<RecvExchange>,
)
    requires
        recv.dom().finite(),
    ensures
        owed_on(recv.insert(stream_id, log)) == unacknowledged(log) + owed_on(recv.remove(stream_id)),
        !recv.contains_key(stream_id) ==> recv.remove(stream_id) == recv,
        recv.contains_key(stream_id) ==> owed_on(recv) == unacknowledged(recv[stream_id]) + owed_on(
            recv.remove(stream_id),
        ),
{
    let with = recv.insert(stream_id, log);
    lemma_owed_without(with, stream_id);
    assert(with.remove(stream_id) =~= recv.remove(stream_id));
    if recv.contains_key(stream_id) {
        lemma_owed_without(recv, stream_id);
    } else {
        assert(recv.remove(stream_id) =~= recv);
    }
}

/// What is unacknowledged in all is no more than a full window for each stream.
proof fn lemma_owed_by_count(recv: Map<u32, Seq<RecvExchange>>)
    requires
        recv.dom().finite(),
    ensures
        owed_on(recv) <= recv.dom().len() * MAX_WINDOW,
    decreases recv.dom().len(),
{
    let n = recv.dom().len();
    if n > 0 {
        let first = recv.dom().choose();
        assert(recv.remove(first).dom() =~= recv.dom().remove(first));
        lemma_owed_by_count(recv.remove(first));
        lemma_unacknowledged(recv[first], RecvExchange::Ended(false));
        assert(n * MAX_WINDOW == (n - 1) * MAX_WINDOW + MAX_WINDOW) by (nonlinear_arith)
            requires
                n > 0,
        ;
    }
}

/// However many streams there are, what is unacknowledged in all can be counted.
pub proof fn lemma_owed_is_bounded(recv: Map<u32, Seq<RecvExchange>>)
    requires
        recv.dom().finite(),
    ensures
        owed_on(recv) < 0x8000_0000_0000_0000,
{
    let number = |id: u32| id as int;
    let numbers = recv.dom().map(number);
    let all = vstd::set_lib::set_int_range(0, 0x1_0000_0000);
    vstd::set_lib::lemma_int_range(0, 0x1_0000_0000);
    vstd::set_lib::lemma_map_size(recv.dom(), numbers, number);
    assert(numbers.subset_of(all));
    vstd::set_lib::lemma_len_subset(numbers, all);
    lemma_owed_by_count(recv);
    let n = recv.dom().len();
    assert(n * MAX_WINDOW <= 0x1_0000_0000 * MAX_WINDOW) by (nonlinear_arith)
        requires
            n <= 0x1_0000_0000,
    ;
}

// ---------------------------------------------------------------------------
// How streams stay apart
// ---------------------------------------------------------------------------

/// Flushing some streams leaves every other stream as it is.
pub(crate) proof fn lemma_flush_elsewhere(
    conn: ConnView,
    order: Seq<u32>,
    rooms: Seq<Seq<Room>>,
    stream_id: u32,
)
    requires
        !order.contains(stream_id),
    ensures
        conn.flushed(order, rooms).sendable(stream_id) == conn.sendable(stream_id),
        conn.flushed(order, rooms).send.contains_key(stream_id) == conn.send.contains_key(stream_id),
        conn.flushed(order, rooms).pending.contains_key(stream_id) == conn.pending.contains_key(
            stream_id,
        ),
        conn.flushed(order, rooms).send[stream_id] == conn.send[stream_id],
        conn.flushed(order, rooms).pending[stream_id] == conn.pending[stream_id],
    decreases order.len(),
{
    if order.len() > 0 {
        assert(order.last() == order[order.len() - 1]);
        assert(order.last() != stream_id);
        assert(!order.drop_last().contains(stream_id)) by {
            if order.drop_last().contains(stream_id) {
                let i = choose|i: int| 0 <= i < order.len() - 1 && order.drop_last()[i] == stream_id;
                assert(order[i] == stream_id);
            }
        }
        lemma_flush_elsewhere(conn, order.drop_last(), rooms.drop_last(), stream_id);
    }
}

} // verus!
