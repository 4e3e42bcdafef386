//! The server side of an HTTP/2 connection.
use crate::error::CodecError;
use crate::event::{event_views, ConnectionTerminated, Event, RequestReceived};
use crate::head::{
    first_fault, head_status, overfull, pairs, request_head, response_headers, response_status,
    RequestHead,
};
use crate::model::{
    accept_answers, lemma_flush_elsewhere, lemma_owed_is_bounded, lemma_owed_with, owed_on, settled,
    walks, window_for, AcceptReply, ConnView, Phase, BASE_WINDOW, MAX_ROUNDS,
};
use crate::outside::{
    answers_on, content, handshake_polls, is_end_stream, link_log, poll_accept, poll_handshake,
    receives_on, recv_log, release_capacity, response_stream_id, send_log, send_reset, send_response, sends_on,
    set_window, shut_down, start_handshake, AcceptPoll, HandshakePoll, Link, LinkExchange, Opening,
    RecvExchange, Responder, SendExchange,
};
use crate::past::{PastRecv, PastSend};
use crate::receiving::{
    lemma_unacknowledged, read_answers, read_body, receiving, unacknowledged, BodyReply, MAX_WINDOW,
};
use crate::sending::{flush_stream, queue_view, sending, Room};
use bytes::Bytes;
use h2::{RecvStream, SendStream};
use std::collections::{HashMap, VecDeque};
use tokio::io::{AsyncRead, AsyncWrite};
use vstd::prelude::*;
use vstd::std_specs::iter::IteratorSpec;

verus! {

/// How far a connection has come, with what drives it.
enum State {
    Handshaking(Opening),
    Ready(Link),
    Closed,
}

impl State {
    spec fn phase(self) -> Phase {
        match self {
            State::Handshaking(opening) => Phase::Handshaking { polls: handshake_polls(opening) },
            State::Ready(_) => Phase::Ready,
            State::Closed => Phase::Closed,
        }
    }
}

/// The receiving half of a stream, with the number of bytes that are unacknowledged
/// there.
struct Receiver {
    recv: RecvStream,
    unacked: u32,
}

impl Receiver {
    /// The handle is to the stream of that number, and the count is right.
    spec fn serves(self, stream_id: u32) -> bool {
        &&& receives_on(self.recv) == stream_id
        &&& self.unacked == unacknowledged(recv_log(self.recv))
    }
}

/// The server side of an HTTP/2 connection. What has passed through the handles that
/// it has let go is kept as ghost state.
pub struct H2Connection {
    state: State,
    past_link: Ghost<Seq<LinkExchange>>,
    recv_streams: HashMap<u32, Receiver>,
    past_recv: PastRecv,
    owed: u64,
    responders: HashMap<u32, Responder>,
    send_streams: HashMap<u32, SendStream<Bytes>>,
    past_send: PastSend,
    pending_send: HashMap<u32, VecDeque<(Bytes, bool)>>,
    events: VecDeque<Event>,
}

spec fn recv_view(m: Map<u32, Receiver>) -> Map<u32, Seq<RecvExchange>> {
    m.map_values(|receiver: Receiver| recv_log(receiver.recv))
}

proof fn lemma_recv_finite(m: HashMap<u32, Receiver>)
    ensures
        recv_view(m@).dom().finite(),
{
    assert(recv_view(m@).dom() =~= m@.dom());
}

spec fn send_view(m: Map<u32, SendStream<Bytes>>) -> Map<u32, Seq<SendExchange>> {
    m.map_values(|send: SendStream<Bytes>| send_log(send))
}

spec fn pending_view(m: Map<u32, VecDeque<(Bytes, bool)>>) -> Map<u32, Seq<(Seq<u8>, bool)>> {
    m.map_values(|queue: VecDeque<(Bytes, bool)>| queue_view(queue@))
}

impl View for H2Connection {
    type V = ConnView;

    closed spec fn view(&self) -> ConnView {
        ConnView {
            phase: self.state.phase(),
            link: match self.state {
                State::Handshaking(_) => Seq::empty(),
                State::Ready(link) => link_log(link),
                State::Closed => self.past_link@,
            },
            recv: recv_view(self.recv_streams@),
            past_recv: self.past_recv@,
            responders: self.responders@.dom(),
            send: send_view(self.send_streams@),
            past_send: self.past_send@,
            pending: pending_view(self.pending_send@),
            events: event_views(self.events@),
        }
    }
}

/// A connection as a value shows all that the connection holds: of every handle what has
/// passed through it, of every queue its chunks as they are, and every event.
proof fn law_a_connection_shows_all_it_holds(conn: H2Connection, id: u32)
    ensures
        match conn.state {
            State::Handshaking(opening) => conn@.phase == (Phase::Handshaking {
                polls: handshake_polls(opening),
            }) && conn@.link.len() == 0,
            State::Ready(link) => conn@.phase is Ready && conn@.link == link_log(link),
            State::Closed => conn@.phase is Closed && conn@.link == conn.past_link@,
        },
        conn@.recv.contains_key(id) == conn.recv_streams@.contains_key(id),
        conn.recv_streams@.contains_key(id) ==> conn@.recv[id] == recv_log(conn.recv_streams@[id].recv),
        conn@.past_recv == conn.past_recv@,
        conn@.responders.contains(id) == conn.responders@.contains_key(id),
        conn@.send.contains_key(id) == conn.send_streams@.contains_key(id),
        conn.send_streams@.contains_key(id) ==> conn@.send[id] == send_log(conn.send_streams@[id]),
        conn@.past_send == conn.past_send@,
        conn@.pending.contains_key(id) == conn.pending_send@.contains_key(id),
        conn.pending_send@.contains_key(id) ==> {
            &&& conn@.pending[id].len() == conn.pending_send@[id]@.len()
            &&& forall|i: int|
                #![trigger conn@.pending[id][i]]
                0 <= i < conn@.pending[id].len() ==> conn@.pending[id][i].0 == content(
                    conn.pending_send@[id]@[i].0,
                ) && conn@.pending[id][i].1 == conn.pending_send@[id]@[i].1
        },
        conn@.events.len() == conn.events@.len(),
        forall|i: int| 0 <= i < conn@.events.len() ==> #[trigger] conn@.events[i] == conn.events@[i]@,
        conn.wf() && conn.recv_streams@.contains_key(id) ==> receives_on(conn.recv_streams@[id].recv)
            == id && conn.recv_streams@[id].unacked == unacknowledged(conn@.recv[id]),
        conn.wf() && conn.responders@.contains_key(id) ==> answers_on(conn.responders@[id]) == id,
        conn.wf() && conn.send_streams@.contains_key(id) ==> sends_on(conn.send_streams@[id]) == id,
        conn.wf() ==> conn.owed == owed_on(conn@.recv),
{
}

impl H2Connection {
    /// Every handle is kept under the number of the stream that it belongs to, and what is
    /// unacknowledged is counted, on each stream and in all.
    pub closed spec fn wf(&self) -> bool {
        &&& self.handles_fit()
        &&& self.owed == owed_on(recv_view(self.recv_streams@))
    }

    spec fn handles_fit(&self) -> bool {
        &&& forall|id: u32| #[trigger]
            self.recv_streams@.contains_key(id) ==> self.recv_streams@[id].serves(id)
        &&& forall|id: u32| #[trigger]
            self.responders@.contains_key(id) ==> answers_on(self.responders@[id]) == id
        &&& forall|id: u32| #[trigger]
            self.send_streams@.contains_key(id) ==> sends_on(self.send_streams@[id]) == id
    }

    /// Sets up a connection over a transport. Nothing is read or written yet.
    pub fn new<T: AsyncRead + AsyncWrite + Clone + 'static>(io: T) -> (r: H2Connection)
        ensures
            r.wf(),
            r@ == ConnView::fresh(),
    {
        let r = H2Connection {
            state: State::Handshaking(start_handshake(io)),
            past_link: Ghost(Seq::empty()),
            recv_streams: HashMap::new(),
            past_recv: PastRecv::none(),
            owed: 0,
            responders: HashMap::new(),
            send_streams: HashMap::new(),
            past_send: PastSend::none(),
            pending_send: HashMap::new(),
            events: VecDeque::new(),
        };
        assert(r@.recv =~= ConnView::fresh().recv);
        assert(r@.recv.dom() =~= Set::<u32>::empty());
        assert(r@.responders =~= ConnView::fresh().responders);
        assert(r@.send =~= ConnView::fresh().send);
        assert(r@.pending =~= ConnView::fresh().pending);
        assert(r@.events =~= ConnView::fresh().events);
        r
    }

    /// Queues a piece of a response body. It goes out as the peer's flow-control
    /// window allows, once the head of the response has been sent.
    pub fn send_data(&mut self, stream_id: u32, data: &[u8], end_stream: bool)
        requires
            old(self).wf(),
        ensures
            final(self).wf(),
            final(self)@ == old(self)@.data_queued(stream_id, data@, end_stream),
    {
        let mut queue = match self.pending_send.remove(&stream_id) {
            Some(queue) => queue,
            None => VecDeque::new(),
        };
        assert(queue_view(queue@) =~= old(self)@.queue(stream_id));
        let ghost before = queue@;
        queue.push_back((Bytes::copy_from_slice(data), end_stream));
        assert(queue_view(queue@) =~= queue_view(before).push((data@, end_stream)));
        self.pending_send.insert(stream_id, queue);
        assert(self@.pending =~= old(self)@.data_queued(stream_id, data@, end_stream).pending);
    }

    /// Lets the sending half of a stream go.
    fn retire_send(&mut self, stream_id: u32, send: SendStream<Bytes>)
        requires
            old(self).wf(),
        ensures
            final(self).wf(),
            final(self)@ == (ConnView {
                past_send: old(self)@.past_send.push((stream_id, send_log(send))),
                ..old(self)@
            }),
            final(self).send_streams == old(self).send_streams,
    {
        self.past_send.let_go(stream_id, send);
    }

    /// Notes how many bytes are unacknowledged in all, and tells a connection that is up
    /// at once how wide to keep its window, where that has changed.
    fn set_owed(&mut self, owed: u64)
        requires
            old(self).handles_fit(),
            owed == owed_on(old(self)@.recv),
        ensures
            final(self).wf(),
            final(self)@ == old(self)@.windowed(old(self).owed as nat),
            final(self).recv_streams == old(self).recv_streams,
            final(self).responders == old(self).responders,
    {
        if owed != self.owed {
            self.owed = owed;
            if let State::Ready(link) = &mut self.state {
                let room: u32 = MAX_WINDOW - BASE_WINDOW;
                let size: u32 = if owed <= room as u64 {
                    BASE_WINDOW + owed as u32
                } else {
                    MAX_WINDOW
                };
                assert(size == window_for(owed as nat));
                set_window(link, size);
            }
        }
    }

    /// Lets the receiving half of a stream go that is no longer among the open ones. What
    /// is unacknowledged there is given back first.
    fn retire_recv(&mut self, stream_id: u32, receiver: Receiver)
        requires
            old(self).handles_fit(),
            receiver.serves(stream_id),
            old(self).owed == receiver.unacked + owed_on(old(self)@.recv),
        ensures
            final(self).wf(),
            final(self)@ == (ConnView {
                past_recv: old(self)@.past_recv.push((stream_id, settled(recv_log(receiver.recv)))),
                ..old(self)@
            }).windowed(old(self).owed as nat),
            final(self).recv_streams == old(self).recv_streams,
            final(self).responders == old(self).responders,
    {
        let Receiver { recv, unacked } = receiver;
        let mut recv = recv;
        if unacked > 0 {
            let _ = release_capacity(&mut recv, unacked as usize);
        }
        self.past_recv.let_go(stream_id, recv);
        self.set_owed(self.owed - unacked as u64);
    }

    /// Resets a stream: its sending half, if there is one, is told of the error
    /// code, and nothing of the stream is kept.
    pub fn reset_stream(&mut self, stream_id: u32, error_code: u32)
        requires
            old(self).wf(),
        ensures
            final(self).wf(),
            final(self)@ == old(self)@.stream_reset(stream_id, error_code),
    {
        if let Some(send) = self.send_streams.remove(&stream_id) {
            let mut send = send;
            send_reset(&mut send, error_code);
            self.retire_send(stream_id, send);
        }
        self.responders.remove(&stream_id);
        if let Some(receiver) = self.recv_streams.remove(&stream_id) {
            assert(self@.recv =~= old(self)@.recv.remove(stream_id));
            proof {
                lemma_recv_finite(old(self).recv_streams);
                lemma_owed_with(old(self)@.recv, stream_id, recv_log(receiver.recv));
            }
            self.retire_recv(stream_id, receiver);
        }
        self.pending_send.remove(&stream_id);
        let ghost goal = old(self)@.stream_reset(stream_id, error_code);
        assert(self@.send =~= goal.send);
        assert(self@.recv =~= goal.recv);
        assert(self@.responders =~= goal.responders);
        assert(self@.pending =~= goal.pending);
        assert(self@.past_send =~= goal.past_send);
        assert(self@.past_recv =~= goal.past_recv);
    }

    /// Acknowledges that so many bytes of a request body have been consumed, which refills
    /// the window of the stream by as many. A stream that is not there is passed over, and
    /// so are more bytes than have been reported and not acknowledged.
    pub fn acknowledge_data(&mut self, stream_id: u32, size: usize)
        requires
            old(self).wf(),
        ensures
            final(self).wf(),
            final(self)@ == old(self)@.acknowledged(stream_id, size),
    {
        let ghost goal = old(self)@.acknowledged(stream_id, size);
        if let Some(receiver) = self.recv_streams.remove(&stream_id) {
            let Receiver { recv, unacked } = receiver;
            if size <= unacked as usize {
                let mut recv = recv;
                let ghost log = recv_log(recv).push(RecvExchange::Release(size));
                proof {
                    lemma_unacknowledged(recv_log(recv), RecvExchange::Release(size));
                    lemma_recv_finite(old(self).recv_streams);
                    lemma_owed_with(old(self)@.recv, stream_id, log);
                }
                let _ = release_capacity(&mut recv, size);
                let bytes: u32 = size as u32;
                self.recv_streams.insert(stream_id, Receiver { recv, unacked: unacked - bytes });
                assert(self@.recv =~= old(self)@.recv.insert(stream_id, log));
                self.set_owed(self.owed - bytes as u64);
            } else {
                self.recv_streams.insert(stream_id, Receiver { recv, unacked });
                assert(self@.recv =~= goal.recv);
            }
        } else {
            assert(self@.recv =~= goal.recv);
        }
    }

    /// Begins a graceful shutdown of a connection that is up.
    pub fn close_connection(&mut self)
        requires
            old(self).wf(),
        ensures
            final(self).wf(),
            final(self)@ == old(self)@.shutdown_asked(),
    {
        if let State::Ready(link) = &mut self.state {
            shut_down(link);
        }
    }

    /// Hands out the events and keeps none of them.
    pub fn take_events(&mut self) -> (r: Vec<Event>)
        requires
            old(self).wf(),
        ensures
            final(self).wf(),
            event_views(r@) == old(self)@.events,
            final(self)@ == old(self)@.without_events(),
    {
        let mut r: Vec<Event> = Vec::new();
        while self.events.len() > 0
            invariant
                self.wf(),
                self@ == (ConnView { events: event_views(self.events@), ..old(self)@ }),
                r@ + self.events@ == old(self).events@,
            decreases self.events@.len(),
        {
            let ghost before = r@ + self.events@;
            if let Some(event) = self.events.pop_front() {
                r.push(event);
            }
            assert(r@ + self.events@ =~= before);
        }
        assert(r@ =~= old(self).events@);
        assert(self@.events =~= Seq::empty());
        r
    }
}

/// The keys of a map, each once, in the order in which the map walks them.
fn stream_ids<V>(m: &HashMap<u32, V>) -> (ids: Vec<u32>)
    ensures
        walks(ids@, m@.dom()),
{
    let ghost keys = m.keys().remaining().unref();
    let mut ids: Vec<u32> = Vec::new();
    for id in it: m.keys()
        invariant
            it.seq().unref() == keys,
            ids@ == keys.take(it.index() as int),
    {
        ids.push(*id);
        assert(ids@ =~= keys.take(it.index() + 1));
    }
    proof {
        assert(ids@ =~= keys);
        assert forall|i: int, j: int| 0 <= i < keys.len() && 0 <= j < keys.len() && i != j implies keys[i]
            != keys[j] by {
            assert(m.keys().remaining()[i] != m.keys().remaining()[j]);
        }
    }
    ids
}

impl H2Connection {
    /// Sends the head of a response on a stream whose request waits for an answer.
    /// The `:status` pseudo-header among the header fields supplies the status code; where
    /// there is none, it is `status`. Other pseudo-headers are passed over. However the
    /// call ends, the request no longer waits.
    pub fn send_headers(
        &mut self,
        stream_id: u32,
        status: u16,
        headers: &Vec<(Vec<u8>, Vec<u8>)>,
        end_stream: bool,
    ) -> (r: Result<(), CodecError>)
        requires
            old(self).wf(),
        ensures
            final(self).wf(),
            !old(self)@.responders.contains(stream_id) ==> final(self)@ == old(self)@ && r
                == Err::<(), CodecError>(CodecError::UnknownStream(stream_id)),
            old(self)@.responders.contains(stream_id) ==> match r {
                Ok(()) => {
                    &&& old(self)@.head_accepted(stream_id, status, pairs(headers@))
                    &&& head_status(status, pairs(headers@)) matches Some(code)
                    &&& final(self)@ == old(self)@.answering(stream_id).opened(
                        stream_id,
                        ConnView::head_sent(code, pairs(headers@), end_stream),
                        end_stream,
                    )
                },
                Err(e) => {
                    &&& final(self)@ == old(self)@.answering(stream_id)
                    &&& head_error(e, status, pairs(headers@))
                },
            },
    {
        let responder = match self.responders.remove(&stream_id) {
            Some(responder) => responder,
            None => {
                assert(self.responders@ =~= old(self).responders@);
                return Err(CodecError::UnknownStream(stream_id));
            },
        };
        assert(self@.responders =~= old(self)@.responders.remove(stream_id));
        let code = match response_status(status, headers) {
            Ok(code) => code,
            Err(e) => return Err(e),
        };
        let map = match response_headers(headers) {
            Ok(map) => map,
            Err(e) => return Err(e),
        };
        let answer = send_response(responder, code, map, end_stream);
        self.on_response(stream_id, end_stream, answer)
    }

    /// Acts on the answer of a stream to the head of a response. A sending half that goes
    /// on is kept in the place of a former one; one that the head ends is let go.
    pub fn on_response(
        &mut self,
        stream_id: u32,
        end_stream: bool,
        answer: Result<SendStream<Bytes>, h2::Error>,
    ) -> (r: Result<(), CodecError>)
        requires
            old(self).wf(),
            answer matches Ok(send) ==> sends_on(send) == stream_id && send_log(send).len() == 1,
        ensures
            final(self).wf(),
            match answer {
                Ok(send) => {
                    &&& r is Ok
                    &&& final(self)@ == old(self)@.opened(stream_id, send_log(send)[0], end_stream)
                },
                Err(e) => {
                    &&& r == Err::<(), CodecError>(CodecError::SendResponseFailed(e))
                    &&& final(self)@ == old(self)@
                },
            },
    {
        let send = match answer {
            Ok(send) => send,
            Err(e) => return Err(CodecError::SendResponseFailed(e)),
        };
        let ghost start = self@;
        let ghost head = send_log(send)[0];
        assert(send_log(send) =~= seq![head]);
        if end_stream {
            self.retire_send(stream_id, send);
        } else {
            if let Some(former) = self.send_streams.remove(&stream_id) {
                self.retire_send(stream_id, former);
            }
            assert(self@.send =~= start.send_retired(stream_id).send);
            self.send_streams.insert(stream_id, send);
            assert(self@.send =~= start.opened(stream_id, head, end_stream).send);
        }
        Ok(())
    }
}

/// The error with which a head is refused on a stream whose request waits for an
/// answer. A response without a status code is refused first, and then the first header
/// field that is at fault; what is left is up to the stream.
pub open spec fn head_error(e: CodecError, status: u16, headers: Seq<(Seq<u8>, Seq<u8>)>) -> bool {
    if head_status(status, headers) is None {
        e is InvalidStatus
    } else {
        match e {
            CodecError::TooManyHeaders => overfull(headers),
            CodecError::SendResponseFailed(_) => first_fault(headers) is None,
            _ => first_fault(headers) matches Some(fault) && fault.reported_as(e),
        }
    }
}

/// A stream that the peer has opened.
pub struct AcceptedStream {
    pub stream_id: u32,
    pub head: RequestHead,
    pub stream_ended: bool,
    pub recv: RecvStream,
    pub responder: Responder,
}

impl AcceptedStream {
    /// The handles are to the stream of that number, and the receiving half has only been
    /// asked whether the stream has ended.
    pub open spec fn wf(self) -> bool {
        &&& receives_on(self.recv) == self.stream_id
        &&& answers_on(self.responder) == self.stream_id
        &&& recv_log(self.recv) == seq![RecvExchange::Ended(self.stream_ended)]
    }
}

/// One answer to the question for a new stream.
pub enum AcceptStep {
    Stream(AcceptedStream),
    Failed,
    Done,
    Pending,
}

impl AcceptStep {
    /// The handles of a stream, if the answer is one, are as they should be.
    pub open spec fn wf(self) -> bool {
        self matches AcceptStep::Stream(stream) ==> stream.wf()
    }
}

impl View for AcceptStep {
    type V = AcceptReply;

    open spec fn view(&self) -> AcceptReply {
        match *self {
            AcceptStep::Stream(stream) => AcceptReply::Stream {
                stream_id: stream.stream_id,
                head: stream.head@,
                stream_ended: stream.stream_ended,
            },
            AcceptStep::Failed => AcceptReply::Failed,
            AcceptStep::Done => AcceptReply::Done,
            AcceptStep::Pending => AcceptReply::Pending,
        }
    }
}

/// Puts an answer of `h2` to the question for a new stream in plain values, next to
/// the handles of the stream. Whether the stream has ended already is asked of it.
pub fn accept_step(answer: AcceptPoll) -> (step: AcceptStep)
    requires
        fresh_handles(answer),
    ensures
        step.wf(),
        step@.answer() == answer.answer(),
        answer matches AcceptPoll::Stream(_, _, responder) ==> (step matches AcceptStep::Stream(stream)
            && stream.responder == responder),
{
    match answer {
        AcceptPoll::Stream(parts, recv, responder) => {
            let stream_id: u32 = response_stream_id(&responder);
            let head = request_head(&parts);
            let mut recv = recv;
            let stream_ended = is_end_stream(&mut recv);
            assert(recv_log(recv) =~= seq![RecvExchange::Ended(stream_ended)]);
            AcceptStep::Stream(AcceptedStream { stream_id, head, stream_ended, recv, responder })
        },
        AcceptPoll::Failed(_) => AcceptStep::Failed,
        AcceptPoll::Done => AcceptStep::Done,
        AcceptPoll::Pending => AcceptStep::Pending,
    }
}

/// The handles of a new stream, if the answer is one, are to one stream, and nothing has
/// passed through its receiving half.
pub open spec fn fresh_handles(answer: AcceptPoll) -> bool {
    answer matches AcceptPoll::Stream(_, recv, responder) ==> {
        &&& receives_on(recv) == answers_on(responder)
        &&& recv_log(recv) == Seq::<RecvExchange>::empty()
    }
}

impl H2Connection {
    /// Acts on the answer to the question for a new stream. A new stream is kept and
    /// reported with its header list; the end of the connection is reported.
    pub fn on_accept(&mut self, step: AcceptStep)
        requires
            old(self).wf(),
            step.wf(),
        ensures
            final(self).wf(),
            final(self)@ == old(self)@.admitted(step@),
    {
        let ghost goal = old(self)@.admitted(step@);
        match step {
            AcceptStep::Stream(stream) => {
                let AcceptedStream { stream_id, head, stream_ended, recv, responder } = stream;
                let headers = head.header_list();
                if let Some(former) = self.recv_streams.remove(&stream_id) {
                    assert(self@.recv =~= old(self)@.recv.remove(stream_id));
                    proof {
                        lemma_recv_finite(old(self).recv_streams);
                        lemma_owed_with(old(self)@.recv, stream_id, recv_log(former.recv));
                    }
                    self.retire_recv(stream_id, former);
                }
                assert(self@.recv =~= old(self)@.recv_retired(stream_id).recv);
                proof {
                    lemma_recv_finite(self.recv_streams);
                    lemma_owed_with(self@.recv, stream_id, recv_log(recv));
                    lemma_unacknowledged(Seq::empty(), RecvExchange::Ended(stream_ended));
                    assert(recv_log(recv) =~= Seq::empty().push(RecvExchange::Ended(stream_ended)));
                }
                self.recv_streams.insert(stream_id, Receiver { recv, unacked: 0 });
                self.responders.insert(stream_id, responder);
                self.events.push_back(
                    Event::Request(RequestReceived { stream_id, headers, stream_ended }),
                );
                assert(self@.recv =~= goal.recv);
                assert(self@.responders =~= goal.responders);
                assert(self@.events =~= goal.events);
            },
            AcceptStep::Failed => {
                let ghost log = self@.link;
                self.past_link = Ghost(log);
                self.state = State::Closed;
                self.events.push_back(Event::Terminated(ConnectionTerminated {  }));
                assert(self@.events =~= goal.events);
            },
            AcceptStep::Done => {
                self.events.push_back(Event::Terminated(ConnectionTerminated {  }));
                assert(self@.events =~= goal.events);
            },
            AcceptStep::Pending => {},
        }
    }

    /// Accepts the streams that the peer has opened. Says whether the connection
    /// failed.
    fn accept_streams(&mut self) -> (failed: bool)
        requires
            old(self).wf(),
            old(self)@.phase is Ready,
        ensures
            final(self).wf(),
            exists|replies: Seq<AcceptReply>| #[trigger]
                accept_answers(replies) && failed == (replies.last() is Failed) && final(self)@
                    == old(self)@.accepted_all(replies),
    {
        let ghost mut replies: Seq<AcceptReply> = Seq::empty();
        loop
            invariant
                self.wf(),
                self@.phase is Ready,
                self@ == old(self)@.accepted_all(replies),
                forall|i: int| 0 <= i < replies.len() ==> #[trigger] replies[i] is Stream,
            decreases usize::MAX - self.events.len(),
        {
            let ghost now = self@;
            let step = match &mut self.state {
                State::Ready(link) => accept_step(poll_accept(link)),
                _ => AcceptStep::Pending,
            };
            assert(self@ == now.link_said(LinkExchange::Accept(step@.answer())));
            let more = match &step {
                AcceptStep::Stream(_) => true,
                _ => false,
            };
            let failed = match &step {
                AcceptStep::Failed => true,
                _ => false,
            };
            let ghost reply = step@;
            let ghost before = self@.events.len();
            self.on_accept(step);
            proof {
                assert(replies.push(reply).drop_last() =~= replies);
                replies = replies.push(reply);
            }
            if !more {
                assert(accept_answers(replies));
                return failed;
            }
            assert(self@.events.len() == before + 1);
        }
    }
}

impl H2Connection {
    /// Reads the body data on one stream.
    fn read_stream(&mut self, stream_id: u32)
        requires
            old(self).wf(),
            old(self)@.recv.contains_key(stream_id),
        ensures
            final(self).wf(),
            exists|replies: Seq<BodyReply>| #[trigger]
                read_answers(replies) && final(self)@ == old(self)@.body_read(stream_id, replies),
    {
        if let Some(receiver) = self.recv_streams.remove(&stream_id) {
            let Receiver { recv, unacked } = receiver;
            assert(self@.recv =~= old(self)@.recv.remove(stream_id));
            let mut recv = recv;
            let mut now: u32 = unacked;
            let ghost start = receiving(recv, self.events@);
            let open = read_body(&mut recv, stream_id, &mut self.events, &mut now);
            let ghost end = receiving(recv, self.events@);
            proof {
                lemma_recv_finite(old(self).recv_streams);
                lemma_owed_with(old(self)@.recv, stream_id, recv_log(recv));
                lemma_owed_is_bounded(old(self)@.recv.insert(stream_id, recv_log(recv)));
            }
            self.recv_streams.insert(stream_id, Receiver { recv, unacked: now });
            assert(self@.recv =~= old(self)@.recv.insert(stream_id, recv_log(recv)));
            self.set_owed(self.owed + (now - unacked) as u64);
            if !open {
                if let Some(receiver) = self.recv_streams.remove(&stream_id) {
                    assert(self@.recv =~= old(self)@.recv.remove(stream_id));
                    self.retire_recv(stream_id, receiver);
                }
            }
            proof {
                let replies = choose|replies: Seq<BodyReply>| #[trigger]
                    read_answers(replies) && open == replies.last().keeps_stream() && end
                        == start.read(stream_id, replies);
                let goal = old(self)@.body_read(stream_id, replies);
                assert(self@.recv =~= goal.recv);
                assert(self@ == goal);
            }
        }
    }

    /// Drives a connection that is up: accepts the streams that the peer has opened,
    /// and then reads the body data on every stream. Says whether that brought any
    /// events.
    fn drive(&mut self) -> (progress: bool)
        requires
            old(self).wf(),
        ensures
            final(self).wf(),
            old(self)@.drive_leads_to(final(self)@),
            progress == (final(self)@.events.len() != old(self)@.events.len()),
    {
        let before: usize = self.events.len();
        let ready = match &self.state {
            State::Ready(_) => true,
            _ => false,
        };
        if !ready {
            return false;
        }
        let failed = self.accept_streams();
        let ghost accepts = choose|replies: Seq<AcceptReply>| #[trigger]
            accept_answers(replies) && failed == (replies.last() is Failed) && self@
                == old(self)@.accepted_all(replies);
        let ghost mid = self@;
        if failed {
            proof {
                assert(old(self)@.drive_answers(accepts, Seq::empty(), Seq::empty()));
                assert(old(self)@.driven(accepts, Seq::empty(), Seq::empty()) == mid);
            }
            return self.events.len() != before;
        }
        let ids = stream_ids(&self.recv_streams);
        assert(mid.recv.dom() =~= self.recv_streams@.dom());
        let ghost mut bodies: Seq<Seq<BodyReply>> = Seq::empty();
        let mut i: usize = 0;
        assert(ids@.take(0) =~= Seq::empty());
        while i < ids.len()
            invariant
                self.wf(),
                i <= ids@.len(),
                walks(ids@, mid.recv.dom()),
                bodies.len() == i,
                self@ == mid.bodies_read(ids@.take(i as int), bodies),
                forall|j: int| 0 <= j < bodies.len() ==> read_answers(#[trigger] bodies[j]),
                forall|j: int| i <= j < ids@.len() ==> self@.recv.contains_key(#[trigger] ids@[j]),
            decreases ids@.len() - i,
        {
            let ghost now = self@;
            self.read_stream(ids[i]);
            proof {
                let replies = choose|replies: Seq<BodyReply>| #[trigger]
                    read_answers(replies) && self@ == now.body_read(ids@[i as int], replies);
                assert(bodies.push(replies).drop_last() =~= bodies);
                bodies = bodies.push(replies);
                assert(ids@.take(i + 1).drop_last() =~= ids@.take(i as int));
            }
            i = i + 1;
        }
        proof {
            assert(ids@.take(i as int) =~= ids@);
            assert(old(self)@.drive_answers(accepts, ids@, bodies));
            assert(old(self)@.driven(accepts, ids@, bodies) == self@);
        }
        self.events.len() != before
    }

    /// Hands over the chunks that wait on one stream. Says whether any went out.
    fn flush_one(&mut self, stream_id: u32) -> (sent: bool)
        requires
            old(self).wf(),
        ensures
            final(self).wf(),
            exists|rooms: Seq<Room>|
                {
                    &&& #[trigger] old(self)@.stream_flushed(stream_id, rooms) == final(self)@
                    &&& if old(self)@.sendable(stream_id) {
                        &&& old(self)@.sending(stream_id).flush_answers(rooms)
                        &&& sent == old(self)@.sending(stream_id).flushed(rooms).sent
                    } else {
                        !sent
                    }
                },
    {
        let ghost start = self@;
        let mut sent = false;
        let ghost mut rooms: Seq<Room> = Seq::empty();
        if let Some(send) = self.send_streams.remove(&stream_id) {
            let mut send = send;
            if let Some(queue) = self.pending_send.remove(&stream_id) {
                let mut queue = queue;
                let ghost before = sending(send, queue@, false);
                sent = flush_stream(&mut send, &mut queue);
                let ghost after = sending(send, queue@, sent);
                proof {
                    assert(before == start.sending(stream_id));
                    rooms = choose|rooms: Seq<Room>| #[trigger]
                        before.flush_answers(rooms) && after == before.flushed(rooms);
                }
                self.pending_send.insert(stream_id, queue);
            }
            self.send_streams.insert(stream_id, send);
        }
        proof {
            let goal = start.stream_flushed(stream_id, rooms);
            assert(self@.send =~= goal.send);
            assert(self@.pending =~= goal.pending);
            assert(self@ == goal);
        }
        sent
    }
}

impl H2Connection {
    /// Hands over the chunks that wait, as far as there is room. Says whether any went
    /// out.
    fn flush_pending(&mut self) -> (sent: bool)
        requires
            old(self).wf(),
        ensures
            final(self).wf(),
            old(self)@.flush_leads_to(final(self)@, sent),
    {
        let ghost start = self@;
        let ids = stream_ids(&self.pending_send);
        assert(start.pending.dom() =~= self.pending_send@.dom());
        let ghost mut rooms: Seq<Seq<Room>> = Seq::empty();
        let mut sent = false;
        let mut i: usize = 0;
        assert(ids@.take(0) =~= Seq::empty());
        while i < ids.len()
            invariant
                self.wf(),
                i <= ids@.len(),
                walks(ids@, start.pending.dom()),
                rooms.len() == i,
                self@ == start.flushed(ids@.take(i as int), rooms),
                forall|j: int|
                    #![trigger ids@[j]]
                    0 <= j < i && start.sendable(ids@[j]) ==> start.sending(
                        ids@[j],
                    ).flush_answers(rooms[j]),
                sent == exists|j: int|
                    #![trigger ids@[j]]
                    0 <= j < i && start.sendable(ids@[j]) && start.sending(ids@[j]).flushed(
                        rooms[j],
                    ).sent,
            decreases ids@.len() - i,
        {
            let ghost now = self@;
            let stream_id: u32 = ids[i];
            let some = self.flush_one(stream_id);
            proof {
                let answers = choose|answers: Seq<Room>|
                    {
                        &&& #[trigger] now.stream_flushed(stream_id, answers) == self@
                        &&& if now.sendable(stream_id) {
                            &&& now.sending(stream_id).flush_answers(answers)
                            &&& some == now.sending(stream_id).flushed(answers).sent
                        } else {
                            !some
                        }
                    };
                assert(!ids@.take(i as int).contains(stream_id)) by {
                    if ids@.take(i as int).contains(stream_id) {
                        let j = choose|j: int| 0 <= j < i && ids@.take(i as int)[j] == stream_id;
                        assert(ids@[j] == ids@[i as int]);
                    }
                }
                lemma_flush_elsewhere(start, ids@.take(i as int), rooms, stream_id);
                let before = rooms;
                assert(rooms.push(answers).drop_last() =~= rooms);
                rooms = rooms.push(answers);
                assert(ids@.take(i + 1).drop_last() =~= ids@.take(i as int));
                assert(forall|j: int| 0 <= j < i ==> rooms[j] == before[j]);
                assert(ids@[i as int] == stream_id);
                if sent {
                    let j = choose|j: int|
                        #![trigger ids@[j]]
                        0 <= j < i && start.sendable(ids@[j]) && start.sending(ids@[j]).flushed(
                            before[j],
                        ).sent;
                    assert(start.sending(ids@[j]).flushed(rooms[j]).sent);
                }
            }
            sent = sent || some;
            i = i + 1;
        }
        proof {
            assert(ids@.take(i as int) =~= ids@);
            assert(start.flush_answers(ids@, rooms));
        }
        sent
    }

    /// Acts on the answer of a handshake.
    pub fn on_handshake(&mut self, answer: HandshakePoll) -> (r: Result<(), CodecError>)
        requires
            old(self).wf(),
        ensures
            final(self).wf(),
            match answer {
                HandshakePoll::Done(link) => {
                    &&& r is Ok
                    &&& final(self)@ == (ConnView {
                        phase: Phase::Ready,
                        link: link_log(link),
                        ..old(self)@
                    })
                },
                HandshakePoll::Failed(e) => {
                    &&& r == Err::<(), CodecError>(CodecError::HandshakeFailed(e))
                    &&& final(self)@ == old(self)@.in_phase(Phase::Closed)
                },
                HandshakePoll::Pending(opening) => {
                    &&& r is Ok
                    &&& final(self)@ == old(self)@.in_phase(
                        Phase::Handshaking { polls: handshake_polls(opening) },
                    )
                },
            },
    {
        match answer {
            HandshakePoll::Done(link) => {
                self.state = State::Ready(link);
                Ok(())
            },
            HandshakePoll::Failed(e) => {
                self.past_link = Ghost(Seq::empty());
                self.state = State::Closed;
                Err(CodecError::HandshakeFailed(e))
            },
            HandshakePoll::Pending(opening) => {
                self.state = State::Handshaking(opening);
                Ok(())
            },
        }
    }

    /// Moves the connection on as far as what has come from the peer allows: finishes
    /// the handshake, and then goes through rounds of taking in and handing over until
    /// one makes no progress, but through no more than `MAX_ROUNDS`.
    pub fn pump(&mut self) -> (r: Result<(), CodecError>)
        requires
            old(self).wf(),
        ensures
            final(self).wf(),
            old(self)@.pump_leads_to(final(self)@, r is Ok),
            r matches Err(e) ==> e is HandshakeFailed,
    {
        let mut state = State::Closed;
        std::mem::swap(&mut state, &mut self.state);
        match state {
            State::Handshaking(opening) => {
                let answer = poll_handshake(opening);
                let waits = match &answer {
                    HandshakePoll::Pending(_) => true,
                    _ => false,
                };
                match self.on_handshake(answer) {
                    Ok(()) => {},
                    Err(e) => return Err(e),
                }
                if waits {
                    return Ok(());
                }
            },
            State::Ready(link) => {
                self.state = State::Ready(link);
            },
            State::Closed => return Ok(()),
        }
        let ghost start = self@;
        let ghost mut left: nat = MAX_ROUNDS as nat;
        let mut round: u32 = 0;
        while round < MAX_ROUNDS
            invariant_except_break
                forall|end: ConnView| #[trigger]
                    self@.rounds_lead_to(left, end) ==> start.rounds_lead_to(
                        MAX_ROUNDS as nat,
                        end,
                    ),
            invariant
                self.wf(),
                round <= MAX_ROUNDS,
                left == MAX_ROUNDS - round,
                left == 0 ==> start.rounds_lead_to(MAX_ROUNDS as nat, self@),
            ensures
                start.rounds_lead_to(MAX_ROUNDS as nat, self@),
            decreases MAX_ROUNDS - round,
        {
            let ghost now = self@;
            let mut progress = self.drive();
            let ghost mid = self@;
            let sent = self.flush_pending();
            if sent {
                progress = true;
            }
            assert(now.drive_leads_to(mid) && mid.flush_leads_to(self@, sent));
            assert(now.round_leads_to(self@, progress));
            if !progress {
                assert(now.rounds_lead_to(left, self@));
                break;
            }
            round = round + 1;
            proof {
                let next = (left - 1) as nat;
                assert forall|end: ConnView| #[trigger]
                    self@.rounds_lead_to(next, end) implies start.rounds_lead_to(
                    MAX_ROUNDS as nat,
                    end,
                ) by {
                    assert(now.rounds_lead_to(left, end));
                }
                if next == 0 {
                    assert(self@.rounds_lead_to(next, self@));
                }
                left = next;
            }
        }
        Ok(())
    }

    /// Moves the connection on and hands out the events. Where the handshake fails the
    /// events stay.
    pub fn receive(&mut self) -> (r: Result<Vec<Event>, CodecError>)
        requires
            old(self).wf(),
        ensures
            final(self).wf(),
            exists|end: ConnView| #[trigger]
                old(self)@.pump_leads_to(end, r is Ok) && match r {
                    Ok(events) => {
                        &&& event_views(events@) == end.events
                        &&& final(self)@ == end.without_events()
                    },
                    Err(_) => final(self)@ == end,
                },
            r matches Err(e) ==> e is HandshakeFailed,
    {
        match self.pump() {
            Ok(()) => Ok(self.take_events()),
            Err(e) => Err(e),
        }
    }
}

} // verus!
