//! What each call does to a connection, and what it leaves alone.
use crate::connection::{AcceptStep, AcceptedStream};
use crate::event::{Event, EventView};
use crate::head::{first_fault, head_status, response_fields, HeadView};
use crate::model::{
    lemma_owed_with, owed_on, settled, window_for, AcceptReply, ConnView, Phase, BASE_WINDOW,
    MAX_ROUNDS,
};
use crate::outside::{
    answers_on, content, receives_on, recv_log, send_log, AcceptAnswer, DataReply, LinkExchange,
    RecvExchange, SendExchange,
};
use crate::receiving::{capped, lemma_unacknowledged, receiving, unacknowledged, MAX_WINDOW};
use crate::sending::sending;
use bytes::Bytes;
use h2::{RecvStream, SendStream};
use vstd::prelude::*;

verus! {

/// The two are the same but for what passes through the connection.
pub open spec fn same_but_link(a: ConnView, b: ConnView) -> bool {
    &&& a.phase == b.phase
    &&& a.recv == b.recv
    &&& a.past_recv == b.past_recv
    &&& a.responders == b.responders
    &&& a.send == b.send
    &&& a.past_send == b.past_send
    &&& a.pending == b.pending
    &&& a.events == b.events
}

/// The two are the same in what has to do with sending.
pub open spec fn same_sending(a: ConnView, b: ConnView) -> bool {
    &&& a.send == b.send
    &&& a.past_send == b.past_send
    &&& a.pending == b.pending
}

/// The two are the same in what has to do with receiving.
pub open spec fn same_receiving(a: ConnView, b: ConnView) -> bool {
    &&& a.phase == b.phase
    &&& a.link == b.link
    &&& a.recv == b.recv
    &&& a.past_recv == b.past_recv
    &&& a.events == b.events
}

/// `now` is `before` but for one key.
pub open spec fn same_elsewhere<V>(before: Map<u32, V>, now: Map<u32, V>, stream_id: u32) -> bool {
    forall|id: u32| #![trigger now.contains_key(id)] #![trigger now[id]]
        id != stream_id ==> now.contains_key(id) == before.contains_key(id) && now[id] == before[id]
}

// ---------------------------------------------------------------------------
// Shutting down
// ---------------------------------------------------------------------------

/// A connection that is up is asked to shut down by every call, whatever streams it has:
/// just one such request comes to the end of what has passed through it, and nothing else
/// changes. One that is not up stays as it is.
pub proof fn law_every_close_asks_for_a_shutdown(conn: ConnView)
    ensures
        ({
            let now = conn.shutdown_asked();
            &&& conn.phase is Ready ==> {
                &&& now.link.len() == conn.link.len() + 1
                &&& conn.link.is_prefix_of(now.link)
                &&& now.link[conn.link.len() as int] is Shutdown
                &&& same_but_link(conn, now)
            }
            &&& !(conn.phase is Ready) ==> now == conn
        }),
{
}

// ---------------------------------------------------------------------------
// Queueing and handing out
// ---------------------------------------------------------------------------

/// Every call queues its chunk, with or without bytes and whether or not it ends the
/// stream, as it is and last; what waited stays before it, and nothing else changes.
pub proof fn law_every_chunk_is_queued(
    conn: ConnView,
    stream_id: u32,
    data: Seq<u8>,
    end_stream: bool,
)
    ensures
        ({
            let now = conn.data_queued(stream_id, data, end_stream);
            &&& now.pending.contains_key(stream_id)
            &&& now.pending[stream_id].last() == (data, end_stream)
            &&& conn.pending.contains_key(stream_id) ==> now.pending[stream_id].drop_last()
                == conn.pending[stream_id]
            &&& !conn.pending.contains_key(stream_id) ==> now.pending[stream_id].len() == 1
            &&& same_elsewhere(conn.pending, now.pending, stream_id)
            &&& same_receiving(conn, now)
            &&& now.responders == conn.responders
            &&& now.send == conn.send
            &&& now.past_send == conn.past_send
        }),
{
    let now = conn.data_queued(stream_id, data, end_stream);
    if conn.pending.contains_key(stream_id) {
        assert(now.pending[stream_id].drop_last() =~= conn.pending[stream_id]);
    }
}

/// Handing out the events takes all of them and nothing else, and a fresh connection has
/// nothing.
pub proof fn law_handing_out_takes_only_events(conn: ConnView)
    ensures
        conn.without_events().events.len() == 0,
        conn.without_events().phase == conn.phase,
        conn.without_events().link == conn.link,
        conn.without_events().recv == conn.recv,
        conn.without_events().past_recv == conn.past_recv,
        conn.without_events().responders == conn.responders,
        same_sending(conn, conn.without_events()),
        ConnView::fresh().phase == (Phase::Handshaking { polls: 0 }),
        ConnView::fresh().link.len() == 0,
        ConnView::fresh().events.len() == 0,
        forall|id: u32|
            {
                &&& !(#[trigger] ConnView::fresh().recv.contains_key(id))
                &&& !ConnView::fresh().responders.contains(id)
                &&& !ConnView::fresh().send.contains_key(id)
                &&& !ConnView::fresh().pending.contains_key(id)
            },
{
}

/// A phase is entered with nothing passed through the connection, and with all else as it
/// was.
pub proof fn law_a_phase_is_entered_afresh(conn: ConnView, phase: Phase)
    ensures
        conn.in_phase(phase).phase == phase,
        conn.in_phase(phase).link.len() == 0,
        conn.in_phase(phase).recv == conn.recv,
        conn.in_phase(phase).past_recv == conn.past_recv,
        conn.in_phase(phase).responders == conn.responders,
        same_sending(conn, conn.in_phase(phase)),
        conn.in_phase(phase).events == conn.events,
{
}

// ---------------------------------------------------------------------------
// Answering
// ---------------------------------------------------------------------------

/// An attempt at an answer takes the request off those that wait, and changes nothing
/// else.
pub proof fn law_an_attempt_uses_up_the_request(conn: ConnView, stream_id: u32)
    ensures
        ({
            let now = conn.answering(stream_id);
            &&& !now.responders.contains(stream_id)
            &&& forall|id: u32|
                id != stream_id ==> (#[trigger] now.responders.contains(id) == conn.responders.contains(id))
            &&& same_receiving(conn, now)
            &&& same_sending(conn, now)
        }),
{
}

/// A head that goes on opens the sending half of its stream, with the head as the first
/// thing and nothing after it, and what there was of a sending half before is let go with
/// all that had passed through it. A head that ends the stream leaves nothing open, and is
/// kept among what has been let go. Chunks that wait keep waiting, and nothing else changes.
pub proof fn law_a_head_opens_its_stream(
    conn: ConnView,
    stream_id: u32,
    head: SendExchange,
    end_stream: bool,
)
    ensures
        ({
            let now = conn.opened(stream_id, head, end_stream);
            &&& same_receiving(conn, now)
            &&& now.responders == conn.responders
            &&& now.pending == conn.pending
            &&& same_elsewhere(conn.send, now.send, stream_id)
            &&& end_stream ==> {
                &&& now.send == conn.send
                &&& now.past_send.len() == conn.past_send.len() + 1
                &&& conn.past_send.is_prefix_of(now.past_send)
                &&& now.past_send.last().0 == stream_id
                &&& now.past_send.last().1.len() == 1
                &&& now.past_send.last().1[0] == head
            }
            &&& !end_stream ==> {
                &&& now.send.contains_key(stream_id)
                &&& now.send[stream_id].len() == 1
                &&& now.send[stream_id][0] == head
                &&& conn.past_send.is_prefix_of(now.past_send)
                &&& conn.send.contains_key(stream_id) ==> now.past_send.len() == conn.past_send.len() + 1
                    && now.past_send.last() == (stream_id, conn.send[stream_id])
                &&& !conn.send.contains_key(stream_id) ==> now.past_send == conn.past_send
            }
        }),
{
}

/// The head of a response carries the status code, the fields and the flag that it is made
/// with, and it can be sent exactly where a request waits, there is a status code and no
/// field is at fault.
pub proof fn law_a_head_carries_what_it_is_given(
    conn: ConnView,
    stream_id: u32,
    code: u16,
    headers: Seq<(Seq<u8>, Seq<u8>)>,
    end: bool,
)
    ensures
        ConnView::head_sent(code, headers, end) matches SendExchange::Head { status, fields, end_stream }
            && status == code && fields == response_fields(headers) && end_stream == end,
        conn.head_accepted(stream_id, code, headers) <==> conn.responders.contains(stream_id)
            && head_status(code, headers) is Some && first_fault(headers) is None,
{
}

/// Body data can go out where a head has been sent and a queue is there, and what is
/// flushed is that queue as it is.
pub proof fn law_a_queue_is_flushed_as_it_is(conn: ConnView, stream_id: u32)
    ensures
        conn.sendable(stream_id) <==> conn.send.contains_key(stream_id) && conn.pending.contains_key(
            stream_id,
        ),
        conn.sending(stream_id).log == conn.send[stream_id],
        conn.sending(stream_id).queue == conn.pending[stream_id],
        !conn.sending(stream_id).sent,
        conn.pending.contains_key(stream_id) ==> conn.queue(stream_id) == conn.pending[stream_id],
        !conn.pending.contains_key(stream_id) ==> conn.queue(stream_id).len() == 0,
{
}

/// What a handle and its queue, or a handle and the events, stand for: all that has passed
/// through the handle, the chunks of the queue as they are, and the events as they are. The
/// handles of a new stream are to that stream, and it has only been asked whether it has
/// ended.
pub proof fn law_handles_stand_for_their_logs(
    send: SendStream<Bytes>,
    queue: Seq<(Bytes, bool)>,
    sent: bool,
    recv: RecvStream,
    events: Seq<Event>,
    stream: AcceptedStream,
)
    ensures
        sending(send, queue, sent).log == send_log(send),
        sending(send, queue, sent).queue.len() == queue.len(),
        forall|i: int|
            0 <= i < queue.len() ==> #[trigger] sending(send, queue, sent).queue[i] == (
                content(queue[i].0),
                queue[i].1,
            ),
        sending(send, queue, sent).sent == sent,
        receiving(recv, events).log == recv_log(recv),
        receiving(recv, events).events.len() == events.len(),
        forall|i: int|
            0 <= i < events.len() ==> #[trigger] receiving(recv, events).events[i] == events[i]@,
        stream.wf() <==> {
            &&& receives_on(stream.recv) == stream.stream_id
            &&& answers_on(stream.responder) == stream.stream_id
            &&& recv_log(stream.recv).len() == 1
            &&& recv_log(stream.recv)[0] == RecvExchange::Ended(stream.stream_ended)
        },
        AcceptStep::Stream(stream).wf() <==> stream.wf(),
{
    if recv_log(stream.recv).len() == 1 && recv_log(stream.recv)[0] == RecvExchange::Ended(
        stream.stream_ended,
    ) {
        assert(recv_log(stream.recv) =~= seq![RecvExchange::Ended(stream.stream_ended)]);
    }
}

// ---------------------------------------------------------------------------
// Resetting
// ---------------------------------------------------------------------------

/// A reset tells the sending half of the stream of the error code, wherever there is one,
/// and lets both halves go with all that has passed through them. Nothing of the stream is
/// kept, no other stream is touched, and no event comes of it.
pub proof fn law_a_reset_clears_just_one_stream(conn: ConnView, stream_id: u32, error_code: u32)
    ensures
        ({
            let now = conn.stream_reset(stream_id, error_code);
            &&& now.phase == conn.phase
            &&& now.events == conn.events
            &&& !now.recv.contains_key(stream_id)
            &&& !now.responders.contains(stream_id)
            &&& !now.send.contains_key(stream_id)
            &&& !now.pending.contains_key(stream_id)
            &&& same_elsewhere(conn.recv, now.recv, stream_id)
            &&& same_elsewhere(conn.send, now.send, stream_id)
            &&& same_elsewhere(conn.pending, now.pending, stream_id)
            &&& forall|id: u32|
                id != stream_id ==> (#[trigger] now.responders.contains(id) == conn.responders.contains(id))
            &&& conn.past_send.is_prefix_of(now.past_send)
            &&& conn.past_recv.is_prefix_of(now.past_recv)
            &&& conn.link.is_prefix_of(now.link)
            &&& conn.send.contains_key(stream_id) ==> {
                &&& now.past_send.len() == conn.past_send.len() + 1
                &&& now.past_send.last().0 == stream_id
                &&& now.past_send.last().1.drop_last() == conn.send[stream_id]
                &&& now.past_send.last().1.last() == SendExchange::Reset(error_code)
            }
            &&& !conn.send.contains_key(stream_id) ==> now.past_send == conn.past_send
            &&& conn.recv.contains_key(stream_id) ==> {
                &&& now.past_recv.len() == conn.past_recv.len() + 1
                &&& now.past_recv.last().0 == stream_id
                &&& conn.recv[stream_id].is_prefix_of(now.past_recv.last().1)
            }
            &&& !conn.recv.contains_key(stream_id) ==> now.past_recv == conn.past_recv && now.link
                == conn.link
        }),
{
    let now = conn.stream_reset(stream_id, error_code);
    if conn.send.contains_key(stream_id) {
        assert(now.past_send.last().1.drop_last() =~= conn.send[stream_id]);
    }
}

// ---------------------------------------------------------------------------
// Windows
// ---------------------------------------------------------------------------

/// What counts as unacknowledged: a piece of a body adds its bytes, up to what a window
/// holds, what is given back takes its bytes off, and nothing else counts.
pub proof fn law_every_byte_counts(log: Seq<RecvExchange>, data: Seq<u8>, size: usize, ended: bool)
    ensures
        unacknowledged(Seq::empty()) == 0,
        unacknowledged(log) + data.len() <= 0x7fff_ffff ==> unacknowledged(
            log.push(RecvExchange::Data(DataReply::Chunk(data))),
        ) == unacknowledged(log) + data.len(),
        unacknowledged(log) + data.len() > 0x7fff_ffff ==> unacknowledged(
            log.push(RecvExchange::Data(DataReply::Chunk(data))),
        ) == 0x7fff_ffff,
        size <= unacknowledged(log) ==> unacknowledged(log.push(RecvExchange::Release(size)))
            == unacknowledged(log) - size,
        unacknowledged(log.push(RecvExchange::Ended(ended))) == unacknowledged(log),
        unacknowledged(log.push(RecvExchange::Data(DataReply::End))) == unacknowledged(log),
        unacknowledged(log.push(RecvExchange::Data(DataReply::Pending))) == unacknowledged(log),
        forall|reason: Option<u32>|
            unacknowledged(#[trigger] log.push(RecvExchange::Data(DataReply::Failed(reason))))
                == unacknowledged(log),
{
    lemma_unacknowledged(log, RecvExchange::Data(DataReply::Chunk(data)));
    lemma_unacknowledged(log, RecvExchange::Release(size));
    lemma_unacknowledged(log, RecvExchange::Ended(ended));
    lemma_unacknowledged(log, RecvExchange::Data(DataReply::End));
    lemma_unacknowledged(log, RecvExchange::Data(DataReply::Pending));
    assert forall|reason: Option<u32>|
        unacknowledged(#[trigger] log.push(RecvExchange::Data(DataReply::Failed(reason))))
            == unacknowledged(log) by {
        lemma_unacknowledged(log, RecvExchange::Data(DataReply::Failed(reason)));
    }
}

/// All open streams count, each with what is unacknowledged on it, and a window is 65535
/// bytes wide and as many more, up to the widest that there is.
pub proof fn law_all_streams_count(recv: Map<u32, Seq<RecvExchange>>, stream_id: u32, owed: nat)
    requires
        recv.dom().finite(),
    ensures
        recv.dom().len() == 0 ==> owed_on(recv) == 0,
        recv.contains_key(stream_id) ==> owed_on(recv) == unacknowledged(recv[stream_id]) + owed_on(
            recv.remove(stream_id),
        ),
        window_for(owed) == if 65535 + owed <= 0x7fff_ffff {
            65535 + owed
        } else {
            0x7fff_ffff
        },
        capped(owed) == if owed <= 0x7fff_ffff {
            owed
        } else {
            0x7fff_ffff
        },
        MAX_WINDOW == 0x7fff_ffff,
        BASE_WINDOW == 65535,
        MAX_ROUNDS == 64,
{
    if recv.contains_key(stream_id) {
        lemma_owed_with(recv, stream_id, recv[stream_id]);
    }
}

/// A half that is let go has given back all that was unacknowledged on it, in one piece and
/// after all that had passed through it, and nothing where there was nothing.
pub proof fn law_letting_go_gives_back_the_rest(log: Seq<RecvExchange>)
    ensures
        log.is_prefix_of(settled(log)),
        unacknowledged(settled(log)) == 0,
        unacknowledged(log) == 0 ==> settled(log) == log,
        unacknowledged(log) > 0 ==> {
            &&& settled(log).len() == log.len() + 1
            &&& settled(log).last() matches RecvExchange::Release(size) && size == unacknowledged(log)
        },
{
    lemma_unacknowledged(log, RecvExchange::Release(unacknowledged(log) as usize));
}

/// A connection that is up is told of its window exactly where what is unacknowledged has
/// changed, and of the width for what there is now.
pub proof fn law_a_connection_is_told_of_its_window(conn: ConnView, before: nat)
    ensures
        ({
            let now = conn.windowed(before);
            &&& same_but_link(conn, now)
            &&& conn.phase is Ready && owed_on(conn.recv) != before ==> {
                &&& now.link.len() == conn.link.len() + 1
                &&& conn.link.is_prefix_of(now.link)
                &&& now.link.last() matches LinkExchange::Window(size) && size == window_for(
                    owed_on(conn.recv),
                )
            }
            &&& !(conn.phase is Ready) || owed_on(conn.recv) == before ==> now == conn
        }),
{
}

/// An acknowledgement of no more than is unacknowledged gives back just so many bytes on
/// its stream, whatever else there is; all other streams stay as they are.
pub proof fn law_every_acknowledgement_counts(conn: ConnView, stream_id: u32, size: usize)
    ensures
        ({
            let now = conn.acknowledged(stream_id, size);
            &&& now.phase == conn.phase
            &&& now.past_recv == conn.past_recv
            &&& now.responders == conn.responders
            &&& now.events == conn.events
            &&& same_sending(conn, now)
            &&& same_elsewhere(conn.recv, now.recv, stream_id)
            &&& now.recv.contains_key(stream_id) == conn.recv.contains_key(stream_id)
            &&& conn.link.is_prefix_of(now.link)
            &&& if conn.recv.contains_key(stream_id) && size <= unacknowledged(conn.recv[stream_id]) {
                &&& now.recv[stream_id].drop_last() == conn.recv[stream_id]
                &&& now.recv[stream_id].last() == RecvExchange::Release(size)
                &&& conn.phase is Ready && owed_on(now.recv) != owed_on(conn.recv) ==> {
                    &&& now.link.len() == conn.link.len() + 1
                    &&& now.link.last() matches LinkExchange::Window(width) && width == window_for(
                        owed_on(now.recv),
                    )
                }
            } else {
                now == conn
            }
        }),
{
    let now = conn.acknowledged(stream_id, size);
    if conn.recv.contains_key(stream_id) && size <= unacknowledged(conn.recv[stream_id]) {
        assert(now.recv[stream_id].drop_last() =~= conn.recv[stream_id]);
    }
}

// ---------------------------------------------------------------------------
// New streams
// ---------------------------------------------------------------------------

/// The same but for one stream in what is received, which leaves the rest of the
/// connection alone.
pub open spec fn half_let_go(conn: ConnView, now: ConnView, stream_id: u32) -> bool {
    &&& now.phase == conn.phase
    &&& now.responders == conn.responders
    &&& now.events == conn.events
    &&& same_sending(conn, now)
    &&& !now.recv.contains_key(stream_id)
    &&& same_elsewhere(conn.recv, now.recv, stream_id)
    &&& conn.link.is_prefix_of(now.link)
    &&& conn.recv.contains_key(stream_id) ==> {
        &&& now.past_recv.len() == conn.past_recv.len() + 1
        &&& conn.past_recv.is_prefix_of(now.past_recv)
        &&& now.past_recv.last() == (stream_id, settled(conn.recv[stream_id]))
    }
    &&& !conn.recv.contains_key(stream_id) ==> now == conn
}

/// A half that is let go goes among those that have been, with all that has passed through
/// it.
pub proof fn law_letting_go_keeps_the_log(conn: ConnView, stream_id: u32)
    ensures
        half_let_go(conn, conn.recv_retired(stream_id), stream_id),
{
}

/// Every answer to the question for a new stream is acted on. A new stream is reported,
/// with its header list and whether it has ended; it waits for an answer, and its receiving
/// half is open. A failure closes the connection, which is reported, and so is its end. An
/// answer that there is nothing for now changes nothing.
pub proof fn law_every_new_stream_is_reported(
    conn: ConnView,
    id: u32,
    head: HeadView,
    ended: bool,
)
    ensures
        ({
            let reply = AcceptReply::Stream { stream_id: id, head, stream_ended: ended };
            let now = conn.admitted(reply);
            &&& now.phase == conn.phase
            &&& now.events.drop_last() == conn.events
            &&& now.events.last() matches EventView::Request { stream_id, headers, stream_ended }
                && stream_id == id && headers == head.header_list() && stream_ended == ended
            &&& now.responders == conn.responders.insert(id)
            &&& now.recv.contains_key(id)
            &&& now.recv[id].len() == 1
            &&& now.recv[id][0] == RecvExchange::Ended(ended)
            &&& same_elsewhere(conn.recv, now.recv, id)
            &&& same_sending(conn, now)
            &&& conn.link.is_prefix_of(now.link)
            &&& conn.past_recv.is_prefix_of(now.past_recv)
            &&& !conn.recv.contains_key(id) ==> now.link == conn.link && now.past_recv == conn.past_recv
        }),
        ({
            let now = conn.admitted(AcceptReply::Failed);
            &&& now.phase is Closed
            &&& now.link == conn.link
            &&& now.events.len() == conn.events.len() + 1
            &&& conn.events.is_prefix_of(now.events)
            &&& now.events.last() is Terminated
            &&& now.recv == conn.recv
            &&& now.past_recv == conn.past_recv
            &&& now.responders == conn.responders
            &&& same_sending(conn, now)
        }),
        ({
            let now = conn.admitted(AcceptReply::Done);
            &&& now.phase == conn.phase
            &&& now.link == conn.link
            &&& now.events.len() == conn.events.len() + 1
            &&& conn.events.is_prefix_of(now.events)
            &&& now.events.last() is Terminated
            &&& now.recv == conn.recv
            &&& now.past_recv == conn.past_recv
            &&& now.responders == conn.responders
            &&& same_sending(conn, now)
        }),
        conn.admitted(AcceptReply::Pending) == conn,
{
    let reply = AcceptReply::Stream { stream_id: id, head, stream_ended: ended };
    assert(conn.admitted(reply).events.drop_last() =~= conn.events);
}

/// The answers are acted on one after the other, each after it has passed through the
/// connection.
pub proof fn law_answers_are_acted_on_in_order(
    conn: ConnView,
    replies: Seq<AcceptReply>,
    reply: AcceptReply,
    exchange: LinkExchange,
)
    ensures
        conn.accepted_all(Seq::empty()) == conn,
        conn.accepted_all(replies.push(reply)) == conn.accepted_all(replies).link_said(
            LinkExchange::Accept(
                match reply {
                    AcceptReply::Stream { stream_id, head, .. } => AcceptAnswer::Stream {
                        stream_id,
                        head,
                    },
                    AcceptReply::Failed => AcceptAnswer::Failed,
                    AcceptReply::Done => AcceptAnswer::Done,
                    AcceptReply::Pending => AcceptAnswer::Pending,
                },
            ),
        ).admitted(reply),
        same_but_link(conn, conn.link_said(exchange)),
        conn.link_said(exchange).link.drop_last() == conn.link,
        conn.link_said(exchange).link.last() == exchange,
{
    assert(replies.push(reply).drop_last() =~= replies);
    assert(conn.link_said(exchange).link.drop_last() =~= conn.link);
}

} // verus!
