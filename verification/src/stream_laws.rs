//! What holds of the transport and of one stream, whatever the peer does.
use crate::buffer::IoView;
use crate::event::EventView;
use crate::model::ConnView;
use crate::outside::{DataReply, RecvExchange, SendExchange};
use crate::receiving::{capped, lemma_unacknowledged, unacknowledged, BodyReply, Receiving};
use crate::sending::{Room, Sending};
use vstd::prelude::*;

verus! {

// ---------------------------------------------------------------------------
// The transport
// ---------------------------------------------------------------------------

/// Something that happens to the inbound side of a transport: bytes come from the
/// peer, or bytes are read into a buffer with so much room.
pub enum InboundStep {
    Push(Seq<u8>),
    Read(nat),
}

/// The transport after some steps.
pub open spec fn inbound_run(io: IoView, steps: Seq<InboundStep>) -> IoView
    decreases steps.len(),
{
    if steps.len() == 0 {
        io
    } else {
        let before = inbound_run(io, steps.drop_last());
        match steps.last() {
            InboundStep::Push(data) => before.pushed(data),
            InboundStep::Read(room) => before.after_read(room),
        }
    }
}

/// The bytes that come from the peer in some steps.
pub open spec fn bytes_pushed(steps: Seq<InboundStep>) -> Seq<u8>
    decreases steps.len(),
{
    if steps.len() == 0 {
        Seq::empty()
    } else {
        match steps.last() {
            InboundStep::Push(data) => bytes_pushed(steps.drop_last()) + data,
            InboundStep::Read(_) => bytes_pushed(steps.drop_last()),
        }
    }
}

/// The bytes that are read in some steps.
pub open spec fn bytes_read(io: IoView, steps: Seq<InboundStep>) -> Seq<u8>
    decreases steps.len(),
{
    if steps.len() == 0 {
        Seq::empty()
    } else {
        let before = inbound_run(io, steps.drop_last());
        match steps.last() {
            InboundStep::Push(_) => bytes_read(io, steps.drop_last()),
            InboundStep::Read(room) => bytes_read(io, steps.drop_last()) + before.readable(room),
        }
    }
}

/// However pushes and reads follow each other, the bytes come out as they went in:
/// those read, and then those still unread, are those that were there, and then those
/// pushed. None is lost, doubled or moved.
pub proof fn law_bytes_come_out_in_order(io: IoView, steps: Seq<InboundStep>)
    ensures
        bytes_read(io, steps) + inbound_run(io, steps).unread == io.unread + bytes_pushed(steps),
    decreases steps.len(),
{
    if steps.len() == 0 {
        assert(bytes_read(io, steps) + inbound_run(io, steps).unread =~= io.unread + bytes_pushed(
            steps,
        ));
    } else {
        let front = steps.drop_last();
        law_bytes_come_out_in_order(io, front);
        let before = inbound_run(io, front);
        match steps.last() {
            InboundStep::Push(data) => {
                assert(bytes_read(io, front) + (before.unread + data) =~= (bytes_read(io, front)
                    + before.unread) + data);
                assert(io.unread + (bytes_pushed(front) + data) =~= (io.unread + bytes_pushed(
                    front,
                )) + data);
            },
            InboundStep::Read(room) => {
                assert(before.readable(room) + before.after_read(room).unread =~= before.unread);
                assert((bytes_read(io, front) + before.readable(room)) + before.after_read(
                    room,
                ).unread =~= bytes_read(io, front) + (before.readable(room) + before.after_read(
                    room,
                ).unread));
            },
        }
    }
}

/// Something that happens to the outbound side of a transport: bytes are written, or all
/// that is there is handed out.
pub enum OutboundStep {
    Write(Seq<u8>),
    Take,
}

/// The transport after some steps.
pub open spec fn outbound_run(io: IoView, steps: Seq<OutboundStep>) -> IoView
    decreases steps.len(),
{
    if steps.len() == 0 {
        io
    } else {
        let before = outbound_run(io, steps.drop_last());
        match steps.last() {
            OutboundStep::Write(data) => before.written(data),
            OutboundStep::Take => before.drained(),
        }
    }
}

/// The bytes that are written in some steps.
pub open spec fn bytes_written(steps: Seq<OutboundStep>) -> Seq<u8>
    decreases steps.len(),
{
    if steps.len() == 0 {
        Seq::empty()
    } else {
        match steps.last() {
            OutboundStep::Write(data) => bytes_written(steps.drop_last()) + data,
            OutboundStep::Take => bytes_written(steps.drop_last()),
        }
    }
}

/// The bytes that are handed out in some steps.
pub open spec fn bytes_taken(io: IoView, steps: Seq<OutboundStep>) -> Seq<u8>
    decreases steps.len(),
{
    if steps.len() == 0 {
        Seq::empty()
    } else {
        let before = outbound_run(io, steps.drop_last());
        match steps.last() {
            OutboundStep::Write(_) => bytes_taken(io, steps.drop_last()),
            OutboundStep::Take => bytes_taken(io, steps.drop_last()) + before.outbound,
        }
    }
}

/// Every byte that is written is handed out once, in order: however writing and handing
/// out follow each other, the bytes handed out, and then those still there, are those that
/// were there, and then those written.
pub proof fn law_written_bytes_are_handed_out_once(io: IoView, steps: Seq<OutboundStep>)
    ensures
        bytes_taken(io, steps) + outbound_run(io, steps).outbound == io.outbound + bytes_written(
            steps,
        ),
    decreases steps.len(),
{
    if steps.len() == 0 {
        assert(bytes_taken(io, steps) + outbound_run(io, steps).outbound =~= io.outbound
            + bytes_written(steps));
    } else {
        let front = steps.drop_last();
        law_written_bytes_are_handed_out_once(io, front);
        let before = outbound_run(io, front);
        match steps.last() {
            OutboundStep::Write(data) => {
                assert(bytes_taken(io, front) + (before.outbound + data) =~= (bytes_taken(io, front)
                    + before.outbound) + data);
                assert(io.outbound + (bytes_written(front) + data) =~= (io.outbound + bytes_written(
                    front,
                )) + data);
            },
            OutboundStep::Take => {
                assert((bytes_taken(io, front) + before.outbound) + Seq::<u8>::empty()
                    =~= bytes_taken(io, front) + before.outbound);
            },
        }
    }
}

/// It makes no difference in which pieces the bytes come from the peer.
pub proof fn law_pieces_do_not_matter(io: IoView, first: Seq<u8>, second: Seq<u8>)
    ensures
        io.pushed(first).pushed(second) == io.pushed(first + second),
{
    assert(io.unread + first + second =~= io.unread + (first + second));
}

/// A reader with room is at the end of the input exactly when the peer has closed its
/// side and all that came has been read.
pub proof fn law_end_of_input(io: IoView, room: nat)
    requires
        room > 0,
    ensures
        (io.read_poll() is Ready && io.readable(room).len() == 0) <==> (io.closed
            && io.unread.len() == 0),
{
}

// ---------------------------------------------------------------------------
// The sending half of a stream
// ---------------------------------------------------------------------------

/// The smallest part of a body: a byte, or the end of the stream.
pub enum Unit {
    Byte(u8),
    End,
}

/// The parts of a piece of a body.
pub open spec fn units(data: Seq<u8>, end_stream: bool) -> Seq<Unit> {
    let bytes = data.map_values(|b: u8| Unit::Byte(b));
    if end_stream {
        bytes.push(Unit::End)
    } else {
        bytes
    }
}

/// The parts of the body that have been handed over, in order.
pub open spec fn handed(log: Seq<SendExchange>) -> Seq<Unit>
    decreases log.len(),
{
    if log.len() == 0 {
        Seq::empty()
    } else {
        let before = handed(log.drop_last());
        match log.last() {
            SendExchange::Data { data, end_stream } => before + units(data, end_stream),
            _ => before,
        }
    }
}

/// The parts of the body that wait, in order.
pub open spec fn waiting(queue: Seq<(Seq<u8>, bool)>) -> Seq<Unit>
    decreases queue.len(),
{
    if queue.len() == 0 {
        Seq::empty()
    } else {
        units(queue[0].0, queue[0].1) + waiting(queue.skip(1))
    }
}

/// The body of a sending half: what has been handed over, and then what waits.
pub open spec fn body(sending: Sending) -> Seq<Unit> {
    handed(sending.log) + waiting(sending.queue)
}

/// From `before` to `now`, the sending half has been told that there will never be room.
pub open spec fn gave_up(before: Seq<SendExchange>, now: Seq<SendExchange>) -> bool {
    exists|i: int| before.len() <= i < now.len() && #[trigger] now[i] == SendExchange::Told(Room::Never)
}

/// `now` has all that `before` had: the log has only grown, what has been handed over
/// stays handed over, and the whole body is still there. Or there will never be room for
/// the rest: the queue has been dropped, and what has been handed over is a first part of
/// the body.
pub open spec fn body_kept(before: Sending, now: Sending) -> bool {
    &&& before.log.is_prefix_of(now.log)
    &&& handed(before.log).is_prefix_of(handed(now.log))
    &&& body(now) == body(before) || {
        &&& gave_up(before.log, now.log)
        &&& waiting(now.queue).len() == 0
        &&& handed(now.log).is_prefix_of(body(before))
    }
}

proof fn lemma_said(log: Seq<SendExchange>, exchange: SendExchange)
    ensures
        handed(log.push(exchange)) == match exchange {
            SendExchange::Data { data, end_stream } => handed(log) + units(data, end_stream),
            _ => handed(log),
        },
{
    assert(log.push(exchange).drop_last() =~= log);
}

pub(crate) proof fn lemma_body_kept_chains(a: Sending, b: Sending, c: Sending)
    requires
        body_kept(a, b),
        body_kept(b, c),
    ensures
        body_kept(a, c),
{
    let (ha, hb, hc) = (handed(a.log), handed(b.log), handed(c.log));
    assert(ha.is_prefix_of(hc)) by {
        assert(ha =~= hc.take(ha.len() as int));
    }
    assert(gave_up(a.log, b.log) ==> gave_up(a.log, c.log)) by {
        if gave_up(a.log, b.log) {
            let i = choose|i: int|
                a.log.len() <= i < b.log.len() && #[trigger] b.log[i] == SendExchange::Told(Room::Never);
            assert(c.log[i] == b.log[i]);
        }
    }
    if body(b) == body(a) {
        if body(c) != body(b) {
            let i = choose|i: int|
                b.log.len() <= i < c.log.len() && #[trigger] c.log[i] == SendExchange::Told(Room::Never);
            assert(gave_up(a.log, c.log));
        }
    } else {
        assert(waiting(b.queue) =~= Seq::empty());
        assert(body(b) =~= hb);
        assert(hc.is_prefix_of(body(b)));
        assert(hc =~= hb);
        assert(waiting(c.queue).len() == 0);
    }
}

proof fn lemma_settle_keeps_body(s: Sending)
    ensures
        body_kept(s, s.settle()),
        body(s.settle()) == body(s),
    decreases s.queue.len(),
{
    if s.queue.len() > 0 && s.queue[0].0.len() == 0 {
        let (data, end_stream) = s.queue[0];
        let next = s.hand_over(data, end_stream, s.queue.skip(1));
        lemma_said(s.log, SendExchange::Data { data, end_stream });
        assert(body(next) =~= body(s));
        assert(handed(s.log).is_prefix_of(handed(next.log)));
        lemma_settle_keeps_body(next);
        lemma_body_kept_chains(s, next, next.settle());
    }
}

proof fn lemma_answer_keeps_body(s: Sending, room: Room)
    requires
        s.queue.len() > 0,
    ensures
        body_kept(s, s.asked(room).answered(room)),
        !(room is Never) ==> body(s.asked(room).answered(room)) == body(s),
{
    let asked = s.asked(room);
    let (chunk, end_stream) = s.queue[0];
    let reserve = SendExchange::Reserve(chunk.len() as usize);
    lemma_said(s.log, reserve);
    lemma_said(s.log.push(reserve), SendExchange::Told(room));
    let next = asked.answered(room);
    match room {
        Room::Bytes(n) => {
            if n < chunk.len() {
                let data = chunk.take(n as int);
                let rest = seq![(chunk.skip(n as int), end_stream)] + s.queue.skip(1);
                lemma_said(asked.log, SendExchange::Data { data, end_stream: false });
                assert(rest.skip(1) =~= s.queue.skip(1));
                assert(units(data, false) + units(chunk.skip(n as int), end_stream) =~= units(
                    chunk,
                    end_stream,
                ));
                assert(body(next) =~= body(s));
            } else {
                lemma_said(asked.log, SendExchange::Data { data: chunk, end_stream });
                assert(body(next) =~= body(s));
            }
            assert(handed(s.log).is_prefix_of(handed(next.log)));
        },
        Room::Wait => {},
        Room::Never => {
            assert(next.log[s.log.len() as int + 1] == SendExchange::Told(Room::Never));
        },
    }
}

proof fn lemma_answers_keep_body(start: Sending, rooms: Seq<Room>)
    requires
        forall|i: int|
            #![trigger rooms.take(i)]
            0 <= i < rooms.len() ==> start.flushed(rooms.take(i)).queue.len() > 0,
    ensures
        body_kept(start, start.flushed(rooms)),
        (forall|i: int| 0 <= i < rooms.len() ==> !(#[trigger] rooms[i] is Never)) ==> body(
            start.flushed(rooms),
        ) == body(start),
    decreases rooms.len(),
{
    if rooms.len() == 0 {
        lemma_settle_keeps_body(start);
    } else {
        let front = rooms.drop_last();
        assert(front =~= rooms.take(rooms.len() - 1));
        assert forall|i: int| #![trigger front.take(i)] 0 <= i < front.len() implies start.flushed(
            front.take(i),
        ).queue.len() > 0 by {
            assert(front.take(i) =~= rooms.take(i));
        }
        lemma_answers_keep_body(start, front);
        let before = start.flushed(front);
        let next = before.asked(rooms.last()).answered(rooms.last());
        lemma_answer_keeps_body(before, rooms.last());
        lemma_settle_keeps_body(next);
        lemma_body_kept_chains(start, before, next);
        lemma_body_kept_chains(start, next, next.settle());
        if forall|i: int| 0 <= i < rooms.len() ==> !(#[trigger] rooms[i] is Never) {
            assert(forall|i: int| 0 <= i < front.len() ==> front[i] == rooms[i]);
            assert(!(rooms[rooms.len() - 1] is Never));
        }
    }
}

/// A flush hands the body over from its front, in order, and loses none of it: the
/// bytes, and the end of the stream in its place. Only where there will never be room
/// is the part that waits dropped.
pub proof fn law_flush_keeps_body(start: Sending, rooms: Seq<Room>)
    requires
        start.flush_answers(rooms),
    ensures
        body_kept(start, start.flushed(rooms)),
        (rooms.len() == 0 || !(rooms.last() is Never)) ==> body(start.flushed(rooms)) == body(start),
        (rooms.len() > 0 && rooms.last() is Never) ==> start.flushed(rooms).queue.len() == 0,
{
    lemma_answers_keep_body(start, rooms);
    if rooms.len() > 0 && rooms.last() is Never {
        assert(start.flushed(rooms.drop_last()).asked(rooms.last()).answered(rooms.last()).queue
            =~= Seq::empty());
    }
    if rooms.len() == 0 || !(rooms.last() is Never) {
        assert forall|i: int| 0 <= i < rooms.len() implies !(#[trigger] rooms[i] is Never) by {
            if i < rooms.len() - 1 {
                assert(rooms[i] is Bytes);
            }
        }
    }
}

/// From `before` to `now`, whenever the sending half has been told of room there was some.
pub open spec fn only_room(before: Seq<SendExchange>, now: Seq<SendExchange>) -> bool {
    forall|i: int|
        #![trigger now[i]]
        before.len() <= i < now.len() ==> (now[i] matches SendExchange::Told(room) ==> room is Bytes)
}

/// Where the sending half has been told of room only, the answers were all room.
pub(crate) proof fn lemma_answers_were_room(start: Sending, rooms: Seq<Room>)
    requires
        start.flush_answers(rooms),
        only_room(start.log, start.flushed(rooms).log),
    ensures
        forall|i: int| 0 <= i < rooms.len() ==> #[trigger] rooms[i] is Bytes,
{
    if rooms.len() > 0 {
        let front = rooms.drop_last();
        let last = rooms.last();
        assert forall|i: int| #![trigger front.take(i)] 0 <= i < front.len() implies start.flushed(
            front.take(i),
        ).queue.len() > 0 by {
            assert(front.take(i) =~= rooms.take(i));
        }
        lemma_answers_keep_body(start, front);
        let before = start.flushed(front);
        let next = before.asked(last).answered(last);
        lemma_settle_keeps_body(next);
        let i = before.log.len() as int + 1;
        assert(next.log[i] == SendExchange::Told(last));
        assert(start.flushed(rooms).log[i] == next.log[i]);
        assert(last is Bytes);
        assert forall|j: int| 0 <= j < rooms.len() implies #[trigger] rooms[j] is Bytes by {
            if j < rooms.len() - 1 {
                assert(rooms[j] is Bytes);
            }
        }
    }
}

/// A flush without chunks that wait does nothing.
pub(crate) proof fn lemma_idle_flush(start: Sending, rooms: Seq<Room>)
    requires
        start.flush_answers(rooms),
        start.queue.len() == 0,
    ensures
        start.flushed(rooms) == start,
{
    if rooms.len() > 0 {
        assert(rooms.take(0) =~= Seq::empty());
        assert(start.flushed(rooms.take(0)).queue.len() > 0);
    }
}

/// As long as there is room, all of the body goes out.
pub proof fn law_with_room_all_goes_out(start: Sending, rooms: Seq<Room>)
    requires
        start.flush_answers(rooms),
        forall|i: int| 0 <= i < rooms.len() ==> #[trigger] rooms[i] is Bytes,
    ensures
        start.flushed(rooms).queue.len() == 0,
        handed(start.flushed(rooms).log) == body(start),
{
    if rooms.len() > 0 {
        assert(rooms.last() == rooms[rooms.len() - 1]);
    }
    law_flush_keeps_body(start, rooms);
    let end = start.flushed(rooms);
    assert(body(end) =~= handed(end.log));
}

/// The number of bytes of the body that have been handed over.
pub open spec fn bytes_handed(log: Seq<SendExchange>) -> nat
    decreases log.len(),
{
    if log.len() == 0 {
        0
    } else {
        let before = bytes_handed(log.drop_last());
        match log.last() {
            SendExchange::Data { data, .. } => before + data.len(),
            _ => before,
        }
    }
}

/// The room that a sending half has been told of in all.
pub open spec fn room_told(log: Seq<SendExchange>) -> nat
    decreases log.len(),
{
    if log.len() == 0 {
        0
    } else {
        let before = room_told(log.drop_last());
        match log.last() {
            SendExchange::Told(Room::Bytes(n)) => before + n as nat,
            _ => before,
        }
    }
}

/// From `before` to `now`, no more bytes have been handed over than there was room told
/// of.
pub open spec fn within_room(before: Seq<SendExchange>, now: Seq<SendExchange>) -> bool {
    bytes_handed(now) - bytes_handed(before) <= room_told(now) - room_told(before)
}

proof fn lemma_bytes_said(log: Seq<SendExchange>, exchange: SendExchange)
    ensures
        bytes_handed(log.push(exchange)) == match exchange {
            SendExchange::Data { data, .. } => bytes_handed(log) + data.len(),
            _ => bytes_handed(log),
        },
        room_told(log.push(exchange)) == match exchange {
            SendExchange::Told(Room::Bytes(n)) => room_told(log) + n as nat,
            _ => room_told(log),
        },
{
    assert(log.push(exchange).drop_last() =~= log);
}

proof fn lemma_settle_hands_no_bytes(s: Sending)
    ensures
        bytes_handed(s.settle().log) == bytes_handed(s.log),
        room_told(s.settle().log) == room_told(s.log),
    decreases s.queue.len(),
{
    if s.queue.len() > 0 && s.queue[0].0.len() == 0 {
        let (data, end_stream) = s.queue[0];
        lemma_bytes_said(s.log, SendExchange::Data { data, end_stream });
        lemma_settle_hands_no_bytes(s.hand_over(data, end_stream, s.queue.skip(1)));
    }
}

/// A flush hands over no more bytes than it is told that there is room for.
pub proof fn law_flush_stays_within_room(start: Sending, rooms: Seq<Room>)
    ensures
        within_room(start.log, start.flushed(rooms).log),
    decreases rooms.len(),
{
    if rooms.len() == 0 {
        lemma_settle_hands_no_bytes(start);
    } else {
        law_flush_stays_within_room(start, rooms.drop_last());
        let before = start.flushed(rooms.drop_last());
        let (chunk, end_stream) = before.queue[0];
        let reserve = SendExchange::Reserve(chunk.len() as usize);
        lemma_bytes_said(before.log, reserve);
        lemma_bytes_said(before.log.push(reserve), SendExchange::Told(rooms.last()));
        let asked = before.asked(rooms.last());
        if let Room::Bytes(n) = rooms.last() {
            if n < chunk.len() {
                let data = chunk.take(n as int);
                lemma_bytes_said(asked.log, SendExchange::Data { data, end_stream: false });
            } else {
                lemma_bytes_said(asked.log, SendExchange::Data { data: chunk, end_stream });
            }
        }
        lemma_settle_hands_no_bytes(asked.answered(rooms.last()));
    }
}

proof fn lemma_queued_last(queue: Seq<(Seq<u8>, bool)>, data: Seq<u8>, end_stream: bool)
    ensures
        waiting(queue.push((data, end_stream))) == waiting(queue) + units(data, end_stream),
    decreases queue.len(),
{
    let longer = queue.push((data, end_stream));
    if queue.len() == 0 {
        assert(longer.skip(1) =~= Seq::empty());
        assert(waiting(longer.skip(1)) =~= Seq::empty());
        assert(waiting(longer) =~= waiting(queue) + units(data, end_stream));
    } else {
        assert(longer.skip(1) =~= queue.skip(1).push((data, end_stream)));
        lemma_queued_last(queue.skip(1), data, end_stream);
        assert(waiting(longer) =~= waiting(queue) + units(data, end_stream));
    }
}

/// Data that is queued on a stream goes behind all that waits there.
pub proof fn law_data_is_queued_last(
    conn: ConnView,
    stream_id: u32,
    data: Seq<u8>,
    end_stream: bool,
)
    ensures
        waiting(conn.data_queued(stream_id, data, end_stream).queue(stream_id)) == waiting(
            conn.queue(stream_id),
        ) + units(data, end_stream),
{
    lemma_queued_last(conn.queue(stream_id), data, end_stream);
}

// ---------------------------------------------------------------------------
// The receiving half of a stream
// ---------------------------------------------------------------------------

/// The number of bytes of bodies that some events bring.
pub open spec fn bytes_reported(events: Seq<EventView>) -> nat
    decreases events.len(),
{
    if events.len() == 0 {
        0
    } else {
        let before = bytes_reported(events.drop_last());
        match events.last() {
            EventView::Data { data, .. } => before + data.len(),
            _ => before,
        }
    }
}

/// What has been given back to the window of a stream through its receiving half, in
/// order.
pub open spec fn given_back(log: Seq<RecvExchange>) -> Seq<usize>
    decreases log.len(),
{
    if log.len() == 0 {
        Seq::empty()
    } else {
        let before = given_back(log.drop_last());
        match log.last() {
            RecvExchange::Release(size) => before.push(size),
            _ => before,
        }
    }
}

/// The events that have come on top of those of `before`.
pub open spec fn new_events(before: Seq<EventView>, now: Seq<EventView>) -> Seq<EventView> {
    now.skip(before.len() as int)
}

/// The events that a stretch of the log of a receiving half asks for: one for each answer
/// to the question for body data, but for those that there is nothing for now. A piece of
/// the body is followed by whether the stream has ended with it.
pub open spec fn told(stream_id: u32, log: Seq<RecvExchange>) -> Seq<EventView>
    decreases log.len(),
{
    if log.len() == 0 {
        Seq::empty()
    } else {
        match log[0] {
            RecvExchange::Data(DataReply::Chunk(data)) => if log.len() >= 2 && log[1] is Ended {
                seq![EventView::Data { stream_id, data, stream_ended: log[1]->Ended_0 }] + told(
                    stream_id,
                    log.skip(2),
                )
            } else {
                Seq::empty()
            },
            RecvExchange::Data(DataReply::Failed(reason)) => seq![
                EventView::Reset {
                    stream_id,
                    error_code: match reason {
                        Some(code) => code,
                        None => 0,
                    },
                },
            ] + told(stream_id, log.skip(1)),
            RecvExchange::Data(DataReply::End) => seq![EventView::Ended { stream_id }] + told(
                stream_id,
                log.skip(1),
            ),
            RecvExchange::Data(DataReply::Pending) => told(stream_id, log.skip(1)),
            _ => Seq::empty(),
        }
    }
}

proof fn lemma_reply_gives_nothing_back(log: Seq<RecvExchange>, reply: BodyReply)
    ensures
        given_back(log + reply.exchanges()) == given_back(log),
        unacknowledged(log + reply.exchanges()) == match reply {
            BodyReply::Chunk { data, .. } => capped(unacknowledged(log) + data.len()),
            _ => unacknowledged(log),
        },
{
    let asked = log.push(RecvExchange::Data(reply.answer()));
    assert(asked.drop_last() =~= log);
    lemma_unacknowledged(log, RecvExchange::Data(reply.answer()));
    if let BodyReply::Chunk { stream_ended, .. } = reply {
        let ended = asked.push(RecvExchange::Ended(stream_ended));
        assert(ended.drop_last() =~= asked);
        assert(given_back(asked) == given_back(log));
        lemma_unacknowledged(asked, RecvExchange::Ended(stream_ended));
        assert(log + reply.exchanges() =~= ended);
    } else {
        assert(log + reply.exchanges() =~= asked);
    }
}

/// Reading a stream only adds events. It gives nothing back to the window of the stream:
/// what it reports is counted as unacknowledged, up to what a window can hold.
pub proof fn law_reading_waits_for_acknowledgement(
    start: Receiving,
    stream_id: u32,
    replies: Seq<BodyReply>,
)
    ensures
        start.events.is_prefix_of(start.read(stream_id, replies).events),
        given_back(start.read(stream_id, replies).log) == given_back(start.log),
        unacknowledged(start.read(stream_id, replies).log) == capped(
            unacknowledged(start.log) + bytes_reported(
                new_events(start.events, start.read(stream_id, replies).events),
            ),
        ),
    decreases replies.len(),
{
    let end = start.read(stream_id, replies);
    if replies.len() == 0 {
        assert(new_events(start.events, end.events) =~= Seq::empty());
        lemma_unacknowledged(start.log, RecvExchange::Ended(false));
    } else {
        law_reading_waits_for_acknowledgement(start, stream_id, replies.drop_last());
        let before = start.read(stream_id, replies.drop_last());
        let reply = replies.last();
        let older = new_events(start.events, before.events);
        let newer = new_events(start.events, end.events);
        lemma_reply_gives_nothing_back(before.log, reply);
        assert(newer =~= older + reply.events(stream_id));
        if reply is Pending {
            assert(newer =~= older);
        } else {
            assert(newer.drop_last() =~= older);
        }
    }
}

/// What some answers make pass through a receiving half.
pub open spec fn all_exchanges(replies: Seq<BodyReply>) -> Seq<RecvExchange>
    decreases replies.len(),
{
    if replies.len() == 0 {
        Seq::empty()
    } else {
        replies[0].exchanges() + all_exchanges(replies.skip(1))
    }
}

/// The events of some answers.
pub open spec fn all_events(stream_id: u32, replies: Seq<BodyReply>) -> Seq<EventView>
    decreases replies.len(),
{
    if replies.len() == 0 {
        Seq::empty()
    } else {
        replies[0].events(stream_id) + all_events(stream_id, replies.skip(1))
    }
}

proof fn lemma_all_but_last(stream_id: u32, replies: Seq<BodyReply>)
    requires
        replies.len() > 0,
    ensures
        all_exchanges(replies) == all_exchanges(replies.drop_last()) + replies.last().exchanges(),
        all_events(stream_id, replies) == all_events(stream_id, replies.drop_last())
            + replies.last().events(stream_id),
    decreases replies.len(),
{
    if replies.len() == 1 {
        assert(replies.skip(1) =~= Seq::empty());
        assert(replies.drop_last() =~= Seq::empty());
        assert(all_exchanges(replies) =~= replies.last().exchanges());
        assert(all_events(stream_id, replies) =~= replies.last().events(stream_id));
        assert(all_exchanges(replies.drop_last()) + replies.last().exchanges()
            =~= replies.last().exchanges());
        assert(all_events(stream_id, replies.drop_last()) + replies.last().events(stream_id)
            =~= replies.last().events(stream_id));
    } else {
        lemma_all_but_last(stream_id, replies.skip(1));
        assert(replies.skip(1).drop_last() =~= replies.drop_last().skip(1));
        assert(replies.skip(1).last() == replies.last());
        assert(all_exchanges(replies) =~= all_exchanges(replies.drop_last())
            + replies.last().exchanges());
        assert(all_events(stream_id, replies) =~= all_events(stream_id, replies.drop_last())
            + replies.last().events(stream_id));
    }
}

pub(crate) proof fn lemma_read_in_all(start: Receiving, stream_id: u32, replies: Seq<BodyReply>)
    ensures
        start.read(stream_id, replies).log == start.log + all_exchanges(replies),
        start.read(stream_id, replies).events == start.events + all_events(stream_id, replies),
    decreases replies.len(),
{
    let end = start.read(stream_id, replies);
    if replies.len() == 0 {
        assert(end.log =~= start.log + all_exchanges(replies));
        assert(end.events =~= start.events + all_events(stream_id, replies));
    } else {
        lemma_read_in_all(start, stream_id, replies.drop_last());
        lemma_all_but_last(stream_id, replies);
        assert(end.log =~= start.log + all_exchanges(replies));
        assert(end.events =~= start.events + all_events(stream_id, replies));
    }
}

proof fn lemma_told(stream_id: u32, replies: Seq<BodyReply>)
    ensures
        told(stream_id, all_exchanges(replies)) == all_events(stream_id, replies),
    decreases replies.len(),
{
    if replies.len() > 0 {
        lemma_told(stream_id, replies.skip(1));
        let log = all_exchanges(replies);
        let rest = all_exchanges(replies.skip(1));
        if replies[0] is Chunk {
            assert(log.skip(2) =~= rest);
        } else {
            assert(log.skip(1) =~= rest);
        }
        assert(told(stream_id, log) =~= all_events(stream_id, replies));
    }
}

/// The events of a read are those that the answers of the stream ask for, in their order:
/// none is made up, left out or changed.
pub proof fn law_events_are_those_told(start: Receiving, stream_id: u32, replies: Seq<BodyReply>)
    ensures
        start.log.is_prefix_of(start.read(stream_id, replies).log),
        new_events(start.events, start.read(stream_id, replies).events) == told(
            stream_id,
            start.read(stream_id, replies).log.skip(start.log.len() as int),
        ),
{
    let end = start.read(stream_id, replies);
    lemma_read_in_all(start, stream_id, replies);
    lemma_told(stream_id, replies);
    assert(end.log.skip(start.log.len() as int) =~= all_exchanges(replies));
    assert(new_events(start.events, end.events) =~= all_events(stream_id, replies));
}

} // verus!
