//! What holds of a connection as a whole, whatever the peer does.
use crate::event::EventView;
use crate::head::{
    ascii, first_fault, given_status, head_status, is_pseudo, lower_case, response_fields,
    status_code, valid_status, HeadView,
};
use crate::model::{
    lemma_flush_elsewhere, lemma_owed_with, owed_on, settled, window_for, AcceptReply, ConnView,
    Phase, BASE_WINDOW, MAX_ROUNDS,
};
use crate::outside::{LinkExchange, RecvExchange, SendExchange};
use crate::receiving::{
    lemma_unacknowledged, read_answers, unacknowledged, BodyReply, Receiving, MAX_WINDOW,
};
use crate::sending::Room;
use crate::stream_laws::{
    body, body_kept, bytes_handed, bytes_reported, given_back, handed, law_flush_keeps_body,
    law_flush_stays_within_room, law_reading_waits_for_acknowledgement, law_with_room_all_goes_out,
    lemma_answers_were_room, lemma_body_kept_chains, lemma_idle_flush, new_events, only_room,
    room_told, units, waiting, within_room,
};
use vstd::prelude::*;

verus! {

// ---------------------------------------------------------------------------
// Events
// ---------------------------------------------------------------------------

/// The streams that are open for body data after some events: a request opens its
/// stream, and the end or the reset of a stream closes it.
pub open spec fn open_after(open: Set<u32>, events: Seq<EventView>) -> Set<u32>
    decreases events.len(),
{
    if events.len() == 0 {
        open
    } else {
        let before = open_after(open, events.drop_last());
        match events.last() {
            EventView::Request { stream_id, .. } => before.insert(stream_id),
            EventView::Ended { stream_id } => before.remove(stream_id),
            EventView::Reset { stream_id, .. } => before.remove(stream_id),
            _ => before,
        }
    }
}

/// What the events tell of bodies, they tell of streams that are open at that point.
pub open spec fn orderly(open: Set<u32>, events: Seq<EventView>) -> bool
    decreases events.len(),
{
    events.len() == 0 || {
        let now = open_after(open, events.drop_last());
        &&& orderly(open, events.drop_last())
        &&& match events.last() {
            EventView::Data { stream_id, .. } => now.contains(stream_id),
            EventView::Ended { stream_id } => now.contains(stream_id),
            EventView::Reset { stream_id, .. } => now.contains(stream_id),
            _ => true,
        }
    }
}

/// The streams that some events bring a request on.
pub open spec fn requested(events: Seq<EventView>) -> Set<u32>
    decreases events.len(),
{
    if events.len() == 0 {
        Set::empty()
    } else {
        let before = requested(events.drop_last());
        match events.last() {
            EventView::Request { stream_id, .. } => before.insert(stream_id),
            _ => before,
        }
    }
}

/// From `before` to `now`, events have only been added, and they are in order. The open
/// receiving halves are those that the events leave open, and the requests that wait
/// for an answer are those that waited and those that the events bring.
pub open spec fn reported(before: ConnView, now: ConnView) -> bool {
    let events = new_events(before.events, now.events);
    &&& before.events.is_prefix_of(now.events)
    &&& orderly(before.recv.dom(), events)
    &&& now.recv.dom() == open_after(before.recv.dom(), events)
    &&& now.responders == before.responders.union(requested(events))
}

proof fn lemma_events_chain(open: Set<u32>, a: Seq<EventView>, b: Seq<EventView>)
    ensures
        open_after(open, a + b) == open_after(open_after(open, a), b),
        orderly(open, a + b) == (orderly(open, a) && orderly(open_after(open, a), b)),
        requested(a + b) == requested(a).union(requested(b)),
    decreases b.len(),
{
    if b.len() == 0 {
        assert(a + b =~= a);
        assert(requested(a).union(requested(b)) =~= requested(a));
    } else {
        lemma_events_chain(open, a, b.drop_last());
        assert((a + b).drop_last() =~= a + b.drop_last());
        assert((a + b).last() == b.last());
        assert(requested(a + b) =~= requested(a).union(requested(b)));
    }
}

proof fn lemma_reported_chains(a: ConnView, b: ConnView, c: ConnView)
    requires
        reported(a, b),
        reported(b, c),
    ensures
        reported(a, c),
{
    let first = new_events(a.events, b.events);
    let second = new_events(b.events, c.events);
    assert(new_events(a.events, c.events) =~= first + second);
    lemma_events_chain(a.recv.dom(), first, second);
    assert(c.responders =~= a.responders.union(requested(first + second)));
}

proof fn lemma_nothing_reported(before: ConnView, now: ConnView)
    requires
        now.events == before.events,
        now.recv.dom() == before.recv.dom(),
        now.responders == before.responders,
    ensures
        reported(before, now),
{
    assert(new_events(before.events, now.events) =~= Seq::empty());
    assert(now.responders =~= before.responders.union(Set::empty()));
}

proof fn lemma_one_reported(before: ConnView, now: ConnView, event: EventView)
    requires
        now.events == before.events.push(event),
        orderly(before.recv.dom(), seq![event]),
        now.recv.dom() == open_after(before.recv.dom(), seq![event]),
        now.responders == before.responders.union(requested(seq![event])),
    ensures
        reported(before, now),
{
    assert(new_events(before.events, now.events) =~= seq![event]);
}

proof fn lemma_accepting_reports(conn: ConnView, replies: Seq<AcceptReply>)
    ensures
        reported(conn, conn.accepted_all(replies)),
    decreases replies.len(),
{
    reveal_with_fuel(open_after, 2);
    reveal_with_fuel(orderly, 2);
    reveal_with_fuel(requested, 2);
    if replies.len() == 0 {
        lemma_nothing_reported(conn, conn);
    } else {
        lemma_accepting_reports(conn, replies.drop_last());
        let before = conn.accepted_all(replies.drop_last());
        let now = before.accepted(replies.last());
        match replies.last() {
            AcceptReply::Stream { stream_id, head, stream_ended } => {
                let event = EventView::Request {
                    stream_id,
                    headers: head.header_list(),
                    stream_ended,
                };
                assert(now.recv.dom() =~= before.recv.dom().insert(stream_id));
                assert(seq![event].drop_last() =~= Seq::empty());
                assert(now.responders =~= before.responders.union(requested(seq![event])));
                lemma_one_reported(before, now, event);
            },
            AcceptReply::Pending => {
                lemma_nothing_reported(before, now);
            },
            _ => {
                let event = EventView::Terminated;
                assert(seq![event].drop_last() =~= Seq::empty());
                assert(now.responders =~= before.responders.union(requested(seq![event])));
                lemma_one_reported(before, now, event);
            },
        }
        lemma_reported_chains(conn, before, now);
    }
}

/// The events of one read, seen from the set of open streams.
proof fn lemma_reading_reports(start: Receiving, open: Set<u32>, stream_id: u32, replies: Seq<BodyReply>)
    requires
        open.contains(stream_id),
        forall|i: int| 0 <= i < replies.len() - 1 ==> #[trigger] replies[i] is Chunk,
    ensures
        start.events.is_prefix_of(start.read(stream_id, replies).events),
        ({
            let events = new_events(start.events, start.read(stream_id, replies).events);
            &&& orderly(open, events)
            &&& requested(events) == Set::<u32>::empty()
            &&& open_after(open, events) == if replies.len() == 0 || replies.last().keeps_stream() {
                open
            } else {
                open.remove(stream_id)
            }
        }),
    decreases replies.len(),
{
    let end = start.read(stream_id, replies);
    let events = new_events(start.events, end.events);
    if replies.len() == 0 {
        assert(events =~= Seq::empty());
    } else {
        let front = replies.drop_last();
        assert(forall|i: int| 0 <= i < front.len() ==> front[i] == replies[i]);
        lemma_reading_reports(start, open, stream_id, front);
        let before = start.read(stream_id, front);
        let older = new_events(start.events, before.events);
        if front.len() > 0 {
            assert(front.last() == replies[front.len() - 1]);
        }
        assert(events =~= older + replies.last().events(stream_id));
        if replies.last() is Pending {
            assert(events =~= older);
        } else {
            assert(events.drop_last() =~= older);
        }
    }
}

proof fn lemma_body_reports(conn: ConnView, stream_id: u32, replies: Seq<BodyReply>)
    requires
        read_answers(replies),
    ensures
        reported(conn, conn.body_read(stream_id, replies)),
{
    let now = conn.body_read(stream_id, replies);
    if conn.recv.contains_key(stream_id) {
        let start = Receiving { log: conn.recv[stream_id], events: conn.events };
        lemma_reading_reports(start, conn.recv.dom(), stream_id, replies);
        if replies.last().keeps_stream() {
            assert(now.recv.dom() =~= conn.recv.dom());
        } else {
            assert(now.recv.dom() =~= conn.recv.dom().remove(stream_id));
        }
        assert(now.responders =~= conn.responders.union(Set::empty()));
    } else {
        lemma_nothing_reported(conn, now);
    }
}

proof fn lemma_bodies_report(conn: ConnView, order: Seq<u32>, bodies: Seq<Seq<BodyReply>>)
    requires
        bodies.len() == order.len(),
        forall|i: int| 0 <= i < bodies.len() ==> read_answers(#[trigger] bodies[i]),
    ensures
        reported(conn, conn.bodies_read(order, bodies)),
    decreases order.len(),
{
    if order.len() == 0 {
        lemma_nothing_reported(conn, conn);
    } else {
        let (front, front_bodies) = (order.drop_last(), bodies.drop_last());
        assert(forall|i: int| 0 <= i < front_bodies.len() ==> front_bodies[i] == bodies[i]);
        lemma_bodies_report(conn, front, front_bodies);
        let before = conn.bodies_read(front, front_bodies);
        assert(read_answers(bodies[bodies.len() - 1]));
        lemma_body_reports(before, order.last(), bodies.last());
        lemma_reported_chains(conn, before, before.body_read(order.last(), bodies.last()));
    }
}

// ---------------------------------------------------------------------------
// What a pump changes and what it leaves alone
// ---------------------------------------------------------------------------

/// The bodies on a stream are kept: where its head has been sent, all that was queued
/// is handed over or waits, in order, or is dropped from some point on; where it has
/// not, all waits. No more is handed over than there is room told of.
pub open spec fn stream_kept(before: ConnView, now: ConnView, stream_id: u32) -> bool {
    &&& now.send.contains_key(stream_id) == before.send.contains_key(stream_id)
    &&& now.pending.contains_key(stream_id) == before.pending.contains_key(stream_id)
    &&& before.sendable(stream_id) ==> body_kept(before.sending(stream_id), now.sending(stream_id))
    &&& !before.send.contains_key(stream_id) ==> now.queue(stream_id) == before.queue(stream_id)
    &&& !before.pending.contains_key(stream_id) && before.send.contains_key(stream_id)
        ==> now.send[stream_id] == before.send[stream_id]
    &&& before.send.contains_key(stream_id) ==> within_room(before.send[stream_id], now.send[stream_id])
}

/// The connection stays in its phase, or it is closed and the last event says so.
pub open spec fn phase_kept(before: ConnView, now: ConnView) -> bool {
    ||| now.phase == before.phase
    ||| now.phase is Closed && now.events.len() > before.events.len() && now.events.last()
        is Terminated
}

/// What holds from the start to the end of any number of rounds.
pub open spec fn moved_on(before: ConnView, now: ConnView) -> bool {
    &&& reported(before, now)
    &&& phase_kept(before, now)
    &&& !(before.phase is Ready) ==> now.phase == before.phase && now.events == before.events
    &&& now.past_send == before.past_send
    &&& before.link.is_prefix_of(now.link)
    &&& before.past_recv.is_prefix_of(now.past_recv)
    &&& forall|stream_id: u32| #[trigger] stream_kept(before, now, stream_id)
}

pub(crate) proof fn lemma_accepting_moves_on(conn: ConnView, replies: Seq<AcceptReply>)
    requires
        forall|i: int| 0 <= i < replies.len() - 1 ==> #[trigger] replies[i] is Stream,
    ensures
        ({
            let now = conn.accepted_all(replies);
            &&& now.send == conn.send
            &&& now.pending == conn.pending
            &&& now.past_send == conn.past_send
            &&& conn.past_recv.is_prefix_of(now.past_recv)
            &&& conn.link.is_prefix_of(now.link)
            &&& now.link.len() >= conn.link.len() + replies.len()
            &&& now.events.len() >= conn.events.len()
            &&& if replies.len() > 0 && replies.last() is Failed {
                now.phase is Closed && now.events.len() > conn.events.len() && now.events.last()
                    is Terminated
            } else {
                now.phase == conn.phase
            }
        }),
    decreases replies.len(),
{
    if replies.len() > 0 {
        let front = replies.drop_last();
        assert(forall|i: int| 0 <= i < front.len() ==> front[i] == replies[i]);
        if front.len() > 0 {
            assert(front.last() == replies[front.len() - 1]);
        }
        lemma_accepting_moves_on(conn, front);
    }
}

proof fn lemma_bodies_leave_alone(conn: ConnView, order: Seq<u32>, bodies: Seq<Seq<BodyReply>>)
    ensures
        ({
            let now = conn.bodies_read(order, bodies);
            &&& now.send == conn.send
            &&& now.pending == conn.pending
            &&& now.past_send == conn.past_send
            &&& conn.past_recv.is_prefix_of(now.past_recv)
            &&& now.responders == conn.responders
            &&& now.phase == conn.phase
            &&& conn.link.is_prefix_of(now.link)
        }),
    decreases order.len(),
{
    if order.len() > 0 {
        lemma_bodies_leave_alone(conn, order.drop_last(), bodies.drop_last());
    }
}

proof fn lemma_streams_kept(before: ConnView, now: ConnView)
    requires
        now.send == before.send,
        now.pending == before.pending,
    ensures
        forall|stream_id: u32| #[trigger] stream_kept(before, now, stream_id),
{
}

pub(crate) proof fn lemma_drive_moves_on(conn: ConnView, end: ConnView)
    requires
        conn.drive_leads_to(end),
    ensures
        moved_on(conn, end),
        end.send == conn.send,
        end.pending == conn.pending,
        conn.phase is Ready ==> end.link.len() > conn.link.len(),
{
    if conn.phase is Ready {
        let (accepts, order, bodies) = choose|
            accepts: Seq<AcceptReply>,
            order: Seq<u32>,
            bodies: Seq<Seq<BodyReply>>,
        | #[trigger]
            conn.drive_answers(accepts, order, bodies) && end == conn.driven(accepts, order, bodies);
        let mid = conn.accepted_all(accepts);
        lemma_accepting_reports(conn, accepts);
        lemma_bodies_report(mid, order, bodies);
        lemma_reported_chains(conn, mid, end);
        lemma_accepting_moves_on(conn, accepts);
        lemma_bodies_leave_alone(mid, order, bodies);
        if accepts.last() is Failed {
            assert(end == mid);
        }
    } else {
        lemma_nothing_reported(conn, end);
    }
    lemma_streams_kept(conn, end);
}

pub(crate) proof fn lemma_flush_leaves_alone(conn: ConnView, order: Seq<u32>, rooms: Seq<Seq<Room>>)
    ensures
        ({
            let now = conn.flushed(order, rooms);
            &&& now.phase == conn.phase
            &&& now.link == conn.link
            &&& now.recv == conn.recv
            &&& now.past_recv == conn.past_recv
            &&& now.responders == conn.responders
            &&& now.past_send == conn.past_send
            &&& now.events == conn.events
            &&& now.send.dom() == conn.send.dom()
            &&& now.pending.dom() == conn.pending.dom()
        }),
    decreases order.len(),
{
    if order.len() > 0 {
        lemma_flush_leaves_alone(conn, order.drop_last(), rooms.drop_last());
        let before = conn.flushed(order.drop_last(), rooms.drop_last());
        let now = before.stream_flushed(order.last(), rooms.last());
        assert(now.send.dom() =~= before.send.dom());
        assert(now.pending.dom() =~= before.pending.dom());
    }
}

/// What a flush does to one of the streams that it takes.
pub(crate) proof fn lemma_flush_here(conn: ConnView, order: Seq<u32>, rooms: Seq<Seq<Room>>, i: int)
    requires
        order.no_duplicates(),
        rooms.len() == order.len(),
        0 <= i < order.len(),
        conn.sendable(order[i]),
    ensures
        ({
            let now = conn.flushed(order, rooms);
            let after = conn.sending(order[i]).flushed(rooms[i]);
            &&& now.send[order[i]] == after.log
            &&& now.pending[order[i]] == after.queue
        }),
    decreases order.len(),
{
    let (front, front_rooms) = (order.drop_last(), rooms.drop_last());
    let id = order[i];
    if i == order.len() - 1 {
        assert(!front.contains(id)) by {
            if front.contains(id) {
                let j = choose|j: int| 0 <= j < front.len() && front[j] == id;
                assert(order[j] == order[i]);
            }
        }
        lemma_flush_elsewhere(conn, front, front_rooms, id);
    } else {
        assert(front[i] == id && front_rooms[i] == rooms[i]);
        assert(front.no_duplicates());
        lemma_flush_here(conn, front, front_rooms, i);
        assert(order.last() == order[order.len() - 1]);
        assert(order.last() != id);
    }
}

pub(crate) proof fn lemma_flush_moves_on(conn: ConnView, end: ConnView, sent: bool)
    requires
        conn.flush_leads_to(end, sent),
    ensures
        moved_on(conn, end),
        end.events == conn.events,
{
    let (order, rooms) = choose|order: Seq<u32>, rooms: Seq<Seq<Room>>| #[trigger]
        conn.flush_answers(order, rooms) && end == conn.flushed(order, rooms) && sent
            == conn.flush_sends(order, rooms);
    lemma_flush_leaves_alone(conn, order, rooms);
    lemma_nothing_reported(conn, end);
    assert forall|stream_id: u32| #[trigger] stream_kept(conn, end, stream_id) by {
        assert(conn.send.contains_key(stream_id) == conn.send.dom().contains(stream_id));
        assert(end.send.contains_key(stream_id) == end.send.dom().contains(stream_id));
        assert(conn.pending.contains_key(stream_id) == conn.pending.dom().contains(stream_id));
        assert(end.pending.contains_key(stream_id) == end.pending.dom().contains(stream_id));
        if conn.sendable(stream_id) {
            assert(order.to_set().contains(stream_id));
            let i = choose|i: int| 0 <= i < order.len() && order[i] == stream_id;
            lemma_flush_here(conn, order, rooms, i);
            law_flush_keeps_body(conn.sending(stream_id), rooms[i]);
            law_flush_stays_within_room(conn.sending(stream_id), rooms[i]);
            let after = conn.sending(stream_id).flushed(rooms[i]);
            assert(end.sending(stream_id).log == after.log);
            assert(end.sending(stream_id).queue == after.queue);
        } else {
            lemma_flush_idle(conn, order, rooms, stream_id);
        }
    }
}

/// A flush leaves a stream alone on which nothing can go out.
pub(crate) proof fn lemma_flush_idle(conn: ConnView, order: Seq<u32>, rooms: Seq<Seq<Room>>, stream_id: u32)
    requires
        !conn.sendable(stream_id),
    ensures
        ({
            let now = conn.flushed(order, rooms);
            &&& !now.sendable(stream_id)
            &&& now.send[stream_id] == conn.send[stream_id]
            &&& now.pending[stream_id] == conn.pending[stream_id]
        }),
    decreases order.len(),
{
    if order.len() > 0 {
        lemma_flush_idle(conn, order.drop_last(), rooms.drop_last(), stream_id);
    }
}

proof fn lemma_moved_on_chains(a: ConnView, b: ConnView, c: ConnView)
    requires
        moved_on(a, b),
        moved_on(b, c),
    ensures
        moved_on(a, c),
{
    lemma_reported_chains(a, b, c);
    assert forall|stream_id: u32| #[trigger] stream_kept(a, c, stream_id) by {
        assert(stream_kept(a, b, stream_id));
        assert(stream_kept(b, c, stream_id));
        if a.sendable(stream_id) {
            lemma_body_kept_chains(
                a.sending(stream_id),
                b.sending(stream_id),
                c.sending(stream_id),
            );
        }
    }
}

pub(crate) proof fn lemma_rounds_move_on(conn: ConnView, n: nat, end: ConnView)
    requires
        conn.rounds_lead_to(n, end),
    ensures
        moved_on(conn, end),
        n > 0 && conn.phase is Ready ==> end.link.len() > conn.link.len(),
    decreases n,
{
    if n == 0 {
        lemma_nothing_reported(conn, end);
        lemma_streams_kept(conn, end);
    } else {
        let (next, progress) = choose|next: ConnView, progress: bool| #[trigger]
            conn.round_leads_to(next, progress) && if progress {
                next.rounds_lead_to((n - 1) as nat, end)
            } else {
                end == next
            };
        let (mid, sent) = choose|mid: ConnView, sent: bool|
            #![trigger conn.drive_leads_to(mid), mid.flush_leads_to(next, sent)]
            {
                &&& conn.drive_leads_to(mid)
                &&& mid.flush_leads_to(next, sent)
                &&& progress == (mid.events.len() != conn.events.len() || sent)
            };
        lemma_drive_moves_on(conn, mid);
        lemma_flush_moves_on(mid, next, sent);
        lemma_moved_on_chains(conn, mid, next);
        if progress {
            lemma_rounds_move_on(next, (n - 1) as nat, end);
            lemma_moved_on_chains(conn, next, end);
        }
    }
}

/// What a pump does is in order, whatever the peer sends:
///
/// - Events are only added. What they tell of bodies they tell of streams that are
///   open: after the request on the stream, and before its end or its reset. The
///   receiving halves that stay are those of the streams that the events leave open,
///   and the requests that wait for an answer are those that waited before and those
///   that the events bring.
/// - On every stream the body is kept: it goes out in order, or waits, or is dropped
///   from some point on where it can never go out. It waits until the head is sent, and
///   no more of it goes out than there is room told of.
/// - No sending half is let go, and a connection that is up is asked for new streams.
pub proof fn law_pump_is_in_order(conn: ConnView, end: ConnView, ok: bool)
    requires
        conn.pump_leads_to(end, ok),
    ensures
        reported(conn, end),
        forall|stream_id: u32| #[trigger] stream_kept(conn, end, stream_id),
        end.past_send == conn.past_send,
        conn.past_recv.is_prefix_of(end.past_recv),
        conn.phase is Ready ==> conn.link.is_prefix_of(end.link) && conn.link.len() < end.link.len(),
{
    match conn.phase {
        Phase::Handshaking { polls } => {
            if ok && end == conn.in_phase(Phase::Handshaking { polls: polls + 1 }) || !ok && end
                == conn.in_phase(Phase::Closed) {
                lemma_nothing_reported(conn, end);
                lemma_streams_kept(conn, end);
            } else {
                let ready = conn.in_phase(Phase::Ready);
                lemma_rounds_move_on(ready, MAX_ROUNDS as nat, end);
                assert forall|stream_id: u32| #[trigger] stream_kept(conn, end, stream_id) by {
                    assert(stream_kept(ready, end, stream_id));
                }
            }
        },
        Phase::Ready => {
            lemma_rounds_move_on(conn, MAX_ROUNDS as nat, end);
        },
        Phase::Closed => {
            lemma_nothing_reported(conn, end);
            lemma_streams_kept(conn, end);
        },
    }
}

/// A connection that is closed stays as it is: a pump changes nothing, and brings no
/// events.
pub proof fn law_closed_is_final(conn: ConnView, end: ConnView, ok: bool)
    requires
        conn.phase is Closed,
        conn.pump_leads_to(end, ok),
    ensures
        ok,
        end == conn,
{
}

/// A pump that closes a connection says so: it fails, as the handshake does, or its last
/// event is the end of the connection.
pub proof fn law_closing_is_reported(conn: ConnView, end: ConnView, ok: bool)
    requires
        !(conn.phase is Closed),
        end.phase is Closed,
        conn.pump_leads_to(end, ok),
    ensures
        ok ==> end.events.len() > conn.events.len() && end.events.last() is Terminated,
        !ok ==> conn.phase is Handshaking && end.events == conn.events,
{
    if ok {
        if conn.phase is Handshaking {
            lemma_rounds_move_on(
                conn.in_phase(Phase::Ready),
                MAX_ROUNDS as nat,
                end,
            );
        } else {
            lemma_rounds_move_on(conn, MAX_ROUNDS as nat, end);
        }
    }
}

/// How far a phase lies from the start.
pub open spec fn stage(phase: Phase) -> int {
    match phase {
        Phase::Handshaking { .. } => 0,
        Phase::Ready => 1,
        Phase::Closed => 2,
    }
}

/// Phases only move forward, from the handshake to a connection that is up and on to one
/// that is closed: a pump goes back to none, and leaves a handshake that it does not bring
/// to its end polled once more. Calls leave the phase as it is.
pub proof fn law_phases_only_move_forward(
    conn: ConnView,
    end: ConnView,
    ok: bool,
    stream_id: u32,
    data: Seq<u8>,
    head: SendExchange,
    end_stream: bool,
    error_code: u32,
    size: usize,
)
    ensures
        conn.pump_leads_to(end, ok) ==> stage(end.phase) >= stage(conn.phase),
        conn.pump_leads_to(end, ok) && conn.phase is Handshaking && end.phase is Handshaking
            ==> end.phase->polls == conn.phase->polls + 1,
        conn.without_events().phase == conn.phase,
        conn.data_queued(stream_id, data, end_stream).phase == conn.phase,
        conn.answering(stream_id).phase == conn.phase,
        conn.answering(stream_id).opened(stream_id, head, end_stream).phase == conn.phase,
        conn.stream_reset(stream_id, error_code).phase == conn.phase,
        conn.acknowledged(stream_id, size).phase == conn.phase,
        conn.shutdown_asked().phase == conn.phase,
{
    if conn.pump_leads_to(end, ok) && ok {
        match conn.phase {
            Phase::Handshaking { polls } => {
                if end != conn.in_phase(Phase::Handshaking { polls: polls + 1 }) {
                    lemma_rounds_move_on(conn.in_phase(Phase::Ready), MAX_ROUNDS as nat, end);
                }
            },
            Phase::Ready => {
                lemma_rounds_move_on(conn, MAX_ROUNDS as nat, end);
            },
            Phase::Closed => {},
        }
    }
}

/// So many rounds, each of which makes progress.
pub open spec fn busy_rounds(conn: ConnView, n: nat, end: ConnView) -> bool
    decreases n,
{
    if n == 0 {
        end == conn
    } else {
        exists|next: ConnView| #[trigger]
            conn.round_leads_to(next, true) && busy_rounds(next, (n - 1) as nat, end)
    }
}

/// Rounds end with one that makes no progress, unless all of them make progress.
pub proof fn law_rounds_end_quietly(conn: ConnView, n: nat, end: ConnView)
    requires
        conn.rounds_lead_to(n, end),
    ensures
        busy_rounds(conn, n, end) || exists|last: ConnView| #[trigger] last.round_leads_to(end, false),
    decreases n,
{
    if n > 0 {
        let (next, progress) = choose|next: ConnView, progress: bool| #[trigger]
            conn.round_leads_to(next, progress) && if progress {
                next.rounds_lead_to((n - 1) as nat, end)
            } else {
                end == next
            };
        if progress {
            law_rounds_end_quietly(next, (n - 1) as nat, end);
        }
    }
}

// ---------------------------------------------------------------------------
// What the caller asks for
// ---------------------------------------------------------------------------

/// The calls that change a connection do so without the peer: none of them brings an
/// event, and none moves a closed connection.
pub proof fn law_calls_bring_no_events(
    conn: ConnView,
    stream_id: u32,
    data: Seq<u8>,
    head: SendExchange,
    end_stream: bool,
    number: u32,
    size: usize,
)
    ensures
        conn.data_queued(stream_id, data, end_stream).events == conn.events,
        conn.answering(stream_id).opened(stream_id, head, end_stream).events == conn.events,
        conn.stream_reset(stream_id, number).events == conn.events,
        conn.acknowledged(stream_id, size).events == conn.events,
        conn.shutdown_asked().events == conn.events,
        conn.phase is Closed ==> {
            &&& conn.data_queued(stream_id, data, end_stream).phase is Closed
            &&& conn.answering(stream_id).opened(stream_id, head, end_stream).phase is Closed
            &&& conn.stream_reset(stream_id, number).phase is Closed
            &&& conn.acknowledged(stream_id, size).phase is Closed
            &&& conn.shutdown_asked() == conn
        },
{
}

/// A request is answered once: however an attempt to answer it ends, it no longer waits
/// for an answer. A pump makes a stream on which none waits one on which one does only
/// by a new request on it.
pub proof fn law_requests_are_answered_once(
    conn: ConnView,
    stream_id: u32,
    head: SendExchange,
    end_stream: bool,
    end: ConnView,
    ok: bool,
)
    ensures
        !conn.answering(stream_id).responders.contains(stream_id),
        !conn.answering(stream_id).opened(stream_id, head, end_stream).responders.contains(
            stream_id,
        ),
        conn.pump_leads_to(end, ok) && !conn.responders.contains(stream_id)
            && end.responders.contains(stream_id) ==> requested(
            new_events(conn.events, end.events),
        ).contains(stream_id),
{
    if conn.pump_leads_to(end, ok) {
        law_pump_is_in_order(conn, end, ok);
    }
}

/// Nothing of a stream is left after a reset, its sending half has been told of the
/// error code as the last thing, what was unacknowledged has been given back, and no pump
/// hands over anything on it.
pub proof fn law_reset_forgets_the_stream(
    conn: ConnView,
    stream_id: u32,
    error_code: u32,
    end: ConnView,
    ok: bool,
)
    requires
        conn.stream_reset(stream_id, error_code).pump_leads_to(end, ok),
    ensures
        ({
            let reset = conn.stream_reset(stream_id, error_code);
            &&& !reset.recv.contains_key(stream_id)
            &&& !reset.responders.contains(stream_id)
            &&& !reset.send.contains_key(stream_id)
            &&& !reset.pending.contains_key(stream_id)
            &&& conn.send.contains_key(stream_id) ==> reset.past_send.last() == (
                stream_id,
                conn.send[stream_id].push(SendExchange::Reset(error_code)),
            )
            &&& conn.recv.contains_key(stream_id) ==> reset.past_recv.last() == (
                stream_id,
                settled(conn.recv[stream_id]),
            )
        }),
        !end.send.contains_key(stream_id),
        !end.pending.contains_key(stream_id),
{
    let reset = conn.stream_reset(stream_id, error_code);
    law_pump_is_in_order(reset, end, ok);
    assert(stream_kept(reset, end, stream_id));
}

/// A flush in which a sending half is told of room only leaves nothing to wait there.
proof fn lemma_flush_drains(conn: ConnView, end: ConnView, sent: bool, stream_id: u32)
    requires
        conn.flush_leads_to(end, sent),
        conn.sendable(stream_id),
        conn.pending[stream_id].len() == 0 || only_room(conn.send[stream_id], end.send[stream_id]),
    ensures
        end.sendable(stream_id),
        end.pending[stream_id].len() == 0,
{
    let (order, rooms) = choose|order: Seq<u32>, rooms: Seq<Seq<Room>>| #[trigger]
        conn.flush_answers(order, rooms) && end == conn.flushed(order, rooms) && sent
            == conn.flush_sends(order, rooms);
    lemma_flush_moves_on(conn, end, sent);
    assert(stream_kept(conn, end, stream_id));
    assert(order.to_set().contains(stream_id));
    let i = choose|i: int| 0 <= i < order.len() && order[i] == stream_id;
    lemma_flush_here(conn, order, rooms, i);
    let start = conn.sending(stream_id);
    if start.queue.len() == 0 {
        lemma_idle_flush(start, rooms[i]);
    } else {
        lemma_answers_were_room(start, rooms[i]);
        law_with_room_all_goes_out(start, rooms[i]);
    }
}

proof fn lemma_rounds_drain(conn: ConnView, n: nat, end: ConnView, stream_id: u32)
    requires
        conn.rounds_lead_to(n, end),
        conn.sendable(stream_id),
        conn.pending[stream_id].len() == 0 || n > 0 && only_room(
            conn.send[stream_id],
            end.send[stream_id],
        ),
    ensures
        end.pending[stream_id].len() == 0,
    decreases n,
{
    if n > 0 {
        let (next, progress) = choose|next: ConnView, progress: bool| #[trigger]
            conn.round_leads_to(next, progress) && if progress {
                next.rounds_lead_to((n - 1) as nat, end)
            } else {
                end == next
            };
        let (mid, sent) = choose|mid: ConnView, sent: bool|
            #![trigger conn.drive_leads_to(mid), mid.flush_leads_to(next, sent)]
            {
                &&& conn.drive_leads_to(mid)
                &&& mid.flush_leads_to(next, sent)
                &&& progress == (mid.events.len() != conn.events.len() || sent)
            };
        lemma_drive_moves_on(conn, mid);
        lemma_flush_moves_on(mid, next, sent);
        assert(stream_kept(mid, next, stream_id));
        if progress {
            lemma_rounds_move_on(next, (n - 1) as nat, end);
            assert(stream_kept(next, end, stream_id));
        }
        if only_room(conn.send[stream_id], end.send[stream_id]) {
            assert(only_room(mid.send[stream_id], next.send[stream_id])) by {
                assert forall|i: int|
                    #![trigger next.send[stream_id][i]]
                    mid.send[stream_id].len() <= i < next.send[stream_id].len() implies (
                next.send[stream_id][i] matches SendExchange::Told(room) ==> room is Bytes) by {
                    assert(end.send[stream_id][i] == next.send[stream_id][i]);
                }
            }
        }
        lemma_flush_drains(mid, next, sent, stream_id);
        if progress {
            lemma_rounds_drain(next, (n - 1) as nat, end, stream_id);
        }
    }
}

/// A pump of a connection that is up, in which the sending half of a stream is told of
/// room only, hands over all that waits there.
pub proof fn law_with_room_a_pump_sends_all(conn: ConnView, end: ConnView, ok: bool, stream_id: u32)
    requires
        conn.phase is Ready,
        conn.sendable(stream_id),
        conn.pump_leads_to(end, ok),
        only_room(conn.send[stream_id], end.send[stream_id]),
    ensures
        handed(end.send[stream_id]) == body(conn.sending(stream_id)),
        end.pending[stream_id].len() == 0,
{
    lemma_rounds_drain(conn, MAX_ROUNDS as nat, end, stream_id);
    lemma_rounds_move_on(conn, MAX_ROUNDS as nat, end);
    assert(stream_kept(conn, end, stream_id));
    assert(body(end.sending(stream_id)) =~= handed(end.send[stream_id]));
}

/// A request is answered by a head and a chunk: once the head is sent and the chunk is
/// queued as the last one, the next pump hands over the head, and after it the chunk with
/// the end of the stream, as long as there is room. Nothing waits any more.
pub proof fn law_an_answer_goes_out(
    conn: ConnView,
    stream_id: u32,
    code: u16,
    headers: Seq<(Seq<u8>, Seq<u8>)>,
    data: Seq<u8>,
    end: ConnView,
    ok: bool,
)
    requires
        conn.phase is Ready,
        !conn.pending.contains_key(stream_id),
        conn.answering(stream_id).opened(
            stream_id,
            ConnView::head_sent(code, headers, false),
            false,
        ).data_queued(stream_id, data, true).pump_leads_to(end, ok),
        only_room(seq![ConnView::head_sent(code, headers, false)], end.send[stream_id]),
    ensures
        ok,
        end.send[stream_id].len() > 0,
        end.send[stream_id][0] == ConnView::head_sent(code, headers, false),
        handed(end.send[stream_id]) == units(data, true),
        end.pending[stream_id].len() == 0,
{
    let head = ConnView::head_sent(code, headers, false);
    let asked = conn.answering(stream_id).opened(stream_id, head, false).data_queued(
        stream_id,
        data,
        true,
    );
    let start = asked.sending(stream_id);
    assert(start.log =~= seq![head]);
    law_with_room_a_pump_sends_all(asked, end, ok, stream_id);
    law_pump_is_in_order(asked, end, ok);
    assert(stream_kept(asked, end, stream_id));
    assert(end.send[stream_id][0] == start.log[0]);
    assert(start.queue =~= seq![(data, true)]);
    assert(start.queue.skip(1) =~= Seq::empty());
    assert(start.log.drop_last() =~= Seq::empty());
    reveal_with_fuel(handed, 2);
    reveal_with_fuel(waiting, 2);
    assert(body(start) =~= units(data, true));
}

// ---------------------------------------------------------------------------
// The windows for data of the peer
// ---------------------------------------------------------------------------

/// The width that a connection has last been told to keep its window.
pub open spec fn window_told(link: Seq<LinkExchange>) -> nat
    decreases link.len(),
{
    if link.len() == 0 {
        BASE_WINDOW as nat
    } else {
        match link.last() {
            LinkExchange::Window(size) => size as nat,
            _ => window_told(link.drop_last()),
        }
    }
}

/// Data that is reported is given back to the window of the connection at once, and not to
/// that of its stream: it is unacknowledged there, nothing is given back through the
/// receiving half, and the connection is told to keep its window as wide as if the data did
/// not count.
pub proof fn law_reported_data_reopens_the_connection(
    conn: ConnView,
    stream_id: u32,
    replies: Seq<BodyReply>,
)
    requires
        conn.phase is Ready,
        conn.recv.dom().finite(),
        conn.recv.contains_key(stream_id),
        read_answers(replies),
        replies.last().keeps_stream(),
        window_told(conn.link) == window_for(owed_on(conn.recv)),
        unacknowledged(conn.recv[stream_id]) + bytes_reported(
            new_events(conn.events, conn.body_read(stream_id, replies).events),
        ) <= MAX_WINDOW,
    ensures
        ({
            let now = conn.body_read(stream_id, replies);
            let bytes = bytes_reported(new_events(conn.events, now.events));
            &&& window_told(now.link) == window_for(owed_on(conn.recv) + bytes)
            &&& owed_on(now.recv) == owed_on(conn.recv) + bytes
            &&& given_back(now.recv[stream_id]) == given_back(conn.recv[stream_id])
            &&& unacknowledged(now.recv[stream_id]) == unacknowledged(conn.recv[stream_id]) + bytes
        }),
{
    let start = Receiving { log: conn.recv[stream_id], events: conn.events };
    law_reading_waits_for_acknowledgement(start, stream_id, replies);
    lemma_owed_with(conn.recv, stream_id, start.read(stream_id, replies).log);
}

/// An acknowledgement refills the window of the stream by just as many bytes, as long as so
/// many are unacknowledged there. The connection, which had them back already, is told to
/// keep its window as wide as the bytes that are still unacknowledged ask for. One of more
/// bytes changes nothing.
pub proof fn law_acknowledging_refills_the_stream(conn: ConnView, stream_id: u32, size: usize)
    requires
        conn.recv.dom().finite(),
        conn.recv.contains_key(stream_id),
    ensures
        ({
            let now = conn.acknowledged(stream_id, size);
            if size <= unacknowledged(conn.recv[stream_id]) {
                &&& given_back(now.recv[stream_id]) == given_back(conn.recv[stream_id]).push(size)
                &&& unacknowledged(now.recv[stream_id]) == unacknowledged(conn.recv[stream_id]) - size
                &&& owed_on(now.recv) == owed_on(conn.recv) - size
                &&& conn.phase is Ready && window_told(conn.link) == window_for(owed_on(conn.recv))
                    ==> window_told(now.link) == window_for((owed_on(conn.recv) - size) as nat)
            } else {
                now == conn
            }
        }),
{
    let log = conn.recv[stream_id];
    lemma_unacknowledged(log, RecvExchange::Release(size));
    assert(log.push(RecvExchange::Release(size)).drop_last() =~= log);
    lemma_owed_with(conn.recv, stream_id, log.push(RecvExchange::Release(size)));
}

// ---------------------------------------------------------------------------
// What every call leaves alone
// ---------------------------------------------------------------------------

/// What is asked for on one stream leaves every other stream as it is.
pub proof fn law_streams_stay_apart(
    conn: ConnView,
    stream_id: u32,
    other: u32,
    data: Seq<u8>,
    head: SendExchange,
    end_stream: bool,
    error_code: u32,
    size: usize,
)
    requires
        other != stream_id,
    ensures
        same_on(conn, conn.data_queued(stream_id, data, end_stream), other),
        same_on(conn, conn.answering(stream_id).opened(stream_id, head, end_stream), other),
        same_on(conn, conn.stream_reset(stream_id, error_code), other),
        same_on(conn, conn.acknowledged(stream_id, size), other),
{
}

/// A stream is the same in two states of a connection.
pub open spec fn same_on(a: ConnView, b: ConnView, stream_id: u32) -> bool {
    &&& a.recv.contains_key(stream_id) == b.recv.contains_key(stream_id)
    &&& a.recv[stream_id] == b.recv[stream_id]
    &&& a.responders.contains(stream_id) == b.responders.contains(stream_id)
    &&& a.send.contains_key(stream_id) == b.send.contains_key(stream_id)
    &&& a.send[stream_id] == b.send[stream_id]
    &&& a.pending.contains_key(stream_id) == b.pending.contains_key(stream_id)
    &&& a.pending[stream_id] == b.pending[stream_id]
}

/// The first thing on every open sending half is the head of a response that goes on.
pub open spec fn heads_first(conn: ConnView) -> bool {
    forall|stream_id: u32| #[trigger]
        conn.send.contains_key(stream_id) ==> conn.send[stream_id].len() > 0 && is_open_head(
            conn.send[stream_id][0],
        )
}

/// The head of a response that goes on after it.
pub open spec fn is_open_head(exchange: SendExchange) -> bool {
    exchange matches SendExchange::Head { end_stream, .. } && !end_stream
}

/// No body data goes out before the head of the response: on every open sending half the
/// head comes first. That holds of a fresh connection, and pumps and calls keep it so.
pub proof fn law_head_goes_first(
    conn: ConnView,
    end: ConnView,
    ok: bool,
    stream_id: u32,
    data: Seq<u8>,
    head: SendExchange,
    end_stream: bool,
    error_code: u32,
    size: usize,
)
    requires
        heads_first(conn),
    ensures
        heads_first(ConnView::fresh()),
        conn.pump_leads_to(end, ok) ==> heads_first(end),
        conn.pump_leads_to(end, ok) ==> heads_first(end.without_events()),
        heads_first(conn.data_queued(stream_id, data, end_stream)),
        heads_first(conn.answering(stream_id)),
        (!end_stream ==> is_open_head(head)) ==> heads_first(
            conn.answering(stream_id).opened(stream_id, head, end_stream),
        ),
        heads_first(conn.stream_reset(stream_id, error_code)),
        heads_first(conn.acknowledged(stream_id, size)),
        heads_first(conn.shutdown_asked()),
{
    if conn.pump_leads_to(end, ok) {
        law_pump_is_in_order(conn, end, ok);
        assert forall|id: u32| #[trigger] end.send.contains_key(id) implies end.send[id].len() > 0
            && is_open_head(end.send[id][0]) by {
            assert(stream_kept(conn, end, id));
            assert(conn.send.contains_key(id));
        }
    }
}

/// On no sending half, open or let go, have more bytes of the body been handed over than
/// there was room told of.
pub open spec fn flow_respected(conn: ConnView) -> bool {
    &&& forall|stream_id: u32| #[trigger]
        conn.send.contains_key(stream_id) ==> bytes_handed(conn.send[stream_id]) <= room_told(
            conn.send[stream_id],
        )
    &&& forall|i: int|
        #![trigger conn.past_send[i]]
        0 <= i < conn.past_send.len() ==> bytes_handed(conn.past_send[i].1) <= room_told(
            conn.past_send[i].1,
        )
}

proof fn lemma_letting_go_respects_flow(conn: ConnView, stream_id: u32)
    requires
        flow_respected(conn),
    ensures
        flow_respected(conn.send_retired(stream_id)),
{
}

/// The peer's flow control is respected: no stream is given more bytes of the body than
/// there was room told of. That holds of a fresh connection, and pumps and calls keep it
/// so.
pub proof fn law_flow_control_is_respected(
    conn: ConnView,
    end: ConnView,
    ok: bool,
    stream_id: u32,
    data: Seq<u8>,
    head: SendExchange,
    end_stream: bool,
    error_code: u32,
    size: usize,
)
    requires
        flow_respected(conn),
        head is Head,
    ensures
        flow_respected(ConnView::fresh()),
        conn.pump_leads_to(end, ok) ==> flow_respected(end),
        conn.pump_leads_to(end, ok) ==> flow_respected(end.without_events()),
        flow_respected(conn.data_queued(stream_id, data, end_stream)),
        flow_respected(conn.answering(stream_id)),
        flow_respected(conn.answering(stream_id).opened(stream_id, head, end_stream)),
        flow_respected(conn.stream_reset(stream_id, error_code)),
        flow_respected(conn.acknowledged(stream_id, size)),
        flow_respected(conn.shutdown_asked()),
{
    if conn.pump_leads_to(end, ok) {
        law_pump_is_in_order(conn, end, ok);
        assert forall|id: u32| #[trigger] end.send.contains_key(id) implies bytes_handed(end.send[id])
            <= room_told(end.send[id]) by {
            assert(stream_kept(conn, end, id));
            assert(conn.send.contains_key(id));
        }
    }
    reveal_with_fuel(bytes_handed, 2);
    assert(seq![head].drop_last() =~= Seq::empty());
    lemma_letting_go_respects_flow(conn.answering(stream_id), stream_id);
    let reset = SendExchange::Reset(error_code);
    assert(conn.send[stream_id].push(reset).drop_last() =~= conn.send[stream_id]);
    lemma_letting_go_respects_flow(conn.send_said(stream_id, reset), stream_id);
}

// ---------------------------------------------------------------------------
// Message heads
// ---------------------------------------------------------------------------

/// The header list of a request starts with the pseudo-headers: the method first, the
/// path last, and nothing but pseudo-headers between. The fields follow as they are.
pub proof fn law_pseudo_headers_come_first(head: HeadView)
    ensures
        ({
            let list = head.header_list();
            let n = head.pseudo_headers().len() as int;
            &&& 2 <= n <= 4
            &&& list[0] == (ascii(":method"@), head.method)
            &&& list[n - 1] == (ascii(":path"@), head.path_or_root())
            &&& forall|i: int| 0 <= i < n ==> is_pseudo((#[trigger] list[i]).0)
            &&& list.skip(n) == head.fields
        }),
{
    reveal_strlit(":method");
    reveal_strlit(":scheme");
    reveal_strlit(":authority");
    reveal_strlit(":path");
    let list = head.header_list();
    let n = head.pseudo_headers().len() as int;
    assert(list.skip(n) =~= head.fields);
}

/// The `:status` pseudo-header in the header list of a response supplies its status code,
/// and where there is none the argument does.
pub proof fn law_status_comes_from_the_list(
    status: u16,
    front: Seq<(Seq<u8>, Seq<u8>)>,
    value: Seq<u8>,
    back: Seq<(Seq<u8>, Seq<u8>)>,
)
    requires
        valid_status(status),
        given_status(front) is None,
    ensures
        head_status(status, front) == Some(status),
        head_status(status, front.push((ascii(":status"@), value)) + back) == status_code(value),
{
    lemma_status_given(front, value, back);
}

proof fn lemma_status_given(
    front: Seq<(Seq<u8>, Seq<u8>)>,
    value: Seq<u8>,
    back: Seq<(Seq<u8>, Seq<u8>)>,
)
    requires
        given_status(front) is None,
    ensures
        given_status(front.push((ascii(":status"@), value)) + back) == Some(value),
    decreases back.len(),
{
    let list = front.push((ascii(":status"@), value)) + back;
    if back.len() == 0 {
        assert(list.drop_last() =~= front);
    } else {
        lemma_status_given(front, value, back.drop_last());
        assert(list.drop_last() =~= front.push((ascii(":status"@), value)) + back.drop_last());
    }
}

/// Pseudo-headers in the header list of a response make no difference to its fields, nor
/// to whether a field is at fault. Those other than `:status` make none to the status code
/// either.
pub proof fn law_pseudo_headers_are_passed_over(
    front: Seq<(Seq<u8>, Seq<u8>)>,
    pseudo: (Seq<u8>, Seq<u8>),
    back: Seq<(Seq<u8>, Seq<u8>)>,
)
    requires
        is_pseudo(pseudo.0),
    ensures
        response_fields(front.push(pseudo) + back) == response_fields(front + back),
        first_fault(front.push(pseudo) + back) == first_fault(front + back),
        pseudo.0 != ascii(":status"@) ==> given_status(front.push(pseudo) + back) == given_status(
            front + back,
        ),
    decreases back.len(),
{
    let with = front.push(pseudo) + back;
    let without = front + back;
    if back.len() == 0 {
        assert(with =~= front.push(pseudo));
        assert(without =~= front);
        assert(front.push(pseudo).drop_last() =~= front);
        assert(first_fault(front.push(pseudo)) == first_fault(front));
        assert(pseudo.0 != ascii(":status"@) ==> given_status(front.push(pseudo)) == given_status(
            front,
        ));
    } else {
        law_pseudo_headers_are_passed_over(front, pseudo, back.drop_last());
        assert(with.drop_last() =~= front.push(pseudo) + back.drop_last());
        assert(without.drop_last() =~= front + back.drop_last());
        assert(with.last() == back.last() && without.last() == back.last());
    }
}

/// The names of the fields of a response do not depend on capital letters: fields whose
/// names differ only in these are fields of one name.
pub proof fn law_names_ignore_case(name: Seq<u8>)
    ensures
        lower_case(lower_case(name)) == lower_case(name),
        forall|list: Seq<(Seq<u8>, Seq<u8>)>, value: Seq<u8>|
            !is_pseudo(name) ==> #[trigger] response_fields(list.push((name, value)))
                == response_fields(list.push((lower_case(name), value))),
{
    assert(lower_case(lower_case(name)) =~= lower_case(name));
    assert forall|list: Seq<(Seq<u8>, Seq<u8>)>, value: Seq<u8>| !is_pseudo(name) implies #[trigger]
        response_fields(list.push((name, value))) == response_fields(
        list.push((lower_case(name), value)),
    ) by {
        assert(list.push((name, value)).drop_last() =~= list);
        assert(list.push((lower_case(name), value)).drop_last() =~= list);
        assert(!is_pseudo(lower_case(name)));
    }
}

} // verus!
