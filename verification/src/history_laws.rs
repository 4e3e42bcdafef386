//! What holds over any number of calls on one connection.
use crate::connection_laws::{
    law_pump_is_in_order, lemma_rounds_move_on, open_after, orderly, window_told,
};
use crate::event::EventView;
use crate::model::{
    lemma_owed_with, owed_on, settled, window_for, AcceptReply, ConnView, Phase, MAX_ROUNDS,
};
use crate::outside::{AcceptAnswer, LinkExchange, RecvExchange, SendExchange};
use crate::receiving::{lemma_unacknowledged, unacknowledged, BodyReply, Receiving};
use crate::sending::Room;
use crate::stream_laws::new_events;
use vstd::prelude::*;

verus! {

// ---------------------------------------------------------------------------
// Calls
// ---------------------------------------------------------------------------

/// Something that is done to a connection.
pub enum Call {
    /// It is pumped, which leads to `end`.
    Pump { end: ConnView, ok: bool },
    /// The events are handed out.
    TakeEvents,
    /// The head of a response is sent.
    SendHead { stream_id: u32, head: SendExchange, end_stream: bool },
    /// The head of a response is refused on a stream whose request waits.
    RefuseHead { stream_id: u32 },
    /// A piece of a response body is queued.
    SendData { stream_id: u32, data: Seq<u8>, end_stream: bool },
    /// A stream is reset.
    Reset { stream_id: u32, error_code: u32 },
    /// Data is acknowledged.
    Acknowledge { stream_id: u32, size: usize },
    /// A shutdown is asked for.
    Shutdown,
}

impl Call {
    /// The call can be made on the connection, and come out so. A head is sent or refused
    /// only where a request waits for an answer.
    pub open spec fn possible(self, conn: ConnView) -> bool {
        match self {
            Call::Pump { end, ok } => conn.pump_leads_to(end, ok),
            Call::SendHead { stream_id, head, .. } => conn.responders.contains(stream_id) && head is Head,
            Call::RefuseHead { stream_id } => conn.responders.contains(stream_id),
            _ => true,
        }
    }

    /// The call changes what the connection holds, without the peer and without handing
    /// anything out.
    pub open spec fn is_local(self) -> bool {
        !(self is Pump) && !(self is TakeEvents)
    }

    /// The connection after the call.
    pub open spec fn applied(self, conn: ConnView) -> ConnView {
        match self {
            Call::Pump { end, .. } => end,
            Call::TakeEvents => conn.without_events(),
            Call::SendHead { stream_id, head, end_stream } => conn.answering(stream_id).opened(
                stream_id,
                head,
                end_stream,
            ),
            Call::RefuseHead { stream_id } => conn.answering(stream_id),
            Call::SendData { stream_id, data, end_stream } => conn.data_queued(
                stream_id,
                data,
                end_stream,
            ),
            Call::Reset { stream_id, error_code } => conn.stream_reset(stream_id, error_code),
            Call::Acknowledge { stream_id, size } => conn.acknowledged(stream_id, size),
            Call::Shutdown => conn.shutdown_asked(),
        }
    }

    /// The events that the call queues.
    pub open spec fn queues(self, conn: ConnView) -> Seq<EventView> {
        match self {
            Call::Pump { end, .. } => new_events(conn.events, end.events),
            _ => Seq::empty(),
        }
    }
}

/// A connection after some calls.
pub open spec fn after_calls(conn: ConnView, calls: Seq<Call>) -> ConnView
    decreases calls.len(),
{
    if calls.len() == 0 {
        conn
    } else {
        calls.last().applied(after_calls(conn, calls.drop_last()))
    }
}

/// The calls can be made one after the other on a connection, and come out so.
pub open spec fn calls_possible(conn: ConnView, calls: Seq<Call>) -> bool
    decreases calls.len(),
{
    calls.len() == 0 || {
        &&& calls_possible(conn, calls.drop_last())
        &&& calls.last().possible(after_calls(conn, calls.drop_last()))
    }
}

/// All events that some calls on a connection ever queue, in order.
pub open spec fn events_ever(conn: ConnView, calls: Seq<Call>) -> Seq<EventView>
    decreases calls.len(),
{
    if calls.len() == 0 {
        Seq::empty()
    } else {
        events_ever(conn, calls.drop_last()) + calls.last().queues(
            after_calls(conn, calls.drop_last()),
        )
    }
}

// ---------------------------------------------------------------------------
// Bursts of calls
// ---------------------------------------------------------------------------

/// What a connection has answered to the question for new streams, in order.
pub open spec fn answers_given(link: Seq<LinkExchange>) -> Seq<AcceptAnswer>
    decreases link.len(),
{
    if link.len() == 0 {
        Seq::empty()
    } else {
        match link.last() {
            LinkExchange::Accept(answer) => answers_given(link.drop_last()).push(answer),
            _ => answers_given(link.drop_last()),
        }
    }
}

pub(crate) proof fn lemma_windows_ask_nothing(conn: ConnView, before: nat)
    ensures
        answers_given(conn.windowed(before).link) == answers_given(conn.link),
{
    let told = LinkExchange::Window(window_for(owed_on(conn.recv)) as u32);
    assert(conn.link.push(told).drop_last() =~= conn.link);
}

/// A burst of calls changes only what the connection holds: it brings no events, and
/// however long it is, the connection is not asked for anything until the next pump.
pub proof fn law_a_burst_asks_nothing(conn: ConnView, calls: Seq<Call>)
    requires
        forall|i: int| 0 <= i < calls.len() ==> (#[trigger] calls[i]).is_local(),
    ensures
        after_calls(conn, calls).events == conn.events,
        events_ever(conn, calls) == Seq::<EventView>::empty(),
        after_calls(conn, calls).phase == conn.phase,
        answers_given(after_calls(conn, calls).link) == answers_given(conn.link),
    decreases calls.len(),
{
    if calls.len() > 0 {
        let front = calls.drop_last();
        assert forall|i: int| 0 <= i < front.len() implies (#[trigger] front[i]).is_local() by {
            assert(front[i] == calls[i]);
        }
        law_a_burst_asks_nothing(conn, front);
        let before = after_calls(conn, front);
        assert(calls.last() == calls[calls.len() - 1]);
        assert(events_ever(conn, calls) =~= Seq::<EventView>::empty());
        match calls.last() {
            Call::Reset { stream_id, error_code } => {
                let told = before.send_said(stream_id, SendExchange::Reset(error_code)).send_retired(
                    stream_id,
                );
                let free = ConnView {
                    recv: told.recv.remove(stream_id),
                    past_recv: told.past_recv.push((stream_id, settled(told.recv[stream_id]))),
                    ..told
                };
                lemma_windows_ask_nothing(free, owed_on(told.recv));
            },
            Call::Acknowledge { stream_id, size } => {
                let freed = ConnView {
                    recv: before.recv.insert(
                        stream_id,
                        before.recv[stream_id].push(RecvExchange::Release(size)),
                    ),
                    ..before
                };
                lemma_windows_ask_nothing(freed, owed_on(before.recv));
            },
            Call::Shutdown => {
                assert(before.link.push(LinkExchange::Shutdown).drop_last() =~= before.link);
            },
            _ => {},
        }
    }
}

// ---------------------------------------------------------------------------
// The life of a stream
// ---------------------------------------------------------------------------

/// How often some events bring a request on a stream.
pub open spec fn times_requested(events: Seq<EventView>, id: u32) -> nat
    decreases events.len(),
{
    if events.len() == 0 {
        0
    } else {
        let before = times_requested(events.drop_last(), id);
        match events.last() {
            EventView::Request { stream_id, .. } => if stream_id == id {
                before + 1
            } else {
                before
            },
            _ => before,
        }
    }
}

/// The event is the end or the reset of a stream.
pub open spec fn closes(event: EventView, id: u32) -> bool {
    match event {
        EventView::Ended { stream_id } => stream_id == id,
        EventView::Reset { stream_id, .. } => stream_id == id,
        _ => false,
    }
}

/// The event tells of the body of a stream: of a piece of it, or of its end or reset.
pub open spec fn tells_of_body(event: EventView, id: u32) -> bool {
    ||| closes(event, id)
    ||| event matches EventView::Data { stream_id, .. } && stream_id == id
}

/// After the end or the reset of a stream nothing more is told of its body: there is no
/// second end or reset, and no data.
pub open spec fn closed_for_good(events: Seq<EventView>, id: u32) -> bool {
    forall|i: int, j: int|
        #![trigger events[i], events[j]]
        0 <= i < j < events.len() && closes(events[i], id) ==> !tells_of_body(events[j], id)
}

/// No event closes the stream.
spec fn never_closed(events: Seq<EventView>, id: u32) -> bool {
    forall|i: int| 0 <= i < events.len() ==> !closes(#[trigger] events[i], id)
}

/// What holds of the events so far and of the open receiving halves, as long as the stream
/// has been requested once at most.
spec fn in_life(events: Seq<EventView>, open: Set<u32>, id: u32) -> bool {
    &&& times_requested(events, id) == 0 ==> !open.contains(id) && never_closed(events, id)
    &&& times_requested(events, id) <= 1 ==> closed_for_good(events, id)
    &&& times_requested(events, id) <= 1 && open.contains(id) ==> never_closed(events, id)
}

proof fn lemma_life_goes_on(events: Seq<EventView>, open: Set<u32>, more: Seq<EventView>, id: u32)
    requires
        in_life(events, open, id),
        orderly(open, more),
    ensures
        in_life(events + more, open_after(open, more), id),
        times_requested(events + more, id) >= times_requested(events, id),
    decreases more.len(),
{
    if more.len() == 0 {
        assert(events + more =~= events);
    } else {
        let front = more.drop_last();
        lemma_life_goes_on(events, open, front, id);
        let before = events + front;
        let now = events + more;
        assert(now.drop_last() =~= before);
        assert(now.last() == more.last());
        assert(forall|i: int| 0 <= i < before.len() ==> now[i] == before[i]);
        let event = more.last();
        if times_requested(now, id) <= 1 {
            if tells_of_body(event, id) {
                assert(open_after(open, front).contains(id));
                assert(never_closed(before, id));
            }
            assert forall|i: int, j: int|
                #![trigger now[i], now[j]]
                0 <= i < j < now.len() && closes(now[i], id) implies !tells_of_body(now[j], id) by {
                if j < before.len() {
                    assert(closes(before[i], id) && !tells_of_body(before[j], id));
                } else {
                    assert(closes(before[i], id));
                }
            }
            if open_after(open, more).contains(id) || times_requested(now, id) == 0 {
                assert(never_closed(before, id));
                assert forall|i: int| 0 <= i < now.len() implies !closes(#[trigger] now[i], id) by {
                    if i < before.len() {
                        assert(!closes(before[i], id));
                    }
                }
            }
        }
    }
}

proof fn lemma_life(calls: Seq<Call>, id: u32)
    requires
        calls_possible(ConnView::fresh(), calls),
    ensures
        in_life(events_ever(ConnView::fresh(), calls), after_calls(ConnView::fresh(), calls).recv.dom(), id),
    decreases calls.len(),
{
    if calls.len() > 0 {
        let front = calls.drop_last();
        lemma_life(front, id);
        let before = after_calls(ConnView::fresh(), front);
        let now = after_calls(ConnView::fresh(), calls);
        match calls.last() {
            Call::Pump { end, ok } => {
                law_pump_is_in_order(before, end, ok);
                lemma_life_goes_on(
                    events_ever(ConnView::fresh(), front),
                    before.recv.dom(),
                    new_events(before.events, end.events),
                    id,
                );
            },
            _ => {
                assert(events_ever(ConnView::fresh(), calls) =~= events_ever(ConnView::fresh(), front));
                assert(now.recv.dom().subset_of(before.recv.dom()));
            },
        }
    }
}

/// A stream ends once: over all events that any calls on a connection ever queue, resets
/// among the calls, a stream that is accepted at most once has at most one end or reset,
/// and no data after it.
pub proof fn law_a_stream_ends_once(calls: Seq<Call>, id: u32)
    requires
        calls_possible(ConnView::fresh(), calls),
        times_requested(events_ever(ConnView::fresh(), calls), id) <= 1,
    ensures
        closed_for_good(events_ever(ConnView::fresh(), calls), id),
{
    lemma_life(calls, id);
}

/// A receiving half is let go with the end or the reset of its stream, and by no other
/// event: in a pump, the half of a stream that was open, and on which no new request
/// comes, is there at the end exactly when no event of the pump closes the stream.
pub proof fn law_a_half_goes_with_its_last_event(conn: ConnView, end: ConnView, ok: bool, id: u32)
    requires
        conn.pump_leads_to(end, ok),
        conn.recv.contains_key(id),
        times_requested(new_events(conn.events, end.events), id) == 0,
    ensures
        end.recv.contains_key(id) <==> forall|i: int|
            0 <= i < new_events(conn.events, end.events).len() ==> !closes(
                #[trigger] new_events(conn.events, end.events)[i],
                id,
            ),
{
    law_pump_is_in_order(conn, end, ok);
    lemma_open_until_closed(conn.recv.dom(), new_events(conn.events, end.events), id);
    assert(end.recv.contains_key(id) == end.recv.dom().contains(id));
}

proof fn lemma_open_until_closed(open: Set<u32>, events: Seq<EventView>, id: u32)
    requires
        open.contains(id),
        times_requested(events, id) == 0,
    ensures
        open_after(open, events).contains(id) <==> never_closed(events, id),
    decreases events.len(),
{
    if events.len() > 0 {
        let front = events.drop_last();
        lemma_open_until_closed(open, front, id);
        assert(forall|i: int| 0 <= i < front.len() ==> front[i] == events[i]);
        assert(events.last() == events[events.len() - 1]);
        if never_closed(events, id) {
            assert forall|i: int| 0 <= i < front.len() implies !closes(#[trigger] front[i], id) by {
                assert(!closes(events[i], id));
            }
        } else if never_closed(front, id) {
            let i = choose|i: int| 0 <= i < events.len() && closes(#[trigger] events[i], id);
            if i < front.len() {
                assert(closes(front[i], id));
            }
        } else {
            let i = choose|i: int| 0 <= i < front.len() && closes(#[trigger] front[i], id);
            assert(closes(events[i], id));
        }
    }
}

// ---------------------------------------------------------------------------
// What holds after any calls
// ---------------------------------------------------------------------------

/// Before the end of the handshake there are no streams, and nothing to report.
pub open spec fn nothing_yet(conn: ConnView) -> bool {
    &&& conn.events.len() == 0
    &&& conn.recv.dom() == Set::<u32>::empty()
    &&& conn.responders == Set::<u32>::empty()
    &&& conn.send.dom() == Set::<u32>::empty()
    &&& conn.past_recv.len() == 0
    &&& conn.past_send.len() == 0
}

/// The windows are in step: a connection that is up has been told to keep its window as
/// wide as what is unacknowledged on its open streams asks for, and on every receiving half
/// that has been let go all that was reported has been given back.
pub open spec fn windows_in_step(conn: ConnView) -> bool {
    &&& conn.recv.dom().finite()
    &&& conn.phase is Ready ==> window_told(conn.link) == window_for(owed_on(conn.recv))
    &&& forall|i: int|
        #![trigger conn.past_recv[i]]
        0 <= i < conn.past_recv.len() ==> unacknowledged(conn.past_recv[i].1) == 0
}

/// Being told of the window brings the windows in step.
proof fn lemma_told_in_step(before: ConnView, now: ConnView)
    requires
        windows_in_step(before),
        now.phase == before.phase,
        now.link == before.link,
        now.recv.dom().finite(),
        forall|i: int|
            #![trigger now.past_recv[i]]
            0 <= i < now.past_recv.len() ==> unacknowledged(now.past_recv[i].1) == 0,
    ensures
        windows_in_step(now.windowed(owed_on(before.recv))),
{
}

proof fn lemma_letting_go_in_step(conn: ConnView, stream_id: u32)
    requires
        windows_in_step(conn),
    ensures
        windows_in_step(conn.recv_retired(stream_id)),
{
    if conn.recv.contains_key(stream_id) {
        let log = conn.recv[stream_id];
        lemma_unacknowledged(log, RecvExchange::Release(unacknowledged(log) as usize));
        let free = ConnView {
            recv: conn.recv.remove(stream_id),
            past_recv: conn.past_recv.push((stream_id, settled(log))),
            ..conn
        };
        lemma_told_in_step(conn, free);
    }
}

proof fn lemma_accepting_in_step(conn: ConnView, replies: Seq<AcceptReply>)
    requires
        windows_in_step(conn),
    ensures
        windows_in_step(conn.accepted_all(replies)),
    decreases replies.len(),
{
    if replies.len() > 0 {
        lemma_accepting_in_step(conn, replies.drop_last());
        let before = conn.accepted_all(replies.drop_last());
        let exchange = LinkExchange::Accept(replies.last().answer());
        let asked = before.link_said(exchange);
        assert(asked.link.drop_last() =~= before.link);
        assert(windows_in_step(asked));
        if let AcceptReply::Stream { stream_id, stream_ended, .. } = replies.last() {
            lemma_letting_go_in_step(asked, stream_id);
            let free = asked.recv_retired(stream_id);
            let ended = RecvExchange::Ended(stream_ended);
            lemma_unacknowledged(Seq::empty(), ended);
            assert(Seq::empty().push(ended) =~= seq![ended]);
            lemma_owed_with(free.recv, stream_id, seq![ended]);
        }
    }
}

proof fn lemma_body_in_step(conn: ConnView, stream_id: u32, replies: Seq<BodyReply>)
    requires
        windows_in_step(conn),
    ensures
        windows_in_step(conn.body_read(stream_id, replies)),
{
    if conn.recv.contains_key(stream_id) {
        let start = Receiving { log: conn.recv[stream_id], events: conn.events };
        let after = start.read(stream_id, replies);
        let read = ConnView {
            recv: conn.recv.insert(stream_id, after.log),
            events: after.events,
            ..conn
        };
        lemma_told_in_step(conn, read);
        lemma_letting_go_in_step(read.windowed(owed_on(conn.recv)), stream_id);
    }
}

proof fn lemma_bodies_in_step(conn: ConnView, order: Seq<u32>, bodies: Seq<Seq<BodyReply>>)
    requires
        windows_in_step(conn),
    ensures
        windows_in_step(conn.bodies_read(order, bodies)),
    decreases order.len(),
{
    if order.len() > 0 {
        lemma_bodies_in_step(conn, order.drop_last(), bodies.drop_last());
        lemma_body_in_step(
            conn.bodies_read(order.drop_last(), bodies.drop_last()),
            order.last(),
            bodies.last(),
        );
    }
}

proof fn lemma_flush_in_step(conn: ConnView, order: Seq<u32>, rooms: Seq<Seq<Room>>)
    requires
        windows_in_step(conn),
    ensures
        windows_in_step(conn.flushed(order, rooms)),
    decreases order.len(),
{
    if order.len() > 0 {
        lemma_flush_in_step(conn, order.drop_last(), rooms.drop_last());
    }
}

proof fn lemma_rounds_in_step(conn: ConnView, n: nat, end: ConnView)
    requires
        windows_in_step(conn),
        conn.rounds_lead_to(n, end),
    ensures
        windows_in_step(end),
    decreases n,
{
    if n > 0 {
        let (next, progress) = choose|next: ConnView, progress: bool| #[trigger]
            conn.round_leads_to(next, progress) && if progress {
                next.rounds_lead_to((n - 1) as nat, end)
            } else {
                end == next
            };
        let (mid, sent) = choose|mid: ConnView, sent: bool|
            #![trigger conn.drive_leads_to(mid), mid.flush_leads_to(next, sent)]
            {
                &&& conn.drive_leads_to(mid)
                &&& mid.flush_leads_to(next, sent)
                &&& progress == (mid.events.len() != conn.events.len() || sent)
            };
        if conn.phase is Ready {
            let (accepts, order, bodies) = choose|
                accepts: Seq<AcceptReply>,
                order: Seq<u32>,
                bodies: Seq<Seq<BodyReply>>,
            | #[trigger]
                conn.drive_answers(accepts, order, bodies) && mid == conn.driven(
                    accepts,
                    order,
                    bodies,
                );
            lemma_accepting_in_step(conn, accepts);
            lemma_bodies_in_step(conn.accepted_all(accepts), order, bodies);
        }
        let (order, rooms) = choose|order: Seq<u32>, rooms: Seq<Seq<Room>>| #[trigger]
            mid.flush_answers(order, rooms) && next == mid.flushed(order, rooms) && sent
                == mid.flush_sends(order, rooms);
        lemma_flush_in_step(mid, order, rooms);
        if progress {
            lemma_rounds_in_step(next, (n - 1) as nat, end);
        }
    }
}

/// What holds after any calls on a fresh connection:
///
/// - Until the handshake has come to its end there are no streams, nothing has been
///   reported, and nothing has been answered.
/// - The windows are in step: what is reported and not acknowledged is given back to the
///   window of the connection, and with the end of a stream to that of the stream.
pub proof fn law_after_any_calls(calls: Seq<Call>)
    requires
        calls_possible(ConnView::fresh(), calls),
    ensures
        after_calls(ConnView::fresh(), calls).phase is Handshaking ==> nothing_yet(
            after_calls(ConnView::fresh(), calls),
        ),
        windows_in_step(after_calls(ConnView::fresh(), calls)),
    decreases calls.len(),
{
    if calls.len() > 0 {
        let front = calls.drop_last();
        law_after_any_calls(front);
        let before = after_calls(ConnView::fresh(), front);
        match calls.last() {
            Call::Pump { end, ok } => {
                match before.phase {
                    Phase::Handshaking { polls } => {
                        let ready = before.in_phase(Phase::Ready);
                        assert(before.recv.dom().len() == 0);
                        assert(windows_in_step(ready));
                        if ok && end != before.in_phase(Phase::Handshaking { polls: polls + 1 }) {
                            lemma_rounds_in_step(ready, MAX_ROUNDS as nat, end);
                            lemma_rounds_move_on(ready, MAX_ROUNDS as nat, end);
                        }
                    },
                    Phase::Ready => {
                        lemma_rounds_in_step(before, MAX_ROUNDS as nat, end);
                        lemma_rounds_move_on(before, MAX_ROUNDS as nat, end);
                    },
                    Phase::Closed => {},
                }
            },
            Call::Reset { stream_id, error_code } => {
                let told = before.send_said(stream_id, SendExchange::Reset(error_code)).send_retired(
                    stream_id,
                );
                lemma_letting_go_in_step(told, stream_id);
                let now = before.stream_reset(stream_id, error_code);
                if before.phase is Handshaking {
                    assert(!before.send.dom().contains(stream_id));
                    assert(!before.recv.dom().contains(stream_id));
                    assert(now.responders =~= before.responders);
                }
            },
            Call::Acknowledge { stream_id, size } => {
                if before.phase is Handshaking {
                    assert(!before.recv.dom().contains(stream_id));
                }
                let freed = ConnView {
                    recv: before.recv.insert(
                        stream_id,
                        before.recv[stream_id].push(RecvExchange::Release(size)),
                    ),
                    ..before
                };
                lemma_told_in_step(before, freed);
            },
            Call::Shutdown => {
                assert(before.link.push(LinkExchange::Shutdown).drop_last() =~= before.link);
            },
            _ => {},
        }
    }
}

} // verus!
