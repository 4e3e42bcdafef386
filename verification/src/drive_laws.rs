//! What a drive of a connection takes in: every new stream is accepted, and every open one
//! is read to the end of what there is.
use crate::call_laws::law_every_new_stream_is_reported;
use crate::connection_laws::{lemma_accepting_moves_on, requested};
use crate::event::EventView;
use crate::history_laws::{answers_given, lemma_windows_ask_nothing};
use crate::model::{owed_on, settled, AcceptReply, ConnView};
use crate::outside::{AcceptAnswer, DataReply, LinkExchange, RecvExchange};
use crate::receiving::{read_answers, BodyReply, Receiving};
use crate::stream_laws::{
    all_events, all_exchanges, law_events_are_those_told, lemma_read_in_all, new_events, told,
};
use vstd::prelude::*;

verus! {

// ---------------------------------------------------------------------------
// Reading one stream
// ---------------------------------------------------------------------------

/// From `before` to `now`, a receiving half has been polled for body data until it had none
/// for now: after every piece of the body it was asked whether the stream has ended and then
/// polled again, the last answer was no piece, and nothing else has passed.
#[verifier::opaque]
pub open spec fn read_in_full(before: Seq<RecvExchange>, now: Seq<RecvExchange>) -> bool {
    &&& before.is_prefix_of(now)
    &&& before.len() < now.len()
    &&& now[before.len() as int] is Data
    &&& forall|i: int|
        #![trigger now[i]]
        before.len() <= i < now.len() ==> match now[i] {
            RecvExchange::Data(DataReply::Chunk(_)) => i + 2 < now.len() && now[i + 1] is Ended && now[i
                + 2] is Data,
            RecvExchange::Data(_) => i == now.len() - 1,
            RecvExchange::Ended(_) => i > before.len() && now[i - 1] is Data,
            RecvExchange::Release(_) => false,
        }
}

proof fn lemma_exchanges_in_full(replies: Seq<BodyReply>)
    requires
        read_answers(replies),
    ensures
        read_in_full(Seq::empty(), all_exchanges(replies)),
        all_exchanges(replies).last() == RecvExchange::Data(
            match replies.last() {
                BodyReply::Chunk { data, .. } => DataReply::Chunk(data),
                BodyReply::Failed { reason } => DataReply::Failed(reason),
                BodyReply::End => DataReply::End,
                BodyReply::Pending => DataReply::Pending,
            },
        ),
    decreases replies.len(),
{
    reveal(read_in_full);
    let rest = replies.skip(1);
    let log = all_exchanges(replies);
    let first = replies[0].exchanges();
    if replies.len() == 1 {
        assert(rest =~= Seq::empty());
        assert(log =~= first);
        assert(replies.last() == replies[0]);
    } else {
        assert(replies[0] is Chunk);
        assert forall|i: int| 0 <= i < rest.len() - 1 implies #[trigger] rest[i] is Chunk by {
            assert(rest[i] == replies[i + 1]);
        }
        assert(rest.last() == replies.last());
        lemma_exchanges_in_full(rest);
        let tail = all_exchanges(rest);
        assert(log =~= first + tail);
        assert forall|i: int| #![trigger log[i]] 0 <= i < log.len() implies match log[i] {
            RecvExchange::Data(DataReply::Chunk(_)) => i + 2 < log.len() && log[i + 1] is Ended && log[i
                + 2] is Data,
            RecvExchange::Data(_) => i == log.len() - 1,
            RecvExchange::Ended(_) => i > 0 && log[i - 1] is Data,
            RecvExchange::Release(_) => false,
        } by {
            if i >= 2 {
                assert(log[i] == tail[i - 2]);
                if i + 1 < log.len() {
                    assert(log[i + 1] == tail[i - 1]);
                }
                if i + 2 < log.len() {
                    assert(log[i + 2] == tail[i]);
                }
                if i >= 3 {
                    assert(log[i - 1] == tail[i - 3]);
                }
            } else {
                assert(log[2] == tail[0]);
            }
        }
        assert(log.last() == tail.last());
    }
}

proof fn lemma_log_in_full(start: Receiving, stream_id: u32, replies: Seq<BodyReply>)
    requires
        read_answers(replies),
    ensures
        read_in_full(start.log, start.read(stream_id, replies).log),
        start.read(stream_id, replies).log.last() == RecvExchange::Data(
            match replies.last() {
                BodyReply::Chunk { data, .. } => DataReply::Chunk(data),
                BodyReply::Failed { reason } => DataReply::Failed(reason),
                BodyReply::End => DataReply::End,
                BodyReply::Pending => DataReply::Pending,
            },
        ),
{
    reveal(read_in_full);
    lemma_read_in_all(start, stream_id, replies);
    lemma_exchanges_in_full(replies);
    let log = start.read(stream_id, replies).log;
    let tail = all_exchanges(replies);
    let n = start.log.len() as int;
    assert(log[n] == tail[0]);
    assert forall|i: int| #![trigger log[i]] n <= i < log.len() implies match log[i] {
        RecvExchange::Data(DataReply::Chunk(_)) => i + 2 < log.len() && log[i + 1] is Ended && log[i + 2]
            is Data,
        RecvExchange::Data(_) => i == log.len() - 1,
        RecvExchange::Ended(_) => i > n && log[i - 1] is Data,
        RecvExchange::Release(_) => false,
    } by {
        assert(log[i] == tail[i - n]);
        if i + 1 < log.len() {
            assert(log[i + 1] == tail[i + 1 - n]);
        }
        if i + 2 < log.len() {
            assert(log[i + 2] == tail[i + 2 - n]);
        }
        if i > n {
            assert(log[i - 1] == tail[i - 1 - n]);
        }
    }
    assert(log.last() == tail.last());
}

/// The event tells of the body of a stream.
pub open spec fn on_body_of(event: EventView, id: u32) -> bool {
    match event {
        EventView::Data { stream_id, .. } => stream_id == id,
        EventView::Ended { stream_id } => stream_id == id,
        EventView::Reset { stream_id, .. } => stream_id == id,
        _ => false,
    }
}

/// The events that tell of the body of a stream, in order.
pub open spec fn body_events(events: Seq<EventView>, id: u32) -> Seq<EventView> {
    events.filter(|event: EventView| on_body_of(event, id))
}

/// The events that tell of new streams and of the end of the connection, in order.
pub open spec fn announcements(events: Seq<EventView>) -> Seq<EventView> {
    events.filter(|event: EventView| event is Request || event is Terminated)
}

proof fn lemma_filters_chain(a: Seq<EventView>, b: Seq<EventView>, id: u32)
    ensures
        body_events(a + b, id) == body_events(a, id) + body_events(b, id),
        announcements(a + b) == announcements(a) + announcements(b),
    decreases b.len(),
{
    reveal(Seq::filter);
    if b.len() == 0 {
        assert(a + b =~= a);
        assert(body_events(a, id) + body_events(b, id) =~= body_events(a, id));
        assert(announcements(a) + announcements(b) =~= announcements(a));
    } else {
        lemma_filters_chain(a, b.drop_last(), id);
        assert((a + b).drop_last() =~= a + b.drop_last());
        assert((a + b).last() == b.last());
        assert(body_events(a + b, id) =~= body_events(a, id) + body_events(b, id));
        assert(announcements(a + b) =~= announcements(a) + announcements(b));
    }
}

proof fn lemma_all_or_none(events: Seq<EventView>, stream_id: u32, id: u32)
    requires
        forall|i: int| 0 <= i < events.len() ==> on_body_of(#[trigger] events[i], stream_id),
    ensures
        id == stream_id ==> body_events(events, id) == events,
        id != stream_id ==> body_events(events, id) == Seq::<EventView>::empty(),
        announcements(events) == Seq::<EventView>::empty(),
    decreases events.len(),
{
    reveal(Seq::filter);
    if events.len() > 0 {
        let front = events.drop_last();
        assert forall|i: int| 0 <= i < front.len() implies on_body_of(#[trigger] front[i], stream_id) by {
            assert(front[i] == events[i]);
        }
        lemma_all_or_none(front, stream_id, id);
        assert(events.last() == events[events.len() - 1]);
        assert(front.push(events.last()) =~= events);
    } else {
        assert(body_events(events, id) =~= events);
    }
}

proof fn lemma_told_of_one_stream(stream_id: u32, replies: Seq<BodyReply>)
    ensures
        forall|i: int|
            0 <= i < all_events(stream_id, replies).len() ==> on_body_of(
                #[trigger] all_events(stream_id, replies)[i],
                stream_id,
            ),
    decreases replies.len(),
{
    if replies.len() > 0 {
        lemma_told_of_one_stream(stream_id, replies.skip(1));
        let first = replies[0].events(stream_id);
        let rest = all_events(stream_id, replies.skip(1));
        assert forall|i: int| 0 <= i < all_events(stream_id, replies).len() implies on_body_of(
            #[trigger] all_events(stream_id, replies)[i],
            stream_id,
        ) by {
            if i >= first.len() {
                assert(all_events(stream_id, replies)[i] == rest[i - first.len()]);
            } else {
                assert(all_events(stream_id, replies)[i] == first[i]);
            }
        }
    }
}

/// The receiving half of a stream has come to `log`: it is still open where the last answer
/// was that there is nothing for now, and otherwise it has been let go since `before`.
pub open spec fn comes_to(before: ConnView, now: ConnView, id: u32, log: Seq<RecvExchange>) -> bool {
    if log.last() == RecvExchange::Data(DataReply::Pending) {
        now.recv.contains_key(id) && now.recv[id] == log
    } else {
        &&& !now.recv.contains_key(id)
        &&& exists|k: int|
            before.past_recv.len() <= k < now.past_recv.len() && #[trigger] now.past_recv[k] == (
                id,
                settled(log),
            )
    }
}

/// The receiving half of a stream, which stood at `start`, has been read in full, and the
/// events on its body are just those that what it was answered asks for.
pub open spec fn read_and_reported(
    before: ConnView,
    now: ConnView,
    id: u32,
    start: Seq<RecvExchange>,
    log: Seq<RecvExchange>,
) -> bool {
    &&& read_in_full(start, log)
    &&& comes_to(before, now, id, log)
    &&& body_events(new_events(before.events, now.events), id) == told(
        id,
        log.skip(start.len() as int),
    )
}

/// Reading a stream whose receiving half is open reads it in full, whatever the rest of the
/// connection looks like: the half is polled until it answers with no piece of the body, and
/// the events on the stream are just those that its answers ask for. Every other stream
/// stays as it is, nothing is announced, and the connection is asked nothing.
pub proof fn law_reading_one_stream(conn: ConnView, stream_id: u32, replies: Seq<BodyReply>, id: u32)
    requires
        read_answers(replies),
    ensures
        ({
            let now = conn.body_read(stream_id, replies);
            let events = new_events(conn.events, now.events);
            &&& conn.events.is_prefix_of(now.events)
            &&& conn.past_recv.is_prefix_of(now.past_recv)
            &&& announcements(events) == Seq::<EventView>::empty()
            &&& answers_given(now.link) == answers_given(conn.link)
            &&& now.phase == conn.phase
            &&& id != stream_id ==> {
                &&& now.recv.contains_key(id) == conn.recv.contains_key(id)
                &&& now.recv[id] == conn.recv[id]
                &&& body_events(events, id) == Seq::<EventView>::empty()
            }
            &&& id == stream_id && conn.recv.contains_key(id) ==> exists|log: Seq<RecvExchange>| #[trigger]
                read_and_reported(conn, now, id, conn.recv[id], log)
        }),
{
    let now = conn.body_read(stream_id, replies);
    let events = new_events(conn.events, now.events);
    if conn.recv.contains_key(stream_id) {
        let start = Receiving { log: conn.recv[stream_id], events: conn.events };
        let log = start.read(stream_id, replies).log;
        lemma_body_state(conn, stream_id, replies, id);
        lemma_body_events(start, stream_id, replies, id);
        lemma_log_in_full(start, stream_id, replies);
        if id == stream_id {
            if !replies.last().keeps_stream() {
                assert(now.past_recv[conn.past_recv.len() as int] == (id, settled(log)));
            }
            assert(comes_to(conn, now, id, log));
            assert(read_and_reported(conn, now, id, conn.recv[id], log));
        }
    } else {
        assert(events =~= Seq::empty());
        reveal(Seq::filter);
    }
}

/// What reading one stream does beside its events.
proof fn lemma_body_state(conn: ConnView, stream_id: u32, replies: Seq<BodyReply>, id: u32)
    requires
        conn.recv.contains_key(stream_id),
    ensures
        ({
            let now = conn.body_read(stream_id, replies);
            let after = (Receiving { log: conn.recv[stream_id], events: conn.events }).read(
                stream_id,
                replies,
            );
            &&& now.events == after.events
            &&& now.phase == conn.phase
            &&& answers_given(now.link) == answers_given(conn.link)
            &&& id != stream_id ==> now.recv.contains_key(id) == conn.recv.contains_key(id)
                && now.recv[id] == conn.recv[id]
            &&& if replies.last().keeps_stream() {
                &&& now.recv.contains_key(stream_id)
                &&& now.recv[stream_id] == after.log
                &&& now.past_recv == conn.past_recv
            } else {
                &&& !now.recv.contains_key(stream_id)
                &&& now.past_recv == conn.past_recv.push((stream_id, settled(after.log)))
            }
        }),
{
    let after = (Receiving { log: conn.recv[stream_id], events: conn.events }).read(stream_id, replies);
    let read = ConnView {
        recv: conn.recv.insert(stream_id, after.log),
        events: after.events,
        ..conn
    };
    lemma_windows_ask_nothing(read, owed_on(conn.recv));
    let kept = read.windowed(owed_on(conn.recv));
    let free = ConnView {
        recv: kept.recv.remove(stream_id),
        past_recv: kept.past_recv.push((stream_id, settled(after.log))),
        ..kept
    };
    lemma_windows_ask_nothing(free, owed_on(kept.recv));
}

/// What reading one stream does to the events.
proof fn lemma_body_events(start: Receiving, stream_id: u32, replies: Seq<BodyReply>, id: u32)
    ensures
        ({
            let after = start.read(stream_id, replies);
            let events = new_events(start.events, after.events);
            &&& start.events.is_prefix_of(after.events)
            &&& announcements(events) == Seq::<EventView>::empty()
            &&& id != stream_id ==> body_events(events, id) == Seq::<EventView>::empty()
            &&& id == stream_id ==> body_events(events, id) == told(
                id,
                after.log.skip(start.log.len() as int),
            )
        }),
{
    let after = start.read(stream_id, replies);
    let events = new_events(start.events, after.events);
    lemma_read_in_all(start, stream_id, replies);
    law_events_are_those_told(start, stream_id, replies);
    lemma_told_of_one_stream(stream_id, replies);
    assert(events =~= all_events(stream_id, replies));
    lemma_all_or_none(events, stream_id, id);
}

proof fn lemma_bodies(conn: ConnView, order: Seq<u32>, bodies: Seq<Seq<BodyReply>>, id: u32)
    requires
        order.no_duplicates(),
        bodies.len() == order.len(),
        forall|i: int| 0 <= i < bodies.len() ==> read_answers(#[trigger] bodies[i]),
    ensures
        ({
            let now = conn.bodies_read(order, bodies);
            let events = new_events(conn.events, now.events);
            &&& conn.events.is_prefix_of(now.events)
            &&& conn.past_recv.is_prefix_of(now.past_recv)
            &&& announcements(events) == Seq::<EventView>::empty()
            &&& answers_given(now.link) == answers_given(conn.link)
            &&& now.phase == conn.phase
            &&& !order.contains(id) ==> {
                &&& now.recv.contains_key(id) == conn.recv.contains_key(id)
                &&& now.recv[id] == conn.recv[id]
                &&& body_events(events, id) == Seq::<EventView>::empty()
            }
            &&& order.contains(id) && conn.recv.contains_key(id) ==> exists|log: Seq<RecvExchange>| #[trigger]
                read_and_reported(conn, now, id, conn.recv[id], log)
        }),
    decreases order.len(),
{
    reveal(Seq::filter);
    let now = conn.bodies_read(order, bodies);
    if order.len() == 0 {
        assert(new_events(conn.events, now.events) =~= Seq::empty());
    } else {
        let (front, front_bodies) = (order.drop_last(), bodies.drop_last());
        let (stream_id, replies) = (order.last(), bodies.last());
        assert(forall|i: int| 0 <= i < front.len() ==> front[i] == order[i]);
        assert(forall|i: int| 0 <= i < front_bodies.len() ==> front_bodies[i] == bodies[i]);
        assert(front.no_duplicates());
        assert(read_answers(bodies[bodies.len() - 1]));
        assert(order[order.len() - 1] == stream_id);
        lemma_bodies(conn, front, front_bodies, id);
        let mid = conn.bodies_read(front, front_bodies);
        law_reading_one_stream(mid, stream_id, replies, id);
        let older = new_events(conn.events, mid.events);
        let newer = new_events(mid.events, now.events);
        assert(new_events(conn.events, now.events) =~= older + newer);
        lemma_filters_chain(older, newer, id);
        assert(announcements(older) + announcements(newer) =~= Seq::<EventView>::empty());
        assert(front.contains(id) ==> order.contains(id)) by {
            if front.contains(id) {
                let j = choose|j: int| 0 <= j < front.len() && front[j] == id;
                assert(order[j] == id);
            }
        }
        if stream_id == id {
            assert(!front.contains(id)) by {
                if front.contains(id) {
                    let j = choose|j: int| 0 <= j < front.len() && front[j] == id;
                    assert(order[j] == order[order.len() - 1]);
                }
            }
            if conn.recv.contains_key(id) {
                let log = choose|log: Seq<RecvExchange>| #[trigger]
                    read_and_reported(mid, now, id, mid.recv[id], log);
                assert(body_events(older, id) + body_events(newer, id) =~= body_events(newer, id));
                assert(read_and_reported(conn, now, id, conn.recv[id], log));
            }
        } else {
            assert(body_events(older, id) + body_events(newer, id) =~= body_events(older, id));
            if order.contains(id) {
                let j = choose|j: int| 0 <= j < order.len() && order[j] == id;
                assert(front[j] == id);
                if conn.recv.contains_key(id) {
                    let log = choose|log: Seq<RecvExchange>| #[trigger]
                        read_and_reported(conn, mid, id, conn.recv[id], log);
                    if log.last() != RecvExchange::Data(DataReply::Pending) {
                        let k = choose|k: int|
                            conn.past_recv.len() <= k < mid.past_recv.len()
                                && #[trigger] mid.past_recv[k] == (id, settled(log));
                        assert(now.past_recv[k] == mid.past_recv[k]);
                    }
                    assert(read_and_reported(conn, now, id, conn.recv[id], log));
                }
            }
        }
    }
}

// ---------------------------------------------------------------------------
// Accepting streams
// ---------------------------------------------------------------------------

/// `events` announce just what the answers to the question for new streams bring: a request
/// for each new stream, with its header list, and the end of the connection for a failure
/// or for its end.
pub open spec fn announced(answers: Seq<AcceptAnswer>, events: Seq<EventView>) -> bool
    decreases answers.len(),
{
    if answers.len() == 0 {
        events.len() == 0
    } else {
        match answers.last() {
            AcceptAnswer::Stream { stream_id: id, head } => {
                &&& events.len() > 0
                &&& events.last() matches EventView::Request { stream_id, headers, .. } && stream_id == id
                    && headers == head.header_list()
                &&& announced(answers.drop_last(), events.drop_last())
            },
            AcceptAnswer::Pending => announced(answers.drop_last(), events),
            _ => {
                &&& events.len() > 0
                &&& events.last() is Terminated
                &&& announced(answers.drop_last(), events.drop_last())
            },
        }
    }
}

/// What the answers are.
spec fn answers_of(replies: Seq<AcceptReply>) -> Seq<AcceptAnswer> {
    replies.map_values(|reply: AcceptReply| reply.answer())
}

proof fn lemma_accepts(conn: ConnView, replies: Seq<AcceptReply>, id: u32)
    ensures
        ({
            let now = conn.accepted_all(replies);
            let events = new_events(conn.events, now.events);
            &&& conn.events.is_prefix_of(now.events)
            &&& conn.past_recv.is_prefix_of(now.past_recv)
            &&& announcements(events) == events
            &&& announced(answers_of(replies), events)
            &&& answers_given(now.link) == answers_given(conn.link) + answers_of(replies)
            &&& body_events(events, id) == Seq::<EventView>::empty()
            &&& !requested(events).contains(id) ==> {
                &&& now.recv.contains_key(id) == conn.recv.contains_key(id)
                &&& now.recv[id] == conn.recv[id]
            }
            &&& requested(events).contains(id) ==> {
                &&& now.recv.contains_key(id)
                &&& now.recv[id].len() == 1
                &&& now.recv[id][0] is Ended
            }
        }),
    decreases replies.len(),
{
    reveal(Seq::filter);
    let now = conn.accepted_all(replies);
    let events = new_events(conn.events, now.events);
    if replies.len() == 0 {
        assert(events =~= Seq::empty());
        assert(announcements(events) =~= events);
        assert(answers_of(replies) =~= Seq::empty());
        assert(answers_given(conn.link) + answers_of(replies) =~= answers_given(conn.link));
    } else {
        let front = replies.drop_last();
        let reply = replies.last();
        lemma_accepts(conn, front, id);
        let before = conn.accepted_all(front);
        let asked = before.link_said(LinkExchange::Accept(reply.answer()));
        assert(asked.link.drop_last() =~= before.link);
        assert(answers_given(asked.link) == answers_given(before.link).push(reply.answer()));
        assert(answers_of(replies).drop_last() =~= answers_of(front));
        assert(answers_of(replies).last() == reply.answer());
        let older = new_events(conn.events, before.events);
        if let AcceptReply::Stream { stream_id, head, stream_ended } = reply {
            law_every_new_stream_is_reported(asked, stream_id, head, stream_ended);
            if asked.recv.contains_key(stream_id) {
                let free = ConnView {
                    recv: asked.recv.remove(stream_id),
                    past_recv: asked.past_recv.push((stream_id, settled(asked.recv[stream_id]))),
                    ..asked
                };
                lemma_windows_ask_nothing(free, owed_on(asked.recv));
            }
        }
        assert(answers_given(now.link) == answers_given(asked.link));
        assert(answers_given(now.link) =~= answers_given(conn.link) + answers_of(replies));
        if reply is Pending {
            assert(events =~= older);
        } else {
            assert(events.drop_last() =~= older);
            assert(older.push(events.last()) =~= events);
        }
    }
}

// ---------------------------------------------------------------------------
// A drive
// ---------------------------------------------------------------------------

/// The answers of one drive to the question for new streams: new streams up to the first
/// answer that is none.
pub open spec fn asked_in_full(answers: Seq<AcceptAnswer>) -> bool {
    &&& answers.len() > 0
    &&& forall|i: int| 0 <= i < answers.len() - 1 ==> #[trigger] answers[i] is Stream
    &&& !(answers.last() is Stream)
}

/// A drive of a connection that is up asks for new streams until there is none, and
/// announces just what it is answered, in order. The connection is closed exactly where the
/// last answer is a failure. A connection that is not up is left as it is.
pub proof fn law_a_drive_accepts_every_stream(conn: ConnView, end: ConnView)
    requires
        conn.drive_leads_to(end),
    ensures
        conn.phase is Ready ==> exists|answers: Seq<AcceptAnswer>|
            {
                &&& #[trigger] asked_in_full(answers)
                &&& answers_given(end.link) == answers_given(conn.link) + answers
                &&& conn.events.is_prefix_of(end.events)
                &&& announced(answers, announcements(new_events(conn.events, end.events)))
                &&& end.phase is Closed <==> answers.last() is Failed
            },
        !(conn.phase is Ready) ==> end == conn,
{
    if conn.phase is Ready {
        let (accepts, order, bodies) = choose|
            accepts: Seq<AcceptReply>,
            order: Seq<u32>,
            bodies: Seq<Seq<BodyReply>>,
        | #[trigger]
            conn.drive_answers(accepts, order, bodies) && end == conn.driven(accepts, order, bodies);
        let mid = conn.accepted_all(accepts);
        lemma_drive_order(conn, accepts, order, bodies);
        lemma_accepts(conn, accepts, 0);
        lemma_bodies(mid, order, bodies, 0);
        lemma_accepting_moves_on(conn, accepts);
        let older = new_events(conn.events, mid.events);
        let newer = new_events(mid.events, end.events);
        assert(new_events(conn.events, end.events) =~= older + newer);
        lemma_filters_chain(older, newer, 0);
        assert(announcements(older) + announcements(newer) =~= older);
        let answers = answers_of(accepts);
        assert forall|i: int| 0 <= i < answers.len() - 1 implies #[trigger] answers[i] is Stream by {
            assert(accepts[i] is Stream);
        }
        assert(answers.last() == accepts.last().answer());
        assert(asked_in_full(answers));
    }
}

/// The order of a drive takes no stream twice.
proof fn lemma_drive_order(
    conn: ConnView,
    accepts: Seq<AcceptReply>,
    order: Seq<u32>,
    bodies: Seq<Seq<BodyReply>>,
)
    requires
        conn.drive_answers(accepts, order, bodies),
    ensures
        order.no_duplicates(),
        accepts.last() is Failed ==> order.len() == 0,
        !(accepts.last() is Failed) ==> forall|id: u32|
            conn.accepted_all(accepts).recv.contains_key(id) <==> #[trigger] order.contains(id),
{
    if !(accepts.last() is Failed) {
        assert forall|id: u32|
            conn.accepted_all(accepts).recv.contains_key(id) <==> #[trigger] order.contains(id) by {
            assert(order.to_set().contains(id) <==> order.contains(id));
            assert(conn.accepted_all(accepts).recv.dom().contains(id)
                <==> conn.accepted_all(accepts).recv.contains_key(id));
        }
    }
}

/// A drive that leaves a connection up reads every open stream to the end of what there is,
/// those that were open and those that are new alike, and whether or not they have been
/// answered: each is polled until it answers with no piece of its body, and the events on
/// the body of the stream are just those that its answers ask for. Its half stays open
/// exactly where the last answer is that there is nothing for now. A stream that is neither
/// open nor new has no events. Where the connection fails, no body is read.
pub proof fn law_a_drive_reads_every_stream(conn: ConnView, end: ConnView, id: u32)
    requires
        conn.phase is Ready,
        conn.drive_leads_to(end),
    ensures
        ({
            let events = new_events(conn.events, end.events);
            let is_new = requested(events).contains(id);
            &&& end.phase is Ready && is_new ==> exists|ended: bool, log: Seq<RecvExchange>| #[trigger]
                read_and_reported(conn, end, id, seq![RecvExchange::Ended(ended)], log)
            &&& end.phase is Ready && !is_new && conn.recv.contains_key(id) ==> exists|
                log: Seq<RecvExchange>,
            | #[trigger]
                read_and_reported(conn, end, id, conn.recv[id], log)
            &&& !is_new && !conn.recv.contains_key(id) ==> {
                &&& body_events(events, id) == Seq::<EventView>::empty()
                &&& !end.recv.contains_key(id)
            }
            &&& end.phase is Closed ==> body_events(events, id) == Seq::<EventView>::empty()
            &&& end.phase is Closed && !is_new ==> end.recv.contains_key(id) == conn.recv.contains_key(id)
                && end.recv[id] == conn.recv[id]
            &&& end.phase is Closed || end.phase is Ready
        }),
{
    let (accepts, order, bodies) = choose|
        accepts: Seq<AcceptReply>,
        order: Seq<u32>,
        bodies: Seq<Seq<BodyReply>>,
    | #[trigger]
        conn.drive_answers(accepts, order, bodies) && end == conn.driven(accepts, order, bodies);
    let mid = conn.accepted_all(accepts);
    lemma_drive_order(conn, accepts, order, bodies);
    lemma_accepts(conn, accepts, id);
    lemma_bodies(mid, order, bodies, id);
    lemma_accepting_moves_on(conn, accepts);
    let older = new_events(conn.events, mid.events);
    let newer = new_events(mid.events, end.events);
    let events = new_events(conn.events, end.events);
    assert(events =~= older + newer);
    lemma_filters_chain(older, newer, id);
    assert(body_events(older, id) + body_events(newer, id) =~= body_events(newer, id));
    lemma_no_requests(newer);
    lemma_requests_chain(older, newer);
    if end.phase is Ready && mid.recv.contains_key(id) {
        assert(order.contains(id));
        let log = choose|log: Seq<RecvExchange>| #[trigger]
            read_and_reported(mid, end, id, mid.recv[id], log);
        if log.last() != RecvExchange::Data(DataReply::Pending) {
            let k = choose|k: int|
                mid.past_recv.len() <= k < end.past_recv.len() && #[trigger] end.past_recv[k] == (
                    id,
                    settled(log),
                );
            assert(conn.past_recv.len() <= k);
        }
        assert(read_and_reported(conn, end, id, mid.recv[id], log));
        if requested(older).contains(id) {
            let ended = mid.recv[id][0]->Ended_0;
            assert(mid.recv[id] =~= seq![RecvExchange::Ended(ended)]);
        }
    }
}

proof fn lemma_no_requests(events: Seq<EventView>)
    requires
        announcements(events) == Seq::<EventView>::empty(),
    ensures
        requested(events) == Set::<u32>::empty(),
    decreases events.len(),
{
    reveal(Seq::filter);
    if events.len() > 0 {
        assert(announcements(events.drop_last()) =~= Seq::<EventView>::empty());
        lemma_no_requests(events.drop_last());
    }
}

proof fn lemma_requests_chain(a: Seq<EventView>, b: Seq<EventView>)
    ensures
        requested(a + b) == requested(a).union(requested(b)),
    decreases b.len(),
{
    if b.len() == 0 {
        assert(a + b =~= a);
        assert(requested(a).union(requested(b)) =~= requested(a));
    } else {
        lemma_requests_chain(a, b.drop_last());
        assert((a + b).drop_last() =~= a + b.drop_last());
        assert((a + b).last() == b.last());
        assert(requested(a + b) =~= requested(a).union(requested(b)));
    }
}

} // verus!
