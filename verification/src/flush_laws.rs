//! What handing over the body of a response comes to, step by step and over a whole pump.
use crate::connection_laws::{
    busy_rounds, lemma_drive_moves_on, lemma_flush_here, lemma_flush_idle, lemma_flush_leaves_alone,
    lemma_flush_moves_on, lemma_rounds_move_on,
};
use crate::model::{ConnView, Phase, MAX_ROUNDS};
use crate::outside::SendExchange;
use crate::sending::{Room, Sending};
use vstd::prelude::*;

verus! {

// ---------------------------------------------------------------------------
// One sending half
// ---------------------------------------------------------------------------

/// From `before` to `now`, `m` chunks without bytes have gone from the front of `queue`,
/// each handed over as it was, and nothing else has happened.
pub open spec fn empties_gone(
    before: Seq<SendExchange>,
    queue: Seq<(Seq<u8>, bool)>,
    now: Sending,
    m: int,
) -> bool {
    &&& 0 <= m <= queue.len()
    &&& now.queue == queue.skip(m)
    &&& now.log.len() == before.len() + m
    &&& before.is_prefix_of(now.log)
    &&& forall|j: int|
        #![trigger queue[j]]
        0 <= j < m ==> queue[j].0.len() == 0 && now.log[before.len() + j] == (SendExchange::Data {
            data: queue[j].0,
            end_stream: queue[j].1,
        })
    &&& now.queue.len() > 0 ==> now.queue[0].0.len() > 0
}

proof fn lemma_settled(s: Sending) -> (m: int)
    ensures
        empties_gone(s.log, s.queue, s.settle(), m),
        s.settle().sent == (s.sent || m > 0),
    decreases s.queue.len(),
{
    if s.queue.len() > 0 && s.queue[0].0.len() == 0 {
        let next = s.hand_over(s.queue[0].0, s.queue[0].1, s.queue.skip(1));
        let m = lemma_settled(next);
        let now = s.settle();
        assert(now.queue =~= s.queue.skip(m + 1));
        assert forall|j: int| #![trigger s.queue[j]] 0 <= j < m + 1 implies s.queue[j].0.len() == 0
            && now.log[s.log.len() + j] == (SendExchange::Data {
            data: s.queue[j].0,
            end_stream: s.queue[j].1,
        }) by {
            if j > 0 {
                assert(next.queue[j - 1] == s.queue[j]);
                assert(now.log[next.log.len() + (j - 1)] == now.log[s.log.len() + j]);
            } else {
                assert(now.log[s.log.len() as int] == next.log[s.log.len() as int]);
            }
        }
        m + 1
    } else {
        assert(s.queue.skip(0) =~= s.queue);
        0
    }
}

/// Before anything is asked, the chunks without bytes at the front of the queue are handed
/// over as they are, and no others. It counts as sent where there was one.
pub proof fn law_empty_chunks_need_no_room(start: Sending)
    ensures
        exists|m: int| #[trigger]
            empties_gone(start.log, start.queue, start.flushed(Seq::empty()), m)
                && start.flushed(Seq::empty()).sent == (start.sent || m > 0),
{
    let m = lemma_settled(start);
    assert(empties_gone(start.log, start.queue, start.flushed(Seq::empty()), m));
}

/// What one more answer does to a flush. Room is asked for before it, and for the whole
/// chunk at the head of the queue, which is never empty. As many bytes of the chunk go out
/// as there is room for and as it has, in one piece, and the piece carries the end of the
/// stream exactly where it is the last one of a chunk that does. What is left of the chunk
/// stays at the head of the queue; behind a chunk that is gone, those without bytes go too.
/// Without room for now nothing changes, and where there will never be any nothing waits.
pub proof fn law_each_answer_is_used_in_full(start: Sending, rooms: Seq<Room>, room: Room)
    requires
        start.flushed(rooms).queue.len() > 0,
        start.flushed(rooms).queue[0].0.len() <= usize::MAX,
    ensures
        ({
            let before = start.flushed(rooms);
            let after = start.flushed(rooms.push(room));
            let (chunk, end_stream) = before.queue[0];
            let n = before.log.len() as int;
            &&& chunk.len() > 0
            &&& before.log.is_prefix_of(after.log)
            &&& after.log.len() >= n + 2
            &&& after.log[n] matches SendExchange::Reserve(asked) && asked == chunk.len()
            &&& after.log[n + 1] == SendExchange::Told(room)
            &&& match room {
                Room::Bytes(k) => {
                    &&& after.sent
                    &&& after.log.len() >= n + 3
                    &&& if k < chunk.len() {
                        &&& after.log.len() == n + 3
                        &&& after.log[n + 2] == (SendExchange::Data {
                            data: chunk.subrange(0, k as int),
                            end_stream: false,
                        })
                        &&& after.queue.len() == before.queue.len()
                        &&& after.queue[0] == (
                            chunk.subrange(k as int, chunk.len() as int),
                            end_stream,
                        )
                        &&& forall|j: int|
                            1 <= j < before.queue.len() ==> #[trigger] after.queue[j] == before.queue[j]
                    } else {
                        &&& after.log[n + 2] == (SendExchange::Data { data: chunk, end_stream })
                        &&& exists|m: int| #[trigger]
                            empties_gone(after.log.take(n + 3), before.queue.skip(1), after, m)
                    }
                },
                Room::Wait => {
                    &&& after.log.len() == n + 2
                    &&& after.queue == before.queue
                    &&& after.sent == before.sent
                },
                Room::Never => {
                    &&& after.log.len() == n + 2
                    &&& after.queue.len() == 0
                    &&& after.sent == before.sent
                },
            }
        }),
{
    let before = start.flushed(rooms);
    assert(rooms.push(room).drop_last() =~= rooms);
    if rooms.len() == 0 {
        assert(rooms =~= Seq::empty());
        let m = lemma_settled(start);
    } else {
        let m = lemma_settled(
            start.flushed(rooms.drop_last()).asked(rooms.last()).answered(rooms.last()),
        );
    }
    let next = before.asked(room).answered(room);
    let m = lemma_settled(next);
    let after = start.flushed(rooms.push(room));
    let (chunk, end_stream) = before.queue[0];
    let n = before.log.len() as int;
    assert(after == next.settle());
    assert(before.asked(room).log.is_prefix_of(next.log));
    assert(next.log.is_prefix_of(after.log));
    assert(after.log[n] == next.log[n]);
    assert(after.log[n + 1] == next.log[n + 1]);
    match room {
        Room::Bytes(k) => {
            assert(after.log[n + 2] == next.log[n + 2]);
            if k < chunk.len() {
                assert(next.queue[0].0.len() > 0);
                assert(m == 0) by {
                    if m > 0 {
                        assert(next.queue[0].0.len() == 0);
                    }
                }
                assert(after.queue =~= next.queue);
                assert(chunk.take(k as int) =~= chunk.subrange(0, k as int));
                assert(chunk.skip(k as int) =~= chunk.subrange(k as int, chunk.len() as int));
                assert forall|j: int| 1 <= j < before.queue.len() implies #[trigger] after.queue[j]
                    == before.queue[j] by {
                    assert(next.queue[j] == before.queue.skip(1)[j - 1]);
                }
            } else {
                assert(after.log.take(n + 3) =~= next.log);
                assert(empties_gone(after.log.take(n + 3), before.queue.skip(1), after, m));
            }
        },
        Room::Wait => {
            assert(m == 0) by {
                if m > 0 {
                    assert(next.queue[0].0.len() == 0);
                }
            }
            assert(after.queue =~= before.queue);
        },
        Room::Never => {},
    }
}

/// A flush goes on as long as there is room and something to send: every answer but the
/// last is room, there was a chunk to ask for each time, and it ends with an empty queue or
/// with an answer that is no room.
pub proof fn law_a_flush_goes_on_while_there_is_room(start: Sending, rooms: Seq<Room>, end: Sending)
    ensures
        start.flush_answers(rooms) ==> {
            &&& forall|i: int| 0 <= i < rooms.len() - 1 ==> #[trigger] rooms[i] is Bytes
            &&& forall|i: int|
                0 <= i < rooms.len() ==> start.flushed(#[trigger] rooms.take(i)).queue.len() > 0
            &&& start.flushed(rooms).queue.len() > 0 ==> rooms.len() > 0 && !(rooms.last() is Bytes)
        },
        start.flush_leads_to(end) ==> exists|answers: Seq<Room>| #[trigger]
            start.flush_answers(answers) && end == start.flushed(answers),
{
    if start.flush_answers(rooms) {
        assert forall|i: int| 0 <= i < rooms.len() implies start.flushed(#[trigger] rooms.take(i)).queue.len()
            > 0 by {}
        assert forall|i: int| 0 <= i < rooms.len() - 1 implies #[trigger] rooms[i] is Bytes by {}
    }
}

// ---------------------------------------------------------------------------
// What passes through a sending half
// ---------------------------------------------------------------------------

/// What a sending half has been asked since `before` is well formed: room is asked for and
/// told of in pairs, never for nothing, and beside that only data is handed over.
pub open spec fn well_asked(before: Seq<SendExchange>, now: Seq<SendExchange>) -> bool {
    forall|i: int|
        #![trigger now[i]]
        before.len() <= i < now.len() ==> match now[i] {
            SendExchange::Reserve(n) => n > 0 && i + 1 < now.len() && now[i + 1] is Told,
            SendExchange::Told(_) => i > before.len() && now[i - 1] is Reserve,
            SendExchange::Data { .. } => true,
            _ => false,
        }
}

proof fn lemma_well_asked_chains(a: Seq<SendExchange>, b: Seq<SendExchange>, c: Seq<SendExchange>)
    requires
        a.is_prefix_of(b),
        b.is_prefix_of(c),
        well_asked(a, b),
        well_asked(b, c),
    ensures
        well_asked(a, c),
{
    assert forall|i: int| #![trigger c[i]] a.len() <= i < c.len() implies match c[i] {
        SendExchange::Reserve(n) => n > 0 && i + 1 < c.len() && c[i + 1] is Told,
        SendExchange::Told(_) => i > a.len() && c[i - 1] is Reserve,
        SendExchange::Data { .. } => true,
        _ => false,
    } by {
        if i < b.len() {
            assert(c[i] == b[i]);
            if i + 1 < b.len() {
                assert(c[i + 1] == b[i + 1]);
            }
            if i > 0 {
                assert(c[i - 1] == b[i - 1]);
            }
        }
    }
}

/// The chunks of a queue are no longer than a machine can count.
pub open spec fn countable(queue: Seq<(Seq<u8>, bool)>) -> bool {
    forall|i: int| 0 <= i < queue.len() ==> (#[trigger] queue[i]).0.len() <= usize::MAX
}

proof fn lemma_flush_is_well_asked(start: Sending, rooms: Seq<Room>)
    requires
        countable(start.queue),
        forall|i: int|
            #![trigger rooms.take(i)]
            0 <= i < rooms.len() ==> start.flushed(rooms.take(i)).queue.len() > 0,
    ensures
        start.log.is_prefix_of(start.flushed(rooms).log),
        well_asked(start.log, start.flushed(rooms).log),
        countable(start.flushed(rooms).queue),
    decreases rooms.len(),
{
    if rooms.len() == 0 {
        let m = lemma_settled(start);
        let now = start.settle();
        assert forall|i: int| #![trigger now.log[i]] start.log.len() <= i < now.log.len() implies now.log[i]
            is Data by {
            let j = i - start.log.len();
            assert(start.queue[j].0.len() == 0);
            assert(now.log[start.log.len() + j] is Data);
        }
        assert forall|i: int| 0 <= i < now.queue.len() implies (#[trigger] now.queue[i]).0.len()
            <= usize::MAX by {
            assert(now.queue[i] == start.queue[i + m]);
        }
    } else {
        let front = rooms.drop_last();
        let room = rooms.last();
        assert(front =~= rooms.take(rooms.len() - 1));
        assert forall|i: int| #![trigger front.take(i)] 0 <= i < front.len() implies start.flushed(
            front.take(i),
        ).queue.len() > 0 by {
            assert(front.take(i) =~= rooms.take(i));
        }
        lemma_flush_is_well_asked(start, front);
        assert(front.push(room) =~= rooms);
        law_each_answer_is_used_in_full(start, front, room);
        let before = start.flushed(front);
        let after = start.flushed(rooms);
        let n = before.log.len() as int;
        assert(before.queue[0].0.len() <= usize::MAX);
        assert(well_asked(before.log, after.log)) by {
            assert forall|i: int| #![trigger after.log[i]] n + 3 <= i < after.log.len() implies after.log[i]
                is Data by {
                let m = choose|m: int| #[trigger]
                    empties_gone(after.log.take(n + 3), before.queue.skip(1), after, m);
                let j = i - (n + 3);
                assert(before.queue.skip(1)[j].0.len() == 0);
                assert(after.log[after.log.take(n + 3).len() + j] is Data);
            }
        }
        lemma_well_asked_chains(start.log, before.log, after.log);
        assert forall|i: int| 0 <= i < after.queue.len() implies (#[trigger] after.queue[i]).0.len()
            <= usize::MAX by {
            if let Room::Bytes(k) = room {
                if k < before.queue[0].0.len() {
                    if i > 0 {
                        assert(after.queue[i] == before.queue[i]);
                    } else {
                        let next = before.asked(room).answered(room);
                        let m = lemma_settled(next);
                        assert(next.queue[0].0.len() > 0);
                        if m > 0 {
                            assert(next.queue[0].0.len() == 0);
                        }
                        assert(after.queue[0] == next.queue[0]);
                    }
                } else {
                    let m = choose|m: int| #[trigger]
                        empties_gone(after.log.take(n + 3), before.queue.skip(1), after, m);
                    assert(after.queue[i] == before.queue[i + 1 + m]);
                }
            } else {
                assert(after.queue[i] == before.queue[i]);
            }
        }
    }
}

/// In a flush, room is asked for and told of in pairs, never for nothing, and beside that
/// only data is handed over.
pub proof fn law_a_flush_is_well_asked(start: Sending, rooms: Seq<Room>)
    requires
        start.flush_answers(rooms),
        countable(start.queue),
    ensures
        start.log.is_prefix_of(start.flushed(rooms).log),
        well_asked(start.log, start.flushed(rooms).log),
{
    lemma_flush_is_well_asked(start, rooms);
}

/// Some data has been handed over since `before`.
pub open spec fn data_since(before: Seq<SendExchange>, now: Seq<SendExchange>) -> bool {
    exists|i: int| before.len() <= i < now.len() && #[trigger] now[i] is Data
}

proof fn lemma_sent_means_data(start: Sending, rooms: Seq<Room>)
    requires
        countable(start.queue),
        !start.sent,
        forall|i: int|
            #![trigger rooms.take(i)]
            0 <= i < rooms.len() ==> start.flushed(rooms.take(i)).queue.len() > 0,
    ensures
        start.flushed(rooms).sent == data_since(start.log, start.flushed(rooms).log),
    decreases rooms.len(),
{
    if rooms.len() == 0 {
        let m = lemma_settled(start);
        let now = start.settle();
        if m > 0 {
            assert(start.queue[0].0.len() == 0);
            assert(now.log[start.log.len() + 0int] is Data);
        }
    } else {
        let front = rooms.drop_last();
        let room = rooms.last();
        assert(front =~= rooms.take(rooms.len() - 1));
        assert forall|i: int| #![trigger front.take(i)] 0 <= i < front.len() implies start.flushed(
            front.take(i),
        ).queue.len() > 0 by {
            assert(front.take(i) =~= rooms.take(i));
        }
        lemma_sent_means_data(start, front);
        lemma_flush_is_well_asked(start, front);
        assert(front.push(room) =~= rooms);
        law_each_answer_is_used_in_full(start, front, room);
        let before = start.flushed(front);
        let after = start.flushed(rooms);
        let n = before.log.len() as int;
        if room is Bytes {
            assert(after.log[n + 2] is Data);
        } else {
            if data_since(start.log, before.log) {
                let i = choose|i: int| start.log.len() <= i < before.log.len() && #[trigger] before.log[i] is Data;
                assert(after.log[i] is Data);
            }
            if data_since(start.log, after.log) {
                let i = choose|i: int| start.log.len() <= i < after.log.len() && #[trigger] after.log[i] is Data;
                assert(i < n);
                assert(before.log[i] is Data);
            }
        }
    }
}

// ---------------------------------------------------------------------------
// All streams of a connection
// ---------------------------------------------------------------------------

/// The chunks that wait on a connection are no longer than a machine can count.
pub open spec fn all_countable(conn: ConnView) -> bool {
    forall|id: u32| #[trigger] conn.pending.contains_key(id) ==> countable(conn.pending[id])
}

/// The answers `rooms` make up one flush of a sending half, and lead from one log and queue
/// to another.
pub open spec fn comes_of(
    log: Seq<SendExchange>,
    queue: Seq<(Seq<u8>, bool)>,
    rooms: Seq<Room>,
    now_log: Seq<SendExchange>,
    now_queue: Seq<(Seq<u8>, bool)>,
) -> bool {
    let start = Sending { log, queue, sent: false };
    &&& start.flush_answers(rooms)
    &&& now_log == start.flushed(rooms).log
    &&& now_queue == start.flushed(rooms).queue
}

/// A flush takes every stream whose head has been sent and that has a queue, whatever else
/// there is: what comes of it is what some answers make of its log and its queue. All that
/// is not so is left as it is, and nothing but logs and queues changes.
pub proof fn law_a_flush_takes_every_stream(conn: ConnView, end: ConnView, sent: bool, id: u32)
    requires
        conn.flush_leads_to(end, sent),
    ensures
        conn.send.contains_key(id) && conn.pending.contains_key(id) ==> {
            &&& end.send.contains_key(id)
            &&& end.pending.contains_key(id)
            &&& exists|rooms: Seq<Room>| #[trigger]
                comes_of(conn.send[id], conn.pending[id], rooms, end.send[id], end.pending[id])
        },
        !(conn.send.contains_key(id) && conn.pending.contains_key(id)) ==> {
            &&& end.send.contains_key(id) == conn.send.contains_key(id)
            &&& end.pending.contains_key(id) == conn.pending.contains_key(id)
            &&& end.send[id] == conn.send[id]
            &&& end.pending[id] == conn.pending[id]
        },
        end.phase == conn.phase,
        end.link == conn.link,
        end.recv == conn.recv,
        end.past_recv == conn.past_recv,
        end.responders == conn.responders,
        end.past_send == conn.past_send,
        end.events == conn.events,
{
    let (order, rooms) = choose|order: Seq<u32>, rooms: Seq<Seq<Room>>| #[trigger]
        conn.flush_answers(order, rooms) && end == conn.flushed(order, rooms) && sent
            == conn.flush_sends(order, rooms);
    lemma_flush_leaves_alone(conn, order, rooms);
    assert(conn.send.contains_key(id) == conn.send.dom().contains(id));
    assert(end.send.contains_key(id) == end.send.dom().contains(id));
    assert(conn.pending.contains_key(id) == conn.pending.dom().contains(id));
    assert(end.pending.contains_key(id) == end.pending.dom().contains(id));
    if conn.send.contains_key(id) && conn.pending.contains_key(id) {
        let start = Sending { log: conn.send[id], queue: conn.pending[id], sent: false };
        assert(start == conn.sending(id));
        assert(order.to_set().contains(id));
        let i = choose|i: int| 0 <= i < order.len() && order[i] == id;
        lemma_flush_here(conn, order, rooms, i);
        assert(comes_of(conn.send[id], conn.pending[id], rooms[i], end.send[id], end.pending[id]));
    } else {
        lemma_flush_idle(conn, order, rooms, id);
    }
}

/// A flush says that it sent something exactly where some data was handed over on some
/// stream.
pub proof fn law_sent_means_data(conn: ConnView, end: ConnView, sent: bool)
    requires
        conn.flush_leads_to(end, sent),
        all_countable(conn),
    ensures
        sent <==> exists|id: u32| #[trigger]
            conn.send.contains_key(id) && data_since(conn.send[id], end.send[id]),
{
    let (order, rooms) = choose|order: Seq<u32>, rooms: Seq<Seq<Room>>| #[trigger]
        conn.flush_answers(order, rooms) && end == conn.flushed(order, rooms) && sent
            == conn.flush_sends(order, rooms);
    if sent {
        let i = choose|i: int|
            #![trigger order[i]]
            0 <= i < order.len() && conn.sendable(order[i]) && conn.sending(order[i]).flushed(
                rooms[i],
            ).sent;
        let id = order[i];
        lemma_flush_here(conn, order, rooms, i);
        assert(conn.pending.contains_key(id));
        lemma_sent_means_data(conn.sending(id), rooms[i]);
        assert(conn.send.contains_key(id) && data_since(conn.send[id], end.send[id]));
    }
    if exists|id: u32| #[trigger]
        conn.send.contains_key(id) && data_since(conn.send[id], end.send[id]) {
        let id = choose|id: u32| #[trigger]
            conn.send.contains_key(id) && data_since(conn.send[id], end.send[id]);
        if conn.sendable(id) {
            assert(order.to_set().contains(id));
            let i = choose|i: int| 0 <= i < order.len() && order[i] == id;
            lemma_flush_here(conn, order, rooms, i);
            assert(conn.pending.contains_key(id));
            lemma_sent_means_data(conn.sending(id), rooms[i]);
            assert(conn.sending(order[i]).flushed(rooms[i]).sent);
        } else {
            lemma_flush_idle(conn, order, rooms, id);
        }
    }
}

/// A round is a drive and then a flush, and it makes progress exactly where it brings
/// events or hands over data on some stream.
pub proof fn law_a_round_drives_and_flushes(conn: ConnView, next: ConnView, progress: bool)
    requires
        conn.round_leads_to(next, progress),
        all_countable(conn),
    ensures
        exists|mid: ConnView, sent: bool|
            #![trigger conn.drive_leads_to(mid), mid.flush_leads_to(next, sent)]
            conn.drive_leads_to(mid) && mid.flush_leads_to(next, sent),
        progress <==> {
            ||| next.events.len() != conn.events.len()
            ||| exists|id: u32| #[trigger]
                conn.send.contains_key(id) && data_since(conn.send[id], next.send[id])
        },
{
    let (mid, sent) = choose|mid: ConnView, sent: bool|
        #![trigger conn.drive_leads_to(mid), mid.flush_leads_to(next, sent)]
        {
            &&& conn.drive_leads_to(mid)
            &&& mid.flush_leads_to(next, sent)
            &&& progress == (mid.events.len() != conn.events.len() || sent)
        };
    lemma_drive_moves_on(conn, mid);
    lemma_flush_moves_on(mid, next, sent);
    law_sent_means_data(mid, next, sent);
}

/// A pump of a connection that is up goes through at least one round and through no more
/// than 64, and it stops before that exactly where a round makes no progress. One that
/// brings the handshake to its end goes on in the same way. A closed connection stays as it
/// is.
pub proof fn law_a_pump_is_at_most_64_rounds(conn: ConnView, end: ConnView, ok: bool)
    requires
        conn.pump_leads_to(end, ok),
    ensures
        conn.phase is Ready ==> ok && pumped(conn, end),
        conn.phase is Handshaking && !(end.phase is Handshaking) && ok ==> exists|ready: ConnView|
            {
                &&& #[trigger] pumped(ready, end)
                &&& ready.phase is Ready
                &&& ready.link.len() == 0
                &&& ready.recv == conn.recv
                &&& ready.past_recv == conn.past_recv
                &&& ready.responders == conn.responders
                &&& ready.send == conn.send
                &&& ready.past_send == conn.past_send
                &&& ready.pending == conn.pending
                &&& ready.events == conn.events
            },
        conn.phase is Handshaking && (end.phase is Handshaking || !ok) ==> {
            &&& ok ==> end.phase == (Phase::Handshaking { polls: conn.phase->polls + 1 })
            &&& !ok ==> end.phase is Closed
            &&& end.link.len() == 0
            &&& end.recv == conn.recv
            &&& end.past_recv == conn.past_recv
            &&& end.responders == conn.responders
            &&& end.send == conn.send
            &&& end.past_send == conn.past_send
            &&& end.pending == conn.pending
            &&& end.events == conn.events
        },
        conn.phase is Closed ==> ok && end == conn,
{
    match conn.phase {
        Phase::Handshaking { polls } => {
            let ready = conn.in_phase(Phase::Ready);
            if ok && ready.rounds_lead_to(MAX_ROUNDS as nat, end) {
                lemma_rounds_move_on(ready, MAX_ROUNDS as nat, end);
                lemma_pumped(ready, MAX_ROUNDS as nat, end);
                assert(pumped(ready, end));
            }
        },
        Phase::Ready => {
            lemma_pumped(conn, MAX_ROUNDS as nat, end);
        },
        Phase::Closed => {},
    }
}

/// From `conn`, some rounds that make progress lead to `end`, 64 of them, or fewer and then
/// one that makes none.
pub open spec fn pumped(conn: ConnView, end: ConnView) -> bool {
    ||| busy_rounds(conn, 64, end)
    ||| exists|n: nat, last: ConnView|
        n < 64 && #[trigger] busy_rounds(conn, n, last) && last.round_leads_to(end, false)
}

/// The same for any number of rounds.
spec fn pumped_within(conn: ConnView, n: nat, end: ConnView) -> bool {
    ||| busy_rounds(conn, n, end)
    ||| exists|k: nat, last: ConnView|
        k < n && #[trigger] busy_rounds(conn, k, last) && last.round_leads_to(end, false)
}

proof fn lemma_pumped(conn: ConnView, n: nat, end: ConnView)
    requires
        conn.rounds_lead_to(n, end),
    ensures
        pumped_within(conn, n, end),
        n == 64 ==> pumped(conn, end),
    decreases n,
{
    if n > 0 {
        let (next, progress) = choose|next: ConnView, progress: bool| #[trigger]
            conn.round_leads_to(next, progress) && if progress {
                next.rounds_lead_to((n - 1) as nat, end)
            } else {
                end == next
            };
        if progress {
            let rest = (n - 1) as nat;
            lemma_pumped(next, rest, end);
            if busy_rounds(next, rest, end) {
                assert(conn.round_leads_to(next, true) && busy_rounds(next, rest, end));
                assert(busy_rounds(conn, n, end));
            } else {
                let (k, last) = choose|k: nat, last: ConnView|
                    k < rest && #[trigger] busy_rounds(next, k, last) && last.round_leads_to(end, false);
                assert(conn.round_leads_to(next, true) && busy_rounds(next, ((k + 1) - 1) as nat, last));
                assert(busy_rounds(conn, k + 1, last));
            }
        } else {
            assert(busy_rounds(conn, 0, conn));
            assert(conn.round_leads_to(end, false));
        }
    }
}

} // verus!
