//! The sending half of one stream: a queue of body chunks that is handed to `h2` as
//! far as the peer's flow-control window allows.
use crate::outside::{
    bytes_slice, content, poll_capacity, reserve_capacity, send_data, send_log, sends_on,
    CapacityPoll, SendExchange,
};
use bytes::Bytes;
use h2::SendStream;
use std::collections::VecDeque;
use vstd::prelude::*;

verus! {

/// A queue of body chunks as a value: the bytes of each, and whether it ends the
/// stream.
pub open spec fn queue_view(queue: Seq<(Bytes, bool)>) -> Seq<(Seq<u8>, bool)> {
    queue.map_values(|chunk: (Bytes, bool)| (content(chunk.0), chunk.1))
}

/// What polling for room can mean: so much room, none for now, or never any again.
pub enum Room {
    Bytes(usize),
    Wait,
    Never,
}

impl CapacityPoll {
    /// What the answer means.
    pub open spec fn room(self) -> Room {
        match self {
            CapacityPoll::Available(n) => if n > 0 {
                Room::Bytes(n)
            } else {
                Room::Wait
            },
            CapacityPoll::Failed(_) => Room::Never,
            CapacityPoll::Closed => Room::Never,
            CapacityPoll::Pending => Room::Wait,
        }
    }
}

/// A sending half: what has passed through it, the chunks that wait, and whether any
/// body data has been handed over.
pub struct Sending {
    pub log: Seq<SendExchange>,
    pub queue: Seq<(Seq<u8>, bool)>,
    pub sent: bool,
}

impl Sending {
    /// Hands over data and puts `queue` in the place of the queue.
    pub open spec fn hand_over(
        self,
        data: Seq<u8>,
        end_stream: bool,
        queue: Seq<(Seq<u8>, bool)>,
    ) -> Sending {
        Sending {
            log: self.log.push(SendExchange::Data { data, end_stream }),
            queue,
            sent: true,
        }
    }

    /// A chunk without bytes at the head of the queue needs no room and is handed
    /// over at once.
    pub open spec fn settle(self) -> Sending
        decreases self.queue.len(),
    {
        if self.queue.len() > 0 && self.queue[0].0.len() == 0 {
            self.hand_over(self.queue[0].0, self.queue[0].1, self.queue.skip(1)).settle()
        } else {
            self
        }
    }

    /// Asks for room for the chunk at the head of the queue, and is told of `room`.
    pub open spec fn asked(self, room: Room) -> Sending {
        Sending {
            log: self.log.push(SendExchange::Reserve(self.queue[0].0.len() as usize)).push(
                SendExchange::Told(room),
            ),
            ..self
        }
    }

    /// Acts on the answer. As much of the chunk at the head of the queue goes out as
    /// there is room for, and only its last piece carries the end of the stream.
    /// Where there will never be room, the queue is dropped.
    pub open spec fn answered(self, room: Room) -> Sending {
        let (chunk, end_stream) = self.queue[0];
        match room {
            Room::Bytes(n) => if n < chunk.len() {
                self.hand_over(
                    chunk.take(n as int),
                    false,
                    seq![(chunk.skip(n as int), end_stream)] + self.queue.skip(1),
                )
            } else {
                self.hand_over(chunk, end_stream, self.queue.skip(1))
            },
            Room::Wait => self,
            Room::Never => Sending { queue: Seq::empty(), ..self },
        }
    }

    /// The sending half after it has asked for room and been given the answers
    /// `rooms`.
    pub open spec fn flushed(self, rooms: Seq<Room>) -> Sending
        decreases rooms.len(),
    {
        if rooms.len() == 0 {
            self.settle()
        } else {
            self.flushed(rooms.drop_last()).asked(rooms.last()).answered(rooms.last()).settle()
        }
    }

    /// `rooms` are the answers of one flush: there was a chunk to ask for each time,
    /// and it went on until the queue was empty or there was no room.
    pub open spec fn flush_answers(self, rooms: Seq<Room>) -> bool {
        &&& forall|i: int| #![trigger rooms[i]] 0 <= i < rooms.len() - 1 ==> rooms[i] is Bytes
        &&& forall|i: int|
            #![trigger rooms.take(i)]
            0 <= i < rooms.len() ==> self.flushed(rooms.take(i)).queue.len() > 0
        &&& self.flushed(rooms).queue.len() == 0 || (rooms.len() > 0 && !(rooms.last() is Bytes))
    }

    /// Some answers make one flush lead to `end`.
    pub open spec fn flush_leads_to(self, end: Sending) -> bool {
        exists|rooms: Seq<Room>| #[trigger]
            self.flush_answers(rooms) && end == self.flushed(rooms)
    }
}

/// The state of a sending half that has a handle and a queue.
pub open spec fn sending(send: SendStream<Bytes>, queue: Seq<(Bytes, bool)>, sent: bool) -> Sending {
    Sending { log: send_log(send), queue: queue_view(queue), sent }
}

/// The work that a queue holds: its bytes, and one more for each chunk.
spec fn work(queue: Seq<(Seq<u8>, bool)>) -> nat
    decreases queue.len(),
{
    if queue.len() == 0 {
        0
    } else {
        queue[0].0.len() + 1 + work(queue.skip(1))
    }
}

/// Acts on the answer to a request for room for the chunk at the head of the queue.
/// Says whether any data was handed over.
pub fn on_capacity(
    send: &mut SendStream<Bytes>,
    queue: &mut VecDeque<(Bytes, bool)>,
    answer: CapacityPoll,
) -> (more: bool)
    requires
        old(queue)@.len() > 0,
    ensures
        more == (answer.room() is Bytes),
        sending(*final(send), final(queue)@, more) == sending(
            *old(send),
            old(queue)@,
            false,
        ).answered(answer.room()),
        sends_on(*final(send)) == sends_on(*old(send)),
{
    let ghost old_queue = queue_view(queue@);
    match answer {
        CapacityPoll::Available(room) => {
            if room == 0 {
                return false;
            }
            match queue.pop_front() {
                Some((chunk, end_stream)) => {
                    let len: usize = chunk.len();
                    assert(queue_view(queue@) =~= old_queue.skip(1));
                    if room < len {
                        let piece = bytes_slice(&chunk, 0, room);
                        let rest = bytes_slice(&chunk, room, len);
                        let _ = send_data(send, piece, false);
                        queue.push_front((rest, end_stream));
                        assert(queue_view(queue@) =~= seq![
                            (old_queue[0].0.skip(room as int), end_stream),
                        ] + old_queue.skip(1));
                        assert(content(piece) =~= old_queue[0].0.take(room as int));
                    } else {
                        let _ = send_data(send, chunk, end_stream);
                    }
                    true
                },
                None => true,
            }
        },
        CapacityPoll::Failed(_) => {
            queue.clear();
            assert(queue_view(queue@) =~= Seq::empty());
            false
        },
        CapacityPoll::Closed => {
            queue.clear();
            assert(queue_view(queue@) =~= Seq::empty());
            false
        },
        CapacityPoll::Pending => false,
    }
}

/// One more answer is acted on after those before it.
proof fn lemma_next_answer(start: Sending, rooms: Seq<Room>, room: Room)
    ensures
        start.flushed(rooms.push(room)) == start.flushed(rooms).asked(room).answered(room).settle(),
        forall|i: int|
            #![trigger rooms.push(room).take(i)]
            0 <= i <= rooms.len() ==> rooms.push(room).take(i) == rooms.take(i),
{
    assert(rooms.push(room).drop_last() =~= rooms);
    assert forall|i: int| #![trigger rooms.push(room).take(i)] 0 <= i <= rooms.len() implies rooms.push(
        room,
    ).take(i) == rooms.take(i) by {
        assert(rooms.push(room).take(i) =~= rooms.take(i));
    }
}

/// Hands the chunks of a queue to the stream until the queue is empty or there is no
/// room. Says whether any data was handed over.
pub fn flush_stream(send: &mut SendStream<Bytes>, queue: &mut VecDeque<(Bytes, bool)>) -> (sent: bool)
    ensures
        sending(*old(send), old(queue)@, false).flush_leads_to(
            sending(*final(send), final(queue)@, sent),
        ),
        sends_on(*final(send)) == sends_on(*old(send)),
{
    let ghost start = sending(*send, queue@, false);
    let ghost mut rooms: Seq<Room> = Seq::empty();
    let mut sent = false;
    while queue.len() > 0
        invariant_except_break
            forall|i: int| #![trigger rooms[i]] 0 <= i < rooms.len() ==> rooms[i] is Bytes,
        invariant
            start == sending(*old(send), old(queue)@, false),
            sends_on(*send) == sends_on(*old(send)),
            start.flushed(rooms) == sending(*send, queue@, sent).settle(),
            forall|i: int|
                #![trigger rooms.take(i)]
                0 <= i < rooms.len() ==> start.flushed(rooms.take(i)).queue.len() > 0,
        ensures
            start.flush_answers(rooms),
            sending(*send, queue@, sent) == start.flushed(rooms),
        decreases work(queue_view(queue@)),
    {
        let ghost before = sending(*send, queue@, sent);
        let len: usize = queue[0].0.len();
        assert(before.queue[0] == (content(queue@[0].0), queue@[0].1));
        if len == 0 {
            match queue.pop_front() {
                Some((chunk, end_stream)) => {
                    let _ = send_data(send, chunk, end_stream);
                    assert(queue_view(queue@) =~= before.queue.skip(1));
                },
                None => {},
            }
            sent = true;
            continue;
        }
        reserve_capacity(send, len);
        let answer = poll_capacity(send);
        let ghost room = answer.room();
        let more = on_capacity(send, queue, answer);
        sent = sent || more;
        proof {
            assert(start.flushed(rooms) == before);
            assert(rooms.take(rooms.len() as int) =~= rooms);
            lemma_next_answer(start, rooms, room);
            rooms = rooms.push(room);
            let rest = queue_view(queue@);
            if room matches Room::Bytes(n) && n < len {
                assert(rest.skip(1) =~= before.queue.skip(1));
            }
        }
        if !more {
            break;
        }
    }
    sent
}

} // verus!
