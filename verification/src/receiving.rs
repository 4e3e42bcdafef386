//! The receiving half of one stream: body data that `h2` has taken in is turned into
//! events.
use crate::event::{event_views, DataReceived, Event, EventView, StreamEnded, StreamReset};
use crate::outside::{
    bytes_to_vec, is_end_stream, poll_data, reason_of, receives_on, recv_log, DataPoll, DataReply,
    RecvExchange,
};
use h2::RecvStream;
use std::collections::VecDeque;
use vstd::prelude::*;

verus! {

/// One answer of a receiving half, in plain values.
#[derive(Debug)]
pub enum BodyStep {
    /// A piece of the body, and whether the stream has ended with it.
    Chunk { data: Vec<u8>, stream_ended: bool },
    /// The stream failed, with the error code if there is one.
    Failed { reason: Option<u32> },
    /// The body is at its end.
    End,
    /// There is nothing for now.
    Pending,
}

/// An answer as a value.
pub enum BodyReply {
    Chunk { data: Seq<u8>, stream_ended: bool },
    Failed { reason: Option<u32> },
    End,
    Pending,
}

impl View for BodyStep {
    type V = BodyReply;

    open spec fn view(&self) -> BodyReply {
        match *self {
            BodyStep::Chunk { data, stream_ended } => BodyReply::Chunk { data: data@, stream_ended },
            BodyStep::Failed { reason } => BodyReply::Failed { reason },
            BodyStep::End => BodyReply::End,
            BodyStep::Pending => BodyReply::Pending,
        }
    }
}

impl BodyReply {
    /// The events that the answer gives rise to: one, unless there is nothing for
    /// now.
    pub open spec fn events(self, stream_id: u32) -> Seq<EventView> {
        match self {
            BodyReply::Chunk { data, stream_ended } => seq![
                EventView::Data { stream_id, data, stream_ended },
            ],
            BodyReply::Failed { reason } => seq![
                EventView::Reset {
                    stream_id,
                    error_code: match reason {
                        Some(code) => code,
                        None => 0,
                    },
                },
            ],
            BodyReply::End => seq![EventView::Ended { stream_id }],
            BodyReply::Pending => Seq::empty(),
        }
    }

    /// What `h2` answered.
    pub open spec fn answer(self) -> DataReply {
        match self {
            BodyReply::Chunk { data, .. } => DataReply::Chunk(data),
            BodyReply::Failed { reason } => DataReply::Failed(reason),
            BodyReply::End => DataReply::End,
            BodyReply::Pending => DataReply::Pending,
        }
    }

    /// What passes through the receiving half after the answer: whether the stream has
    /// ended with a piece of the body is asked. The window of the stream waits for the
    /// acknowledgement of the piece.
    pub open spec fn follow_up(self) -> Seq<RecvExchange> {
        match self {
            BodyReply::Chunk { stream_ended, .. } => seq![RecvExchange::Ended(stream_ended)],
            _ => Seq::empty(),
        }
    }

    /// What passes through the receiving half for the answer in all.
    pub open spec fn exchanges(self) -> Seq<RecvExchange> {
        seq![RecvExchange::Data(self.answer())] + self.follow_up()
    }

    /// The stream stays open for more.
    pub open spec fn keeps_stream(self) -> bool {
        self is Chunk || self is Pending
    }
}

/// No window is wider than this.
pub const MAX_WINDOW: u32 = 0x7fff_ffff;

/// The smaller of a number of bytes and of what a window can hold.
pub open spec fn capped(n: nat) -> nat {
    if n <= MAX_WINDOW {
        n
    } else {
        MAX_WINDOW as nat
    }
}

/// The bytes of the body that have come through a receiving half and have not been given
/// back to the window of the stream.
pub open spec fn unacknowledged(log: Seq<RecvExchange>) -> nat
    decreases log.len(),
{
    if log.len() == 0 {
        0
    } else {
        let before = unacknowledged(log.drop_last());
        match log.last() {
            RecvExchange::Data(DataReply::Chunk(data)) => capped(before + data.len()),
            RecvExchange::Release(size) => if size <= before {
                (before - size) as nat
            } else {
                0
            },
            _ => before,
        }
    }
}

/// What is unacknowledged after one more exchange.
pub proof fn lemma_unacknowledged(log: Seq<RecvExchange>, exchange: RecvExchange)
    ensures
        unacknowledged(log) <= MAX_WINDOW,
        unacknowledged(log.push(exchange)) == match exchange {
            RecvExchange::Data(DataReply::Chunk(data)) => capped(unacknowledged(log) + data.len()),
            RecvExchange::Release(size) => if size <= unacknowledged(log) {
                (unacknowledged(log) - size) as nat
            } else {
                0
            },
            _ => unacknowledged(log),
        },
    decreases log.len(),
{
    assert(log.push(exchange).drop_last() =~= log);
    if log.len() > 0 {
        lemma_unacknowledged(log.drop_last(), log.last());
        assert(log.drop_last().push(log.last()) =~= log);
    }
}

/// A receiving half: what has passed through it, and the events so far.
pub struct Receiving {
    pub log: Seq<RecvExchange>,
    pub events: Seq<EventView>,
}

impl Receiving {
    /// The receiving half after one more answer.
    pub open spec fn replied(self, stream_id: u32, reply: BodyReply) -> Receiving {
        Receiving {
            log: self.log + reply.exchanges(),
            events: self.events + reply.events(stream_id),
        }
    }

    /// The receiving half after several answers.
    pub open spec fn read(self, stream_id: u32, replies: Seq<BodyReply>) -> Receiving
        decreases replies.len(),
    {
        if replies.len() == 0 {
            self
        } else {
            self.read(stream_id, replies.drop_last()).replied(stream_id, replies.last())
        }
    }
}

/// `replies` are the answers of one read: pieces of the body up to the first answer
/// that is none.
pub open spec fn read_answers(replies: Seq<BodyReply>) -> bool {
    &&& replies.len() > 0
    &&& forall|i: int| 0 <= i < replies.len() - 1 ==> #[trigger] replies[i] is Chunk
    &&& !(replies.last() is Chunk)
}

/// The state of a receiving half that has a handle.
pub open spec fn receiving(recv: RecvStream, events: Seq<Event>) -> Receiving {
    Receiving { log: recv_log(recv), events: event_views(events) }
}

/// Puts an answer of `h2` to the question for body data in plain values. Whether the
/// stream has ended with a piece is asked of the stream.
pub fn body_step(recv: &mut RecvStream, answer: DataPoll) -> (step: BodyStep)
    ensures
        step@.answer() == answer.reply(),
        recv_log(*final(recv)) == recv_log(*old(recv)) + step@.follow_up(),
        receives_on(*final(recv)) == receives_on(*old(recv)),
{
    let step = match answer {
        DataPoll::Chunk(chunk) => {
            let stream_ended = is_end_stream(recv);
            let data = bytes_to_vec(&chunk);
            BodyStep::Chunk { data, stream_ended }
        },
        DataPoll::Failed(e) => BodyStep::Failed { reason: reason_of(&e) },
        DataPoll::End => BodyStep::End,
        DataPoll::Pending => BodyStep::Pending,
    };
    assert(recv_log(*recv) =~= recv_log(*old(recv)) + step@.follow_up());
    step
}

/// Turns an answer into the event for it.
pub fn on_body(stream_id: u32, step: BodyStep, events: &mut VecDeque<Event>)
    ensures
        event_views(final(events)@) == event_views(old(events)@) + step@.events(stream_id),
        final(events)@.len() == old(events)@.len() + step@.events(stream_id).len(),
{
    let ghost before = event_views(events@);
    match step {
        BodyStep::Chunk { data, stream_ended } => {
            events.push_back(Event::Data(DataReceived { stream_id, data, stream_ended }));
        },
        BodyStep::Failed { reason } => {
            let error_code: u32 = match reason {
                Some(code) => code,
                None => 0,
            };
            events.push_back(Event::Reset(StreamReset { stream_id, error_code }));
        },
        BodyStep::End => {
            events.push_back(Event::Ended(StreamEnded { stream_id }));
        },
        BodyStep::Pending => {},
    }
    assert(event_views(events@) =~= before + step@.events(stream_id));
}

/// Reads all the body data that there is on a stream, and counts what it brings as
/// unacknowledged. Says whether the stream stays open.
pub fn read_body(
    recv: &mut RecvStream,
    stream_id: u32,
    events: &mut VecDeque<Event>,
    unacked: &mut u32,
) -> (open: bool)
    requires
        *old(unacked) == unacknowledged(recv_log(*old(recv))),
    ensures
        *final(unacked) == unacknowledged(recv_log(*final(recv))),
        *final(unacked) >= *old(unacked),
        exists|replies: Seq<BodyReply>| #[trigger]
            read_answers(replies) && open == replies.last().keeps_stream() && receiving(
                *final(recv),
                final(events)@,
            ) == receiving(*old(recv), old(events)@).read(stream_id, replies),
        receives_on(*final(recv)) == receives_on(*old(recv)),
{
    let ghost start = receiving(*recv, events@);
    let ghost mut replies: Seq<BodyReply> = Seq::empty();
    loop
        invariant
            start == receiving(*old(recv), old(events)@),
            receiving(*recv, events@) == start.read(stream_id, replies),
            receives_on(*recv) == receives_on(*old(recv)),
            *unacked == unacknowledged(recv_log(*recv)),
            *unacked >= *old(unacked),
            forall|i: int| 0 <= i < replies.len() ==> #[trigger] replies[i] is Chunk,
        decreases usize::MAX - events.len(),
    {
        let ghost before = recv_log(*recv);
        proof {
            lemma_unacknowledged(before, RecvExchange::Ended(false));
        }
        let answer = poll_data(recv);
        let step = body_step(recv, answer);
        if let BodyStep::Chunk { data, .. } = &step {
            let len: usize = data.len();
            let room: u32 = MAX_WINDOW - *unacked;
            *unacked = if len <= room as usize {
                *unacked + len as u32
            } else {
                MAX_WINDOW
            };
        }
        proof {
            let asked = before.push(RecvExchange::Data(step@.answer()));
            lemma_unacknowledged(before, RecvExchange::Data(step@.answer()));
            if let BodyReply::Chunk { stream_ended, .. } = step@ {
                lemma_unacknowledged(asked, RecvExchange::Ended(stream_ended));
                assert(recv_log(*recv) =~= asked.push(RecvExchange::Ended(stream_ended)));
            } else {
                assert(recv_log(*recv) =~= asked);
            }
        }
        let open = match &step {
            BodyStep::Chunk { .. } => true,
            BodyStep::Pending => true,
            _ => false,
        };
        let more = match &step {
            BodyStep::Chunk { .. } => true,
            _ => false,
        };
        let ghost reply = step@;
        on_body(stream_id, step, events);
        proof {
            assert(recv_log(*recv) =~= before + reply.exchanges());
            assert(replies.push(reply).drop_last() =~= replies);
            replies = replies.push(reply);
        }
        if !more {
            assert(read_answers(replies));
            return open;
        }
    }
}

} // verus!
