//! What the plain values of the library stand for: texts, events, message heads, header
//! fields, and the bytes of the transport.
use crate::buffer::{IoView, ReadPoll};
use crate::connection::{head_error, AcceptStep};
use crate::error::{displayed, CodecError};
use crate::event::{event_views, Event, EventView};
use crate::head::{
    ascii, field_fault, first_fault, given_status, head_status, is_pseudo, lower, lower_case,
    no_fields, optional_bytes, overfull, pairs, parts_view, response_fields, status_code, token_char,
    valid_name, valid_status, valid_value, with_field, FieldFault, HeadView, RequestHead,
};
use crate::model::AcceptReply;
use crate::outside::{
    answers_on, content, error_reason, parts_authority, parts_fields, parts_method, parts_path,
    parts_scheme, AcceptAnswer, AcceptPoll, CapacityPoll, DataPoll, DataReply,
};
use crate::receiving::{BodyReply, BodyStep};
use crate::sending::Room;
use crate::text::{decimal, flag_word};
use http::request::Parts;
use vstd::prelude::*;

verus! {

// ---------------------------------------------------------------------------
// Texts
// ---------------------------------------------------------------------------

/// The number that a text of digits stands for.
pub open spec fn number_of(text: Seq<char>) -> int
    decreases text.len(),
{
    if text.len() == 0 {
        0
    } else {
        number_of(text.drop_last()) * 10 + (text.last() as int - '0' as int)
    }
}

/// A number can be read back from its text, which is made of digits and has no leading
/// zero.
pub proof fn law_numbers_read_back(n: nat)
    ensures
        number_of(decimal(n)) == n,
        decimal(n).len() > 0,
        decimal(n).len() == 1 || decimal(n)[0] != '0',
        forall|i: int| 0 <= i < decimal(n).len() ==> '0' <= #[trigger] decimal(n)[i] <= '9',
    decreases n,
{
    reveal_strlit("0123456789");
    let text = decimal(n);
    if n < 10 {
        assert(text.drop_last() =~= Seq::empty());
        assert(number_of(text.drop_last()) == 0);
    } else {
        law_numbers_read_back(n / 10);
        assert(text.drop_last() =~= decimal(n / 10));
        if decimal(n / 10).len() == 1 {
            assert(decimal(n / 10).drop_last() =~= Seq::empty());
            assert(number_of(decimal(n / 10).drop_last()) == 0);
            assert(decimal(n / 10)[0] != '0');
        }
    }
}

/// Flags are the words `true` and `false`.
pub proof fn law_flags_are_words(b: bool)
    ensures
        b ==> flag_word(b) == "true"@,
        !b ==> flag_word(b) == "false"@,
{
}

/// What the message of every error says.
pub proof fn law_messages_say_what_failed(e: CodecError, cause: Seq<char>)
    ensures
        e is HandshakeFailed ==> e.wording(cause) == "handshake failed: "@ + cause,
        e is SendResponseFailed ==> e.wording(cause) == "send_response failed: "@ + cause,
        e matches CodecError::UnknownStream(stream_id) ==> e.wording(cause) == "unknown stream "@ + decimal(
            stream_id as nat,
        ),
        e is InvalidStatus ==> e.wording(cause) == "invalid status code"@,
        e is InvalidHeaderName ==> e.wording(cause) == "invalid HTTP header name"@,
        e is InvalidHeaderValue ==> e.wording(cause) == "failed to parse header value"@,
        e is TooManyHeaders ==> e.wording(cause) == "too many header fields"@,
        e matches CodecError::HandshakeFailed(under) ==> e.cause() == Some(under),
        e matches CodecError::SendResponseFailed(under) ==> e.cause() == Some(under),
        !(e is HandshakeFailed) && !(e is SendResponseFailed) ==> e.cause() is None,
        forall|under: h2::Error, text: String| #[trigger]
            displayed(under, text) == vstd::string::to_string_from_display_ensures::<h2::Error>(
                &under,
                text,
            ),
{
}

// ---------------------------------------------------------------------------
// Events and answers
// ---------------------------------------------------------------------------

/// An event as a value holds just what the event holds.
pub proof fn law_events_keep_what_they_hold(event: Event, events: Seq<Event>)
    ensures
        match event {
            Event::Request(e) => event@ matches EventView::Request { stream_id, headers, stream_ended }
                && stream_id == e.stream_id && stream_ended == e.stream_ended && headers.len()
                == e.headers@.len() && forall|i: int|
                0 <= i < headers.len() ==> (#[trigger] headers[i]).0 == e.headers@[i].0@ && headers[i].1
                    == e.headers@[i].1@,
            Event::Data(e) => event@ matches EventView::Data { stream_id, data, stream_ended }
                && stream_id == e.stream_id && stream_ended == e.stream_ended && data == e.data@,
            Event::Ended(e) => event@ matches EventView::Ended { stream_id } && stream_id == e.stream_id,
            Event::Reset(e) => event@ matches EventView::Reset { stream_id, error_code } && stream_id
                == e.stream_id && error_code == e.error_code,
            Event::Terminated(_) => event@ is Terminated,
        },
        event_views(events).len() == events.len(),
        forall|i: int| 0 <= i < events.len() ==> #[trigger] event_views(events)[i] == events[i]@,
{
}

/// What the answers of `h2` stand for, before and after they have been put in plain
/// values.
pub proof fn law_answers_keep_what_they_hold(
    accept: AcceptPoll,
    step: AcceptStep,
    reply: AcceptReply,
    data: DataPoll,
    body_step: BodyStep,
    body_reply: BodyReply,
    room: CapacityPoll,
)
    ensures
        match accept {
            AcceptPoll::Stream(parts, _, responder) => accept.answer() matches AcceptAnswer::Stream {
                stream_id,
                head,
            } && stream_id == answers_on(responder) && head == parts_view(parts),
            AcceptPoll::Failed(_) => accept.answer() is Failed,
            AcceptPoll::Done => accept.answer() is Done,
            AcceptPoll::Pending => accept.answer() is Pending,
        },
        match step {
            AcceptStep::Stream(stream) => step@ matches AcceptReply::Stream {
                stream_id,
                head,
                stream_ended,
            } && stream_id == stream.stream_id && head == stream.head@ && stream_ended
                == stream.stream_ended,
            AcceptStep::Failed => step@ is Failed,
            AcceptStep::Done => step@ is Done,
            AcceptStep::Pending => step@ is Pending,
        },
        match reply {
            AcceptReply::Stream { stream_id: id, head: h, .. } => reply.answer() matches AcceptAnswer::Stream {
                stream_id,
                head,
            } && stream_id == id && head == h,
            AcceptReply::Failed => reply.answer() is Failed,
            AcceptReply::Done => reply.answer() is Done,
            AcceptReply::Pending => reply.answer() is Pending,
        },
        match data {
            DataPoll::Chunk(chunk) => data.reply() == DataReply::Chunk(content(chunk)),
            DataPoll::Failed(e) => data.reply() == DataReply::Failed(error_reason(e)),
            DataPoll::End => data.reply() is End,
            DataPoll::Pending => data.reply() is Pending,
        },
        match body_step {
            BodyStep::Chunk { data: d, stream_ended: s } => body_step@ matches BodyReply::Chunk {
                data: bytes,
                stream_ended,
            } && bytes == d@ && stream_ended == s,
            BodyStep::Failed { reason: r } => body_step@ matches BodyReply::Failed { reason } && reason == r,
            BodyStep::End => body_step@ is End,
            BodyStep::Pending => body_step@ is Pending,
        },
        match body_reply {
            BodyReply::Chunk { data: d, .. } => body_reply.answer() == DataReply::Chunk(d),
            BodyReply::Failed { reason } => body_reply.answer() == DataReply::Failed(reason),
            BodyReply::End => body_reply.answer() is End,
            BodyReply::Pending => body_reply.answer() is Pending,
        },
        match room {
            CapacityPoll::Available(n) => if n > 0 {
                room.room() == Room::Bytes(n)
            } else {
                room.room() is Wait
            },
            CapacityPoll::Failed(_) => room.room() is Never,
            CapacityPoll::Closed => room.room() is Never,
            CapacityPoll::Pending => room.room() is Wait,
        },
{
}

// ---------------------------------------------------------------------------
// The heads of requests
// ---------------------------------------------------------------------------

/// Lists and optional parts are taken entry by entry and byte by byte.
pub proof fn law_bytes_are_taken_as_they_are(
    text: Seq<char>,
    list: Seq<(Vec<u8>, Vec<u8>)>,
    part: Option<Vec<u8>>,
)
    ensures
        ascii(text).len() == text.len(),
        forall|i: int| 0 <= i < text.len() ==> #[trigger] ascii(text)[i] == text[i] as u8,
        pairs(list).len() == list.len(),
        forall|i: int|
            0 <= i < list.len() ==> (#[trigger] pairs(list)[i]).0 == list[i].0@ && pairs(list)[i].1
                == list[i].1@,
        part matches Some(bytes) ==> optional_bytes(part) == Some(bytes@),
        part is None ==> optional_bytes(part) is None,
{
}

/// The head of a request as a value holds just what the head holds, whether it comes from
/// `h2` or stands in plain values.
pub proof fn law_heads_keep_what_they_hold(head: RequestHead, parts: Parts)
    ensures
        head@.method == head.method@,
        head@.scheme == optional_bytes(head.scheme),
        head@.authority == optional_bytes(head.authority),
        head@.path == optional_bytes(head.path),
        head@.fields == pairs(head.fields@),
        parts_view(parts).method == parts_method(parts),
        parts_view(parts).scheme == parts_scheme(parts),
        parts_view(parts).authority == parts_authority(parts),
        parts_view(parts).path == parts_path(parts),
        parts_view(parts).fields == parts_fields(parts),
{
}

/// The header list of a request is complete and has nothing more: the method; the scheme
/// and the authority, each with its value unchanged, exactly where there is one; the path
/// unchanged, or the root where there is none; and then the fields, each unchanged and in
/// its place.
pub proof fn law_header_list_is_complete(head: HeadView)
    ensures
        ({
            let list = head.header_list();
            let s: int = if head.scheme is Some {
                1
            } else {
                0
            };
            let a: int = if head.authority is Some {
                1
            } else {
                0
            };
            &&& list.len() == 2 + s + a + head.fields.len()
            &&& list[0] == (ascii(":method"@), head.method)
            &&& head.scheme matches Some(scheme) ==> list[1] == (ascii(":scheme"@), scheme)
            &&& head.authority matches Some(authority) ==> list[1 + s] == (
                ascii(":authority"@),
                authority,
            )
            &&& head.path matches Some(path) ==> list[1 + s + a] == (ascii(":path"@), path)
            &&& head.path is None ==> list[1 + s + a] == (ascii(":path"@), ascii("/"@))
            &&& forall|i: int|
                0 <= i < head.fields.len() ==> #[trigger] list[2 + s + a + i] == head.fields[i]
        }),
{
}

// ---------------------------------------------------------------------------
// Names, values and status codes
// ---------------------------------------------------------------------------

/// A byte of a field name: a letter, a digit, or one of the marks
/// `!`, `#`, `$`, `%`, `&`, `'`, `*`, `+`, `-`, `.`, `^`, `_`, the backquote, `|` and `~`.
pub open spec fn name_byte(b: u8) -> bool {
    ||| 48 <= b <= 57
    ||| 65 <= b <= 90
    ||| 94 <= b <= 122
    ||| 35 <= b <= 39
    ||| b == 33 || b == 42 || b == 43 || b == 45 || b == 46 || b == 124 || b == 126
}

/// A byte of a field value: a tab, or none of the control characters.
pub open spec fn value_byte(b: u8) -> bool {
    b == 9 || (b >= 32 && b != 127)
}

/// Two names are one but for capital letters: `small` is `name` with them in lower case.
pub open spec fn lowered(name: Seq<u8>, small: Seq<u8>) -> bool {
    &&& name.len() == small.len()
    &&& forall|i: int|
        0 <= i < name.len() ==> #[trigger] small[i] == if 65 <= name[i] <= 90 {
            name[i] + 32
        } else {
            name[i] as int
        }
}

/// A field is a regular one: its name does not start with a colon.
pub open spec fn regular(field: (Seq<u8>, Seq<u8>)) -> bool {
    !(field.0.len() > 0 && field.0[0] == 58)
}

/// Nothing is wrong with the name of a field.
pub open spec fn good_name(name: Seq<u8>) -> bool {
    &&& 0 < name.len() < 65536
    &&& forall|i: int| 0 <= i < name.len() ==> name_byte(#[trigger] name[i])
}

/// Nothing is wrong with the value of a field.
pub open spec fn good_value(value: Seq<u8>) -> bool {
    forall|i: int| 0 <= i < value.len() ==> value_byte(#[trigger] value[i])
}

/// Nothing is wrong with a field.
pub open spec fn good(field: (Seq<u8>, Seq<u8>)) -> bool {
    regular(field) ==> good_name(field.0) && good_value(field.1)
}

/// What makes a name, a value and a pseudo-header, byte for byte.
pub proof fn law_bytes_decide(b: u8, bytes: Seq<u8>, value: Seq<u8>, status: u16)
    ensures
        token_char(b) == name_byte(b),
        lower(b) == if 65 <= b <= 90 {
            b + 32
        } else {
            b as int
        },
        valid_name(bytes) == good_name(bytes),
        valid_value(bytes) == good_value(bytes),
        lowered(bytes, lower_case(bytes)),
        is_pseudo(bytes) == !regular((bytes, value)),
        valid_status(status) == (100 <= status <= 999),
{
    assert(token_char(b) == name_byte(b));
    assert forall|i: int| 0 <= i < bytes.len() implies token_char(#[trigger] bytes[i]) == name_byte(
        bytes[i],
    ) by {}
    if valid_name(bytes) {
        assert forall|i: int| 0 <= i < bytes.len() implies name_byte(#[trigger] bytes[i]) by {
            assert(token_char(bytes[i]));
        }
    }
    if good_name(bytes) {
        assert forall|i: int| 0 <= i < bytes.len() implies token_char(#[trigger] bytes[i]) by {
            assert(name_byte(bytes[i]));
        }
    }
    if valid_value(bytes) {
        assert forall|i: int| 0 <= i < bytes.len() implies value_byte(#[trigger] bytes[i]) by {}
    }
    if good_value(bytes) {
        assert forall|i: int| 0 <= i < bytes.len() implies (#[trigger] bytes[i] == 9 || 32 <= bytes[i]
            && bytes[i] != 127) by {
            assert(value_byte(bytes[i]));
        }
    }
}

/// The status codes are spelled by their three digits, and nothing else spells one.
pub proof fn law_status_codes_are_spelled(text: Seq<u8>, code: u16)
    ensures
        status_code(text) == Some(code) <==> {
            &&& 100 <= code <= 999
            &&& text == seq![
                (48 + code / 100) as u8,
                (48 + code / 10 % 10) as u8,
                (48 + code % 10) as u8,
            ]
        },
{
    if status_code(text) == Some(code) {
        assert(text =~= seq![
            (48 + code / 100) as u8,
            (48 + code / 10 % 10) as u8,
            (48 + code % 10) as u8,
        ]);
    }
}

/// The first `:status` in a list gives the status, wherever it stands; without one there is
/// none in the list.
pub proof fn law_first_status_counts(list: Seq<(Seq<u8>, Seq<u8>)>, status: u16)
    ensures
        forall|i: int|
            0 <= i < list.len() && list[i].0 == ascii(":status"@) && (forall|j: int|
                0 <= j < i ==> (#[trigger] list[j]).0 != ascii(":status"@)) ==> given_status(list) == Some(
                (#[trigger] list[i]).1,
            ),
        (forall|j: int| 0 <= j < list.len() ==> (#[trigger] list[j]).0 != ascii(":status"@))
            ==> given_status(list) is None,
        !(100 <= status <= 999) ==> head_status(status, list) is None,
        100 <= status <= 999 && given_status(list) is None ==> head_status(status, list) == Some(status),
        100 <= status <= 999 ==> (given_status(list) matches Some(value) ==> head_status(status, list)
            == status_code(value)),
    decreases list.len(),
{
    if list.len() > 0 {
        let front = list.drop_last();
        law_first_status_counts(front, status);
        assert(forall|j: int| 0 <= j < front.len() ==> front[j] == list[j]);
        if forall|j: int| 0 <= j < list.len() ==> (#[trigger] list[j]).0 != ascii(":status"@) {
            assert(list.last() == list[list.len() - 1]);
        }
        assert forall|i: int|
            0 <= i < list.len() && list[i].0 == ascii(":status"@) && (forall|j: int|
                0 <= j < i ==> (#[trigger] list[j]).0 != ascii(":status"@)) implies given_status(list)
            == Some((#[trigger] list[i]).1) by {
            if i < front.len() {
                assert(front[i] == list[i]);
            } else {
                assert forall|j: int| 0 <= j < front.len() implies (#[trigger] front[j]).0 != ascii(
                    ":status"@,
                ) by {
                    assert(list[j].0 != ascii(":status"@));
                }
            }
        }
    }
}

// ---------------------------------------------------------------------------
// The fields of responses
// ---------------------------------------------------------------------------

/// The entries of a list that are fields of one name, which is given in lower case.
pub open spec fn entries_of(list: Seq<(Seq<u8>, Seq<u8>)>, small: Seq<u8>) -> Seq<(Seq<u8>, Seq<u8>)> {
    list.filter(|field: (Seq<u8>, Seq<u8>)| regular(field) && lowered(field.0, small))
}

/// Every regular field of a list is sent, and with its value unchanged: under each name
/// the response has the values of just those entries that are fields of that name, in the
/// order of the list.
pub proof fn law_fields_are_sent_as_given(list: Seq<(Seq<u8>, Seq<u8>)>, small: Seq<u8>)
    ensures
        response_fields(list).contains_key(small) <==> entries_of(list, small).len() > 0,
        response_fields(list).contains_key(small) ==> {
            &&& response_fields(list)[small].len() == entries_of(list, small).len()
            &&& forall|i: int|
                0 <= i < entries_of(list, small).len() ==> #[trigger] response_fields(list)[small][i]
                    == entries_of(list, small)[i].1
        },
    decreases list.len(),
{
    reveal(Seq::filter);
    if list.len() > 0 {
        let front = list.drop_last();
        law_fields_are_sent_as_given(front, small);
        let (name, value) = list.last();
        law_bytes_decide(0, name, value, 0);
        assert(lowered(name, small) <==> lower_case(name) == small) by {
            if lowered(name, small) {
                assert(lower_case(name) =~= small);
            }
        }
    }
}

/// A list is refused exactly where some field is at fault, for the first of these, and for
/// its name before its value.
pub proof fn law_first_fault_is_the_first(list: Seq<(Seq<u8>, Seq<u8>)>)
    ensures
        first_fault(list) is None <==> forall|i: int| 0 <= i < list.len() ==> good(#[trigger] list[i]),
        forall|i: int|
            0 <= i < list.len() && !good(list[i]) && (forall|j: int|
                0 <= j < i ==> good(#[trigger] list[j])) ==> first_fault(list) == Some(
                if good_name((#[trigger] list[i]).0) {
                    FieldFault::Value
                } else {
                    FieldFault::Name
                },
            ),
    decreases list.len(),
{
    if list.len() > 0 {
        let front = list.drop_last();
        let last = list.last();
        law_first_fault_is_the_first(front);
        law_bytes_decide(0, last.0, last.1, 0);
        law_bytes_decide(0, last.1, last.1, 0);
        assert(field_fault(last) is None <==> good(last));
        assert(forall|j: int| 0 <= j < front.len() ==> front[j] == list[j]);
        assert(list[list.len() - 1] == last);
        if first_fault(list) is None {
            assert forall|i: int| 0 <= i < list.len() implies good(#[trigger] list[i]) by {
                if i < front.len() {
                    assert(good(front[i]));
                }
            }
        }
        if forall|i: int| 0 <= i < list.len() ==> good(#[trigger] list[i]) {
            assert forall|i: int| 0 <= i < front.len() implies good(#[trigger] front[i]) by {
                assert(good(list[i]));
            }
        }
        assert forall|i: int|
            0 <= i < list.len() && !good(list[i]) && (forall|j: int|
                0 <= j < i ==> good(#[trigger] list[j])) implies first_fault(list) == Some(
            if good_name((#[trigger] list[i]).0) {
                FieldFault::Value
            } else {
                FieldFault::Name
            },
        ) by {
            if i < front.len() {
                assert(!good(front[i]));
                assert forall|j: int| 0 <= j < i implies good(#[trigger] front[j]) by {
                    assert(good(list[j]));
                }
            } else {
                assert forall|j: int| 0 <= j < front.len() implies good(#[trigger] front[j]) by {
                    assert(good(list[j]));
                }
            }
        }
    }
}

/// How a fault is reported, and which errors come of a head on a stream whose request
/// waits for an answer.
pub proof fn law_errors_tell_the_fault(
    e: CodecError,
    status: u16,
    list: Seq<(Seq<u8>, Seq<u8>)>,
    fault: FieldFault,
)
    ensures
        fault.reported_as(e) <==> match fault {
            FieldFault::Name => e is InvalidHeaderName,
            FieldFault::Value => e is InvalidHeaderValue,
        },
        head_error(e, status, list) && head_status(status, list) is None ==> e is InvalidStatus,
        head_error(e, status, list) && head_status(status, list) is Some ==> {
            ||| e is InvalidHeaderName && first_fault(list) == Some(FieldFault::Name)
            ||| e is InvalidHeaderValue && first_fault(list) == Some(FieldFault::Value)
            ||| e is TooManyHeaders && overfull(list)
            ||| e is SendResponseFailed && first_fault(list) is None
        },
        overfull(list) <==> exists|n: int|
            {
                &&& 0 <= n <= list.len()
                &&& first_fault(#[trigger] list.take(n)) is None
                &&& response_fields(list.take(n)).dom().len() > 6553
            },
{
    if exists|n: int|
        {
            &&& 0 <= n <= list.len()
            &&& first_fault(#[trigger] list.take(n)) is None
            &&& response_fields(list.take(n)).dom().len() > 6553
        } {
        let n = choose|n: int|
            {
                &&& 0 <= n <= list.len()
                &&& first_fault(#[trigger] list.take(n)) is None
                &&& response_fields(list.take(n)).dom().len() > 6553
            };
        assert(first_fault(list.take(n)) is None);
    }
}

/// A map of fields starts out empty, and a value goes behind those that its name has,
/// which leaves every other name alone.
pub proof fn law_values_are_appended(
    fields: Map<Seq<u8>, Seq<Seq<u8>>>,
    name: Seq<u8>,
    value: Seq<u8>,
    other: Seq<u8>,
)
    ensures
        !no_fields().contains_key(name),
        with_field(fields, name, value).contains_key(name),
        with_field(fields, name, value)[name].last() == value,
        fields.contains_key(name) ==> with_field(fields, name, value)[name].drop_last() == fields[name],
        !fields.contains_key(name) ==> with_field(fields, name, value)[name].len() == 1,
        other != name ==> with_field(fields, name, value).contains_key(other) == fields.contains_key(
            other,
        ),
        other != name ==> with_field(fields, name, value)[other] == fields[other],
{
    if fields.contains_key(name) {
        assert(with_field(fields, name, value)[name].drop_last() =~= fields[name]);
    }
}

// ---------------------------------------------------------------------------
// The transport
// ---------------------------------------------------------------------------

/// A read takes as much as fits, from the front, and leaves the rest. Only an input that is
/// empty and open makes the reader wait.
pub proof fn law_a_read_takes_what_fits(io: IoView, room: nat)
    ensures
        io.readable(room) + io.after_read(room).unread == io.unread,
        io.readable(room).len() == if room <= io.unread.len() {
            room
        } else {
            io.unread.len()
        },
        io.after_read(room).outbound == io.outbound,
        io.after_read(room).closed == io.closed,
        io.read_poll() == ReadPoll::Pending <==> io.unread.len() == 0 && !io.closed,
{
    assert(io.readable(room) + io.after_read(room).unread =~= io.unread);
}

/// What comes from the peer goes behind what is unread, what is written goes behind what
/// is there for the peer, and closing and handing out change nothing else.
pub proof fn law_the_two_directions_stay_apart(io: IoView, data: Seq<u8>)
    ensures
        io.pushed(data).unread == io.unread + data,
        io.pushed(data).outbound == io.outbound,
        io.pushed(data).closed == io.closed,
        io.written(data).unread == io.unread,
        io.written(data).outbound == io.outbound + data,
        io.written(data).closed == io.closed,
        io.shut().unread == io.unread,
        io.shut().outbound == io.outbound,
        io.shut().closed,
        io.drained().unread == io.unread,
        io.drained().outbound.len() == 0,
        io.drained().closed == io.closed,
{
}

} // verus!
