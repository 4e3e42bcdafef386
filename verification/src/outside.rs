//! The outside crates as the verified code sees them.
//!
//! Every item in this file is trusted: its contract is stated from the source of
//! the crate it names and is not proved here. The types are opaque. What the
//! contracts need to say of such a value goes through a named function of it:
//! the bytes it holds, or the log of what has passed through it so far, questions and
//! answers alike.
use crate::head::{
    lower_case, no_fields, optional_bytes, pairs, parts_view, status_code, valid_name, valid_status,
    valid_value, with_field, HeadView, SAFE_FIELD_COUNT,
};
use crate::receiving::{unacknowledged, MAX_WINDOW};
use crate::sending::Room;
use bytes::Bytes;
use h2::server::{Connection, Handshake, SendResponse};
use h2::{RecvStream, SendStream};
use http::header::{HeaderName, HeaderValue, InvalidHeaderName, InvalidHeaderValue, MaxSizeReached};
use http::request::Parts;
use http::status::InvalidStatusCode;
use http::{HeaderMap, Response, StatusCode};
use std::future::Future;
use std::pin::Pin;
use std::task::{Context, Poll, Waker};
use tokio::io::{AsyncRead, AsyncWrite, Join, ReadBuf};
use vstd::prelude::*;

verus! {

// ---------------------------------------------------------------------------
// bytes
// ---------------------------------------------------------------------------

/// `bytes::Bytes`, a shared slice of bytes that does not change.
#[verifier::external_type_specification]
#[verifier::external_body]
pub struct ExBytes(bytes::Bytes);

/// The bytes that a `Bytes` holds.
pub uninterp spec fn content(b: Bytes) -> Seq<u8>;

/// `Bytes::copy_from_slice` gives a value that holds the bytes of the slice.
pub assume_specification[ bytes::Bytes::copy_from_slice ](data: &[u8]) -> (b: Bytes)
    ensures
        content(b) == data@,
;

/// `Bytes::len` is the number of bytes held.
pub assume_specification[ bytes::Bytes::len ](b: &Bytes) -> (n: usize)
    ensures
        n == content(*b).len(),
;

/// `Bytes::slice` over a range `from..to` gives a value that holds the bytes at
/// the positions from `from` up to, and without, `to`. It panics where the range
/// is not one of positions in the bytes, which `requires` leaves out.
#[verifier::external_body]
pub(crate) fn bytes_slice(b: &Bytes, from: usize, to: usize) -> (r: Bytes)
    requires
        from <= to <= content(*b).len(),
    ensures
        content(r) == content(*b).subrange(from as int, to as int),
{
    b.slice(from..to)
}

/// The bytes of a `Bytes`, copied out of the slice that it derefs to.
#[verifier::external_body]
pub(crate) fn bytes_to_vec(b: &Bytes) -> (r: Vec<u8>)
    ensures
        r@ == content(*b),
{
    b.to_vec()
}

// ---------------------------------------------------------------------------
// tokio: the buffer that a transport is asked to fill
// ---------------------------------------------------------------------------

/// `tokio::io::ReadBuf`, a buffer of fixed size that is filled from its start.
#[verifier::external_type_specification]
#[verifier::external_body]
pub struct ExReadBuf<'a>(tokio::io::ReadBuf<'a>);

/// The bytes that a `ReadBuf` has been filled with.
pub uninterp spec fn filled(buf: ReadBuf<'_>) -> Seq<u8>;

/// The number of bytes that a `ReadBuf` has room for in all.
pub uninterp spec fn room(buf: ReadBuf<'_>) -> nat;

/// `ReadBuf::remaining` is the room that is not filled yet.
pub assume_specification<'a>[ tokio::io::ReadBuf::<'a>::remaining ](buf: &ReadBuf<'a>) -> (n: usize)
    ensures
        n == room(*buf) - filled(*buf).len(),
;

/// `ReadBuf::put_slice` appends the slice to what is filled. It panics where the
/// slice does not fit, which `requires` leaves out.
pub assume_specification<'a>[ tokio::io::ReadBuf::<'a>::put_slice ](
    buf: &mut ReadBuf<'a>,
    data: &[u8],
)
    requires
        filled(*old(buf)).len() + data@.len() <= room(*old(buf)),
    ensures
        filled(*final(buf)) == filled(*old(buf)) + data@,
        room(*final(buf)) == room(*old(buf)),
;

// ---------------------------------------------------------------------------
// http: status codes and header fields
// ---------------------------------------------------------------------------

/// `http::StatusCode`, a number of three digits.
#[verifier::external_type_specification]
#[verifier::external_body]
pub struct ExStatusCode(http::StatusCode);

/// The error of `StatusCode::from_u16`.
#[verifier::external_type_specification]
#[verifier::external_body]
pub struct ExInvalidStatusCode(http::status::InvalidStatusCode);

/// `http::HeaderName`, the name of a field in lower case.
#[verifier::external_type_specification]
#[verifier::external_body]
pub struct ExHeaderName(http::header::HeaderName);

/// The error of `HeaderName::from_bytes`.
#[verifier::external_type_specification]
#[verifier::external_body]
pub struct ExInvalidHeaderName(http::header::InvalidHeaderName);

/// `http::HeaderValue`, the value of a field.
#[verifier::external_type_specification]
#[verifier::external_body]
pub struct ExHeaderValue(http::header::HeaderValue);

/// The error of `HeaderValue::from_bytes`.
#[verifier::external_type_specification]
#[verifier::external_body]
pub struct ExInvalidHeaderValue(http::header::InvalidHeaderValue);

/// `http::HeaderMap`, a map from the names of fields to their values.
#[verifier::external_type_specification]
#[verifier::external_body]
#[verifier::reject_recursive_types(T)]
pub struct ExHeaderMap<T>(http::HeaderMap<T>);

/// The error of `HeaderMap::try_append`.
#[verifier::external_type_specification]
#[verifier::external_body]
pub struct ExMaxSizeReached(http::header::MaxSizeReached);

/// The number that a `StatusCode` holds.
pub uninterp spec fn status_number(status: StatusCode) -> u16;

/// The bytes that a `HeaderName` holds.
pub uninterp spec fn name_bytes(name: HeaderName) -> Seq<u8>;

/// The bytes that a `HeaderValue` holds.
pub uninterp spec fn value_bytes(value: HeaderValue) -> Seq<u8>;

/// What a `HeaderMap` holds: each name with its values, in the order in which they
/// were appended.
pub uninterp spec fn fields(map: HeaderMap) -> Map<Seq<u8>, Seq<Seq<u8>>>;

/// The text of the error of `StatusCode::from_u16` and `StatusCode::from_bytes`, by its
/// `Display`.
#[verifier::external_body]
pub(crate) fn status_error_text(e: &InvalidStatusCode) -> (r: String)
    ensures
        r@ == "invalid status code"@,
{
    e.to_string()
}

/// The text of the error of `HeaderName::from_bytes`, by its `Display`.
#[verifier::external_body]
pub(crate) fn name_error_text(e: &InvalidHeaderName) -> (r: String)
    ensures
        r@ == "invalid HTTP header name"@,
{
    e.to_string()
}

/// The text of the error of `HeaderValue::from_bytes`, by its `Display`.
#[verifier::external_body]
pub(crate) fn value_error_text(e: &InvalidHeaderValue) -> (r: String)
    ensures
        r@ == "failed to parse header value"@,
{
    e.to_string()
}

/// `StatusCode::from_u16` takes the numbers from 100 to 999 and no others.
pub assume_specification[ http::StatusCode::from_u16 ](src: u16) -> (r: Result<
    StatusCode,
    InvalidStatusCode,
>)
    ensures
        r is Ok <==> valid_status(src),
        r matches Ok(status) ==> status_number(status) == src,
;

/// `StatusCode::from_bytes` takes three decimal digits, of which the first is not zero,
/// and nothing else, and reads them as a number.
pub assume_specification[ http::StatusCode::from_bytes ](src: &[u8]) -> (r: Result<
    StatusCode,
    InvalidStatusCode,
>)
    ensures
        r is Ok <==> status_code(src@) is Some,
        r matches Ok(status) ==> status_code(src@) == Some(status_number(status)),
;

/// `HeaderName::from_bytes` takes a name that is not empty, no longer than 65535
/// bytes and made of token characters, and puts it in lower case.
pub assume_specification[ http::header::HeaderName::from_bytes ](src: &[u8]) -> (r: Result<
    HeaderName,
    InvalidHeaderName,
>)
    ensures
        r is Ok <==> valid_name(src@),
        r matches Ok(name) ==> name_bytes(name) == lower_case(src@),
;

/// `HeaderValue::from_bytes` takes a value whose bytes are tabs or lie above the
/// control characters, and keeps it as it is.
pub assume_specification[ http::header::HeaderValue::from_bytes ](src: &[u8]) -> (r: Result<
    HeaderValue,
    InvalidHeaderValue,
>)
    ensures
        r is Ok <==> valid_value(src@),
        r matches Ok(value) ==> value_bytes(value) == src@,
;

/// `HeaderMap::new` gives a map that holds nothing.
pub assume_specification[ http::HeaderMap::new ]() -> (map: HeaderMap)
    ensures
        fields(map) == no_fields(),
;

/// `HeaderMap::try_append` puts the value behind those that the name has, and says
/// whether it had any. It refuses, and leaves the map as it is, only where its table
/// would have to grow past 32768 slots: a table of that size is full at 24576 names,
/// and where the hashes collide badly it asks to grow once a fifth of it is taken, at
/// 6554 names.
#[verifier::external_body]
pub(crate) fn append_field(map: &mut HeaderMap, name: HeaderName, value: HeaderValue) -> (r: Result<
    bool,
    MaxSizeReached,
>)
    ensures
        r is Ok ==> fields(*final(map)) == with_field(
            fields(*old(map)),
            name_bytes(name),
            value_bytes(value),
        ),
        r matches Ok(had) ==> had == fields(*old(map)).contains_key(name_bytes(name)),
        r is Err ==> fields(*final(map)) == fields(*old(map)) && fields(*old(map)).dom().len()
            > SAFE_FIELD_COUNT,
{
    map.try_append(name, value)
}

// ---------------------------------------------------------------------------
// http: the head of a request
// ---------------------------------------------------------------------------

/// `http::request::Parts`, the head of a request.
#[verifier::external_type_specification]
#[verifier::external_body]
pub struct ExParts(http::request::Parts);

/// The method of a request head.
pub uninterp spec fn parts_method(parts: Parts) -> Seq<u8>;

/// The scheme in the URI of a request head.
pub uninterp spec fn parts_scheme(parts: Parts) -> Option<Seq<u8>>;

/// The authority in the URI of a request head.
pub uninterp spec fn parts_authority(parts: Parts) -> Option<Seq<u8>>;

/// The path and query in the URI of a request head.
pub uninterp spec fn parts_path(parts: Parts) -> Option<Seq<u8>>;

/// The fields of a request head, in the order in which its map walks them.
pub uninterp spec fn parts_fields(parts: Parts) -> Seq<(Seq<u8>, Seq<u8>)>;

/// `Method::as_str` of the method of a request head.
#[verifier::external_body]
pub(crate) fn request_method(parts: &Parts) -> (r: Vec<u8>)
    ensures
        r@ == parts_method(*parts),
{
    parts.method.as_str().as_bytes().to_vec()
}

/// `Uri::scheme_str` of the URI of a request head.
#[verifier::external_body]
pub(crate) fn request_scheme(parts: &Parts) -> (r: Option<Vec<u8>>)
    ensures
        optional_bytes(r) == parts_scheme(*parts),
{
    parts.uri.scheme_str().map(|s| s.as_bytes().to_vec())
}

/// `Uri::authority` of the URI of a request head.
#[verifier::external_body]
pub(crate) fn request_authority(parts: &Parts) -> (r: Option<Vec<u8>>)
    ensures
        optional_bytes(r) == parts_authority(*parts),
{
    parts.uri.authority().map(|a| a.as_str().as_bytes().to_vec())
}

/// `Uri::path_and_query` of the URI of a request head.
#[verifier::external_body]
pub(crate) fn request_path(parts: &Parts) -> (r: Option<Vec<u8>>)
    ensures
        optional_bytes(r) == parts_path(*parts),
{
    parts.uri.path_and_query().map(|p| p.as_str().as_bytes().to_vec())
}

/// `HeaderMap::iter` over the fields of a request head, each as a pair of bytes.
#[verifier::external_body]
pub(crate) fn request_fields(parts: &Parts) -> (r: Vec<(Vec<u8>, Vec<u8>)>)
    ensures
        pairs(r@) == parts_fields(*parts),
{
    parts.headers.iter().map(|(n, v)| (n.as_str().as_bytes().to_vec(), v.as_bytes().to_vec())).collect()
}

// ---------------------------------------------------------------------------
// h2: errors
// ---------------------------------------------------------------------------

/// `h2::Error`.
#[verifier::external_type_specification]
#[verifier::external_body]
pub struct ExH2Error(h2::Error);

/// The error code that an `h2::Error` carries, where it carries one.
pub uninterp spec fn error_reason(e: h2::Error) -> Option<u32>;

/// `h2::Error::reason`, as a number.
#[verifier::external_body]
pub(crate) fn reason_of(e: &h2::Error) -> (r: Option<u32>)
    ensures
        r == error_reason(*e),
{
    e.reason().map(u32::from)
}

// ---------------------------------------------------------------------------
// h2: the connection
// ---------------------------------------------------------------------------

/// An `h2::server::Handshake` that has not come to its end, over a transport of
/// any kind. The type has a parameter that is bound by a trait of another crate, so it
/// is held in a type of its own.
#[verifier::external_body]
pub struct Opening(Handshake<Join<Pin<Box<dyn AsyncRead>>, Pin<Box<dyn AsyncWrite>>>, Bytes>);

/// An `h2::server::Connection`, past its handshake. It is held as the handshake is,
/// for the same reason.
#[verifier::external_body]
pub struct Link(Connection<Join<Pin<Box<dyn AsyncRead>>, Pin<Box<dyn AsyncWrite>>>, Bytes>);

/// How often a handshake has been polled.
pub uninterp spec fn handshake_polls(opening: Opening) -> nat;

/// What polling a connection for a new stream answers, as a value.
pub enum AcceptAnswer {
    Stream { stream_id: u32, head: HeadView },
    Failed,
    Done,
    Pending,
}

/// What passes between the caller and a connection.
pub enum LinkExchange {
    /// It was polled for a new stream, with this answer.
    Accept(AcceptAnswer),
    /// It was told how wide to keep the window of the connection for data of the peer.
    Window(u32),
    /// It was asked to shut down.
    Shutdown,
}

/// What has passed between the caller and a connection, oldest first.
pub uninterp spec fn link_log(link: Link) -> Seq<LinkExchange>;

/// What polling a handshake answers. One that waits is handed back, so that none
/// can be polled again after its end.
pub enum HandshakePoll {
    Done(Link),
    Failed(h2::Error),
    Pending(Opening),
}

/// `h2::server::handshake` sets up a handshake over a transport, whose two
/// directions go through one handle each. What the handshake will do depends on the
/// bytes that come over the transport, and nothing is claimed of it but that it has not
/// been polled.
#[verifier::external_body]
pub(crate) fn start_handshake<T: AsyncRead + AsyncWrite + Clone + 'static>(io: T) -> (r: Opening)
    ensures
        handshake_polls(r) == 0,
{
    let reader: Pin<Box<dyn AsyncRead>> = Box::pin(io.clone());
    let writer: Pin<Box<dyn AsyncWrite>> = Box::pin(io);
    Opening(h2::server::handshake(tokio::io::join(reader, writer)))
}

/// `Future::poll` of a handshake, under a waker that does nothing. The answer
/// depends on the bytes that have come over the transport; of a connection that
/// comes out it is claimed that nothing has passed through it yet. A handshake
/// panics where it is polled after its end, so the argument is used up unless it
/// still waits; then it has been polled once more.
#[verifier::external_body]
pub(crate) fn poll_handshake(opening: Opening) -> (r: HandshakePoll)
    ensures
        r matches HandshakePoll::Done(link) ==> link_log(link) == Seq::<LinkExchange>::empty(),
        r matches HandshakePoll::Pending(next) ==> handshake_polls(next) == handshake_polls(opening)
            + 1,
{
    let mut handshake = opening.0;
    match Pin::new(&mut handshake).poll(&mut Context::from_waker(Waker::noop())) {
        Poll::Ready(Ok(conn)) => HandshakePoll::Done(Link(conn)),
        Poll::Ready(Err(e)) => HandshakePoll::Failed(e),
        Poll::Pending => HandshakePoll::Pending(Opening(handshake)),
    }
}

/// What polling for a new stream answers.
pub enum AcceptPoll {
    Stream(Parts, RecvStream, Responder),
    Failed(h2::Error),
    Done,
    Pending,
}

impl AcceptPoll {
    /// The answer as a value.
    pub open spec fn answer(self) -> AcceptAnswer {
        match self {
            AcceptPoll::Stream(parts, _, responder) => AcceptAnswer::Stream {
                stream_id: answers_on(responder),
                head: parts_view(parts),
            },
            AcceptPoll::Failed(_) => AcceptAnswer::Failed,
            AcceptPoll::Done => AcceptAnswer::Done,
            AcceptPoll::Pending => AcceptAnswer::Pending,
        }
    }
}

/// `Connection::poll_accept`, under a waker that does nothing. The answer depends
/// on the bytes that have come over the transport; of a new stream it is claimed
/// that its two handles are to one stream, and that nothing has passed through the
/// receiving half yet. The log of the connection grows by the answer.
#[verifier::external_body]
pub(crate) fn poll_accept(link: &mut Link) -> (r: AcceptPoll)
    ensures
        r matches AcceptPoll::Stream(_, recv, responder) ==> {
            &&& recv_log(recv) == Seq::<RecvExchange>::empty()
            &&& receives_on(recv) == answers_on(responder)
        },
        link_log(*final(link)) == link_log(*old(link)).push(LinkExchange::Accept(r.answer())),
{
    match link.0.poll_accept(&mut Context::from_waker(Waker::noop())) {
        Poll::Ready(Some(Ok((request, respond)))) => {
            let (parts, recv) = request.into_parts();
            AcceptPoll::Stream(parts, recv, Responder(respond))
        },
        Poll::Ready(Some(Err(e))) => AcceptPoll::Failed(e),
        Poll::Ready(None) => AcceptPoll::Done,
        Poll::Pending => AcceptPoll::Pending,
    }
}

/// `Connection::set_target_window_size` tells the connection how wide to keep its window:
/// the room that the peer has on the connection as a whole, and what is out on streams,
/// come to `size` bytes. It panics where a window cannot be so wide, which `requires`
/// leaves out. The log of the connection grows by that.
#[verifier::external_body]
pub(crate) fn set_window(link: &mut Link, size: u32)
    requires
        size <= MAX_WINDOW,
    ensures
        link_log(*final(link)) == link_log(*old(link)).push(LinkExchange::Window(size)),
{
    link.0.set_target_window_size(size)
}

/// `Connection::graceful_shutdown` asks the connection to tell the peer that no new
/// streams will be taken. The log of the connection grows by that.
#[verifier::external_body]
pub(crate) fn shut_down(link: &mut Link)
    ensures
        link_log(*final(link)) == link_log(*old(link)).push(LinkExchange::Shutdown),
{
    link.0.graceful_shutdown()
}

// ---------------------------------------------------------------------------
// h2: the receiving half of a stream
// ---------------------------------------------------------------------------

/// `h2::RecvStream`, the handle to the receiving half of a stream.
#[verifier::external_type_specification]
#[verifier::external_body]
pub struct ExRecvStream(h2::RecvStream);

/// What polling a receiving half for body data answers, as a value.
pub enum DataReply {
    Chunk(Seq<u8>),
    Failed(Option<u32>),
    End,
    Pending,
}

/// What passes between the caller and the receiving half of a stream.
pub enum RecvExchange {
    /// It was polled for body data, with this answer.
    Data(DataReply),
    /// It was asked whether the stream has ended, with this answer.
    Ended(bool),
    /// So many bytes of a window that were out were given back.
    Release(usize),
}

/// What has passed through the handle, oldest first.
pub uninterp spec fn recv_log(recv: RecvStream) -> Seq<RecvExchange>;

/// The number of the stream that the handle receives on.
pub uninterp spec fn receives_on(recv: RecvStream) -> u32;

/// What polling for body data answers.
pub enum DataPoll {
    Chunk(Bytes),
    Failed(h2::Error),
    End,
    Pending,
}

impl DataPoll {
    /// The answer as a value.
    pub open spec fn reply(self) -> DataReply {
        match self {
            DataPoll::Chunk(chunk) => DataReply::Chunk(content(chunk)),
            DataPoll::Failed(e) => DataReply::Failed(error_reason(e)),
            DataPoll::End => DataReply::End,
            DataPoll::Pending => DataReply::Pending,
        }
    }
}

/// `RecvStream::poll_data`, under a waker that does nothing. The answer depends on
/// the bytes that have come over the transport. The log of the handle grows by it.
#[verifier::external_body]
pub(crate) fn poll_data(recv: &mut RecvStream) -> (r: DataPoll)
    ensures
        recv_log(*final(recv)) == recv_log(*old(recv)).push(RecvExchange::Data(r.reply())),
        receives_on(*final(recv)) == receives_on(*old(recv)),
{
    match recv.poll_data(&mut Context::from_waker(Waker::noop())) {
        Poll::Ready(Some(Ok(chunk))) => DataPoll::Chunk(chunk),
        Poll::Ready(Some(Err(e))) => DataPoll::Failed(e),
        Poll::Ready(None) => DataPoll::End,
        Poll::Pending => DataPoll::Pending,
    }
}

/// `RecvStream::is_end_stream`. The answer depends on the bytes that have come over
/// the transport. The log of the handle grows by it.
#[verifier::external_body]
pub(crate) fn is_end_stream(recv: &mut RecvStream) -> (r: bool)
    ensures
        recv_log(*final(recv)) == recv_log(*old(recv)).push(RecvExchange::Ended(r)),
        receives_on(*final(recv)) == receives_on(*old(recv)),
{
    recv.is_end_stream()
}

/// `FlowControl::release_capacity` on the handle's flow control. It gives `size` bytes
/// back to the window of the stream and to that of the connection. It refuses to give
/// back more than is out; what the handle has answered with and what has not been given
/// back through it is out, so that within it there is no refusal. The log of the handle
/// grows by what is given back.
#[verifier::external_body]
pub(crate) fn release_capacity(recv: &mut RecvStream, size: usize) -> (r: Result<(), h2::Error>)
    requires
        size <= unacknowledged(recv_log(*old(recv))),
    ensures
        r is Ok,
        recv_log(*final(recv)) == recv_log(*old(recv)).push(RecvExchange::Release(size)),
        receives_on(*final(recv)) == receives_on(*old(recv)),
{
    recv.flow_control().release_capacity(size)
}

// ---------------------------------------------------------------------------
// h2: the sending half of a stream
// ---------------------------------------------------------------------------

/// An `h2::server::SendResponse`, the handle that answers a request. It is held as the
/// handshake is, for the same reason.
#[verifier::external_body]
pub struct Responder(SendResponse<Bytes>);

/// `h2::SendStream`, the handle to the sending half of a stream.
#[verifier::external_type_specification]
#[verifier::external_body]
#[verifier::reject_recursive_types(B)]
pub struct ExSendStream<B>(h2::SendStream<B>);

/// What passes between the caller and the sending half of a stream.
pub enum SendExchange {
    /// The head of the response, which opens the sending half.
    Head { status: u16, fields: Map<Seq<u8>, Seq<Seq<u8>>>, end_stream: bool },
    /// Room for so many bytes was asked for.
    Reserve(usize),
    /// It was polled for room, with an answer of this meaning.
    Told(Room),
    /// A piece of the body.
    Data { data: Seq<u8>, end_stream: bool },
    /// An end to the stream, with an error code.
    Reset(u32),
}

/// What has passed through a sending half, oldest first: the head that opened it, and
/// then what has passed through the handle.
pub uninterp spec fn send_log(send: SendStream<Bytes>) -> Seq<SendExchange>;

/// The number of the stream that the handle sends on.
pub uninterp spec fn sends_on(send: SendStream<Bytes>) -> u32;

/// The number of the stream that the handle answers on.
pub uninterp spec fn answers_on(responder: Responder) -> u32;

/// `SendResponse::stream_id`, as a number.
#[verifier::external_body]
pub(crate) fn response_stream_id(responder: &Responder) -> (r: u32)
    ensures
        r == answers_on(*responder),
{
    responder.0.stream_id().as_u32()
}

/// `SendResponse::send_response` with a response of the given status and fields.
/// Where it takes the response it opens the sending half of the same stream with it;
/// whether it does depends on the state of the stream and of the connection.
#[verifier::external_body]
pub(crate) fn send_response(
    responder: Responder,
    status: StatusCode,
    map: HeaderMap,
    end_stream: bool,
) -> (r: Result<SendStream<Bytes>, h2::Error>)
    ensures
        r matches Ok(send) ==> send_log(send) == seq![
            SendExchange::Head { status: status_number(status), fields: fields(map), end_stream },
        ],
        r matches Ok(send) ==> sends_on(send) == answers_on(responder),
{
    let mut respond = responder.0;
    let mut response = Response::new(());
    *response.status_mut() = status;
    *response.headers_mut() = map;
    respond.send_response(response, end_stream)
}

/// `SendStream::reserve_capacity` asks for room. The log of the handle grows by that.
#[verifier::external_body]
pub(crate) fn reserve_capacity(send: &mut SendStream<Bytes>, capacity: usize)
    ensures
        send_log(*final(send)) == send_log(*old(send)).push(SendExchange::Reserve(capacity)),
        sends_on(*final(send)) == sends_on(*old(send)),
{
    send.reserve_capacity(capacity)
}

/// What polling for room to send answers.
pub enum CapacityPoll {
    Available(usize),
    Failed(h2::Error),
    Closed,
    Pending,
}

/// `SendStream::poll_capacity`, under a waker that does nothing. The answer depends
/// on the windows that the peer has opened. The log of the handle grows by what the
/// answer means.
#[verifier::external_body]
pub(crate) fn poll_capacity(send: &mut SendStream<Bytes>) -> (r: CapacityPoll)
    ensures
        send_log(*final(send)) == send_log(*old(send)).push(SendExchange::Told(r.room())),
        sends_on(*final(send)) == sends_on(*old(send)),
{
    match send.poll_capacity(&mut Context::from_waker(Waker::noop())) {
        Poll::Ready(Some(Ok(n))) => CapacityPoll::Available(n),
        Poll::Ready(Some(Err(e))) => CapacityPoll::Failed(e),
        Poll::Ready(None) => CapacityPoll::Closed,
        Poll::Pending => CapacityPoll::Pending,
    }
}

/// `SendStream::send_data` hands a piece of the body over, and the log of the handle
/// grows by it. Whether the stream takes the data depends on its state.
#[verifier::external_body]
pub(crate) fn send_data(send: &mut SendStream<Bytes>, data: Bytes, end_stream: bool) -> (r: Result<
    (),
    h2::Error,
>)
    ensures
        send_log(*final(send)) == send_log(*old(send)).push(
            SendExchange::Data { data: content(data), end_stream },
        ),
        sends_on(*final(send)) == sends_on(*old(send)),
{
    send.send_data(data, end_stream)
}

/// `SendStream::send_reset` with the error code as a `Reason`. The log of the handle
/// grows by it.
#[verifier::external_body]
pub(crate) fn send_reset(send: &mut SendStream<Bytes>, error_code: u32)
    ensures
        send_log(*final(send)) == send_log(*old(send)).push(SendExchange::Reset(error_code)),
        sends_on(*final(send)) == sends_on(*old(send)),
{
    send.send_reset(h2::Reason::from(error_code))
}

} // verus!
