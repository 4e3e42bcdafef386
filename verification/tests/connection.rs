use rh2::buffer::{IoInner, ReadPoll};
use rh2::connection::H2Connection;
use rh2::error::CodecError;
use rh2::event::Event;
use std::cell::RefCell;
use std::io;
use std::pin::Pin;
use std::rc::Rc;
use std::task::{Context, Poll};
use tokio::io::{AsyncRead, AsyncWrite, ReadBuf};

// A transport in memory, shared between the connection and the test.

#[derive(Clone)]
struct Wire(Rc<RefCell<IoInner>>);

impl AsyncRead for Wire {
    fn poll_read(
        self: Pin<&mut Self>,
        _cx: &mut Context<'_>,
        buf: &mut ReadBuf<'_>,
    ) -> Poll<io::Result<()>> {
        match self.0.borrow_mut().poll_read(buf) {
            ReadPoll::Ready => Poll::Ready(Ok(())),
            ReadPoll::Pending => Poll::Pending,
        }
    }
}

impl AsyncWrite for Wire {
    fn poll_write(
        self: Pin<&mut Self>,
        _cx: &mut Context<'_>,
        data: &[u8],
    ) -> Poll<io::Result<usize>> {
        Poll::Ready(Ok(self.0.borrow_mut().poll_write(data)))
    }

    fn poll_flush(self: Pin<&mut Self>, _cx: &mut Context<'_>) -> Poll<io::Result<()>> {
        Poll::Ready(Ok(()))
    }

    fn poll_shutdown(self: Pin<&mut Self>, _cx: &mut Context<'_>) -> Poll<io::Result<()>> {
        Poll::Ready(Ok(()))
    }
}

struct Server {
    wire: Wire,
    conn: H2Connection,
}

impl Server {
    fn new() -> Server {
        let wire = Wire(Rc::new(RefCell::new(IoInner::default())));
        let conn = H2Connection::new(wire.clone());
        Server { wire, conn }
    }

    /// A server past its handshake. The client gives each stream the window.
    fn started(window: u32) -> Server {
        let mut server = Server::new();
        let mut bytes = PREFACE.to_vec();
        let mut setting = vec![0, 4];
        setting.extend_from_slice(&window.to_be_bytes());
        bytes.extend(frame(SETTINGS, 0, 0, &setting));
        assert!(server.receive_data(&bytes).unwrap().is_empty());
        server.frames();
        server
    }

    fn receive_data(&mut self, data: &[u8]) -> Result<Vec<Event>, CodecError> {
        self.wire.0.borrow_mut().push_inbound(data);
        self.conn.receive()
    }

    fn receive_eof(&mut self) -> Result<Vec<Event>, CodecError> {
        self.wire.0.borrow_mut().close_inbound();
        self.conn.receive()
    }

    /// The frames that go out.
    fn frames(&mut self) -> Vec<Frame> {
        self.conn.pump().unwrap();
        let out = self.wire.0.borrow_mut().take_outbound();
        let mut frames = Vec::new();
        let mut at = 0;
        while at < out.len() {
            let len = u32::from_be_bytes([0, out[at], out[at + 1], out[at + 2]]) as usize;
            frames.push(Frame {
                kind: out[at + 3],
                flags: out[at + 4],
                stream: u32::from_be_bytes([out[at + 5], out[at + 6], out[at + 7], out[at + 8]]),
                payload: out[at + 9..at + 9 + len].to_vec(),
            });
            at += 9 + len;
        }
        frames
    }

    /// The frames of one kind that go out.
    fn frames_of(&mut self, kind: u8) -> Vec<Frame> {
        self.frames().into_iter().filter(|f| f.kind == kind).collect()
    }
}

#[derive(Debug, PartialEq)]
struct Frame {
    kind: u8,
    flags: u8,
    stream: u32,
    payload: Vec<u8>,
}

const PREFACE: &[u8] = b"PRI * HTTP/2.0\r\n\r\nSM\r\n\r\n";
const DATA: u8 = 0;
const HEADERS: u8 = 1;
const RST_STREAM: u8 = 3;
const SETTINGS: u8 = 4;
const GOAWAY: u8 = 7;
const WINDOW_UPDATE: u8 = 8;
const END_STREAM: u8 = 1;
const END_HEADERS: u8 = 4;
const WIDE: u32 = 65535;

fn frame(kind: u8, flags: u8, stream: u32, payload: &[u8]) -> Vec<u8> {
    let mut bytes = (payload.len() as u32).to_be_bytes()[1..].to_vec();
    bytes.push(kind);
    bytes.push(flags);
    bytes.extend_from_slice(&stream.to_be_bytes());
    bytes.extend_from_slice(payload);
    bytes
}

fn data_frame(stream: u32, payload: &[u8], end_stream: bool) -> Frame {
    let flags = if end_stream { END_STREAM } else { 0 };
    Frame { kind: DATA, flags, stream, payload: payload.to_vec() }
}

/// A GET of `/` over http from `a.b`, with a field `x: y`.
fn get(stream: u32) -> Vec<u8> {
    let block = [0x82, 0x86, 0x84, 0x41, 3, b'a', b'.', b'b', 0, 1, b'x', 1, b'y'];
    frame(HEADERS, END_HEADERS | END_STREAM, stream, &block)
}

/// A POST to `/` over https, whose body is still to come.
fn post(stream: u32) -> Vec<u8> {
    frame(HEADERS, END_HEADERS, stream, &[0x83, 0x87, 0x84])
}

fn field(name: &[u8], value: &[u8]) -> (Vec<u8>, Vec<u8>) {
    (name.to_vec(), value.to_vec())
}

/// The texts of the events.
fn texts(events: &[Event]) -> Vec<String> {
    events
        .iter()
        .map(|event| match event {
            Event::Request(e) => e.repr(),
            Event::Data(e) => e.repr(),
            Event::Ended(e) => e.repr(),
            Event::Reset(e) => e.repr(),
            Event::Terminated(e) => e.repr(),
        })
        .collect()
}

#[test]
fn a_request_is_answered() {
    let mut server = Server::started(WIDE);
    let events = server.receive_data(&get(1)).unwrap();
    for event in &events {
        if let Event::Request(request) = event {
            let headers = vec![field(b"content-type", b"text/plain")];
            server.conn.send_headers(request.stream_id, 200, &headers, false).unwrap();
            server.conn.send_data(request.stream_id, b"hello", true);
        }
    }
    let frames = server.frames();
    let heads: Vec<&Frame> = frames.iter().filter(|f| f.kind == HEADERS).collect();
    assert_eq!(heads.len(), 1);
    assert_eq!((heads[0].stream, heads[0].flags), (1, END_HEADERS));
    assert_eq!(heads[0].payload[0], 0x88);
    let bodies: Vec<&Frame> = frames.iter().filter(|f| f.kind == DATA).collect();
    assert_eq!(bodies, vec![&data_frame(1, b"hello", true)]);
}

#[test]
fn a_request_is_reported_with_its_header_list() {
    let mut server = Server::started(WIDE);
    let events = server.receive_data(&get(1)).unwrap();
    assert_eq!(
        texts(&events),
        vec!["RequestReceived(stream_id=1, stream_ended=true)", "StreamEnded(stream_id=1)"]
    );
    match &events[0] {
        Event::Request(request) => assert_eq!(
            request.headers(),
            &vec![
                field(b":method", b"GET"),
                field(b":scheme", b"http"),
                field(b":authority", b"a.b"),
                field(b":path", b"/"),
                field(b"x", b"y"),
            ]
        ),
        _ => panic!("no request"),
    }
}

#[test]
fn a_connect_request_is_for_the_root() {
    let mut server = Server::started(WIDE);
    let block = [0x02, 7, b'C', b'O', b'N', b'N', b'E', b'C', b'T', 0x41, 3, b'a', b'.', b'b'];
    let events = server.receive_data(&frame(HEADERS, END_HEADERS, 1, &block)).unwrap();
    match &events[0] {
        Event::Request(request) => {
            assert_eq!(
                request.headers(),
                &vec![
                    field(b":method", b"CONNECT"),
                    field(b":authority", b"a.b"),
                    field(b":path", b"/"),
                ]
            );
            assert!(!request.stream_ended);
        }
        _ => panic!("no request"),
    }
}

#[test]
fn the_handshake_waits_for_the_client() {
    let mut server = Server::new();
    assert!(server.receive_data(b"").unwrap().is_empty());
    assert!(server.receive_data(&PREFACE[..10]).unwrap().is_empty());
    assert!(server.receive_data(&PREFACE[10..]).unwrap().is_empty());
    let mut rest = frame(SETTINGS, 0, 0, b"");
    rest.extend(get(1));
    let events = server.receive_data(&rest).unwrap();
    assert_eq!(events.len(), 2);
}

#[test]
fn a_failed_handshake_closes_the_connection() {
    let mut server = Server::new();
    let error = server.receive_data(b"GET / HTTP/1.1\r\nhost: example.com\r\n\r\n").unwrap_err();
    match &error {
        CodecError::HandshakeFailed(cause) => {
            assert_eq!(error.message(), format!("handshake failed: {}", cause));
            assert_ne!(cause.to_string(), "");
        }
        _ => panic!("another error"),
    }
    assert!(server.receive_data(PREFACE).unwrap().is_empty());
    assert!(server.receive_eof().unwrap().is_empty());
}

#[test]
fn a_body_comes_in_order() {
    let mut server = Server::started(WIDE);
    let mut bytes = post(1);
    bytes.extend(frame(DATA, 0, 1, b"abc"));
    bytes.extend(frame(DATA, END_STREAM, 1, b"de"));
    let events = server.receive_data(&bytes).unwrap();
    assert_eq!(
        texts(&events),
        vec![
            "RequestReceived(stream_id=1, stream_ended=false)",
            "DataReceived(stream_id=1)",
            "DataReceived(stream_id=1)",
            "StreamEnded(stream_id=1)",
        ]
    );
    match (&events[1], &events[2]) {
        (Event::Data(first), Event::Data(second)) => {
            assert_eq!(first.data(), &b"abc".to_vec());
            assert!(!first.stream_ended);
            assert_eq!(second.data(), &b"de".to_vec());
            assert!(second.stream_ended);
        }
        _ => panic!("no data"),
    }
}

#[test]
fn the_pieces_of_the_input_do_not_matter() {
    let mut bytes = PREFACE.to_vec();
    bytes.extend(frame(SETTINGS, 0, 0, b""));
    bytes.extend(post(1));
    bytes.extend(frame(DATA, END_STREAM, 1, b"abc"));
    let mut whole = Server::new();
    let at_once = texts(&whole.receive_data(&bytes).unwrap());
    let mut pieces = Server::new();
    let mut one_by_one = Vec::new();
    for b in &bytes {
        one_by_one.extend(texts(&pieces.receive_data(&[*b]).unwrap()));
    }
    assert_eq!(at_once.len(), 3);
    assert_eq!(at_once, one_by_one);
}

#[test]
fn a_reset_by_the_peer_is_reported_with_its_code() {
    let mut server = Server::started(WIDE);
    server.receive_data(&post(1)).unwrap();
    let events = server.receive_data(&frame(RST_STREAM, 0, 1, &[0, 0, 0, 8])).unwrap();
    assert_eq!(texts(&events), vec!["StreamReset(stream_id=1, error_code=8)"]);
    let events = server.receive_data(b"").unwrap();
    assert!(events.is_empty());
}

#[test]
fn the_end_of_the_connection_is_reported_in_every_round() {
    let mut server = Server::started(WIDE);
    let events = server.receive_eof().unwrap();
    assert_eq!(events.len(), 64);
    for text in texts(&events) {
        assert_eq!(text, "ConnectionTerminated()");
    }
}

#[test]
fn a_failed_connection_is_reported_once() {
    let mut server = Server::started(WIDE);
    // Settings belong to the connection, not to a stream.
    let events = server.receive_data(&frame(SETTINGS, 0, 1, b"")).unwrap();
    assert_eq!(texts(&events), vec!["ConnectionTerminated()"]);
    assert!(server.receive_data(&get(1)).unwrap().is_empty());
    assert!(server.receive_eof().unwrap().is_empty());
}

#[test]
fn a_request_is_answered_only_once() {
    let mut server = Server::started(WIDE);
    server.receive_data(&get(1)).unwrap();
    let none = vec![];
    server.conn.send_headers(1, 204, &none, true).unwrap();
    let error = server.conn.send_headers(1, 204, &none, true).unwrap_err();
    assert!(matches!(error, CodecError::UnknownStream(1)));
    assert_eq!(error.message(), "unknown stream 1");
    let heads = server.frames_of(HEADERS);
    assert_eq!(heads.len(), 1);
    assert_eq!(heads[0].flags, END_HEADERS | END_STREAM);
    assert_eq!(heads[0].payload, vec![0x89]);
}

#[test]
fn a_refused_head_leaves_nothing_to_answer() {
    let none = vec![];
    for status in [0, 99, 1000, u16::MAX] {
        let mut server = Server::started(WIDE);
        server.receive_data(&get(1)).unwrap();
        let error = server.conn.send_headers(1, status, &none, true).unwrap_err();
        assert!(matches!(error, CodecError::InvalidStatus(_)));
        let error = server.conn.send_headers(1, 200, &none, true).unwrap_err();
        assert!(matches!(error, CodecError::UnknownStream(1)));
    }
    let mut server = Server::started(WIDE);
    server.receive_data(&get(1)).unwrap();
    server.receive_data(&get(3)).unwrap();
    let error = server.conn.send_headers(1, 200, &vec![field(b"a b", b"")], true).unwrap_err();
    assert!(matches!(error, CodecError::InvalidHeaderName(_)));
    let error = server.conn.send_headers(3, 200, &vec![field(b"a", b"\r")], true).unwrap_err();
    assert!(matches!(error, CodecError::InvalidHeaderValue(_)));
    let error = server.conn.send_headers(5, 0, &vec![field(b"", b"\r")], true).unwrap_err();
    assert!(matches!(error, CodecError::UnknownStream(5)));
}

#[test]
fn a_head_that_the_stream_refuses_is_an_error() {
    let mut server = Server::started(WIDE);
    server.receive_data(&post(1)).unwrap();
    server.receive_data(&frame(RST_STREAM, 0, 1, &[0, 0, 0, 8])).unwrap();
    let error = server.conn.send_headers(1, 200, &vec![], false).unwrap_err();
    match &error {
        CodecError::SendResponseFailed(cause) => {
            assert_eq!(error.message(), format!("send_response failed: {}", cause));
        }
        _ => panic!("another error"),
    }
}

#[test]
fn pseudo_headers_and_capitals_make_no_difference() {
    let mut plain = Server::started(WIDE);
    plain.receive_data(&get(1)).unwrap();
    plain.conn.send_headers(1, 200, &vec![field(b"ab", b"c")], true).unwrap();
    let mut other = Server::started(WIDE);
    other.receive_data(&get(1)).unwrap();
    let headers = vec![field(b":path", b"/x"), field(b"aB", b"c")];
    other.conn.send_headers(1, 200, &headers, true).unwrap();
    let heads = plain.frames_of(HEADERS);
    assert_eq!(heads.len(), 1);
    assert_eq!(heads, other.frames_of(HEADERS));
}

#[test]
fn the_status_pseudo_header_is_sent_as_the_status() {
    let mut server = Server::started(WIDE);
    server.receive_data(&get(1)).unwrap();
    server.receive_data(&get(3)).unwrap();
    server.conn.send_headers(1, 200, &vec![field(b":status", b"404")], true).unwrap();
    let heads = server.frames_of(HEADERS);
    assert_eq!(heads.len(), 1);
    // The index of `:status: 404`.
    assert_eq!(heads[0].payload, vec![0x8d]);
    let error = server.conn.send_headers(3, 200, &vec![field(b":status", b"4")], true).unwrap_err();
    assert!(matches!(error, CodecError::InvalidStatus(_)));
    assert_eq!(error.message(), "invalid status code");
}

#[test]
fn a_refusal_of_the_stream_is_handed_on() {
    let mut server = Server::started(WIDE);
    server.receive_data(&get(1)).unwrap();
    let cause = h2::Error::from(h2::Reason::CANCEL);
    let text = cause.to_string();
    let error = server.conn.on_response(1, false, Err(cause)).unwrap_err();
    assert!(matches!(error, CodecError::SendResponseFailed(_)));
    assert_eq!(error.message(), format!("send_response failed: {}", text));
    server.conn.send_data(1, b"x", true);
    assert!(server.frames_of(DATA).is_empty());
}

#[test]
fn a_stream_ends_once() {
    let mut server = Server::started(WIDE);
    let mut told = Vec::new();
    told.extend(texts(&server.receive_data(&post(1)).unwrap()));
    told.extend(texts(&server.receive_data(&post(3)).unwrap()));
    told.extend(texts(&server.receive_data(&frame(DATA, END_STREAM, 1, b"a")).unwrap()));
    told.extend(texts(&server.receive_data(&frame(DATA, 0, 3, b"b")).unwrap()));
    server.conn.reset_stream(3, 8);
    told.extend(texts(&server.receive_data(&frame(RST_STREAM, 0, 1, &[0, 0, 0, 8])).unwrap()));
    told.extend(texts(&server.receive_data(&frame(RST_STREAM, 0, 3, &[0, 0, 0, 8])).unwrap()));
    server.conn.reset_stream(1, 8);
    told.extend(texts(&server.receive_data(b"").unwrap()));
    assert_eq!(
        told,
        vec![
            "RequestReceived(stream_id=1, stream_ended=false)",
            "RequestReceived(stream_id=3, stream_ended=false)",
            "DataReceived(stream_id=1)",
            "StreamEnded(stream_id=1)",
            "DataReceived(stream_id=3)",
        ]
    );
}

#[test]
fn a_body_waits_for_the_head() {
    let mut server = Server::started(WIDE);
    server.receive_data(&get(1)).unwrap();
    server.conn.send_data(1, b"later", true);
    assert!(server.frames_of(DATA).is_empty());
    server.conn.send_headers(1, 200, &vec![], false).unwrap();
    assert_eq!(server.frames_of(DATA), vec![data_frame(1, b"later", true)]);
}

#[test]
fn a_body_waits_for_the_window() {
    let mut server = Server::started(5);
    server.receive_data(&get(1)).unwrap();
    server.conn.send_headers(1, 200, &vec![], false).unwrap();
    server.conn.send_data(1, b"hello world", true);
    assert_eq!(server.frames_of(DATA), vec![data_frame(1, b"hello", false)]);
    assert!(server.frames_of(DATA).is_empty());
    server.receive_data(&frame(WINDOW_UPDATE, 0, 1, &[0, 0, 0, 2])).unwrap();
    assert_eq!(server.frames_of(DATA), vec![data_frame(1, b" w", false)]);
    server.receive_data(&frame(WINDOW_UPDATE, 0, 1, &[0, 0, 0, 9])).unwrap();
    assert_eq!(server.frames_of(DATA), vec![data_frame(1, b"orld", true)]);
}

#[test]
fn a_long_body_goes_out_whole() {
    let mut server = Server::started(WIDE);
    server.receive_data(&get(1)).unwrap();
    server.conn.send_headers(1, 200, &vec![], false).unwrap();
    let body: Vec<u8> = (0..50000u32).map(|i| i as u8).collect();
    for chunk in body.chunks(7000) {
        server.conn.send_data(1, chunk, false);
    }
    server.conn.send_data(1, b"", true);
    let frames = server.frames_of(DATA);
    let mut sent = Vec::new();
    for f in &frames {
        assert_eq!(f.stream, 1);
        sent.extend_from_slice(&f.payload);
    }
    assert_eq!(sent, body);
    let last = frames.len() - 1;
    for (i, f) in frames.iter().enumerate() {
        assert_eq!(f.flags & END_STREAM != 0, i == last);
    }
}

#[test]
fn an_empty_chunk_ends_the_stream() {
    let mut server = Server::started(0);
    server.receive_data(&get(1)).unwrap();
    server.conn.send_headers(1, 200, &vec![], false).unwrap();
    server.conn.send_data(1, b"", true);
    assert_eq!(server.frames_of(DATA), vec![data_frame(1, b"", true)]);
}

#[test]
fn chunks_without_a_stream_to_take_them_are_dropped() {
    let mut server = Server::started(0);
    server.receive_data(&get(1)).unwrap();
    server.conn.send_headers(1, 200, &vec![], false).unwrap();
    server.conn.send_data(1, b"never", true);
    assert!(server.frames_of(DATA).is_empty());
    server.receive_data(&frame(RST_STREAM, 0, 1, &[0, 0, 0, 8])).unwrap();
    assert!(server.frames_of(DATA).is_empty());
    server.receive_data(&frame(WINDOW_UPDATE, 0, 1, &[0, 0, 0, 9])).unwrap();
    assert!(server.frames_of(DATA).is_empty());
}

#[test]
fn a_reset_is_sent_and_forgets_the_stream() {
    let mut server = Server::started(WIDE);
    server.receive_data(&post(1)).unwrap();
    server.conn.send_headers(1, 200, &vec![], false).unwrap();
    server.frames();
    server.conn.send_data(1, b"gone", false);
    server.conn.reset_stream(1, 8);
    let frames = server.frames();
    assert_eq!(
        frames,
        vec![Frame { kind: RST_STREAM, flags: 0, stream: 1, payload: vec![0, 0, 0, 8] }]
    );
    server.conn.send_data(1, b"still gone", true);
    assert!(server.frames_of(DATA).is_empty());
    let error = server.conn.send_headers(1, 200, &vec![], false).unwrap_err();
    assert!(matches!(error, CodecError::UnknownStream(1)));
    server.conn.reset_stream(1, 8);
    server.conn.reset_stream(99, 0);
    assert!(server.frames_of(RST_STREAM).is_empty());
}

#[test]
fn a_reset_leaves_other_streams_as_they_are() {
    let mut server = Server::started(WIDE);
    server.receive_data(&get(1)).unwrap();
    server.receive_data(&get(3)).unwrap();
    server.conn.send_headers(1, 200, &vec![], false).unwrap();
    server.conn.send_headers(3, 200, &vec![], false).unwrap();
    server.conn.send_data(1, b"one", true);
    server.conn.send_data(3, b"three", true);
    server.conn.reset_stream(1, 2);
    assert_eq!(server.frames_of(DATA), vec![data_frame(3, b"three", true)]);
}

/// The bytes by which the windows of a connection and of one stream are opened.
fn opened(server: &mut Server, stream: u32) -> (u32, u32) {
    let updates = server.frames_of(WINDOW_UPDATE);
    let on = |id: u32| -> u32 {
        updates
            .iter()
            .filter(|f| f.stream == id)
            .map(|f| u32::from_be_bytes([f.payload[0], f.payload[1], f.payload[2], f.payload[3]]))
            .sum()
    };
    (on(0), on(stream))
}

/// A body of 48000 bytes, in three frames.
fn long_body(stream: u32, end_stream: bool) -> Vec<u8> {
    let mut bytes = Vec::new();
    for i in 0..3 {
        let flags = if end_stream && i == 2 { END_STREAM } else { 0 };
        bytes.extend(frame(DATA, flags, stream, &[7; 16000]));
    }
    bytes
}

#[test]
fn reported_data_reopens_the_connection_but_not_the_stream() {
    let mut server = Server::started(WIDE);
    let mut bytes = post(1);
    bytes.extend(long_body(1, false));
    assert_eq!(server.receive_data(&bytes).unwrap().len(), 4);
    assert_eq!(opened(&mut server, 1), (48000, 0));
}

#[test]
fn acknowledged_data_refills_the_stream() {
    let mut server = Server::started(WIDE);
    let mut bytes = post(1);
    bytes.extend(long_body(1, false));
    server.receive_data(&bytes).unwrap();
    assert_eq!(opened(&mut server, 1), (48000, 0));
    server.conn.acknowledge_data(1, 16000);
    server.conn.acknowledge_data(1, 32000);
    assert_eq!(opened(&mut server, 1), (0, 48000));
    // All is as it was: as much again can come, and goes the same way.
    assert_eq!(server.receive_data(&long_body(1, false)).unwrap().len(), 3);
    assert_eq!(opened(&mut server, 1), (48000, 0));
    server.conn.acknowledge_data(1, 48000);
    assert_eq!(opened(&mut server, 1), (0, 48000));
}

#[test]
fn unacknowledged_data_holds_up_no_other_stream() {
    let mut server = Server::started(WIDE);
    for stream in [1, 3, 5, 7] {
        let mut bytes = post(stream);
        bytes.extend(long_body(stream, false));
        assert_eq!(server.receive_data(&bytes).unwrap().len(), 4);
        assert_eq!(opened(&mut server, stream), (48000, 0));
    }
}

#[test]
fn the_end_of_a_stream_settles_its_window() {
    let mut server = Server::started(WIDE);
    for stream in [1, 3, 5] {
        let mut bytes = post(stream);
        bytes.extend(long_body(stream, true));
        assert_eq!(server.receive_data(&bytes).unwrap().len(), 5);
        assert_eq!(opened(&mut server, stream), (48000, 0));
        server.conn.acknowledge_data(stream, 48000);
        server.conn.send_headers(stream, 200, &vec![], true).unwrap();
        assert_eq!(opened(&mut server, stream), (0, 0));
    }
}

#[test]
fn a_reset_settles_the_window_of_a_stream() {
    let mut server = Server::started(WIDE);
    for stream in [1, 3, 5] {
        let mut bytes = post(stream);
        bytes.extend(long_body(stream, false));
        server.receive_data(&bytes).unwrap();
        server.conn.reset_stream(stream, 8);
        assert_eq!(opened(&mut server, stream), (48000, 0));
    }
}

#[test]
fn acknowledging_what_was_not_reported_changes_nothing() {
    let mut server = Server::started(WIDE);
    let mut bytes = post(1);
    bytes.extend(long_body(1, false));
    server.receive_data(&bytes).unwrap();
    server.frames();
    server.conn.acknowledge_data(1, 48001);
    server.conn.acknowledge_data(1, usize::MAX);
    server.conn.acknowledge_data(7, 3);
    assert!(server.frames().is_empty());
    server.conn.acknowledge_data(1, 48000);
    assert_eq!(opened(&mut server, 1), (0, 48000));
    server.conn.acknowledge_data(1, 1);
    assert!(server.frames().is_empty());
    let events = server.receive_data(&frame(DATA, END_STREAM, 1, b"d")).unwrap();
    assert_eq!(texts(&events), vec!["DataReceived(stream_id=1)", "StreamEnded(stream_id=1)"]);
}

#[test]
fn a_burst_of_calls_writes_nothing_until_the_next_pump() {
    let mut server = Server::started(WIDE);
    server.receive_data(&post(1)).unwrap();
    server.receive_data(&get(3)).unwrap();
    server.receive_data(&frame(DATA, 0, 1, b"abc")).unwrap();
    server.frames();
    server.conn.send_headers(3, 200, &vec![field(b"content-type", b"text/plain")], false).unwrap();
    server.conn.send_data(3, b"hello", true);
    server.conn.acknowledge_data(1, 3);
    server.conn.reset_stream(1, 8);
    server.conn.close_connection();
    assert!(server.wire.0.borrow_mut().take_outbound().is_empty());
    assert!(server.conn.take_events().is_empty());
    let frames = server.frames();
    assert!(frames.iter().any(|f| f.kind == HEADERS && f.stream == 3));
    assert!(frames.contains(&data_frame(3, b"hello", true)));
    assert!(frames.iter().any(|f| f.kind == RST_STREAM && f.stream == 1));
    assert!(frames.iter().any(|f| f.kind == GOAWAY));
}

#[test]
fn there_is_nothing_before_the_handshake() {
    let mut server = Server::new();
    server.conn.acknowledge_data(1, 1);
    server.conn.reset_stream(1, 8);
    server.conn.send_data(1, b"early", true);
    assert!(matches!(
        server.conn.send_headers(1, 200, &vec![], false),
        Err(CodecError::UnknownStream(1))
    ));
    assert!(server.receive_data(b"").unwrap().is_empty());
    assert!(server.conn.take_events().is_empty());
}

#[test]
fn a_graceful_shutdown_is_announced() {
    let mut server = Server::new();
    server.conn.close_connection();
    assert!(server.frames_of(GOAWAY).is_empty());
    let mut server = Server::started(WIDE);
    server.receive_data(&get(1)).unwrap();
    server.conn.close_connection();
    let goaways = server.frames_of(GOAWAY);
    assert_eq!(goaways.len(), 1);
    assert_eq!(goaways[0].payload, vec![0x7f, 0xff, 0xff, 0xff, 0, 0, 0, 0]);
    server.conn.send_headers(1, 200, &vec![], true).unwrap();
    assert_eq!(server.frames_of(HEADERS).len(), 1);
}

#[test]
fn calls_bring_no_events() {
    let mut server = Server::started(WIDE);
    server.receive_data(&get(1)).unwrap();
    server.conn.send_headers(1, 200, &vec![], false).unwrap();
    server.conn.send_data(1, b"x", false);
    server.conn.acknowledge_data(1, 1);
    server.conn.close_connection();
    server.conn.reset_stream(1, 8);
    assert!(server.conn.take_events().is_empty());
}

#[test]
fn events_are_handed_out_once() {
    let mut server = Server::started(WIDE);
    server.wire.0.borrow_mut().push_inbound(&get(1));
    server.conn.pump().unwrap();
    assert_eq!(server.conn.take_events().len(), 2);
    assert!(server.conn.take_events().is_empty());
}
