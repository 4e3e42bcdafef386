use rh2::event::{
    ConnectionTerminated, DataReceived, RequestReceived, StreamEnded, StreamReset,
};
use rh2::text::{decimal_text, flag_text};

#[test]
fn numbers_are_decimal() {
    assert_eq!(decimal_text(0), "0");
    assert_eq!(decimal_text(9), "9");
    assert_eq!(decimal_text(10), "10");
    assert_eq!(decimal_text(1234567890), "1234567890");
    assert_eq!(decimal_text(u32::MAX), "4294967295");
}

#[test]
fn flags_are_words() {
    assert_eq!(flag_text(true), "true");
    assert_eq!(flag_text(false), "false");
}

#[test]
fn a_request_has_a_text() {
    let event = RequestReceived {
        stream_id: 17,
        headers: vec![(b":method".to_vec(), b"GET".to_vec())],
        stream_ended: true,
    };
    assert_eq!(event.repr(), "RequestReceived(stream_id=17, stream_ended=true)");
    assert_eq!(event.headers(), &vec![(b":method".to_vec(), b"GET".to_vec())]);
}

#[test]
fn data_has_a_text() {
    let event = DataReceived { stream_id: 3, data: b"abc".to_vec(), stream_ended: false };
    assert_eq!(event.repr(), "DataReceived(stream_id=3)");
    assert_eq!(event.data(), &b"abc".to_vec());
}

#[test]
fn the_other_events_have_texts() {
    assert_eq!(StreamEnded { stream_id: 5 }.repr(), "StreamEnded(stream_id=5)");
    assert_eq!(
        StreamReset { stream_id: 7, error_code: 8 }.repr(),
        "StreamReset(stream_id=7, error_code=8)"
    );
    assert_eq!(ConnectionTerminated {}.repr(), "ConnectionTerminated()");
}
