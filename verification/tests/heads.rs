use http::header::{HeaderName, HeaderValue};
use http::StatusCode;
use rh2::error::CodecError;
use rh2::head::{request_head, response_headers, response_status, RequestHead};

fn field(name: &[u8], value: &[u8]) -> (Vec<u8>, Vec<u8>) {
    (name.to_vec(), value.to_vec())
}

fn values(map: &http::HeaderMap, name: &str) -> Vec<Vec<u8>> {
    map.get_all(name).iter().map(|v| v.as_bytes().to_vec()).collect()
}

#[test]
fn a_full_request_head_is_listed_with_its_pseudo_headers_first() {
    let head = RequestHead {
        method: b"POST".to_vec(),
        scheme: Some(b"https".to_vec()),
        authority: Some(b"example.com".to_vec()),
        path: Some(b"/a?b".to_vec()),
        fields: vec![field(b"accept", b"*/*")],
    };
    assert_eq!(
        head.header_list(),
        vec![
            field(b":method", b"POST"),
            field(b":scheme", b"https"),
            field(b":authority", b"example.com"),
            field(b":path", b"/a?b"),
            field(b"accept", b"*/*"),
        ]
    );
}

#[test]
fn a_request_without_a_path_is_for_the_root() {
    let head = RequestHead {
        method: b"CONNECT".to_vec(),
        scheme: None,
        authority: None,
        path: None,
        fields: vec![],
    };
    assert_eq!(head.header_list(), vec![field(b":method", b"CONNECT"), field(b":path", b"/")]);
}

#[test]
fn a_request_head_is_taken_apart() {
    let request = http::Request::builder()
        .method("PUT")
        .uri("http://example.org:81/x/y?z=1")
        .header("A", "1")
        .header("a", "2")
        .body(())
        .unwrap();
    let (parts, _) = request.into_parts();
    let head = request_head(&parts);
    assert_eq!(head.method, b"PUT".to_vec());
    assert_eq!(head.scheme, Some(b"http".to_vec()));
    assert_eq!(head.authority, Some(b"example.org:81".to_vec()));
    assert_eq!(head.path, Some(b"/x/y?z=1".to_vec()));
    assert_eq!(head.fields, vec![field(b"a", b"1"), field(b"a", b"2")]);
}

#[test]
fn response_fields_are_gathered_by_name() {
    let list = vec![
        field(b"Content-Type", b"text/plain"),
        field(b"x", b"1"),
        field(b"X", b"2\t\xff"),
    ];
    let map = response_headers(&list).unwrap();
    assert_eq!(map.len(), 3);
    assert_eq!(values(&map, "content-type"), vec![b"text/plain".to_vec()]);
    assert_eq!(values(&map, "x"), vec![b"1".to_vec(), b"2\t\xff".to_vec()]);
}

#[test]
fn pseudo_headers_are_no_fields() {
    let list = vec![field(b":status", b"404"), field(b":", b"\n"), field(b"a", b"b")];
    let map = response_headers(&list).unwrap();
    assert_eq!(map.len(), 1);
    assert_eq!(values(&map, "a"), vec![b"b".to_vec()]);
}

#[test]
fn the_status_pseudo_header_supplies_the_status_code() {
    let status = |code: u16, list: &Vec<(Vec<u8>, Vec<u8>)>| response_status(code, list).unwrap().as_u16();
    assert_eq!(status(200, &vec![]), 200);
    assert_eq!(status(100, &vec![field(b"a", b"404"), field(b":path", b"404")]), 100);
    assert_eq!(status(200, &vec![field(b":status", b"404")]), 404);
    assert_eq!(status(200, &vec![field(b"a", b"b"), field(b":status", b"100")]), 100);
    assert_eq!(status(200, &vec![field(b":status", b"999"), field(b":status", b"500")]), 999);
}

#[test]
fn what_is_no_status_code_is_refused() {
    let values: [&[u8]; 9] =
        [b"", b"20", b"2000", b"099", b"2x0", b"20:", b"/00", b" 200", b"\xb2\xb0\xb0"];
    for value in values {
        let refused = response_status(200, &vec![field(b":status", value)]);
        assert!(matches!(refused, Err(CodecError::InvalidStatus(_))));
    }
    for code in [0, 99, 1000] {
        assert!(matches!(response_status(code, &vec![]), Err(CodecError::InvalidStatus(_))));
        let refused = response_status(code, &vec![field(b":status", b"200")]);
        assert!(matches!(refused, Err(CodecError::InvalidStatus(_))));
    }
}

#[test]
fn a_fault_before_the_map_is_full_counts() {
    let mut list = vec![field(b"a b", b"")];
    for i in 0..40000 {
        list.push((format!("x{}", i).into_bytes(), b"v".to_vec()));
    }
    assert!(matches!(response_headers(&list), Err(CodecError::InvalidHeaderName(_))));
}

#[test]
fn every_token_character_is_a_name() {
    for b in 0u8..=255 {
        let token = b.is_ascii_alphanumeric() || b"!#$%&'*+-.^_`|~".contains(&b);
        let list = vec![field(&[b'a', b], b"v")];
        match response_headers(&list) {
            Ok(map) => {
                assert!(token);
                assert_eq!(map.keys().next().unwrap().as_str().as_bytes(), &[b'a', b.to_ascii_lowercase()]);
            }
            Err(e) => {
                assert!(!token);
                assert!(matches!(e, CodecError::InvalidHeaderName(_)));
            }
        }
    }
}

#[test]
fn every_byte_but_a_control_character_is_a_value() {
    for b in 0u8..=255 {
        let list = vec![field(b"a", &[b])];
        let valid = b == 9 || (b >= 32 && b != 127);
        match response_headers(&list) {
            Ok(map) => {
                assert!(valid);
                assert_eq!(values(&map, "a"), vec![vec![b]]);
            }
            Err(e) => {
                assert!(!valid);
                assert!(matches!(e, CodecError::InvalidHeaderValue(_)));
            }
        }
    }
}

#[test]
fn the_length_of_a_name_is_bounded() {
    let longest = vec![b'a'; 65535];
    assert!(response_headers(&vec![field(&longest, b"")]).is_ok());
    let longer = vec![b'a'; 65536];
    assert!(matches!(
        response_headers(&vec![field(&longer, b"")]),
        Err(CodecError::InvalidHeaderName(_))
    ));
    assert!(matches!(response_headers(&vec![field(b"", b"")]), Err(CodecError::InvalidHeaderName(_))));
}

#[test]
fn the_first_fault_counts() {
    let list = vec![field(b"a", b"b"), field(b"c", b"\n"), field(b"d e", b"f")];
    assert!(matches!(response_headers(&list), Err(CodecError::InvalidHeaderValue(_))));
    let list = vec![field(b"d e", b"\n")];
    assert!(matches!(response_headers(&list), Err(CodecError::InvalidHeaderName(_))));
}

#[test]
fn many_fields_fit_and_too_many_do_not() {
    let mut list: Vec<(Vec<u8>, Vec<u8>)> = Vec::new();
    for i in 0..6553 {
        list.push((format!("x{}", i).into_bytes(), b"v".to_vec()));
    }
    assert_eq!(response_headers(&list).unwrap().keys_len(), 6553);
    for i in 6553..40000 {
        list.push((format!("x{}", i).into_bytes(), b"v".to_vec()));
    }
    let refused = response_headers(&list);
    assert!(matches!(refused, Err(CodecError::TooManyHeaders)));
    assert_eq!(refused.unwrap_err().message(), "too many header fields");
}

#[test]
fn errors_have_the_messages_of_the_errors_underneath() {
    let status = StatusCode::from_u16(99).unwrap_err();
    assert_eq!(status.to_string(), "invalid status code");
    assert_eq!(CodecError::InvalidStatus(status).message(), "invalid status code");
    let name = HeaderName::from_bytes(b"").unwrap_err();
    assert_eq!(name.to_string(), "invalid HTTP header name");
    assert_eq!(CodecError::InvalidHeaderName(name).message(), "invalid HTTP header name");
    let value = HeaderValue::from_bytes(b"\n").unwrap_err();
    assert_eq!(value.to_string(), "failed to parse header value");
    assert_eq!(CodecError::InvalidHeaderValue(value).message(), "failed to parse header value");
    assert_eq!(CodecError::UnknownStream(12).message(), "unknown stream 12");
    let cause = h2::Error::from(h2::Reason::CANCEL);
    let text = cause.to_string();
    assert_eq!(
        CodecError::HandshakeFailed(cause).message(),
        format!("handshake failed: {}", text)
    );
    let cause = h2::Error::from(h2::Reason::REFUSED_STREAM);
    let failed = CodecError::SendResponseFailed(cause);
    assert_eq!(failed.message_with("why"), "send_response failed: why");
}
