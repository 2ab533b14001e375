//! WebSocket and TLS transports.

use corduit::protocol::transport::tls::{TlsConfig, TlsFingerprint, TlsTransport};
use corduit::protocol::transport::websocket::{
    check_response, compute_accept, generate_ws_key, head_wants_more, is_head_closed, parse_one,
    ParseResult, WebSocketConfig, WebSocketTransport, WsFramed, WsStep, WsStream, MAX_WS_MESSAGE,
};
use corduit::protocol::transport::TransportError;
use corduit::protocol::ws::{
    client_request, prepare, session_error, take_head_byte, transport_kind, validate_host,
    validate_path, verify_handshake, Arrival, HeadStep, IoKind, Message, MessageBuffer,
    SessionKind,
};

// -- TLS ----------------------------------------------------------------------------

#[test]
fn test_tls_config_default() {
    let config = TlsConfig::default();
    assert_eq!(config.sni, None);
    assert!(config.alpn.contains(&"h2".to_string()));
    assert!(!config.skip_cert_verify);
    assert!(config.enable_sni);
    assert_eq!(config.fingerprint, TlsFingerprint::Plain);
}

#[test]
fn test_fingerprint_pins_alpn_when_empty() {
    let config = TlsConfig {
        alpn: Vec::new(),
        fingerprint: TlsFingerprint::Chrome,
        ..Default::default()
    };
    let connector = TlsTransport::build_connector(&config).expect("connector builds");
    assert_eq!(connector.config().alpn, vec!["h2".to_string(), "http/1.1".to_string()]);
}

#[test]
fn test_fingerprint_keeps_explicit_alpn() {
    let config = TlsConfig { alpn: vec!["h3".to_string()], ..Default::default() };
    let connector = TlsTransport::build_connector(&config).expect("connector builds");
    assert_eq!(connector.config().alpn, vec!["h3".to_string()]);
}

#[test]
fn the_configured_name_goes_before_the_dialled_one() {
    let transport = TlsTransport::new(TlsConfig::default(), "dialled.test").expect("transport");
    assert_eq!(transport.server_name(), "dialled.test");
    assert_eq!(transport.connector.name_for("dialled.test"), "dialled.test");
    let config = TlsConfig { sni: Some("front.test".to_string()), ..Default::default() };
    let transport = TlsTransport::new(config, "dialled.test").expect("transport");
    assert_eq!(transport.server_name(), "front.test");
    assert_eq!(transport.connector.name_for("dialled.test"), "front.test");
    for (name, shape) in [
        ("chrome", TlsFingerprint::Chrome),
        ("ios", TlsFingerprint::Ios),
        ("none", TlsFingerprint::Plain),
    ] {
        assert_eq!(TlsFingerprint::from_name(name), Some(shape));
        assert_eq!(shape.as_str(), name);
    }
    assert_eq!(TlsFingerprint::from_name("netscape"), None);
}

// -- the opening handshake --------------------------------------------------------------

#[test]
fn compute_accept_matches_rfc_sample() {
    // RFC 6455 §1.3 sample: key "dGhlIHNhbXBsZSBub25jZQ==" →
    // "s3pPLMBiTxaQ9kYGzzhZRbK+xOo="
    assert_eq!(compute_accept("dGhlIHNhbXBsZSBub25jZQ=="), "s3pPLMBiTxaQ9kYGzzhZRbK+xOo=");
}

#[test]
fn keys_are_fresh() {
    let key = generate_ws_key();
    assert_eq!(key.len(), 24);
    assert!(key.ends_with("=="));
    assert_ne!(key, generate_ws_key());
}

#[test]
fn the_request_carries_early_data_in_its_path() {
    let config = WebSocketConfig {
        path: "/ray".to_string(),
        headers: vec![("X-A".to_string(), "b".to_string())],
        max_early_data: 2,
        ..WebSocketConfig::default()
    };
    let transport = WebSocketTransport::new(config, "example.com", 443, true);
    assert_eq!(transport.host(), "example.com");
    assert_eq!(transport.path_with(b""), "/ray");
    assert_eq!(transport.path_with(b"hi there"), "/ray?ed=aGk=");
    let request = transport.request(b"", "KEY");
    assert!(request.starts_with("GET /ray HTTP/1.1\r\n"));
    assert!(request.contains("Host: example.com\r\n"));
    assert!(request.contains("Sec-WebSocket-Key: KEY\r\n"));
    assert!(request.contains("X-A: b\r\n"));
    assert!(request.ends_with("\r\n\r\n"));
    assert_eq!(transport.config().path, "/ray");
}

const KEY: &str = "dGhlIHNhbXBsZSBub25jZQ==";

#[test]
fn a_response_is_checked() {
    let good = b"HTTP/1.1 101 Switching Protocols\r\nUpgrade: websocket\r\nConnection: Upgrade\r\nSec-WebSocket-Accept: s3pPLMBiTxaQ9kYGzzhZRbK+xOo=\r\n\r\n";
    assert!(check_response(good, KEY).is_ok());
    assert!(is_head_closed(good));
    assert!(!head_wants_more(good));
    assert!(head_wants_more(&good[..20]));
    let wrong = b"HTTP/1.1 101 OK\r\nSec-WebSocket-Accept: nothing\r\n\r\n";
    assert!(matches!(check_response(wrong, KEY), Err(TransportError::WebSocket(_))));
    let refused = b"HTTP/1.1 403 Forbidden\r\n\r\n";
    assert!(matches!(check_response(refused, KEY), Err(TransportError::WebSocket(_))));
}

#[test]
fn handshake_requires_the_matching_accept_value() {
    // Correct shape, wrong accept value.
    let response = b"HTTP/1.1 101 Switching Protocols\r\nUpgrade: websocket\r\n\
                     Connection: Upgrade\r\nSec-WebSocket-Accept: AAAAAAAAAAAAAAAAAAAAAAAAAAA=\r\n\r\n";
    let err = verify_handshake(response, KEY)
        .err()
        .expect("a wrong accept value must fail the handshake");
    assert_eq!(err.kind, IoKind::InvalidData);
}

#[test]
fn status_other_than_101_is_rejected() {
    let response = b"HTTP/1.1 403 Forbidden\r\nContent-Length: 0\r\n\r\n";
    let err = verify_handshake(response, KEY)
        .err()
        .expect("a non-101 status must fail the handshake");
    assert_eq!(err.kind, IoKind::InvalidData);
}

#[test]
fn illegal_request_headers_are_refused() {
    let headers = vec![("X-Evil".to_string(), "a\r\nInjected: 1".to_string())];
    let err = client_request("localhost", "/ws", KEY, &headers)
        .err()
        .expect("CRLF in a header value must be refused before any byte is sent");
    assert_eq!(err.kind, IoKind::InvalidInput);
}

#[test]
fn illegal_path_is_refused() {
    let err = prepare("localhost", "no-leading-slash")
        .err()
        .expect("a path without a leading slash must be refused");
    assert_eq!(err.kind, IoKind::InvalidInput);
}

#[test]
fn a_full_handshake_is_accepted() {
    let request = client_request("localhost", "/ws", KEY, &Vec::new()).expect("request");
    assert!(request.starts_with("GET /ws HTTP/1.1\r\n"));
    assert!(request.contains(KEY));
    let response = b"HTTP/1.1 101 Switching Protocols\r\nUpgrade: websocket\r\nConnection: Upgrade\r\nSec-WebSocket-Accept: s3pPLMBiTxaQ9kYGzzhZRbK+xOo=\r\n\r\n";
    assert!(verify_handshake(response, KEY).is_ok());
    // A head is taken byte by byte, and ends where it is closed.
    let mut head = Vec::new();
    for (i, b) in response.iter().enumerate() {
        let step = take_head_byte(&mut head, Some(*b));
        if i + 1 < response.len() {
            assert!(matches!(step, HeadStep::More));
        } else {
            assert!(matches!(step, HeadStep::Done));
        }
    }
    assert_eq!(head, response);
    let mut head = Vec::new();
    match take_head_byte(&mut head, None) {
        HeadStep::Fail(e) => assert_eq!(e.kind, IoKind::UnexpectedEof),
        step => panic!("{step:?}"),
    }
    let mut long = vec![b'a'; 16383];
    match take_head_byte(&mut long, Some(b'a')) {
        HeadStep::Fail(e) => assert_eq!(e.kind, IoKind::InvalidData),
        step => panic!("{step:?}"),
    }
    assert!(validate_host("").is_err());
    assert!(validate_host("a b").is_err());
    assert!(validate_host("example.com:80").is_ok());
    assert!(validate_path("/a b").is_err());
    assert!(validate_path("/a").is_ok());
    assert_eq!(prepare("localhost", "/ws").expect("key").len(), 24);
    assert!(prepare("localhost", "ws").is_err());
}

#[test]
fn error_kinds_stay_distinct() {
    assert_eq!(transport_kind(IoKind::WouldBlock), SessionKind::WouldBlock);
    assert_eq!(transport_kind(IoKind::TimedOut), SessionKind::Timeout);
    assert_eq!(transport_kind(IoKind::Other), SessionKind::Io);
    let e = session_error(SessionKind::Protocol, "bad frame");
    assert_eq!((e.kind, e.text.as_str()), (IoKind::InvalidData, "bad frame"));
    assert_eq!(session_error(SessionKind::UnexpectedEof, "end").text, "");
    assert_eq!(session_error(SessionKind::Canceled, "x").kind, IoKind::Interrupted);
}

#[test]
fn messages_become_bytes() {
    let mut buffer = MessageBuffer::new();
    assert_eq!(buffer.on_message(Message::Text("hello".to_string())), Arrival::Bytes);
    assert_eq!(buffer.take(3), b"hel");
    assert_eq!(buffer.take(9), b"lo");
    assert_eq!(buffer.take(9), b"");
    assert_eq!(buffer.on_message(Message::Binary(Vec::new())), Arrival::Empty);
    assert_eq!(buffer.on_message(Message::Close), Arrival::End);
}

// -- frames -------------------------------------------------------------------------------

/// An unmasked frame, as a server sends it.
fn server_frame(fin: bool, opcode: u8, payload: &[u8]) -> Vec<u8> {
    let mut out = vec![if fin { 0x80 | opcode } else { opcode }];
    if payload.len() < 126 {
        out.push(payload.len() as u8);
    } else if payload.len() < 65536 {
        out.push(126);
        out.extend_from_slice(&(payload.len() as u16).to_be_bytes());
    } else {
        out.push(127);
        out.extend_from_slice(&(payload.len() as u64).to_be_bytes());
    }
    out.extend_from_slice(payload);
    out
}

fn served(ws: &mut WsFramed) -> Vec<u8> {
    match ws.step(1 << 20) {
        WsStep::Serve(bytes) => bytes,
        step => panic!("{step:?}"),
    }
}

#[test]
fn a_client_frame_reads_back() {
    for len in [0usize, 5, 125, 126, 65535, 65536] {
        let payload: Vec<u8> = (0..len).map(|i| i as u8).collect();
        let mut ws = WsFramed::new();
        ws.enqueue_data(&payload);
        let wire = ws.pending().to_vec();
        match parse_one(&wire) {
            ParseResult::Frame(frame, used) => {
                assert_eq!(used, wire.len());
                assert!(frame.fin);
                assert_eq!(frame.opcode, 2);
                assert_eq!(frame.payload, payload);
            }
            _ => panic!("no frame of {len} bytes"),
        }
        assert!(matches!(parse_one(&wire[..wire.len() - 1]), ParseResult::More));
    }
}

#[test]
fn messages_are_delivered_and_fragments_joined() {
    let mut ws = WsFramed::new();
    assert!(matches!(ws.step(10), WsStep::Receive));
    ws.received(&server_frame(true, 2, b"whole"));
    assert_eq!(served(&mut ws), b"whole");
    ws.received(&server_frame(false, 1, b"one "));
    assert!(matches!(ws.step(10), WsStep::Receive));
    ws.received(&server_frame(false, 0, b"two "));
    ws.received(&server_frame(true, 0, b"three"));
    assert_eq!(served(&mut ws), b"one two three");
    // Bytes are handed out as far as the reader has room.
    ws.received(&server_frame(true, 2, b"abcdef"));
    match ws.step(4) {
        WsStep::Serve(bytes) => assert_eq!(bytes, b"abcd"),
        step => panic!("{step:?}"),
    }
    assert_eq!(served(&mut ws), b"ef");
}

/// The frames of a stream are the same however its bytes arrive.
#[test]
fn frames_do_not_depend_on_the_pieces() {
    let wire = [
        server_frame(true, 2, b"one"),
        server_frame(false, 1, &[7; 200]),
        server_frame(true, 0, b""),
        server_frame(true, 9, b"ping"),
    ]
    .concat();
    let frames_of = |pieces: Vec<&[u8]>| {
        let mut input: Vec<u8> = Vec::new();
        let mut out = Vec::new();
        for piece in pieces {
            input.extend_from_slice(piece);
            while let ParseResult::Frame(f, used) = parse_one(&input) {
                out.push((f.fin, f.opcode, f.payload));
                input.drain(..used);
            }
        }
        assert!(input.is_empty());
        out
    };
    let whole = frames_of(vec![&wire]);
    assert_eq!(whole.len(), 4);
    for size in 1..wire.len() {
        assert_eq!(frames_of(wire.chunks(size).collect()), whole);
    }
}

#[test]
fn control_frames_are_answered() {
    let mut ws = WsFramed::new();
    ws.received(&server_frame(true, 9, b"ping"));
    assert!(matches!(ws.step(10), WsStep::Flush));
    let wire = ws.pending().to_vec();
    match parse_one(&wire) {
        ParseResult::Frame(frame, _) => {
            assert_eq!((frame.opcode, frame.payload), (10, b"ping".to_vec()))
        }
        _ => panic!("no pong"),
    }
    assert!(ws.wrote(0).is_err());
    ws.wrote(wire.len()).expect("sent");
    assert!(ws.pending().is_empty());
    ws.received(&server_frame(true, 10, b""));
    assert!(matches!(ws.step(10), WsStep::Receive));
    ws.received(&server_frame(true, 8, b""));
    assert!(matches!(ws.step(10), WsStep::Closed));
    assert!(!ws.received(&[]));
    ws.enqueue_close();
    assert_eq!(ws.pending()[0], 0x88);
    assert_eq!(WsStream::new(7u8).into_inner(), 7);
}

#[test]
fn broken_frames_fail_the_connection() {
    for (frames, text) in [
        (server_frame(true, 0, b"x"), "continuation frame without a started message"),
        (server_frame(true, 3, b""), "unsupported websocket opcode 0x3"),
        (server_frame(true, 9, &[0; 126]), "ping frame too large"),
        (
            [server_frame(false, 1, b"a"), server_frame(true, 2, b"b")].concat(),
            "new data frame during fragmented message",
        ),
    ] {
        let mut ws = WsFramed::new();
        ws.received(&frames);
        match ws.step(10) {
            WsStep::Fail(m) => assert_eq!(m, text),
            step => panic!("{step:?}"),
        }
    }
    let mut head = vec![0x82, 127];
    head.extend_from_slice(&(MAX_WS_MESSAGE + 1).to_be_bytes());
    assert!(matches!(parse_one(&head), ParseResult::TooLarge(n) if n == MAX_WS_MESSAGE + 1));
}
