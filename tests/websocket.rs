use turbo_bernd::http::{Method, Request, Status};
use turbo_bernd::websocket::{BitVec, Frame, FrameError, Role, State, WebSocket};

#[test]
fn as_bytes_works() {
    let data = b"Hello, world!";
    let mut frame = Frame::new(&[], data);
    frame.opcode = 0x1; // text frame

    let raw_frame: u16 = 0b1000_0001_0000_1101;

    let mut bytes = Vec::new();
    bytes.append(&mut raw_frame.to_be_bytes().to_vec());
    bytes.append(&mut data.to_vec());

    let bytes_a = frame.as_bytes();
    assert_eq!(bytes_a[0], bytes[0]);
    assert_eq!(bytes_a[1], bytes[1]);
}

#[test]
fn bit_vec_from_u8() {
    let bit_vec = BitVec::from_u8(0b0000_1111);
    assert_eq!(
        bit_vec.0,
        vec![false, false, false, false, true, true, true, true]
    );
}

#[test]
fn bit_vec_to_u8() {
    let bit_vec = BitVec(vec![false, false, false, false, true, true, true, true]);
    assert_eq!(bit_vec.to_u8(), 15);
}

#[test]
fn bit_vec_bytes_and_array() {
    let bits = BitVec::from_bytes(&[0x81, 0x02]);
    assert_eq!(bits.0.len(), 16);
    assert_eq!(bits.0[0], true);
    assert_eq!(bits.0[7], true);
    assert_eq!(bits.0[14], true);
    assert_eq!(BitVec(bits.0[8..16].to_vec()).to_u8(), 2);
    assert_eq!(BitVec::from_u8(0xa5).to_8bit_arr(), [true, false, true, false, false, true, false, true]);
    assert_eq!(BitVec::new().0.len(), 0);
    assert_eq!(BitVec::from_u8(200).to_u8(), 200);
}

#[test]
fn frame_round_trip_at_length_boundaries() {
    for &n in &[0usize, 125, 126, 65535, 65536] {
        let payload: Vec<u8> = (0..n).map(|i| (i % 251) as u8).collect();
        let server_bytes = Frame::encode(0x2, &payload, Role::Server, [9, 9, 9, 9]);
        let decoded = Frame::from_buffer(&server_bytes, Role::Client).unwrap();
        assert_eq!(decoded.payload_data, payload);
        assert_eq!(decoded.opcode, 0x2);
        assert!(decoded.fin);
        assert_eq!(decoded.as_bytes(), server_bytes);

        let client_bytes = Frame::encode(0x2, &payload, Role::Client, [1, 2, 3, 4]);
        let decoded = Frame::from_buffer(&client_bytes, Role::Server).unwrap();
        assert_eq!(decoded.payload_data, payload);
        assert_eq!(decoded.masking_key, Some([1, 2, 3, 4]));
        assert_eq!(decoded.as_bytes(), client_bytes);
    }
}

#[test]
fn frame_length_forms() {
    assert_eq!(Frame::encode(1, &[0u8; 125], Role::Server, [0; 4]).len(), 2 + 125);
    let b = Frame::encode(1, &[0u8; 126], Role::Server, [0; 4]);
    assert_eq!(&b[..4], &[0x81, 126, 0, 126]);
    let b = Frame::encode(1, &vec![0u8; 65536], Role::Server, [0; 4]);
    assert_eq!(&b[..10], &[0x81, 127, 0, 0, 0, 0, 0, 1, 0, 0]);
    assert_eq!(b.len(), 10 + 65536);
}

#[test]
fn server_never_masks() {
    let frame = Frame::with_role(0x1, b"hi", Role::Server, [1, 2, 3, 4]);
    assert!(!frame.mask);
    assert_eq!(frame.masking_key, None);
    assert_eq!(Frame::encode(0x1, b"hi", Role::Server, [1, 2, 3, 4]), vec![0x81, 0x02, b'h', b'i']);
}

#[test]
fn client_masks_with_key() {
    let bytes = Frame::encode(0x1, b"Hello", Role::Client, [0x37, 0xfa, 0x21, 0x3d]);
    assert_eq!(
        bytes,
        vec![0x81, 0x85, 0x37, 0xfa, 0x21, 0x3d, 0x7f, 0x9f, 0x4d, 0x51, 0x58]
    );
}

#[test]
fn decode_unmasks_with_cycled_key() {
    let payload = b"abcdefg";
    let key = [0x01, 0x02, 0x03, 0x04];
    let mut bytes = vec![0x82, 0x80 | payload.len() as u8, 0x01, 0x02, 0x03, 0x04];
    for (i, b) in payload.iter().enumerate() {
        bytes.push(b ^ key[i % 4]);
    }
    let frame = Frame::from_buffer(&bytes, Role::Server).unwrap();
    assert_eq!(frame.payload_data, payload.to_vec());
    assert_eq!(frame.opcode, 0x2);
    assert!(frame.mask);
}

#[test]
fn decode_errors() {
    assert_eq!(Frame::from_buffer(&[0x81], Role::Client), Err(FrameError::Truncated));
    assert_eq!(Frame::from_buffer(&[0x81, 0x05, b'h'], Role::Client), Err(FrameError::Truncated));
    assert_eq!(Frame::from_buffer(&[0x81, 126, 0], Role::Client), Err(FrameError::Truncated));
    assert_eq!(Frame::from_buffer(&[0x81, 0x85, 1, 2], Role::Server), Err(FrameError::Truncated));
    assert_eq!(Frame::from_buffer(&[0x81, 0x00], Role::Server), Err(FrameError::ProtocolViolation));
    assert_eq!(Frame::from_buffer(&[0x81, 0x80, 1, 2, 3, 4], Role::Client), Err(FrameError::ProtocolViolation));
    assert_eq!(
        Frame::from_buffer(&[0x81, 127, 0x80, 0, 0, 0, 0, 0, 0, 0], Role::Client),
        Err(FrameError::ProtocolViolation)
    );
    assert_eq!(
        Frame::from_buffer(&[0x81, 127, 0x7f, 0xff, 0xff, 0xff, 0xff, 0xff, 0xff, 0xff], Role::Client),
        Err(FrameError::Truncated)
    );
}

#[test]
fn from_buffer_reads_header() {
    let frame = Frame::from_buffer(&[0x89, 0x85, 1, 2, 3, 4, 0x49, 0x67, 0x6f, 0x68, 0x6e], Role::Server).unwrap();
    assert!(frame.fin);
    assert!(!frame.rsv1);
    assert_eq!(frame.opcode, 0x9);
    assert!(frame.mask);
    assert_eq!(frame.payload_length, 5);
    assert_eq!(frame.masking_key, Some([1, 2, 3, 4]));
    assert_eq!(frame.payload_data, b"Hello".to_vec());
    assert_eq!(Frame::from_buffer(&[0x89], Role::Server), Err(FrameError::Truncated));
    assert_eq!(Frame::from_buffer(&[], Role::Client), Err(FrameError::Truncated));
}

#[test]
fn from_buffer_reads_extended_lengths() {
    let mut bytes = vec![0x82, 126, 0x01, 0x00];
    bytes.extend(std::iter::repeat(7u8).take(256));
    let frame = Frame::from_buffer(&bytes, Role::Client).unwrap();
    assert_eq!(frame.extended_payload_length_a, Some(256));
    assert_eq!(frame.payload_data.len(), 256);
    let mut bytes = vec![0x82, 127, 0, 0, 0, 0, 0, 1, 0, 0];
    bytes.extend(std::iter::repeat(7u8).take(65536));
    let frame = Frame::from_buffer(&bytes, Role::Client).unwrap();
    assert_eq!(frame.extended_payload_length_b, Some(65536));
    assert_eq!(frame.payload_data.len(), 65536);
}

#[test]
fn frame_new_concatenates() {
    let frame = Frame::new(b"ab", b"cd");
    assert_eq!(frame.payload_data, b"abcd".to_vec());
    assert_eq!(frame.as_bytes(), vec![0x80, 4, b'a', b'b', b'c', b'd']);
}

fn upgrade_request() -> Request {
    Request::get("/chat")
        .header(("Host", "server.example.com"))
        .header(("Upgrade", "websocket"))
        .header(("Connection", "keep-alive, Upgrade"))
        .header(("Sec-WebSocket-Key", "dGhlIHNhbXBsZSBub25jZQ=="))
        .header(("Sec-WebSocket-Protocol", "chat, superchat"))
}

#[test]
fn handshake_accepts() {
    let mut ws = WebSocket::new();
    assert_eq!(ws.state, State::AwaitingHandshake);
    let res = ws.try_init(&upgrade_request().header(("Sec-WebSocket-Version", "13")));
    assert_eq!(res.status, Status::SwitchingProtocols);
    assert_eq!(res.headers.get("Sec-WebSocket-Accept").unwrap(), "s3pPLMBiTxaQ9kYGzzhZRbK+xOo=");
    assert_eq!(res.headers.get("Upgrade").unwrap(), "websocket");
    assert_eq!(res.headers.get("Connection").unwrap(), "Upgrade");
    assert_eq!(res.headers.get("Sec-WebSocket-Protocol").unwrap(), "chat, superchat");
    assert!(res.headers.get("Sec-WebSocket-Extensions").is_none());
    assert_eq!(ws.state, State::Open);
    assert_eq!(ws.protocol, vec!["chat".to_string(), "superchat".to_string()]);
    assert!(ws.extensions.is_empty());
}

#[test]
fn handshake_missing_version_asks_for_13() {
    let mut ws = WebSocket::new();
    let res = ws.try_init(&upgrade_request());
    assert_eq!(res.status, Status::UpgradeRequired);
    assert_eq!(res.headers.get("Sec-WebSocket-Version").unwrap(), "13");
    assert_eq!(ws.state, State::AwaitingHandshake);

    let res = ws.try_init(&upgrade_request().header(("Sec-WebSocket-Version", "8")));
    assert_eq!(res.status, Status::UpgradeRequired);
    assert_eq!(res.headers.get("Sec-WebSocket-Version").unwrap(), "13");
}

#[test]
fn handshake_refusals() {
    let mut ws = WebSocket::new();
    let mut post = upgrade_request().header(("Sec-WebSocket-Version", "13"));
    post.method = Method::Post;
    assert_eq!(ws.try_init(&post).status, Status::MethodNotAllowed);
    assert_eq!(ws.state, State::Closed);

    let mut ws = WebSocket::new();
    let no_host = Request::get("/chat")
        .header(("Upgrade", "websocket"))
        .header(("Connection", "Upgrade"))
        .header(("Sec-WebSocket-Key", "dGhlIHNhbXBsZSBub25jZQ=="))
        .header(("Sec-WebSocket-Version", "13"));
    assert_eq!(ws.try_init(&no_host).status, Status::BadRequest);
    assert_eq!(ws.state, State::Closed);

    let mut ws = WebSocket::new();
    let short_key = upgrade_request()
        .header(("Sec-WebSocket-Key", "c2hvcnQ="))
        .header(("Sec-WebSocket-Version", "13"));
    assert_eq!(ws.try_init(&short_key).status, Status::BadRequest);

    let mut ws = WebSocket::new();
    let bad_upgrade = upgrade_request()
        .header(("Upgrade", "h2c"))
        .header(("Sec-WebSocket-Version", "13"));
    assert_eq!(ws.try_init(&bad_upgrade).status, Status::BadRequest);
}

#[test]
fn handshake_given_decoded_key() {
    let mut ws = WebSocket::new();
    let req = upgrade_request()
        .header(("Sec-WebSocket-Version", "13"))
        .header(("Sec-WebSocket-Extensions", "permessage-deflate"));
    let res = ws.negotiate(&req, Some(vec![0u8; 16]), "accept-value");
    assert_eq!(res.status, Status::SwitchingProtocols);
    assert_eq!(res.headers.get("sec-websocket-accept").unwrap(), "accept-value");
    assert_eq!(ws.extensions, vec!["permessage-deflate".to_string()]);

    let mut ws = WebSocket::new();
    let res = ws.negotiate(&req, Some(vec![0u8; 15]), "accept-value");
    assert_eq!(res.status, Status::BadRequest);
    let res = ws.negotiate(&req, None, "accept-value");
    assert_eq!(res.status, Status::BadRequest);
}

#[test]
fn echo_replies() {
    let ping = Frame::with_role(0x9, b"p", Role::Client, [1, 2, 3, 4]);
    let (reply, closing) = turbo_bernd::websocket::echo_reply(&ping);
    assert_eq!(reply, vec![0x8A, 0x01, b'p']);
    assert!(!closing);
    let close = Frame::with_role(0x8, b"", Role::Client, [1, 2, 3, 4]);
    let (reply, closing) = turbo_bernd::websocket::echo_reply(&close);
    assert_eq!(reply, vec![0x88, 0x00]);
    assert!(closing);
    let text = Frame::with_role(0x1, b"hi", Role::Client, [1, 2, 3, 4]);
    assert_eq!(turbo_bernd::websocket::echo_reply(&text).0, vec![0x81, 0x02, b'h', b'i']);
    assert!(turbo_bernd::websocket::requests_upgrade(&upgrade_request()));
    assert!(!turbo_bernd::websocket::requests_upgrade(&Request::get("/")));
}

#[test]
fn header_names_stay_distinct() {
    let res = turbo_bernd::http::Response::new(Status::OK)
        .header(("X-A", "1"))
        .header(("x-a", "2"))
        .header(("X-B", "3"));
    assert_eq!(res.headers.len(), 2);
    assert_eq!(res.headers.get("X-A").unwrap(), "2");
    let copy = res.clone();
    assert_eq!(copy, res);
}
