//! Wire-level tests: exact request serialization, and frame-shape
//! classification.

use nvim_cat::nvim::{Nvim, NvimError, NvimOptions};
use nvim_cat::rpc::{parse_frame, Frame, RpcValue, Writer};

#[test]
fn writer_serializes_request_prefix_exactly() {
    let mut w = Writer::new();
    let id = w.write("vim_input", 1).unwrap();
    assert_eq!(id, 101);
    w.arg_str("<CR>").unwrap();
    let bytes = w.take();
    let mut expected = vec![0x94u8, 0x00, 0x65];
    expected.push(0xa9);
    expected.extend_from_slice(b"vim_input");
    expected.push(0x91);
    expected.push(0xa4);
    expected.extend_from_slice(b"<CR>");
    assert_eq!(bytes, expected);
}

#[test]
fn writer_ids_are_monotonic_and_buffer_drains() {
    let mut w = Writer::new();
    let a = w.write("nvim_command", 1).unwrap();
    w.arg_str("x").unwrap();
    let b = w.write("nvim_command", 1).unwrap();
    w.arg_str("y").unwrap();
    assert_eq!(a, 101);
    assert_eq!(b, 102);
    assert!(!w.take().is_empty());
    assert!(w.take().is_empty());
}

#[test]
fn writer_encodes_wider_integers() {
    let mut w = Writer::new();
    w.write("nvim_eval", 3).unwrap();
    w.arg_uint(200);
    w.arg_uint(70000);
    w.arg_uint(0x1_0000_0000);
    let bytes = w.take();
    // 200 -> cc c8; 70000 -> ce 00 01 11 70; 2^32 -> cf + 8 bytes
    let tail = &bytes[bytes.len() - 16..];
    assert_eq!(tail[0], 0xcc);
    assert_eq!(tail[1], 200);
    assert_eq!(tail[2], 0xce);
    assert_eq!(&tail[3..7], &[0x00, 0x01, 0x11, 0x70]);
    assert_eq!(tail[7], 0xcf);
    assert_eq!(&tail[8..16], &[0x00, 0x00, 0x00, 0x01, 0x00, 0x00, 0x00, 0x00]);
}

#[test]
fn session_start_serializes_handshake() {
    let mut nv = Nvim::new(NvimOptions { numbered: false, restricted_mode: false }).unwrap();
    let outbox = nv.take_outbox();
    let all = |needle: &[u8]| outbox.windows(needle.len()).any(|w| w == needle);
    assert!(all(b"nvim_ui_attach"));
    assert!(all(b"vim_input"));
    assert!(all(b"nvim_ui_detach"));
    assert!(all(b"nvim_get_option"));
    assert!(all(b"termguicolors"));
    assert!(all(b"vim_call_function"));
    assert!(all(b"hlID('Normal')"));
}

#[test]
fn response_frame_parses() {
    let v = RpcValue::Arr(vec![
        RpcValue::Uint(1),
        RpcValue::Uint(150),
        RpcValue::Nil,
        RpcValue::Bool(true),
    ]);
    match parse_frame(v).unwrap() {
        Frame::Response(id, payload) => {
            assert_eq!(id, 150);
            assert!(matches!(payload, RpcValue::Bool(true)));
        },
        other => panic!("wrong classification: {:?}", classify(&other)),
    }
}

fn classify(f: &Frame) -> &'static str {
    match f {
        Frame::Response(_, _) => "response",
        Frame::ErrorResponse(_, _) => "error response",
        Frame::Notification => "notification",
    }
}

#[test]
fn error_frame_carries_message_and_id() {
    let v = RpcValue::Arr(vec![
        RpcValue::Uint(1),
        RpcValue::Uint(7),
        RpcValue::Arr(vec![RpcValue::Uint(0), RpcValue::Str("no such method".to_string())]),
        RpcValue::Nil,
    ]);
    match parse_frame(v).unwrap() {
        Frame::ErrorResponse(id, msg) => {
            assert_eq!(id, 7);
            assert_eq!(msg, "no such method");
        },
        other => panic!("wrong classification: {:?}", classify(&other)),
    }
}

#[test]
fn notification_frame_is_recognized() {
    let v = RpcValue::Arr(vec![RpcValue::Uint(2), RpcValue::Str("redraw".to_string())]);
    assert!(matches!(parse_frame(v).unwrap(), Frame::Notification));
}

#[test]
fn wrong_arity_is_a_decode_error() {
    // a response frame with only three elements
    let v = RpcValue::Arr(vec![RpcValue::Uint(1), RpcValue::Uint(5), RpcValue::Nil]);
    assert!(matches!(parse_frame(v), Err(NvimError::DecodeError)));
}

#[test]
fn wrong_shapes_are_decode_errors() {
    assert!(matches!(parse_frame(RpcValue::Nil), Err(NvimError::DecodeError)));
    assert!(matches!(
        parse_frame(RpcValue::Arr(vec![])),
        Err(NvimError::DecodeError)
    ));
    assert!(matches!(
        parse_frame(RpcValue::Arr(vec![RpcValue::Str("1".to_string())])),
        Err(NvimError::DecodeError)
    ));
    // a response whose error field has the wrong shape
    let v = RpcValue::Arr(vec![
        RpcValue::Uint(1),
        RpcValue::Uint(5),
        RpcValue::Arr(vec![RpcValue::Uint(0)]),
        RpcValue::Nil,
    ]);
    assert!(matches!(parse_frame(v), Err(NvimError::DecodeError)));
    // an id wider than the id type
    let v = RpcValue::Arr(vec![
        RpcValue::Uint(1),
        RpcValue::Uint(0x1_0000_0000),
        RpcValue::Nil,
        RpcValue::Nil,
    ]);
    assert!(matches!(parse_frame(v), Err(NvimError::DecodeError)));
}

#[test]
fn malformed_frame_terminates_session() {
    let mut nv = Nvim::new(NvimOptions { numbered: false, restricted_mode: false }).unwrap();
    let r = nv.process_event(RpcValue::Arr(vec![RpcValue::Uint(1), RpcValue::Uint(101)]));
    assert!(matches!(r, Err(NvimError::DecodeError)));
}
