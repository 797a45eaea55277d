//! End-to-end tests of the pipelined client: handshake, ordering,
//! cache deduplication and session resets, driven purely through
//! decoded frames.

use nvim_cat::nvim::{Nvim, NvimError, NvimOptions};
use nvim_cat::rpc::RpcValue;

fn resp(id: u64, result: RpcValue) -> RpcValue {
    RpcValue::Arr(vec![
        RpcValue::Uint(1),
        RpcValue::Uint(id),
        RpcValue::Nil,
        result,
    ])
}

fn attrs6(fg: &str, bg: &str, bold: &str, reverse: &str, italic: &str, underline: &str) -> RpcValue {
    RpcValue::Arr(vec![
        RpcValue::Str(fg.to_string()),
        RpcValue::Str(bg.to_string()),
        RpcValue::Str(bold.to_string()),
        RpcValue::Str(reverse.to_string()),
        RpcValue::Str(italic.to_string()),
        RpcValue::Str(underline.to_string()),
    ])
}

fn ids(v: &[u64]) -> RpcValue {
    RpcValue::Arr(v.iter().map(|&x| RpcValue::Uint(x)).collect())
}

/// Complete the handshake with a neutral baseline attribute.
fn handshake() -> Nvim {
    let mut nv = Nvim::new(NvimOptions { numbered: false, restricted_mode: false }).unwrap();
    let outbox = nv.take_outbox();
    assert!(!outbox.is_empty());
    assert!(!nv.ready());
    nv.process_event(resp(101, RpcValue::Nil)).unwrap();
    nv.process_event(resp(102, RpcValue::Nil)).unwrap();
    nv.process_event(resp(103, RpcValue::Nil)).unwrap();
    nv.process_event(resp(104, RpcValue::Bool(false))).unwrap();
    assert!(!nv.ready());
    nv.process_event(resp(105, attrs6("", "", "", "", "", ""))).unwrap();
    assert!(nv.ready());
    nv
}

fn contains(haystack: &[u8], needle: &[u8]) -> bool {
    haystack.windows(needle.len()).any(|w| w == needle)
}

fn count_occurrences(haystack: &[u8], needle: &[u8]) -> usize {
    haystack.windows(needle.len()).filter(|w| *w == needle).count()
}

#[test]
fn handshake_completes() {
    let nv = handshake();
    assert_eq!(nv.lineno, 0);
}

#[test]
fn out_of_order_resolution_emits_in_order() {
    // Two lines; the engine resolves line 1's syntax ids before
    // line 0's. Output must still be line 0 first.
    let mut nv = handshake();
    nv.add_line(b"fn main() {".to_vec(), 0).unwrap();
    // ids: 106 = insert line 0
    nv.add_line(b"}".to_vec(), 1).unwrap();
    // 107 = insert line 1
    nv.take_outbox();

    // line 1's insertion is answered first
    nv.process_event(resp(107, RpcValue::Nil)).unwrap();
    // 108 = syntax ids of line 1
    nv.process_event(resp(108, ids(&[5]))).unwrap();
    // 109 = attributes of syntax id 5
    assert!(nv.take_output().is_empty());

    // resolve the attribute: line 1 is complete, but line 0 is not
    // even inserted yet — nothing may be emitted
    nv.process_event(resp(109, attrs6("1", "", "", "", "", ""))).unwrap();
    assert!(nv.take_output().is_empty());
    assert_eq!(nv.lineno, 0);

    // now line 0 catches up
    nv.process_event(resp(106, RpcValue::Nil)).unwrap();
    // 110 = syntax ids of line 0
    nv.process_event(resp(110, ids(&[5, 5, 5, 5, 5, 5, 5, 5, 5, 5, 5]))).unwrap();
    // id 5 is already resolved: both lines flush, in order
    let out = nv.take_output();
    assert_eq!(nv.lineno, 2);
    let esc = b"\x1b[38;5;1m";
    let trailer = b"\x1b[K\x1b[0m\n";
    let mut expected = Vec::new();
    expected.extend_from_slice(esc);
    expected.extend_from_slice(b"fn main() {");
    expected.extend_from_slice(b"\x1b[39m");
    expected.extend_from_slice(trailer);
    expected.extend_from_slice(esc);
    expected.extend_from_slice(b"}");
    expected.extend_from_slice(b"\x1b[39m");
    expected.extend_from_slice(trailer);
    assert_eq!(out, expected);
}

#[test]
fn three_lines_arbitrary_completion_order() {
    let mut nv = handshake();
    for (i, line) in [b"aa".to_vec(), b"bb".to_vec(), b"cc".to_vec()].into_iter().enumerate() {
        nv.add_line(line, i).unwrap();
    }
    // inserts are 106, 107, 108
    nv.process_event(resp(108, RpcValue::Nil)).unwrap(); // line 2 -> 109
    nv.process_event(resp(106, RpcValue::Nil)).unwrap(); // line 0 -> 110
    nv.process_event(resp(107, RpcValue::Nil)).unwrap(); // line 1 -> 111
    nv.process_event(resp(109, ids(&[3, 3]))).unwrap(); // line 2 ids -> attr req 112
    nv.process_event(resp(111, ids(&[4, 4]))).unwrap(); // line 1 ids -> attr req 113
    nv.process_event(resp(110, ids(&[4, 4]))).unwrap(); // line 0 ids, 4 already pending
    assert!(nv.take_output().is_empty());
    // resolving id 4 completes lines 0 and 1; line 2 still waits
    nv.process_event(resp(113, attrs6("2", "", "", "", "", ""))).unwrap();
    assert_eq!(nv.lineno, 2);
    // resolving id 3 completes line 2
    nv.process_event(resp(112, attrs6("3", "", "", "", "", ""))).unwrap();
    let out = nv.take_output();
    assert_eq!(nv.lineno, 3);
    // all three lines flushed; content order aa, bb, cc
    let a = contains(&out, b"aa");
    let b = contains(&out, b"bb");
    let c = contains(&out, b"cc");
    assert!(a && b && c);
    let pa = out.windows(2).position(|w| w == b"aa").unwrap();
    let pb = out.windows(2).position(|w| w == b"bb").unwrap();
    let pc = out.windows(2).position(|w| w == b"cc").unwrap();
    assert!(pa < pb && pb < pc);
}

#[test]
fn attribute_requested_once_per_syntax_id() {
    // Two lines referencing the same unresolved id concurrently:
    // exactly one attribute-resolution request goes out.
    let mut nv = handshake();
    nv.add_line(b"x".to_vec(), 0).unwrap(); // 106
    nv.add_line(b"y".to_vec(), 1).unwrap(); // 107
    nv.take_outbox();
    nv.process_event(resp(106, RpcValue::Nil)).unwrap(); // -> 108
    nv.process_event(resp(107, RpcValue::Nil)).unwrap(); // -> 109
    nv.process_event(resp(108, ids(&[9]))).unwrap(); // attr req for 9 -> 110
    nv.process_event(resp(109, ids(&[9]))).unwrap(); // 9 pending: no new request
    let outbox = nv.take_outbox();
    assert_eq!(count_occurrences(&outbox, b"vim_call_function"), 1);
    nv.process_event(resp(110, attrs6("4", "", "", "", "", ""))).unwrap();
    let out = nv.take_output();
    assert_eq!(nv.lineno, 2);
    assert!(contains(&out, b"x"));
    assert!(contains(&out, b"y"));
}

#[test]
fn reset_restarts_numbering_and_keeps_cache() {
    let mut nv = handshake();
    nv.add_line(b"q".to_vec(), 0).unwrap(); // 106
    nv.process_event(resp(106, RpcValue::Nil)).unwrap(); // -> 107
    nv.process_event(resp(107, ids(&[7]))).unwrap(); // attr req -> 108
    nv.process_event(resp(108, attrs6("5", "", "", "", "", ""))).unwrap();
    assert_eq!(nv.lineno, 1);
    nv.take_output();
    nv.take_outbox();

    nv.reset().unwrap(); // sends the buffer wipe (109)
    assert_eq!(nv.lineno, 0);
    let outbox = nv.take_outbox();
    assert!(contains(&outbox, b"bwipe!"));

    // next submitted line is numbered from the start offset again
    nv.add_line(b"r".to_vec(), 0).unwrap(); // 110
    nv.process_event(resp(110, RpcValue::Nil)).unwrap(); // -> 111
    nv.process_event(resp(111, ids(&[7]))).unwrap();
    // id 7 was resolved before the reset: no new attribute request
    let outbox = nv.take_outbox();
    assert_eq!(count_occurrences(&outbox, b"vim_call_function"), 0);
    // and the line flushes immediately with the cached attribute
    let out = nv.take_output();
    assert_eq!(nv.lineno, 1);
    assert!(contains(&out, b"r"));
    assert!(contains(&out, b"\x1b[38;5;5m"));
}

#[test]
fn unknown_response_id_is_fatal() {
    let mut nv = handshake();
    let r = nv.process_event(resp(9999, RpcValue::Nil));
    assert!(matches!(r, Err(NvimError::ProtocolError)));
}

#[test]
fn engine_error_retires_continuation_and_surfaces() {
    let mut nv = handshake();
    nv.add_line(b"z".to_vec(), 0).unwrap(); // 106
    let frame = RpcValue::Arr(vec![
        RpcValue::Uint(1),
        RpcValue::Uint(106),
        RpcValue::Arr(vec![RpcValue::Uint(0), RpcValue::Str("boom".to_string())]),
        RpcValue::Nil,
    ]);
    let r = nv.process_event(frame);
    match r {
        Err(NvimError::RpcError(m)) => assert_eq!(m, "boom"),
        other => panic!("expected an engine error, got {:?}", other),
    }
    // the id was consumed: a second response for it is a violation
    let r2 = nv.process_event(resp(106, RpcValue::Nil));
    assert!(matches!(r2, Err(NvimError::ProtocolError)));
}

#[test]
fn notification_frames_are_ignored() {
    let mut nv = handshake();
    let note = RpcValue::Arr(vec![
        RpcValue::Uint(2),
        RpcValue::Str("redraw".to_string()),
        RpcValue::Nil,
    ]);
    assert!(nv.process_event(note).is_ok());
}

#[test]
fn numbered_output_has_gutter() {
    let mut nv = Nvim::new(NvimOptions { numbered: true, restricted_mode: false }).unwrap();
    nv.process_event(resp(101, RpcValue::Nil)).unwrap();
    nv.process_event(resp(102, RpcValue::Nil)).unwrap();
    nv.process_event(resp(103, RpcValue::Nil)).unwrap();
    nv.process_event(resp(104, RpcValue::Bool(true))).unwrap();
    nv.process_event(resp(105, attrs6("", "", "", "", "", ""))).unwrap();
    assert!(!nv.ready());
    // the gutter attribute query went out as 106
    nv.process_event(resp(106, attrs6("3", "", "bold", "", "", ""))).unwrap();
    assert!(nv.ready());
    nv.add_line(b"hi".to_vec(), 0).unwrap(); // 107
    nv.process_event(resp(107, RpcValue::Nil)).unwrap(); // -> 108
    nv.process_event(resp(108, ids(&[0, 0]))).unwrap();
    let out = nv.take_output();
    assert_eq!(nv.lineno, 1);
    // gutter: all six parameters, one-based number padded to six
    // columns, two spaces, reset
    assert!(contains(&out, b"\x1b[38;5;3;49;1;27;23;24m     1  \x1b[0m"));
    assert!(contains(&out, b"hi"));
}

#[test]
fn control_bytes_render_in_caret_notation_end_to_end() {
    let mut nv = handshake();
    nv.add_line(vec![0x01, 0x09, 0x41, 0x7f], 0).unwrap(); // 106
    nv.process_event(resp(106, RpcValue::Nil)).unwrap(); // -> 107
    // the engine's ids for control columns are overridden with the
    // reserved special id 1; it needs resolving once
    nv.process_event(resp(107, ids(&[6, 6, 6, 6]))).unwrap();
    // pending: special id 1 and id 6 -> requests 108 (1) and 109 (6)
    nv.process_event(resp(108, attrs6("", "", "", "", "", ""))).unwrap();
    nv.process_event(resp(109, attrs6("", "", "", "", "", ""))).unwrap();
    let out = nv.take_output();
    assert_eq!(nv.lineno, 1);
    let mut expected = Vec::new();
    expected.extend_from_slice(b"^A\t");
    expected.extend_from_slice(b"A");
    expected.extend_from_slice(b"^?");
    expected.extend_from_slice(b"\x1b[K\x1b[0m\n");
    assert_eq!(out, expected);
}

#[test]
fn no_escape_between_identical_attribute_sets() {
    // two adjacent columns with different syntax ids that resolve to
    // identical attribute sets: no escape at their boundary
    let mut nv = handshake();
    nv.add_line(b"mn".to_vec(), 0).unwrap(); // 106
    nv.process_event(resp(106, RpcValue::Nil)).unwrap(); // -> 107
    nv.process_event(resp(107, ids(&[21, 22]))).unwrap(); // reqs 108, 109
    nv.process_event(resp(108, attrs6("6", "", "", "", "", ""))).unwrap();
    nv.process_event(resp(109, attrs6("6", "", "", "", "", ""))).unwrap();
    let out = nv.take_output();
    assert_eq!(nv.lineno, 1);
    // one escape before the span, none between m and n
    let mut expected = Vec::new();
    expected.extend_from_slice(b"\x1b[38;5;6m");
    expected.extend_from_slice(b"mn");
    expected.extend_from_slice(b"\x1b[39m");
    expected.extend_from_slice(b"\x1b[K\x1b[0m\n");
    assert_eq!(out, expected);
}

#[test]
fn malformed_syntax_id_payload_is_a_decode_error() {
    let mut nv = handshake();
    nv.add_line(b"w".to_vec(), 0).unwrap(); // 106
    nv.process_event(resp(106, RpcValue::Nil)).unwrap(); // -> 107
    let r = nv.process_event(resp(107, RpcValue::Str("nope".to_string())));
    assert!(matches!(r, Err(NvimError::DecodeError)));
}

#[test]
fn malformed_attribute_payload_is_a_decode_error() {
    let mut nv = handshake();
    nv.add_line(b"w".to_vec(), 0).unwrap(); // 106
    nv.process_event(resp(106, RpcValue::Nil)).unwrap(); // -> 107
    nv.process_event(resp(107, ids(&[2]))).unwrap(); // attr req -> 108
    let r = nv.process_event(resp(108, RpcValue::Arr(vec![RpcValue::Nil])));
    assert!(matches!(r, Err(NvimError::DecodeError)));
}

#[test]
fn engine_ids_for_control_columns_are_overridden() {
    // a control column is forced to the reserved special id even if
    // the engine reported something else for it
    let mut nv = handshake();
    nv.add_line(vec![0x02, 0x58], 0).unwrap(); // 106
    nv.process_event(resp(106, RpcValue::Nil)).unwrap(); // -> 107
    // the engine claims id 40 for both columns; column 0 is control
    nv.process_event(resp(107, ids(&[40, 40]))).unwrap();
    // resolution requests go out for the special id and for 40
    nv.process_event(resp(108, attrs6("", "", "", "", "", ""))).unwrap();
    nv.process_event(resp(109, attrs6("", "", "", "", "", ""))).unwrap();
    let out = nv.take_output();
    assert_eq!(nv.lineno, 1);
    let mut expected = Vec::new();
    expected.extend_from_slice(b"^B");
    expected.extend_from_slice(b"X");
    expected.extend_from_slice(b"\x1b[K\x1b[0m\n");
    assert_eq!(out, expected);
}
