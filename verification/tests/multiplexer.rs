//! Tests of the multiplexer decisions and the line framer, including
//! the immediate-return fallback for sources that cannot be watched.

use nvim_cat::nvim::NvimError;
use nvim_cat::poller::{NBBufReader, PollResult, Poller};

#[test]
fn registered_source_keeps_blocking_waits() {
    let mut p = Poller::new(3);
    assert_eq!(p.timeout(), -1);
    p.add_stdin(5, true);
    assert_eq!(p.timeout(), -1);
    assert!(matches!(p.next(Some(5)), Ok(PollResult::Stdin)));
    assert!(matches!(p.next(Some(3)), Ok(PollResult::Stdout)));
    assert!(matches!(p.next(Some(9)), Err(NvimError::ProtocolError)));
    assert_eq!(p.rm_stdin(), Some(5));
    assert_eq!(p.rm_stdin(), None);
}

#[test]
fn unwatchable_source_falls_back_to_immediate_mode() {
    // registration denied with a permission-style error: the poller
    // switches to zero-wait polling instead of failing, and a wait
    // that reports nothing ready means "attempt an input read"
    let mut p = Poller::new(3);
    p.add_stdin(5, false);
    assert_eq!(p.timeout(), 0);
    assert!(matches!(p.next(None), Ok(PollResult::Stdin)));
    assert!(matches!(p.next(Some(3)), Ok(PollResult::Stdout)));
    assert_eq!(p.rm_stdin(), None);
}

#[test]
fn immediate_mode_still_reaches_end_of_file() {
    // a bounded unwatchable source: repeated zero-wait input reads
    // reach the end of the data and then the end-of-file signal, so
    // the loop terminates instead of blocking forever
    let mut p = Poller::new(3);
    p.add_stdin(5, false);
    let mut r = NBBufReader::new();
    let mut chunks: Vec<&[u8]> = vec![b"one\ntw", b"o\nthree", b"", b""];
    chunks.reverse();
    let mut lines: Vec<Vec<u8>> = Vec::new();
    let mut rounds = 0;
    loop {
        rounds += 1;
        assert!(rounds < 10, "the drain loop must terminate");
        match p.next(None).unwrap() {
            PollResult::Stdin => match r.read_lines(chunks.pop().unwrap()) {
                Some(mut got) => lines.append(&mut got),
                None => {
                    p.rm_stdin();
                    break;
                },
            },
            PollResult::Stdout => panic!("engine descriptor is not ready here"),
        }
    }
    assert_eq!(lines, vec![b"one".to_vec(), b"two".to_vec(), b"three".to_vec()]);
}

#[test]
fn line_framer_splits_and_carries() {
    let mut r = NBBufReader::new();
    let got = r.read_lines(b"alpha\nbeta").unwrap();
    assert_eq!(got, vec![b"alpha".to_vec()]);
    let got = r.read_lines(b"\ngamma").unwrap();
    assert_eq!(got, vec![b"beta".to_vec()]);
    // end of file: the unterminated tail comes back as a final line
    let got = r.read_lines(b"").unwrap();
    assert_eq!(got, vec![b"gamma".to_vec()]);
    // and after that, the source is spent
    assert!(r.read_lines(b"").is_none());
}

#[test]
fn line_framer_strips_carriage_returns_within_a_chunk() {
    let mut r = NBBufReader::new();
    let got = r.read_lines(b"a\r\nb\n\n").unwrap();
    assert_eq!(got, vec![b"a".to_vec(), b"b".to_vec(), b"".to_vec()]);
    // a carriage return split from its newline by a chunk boundary
    // is kept, matching per-chunk framing
    let got = r.read_lines(b"c\r").unwrap();
    assert!(got.is_empty());
    let got = r.read_lines(b"\n").unwrap();
    assert_eq!(got, vec![b"c\r".to_vec()]);
}

#[test]
fn line_framer_with_no_complete_line_keeps_reading() {
    let mut r = NBBufReader::new();
    // a chunk with no newline is not the end of the source
    assert_eq!(r.read_lines(b"partial").unwrap(), Vec::<Vec<u8>>::new());
    let got = r.read_lines(b" line\n").unwrap();
    assert_eq!(got, vec![b"partial line".to_vec()]);
    assert!(r.read_lines(b"").is_none());
}
