//! The I/O multiplexer's decision state, and the non-blocking line
//! framer.
//!
//! The readiness primitive itself (registering descriptors, waiting,
//! reading) lives outside; this module decides what to do with each
//! outcome: which descriptor a readiness event denotes, what timeout
//! the next wait should use, and how one chunk of input bytes splits
//! into submitted lines. A source that cannot be registered for
//! readiness notifications (a plain file) switches the poller into an
//! immediate-return mode instead of failing.

use vstd::prelude::*;

use crate::nvim::{NvimError, NvimResult};

verus! {

/// Which descriptor one readiness event denotes.
pub enum PollResult {
    Stdout,
    Stdin,
}

/// The multiplexer's decision state: the engine's output descriptor,
/// the registered input descriptor if any, and the wait timeout
/// (`-1` to block, `0` for the immediate-return fallback).
pub struct Poller {
    timeout: i32,
    stdout_fd: i32,
    stdin_fd: Option<i32>,
}

impl Poller {
    /// The wait timeout the next readiness wait should use.
    pub closed spec fn spec_timeout(&self) -> i32 {
        self.timeout
    }

    /// The engine output descriptor being watched.
    pub closed spec fn spec_stdout_fd(&self) -> i32 {
        self.stdout_fd
    }

    /// The registered input descriptor, if registration succeeded.
    pub closed spec fn spec_stdin_fd(&self) -> Option<i32> {
        self.stdin_fd
    }

    /// A poller watching the engine's output descriptor, blocking
    /// until something is ready.
    pub fn new(stdout_fd: i32) -> (r: Self)
        ensures
            r.spec_timeout() == -1,
            r.spec_stdout_fd() == stdout_fd,
            r.spec_stdin_fd() matches Option::<i32>::None,
    {
        Poller { timeout: -1, stdout_fd, stdin_fd: None }
    }

    /// Record the outcome of registering the input descriptor for
    /// readiness notifications. A successful registration keeps the
    /// blocking wait; a source that cannot be watched (a permission
    /// error from the registration call) switches to the zero-wait
    /// immediate mode instead.
    pub fn add_stdin(&mut self, stdin_fd: i32, registered: bool)
        ensures
            final(self).spec_stdout_fd() == old(self).spec_stdout_fd(),
            registered ==> final(self).spec_stdin_fd() == Some(stdin_fd)
                && final(self).spec_timeout() == -1,
            !registered ==> (final(self).spec_stdin_fd() matches Option::<i32>::None)
                && final(self).spec_timeout() == 0,
    {
        if registered {
            self.stdin_fd = Some(stdin_fd);
            self.timeout = -1;
        } else {
            self.stdin_fd = None;
            self.timeout = 0;
        }
    }

    /// Forget the input descriptor. Returns the descriptor the caller
    /// must deregister, if one had been registered.
    pub fn rm_stdin(&mut self) -> (r: Option<i32>)
        ensures
            r == old(self).spec_stdin_fd(),
            final(self).spec_stdin_fd() matches Option::<i32>::None,
            final(self).spec_timeout() == old(self).spec_timeout(),
            final(self).spec_stdout_fd() == old(self).spec_stdout_fd(),
    {
        let r = self.stdin_fd;
        self.stdin_fd = None;
        r
    }

    /// Classify one readiness outcome. `ready_fd` is the descriptor
    /// the wait reported, or `None` when a zero-wait poll found
    /// nothing ready — which in immediate mode means: attempt an
    /// input read. Any other descriptor violates the poller's
    /// invariants.
    pub fn next(&self, ready_fd: Option<i32>) -> (r: NvimResult<PollResult>)
        ensures
            match r {
                Ok(PollResult::Stdin) => ready_fd == self.spec_stdin_fd(),
                Ok(PollResult::Stdout) => ready_fd == Some(self.spec_stdout_fd()) && ready_fd
                    != self.spec_stdin_fd(),
                Err(e) => {
                    &&& e matches NvimError::ProtocolError
                    &&& ready_fd != self.spec_stdin_fd()
                    &&& ready_fd != Some(self.spec_stdout_fd())
                },
            },
    {
        let same_as_stdin = match (ready_fd, self.stdin_fd) {
            (Option::Some(a), Option::Some(b)) => a == b,
            (Option::None, Option::None) => true,
            _ => false,
        };
        if same_as_stdin {
            Ok(PollResult::Stdin)
        } else {
            match ready_fd {
                Option::Some(fd) if fd == self.stdout_fd => Ok(PollResult::Stdout),
                _ => Err(NvimError::ProtocolError),
            }
        }
    }

    /// The wait timeout for the caller's readiness wait.
    pub fn timeout(&self) -> (r: i32)
        ensures
            r == self.spec_timeout(),
    {
        self.timeout
    }
}

/// Strip one trailing carriage return from a completed line segment,
/// if the segment is non-empty and ends with one.
pub open spec fn strip_cr(seg: Seq<u8>) -> Seq<u8> {
    if seg.len() > 0 && seg.last() == 13 {
        seg.drop_last()
    } else {
        seg
    }
}

/// Split the chunk `c` into completed lines, byte by byte.
///
/// `l` is what an earlier chunk left unterminated (it prepends to the
/// first completed line, untouched by carriage-return stripping);
/// `seg` is the part of the current line read so far from this chunk.
/// The result is the completed lines and the new unterminated
/// remainder.
pub open spec fn scan_lines(l: Seq<u8>, seg: Seq<u8>, c: Seq<u8>) -> (Seq<Seq<u8>>, Seq<u8>)
    decreases c.len(),
{
    if c.len() == 0 {
        (Seq::empty(), l + seg)
    } else if c[0] == 10 {
        let line = l + strip_cr(seg);
        let rest = scan_lines(Seq::empty(), Seq::empty(), c.drop_first());
        (seq![line] + rest.0, rest.1)
    } else {
        scan_lines(l, seg.push(c[0]), c.drop_first())
    }
}

/// The line framer: assembles complete lines from the chunks that
/// readiness-driven reads produce, carrying unterminated bytes from
/// one chunk to the next.
pub struct NBBufReader {
    leftover: Vec<u8>,
}

impl NBBufReader {
    /// The bytes of the current unterminated line.
    pub closed spec fn spec_leftover(&self) -> Seq<u8> {
        self.leftover@
    }

    /// A framer with nothing carried over.
    pub fn new() -> (r: Self)
        ensures
            r.spec_leftover() == Seq::<u8>::empty(),
    {
        NBBufReader { leftover: Vec::new() }
    }

    /// Feed one chunk of input bytes and collect the lines it
    /// completes.
    ///
    /// A non-empty chunk yields `Some` with every line it completes
    /// (possibly none yet); newline terminators are consumed and a
    /// carriage return immediately before one is stripped. An empty
    /// chunk means the source is exhausted: any unterminated bytes
    /// come back as one final line, and after that `None` says the
    /// source is spent.
    pub fn read_lines(&mut self, chunk: &[u8]) -> (r: Option<Vec<Vec<u8>>>)
        ensures
            chunk@.len() == 0 && old(self).spec_leftover().len() == 0 ==> (r matches Option::<
                Vec<Vec<u8>>,
            >::None) && final(self).spec_leftover().len() == 0,
            chunk@.len() == 0 && old(self).spec_leftover().len() > 0 ==> (match r {
                Some(lines) => lines.deep_view() == seq![old(self).spec_leftover()]
                    && final(self).spec_leftover().len() == 0,
                None => false,
            }),
            chunk@.len() > 0 ==> (match r {
                Some(lines) => {
                    let res = scan_lines(old(self).spec_leftover(), Seq::empty(), chunk@);
                    lines.deep_view() == res.0 && final(self).spec_leftover() == res.1
                },
                None => false,
            }),
    {
        if chunk.len() == 0 {
            if self.leftover.len() > 0 {
                let mut lo: Vec<u8> = Vec::new();
                core::mem::swap(&mut lo, &mut self.leftover);
                let mut lines: Vec<Vec<u8>> = Vec::new();
                lines.push(lo);
                proof {
                    assert(lines.deep_view() =~~= seq![old(self).spec_leftover()]);
                }
                Some(lines)
            } else {
                None
            }
        } else {
            let ghost full = scan_lines(old(self).spec_leftover(), Seq::empty(), chunk@);
            let mut lines: Vec<Vec<u8>> = Vec::new();
            let mut cur: Vec<u8> = Vec::new();
            core::mem::swap(&mut cur, &mut self.leftover);
            let mut seg_start: usize = cur.len();
            let mut i: usize = 0;
            proof {
                assert(cur@.subrange(0, seg_start as int) =~= old(self).spec_leftover());
                assert(cur@.subrange(seg_start as int, cur@.len() as int) =~= Seq::<u8>::empty());
                assert(chunk@.subrange(0, chunk@.len() as int) =~= chunk@);
                assert(lines.deep_view() =~= Seq::<Seq<u8>>::empty());
                assert(Seq::<Seq<u8>>::empty() + full.0 =~= full.0);
            }
            while i < chunk.len()
                invariant
                    0 <= i <= chunk@.len(),
                    seg_start <= cur@.len(),
                    full.0 == lines.deep_view() + scan_lines(
                        cur@.subrange(0, seg_start as int),
                        cur@.subrange(seg_start as int, cur@.len() as int),
                        chunk@.subrange(i as int, chunk@.len() as int),
                    ).0,
                    full.1 == scan_lines(
                        cur@.subrange(0, seg_start as int),
                        cur@.subrange(seg_start as int, cur@.len() as int),
                        chunk@.subrange(i as int, chunk@.len() as int),
                    ).1,
                decreases chunk@.len() - i,
            {
                let b = chunk[i];
                proof {
                    assert(chunk@.subrange(i as int, chunk@.len() as int).drop_first()
                        =~= chunk@.subrange(i + 1, chunk@.len() as int));
                    assert(chunk@.subrange(i as int, chunk@.len() as int)[0] == chunk@[i as int]);
                }
                if b == 10 {
                    let ghost pre_l = cur@.subrange(0, seg_start as int);
                    let ghost pre_seg = cur@.subrange(seg_start as int, cur@.len() as int);
                    let ghost lines0 = lines.deep_view();
                    let ghost rest0 = scan_lines(
                        Seq::empty(),
                        Seq::empty(),
                        chunk@.subrange(i + 1, chunk@.len() as int),
                    );
                    if cur.len() > seg_start && cur[cur.len() - 1] == 13 {
                        cur.pop();
                    }
                    proof {
                        assert(cur@ =~= pre_l + strip_cr(pre_seg));
                    }
                    lines.push(cur);
                    cur = Vec::new();
                    seg_start = 0;
                    proof {
                        assert(cur@.subrange(0, 0) =~= Seq::<u8>::empty());
                        assert(lines.deep_view() =~~= lines0.push(pre_l + strip_cr(pre_seg)));
                        assert(lines0 + (seq![pre_l + strip_cr(pre_seg)] + rest0.0)
                            =~= lines.deep_view() + rest0.0);
                    }
                } else {
                    let ghost cur0 = cur@;
                    cur.push(b);
                    proof {
                        assert(cur@.subrange(0, seg_start as int) =~= cur0.subrange(
                            0,
                            seg_start as int,
                        ));
                        assert(cur@.subrange(seg_start as int, cur@.len() as int) =~= cur0.subrange(
                            seg_start as int,
                            cur0.len() as int,
                        ).push(b));
                    }
                }
                i += 1;
            }
            proof {
                assert(chunk@.subrange(i as int, chunk@.len() as int) =~= Seq::<u8>::empty());
                assert(cur@.subrange(0, seg_start as int) + cur@.subrange(
                    seg_start as int,
                    cur@.len() as int,
                ) =~= cur@);
            }
            self.leftover = cur;
            Some(lines)
        }
    }
}

} // verus!
