//! The pipelined engine client: continuation dispatch, the attribute
//! cache, the reorder buffer and the ANSI renderer.
//!
//! All engine I/O happens outside; this module consumes decoded
//! response frames one at a time, serializes the requests they
//! trigger into an outbox, and accumulates rendered output bytes.
//! Its invariants carry the pipeline's guarantees: lines are emitted
//! in strictly increasing order with no gaps or duplicates, and at
//! most one attribute-resolution request is ever issued per distinct
//! syntax id.

use vstd::prelude::*;
use vstd::seq_lib::group_seq_properties;
use vstd::std_specs::hash::group_hash_axioms;
use vstd::string::StringSliceAdditionalSpecFns;
use vstd::utf8::encode_utf8;

use vstd::hash_map::HashMapWithView;
use vstd::hash_set::HashSetWithView;

use crate::decimal::{dec_chars, dec_string, push_dec};
use crate::rpc::{
    arr_of, is_arr, is_nil, is_str, is_uint, mp_arr_hdr, mp_bool, mp_map_hdr, mp_str_bytes,
    mp_uint, request_prefix, str_of, uint_of, Frame, MsgId, RpcValue, Writer,
};
use crate::rpc::{frame_wf, parse_frame};
use crate::synattr::{AttrChars, SynAttr};

verus! {

broadcast use group_hash_axioms, group_seq_properties;

/// The error taxonomy of the pipeline.
///
/// `RpcError` carries an engine-reported application error for one
/// request; the pipeline survives it. The other variants are fatal:
/// `EncodeError` for a request that cannot be serialized, `DecodeError`
/// for a malformed engine frame or payload, and `ProtocolError` for a
/// response that violates the client's own invariants (such as an id
/// that matches no pending continuation).
#[derive(Debug)]
pub enum NvimError {
    RpcError(String),
    EncodeError,
    DecodeError,
    ProtocolError,
}

pub type NvimResult<T> = Result<T, NvimError>;

/// Options fixed at session start.
#[derive(Copy, Clone)]
pub struct NvimOptions {
    /// Emit a line-number gutter before each output line.
    pub numbered: bool,
    /// Launch the engine in its restricted mode.
    pub restricted_mode: bool,
}

/// What happens when the response to one pipeline request arrives.
pub enum Callback {
    /// A line was inserted into the engine buffer; ask for its
    /// per-column syntax ids next.
    AddLine(usize, Vec<u8>),
    /// The per-column syntax ids arrived; build the line record and
    /// fetch unknown attributes.
    GetSynId(usize, Vec<u8>),
    /// The attributes of one syntax id arrived; resolve the cache
    /// entry.
    GetSynAttr(usize),
}

/// One attribute cache entry: resolved, or requested but not yet
/// answered.
pub enum FutureSynAttr {
    Resolved(SynAttr),
    Pending,
}

/// Whether a byte renders in caret notation: control bytes except
/// tab, and delete.
pub open spec fn is_control_byte(c: u8) -> bool {
    (c <= 31 && c != 9) || c == 127
}

/// The caret notation of a control byte: `^` and the byte shifted up
/// by 64, or `^?` for delete.
pub open spec fn caret_bytes(c: u8) -> Seq<u8> {
    if c == 127 {
        seq![94u8, 63u8]
    } else {
        seq![94u8, (c + 64) as u8]
    }
}

/// The printable rendering of raw bytes: control bytes in caret
/// notation, everything else verbatim.
pub open spec fn print_bytes(s: Seq<u8>) -> Seq<u8>
    decreases s.len(),
{
    if s.len() == 0 {
        Seq::empty()
    } else {
        (if is_control_byte(s[0]) {
            caret_bytes(s[0])
        } else {
            seq![s[0]]
        }) + print_bytes(s.drop_first())
    }
}

/// Appending one byte to the input appends its rendering to the
/// output.
pub proof fn lemma_print_bytes_push(s: Seq<u8>, x: u8)
    ensures
        print_bytes(s.push(x)) == print_bytes(s) + (if is_control_byte(x) {
            caret_bytes(x)
        } else {
            seq![x]
        }),
    decreases s.len(),
{
    if s.len() == 0 {
        assert(s.push(x).drop_first() =~= Seq::<u8>::empty());
        assert(print_bytes(s.push(x)) =~= print_bytes(s) + (if is_control_byte(x) {
            caret_bytes(x)
        } else {
            seq![x]
        }));
    } else {
        lemma_print_bytes_push(s.drop_first(), x);
        assert(s.push(x).drop_first() =~= s.drop_first().push(x));
        assert(print_bytes(s.push(x)) =~= print_bytes(s) + (if is_control_byte(x) {
            caret_bytes(x)
        } else {
            seq![x]
        }));
    }
}

/// Whether the byte `c` renders in caret notation.
pub fn char_is_control(c: u8) -> (r: bool)
    ensures
        r == is_control_byte(c),
{
    c == 127 || (c <= 31 && c != 9)
}

/// Append the printable rendering of `bytes` to `vec`: control bytes
/// in caret notation (`^` plus the byte shifted up by 64, `^?` for
/// delete), tab and everything else verbatim.
pub fn push_print_str(vec: &mut Vec<u8>, bytes: &[u8])
    ensures
        final(vec)@ == old(vec)@ + print_bytes(bytes@),
{
    let mut i: usize = 0;
    proof {
        assert(bytes@.subrange(0, 0) =~= Seq::<u8>::empty());
        assert(vec@ =~= old(vec)@ + print_bytes(bytes@.subrange(0, 0)));
    }
    while i < bytes.len()
        invariant
            0 <= i <= bytes@.len(),
            vec@ == old(vec)@ + print_bytes(bytes@.subrange(0, i as int)),
        decreases bytes@.len() - i,
    {
        let c = bytes[i];
        proof {
            assert(bytes@.subrange(0, i + 1) =~= bytes@.subrange(0, i as int).push(c));
            lemma_print_bytes_push(bytes@.subrange(0, i as int), c);
        }
        if char_is_control(c) {
            vec.push(94);
            if c == 127 {
                vec.push(63);
            } else {
                vec.push(c + 64);
            }
        } else {
            vec.push(c);
        }
        i += 1;
    }
    proof {
        assert(bytes@.subrange(0, bytes@.len() as int) =~= bytes@);
    }
}

/// The SGR parameter fragment one attribute component contributes:
/// nothing when it matches the previously rendered component, else a
/// separator and the new fragment.
pub open spec fn field_diff(prev: Seq<char>, cur: Seq<char>) -> Seq<char> {
    if prev == cur {
        Seq::empty()
    } else {
        seq![';'] + cur
    }
}

/// The separator-prefixed SGR parameters that switching from `prev`
/// to `cur` requires: only the components that differ.
pub open spec fn sgr_params(prev: AttrChars, cur: AttrChars) -> Seq<char> {
    field_diff(prev.fg, cur.fg) + field_diff(prev.bg, cur.bg) + field_diff(prev.bold, cur.bold)
        + field_diff(prev.reverse, cur.reverse) + field_diff(prev.italic, cur.italic) + field_diff(
        prev.underline,
        cur.underline,
    )
}

/// The escape sequence emitted when the active attribute changes from
/// `prev` to `cur`: nothing at all when every component matches, else
/// the CSI introducer, the differing parameters and the final byte.
pub open spec fn sgr_escape(prev: AttrChars, cur: AttrChars) -> Seq<u8> {
    if sgr_params(prev, cur).len() == 0 {
        Seq::empty()
    } else {
        seq![27u8, 91u8] + encode_utf8(sgr_params(prev, cur).drop_first()) + seq![109u8]
    }
}

/// Two columns resolved to identical attribute sets produce no escape
/// at their boundary.
pub proof fn lemma_no_escape_for_equal_attrs(prev: AttrChars, cur: AttrChars)
    requires
        prev == cur,
    ensures
        sgr_params(prev, cur) == Seq::<char>::empty(),
        sgr_escape(prev, cur) == Seq::<u8>::empty(),
{
    assert(sgr_params(prev, cur) =~= Seq::<char>::empty());
}

/// Whether the cache maps `id` to a resolved attribute.
pub open spec fn is_resolved(m: Map<usize, FutureSynAttr>, id: usize) -> bool {
    m.contains_key(id) && (m[id] matches FutureSynAttr::Resolved(_))
}

/// The resolved attribute the cache holds for `id`.
pub open spec fn resolved_attr(m: Map<usize, FutureSynAttr>, id: usize) -> AttrChars {
    match m[id] {
        FutureSynAttr::Resolved(a) => a@,
        FutureSynAttr::Pending => arbitrary(),
    }
}

/// The syntax id active at column `i`, with the reserved id `0` (the
/// baseline) pinned past the end so every line closes back to it.
pub open spec fn col_synid(synids: Seq<usize>, i: int) -> usize {
    if i < synids.len() {
        synids[i]
    } else {
        0
    }
}

/// The rendered bytes of the columns of one line from column `i` on.
///
/// `start` is the first column whose bytes have not been flushed yet,
/// `prev_id`/`prev` the last distinct syntax id seen and its
/// attribute. At each column where the id changes, the pending bytes
/// flush (caret-expanded) and an escape with the differing components
/// is emitted — none at all when the attribute sets are identical.
pub open spec fn render_from(
    line: Seq<u8>,
    synids: Seq<usize>,
    m: Map<usize, FutureSynAttr>,
    i: int,
    start: int,
    prev_id: Option<usize>,
    prev: AttrChars,
) -> Seq<u8>
    decreases synids.len() + 1 - i,
{
    if i < 0 || i > synids.len() {
        print_bytes(line.subrange(start, line.len() as int))
    } else {
        let sid = col_synid(synids, i);
        if prev_id == Some(sid) {
            render_from(line, synids, m, i + 1, start, prev_id, prev)
        } else {
            let a = resolved_attr(m, sid);
            if sgr_params(prev, a).len() == 0 {
                render_from(line, synids, m, i + 1, start, Some(sid), a)
            } else {
                print_bytes(line.subrange(start, i)) + sgr_escape(prev, a) + render_from(
                    line,
                    synids,
                    m,
                    i + 1,
                    i,
                    Some(sid),
                    a,
                )
            }
        }
    }
}

/// The full rendered bytes of one line's content, starting from the
/// neutral attribute `dflt`.
pub open spec fn render_line_spec(
    line: Seq<u8>,
    synids: Seq<usize>,
    m: Map<usize, FutureSynAttr>,
    dflt: AttrChars,
) -> Seq<u8> {
    render_from(line, synids, m, 0, 0, None, dflt)
}

/// Whether every id of `synids`, and the baseline id `0`, is resolved
/// in the cache.
pub open spec fn all_resolved(m: Map<usize, FutureSynAttr>, synids: Seq<usize>) -> bool {
    is_resolved(m, 0) && (forall|j: int| 0 <= j < synids.len() ==> is_resolved(m, synids[j]))
}

/// Append the diff of one attribute component to the escape being
/// built: nothing when equal, the fragment (separator-prefixed unless
/// it is the first) when not.
fn append_diff(esc: &mut String, any: &mut bool, prev: &String, cur: &String)
    ensures
        *final(any) == (*old(any) || prev@ != cur@),
        prev@ == cur@ ==> final(esc)@ == old(esc)@,
        prev@ != cur@ && !*old(any) ==> final(esc)@ == old(esc)@ + cur@,
        prev@ != cur@ && *old(any) ==> final(esc)@ == old(esc)@ + seq![';'] + cur@,
{
    proof {
        reveal_strlit(";");
        assert((";")@ =~= seq![';']);
    }
    if !prev.eq(cur) {
        if *any {
            esc.append(";");
        }
        esc.append(cur.as_str());
        *any = true;
    }
}

/// Build the SGR parameter string for switching from `prev` to
/// `cur`: the differing components, separator-joined, and whether
/// there are any.
fn build_params(prev: &SynAttr, cur: &SynAttr) -> (r: (String, bool))
    ensures
        r.1 == (sgr_params(prev@, cur@).len() > 0),
        r.1 ==> seq![';'] + r.0@ == sgr_params(prev@, cur@),
        !r.1 ==> r.0@ == Seq::<char>::empty(),
{
    let mut esc = String::new();
    let mut any = false;
    let ghost p0: Seq<char> = Seq::empty();
    append_diff(&mut esc, &mut any, &prev.fg, &cur.fg);
    let ghost p1 = p0 + field_diff(prev@.fg, cur@.fg);
    proof {
        assert(any == (p1.len() > 0));
        assert(p1.len() > 0 ==> seq![';'] + esc@ =~= p1);
        assert(p1.len() == 0 ==> esc@ =~= Seq::<char>::empty());
    }
    append_diff(&mut esc, &mut any, &prev.bg, &cur.bg);
    let ghost p2 = p1 + field_diff(prev@.bg, cur@.bg);
    proof {
        assert(any == (p2.len() > 0));
        assert(p2.len() > 0 ==> seq![';'] + esc@ =~= p2);
        assert(p2.len() == 0 ==> esc@ =~= Seq::<char>::empty());
    }
    append_diff(&mut esc, &mut any, &prev.bold, &cur.bold);
    let ghost p3 = p2 + field_diff(prev@.bold, cur@.bold);
    proof {
        assert(any == (p3.len() > 0));
        assert(p3.len() > 0 ==> seq![';'] + esc@ =~= p3);
        assert(p3.len() == 0 ==> esc@ =~= Seq::<char>::empty());
    }
    append_diff(&mut esc, &mut any, &prev.reverse, &cur.reverse);
    let ghost p4 = p3 + field_diff(prev@.reverse, cur@.reverse);
    proof {
        assert(any == (p4.len() > 0));
        assert(p4.len() > 0 ==> seq![';'] + esc@ =~= p4);
        assert(p4.len() == 0 ==> esc@ =~= Seq::<char>::empty());
    }
    append_diff(&mut esc, &mut any, &prev.italic, &cur.italic);
    let ghost p5 = p4 + field_diff(prev@.italic, cur@.italic);
    proof {
        assert(any == (p5.len() > 0));
        assert(p5.len() > 0 ==> seq![';'] + esc@ =~= p5);
        assert(p5.len() == 0 ==> esc@ =~= Seq::<char>::empty());
    }
    append_diff(&mut esc, &mut any, &prev.underline, &cur.underline);
    let ghost p6 = p5 + field_diff(prev@.underline, cur@.underline);
    proof {
        assert(any == (p6.len() > 0));
        assert(p6.len() > 0 ==> seq![';'] + esc@ =~= p6);
        assert(p6.len() == 0 ==> esc@ =~= Seq::<char>::empty());
        assert(p6 =~= sgr_params(prev@, cur@));
    }
    (esc, any)
}

/// Render the content of one line into `out`: its bytes
/// caret-expanded, with a minimal escape at each column where the
/// active syntax id changes to one with a different attribute set.
#[verifier::rlimit(100)]
pub fn render_line(
    out: &mut Vec<u8>,
    line: &Vec<u8>,
    synids: &Vec<usize>,
    cache: &HashMapWithView<usize, FutureSynAttr>,
    dflt: &SynAttr,
)
    requires
        synids@.len() <= line@.len(),
        synids@.len() < usize::MAX,
        all_resolved(cache@, synids@),
    ensures
        final(out)@ == old(out)@ + render_line_spec(line@, synids@, cache@, dflt@),
{
    let n = synids.len();
    let mut i: usize = 0;
    let mut start: usize = 0;
    let mut prev_known = false;
    let mut prev_sid: usize = 0;
    let mut prev: &SynAttr = dflt;
    let ghost mut done: Seq<u8> = Seq::empty();
    proof {
        assert(old(out)@ + done =~= out@);
    }
    while i <= n
        invariant
            synids@.len() == n <= line@.len(),
            n < usize::MAX,
            all_resolved(cache@, synids@),
            0 <= i <= n + 1,
            0 <= start <= i,
            start <= line@.len(),
            out@ == old(out)@ + done,
            render_line_spec(line@, synids@, cache@, dflt@) == done + render_from(
                line@,
                synids@,
                cache@,
                i as int,
                start as int,
                if prev_known {
                    Some(prev_sid)
                } else {
                    None
                },
                prev@,
            ),
        decreases n + 1 - i,
    {
        let sid: usize = if i < n {
            synids[i]
        } else {
            0
        };
        if !(prev_known && prev_sid == sid) {
            let a: &SynAttr = match cache.get(&sid) {
                Some(f) => match f {
                    FutureSynAttr::Resolved(a) => a,
                    FutureSynAttr::Pending => {
                        proof {
                            assert(is_resolved(cache@, sid));
                        }
                        dflt
                    },
                },
                None => {
                    proof {
                        assert(is_resolved(cache@, sid));
                    }
                    dflt
                },
            };
            let (esc, any) = build_params(prev, a);
            if any {
                push_print_str(out, slice_range(line, start, i));
                out.push(27);
                out.push(91);
                let esc_bytes = esc.as_str().as_bytes();
                out.extend_from_slice(esc_bytes);
                out.push(109);
                proof {
                    assert(esc@ =~= sgr_params(prev@, a@).drop_first());
                    done = done + print_bytes(line@.subrange(start as int, i as int)) + sgr_escape(
                        prev@,
                        a@,
                    );
                    assert(out@ =~= old(out)@ + done);
                }
                start = i;
            }
            prev = a;
            prev_sid = sid;
            prev_known = true;
        }
        i += 1;
    }
    push_print_str(out, slice_range(line, start, line.len()));
    proof {
        assert(line@.subrange(start as int, line@.len() as int).len() >= 0);
        assert(out@ =~= old(out)@ + render_line_spec(line@, synids@, cache@, dflt@));
    }
}

/// The bytes of `v` from `from` to `to`.
fn slice_range<'a>(v: &'a Vec<u8>, from: usize, to: usize) -> (r: &'a [u8])
    requires
        from <= to <= v@.len(),
    ensures
        r@ == v@.subrange(from as int, to as int),
{
    let s: &[u8] = v.as_slice();
    vstd::slice::slice_subrange(s, from, to)
}


/// One pending continuation, abstractly: what will happen when the
/// response under this id arrives.
pub ghost enum ContView {
    /// A line was handed to the engine; its response triggers the
    /// batched syntax-id query. Carries the session generation, the
    /// line number and the raw bytes.
    AddLine(u32, usize, Seq<u8>),
    /// The per-column syntax ids were requested; their response
    /// queues the line and fetches unknown attributes.
    GetSynId(u32, usize, Seq<u8>),
    /// An attribute resolution for one syntax id is in flight.
    GetSynAttr(u32, usize),
    /// The response carries nothing and is retired silently.
    Forget,
    /// The colour-depth option query of the handshake.
    GetOption,
    /// The baseline attribute query of the handshake.
    GetNormal,
    /// The gutter attribute query of the handshake.
    GetLineNr,
}

spec fn cont_to_view(c: Continuation) -> ContView {
    match c {
        Continuation::Run(g, cb) => match cb {
            Callback::AddLine(ln, b) => ContView::AddLine(g, ln, b@),
            Callback::GetSynId(ln, b) => ContView::GetSynId(g, ln, b@),
            Callback::GetSynAttr(sid) => ContView::GetSynAttr(g, sid),
        },
        Continuation::Forget => ContView::Forget,
        Continuation::GetOption => ContView::GetOption,
        Continuation::GetNormal => ContView::GetNormal,
        Continuation::GetLineNr => ContView::GetLineNr,
    }
}

/// One buffered line, abstractly: its number, raw bytes, per-column
/// syntax ids and still-unresolved ids.
pub ghost struct LineView {
    pub lineno: usize,
    pub line: Seq<u8>,
    pub synids: Seq<usize>,
    pub pending: Set<usize>,
}

spec fn line_to_view(l: Line) -> LineView {
    LineView { lineno: l.lineno, line: l.line@, synids: l.synids@, pending: l.pending@ }
}

spec fn slot_to_view(o: Option<Line>) -> Option<LineView> {
    match o {
        Some(l) => Some(line_to_view(l)),
        None => None,
    }
}

/// Whether a buffer slot holds a line with every attribute resolved.
pub open spec fn slot_ready(o: Option<LineView>) -> bool {
    match o {
        Some(lv) => lv.pending.is_empty(),
        None => false,
    }
}

/// How many lines at the head of the buffer are ready to flush.
pub open spec fn flush_len_v(q: Seq<Option<LineView>>) -> int
    decreases q.len(),
{
    if q.len() == 0 || !slot_ready(q[0]) {
        0
    } else {
        1 + flush_len_v(q.drop_first())
    }
}

/// The full output bytes of one flushed line, from its parts:
/// optional gutter, rendered content, trailer.
pub open spec fn rendered_parts(
    lineno: usize,
    line: Seq<u8>,
    synids: Seq<usize>,
    m: Map<usize, FutureSynAttr>,
    linenr: Option<AttrChars>,
    dflt: AttrChars,
) -> Seq<u8> {
    (match linenr {
        Some(a) => encode_utf8(gutter_chars(a, lineno as nat)),
        None => Seq::empty(),
    }) + render_line_spec(line, synids, m, dflt) + trailer_bytes()
}

/// The output bytes of flushing the first `k` buffer slots.
pub open spec fn flush_bytes_v(
    q: Seq<Option<LineView>>,
    k: int,
    m: Map<usize, FutureSynAttr>,
    linenr: Option<AttrChars>,
    dflt: AttrChars,
) -> Seq<u8>
    decreases k,
{
    if k <= 0 || q.len() == 0 {
        Seq::empty()
    } else {
        (match q[0] {
            Some(lv) => rendered_parts(lv.lineno, lv.line, lv.synids, m, linenr, dflt),
            None => Seq::empty(),
        }) + flush_bytes_v(q.drop_first(), k - 1, m, linenr, dflt)
    }
}

/// The buffer after one attribute resolution: the resolved id is
/// struck from every line's unresolved set.
pub open spec fn strike(q: Seq<Option<LineView>>, s: usize) -> Seq<Option<LineView>> {
    q.map_values(
        |o: Option<LineView>|
            match o {
                Some(lv) => Some(
                    LineView {
                        lineno: lv.lineno,
                        line: lv.line,
                        synids: lv.synids,
                        pending: lv.pending.remove(s),
                    },
                ),
                None => None,
            },
    )
}

/// The buffer after queueing one line at slot `idx` (slots up to it
/// spring into existence empty).
pub open spec fn place(q: Seq<Option<LineView>>, idx: int, lv: LineView) -> Seq<Option<LineView>> {
    Seq::new(
        if idx + 1 > q.len() {
            (idx + 1) as nat
        } else {
            q.len()
        },
        |i: int|
            if i == idx {
                Some(lv)
            } else if i < q.len() {
                q[i]
            } else {
                None
            },
    )
}

proof fn lemma_flush_len_v_bounds(q: Seq<Option<LineView>>)
    ensures
        0 <= flush_len_v(q) <= q.len(),
    decreases q.len(),
{
    if q.len() == 0 || !slot_ready(q[0]) {
    } else {
        lemma_flush_len_v_bounds(q.drop_first());
    }
}

proof fn lemma_flush_len_bridge(q: Seq<Option<Line>>)
    ensures
        flush_len_v(q.map_values(|o: Option<Line>| slot_to_view(o))) == flush_len(q),
    decreases q.len(),
{
    let qv = q.map_values(|o: Option<Line>| slot_to_view(o));
    if q.len() == 0 {
    } else {
        assert(qv[0] == slot_to_view(q[0]));
        assert(slot_ready(qv[0]) == line_ready(q[0]));
        lemma_flush_len_bridge(q.drop_first());
        assert(q.drop_first().map_values(|o: Option<Line>| slot_to_view(o)) =~= qv.drop_first());
    }
}

proof fn lemma_flush_bytes_bridge(
    q: Seq<Option<Line>>,
    k: int,
    m: Map<usize, FutureSynAttr>,
    linenr: Option<AttrChars>,
    dflt: AttrChars,
)
    ensures
        flush_bytes_v(q.map_values(|o: Option<Line>| slot_to_view(o)), k, m, linenr, dflt)
            == flush_bytes(q, k, m, linenr, dflt),
    decreases k,
{
    let qv = q.map_values(|o: Option<Line>| slot_to_view(o));
    if k <= 0 || q.len() == 0 {
    } else {
        assert(qv[0] == slot_to_view(q[0]));
        lemma_flush_bytes_bridge(q.drop_first(), k - 1, m, linenr, dflt);
        assert(q.drop_first().map_values(|o: Option<Line>| slot_to_view(o)) =~= qv.drop_first());
        match q[0] {
            Some(l) => {
                assert(rendered_line(l, m, linenr, dflt) == rendered_parts(
                    l.lineno,
                    l.line@,
                    l.synids@,
                    m,
                    linenr,
                    dflt,
                ));
            },
            None => (),
        }
    }
}

/// One submitted line awaiting emission: its number, raw bytes, the
/// per-column syntax ids, and the ids whose attributes are still
/// unresolved.
pub struct Line {
    pub lineno: usize,
    pub line: Vec<u8>,
    pub synids: Vec<usize>,
    pub pending: HashSetWithView<usize>,
}

/// What happens when one in-flight request's response arrives.
enum Continuation {
    /// A pipeline step, tagged with the session it belongs to; steps
    /// of an abandoned session are retired without effect (except
    /// attribute resolutions, which outlive sessions with the cache).
    Run(u32, Callback),
    /// The response carries nothing the pipeline needs.
    Forget,
    /// The value of the colour-depth option.
    GetOption,
    /// The attributes of the baseline highlight group.
    GetNormal,
    /// The attributes of the line-number gutter group.
    GetLineNr,
}

/// Whether the cache entry `e` is still pending.
pub open spec fn entry_pending(e: FutureSynAttr) -> bool {
    match e {
        FutureSynAttr::Pending => true,
        FutureSynAttr::Resolved(_) => false,
    }
}

/// Whether a queue slot holds a line whose attributes are all
/// resolved.
pub open spec fn line_ready(o: Option<Line>) -> bool {
    match o {
        Some(l) => l.pending@.is_empty(),
        None => false,
    }
}

/// How many lines at the head of the queue are ready to flush.
pub open spec fn flush_len(q: Seq<Option<Line>>) -> int
    decreases q.len(),
{
    if q.len() == 0 || !line_ready(q[0]) {
        0
    } else {
        1 + flush_len(q.drop_first())
    }
}

/// `k` spaces.
pub open spec fn spaces(k: nat) -> Seq<char>
    decreases k,
{
    if k == 0 {
        Seq::empty()
    } else {
        seq![' '] + spaces((k - 1) as nat)
    }
}

/// The decimal notation of `n`, right-aligned to six columns.
pub open spec fn pad6(n: nat) -> Seq<char> {
    if dec_chars(n).len() >= 6 {
        dec_chars(n)
    } else {
        spaces((6 - dec_chars(n).len()) as nat) + dec_chars(n)
    }
}

/// The line-number gutter: the gutter group's attributes, the
/// one-based line number right-aligned to six columns, two spaces,
/// and a reset.
pub open spec fn gutter_chars(a: AttrChars, lineno: nat) -> Seq<char> {
    ("\u{1b}[")@ + a.fg + (";")@ + a.bg + (";")@ + a.bold + (";")@ + a.reverse + (";")@ + a.italic
        + (";")@ + a.underline + ("m")@ + pad6(lineno + 1) + ("  ")@ + ("\u{1b}[0m")@
}

/// The per-line trailer: clear to end of line, reset, newline.
pub open spec fn trailer_bytes() -> Seq<u8> {
    seq![27u8, 91u8, 75u8, 27u8, 91u8, 48u8, 109u8, 10u8]
}

/// The full output bytes of one flushed line: optional gutter,
/// rendered content, trailer.
pub open spec fn rendered_line(
    l: Line,
    m: Map<usize, FutureSynAttr>,
    linenr: Option<AttrChars>,
    dflt: AttrChars,
) -> Seq<u8> {
    (match linenr {
        Some(a) => encode_utf8(gutter_chars(a, l.lineno as nat)),
        None => Seq::empty(),
    }) + render_line_spec(l.line@, l.synids@, m, dflt) + trailer_bytes()
}

/// The output bytes of flushing the first `k` lines of the queue.
pub open spec fn flush_bytes(
    q: Seq<Option<Line>>,
    k: int,
    m: Map<usize, FutureSynAttr>,
    linenr: Option<AttrChars>,
    dflt: AttrChars,
) -> Seq<u8>
    decreases k,
{
    if k <= 0 || q.len() == 0 {
        Seq::empty()
    } else {
        (match q[0] {
            Some(l) => rendered_line(l, m, linenr, dflt),
            None => Seq::empty(),
        }) + flush_bytes(q.drop_first(), k - 1, m, linenr, dflt)
    }
}

/// The pipelined engine client.
///
/// Requests leave through an outbox of serialized frames; decoded
/// response frames come back one at a time through
/// [`Nvim::process_event`]; rendered output accumulates in an output
/// buffer. Between any two calls the well-formedness invariant
/// [`Nvim::wf`] holds, and it carries the pipeline's ordering and
/// deduplication guarantees.
pub struct Nvim {
    writer: Writer,
    syn_attr_cache: HashMapWithView<usize, FutureSynAttr>,
    callbacks: HashMapWithView<MsgId, Continuation>,
    queue: Vec<Option<Line>>,
    /// The number of the next line to emit.
    pub lineno: usize,
    submitted: usize,
    session: u32,
    default_attr: SynAttr,
    normal_attr: SynAttr,
    hi_linenr: Option<SynAttr>,
    termguicolors: bool,
    numbered: bool,
    got_option: bool,
    got_normal: bool,
    got_linenr: bool,
    output: Vec<u8>,
    emitted: Ghost<Seq<int>>,
    attr_requested: Ghost<Seq<usize>>,
}

/// Whether some in-flight continuation is the baseline attribute
/// query.
spec fn has_normal_cont_map(m: Map<MsgId, Continuation>) -> bool {
    exists|x: MsgId|
        #[trigger] m.dom().contains(x) && (m[x] matches Continuation::GetNormal)
}

proof fn lemma_normal_cont_preserved(
    pre: Map<MsgId, Continuation>,
    post: Map<MsgId, Continuation>,
    id: MsgId,
    c: Continuation,
)
    requires
        post == pre.insert(id, c),
        !(c matches Continuation::GetNormal),
        !pre.dom().contains(id),
    ensures
        has_normal_cont_map(post) == has_normal_cont_map(pre),
{
    if has_normal_cont_map(pre) {
        let x = choose|x: MsgId|
            #[trigger] pre.dom().contains(x) && (pre[x] matches Continuation::GetNormal);
        assert(post.dom().contains(x) && (post[x] matches Continuation::GetNormal));
    }
    if has_normal_cont_map(post) {
        let x = choose|x: MsgId|
            #[trigger] post.dom().contains(x) && (post[x] matches Continuation::GetNormal);
        if x != id {
            assert(pre.dom().contains(x) && (pre[x] matches Continuation::GetNormal));
        }
    }
}

/// The line number a continuation is working towards, if it belongs
/// to the session `sess` and to a particular line.
spec fn cont_line_no(c: Continuation, sess: u32) -> Option<usize> {
    match c {
        Continuation::Run(g, cb) => if g == sess {
            match cb {
                Callback::AddLine(ln, _) => Some(ln),
                Callback::GetSynId(ln, _) => Some(ln),
                Callback::GetSynAttr(_) => None,
            }
        } else {
            None
        },
        _ => None,
    }
}

/// The line bytes a continuation carries, if any.
spec fn cont_line_bytes(c: Continuation) -> Option<Seq<u8>> {
    match c {
        Continuation::Run(_, cb) => match cb {
            Callback::AddLine(_, b) => Some(b@),
            Callback::GetSynId(_, b) => Some(b@),
            Callback::GetSynAttr(_) => None,
        },
        _ => None,
    }
}

/// The syntax id a continuation resolves, if it is an attribute
/// resolution.
spec fn cont_attr_id(c: Continuation) -> Option<usize> {
    match c {
        Continuation::Run(_, cb) => match cb {
            Callback::GetSynAttr(s) => Some(s),
            _ => None,
        },
        _ => None,
    }
}

impl Nvim {
    /// The attribute cache, abstractly.
    pub closed spec fn cache_view(&self) -> Map<usize, FutureSynAttr> {
        self.syn_attr_cache@
    }

    /// The reorder buffer, abstractly. Slot `i` belongs to line
    /// `lineno + i`.
    pub closed spec fn queue_view(&self) -> Seq<Option<Line>> {
        self.queue@
    }

    /// The ids of the in-flight requests.
    pub closed spec fn pending_ids(&self) -> Set<MsgId> {
        self.callbacks@.dom()
    }

    /// The in-flight continuations, abstractly: which step runs when
    /// each pending id's response arrives.
    pub closed spec fn pending_view(&self) -> Map<MsgId, ContView> {
        self.callbacks@.map_values(|c: Continuation| cont_to_view(c))
    }

    /// The reorder buffer, abstractly: slot `i` belongs to line
    /// `next_lineno() + i`.
    pub closed spec fn buffer_view(&self) -> Seq<Option<LineView>> {
        self.queue@.map_values(|o: Option<Line>| slot_to_view(o))
    }

    /// The serialized request frames awaiting transmission.
    pub closed spec fn outbox_bytes(&self) -> Seq<u8> {
        self.writer.pending()
    }

    /// The rendered output bytes awaiting emission.
    pub closed spec fn output_bytes(&self) -> Seq<u8> {
        self.output@
    }

    /// The numbers of the lines emitted so far, in emission order.
    pub closed spec fn emitted_linenos(&self) -> Seq<int> {
        self.emitted@
    }

    /// The syntax ids for which an attribute-resolution request has
    /// ever been issued, in issue order. Spans session resets.
    pub closed spec fn attr_requests(&self) -> Seq<usize> {
        self.attr_requested@
    }

    /// The number of the next line to emit, abstractly.
    pub closed spec fn next_lineno(&self) -> usize {
        self.lineno
    }

    /// The current session generation.
    pub closed spec fn session_id(&self) -> u32 {
        self.session
    }

    /// How many lines have been submitted this session.
    pub closed spec fn submitted_count(&self) -> usize {
        self.submitted
    }

    /// The id of the most recently serialized request.
    pub closed spec fn last_msg_id(&self) -> MsgId {
        self.writer.last_id()
    }

    /// Whether nothing flushable remains: at rest, the buffer's head
    /// is absent or still unresolved (everything ready has already
    /// been emitted).
    pub closed spec fn flushed(&self) -> bool {
        flush_len(self.queue@) == 0
    }

    /// Whether a line-number gutter was requested.
    pub closed spec fn is_numbered(&self) -> bool {
        self.numbered
    }

    /// Whether the baseline attribute query is still in flight.
    pub closed spec fn has_normal_cont(&self) -> bool {
        has_normal_cont_map(self.callbacks@)
    }

    /// Whether the handshake has completed.
    pub closed spec fn ready_spec(&self) -> bool {
        self.got_option && self.got_normal && (self.numbered ==> self.got_linenr)
    }

    /// The gutter group's attributes, once resolved.
    pub closed spec fn linenr_view(&self) -> Option<AttrChars> {
        match self.hi_linenr {
            Some(a) => Some(a@),
            None => None,
        }
    }

    /// The baseline group's attributes.
    pub closed spec fn normal_view(&self) -> AttrChars {
        self.normal_attr@
    }

    /// One line record is well-formed against the cache: its id list
    /// no longer than its bytes, its bytes within the wire limit, and
    /// every id present in the cache — in its own unresolved set
    /// whenever the cache entry is still pending.
    pub open spec fn line_wf(l: Line, m: Map<usize, FutureSynAttr>) -> bool {
        &&& l.synids@.len() <= l.line@.len()
        &&& l.line@.len() < 0xFFFF_FFFF
        &&& forall|j: int|
            0 <= j < l.synids@.len() ==> #[trigger] m.contains_key(l.synids@[j]) && (entry_pending(
                m[l.synids@[j]],
            ) ==> l.pending@.contains(l.synids@[j]))
    }

    /// One in-flight continuation is well-formed against the current
    /// state.
    spec fn cont_wf(&self, c: Continuation) -> bool {
        &&& (match cont_line_no(c, self.session) {
            Some(ln) => self.lineno <= ln < self.submitted && (ln - self.lineno < self.queue@.len()
                ==> self.queue@[ln - self.lineno] matches Option::<Line>::None),
            None => true,
        })
        &&& (match cont_line_bytes(c) {
            Some(b) => b.len() < 0xFFFF_FFFF,
            None => true,
        })
        &&& (match cont_attr_id(c) {
            Some(s) => self.syn_attr_cache@.contains_key(s) && entry_pending(
                self.syn_attr_cache@[s],
            ) && self.got_normal,
            None => true,
        })
        &&& (match c {
            Continuation::Run(g, _) => g <= self.session,
            _ => true,
        })
        &&& (c matches Continuation::GetNormal ==> !self.got_normal)
        &&& (c matches Continuation::GetLineNr ==> self.got_normal)
    }

    /// The whole client is well-formed. This is the inductive
    /// invariant every public operation preserves; it carries the
    /// ordering guarantee (the emitted numbers are exactly
    /// `0..lineno`) and the deduplication guarantee (the issued
    /// attribute requests are pairwise distinct).
    pub closed spec fn wf(&self) -> bool {
        &&& self.lineno + self.queue@.len() <= self.submitted
        &&& (self.submitted > 0 ==> self.ready_spec())
        &&& (forall|i: int|
            0 <= i < self.queue@.len() ==> (match #[trigger] self.queue@[i] {
                Some(l) => l.lineno == self.lineno + i && Self::line_wf(l, self.syn_attr_cache@),
                None => true,
            }))
        &&& (forall|id: MsgId|
            #[trigger] self.callbacks@.dom().contains(id) ==> id <= self.writer.last_id()
                && self.cont_wf(self.callbacks@[id]))
        &&& (forall|id1: MsgId, id2: MsgId|
            self.callbacks@.dom().contains(id1) && self.callbacks@.dom().contains(id2) && id1
                != id2 && cont_line_no(#[trigger] self.callbacks@[id1], self.session).is_some()
                ==> cont_line_no(self.callbacks@[id1], self.session) != cont_line_no(
                #[trigger] self.callbacks@[id2],
                self.session,
            ))
        &&& (forall|id1: MsgId, id2: MsgId|
            self.callbacks@.dom().contains(id1) && self.callbacks@.dom().contains(id2) && id1
                != id2 ==> !((#[trigger] self.callbacks@[id1]) matches Continuation::GetNormal && (
            #[trigger] self.callbacks@[id2]) matches Continuation::GetNormal))
        &&& (forall|id1: MsgId, id2: MsgId|
            self.callbacks@.dom().contains(id1) && self.callbacks@.dom().contains(id2) && id1
                != id2 && cont_attr_id(#[trigger] self.callbacks@[id1]).is_some() ==> cont_attr_id(
                self.callbacks@[id1],
            ) != cont_attr_id(#[trigger] self.callbacks@[id2]))
        &&& (self.got_normal ==> is_resolved(self.syn_attr_cache@, 0))
        &&& (!self.got_normal ==> (forall|k: usize| !self.syn_attr_cache@.contains_key(k)))
        &&& self.emitted@ == Seq::new(self.lineno as nat, |i: int| i)
        &&& self.attr_requested@.no_duplicates()
        &&& (forall|i: int|
            0 <= i < self.attr_requested@.len() ==> self.syn_attr_cache@.contains_key(
                #[trigger] self.attr_requested@[i],
            ))
        &&& self.default_attr@ == crate::synattr::spec_default_attr()
    }

    /// Whether the handshake has completed and lines may be
    /// submitted.
    pub fn ready(&self) -> (r: bool)
        ensures
            r == self.ready_spec(),
    {
        self.got_option && self.got_normal && (!self.numbered || self.got_linenr)
    }

    /// Hand the serialized request frames over for transmission.
    pub fn take_outbox(&mut self) -> (r: Vec<u8>)
        requires
            old(self).wf(),
        ensures
            final(self).wf(),
            r@ == old(self).outbox_bytes(),
            final(self).outbox_bytes() == Seq::<u8>::empty(),
            same_pipeline_state(old(self), final(self)),
            final(self).pending_ids() == old(self).pending_ids(),
            final(self).last_msg_id() == old(self).last_msg_id(),
    {
        self.writer.take()
    }

    /// Hand the rendered output bytes over for emission.
    pub fn take_output(&mut self) -> (r: Vec<u8>)
        requires
            old(self).wf(),
        ensures
            final(self).wf(),
            r@ == old(self).output_bytes(),
            final(self).output_bytes() == Seq::<u8>::empty(),
            final(self).outbox_bytes() == old(self).outbox_bytes(),
            final(self).pending_ids() == old(self).pending_ids(),
            final(self).cache_view() == old(self).cache_view(),
            final(self).queue_view() == old(self).queue_view(),
            final(self).next_lineno() == old(self).next_lineno(),
            final(self).submitted_count() == old(self).submitted_count(),
            final(self).emitted_linenos() == old(self).emitted_linenos(),
            final(self).attr_requests() == old(self).attr_requests(),
            final(self).session_id() == old(self).session_id(),
    {
        let mut out: Vec<u8> = Vec::new();
        core::mem::swap(&mut out, &mut self.output);
        out
    }
}

/// Everything except the outbox, the in-flight ids and the id
/// sequence is unchanged between `a` and `b`.
pub open spec fn same_pipeline_state(a: &Nvim, b: &Nvim) -> bool {
    &&& a.cache_view() == b.cache_view()
    &&& a.queue_view() == b.queue_view()
    &&& a.next_lineno() == b.next_lineno()
    &&& a.submitted_count() == b.submitted_count()
    &&& a.session_id() == b.session_id()
    &&& a.output_bytes() == b.output_bytes()
    &&& a.emitted_linenos() == b.emitted_linenos()
    &&& a.attr_requests() == b.attr_requests()
    &&& a.ready_spec() == b.ready_spec()
    &&& a.is_numbered() == b.is_numbered()
    &&& a.linenr_view() == b.linenr_view()
    &&& a.normal_view() == b.normal_view()
    &&& a.flushed() == b.flushed()
}

/// The serialized request that taps the enter key.
pub open spec fn req_vim_input(id: MsgId) -> Seq<u8> {
    request_prefix(id, ("vim_input").spec_bytes(), 1) + mp_str_bytes(("<CR>").spec_bytes())
}

/// The serialized request that runs one command string.
pub open spec fn req_command(id: MsgId, cmd: Seq<u8>) -> Seq<u8> {
    request_prefix(id, ("nvim_command").spec_bytes(), 1) + mp_str_bytes(cmd)
}

/// The serialized request that attaches a UI surface.
pub open spec fn req_ui_attach(id: MsgId, width: u64, height: u64) -> Seq<u8> {
    request_prefix(id, ("nvim_ui_attach").spec_bytes(), 3) + mp_uint(width) + mp_uint(height)
        + mp_map_hdr(1) + mp_str_bytes(("rgb").spec_bytes()) + mp_bool(true)
}

/// The serialized request that detaches the UI surface.
pub open spec fn req_ui_detach(id: MsgId) -> Seq<u8> {
    request_prefix(id, ("nvim_ui_detach").spec_bytes(), 0)
}

/// The serialized request that queries the colour-depth option.
pub open spec fn req_get_option(id: MsgId) -> Seq<u8> {
    request_prefix(id, ("nvim_get_option").spec_bytes(), 1) + mp_str_bytes(
        ("termguicolors").spec_bytes(),
    )
}

/// The serialized request that names the engine buffer.
pub open spec fn req_buf_set_name(id: MsgId, name: Seq<u8>) -> Seq<u8> {
    request_prefix(id, ("nvim_buf_set_name").spec_bytes(), 2) + mp_uint(0) + mp_str_bytes(name)
}

/// The serialized request that inserts one line into the engine
/// buffer at `lineno`.
pub open spec fn req_buffer_insert(id: MsgId, lineno: u64, line: Seq<u8>) -> Seq<u8> {
    request_prefix(id, ("buffer_insert").spec_bytes(), 3) + mp_uint(0) + mp_uint(lineno)
        + mp_arr_hdr(1) + mp_str_bytes(line)
}

/// The expression that resolves, in one batched evaluation, the
/// syntax id of every column of the line at `lineno` (both numbers
/// one-based on the wire).
pub open spec fn synid_expr_chars(lineno: nat, length: nat) -> Seq<char> {
    ("map(range(1, ")@ + dec_chars(length + 1) + ("), \"synID(")@ + dec_chars(lineno + 1) + (
    ", v:val, 0)\")")@
}

/// The serialized request that evaluates the batched syntax-id
/// expression for one line.
pub open spec fn req_get_synid(id: MsgId, lineno: nat, length: nat) -> Seq<u8> {
    request_prefix(id, ("nvim_eval").spec_bytes(), 1) + mp_str_bytes(
        encode_utf8(synid_expr_chars(lineno, length)),
    )
}

/// The serialized array of the six attribute-component names.
pub open spec fn attr_list_bytes() -> Seq<u8> {
    mp_arr_hdr(6) + mp_str_bytes(("fg").spec_bytes()) + mp_str_bytes(("bg").spec_bytes())
        + mp_str_bytes(("bold").spec_bytes()) + mp_str_bytes(("reverse").spec_bytes())
        + mp_str_bytes(("italic").spec_bytes()) + mp_str_bytes(("underline").spec_bytes())
}

/// The expression that maps one attribute-component name to its value
/// for the syntax id `synid`.
pub open spec fn synattr_expr_chars(synid: nat) -> Seq<char> {
    ("synIDattr(synIDtrans(")@ + dec_chars(synid) + ("), v:val, &termguicolors ? 'gui' : 'cterm')")@
}

/// The expression that maps one attribute-component name to its value
/// for the highlight group `name`.
pub open spec fn hl_expr_chars(name: Seq<char>) -> Seq<char> {
    ("synIDattr(synIDtrans(hlID('")@ + name + ("')), v:val, &termguicolors ? 'gui' : 'cterm')")@
}

/// The serialized request that resolves all six attribute components
/// in one batched mapped call of `func` over the component names.
pub open spec fn req_call_map(id: MsgId, func: Seq<char>) -> Seq<u8> {
    request_prefix(id, ("vim_call_function").spec_bytes(), 2) + mp_str_bytes(("map").spec_bytes())
        + mp_arr_hdr(2) + attr_list_bytes() + mp_str_bytes(encode_utf8(func))
}

impl Nvim {
    /// Tap the enter key, to push the engine past a blocking prompt.
    /// The response carries nothing and is retired silently.
    pub fn press_enter(&mut self) -> (r: NvimResult<()>)
        requires
            old(self).wf(),
        ensures
            final(self).wf(),
            same_pipeline_state(old(self), final(self)),
            final(self).has_normal_cont() == old(self).has_normal_cont(),
            r.is_ok() <==> old(self).last_msg_id() < MsgId::MAX,
            match r {
                Ok(()) => {
                    &&& final(self).last_msg_id() == old(self).last_msg_id() + 1
                    &&& final(self).outbox_bytes() == old(self).outbox_bytes() + req_vim_input(
                        final(self).last_msg_id(),
                    )
                    &&& final(self).pending_ids() == old(self).pending_ids().insert(
                        final(self).last_msg_id(),
                    )
                },
                Err(e) => e matches NvimError::EncodeError && *final(self) == *old(self),
            },
    {
        proof {
            reveal_strlit("vim_input");
            reveal_strlit("<CR>");
            assert(vstd::utf8::is_ascii_chars(("vim_input")@));
            crate::rpc::lemma_ascii_bytes_len(("vim_input")@);
            assert(vstd::utf8::is_ascii_chars(("<CR>")@));
            crate::rpc::lemma_ascii_bytes_len(("<CR>")@);
        }
        let id = match self.writer.write("vim_input", 1) {
            Ok(id) => id,
            Err(e) => {
                return Err(e);
            },
        };
        match self.writer.arg_str("<CR>") {
            Ok(()) => (),
            Err(e) => {
                proof {
                    assert(false);
                }
                return Err(e);
            },
        };
        self.callbacks.insert(id, Continuation::Forget);
        proof {
            assert(self.callbacks@.dom() =~= old(self).callbacks@.dom().insert(id));
            lemma_normal_cont_preserved(
                old(self).callbacks@,
                self.callbacks@,
                id,
                Continuation::Forget,
            );
            assert(self.outbox_bytes() =~= old(self).outbox_bytes() + req_vim_input(id));
        }
        Ok(())
    }
}

impl Nvim {
    /// Run one command string on the engine, pipelined; the response
    /// is retired silently. An engine-reported error for it surfaces
    /// when its response frame is processed.
    pub fn nvim_command(&mut self, command: &str) -> (r: NvimResult<()>)
        requires
            old(self).wf(),
        ensures
            final(self).wf(),
            same_pipeline_state(old(self), final(self)),
            final(self).has_normal_cont() == old(self).has_normal_cont(),
            r.is_ok() <==> old(self).last_msg_id() < MsgId::MAX && command.spec_bytes().len()
                < 0xFFFF_FFFF,
            match r {
                Ok(()) => {
                    &&& final(self).last_msg_id() == old(self).last_msg_id() + 1
                    &&& final(self).outbox_bytes() == old(self).outbox_bytes() + req_command(
                        final(self).last_msg_id(),
                        command.spec_bytes(),
                    )
                    &&& final(self).pending_ids() == old(self).pending_ids().insert(
                        final(self).last_msg_id(),
                    )
                },
                Err(e) => {
                    &&& e matches NvimError::EncodeError
                    &&& final(self).outbox_bytes() == old(self).outbox_bytes()
                    &&& final(self).pending_ids() == old(self).pending_ids()
                },
            },
    {
        proof {
            reveal_strlit("nvim_command");
            assert(vstd::utf8::is_ascii_chars(("nvim_command")@));
            crate::rpc::lemma_ascii_bytes_len(("nvim_command")@);
        }
        let mark = self.writer.mark();
        let id = match self.writer.write("nvim_command", 1) {
            Ok(id) => id,
            Err(e) => {
                return Err(e);
            },
        };
        match self.writer.arg_str(command) {
            Ok(()) => (),
            Err(e) => {
                self.writer.rollback(mark);
                proof {
                    assert(self.outbox_bytes() =~= old(self).outbox_bytes());
                }
                return Err(e);
            },
        };
        self.callbacks.insert(id, Continuation::Forget);
        proof {
            assert(self.callbacks@.dom() =~= old(self).callbacks@.dom().insert(id));
            lemma_normal_cont_preserved(
                old(self).callbacks@,
                self.callbacks@,
                id,
                Continuation::Forget,
            );
            assert(self.outbox_bytes() =~= old(self).outbox_bytes() + req_command(
                id,
                command.spec_bytes(),
            ));
        }
        Ok(())
    }

    /// Ask the engine to quit. The session ends here, so the response
    /// is never awaited.
    pub fn quit(&mut self) -> (r: NvimResult<()>)
        requires
            old(self).wf(),
        ensures
            final(self).wf(),
            same_pipeline_state(old(self), final(self)),
            final(self).has_normal_cont() == old(self).has_normal_cont(),
            r.is_ok() <==> old(self).last_msg_id() < MsgId::MAX,
            match r {
                Ok(()) => {
                    &&& final(self).last_msg_id() == old(self).last_msg_id() + 1
                    &&& final(self).outbox_bytes() == old(self).outbox_bytes() + req_command(
                        final(self).last_msg_id(),
                        ("qa!").spec_bytes(),
                    )
                    &&& final(self).pending_ids() == old(self).pending_ids().insert(
                        final(self).last_msg_id(),
                    )
                },
                Err(e) => {
                    &&& e matches NvimError::EncodeError
                    &&& final(self).outbox_bytes() == old(self).outbox_bytes()
                    &&& final(self).pending_ids() == old(self).pending_ids()
                },
            },
    {
        proof {
            reveal_strlit("qa!");
            assert(vstd::utf8::is_ascii_chars(("qa!")@));
            crate::rpc::lemma_ascii_bytes_len(("qa!")@);
        }
        self.nvim_command("qa!")
    }

    /// Name the engine buffer.
    pub fn buf_set_name(&mut self, name: &str) -> (r: NvimResult<()>)
        requires
            old(self).wf(),
        ensures
            final(self).wf(),
            same_pipeline_state(old(self), final(self)),
            final(self).has_normal_cont() == old(self).has_normal_cont(),
            r.is_ok() <==> old(self).last_msg_id() < MsgId::MAX && name.spec_bytes().len()
                < 0xFFFF_FFFF,
            match r {
                Ok(()) => {
                    &&& final(self).last_msg_id() == old(self).last_msg_id() + 1
                    &&& final(self).outbox_bytes() == old(self).outbox_bytes()
                        + req_buf_set_name(final(self).last_msg_id(), name.spec_bytes())
                    &&& final(self).pending_ids() == old(self).pending_ids().insert(
                        final(self).last_msg_id(),
                    )
                },
                Err(e) => {
                    &&& e matches NvimError::EncodeError
                    &&& final(self).outbox_bytes() == old(self).outbox_bytes()
                    &&& final(self).pending_ids() == old(self).pending_ids()
                },
            },
    {
        proof {
            reveal_strlit("nvim_buf_set_name");
            assert(vstd::utf8::is_ascii_chars(("nvim_buf_set_name")@));
            crate::rpc::lemma_ascii_bytes_len(("nvim_buf_set_name")@);
        }
        let mark = self.writer.mark();
        let id = match self.writer.write("nvim_buf_set_name", 2) {
            Ok(id) => id,
            Err(e) => {
                return Err(e);
            },
        };
        self.writer.arg_uint(0);
        match self.writer.arg_str(name) {
            Ok(()) => (),
            Err(e) => {
                self.writer.rollback(mark);
                proof {
                    assert(self.outbox_bytes() =~= old(self).outbox_bytes());
                }
                return Err(e);
            },
        };
        self.callbacks.insert(id, Continuation::Forget);
        proof {
            assert(self.callbacks@.dom() =~= old(self).callbacks@.dom().insert(id));
            lemma_normal_cont_preserved(
                old(self).callbacks@,
                self.callbacks@,
                id,
                Continuation::Forget,
            );
            assert(self.outbox_bytes() =~= old(self).outbox_bytes() + req_buf_set_name(
                id,
                name.spec_bytes(),
            ));
        }
        Ok(())
    }

    /// Run the engine's filetype detection unless a type is already
    /// set.
    pub fn filetype_detect(&mut self) -> (r: NvimResult<()>)
        requires
            old(self).wf(),
        ensures
            final(self).wf(),
            same_pipeline_state(old(self), final(self)),
            final(self).has_normal_cont() == old(self).has_normal_cont(),
            r.is_ok() <==> old(self).last_msg_id() < MsgId::MAX,
            match r {
                Ok(()) => {
                    &&& final(self).last_msg_id() == old(self).last_msg_id() + 1
                    &&& final(self).outbox_bytes() == old(self).outbox_bytes() + req_command(
                        final(self).last_msg_id(),
                        ("if &ft == '' | silent! filetype detect | endif").spec_bytes(),
                    )
                    &&& final(self).pending_ids() == old(self).pending_ids().insert(
                        final(self).last_msg_id(),
                    )
                },
                Err(e) => {
                    &&& e matches NvimError::EncodeError
                    &&& final(self).outbox_bytes() == old(self).outbox_bytes()
                    &&& final(self).pending_ids() == old(self).pending_ids()
                },
            },
    {
        proof {
            reveal_strlit("if &ft == '' | silent! filetype detect | endif");
            assert(vstd::utf8::is_ascii_chars(("if &ft == '' | silent! filetype detect | endif")@));
            crate::rpc::lemma_ascii_bytes_len(("if &ft == '' | silent! filetype detect | endif")@);
        }
        self.nvim_command("if &ft == '' | silent! filetype detect | endif")
    }

    /// Attach a UI surface of the given size, so the engine does not
    /// stall on startup messages.
    pub fn ui_attach(&mut self, width: isize, height: isize) -> (r: NvimResult<()>)
        requires
            old(self).wf(),
            0 <= width,
            0 <= height,
        ensures
            final(self).wf(),
            same_pipeline_state(old(self), final(self)),
            final(self).has_normal_cont() == old(self).has_normal_cont(),
            r.is_ok() <==> old(self).last_msg_id() < MsgId::MAX,
            match r {
                Ok(()) => {
                    &&& final(self).last_msg_id() == old(self).last_msg_id() + 1
                    &&& final(self).outbox_bytes() == old(self).outbox_bytes() + req_ui_attach(
                        final(self).last_msg_id(),
                        width as u64,
                        height as u64,
                    )
                    &&& final(self).pending_ids() == old(self).pending_ids().insert(
                        final(self).last_msg_id(),
                    )
                },
                Err(e) => e matches NvimError::EncodeError && *final(self) == *old(self),
            },
    {
        proof {
            reveal_strlit("nvim_ui_attach");
            reveal_strlit("rgb");
            assert(vstd::utf8::is_ascii_chars(("nvim_ui_attach")@));
            crate::rpc::lemma_ascii_bytes_len(("nvim_ui_attach")@);
            assert(vstd::utf8::is_ascii_chars(("rgb")@));
            crate::rpc::lemma_ascii_bytes_len(("rgb")@);
        }
        let id = match self.writer.write("nvim_ui_attach", 3) {
            Ok(id) => id,
            Err(e) => {
                return Err(e);
            },
        };
        self.writer.arg_uint(width as u64);
        self.writer.arg_uint(height as u64);
        self.writer.arg_map_hdr(1);
        match self.writer.arg_str("rgb") {
            Ok(()) => (),
            Err(e) => {
                proof {
                    assert(false);
                }
                return Err(e);
            },
        };
        self.writer.arg_bool(true);
        self.callbacks.insert(id, Continuation::Forget);
        proof {
            assert(self.callbacks@.dom() =~= old(self).callbacks@.dom().insert(id));
            lemma_normal_cont_preserved(
                old(self).callbacks@,
                self.callbacks@,
                id,
                Continuation::Forget,
            );
            assert(self.outbox_bytes() =~= old(self).outbox_bytes() + req_ui_attach(
                id,
                width as u64,
                height as u64,
            ));
        }
        Ok(())
    }

    /// Detach the transient UI surface again.
    pub fn ui_detach(&mut self) -> (r: NvimResult<()>)
        requires
            old(self).wf(),
        ensures
            final(self).wf(),
            same_pipeline_state(old(self), final(self)),
            final(self).has_normal_cont() == old(self).has_normal_cont(),
            r.is_ok() <==> old(self).last_msg_id() < MsgId::MAX,
            match r {
                Ok(()) => {
                    &&& final(self).last_msg_id() == old(self).last_msg_id() + 1
                    &&& final(self).outbox_bytes() == old(self).outbox_bytes() + req_ui_detach(
                        final(self).last_msg_id(),
                    )
                    &&& final(self).pending_ids() == old(self).pending_ids().insert(
                        final(self).last_msg_id(),
                    )
                },
                Err(e) => e matches NvimError::EncodeError && *final(self) == *old(self),
            },
    {
        proof {
            reveal_strlit("nvim_ui_detach");
            assert(vstd::utf8::is_ascii_chars(("nvim_ui_detach")@));
            crate::rpc::lemma_ascii_bytes_len(("nvim_ui_detach")@);
        }
        let id = match self.writer.write("nvim_ui_detach", 0) {
            Ok(id) => id,
            Err(e) => {
                return Err(e);
            },
        };
        self.callbacks.insert(id, Continuation::Forget);
        proof {
            assert(self.callbacks@.dom() =~= old(self).callbacks@.dom().insert(id));
            lemma_normal_cont_preserved(
                old(self).callbacks@,
                self.callbacks@,
                id,
                Continuation::Forget,
            );
            assert(self.outbox_bytes() =~= old(self).outbox_bytes() + req_ui_detach(id));
        }
        Ok(())
    }

    /// Serialize the array of the six attribute-component names.
    #[verifier::rlimit(100)]
    fn send_attr_names(&mut self) -> (r: NvimResult<()>)
        requires
            old(self).wf(),
        ensures
            final(self).wf(),
            same_pipeline_state(old(self), final(self)),
            final(self).pending_ids() == old(self).pending_ids(),
            final(self).callbacks@ == old(self).callbacks@,
            final(self).last_msg_id() == old(self).last_msg_id(),
            old(self).outbox_bytes().is_prefix_of(final(self).outbox_bytes()),
            r.is_ok(),
            match r {
                Ok(()) => final(self).outbox_bytes() == old(self).outbox_bytes()
                    + attr_list_bytes(),
                Err(e) => e matches NvimError::EncodeError,
            },
    {
        proof {
            reveal_strlit("fg");
            reveal_strlit("bg");
            reveal_strlit("bold");
            reveal_strlit("reverse");
            reveal_strlit("italic");
            reveal_strlit("underline");
            assert(vstd::utf8::is_ascii_chars(("fg")@));
            crate::rpc::lemma_ascii_bytes_len(("fg")@);
            assert(vstd::utf8::is_ascii_chars(("bg")@));
            crate::rpc::lemma_ascii_bytes_len(("bg")@);
            assert(vstd::utf8::is_ascii_chars(("bold")@));
            crate::rpc::lemma_ascii_bytes_len(("bold")@);
            assert(vstd::utf8::is_ascii_chars(("reverse")@));
            crate::rpc::lemma_ascii_bytes_len(("reverse")@);
            assert(vstd::utf8::is_ascii_chars(("italic")@));
            crate::rpc::lemma_ascii_bytes_len(("italic")@);
            assert(vstd::utf8::is_ascii_chars(("underline")@));
            crate::rpc::lemma_ascii_bytes_len(("underline")@);
        }
        self.writer.arg_array_hdr(6);
        match self.writer.arg_str("fg") {
            Ok(()) => (),
            Err(e) => {
                proof {
                    assert(false);
                }
                return Err(e);
            },
        };
        match self.writer.arg_str("bg") {
            Ok(()) => (),
            Err(e) => {
                proof {
                    assert(false);
                }
                return Err(e);
            },
        };
        proof {
            assert(self.outbox_bytes() =~= old(self).outbox_bytes() + (mp_arr_hdr(6)
                + mp_str_bytes(("fg").spec_bytes()) + mp_str_bytes(("bg").spec_bytes())));
        }
        let ghost oa = self.outbox_bytes();
        match self.writer.arg_str("bold") {
            Ok(()) => (),
            Err(e) => {
                proof {
                    assert(false);
                }
                return Err(e);
            },
        };
        match self.writer.arg_str("reverse") {
            Ok(()) => (),
            Err(e) => {
                proof {
                    assert(false);
                }
                return Err(e);
            },
        };
        match self.writer.arg_str("italic") {
            Ok(()) => (),
            Err(e) => {
                proof {
                    assert(false);
                }
                return Err(e);
            },
        };
        match self.writer.arg_str("underline") {
            Ok(()) => (),
            Err(e) => {
                proof {
                    assert(false);
                }
                return Err(e);
            },
        };
        proof {
            assert(self.outbox_bytes() =~= oa + (mp_str_bytes(("bold").spec_bytes())
                + mp_str_bytes(("reverse").spec_bytes()) + mp_str_bytes(("italic").spec_bytes())
                + mp_str_bytes(("underline").spec_bytes())));
            assert(self.outbox_bytes() =~= old(self).outbox_bytes() + attr_list_bytes());
        }
        Ok(())
    }

    /// Serialize one batched attribute query mapping the six
    /// component names through `func`.
    #[verifier::rlimit(100)]
    fn send_attr_query(&mut self, func: &String) -> (r: NvimResult<MsgId>)
        requires
            old(self).wf(),
        ensures
            final(self).wf(),
            same_pipeline_state(old(self), final(self)),
            final(self).pending_ids() == old(self).pending_ids(),
            final(self).callbacks@ == old(self).callbacks@,
            old(self).outbox_bytes().is_prefix_of(final(self).outbox_bytes()),
            final(self).last_msg_id() >= old(self).last_msg_id(),
            r.is_ok() <==> old(self).last_msg_id() < MsgId::MAX && vstd::utf8::encode_utf8(func@).len()
                < 0xFFFF_FFFF,
            match r {
                Ok(id) => {
                    &&& id == old(self).last_msg_id() + 1
                    &&& final(self).last_msg_id() == id
                    &&& !old(self).pending_ids().contains(id)
                    &&& final(self).outbox_bytes() == old(self).outbox_bytes() + req_call_map(
                        id,
                        func@,
                    )
                },
                Err(e) => e matches NvimError::EncodeError && final(self).outbox_bytes() == old(self).outbox_bytes(),
            },
    {
        proof {
            reveal_strlit("vim_call_function");
            reveal_strlit("map");
            assert(vstd::utf8::is_ascii_chars(("vim_call_function")@));
            crate::rpc::lemma_ascii_bytes_len(("vim_call_function")@);
            assert(vstd::utf8::is_ascii_chars(("map")@));
            crate::rpc::lemma_ascii_bytes_len(("map")@);
        }
        let ghost o0 = old(self).outbox_bytes();
        let mark = self.writer.mark();
        let id = match self.writer.write("vim_call_function", 2) {
            Ok(id) => id,
            Err(e) => {
                return Err(e);
            },
        };
        match self.writer.arg_str("map") {
            Ok(()) => (),
            Err(e) => {
                proof {
                    assert(false);
                }
                return Err(e);
            },
        };
        proof {
            assert(self.outbox_bytes() =~= o0 + (request_prefix(
                id,
                ("vim_call_function").spec_bytes(),
                2,
            ) + mp_str_bytes(("map").spec_bytes())));
        }
        let ghost o1 = self.outbox_bytes();
        self.writer.arg_array_hdr(2);
        match self.send_attr_names() {
            Ok(()) => (),
            Err(e) => {
                proof {
                    assert(false);
                }
                return Err(e);
            },
        };
        proof {
            assert(self.outbox_bytes() =~= o1 + (mp_arr_hdr(2) + attr_list_bytes()));
        }
        match self.writer.arg_str(func.as_str()) {
            Ok(()) => (),
            Err(e) => {
                self.writer.rollback(mark);
                proof {
                    assert(self.outbox_bytes() =~= o0);
                }
                return Err(e);
            },
        };
        proof {
            assert(self.outbox_bytes() =~= o0 + req_call_map(id, func@));
        }
        Ok(id)
    }

    /// Build the client and serialize the transient UI attach, the
    /// key tap and the UI detach that push the engine past startup
    /// prompts.
    #[verifier::rlimit(100)]
    fn start_session(options: NvimOptions) -> (r: NvimResult<Nvim>)
        ensures
            match r {
                Ok(nv) => {
                    &&& nv.wf()
                    &&& !nv.ready_spec()
                    &&& !nv.got_normal
                    &&& !nv.has_normal_cont()
                    &&& nv.next_lineno() == 0
                    &&& nv.submitted_count() == 0
                    &&& nv.session_id() == 0
                    &&& nv.emitted_linenos() == Seq::<int>::empty()
                    &&& nv.attr_requests() == Seq::<usize>::empty()
                    &&& nv.output_bytes() == Seq::<u8>::empty()
                    &&& nv.is_numbered() == options.numbered
                    &&& nv.last_msg_id() == 103
                    &&& nv.outbox_bytes() == req_ui_attach(101, 100, 100) + req_vim_input(102)
                        + req_ui_detach(103)
                },
                Err(e) => e matches NvimError::EncodeError,
            },
            r.is_ok(),
    {
        let mut nv = Nvim {
            writer: Writer::new(),
            syn_attr_cache: HashMapWithView::new(),
            callbacks: HashMapWithView::new(),
            queue: Vec::new(),
            lineno: 0,
            submitted: 0,
            session: 0,
            default_attr: crate::synattr::default_attr(),
            normal_attr: crate::synattr::default_attr(),
            hi_linenr: None,
            termguicolors: false,
            numbered: options.numbered,
            got_option: false,
            got_normal: false,
            got_linenr: false,
            output: Vec::new(),
            emitted: Ghost(Seq::empty()),
            attr_requested: Ghost(Seq::empty()),
        };
        proof {
            assert(nv.emitted@ =~= Seq::new(nv.lineno as nat, |i: int| i));
            assert(!nv.has_normal_cont()) by {
                if has_normal_cont_map(nv.callbacks@) {
                    let x = choose|x: MsgId| #[trigger]
                        nv.callbacks@.dom().contains(x) && (nv.callbacks@[x] matches
                            Continuation::GetNormal);
                    assert(false);
                }
            }
            assert(nv.wf());
        }
        match nv.ui_attach(100, 100) {
            Ok(()) => (),
            Err(e) => {
                proof {
                    assert(false);
                }
                return Err(e);
            },
        };
        proof {
            assert(nv.outbox_bytes() =~= req_ui_attach(101, 100, 100));
        }
        match nv.press_enter() {
            Ok(()) => (),
            Err(e) => {
                proof {
                    assert(false);
                }
                return Err(e);
            },
        };
        proof {
            assert(nv.outbox_bytes() == req_ui_attach(101, 100, 100) + req_vim_input(102));
        }
        match nv.ui_detach() {
            Ok(()) => (),
            Err(e) => {
                proof {
                    assert(false);
                }
                return Err(e);
            },
        };
        Ok(nv)
    }

    /// Start a session: serialize the handshake requests (a transient
    /// UI attach around a key tap, the UI detach, the colour-depth
    /// query, and the baseline attribute query). Responses complete
    /// the handshake through [`Nvim::process_event`]; submit lines
    /// only once [`Nvim::ready`] reports true.
    #[verifier::rlimit(100)]
    pub fn new(options: NvimOptions) -> (r: NvimResult<Nvim>)
        ensures
            match r {
                Ok(nv) => {
                    &&& nv.wf()
                    &&& !nv.ready_spec()
                    &&& nv.next_lineno() == 0
                    &&& nv.submitted_count() == 0
                    &&& nv.session_id() == 0
                    &&& nv.emitted_linenos() == Seq::<int>::empty()
                    &&& nv.attr_requests() == Seq::<usize>::empty()
                    &&& nv.output_bytes() == Seq::<u8>::empty()
                    &&& nv.last_msg_id() == 105
                    &&& nv.outbox_bytes() == req_ui_attach(101, 100, 100) + req_vim_input(102)
                        + req_ui_detach(103) + req_get_option(104) + req_call_map(
                        105,
                        hl_expr_chars(("Normal")@),
                    )
                },
                Err(e) => e matches NvimError::EncodeError,
            },
            r.is_ok(),
    {
        let mut nv = match Self::start_session(options) {
            Ok(nv) => nv,
            Err(e) => {
                proof {
                    assert(false);
                }
                return Err(e);
            },
        };
        let ghost pre3 = nv;
        proof {
            reveal_strlit("nvim_get_option");
            reveal_strlit("termguicolors");
            assert(vstd::utf8::is_ascii_chars(("nvim_get_option")@));
            crate::rpc::lemma_ascii_bytes_len(("nvim_get_option")@);
            assert(vstd::utf8::is_ascii_chars(("termguicolors")@));
            crate::rpc::lemma_ascii_bytes_len(("termguicolors")@);
        }
        let id = match nv.writer.write("nvim_get_option", 1) {
            Ok(id) => id,
            Err(e) => {
                proof {
                    assert(false);
                }
                return Err(e);
            },
        };
        match nv.writer.arg_str("termguicolors") {
            Ok(()) => (),
            Err(e) => {
                proof {
                    assert(false);
                }
                return Err(e);
            },
        };
        nv.callbacks.insert(id, Continuation::GetOption);
        proof {
            assert(nv.callbacks@.dom() =~= pre3.callbacks@.dom().insert(id));
            lemma_normal_cont_preserved(
                pre3.callbacks@,
                nv.callbacks@,
                id,
                Continuation::GetOption,
            );
            assert(nv.outbox_bytes() =~= pre3.outbox_bytes() + req_get_option(id));
            assert(nv.outbox_bytes() == req_ui_attach(101, 100, 100) + req_vim_input(102)
                + req_ui_detach(103) + req_get_option(104));
            assert(nv.wf());
        }
        let mut func = String::from_str("synIDattr(synIDtrans(hlID('");
        func.append("Normal");
        func.append("')), v:val, &termguicolors ? 'gui' : 'cterm')");
        proof {
            assert(func@ =~= hl_expr_chars(("Normal")@));
            reveal_strlit("synIDattr(synIDtrans(hlID('");
            reveal_strlit("Normal");
            reveal_strlit("')), v:val, &termguicolors ? 'gui' : 'cterm')");
            assert(vstd::utf8::is_ascii_chars(("synIDattr(synIDtrans(hlID('")@));
            assert(vstd::utf8::is_ascii_chars(("Normal")@));
            assert(vstd::utf8::is_ascii_chars(("')), v:val, &termguicolors ? 'gui' : 'cterm')")@));
            lemma_ascii_concat(("synIDattr(synIDtrans(hlID('")@, ("Normal")@);
            lemma_ascii_concat(
                ("synIDattr(synIDtrans(hlID('")@ + ("Normal")@,
                ("')), v:val, &termguicolors ? 'gui' : 'cterm')")@,
            );
            crate::rpc::lemma_ascii_bytes_len(func@);
        }
        let ghost pre4 = nv;
        let nid = match nv.send_attr_query(&func) {
            Ok(nid) => nid,
            Err(e) => {
                proof {
                    assert(false);
                }
                return Err(e);
            },
        };
        nv.callbacks.insert(nid, Continuation::GetNormal);
        proof {
            assert(nv.callbacks@.dom() =~= pre4.callbacks@.dom().insert(nid));
            assert(!pre4.has_normal_cont());
            assert forall|x: MsgId| #[trigger]
                nv.callbacks@.dom().contains(x) && x != nid implies !(nv.callbacks@[x] matches
                Continuation::GetNormal) by {
                assert(pre4.callbacks@.dom().contains(x));
                assert(nv.callbacks@[x] == pre4.callbacks@[x]);
                match pre4.callbacks@[x] {
                    Continuation::GetNormal => {
                        assert(has_normal_cont_map(pre4.callbacks@));
                        assert(false);
                    },
                    _ => (),
                }
            }
            assert(nv.wf());
            assert(nv.outbox_bytes() == req_ui_attach(101, 100, 100) + req_vim_input(102)
                + req_ui_detach(103) + req_get_option(104) + req_call_map(
                105,
                hl_expr_chars(("Normal")@),
            ));
        }
        Ok(nv)
    }
}

impl Nvim {
    /// Submit one line for highlighting and eventual in-order
    /// emission. Lines are numbered consecutively from the session's
    /// start offset; `lineno` must be the next unsubmitted number.
    #[verifier::rlimit(100)]
    pub fn add_line(&mut self, line: Vec<u8>, lineno: usize) -> (r: NvimResult<()>)
        requires
            old(self).wf(),
            old(self).ready_spec(),
            lineno == old(self).submitted_count(),
            old(self).submitted_count() < usize::MAX,
        ensures
            final(self).wf(),
            final(self).cache_view() == old(self).cache_view(),
            final(self).queue_view() == old(self).queue_view(),
            final(self).next_lineno() == old(self).next_lineno(),
            final(self).session_id() == old(self).session_id(),
            final(self).output_bytes() == old(self).output_bytes(),
            final(self).emitted_linenos() == old(self).emitted_linenos(),
            final(self).attr_requests() == old(self).attr_requests(),
            final(self).ready_spec() == old(self).ready_spec(),
            final(self).linenr_view() == old(self).linenr_view(),
            final(self).normal_view() == old(self).normal_view(),
            final(self).flushed() == old(self).flushed(),
            r.is_ok() <==> old(self).last_msg_id() < MsgId::MAX && line@.len() < 0xFFFF_FFFF,
            match r {
                Ok(()) => {
                    &&& final(self).submitted_count() == old(self).submitted_count() + 1
                    &&& final(self).last_msg_id() == old(self).last_msg_id() + 1
                    &&& final(self).outbox_bytes() == old(self).outbox_bytes()
                        + req_buffer_insert(final(self).last_msg_id(), lineno as u64, line@)
                    &&& final(self).pending_ids() == old(self).pending_ids().insert(
                        final(self).last_msg_id(),
                    )
                    &&& final(self).pending_view() == old(self).pending_view().insert(
                        final(self).last_msg_id(),
                        ContView::AddLine(final(self).session_id(), lineno, line@),
                    )
                },
                Err(e) => {
                    &&& e matches NvimError::EncodeError
                    &&& final(self).outbox_bytes() == old(self).outbox_bytes()
                    &&& final(self).pending_ids() == old(self).pending_ids()
                    &&& final(self).pending_view() == old(self).pending_view()
                    &&& final(self).submitted_count() == old(self).submitted_count()
                },
            },
    {
        if line.len() >= 0xFFFF_FFFF {
            return Err(NvimError::EncodeError);
        }
        proof {
            reveal_strlit("buffer_insert");
            assert(vstd::utf8::is_ascii_chars(("buffer_insert")@));
            crate::rpc::lemma_ascii_bytes_len(("buffer_insert")@);
        }
        let id = match self.writer.write("buffer_insert", 3) {
            Ok(id) => id,
            Err(e) => {
                return Err(e);
            },
        };
        self.writer.arg_uint(0);
        self.writer.arg_uint(lineno as u64);
        self.writer.arg_array_hdr(1);
        match self.writer.arg_str_raw(&line) {
            Ok(()) => (),
            Err(e) => {
                proof {
                    assert(false);
                }
                return Err(e);
            },
        };
        let ghost line_v = line@;
        self.callbacks.insert(id, Continuation::Run(self.session, Callback::AddLine(lineno, line)));
        self.submitted = self.submitted + 1;
        proof {
            assert(self.callbacks@.dom() =~= old(self).callbacks@.dom().insert(id));
            assert(self.pending_view() =~= old(self).pending_view().insert(
                id,
                ContView::AddLine(self.session, lineno, line_v),
            ));
            assert(self.outbox_bytes() =~= old(self).outbox_bytes() + req_buffer_insert(
                id,
                lineno as u64,
                line@,
            ));
            assert forall|x: MsgId| #[trigger]
                self.callbacks@.dom().contains(x) implies x <= self.writer.last_id()
                && self.cont_wf(self.callbacks@[x]) by {
                if x != id {
                    assert(old(self).callbacks@.dom().contains(x));
                    assert(old(self).cont_wf(old(self).callbacks@[x]));
                    assert(self.callbacks@[x] == old(self).callbacks@[x]);
                } else {
                    assert(old(self).lineno + old(self).queue@.len() <= old(self).submitted);
                    assert(cont_line_no(self.callbacks@[x], self.session) == Some(lineno));
                    assert(self.lineno <= lineno < self.submitted);
                }
            }
            assert forall|x1: MsgId, x2: MsgId|
                self.callbacks@.dom().contains(x1) && self.callbacks@.dom().contains(x2) && x1
                    != x2 && cont_line_no(
                #[trigger] self.callbacks@[x1],
                self.session,
            ).is_some() implies cont_line_no(self.callbacks@[x1], self.session) != cont_line_no(
                #[trigger] self.callbacks@[x2],
                self.session,
            ) by {
                if x1 != id && x2 != id {
                    assert(old(self).callbacks@.dom().contains(x1));
                    assert(old(self).callbacks@.dom().contains(x2));
                    assert(old(self).cont_wf(old(self).callbacks@[x1]));
                    assert(old(self).cont_wf(old(self).callbacks@[x2]));
                } else if x1 == id {
                    assert(old(self).callbacks@.dom().contains(x2));
                    assert(old(self).cont_wf(old(self).callbacks@[x2]));
                } else {
                    assert(old(self).callbacks@.dom().contains(x1));
                    assert(old(self).cont_wf(old(self).callbacks@[x1]));
                }
            }
            assert(self.wf());
        }
        Ok(())
    }

    /// Start over for a new input: wipe the engine buffer, drop the
    /// reorder buffer, and restart the line numbering from the start
    /// offset. Pipeline steps still in flight belong to the old
    /// session and will be retired without effect. The attribute
    /// cache survives: entries resolved before the reset stay valid
    /// and are never requested again.
    pub fn reset(&mut self) -> (r: NvimResult<()>)
        requires
            old(self).wf(),
            old(self).session_id() < u32::MAX,
        ensures
            final(self).wf(),
            final(self).next_lineno() == 0,
            final(self).submitted_count() == 0,
            final(self).session_id() == old(self).session_id() + 1,
            final(self).queue_view() == Seq::<Option<Line>>::empty(),
            final(self).emitted_linenos() == Seq::<int>::empty(),
            final(self).cache_view() == old(self).cache_view(),
            final(self).attr_requests() == old(self).attr_requests(),
            final(self).output_bytes() == old(self).output_bytes(),
            final(self).ready_spec() == old(self).ready_spec(),
            final(self).linenr_view() == old(self).linenr_view(),
            final(self).normal_view() == old(self).normal_view(),
            r.is_ok() <==> old(self).last_msg_id() < MsgId::MAX,
            match r {
                Ok(()) => final(self).outbox_bytes() == old(self).outbox_bytes() + req_command(
                    final(self).last_msg_id(),
                    ("bwipe!").spec_bytes(),
                ),
                Err(e) => e matches NvimError::EncodeError && final(self).outbox_bytes() == old(self).outbox_bytes(),
            },
    {
        self.queue = Vec::new();
        self.lineno = 0;
        self.submitted = 0;
        self.session = self.session + 1;
        self.emitted = Ghost(Seq::empty());
        proof {
            assert(self.emitted@ =~= Seq::new(self.lineno as nat, |i: int| i));
            assert(self.wf());
            reveal_strlit("bwipe!");
            assert(vstd::utf8::is_ascii_chars(("bwipe!")@));
            crate::rpc::lemma_ascii_bytes_len(("bwipe!")@);
        }
        self.nvim_command("bwipe!")
    }
}

/// Output lines appear in strictly increasing line-number order with
/// no gaps and no duplicates: in every reachable state, the numbers
/// emitted so far are exactly `0, 1, …, lineno - 1`, in that order —
/// independent of the order in which the underlying resolutions
/// completed.
pub proof fn lemma_emitted_in_order(nv: &Nvim)
    requires
        nv.wf(),
    ensures
        nv.emitted_linenos().len() == nv.next_lineno(),
        forall|i: int|
            0 <= i < nv.emitted_linenos().len() ==> #[trigger] nv.emitted_linenos()[i] == i,
        forall|i: int, j: int|
            0 <= i < j < nv.emitted_linenos().len() ==> nv.emitted_linenos()[i]
                < nv.emitted_linenos()[j],
        nv.emitted_linenos().no_duplicates(),
{
}

/// At most one attribute-resolution request is ever issued per
/// distinct syntax id — across the whole lifetime of the client,
/// session resets included — even when several lines reference the
/// same unresolved id concurrently.
pub proof fn lemma_attr_requests_unique(nv: &Nvim)
    requires
        nv.wf(),
    ensures
        nv.attr_requests().no_duplicates(),
{
}

proof fn lemma_spaces_snoc(k: nat)
    ensures
        spaces(k + 1) == spaces(k) + seq![' '],
    decreases k,
{
    if k == 0 {
        assert(spaces(1) =~= spaces(0) + seq![' ']);
    } else {
        lemma_spaces_snoc((k - 1) as nat);
        assert(spaces(k + 1) =~= spaces(k) + seq![' ']);
    }
}

proof fn lemma_flush_len_bounds(q: Seq<Option<Line>>)
    ensures
        0 <= flush_len(q) <= q.len(),
    decreases q.len(),
{
    if q.len() == 0 || !line_ready(q[0]) {
    } else {
        lemma_flush_len_bounds(q.drop_first());
    }
}

proof fn lemma_flush_bytes_step(
    q: Seq<Option<Line>>,
    k: int,
    m: Map<usize, FutureSynAttr>,
    linenr: Option<AttrChars>,
    dflt: AttrChars,
)
    requires
        0 <= k < q.len(),
    ensures
        flush_bytes(q, k + 1, m, linenr, dflt) == flush_bytes(q, k, m, linenr, dflt) + (match q[k] {
            Some(l) => rendered_line(l, m, linenr, dflt),
            None => Seq::<u8>::empty(),
        }),
    decreases k,
{
    if k == 0 {
        assert(flush_bytes(q, 0, m, linenr, dflt) == Seq::<u8>::empty());
        assert(flush_bytes(q.drop_first(), 0, m, linenr, dflt) == Seq::<u8>::empty());
        assert(flush_bytes(q, 1, m, linenr, dflt) == (match q[0] {
            Some(l) => rendered_line(l, m, linenr, dflt),
            None => Seq::<u8>::empty(),
        }) + flush_bytes(q.drop_first(), 0, m, linenr, dflt));
        assert(flush_bytes(q, 1, m, linenr, dflt) =~= flush_bytes(q, 0, m, linenr, dflt) + (
        match q[0] {
            Some(l) => rendered_line(l, m, linenr, dflt),
            None => Seq::<u8>::empty(),
        }));
    } else {
        lemma_flush_bytes_step(q.drop_first(), k - 1, m, linenr, dflt);
        assert(q.drop_first()[k - 1] == q[k]);
        assert(flush_bytes(q, k + 1, m, linenr, dflt) =~= flush_bytes(q, k, m, linenr, dflt) + (
        match q[k] {
            Some(l) => rendered_line(l, m, linenr, dflt),
            None => Seq::<u8>::empty(),
        }));
    }
}

/// Append the line-number gutter for the one-based number of
/// `lineno` to `out`, styled with `attr`.
fn push_gutter(out: &mut Vec<u8>, attr: &SynAttr, lineno: usize)
    requires
        lineno < usize::MAX,
    ensures
        final(out)@ == old(out)@ + encode_utf8(gutter_chars(attr@, lineno as nat)),
{
    let mut g = String::from_str("\u{1b}[");
    g.append(attr.fg.as_str());
    g.append(";");
    g.append(attr.bg.as_str());
    g.append(";");
    g.append(attr.bold.as_str());
    g.append(";");
    g.append(attr.reverse.as_str());
    g.append(";");
    g.append(attr.italic.as_str());
    g.append(";");
    g.append(attr.underline.as_str());
    g.append("m");
    let ghost base = g@;
    let d = dec_string((lineno as u64) + 1);
    let dl = d.unicode_len();
    let mut pad: usize = 0;
    proof {
        reveal_strlit(" ");
        assert((" ")@ =~= seq![' ']);
        assert(g@ =~= base + spaces(0));
    }
    while dl + pad < 6
        invariant
            dl + pad <= 6 || pad == 0,
            g@ == base + spaces(pad as nat),
        decreases 6 - dl - pad,
    {
        proof {
            reveal_strlit(" ");
            assert((" ")@ =~= seq![' ']);
            lemma_spaces_snoc(pad as nat);
        }
        g.append(" ");
        pad += 1;
        proof {
            assert(g@ =~= base + spaces(pad as nat));
        }
    }
    g.append(d.as_str());
    g.append("  ");
    g.append("\u{1b}[0m");
    proof {
        assert(dec_chars((lineno + 1) as nat).len() == dl);
        if dl >= 6 {
            assert(spaces(0) =~= Seq::<char>::empty());
            assert(g@ =~= gutter_chars(attr@, lineno as nat));
        } else {
            assert(pad == 6 - dl);
            assert(g@ =~= gutter_chars(attr@, lineno as nat));
        }
    }
    out.extend_from_slice(g.as_str().as_bytes());
}

/// Append the per-line trailer to `out`.
fn push_trailer(out: &mut Vec<u8>)
    ensures
        final(out)@ == old(out)@ + trailer_bytes(),
{
    out.push(27);
    out.push(91);
    out.push(75);
    out.push(27);
    out.push(91);
    out.push(48);
    out.push(109);
    out.push(10);
    proof {
        assert(out@ =~= old(out)@ + trailer_bytes());
    }
}

impl Nvim {
    /// Flush the head of the reorder buffer: emit lines while the
    /// next-expected line is present with every attribute resolved,
    /// one line at a time, in strictly increasing order.
    #[verifier::rlimit(100)]
    fn print_lines(&mut self)
        requires
            old(self).wf(),
        ensures
            final(self).wf(),
            final(self).session_id() == old(self).session_id(),
            final(self).submitted_count() == old(self).submitted_count(),
            final(self).cache_view() == old(self).cache_view(),
            final(self).outbox_bytes() == old(self).outbox_bytes(),
            final(self).pending_ids() == old(self).pending_ids(),
            final(self).callbacks@ == old(self).callbacks@,
            final(self).last_msg_id() == old(self).last_msg_id(),
            final(self).ready_spec() == old(self).ready_spec(),
            final(self).is_numbered() == old(self).is_numbered(),
            final(self).linenr_view() == old(self).linenr_view(),
            final(self).normal_view() == old(self).normal_view(),
            final(self).attr_requests() == old(self).attr_requests(),
            final(self).next_lineno() == old(self).next_lineno() + flush_len(
                old(self).queue_view(),
            ),
            final(self).queue_view() == old(self).queue_view().subrange(
                flush_len(old(self).queue_view()),
                old(self).queue_view().len() as int,
            ),
            final(self).output_bytes() == old(self).output_bytes() + flush_bytes(
                old(self).queue_view(),
                flush_len(old(self).queue_view()),
                old(self).cache_view(),
                old(self).linenr_view(),
                crate::synattr::spec_default_attr(),
            ),
            old(self).emitted_linenos().is_prefix_of(final(self).emitted_linenos()),
            final(self).flushed(),
    {
        let ghost q0 = old(self).queue_view();
        let ghost mut k: int = 0;
        proof {
            lemma_flush_len_bounds(q0);
            assert(self.queue@ =~= q0.subrange(0, q0.len() as int));
            assert(old(self).emitted@.is_prefix_of(self.emitted@)) by {
                assert(self.emitted@.subrange(0, old(self).emitted@.len() as int)
                    =~= old(self).emitted@);
            }
            assert(self.output@ =~= old(self).output@ + flush_bytes(
                q0,
                0,
                old(self).cache_view(),
                old(self).linenr_view(),
                crate::synattr::spec_default_attr(),
            ));
        }
        loop
            invariant
                self.wf(),
                0 <= k <= q0.len(),
                self.lineno == old(self).lineno + k,
                self.queue@ == q0.subrange(k, q0.len() as int),
                self.output@ == old(self).output@ + flush_bytes(
                    q0,
                    k,
                    old(self).cache_view(),
                    old(self).linenr_view(),
                    crate::synattr::spec_default_attr(),
                ),
                self.syn_attr_cache@ == old(self).syn_attr_cache@,
                self.callbacks@ == old(self).callbacks@,
                self.writer == old(self).writer,
                self.submitted == old(self).submitted,
                self.session == old(self).session,
                self.got_option == old(self).got_option,
                self.got_normal == old(self).got_normal,
                self.got_linenr == old(self).got_linenr,
                self.numbered == old(self).numbered,
                self.termguicolors == old(self).termguicolors,
                self.hi_linenr == old(self).hi_linenr,
                self.normal_attr == old(self).normal_attr,
                self.default_attr == old(self).default_attr,
                self.attr_requested == old(self).attr_requested,
                old(self).emitted@.is_prefix_of(self.emitted@),
                flush_len(q0) == k + flush_len(self.queue@),
            ensures
                self.wf(),
                0 <= k <= q0.len(),
                flush_len(self.queue@) == 0,
                self.lineno == old(self).lineno + k,
                self.queue@ == q0.subrange(k, q0.len() as int),
                flush_len(q0) == k + flush_len(self.queue@),
                self.output@ == old(self).output@ + flush_bytes(
                    q0,
                    k,
                    old(self).cache_view(),
                    old(self).linenr_view(),
                    crate::synattr::spec_default_attr(),
                ),
                self.syn_attr_cache@ == old(self).syn_attr_cache@,
                self.callbacks@ == old(self).callbacks@,
                self.writer == old(self).writer,
                self.submitted == old(self).submitted,
                self.session == old(self).session,
                self.got_option == old(self).got_option,
                self.got_normal == old(self).got_normal,
                self.got_linenr == old(self).got_linenr,
                self.numbered == old(self).numbered,
                self.termguicolors == old(self).termguicolors,
                self.hi_linenr == old(self).hi_linenr,
                self.normal_attr == old(self).normal_attr,
                self.default_attr == old(self).default_attr,
                self.attr_requested == old(self).attr_requested,
                old(self).emitted@.is_prefix_of(self.emitted@),
            decreases q0.len() - k,
        {
            let ghost pre = *self;
            if self.queue.len() == 0 {
                proof {
                    assert(flush_len(self.queue@) == 0);
                }
                break;
            }
            let head_ready: bool = match &self.queue[0] {
                Some(l) => l.pending.is_empty() && l.lineno == self.lineno,
                None => false,
            };
            if !head_ready {
                proof {
                    assert(match self.queue@[0] {
                        Some(l) => l.lineno == self.lineno + 0 && Self::line_wf(
                            l,
                            self.syn_attr_cache@,
                        ),
                        None => true,
                    });
                    assert(flush_len(self.queue@) == 0);
                }
                break;
            }
            let ghost qcur = self.queue@;
            let slot = self.queue.remove(0);
            match slot {
                Some(l) => {
                    proof {
                        assert(line_ready(qcur[0]));
                        assert(flush_len(qcur) == 1 + flush_len(qcur.drop_first()));
                        assert(self.queue@ =~= qcur.drop_first());
                        assert(Self::line_wf(l, self.syn_attr_cache@));
                        assert forall|j: int|
                            0 <= j < l.synids@.len() implies is_resolved(
                            self.syn_attr_cache@,
                            l.synids@[j],
                        ) by {
                            assert(self.syn_attr_cache@.contains_key(l.synids@[j]));
                            assert(!l.pending@.contains(l.synids@[j]));
                            assert(!entry_pending(self.syn_attr_cache@[l.synids@[j]]));
                        }
                        assert(is_resolved(self.syn_attr_cache@, 0)) by {
                            assert(self.submitted > 0);
                        }
                    }
                    let ghost out_pre = self.output@;
                    match &self.hi_linenr {
                        Some(attr) => {
                            push_gutter(&mut self.output, attr, l.lineno);
                        },
                        None => (),
                    };
                    render_line(
                        &mut self.output,
                        &l.line,
                        &l.synids,
                        &self.syn_attr_cache,
                        &self.default_attr,
                    );
                    push_trailer(&mut self.output);
                    proof {
                        assert(self.output@ =~= out_pre + rendered_line(
                            l,
                            self.syn_attr_cache@,
                            self.linenr_view(),
                            crate::synattr::spec_default_attr(),
                        ));
                        lemma_flush_bytes_step(
                            q0,
                            k,
                            old(self).cache_view(),
                            old(self).linenr_view(),
                            crate::synattr::spec_default_attr(),
                        );
                        assert(q0[k] == qcur[0]);
                    }
                    let ghost emitted_pre = self.emitted@;
                    self.lineno = self.lineno + 1;
                    self.emitted = Ghost(self.emitted@.push(l.lineno as int));
                    proof {
                        k = k + 1;
                        assert(self.emitted@ =~= Seq::new(self.lineno as nat, |i: int| i));
                        assert(self.queue@ =~= q0.subrange(k, q0.len() as int));
                        assert forall|i: int|
                            0 <= i < self.queue@.len() implies (match #[trigger] self.queue@[i] {
                            Some(l2) => l2.lineno == self.lineno + i && Self::line_wf(
                                l2,
                                self.syn_attr_cache@,
                            ),
                            None => true,
                        }) by {
                            assert(self.queue@[i] == qcur[i + 1]);
                        }
                        assert forall|x: MsgId| #[trigger]
                            self.callbacks@.dom().contains(x) implies x <= self.writer.last_id()
                            && self.cont_wf(self.callbacks@[x]) by {
                            assert(pre.callbacks@.dom().contains(x));
                            assert(pre.cont_wf(pre.callbacks@[x]));
                            assert(self.callbacks@[x] == pre.callbacks@[x]);
                            match cont_line_no(self.callbacks@[x], self.session) {
                                Some(ln) => {
                                    assert(pre.lineno <= ln);
                                    if ln == self.lineno - 1 {
                                        assert(ln - pre.lineno < qcur.len() ==> qcur[ln
                                            - pre.lineno] matches Option::<Line>::None);
                                        assert(qcur[0] matches Option::<Line>::Some(_));
                                        assert(false);
                                    }
                                },
                                None => (),
                            }
                        }
                        assert(self.wf());
                    }
                },
                None => {
                    proof {
                        assert(false);
                    }
                    break;
                },
            }
        }
        proof {
            lemma_flush_len_bounds(q0);
            assert(flush_len(self.queue@) == 0);
            assert(flush_len(q0) == k);
            assert(self.queue@ =~= q0.subrange(flush_len(q0), q0.len() as int));
        }
    }
}

/// Whether an attribute response payload has the expected shape: an
/// array whose first six elements are strings.
pub open spec fn attr_payload_ok(v: RpcValue) -> bool {
    is_arr(v) && arr_of(v).len() >= 6 && is_str(arr_of(v)[0]) && is_str(arr_of(v)[1]) && is_str(
        arr_of(v)[2],
    ) && is_str(arr_of(v)[3]) && is_str(arr_of(v)[4]) && is_str(arr_of(v)[5])
}

/// The attribute that an attribute response payload resolves to,
/// against the baseline `base`.
pub open spec fn attr_of_payload(v: RpcValue, base: Option<AttrChars>) -> Result<AttrChars, ()> {
    crate::synattr::spec_new_attr(
        str_of(arr_of(v)[0]),
        str_of(arr_of(v)[1]),
        str_of(arr_of(v)[2]),
        str_of(arr_of(v)[3]),
        str_of(arr_of(v)[4]),
        str_of(arr_of(v)[5]),
        base,
    )
}

/// Borrow the six attribute strings out of one response payload.
fn attr_strs(payload: &RpcValue) -> (r: Option<
    (&String, &String, &String, &String, &String, &String),
>)
    ensures
        match r {
            Some(t) => attr_payload_ok(*payload) && t.0@ == str_of(arr_of(*payload)[0]) && t.1@
                == str_of(arr_of(*payload)[1]) && t.2@ == str_of(arr_of(*payload)[2]) && t.3@
                == str_of(arr_of(*payload)[3]) && t.4@ == str_of(arr_of(*payload)[4]) && t.5@
                == str_of(arr_of(*payload)[5]),
            None => !attr_payload_ok(*payload),
        },
{
    let items = match payload {
        RpcValue::Arr(items) => items,
        _ => {
            return None;
        },
    };
    if items.len() < 6 {
        return None;
    }
    let a0 = match &items[0] {
        RpcValue::Str(x) => x,
        _ => {
            return None;
        },
    };
    let a1 = match &items[1] {
        RpcValue::Str(x) => x,
        _ => {
            return None;
        },
    };
    let a2 = match &items[2] {
        RpcValue::Str(x) => x,
        _ => {
            return None;
        },
    };
    let a3 = match &items[3] {
        RpcValue::Str(x) => x,
        _ => {
            return None;
        },
    };
    let a4 = match &items[4] {
        RpcValue::Str(x) => x,
        _ => {
            return None;
        },
    };
    let a5 = match &items[5] {
        RpcValue::Str(x) => x,
        _ => {
            return None;
        },
    };
    Some((a0, a1, a2, a3, a4, a5))
}

impl Nvim {
    /// Take the colour-depth option's value from its response.
    fn handle_option(&mut self, payload: RpcValue) -> (r: NvimResult<()>)
        requires
            old(self).wf(),
        ensures
            final(self).wf(),
            final(self).pending_ids() == old(self).pending_ids(),
            final(self).callbacks@ == old(self).callbacks@,
            final(self).outbox_bytes() == old(self).outbox_bytes(),
            final(self).cache_view() == old(self).cache_view(),
            final(self).queue_view() == old(self).queue_view(),
            final(self).next_lineno() == old(self).next_lineno(),
            final(self).submitted_count() == old(self).submitted_count(),
            final(self).session_id() == old(self).session_id(),
            final(self).output_bytes() == old(self).output_bytes(),
            final(self).emitted_linenos() == old(self).emitted_linenos(),
            final(self).attr_requests() == old(self).attr_requests(),
            final(self).normal_view() == old(self).normal_view(),
            evolves(old(self), final(self)),
            final(self).flushed() == old(self).flushed(),
            match r {
                Ok(()) => payload matches RpcValue::Bool(_),
                Err(e) => e matches NvimError::DecodeError && !(payload matches RpcValue::Bool(_)),
            },
    {
        let rr = match payload {
            RpcValue::Bool(b) => {
                self.termguicolors = b;
                self.got_option = true;
                Ok(())
            },
            _ => Err(NvimError::DecodeError),
        };
        proof {
            lemma_evolves_refl(self);
        }
        rr
    }

    /// Resolve the baseline group's attributes from its response,
    /// seed the cache's reserved entry with them, and (for numbered
    /// output) ask for the gutter group's attributes next.
    fn handle_normal(&mut self, payload: RpcValue) -> (r: NvimResult<()>)
        requires
            old(self).wf(),
            !old(self).got_normal,
            forall|x: MsgId| #[trigger]
                old(self).callbacks@.dom().contains(x) ==> !(old(self).callbacks@[x] matches
                    Continuation::GetNormal),
        ensures
            final(self).wf(),
            final(self).next_lineno() == old(self).next_lineno(),
            final(self).submitted_count() == old(self).submitted_count(),
            final(self).session_id() == old(self).session_id(),
            final(self).output_bytes() == old(self).output_bytes(),
            final(self).emitted_linenos() == old(self).emitted_linenos(),
            final(self).attr_requests() == old(self).attr_requests(),
            final(self).queue_view() == old(self).queue_view(),
            final(self).flushed() == old(self).flushed(),
            evolves(old(self), final(self)),
            forall|x: MsgId| #[trigger]
                final(self).callbacks@.dom().contains(x) ==> old(self).callbacks@.dom().contains(x)
                    || x > old(self).last_msg_id(),
            forall|x: MsgId| #[trigger]
                old(self).callbacks@.dom().contains(x) ==> final(self).callbacks@.dom().contains(x)
                    && final(self).callbacks@[x] == old(self).callbacks@[x],
            match r {
                Ok(()) => {
                    &&& attr_of_payload(payload, None) matches Ok(a) && final(self).normal_view()
                        == a && is_resolved(final(self).cache_view(), 0) && resolved_attr(
                        final(self).cache_view(),
                        0,
                    ) == a
                    &&& final(self).cache_view().dom() == old(self).cache_view().dom().insert(0)
                    &&& final(self).got_normal
                },
                Err(e) => !(e matches NvimError::RpcError(_)),
            },
    {
        let strs = match attr_strs(&payload) {
            Some(t) => t,
            None => {
                proof {
                    lemma_evolves_refl(self);
                }
                return Err(NvimError::DecodeError);
            },
        };
        let attr = match SynAttr::new(
            strs.0.as_str(),
            strs.1.as_str(),
            strs.2.as_str(),
            strs.3.as_str(),
            strs.4.as_str(),
            strs.5.as_str(),
            None,
        ) {
            Ok(a) => a,
            Err(e) => {
                proof {
                    lemma_evolves_refl(self);
                }
                return Err(e);
            },
        };
        self.syn_attr_cache.insert(0, FutureSynAttr::Resolved(attr.duplicate()));
        self.normal_attr = attr;
        self.got_normal = true;
        proof {
            assert(old(self).submitted == 0);
            assert(self.queue@.len() == 0);
            assert(self.syn_attr_cache@.dom() =~= old(self).syn_attr_cache@.dom().insert(0));
            assert(self.wf());
        }
        if self.numbered {
            let mut func = String::from_str("synIDattr(synIDtrans(hlID('");
            func.append("LineNR");
            func.append("')), v:val, &termguicolors ? 'gui' : 'cterm')");
            let ghost pre = *self;
            let id = match self.send_attr_query(&func) {
                Ok(id) => id,
                Err(e) => {
                    return Err(e);
                },
            };
            self.callbacks.insert(id, Continuation::GetLineNr);
            proof {
                assert(self.callbacks@.dom() =~= pre.callbacks@.dom().insert(id));
                assert(self.wf());
            }
        }
        proof {
            assert(old(self).emitted@.is_prefix_of(self.emitted@)) by {
                assert(self.emitted@.subrange(0, old(self).emitted@.len() as int) =~= old(self).emitted@);
            }
            assert(old(self).attr_requested@.is_prefix_of(self.attr_requested@)) by {
                assert(self.attr_requested@.subrange(0, old(self).attr_requested@.len() as int)
                    =~= old(self).attr_requested@);
            }
            assert(old(self).output@.is_prefix_of(self.output@)) by {
                assert(self.output@.subrange(0, old(self).output@.len() as int) =~= old(self).output@);
            }
            assert(old(self).outbox_bytes().is_prefix_of(self.outbox_bytes())) by {
                assert(self.outbox_bytes().subrange(0, old(self).outbox_bytes().len() as int)
                    =~= old(self).outbox_bytes());
            }
        }
        Ok(())
    }

    /// Resolve the gutter group's attributes from its response.
    fn handle_linenr(&mut self, payload: RpcValue) -> (r: NvimResult<()>)
        requires
            old(self).wf(),
            old(self).got_normal,
        ensures
            final(self).wf(),
            final(self).pending_ids() == old(self).pending_ids(),
            final(self).callbacks@ == old(self).callbacks@,
            final(self).outbox_bytes() == old(self).outbox_bytes(),
            final(self).cache_view() == old(self).cache_view(),
            final(self).queue_view() == old(self).queue_view(),
            final(self).next_lineno() == old(self).next_lineno(),
            final(self).submitted_count() == old(self).submitted_count(),
            final(self).session_id() == old(self).session_id(),
            final(self).output_bytes() == old(self).output_bytes(),
            final(self).emitted_linenos() == old(self).emitted_linenos(),
            final(self).attr_requests() == old(self).attr_requests(),
            final(self).normal_view() == old(self).normal_view(),
            evolves(old(self), final(self)),
            final(self).flushed() == old(self).flushed(),
            match r {
                Ok(()) => {
                    &&& attr_of_payload(payload, Some(old(self).normal_view())) matches Ok(a)
                        && final(self).linenr_view() == Some(a)
                    &&& final(self).got_linenr
                },
                Err(e) => e matches NvimError::DecodeError,
            },
    {
        let strs = match attr_strs(&payload) {
            Some(t) => t,
            None => {
                proof {
                    lemma_evolves_refl(self);
                }
                return Err(NvimError::DecodeError);
            },
        };
        let attr = match SynAttr::new(
            strs.0.as_str(),
            strs.1.as_str(),
            strs.2.as_str(),
            strs.3.as_str(),
            strs.4.as_str(),
            strs.5.as_str(),
            Some(&self.normal_attr),
        ) {
            Ok(a) => a,
            Err(e) => {
                proof {
                    lemma_evolves_refl(self);
                }
                return Err(e);
            },
        };
        self.hi_linenr = Some(attr);
        self.got_linenr = true;
        proof {
            lemma_evolves_refl(self);
        }
        Ok(())
    }
}

/// How the client's state may move across one processed event:
/// sessions and submissions stay, the cache only grows and resolved
/// entries never change, the emitted lines and issued attribute
/// requests only extend (the latter only with previously unknown
/// ids), and the byte streams only grow.
pub open spec fn evolves(a: &Nvim, b: &Nvim) -> bool {
    &&& b.session_id() == a.session_id()
    &&& b.submitted_count() == a.submitted_count()
    &&& (forall|k: usize| #[trigger]
        a.cache_view().contains_key(k) ==> b.cache_view().contains_key(k))
    &&& (forall|k: usize| #[trigger]
        is_resolved(a.cache_view(), k) ==> b.cache_view()[k] == a.cache_view()[k])
    &&& a.emitted_linenos().is_prefix_of(b.emitted_linenos())
    &&& a.attr_requests().is_prefix_of(b.attr_requests())
    &&& (forall|i: int|
        a.attr_requests().len() <= i < b.attr_requests().len() ==> !a.cache_view().contains_key(
            #[trigger] b.attr_requests()[i],
        ))
    &&& a.output_bytes().is_prefix_of(b.output_bytes())
    &&& a.outbox_bytes().is_prefix_of(b.outbox_bytes())
    &&& a.next_lineno() <= b.next_lineno()
    &&& (a.ready_spec() ==> b.ready_spec())
    &&& a.is_numbered() == b.is_numbered()
}

/// The syntax id of one column: the reserved special id for control
/// bytes, else the engine's answer.
pub open spec fn spec_synid_at(line: Seq<u8>, ids: Seq<RpcValue>, j: int) -> usize {
    if is_control_byte(line[j]) {
        1
    } else {
        uint_of(ids[j]) as usize
    }
}

/// Whether the engine's syntax-id answers are usable: for every
/// non-control column, an unsigned integer that fits the id type.
pub open spec fn synids_ok(line: Seq<u8>, ids: Seq<RpcValue>) -> bool {
    forall|j: int|
        0 <= j < vstd::math::min(line.len() as int, ids.len() as int) && !is_control_byte(
            line[j],
        ) ==> is_uint(#[trigger] ids[j]) && uint_of(ids[j]) <= usize::MAX
}

/// The per-column syntax ids of one line, control bytes forced to the
/// reserved special id.
pub open spec fn spec_synids(line: Seq<u8>, ids: Seq<RpcValue>) -> Seq<usize> {
    Seq::new(
        vstd::math::min(line.len() as int, ids.len() as int) as nat,
        |j: int| spec_synid_at(line, ids, j),
    )
}

impl Nvim {
    /// A line made it into the engine buffer: ask for its per-column
    /// syntax ids in one batched evaluation.
    fn handle_add_line(&mut self, ln: usize, line: Vec<u8>) -> (r: NvimResult<()>)
        requires
            old(self).wf(),
            old(self).next_lineno() <= ln < old(self).submitted_count(),
            line@.len() < 0xFFFF_FFFF,
            forall|x: MsgId| #[trigger]
                old(self).callbacks@.dom().contains(x) ==> cont_line_no(
                    old(self).callbacks@[x],
                    old(self).session,
                ) != Some(ln),
            ln - old(self).next_lineno() < old(self).queue_view().len()
                ==> old(self).queue_view()[ln - old(self).next_lineno()] matches Option::<
                Line,
            >::None,
        ensures
            final(self).wf(),
            evolves(old(self), final(self)),
            final(self).cache_view() == old(self).cache_view(),
            final(self).queue_view() == old(self).queue_view(),
            final(self).next_lineno() == old(self).next_lineno(),
            final(self).submitted_count() == old(self).submitted_count(),
            final(self).session_id() == old(self).session_id(),
            final(self).output_bytes() == old(self).output_bytes(),
            final(self).emitted_linenos() == old(self).emitted_linenos(),
            final(self).attr_requests() == old(self).attr_requests(),
            final(self).ready_spec() == old(self).ready_spec(),
            final(self).is_numbered() == old(self).is_numbered(),
            final(self).linenr_view() == old(self).linenr_view(),
            final(self).normal_view() == old(self).normal_view(),
            final(self).flushed() == old(self).flushed(),
            forall|x: MsgId| #[trigger]
                final(self).callbacks@.dom().contains(x) ==> old(self).callbacks@.dom().contains(x)
                    || x > old(self).last_msg_id(),
            r.is_ok() <==> old(self).last_msg_id() < MsgId::MAX,
            match r {
                Ok(()) => {
                    &&& final(self).last_msg_id() == old(self).last_msg_id() + 1
                    &&& final(self).outbox_bytes() == old(self).outbox_bytes() + req_get_synid(
                        final(self).last_msg_id(),
                        ln as nat,
                        line@.len() as nat,
                    )
                    &&& final(self).pending_view() == old(self).pending_view().insert(
                        final(self).last_msg_id(),
                        ContView::GetSynId(final(self).session_id(), ln, line@),
                    )
                },
                Err(e) => {
                    &&& e matches NvimError::EncodeError
                    &&& final(self).outbox_bytes() == old(self).outbox_bytes()
                    &&& final(self).pending_ids() == old(self).pending_ids()
                    &&& final(self).pending_view() == old(self).pending_view()
                },
            },
    {
        let mut e = String::from_str("map(range(1, ");
        push_dec(&mut e, (line.len() as u64) + 1);
        e.append("), \"synID(");
        push_dec(&mut e, (ln as u64) + 1);
        e.append(", v:val, 0)\")");
        proof {
            assert(e@ =~= synid_expr_chars(ln as nat, line@.len() as nat));
            reveal_strlit("map(range(1, ");
            reveal_strlit("), \"synID(");
            reveal_strlit(", v:val, 0)\")");
            reveal_strlit("nvim_eval");
            assert(vstd::utf8::is_ascii_chars(("map(range(1, ")@));
            assert(vstd::utf8::is_ascii_chars(("), \"synID(")@));
            assert(vstd::utf8::is_ascii_chars((", v:val, 0)\")")@));
            assert(vstd::utf8::is_ascii_chars(("nvim_eval")@));
            crate::rpc::lemma_ascii_bytes_len(("nvim_eval")@);
            crate::decimal::lemma_dec_chars_ascii((line@.len() + 1) as nat);
            crate::decimal::lemma_dec_chars_len_u64(((line@.len() + 1) as u64));
            crate::decimal::lemma_dec_chars_ascii((ln + 1) as nat);
            crate::decimal::lemma_dec_chars_len_u64(((ln + 1) as u64));
            lemma_ascii_concat(("map(range(1, ")@, dec_chars((line@.len() + 1) as nat));
            lemma_ascii_concat(
                ("map(range(1, ")@ + dec_chars((line@.len() + 1) as nat),
                ("), \"synID(")@,
            );
            lemma_ascii_concat(
                ("map(range(1, ")@ + dec_chars((line@.len() + 1) as nat) + ("), \"synID(")@,
                dec_chars((ln + 1) as nat),
            );
            lemma_ascii_concat(
                ("map(range(1, ")@ + dec_chars((line@.len() + 1) as nat) + ("), \"synID(")@
                    + dec_chars((ln + 1) as nat),
                (", v:val, 0)\")")@,
            );
            crate::rpc::lemma_ascii_bytes_len(e@);
        }
        let id = match self.writer.write("nvim_eval", 1) {
            Ok(id) => id,
            Err(er) => {
                return Err(er);
            },
        };
        match self.writer.arg_str(e.as_str()) {
            Ok(()) => (),
            Err(er) => {
                proof {
                    assert(false);
                }
                return Err(er);
            },
        };
        let ghost line_v = line@;
        self.callbacks.insert(id, Continuation::Run(self.session, Callback::GetSynId(ln, line)));
        proof {
            assert(self.callbacks@.dom() =~= old(self).callbacks@.dom().insert(id));
            assert(self.pending_view() =~= old(self).pending_view().insert(
                id,
                ContView::GetSynId(self.session, ln, line_v),
            ));
            lemma_normal_cont_preserved(
                old(self).callbacks@,
                self.callbacks@,
                id,
                self.callbacks@[id],
            );
            assert(self.outbox_bytes() =~= old(self).outbox_bytes() + req_get_synid(
                id,
                ln as nat,
                line@.len() as nat,
            ));
            assert forall|x: MsgId| #[trigger]
                self.callbacks@.dom().contains(x) implies x <= self.writer.last_id()
                && self.cont_wf(self.callbacks@[x]) by {
                if x != id {
                    assert(old(self).callbacks@.dom().contains(x));
                    assert(old(self).cont_wf(old(self).callbacks@[x]));
                    assert(self.callbacks@[x] == old(self).callbacks@[x]);
                }
            }
            assert forall|x1: MsgId, x2: MsgId|
                self.callbacks@.dom().contains(x1) && self.callbacks@.dom().contains(x2) && x1
                    != x2 && cont_line_no(
                #[trigger] self.callbacks@[x1],
                self.session,
            ).is_some() implies cont_line_no(self.callbacks@[x1], self.session) != cont_line_no(
                #[trigger] self.callbacks@[x2],
                self.session,
            ) by {
                if x1 != id {
                    assert(old(self).callbacks@.dom().contains(x1));
                    assert(old(self).cont_wf(old(self).callbacks@[x1]));
                    assert(self.callbacks@[x1] == old(self).callbacks@[x1]);
                }
                if x2 != id {
                    assert(old(self).callbacks@.dom().contains(x2));
                    assert(old(self).cont_wf(old(self).callbacks@[x2]));
                    assert(self.callbacks@[x2] == old(self).callbacks@[x2]);
                }
            }
            assert(self.wf());
            assert(old(self).emitted@.is_prefix_of(self.emitted@)) by {
                assert(self.emitted@.subrange(0, old(self).emitted@.len() as int)
                    =~= old(self).emitted@);
            }
            assert(old(self).attr_requested@.is_prefix_of(self.attr_requested@)) by {
                assert(self.attr_requested@.subrange(0, old(self).attr_requested@.len() as int)
                    =~= old(self).attr_requested@);
            }
            assert(old(self).output@.is_prefix_of(self.output@)) by {
                assert(self.output@.subrange(0, old(self).output@.len() as int)
                    =~= old(self).output@);
            }
            assert(old(self).outbox_bytes().is_prefix_of(self.outbox_bytes())) by {
                assert(self.outbox_bytes().subrange(0, old(self).outbox_bytes().len() as int)
                    =~= old(self).outbox_bytes());
            }
        }
        Ok(())
    }
}

impl Nvim {
    /// Ensure the cache has an entry for `synid`, issuing the one and
    /// only attribute-resolution request for it if it has none yet.
    /// Returns whether the entry is still unresolved.
    fn get_synattr(&mut self, synid: usize) -> (r: NvimResult<bool>)
        requires
            old(self).wf(),
            old(self).got_normal,
        ensures
            final(self).wf(),
            final(self).got_normal,
            final(self).queue_view() == old(self).queue_view(),
            final(self).next_lineno() == old(self).next_lineno(),
            final(self).submitted_count() == old(self).submitted_count(),
            final(self).session_id() == old(self).session_id(),
            final(self).output_bytes() == old(self).output_bytes(),
            final(self).emitted_linenos() == old(self).emitted_linenos(),
            final(self).ready_spec() == old(self).ready_spec(),
            final(self).is_numbered() == old(self).is_numbered(),
            final(self).linenr_view() == old(self).linenr_view(),
            final(self).normal_view() == old(self).normal_view(),
            forall|x: MsgId| #[trigger]
                old(self).callbacks@.dom().contains(x) ==> final(self).callbacks@.dom().contains(x)
                    && final(self).callbacks@[x] == old(self).callbacks@[x],
            forall|x: MsgId| #[trigger]
                final(self).callbacks@.dom().contains(x) ==> old(self).callbacks@.dom().contains(x)
                    || cont_line_no(final(self).callbacks@[x], final(self).session_id()).is_none(),
            forall|x: MsgId| #[trigger]
                final(self).callbacks@.dom().contains(x) ==> old(self).callbacks@.dom().contains(x)
                    || x > old(self).last_msg_id(),
            final(self).last_msg_id() >= old(self).last_msg_id(),
            old(self).outbox_bytes().is_prefix_of(final(self).outbox_bytes()),
            match r {
                Ok(b) => {
                    &&& final(self).cache_view().contains_key(synid)
                    &&& b == entry_pending(final(self).cache_view()[synid])
                    &&& (old(self).cache_view().contains_key(synid)
                        ==> final(self).cache_view() == old(self).cache_view()
                        && final(self).attr_requests() == old(self).attr_requests()
                        && final(self).outbox_bytes() == old(self).outbox_bytes())
                    &&& (old(self).cache_view().contains_key(synid)
                        ==> final(self).pending_view() == old(self).pending_view())
                    &&& (!old(self).cache_view().contains_key(synid)
                        ==> final(self).cache_view() == old(self).cache_view().insert(
                        synid,
                        FutureSynAttr::Pending,
                    ) && final(self).attr_requests() == old(self).attr_requests().push(synid)
                        && final(self).outbox_bytes() == old(self).outbox_bytes() + req_call_map(
                        final(self).last_msg_id(),
                        synattr_expr_chars(synid as nat),
                    ) && final(self).last_msg_id() == old(self).last_msg_id() + 1
                        && final(self).pending_view() == old(self).pending_view().insert(
                        final(self).last_msg_id(),
                        ContView::GetSynAttr(final(self).session_id(), synid),
                    ))
                },
                Err(e) => {
                    &&& e matches NvimError::EncodeError
                    &&& old(self).last_msg_id() == MsgId::MAX
                    &&& !old(self).cache_view().contains_key(synid)
                    &&& final(self).cache_view() == old(self).cache_view()
                    &&& final(self).attr_requests() == old(self).attr_requests()
                    &&& final(self).outbox_bytes() == old(self).outbox_bytes()
                    &&& final(self).callbacks@ == old(self).callbacks@
                },
            },
    {
        proof {
            assert(old(self).outbox_bytes().is_prefix_of(self.outbox_bytes())) by {
                assert(self.outbox_bytes().subrange(0, old(self).outbox_bytes().len() as int)
                    =~= old(self).outbox_bytes());
            }
        }
        let cached = self.syn_attr_cache.contains_key(&synid);
        if cached {
            let b: bool = match self.syn_attr_cache.get(&synid) {
                Some(f) => match f {
                    FutureSynAttr::Pending => true,
                    FutureSynAttr::Resolved(_) => false,
                },
                None => false,
            };
            return Ok(b);
        }
        let mut func = String::from_str("synIDattr(synIDtrans(");
        push_dec(&mut func, synid as u64);
        func.append("), v:val, &termguicolors ? 'gui' : 'cterm')");
        proof {
            assert(func@ =~= synattr_expr_chars(synid as nat));
            reveal_strlit("synIDattr(synIDtrans(");
            reveal_strlit("), v:val, &termguicolors ? 'gui' : 'cterm')");
            assert(vstd::utf8::is_ascii_chars(("synIDattr(synIDtrans(")@));
            assert(vstd::utf8::is_ascii_chars(("), v:val, &termguicolors ? 'gui' : 'cterm')")@));
            crate::decimal::lemma_dec_chars_ascii(synid as nat);
            crate::decimal::lemma_dec_chars_len_u64(synid as u64);
            lemma_ascii_concat(("synIDattr(synIDtrans(")@, dec_chars(synid as nat));
            lemma_ascii_concat(
                ("synIDattr(synIDtrans(")@ + dec_chars(synid as nat),
                ("), v:val, &termguicolors ? 'gui' : 'cterm')")@,
            );
            crate::rpc::lemma_ascii_bytes_len(func@);
        }
        let id = match self.send_attr_query(&func) {
            Ok(id) => id,
            Err(e) => {
                proof {
                    assert(old(self).outbox_bytes().is_prefix_of(self.outbox_bytes())) by {
                        assert(self.outbox_bytes().subrange(
                            0,
                            old(self).outbox_bytes().len() as int,
                        ) =~= old(self).outbox_bytes());
                    }
                }
                return Err(e);
            },
        };
        self.syn_attr_cache.insert(synid, FutureSynAttr::Pending);
        self.attr_requested = Ghost(self.attr_requested@.push(synid));
        self.callbacks.insert(id, Continuation::Run(self.session, Callback::GetSynAttr(synid)));
        proof {
            assert(self.callbacks@.dom() =~= old(self).callbacks@.dom().insert(id));
            assert(self.pending_view() =~= old(self).pending_view().insert(
                id,
                ContView::GetSynAttr(self.session, synid),
            ));
            lemma_normal_cont_preserved(
                old(self).callbacks@,
                self.callbacks@,
                id,
                self.callbacks@[id],
            );
            assert(self.syn_attr_cache@.dom() =~= old(self).syn_attr_cache@.dom().insert(synid));
            assert forall|x: MsgId| #[trigger]
                self.callbacks@.dom().contains(x) implies x <= self.writer.last_id()
                && self.cont_wf(self.callbacks@[x]) by {
                if x != id {
                    assert(old(self).callbacks@.dom().contains(x));
                    assert(old(self).cont_wf(old(self).callbacks@[x]));
                    assert(self.callbacks@[x] == old(self).callbacks@[x]);
                    match cont_attr_id(self.callbacks@[x]) {
                        Some(s2) => {
                            assert(old(self).syn_attr_cache@.contains_key(s2));
                            assert(s2 != synid);
                        },
                        None => (),
                    }
                }
            }
            assert forall|x1: MsgId, x2: MsgId|
                self.callbacks@.dom().contains(x1) && self.callbacks@.dom().contains(x2) && x1
                    != x2 && cont_attr_id(#[trigger] self.callbacks@[x1]).is_some() implies
                cont_attr_id(self.callbacks@[x1]) != cont_attr_id(
                #[trigger] self.callbacks@[x2],
            ) by {
                if x1 != id {
                    assert(old(self).callbacks@.dom().contains(x1));
                    assert(old(self).cont_wf(old(self).callbacks@[x1]));
                    assert(self.callbacks@[x1] == old(self).callbacks@[x1]);
                    match cont_attr_id(self.callbacks@[x1]) {
                        Some(s1) => {
                            assert(old(self).syn_attr_cache@.contains_key(s1));
                        },
                        None => (),
                    }
                }
                if x2 != id {
                    assert(old(self).callbacks@.dom().contains(x2));
                    assert(old(self).cont_wf(old(self).callbacks@[x2]));
                    assert(self.callbacks@[x2] == old(self).callbacks@[x2]);
                    match cont_attr_id(self.callbacks@[x2]) {
                        Some(s2) => {
                            assert(old(self).syn_attr_cache@.contains_key(s2));
                        },
                        None => (),
                    }
                }
            }
            assert forall|x1: MsgId, x2: MsgId|
                self.callbacks@.dom().contains(x1) && self.callbacks@.dom().contains(x2) && x1
                    != x2 && cont_line_no(
                #[trigger] self.callbacks@[x1],
                self.session,
            ).is_some() implies cont_line_no(self.callbacks@[x1], self.session) != cont_line_no(
                #[trigger] self.callbacks@[x2],
                self.session,
            ) by {
                if x1 != id {
                    assert(old(self).callbacks@.dom().contains(x1));
                    assert(old(self).cont_wf(old(self).callbacks@[x1]));
                    assert(self.callbacks@[x1] == old(self).callbacks@[x1]);
                }
                if x2 != id {
                    assert(old(self).callbacks@.dom().contains(x2));
                    assert(old(self).cont_wf(old(self).callbacks@[x2]));
                    assert(self.callbacks@[x2] == old(self).callbacks@[x2]);
                }
            }
            assert forall|i: int|
                0 <= i < self.queue@.len() implies (match #[trigger] self.queue@[i] {
                Some(l) => l.lineno == self.lineno + i && Self::line_wf(l, self.syn_attr_cache@),
                None => true,
            }) by {
                match self.queue@[i] {
                    Some(l) => {
                        assert(old(self).queue@[i] == self.queue@[i]);
                        assert(Self::line_wf(l, old(self).syn_attr_cache@));
                        assert forall|j: int|
                            0 <= j < l.synids@.len() implies #[trigger] self.syn_attr_cache@.contains_key(
                            l.synids@[j],
                        ) && (entry_pending(self.syn_attr_cache@[l.synids@[j]])
                            ==> l.pending@.contains(l.synids@[j])) by {
                            assert(old(self).syn_attr_cache@.contains_key(l.synids@[j]));
                            assert(l.synids@[j] != synid);
                            assert(self.syn_attr_cache@[l.synids@[j]]
                                == old(self).syn_attr_cache@[l.synids@[j]]);
                        }
                    },
                    None => (),
                }
            }
            assert(self.attr_requested@.no_duplicates()) by {
                assert(forall|i: int|
                    0 <= i < old(self).attr_requested@.len()
                        ==> old(self).syn_attr_cache@.contains_key(
                        #[trigger] old(self).attr_requested@[i],
                    ));
                assert(forall|i: int|
                    0 <= i < old(self).attr_requested@.len() ==> #[trigger] old(self).attr_requested@[i] != synid);
            }
            assert(self.wf());
            assert(old(self).outbox_bytes().is_prefix_of(self.outbox_bytes())) by {
                assert(self.outbox_bytes().subrange(0, old(self).outbox_bytes().len() as int)
                    =~= old(self).outbox_bytes());
            }
        }
        Ok(true)
    }
}

impl Nvim {
    /// The per-column syntax ids of one line arrived: force control
    /// bytes to the reserved special id, make sure every id has a
    /// cache entry (requesting unknown ones exactly once), and push
    /// the line into the reorder buffer — flushing if it completes
    /// the next-expected line.
    #[verifier::rlimit(100)]
    fn handle_synids(&mut self, ln: usize, line: Vec<u8>, payload: RpcValue) -> (r: NvimResult<()>)
        requires
            old(self).wf(),
            old(self).flushed(),
            old(self).next_lineno() <= ln < old(self).submitted_count(),
            line@.len() < 0xFFFF_FFFF,
            forall|x: MsgId| #[trigger]
                old(self).callbacks@.dom().contains(x) ==> cont_line_no(
                    old(self).callbacks@[x],
                    old(self).session,
                ) != Some(ln),
            ln - old(self).next_lineno() < old(self).queue_view().len()
                ==> old(self).queue_view()[ln - old(self).next_lineno()] matches Option::<
                Line,
            >::None,
        ensures
            final(self).wf(),
            evolves(old(self), final(self)),
            forall|x: MsgId| #[trigger]
                final(self).callbacks@.dom().contains(x) ==> old(self).callbacks@.dom().contains(x)
                    || x > old(self).last_msg_id(),
            forall|x: MsgId| #[trigger]
                old(self).pending_view().dom().contains(x) ==> final(self).pending_view().dom().contains(x) && final(self).pending_view()[x] == old(self).pending_view()[x],
            forall|x: MsgId|
                #[trigger] final(self).pending_view().dom().contains(x) && !old(self).pending_view().dom().contains(x) ==> x > old(self).last_msg_id() && (match final(self).pending_view()[x] {
                    ContView::GetSynAttr(g, s) => g == final(self).session_id()
                        && spec_synids(line@, arr_of(payload)).contains(s) && !old(self).cache_view().contains_key(s),
                    _ => false,
                }),
            match r {
                Ok(()) => {
                    &&& payload matches RpcValue::Arr(_)
                    &&& synids_ok(line@, arr_of(payload))
                    &&& ({
                        let synids = spec_synids(line@, arr_of(payload));
                        let pend = Set::new(
                            |k: usize|
                                synids.contains(k) && entry_pending(final(self).cache_view()[k]),
                        );
                        let q1 = place(
                            old(self).buffer_view(),
                            ln - old(self).next_lineno(),
                            LineView { lineno: ln, line: line@, synids: synids, pending: pend },
                        );
                        &&& (forall|k: usize|
                            #[trigger] final(self).cache_view().contains_key(k) <==> old(self).cache_view().contains_key(k) || synids.contains(k))
                        &&& (forall|k: usize| #[trigger]
                            old(self).cache_view().contains_key(k) ==> final(self).cache_view()[k]
                                == old(self).cache_view()[k])
                        &&& (forall|k: usize|
                            !old(self).cache_view().contains_key(k) && #[trigger] final(self).cache_view().contains_key(k) ==> entry_pending(
                                final(self).cache_view()[k],
                            ))
                        &&& (forall|k: usize|
                            #[trigger] final(self).attr_requests().contains(k) <==> old(self).attr_requests().contains(k) || (synids.contains(k) && !old(self).cache_view().contains_key(k)))
                        &&& final(self).next_lineno() == old(self).next_lineno() + flush_len_v(q1)
                        &&& final(self).buffer_view() == q1.subrange(flush_len_v(q1), q1.len() as int)
                        &&& final(self).output_bytes() == old(self).output_bytes() + flush_bytes_v(
                            q1,
                            flush_len_v(q1),
                            final(self).cache_view(),
                            old(self).linenr_view(),
                            crate::synattr::spec_default_attr(),
                        )
                        &&& final(self).flushed()
                    })
                },
                Err(e) => {
                    &&& !(e matches NvimError::RpcError(_))
                    &&& !(e matches NvimError::ProtocolError)
                    &&& final(self).buffer_view() == old(self).buffer_view()
                    &&& final(self).next_lineno() == old(self).next_lineno()
                    &&& final(self).output_bytes() == old(self).output_bytes()
                    &&& final(self).flushed() == old(self).flushed()
                },
            },
    {
        let ghost payload_v = payload;
        let ghost line_in = line@;
        let ids = match payload {
            RpcValue::Arr(ids) => ids,
            _ => {
                return Err(NvimError::DecodeError);
            },
        };
        proof {
            assert(arr_of(payload_v) == ids@);
        }
        let m: usize = if ids.len() < line.len() {
            ids.len()
        } else {
            line.len()
        };
        let mut synids: Vec<usize> = Vec::new();
        let mut bad = false;
        let mut j: usize = 0;
        while j < m && !bad
            invariant
                line@ == line_in,
                ids@ == arr_of(payload_v),
                m == vstd::math::min(line@.len() as int, ids@.len() as int),
                m <= line@.len(),
                0 <= j <= m,
                !bad ==> synids@.len() == j,
                forall|jj: int|
                    0 <= jj < synids@.len() ==> #[trigger] synids@[jj] == spec_synid_at(
                        line@,
                        ids@,
                        jj,
                    ),
                forall|jj: int|
                    0 <= jj < j && !is_control_byte(line@[jj]) ==> is_uint(#[trigger] ids@[jj])
                        && uint_of(ids@[jj]) <= usize::MAX,
            decreases m - j, (if bad { 0int } else { 1int }),
        {
            let c = line[j];
            let mut sv: usize = 1;
            if !char_is_control(c) {
                match &ids[j] {
                    RpcValue::Uint(x) => {
                        if *x > (usize::MAX as u64) {
                            bad = true;
                        } else {
                            sv = *x as usize;
                        }
                    },
                    _ => {
                        bad = true;
                    },
                }
            }
            if !bad {
                synids.push(sv);
                j += 1;
            }
        }
        if bad {
            return Err(NvimError::DecodeError);
        }
        let mut pending: HashSetWithView<usize> = HashSetWithView::new();
        let mut j2: usize = 0;
        proof {
            assert(self.got_normal) by {
                assert(old(self).submitted_count() > 0);
            }
            assert(synids@ =~= spec_synids(line_in, arr_of(payload_v)));
        }
        let mut fail: Option<NvimError> = None;
        while j2 < synids.len() && fail.is_none()
            invariant
                (match fail {
                    Some(e) => e matches NvimError::EncodeError,
                    None => true,
                }),
                self.wf(),
                self.got_normal,
                0 <= j2 <= synids@.len(),
                line@ == line_in,
                ids@ == arr_of(payload_v),
                synids@ == spec_synids(line_in, arr_of(payload_v)),
                self.queue@ == old(self).queue@,
                self.lineno == old(self).lineno,
                self.submitted == old(self).submitted,
                self.session == old(self).session,
                self.output@ == old(self).output@,
                self.emitted@ == old(self).emitted@,
                self.ready_spec() == old(self).ready_spec(),
                self.is_numbered() == old(self).is_numbered(),
                self.linenr_view() == old(self).linenr_view(),
                self.normal_view() == old(self).normal_view(),
                forall|x: MsgId| #[trigger]
                    old(self).callbacks@.dom().contains(x) ==> self.callbacks@.dom().contains(x)
                        && self.callbacks@[x] == old(self).callbacks@[x],
                forall|x: MsgId| #[trigger]
                    self.callbacks@.dom().contains(x) ==> old(self).callbacks@.dom().contains(x)
                        || (cont_line_no(self.callbacks@[x], self.session).is_none() && x > old(self).writer.last_id()),
                forall|k: usize| #[trigger]
                    old(self).syn_attr_cache@.contains_key(k)
                        ==> self.syn_attr_cache@.contains_key(k),
                forall|k: usize| #[trigger]
                    is_resolved(old(self).syn_attr_cache@, k) ==> self.syn_attr_cache@[k] == old(self).syn_attr_cache@[k],
                old(self).attr_requested@.is_prefix_of(self.attr_requested@),
                forall|i: int|
                    old(self).attr_requested@.len() <= i < self.attr_requested@.len()
                        ==> !old(self).syn_attr_cache@.contains_key(
                        #[trigger] self.attr_requested@[i],
                    ),
                old(self).writer.pending().is_prefix_of(self.writer.pending()),
                self.writer.last_id() >= old(self).writer.last_id(),
                forall|k: usize|
                    #[trigger] self.syn_attr_cache@.contains_key(k) <==> old(self).syn_attr_cache@.contains_key(k) || synids@.subrange(0, j2 as int).contains(
                        k,
                    ),
                forall|k: usize| #[trigger]
                    old(self).syn_attr_cache@.contains_key(k) ==> self.syn_attr_cache@[k] == old(self).syn_attr_cache@[k],
                forall|k: usize|
                    !old(self).syn_attr_cache@.contains_key(k) && #[trigger] self.syn_attr_cache@.contains_key(
                        k,
                    ) ==> entry_pending(self.syn_attr_cache@[k]),
                forall|k: usize|
                    #[trigger] self.attr_requested@.contains(k) <==> old(self).attr_requested@.contains(k) || (self.syn_attr_cache@.contains_key(k) && !old(self).syn_attr_cache@.contains_key(k)),
                pending@ == Set::new(
                    |k: usize|
                        synids@.subrange(0, j2 as int).contains(k) && entry_pending(
                            self.syn_attr_cache@[k],
                        ),
                ),
                forall|x: MsgId| #[trigger]
                    old(self).callbacks@.dom().contains(x) ==> self.pending_view()[x] == old(self).pending_view()[x],
                forall|x: MsgId|
                    #[trigger] self.callbacks@.dom().contains(x) && !old(self).callbacks@.dom().contains(x) ==> x > old(self).writer.last_id() && (
                    match self.pending_view()[x] {
                        ContView::GetSynAttr(g, sv2) => g == self.session && synids@.subrange(
                            0,
                            j2 as int,
                        ).contains(sv2) && !old(self).syn_attr_cache@.contains_key(sv2),
                        _ => false,
                    }),
                forall|jj: int|
                    0 <= jj < j2 ==> #[trigger] self.syn_attr_cache@.contains_key(synids@[jj]) && (
                    entry_pending(self.syn_attr_cache@[synids@[jj]]) ==> pending@.contains(
                        synids@[jj],
                    )),
            decreases synids@.len() - j2, (if fail.is_some() {
                0int
            } else {
                1int
            }),
        {
            let ghost mid = *self;
            let sv = synids[j2];
            let got = self.get_synattr(sv);
            let mut b = false;
            match got {
                Ok(bb) => {
                    b = bb;
                },
                Err(e) => {
                    fail = Some(e);
                },
            };
            if fail.is_none() {
                if b {
                    pending.insert(sv);
                }
                j2 += 1;
                proof {
                assert(synids@.subrange(0, j2 - 1).push(sv) =~= synids@.subrange(0, j2 as int));
                assert forall|k: usize|
                    #[trigger] self.syn_attr_cache@.contains_key(k) <==> old(self).syn_attr_cache@.contains_key(k) || synids@.subrange(0, j2 as int).contains(
                        k,
                    ) by {
                    if synids@.subrange(0, j2 as int).contains(k) {
                        if synids@.subrange(0, j2 - 1).contains(k) {
                            assert(mid.syn_attr_cache@.contains_key(k) || old(self).syn_attr_cache@.contains_key(k));
                        }
                    }
                }
                assert forall|k: usize|
                    #[trigger] self.attr_requested@.contains(k) implies old(self).attr_requested@.contains(k) || (self.syn_attr_cache@.contains_key(k) && !old(self).syn_attr_cache@.contains_key(k)) by {
                    if !mid.attr_requested@.contains(k) {
                        assert(k == sv);
                    } else {
                        if !old(self).attr_requested@.contains(k) {
                            assert(mid.syn_attr_cache@.contains_key(k));
                        }
                    }
                }
                assert forall|x: MsgId|
                    #[trigger] self.callbacks@.dom().contains(x) && !old(self).callbacks@.dom().contains(x) implies x > old(self).writer.last_id() && (
                match self.pending_view()[x] {
                    ContView::GetSynAttr(g, sv2) => g == self.session && synids@.subrange(
                        0,
                        j2 as int,
                    ).contains(sv2) && !old(self).syn_attr_cache@.contains_key(sv2),
                    _ => false,
                }) by {
                    if mid.callbacks@.dom().contains(x) {
                        assert(x > old(self).writer.last_id());
                        assert(self.pending_view()[x] == mid.pending_view()[x]);
                        match mid.pending_view()[x] {
                            ContView::GetSynAttr(g, sv2) => {
                                assert(synids@.subrange(0, j2 - 1).contains(sv2));
                                assert(synids@.subrange(0, j2 as int).contains(sv2));
                            },
                            _ => (),
                        }
                    } else {
                        if mid.syn_attr_cache@.contains_key(sv) {
                            assert(self.pending_view() == mid.pending_view());
                            assert(self.pending_view().dom() =~= self.callbacks@.dom());
                            assert(mid.pending_view().dom() =~= mid.callbacks@.dom());
                            assert(false);
                        } else {
                            assert(self.pending_view() == mid.pending_view().insert(
                                self.writer.last_id(),
                                ContView::GetSynAttr(self.session, sv),
                            ));
                            assert(self.pending_view().dom() =~= self.callbacks@.dom());
                            assert(mid.pending_view().dom() =~= mid.callbacks@.dom());
                            assert(x == self.writer.last_id());
                            assert(self.pending_view()[x] == ContView::GetSynAttr(
                                self.session,
                                sv,
                            ));
                            assert(synids@.subrange(0, j2 as int)[j2 - 1] == sv);
                        }
                    }
                }
                assert(pending@ =~= Set::new(
                    |k: usize|
                        synids@.subrange(0, j2 as int).contains(k) && entry_pending(
                            self.syn_attr_cache@[k],
                        ),
                )) by {
                    assert forall|k: usize|
                        pending@.contains(k) <==> (synids@.subrange(0, j2 as int).contains(k)
                            && entry_pending(self.syn_attr_cache@[k])) by {
                        if k != sv {
                            if mid.syn_attr_cache@.contains_key(k) {
                                assert(self.syn_attr_cache@[k] == mid.syn_attr_cache@[k]);
                            }
                        }
                    }
                }
                assert(old(self).attr_requested@.is_prefix_of(self.attr_requested@)) by {
                    assert(self.attr_requested@.subrange(0, old(self).attr_requested@.len() as int)
                        =~= old(self).attr_requested@);
                }
                assert(old(self).writer.pending().is_prefix_of(self.writer.pending())) by {
                    assert(self.writer.pending().subrange(
                        0,
                        old(self).writer.pending().len() as int,
                    ) =~= old(self).writer.pending());
                }
                assert forall|jj: int| 0 <= jj < j2 implies #[trigger] self.syn_attr_cache@.contains_key(
                    synids@[jj],
                ) && (entry_pending(self.syn_attr_cache@[synids@[jj]]) ==> pending@.contains(
                    synids@[jj],
                )) by {
                    if jj < j2 - 1 {
                        assert(mid.syn_attr_cache@.contains_key(synids@[jj]));
                        if synids@[jj] == sv {
                        } else {
                            assert(self.syn_attr_cache@[synids@[jj]]
                                == mid.syn_attr_cache@[synids@[jj]]);
                        }
                    }
                }
            }
            }
        }
        match fail {
            Some(e) => {
                proof {
                    assert forall|x: MsgId| #[trigger]
                        old(self).pending_view().dom().contains(x) implies self.pending_view().dom().contains(
                        x,
                    ) && self.pending_view()[x] == old(self).pending_view()[x] by {
                        assert(old(self).callbacks@.dom().contains(x));
                    }
                    assert forall|x: MsgId|
                        #[trigger] self.pending_view().dom().contains(x) && !old(self).pending_view().dom().contains(x) implies x > old(self).last_msg_id() && (
                    match self.pending_view()[x] {
                        ContView::GetSynAttr(g, s2) => g == self.session_id() && spec_synids(
                            line@,
                            arr_of(payload_v),
                        ).contains(s2) && !old(self).cache_view().contains_key(s2),
                        _ => false,
                    }) by {
                        assert(self.pending_view().dom() =~= self.callbacks@.dom());
                        assert(old(self).pending_view().dom() =~= old(self).callbacks@.dom());
                        assert(self.callbacks@.dom().contains(x));
                        assert(!old(self).callbacks@.dom().contains(x));
                        match self.pending_view()[x] {
                            ContView::GetSynAttr(g, s2) => {
                                assert(synids@.subrange(0, j2 as int).contains(s2));
                                let jj = choose|jj: int|
                                    0 <= jj < j2 && synids@.subrange(0, j2 as int)[jj] == s2;
                                assert(synids@[jj] == s2);
                                assert(spec_synids(line@, arr_of(payload_v)).contains(s2));
                            },
                            _ => (),
                        }
                    }
                    assert(old(self).emitted@.is_prefix_of(self.emitted@)) by {
                        assert(self.emitted@.subrange(0, old(self).emitted@.len() as int) =~= old(self).emitted@);
                    }
                    assert(old(self).output@.is_prefix_of(self.output@)) by {
                        assert(self.output@.subrange(0, old(self).output@.len() as int) =~= old(self).output@);
                    }
                    assert(old(self).attr_requested@.is_prefix_of(self.attr_requested@)) by {
                        assert(self.attr_requested@.subrange(0, old(self).attr_requested@.len() as int)
                            =~= old(self).attr_requested@);
                    }
                    assert(old(self).outbox_bytes().is_prefix_of(self.outbox_bytes())) by {
                        assert(self.outbox_bytes().subrange(0, old(self).outbox_bytes().len() as int)
                            =~= old(self).outbox_bytes());
                    }
                }
                return Err(e);
            },
            None => (),
        };
        let empt = pending.is_empty();
        let ghost line_v = line@;
        let ghost synids_v = synids@;
        let ghost pending_v = pending@;
        let ghost cache_l2 = self.syn_attr_cache@;
        proof {
            assert(0 <= j2 <= synids@.len());
            assert(j2 >= synids@.len());
            assert(self.wf());
            assert forall|jj: int|
                0 <= jj < synids_v.len() implies #[trigger] cache_l2.contains_key(synids_v[jj])
                && (entry_pending(cache_l2[synids_v[jj]]) ==> pending_v.contains(
                synids_v[jj],
            )) by {
                assert(jj < j2);
                assert(self.syn_attr_cache@.contains_key(synids@[jj]) && (entry_pending(
                    self.syn_attr_cache@[synids@[jj]],
                ) ==> pending@.contains(synids@[jj])));
            }
        }
        let lw = Line { lineno: ln, line, synids, pending };
        let ghost lw_v = lw;
        let idx = ln - self.lineno;
        let ghost mid2 = *self;
        let ghost q_mid = self.queue@;
        while self.queue.len() <= idx
            invariant
                self.wf(),
                idx == ln - mid2.lineno < mid2.submitted - mid2.lineno,
                q_mid.is_prefix_of(self.queue@),
                forall|i: int|
                    q_mid.len() <= i < self.queue@.len() ==> (#[trigger] self.queue@[i]) matches
                        Option::<Line>::None,
                self.lineno == mid2.lineno,
                self.submitted == mid2.submitted,
                self.session == mid2.session,
                self.syn_attr_cache@ == mid2.syn_attr_cache@,
                self.callbacks@ == mid2.callbacks@,
                self.writer == mid2.writer,
                self.output@ == mid2.output@,
                self.emitted@ == mid2.emitted@,
                self.attr_requested@ == mid2.attr_requested@,
                self.ready_spec() == mid2.ready_spec(),
                self.is_numbered() == mid2.is_numbered(),
                self.linenr_view() == mid2.linenr_view(),
                self.normal_view() == mid2.normal_view(),
                self.got_normal == mid2.got_normal,
                self.queue@.len() == q_mid.len() || self.queue@.len() <= idx + 1,
            decreases idx + 1 - self.queue@.len(),
        {
            let ghost qb = self.queue@;
            self.queue.push(None);
            proof {
                assert(q_mid.is_prefix_of(self.queue@)) by {
                    assert(self.queue@.subrange(0, q_mid.len() as int) =~= q_mid);
                }
                assert forall|i: int|
                    0 <= i < self.queue@.len() implies (match #[trigger] self.queue@[i] {
                    Some(l) => l.lineno == self.lineno + i && Self::line_wf(
                        l,
                        self.syn_attr_cache@,
                    ),
                    None => true,
                }) by {
                    if i < qb.len() {
                        assert(self.queue@[i] == qb[i]);
                    }
                }
                assert forall|x: MsgId| #[trigger]
                    self.callbacks@.dom().contains(x) implies x <= self.writer.last_id()
                    && self.cont_wf(self.callbacks@[x]) by {
                    match cont_line_no(self.callbacks@[x], self.session) {
                        Some(ln2) => {
                            if ln2 - self.lineno < self.queue@.len() {
                                if ln2 - self.lineno < qb.len() {
                                    assert(self.queue@[ln2 - self.lineno] == qb[ln2
                                        - self.lineno]);
                                }
                            }
                        },
                        None => (),
                    }
                }
                assert(self.wf());
            }
        }
        proof {
            assert(q_mid.is_prefix_of(self.queue@));
            assert(self.syn_attr_cache@ == mid2.syn_attr_cache@);
            assert(mid2.syn_attr_cache@ == cache_l2);
            assert(self.lineno == mid2.lineno);
            assert(self.wf());
        }
        let ghost q_ext = self.queue@;
        self.queue[idx] = Some(lw);
        proof {
            assert(self.queue@ =~= q_ext.update(idx as int, Some(lw_v)));
            assert(lw_v.lineno == ln);
            assert(lw_v.line@ == line_v);
            assert(lw_v.synids@ == synids_v);
            assert(lw_v.pending@ == pending_v);
            assert(synids_v.len() <= line_v.len());
            assert(line_v.len() < 0xFFFF_FFFF);
            assert(Self::line_wf(lw_v, self.syn_attr_cache@)) by {
                assert(self.syn_attr_cache@ == cache_l2);
                assert forall|jj: int|
                    0 <= jj < lw_v.synids@.len() implies #[trigger] self.syn_attr_cache@.contains_key(
                    lw_v.synids@[jj],
                ) && (entry_pending(self.syn_attr_cache@[lw_v.synids@[jj]])
                    ==> lw_v.pending@.contains(lw_v.synids@[jj])) by {
                    assert(lw_v.synids@[jj] == synids_v[jj]);
                    assert(cache_l2.contains_key(synids_v[jj]) && (entry_pending(
                        cache_l2[synids_v[jj]],
                    ) ==> pending_v.contains(synids_v[jj])));
                }
            }
            assert forall|i: int|
                0 <= i < self.queue@.len() implies (match #[trigger] self.queue@[i] {
                Some(l) => l.lineno == self.lineno + i && Self::line_wf(l, self.syn_attr_cache@),
                None => true,
            }) by {
                if i != idx {
                    assert(self.queue@[i] == q_ext[i]);
                } else {
                    assert(self.queue@[i] == Some(lw_v));
                }
            }
            assert forall|x: MsgId| #[trigger]
                self.callbacks@.dom().contains(x) implies x <= self.writer.last_id()
                && self.cont_wf(self.callbacks@[x]) by {
                match cont_line_no(self.callbacks@[x], self.session) {
                    Some(ln2) => {
                        assert(old(self).callbacks@.dom().contains(x) || cont_line_no(
                            self.callbacks@[x],
                            self.session,
                        ).is_none());
                        assert(cont_line_no(old(self).callbacks@[x], old(self).session) != Some(
                            ln,
                        ));
                        assert(ln2 != ln);
                        if ln2 - self.lineno < self.queue@.len() && ln2 - self.lineno != idx {
                            assert(self.queue@[ln2 - self.lineno] == q_ext[ln2 - self.lineno]);
                        }
                    },
                    None => (),
                }
            }
            assert(self.wf());
        }
        let ghost synids_sp = spec_synids(line_v, arr_of(payload_v));
        let ghost pend_sp = Set::new(
            |k: usize| synids_sp.contains(k) && entry_pending(cache_l2[k]),
        );
        let ghost lvv = LineView { lineno: ln, line: line_v, synids: synids_sp, pending: pend_sp };
        let ghost q1 = place(old(self).buffer_view(), idx as int, lvv);
        proof {
            assert(synids_v =~= synids_sp);
            assert(pending_v =~= pend_sp);
            assert(line_to_view(lw_v) == lvv);
            assert(mid2.queue@ == old(self).queue@);
            assert(q_ext.len() == q1.len());
            assert(self.queue@.len() == q1.len());
            assert(self.buffer_view() =~= q1) by {
                assert(q_mid.is_prefix_of(q_ext));
                assert(q_ext.subrange(0, q_mid.len() as int) =~= q_mid);
                assert forall|k: int| 0 <= k < q1.len() implies self.buffer_view()[k]
                    == q1[k] by {
                    assert(self.buffer_view()[k] == slot_to_view(self.queue@[k]));
                    if k == idx {
                        assert(self.queue@[k] == Some(lw_v));
                    } else {
                        assert(self.queue@[k] == q_ext[k]);
                        if k < old(self).queue@.len() {
                            assert(q_ext[k] == q_ext.subrange(0, q_mid.len() as int)[k]);
                            assert(q_ext[k] == old(self).queue@[k]);
                        } else {
                            assert(q_ext[k] matches Option::<Line>::None);
                        }
                    }
                }
            }
            lemma_flush_len_v_bounds(q1);
        }
        if ln == self.lineno && empt {
            let ghost before_flush = *self;
            self.print_lines();
            proof {
                assert(before_flush.buffer_view() == q1);
                lemma_flush_len_bounds(before_flush.queue@);
                lemma_flush_len_bridge(before_flush.queue@);
                lemma_flush_bytes_bridge(
                    before_flush.queue@,
                    flush_len(before_flush.queue@),
                    self.syn_attr_cache@,
                    before_flush.linenr_view(),
                    crate::synattr::spec_default_attr(),
                );
                assert(flush_len_v(q1) == flush_len(before_flush.queue@));
                assert(self.buffer_view() =~= q1.subrange(flush_len_v(q1), q1.len() as int)) by {
                    assert(self.queue@ == before_flush.queue@.subrange(
                        flush_len(before_flush.queue@),
                        before_flush.queue@.len() as int,
                    ));
                }
                assert(self.output@ =~= old(self).output@ + flush_bytes_v(
                    q1,
                    flush_len_v(q1),
                    self.syn_attr_cache@,
                    old(self).linenr_view(),
                    crate::synattr::spec_default_attr(),
                ));
                assert(old(self).output@.is_prefix_of(self.output@)) by {
                    assert(self.output@.subrange(0, old(self).output@.len() as int) =~= old(self).output@);
                }
                assert(old(self).emitted@.is_prefix_of(self.emitted@)) by {
                    assert(self.emitted@.subrange(0, old(self).emitted@.len() as int) =~= old(self).emitted@);
                }
            }
        } else {
            proof {
                assert(!slot_ready(q1[0])) by {
                    if idx == 0 {
                        assert(q1[0] == Some(lvv));
                        assert(!pending_v.is_empty());
                    } else {
                        if old(self).queue@.len() > 0 {
                            assert(q1[0] == old(self).buffer_view()[0]);
                            assert(flush_len(old(self).queue@) == 0);
                            assert(!line_ready(old(self).queue@[0])) by {
                                if line_ready(old(self).queue@[0]) {
                                    lemma_flush_len_bounds(old(self).queue@.drop_first());
                                    assert(flush_len(old(self).queue@) == 1 + flush_len(
                                        old(self).queue@.drop_first(),
                                    ));
                                }
                            }
                            assert(old(self).buffer_view()[0] == slot_to_view(
                                old(self).queue@[0],
                            ));
                        } else {
                            assert(q1[0] matches Option::<LineView>::None);
                        }
                    }
                }
                assert(flush_len_v(q1) == 0);
                assert(self.buffer_view() =~= q1.subrange(0, q1.len() as int));
                assert(flush_bytes_v(
                    q1,
                    0,
                    self.syn_attr_cache@,
                    old(self).linenr_view(),
                    crate::synattr::spec_default_attr(),
                ) == Seq::<u8>::empty());
                lemma_flush_len_bridge(self.queue@);
                assert(flush_len(self.queue@) == 0);
                assert(self.output@ =~= old(self).output@ + flush_bytes_v(
                    q1,
                    flush_len_v(q1),
                    self.syn_attr_cache@,
                    old(self).linenr_view(),
                    crate::synattr::spec_default_attr(),
                ));
            }
        }
        proof {
            assert forall|x: MsgId| #[trigger]
                old(self).pending_view().dom().contains(x) implies self.pending_view().dom().contains(
                x,
            ) && self.pending_view()[x] == old(self).pending_view()[x] by {
                assert(old(self).callbacks@.dom().contains(x));
                assert(mid2.callbacks@.dom().contains(x));
                assert(self.callbacks@ == mid2.callbacks@);
            }
            assert forall|x: MsgId|
                #[trigger] self.pending_view().dom().contains(x) && !old(self).pending_view().dom().contains(x) implies x > old(self).last_msg_id() && (
            match self.pending_view()[x] {
                ContView::GetSynAttr(g, s2) => g == self.session_id() && spec_synids(
                    line_v,
                    arr_of(payload_v),
                ).contains(s2) && !old(self).cache_view().contains_key(s2),
                _ => false,
            }) by {
                assert(self.callbacks@ == mid2.callbacks@);
                assert(mid2.callbacks@.dom().contains(x));
            }
            assert(old(self).output@.is_prefix_of(self.output@)) by {
                assert(self.output@.subrange(0, old(self).output@.len() as int) =~= old(self).output@);
            }
            assert(old(self).emitted@.is_prefix_of(self.emitted@)) by {
                assert(self.emitted@.subrange(0, old(self).emitted@.len() as int) =~= old(self).emitted@);
            }
            assert(old(self).attr_requested@.is_prefix_of(self.attr_requested@)) by {
                assert(self.attr_requested@.subrange(0, old(self).attr_requested@.len() as int)
                    =~= old(self).attr_requested@);
            }
            assert(old(self).outbox_bytes().is_prefix_of(self.outbox_bytes())) by {
                assert(self.outbox_bytes().subrange(0, old(self).outbox_bytes().len() as int)
                    =~= old(self).outbox_bytes());
            }
        }
        Ok(())
    }
}

impl Nvim {
    /// The attributes of one syntax id arrived: resolve the cache
    /// entry, strike the id from every buffered line's unresolved
    /// set, and flush whatever that completes.
    #[verifier::rlimit(100)]
    fn handle_attr(&mut self, synid: usize, payload: RpcValue) -> (r: NvimResult<()>)
        requires
            old(self).wf(),
            old(self).got_normal,
            old(self).cache_view().contains_key(synid),
            entry_pending(old(self).cache_view()[synid]),
            forall|x: MsgId| #[trigger]
                old(self).callbacks@.dom().contains(x) ==> cont_attr_id(old(self).callbacks@[x])
                    != Some(synid),
        ensures
            final(self).wf(),
            evolves(old(self), final(self)),
            final(self).callbacks@ == old(self).callbacks@,
            final(self).pending_view() == old(self).pending_view(),
            final(self).outbox_bytes() == old(self).outbox_bytes(),
            final(self).attr_requests() == old(self).attr_requests(),
            r.is_ok() <==> attr_payload_ok(payload) && attr_of_payload(
                payload,
                Some(old(self).normal_view()),
            ).is_ok(),
            match r {
                Ok(()) => {
                    &&& is_resolved(final(self).cache_view(), synid)
                    &&& attr_of_payload(payload, Some(old(self).normal_view())) matches Ok(a)
                        && resolved_attr(final(self).cache_view(), synid) == a
                    &&& final(self).cache_view().dom() == old(self).cache_view().dom()
                    &&& forall|k: usize|
                        k != synid && old(self).cache_view().contains_key(k)
                            ==> final(self).cache_view()[k] == old(self).cache_view()[k]
                    &&& final(self).next_lineno() == old(self).next_lineno() + flush_len_v(
                        strike(old(self).buffer_view(), synid),
                    )
                    &&& final(self).buffer_view() == strike(
                        old(self).buffer_view(),
                        synid,
                    ).subrange(
                        flush_len_v(strike(old(self).buffer_view(), synid)),
                        old(self).buffer_view().len() as int,
                    )
                    &&& final(self).output_bytes() == old(self).output_bytes() + flush_bytes_v(
                        strike(old(self).buffer_view(), synid),
                        flush_len_v(strike(old(self).buffer_view(), synid)),
                        final(self).cache_view(),
                        old(self).linenr_view(),
                        crate::synattr::spec_default_attr(),
                    )
                    &&& final(self).flushed()
                },
                Err(e) => {
                    &&& e matches NvimError::DecodeError
                    &&& final(self).cache_view() == old(self).cache_view()
                    &&& final(self).buffer_view() == old(self).buffer_view()
                    &&& final(self).next_lineno() == old(self).next_lineno()
                    &&& final(self).output_bytes() == old(self).output_bytes()
                    &&& final(self).flushed() == old(self).flushed()
                },
            },
    {
        let strs = match attr_strs(&payload) {
            Some(t) => t,
            None => {
                proof {
                    lemma_evolves_refl(self);
                }
                return Err(NvimError::DecodeError);
            },
        };
        let attr = match SynAttr::new(
            strs.0.as_str(),
            strs.1.as_str(),
            strs.2.as_str(),
            strs.3.as_str(),
            strs.4.as_str(),
            strs.5.as_str(),
            Some(&self.normal_attr),
        ) {
            Ok(a) => a,
            Err(e) => {
                proof {
                    lemma_evolves_refl(self);
                }
                return Err(e);
            },
        };
        let ghost attr_v = attr;
        self.syn_attr_cache.insert(synid, FutureSynAttr::Resolved(attr));
        proof {
            assert(self.syn_attr_cache@.dom() =~= old(self).syn_attr_cache@.dom().insert(synid));
            assert forall|i: int|
                0 <= i < self.queue@.len() implies (match #[trigger] self.queue@[i] {
                Some(l) => l.lineno == self.lineno + i && Self::line_wf(l, self.syn_attr_cache@),
                None => true,
            }) by {
                match self.queue@[i] {
                    Some(l) => {
                        assert(old(self).queue@[i] == self.queue@[i]);
                        assert(Self::line_wf(l, old(self).syn_attr_cache@));
                        assert forall|j: int|
                            0 <= j < l.synids@.len() implies #[trigger] self.syn_attr_cache@.contains_key(
                            l.synids@[j],
                        ) && (entry_pending(self.syn_attr_cache@[l.synids@[j]])
                            ==> l.pending@.contains(l.synids@[j])) by {
                            assert(old(self).syn_attr_cache@.contains_key(l.synids@[j]));
                            if l.synids@[j] != synid {
                                assert(self.syn_attr_cache@[l.synids@[j]]
                                    == old(self).syn_attr_cache@[l.synids@[j]]);
                            }
                        }
                    },
                    None => (),
                }
            }
            assert forall|x: MsgId| #[trigger]
                self.callbacks@.dom().contains(x) implies x <= self.writer.last_id()
                && self.cont_wf(self.callbacks@[x]) by {
                assert(old(self).callbacks@.dom().contains(x));
                assert(old(self).cont_wf(old(self).callbacks@[x]));
                match cont_attr_id(self.callbacks@[x]) {
                    Some(s2) => {
                        assert(s2 != synid);
                        assert(self.syn_attr_cache@[s2] == old(self).syn_attr_cache@[s2]);
                    },
                    None => (),
                }
            }
            assert(self.wf());
        }
        let ghost mid = *self;
        let mut i: usize = 0;
        while i < self.queue.len()
            invariant
                self.wf(),
                0 <= i <= self.queue@.len(),
                self.queue@.len() == mid.queue@.len(),
                forall|k: int|
                    0 <= k < i ==> (match (mid.queue@[k], #[trigger] self.queue@[k]) {
                        (Some(a), Some(b)) => b.lineno == a.lineno && b.line@ == a.line@
                            && b.synids@ == a.synids@ && b.pending@ == a.pending@.remove(synid),
                        (None, None) => true,
                        _ => false,
                    }),
                forall|k: int| i <= k < self.queue@.len() ==> #[trigger] self.queue@[k] == mid.queue@[k],
                self.lineno == mid.lineno,
                self.submitted == mid.submitted,
                self.session == mid.session,
                self.syn_attr_cache@ == mid.syn_attr_cache@,
                self.callbacks@ == mid.callbacks@,
                self.writer == mid.writer,
                self.output@ == mid.output@,
                self.emitted@ == mid.emitted@,
                self.attr_requested@ == mid.attr_requested@,
                self.ready_spec() == mid.ready_spec(),
                self.is_numbered() == mid.is_numbered(),
                self.linenr_view() == mid.linenr_view(),
                self.normal_view() == mid.normal_view(),
                self.got_normal == mid.got_normal,
                is_resolved(mid.syn_attr_cache@, synid),
            decreases self.queue@.len() - i,
        {
            let ghost pre = *self;
            let ghost qb = self.queue@;
            let mut slot: Option<Line> = None;
            core::mem::swap(&mut slot, &mut self.queue[i]);
            match slot {
                Some(mut l) => {
                    l.pending.remove(&synid);
                    self.queue[i] = Some(l);
                },
                None => (),
            };
            proof {
                assert forall|k: int|
                    0 <= k < self.queue@.len() implies (match #[trigger] self.queue@[k] {
                    Some(l2) => l2.lineno == self.lineno + k && Self::line_wf(
                        l2,
                        self.syn_attr_cache@,
                    ),
                    None => true,
                }) by {
                    if k != i {
                        assert(self.queue@[k] == qb[k]);
                    } else {
                        match qb[k] {
                            Some(lb) => {
                                assert(Self::line_wf(lb, self.syn_attr_cache@));
                                match self.queue@[k] {
                                    Some(l2) => {
                                        assert(l2.lineno == lb.lineno);
                                        assert(l2.synids@ == lb.synids@);
                                        assert(l2.line@ == lb.line@);
                                        assert(l2.pending@ == lb.pending@.remove(synid));
                                        assert forall|j: int|
                                            0 <= j < l2.synids@.len() implies #[trigger] self.syn_attr_cache@.contains_key(
                                            l2.synids@[j],
                                        ) && (entry_pending(self.syn_attr_cache@[l2.synids@[j]])
                                            ==> l2.pending@.contains(l2.synids@[j])) by {
                                            assert(self.syn_attr_cache@.contains_key(
                                                lb.synids@[j],
                                            ));
                                            if entry_pending(
                                                self.syn_attr_cache@[l2.synids@[j]],
                                            ) {
                                                assert(!entry_pending(
                                                    mid.syn_attr_cache@[synid],
                                                ));
                                                assert(l2.synids@[j] != synid);
                                                assert(lb.pending@.contains(lb.synids@[j]));
                                            }
                                        }
                                    },
                                    None => (),
                                }
                            },
                            None => (),
                        }
                    }
                }
                assert forall|x: MsgId| #[trigger]
                    self.callbacks@.dom().contains(x) implies x <= self.writer.last_id()
                    && self.cont_wf(self.callbacks@[x]) by {
                    assert(pre.callbacks@.dom().contains(x));
                    assert(pre.cont_wf(pre.callbacks@[x]));
                    assert(self.callbacks@[x] == pre.callbacks@[x]);
                    match cont_line_no(self.callbacks@[x], self.session) {
                        Some(ln2) => {
                            if ln2 - self.lineno < self.queue@.len() {
                                assert(qb[ln2 - self.lineno] matches Option::<Line>::None);
                                if ln2 - self.lineno == i {
                                    assert(self.queue@[ln2 - self.lineno] matches Option::<
                                        Line,
                                    >::None);
                                } else {
                                    assert(self.queue@[ln2 - self.lineno] == qb[ln2
                                        - self.lineno]);
                                }
                            }
                        },
                        None => (),
                    }
                }
                assert(self.wf());
            }
            i += 1;
        }
        let ghost pre_flush = *self;
        self.print_lines();
        proof {
            let qs = strike(old(self).buffer_view(), synid);
            assert(pre_flush.buffer_view() =~= qs) by {
                assert(mid.queue@ == old(self).queue@);
                assert forall|k: int| 0 <= k < qs.len() implies pre_flush.buffer_view()[k]
                    == qs[k] by {
                    assert(pre_flush.buffer_view()[k] == slot_to_view(pre_flush.queue@[k]));
                    match (mid.queue@[k], pre_flush.queue@[k]) {
                        (Some(a), Some(b)) => {
                            assert(line_to_view(b).pending == line_to_view(a).pending.remove(
                                synid,
                            ));
                        },
                        _ => (),
                    }
                }
            }
            lemma_flush_len_bounds(pre_flush.queue@);
            lemma_flush_len_bridge(pre_flush.queue@);
            lemma_flush_bytes_bridge(
                pre_flush.queue@,
                flush_len(pre_flush.queue@),
                self.syn_attr_cache@,
                pre_flush.linenr_view(),
                crate::synattr::spec_default_attr(),
            );
            assert(flush_len_v(qs) == flush_len(pre_flush.queue@));
            assert(self.buffer_view() =~= qs.subrange(
                flush_len_v(qs),
                old(self).buffer_view().len() as int,
            )) by {
                assert(self.queue@ == pre_flush.queue@.subrange(
                    flush_len(pre_flush.queue@),
                    pre_flush.queue@.len() as int,
                ));
            }
            assert(self.output@ =~= old(self).output@ + flush_bytes_v(
                qs,
                flush_len_v(qs),
                self.syn_attr_cache@,
                old(self).linenr_view(),
                crate::synattr::spec_default_attr(),
            ));
            assert(old(self).emitted@.is_prefix_of(self.emitted@)) by {
                assert(self.emitted@.subrange(0, old(self).emitted@.len() as int) =~= old(self).emitted@);
            }
            assert(old(self).output@.is_prefix_of(self.output@)) by {
                assert(self.output@.subrange(0, old(self).output@.len() as int) =~= old(self).output@);
            }
            assert(old(self).attr_requested@.is_prefix_of(self.attr_requested@)) by {
                assert(self.attr_requested@.subrange(0, old(self).attr_requested@.len() as int)
                    =~= old(self).attr_requested@);
            }
            assert(old(self).outbox_bytes().is_prefix_of(self.outbox_bytes())) by {
                assert(self.outbox_bytes().subrange(0, old(self).outbox_bytes().len() as int)
                    =~= old(self).outbox_bytes());
            }
        }
        Ok(())
    }
}

proof fn lemma_ascii_concat(a: Seq<char>, b: Seq<char>)
    requires
        vstd::utf8::is_ascii_chars(a),
        vstd::utf8::is_ascii_chars(b),
    ensures
        vstd::utf8::is_ascii_chars(a + b),
{
    assert forall|i: int| 0 <= i < (a + b).len() implies '\0' <= #[trigger] (a + b)[i]
        <= '\u{7f}' by {
        if i < a.len() {
            assert((a + b)[i] == a[i]);
        } else {
            assert((a + b)[i] == b[i - a.len()]);
        }
    }
}

/// A state evolves to itself.
proof fn lemma_evolves_refl(nv: &Nvim)
    ensures
        evolves(nv, nv),
{
    assert(nv.emitted_linenos().is_prefix_of(nv.emitted_linenos())) by {
        assert(nv.emitted_linenos().subrange(0, nv.emitted_linenos().len() as int)
            =~= nv.emitted_linenos());
    }
    assert(nv.attr_requests().is_prefix_of(nv.attr_requests())) by {
        assert(nv.attr_requests().subrange(0, nv.attr_requests().len() as int)
            =~= nv.attr_requests());
    }
    assert(nv.output_bytes().is_prefix_of(nv.output_bytes())) by {
        assert(nv.output_bytes().subrange(0, nv.output_bytes().len() as int)
            =~= nv.output_bytes());
    }
    assert(nv.outbox_bytes().is_prefix_of(nv.outbox_bytes())) by {
        assert(nv.outbox_bytes().subrange(0, nv.outbox_bytes().len() as int)
            =~= nv.outbox_bytes());
    }
}

/// Evolution composes.
proof fn lemma_evolves_trans(a: &Nvim, b: &Nvim, c: &Nvim)
    requires
        evolves(a, b),
        evolves(b, c),
    ensures
        evolves(a, c),
{
    assert(a.emitted_linenos().is_prefix_of(c.emitted_linenos())) by {
        assert(c.emitted_linenos().subrange(0, a.emitted_linenos().len() as int)
            =~= a.emitted_linenos());
    }
    assert(a.attr_requests().is_prefix_of(c.attr_requests())) by {
        assert(c.attr_requests().subrange(0, a.attr_requests().len() as int)
            =~= a.attr_requests());
    }
    assert(a.output_bytes().is_prefix_of(c.output_bytes())) by {
        assert(c.output_bytes().subrange(0, a.output_bytes().len() as int) =~= a.output_bytes());
    }
    assert(a.outbox_bytes().is_prefix_of(c.outbox_bytes())) by {
        assert(c.outbox_bytes().subrange(0, a.outbox_bytes().len() as int) =~= a.outbox_bytes());
    }
    assert forall|k: usize| #[trigger]
        is_resolved(a.cache_view(), k) implies c.cache_view()[k] == a.cache_view()[k] by {
        assert(b.cache_view()[k] == a.cache_view()[k]);
        assert(a.cache_view().contains_key(k));
        assert(b.cache_view().contains_key(k));
        assert(is_resolved(b.cache_view(), k));
    }
    assert forall|i: int|
        a.attr_requests().len() <= i < c.attr_requests().len() implies !a.cache_view().contains_key(
        #[trigger] c.attr_requests()[i],
    ) by {
        if i < b.attr_requests().len() {
            assert(c.attr_requests()[i] == b.attr_requests()[i]);
            assert(!a.cache_view().contains_key(b.attr_requests()[i]));
        } else {
            assert(!b.cache_view().contains_key(c.attr_requests()[i]));
            if a.cache_view().contains_key(c.attr_requests()[i]) {
                assert(b.cache_view().contains_key(c.attr_requests()[i]));
            }
        }
    }
}

impl Nvim {
    /// Dispatch one decoded engine frame.
    ///
    /// A notification is ignored. A response retires the continuation
    /// registered under its id — a response whose id matches no
    /// pending continuation is a fatal protocol violation — and runs
    /// the retired step: advancing a line to its syntax-id query,
    /// recording the ids and fetching unknown attributes, or
    /// resolving an attribute and flushing newly completed lines in
    /// strict order. An engine-reported error still retires its
    /// continuation, then surfaces. Steps of an abandoned session are
    /// retired without effect, except attribute resolutions, which
    /// feed the session-spanning cache.
    #[verifier::rlimit(100)]
    pub fn process_event(&mut self, frame: RpcValue) -> (r: NvimResult<()>)
        requires
            old(self).wf(),
            old(self).flushed(),
        ensures
            final(self).wf(),
            final(self).flushed(),
            evolves(old(self), final(self)),
            !frame_wf(&frame) ==> (r matches Err(NvimError::DecodeError)) && same_pipeline_state(
                old(self),
                final(self),
            ) && final(self).pending_ids() == old(self).pending_ids(),
            frame_wf(&frame) && uint_of(arr_of(frame)[0]) != 1 ==> r.is_ok()
                && same_pipeline_state(old(self), final(self)) && final(self).pending_ids() == old(self).pending_ids(),
            frame_wf(&frame) && uint_of(arr_of(frame)[0]) == 1 && !old(self).pending_ids().contains(
                uint_of(arr_of(frame)[1]) as MsgId,
            ) ==> (r matches Err(NvimError::ProtocolError)) && same_pipeline_state(
                old(self),
                final(self),
            ),
            frame_wf(&frame) && uint_of(arr_of(frame)[0]) == 1 && old(self).pending_ids().contains(
                uint_of(arr_of(frame)[1]) as MsgId,
            ) ==> !final(self).pending_ids().contains(uint_of(arr_of(frame)[1]) as MsgId),
            frame_wf(&frame) && uint_of(arr_of(frame)[0]) == 1 && !is_nil(arr_of(frame)[2]) && old(self).pending_ids().contains(uint_of(arr_of(frame)[1]) as MsgId) ==> (match r {
                Err(NvimError::RpcError(m)) => m@ == str_of(arr_of(arr_of(frame)[2])[1]),
                _ => false,
            }) && same_pipeline_state(old(self), final(self)),
            frame_wf(&frame) && uint_of(arr_of(frame)[0]) == 1 && is_nil(arr_of(frame)[2]) && old(self).pending_ids().contains(uint_of(arr_of(frame)[1]) as MsgId) ==> ({
                let rid = uint_of(arr_of(frame)[1]) as MsgId;
                let payload = arr_of(frame)[3];
                let c = old(self).pending_view()[rid];
                &&& (forall|x: MsgId|
                    x != rid && #[trigger] old(self).pending_view().dom().contains(x) ==> final(self).pending_view().dom().contains(x) && final(self).pending_view()[x] == old(self).pending_view()[x])
                &&& (c matches ContView::Forget ==> r.is_ok() && same_pipeline_state(
                    old(self),
                    final(self),
                ) && final(self).pending_view() == old(self).pending_view().remove(rid))
                &&& ((c matches ContView::AddLine(g, ln, b) && g == old(self).session_id()
                    && r.is_ok()) ==> {
                    let c2 = ContView::GetSynId(
                        old(self).session_id(),
                        c->AddLine_1,
                        c->AddLine_2,
                    );
                    &&& final(self).last_msg_id() == old(self).last_msg_id() + 1
                    &&& final(self).outbox_bytes() == old(self).outbox_bytes() + req_get_synid(
                        final(self).last_msg_id(),
                        c->AddLine_1 as nat,
                        c->AddLine_2.len(),
                    )
                    &&& final(self).pending_view() == old(self).pending_view().remove(rid).insert(
                        final(self).last_msg_id(),
                        c2,
                    )
                    &&& same_pipeline_state(old(self), final(self))
                })
                &&& ((c matches ContView::GetSynId(g, ln, b) && g == old(self).session_id()
                    && r.is_ok()) ==> {
                    let synids = spec_synids(c->GetSynId_2, arr_of(payload));
                    let pend = Set::new(
                        |k: usize|
                            synids.contains(k) && entry_pending(final(self).cache_view()[k]),
                    );
                    let q1 = place(
                        old(self).buffer_view(),
                        c->GetSynId_1 - old(self).next_lineno(),
                        LineView {
                            lineno: c->GetSynId_1,
                            line: c->GetSynId_2,
                            synids: synids,
                            pending: pend,
                        },
                    );
                    &&& payload matches RpcValue::Arr(_)
                    &&& synids_ok(c->GetSynId_2, arr_of(payload))
                    &&& (forall|k: usize|
                        #[trigger] final(self).cache_view().contains_key(k) <==> old(self).cache_view().contains_key(k) || synids.contains(k))
                    &&& (forall|k: usize| #[trigger]
                        old(self).cache_view().contains_key(k) ==> final(self).cache_view()[k]
                            == old(self).cache_view()[k])
                    &&& (forall|k: usize|
                        #[trigger] final(self).attr_requests().contains(k) <==> old(self).attr_requests().contains(k) || (synids.contains(k) && !old(self).cache_view().contains_key(k)))
                    &&& final(self).next_lineno() == old(self).next_lineno() + flush_len_v(q1)
                    &&& final(self).buffer_view() == q1.subrange(flush_len_v(q1), q1.len() as int)
                    &&& final(self).output_bytes() == old(self).output_bytes() + flush_bytes_v(
                        q1,
                        flush_len_v(q1),
                        final(self).cache_view(),
                        old(self).linenr_view(),
                        crate::synattr::spec_default_attr(),
                    )
                })
                &&& (c matches ContView::GetSynAttr(g, s2) ==> {
                    &&& (r.is_ok() <==> attr_payload_ok(payload) && attr_of_payload(
                        payload,
                        Some(old(self).normal_view()),
                    ).is_ok())
                    &&& (r.is_ok() ==> {
                        let qs = strike(old(self).buffer_view(), c->GetSynAttr_1);
                        &&& is_resolved(final(self).cache_view(), c->GetSynAttr_1)
                        &&& (attr_of_payload(payload, Some(old(self).normal_view())) matches Ok(a)
                            && resolved_attr(final(self).cache_view(), c->GetSynAttr_1) == a)
                        &&& final(self).cache_view().dom() == old(self).cache_view().dom()
                        &&& (forall|k: usize|
                            k != c->GetSynAttr_1 && #[trigger] old(self).cache_view().contains_key(k) ==> final(self).cache_view()[k] == old(self).cache_view()[k])
                        &&& final(self).next_lineno() == old(self).next_lineno() + flush_len_v(qs)
                        &&& final(self).buffer_view() == qs.subrange(
                            flush_len_v(qs),
                            old(self).buffer_view().len() as int,
                        )
                        &&& final(self).output_bytes() == old(self).output_bytes()
                            + flush_bytes_v(
                            qs,
                            flush_len_v(qs),
                            final(self).cache_view(),
                            old(self).linenr_view(),
                            crate::synattr::spec_default_attr(),
                        )
                        &&& final(self).pending_view() == old(self).pending_view().remove(rid)
                    })
                })
            }),
    {
        let f = match parse_frame(frame) {
            Ok(f) => f,
            Err(e) => {
                proof {
                    lemma_evolves_refl(self);
                }
                return Err(e);
            },
        };
        match f {
            Frame::Notification => {
                proof {
                    lemma_evolves_refl(self);
                }
                Ok(())
            },
            Frame::ErrorResponse(id, msg) => {
                match self.callbacks.remove(&id) {
                    Some(_) => {
                        proof {
                            assert(self.callbacks@ =~= old(self).callbacks@.remove(id));
                            assert forall|x: MsgId| #[trigger]
                                self.callbacks@.dom().contains(x) implies x
                                <= self.writer.last_id() && self.cont_wf(self.callbacks@[x]) by {
                                assert(old(self).callbacks@.dom().contains(x));
                                assert(old(self).cont_wf(old(self).callbacks@[x]));
                                assert(self.callbacks@[x] == old(self).callbacks@[x]);
                            }
                            assert(self.wf());
                            lemma_evolves_refl(self);
                        }
                        Err(NvimError::RpcError(msg))
                    },
                    None => {
                        proof {
                            lemma_evolves_refl(self);
                        }
                        Err(NvimError::ProtocolError)
                    },
                }
            },
            Frame::Response(id, payload) => {
                let cont = match self.callbacks.remove(&id) {
                    Some(c) => c,
                    None => {
                        proof {
                            lemma_evolves_refl(self);
                        }
                        return Err(NvimError::ProtocolError);
                    },
                };
                let ghost cont_v = cont;
                proof {
                    assert(old(self).callbacks@.dom().contains(id));
                    assert(old(self).cont_wf(cont_v));
                    assert(cont_v == old(self).callbacks@[id]);
                    assert(self.callbacks@ =~= old(self).callbacks@.remove(id));
                    assert(old(self).pending_view()[id] == cont_to_view(cont_v));
                    assert(self.pending_view() =~= old(self).pending_view().remove(id));
                    assert forall|x: MsgId| #[trigger]
                        self.callbacks@.dom().contains(x) implies x <= self.writer.last_id()
                        && self.cont_wf(self.callbacks@[x]) by {
                        assert(old(self).callbacks@.dom().contains(x));
                        assert(old(self).cont_wf(old(self).callbacks@[x]));
                        assert(self.callbacks@[x] == old(self).callbacks@[x]);
                    }
                    assert(self.wf());
                }
                let ghost mid = *self;
                let res: NvimResult<()> = match cont {
                    Continuation::Forget => {
                        proof {
                            lemma_evolves_refl(self);
                            assert forall|x: MsgId|
                                x != id && #[trigger] old(self).pending_view().dom().contains(
                                x,
                            ) implies self.pending_view().dom().contains(x)
                                && self.pending_view()[x] == old(self).pending_view()[x] by {
                                assert(mid.pending_view().dom().contains(x));
                                assert(mid.pending_view()[x] == old(self).pending_view()[x]);
                                assert(mid.pending_view().dom() =~= mid.callbacks@.dom());
                                assert(self.pending_view().dom() =~= self.callbacks@.dom());
                            }
                        }
                        Ok(())
                    },
                    Continuation::GetOption => {
                        let rr = self.handle_option(payload);
                        proof {
                            lemma_evolves_refl(self);
                            assert forall|x: MsgId|
                                x != id && #[trigger] old(self).pending_view().dom().contains(
                                x,
                            ) implies self.pending_view().dom().contains(x)
                                && self.pending_view()[x] == old(self).pending_view()[x] by {
                                assert(mid.pending_view().dom().contains(x));
                                assert(mid.pending_view()[x] == old(self).pending_view()[x]);
                                assert(mid.pending_view().dom() =~= mid.callbacks@.dom());
                                assert(self.pending_view().dom() =~= self.callbacks@.dom());
                            }
                        }
                        rr
                    },
                    Continuation::GetNormal => {
                        proof {
                            assert(!mid.got_normal);
                            assert forall|x: MsgId| #[trigger]
                                mid.callbacks@.dom().contains(x) implies !(mid.callbacks@[x]
                                matches Continuation::GetNormal) by {
                                assert(old(self).callbacks@.dom().contains(x));
                                assert(x != id);
                                assert(old(self).callbacks@[x] == mid.callbacks@[x]);
                            }
                        }
                        let rr = self.handle_normal(payload);
                        proof {
                            assert forall|x: MsgId|
                                x != id && #[trigger] old(self).pending_view().dom().contains(
                                x,
                            ) implies self.pending_view().dom().contains(x)
                                && self.pending_view()[x] == old(self).pending_view()[x] by {
                                assert(mid.pending_view().dom().contains(x));
                                assert(mid.pending_view()[x] == old(self).pending_view()[x]);
                                assert(mid.pending_view().dom() =~= mid.callbacks@.dom());
                                assert(self.pending_view().dom() =~= self.callbacks@.dom());
                                assert(mid.callbacks@.dom().contains(x));
                                assert(self.callbacks@.dom().contains(x) && self.callbacks@[x]
                                    == mid.callbacks@[x]);
                            }
                        }
                        rr
                    },
                    Continuation::GetLineNr => {
                        let rr = self.handle_linenr(payload);
                        proof {
                            lemma_evolves_refl(self);
                            assert forall|x: MsgId|
                                x != id && #[trigger] old(self).pending_view().dom().contains(
                                x,
                            ) implies self.pending_view().dom().contains(x)
                                && self.pending_view()[x] == old(self).pending_view()[x] by {
                                assert(mid.pending_view().dom().contains(x));
                                assert(mid.pending_view()[x] == old(self).pending_view()[x]);
                                assert(mid.pending_view().dom() =~= mid.callbacks@.dom());
                                assert(self.pending_view().dom() =~= self.callbacks@.dom());
                            }
                        }
                        rr
                    },
                    Continuation::Run(g, cb) => {
                        let same_session = g == self.session;
                        match cb {
                            Callback::AddLine(ln, line) => {
                                if same_session {
                                    proof {
                                        assert(cont_line_no(cont_v, mid.session) == Some(ln));
                                        assert forall|x: MsgId| #[trigger]
                                            mid.callbacks@.dom().contains(x) implies cont_line_no(
                                            mid.callbacks@[x],
                                            mid.session,
                                        ) != Some(ln) by {
                                            assert(old(self).callbacks@.dom().contains(x));
                                            assert(x != id);
                                            assert(old(self).callbacks@[x] == mid.callbacks@[x]);
                                        }
                                    }
                                    let rr = self.handle_add_line(ln, line);
                                    proof {
                                    assert forall|x: MsgId|
                                        x != id && #[trigger] old(self).pending_view().dom().contains(
                                        x,
                                    ) implies self.pending_view().dom().contains(x)
                                        && self.pending_view()[x] == old(self).pending_view()[x] by {
                                        assert(mid.pending_view().dom().contains(x));
                                        assert(mid.pending_view()[x] == old(self).pending_view()[x]);
                                        assert(mid.pending_view().dom() =~= mid.callbacks@.dom());
                                        assert(self.pending_view().dom() =~= self.callbacks@.dom());
                                        assert(mid.callbacks@.dom().contains(x));
                                        assert(x <= mid.writer.last_id());
                                    }
                                    }
                                    rr
                                } else {
                                    proof {
                                        lemma_evolves_refl(self);
                                        assert forall|x: MsgId|
                                            x != id && #[trigger] old(self).pending_view().dom().contains(
                                            x,
                                        ) implies self.pending_view().dom().contains(x)
                                            && self.pending_view()[x] == old(self).pending_view()[x] by {
                                            assert(mid.pending_view().dom().contains(x));
                                            assert(mid.pending_view()[x] == old(self).pending_view()[x]);
                                            assert(mid.pending_view().dom() =~= mid.callbacks@.dom());
                                            assert(self.pending_view().dom() =~= self.callbacks@.dom());
                                        }
                                    }
                                    Ok(())
                                }
                            },
                            Callback::GetSynId(ln, line) => {
                                if same_session {
                                    proof {
                                        assert(cont_line_no(cont_v, mid.session) == Some(ln));
                                        assert forall|x: MsgId| #[trigger]
                                            mid.callbacks@.dom().contains(x) implies cont_line_no(
                                            mid.callbacks@[x],
                                            mid.session,
                                        ) != Some(ln) by {
                                            assert(old(self).callbacks@.dom().contains(x));
                                            assert(x != id);
                                            assert(old(self).callbacks@[x] == mid.callbacks@[x]);
                                        }
                                    }
                                    let ghost b_v = line@;
                                    let ghost payload_g = payload;
                                    let rr = self.handle_synids(ln, line, payload);
                                    proof {
                                        assert(mid.buffer_view() == old(self).buffer_view());
                                        assert(mid.cache_view() == old(self).cache_view());
                                        assert(mid.linenr_view() == old(self).linenr_view());
                                        let synids_g = spec_synids(b_v, arr_of(payload_g));
                                        let pend_g = Set::new(
                                            |k: usize|
                                                synids_g.contains(k) && entry_pending(
                                                    self.cache_view()[k],
                                                ),
                                        );
                                        lemma_flush_len_v_bounds(
                                            place(
                                                old(self).buffer_view(),
                                                ln - old(self).next_lineno(),
                                                LineView {
                                                    lineno: ln,
                                                    line: b_v,
                                                    synids: synids_g,
                                                    pending: pend_g,
                                                },
                                            ),
                                        );
                                        assert forall|x: MsgId|
                                            x != id && #[trigger] old(self).pending_view().dom().contains(
                                            x,
                                        ) implies self.pending_view().dom().contains(x)
                                            && self.pending_view()[x] == old(self).pending_view()[x] by {
                                            assert(mid.pending_view().dom().contains(x));
                                            assert(mid.pending_view()[x] == old(self).pending_view()[x]);
                                            assert(mid.pending_view().dom() =~= mid.callbacks@.dom());
                                            assert(self.pending_view().dom() =~= self.callbacks@.dom());
                                        }
                                    }
                                    rr
                                } else {
                                    proof {
                                        lemma_evolves_refl(self);
                                        assert forall|x: MsgId|
                                            x != id && #[trigger] old(self).pending_view().dom().contains(
                                            x,
                                        ) implies self.pending_view().dom().contains(x)
                                            && self.pending_view()[x] == old(self).pending_view()[x] by {
                                            assert(mid.pending_view().dom().contains(x));
                                            assert(mid.pending_view()[x] == old(self).pending_view()[x]);
                                            assert(mid.pending_view().dom() =~= mid.callbacks@.dom());
                                            assert(self.pending_view().dom() =~= self.callbacks@.dom());
                                        }
                                    }
                                    Ok(())
                                }
                            },
                            Callback::GetSynAttr(s2) => {
                                proof {
                                    assert(cont_attr_id(cont_v) == Some(s2));
                                    assert(mid.syn_attr_cache@.contains_key(s2) && entry_pending(
                                        mid.syn_attr_cache@[s2],
                                    ) && mid.got_normal);
                                    assert forall|x: MsgId| #[trigger]
                                        mid.callbacks@.dom().contains(x) implies cont_attr_id(
                                        mid.callbacks@[x],
                                    ) != Some(s2) by {
                                        assert(old(self).callbacks@.dom().contains(x));
                                        assert(x != id);
                                        assert(old(self).callbacks@[x] == mid.callbacks@[x]);
                                    }
                                }
                                let rr = self.handle_attr(s2, payload);
                                proof {
                                    assert(mid.buffer_view() == old(self).buffer_view());
                                    assert(mid.cache_view() == old(self).cache_view());
                                    assert(mid.normal_view() == old(self).normal_view());
                                    assert(mid.linenr_view() == old(self).linenr_view());
                                    lemma_flush_len_v_bounds(
                                        strike(old(self).buffer_view(), s2),
                                    );
                                    assert forall|x: MsgId|
                                        x != id && #[trigger] old(self).pending_view().dom().contains(
                                        x,
                                    ) implies self.pending_view().dom().contains(x)
                                        && self.pending_view()[x] == old(self).pending_view()[x] by {
                                        assert(mid.pending_view().dom().contains(x));
                                        assert(mid.pending_view()[x] == old(self).pending_view()[x]);
                                        assert(mid.pending_view().dom() =~= mid.callbacks@.dom());
                                        assert(self.pending_view().dom() =~= self.callbacks@.dom());
                                    }
                                }
                                rr
                            },
                        }
                    },
                };
                proof {
                    lemma_evolves_trans(old(self), &mid, self);
                    assert(!self.pending_ids().contains(id)) by {
                        if self.callbacks@.dom().contains(id) {
                            assert(mid.callbacks@.dom().contains(id) || id
                                > mid.writer.last_id());
                        }
                    }
                }
                res
            },
        }
    }
}

} // verus!
