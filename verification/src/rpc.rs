//! The wire transport: request serialization and response frame
//! parsing.
//!
//! Requests are MessagePack frames `[0, id, method, args]`, with ids
//! drawn from a monotonically increasing sequence that starts past a
//! reserved low range. Responses are `[1, id, error_or_nil, result]`;
//! notification frames are recognized and ignored. The byte-level
//! MessagePack primitives are supplied by the `rmp` crate behind
//! trusted wrappers whose contracts state the documented encodings.

use vstd::prelude::*;
use vstd::string::StringSliceAdditionalSpecFns;

use crate::nvim::{NvimError, NvimResult};

verus! {

pub type MsgId = u32;

/// A decoded MessagePack value, reduced to the shapes the pipeline
/// reads. Anything else (floats, maps, extension types, non-UTF-8
/// strings, negative integers) arrives as `Other` and is rejected
/// wherever a specific shape is required.
pub enum RpcValue {
    Nil,
    Bool(bool),
    Uint(u64),
    Str(String),
    Arr(Vec<RpcValue>),
    Other,
}

/// The two big-endian bytes of `v`.
pub open spec fn be16(v: u16) -> Seq<u8> {
    seq![(v >> 8) as u8, (v & 0xff) as u8]
}

/// The four big-endian bytes of `v`.
pub open spec fn be32(v: u32) -> Seq<u8> {
    seq![(v >> 24) as u8, ((v >> 16) & 0xff) as u8, ((v >> 8) & 0xff) as u8, (v & 0xff) as u8]
}

/// The eight big-endian bytes of `v`.
pub open spec fn be64(v: u64) -> Seq<u8> {
    seq![
        (v >> 56) as u8,
        ((v >> 48) & 0xff) as u8,
        ((v >> 40) & 0xff) as u8,
        ((v >> 32) & 0xff) as u8,
        ((v >> 24) & 0xff) as u8,
        ((v >> 16) & 0xff) as u8,
        ((v >> 8) & 0xff) as u8,
        (v & 0xff) as u8,
    ]
}

/// The minimal MessagePack encoding of the unsigned integer `v`.
pub open spec fn mp_uint(v: u64) -> Seq<u8> {
    if v < 128 {
        seq![v as u8]
    } else if v < 256 {
        seq![0xccu8, v as u8]
    } else if v < 65536 {
        seq![0xcdu8] + be16(v as u16)
    } else if v < 0x1_0000_0000 {
        seq![0xceu8] + be32(v as u32)
    } else {
        seq![0xcfu8] + be64(v)
    }
}

/// The MessagePack encoding of nil.
pub open spec fn mp_nil() -> Seq<u8> {
    seq![0xc0u8]
}

/// The MessagePack encoding of a boolean.
pub open spec fn mp_bool(b: bool) -> Seq<u8> {
    if b {
        seq![0xc3u8]
    } else {
        seq![0xc2u8]
    }
}

/// The minimal MessagePack header of an array of `len` elements.
pub open spec fn mp_arr_hdr(len: nat) -> Seq<u8> {
    if len < 16 {
        seq![(0x90 + len) as u8]
    } else if len < 65536 {
        seq![0xdcu8] + be16(len as u16)
    } else {
        seq![0xddu8] + be32(len as u32)
    }
}

/// The minimal MessagePack header of a map of `len` pairs.
pub open spec fn mp_map_hdr(len: nat) -> Seq<u8> {
    if len < 16 {
        seq![(0x80 + len) as u8]
    } else if len < 65536 {
        seq![0xdeu8] + be16(len as u16)
    } else {
        seq![0xdfu8] + be32(len as u32)
    }
}

/// The minimal MessagePack header of a string of `len` bytes.
pub open spec fn mp_str_hdr(len: nat) -> Seq<u8> {
    if len < 32 {
        seq![(0xa0 + len) as u8]
    } else if len < 256 {
        seq![0xd9u8, len as u8]
    } else if len < 65536 {
        seq![0xdau8] + be16(len as u16)
    } else {
        seq![0xdbu8] + be32(len as u32)
    }
}

/// The MessagePack encoding of a string whose UTF-8 bytes are `b`.
pub open spec fn mp_str_bytes(b: Seq<u8>) -> Seq<u8> {
    mp_str_hdr(b.len()) + b
}

/// Relies on `rmp::encode::write_uint`: appends the minimal
/// MessagePack encoding of `v` (positive fixint, `0xcc`, `0xcd`,
/// `0xce` or `0xcf` form by magnitude). Writing into a `Vec` cannot
/// fail.
#[verifier::external_body]
fn mp_write_uint(buf: &mut Vec<u8>, v: u64)
    ensures
        final(buf)@ == old(buf)@ + mp_uint(v),
{
    let _ = rmp::encode::write_uint(buf, v);
}

/// Relies on `rmp::encode::write_nil`: appends the single byte `0xc0`.
/// Writing into a `Vec` cannot fail.
#[verifier::external_body]
fn mp_write_nil(buf: &mut Vec<u8>)
    ensures
        final(buf)@ == old(buf)@ + mp_nil(),
{
    let _ = rmp::encode::write_nil(buf);
}

/// Relies on `rmp::encode::write_bool`: appends `0xc3` for true,
/// `0xc2` for false. Writing into a `Vec` cannot fail.
#[verifier::external_body]
fn mp_write_bool(buf: &mut Vec<u8>, b: bool)
    ensures
        final(buf)@ == old(buf)@ + mp_bool(b),
{
    let _ = rmp::encode::write_bool(buf, b);
}

/// Relies on `rmp::encode::write_array_len`: appends the minimal
/// MessagePack array header (fixarray, `0xdc` or `0xdd` form by
/// magnitude). Writing into a `Vec` cannot fail.
#[verifier::external_body]
fn mp_write_array_len(buf: &mut Vec<u8>, len: u32)
    ensures
        final(buf)@ == old(buf)@ + mp_arr_hdr(len as nat),
{
    let _ = rmp::encode::write_array_len(buf, len);
}

/// Relies on `rmp::encode::write_map_len`: appends the minimal
/// MessagePack map header (fixmap, `0xde` or `0xdf` form by
/// magnitude). Writing into a `Vec` cannot fail.
#[verifier::external_body]
fn mp_write_map_len(buf: &mut Vec<u8>, len: u32)
    ensures
        final(buf)@ == old(buf)@ + mp_map_hdr(len as nat),
{
    let _ = rmp::encode::write_map_len(buf, len);
}

/// Relies on `rmp::encode::write_str`: appends the minimal MessagePack
/// string header for the UTF-8 length of `s`, then the UTF-8 bytes of
/// `s`. The length is passed to `rmp` as `u32`, so strings of four
/// gibibytes or more are excluded. Writing into a `Vec` cannot fail.
#[verifier::external_body]
fn mp_write_str(buf: &mut Vec<u8>, s: &str)
    requires
        s.spec_bytes().len() < 0x1_0000_0000,
    ensures
        final(buf)@ == old(buf)@ + mp_str_bytes(s.spec_bytes()),
{
    let _ = rmp::encode::write_str(buf, s);
}

/// Relies on `rmp::encode::write_str_len`: appends the minimal
/// MessagePack string header alone, for a string of `len` bytes that
/// the caller appends itself. Writing into a `Vec` cannot fail.
#[verifier::external_body]
fn mp_write_str_len(buf: &mut Vec<u8>, len: u32)
    ensures
        final(buf)@ == old(buf)@ + mp_str_hdr(len as nat),
{
    let _ = rmp::encode::write_str_len(buf, len);
}

/// An ASCII character sequence encodes to UTF-8 byte for byte, so
/// its byte length equals its character length.
pub proof fn lemma_ascii_bytes_len(s: Seq<char>)
    requires
        vstd::utf8::is_ascii_chars(s),
    ensures
        vstd::utf8::encode_utf8(s).len() == s.len(),
{
    vstd::utf8::is_ascii_chars_encode_utf8(s);
}

/// The serialized prefix of one request frame: a four-element array
/// holding the request kind `0`, the id, the method name, and the
/// header of the argument array whose `nargs` elements follow.
pub open spec fn request_prefix(id: MsgId, method_bytes: Seq<u8>, nargs: nat) -> Seq<u8> {
    mp_arr_hdr(4) + mp_uint(0) + mp_uint(id as u64) + mp_str_bytes(method_bytes) + mp_arr_hdr(
        nargs,
    )
}

/// The request serializer. It owns the monotonic id sequence and a
/// buffer of serialized frames awaiting transmission.
pub struct Writer {
    msg_id: MsgId,
    buf: Vec<u8>,
}

impl Writer {
    /// The id of the most recently serialized request.
    pub closed spec fn last_id(&self) -> MsgId {
        self.msg_id
    }

    /// The serialized bytes awaiting transmission.
    pub closed spec fn pending(&self) -> Seq<u8> {
        self.buf@
    }

    /// A fresh serializer. Ids start past 100, a reserved low range
    /// that cannot collide with handshake-time traffic.
    pub fn new() -> (r: Self)
        ensures
            r.last_id() == 100,
            r.pending() == Seq::<u8>::empty(),
    {
        Writer { msg_id: 100, buf: Vec::new() }
    }

    /// Serialize the frame prefix of one request: kind, fresh id,
    /// method name and argument-array header. The caller appends the
    /// `nargs` argument values. Fails only when the id space is
    /// exhausted or the method name is outlandishly long; nothing is
    /// written then.
    pub fn write(&mut self, method: &str, nargs: u32) -> (r: NvimResult<MsgId>)
        ensures
            match r {
                Ok(id) => {
                    &&& id == old(self).last_id() + 1
                    &&& final(self).last_id() == id
                    &&& final(self).pending() == old(self).pending() + request_prefix(
                        id,
                        method.spec_bytes(),
                        nargs as nat,
                    )
                },
                Err(e) => {
                    &&& e matches NvimError::EncodeError
                    &&& *final(self) == *old(self)
                    &&& (old(self).last_id() == MsgId::MAX || method.spec_bytes().len()
                        >= 0xFFFF_FFFF)
                },
            },
    {
        if self.msg_id == MsgId::MAX || method.as_bytes().len() >= 0xFFFF_FFFF {
            return Err(NvimError::EncodeError);
        }
        self.msg_id = self.msg_id + 1;
        let id = self.msg_id;
        mp_write_array_len(&mut self.buf, 4);
        mp_write_uint(&mut self.buf, 0);
        mp_write_uint(&mut self.buf, id as u64);
        mp_write_str(&mut self.buf, method);
        mp_write_array_len(&mut self.buf, nargs);
        proof {
            assert(self.buf@ =~= old(self).buf@ + request_prefix(
                id,
                method.spec_bytes(),
                nargs as nat,
            ));
        }
        Ok(id)
    }

    /// Append one unsigned-integer argument value.
    pub fn arg_uint(&mut self, v: u64)
        ensures
            final(self).last_id() == old(self).last_id(),
            final(self).pending() == old(self).pending() + mp_uint(v),
    {
        mp_write_uint(&mut self.buf, v);
    }

    /// Append one nil argument value.
    pub fn arg_nil(&mut self)
        ensures
            final(self).last_id() == old(self).last_id(),
            final(self).pending() == old(self).pending() + mp_nil(),
    {
        mp_write_nil(&mut self.buf);
    }

    /// Append one boolean argument value.
    pub fn arg_bool(&mut self, b: bool)
        ensures
            final(self).last_id() == old(self).last_id(),
            final(self).pending() == old(self).pending() + mp_bool(b),
    {
        mp_write_bool(&mut self.buf, b);
    }

    /// Append the header of a nested array of `len` elements.
    pub fn arg_array_hdr(&mut self, len: u32)
        ensures
            final(self).last_id() == old(self).last_id(),
            final(self).pending() == old(self).pending() + mp_arr_hdr(len as nat),
    {
        mp_write_array_len(&mut self.buf, len);
    }

    /// Append the header of a nested map of `len` pairs.
    pub fn arg_map_hdr(&mut self, len: u32)
        ensures
            final(self).last_id() == old(self).last_id(),
            final(self).pending() == old(self).pending() + mp_map_hdr(len as nat),
    {
        mp_write_map_len(&mut self.buf, len);
    }

    /// Append one string argument value.
    pub fn arg_str(&mut self, s: &str) -> (r: NvimResult<()>)
        ensures
            match r {
                Ok(()) => s.spec_bytes().len() < 0xFFFF_FFFF && final(self).last_id() == old(
                    self,
                ).last_id() && final(self).pending() == old(self).pending() + mp_str_bytes(
                    s.spec_bytes(),
                ),
                Err(e) => e matches NvimError::EncodeError && *final(self) == *old(self)
                    && s.spec_bytes().len() >= 0xFFFF_FFFF,
            },
    {
        if s.as_bytes().len() >= 0xFFFF_FFFF {
            return Err(NvimError::EncodeError);
        }
        mp_write_str(&mut self.buf, s);
        Ok(())
    }

    /// Append one string argument whose payload is the raw bytes `b`.
    /// The engine reads lines as strings; their bytes pass through
    /// unreinterpreted.
    pub fn arg_str_raw(&mut self, b: &Vec<u8>) -> (r: NvimResult<()>)
        ensures
            match r {
                Ok(()) => b@.len() < 0xFFFF_FFFF && final(self).last_id() == old(self).last_id()
                    && final(self).pending() == old(self).pending() + mp_str_bytes(b@),
                Err(e) => e matches NvimError::EncodeError && *final(self) == *old(self) && b@.len()
                    >= 0xFFFF_FFFF,
            },
    {
        if b.len() >= 0xFFFF_FFFF {
            return Err(NvimError::EncodeError);
        }
        mp_write_str_len(&mut self.buf, b.len() as u32);
        self.buf.extend_from_slice(b.as_slice());
        proof {
            assert(self.buf@ =~= old(self).buf@ + mp_str_bytes(b@));
        }
        Ok(())
    }

    /// The current length of the buffered frames, for rolling a
    /// partially serialized request back.
    pub fn mark(&self) -> (r: usize)
        ensures
            r == self.pending().len(),
    {
        self.buf.len()
    }

    /// Drop everything serialized after `mark`, restoring the buffer
    /// to a frame boundary after a failed multi-part request.
    pub fn rollback(&mut self, mark: usize)
        requires
            mark <= old(self).pending().len(),
        ensures
            final(self).pending() == old(self).pending().subrange(0, mark as int),
            final(self).last_id() == old(self).last_id(),
    {
        self.buf.truncate(mark);
    }

    /// Hand the buffered frames over for transmission, leaving the
    /// buffer empty.
    pub fn take(&mut self) -> (r: Vec<u8>)
        ensures
            r@ == old(self).pending(),
            final(self).pending() == Seq::<u8>::empty(),
            final(self).last_id() == old(self).last_id(),
    {
        let mut out: Vec<u8> = Vec::new();
        core::mem::swap(&mut out, &mut self.buf);
        out
    }
}

/// One decoded engine frame, classified.
pub enum Frame {
    /// A successful response: the request id and its result payload.
    Response(MsgId, RpcValue),
    /// An engine-reported error for one request: the id is still
    /// consumed, so the waiting continuation can be retired.
    ErrorResponse(MsgId, String),
    /// A notification; the pipeline ignores these by design.
    Notification,
}

/// Whether `v` is the nil value.
pub open spec fn is_nil(v: RpcValue) -> bool {
    match v {
        RpcValue::Nil => true,
        _ => false,
    }
}

/// Whether `v` is an unsigned integer.
pub open spec fn is_uint(v: RpcValue) -> bool {
    match v {
        RpcValue::Uint(_) => true,
        _ => false,
    }
}

/// The integer held by `v`, when it is one.
pub open spec fn uint_of(v: RpcValue) -> u64 {
    match v {
        RpcValue::Uint(x) => x,
        _ => arbitrary(),
    }
}

/// Whether `v` is a string.
pub open spec fn is_str(v: RpcValue) -> bool {
    match v {
        RpcValue::Str(_) => true,
        _ => false,
    }
}

/// The characters of the string held by `v`, when it is one.
pub open spec fn str_of(v: RpcValue) -> Seq<char> {
    match v {
        RpcValue::Str(s) => s@,
        _ => arbitrary(),
    }
}

/// Whether `v` is an array.
pub open spec fn is_arr(v: RpcValue) -> bool {
    match v {
        RpcValue::Arr(_) => true,
        _ => false,
    }
}

/// The elements of the array held by `v`, when it is one.
pub open spec fn arr_of(v: RpcValue) -> Seq<RpcValue> {
    match v {
        RpcValue::Arr(items) => items@,
        _ => arbitrary(),
    }
}

/// Whether the error field of a response frame has the expected shape:
/// an array whose second element is the message string.
pub open spec fn err_field_wf(e: RpcValue) -> bool {
    is_arr(e) && arr_of(e).len() >= 2 && is_str(arr_of(e)[1])
}

/// Whether a response frame (kind 1) has the expected shape: exactly
/// four elements, an id that fits the client's id type, and an error
/// field that is nil or well-formed.
pub open spec fn response_wf(items: Seq<RpcValue>) -> bool {
    items.len() == 4 && is_uint(items[1]) && uint_of(items[1]) <= MsgId::MAX && (is_nil(items[2])
        || err_field_wf(items[2]))
}

/// Whether a frame value is well-formed: an array whose first element
/// is an integer kind, and, for responses, whose remainder has the
/// response shape. Anything else is a malformed frame and terminates
/// the session with a decode error.
pub open spec fn frame_wf(v: &RpcValue) -> bool {
    is_arr(*v) && arr_of(*v).len() > 0 && is_uint(arr_of(*v)[0]) && (uint_of(arr_of(*v)[0]) == 1
        ==> response_wf(arr_of(*v)))
}

/// Classify one decoded frame value.
///
/// A malformed frame — wrong shape, wrong arity, an id beyond the id
/// type — is a decode error, not something to skip.
pub fn parse_frame(v: RpcValue) -> (r: NvimResult<Frame>)
    ensures
        r.is_ok() <==> frame_wf(&v),
        match r {
            Ok(f) => match f {
                Frame::Notification => uint_of(arr_of(v)[0]) != 1,
                Frame::Response(id, payload) => uint_of(arr_of(v)[0]) == 1 && arr_of(v)[1]
                    == RpcValue::Uint(id as u64) && is_nil(arr_of(v)[2]) && payload == arr_of(v)[3],
                Frame::ErrorResponse(id, msg) => uint_of(arr_of(v)[0]) == 1 && arr_of(v)[1]
                    == RpcValue::Uint(id as u64) && err_field_wf(arr_of(v)[2]) && msg@ == str_of(
                    arr_of(arr_of(v)[2])[1],
                ),
            },
            Err(e) => e matches NvimError::DecodeError,
        },
{
    let mut items = match v {
        RpcValue::Arr(items) => items,
        _ => {
            return Err(NvimError::DecodeError);
        },
    };
    if items.len() == 0 {
        return Err(NvimError::DecodeError);
    }
    let kind: u64 = match &items[0] {
        RpcValue::Uint(k) => *k,
        _ => {
            return Err(NvimError::DecodeError);
        },
    };
    if kind != 1 {
        return Ok(Frame::Notification);
    }
    if items.len() != 4 {
        return Err(NvimError::DecodeError);
    }
    let payload = items.pop().unwrap();
    let err_field = items.pop().unwrap();
    let id_value = items.pop().unwrap();
    let id64: u64 = match id_value {
        RpcValue::Uint(x) => x,
        _ => {
            return Err(NvimError::DecodeError);
        },
    };
    if id64 > MsgId::MAX as u64 {
        return Err(NvimError::DecodeError);
    }
    let id: MsgId = id64 as MsgId;
    match err_field {
        RpcValue::Nil => Ok(Frame::Response(id, payload)),
        RpcValue::Arr(mut es) => {
            if es.len() < 2 {
                return Err(NvimError::DecodeError);
            }
            match es.remove(1) {
                RpcValue::Str(m) => Ok(Frame::ErrorResponse(id, m)),
                _ => Err(NvimError::DecodeError),
            }
        },
        _ => Err(NvimError::DecodeError),
    }
}

} // verus!
