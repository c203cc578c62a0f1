//! Byte-level building blocks shared by the wire formats: the error
//! vocabulary, fixed-width little-endian fields and validated text.

use vstd::prelude::*;
use vstd::utf8::*;
use crate::math::{Scalar, Vec3};

verus! {

/// Why a byte string could not be read as a message.
#[derive(Copy, Clone, Eq, PartialEq, Debug, Structural)]
pub enum WireError {
    /// The input holds no byte at all.
    EmptyPacket,
    /// The input ends before the message does.
    UnexpectedEof,
    /// A text field is not valid UTF-8.
    InvalidUtf8,
    /// The leading tag names no message.
    UnknownMessageType,
    /// A variable-length integer is too long or too large for its type.
    BadVarint,
    /// A boolean byte is neither 0 nor 1.
    BadBool,
}

impl WireError {
    /// A short description of the error.
    pub open spec fn message_spec(self) -> Seq<char> {
        match self {
            WireError::EmptyPacket => "empty packet"@,
            WireError::UnexpectedEof => "unexpected end of input"@,
            WireError::InvalidUtf8 => "invalid utf8"@,
            WireError::UnknownMessageType => "unknown message type"@,
            WireError::BadVarint => "bad variable-length integer"@,
            WireError::BadBool => "bad boolean"@,
        }
    }

    /// A short description of the error.
    pub fn message(&self) -> (s: &'static str)
        ensures
            s@ == self.message_spec(),
    {
        match self {
            WireError::EmptyPacket => "empty packet",
            WireError::UnexpectedEof => "unexpected end of input",
            WireError::InvalidUtf8 => "invalid utf8",
            WireError::UnknownMessageType => "unknown message type",
            WireError::BadVarint => "bad variable-length integer",
            WireError::BadBool => "bad boolean",
        }
    }
}

/// The four bytes of `x`, least significant first.
pub open spec fn u32_le(x: u32) -> Seq<u8> {
    seq![
        (x % 256) as u8,
        ((x / 256) % 256) as u8,
        ((x / 65536) % 256) as u8,
        (x / 16777216) as u8,
    ]
}

/// The number whose little-endian bytes stand at `b[at .. at + 4]`.
pub open spec fn le_u32_at(b: Seq<u8>, at: int) -> u32
    recommends
        0 <= at,
        at + 4 <= b.len(),
{
    (b[at] + 256 * b[at + 1] + 65536 * b[at + 2] + 16777216 * b[at + 3]) as u32
}

/// The twelve bytes of a 3-vector: x, y, z, each little-endian.
pub open spec fn vec3_le(v: Vec3) -> Seq<u8> {
    u32_le(v.x.0) + u32_le(v.y.0) + u32_le(v.z.0)
}

/// The 3-vector whose bytes stand at `b[at .. at + 12]`.
pub open spec fn le_vec3_at(b: Seq<u8>, at: int) -> Vec3 {
    Vec3 {
        x: Scalar(le_u32_at(b, at)),
        y: Scalar(le_u32_at(b, at + 4)),
        z: Scalar(le_u32_at(b, at + 8)),
    }
}

/// A number appended after `p` is read back at `p.len()`, whatever follows.
pub proof fn lemma_read_appended(p: Seq<u8>, x: u32, q: Seq<u8>)
    ensures
        le_u32_at(p + u32_le(x) + q, p.len() as int) == x,
{
    let b = p + u32_le(x) + q;
    let n = p.len() as int;
    assert(b[n] == u32_le(x)[0]);
    assert(b[n + 1] == u32_le(x)[1]);
    assert(b[n + 2] == u32_le(x)[2]);
    assert(b[n + 3] == u32_le(x)[3]);
}

/// A 3-vector appended after `p` is read back at `p.len()`, whatever follows.
pub proof fn lemma_read_appended_vec3(p: Seq<u8>, v: Vec3, q: Seq<u8>)
    ensures
        le_vec3_at(p + vec3_le(v) + q, p.len() as int) == v,
{
    let b = p + vec3_le(v) + q;
    let fx = u32_le(v.x.0);
    let fy = u32_le(v.y.0);
    let fz = u32_le(v.z.0);
    assert(b =~= p + fx + (fy + fz + q));
    lemma_read_appended(p, v.x.0, fy + fz + q);
    assert(b =~= (p + fx) + fy + (fz + q));
    lemma_read_appended(p + fx, v.y.0, fz + q);
    assert(b =~= (p + fx + fy) + fz + q);
    lemma_read_appended(p + fx + fy, v.z.0, q);
}

/// Appends the bytes of `src` to `out`.
pub fn append_bytes(out: &mut Vec<u8>, src: &[u8])
    ensures
        final(out)@ == old(out)@ + src@,
{
    let mut i: usize = 0;
    while i < src.len()
        invariant
            i <= src@.len(),
            out@ == old(out)@ + src@.subrange(0, i as int),
        decreases src@.len() - i,
    {
        out.push(src[i]);
        i += 1;
        assert(src@.subrange(0, i as int) == src@.subrange(0, i as int - 1).push(src@[i as int - 1]));
    }
    assert(src@.subrange(0, src@.len() as int) == src@);
}

/// Appends the little-endian bytes of `x` to `out`.
pub fn put_u32_le(out: &mut Vec<u8>, x: u32)
    ensures
        final(out)@ == old(out)@ + u32_le(x),
{
    out.push((x % 256) as u8);
    out.push(((x / 256) % 256) as u8);
    out.push(((x / 65536) % 256) as u8);
    out.push((x / 16777216) as u8);
    assert(out@ == old(out)@ + u32_le(x));
}

/// Reads the little-endian number at `data[at .. at + 4]`.
pub fn get_u32_le(data: &[u8], at: usize) -> (x: u32)
    requires
        at + 4 <= data@.len(),
    ensures
        x == le_u32_at(data@, at as int),
{
    let b0: u32 = data[at] as u32;
    let b1: u32 = data[at + 1] as u32;
    let b2: u32 = data[at + 2] as u32;
    let b3: u32 = data[at + 3] as u32;
    b0 + 256 * b1 + 65536 * b2 + 16777216 * b3
}

/// Appends the twelve bytes of `v` to `out`.
pub fn put_vec3(out: &mut Vec<u8>, v: Vec3)
    ensures
        final(out)@ == old(out)@ + vec3_le(v),
{
    put_u32_le(out, v.x.0);
    put_u32_le(out, v.y.0);
    put_u32_le(out, v.z.0);
    assert(out@ =~= old(out)@ + vec3_le(v));
}

/// Reads the 3-vector at `data[at .. at + 12]`.
pub fn get_vec3(data: &[u8], at: usize) -> (v: Vec3)
    requires
        at + 12 <= data@.len(),
        at + 12 <= usize::MAX,
    ensures
        v == le_vec3_at(data@, at as int),
{
    Vec3 {
        x: Scalar(get_u32_le(data, at)),
        y: Scalar(get_u32_le(data, at + 4)),
        z: Scalar(get_u32_le(data, at + 8)),
    }
}

/// Copies `data[from .. to]` into a vector of its own.
pub fn copy_range(data: &[u8], from: usize, to: usize) -> (v: Vec<u8>)
    requires
        from <= to <= data@.len(),
    ensures
        v@ == data@.subrange(from as int, to as int),
{
    let mut v: Vec<u8> = Vec::new();
    let mut i: usize = from;
    while i < to
        invariant
            from <= i <= to,
            to <= data@.len(),
            v@ == data@.subrange(from as int, i as int),
        decreases to - i,
    {
        v.push(data[i]);
        i += 1;
        assert(data@.subrange(from as int, i as int) == data@.subrange(from as int, i as int - 1).push(
            data@[i as int - 1],
        ));
    }
    v
}

/// Turns bytes into text when they are valid UTF-8.
///
/// Trusted: calls `String::from_utf8` of the standard library, which
/// accepts exactly the valid UTF-8 byte strings and yields the text that
/// they encode.
#[verifier::external_body]
pub(crate) fn text_from_utf8(bytes: Vec<u8>) -> (r: Option<String>)
    ensures
        r is Some <==> valid_utf8(bytes@),
        r is Some ==> r->Some_0@ == decode_utf8(bytes@),
{
    match String::from_utf8(bytes) {
        Ok(s) => Some(s),
        Err(_) => None,
    }
}

} // verus!
