//! The compact encoding of the stream protocol and of stored chunks.
//!
//! Unsigned integers are written seven bits at a time, least significant
//! group first, with the high bit of a byte saying that another follows.
//! Signed integers are zigzag-folded into unsigned ones first. Single
//! precision numbers are four little-endian bytes, a flag is one byte,
//! text and sequences stand behind their length. Every reader takes its
//! value from the front of the input and hands back what follows it.

use vstd::prelude::*;
use vstd::utf8::*;
use crate::chunk::ChunkCoord;
use crate::math::Vec3;
use crate::voxel::{UVec3, Voxel, VoxelBuffer};
use crate::wire::{
    append_bytes, copy_range, get_vec3, le_vec3_at, lemma_read_appended_vec3, text_from_utf8,
    vec3_le, WireError,
};

verus! {

/// Most bytes that a 16-bit number takes.
pub const U16_BYTES: u32 = 3;

/// Largest last byte of a 16-bit number that takes three bytes.
pub const U16_LAST: u8 = 3;

/// Most bytes that a 32-bit number takes.
pub const U32_BYTES: u32 = 5;

/// Largest last byte of a 32-bit number that takes five bytes.
pub const U32_LAST: u8 = 15;

/// Most bytes that a length takes.
pub const LEN_BYTES: u32 = 10;

/// Largest last byte of a length that takes ten bytes.
pub const LEN_LAST: u8 = 1;

/// The bytes of the variable-length integer `v`.
pub open spec fn varint(v: nat) -> Seq<u8>
    decreases v,
{
    if v < 128 {
        seq![v as u8]
    } else {
        seq![(v % 128 + 128) as u8] + varint(v / 128)
    }
}

/// One more than the largest number that a variable-length integer of
/// at most `budget` bytes can hold when its last permitted byte may be
/// at most `last_max`.
pub open spec fn varint_bound(budget: nat, last_max: nat) -> nat
    decreases budget,
{
    if budget <= 1 {
        last_max + 1
    } else {
        128 * varint_bound((budget - 1) as nat, last_max)
    }
}

/// Reads a variable-length integer of at most `budget` bytes from the
/// front of `b`. The last permitted byte may be at most `last_max`; a
/// number that needs more bytes, or more bits in that byte, is refused.
/// Leading groups of zero bits are accepted.
pub open spec fn take_varint(b: Seq<u8>, budget: nat, last_max: nat) -> Result<
    (nat, Seq<u8>),
    WireError,
>
    decreases budget,
{
    if budget == 0 {
        Err(WireError::BadVarint)
    } else if b.len() == 0 {
        Err(WireError::UnexpectedEof)
    } else if b[0] < 128 {
        if budget == 1 && b[0] > last_max {
            Err(WireError::BadVarint)
        } else {
            Ok((b[0] as nat, b.skip(1)))
        }
    } else {
        match take_varint(b.skip(1), (budget - 1) as nat, last_max) {
            Ok((high, rest)) => Ok((((b[0] - 128) + 128 * high) as nat, rest)),
            Err(e) => Err(e),
        }
    }
}

/// The bounds of the three integer widths on the wire.
pub proof fn lemma_varint_bounds()
    ensures
        varint_bound(U16_BYTES as nat, U16_LAST as nat) == 0x1_0000,
        varint_bound(U32_BYTES as nat, U32_LAST as nat) == 0x1_0000_0000,
        varint_bound(LEN_BYTES as nat, LEN_LAST as nat) == 0x1_0000_0000_0000_0000,
{
    reveal_with_fuel(varint_bound, 11);
}

/// What is read is below the bound.
pub proof fn lemma_take_varint_bounded(b: Seq<u8>, budget: nat, last_max: nat)
    requires
        take_varint(b, budget, last_max) is Ok,
    ensures
        take_varint(b, budget, last_max)->Ok_0.0 < varint_bound(budget, last_max),
        take_varint(b, budget, last_max)->Ok_0.1.len() < b.len(),
    decreases budget,
{
    if b[0] < 128 {
        if budget > 1 {
            lemma_bound_grows((budget - 1) as nat, last_max);
        }
    } else {
        lemma_take_varint_bounded(b.skip(1), (budget - 1) as nat, last_max);
        if budget <= 1 {
            assert(take_varint(b.skip(1), 0, last_max) is Err);
        }
    }
}

proof fn lemma_bound_grows(budget: nat, last_max: nat)
    ensures
        varint_bound(budget, last_max) >= 1,
    decreases budget,
{
    if budget > 1 {
        lemma_bound_grows((budget - 1) as nat, last_max);
    }
}

/// A number below the bound is read back from its own bytes, whatever
/// follows them.
pub proof fn lemma_varint_round_trip(v: nat, budget: nat, last_max: nat, rest: Seq<u8>)
    requires
        budget >= 1,
        last_max < 128,
        v < varint_bound(budget, last_max),
    ensures
        take_varint(varint(v) + rest, budget, last_max) == Ok::<(nat, Seq<u8>), WireError>(
            (v, rest),
        ),
    decreases v,
{
    let b = varint(v) + rest;
    if v < 128 {
        assert(b[0] == v);
        assert(b.skip(1) =~= rest);
    } else {
        assert(b[0] == v % 128 + 128);
        assert(b.skip(1) =~= varint(v / 128) + rest);
        assert(budget >= 2);
        lemma_varint_round_trip(v / 128, (budget - 1) as nat, last_max, rest);
    }
}

/// Appends the variable-length integer `v` to `out`.
pub fn put_varint(out: &mut Vec<u8>, v: u64)
    ensures
        final(out)@ == old(out)@ + varint(v as nat),
{
    let mut value = v;
    while value >= 128
        invariant
            out@ + varint(value as nat) == old(out)@ + varint(v as nat),
        decreases value,
    {
        let ghost before = out@;
        out.push((value % 128 + 128) as u8);
        proof {
            let low = seq![(value % 128 + 128) as u8];
            assert(out@ + varint((value / 128) as nat) =~= before + (low + varint(
                (value / 128) as nat,
            )));
        }
        value = value / 128;
    }
    let ghost before = out@;
    out.push(value as u8);
    assert(out@ =~= before + varint(value as nat));
}

/// Reads a variable-length integer at `data[at ..]`, as [`take_varint`]
/// does, and says where the next field starts.
pub fn read_varint(data: &[u8], at: usize, budget: u32, last_max: u8) -> (r: Result<
    (u64, usize),
    WireError,
>)
    requires
        at <= data@.len(),
        last_max < 128,
        varint_bound(budget as nat, last_max as nat) <= 0x1_0000_0000_0000_0000,
    ensures
        match r {
            Ok((v, next)) => {
                &&& at < next <= data@.len()
                &&& v < varint_bound(budget as nat, last_max as nat)
                &&& take_varint(data@.skip(at as int), budget as nat, last_max as nat) == Ok::<
                    (nat, Seq<u8>),
                    WireError,
                >((v as nat, data@.skip(next as int)))
            },
            Err(e) => take_varint(data@.skip(at as int), budget as nat, last_max as nat) == Err::<
                (nat, Seq<u8>),
                WireError,
            >(e),
        },
    decreases budget,
{
    let ghost b = data@.skip(at as int);
    if budget == 0 {
        return Err(WireError::BadVarint);
    }
    if at >= data.len() {
        return Err(WireError::UnexpectedEof);
    }
    let byte = data[at];
    proof {
        assert(b[0] == byte);
        assert(b.skip(1) =~= data@.skip(at as int + 1));
        lemma_bound_grows((budget - 1) as nat, last_max as nat);
    }
    if byte < 128 {
        if budget == 1 && byte > last_max {
            Err(WireError::BadVarint)
        } else {
            Ok((byte as u64, at + 1))
        }
    } else {
        if budget == 1 {
            assert(take_varint(b.skip(1), 0, last_max as nat) is Err);
            return Err(WireError::BadVarint);
        }
        match read_varint(data, at + 1, budget - 1, last_max) {
            Ok((high, next)) => Ok(((byte - 128) as u64 + 128 * high, next)),
            Err(e) => Err(e),
        }
    }
}

/// The unsigned number that stands for the signed number `n`: 0, -1, 1,
/// -2, 2, ... become 0, 1, 2, 3, 4, ...
pub open spec fn zigzag(n: int) -> nat {
    if n >= 0 {
        (2 * n) as nat
    } else {
        (-2 * n - 1) as nat
    }
}

/// The signed number that the unsigned number `u` stands for.
pub open spec fn unzigzag(u: nat) -> int {
    if u % 2 == 0 {
        (u / 2) as int
    } else {
        -(u / 2) - 1
    }
}

/// Reads a 32-bit unsigned number from the front of `b`.
pub open spec fn take_u32(b: Seq<u8>) -> Result<(u32, Seq<u8>), WireError> {
    match take_varint(b, U32_BYTES as nat, U32_LAST as nat) {
        Ok((v, rest)) => Ok((v as u32, rest)),
        Err(e) => Err(e),
    }
}

/// Reads a 16-bit unsigned number from the front of `b`.
pub open spec fn take_u16(b: Seq<u8>) -> Result<(u16, Seq<u8>), WireError> {
    match take_varint(b, U16_BYTES as nat, U16_LAST as nat) {
        Ok((v, rest)) => Ok((v as u16, rest)),
        Err(e) => Err(e),
    }
}

/// Reads a length from the front of `b`.
pub open spec fn take_len(b: Seq<u8>) -> Result<(nat, Seq<u8>), WireError> {
    take_varint(b, LEN_BYTES as nat, LEN_LAST as nat)
}

/// Reads a 32-bit signed number from the front of `b`.
pub open spec fn take_i32(b: Seq<u8>) -> Result<(i32, Seq<u8>), WireError> {
    match take_u32(b) {
        Ok((v, rest)) => Ok((unzigzag(v as nat) as i32, rest)),
        Err(e) => Err(e),
    }
}

/// Reads a flag from the front of `b`: one byte, 0 or 1.
pub open spec fn take_bool(b: Seq<u8>) -> Result<(bool, Seq<u8>), WireError> {
    if b.len() == 0 {
        Err(WireError::UnexpectedEof)
    } else if b[0] == 0 {
        Ok((false, b.skip(1)))
    } else if b[0] == 1 {
        Ok((true, b.skip(1)))
    } else {
        Err(WireError::BadBool)
    }
}

/// The byte of a flag.
pub open spec fn bool_bytes(flag: bool) -> Seq<u8> {
    if flag {
        seq![1u8]
    } else {
        seq![0u8]
    }
}

/// Reads a 3-vector from the front of `b`: twelve bytes.
pub open spec fn take_vec3(b: Seq<u8>) -> Result<(Vec3, Seq<u8>), WireError> {
    if b.len() < 12 {
        Err(WireError::UnexpectedEof)
    } else {
        Ok((le_vec3_at(b, 0), b.skip(12)))
    }
}

/// The bytes of a text: the length of its UTF-8 form, then that form.
pub open spec fn text_bytes(s: Seq<char>) -> Seq<u8> {
    varint(encode_utf8(s).len()) + encode_utf8(s)
}

/// Reads a text from the front of `b`.
pub open spec fn take_text(b: Seq<u8>) -> Result<(Seq<char>, Seq<u8>), WireError> {
    match take_len(b) {
        Err(e) => Err(e),
        Ok((n, rest)) => {
            if n > rest.len() {
                Err(WireError::UnexpectedEof)
            } else if !valid_utf8(rest.take(n as int)) {
                Err(WireError::InvalidUtf8)
            } else {
                Ok((decode_utf8(rest.take(n as int)), rest.skip(n as int)))
            }
        },
    }
}

/// The bytes of a chunk coordinate: x, y, z, each zigzag-folded.
pub open spec fn coord_bytes(c: ChunkCoord) -> Seq<u8> {
    varint(zigzag(c.x as int)) + varint(zigzag(c.y as int)) + varint(zigzag(c.z as int))
}

/// Reads a chunk coordinate from the front of `b`.
pub open spec fn take_coord(b: Seq<u8>) -> Result<(ChunkCoord, Seq<u8>), WireError> {
    match take_i32(b) {
        Err(e) => Err(e),
        Ok((x, b1)) => match take_i32(b1) {
            Err(e) => Err(e),
            Ok((y, b2)) => match take_i32(b2) {
                Err(e) => Err(e),
                Ok((z, b3)) => Ok((ChunkCoord { x, y, z }, b3)),
            },
        },
    }
}

/// The bytes of an extent: x, y, z.
pub open spec fn extent_bytes(e: UVec3) -> Seq<u8> {
    varint(e.x as nat) + varint(e.y as nat) + varint(e.z as nat)
}

/// Reads an extent from the front of `b`.
pub open spec fn take_extent(b: Seq<u8>) -> Result<(UVec3, Seq<u8>), WireError> {
    match take_u32(b) {
        Err(e) => Err(e),
        Ok((x, b1)) => match take_u32(b1) {
            Err(e) => Err(e),
            Ok((y, b2)) => match take_u32(b2) {
                Err(e) => Err(e),
                Ok((z, b3)) => Ok((UVec3 { x, y, z }, b3)),
            },
        },
    }
}

/// The bytes of a run of voxels, one tag after the other.
pub open spec fn voxels_bytes(voxels: Seq<Voxel>) -> Seq<u8>
    decreases voxels.len(),
{
    if voxels.len() == 0 {
        Seq::empty()
    } else {
        voxels_bytes(voxels.drop_last()) + varint(voxels.last().0 as nat)
    }
}

/// Reads `n` voxels from the front of `b`.
pub open spec fn take_voxels(b: Seq<u8>, n: nat) -> Result<(Seq<Voxel>, Seq<u8>), WireError>
    decreases n,
{
    if n == 0 {
        Ok((Seq::empty(), b))
    } else {
        match take_voxels(b, (n - 1) as nat) {
            Err(e) => Err(e),
            Ok((head, rest)) => match take_u16(rest) {
                Err(e) => Err(e),
                Ok((tag, rest)) => Ok((head.push(Voxel(tag)), rest)),
            },
        }
    }
}

/// Extent and voxels of a buffer, as they travel.
pub struct BufferView {
    pub size: UVec3,
    pub voxels: Seq<Voxel>,
}

/// The bytes of a voxel buffer: its extent, the number of its voxels,
/// the voxels.
pub open spec fn buffer_bytes(buffer: BufferView) -> Seq<u8> {
    extent_bytes(buffer.size) + varint(buffer.voxels.len()) + voxels_bytes(buffer.voxels)
}

/// Reads a voxel buffer from the front of `b`. The extent is not held
/// against the number of voxels.
pub open spec fn take_buffer(b: Seq<u8>) -> Result<(BufferView, Seq<u8>), WireError> {
    match take_extent(b) {
        Err(e) => Err(e),
        Ok((size, b1)) => match take_len(b1) {
            Err(e) => Err(e),
            Ok((n, b2)) => match take_voxels(b2, n) {
                Err(e) => Err(e),
                Ok((voxels, b3)) => Ok((BufferView { size, voxels }, b3)),
            },
        },
    }
}

/// The travelling form of a buffer.
pub open spec fn buffer_view(buffer: &VoxelBuffer) -> BufferView {
    BufferView { size: buffer.size, voxels: buffer.voxels@ }
}

/// A 32-bit unsigned number is read back from its own bytes.
pub proof fn lemma_u32_round_trip(v: u32, rest: Seq<u8>)
    ensures
        take_u32(varint(v as nat) + rest) == Ok::<(u32, Seq<u8>), WireError>((v, rest)),
{
    lemma_varint_bounds();
    lemma_varint_round_trip(v as nat, U32_BYTES as nat, U32_LAST as nat, rest);
}

/// A 16-bit unsigned number is read back from its own bytes.
pub proof fn lemma_u16_round_trip(v: u16, rest: Seq<u8>)
    ensures
        take_u16(varint(v as nat) + rest) == Ok::<(u16, Seq<u8>), WireError>((v, rest)),
{
    lemma_varint_bounds();
    lemma_varint_round_trip(v as nat, U16_BYTES as nat, U16_LAST as nat, rest);
}

/// A 32-bit signed number is read back from its own bytes.
pub proof fn lemma_i32_round_trip(v: i32, rest: Seq<u8>)
    ensures
        take_i32(varint(zigzag(v as int)) + rest) == Ok::<(i32, Seq<u8>), WireError>((v, rest)),
{
    lemma_varint_bounds();
    lemma_varint_round_trip(zigzag(v as int), U32_BYTES as nat, U32_LAST as nat, rest);
}

/// A flag is read back from its own byte.
pub proof fn lemma_bool_round_trip(flag: bool, rest: Seq<u8>)
    ensures
        take_bool(bool_bytes(flag) + rest) == Ok::<(bool, Seq<u8>), WireError>((flag, rest)),
{
    assert((bool_bytes(flag) + rest).skip(1) =~= rest);
}

/// A 3-vector is read back from its own bytes.
pub proof fn lemma_vec3_round_trip(v: Vec3, rest: Seq<u8>)
    ensures
        take_vec3(vec3_le(v) + rest) == Ok::<(Vec3, Seq<u8>), WireError>((v, rest)),
{
    let b = vec3_le(v) + rest;
    assert(vec3_le(v).len() == 12);
    assert(b =~= Seq::<u8>::empty() + vec3_le(v) + rest);
    lemma_read_appended_vec3(Seq::<u8>::empty(), v, rest);
    assert(b.skip(12) =~= rest);
}

/// A text whose UTF-8 form has a length of at most 64 bits is read back
/// from its own bytes.
pub proof fn lemma_text_round_trip(s: Seq<char>, rest: Seq<u8>)
    requires
        encode_utf8(s).len() <= u64::MAX,
    ensures
        take_text(text_bytes(s) + rest) == Ok::<(Seq<char>, Seq<u8>), WireError>((s, rest)),
{
    broadcast use encode_utf8_valid_utf8, encode_utf8_decode_utf8;

    let raw = encode_utf8(s);
    lemma_varint_bounds();
    assert(text_bytes(s) + rest =~= varint(raw.len()) + (raw + rest));
    lemma_varint_round_trip(raw.len(), LEN_BYTES as nat, LEN_LAST as nat, raw + rest);
    assert((raw + rest).take(raw.len() as int) =~= raw);
    assert((raw + rest).skip(raw.len() as int) =~= rest);
}

/// A chunk coordinate is read back from its own bytes.
pub proof fn lemma_coord_round_trip(c: ChunkCoord, rest: Seq<u8>)
    ensures
        take_coord(coord_bytes(c) + rest) == Ok::<(ChunkCoord, Seq<u8>), WireError>((c, rest)),
{
    let bx = varint(zigzag(c.x as int));
    let by = varint(zigzag(c.y as int));
    let bz = varint(zigzag(c.z as int));
    assert(coord_bytes(c) + rest =~= bx + (by + (bz + rest)));
    lemma_i32_round_trip(c.x, by + (bz + rest));
    lemma_i32_round_trip(c.y, bz + rest);
    lemma_i32_round_trip(c.z, rest);
}

/// An extent is read back from its own bytes.
pub proof fn lemma_extent_round_trip(e: UVec3, rest: Seq<u8>)
    ensures
        take_extent(extent_bytes(e) + rest) == Ok::<(UVec3, Seq<u8>), WireError>((e, rest)),
{
    let bx = varint(e.x as nat);
    let by = varint(e.y as nat);
    let bz = varint(e.z as nat);
    assert(extent_bytes(e) + rest =~= bx + (by + (bz + rest)));
    lemma_u32_round_trip(e.x, by + (bz + rest));
    lemma_u32_round_trip(e.y, bz + rest);
    lemma_u32_round_trip(e.z, rest);
}

/// A run of voxels is read back from its own bytes.
pub proof fn lemma_voxels_round_trip(voxels: Seq<Voxel>, rest: Seq<u8>)
    ensures
        take_voxels(voxels_bytes(voxels) + rest, voxels.len()) == Ok::<
            (Seq<Voxel>, Seq<u8>),
            WireError,
        >((voxels, rest)),
    decreases voxels.len(),
{
    if voxels.len() == 0 {
        assert(voxels_bytes(voxels) + rest =~= rest);
        assert(voxels =~= Seq::<Voxel>::empty());
    } else {
        let head = voxels.drop_last();
        let last = varint(voxels.last().0 as nat);
        assert(voxels_bytes(voxels) + rest =~= voxels_bytes(head) + (last + rest));
        lemma_voxels_round_trip(head, last + rest);
        lemma_u16_round_trip(voxels.last().0, rest);
        assert(head.push(Voxel(voxels.last().0)) =~= voxels);
    }
}

/// A voxel buffer with at most 2^64 - 1 voxels is read back from its own
/// bytes.
pub proof fn lemma_buffer_round_trip(buffer: BufferView, rest: Seq<u8>)
    requires
        buffer.voxels.len() <= u64::MAX,
    ensures
        take_buffer(buffer_bytes(buffer) + rest) == Ok::<(BufferView, Seq<u8>), WireError>(
            (buffer, rest),
        ),
{
    let n = varint(buffer.voxels.len());
    let v = voxels_bytes(buffer.voxels);
    assert(buffer_bytes(buffer) + rest =~= extent_bytes(buffer.size) + (n + (v + rest)));
    lemma_extent_round_trip(buffer.size, n + (v + rest));
    lemma_varint_bounds();
    lemma_varint_round_trip(buffer.voxels.len(), LEN_BYTES as nat, LEN_LAST as nat, v + rest);
    lemma_voxels_round_trip(buffer.voxels, rest);
}

/// Whether the outcome `r` of reading at `data[at ..]` is the outcome
/// `want` of reading from the front of what stands there.
pub open spec fn read_as<T>(
    r: Result<(T, usize), WireError>,
    want: Result<(T, Seq<u8>), WireError>,
    data: Seq<u8>,
    at: int,
) -> bool {
    match r {
        Ok((v, next)) => {
            &&& at <= next <= data.len()
            &&& want == Ok::<(T, Seq<u8>), WireError>((v, data.skip(next as int)))
        },
        Err(e) => want == Err::<(T, Seq<u8>), WireError>(e),
    }
}

/// Reads a 32-bit unsigned number at `data[at ..]`.
pub fn read_u32(data: &[u8], at: usize) -> (r: Result<(u32, usize), WireError>)
    requires
        at <= data@.len(),
    ensures
        read_as(r, take_u32(data@.skip(at as int)), data@, at as int),
{
    proof {
        lemma_varint_bounds();
    }
    match read_varint(data, at, U32_BYTES, U32_LAST) {
        Ok((v, next)) => Ok((v as u32, next)),
        Err(e) => Err(e),
    }
}

/// Reads a 16-bit unsigned number at `data[at ..]`.
pub fn read_u16(data: &[u8], at: usize) -> (r: Result<(u16, usize), WireError>)
    requires
        at <= data@.len(),
    ensures
        read_as(r, take_u16(data@.skip(at as int)), data@, at as int),
        r is Ok ==> r->Ok_0.1 > at,
{
    proof {
        lemma_varint_bounds();
    }
    match read_varint(data, at, U16_BYTES, U16_LAST) {
        Ok((v, next)) => Ok((v as u16, next)),
        Err(e) => Err(e),
    }
}

/// Reads a length at `data[at ..]`.
pub fn read_len(data: &[u8], at: usize) -> (r: Result<(u64, usize), WireError>)
    requires
        at <= data@.len(),
    ensures
        match r {
            Ok((n, next)) => {
                &&& at <= next <= data@.len()
                &&& take_len(data@.skip(at as int)) == Ok::<(nat, Seq<u8>), WireError>(
                    (n as nat, data@.skip(next as int)),
                )
            },
            Err(e) => take_len(data@.skip(at as int)) == Err::<(nat, Seq<u8>), WireError>(e),
        },
{
    proof {
        lemma_varint_bounds();
    }
    read_varint(data, at, LEN_BYTES, LEN_LAST)
}

/// Appends the 32-bit signed number `v` to `out`.
pub fn put_i32(out: &mut Vec<u8>, v: i32)
    ensures
        final(out)@ == old(out)@ + varint(zigzag(v as int)),
{
    let folded: u64 = if v >= 0 {
        2 * (v as u64)
    } else {
        (2 * (-(v as i64)) - 1) as u64
    };
    put_varint(out, folded);
}

/// Reads a 32-bit signed number at `data[at ..]`.
pub fn read_i32(data: &[u8], at: usize) -> (r: Result<(i32, usize), WireError>)
    requires
        at <= data@.len(),
    ensures
        read_as(r, take_i32(data@.skip(at as int)), data@, at as int),
{
    match read_u32(data, at) {
        Ok((u, next)) => {
            let v: i32 = if u % 2 == 0 {
                (u / 2) as i32
            } else {
                (-((u / 2) as i64) - 1) as i32
            };
            Ok((v, next))
        },
        Err(e) => Err(e),
    }
}

/// Appends the flag `flag` to `out`.
pub fn put_bool(out: &mut Vec<u8>, flag: bool)
    ensures
        final(out)@ == old(out)@ + bool_bytes(flag),
{
    out.push(if flag { 1u8 } else { 0u8 });
    assert(out@ =~= old(out)@ + bool_bytes(flag));
}

/// Reads a flag at `data[at ..]`.
pub fn read_bool(data: &[u8], at: usize) -> (r: Result<(bool, usize), WireError>)
    requires
        at <= data@.len(),
    ensures
        read_as(r, take_bool(data@.skip(at as int)), data@, at as int),
{
    if at >= data.len() {
        return Err(WireError::UnexpectedEof);
    }
    let byte = data[at];
    proof {
        assert(data@.skip(at as int)[0] == byte);
        assert(data@.skip(at as int).skip(1) =~= data@.skip(at as int + 1));
    }
    if byte == 0 {
        Ok((false, at + 1))
    } else if byte == 1 {
        Ok((true, at + 1))
    } else {
        Err(WireError::BadBool)
    }
}

/// Reads a 3-vector at `data[at ..]`.
pub fn read_vec3(data: &[u8], at: usize) -> (r: Result<(Vec3, usize), WireError>)
    requires
        at <= data@.len(),
    ensures
        read_as(r, take_vec3(data@.skip(at as int)), data@, at as int),
{
    if data.len() - at < 12 {
        return Err(WireError::UnexpectedEof);
    }
    let v = get_vec3(data, at);
    proof {
        let b = data@.skip(at as int);
        assert(b.skip(12) =~= data@.skip(at as int + 12));
        assert(le_vec3_at(b, 0) == le_vec3_at(data@, at as int));
    }
    Ok((v, at + 12))
}

/// Appends the text `s` to `out`.
pub fn put_text(out: &mut Vec<u8>, s: &String)
    ensures
        final(out)@ == old(out)@ + text_bytes(s@),
{
    let raw = s.as_str().as_bytes();
    put_varint(out, raw.len() as u64);
    append_bytes(out, raw);
    assert(out@ =~= old(out)@ + text_bytes(s@));
}

/// Reads a text at `data[at ..]`.
pub fn read_text(data: &[u8], at: usize) -> (r: Result<(String, usize), WireError>)
    requires
        at <= data@.len(),
    ensures
        match r {
            Ok((s, next)) => {
                &&& at <= next <= data@.len()
                &&& take_text(data@.skip(at as int)) == Ok::<(Seq<char>, Seq<u8>), WireError>(
                    (s@, data@.skip(next as int)),
                )
            },
            Err(e) => take_text(data@.skip(at as int)) == Err::<(Seq<char>, Seq<u8>), WireError>(
                e,
            ),
        },
{
    match read_len(data, at) {
        Err(e) => Err(e),
        Ok((n, start)) => {
            if n > (data.len() - start) as u64 {
                return Err(WireError::UnexpectedEof);
            }
            let end: usize = start + n as usize;
            let raw = copy_range(data, start, end);
            proof {
                let rest = data@.skip(start as int);
                assert(rest.take(n as int) =~= data@.subrange(start as int, end as int));
                assert(rest.skip(n as int) =~= data@.skip(end as int));
            }
            match text_from_utf8(raw) {
                Some(s) => Ok((s, end)),
                None => Err(WireError::InvalidUtf8),
            }
        },
    }
}

/// Appends the chunk coordinate `c` to `out`.
pub fn put_coord(out: &mut Vec<u8>, c: ChunkCoord)
    ensures
        final(out)@ == old(out)@ + coord_bytes(c),
{
    put_i32(out, c.x);
    put_i32(out, c.y);
    put_i32(out, c.z);
    assert(out@ =~= old(out)@ + coord_bytes(c));
}

/// Reads a chunk coordinate at `data[at ..]`.
pub fn read_coord(data: &[u8], at: usize) -> (r: Result<(ChunkCoord, usize), WireError>)
    requires
        at <= data@.len(),
    ensures
        read_as(r, take_coord(data@.skip(at as int)), data@, at as int),
{
    let (x, at) = match read_i32(data, at) {
        Ok(v) => v,
        Err(e) => { return Err(e); },
    };
    let (y, at) = match read_i32(data, at) {
        Ok(v) => v,
        Err(e) => { return Err(e); },
    };
    let (z, at) = match read_i32(data, at) {
        Ok(v) => v,
        Err(e) => { return Err(e); },
    };
    Ok((ChunkCoord { x, y, z }, at))
}

/// Appends the extent `e` to `out`.
pub fn put_extent(out: &mut Vec<u8>, e: UVec3)
    ensures
        final(out)@ == old(out)@ + extent_bytes(e),
{
    put_varint(out, e.x as u64);
    put_varint(out, e.y as u64);
    put_varint(out, e.z as u64);
    assert(out@ =~= old(out)@ + extent_bytes(e));
}

/// Reads an extent at `data[at ..]`.
pub fn read_extent(data: &[u8], at: usize) -> (r: Result<(UVec3, usize), WireError>)
    requires
        at <= data@.len(),
    ensures
        read_as(r, take_extent(data@.skip(at as int)), data@, at as int),
{
    let (x, at) = match read_u32(data, at) {
        Ok(v) => v,
        Err(e) => { return Err(e); },
    };
    let (y, at) = match read_u32(data, at) {
        Ok(v) => v,
        Err(e) => { return Err(e); },
    };
    let (z, at) = match read_u32(data, at) {
        Ok(v) => v,
        Err(e) => { return Err(e); },
    };
    Ok((UVec3 { x, y, z }, at))
}

/// Once a voxel cannot be read, no longer run can be read either.
proof fn lemma_take_voxels_fails(b: Seq<u8>, i: nat, n: nat)
    requires
        i <= n,
        take_voxels(b, i) is Err,
    ensures
        take_voxels(b, n) == take_voxels(b, i),
    decreases n,
{
    if i < n {
        lemma_take_voxels_fails(b, i, (n - 1) as nat);
    }
}

/// Appends the voxels of `voxels` to `out`.
pub fn put_voxels(out: &mut Vec<u8>, voxels: &Vec<Voxel>)
    ensures
        final(out)@ == old(out)@ + voxels_bytes(voxels@),
{
    let mut i: usize = 0;
    assert(voxels@.take(0) =~= Seq::<Voxel>::empty());
    assert(out@ =~= old(out)@ + voxels_bytes(voxels@.take(0)));
    while i < voxels.len()
        invariant
            i <= voxels@.len(),
            out@ == old(out)@ + voxels_bytes(voxels@.take(i as int)),
        decreases voxels@.len() - i,
    {
        let ghost before = out@;
        put_varint(out, voxels[i].0 as u64);
        i += 1;
        proof {
            let run = voxels@.take(i as int);
            assert(run.drop_last() =~= voxels@.take(i as int - 1));
            assert(run.last() == voxels@[i as int - 1]);
            assert(out@ =~= old(out)@ + voxels_bytes(run));
        }
    }
    assert(voxels@.take(i as int) =~= voxels@);
}

/// Reads `n` voxels at `data[at ..]`.
pub fn read_voxels(data: &[u8], at: usize, n: u64) -> (r: Result<(Vec<Voxel>, usize), WireError>)
    requires
        at <= data@.len(),
    ensures
        match r {
            Ok((voxels, next)) => {
                &&& at <= next <= data@.len()
                &&& take_voxels(data@.skip(at as int), n as nat) == Ok::<
                    (Seq<Voxel>, Seq<u8>),
                    WireError,
                >((voxels@, data@.skip(next as int)))
            },
            Err(e) => take_voxels(data@.skip(at as int), n as nat) == Err::<
                (Seq<Voxel>, Seq<u8>),
                WireError,
            >(e),
        },
{
    let ghost b = data@.skip(at as int);
    let mut voxels: Vec<Voxel> = Vec::new();
    let mut cur: usize = at;
    let mut i: u64 = 0;
    while i < n
        invariant
            i <= n,
            at <= cur <= data@.len(),
            b == data@.skip(at as int),
            take_voxels(b, i as nat) == Ok::<(Seq<Voxel>, Seq<u8>), WireError>(
                (voxels@, data@.skip(cur as int)),
            ),
        decreases n - i,
    {
        match read_u16(data, cur) {
            Ok((tag, next)) => {
                voxels.push(Voxel(tag));
                cur = next;
            },
            Err(e) => {
                proof {
                    assert(take_voxels(b, (i + 1) as nat) is Err);
                    lemma_take_voxels_fails(b, (i + 1) as nat, n as nat);
                }
                return Err(e);
            },
        }
        i += 1;
    }
    Ok((voxels, cur))
}

/// Appends the voxel buffer `buffer` to `out`.
pub fn put_buffer(out: &mut Vec<u8>, buffer: &VoxelBuffer)
    ensures
        final(out)@ == old(out)@ + buffer_bytes(buffer_view(buffer)),
        buffer.voxels@.len() <= usize::MAX,
{
    put_extent(out, buffer.size);
    put_varint(out, buffer.voxels.len() as u64);
    put_voxels(out, &buffer.voxels);
    assert(out@ =~= old(out)@ + buffer_bytes(buffer_view(buffer)));
}

/// Reads a voxel buffer at `data[at ..]`.
pub fn read_buffer(data: &[u8], at: usize) -> (r: Result<(VoxelBuffer, usize), WireError>)
    requires
        at <= data@.len(),
    ensures
        match r {
            Ok((buffer, next)) => {
                &&& at <= next <= data@.len()
                &&& take_buffer(data@.skip(at as int)) == Ok::<(BufferView, Seq<u8>), WireError>(
                    (buffer_view(&buffer), data@.skip(next as int)),
                )
            },
            Err(e) => take_buffer(data@.skip(at as int)) == Err::<(BufferView, Seq<u8>), WireError>(
                e,
            ),
        },
{
    let (size, at) = match read_extent(data, at) {
        Ok(v) => v,
        Err(e) => { return Err(e); },
    };
    let (n, at) = match read_len(data, at) {
        Ok(v) => v,
        Err(e) => { return Err(e); },
    };
    let (voxels, at) = match read_voxels(data, at, n) {
        Ok(v) => v,
        Err(e) => { return Err(e); },
    };
    Ok((VoxelBuffer { size, voxels }, at))
}

} // verus!
