//! Chunk coordinates, the distance between them and the cube of chunks
//! around a centre.
//!
//! Distance between chunks is the Chebyshev distance: the largest of the
//! three per-axis differences. The chunks within distance `r` of a centre
//! form a cube of edge `2r + 1`. Loading and unloading both measure with
//! it. Squared Euclidean distance only orders the chunks of such a cube
//! from the nearest to the farthest.

use vstd::prelude::*;
use crate::math::Vec3;

verus! {

/// Edge length of a chunk, in voxels.
pub const CHUNK_SIZE: u32 = 32;

/// How far, in chunks, a player sees.
pub const CHUNK_RENDER_DISTANCE: i32 = 12;

/// How many chunks beyond the render distance a loaded chunk may lie
/// before it is unloaded.
pub const CHUNK_UNLOAD_MARGIN: i32 = 2;

/// Identifies one chunk in chunk space.
#[derive(Copy, Clone, Eq, PartialEq, Hash, Debug, Structural)]
pub struct ChunkCoord {
    pub x: i32,
    pub y: i32,
    pub z: i32,
}

/// The absolute value of the difference of two numbers.
pub open spec fn gap(a: int, b: int) -> int {
    if a >= b {
        a - b
    } else {
        b - a
    }
}

impl ChunkCoord {
    pub fn new(x: i32, y: i32, z: i32) -> (c: ChunkCoord)
        ensures
            c == (ChunkCoord { x, y, z }),
    {
        ChunkCoord { x, y, z }
    }

    /// Chebyshev distance to `other`.
    pub open spec fn distance(self, other: ChunkCoord) -> int {
        let dx = gap(self.x as int, other.x as int);
        let dy = gap(self.y as int, other.y as int);
        let dz = gap(self.z as int, other.z as int);
        if dx >= dy && dx >= dz {
            dx
        } else if dy >= dz {
            dy
        } else {
            dz
        }
    }

    /// Squared Euclidean distance to `other`.
    pub open spec fn distance_squared_spec(self, other: ChunkCoord) -> int {
        (self.x - other.x) * (self.x - other.x) + (self.y - other.y) * (self.y - other.y) + (self.z
            - other.z) * (self.z - other.z)
    }

    /// Whether `self` comes before `other` when x is compared first, then
    /// y, then z.
    pub open spec fn lex_lt(self, other: ChunkCoord) -> bool {
        self.x < other.x || (self.x == other.x && (self.y < other.y || (self.y == other.y && self.z
            < other.z)))
    }

    /// Whether `self` comes before `other` in the nearest-first order
    /// around `anchor`: smaller squared distance first, ties broken by
    /// [`Self::lex_lt`].
    pub open spec fn nearer(self, other: ChunkCoord, anchor: ChunkCoord) -> bool {
        let a = self.distance_squared_spec(anchor);
        let b = other.distance_squared_spec(anchor);
        a < b || (a == b && self.lex_lt(other))
    }

    /// A number that identifies the coordinate: no two coordinates share
    /// one.
    pub open spec fn key(self) -> u128 {
        ((self.x + 0x8000_0000) * 0x1_0000_0000_0000_0000 + (self.y + 0x8000_0000) * 0x1_0000_0000
            + (self.z + 0x8000_0000)) as u128
    }

    /// Computes [`Self::key`].
    pub fn pack(self) -> (k: u128)
        ensures
            k == self.key(),
    {
        let x: u128 = (self.x as i64 + 0x8000_0000) as u128;
        let y: u128 = (self.y as i64 + 0x8000_0000) as u128;
        let z: u128 = (self.z as i64 + 0x8000_0000) as u128;
        x * 0x1_0000_0000_0000_0000 + y * 0x1_0000_0000 + z
    }

    /// Squared Euclidean distance to `other`, computed without overflow.
    pub fn distance_squared(self, other: ChunkCoord) -> (d: u128)
        ensures
            d == self.distance_squared_spec(other),
    {
        let dx: i128 = self.x as i128 - other.x as i128;
        let dy: i128 = self.y as i128 - other.y as i128;
        let dz: i128 = self.z as i128 - other.z as i128;
        proof {
            assert(0 <= dx * dx <= 0x1_0000_0000 * 0x1_0000_0000) by (nonlinear_arith)
                requires -0x1_0000_0000 <= dx <= 0x1_0000_0000;
            assert(0 <= dy * dy <= 0x1_0000_0000 * 0x1_0000_0000) by (nonlinear_arith)
                requires -0x1_0000_0000 <= dy <= 0x1_0000_0000;
            assert(0 <= dz * dz <= 0x1_0000_0000 * 0x1_0000_0000) by (nonlinear_arith)
                requires -0x1_0000_0000 <= dz <= 0x1_0000_0000;
        }
        (dx * dx + dy * dy + dz * dz) as u128
    }

    /// Chebyshev distance to `other`.
    pub fn chebyshev(self, other: ChunkCoord) -> (d: i64)
        ensures
            d == self.distance(other),
    {
        let dx: i64 = if self.x >= other.x {
            self.x as i64 - other.x as i64
        } else {
            other.x as i64 - self.x as i64
        };
        let dy: i64 = if self.y >= other.y {
            self.y as i64 - other.y as i64
        } else {
            other.y as i64 - self.y as i64
        };
        let dz: i64 = if self.z >= other.z {
            self.z as i64 - other.z as i64
        } else {
            other.z as i64 - self.z as i64
        };
        if dx >= dy && dx >= dz {
            dx
        } else if dy >= dz {
            dy
        } else {
            dz
        }
    }

    /// The key by which chunks are sorted from the nearest to `anchor` to
    /// the farthest: squared distance first, then x, y and z. Keys compare
    /// as tuples do, so one key is smaller than another exactly when its
    /// chunk is [`Self::nearer`].
    pub fn near_key(self, anchor: ChunkCoord) -> (k: (u128, i32, i32, i32))
        ensures
            k.0 == self.distance_squared_spec(anchor),
            k.1 == self.x,
            k.2 == self.y,
            k.3 == self.z,
    {
        (self.distance_squared(anchor), self.x, self.y, self.z)
    }
}

/// No two coordinates share a key.
pub proof fn lemma_key_injective(a: ChunkCoord, b: ChunkCoord)
    requires
        a.key() == b.key(),
    ensures
        a == b,
{
    let ax = a.x + 0x8000_0000;
    let ay = a.y + 0x8000_0000;
    let az = a.z + 0x8000_0000;
    let bx = b.x + 0x8000_0000;
    let by = b.y + 0x8000_0000;
    let bz = b.z + 0x8000_0000;
    let ka = ax * 0x1_0000_0000_0000_0000 + ay * 0x1_0000_0000 + az;
    let kb = bx * 0x1_0000_0000_0000_0000 + by * 0x1_0000_0000 + bz;
    assert(0 <= ka < 0x1_0000_0000_0000_0000_0000_0000);
    assert(0 <= kb < 0x1_0000_0000_0000_0000_0000_0000);
    assert(ka == kb);
    if ax != bx {
        if ax < bx {
            assert(kb - ka >= 0x1_0000_0000_0000_0000 - 0x1_0000_0000 * 0x1_0000_0000);
        } else {
            assert(ka - kb >= 0x1_0000_0000_0000_0000 - 0x1_0000_0000 * 0x1_0000_0000);
        }
    }
}

/// The nearest-first order is total on distinct coordinates and never
/// holds both ways.
pub proof fn lemma_nearer_total(a: ChunkCoord, b: ChunkCoord, anchor: ChunkCoord)
    ensures
        a != b ==> (a.nearer(b, anchor) || b.nearer(a, anchor)),
        !(a.nearer(b, anchor) && b.nearer(a, anchor)),
        !a.nearer(a, anchor),
{
}

/// Whether `s` runs from the nearest chunk to `anchor` to the farthest,
/// with no chunk twice.
pub open spec fn nearest_first(s: Seq<ChunkCoord>, anchor: ChunkCoord) -> bool {
    forall|i: int, j: int| 0 <= i < j < s.len() ==> (#[trigger] s[i]).nearer(#[trigger] s[j], anchor)
}

/// Two nearest-first sequences with the same members are the same
/// sequence.
pub proof fn lemma_nearest_first_unique(s: Seq<ChunkCoord>, t: Seq<ChunkCoord>, anchor: ChunkCoord)
    requires
        nearest_first(s, anchor),
        nearest_first(t, anchor),
        forall|c: ChunkCoord| s.contains(c) <==> t.contains(c),
    ensures
        s == t,
    decreases s.len(),
{
    if s.len() == 0 {
        if t.len() > 0 {
            assert(t.contains(t[0]));
        }
        assert(s =~= t);
    } else {
        assert(s.contains(s[0]));
        let k = choose|k: int| 0 <= k < t.len() && t[k] == s[0];
        assert(t.contains(t[0]));
        let m = choose|m: int| 0 <= m < s.len() && s[m] == t[0];
        if k > 0 {
            assert(t[0].nearer(t[k], anchor));
            assert(m > 0);
            assert(s[0].nearer(s[m], anchor));
        }
        assert(s[0] == t[0]);
        let s1 = s.drop_first();
        let t1 = t.drop_first();
        assert forall|c: ChunkCoord| s1.contains(c) <==> t1.contains(c) by {
            if s1.contains(c) {
                let a = choose|a: int| 0 <= a < s1.len() && s1[a] == c;
                assert(s[a + 1] == c);
                assert(s[0].nearer(s[a + 1], anchor));
                assert(s.contains(c));
                let b = choose|b: int| 0 <= b < t.len() && t[b] == c;
                assert(t1[b - 1] == c);
            }
            if t1.contains(c) {
                let a = choose|a: int| 0 <= a < t1.len() && t1[a] == c;
                assert(t[a + 1] == c);
                assert(t[0].nearer(t[a + 1], anchor));
                assert(t.contains(c));
                let b = choose|b: int| 0 <= b < s.len() && s[b] == c;
                assert(s1[b - 1] == c);
            }
        }
        assert forall|i: int, j: int| 0 <= i < j < s1.len() implies (#[trigger] s1[i]).nearer(
            #[trigger] s1[j],
            anchor,
        ) by {
            assert(s[i + 1].nearer(s[j + 1], anchor));
        }
        assert forall|i: int, j: int| 0 <= i < j < t1.len() implies (#[trigger] t1[i]).nearer(
            #[trigger] t1[j],
            anchor,
        ) by {
            assert(t[i + 1].nearer(t[j + 1], anchor));
        }
        lemma_nearest_first_unique(s1, t1, anchor);
        assert(s =~= seq![s[0]] + s1);
        assert(t =~= seq![t[0]] + t1);
    }
}

/// Sorts `v` from the chunk nearest to `anchor` to the farthest.
///
/// Trusted: calls `sort_by_key` of the standard library's slices with
/// [`ChunkCoord::near_key`] as the key. The standard library documents
/// that the slice is sorted in ascending order of the keys, which are
/// tuples of integers and compare lexicographically; sorting rearranges
/// the elements and neither adds nor loses one.
#[verifier::external_body]
pub(crate) fn sort_nearest_first(v: &mut Vec<ChunkCoord>, anchor: ChunkCoord)
    ensures
        final(v)@.to_multiset() == old(v)@.to_multiset(),
        forall|i: int, j: int|
            0 <= i < j < final(v)@.len() ==> !(#[trigger] final(v)@[j]).nearer(
                #[trigger] final(v)@[i],
                anchor,
            ),
{
    v.sort_by_key(|c| c.near_key(anchor));
}

/// The chunk that holds the world position `pos`: each component divided
/// by the chunk's edge length and rounded down.
pub fn world_to_chunk_pos(pos: Vec3) -> (c: ChunkCoord)
    ensures
        c == chunk_of(pos),
        c.x == pos.x.floor_div_32_spec(),
        c.y == pos.y.floor_div_32_spec(),
        c.z == pos.z.floor_div_32_spec(),
{
    ChunkCoord { x: pos.x.floor_div_32(), y: pos.y.floor_div_32(), z: pos.z.floor_div_32() }
}

/// The chunk that holds the world position `pos`.
pub open spec fn chunk_of(pos: Vec3) -> ChunkCoord {
    ChunkCoord {
        x: pos.x.floor_div_32_spec() as i32,
        y: pos.y.floor_div_32_spec() as i32,
        z: pos.z.floor_div_32_spec() as i32,
    }
}

/// Whether `pos` lies within `distance` chunks of `anchor`.
pub fn chunk_in_range(anchor: ChunkCoord, pos: ChunkCoord, distance: i32) -> (r: bool)
    ensures
        r == (anchor.distance(pos) <= distance),
{
    anchor.chebyshev(pos) <= distance as i64
}

/// How many 32-bit numbers lie within `r` of `c`.
pub open spec fn span(c: int, r: int) -> int {
    high_bound(c + r) - low_bound(c - r) + 1
}

/// How many chunk coordinates lie within `radius` of `center`: none for
/// a negative radius, else the product of the three spans, which is
/// `(2 * radius + 1)^3` unless the cube reaches beyond the coordinate
/// space.
pub open spec fn cube_size(center: ChunkCoord, radius: int) -> int {
    if radius < 0 {
        0
    } else {
        span(center.x as int, radius) * (span(center.y as int, radius) * span(
            center.z as int,
            radius,
        ))
    }
}

/// A cube that lies inside the coordinate space has `(2r + 1)^3` chunks.
pub proof fn lemma_cube_size_inside(center: ChunkCoord, radius: int)
    requires
        0 <= radius,
        i32::MIN <= center.x - radius,
        center.x + radius <= i32::MAX,
        i32::MIN <= center.y - radius,
        center.y + radius <= i32::MAX,
        i32::MIN <= center.z - radius,
        center.z + radius <= i32::MAX,
    ensures
        cube_size(center, radius) == (2 * radius + 1) * ((2 * radius + 1) * (2 * radius + 1)),
{
    assert(span(center.x as int, radius) == 2 * radius + 1);
    assert(span(center.y as int, radius) == 2 * radius + 1);
    assert(span(center.z as int, radius) == 2 * radius + 1);
}

/// Every chunk coordinate within `radius` of `center`, each once, x
/// ascending, then y, then z. Empty when `radius` is negative.
pub fn chunks_in_radius(center: ChunkCoord, radius: i32) -> (positions: Vec<ChunkCoord>)
    ensures
        forall|c: ChunkCoord| positions@.contains(c) <==> center.distance(c) <= radius,
        forall|i: int, j: int|
            0 <= i < j < positions@.len() ==> (#[trigger] positions@[i]).lex_lt(
                #[trigger] positions@[j],
            ),
        positions@.no_duplicates(),
        positions@.len() == cube_size(center, radius as int),
{
    let mut positions: Vec<ChunkCoord> = Vec::new();
    if radius < 0 {
        assert forall|c: ChunkCoord| positions@.contains(c) <==> center.distance(c) <= radius by {
            assert(center.distance(c) >= 0);
        }
        return positions;
    }
    let r: i64 = radius as i64;
    let lo_x: i64 = clamp_low(center.x as i64 - r);
    let hi_x: i64 = clamp_high(center.x as i64 + r);
    let lo_y: i64 = clamp_low(center.y as i64 - r);
    let hi_y: i64 = clamp_high(center.y as i64 + r);
    let lo_z: i64 = clamp_low(center.z as i64 - r);
    let hi_z: i64 = clamp_high(center.z as i64 + r);
    let ghost ny: int = hi_y - lo_y + 1;
    let ghost nz: int = hi_z - lo_z + 1;
    let mut x: i64 = lo_x;
    assert((x - lo_x) * (ny * nz) == 0) by (nonlinear_arith)
        requires
            x - lo_x == 0,
    ;
    while x <= hi_x
        invariant
            0 <= r == radius,
            lo_x == low_bound(center.x - r),
            hi_x == high_bound(center.x + r),
            lo_y == low_bound(center.y - r),
            hi_y == high_bound(center.y + r),
            lo_z == low_bound(center.z - r),
            hi_z == high_bound(center.z + r),
            lo_x <= x <= hi_x + 1,
            ny == hi_y - lo_y + 1,
            nz == hi_z - lo_z + 1,
            positions@.len() == (x - lo_x) * (ny * nz),
            forall|c: ChunkCoord|
                positions@.contains(c) <==> (center.distance(c) <= radius && c.x < x),
            forall|i: int, j: int|
                0 <= i < j < positions@.len() ==> (#[trigger] positions@[i]).lex_lt(
                    #[trigger] positions@[j],
                ),
        decreases hi_x + 1 - x,
    {
        let mut y: i64 = lo_y;
        assert((y - lo_y) * nz == 0) by (nonlinear_arith)
            requires
                y - lo_y == 0,
        ;
        while y <= hi_y
            invariant
                0 <= r == radius,
                lo_x == low_bound(center.x - r),
                hi_x == high_bound(center.x + r),
                lo_y == low_bound(center.y - r),
                hi_y == high_bound(center.y + r),
                lo_z == low_bound(center.z - r),
                hi_z == high_bound(center.z + r),
                lo_x <= x <= hi_x,
                lo_y <= y <= hi_y + 1,
                ny == hi_y - lo_y + 1,
                nz == hi_z - lo_z + 1,
                positions@.len() == (x - lo_x) * (ny * nz) + (y - lo_y) * nz,
                forall|c: ChunkCoord|
                    positions@.contains(c) <==> (center.distance(c) <= radius && (c.x < x || (c.x
                        == x && c.y < y))),
                forall|i: int, j: int|
                    0 <= i < j < positions@.len() ==> (#[trigger] positions@[i]).lex_lt(
                        #[trigger] positions@[j],
                    ),
            decreases hi_y + 1 - y,
        {
            let mut z: i64 = lo_z;
            while z <= hi_z
                invariant
                    0 <= r == radius,
                    lo_x == low_bound(center.x - r),
                    hi_x == high_bound(center.x + r),
                    lo_y == low_bound(center.y - r),
                    hi_y == high_bound(center.y + r),
                    lo_z == low_bound(center.z - r),
                    hi_z == high_bound(center.z + r),
                    lo_x <= x <= hi_x,
                    lo_y <= y <= hi_y,
                    lo_z <= z <= hi_z + 1,
                    ny == hi_y - lo_y + 1,
                    nz == hi_z - lo_z + 1,
                    positions@.len() == (x - lo_x) * (ny * nz) + (y - lo_y) * nz + (z - lo_z),
                    forall|c: ChunkCoord|
                        positions@.contains(c) <==> (center.distance(c) <= radius && (c.x < x || (
                        c.x == x && (c.y < y || (c.y == y && c.z < z))))),
                    forall|i: int, j: int|
                        0 <= i < j < positions@.len() ==> (#[trigger] positions@[i]).lex_lt(
                            #[trigger] positions@[j],
                        ),
                decreases hi_z + 1 - z,
            {
                let c = ChunkCoord { x: x as i32, y: y as i32, z: z as i32 };
                let ghost before = positions@;
                positions.push(c);
                proof {
                    assert(center.distance(c) <= radius);
                    assert forall|d: ChunkCoord|
                        positions@.contains(d) <==> (center.distance(d) <= radius && (d.x < x || (
                        d.x == x && (d.y < y || (d.y == y && d.z < z + 1))))) by {
                        if positions@.contains(d) {
                            let k = choose|k: int| 0 <= k < positions@.len() && positions@[k] == d;
                            if k < before.len() {
                                assert(before[k] == d);
                                assert(before.contains(d));
                            }
                        }
                        if before.contains(d) {
                            let k = choose|k: int| 0 <= k < before.len() && before[k] == d;
                            assert(positions@[k] == d);
                        }
                        if d == c {
                            assert(positions@[before.len() as int] == d);
                        }
                    }
                    assert forall|i: int, j: int| 0 <= i < j < positions@.len() implies (
                    #[trigger] positions@[i]).lex_lt(#[trigger] positions@[j]) by {
                        if j == before.len() {
                            assert(before[i] == positions@[i]);
                            assert(before.contains(positions@[i]));
                        } else {
                            assert(before[i] == positions@[i]);
                            assert(before[j] == positions@[j]);
                        }
                    }
                }
                z += 1;
            }
            assert((y + 1 - lo_y) * nz == (y - lo_y) * nz + nz) by (nonlinear_arith);
            y += 1;
        }
        assert((x + 1 - lo_x) * (ny * nz) == (x - lo_x) * (ny * nz) + ny * nz) by (nonlinear_arith);
        x += 1;
    }
    proof {
        assert forall|c: ChunkCoord| positions@.contains(c) <==> center.distance(c) <= radius by {
            if center.distance(c) <= radius {
                assert(c.x <= hi_x);
            }
        }
        assert forall|i: int, j: int|
            0 <= i < positions@.len() && 0 <= j < positions@.len() && i != j implies positions@[i]
            != positions@[j] by {
            if i < j {
                assert(positions@[i].lex_lt(positions@[j]));
            } else {
                assert(positions@[j].lex_lt(positions@[i]));
            }
        }
    }
    positions
}

/// `v`, or the smallest 32-bit number if `v` lies below it.
pub open spec fn low_bound(v: int) -> int {
    if v < i32::MIN {
        i32::MIN as int
    } else {
        v
    }
}

/// `v`, or the largest 32-bit number if `v` lies above it.
pub open spec fn high_bound(v: int) -> int {
    if v > i32::MAX {
        i32::MAX as int
    } else {
        v
    }
}

fn clamp_low(v: i64) -> (r: i64)
    ensures
        r == low_bound(v as int),
{
    if v < i32::MIN as i64 {
        i32::MIN as i64
    } else {
        v
    }
}

fn clamp_high(v: i64) -> (r: i64)
    ensures
        r == high_bound(v as int),
{
    if v > i32::MAX as i64 {
        i32::MAX as i64
    } else {
        v
    }
}

} // verus!
