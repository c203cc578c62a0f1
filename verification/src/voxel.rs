//! Voxels and the dense per-chunk voxel buffer.

use vstd::prelude::*;

verus! {

/// Material tag of a cell that holds nothing.
pub const EMPTY_TAG: u16 = 0;

/// Material tag of dirt.
pub const DIRT_TAG: u16 = 1;

/// Material tag of stone.
pub const STONE_TAG: u16 = 2;

/// One cell of world content, tagged with its material.
#[derive(Copy, Clone, Eq, PartialEq, Debug, Structural)]
pub struct Voxel(pub u16);

impl Voxel {
    /// The empty voxel.
    pub fn empty() -> (v: Voxel)
        ensures
            v == Voxel(EMPTY_TAG),
    {
        Voxel(EMPTY_TAG)
    }

    /// The dirt voxel.
    pub fn dirt() -> (v: Voxel)
        ensures
            v == Voxel(DIRT_TAG),
    {
        Voxel(DIRT_TAG)
    }

    /// The stone voxel.
    pub fn stone() -> (v: Voxel)
        ensures
            v == Voxel(STONE_TAG),
    {
        Voxel(STONE_TAG)
    }

    /// Whether this cell holds no material.
    pub fn is_empty(&self) -> (r: bool)
        ensures
            r == (self.0 == EMPTY_TAG),
    {
        self.0 == EMPTY_TAG
    }
}

/// Extent of a buffer, or a cell position inside one, per axis.
#[derive(Copy, Clone, Eq, PartialEq, Debug, Structural)]
pub struct UVec3 {
    pub x: u32,
    pub y: u32,
    pub z: u32,
}

impl UVec3 {
    pub fn new(x: u32, y: u32, z: u32) -> (v: UVec3)
        ensures
            v == (UVec3 { x, y, z }),
    {
        UVec3 { x, y, z }
    }

    /// The vector with all three components equal to `v`.
    pub fn splat(v: u32) -> (r: UVec3)
        ensures
            r == (UVec3 { x: v, y: v, z: v }),
    {
        UVec3 { x: v, y: v, z: v }
    }

    /// Number of cells in a box of this extent.
    pub open spec fn volume(self) -> nat {
        (self.x * self.y * self.z) as nat
    }

    /// Number of cells in a box of this extent, computed without overflow.
    pub fn cells(self) -> (n: u128)
        ensures
            n == self.volume(),
    {
        proof {
            let x = self.x as int;
            let y = self.y as int;
            let z = self.z as int;
            assert(0 <= x * y <= 0xffff_ffff * 0xffff_ffff) by (nonlinear_arith)
                requires 0 <= x <= 0xffff_ffff, 0 <= y <= 0xffff_ffff;
            assert(0 <= (x * y) * z <= (0xffff_ffff * 0xffff_ffff) * 0xffff_ffff) by (nonlinear_arith)
                requires 0 <= x * y <= 0xffff_ffff * 0xffff_ffff, 0 <= z <= 0xffff_ffff;
        }
        self.x as u128 * self.y as u128 * self.z as u128
    }

    /// Whether `self`, read as a position, lies inside a box of extent `size`.
    pub open spec fn within(self, size: UVec3) -> bool {
        self.x < size.x && self.y < size.y && self.z < size.z
    }

    /// Linear index of position `self` in a box of extent `size`:
    /// x runs fastest, then y, then z.
    pub open spec fn linear(self, size: UVec3) -> int {
        self.x + self.y * size.x + self.z * size.x * size.y
    }
}

/// A position inside the box has a linear index below the volume.
pub proof fn lemma_linear_in_volume(pos: UVec3, size: UVec3)
    requires
        pos.within(size),
    ensures
        0 <= pos.linear(size) < size.volume(),
{
    let sx = size.x as int;
    let sy = size.y as int;
    let sz = size.z as int;
    let px = pos.x as int;
    let py = pos.y as int;
    let pz = pos.z as int;
    assert(py * sx <= (sy - 1) * sx) by (nonlinear_arith)
        requires 0 <= py <= sy - 1, 0 <= sx;
    assert(pz * (sx * sy) <= (sz - 1) * (sx * sy)) by (nonlinear_arith)
        requires 0 <= pz <= sz - 1, 0 <= sx * sy;
    assert(0 <= sx * sy) by (nonlinear_arith)
        requires 0 <= sx, 0 <= sy;
    assert(0 <= py * sx) by (nonlinear_arith)
        requires 0 <= py, 0 <= sx;
    assert(0 <= pz * (sx * sy)) by (nonlinear_arith)
        requires 0 <= pz, 0 <= sx * sy;
    assert(pz * sx * sy == pz * (sx * sy)) by (nonlinear_arith);
    assert((sz - 1) * (sx * sy) + (sy - 1) * sx + sx == sx * sy * sz) by (nonlinear_arith);
}

/// Distinct positions inside the box have distinct linear indices.
pub proof fn lemma_linear_injective(a: UVec3, b: UVec3, size: UVec3)
    requires
        a.within(size),
        b.within(size),
        a.linear(size) == b.linear(size),
    ensures
        a == b,
{
    let sx = size.x as int;
    let sy = size.y as int;
    let row_a = a.y + a.z * sy;
    let row_b = b.y + b.z * sy;
    assert(a.linear(size) == a.x + row_a * sx) by (nonlinear_arith)
        requires a.linear(size) == a.x + a.y * sx + a.z * sx * sy, row_a == a.y + a.z * sy;
    assert(b.linear(size) == b.x + row_b * sx) by (nonlinear_arith)
        requires b.linear(size) == b.x + b.y * sx + b.z * sx * sy, row_b == b.y + b.z * sy;
    assert(row_a == row_b && a.x == b.x) by (nonlinear_arith)
        requires
            a.x + row_a * sx == b.x + row_b * sx,
            0 <= a.x < sx,
            0 <= b.x < sx,
    {
        if row_a < row_b {
            assert((row_b - row_a) * sx >= sx);
        } else if row_b < row_a {
            assert((row_a - row_b) * sx >= sx);
        }
    }
    assert(a.z == b.z && a.y == b.y) by (nonlinear_arith)
        requires
            a.y + a.z * sy == b.y + b.z * sy,
            0 <= a.y < sy,
            0 <= b.y < sy,
    {
        if a.z < b.z {
            assert((b.z - a.z) * sy >= sy);
        } else if b.z < a.z {
            assert((a.z - b.z) * sy >= sy);
        }
    }
}

/// A dense three-dimensional array of voxels for one chunk.
#[derive(Debug, Clone, PartialEq, Eq)]
pub struct VoxelBuffer {
    pub size: UVec3,
    pub voxels: Vec<Voxel>,
}

impl VoxelBuffer {
    /// A buffer is well formed when it holds one voxel per cell of its
    /// extent.
    pub open spec fn wf(&self) -> bool {
        self.voxels@.len() == self.size.volume()
    }

    /// Whether the buffer holds one voxel per cell of its extent. A
    /// buffer that has travelled need not.
    pub fn is_well_formed(&self) -> (r: bool)
        ensures
            r == self.wf(),
    {
        self.size.cells() == self.voxels.len() as u128
    }

    /// The voxel stored at `pos`.
    pub open spec fn at(&self, pos: UVec3) -> Voxel {
        self.voxels@[pos.linear(self.size)]
    }

    /// An all-empty buffer of the given extent, whose volume must be a
    /// length that a vector can have.
    pub fn new(size: UVec3) -> (b: VoxelBuffer)
        requires
            size.volume() <= usize::MAX,
        ensures
            b.wf(),
            b.size == size,
            forall|i: int| 0 <= i < b.voxels@.len() ==> b.voxels@[i] == Voxel(EMPTY_TAG),
    {
        let volume: usize = size.cells() as usize;
        let mut voxels: Vec<Voxel> = Vec::new();
        let mut i: usize = 0;
        while i < volume
            invariant
                i <= volume,
                voxels@.len() == i,
                forall|k: int| 0 <= k < i ==> voxels@[k] == Voxel(EMPTY_TAG),
            decreases volume - i,
        {
            voxels.push(Voxel(EMPTY_TAG));
            i += 1;
        }
        VoxelBuffer { size, voxels }
    }

    /// The voxel at `pos`, which must lie inside the buffer.
    pub fn get(&self, pos: UVec3) -> (v: Voxel)
        requires
            self.wf(),
            pos.within(self.size),
        ensures
            v == self.at(pos),
    {
        let i = self.index(pos);
        self.voxels[i]
    }

    /// Stores `voxel` at `pos`, which must lie inside the buffer; every
    /// other cell keeps its value.
    pub fn set(&mut self, pos: UVec3, voxel: Voxel)
        requires
            old(self).wf(),
            pos.within(old(self).size),
        ensures
            final(self).wf(),
            final(self).size == old(self).size,
            final(self).voxels@ == old(self).voxels@.update(pos.linear(old(self).size), voxel),
            final(self).at(pos) == voxel,
            forall|other: UVec3|
                other.within(old(self).size) && other != pos ==> #[trigger] final(self).at(other)
                    == old(self).at(other),
    {
        let i = self.index(pos);
        self.voxels.set(i, voxel);
        proof {
            assert forall|other: UVec3| other.within(self.size) && other != pos implies #[trigger] self.at(
                other,
            ) == old(self).at(other) by {
                lemma_linear_in_volume(other, self.size);
                if other.linear(self.size) == pos.linear(self.size) {
                    lemma_linear_injective(other, pos, self.size);
                }
            }
        }
    }

    fn index(&self, pos: UVec3) -> (i: usize)
        requires
            self.wf(),
            pos.within(self.size),
        ensures
            i == pos.linear(self.size),
            i < self.voxels@.len(),
    {
        let _len = self.voxels.len();
        proof {
            lemma_linear_in_volume(pos, self.size);
            let sx = self.size.x as int;
            let sy = self.size.y as int;
            let px = pos.x as int;
            let py = pos.y as int;
            let pz = pos.z as int;
            assert(0 <= py * sx) by (nonlinear_arith)
                requires 0 <= py, 0 <= sx;
            assert(0 <= pz * sx && pz * sx <= pz * sx * sy) by (nonlinear_arith)
                requires 0 <= pz, 0 <= sx, 1 <= sy;
            assert(pos.linear(self.size) == px + py * sx + pz * sx * sy);
        }
        pos.x as usize + pos.y as usize * self.size.x as usize + pos.z as usize
            * self.size.x as usize * self.size.y as usize
    }
}

} // verus!
