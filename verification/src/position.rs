//! World-space block and chunk coordinates.
//!
//! A block position is a signed 3-tuple in world coordinates; a chunk
//! position identifies the 16x16 horizontal column that owns a block.

use vstd::prelude::*;
use vstd::arithmetic::div_mod::lemma_fundamental_div_mod;
use vstd::arithmetic::div_mod::lemma_fundamental_div_mod_converse;

verus! {

/// Lowest valid world y coordinate.
pub const MIN_WORLD_Y: i32 = 0;

/// Highest valid world y coordinate (inclusive).
pub const MAX_WORLD_Y: i32 = 256;

/// Horizontal extent of a chunk in blocks, along both x and z.
pub const CHUNK_WIDTH: usize = 16;

/// Number of block layers a chunk holds (all valid y levels).
pub const CHUNK_HEIGHT: usize = 257;

/// A block position in world coordinates.
#[derive(Clone, Copy, PartialEq, Eq, Structural, Hash, Debug)]
pub struct BlockPosition {
    pub x: i32,
    pub y: i32,
    pub z: i32,
}

/// A chunk position: the index of a 16x16 column on the coarser grid.
#[derive(Clone, Copy, PartialEq, Eq, Structural, Hash, Debug)]
pub struct ChunkPosition {
    pub x: i32,
    pub z: i32,
}

/// Absolute difference of two mathematical integers.
pub open spec fn abs_diff_int(a: int, b: int) -> int {
    if a >= b {
        a - b
    } else {
        b - a
    }
}

/// Manhattan (L1) distance between two block positions.
pub open spec fn spec_manhattan(a: BlockPosition, b: BlockPosition) -> int {
    abs_diff_int(a.x as int, b.x as int) + abs_diff_int(a.y as int, b.y as int)
        + abs_diff_int(a.z as int, b.z as int)
}

/// Whether `y` lies inside the vertical world bounds.
pub open spec fn spec_y_in_bounds(y: int) -> bool {
    MIN_WORLD_Y <= y <= MAX_WORLD_Y
}

/// Chunk coordinate owning world coordinate `v`: the floor of `v / 16`.
pub open spec fn spec_chunk_coord(v: int) -> int {
    v / 16
}

/// The chunk position owning a block position.
pub open spec fn spec_chunk_pos_of(p: BlockPosition) -> ChunkPosition {
    ChunkPosition { x: spec_chunk_coord(p.x as int) as i32, z: spec_chunk_coord(p.z as int) as i32 }
}

/// Block-local offset of world coordinate `v` within its chunk, in `0..16`.
pub open spec fn spec_local_coord(v: int) -> int {
    v - 16 * spec_chunk_coord(v)
}

proof fn lemma_div16_range(v: int, q: int)
    by (nonlinear_arith)
    requires
        16 * q <= v < 16 * q + 16,
        i32::MIN <= v <= i32::MAX,
    ensures
        i32::MIN <= q <= i32::MAX,
{
}

pub proof fn lemma_chunk_coord_bounds(v: int)
    requires
        i32::MIN <= v <= i32::MAX,
    ensures
        i32::MIN <= spec_chunk_coord(v) <= i32::MAX,
        0 <= spec_local_coord(v) < 16,
{
    lemma_fundamental_div_mod(v, 16);
    assert(v % 16 == v - 16 * (v / 16));
    assert(0 <= v % 16 < 16);
    lemma_div16_range(v, v / 16);
}

/// A coordinate assembled from a chunk coordinate and a local offset takes
/// those two back as its decomposition.
pub proof fn lemma_compose_coord(c: int, r: int)
    requires
        0 <= r < 16,
        i32::MIN <= 16 * c + r <= i32::MAX,
    ensures
        spec_chunk_coord(16 * c + r) == c,
        spec_local_coord(16 * c + r) == r,
{
    lemma_fundamental_div_mod_converse(16 * c + r, 16, c, r);
}

/// The Manhattan distance is zero exactly between a position and itself.
pub proof fn lemma_manhattan_zero(a: BlockPosition, b: BlockPosition)
    ensures
        (spec_manhattan(a, b) == 0) == (a == b),
{
    if spec_manhattan(a, b) == 0 {
        assert(a.x == b.x && a.y == b.y && a.z == b.z);
    }
}

/// Triangle inequality for the Manhattan distance.
pub proof fn lemma_manhattan_triangle(a: BlockPosition, b: BlockPosition, c: BlockPosition)
    ensures
        spec_manhattan(a, c) <= spec_manhattan(a, b) + spec_manhattan(b, c),
{
}

/// Whether all three coordinates of `p` sit at least `m` steps away from
/// the ends of the `i32` range, so offsetting by up to `m` cannot wrap.
pub open spec fn spec_fits(p: BlockPosition, m: int) -> bool {
    &&& i32::MIN + m <= p.x as int <= i32::MAX - m
    &&& i32::MIN + m <= p.y as int <= i32::MAX - m
    &&& i32::MIN + m <= p.z as int <= i32::MAX - m
}

/// Two block positions agreeing on owning chunk, local offsets and height
/// are the same position.
pub proof fn lemma_same_cell_same_position(p: BlockPosition, q: BlockPosition)
    requires
        spec_chunk_pos_of(p) == spec_chunk_pos_of(q),
        spec_local_coord(p.x as int) == spec_local_coord(q.x as int),
        p.y == q.y,
        spec_local_coord(p.z as int) == spec_local_coord(q.z as int),
    ensures
        p == q,
{
    lemma_chunk_coord_bounds(p.x as int);
    lemma_chunk_coord_bounds(q.x as int);
    lemma_chunk_coord_bounds(p.z as int);
    lemma_chunk_coord_bounds(q.z as int);
    assert(p.x as int == 16 * spec_chunk_coord(p.x as int) + spec_local_coord(p.x as int));
    assert(q.x as int == 16 * spec_chunk_coord(q.x as int) + spec_local_coord(q.x as int));
    assert(p.z as int == 16 * spec_chunk_coord(p.z as int) + spec_local_coord(p.z as int));
    assert(q.z as int == 16 * spec_chunk_coord(q.z as int) + spec_local_coord(q.z as int));
}

/// Floor division of a world coordinate by 16, total over all of `i32`.
fn floor_div_16(v: i32) -> (q: i32)
    ensures
        q as int == spec_chunk_coord(v as int),
{
    proof {
        lemma_chunk_coord_bounds(v as int);
    }
    if v >= 0 {
        v / 16
    } else {
        let w: i64 = v as i64;
        let neg: i64 = -w;
        let k: i64 = (neg + 15) / 16;
        proof {
            lemma_fundamental_div_mod((neg + 15) as int, 16);
            let s = (neg + 15) % 16;
            lemma_fundamental_div_mod_converse(v as int, 16, (-k) as int, (15 - s) as int);
        }
        (-k) as i32
    }
}

impl BlockPosition {
    /// Builds a block position from its three world coordinates.
    pub fn new(x: i32, y: i32, z: i32) -> (r: BlockPosition)
        ensures
            r == (BlockPosition { x, y, z }),
    {
        BlockPosition { x, y, z }
    }

    /// Manhattan distance to another block position; never overflows.
    pub fn manhattan_distance(&self, other: BlockPosition) -> (d: i64)
        ensures
            d as int == spec_manhattan(*self, other),
    {
        let dx: i64 = self.x as i64 - other.x as i64;
        let dy: i64 = self.y as i64 - other.y as i64;
        let dz: i64 = self.z as i64 - other.z as i64;
        let ax: i64 = if dx >= 0 { dx } else { -dx };
        let ay: i64 = if dy >= 0 { dy } else { -dy };
        let az: i64 = if dz >= 0 { dz } else { -dz };
        ax + ay + az
    }

    /// The chunk position owning this block position.
    pub fn chunk_pos(&self) -> (cp: ChunkPosition)
        ensures
            cp == spec_chunk_pos_of(*self),
    {
        ChunkPosition { x: floor_div_16(self.x), z: floor_div_16(self.z) }
    }

    /// Whether this position's y coordinate lies inside the world bounds.
    pub fn y_in_bounds(&self) -> (r: bool)
        ensures
            r == spec_y_in_bounds(self.y as int),
    {
        MIN_WORLD_Y <= self.y && self.y <= MAX_WORLD_Y
    }
}

impl ChunkPosition {
    /// Builds a chunk position from its two coordinates.
    pub fn new(x: i32, z: i32) -> (r: ChunkPosition)
        ensures
            r == (ChunkPosition { x, z }),
    {
        ChunkPosition { x, z }
    }
}

/// Splits a block position into chunk-local grid offsets, valid whenever the
/// y coordinate is inside the world bounds.
pub fn local_coords(p: BlockPosition) -> (r: (usize, usize, usize))
    requires
        spec_y_in_bounds(p.y as int),
    ensures
        r.0 as int == spec_local_coord(p.x as int),
        r.1 as int == p.y as int,
        r.2 as int == spec_local_coord(p.z as int),
        r.0 < CHUNK_WIDTH,
        r.1 < CHUNK_HEIGHT,
        r.2 < CHUNK_WIDTH,
{
    proof {
        lemma_chunk_coord_bounds(p.x as int);
        lemma_chunk_coord_bounds(p.z as int);
    }
    let cx: i64 = floor_div_16(p.x) as i64;
    let cz: i64 = floor_div_16(p.z) as i64;
    let lx: i64 = p.x as i64 - 16 * cx;
    let lz: i64 = p.z as i64 - 16 * cz;
    (lx as usize, p.y as usize, lz as usize)
}

} // verus!
