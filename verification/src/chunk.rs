//! A chunk: dense per-block light and block-type grids for one 16x16 column.

use vstd::prelude::*;
use crate::position::ChunkPosition;
use crate::position::CHUNK_WIDTH;
use crate::position::CHUNK_HEIGHT;
use crate::block::Block;
use crate::block::MAX_LIGHT_LEVEL;

verus! {

/// Number of block cells a chunk holds.
pub const CHUNK_VOLUME: usize = CHUNK_WIDTH * CHUNK_HEIGHT * CHUNK_WIDTH;

/// Flat grid offset of the chunk-local coordinates `(lx, ly, lz)`.
pub open spec fn spec_grid_index(lx: int, ly: int, lz: int) -> int {
    (lx * CHUNK_HEIGHT as int + ly) * CHUNK_WIDTH as int + lz
}

/// Whether `(lx, ly, lz)` are valid chunk-local coordinates.
pub open spec fn spec_local_in_range(lx: int, ly: int, lz: int) -> bool {
    0 <= lx < CHUNK_WIDTH && 0 <= ly < CHUNK_HEIGHT && 0 <= lz < CHUNK_WIDTH
}

pub proof fn lemma_grid_index_bounds(lx: int, ly: int, lz: int)
    by (nonlinear_arith)
    requires
        spec_local_in_range(lx, ly, lz),
    ensures
        0 <= spec_grid_index(lx, ly, lz) < CHUNK_VOLUME,
{
}

pub proof fn lemma_grid_index_injective(
    lx1: int, ly1: int, lz1: int,
    lx2: int, ly2: int, lz2: int,
)
    by (nonlinear_arith)
    requires
        spec_local_in_range(lx1, ly1, lz1),
        spec_local_in_range(lx2, ly2, lz2),
        !(lx1 == lx2 && ly1 == ly2 && lz1 == lz2),
    ensures
        spec_grid_index(lx1, ly1, lz1) != spec_grid_index(lx2, ly2, lz2),
{
}

/// One 16x16 column of the world: a light value and a block type per cell.
pub struct Chunk {
    pub position: ChunkPosition,
    pub lights: Vec<u8>,
    pub blocks: Vec<Block>,
}

impl Chunk {
    /// Grid sizes are exact, every light value is a light level, and every
    /// block type is well formed.
    pub open spec fn wf(self) -> bool {
        &&& self.lights@.len() == CHUNK_VOLUME
        &&& self.blocks@.len() == CHUNK_VOLUME
        &&& forall|i: int| 0 <= i < CHUNK_VOLUME ==> self.lights@[i] <= MAX_LIGHT_LEVEL
        &&& forall|i: int| 0 <= i < CHUNK_VOLUME ==> self.blocks@[i].wf()
    }

    /// Stored light value at chunk-local coordinates.
    pub open spec fn spec_light(self, lx: int, ly: int, lz: int) -> u8 {
        self.lights@[spec_grid_index(lx, ly, lz)]
    }

    /// Stored block type at chunk-local coordinates.
    pub open spec fn spec_block(self, lx: int, ly: int, lz: int) -> Block {
        self.blocks@[spec_grid_index(lx, ly, lz)]
    }

    /// Builds a chunk with all lights zero and every cell the air sentinel.
    pub fn new(position: ChunkPosition) -> (c: Chunk)
        ensures
            c.wf(),
            c.position == position,
            forall|lx: int, ly: int, lz: int|
                spec_local_in_range(lx, ly, lz) ==> c.spec_light(lx, ly, lz) == 0u8,
            forall|lx: int, ly: int, lz: int|
                spec_local_in_range(lx, ly, lz) ==> c.spec_block(lx, ly, lz) == Block::spec_air(),
    {
        let mut lights: Vec<u8> = Vec::new();
        let mut blocks: Vec<Block> = Vec::new();
        let mut i: usize = 0;
        while i < CHUNK_VOLUME
            invariant
                i <= CHUNK_VOLUME,
                lights@.len() == i,
                blocks@.len() == i,
                forall|j: int| 0 <= j < i ==> lights@[j] == 0u8,
                forall|j: int| 0 <= j < i ==> blocks@[j] == Block::spec_air(),
            decreases CHUNK_VOLUME - i,
        {
            lights.push(0);
            blocks.push(Block::air());
            i += 1;
        }
        let c = Chunk { position, lights, blocks };
        proof {
            assert forall|lx: int, ly: int, lz: int|
                spec_local_in_range(lx, ly, lz) implies c.spec_light(lx, ly, lz) == 0u8
                && c.spec_block(lx, ly, lz) == Block::spec_air() by {
                lemma_grid_index_bounds(lx, ly, lz);
            }
        }
        c
    }

    /// Reads the stored light value at chunk-local coordinates.
    pub fn block_light_at(&self, lx: usize, ly: usize, lz: usize) -> (v: u8)
        requires
            self.wf(),
            spec_local_in_range(lx as int, ly as int, lz as int),
        ensures
            v == self.spec_light(lx as int, ly as int, lz as int),
            v <= MAX_LIGHT_LEVEL,
    {
        proof {
            lemma_grid_index_bounds(lx as int, ly as int, lz as int);
        }
        let idx: usize = (lx * CHUNK_HEIGHT + ly) * CHUNK_WIDTH + lz;
        self.lights[idx]
    }

    /// Stores a light value at chunk-local coordinates; every other cell,
    /// every block, and the chunk position are untouched.
    pub fn set_block_light_at(&mut self, lx: usize, ly: usize, lz: usize, value: u8)
        requires
            old(self).wf(),
            spec_local_in_range(lx as int, ly as int, lz as int),
            value <= MAX_LIGHT_LEVEL,
        ensures
            final(self).wf(),
            final(self).position == old(self).position,
            forall|ax: int, ay: int, az: int|
                spec_local_in_range(ax, ay, az) ==> final(self).spec_block(ax, ay, az)
                    == old(self).spec_block(ax, ay, az),
            final(self).spec_light(lx as int, ly as int, lz as int) == value,
            forall|ax: int, ay: int, az: int|
                spec_local_in_range(ax, ay, az) && !(ax == lx && ay == ly && az == lz)
                    ==> final(self).spec_light(ax, ay, az) == old(self).spec_light(ax, ay, az),
    {
        proof {
            lemma_grid_index_bounds(lx as int, ly as int, lz as int);
        }
        let idx: usize = (lx * CHUNK_HEIGHT + ly) * CHUNK_WIDTH + lz;
        self.lights[idx] = value;
        proof {
            assert forall|ax: int, ay: int, az: int|
                spec_local_in_range(ax, ay, az) && !(ax == lx && ay == ly && az == lz)
                    implies final(self).spec_light(ax, ay, az) == old(self).spec_light(ax, ay, az) by {
                lemma_grid_index_bounds(ax, ay, az);
                lemma_grid_index_injective(ax, ay, az, lx as int, ly as int, lz as int);
            }
        }
    }

    /// Reads the stored block type at chunk-local coordinates.
    pub fn block_at(&self, lx: usize, ly: usize, lz: usize) -> (b: Block)
        requires
            self.wf(),
            spec_local_in_range(lx as int, ly as int, lz as int),
        ensures
            b == self.spec_block(lx as int, ly as int, lz as int),
            b.wf(),
    {
        proof {
            lemma_grid_index_bounds(lx as int, ly as int, lz as int);
        }
        let idx: usize = (lx * CHUNK_HEIGHT + ly) * CHUNK_WIDTH + lz;
        self.blocks[idx]
    }

    /// Stores a block type at chunk-local coordinates; every other cell,
    /// every light value, and the chunk position are untouched.
    pub fn set_block_at(&mut self, lx: usize, ly: usize, lz: usize, b: Block)
        requires
            old(self).wf(),
            spec_local_in_range(lx as int, ly as int, lz as int),
            b.wf(),
        ensures
            final(self).wf(),
            final(self).position == old(self).position,
            forall|ax: int, ay: int, az: int|
                spec_local_in_range(ax, ay, az) ==> final(self).spec_light(ax, ay, az)
                    == old(self).spec_light(ax, ay, az),
            final(self).spec_block(lx as int, ly as int, lz as int) == b,
            forall|ax: int, ay: int, az: int|
                spec_local_in_range(ax, ay, az) && !(ax == lx && ay == ly && az == lz)
                    ==> final(self).spec_block(ax, ay, az) == old(self).spec_block(ax, ay, az),
    {
        proof {
            lemma_grid_index_bounds(lx as int, ly as int, lz as int);
        }
        let idx: usize = (lx * CHUNK_HEIGHT + ly) * CHUNK_WIDTH + lz;
        self.blocks[idx] = b;
        proof {
            assert forall|ax: int, ay: int, az: int|
                spec_local_in_range(ax, ay, az) && !(ax == lx && ay == ly && az == lz)
                    implies final(self).spec_block(ax, ay, az) == old(self).spec_block(ax, ay, az) by {
                lemma_grid_index_bounds(ax, ay, az);
                lemma_grid_index_injective(ax, ay, az, lx as int, ly as int, lz as int);
            }
        }
    }

    /// The chunk position this chunk belongs to.
    pub fn position(&self) -> (cp: ChunkPosition)
        ensures
            cp == self.position,
    {
        self.position
    }
}

} // verus!
