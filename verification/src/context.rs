//! The spatial grid accessor: world-coordinate reads and writes with a
//! one-chunk cache.
//!
//! The cache is an index into the map's chunk vector, re-validated on every
//! access, so a stale entry can never serve a position outside its chunk.

use vstd::prelude::*;
use crate::block::Block;
use crate::block::MAX_LIGHT_LEVEL;
use crate::chunk_map::ChunkMap;
use crate::chunk_map::lemma_chunk_at_index;
use crate::chunk_map::lemma_replace_at;
use crate::position::BlockPosition;
use crate::position::ChunkPosition;
use crate::position::local_coords;
use crate::position::spec_chunk_pos_of;
use crate::position::spec_local_coord;
use crate::position::spec_y_in_bounds;
use crate::position::lemma_chunk_coord_bounds;
use crate::position::lemma_same_cell_same_position;

verus! {

/// Owns the chunk map for the duration of a lighting pass and caches the
/// most recently touched chunk's index.
pub struct Context {
    pub map: ChunkMap,
    pub cached: usize,
}

impl Context {
    /// The underlying map is well formed.
    pub open spec fn wf(self) -> bool {
        self.map.wf()
    }

    /// Light stored at a world position (0 when unloaded or out of bounds).
    pub open spec fn light(self, p: BlockPosition) -> u8 {
        self.map.spec_light_at(p)
    }

    /// Block type stored at a world position (air when unloaded or out of
    /// bounds).
    pub open spec fn block(self, p: BlockPosition) -> Block {
        self.map.spec_block_at(p)
    }

    /// Whether a chunk is loaded at the given chunk position.
    pub open spec fn has_chunk(self, cp: ChunkPosition) -> bool {
        self.map.spec_has_chunk(cp)
    }

    /// The chunk position the cache currently points at, if it is valid.
    pub open spec fn spec_cached_chunk_pos(self) -> Option<ChunkPosition> {
        if self.cached < self.map.chunks@.len() {
            Some(self.map.chunks@[self.cached as int].position)
        } else {
            None
        }
    }

    /// Builds a context over `map`, priming the cache with the chunk at
    /// `start`; yields nothing when that chunk is not loaded.
    pub fn new(map: ChunkMap, start: ChunkPosition) -> (r: Option<Context>)
        requires
            map.wf(),
        ensures
            match r {
                Some(ctx) => ctx.map == map && ctx.wf() && map.spec_has_chunk(start)
                    && ctx.spec_cached_chunk_pos() == Some(start),
                None => !map.spec_has_chunk(start),
            },
    {
        let idx = map.find_index(start);
        match idx {
            Some(i) => Some(Context { map, cached: i }),
            None => None,
        }
    }

    /// Hands the map back once the lighting pass is over.
    pub fn into_map(self) -> (m: ChunkMap)
        ensures
            m == self.map,
    {
        self.map
    }

    /// The chunk position of the currently cached chunk, if any.
    pub fn current_chunk_pos(&self) -> (r: Option<ChunkPosition>)
        ensures
            r == self.spec_cached_chunk_pos(),
    {
        if self.cached < self.map.chunks.len() {
            Some(self.map.chunks[self.cached].position())
        } else {
            None
        }
    }

    /// Points the cache at the chunk owning `cp`, reporting whether one is
    /// loaded; a cache hit answers without searching the map.
    pub fn resolve(&mut self, cp: ChunkPosition) -> (found: bool)
        requires
            old(self).wf(),
        ensures
            final(self).map == old(self).map,
            found == old(self).has_chunk(cp),
            found ==> final(self).spec_cached_chunk_pos() == Some(cp),
    {
        match self.resolve_index(cp) {
            Some(_) => true,
            None => false,
        }
    }

    /// Cache-aware lookup of the chunk index owning `cp`.
    fn resolve_index(&mut self, cp: ChunkPosition) -> (r: Option<usize>)
        requires
            old(self).wf(),
        ensures
            final(self).map == old(self).map,
            match r {
                Some(i) => i < final(self).map.chunks@.len()
                    && final(self).map.chunks@[i as int].position == cp
                    && final(self).cached == i,
                None => !old(self).has_chunk(cp),
            },
    {
        if self.cached < self.map.chunks.len() {
            if self.map.chunks[self.cached].position() == cp {
                return Some(self.cached);
            }
        }
        match self.map.find_index(cp) {
            Some(i) => {
                self.cached = i;
                Some(i)
            }
            None => None,
        }
    }

    /// Stored light at a world position: 0 when the position is outside the
    /// vertical bounds or its chunk is not loaded.
    pub fn block_light_at(&mut self, pos: BlockPosition) -> (v: u8)
        requires
            old(self).wf(),
        ensures
            final(self).map == old(self).map,
            v == old(self).light(pos),
            v <= MAX_LIGHT_LEVEL,
    {
        proof {
            reveal(ChunkMap::spec_light_at);
            reveal(ChunkMap::spec_block_at);
        }
        if !pos.y_in_bounds() {
            return 0;
        }
        let cp = pos.chunk_pos();
        match self.resolve_index(cp) {
            None => 0,
            Some(i) => {
                let (lx, ly, lz) = local_coords(pos);
                proof {
                    lemma_chunk_coord_bounds(pos.x as int);
                    lemma_chunk_coord_bounds(pos.z as int);
                    lemma_chunk_at_index(self.map, i as int, cp);
                }
                self.map.chunks[i].block_light_at(lx, ly, lz)
            }
        }
    }

    /// Stored block type at a world position: the air sentinel when the
    /// position is outside the vertical bounds or its chunk is not loaded.
    pub fn block_at(&mut self, pos: BlockPosition) -> (b: Block)
        requires
            old(self).wf(),
        ensures
            final(self).map == old(self).map,
            b == old(self).block(pos),
            b.wf(),
    {
        proof {
            reveal(ChunkMap::spec_light_at);
            reveal(ChunkMap::spec_block_at);
        }
        if !pos.y_in_bounds() {
            return Block::air();
        }
        let cp = pos.chunk_pos();
        match self.resolve_index(cp) {
            None => Block::air(),
            Some(i) => {
                let (lx, ly, lz) = local_coords(pos);
                proof {
                    lemma_chunk_coord_bounds(pos.x as int);
                    lemma_chunk_coord_bounds(pos.z as int);
                    lemma_chunk_at_index(self.map, i as int, cp);
                    crate::chunk::lemma_grid_index_bounds(lx as int, ly as int, lz as int);
                }
                self.map.chunks[i].block_at(lx, ly, lz)
            }
        }
    }

    /// Stores a light value at a world position; a no-op when the position
    /// is outside the vertical bounds or its chunk is not loaded.
    pub fn set_block_light_at(&mut self, pos: BlockPosition, value: u8)
        requires
            old(self).wf(),
            value <= MAX_LIGHT_LEVEL,
        ensures
            final(self).wf(),
            forall|cp: ChunkPosition| final(self).has_chunk(cp) == old(self).has_chunk(cp),
            forall|q: BlockPosition| final(self).block(q) == old(self).block(q),
            old(self).has_chunk(spec_chunk_pos_of(pos)) && spec_y_in_bounds(pos.y as int)
                ==> final(self).light(pos) == value,
            !(old(self).has_chunk(spec_chunk_pos_of(pos)) && spec_y_in_bounds(pos.y as int))
                ==> final(self).light(pos) == old(self).light(pos),
            forall|q: BlockPosition| q != pos ==> final(self).light(q) == old(self).light(q),
    {
        proof {
            reveal(ChunkMap::spec_light_at);
            reveal(ChunkMap::spec_block_at);
        }
        if !pos.y_in_bounds() {
            return;
        }
        let cp = pos.chunk_pos();
        match self.resolve_index(cp) {
            None => {}
            Some(i) => {
                let (lx, ly, lz) = local_coords(pos);
                proof {
                    lemma_chunk_coord_bounds(pos.x as int);
                    lemma_chunk_coord_bounds(pos.z as int);
                    lemma_chunk_at_index(self.map, i as int, cp);
                }
                let ghost before = self.map;
                let c = &mut self.map.chunks[i];
                c.set_block_light_at(lx, ly, lz, value);
                proof {
                    assert(self.map.chunks@ == before.chunks@.update(
                        i as int,
                        self.map.chunks@[i as int],
                    ));
                    lemma_replace_at(before, self.map, i as int, self.map.chunks@[i as int]);
                    lemma_chunk_at_index(self.map, i as int, cp);
                    assert(crate::chunk::spec_local_in_range(lx as int, ly as int, lz as int));
                    assert(self.map.chunks@[i as int].spec_block(lx as int, ly as int, lz as int)
                        == before.chunks@[i as int].spec_block(lx as int, ly as int, lz as int));
                    assert forall|q: BlockPosition| q != pos
                        implies final(self).light(q) == old(self).light(q) by {
                        lemma_point_reads_after_replace(before, self.map, i as int, pos, q);
                    }
                    assert forall|q: BlockPosition|
                        final(self).block(q) == old(self).block(q) by {
                        lemma_point_reads_after_replace(before, self.map, i as int, pos, q);
                    }
                }
            }
        }
    }

    /// Stores a block type at a world position; a no-op when the position
    /// is outside the vertical bounds or its chunk is not loaded.
    pub fn set_block_at(&mut self, pos: BlockPosition, b: Block)
        requires
            old(self).wf(),
            b.wf(),
        ensures
            final(self).wf(),
            forall|cp: ChunkPosition| final(self).has_chunk(cp) == old(self).has_chunk(cp),
            forall|q: BlockPosition| final(self).light(q) == old(self).light(q),
            old(self).has_chunk(spec_chunk_pos_of(pos)) && spec_y_in_bounds(pos.y as int)
                ==> final(self).block(pos) == b,
            !(old(self).has_chunk(spec_chunk_pos_of(pos)) && spec_y_in_bounds(pos.y as int))
                ==> final(self).block(pos) == old(self).block(pos),
            forall|q: BlockPosition| q != pos ==> final(self).block(q) == old(self).block(q),
    {
        proof {
            reveal(ChunkMap::spec_light_at);
            reveal(ChunkMap::spec_block_at);
        }
        if !pos.y_in_bounds() {
            return;
        }
        let cp = pos.chunk_pos();
        match self.resolve_index(cp) {
            None => {}
            Some(i) => {
                let (lx, ly, lz) = local_coords(pos);
                proof {
                    lemma_chunk_coord_bounds(pos.x as int);
                    lemma_chunk_coord_bounds(pos.z as int);
                    lemma_chunk_at_index(self.map, i as int, cp);
                }
                let ghost before = self.map;
                let c = &mut self.map.chunks[i];
                c.set_block_at(lx, ly, lz, b);
                proof {
                    assert(self.map.chunks@ == before.chunks@.update(
                        i as int,
                        self.map.chunks@[i as int],
                    ));
                    lemma_replace_at(before, self.map, i as int, self.map.chunks@[i as int]);
                    lemma_chunk_at_index(self.map, i as int, cp);
                    assert(crate::chunk::spec_local_in_range(lx as int, ly as int, lz as int));
                    assert(self.map.chunks@[i as int].spec_light(lx as int, ly as int, lz as int)
                        == before.chunks@[i as int].spec_light(lx as int, ly as int, lz as int));
                    assert forall|q: BlockPosition| q != pos
                        implies final(self).block(q) == old(self).block(q) by {
                        lemma_point_reads_after_replace(before, self.map, i as int, pos, q);
                    }
                    assert forall|q: BlockPosition|
                        final(self).light(q) == old(self).light(q) by {
                        lemma_point_reads_after_replace(before, self.map, i as int, pos, q);
                    }
                }
            }
        }
    }
}

/// After replacing the chunk at index `i` with one that differs only at the
/// cell of `pos`, every world read away from `pos` is unchanged, and block
/// reads are unchanged everywhere if the replacement kept every block.
proof fn lemma_point_reads_after_replace(
    m1: ChunkMap,
    m2: ChunkMap,
    i: int,
    pos: BlockPosition,
    q: BlockPosition,
)
    requires
        m1.wf(),
        m2.wf(),
        0 <= i < m1.chunks@.len(),
        m2.chunks@.len() == m1.chunks@.len(),
        m2.chunks@ == m1.chunks@.update(i, m2.chunks@[i]),
        m2.chunks@[i].position == m1.chunks@[i].position,
        m1.chunks@[i].position == spec_chunk_pos_of(pos),
        spec_y_in_bounds(pos.y as int),
        forall|ax: int, ay: int, az: int|
            crate::chunk::spec_local_in_range(ax, ay, az)
                && !(ax == spec_local_coord(pos.x as int) && ay == pos.y as int
                    && az == spec_local_coord(pos.z as int))
                ==> m2.chunks@[i].spec_light(ax, ay, az) == m1.chunks@[i].spec_light(ax, ay, az),
        forall|ax: int, ay: int, az: int|
            crate::chunk::spec_local_in_range(ax, ay, az)
                && !(ax == spec_local_coord(pos.x as int) && ay == pos.y as int
                    && az == spec_local_coord(pos.z as int))
                ==> m2.chunks@[i].spec_block(ax, ay, az) == m1.chunks@[i].spec_block(ax, ay, az),
    ensures
        q != pos ==> m2.spec_light_at(q) == m1.spec_light_at(q),
        q != pos ==> m2.spec_block_at(q) == m1.spec_block_at(q),
        m2.chunks@[i].spec_block(
            spec_local_coord(pos.x as int),
            pos.y as int,
            spec_local_coord(pos.z as int),
        ) == m1.chunks@[i].spec_block(
            spec_local_coord(pos.x as int),
            pos.y as int,
            spec_local_coord(pos.z as int),
        ) ==> m2.spec_block_at(q) == m1.spec_block_at(q),
        m2.chunks@[i].spec_light(
            spec_local_coord(pos.x as int),
            pos.y as int,
            spec_local_coord(pos.z as int),
        ) == m1.chunks@[i].spec_light(
            spec_local_coord(pos.x as int),
            pos.y as int,
            spec_local_coord(pos.z as int),
        ) ==> m2.spec_light_at(q) == m1.spec_light_at(q),
{
    reveal(ChunkMap::spec_light_at);
    reveal(ChunkMap::spec_block_at);
    let cp = spec_chunk_pos_of(pos);
    let cq = spec_chunk_pos_of(q);
    lemma_replace_at(m1, m2, i, m2.chunks@[i]);
    assert(m2.spec_has_chunk(cq) == m1.spec_has_chunk(cq));
    if spec_y_in_bounds(q.y as int) && m1.spec_has_chunk(cq) {
        if cq == cp {
            lemma_chunk_at_index(m1, i, cp);
            lemma_chunk_at_index(m2, i, cp);
            lemma_chunk_coord_bounds(q.x as int);
            lemma_chunk_coord_bounds(q.z as int);
            lemma_chunk_coord_bounds(pos.x as int);
            lemma_chunk_coord_bounds(pos.z as int);
            crate::chunk::lemma_grid_index_bounds(
                spec_local_coord(q.x as int),
                q.y as int,
                spec_local_coord(q.z as int),
            );
            assert(crate::chunk::spec_local_in_range(
                spec_local_coord(q.x as int),
                q.y as int,
                spec_local_coord(q.z as int),
            ));
            if q != pos {
                if spec_local_coord(q.x as int) == spec_local_coord(pos.x as int)
                    && q.y == pos.y
                    && spec_local_coord(q.z as int) == spec_local_coord(pos.z as int) {
                    lemma_same_cell_same_position(q, pos);
                    assert(false);
                }
                assert(m2.chunks@[i].spec_light(
                    spec_local_coord(q.x as int),
                    q.y as int,
                    spec_local_coord(q.z as int),
                ) == m1.chunks@[i].spec_light(
                    spec_local_coord(q.x as int),
                    q.y as int,
                    spec_local_coord(q.z as int),
                ));
                assert(m2.chunks@[i].spec_block(
                    spec_local_coord(q.x as int),
                    q.y as int,
                    spec_local_coord(q.z as int),
                ) == m1.chunks@[i].spec_block(
                    spec_local_coord(q.x as int),
                    q.y as int,
                    spec_local_coord(q.z as int),
                ));
            }
        } else {
            assert(m2.spec_chunk_at(cq) == m1.spec_chunk_at(cq));
        }
    }
}

} // verus!
