//! The spatial map: at most one chunk per chunk position, owning all chunks.

use vstd::prelude::*;
use crate::block::Block;
use crate::block::MAX_LIGHT_LEVEL;
use crate::chunk::Chunk;
use crate::position::BlockPosition;
use crate::position::ChunkPosition;
use crate::position::spec_chunk_pos_of;
use crate::position::spec_local_coord;
use crate::position::spec_y_in_bounds;

verus! {

/// Maps chunk positions to chunks. Backed by a vector whose entries carry
/// pairwise distinct chunk positions.
pub struct ChunkMap {
    pub chunks: Vec<Chunk>,
}

impl ChunkMap {
    /// Every chunk is well formed and no chunk position occurs twice.
    pub open spec fn wf(self) -> bool {
        &&& forall|i: int| 0 <= i < self.chunks@.len() ==> (#[trigger] self.chunks@[i]).wf()
        &&& forall|i: int, j: int|
            0 <= i < j < self.chunks@.len() ==> (#[trigger] self.chunks@[i]).position
                != (#[trigger] self.chunks@[j]).position
    }

    /// Whether a chunk is loaded at the given chunk position.
    pub open spec fn spec_has_chunk(self, cp: ChunkPosition) -> bool {
        exists|i: int| 0 <= i < self.chunks@.len() && (#[trigger] self.chunks@[i]).position == cp
    }

    /// The chunk loaded at `cp` (meaningful only when one is loaded).
    pub open spec fn spec_chunk_at(self, cp: ChunkPosition) -> Chunk {
        self.chunks@[choose|i: int|
            0 <= i < self.chunks@.len() && (#[trigger] self.chunks@[i]).position == cp]
    }

    /// Stored light at a world block position: 0 outside the vertical
    /// bounds and 0 wherever no chunk is loaded.
    #[verifier::opaque]
    pub open spec fn spec_light_at(self, p: BlockPosition) -> u8 {
        if !spec_y_in_bounds(p.y as int) {
            0u8
        } else if !self.spec_has_chunk(spec_chunk_pos_of(p)) {
            0u8
        } else {
            self.spec_chunk_at(spec_chunk_pos_of(p)).spec_light(
                spec_local_coord(p.x as int),
                p.y as int,
                spec_local_coord(p.z as int),
            )
        }
    }

    /// Stored block type at a world block position: the air sentinel
    /// outside the vertical bounds and wherever no chunk is loaded.
    #[verifier::opaque]
    pub open spec fn spec_block_at(self, p: BlockPosition) -> Block {
        if !spec_y_in_bounds(p.y as int) {
            Block::spec_air()
        } else if !self.spec_has_chunk(spec_chunk_pos_of(p)) {
            Block::spec_air()
        } else {
            self.spec_chunk_at(spec_chunk_pos_of(p)).spec_block(
                spec_local_coord(p.x as int),
                p.y as int,
                spec_local_coord(p.z as int),
            )
        }
    }

    /// Builds an empty map.
    pub fn new() -> (m: ChunkMap)
        ensures
            m.wf(),
            forall|cp: ChunkPosition| !m.spec_has_chunk(cp),
    {
        ChunkMap { chunks: Vec::new() }
    }

    /// Index of the chunk loaded at `cp`, if any.
    pub(crate) fn find_index(&self, cp: ChunkPosition) -> (r: Option<usize>)
        ensures
            match r {
                Some(i) => i < self.chunks@.len() && self.chunks@[i as int].position == cp,
                None => !self.spec_has_chunk(cp),
            },
    {
        let mut i: usize = 0;
        while i < self.chunks.len()
            invariant
                i <= self.chunks@.len(),
                forall|j: int| 0 <= j < i ==> (#[trigger] self.chunks@[j]).position != cp,
            decreases self.chunks@.len() - i,
        {
            if self.chunks[i].position() == cp {
                return Some(i);
            }
            i += 1;
        }
        None
    }

    /// Whether a chunk is loaded at the given chunk position.
    pub fn has_chunk_at(&self, cp: ChunkPosition) -> (r: bool)
        ensures
            r == self.spec_has_chunk(cp),
    {
        self.find_index(cp).is_some()
    }

    /// Inserts or replaces the chunk at `cp`.
    pub fn set_chunk_at(&mut self, cp: ChunkPosition, chunk: Chunk)
        requires
            old(self).wf(),
            chunk.wf(),
            chunk.position == cp,
        ensures
            final(self).wf(),
            forall|q: ChunkPosition|
                final(self).spec_has_chunk(q) == (q == cp || old(self).spec_has_chunk(q)),
            final(self).spec_chunk_at(cp) == chunk,
            forall|q: ChunkPosition|
                q != cp && old(self).spec_has_chunk(q) ==> final(self).spec_chunk_at(q)
                    == old(self).spec_chunk_at(q),
    {
        match self.find_index(cp) {
            Some(i) => {
                self.chunks[i] = chunk;
                proof {
                    assert(final(self).chunks@ == old(self).chunks@.update(i as int, chunk));
                    lemma_replace_at(*old(self), *self, i as int, chunk);
                }
            }
            None => {
                self.chunks.push(chunk);
                proof {
                    let n = old(self).chunks@.len() as int;
                    assert(self.chunks@[n] == chunk);
                    assert(forall|j: int|
                        0 <= j < n ==> self.chunks@[j] == old(self).chunks@[j]);
                    assert forall|q: ChunkPosition|
                        final(self).spec_has_chunk(q)
                            == (q == cp || old(self).spec_has_chunk(q)) by {
                        if q == cp {
                            assert(self.chunks@[n].position == cp);
                        } else {
                            if final(self).spec_has_chunk(q) {
                                let i = choose|i: int|
                                    0 <= i < self.chunks@.len()
                                        && (#[trigger] self.chunks@[i]).position == q;
                                assert(i != n);
                                assert(old(self).chunks@[i].position == q);
                            }
                            if old(self).spec_has_chunk(q) {
                                let i = choose|i: int|
                                    0 <= i < old(self).chunks@.len()
                                        && (#[trigger] old(self).chunks@[i]).position == q;
                                assert(self.chunks@[i].position == q);
                            }
                        }
                    }
                    lemma_chunk_at_index(*self, n, cp);
                    assert forall|q: ChunkPosition|
                        q != cp && old(self).spec_has_chunk(q) implies final(self).spec_chunk_at(q)
                            == old(self).spec_chunk_at(q) by {
                        let i = choose|i: int|
                            0 <= i < old(self).chunks@.len()
                                && (#[trigger] old(self).chunks@[i]).position == q;
                        lemma_chunk_at_index(*old(self), i, q);
                        lemma_chunk_at_index(*self, i, q);
                    }
                }
            }
        }
    }
}

/// In a well-formed map, the chunk found at index `i` is the chunk the map
/// associates with that index's position.
pub proof fn lemma_chunk_at_index(m: ChunkMap, i: int, cp: ChunkPosition)
    requires
        m.wf(),
        0 <= i < m.chunks@.len(),
        m.chunks@[i].position == cp,
    ensures
        m.spec_has_chunk(cp),
        m.spec_chunk_at(cp) == m.chunks@[i],
{
    assert(m.spec_has_chunk(cp));
    let j = choose|j: int| 0 <= j < m.chunks@.len() && (#[trigger] m.chunks@[j]).position == cp;
    if i != j {
        if i < j {
            assert(m.chunks@[i].position != m.chunks@[j].position);
        } else {
            assert(m.chunks@[j].position != m.chunks@[i].position);
        }
    }
}

/// Replacing the chunk at one index with a chunk of the same position keeps
/// the map well formed and leaves every other position's chunk unchanged.
pub proof fn lemma_replace_at(m1: ChunkMap, m2: ChunkMap, i: int, c: Chunk)
    requires
        m1.wf(),
        0 <= i < m1.chunks@.len(),
        c.wf(),
        c.position == m1.chunks@[i].position,
        m2.chunks@ == m1.chunks@.update(i, c),
    ensures
        m2.wf(),
        forall|q: ChunkPosition| m2.spec_has_chunk(q) == m1.spec_has_chunk(q),
        m2.spec_chunk_at(c.position) == c,
        forall|q: ChunkPosition|
            q != c.position && m1.spec_has_chunk(q) ==> m2.spec_chunk_at(q)
                == m1.spec_chunk_at(q),
{
    assert(forall|j: int|
        0 <= j < m2.chunks@.len() ==> (#[trigger] m2.chunks@[j]).position
            == m1.chunks@[j].position);
    assert forall|q: ChunkPosition| m2.spec_has_chunk(q) == m1.spec_has_chunk(q) by {
        if m2.spec_has_chunk(q) {
            let k = choose|k: int|
                0 <= k < m2.chunks@.len() && (#[trigger] m2.chunks@[k]).position == q;
            assert(m1.chunks@[k].position == q);
        }
        if m1.spec_has_chunk(q) {
            let k = choose|k: int|
                0 <= k < m1.chunks@.len() && (#[trigger] m1.chunks@[k]).position == q;
            assert(m2.chunks@[k].position == q);
        }
    }
    lemma_chunk_at_index(m2, i, c.position);
    assert forall|q: ChunkPosition|
        q != c.position && m1.spec_has_chunk(q) implies m2.spec_chunk_at(q)
            == m1.spec_chunk_at(q) by {
        let k = choose|k: int|
            0 <= k < m1.chunks@.len() && (#[trigger] m1.chunks@[k]).position == q;
        lemma_chunk_at_index(m1, k, q);
        assert(k != i);
        lemma_chunk_at_index(m2, k, q);
    }
}

/// The boundary policy, spelled out: outside the vertical bounds or where
/// no chunk is loaded, the stored light reads as 0 and the block as air.
pub proof fn lemma_boundary_reads(m: ChunkMap, p: BlockPosition)
    ensures
        !spec_y_in_bounds(p.y as int) ==> m.spec_light_at(p) == 0 && m.spec_block_at(p)
            == Block::spec_air(),
        !m.spec_has_chunk(spec_chunk_pos_of(p)) ==> m.spec_light_at(p) == 0 && m.spec_block_at(p)
            == Block::spec_air(),
{
    reveal(ChunkMap::spec_light_at);
    reveal(ChunkMap::spec_block_at);
}

/// Every block type read from a well-formed map is well formed, the air
/// sentinel included.
pub proof fn lemma_block_wf(m: ChunkMap, p: BlockPosition)
    requires
        m.wf(),
    ensures
        m.spec_block_at(p).wf(),
{
    reveal(ChunkMap::spec_block_at);
    if spec_y_in_bounds(p.y as int) && m.spec_has_chunk(spec_chunk_pos_of(p)) {
        let cp = spec_chunk_pos_of(p);
        let i = choose|i: int|
            0 <= i < m.chunks@.len() && (#[trigger] m.chunks@[i]).position == cp;
        lemma_chunk_at_index(m, i, cp);
        crate::position::lemma_chunk_coord_bounds(p.x as int);
        crate::position::lemma_chunk_coord_bounds(p.z as int);
        crate::chunk::lemma_grid_index_bounds(
            spec_local_coord(p.x as int),
            p.y as int,
            spec_local_coord(p.z as int),
        );
    }
}

/// Every stored light value in a well-formed map is a light level; together
/// with the boundary policy this bounds the light read at any position.
pub proof fn lemma_light_in_range(m: ChunkMap, p: BlockPosition)
    requires
        m.wf(),
    ensures
        m.spec_light_at(p) <= MAX_LIGHT_LEVEL,
{
    reveal(ChunkMap::spec_light_at);
    if spec_y_in_bounds(p.y as int) && m.spec_has_chunk(spec_chunk_pos_of(p)) {
        let cp = spec_chunk_pos_of(p);
        let i = choose|i: int|
            0 <= i < m.chunks@.len() && (#[trigger] m.chunks@[i]).position == cp;
        lemma_chunk_at_index(m, i, cp);
        let c = m.spec_chunk_at(cp);
        crate::position::lemma_chunk_coord_bounds(p.x as int);
        crate::position::lemma_chunk_coord_bounds(p.z as int);
        crate::chunk::lemma_grid_index_bounds(
            spec_local_coord(p.x as int),
            p.y as int,
            spec_local_coord(p.z as int),
        );
    }
}

} // verus!
