//! Classifies block changes into the four update kinds and runs the
//! matching algorithm; also owns the whole-chunk recalculation bulk path.

use vstd::prelude::*;
use crate::algorithms::opaque_non_emitting_creation;
use crate::algorithms::opaque_non_emitting_removal;
use crate::algorithms::propagate_light;
use crate::algorithms::remove_light_source;
use crate::algorithms::spec_loaded;
use crate::block::Block;
use crate::context::Context;
use crate::position::BlockPosition;
use crate::position::ChunkPosition;
use crate::position::CHUNK_WIDTH;
use crate::position::CHUNK_HEIGHT;
use crate::position::spec_chunk_pos_of;
use crate::position::spec_fits;
use crate::position::spec_local_coord;
use crate::position::spec_manhattan;
use crate::position::spec_y_in_bounds;
use crate::position::lemma_chunk_coord_bounds;
use crate::position::lemma_compose_coord;
use crate::position::lemma_same_cell_same_position;

verus! {

/// The kind of lighting work a block change calls for.
#[derive(Clone, Copy, PartialEq, Eq, Structural, Debug)]
pub enum UpdateKind {
    SourceCreation,
    SourceRemoval,
    OpaqueCreation,
    OpaqueRemoval,
    NoChange,
}

/// The update kind for replacing `old_block` with `new_block`: emission
/// changes take precedence over opacity changes, and a change altering
/// neither needs no lighting work.
pub open spec fn spec_classify(old_block: Block, new_block: Block) -> UpdateKind {
    if new_block.emission > 0 && old_block.emission == 0 {
        UpdateKind::SourceCreation
    } else if old_block.emission > 0 && new_block.emission == 0 {
        UpdateKind::SourceRemoval
    } else if new_block.opaque && new_block.emission == 0 && !old_block.opaque {
        UpdateKind::OpaqueCreation
    } else if old_block.opaque && old_block.emission == 0 && !new_block.opaque {
        UpdateKind::OpaqueRemoval
    } else {
        UpdateKind::NoChange
    }
}

/// Classifies a block change event.
pub fn classify_update(old_block: Block, new_block: Block) -> (k: UpdateKind)
    ensures
        k == spec_classify(old_block, new_block),
{
    if new_block.emission > 0 && old_block.emission == 0 {
        UpdateKind::SourceCreation
    } else if old_block.emission > 0 && new_block.emission == 0 {
        UpdateKind::SourceRemoval
    } else if new_block.opaque && new_block.emission == 0 && !old_block.opaque {
        UpdateKind::OpaqueCreation
    } else if old_block.opaque && old_block.emission == 0 && !new_block.opaque {
        UpdateKind::OpaqueRemoval
    } else {
        UpdateKind::NoChange
    }
}

/// Handles one validated block change: commits the new block and runs the
/// algorithm its classification calls for. A change that alters neither
/// opacity nor emission leaves every light value untouched.
pub fn handle_block_update(
    ctx: &mut Context,
    position: BlockPosition,
    old_block: Block,
    new_block: Block,
)
    requires
        old(ctx).wf(),
        old_block.wf(),
        new_block.wf(),
        old(ctx).block(position) == old_block,
        spec_fits(position, 47),
        spec_y_in_bounds(position.y as int),
    ensures
        final(ctx).wf(),
        forall|cp: ChunkPosition| final(ctx).has_chunk(cp) == old(ctx).has_chunk(cp),
        spec_loaded(*old(ctx), position) ==> final(ctx).block(position) == new_block,
        !spec_loaded(*old(ctx), position) ==> final(ctx).block(position) == old(ctx).block(
            position,
        ),
        forall|q: BlockPosition| q != position ==> final(ctx).block(q) == old(ctx).block(q),
        spec_classify(old_block, new_block) == UpdateKind::NoChange ==> forall|q: BlockPosition|
            final(ctx).light(q) == old(ctx).light(q),
        spec_classify(old_block, new_block) == UpdateKind::SourceCreation && spec_loaded(
            *old(ctx),
            position,
        ) ==> final(ctx).light(position) == crate::algorithms::spec_max_u8(
            old(ctx).light(position),
            new_block.emission,
        ),
        spec_classify(old_block, new_block) == UpdateKind::OpaqueRemoval && spec_loaded(
            *old(ctx),
            position,
        ) ==> final(ctx).light(position) == crate::algorithms::spec_removal_value(
            *old(ctx),
            position,
        ),
        spec_classify(old_block, new_block) == UpdateKind::SourceRemoval && (forall|
            q: BlockPosition,
        |
            q != position && spec_manhattan(q, position) <= old_block.emission + 1 ==> old(
                ctx,
            ).light(q) <= 1 && old(ctx).block(q).emission == 0) ==> final(ctx).light(position) == 0
            && forall|q: BlockPosition|
            final(ctx).light(q) == old(ctx).light(q) || final(ctx).light(q) == 0,
        spec_classify(old_block, new_block) == UpdateKind::SourceCreation ==> forall|
            n: BlockPosition,
        |
            spec_manhattan(n, position) == 1 && spec_y_in_bounds(n.y as int) && !old(ctx).block(
                n,
            ).opaque && spec_loaded(*old(ctx), n) ==> final(ctx).light(n) as int
                >= new_block.emission - 1,
        spec_classify(old_block, new_block) == UpdateKind::OpaqueRemoval ==> forall|
            n: BlockPosition,
        |
            spec_manhattan(n, position) == 1 && spec_y_in_bounds(n.y as int) && !old(ctx).block(
                n,
            ).opaque && spec_loaded(*old(ctx), n) ==> final(ctx).light(n) as int
                >= crate::algorithms::spec_removal_value(*old(ctx), position) - 1,
        spec_classify(old_block, new_block) == UpdateKind::OpaqueCreation ==> forall|
            s: BlockPosition,
        |
            crate::algorithms::spec_lone_adjacent_source(*old(ctx), position, s)
                ==> final(ctx).light(position) == 0,
{
    let kind = classify_update(old_block, new_block);
    match kind {
        UpdateKind::SourceCreation => {
            ctx.set_block_at(position, new_block);
            let affected = propagate_light(ctx, position, new_block.emission);
            proof {
                assert forall|n: BlockPosition|
                    spec_manhattan(n, position) == 1 && spec_y_in_bounds(n.y as int) && !old(
                        ctx,
                    ).block(n).opaque && spec_loaded(*old(ctx), n) implies ctx.light(n) as int
                    >= new_block.emission - 1 by {
                    crate::position::lemma_manhattan_zero(n, position);
                    assert(affected@.contains(n));
                    let i = choose|i: int| 0 <= i < affected@.len() && affected@[i] == n;
                    assert(spec_manhattan(affected@[i], position) == 1);
                }
            }
        }
        UpdateKind::SourceRemoval => {
            ctx.set_block_at(position, new_block);
            proof {
                crate::chunk_map::lemma_boundary_reads(old(ctx).map, position);
                if forall|q: BlockPosition|
                    q != position && spec_manhattan(q, position) <= old_block.emission + 1
                        ==> old(ctx).light(q) <= 1 && old(ctx).block(q).emission == 0 {
                    assert(crate::algorithms::spec_only_source_nearby(
                        *ctx,
                        position,
                        old_block.emission,
                    ));
                }
            }
            remove_light_source(ctx, position, old_block.emission);
        }
        UpdateKind::OpaqueCreation => {
            opaque_non_emitting_creation(ctx, position, new_block);
        }
        UpdateKind::OpaqueRemoval => {
            ctx.set_block_at(position, new_block);
            proof {
                assert(crate::algorithms::spec_neighbor_light_max(*ctx, position)
                    == crate::algorithms::spec_neighbor_light_max(*old(ctx), position));
            }
            let ghost committed = *ctx;
            opaque_non_emitting_removal(ctx, position);
            proof {
                let v = crate::algorithms::spec_removal_value(*old(ctx), position);
                assert(crate::algorithms::spec_removal_value(committed, position) == v);
                if v >= 1 {
                    assert forall|n: BlockPosition|
                        spec_manhattan(n, position) == 1 && spec_y_in_bounds(n.y as int) && !old(
                            ctx,
                        ).block(n).opaque && spec_loaded(*old(ctx), n) implies ctx.light(
                        n,
                    ) as int >= v - 1 by {
                        crate::position::lemma_manhattan_zero(n, position);
                        assert(!committed.block(n).opaque);
                        assert(ctx.light(n) == crate::algorithms::spec_max_u8(
                            committed.light(n),
                            (v - 1) as u8,
                        ));
                    }
                }
            }
        }
        UpdateKind::NoChange => {
            ctx.set_block_at(position, new_block);
        }
    }
}

/// Whether `q` is a block cell of the chunk at `cp` (owning chunk matches
/// and the height is inside the world bounds).
pub open spec fn spec_in_chunk_cell(q: BlockPosition, cp: ChunkPosition) -> bool {
    spec_chunk_pos_of(q) == cp && spec_y_in_bounds((q.y as int))
}

/// Whether no cell of the chunk at `cp` holds an emitting block type.
pub open spec fn spec_chunk_clear_of_emitters(ctx: Context, cp: ChunkPosition) -> bool {
    forall|q: BlockPosition| spec_in_chunk_cell(q, cp) ==> ctx.block(q).emission == 0
}

/// Whether the chunk at `cp` sits far enough from the coordinate limits
/// for propagation from any of its cells to stay inside `i32`.
pub open spec fn spec_chunk_fits(cp: ChunkPosition) -> bool {
    &&& i32::MIN + 17 <= 16 * (cp.x as int)
    &&& 16 * (cp.x as int) + 15 <= i32::MAX - 17
    &&& i32::MIN + 17 <= 16 * (cp.z as int)
    &&& 16 * (cp.z as int) + 15 <= i32::MAX - 17
}

/// Whole-chunk recalculation, used at chunk load: zeroes every light value
/// in the chunk, then re-runs light-source creation for every emitting
/// block found in it, in scan order (the max-merge makes the outcome
/// order-independent). On a chunk without emitters the result is exactly
/// zero lights inside the chunk and untouched lights elsewhere, so running
/// it again changes nothing.
#[verifier::rlimit(100)]
pub fn recalculate_chunk(ctx: &mut Context, cp: ChunkPosition)
    requires
        old(ctx).wf(),
        spec_chunk_fits(cp),
    ensures
        final(ctx).wf(),
        forall|c: ChunkPosition| final(ctx).has_chunk(c) == old(ctx).has_chunk(c),
        forall|q: BlockPosition| final(ctx).block(q) == old(ctx).block(q),
        !old(ctx).has_chunk(cp) ==> forall|q: BlockPosition|
            final(ctx).light(q) == old(ctx).light(q),
        old(ctx).has_chunk(cp) && spec_chunk_clear_of_emitters(*old(ctx), cp) ==> forall|
            q: BlockPosition,
        |
            final(ctx).light(q) == if spec_in_chunk_cell(q, cp) {
                0u8
            } else {
                old(ctx).light(q)
            },
        old(ctx).has_chunk(cp) && spec_chunk_clear_of_emitters(*old(ctx), cp) && (forall|
            q: BlockPosition,
        |
            spec_in_chunk_cell(q, cp) ==> old(ctx).light(q) == 0) ==> forall|q: BlockPosition|
            final(ctx).light(q) == old(ctx).light(q),
        old(ctx).has_chunk(cp) ==> forall|q: BlockPosition|
            spec_in_chunk_cell(q, cp) && old(ctx).block(q).emission > 0 ==> final(ctx).light(q)
                >= old(ctx).block(q).emission,
{
    if !ctx.resolve(cp) {
        return;
    }
    let base_x: i32 = cp.x * 16;
    let base_z: i32 = cp.z * 16;
    let mut sources: Vec<(BlockPosition, u8)> = Vec::new();
    let mut lx: usize = 0;
    while lx < CHUNK_WIDTH
        invariant
            ctx.wf(),
            old(ctx).wf(),
            lx <= CHUNK_WIDTH,
            spec_chunk_fits(cp),
            old(ctx).has_chunk(cp),
            base_x as int == 16 * (cp.x as int),
            base_z as int == 16 * (cp.z as int),
            forall|c: ChunkPosition| ctx.has_chunk(c) == old(ctx).has_chunk(c),
            forall|q: BlockPosition| ctx.block(q) == old(ctx).block(q),
            forall|q: BlockPosition|
                !spec_in_chunk_cell(q, cp) ==> ctx.light(q) == old(ctx).light(q),
            forall|q: BlockPosition|
                spec_in_chunk_cell(q, cp) && spec_local_coord(q.x as int) < lx ==> ctx.light(q)
                    == 0,
            forall|j: int|
                0 <= j < sources@.len() ==> spec_in_chunk_cell((#[trigger] sources@[j]).0, cp)
                    && old(ctx).block(sources@[j].0).emission == sources@[j].1
                    && sources@[j].1 > 0 && spec_fits(sources@[j].0, 17),
            forall|q: BlockPosition|
                spec_in_chunk_cell(q, cp) && old(ctx).block(q).emission > 0 && spec_local_coord(
                    q.x as int,
                ) < lx ==> crate::algorithms::spec_source_listed(
                    sources@,
                    q,
                    old(ctx).block(q).emission,
                ),
        decreases CHUNK_WIDTH - lx,
    {
        let mut ly: usize = 0;
        while ly < CHUNK_HEIGHT
            invariant
                ctx.wf(),
                old(ctx).wf(),
                lx < CHUNK_WIDTH,
                ly <= CHUNK_HEIGHT,
                spec_chunk_fits(cp),
                old(ctx).has_chunk(cp),
                base_x as int == 16 * (cp.x as int),
                base_z as int == 16 * (cp.z as int),
                forall|c: ChunkPosition| ctx.has_chunk(c) == old(ctx).has_chunk(c),
                forall|q: BlockPosition| ctx.block(q) == old(ctx).block(q),
                forall|q: BlockPosition|
                    !spec_in_chunk_cell(q, cp) ==> ctx.light(q) == old(ctx).light(q),
                forall|q: BlockPosition|
                    spec_in_chunk_cell(q, cp) && spec_local_coord(q.x as int) < lx ==> ctx.light(
                        q,
                    ) == 0,
                forall|q: BlockPosition|
                    spec_in_chunk_cell(q, cp) && spec_local_coord(q.x as int) == lx && (q.y as int)
                        < ly ==> ctx.light(q) == 0,
                forall|j: int|
                    0 <= j < sources@.len() ==> spec_in_chunk_cell((#[trigger] sources@[j]).0, cp)
                        && old(ctx).block(sources@[j].0).emission == sources@[j].1
                        && sources@[j].1 > 0 && spec_fits(sources@[j].0, 17),
                forall|q: BlockPosition|
                    spec_in_chunk_cell(q, cp) && old(ctx).block(q).emission > 0
                        && spec_local_coord(q.x as int) < lx
                        ==> crate::algorithms::spec_source_listed(
                        sources@,
                        q,
                        old(ctx).block(q).emission,
                    ),
                forall|q: BlockPosition|
                    spec_in_chunk_cell(q, cp) && old(ctx).block(q).emission > 0
                        && spec_local_coord(q.x as int) == lx && (q.y as int) < ly
                        ==> crate::algorithms::spec_source_listed(
                        sources@,
                        q,
                        old(ctx).block(q).emission,
                    ),
            decreases CHUNK_HEIGHT - ly,
        {
            let mut lz: usize = 0;
            while lz < CHUNK_WIDTH
                invariant
                    ctx.wf(),
                    old(ctx).wf(),
                    lx < CHUNK_WIDTH,
                    ly < CHUNK_HEIGHT,
                    lz <= CHUNK_WIDTH,
                    spec_chunk_fits(cp),
                    old(ctx).has_chunk(cp),
                    base_x as int == 16 * (cp.x as int),
                    base_z as int == 16 * (cp.z as int),
                    forall|c: ChunkPosition| ctx.has_chunk(c) == old(ctx).has_chunk(c),
                    forall|q: BlockPosition| ctx.block(q) == old(ctx).block(q),
                    forall|q: BlockPosition|
                        !spec_in_chunk_cell(q, cp) ==> ctx.light(q) == old(ctx).light(q),
                    forall|q: BlockPosition|
                        spec_in_chunk_cell(q, cp) && spec_local_coord(q.x as int) < lx
                            ==> ctx.light(q) == 0,
                    forall|q: BlockPosition|
                        spec_in_chunk_cell(q, cp) && spec_local_coord(q.x as int) == lx
                            && (q.y as int) < ly ==> ctx.light(q) == 0,
                    forall|q: BlockPosition|
                        spec_in_chunk_cell(q, cp) && spec_local_coord(q.x as int) == lx
                            && (q.y as int) == ly && spec_local_coord(q.z as int) < lz ==> ctx.light(
                            q,
                        ) == 0,
                    forall|j: int|
                        0 <= j < sources@.len() ==> spec_in_chunk_cell(
                            (#[trigger] sources@[j]).0,
                            cp,
                        ) && old(ctx).block(sources@[j].0).emission == sources@[j].1
                            && sources@[j].1 > 0 && spec_fits(sources@[j].0, 17),
                    forall|q: BlockPosition|
                        spec_in_chunk_cell(q, cp) && old(ctx).block(q).emission > 0
                            && spec_local_coord(q.x as int) < lx
                            ==> crate::algorithms::spec_source_listed(
                            sources@,
                            q,
                            old(ctx).block(q).emission,
                        ),
                    forall|q: BlockPosition|
                        spec_in_chunk_cell(q, cp) && old(ctx).block(q).emission > 0
                            && spec_local_coord(q.x as int) == lx && (q.y as int) < ly
                            ==> crate::algorithms::spec_source_listed(
                            sources@,
                            q,
                            old(ctx).block(q).emission,
                        ),
                    forall|q: BlockPosition|
                        spec_in_chunk_cell(q, cp) && old(ctx).block(q).emission > 0
                            && spec_local_coord(q.x as int) == lx && (q.y as int) == ly
                            && spec_local_coord(q.z as int) < lz
                            ==> crate::algorithms::spec_source_listed(
                            sources@,
                            q,
                            old(ctx).block(q).emission,
                        ),
                decreases CHUNK_WIDTH - lz,
            {
                let p = BlockPosition::new(base_x + lx as i32, ly as i32, base_z + lz as i32);
                proof {
                    lemma_compose_coord(cp.x as int, lx as int);
                    lemma_compose_coord(cp.z as int, lz as int);
                    assert(spec_chunk_pos_of(p) == cp);
                    assert(spec_local_coord(p.x as int) == lx);
                    assert(spec_local_coord(p.z as int) == lz);
                    assert(spec_in_chunk_cell(p, cp));
                    assert(spec_fits(p, 17));
                }
                ctx.set_block_light_at(p, 0);
                let b = ctx.block_at(p);
                if b.emission > 0 {
                    let ghost olds = sources@;
                    sources.push((p, b.emission));
                    proof {
                        assert forall|q2: BlockPosition, e2: u8|
                            crate::algorithms::spec_source_listed(olds, q2, e2) implies
                            crate::algorithms::spec_source_listed(sources@, q2, e2) by {
                            let j = choose|j: int| 0 <= j < olds.len() && olds[j] == (q2, e2);
                            assert(sources@[j] == (q2, e2));
                        }
                        assert(sources@[sources@.len() - 1] == (p, b.emission));
                    }
                }
                proof {
                    assert forall|q: BlockPosition|
                        spec_in_chunk_cell(q, cp) && spec_local_coord(q.x as int) == lx
                            && (q.y as int) == ly && spec_local_coord(q.z as int) < lz + 1 implies
                        ctx.light(q) == 0 by {
                        if spec_local_coord(q.z as int) == lz {
                            lemma_same_cell_same_position(q, p);
                        }
                    }
                    assert forall|q: BlockPosition|
                        spec_in_chunk_cell(q, cp) && old(ctx).block(q).emission > 0
                            && spec_local_coord(q.x as int) == lx && (q.y as int) == ly
                            && spec_local_coord(q.z as int) < lz + 1 implies
                        crate::algorithms::spec_source_listed(
                        sources@,
                        q,
                        old(ctx).block(q).emission,
                    ) by {
                        if spec_local_coord(q.z as int) == lz {
                            lemma_same_cell_same_position(q, p);
                        }
                    }
                }
                lz += 1;
            }
            proof {
                assert forall|q: BlockPosition|
                    spec_in_chunk_cell(q, cp) && spec_local_coord(q.x as int) == lx && (q.y as int)
                        < ly + 1 implies ctx.light(q) == 0 by {
                    lemma_chunk_coord_bounds(q.z as int);
                }
                assert forall|q: BlockPosition|
                    spec_in_chunk_cell(q, cp) && old(ctx).block(q).emission > 0
                        && spec_local_coord(q.x as int) == lx && (q.y as int) < ly + 1 implies
                    crate::algorithms::spec_source_listed(
                    sources@,
                    q,
                    old(ctx).block(q).emission,
                ) by {
                    lemma_chunk_coord_bounds(q.z as int);
                }
            }
            ly += 1;
        }
        proof {
            assert forall|q: BlockPosition|
                spec_in_chunk_cell(q, cp) && spec_local_coord(q.x as int) < lx + 1 implies
                ctx.light(q) == 0 by {
            }
            assert forall|q: BlockPosition|
                spec_in_chunk_cell(q, cp) && old(ctx).block(q).emission > 0 && spec_local_coord(
                    q.x as int,
                ) < lx + 1 implies crate::algorithms::spec_source_listed(
                sources@,
                q,
                old(ctx).block(q).emission,
            ) by {
            }
        }
        lx += 1;
    }
    proof {
        assert forall|q: BlockPosition| spec_in_chunk_cell(q, cp) implies ctx.light(q) == 0 by {
            lemma_chunk_coord_bounds(q.x as int);
        }
        assert forall|q: BlockPosition|
            spec_in_chunk_cell(q, cp) && old(ctx).block(q).emission > 0 implies
            crate::algorithms::spec_source_listed(sources@, q, old(ctx).block(q).emission) by {
            lemma_chunk_coord_bounds(q.x as int);
            assert(spec_local_coord((q.x as int)) < CHUNK_WIDTH as int);
            assert(spec_local_coord((q.x as int)) < lx as int);
        }
    }
    let ghost zeroed = *ctx;
    let mut i: usize = 0;
    while i < sources.len()
        invariant
            ctx.wf(),
            old(ctx).wf(),
            i <= sources@.len(),
            forall|c: ChunkPosition| ctx.has_chunk(c) == old(ctx).has_chunk(c),
            forall|q: BlockPosition| ctx.block(q) == old(ctx).block(q),
            forall|j: int|
                0 <= j < sources@.len() ==> spec_in_chunk_cell((#[trigger] sources@[j]).0, cp)
                    && old(ctx).block(sources@[j].0).emission == sources@[j].1
                    && sources@[j].1 > 0 && spec_fits(sources@[j].0, 17),
            spec_chunk_clear_of_emitters(*old(ctx), cp) ==> forall|q: BlockPosition|
                ctx.light(q) == zeroed.light(q),
            forall|q: BlockPosition| !spec_in_chunk_cell(q, cp) ==> zeroed.light(q) == old(
                ctx,
            ).light(q),
            forall|q: BlockPosition| spec_in_chunk_cell(q, cp) ==> zeroed.light(q) == 0,
            old(ctx).has_chunk(cp),
            forall|j: int|
                0 <= j < i ==> ctx.light((#[trigger] sources@[j]).0) >= sources@[j].1,
        decreases sources@.len() - i,
    {
        let (s, lv) = sources[i];
        proof {
            crate::chunk_map::lemma_block_wf(old(ctx).map, s);
            assert(spec_loaded(*old(ctx), s));
            if spec_chunk_clear_of_emitters(*old(ctx), cp) {
                assert(old(ctx).block(s).emission == 0);
                assert(false);
            }
        }
        let _ = propagate_light(ctx, s, lv);
        i += 1;
    }
    proof {
        if old(ctx).has_chunk(cp) {
            assert forall|q: BlockPosition|
                spec_in_chunk_cell(q, cp) && old(ctx).block(q).emission > 0 implies ctx.light(q)
                >= old(ctx).block(q).emission by {
                let e = old(ctx).block(q).emission;
                assert(crate::algorithms::spec_source_listed(sources@, q, e));
                let j = choose|j: int| 0 <= j < sources@.len() && sources@[j] == (q, e);
                assert(ctx.light(sources@[j].0) >= sources@[j].1);
            }
        }
        if old(ctx).has_chunk(cp) && spec_chunk_clear_of_emitters(*old(ctx), cp) {
            if forall|q: BlockPosition| spec_in_chunk_cell(q, cp) ==> old(ctx).light(q) == 0 {
                assert forall|q: BlockPosition| ctx.light(q) == old(ctx).light(q) by {
                    if spec_in_chunk_cell(q, cp) {
                        assert(old(ctx).light(q) == 0);
                    }
                }
            }
        }
    }
}

} // verus!
