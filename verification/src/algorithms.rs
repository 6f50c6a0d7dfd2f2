//! The update algorithms: light propagation, source removal, and the
//! repair step after removing an opaque block.

use vstd::prelude::*;
use crate::adjacency::spec_offset;
use crate::block::Block;
use crate::block::MAX_LIGHT_LEVEL;
use crate::context::Context;
use crate::flood_fill::flood_fill;
use crate::flood_fill::spec_admitted;
use crate::position::BlockPosition;
use crate::position::ChunkPosition;
use crate::position::abs_diff_int;
use crate::position::spec_chunk_pos_of;
use crate::position::spec_fits;
use crate::position::spec_manhattan;
use crate::position::spec_y_in_bounds;
use crate::position::lemma_manhattan_zero;
use crate::position::lemma_manhattan_triangle;

verus! {

/// Farthest a light update ever travels from its start position.
pub const MAX_PROPAGATION_DISTANCE: u8 = 15;

/// The larger of two light values.
pub open spec fn spec_max_u8(a: u8, b: u8) -> u8 {
    if a >= b {
        a
    } else {
        b
    }
}

/// Whether a position can actually store a value: its chunk is loaded and
/// its height is inside the world bounds.
pub open spec fn spec_loaded(ctx: Context, p: BlockPosition) -> bool {
    ctx.has_chunk(spec_chunk_pos_of(p)) && spec_y_in_bounds(p.y as int)
}

/// The highest light value among the six axis-aligned neighbors of `p`
/// (reads outside the loaded world count as 0).
pub open spec fn spec_neighbor_light_max(ctx: Context, p: BlockPosition) -> u8 {
    spec_max_u8(
        spec_max_u8(
            spec_max_u8(
                ctx.light(spec_offset(p, -1, 0, 0)),
                ctx.light(spec_offset(p, 1, 0, 0)),
            ),
            spec_max_u8(
                ctx.light(spec_offset(p, 0, -1, 0)),
                ctx.light(spec_offset(p, 0, 1, 0)),
            ),
        ),
        spec_max_u8(
            ctx.light(spec_offset(p, 0, 0, -1)),
            ctx.light(spec_offset(p, 0, 0, 1)),
        ),
    )
}

/// The value a newly exposed cell takes: the neighbor maximum less one,
/// floored at zero.
pub open spec fn spec_removal_value(ctx: Context, p: BlockPosition) -> u8 {
    let m = spec_neighbor_light_max(ctx, p);
    if m > 0 {
        (m - 1) as u8
    } else {
        0u8
    }
}

/// Algorithm for light-source creation: floods outward from `source` and
/// raises each admitted position's light to at least the source level less
/// the Manhattan distance travelled; values only ever increase, and nothing
/// farther than `level` from the source changes.
#[verifier::rlimit(100)]
pub fn propagate_light(ctx: &mut Context, source: BlockPosition, level: u8) -> (affected: Vec<
    BlockPosition,
>)
    requires
        old(ctx).wf(),
        level <= MAX_LIGHT_LEVEL,
        spec_fits(source, 17),
    ensures
        final(ctx).wf(),
        forall|cp: ChunkPosition| final(ctx).has_chunk(cp) == old(ctx).has_chunk(cp),
        forall|q: BlockPosition| final(ctx).block(q) == old(ctx).block(q),
        forall|q: BlockPosition| final(ctx).light(q) >= old(ctx).light(q),
        spec_loaded(*old(ctx), source) ==> final(ctx).light(source) == spec_max_u8(
            old(ctx).light(source),
            level,
        ),
        !spec_loaded(*old(ctx), source) ==> final(ctx).light(source) == old(ctx).light(source),
        forall|i: int|
            0 <= i < affected@.len() ==> (spec_loaded(*old(ctx), #[trigger] affected@[i])
                ==> final(ctx).light(affected@[i]) as int >= level - spec_manhattan(
                affected@[i],
                source,
            )),
        forall|q: BlockPosition|
            q != source && !affected@.contains(q) ==> final(ctx).light(q) == old(ctx).light(q),
        forall|q: BlockPosition|
            spec_manhattan(q, source) > level ==> final(ctx).light(q) == old(ctx).light(q),
        spec_admitted(*old(ctx), source, level, affected@),
        level >= 1 ==> forall|n: BlockPosition|
            spec_manhattan(n, source) == 1 && spec_y_in_bounds(n.y as int) && !old(ctx).block(
                n,
            ).opaque ==> affected@.contains(n),
        forall|i: int|
            0 <= i < affected@.len() ==> (spec_loaded(*old(ctx), #[trigger] affected@[i])
                ==> final(ctx).light(affected@[i]) == spec_max_u8(
                old(ctx).light(affected@[i]),
                (level - spec_manhattan(affected@[i], source)) as u8,
            )),
        (crate::flood_fill::spec_visit_closed(*old(ctx), source, level, affected@, source)
            && forall|j: int|
            0 <= j < affected@.len() ==> crate::flood_fill::spec_visit_closed(
                *old(ctx),
                source,
                level,
                affected@,
                #[trigger] affected@[j],
            )) || level == 0 || (exists|j: int|
            0 <= j < affected@.len() && spec_manhattan(#[trigger] affected@[j], source)
                >= level) || affected@.len() >= crate::flood_fill::TRAVERSAL_STEP_BUDGET,
{
    let affected = flood_fill(ctx, source, level);
    let cur = ctx.block_light_at(source);
    if level > cur {
        ctx.set_block_light_at(source, level);
    }
    let mut i: usize = 0;
    while i < affected.len()
        invariant
            ctx.wf(),
            level <= MAX_LIGHT_LEVEL,
            i <= affected@.len(),
            forall|cp: ChunkPosition| ctx.has_chunk(cp) == old(ctx).has_chunk(cp),
            forall|q: BlockPosition| ctx.block(q) == old(ctx).block(q),
            forall|q: BlockPosition| ctx.light(q) >= old(ctx).light(q),
            spec_loaded(*old(ctx), source) ==> ctx.light(source) == spec_max_u8(
                old(ctx).light(source),
                level,
            ),
            !spec_loaded(*old(ctx), source) ==> ctx.light(source) == old(ctx).light(source),
            forall|j: int|
                0 <= j < i ==> (spec_loaded(*old(ctx), #[trigger] affected@[j]) ==> ctx.light(
                    affected@[j],
                ) == spec_max_u8(
                    old(ctx).light(affected@[j]),
                    (level - spec_manhattan(affected@[j], source)) as u8,
                )),
            forall|j: int|
                i <= j < affected@.len() ==> ctx.light(#[trigger] affected@[j]) == old(ctx).light(
                    affected@[j],
                ),
            forall|q: BlockPosition|
                q != source && !affected@.contains(q) ==> ctx.light(q) == old(ctx).light(q),
            forall|j: int|
                0 <= j < affected@.len() ==> spec_manhattan(#[trigger] affected@[j], source)
                    <= level,
            forall|j: int| 0 <= j < affected@.len() ==> (#[trigger] affected@[j]) != source,
            forall|j: int, k: int| 0 <= j < k < affected@.len() ==> affected@[j] != affected@[k],
        decreases affected@.len() - i,
    {
        let p = affected[i];
        let d = p.manhattan_distance(source);
        proof {
            assert(spec_manhattan(p, source) <= level);
            assert(affected@[i as int] == p);
            assert(affected@.contains(p));
            assert(0 <= level - spec_manhattan(p, source) <= 15);
        }
        let diff: i64 = level as i64 - d;
        let val: u8 = diff as u8;
        proof {
            assert(val == (level - spec_manhattan(p, source)) as u8);
        }
        let cur_p = ctx.block_light_at(p);
        if val > cur_p {
            ctx.set_block_light_at(p, val);
        }
        i += 1;
    }
    proof {
        assert forall|q: BlockPosition|
            spec_manhattan(q, source) > level implies ctx.light(q) == old(ctx).light(q) by {
            lemma_manhattan_zero(q, source);
            if affected@.contains(q) {
                let j = choose|j: int| 0 <= j < affected@.len() && affected@[j] == q;
                assert(spec_manhattan(affected@[j], source) <= level);
            }
        }
    }
    affected
}

/// Algorithm for opaque-block removal: the newly exposed position takes the
/// highest neighbor light less one (floored at zero), which is then
/// propagated outward as if emitted there.
pub fn opaque_non_emitting_removal(ctx: &mut Context, position: BlockPosition)
    requires
        old(ctx).wf(),
        spec_fits(position, 17),
        spec_y_in_bounds(position.y as int),
    ensures
        final(ctx).wf(),
        forall|cp: ChunkPosition| final(ctx).has_chunk(cp) == old(ctx).has_chunk(cp),
        forall|q: BlockPosition| final(ctx).block(q) == old(ctx).block(q),
        spec_loaded(*old(ctx), position) ==> final(ctx).light(position) == spec_removal_value(
            *old(ctx),
            position,
        ),
        !spec_loaded(*old(ctx), position) ==> final(ctx).light(position) == old(ctx).light(
            position,
        ),
        forall|q: BlockPosition| q != position ==> final(ctx).light(q) >= old(ctx).light(q),
        forall|q: BlockPosition|
            spec_manhattan(q, position) > MAX_LIGHT_LEVEL ==> final(ctx).light(q) == old(
                ctx,
            ).light(q),
        spec_removal_value(*old(ctx), position) >= 1 ==> forall|n: BlockPosition|
            spec_manhattan(n, position) == 1 && spec_y_in_bounds(n.y as int) && !old(ctx).block(
                n,
            ).opaque && spec_loaded(*old(ctx), n) ==> final(ctx).light(n) == spec_max_u8(
                old(ctx).light(n),
                (spec_removal_value(*old(ctx), position) - 1) as u8,
            ),
{
    let mut value: u8 = 0;
    let n0 = BlockPosition::new(position.x - 1, position.y, position.z);
    let v0 = ctx.block_light_at(n0);
    if v0 > value {
        value = v0;
    }
    let n1 = BlockPosition::new(position.x + 1, position.y, position.z);
    let v1 = ctx.block_light_at(n1);
    if v1 > value {
        value = v1;
    }
    let n2 = BlockPosition::new(position.x, position.y - 1, position.z);
    let v2 = ctx.block_light_at(n2);
    if v2 > value {
        value = v2;
    }
    let n3 = BlockPosition::new(position.x, position.y + 1, position.z);
    let v3 = ctx.block_light_at(n3);
    if v3 > value {
        value = v3;
    }
    let n4 = BlockPosition::new(position.x, position.y, position.z - 1);
    let v4 = ctx.block_light_at(n4);
    if v4 > value {
        value = v4;
    }
    let n5 = BlockPosition::new(position.x, position.y, position.z + 1);
    let v5 = ctx.block_light_at(n5);
    if v5 > value {
        value = v5;
    }
    proof {
        assert(value == spec_neighbor_light_max(*old(ctx), position));
    }
    if value > 0 {
        value -= 1;
    }
    proof {
        assert(value == spec_removal_value(*old(ctx), position));
    }
    ctx.set_block_light_at(position, value);
    let affected = propagate_light(ctx, position, value);
    proof {
        if value >= 1 {
            assert forall|n: BlockPosition|
                spec_manhattan(n, position) == 1 && spec_y_in_bounds(n.y as int) && !old(
                    ctx,
                ).block(n).opaque && spec_loaded(*old(ctx), n) implies ctx.light(n)
                == spec_max_u8(old(ctx).light(n), (value - 1) as u8) by {
                lemma_manhattan_zero(n, position);
                assert(affected@.contains(n));
                let i = choose|i: int| 0 <= i < affected@.len() && affected@[i] == n;
                assert(spec_manhattan(affected@[i], position) == 1);
            }
        }
    }
}

/// Reseeds light at one cleared position: re-propagates the block's own
/// emission if it has any, then rebuilds from the cell's neighbors.
fn reseed_position(ctx: &mut Context, p: BlockPosition)
    requires
        old(ctx).wf(),
        spec_fits(p, 17),
    ensures
        final(ctx).wf(),
        forall|cp: ChunkPosition| final(ctx).has_chunk(cp) == old(ctx).has_chunk(cp),
        forall|q: BlockPosition| final(ctx).block(q) == old(ctx).block(q),
        forall|q: BlockPosition| final(ctx).light(q) >= old(ctx).light(q),
        forall|q: BlockPosition|
            spec_manhattan(q, p) > MAX_LIGHT_LEVEL ==> final(ctx).light(q) == old(ctx).light(q),
        old(ctx).block(p).emission == 0 && (forall|n: BlockPosition|
            spec_manhattan(n, p) == 1 ==> old(ctx).light(n) <= 1) ==> forall|q: BlockPosition|
            final(ctx).light(q) == old(ctx).light(q),
{
    let b = ctx.block_at(p);
    if b.emission > 0 {
        let _ = propagate_light(ctx, p, b.emission);
    }
    reseed_from_neighbors(ctx, p);
}

/// Rebuilds light at one cleared position from its surroundings alone:
/// each brighter neighbor is evidence that this cell deserves that
/// neighbor's light less one, which is propagated from here. The cell's
/// own block is never consulted, so a source being retracted does not
/// relight itself.
fn reseed_from_neighbors(ctx: &mut Context, p: BlockPosition)
    requires
        old(ctx).wf(),
        spec_fits(p, 17),
    ensures
        final(ctx).wf(),
        forall|cp: ChunkPosition| final(ctx).has_chunk(cp) == old(ctx).has_chunk(cp),
        forall|q: BlockPosition| final(ctx).block(q) == old(ctx).block(q),
        forall|q: BlockPosition| final(ctx).light(q) >= old(ctx).light(q),
        forall|q: BlockPosition|
            spec_manhattan(q, p) > MAX_LIGHT_LEVEL ==> final(ctx).light(q) == old(ctx).light(q),
        (forall|n: BlockPosition| spec_manhattan(n, p) == 1 ==> old(ctx).light(n) <= 1)
            ==> forall|q: BlockPosition| final(ctx).light(q) == old(ctx).light(q),
{
    let nbrs = crate::adjacency::adjacent_blocks(p);
    let mut i: usize = 0;
    while i < nbrs.len()
        invariant
            ctx.wf(),
            i <= nbrs@.len(),
            spec_fits(p, 17),
            forall|cp: ChunkPosition| ctx.has_chunk(cp) == old(ctx).has_chunk(cp),
            forall|q: BlockPosition| ctx.block(q) == old(ctx).block(q),
            forall|q: BlockPosition| ctx.light(q) >= old(ctx).light(q),
            forall|q: BlockPosition|
                spec_manhattan(q, p) > MAX_LIGHT_LEVEL ==> ctx.light(q) == old(ctx).light(q),
            forall|k: int| 0 <= k < nbrs@.len() ==> spec_manhattan(#[trigger] nbrs@[k], p) == 1,
            (forall|n: BlockPosition| spec_manhattan(n, p) == 1 ==> old(ctx).light(n) <= 1)
                ==> forall|q: BlockPosition| ctx.light(q) == old(ctx).light(q),
        decreases nbrs@.len() - i,
    {
        let n = nbrs[i];
        let ln = ctx.block_light_at(n);
        if ln > 1 {
            let _ = propagate_light(ctx, p, ln - 1);
        }
        i += 1;
    }
}

/// Whether the source being removed at `position` was the only light in
/// its reach: every other position close enough to matter carries no
/// emitting block and at most a trace light value. The removed cell's own
/// block is never consulted, so this also covers retracting a source that
/// still stands in the grid.
pub open spec fn spec_only_source_nearby(
    ctx: Context,
    position: BlockPosition,
    old_level: u8,
) -> bool {
    forall|q: BlockPosition|
        q != position && spec_manhattan(q, position) <= old_level + 1 ==> ctx.light(q) <= 1
            && ctx.block(q).emission == 0
}

/// Algorithm for light-source removal: floods the region the removed source
/// could have lit and zeroes it, then rebuilds every cleared position from
/// the other remaining emitters inside the region and from brighter
/// neighbors on its boundary; whatever block now stands at the removed
/// position never re-seeds its own cell, so the call also serves to retract
/// a source that is still in place. Correctness over minimal recomputation:
/// the rebuild may redo work, but no stale over-bright value survives
/// outside the cleared region; and where the removed source was the only
/// light around, its cell ends dark and every cell is either zeroed or
/// untouched.
#[verifier::rlimit(100)]
pub fn remove_light_source(ctx: &mut Context, position: BlockPosition, old_level: u8)
    requires
        old(ctx).wf(),
        old_level <= MAX_LIGHT_LEVEL,
        spec_fits(position, 32),
    ensures
        final(ctx).wf(),
        forall|cp: ChunkPosition| final(ctx).has_chunk(cp) == old(ctx).has_chunk(cp),
        forall|q: BlockPosition| final(ctx).block(q) == old(ctx).block(q),
        forall|q: BlockPosition|
            spec_manhattan(q, position) > 2 * MAX_LIGHT_LEVEL ==> final(ctx).light(q) == old(
                ctx,
            ).light(q),
        spec_only_source_nearby(*old(ctx), position, old_level) ==> final(ctx).light(position)
            == 0,
        spec_only_source_nearby(*old(ctx), position, old_level) ==> forall|q: BlockPosition|
            final(ctx).light(q) == old(ctx).light(q) || final(ctx).light(q) == 0,
        spec_only_source_nearby(*old(ctx), position, old_level) && old_level >= 1 ==> forall|
            n: BlockPosition,
        |
            spec_manhattan(n, position) == 1 && spec_y_in_bounds(n.y as int) && !old(ctx).block(
                n,
            ).opaque ==> final(ctx).light(n) == 0,
{
    let cleared = flood_fill(ctx, position, old_level);
    ctx.set_block_light_at(position, 0);
    proof {
        crate::chunk_map::lemma_boundary_reads(old(ctx).map, position);
    }
    let mut i: usize = 0;
    while i < cleared.len()
        invariant
            ctx.wf(),
            i <= cleared@.len(),
            old_level <= MAX_LIGHT_LEVEL,
            spec_fits(position, 32),
            forall|cp: ChunkPosition| ctx.has_chunk(cp) == old(ctx).has_chunk(cp),
            forall|q: BlockPosition| ctx.block(q) == old(ctx).block(q),
            spec_admitted(*old(ctx), position, old_level, cleared@),
            forall|q: BlockPosition|
                spec_manhattan(q, position) > old_level ==> ctx.light(q) == old(ctx).light(q),
            ctx.light(position) == 0,
            forall|q: BlockPosition|
                ctx.light(q) == old(ctx).light(q) || ctx.light(q) == 0,
            forall|j: int| 0 <= j < i ==> ctx.light(#[trigger] cleared@[j]) == 0,
        decreases cleared@.len() - i,
    {
        let p = cleared[i];
        ctx.set_block_light_at(p, 0);
        proof {
            crate::chunk_map::lemma_boundary_reads(ctx.map, p);
        }
        i += 1;
    }
    let ghost after_zero = *ctx;
    proof {
        if spec_only_source_nearby(*old(ctx), position, old_level) {
            assert forall|q: BlockPosition|
                spec_manhattan(q, position) <= old_level + 1 implies after_zero.light(q)
                <= 1 by {
                crate::position::lemma_manhattan_zero(q, position);
            }
        }
    }
    reseed_from_neighbors(ctx, position);
    proof {
        assert forall|q: BlockPosition|
            spec_manhattan(q, position) > 2 * MAX_LIGHT_LEVEL implies ctx.light(q) == old(
            ctx,
        ).light(q) by {
            assert(spec_manhattan(q, position) > old_level);
        }
    }
    let ghost base = *old(ctx);
    let mut i: usize = 0;
    while i < cleared.len()
        invariant
            ctx.wf(),
            i <= cleared@.len(),
            spec_fits(position, 32),
            forall|cp: ChunkPosition| ctx.has_chunk(cp) == base.has_chunk(cp),
            forall|q: BlockPosition| ctx.block(q) == base.block(q),
            spec_admitted(base, position, old_level, cleared@),
            old_level <= MAX_LIGHT_LEVEL,
            forall|q: BlockPosition|
                spec_manhattan(q, position) > 2 * MAX_LIGHT_LEVEL ==> ctx.light(q) == base.light(
                    q,
                ),
            after_zero.light(position) == 0,
            forall|q: BlockPosition|
                after_zero.light(q) == base.light(q) || after_zero.light(q) == 0,
            spec_only_source_nearby(base, position, old_level) ==> forall|q: BlockPosition|
                spec_manhattan(q, position) <= old_level + 1 ==> after_zero.light(q) <= 1,
            spec_only_source_nearby(base, position, old_level) ==> forall|q: BlockPosition|
                ctx.light(q) == after_zero.light(q),
        decreases cleared@.len() - i,
    {
        let p = cleared[i];
        proof {
            assert(abs_diff_int(p.x as int, position.x as int) <= spec_manhattan(p, position));
            assert(abs_diff_int(p.y as int, position.y as int) <= spec_manhattan(p, position));
            assert(abs_diff_int(p.z as int, position.z as int) <= spec_manhattan(p, position));
            assert(spec_fits(p, 17));
            if spec_only_source_nearby(base, position, old_level) {
                assert forall|n: BlockPosition| spec_manhattan(n, p) == 1 implies ctx.light(n)
                    <= 1 by {
                    lemma_manhattan_triangle(n, p, position);
                }
                assert(ctx.block(p).emission == 0);
            }
        }
        let ghost before = *ctx;
        reseed_position(ctx, p);
        proof {
            assert forall|q: BlockPosition|
                spec_manhattan(q, position) > 2 * MAX_LIGHT_LEVEL implies ctx.light(q)
                == base.light(q) by {
                lemma_manhattan_triangle(q, p, position);
                assert(spec_manhattan(q, p) > MAX_LIGHT_LEVEL);
                assert(ctx.light(q) == before.light(q));
            }
        }
        i += 1;
    }
    proof {
        if spec_only_source_nearby(*old(ctx), position, old_level) && old_level >= 1 {
            assert forall|n: BlockPosition|
                spec_manhattan(n, position) == 1 && spec_y_in_bounds(n.y as int) && !old(
                    ctx,
                ).block(n).opaque implies ctx.light(n) == 0 by {
                assert(cleared@.contains(n));
                let j = choose|j: int| 0 <= j < cleared@.len() && cleared@[j] == n;
                assert(after_zero.light(cleared@[j]) == 0);
                assert(ctx.light(n) == after_zero.light(n));
            }
        }
    }
}

/// Whether the pair `(q, e)` occurs in a source list.
pub open spec fn spec_source_listed(s: Seq<(BlockPosition, u8)>, q: BlockPosition, e: u8) -> bool {
    exists|j: int| 0 <= j < s.len() && s[j] == (q, e)
}

proof fn lemma_listed_push(s: Seq<(BlockPosition, u8)>, t: (BlockPosition, u8), q: BlockPosition, e: u8)
    requires
        spec_source_listed(s, q, e),
    ensures
        spec_source_listed(s.push(t), q, e),
{
    let j = choose|j: int| 0 <= j < s.len() && s[j] == (q, e);
    assert(s.push(t)[j] == (q, e));
}

/// Whether `q` lies within the scan radius of `center`.
pub open spec fn spec_in_scan_ball(center: BlockPosition, q: BlockPosition) -> bool {
    spec_manhattan(q, center) <= MAX_PROPAGATION_DISTANCE
}

/// Scans every position within Manhattan distance 15 of `center` and
/// returns each light-emitting block found there, with its emission level;
/// the list is sound and complete for that ball. Nothing is mutated.
#[verifier::rlimit(100)]
pub fn find_sources_near(ctx: &mut Context, center: BlockPosition) -> (sources: Vec<
    (BlockPosition, u8),
>)
    requires
        old(ctx).wf(),
        spec_fits(center, 16),
    ensures
        final(ctx).map == old(ctx).map,
        final(ctx).wf(),
        forall|j: int|
            0 <= j < sources@.len() ==> spec_in_scan_ball(center, (#[trigger] sources@[j]).0)
                && old(ctx).block(sources@[j].0).emission == sources@[j].1 && sources@[j].1 > 0,
        forall|q: BlockPosition|
            spec_in_scan_ball(center, q) && old(ctx).block(q).emission > 0
                ==> spec_source_listed(sources@, q, old(ctx).block(q).emission),
{
    let mut sources: Vec<(BlockPosition, u8)> = Vec::new();
    let mut ox: usize = 0;
    while ox < 31
        invariant
            ctx.wf(),
            ctx.map == old(ctx).map,
            spec_fits(center, 16),
            ox <= 31,
            forall|j: int|
                0 <= j < sources@.len() ==> spec_in_scan_ball(center, (#[trigger] sources@[j]).0)
                    && old(ctx).block(sources@[j].0).emission == sources@[j].1
                    && sources@[j].1 > 0,
            forall|q: BlockPosition|
                spec_in_scan_ball(center, q) && old(ctx).block(q).emission > 0
                    && (q.x as int) < center.x as int + ox - 15 ==> spec_source_listed(
                    sources@,
                    q,
                    old(ctx).block(q).emission,
                ),
        decreases 31 - ox,
    {
        let dxi: i32 = ox as i32 - 15;
        let mut oy: usize = 0;
        while oy < 31
            invariant
                ctx.wf(),
                ctx.map == old(ctx).map,
                spec_fits(center, 16),
                ox < 31,
                oy <= 31,
                dxi == ox as i32 - 15,
                forall|j: int|
                    0 <= j < sources@.len() ==> spec_in_scan_ball(
                        center,
                        (#[trigger] sources@[j]).0,
                    ) && old(ctx).block(sources@[j].0).emission == sources@[j].1
                        && sources@[j].1 > 0,
                forall|q: BlockPosition|
                    spec_in_scan_ball(center, q) && old(ctx).block(q).emission > 0
                        && (q.x as int) < center.x as int + ox - 15 ==> spec_source_listed(
                        sources@,
                        q,
                        old(ctx).block(q).emission,
                    ),
                forall|q: BlockPosition|
                    spec_in_scan_ball(center, q) && old(ctx).block(q).emission > 0
                        && q.x as int == center.x as int + ox - 15 && (q.y as int) < center.y as int
                        + oy - 15 ==> spec_source_listed(
                        sources@,
                        q,
                        old(ctx).block(q).emission,
                    ),
            decreases 31 - oy,
        {
            let dyi: i32 = oy as i32 - 15;
            let mut oz: usize = 0;
            while oz < 31
                invariant
                    ctx.wf(),
                    ctx.map == old(ctx).map,
                    spec_fits(center, 16),
                    ox < 31,
                    oy < 31,
                    oz <= 31,
                    dxi == ox as i32 - 15,
                    dyi == oy as i32 - 15,
                    forall|j: int|
                        0 <= j < sources@.len() ==> spec_in_scan_ball(
                            center,
                            (#[trigger] sources@[j]).0,
                        ) && old(ctx).block(sources@[j].0).emission == sources@[j].1
                            && sources@[j].1 > 0,
                    forall|q: BlockPosition|
                        spec_in_scan_ball(center, q) && old(ctx).block(q).emission > 0
                            && (q.x as int) < center.x as int + ox - 15 ==> spec_source_listed(
                            sources@,
                            q,
                            old(ctx).block(q).emission,
                        ),
                    forall|q: BlockPosition|
                        spec_in_scan_ball(center, q) && old(ctx).block(q).emission > 0
                            && q.x as int == center.x as int + ox - 15 && (q.y as int)
                            < center.y as int + oy - 15 ==> spec_source_listed(
                            sources@,
                            q,
                            old(ctx).block(q).emission,
                        ),
                    forall|q: BlockPosition|
                        spec_in_scan_ball(center, q) && old(ctx).block(q).emission > 0
                            && q.x as int == center.x as int + ox - 15 && q.y as int
                            == center.y as int + oy - 15 && (q.z as int) < center.z as int + oz
                            - 15 ==> spec_source_listed(
                            sources@,
                            q,
                            old(ctx).block(q).emission,
                        ),
                decreases 31 - oz,
            {
                let dzi: i32 = oz as i32 - 15;
                let p = BlockPosition::new(center.x + dxi, center.y + dyi, center.z + dzi);
                let d = p.manhattan_distance(center);
                if d <= MAX_PROPAGATION_DISTANCE as i64 {
                    let b = ctx.block_at(p);
                    if b.emission > 0 {
                        let ghost olds = sources@;
                        sources.push((p, b.emission));
                        proof {
                            assert forall|q2: BlockPosition, e2: u8|
                                spec_source_listed(olds, q2, e2) implies spec_source_listed(
                                sources@,
                                q2,
                                e2,
                            ) by {
                                lemma_listed_push(olds, (p, b.emission), q2, e2);
                            }
                            assert(sources@[sources@.len() - 1] == (p, b.emission));
                            assert(spec_source_listed(sources@, p, b.emission));
                        }
                    }
                }
                proof {
                    assert forall|q: BlockPosition|
                        spec_in_scan_ball(center, q) && old(ctx).block(q).emission > 0
                            && q.x as int == center.x as int + ox - 15 && q.y as int
                            == center.y as int + oy - 15 && (q.z as int) < center.z as int + (oz
                            + 1) - 15 implies spec_source_listed(
                        sources@,
                        q,
                        old(ctx).block(q).emission,
                    ) by {
                        if q.z as int == center.z as int + oz - 15 {
                            assert(q == p);
                        }
                    }
                }
                oz += 1;
            }
            proof {
                assert forall|q: BlockPosition|
                    spec_in_scan_ball(center, q) && old(ctx).block(q).emission > 0
                        && q.x as int == center.x as int + ox - 15 && (q.y as int)
                        < center.y as int + (oy + 1) - 15 implies spec_source_listed(
                    sources@,
                    q,
                    old(ctx).block(q).emission,
                ) by {
                    if q.y as int == center.y as int + oy - 15 {
                        assert(abs_diff_int(q.z as int, center.z as int) <= spec_manhattan(
                            q,
                            center,
                        ));
                    }
                }
            }
            oy += 1;
        }
        proof {
            assert forall|q: BlockPosition|
                spec_in_scan_ball(center, q) && old(ctx).block(q).emission > 0 && (q.x as int)
                    < center.x as int + (ox + 1) - 15 implies spec_source_listed(
                sources@,
                q,
                old(ctx).block(q).emission,
            ) by {
                if q.x as int == center.x as int + ox - 15 {
                    assert(abs_diff_int(q.y as int, center.y as int) <= spec_manhattan(q, center));
                }
            }
        }
        ox += 1;
    }
    proof {
        assert forall|q: BlockPosition|
            spec_in_scan_ball(center, q) && old(ctx).block(q).emission > 0 implies
            spec_source_listed(sources@, q, old(ctx).block(q).emission) by {
            assert(abs_diff_int(q.x as int, center.x as int) <= spec_manhattan(q, center));
        }
    }
    sources
}

/// Whether `s` is the one light source near `position` and stands right
/// beside it: `s` emits, nothing else within the scan radius emits, the
/// surroundings of `s` carry at most trace light, and `position` itself is
/// open space inside the vertical bounds.
pub open spec fn spec_lone_adjacent_source(
    ctx: Context,
    position: BlockPosition,
    s: BlockPosition,
) -> bool {
    &&& spec_manhattan(s, position) == 1
    &&& ctx.block(s).emission >= 1
    &&& spec_only_source_nearby(ctx, s, ctx.block(s).emission)
    &&& forall|q: BlockPosition|
        q != s && spec_in_scan_ball(position, q) ==> ctx.block(q).emission == 0
    &&& !ctx.block(position).opaque
    &&& spec_y_in_bounds(position.y as int)
}

proof fn lemma_lone_source_unique(
    ctx: Context,
    position: BlockPosition,
    s1: BlockPosition,
    s2: BlockPosition,
)
    requires
        spec_lone_adjacent_source(ctx, position, s1),
        spec_lone_adjacent_source(ctx, position, s2),
    ensures
        s1 == s2,
{
    if s1 != s2 {
        assert(spec_in_scan_ball(position, s2));
        assert(ctx.block(s2).emission == 0);
        assert(false);
    }
}

/// Algorithm for opaque-block creation: retracts the light of every source
/// within reach as if it were being removed (while the target still reads
/// as its old, open block), commits the opaque block, and then re-runs
/// propagation for each of those sources around the new obstruction. Every
/// nearby source ends at least as bright as its own emission.
#[verifier::rlimit(100)]
pub fn opaque_non_emitting_creation(ctx: &mut Context, position: BlockPosition, new_block: Block)
    requires
        old(ctx).wf(),
        new_block.wf(),
        new_block.opaque,
        new_block.emission == 0,
        old(ctx).block(position).emission == 0,
        spec_fits(position, 47),
    ensures
        final(ctx).wf(),
        forall|cp: ChunkPosition| final(ctx).has_chunk(cp) == old(ctx).has_chunk(cp),
        spec_loaded(*old(ctx), position) ==> final(ctx).block(position) == new_block,
        !spec_loaded(*old(ctx), position) ==> final(ctx).block(position) == old(ctx).block(
            position,
        ),
        forall|q: BlockPosition| q != position ==> final(ctx).block(q) == old(ctx).block(q),
        forall|q: BlockPosition|
            spec_in_scan_ball(position, q) && old(ctx).block(q).emission > 0 && spec_loaded(
                *old(ctx),
                q,
            ) ==> final(ctx).light(q) >= old(ctx).block(q).emission,
        forall|s: BlockPosition|
            spec_lone_adjacent_source(*old(ctx), position, s) ==> final(ctx).light(position)
                == 0,
{
    let sources = find_sources_near(ctx, position);
    let mut i: usize = 0;
    while i < sources.len()
        invariant
            ctx.wf(),
            old(ctx).wf(),
            i <= sources@.len(),
            spec_fits(position, 47),
            forall|cp: ChunkPosition| ctx.has_chunk(cp) == old(ctx).has_chunk(cp),
            forall|q: BlockPosition| ctx.block(q) == old(ctx).block(q),
            forall|j: int|
                0 <= j < sources@.len() ==> spec_in_scan_ball(
                    position,
                    (#[trigger] sources@[j]).0,
                ) && old(ctx).block(sources@[j].0).emission == sources@[j].1
                    && sources@[j].1 > 0,
            forall|t: BlockPosition|
                spec_lone_adjacent_source(*old(ctx), position, t) ==> (forall|q: BlockPosition|
                    q != t && spec_manhattan(q, t) <= old(ctx).block(t).emission + 1
                        ==> ctx.light(q) <= 1),
            forall|t: BlockPosition|
                spec_lone_adjacent_source(*old(ctx), position, t) && i >= 1 ==> ctx.light(
                    position,
                ) == 0,
        decreases sources@.len() - i,
    {
        let (s, lv) = sources[i];
        proof {
            crate::chunk_map::lemma_block_wf(old(ctx).map, s);
            assert(abs_diff_int(s.x as int, position.x as int) <= spec_manhattan(s, position));
            assert(abs_diff_int(s.y as int, position.y as int) <= spec_manhattan(s, position));
            assert(abs_diff_int(s.z as int, position.z as int) <= spec_manhattan(s, position));
            assert(spec_fits(s, 32));
        }
        let ghost before_retract = *ctx;
        remove_light_source(ctx, s, lv);
        proof {
            assert forall|t: BlockPosition|
                spec_lone_adjacent_source(*old(ctx), position, t) implies ((forall|
                q: BlockPosition,
            |
                q != t && spec_manhattan(q, t) <= old(ctx).block(t).emission + 1 ==> ctx.light(q)
                    <= 1) && ctx.light(position) == 0) by {
                assert(s == t) by {
                    if s != t {
                        assert(ctx.block(s) == old(ctx).block(s));
                        assert(old(ctx).block(s).emission == 0);
                        assert(false);
                    }
                }
                assert(spec_only_source_nearby(before_retract, s, lv));
                assert(spec_manhattan(position, t) == 1);
                assert(!before_retract.block(position).opaque);
                assert(ctx.light(position) == 0);
                assert forall|q: BlockPosition|
                    q != t && spec_manhattan(q, t) <= old(ctx).block(t).emission + 1 implies
                    ctx.light(q) <= 1 by {
                    assert(ctx.light(q) == before_retract.light(q) || ctx.light(q) == 0);
                }
            }
        }
        i += 1;
    }
    proof {
        assert forall|t: BlockPosition|
            spec_lone_adjacent_source(*old(ctx), position, t) implies ctx.light(position)
            == 0 by {
            assert(spec_in_scan_ball(position, t));
            assert(spec_source_listed(sources@, t, old(ctx).block(t).emission));
            let j = choose|j: int|
                0 <= j < sources@.len() && sources@[j] == (t, old(ctx).block(t).emission);
            assert(sources@.len() >= 1);
        }
    }
    ctx.set_block_at(position, new_block);
    proof {
        assert forall|j: int| 0 <= j < sources@.len() implies spec_manhattan(
            (#[trigger] sources@[j]).0,
            position,
        ) <= MAX_PROPAGATION_DISTANCE && sources@[j].1 <= MAX_LIGHT_LEVEL by {
            crate::chunk_map::lemma_block_wf(old(ctx).map, sources@[j].0);
        }
    }
    repropagate_sources(ctx, &sources, position);
    proof {
        assert forall|q: BlockPosition|
            spec_in_scan_ball(position, q) && old(ctx).block(q).emission > 0 && spec_loaded(
                *old(ctx),
                q,
            ) implies ctx.light(q) >= old(ctx).block(q).emission by {
            let e = old(ctx).block(q).emission;
            assert(spec_source_listed(sources@, q, e));
            let j = choose|j: int| 0 <= j < sources@.len() && sources@[j] == (q, e);
            assert(ctx.light(sources@[j].0) >= sources@[j].1);
        }
        assert forall|t: BlockPosition|
            spec_lone_adjacent_source(*old(ctx), position, t) implies ctx.light(position)
            == 0 by {
            crate::chunk_map::lemma_boundary_reads(ctx.map, position);
            if spec_loaded(*old(ctx), position) {
                assert forall|j: int| 0 <= j < sources@.len() implies (
                #[trigger] sources@[j]).0 != position by {
                    assert(old(ctx).block(sources@[j].0).emission == sources@[j].1);
                }
            }
        }
    }
}

/// Re-runs light-source creation for each listed source; every loaded
/// source position ends at least as bright as its listed level, and no
/// light value anywhere decreases.
#[verifier::rlimit(100)]
fn repropagate_sources(
    ctx: &mut Context,
    sources: &Vec<(BlockPosition, u8)>,
    position: BlockPosition,
)
    requires
        old(ctx).wf(),
        spec_fits(position, 47),
        forall|j: int|
            0 <= j < sources@.len() ==> spec_manhattan((#[trigger] sources@[j]).0, position)
                <= MAX_PROPAGATION_DISTANCE && sources@[j].1 <= MAX_LIGHT_LEVEL,
    ensures
        final(ctx).wf(),
        forall|cp: ChunkPosition| final(ctx).has_chunk(cp) == old(ctx).has_chunk(cp),
        forall|q: BlockPosition| final(ctx).block(q) == old(ctx).block(q),
        forall|q: BlockPosition| final(ctx).light(q) >= old(ctx).light(q),
        forall|j: int|
            0 <= j < sources@.len() ==> (spec_loaded(*old(ctx), (#[trigger] sources@[j]).0)
                ==> final(ctx).light(sources@[j].0) >= sources@[j].1),
        forall|q: BlockPosition|
            old(ctx).block(q).opaque && (forall|j: int|
                0 <= j < sources@.len() ==> (#[trigger] sources@[j]).0 != q) ==> final(ctx).light(
                q,
            ) == old(ctx).light(q),
{
    let mut i: usize = 0;
    while i < sources.len()
        invariant
            ctx.wf(),
            i <= sources@.len(),
            spec_fits(position, 47),
            forall|cp: ChunkPosition| ctx.has_chunk(cp) == old(ctx).has_chunk(cp),
            forall|q: BlockPosition| ctx.block(q) == old(ctx).block(q),
            forall|q: BlockPosition| ctx.light(q) >= old(ctx).light(q),
            forall|j: int|
                0 <= j < sources@.len() ==> spec_manhattan((#[trigger] sources@[j]).0, position)
                    <= MAX_PROPAGATION_DISTANCE && sources@[j].1 <= MAX_LIGHT_LEVEL,
            forall|j: int|
                0 <= j < i ==> (spec_loaded(*old(ctx), (#[trigger] sources@[j]).0) ==> ctx.light(
                    sources@[j].0,
                ) >= sources@[j].1),
            forall|q: BlockPosition|
                old(ctx).block(q).opaque && (forall|j: int|
                    0 <= j < sources@.len() ==> (#[trigger] sources@[j]).0 != q) ==> ctx.light(q)
                    == old(ctx).light(q),
        decreases sources@.len() - i,
    {
        let (s, lv) = sources[i];
        proof {
            assert(abs_diff_int(s.x as int, position.x as int) <= spec_manhattan(s, position));
            assert(abs_diff_int(s.y as int, position.y as int) <= spec_manhattan(s, position));
            assert(abs_diff_int(s.z as int, position.z as int) <= spec_manhattan(s, position));
            assert(spec_fits(s, 17));
        }
        let ghost before = *ctx;
        let affected = propagate_light(ctx, s, lv);
        proof {
            assert forall|q: BlockPosition|
                old(ctx).block(q).opaque && (forall|j: int|
                    0 <= j < sources@.len() ==> (#[trigger] sources@[j]).0 != q) implies ctx.light(
                q,
            ) == old(ctx).light(q) by {
                assert((sources@[i as int]).0 != q);
                if affected@.contains(q) {
                    let k = choose|k: int| 0 <= k < affected@.len() && affected@[k] == q;
                    assert(!before.block(affected@[k]).opaque);
                    assert(false);
                }
                assert(ctx.light(q) == before.light(q));
            }
        }
        i += 1;
    }
}

} // verus!
