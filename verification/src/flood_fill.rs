//! Bounded breadth-first flood fill over axis-aligned neighbors.
//!
//! The traversal admits a position at most once, never admits a position
//! beyond the distance bound, stops expanding at opaque blocks, and reports
//! the admitted positions in visitation order.

use vstd::prelude::*;
use std::collections::VecDeque;
use crate::adjacency::adjacent_blocks;
use crate::context::Context;
use crate::position::BlockPosition;
use crate::position::abs_diff_int;
use crate::position::spec_fits;
use crate::position::spec_manhattan;
use crate::position::spec_y_in_bounds;
use crate::position::lemma_manhattan_triangle;
use crate::visited::visited_contents;
use crate::visited::visited_insert;
use crate::visited::visited_new;

verus! {

/// The coordinate triple of a block position.
pub open spec fn spec_cell_of(p: BlockPosition) -> (i32, i32, i32) {
    (p.x, p.y, p.z)
}

/// Every in-bounds neighbor of `c` lying within the distance bound is
/// itself visited, the start, or opaque: the traversal left no admissible
/// cell beside `c` unexamined.
pub open spec fn spec_visit_closed(
    ctx: Context,
    start: BlockPosition,
    max_dist: u8,
    vs: Seq<BlockPosition>,
    c: BlockPosition,
) -> bool {
    forall|n: BlockPosition|
        spec_manhattan(n, c) == 1 && spec_y_in_bounds(n.y as int) && spec_manhattan(n, start)
            <= max_dist ==> vs.contains(n) || n == start || ctx.block(n).opaque
}

/// Every visited position still awaits expansion (sits in `pending`) or is
/// already closed: no third state exists during the traversal.
pub open spec fn spec_traversal_pending(
    ctx: Context,
    start: BlockPosition,
    max_dist: u8,
    vs: Seq<BlockPosition>,
    pending: Seq<BlockPosition>,
) -> bool {
    forall|j: int|
        0 <= j < vs.len() ==> pending.contains(#[trigger] vs[j]) || spec_visit_closed(
            ctx,
            start,
            max_dist,
            vs,
            vs[j],
        )
}

/// Every coordinate triple in the touched set belongs to the start, a
/// visited position, or an opaque cell: nothing else is ever recorded.
pub open spec fn spec_touched_accounted(
    ctx: Context,
    start: BlockPosition,
    vs: Seq<BlockPosition>,
    tch: Set<(i32, i32, i32)>,
) -> bool {
    forall|n: BlockPosition|
        tch.contains(spec_cell_of(n)) ==> n == start || vs.contains(n) || ctx.block(n).opaque
}

proof fn lemma_accounted_insert(
    ctx: Context,
    start: BlockPosition,
    vs: Seq<BlockPosition>,
    before: Set<(i32, i32, i32)>,
    nb: BlockPosition,
)
    requires
        spec_touched_accounted(ctx, start, vs, before),
        nb == start || vs.contains(nb) || ctx.block(nb).opaque || before.contains(
            spec_cell_of(nb),
        ),
    ensures
        spec_touched_accounted(ctx, start, vs, before.insert(spec_cell_of(nb))),
{
    assert forall|n: BlockPosition|
        before.insert(spec_cell_of(nb)).contains(spec_cell_of(n)) implies n == start
            || vs.contains(n) || ctx.block(n).opaque by {
        if spec_cell_of(n) == spec_cell_of(nb) {
            assert(n == nb);
        } else {
            assert(before.contains(spec_cell_of(n)));
        }
    }
}

proof fn lemma_accounted_grow(
    ctx: Context,
    start: BlockPosition,
    vs: Seq<BlockPosition>,
    tch: Set<(i32, i32, i32)>,
    nb: BlockPosition,
)
    requires
        spec_touched_accounted(ctx, start, vs, tch),
    ensures
        spec_touched_accounted(ctx, start, vs.push(nb), tch),
{
    assert forall|n: BlockPosition| tch.contains(spec_cell_of(n)) implies n == start
        || vs.push(nb).contains(n) || ctx.block(n).opaque by {
        if vs.contains(n) {
            let j = choose|j: int| 0 <= j < vs.len() && vs[j] == n;
            assert(vs.push(nb)[j] == n);
        }
    }
}

proof fn lemma_closed_grow(
    ctx: Context,
    start: BlockPosition,
    max_dist: u8,
    vs: Seq<BlockPosition>,
    nb: BlockPosition,
    c: BlockPosition,
)
    requires
        spec_visit_closed(ctx, start, max_dist, vs, c),
    ensures
        spec_visit_closed(ctx, start, max_dist, vs.push(nb), c),
{
    assert forall|n: BlockPosition|
        spec_manhattan(n, c) == 1 && spec_y_in_bounds(n.y as int) && spec_manhattan(n, start)
            <= max_dist implies vs.push(nb).contains(n) || n == start || ctx.block(n).opaque by {
        if vs.contains(n) {
            let j = choose|j: int| 0 <= j < vs.len() && vs[j] == n;
            assert(vs.push(nb)[j] == n);
        }
    }
}

proof fn lemma_pending_pop(
    ctx: Context,
    start: BlockPosition,
    max_dist: u8,
    vs: Seq<BlockPosition>,
    popped_q: Seq<BlockPosition>,
)
    requires
        popped_q.len() > 0,
        spec_traversal_pending(ctx, start, max_dist, vs, popped_q),
    ensures
        spec_traversal_pending(
            ctx,
            start,
            max_dist,
            vs,
            popped_q.subrange(1, popped_q.len() as int).push(popped_q[0]),
        ),
{
    let rest = popped_q.subrange(1, popped_q.len() as int);
    assert forall|j: int| 0 <= j < vs.len() implies rest.push(popped_q[0]).contains(
        #[trigger] vs[j],
    ) || spec_visit_closed(ctx, start, max_dist, vs, vs[j]) by {
        if popped_q.contains(vs[j]) {
            let k = choose|k: int| 0 <= k < popped_q.len() && popped_q[k] == vs[j];
            if k == 0 {
                assert(rest.push(popped_q[0])[rest.len() as int] == vs[j]);
            } else {
                assert(rest.push(popped_q[0])[k - 1] == vs[j]);
            }
        }
    }
}

proof fn lemma_pending_admit(
    ctx: Context,
    start: BlockPosition,
    max_dist: u8,
    vs: Seq<BlockPosition>,
    nb: BlockPosition,
    pend_old: Seq<BlockPosition>,
    pend_new: Seq<BlockPosition>,
)
    requires
        spec_traversal_pending(ctx, start, max_dist, vs, pend_old),
        forall|x: BlockPosition| pend_old.contains(x) ==> pend_new.contains(x),
        pend_new.contains(nb),
    ensures
        spec_traversal_pending(ctx, start, max_dist, vs.push(nb), pend_new),
{
    assert forall|j: int| 0 <= j < vs.push(nb).len() implies pend_new.contains(
        #[trigger] vs.push(nb)[j],
    ) || spec_visit_closed(ctx, start, max_dist, vs.push(nb), vs.push(nb)[j]) by {
        if j < vs.len() {
            assert(vs.push(nb)[j] == vs[j]);
            if !pend_old.contains(vs[j]) {
                lemma_closed_grow(ctx, start, max_dist, vs, nb, vs[j]);
            }
        } else {
            assert(vs.push(nb)[j] == nb);
        }
    }
}

proof fn lemma_pending_close(
    ctx: Context,
    start: BlockPosition,
    max_dist: u8,
    vs: Seq<BlockPosition>,
    q: Seq<BlockPosition>,
    pos: BlockPosition,
)
    requires
        spec_traversal_pending(ctx, start, max_dist, vs, q.push(pos)),
        spec_visit_closed(ctx, start, max_dist, vs, pos),
    ensures
        spec_traversal_pending(ctx, start, max_dist, vs, q),
{
    assert forall|j: int| 0 <= j < vs.len() implies q.contains(#[trigger] vs[j])
        || spec_visit_closed(ctx, start, max_dist, vs, vs[j]) by {
        if q.push(pos).contains(vs[j]) && vs[j] != pos {
            let k = choose|k: int| 0 <= k < q.push(pos).len() && q.push(pos)[k] == vs[j];
            assert(q[k] == vs[j]);
        }
    }
}

/// Every admitted position is the start's neighbor or the neighbor of an
/// earlier admitted position: the traversal only ever grows at its frontier.
pub open spec fn spec_connected_order(vs: Seq<BlockPosition>, start: BlockPosition) -> bool {
    forall|i: int|
        0 <= i < vs.len() ==> spec_manhattan(#[trigger] vs[i], start) == 1 || exists|j: int|
            0 <= j < i && spec_manhattan(#[trigger] vs[j], vs[i]) == 1
}

/// What holds of every sequence of positions a flood fill admits: all within
/// `max_dist` of `start`, none opaque in `ctx`, all inside the vertical
/// bounds, none equal to `start`, pairwise distinct, and frontier-connected.
pub open spec fn spec_admitted(
    ctx: Context,
    start: BlockPosition,
    max_dist: u8,
    vs: Seq<BlockPosition>,
) -> bool {
    &&& forall|i: int| 0 <= i < vs.len() ==> spec_manhattan(#[trigger] vs[i], start) <= max_dist
    &&& forall|i: int| 0 <= i < vs.len() ==> !ctx.block(#[trigger] vs[i]).opaque
    &&& forall|i: int| 0 <= i < vs.len() ==> spec_y_in_bounds((#[trigger] vs[i]).y as int)
    &&& forall|i: int| 0 <= i < vs.len() ==> (#[trigger] vs[i]) != start
    &&& forall|i: int, j: int| 0 <= i < j < vs.len() ==> vs[i] != vs[j]
    &&& spec_connected_order(vs, start)
}

/// Admitting a fresh, in-range, non-opaque neighbor of the frontier keeps
/// both the admitted-sequence facts and the queue facts intact.
proof fn lemma_admit_step(
    ctx: Context,
    start: BlockPosition,
    max_dist: u8,
    old_vs: Seq<BlockPosition>,
    old_q: Seq<BlockPosition>,
    pos: BlockPosition,
    nb: BlockPosition,
)
    requires
        spec_admitted(ctx, start, max_dist, old_vs),
        forall|k: int|
            0 <= k < old_q.len() ==> (#[trigger] old_q[k]) == start || exists|j: int|
                0 <= j < old_vs.len() && old_vs[j] == old_q[k],
        spec_manhattan(nb, pos) == 1,
        spec_manhattan(nb, start) <= max_dist,
        !ctx.block(nb).opaque,
        spec_y_in_bounds(nb.y as int),
        nb != start,
        forall|k: int| 0 <= k < old_vs.len() ==> (#[trigger] old_vs[k]) != nb,
        pos == start || exists|j: int| 0 <= j < old_vs.len() && old_vs[j] == pos,
    ensures
        spec_admitted(ctx, start, max_dist, old_vs.push(nb)),
        forall|k: int|
            0 <= k < old_q.push(nb).len() ==> (#[trigger] old_q.push(nb)[k]) == start
                || exists|j: int|
                0 <= j < old_vs.push(nb).len() && old_vs.push(nb)[j] == old_q.push(nb)[k],
        forall|q: BlockPosition| old_vs.contains(q) ==> old_vs.push(nb).contains(q),
{
    let vs = old_vs.push(nb);
    let n = old_vs.len() as int;
    assert(vs[n] == nb);
    assert forall|q: BlockPosition| old_vs.contains(q) implies vs.contains(q) by {
        let j = choose|j: int| 0 <= j < old_vs.len() && old_vs[j] == q;
        assert(vs[j] == q);
    }
    assert(spec_manhattan(nb, pos) == spec_manhattan(pos, nb));
    assert(spec_connected_order(vs, start)) by {
        assert forall|i2: int| 0 <= i2 < vs.len() implies spec_manhattan(
            #[trigger] vs[i2],
            start,
        ) == 1 || exists|j: int| 0 <= j < i2 && spec_manhattan(#[trigger] vs[j], vs[i2]) == 1 by {
            if i2 < n {
                assert(vs[i2] == old_vs[i2]);
                if spec_manhattan(old_vs[i2], start) != 1 {
                    let j = choose|j: int|
                        0 <= j < i2 && spec_manhattan(#[trigger] old_vs[j], old_vs[i2]) == 1;
                    assert(spec_manhattan(vs[j], vs[i2]) == 1);
                }
            } else {
                if pos == start {
                    assert(spec_manhattan(vs[i2], start) == 1);
                } else {
                    let j = choose|j: int| 0 <= j < old_vs.len() && old_vs[j] == pos;
                    assert(spec_manhattan(vs[j], vs[i2]) == 1);
                }
            }
        }
    }
    assert forall|k: int| 0 <= k < old_q.push(nb).len() implies (#[trigger] old_q.push(nb)[k])
        == start || exists|j: int|
        0 <= j < vs.len() && vs[j] == old_q.push(nb)[k] by {
        if k < old_q.len() {
            assert(old_q.push(nb)[k] == old_q[k]);
            if old_q[k] != start {
                let j = choose|j: int| 0 <= j < old_vs.len() && old_vs[j] == old_q[k];
                assert(vs[j] == old_q.push(nb)[k]);
            }
        } else {
            assert(old_q.push(nb)[k] == nb);
            assert(vs[n] == old_q.push(nb)[k]);
        }
    }
}

/// Ceiling on loop rounds: more than the number of positions any distance
/// ball reachable with a `u8` bound can hold, so the traversal itself never
/// exhausts it.
pub const TRAVERSAL_STEP_BUDGET: u64 = 200000000;

/// Breadth-first traversal from `start`, bounded by `max_dist`.
///
/// Explores the six axis-aligned neighbors of each admitted position in
/// first-in, first-out order (over unobstructed ground that admits
/// positions in non-decreasing distance from `start`; the contract states
/// the weaker frontier-connected order). A position is admitted at most
/// once, only within `max_dist`, only inside the vertical bounds, and only
/// if its block is not opaque; reaching any position beyond `max_dist` ends
/// the whole traversal. The start position itself is never reported.
/// Nothing in the world is mutated. The last contract clause pins the
/// traversal's extent: it ran to quiescence (every visited cell and the
/// start are closed), or it was cut short only by reaching the distance
/// bound, or — never in practice — by the step budget.
#[verifier::rlimit(100)]
pub fn flood_fill(ctx: &mut Context, start: BlockPosition, max_dist: u8) -> (visited: Vec<
    BlockPosition,
>)
    requires
        old(ctx).wf(),
        spec_fits(start, max_dist as int + 2),
    ensures
        final(ctx).map == old(ctx).map,
        final(ctx).wf(),
        spec_admitted(*old(ctx), start, max_dist, visited@),
        forall|i: int| 0 <= i < visited@.len() ==> spec_fits(#[trigger] visited@[i], 2),
        max_dist >= 1 ==> forall|n: BlockPosition|
            spec_manhattan(n, start) == 1 && spec_y_in_bounds(n.y as int) && !old(ctx).block(
                n,
            ).opaque ==> visited@.contains(n),
        (spec_visit_closed(*old(ctx), start, max_dist, visited@, start) && forall|j: int|
            0 <= j < visited@.len() ==> spec_visit_closed(
                *old(ctx),
                start,
                max_dist,
                visited@,
                #[trigger] visited@[j],
            )) || max_dist == 0 || (exists|j: int|
            0 <= j < visited@.len() && spec_manhattan(#[trigger] visited@[j], start)
                >= max_dist) || visited@.len() >= TRAVERSAL_STEP_BUDGET,
{
    let mut touched = visited_new();
    visited_insert(&mut touched, (start.x, start.y, start.z));
    let mut queue: VecDeque<BlockPosition> = VecDeque::new();
    let mut result: Vec<BlockPosition> = Vec::new();
    let mut finished = false;

    // The start is expanded first; its surviving neighbors seed the queue,
    // so every in-bounds, non-opaque position one step away is admitted
    // whenever the bound allows any travel at all.
    let nbrs0 = adjacent_blocks(start);
    let mut i: usize = 0;
    while i < nbrs0.len()
        invariant
            ctx.wf(),
            ctx.map == old(ctx).map,
            i <= nbrs0@.len(),
            spec_fits(start, max_dist as int + 2),
            forall|k: int|
                0 <= k < nbrs0@.len() ==> spec_manhattan(#[trigger] nbrs0@[k], start) == 1,
            forall|k: int|
                0 <= k < nbrs0@.len() ==> spec_y_in_bounds((#[trigger] nbrs0@[k]).y as int),
            forall|k: int, j: int| 0 <= k < j < nbrs0@.len() ==> nbrs0@[k] != nbrs0@[j],
            visited_contents(touched).contains(spec_cell_of(start)),
            forall|k: int|
                i <= k < nbrs0@.len() ==> !visited_contents(touched).contains(
                    spec_cell_of(#[trigger] nbrs0@[k]),
                ),
            forall|k: int|
                0 <= k < queue@.len() ==> spec_manhattan(#[trigger] queue@[k], start) <= max_dist,
            forall|k: int|
                0 <= k < queue@.len() ==> (#[trigger] queue@[k]) == start || exists|j: int|
                    0 <= j < result@.len() && result@[j] == queue@[k],
            forall|i2: int|
                0 <= i2 < result@.len() ==> visited_contents(touched).contains(
                    spec_cell_of(#[trigger] result@[i2]),
                ),
            spec_admitted(*old(ctx), start, max_dist, result@),
            forall|k: int|
                0 <= k < i && max_dist >= 1 && !old(ctx).block(#[trigger] nbrs0@[k]).opaque
                    ==> result@.contains(nbrs0@[k]),
            queue@.len() == result@.len(),
            spec_traversal_pending(*old(ctx), start, max_dist, result@, queue@),
            spec_touched_accounted(*old(ctx), start, result@, visited_contents(touched)),
            finished ==> max_dist == 0,
        decreases nbrs0@.len() - i,
    {
        let nb = nbrs0[i];
        let dist = nb.manhattan_distance(start);
        if dist > max_dist as i64 {
            finished = true;
        } else {
            let ghost touched_before = touched;
            let newly = visited_insert(&mut touched, (nb.x, nb.y, nb.z));
            proof {
                assert(newly);
            }
            if newly {
                let b = ctx.block_at(nb);
                if !b.opaque {
                    proof {
                        assert forall|k: int| 0 <= k < result@.len() implies result@[k] != nb by {
                            assert(visited_contents(touched_before).contains(
                                spec_cell_of(result@[k]),
                            ));
                        }
                        assert(nb != start);
                    }
                    let ghost old_result = result@;
                    let ghost old_queue = queue@;
                    result.push(nb);
                    queue.push_back(nb);
                    proof {
                        lemma_admit_step(
                            *old(ctx),
                            start,
                            max_dist,
                            old_result,
                            old_queue,
                            start,
                            nb,
                        );
                        assert(result@ == old_result.push(nb));
                        assert(queue@ == old_queue.push(nb));
                        assert(result@[old_result.len() as int] == nb);
                        assert(result@.contains(nb));
                        assert(queue@[old_queue.len() as int] == nb);
                        assert(queue@.contains(nb));
                        assert forall|x: BlockPosition| old_queue.contains(x) implies
                            queue@.contains(x) by {
                            let k = choose|k: int| 0 <= k < old_queue.len() && old_queue[k] == x;
                            assert(queue@[k] == x);
                        }
                        lemma_pending_admit(
                            *old(ctx),
                            start,
                            max_dist,
                            old_result,
                            nb,
                            old_queue,
                            queue@,
                        );
                        lemma_accounted_grow(
                            *old(ctx),
                            start,
                            old_result,
                            visited_contents(touched_before),
                            nb,
                        );
                        lemma_accounted_insert(
                            *old(ctx),
                            start,
                            result@,
                            visited_contents(touched_before),
                            nb,
                        );
                    }
                } else {
                    proof {
                        lemma_accounted_insert(
                            *old(ctx),
                            start,
                            result@,
                            visited_contents(touched_before),
                            nb,
                        );
                    }
                }
            }
        }
        i += 1;
    }
    proof {
        assert forall|n: BlockPosition|
            max_dist >= 1 && spec_manhattan(n, start) == 1 && spec_y_in_bounds(n.y as int)
                && !old(ctx).block(n).opaque implies result@.contains(n) by {
            crate::adjacency::lemma_adjacent_complete(start, n);
            let k = choose|k: int| 0 <= k < nbrs0@.len() && nbrs0@[k] == n;
            assert(result@.contains(nbrs0@[k]));
        }
    }

    // Each loop round pops one queue entry, entries are enqueued at most
    // once per position, and every enqueued position lies in the distance
    // ball around the start, so the ball's volume bounds the rounds; the
    // step budget restates that bound for the termination measure, and the
    // contract names the (unreachably large) visit count a budget stop
    // would leave behind.
    let mut steps: u64 = 0;

    while queue.len() > 0 && !finished && steps < TRAVERSAL_STEP_BUDGET
        invariant
            ctx.wf(),
            ctx.map == old(ctx).map,
            steps <= TRAVERSAL_STEP_BUDGET,
            spec_fits(start, max_dist as int + 2),
            visited_contents(touched).contains(spec_cell_of(start)),
            forall|k: int|
                0 <= k < queue@.len() ==> spec_manhattan(#[trigger] queue@[k], start) <= max_dist,
            forall|k: int|
                0 <= k < queue@.len() ==> (#[trigger] queue@[k]) == start || exists|j: int|
                    0 <= j < result@.len() && result@[j] == queue@[k],
            forall|i: int|
                0 <= i < result@.len() ==> visited_contents(touched).contains(
                    spec_cell_of(#[trigger] result@[i]),
                ),
            spec_admitted(*old(ctx), start, max_dist, result@),
            forall|n: BlockPosition|
                max_dist >= 1 && spec_manhattan(n, start) == 1 && spec_y_in_bounds(n.y as int)
                    && !old(ctx).block(n).opaque ==> result@.contains(n),
            steps + queue@.len() == result@.len(),
            spec_traversal_pending(*old(ctx), start, max_dist, result@, queue@),
            spec_touched_accounted(*old(ctx), start, result@, visited_contents(touched)),
            finished ==> max_dist == 0 || exists|j: int|
                0 <= j < result@.len() && spec_manhattan(#[trigger] result@[j], start)
                    >= max_dist,
        decreases TRAVERSAL_STEP_BUDGET - steps,
    {
        steps += 1;
        let ghost popped_q = queue@;
        let pos = match queue.pop_front() {
            Some(p) => p,
            None => {
                proof {
                    assert(false);
                }
                start
            }
        };
        proof {
            assert(abs_diff_int(pos.x as int, start.x as int) <= spec_manhattan(pos, start));
            assert(abs_diff_int(pos.y as int, start.y as int) <= spec_manhattan(pos, start));
            assert(abs_diff_int(pos.z as int, start.z as int) <= spec_manhattan(pos, start));
            assert(spec_fits(pos, 1));
            lemma_pending_pop(*old(ctx), start, max_dist, result@, popped_q);
            assert(popped_q.subrange(1, popped_q.len() as int) == queue@);
        }
        let nbrs = adjacent_blocks(pos);
        let ghost res_at_pop = result@;
        let mut i: usize = 0;
        while i < nbrs.len()
            invariant
                ctx.wf(),
                ctx.map == old(ctx).map,
                i <= nbrs@.len(),
                spec_fits(start, max_dist as int + 2),
                spec_manhattan(pos, start) <= max_dist,
                pos == start || exists|j: int| 0 <= j < result@.len() && result@[j] == pos,
                forall|k: int|
                    0 <= k < nbrs@.len() ==> spec_manhattan(#[trigger] nbrs@[k], pos) == 1,
                forall|k: int|
                    0 <= k < nbrs@.len() ==> spec_y_in_bounds((#[trigger] nbrs@[k]).y as int),
                visited_contents(touched).contains(spec_cell_of(start)),
                forall|k: int|
                    0 <= k < queue@.len() ==> spec_manhattan(#[trigger] queue@[k], start)
                        <= max_dist,
                forall|k: int|
                    0 <= k < queue@.len() ==> (#[trigger] queue@[k]) == start || exists|j: int|
                        0 <= j < result@.len() && result@[j] == queue@[k],
                forall|i2: int|
                    0 <= i2 < result@.len() ==> visited_contents(touched).contains(
                        spec_cell_of(#[trigger] result@[i2]),
                    ),
                spec_admitted(*old(ctx), start, max_dist, result@),
                res_at_pop.len() <= result@.len(),
                forall|k: int| 0 <= k < res_at_pop.len() ==> result@[k] == res_at_pop[k],
                steps + queue@.len() == result@.len(),
                spec_traversal_pending(
                    *old(ctx),
                    start,
                    max_dist,
                    result@,
                    queue@.push(pos),
                ),
                spec_touched_accounted(*old(ctx), start, result@, visited_contents(touched)),
                forall|k: int|
                    0 <= k < i ==> (spec_manhattan(#[trigger] nbrs@[k], start) <= max_dist
                        ==> result@.contains(nbrs@[k]) || nbrs@[k] == start || old(ctx).block(
                        nbrs@[k],
                    ).opaque),
                finished ==> max_dist == 0 || exists|j: int|
                    0 <= j < result@.len() && spec_manhattan(#[trigger] result@[j], start)
                        >= max_dist,
            decreases nbrs@.len() - i,
        {
            let nb = nbrs[i];
            let dist = nb.manhattan_distance(start);
            if dist > max_dist as i64 {
                finished = true;
                proof {
                    if pos != start {
                        let j = choose|j: int| 0 <= j < result@.len() && result@[j] == pos;
                        lemma_manhattan_triangle(nb, pos, start);
                        assert(spec_manhattan(result@[j], start) >= max_dist);
                    }
                }
            } else {
                let ghost touched_before = touched;
                let newly = visited_insert(&mut touched, (nb.x, nb.y, nb.z));
                if newly {
                    let b = ctx.block_at(nb);
                    if !b.opaque {
                        proof {
                            assert forall|k: int| 0 <= k < result@.len() implies result@[k]
                                != nb by {
                                assert(visited_contents(touched_before).contains(
                                    spec_cell_of(result@[k]),
                                ));
                            }
                            assert(nb != start);
                        }
                        let ghost old_result = result@;
                        let ghost old_queue = queue@;
                        result.push(nb);
                        queue.push_back(nb);
                        proof {
                            lemma_admit_step(
                                *old(ctx),
                                start,
                                max_dist,
                                old_result,
                                old_queue,
                                pos,
                                nb,
                            );
                            assert(result@ == old_result.push(nb));
                            assert(queue@ == old_queue.push(nb));
                            assert(result@[old_result.len() as int] == nb);
                            assert(result@.contains(nb));
                            assert(queue@[old_queue.len() as int] == nb);
                            assert(queue@.push(pos)[old_queue.len() as int] == nb);
                            assert(queue@.push(pos).contains(nb));
                            if pos != start {
                                let j = choose|j: int|
                                    0 <= j < old_result.len() && old_result[j] == pos;
                                assert(result@[j] == pos);
                            }
                            assert forall|x: BlockPosition| old_queue.push(pos).contains(
                                x,
                            ) implies queue@.push(pos).contains(x) by {
                                let k = choose|k: int|
                                    0 <= k < old_queue.push(pos).len() && old_queue.push(pos)[k]
                                        == x;
                                if k < old_queue.len() {
                                    assert(queue@.push(pos)[k] == x);
                                } else {
                                    assert(queue@.push(pos)[queue@.len() as int] == x);
                                }
                            }
                            lemma_pending_admit(
                                *old(ctx),
                                start,
                                max_dist,
                                old_result,
                                nb,
                                old_queue.push(pos),
                                queue@.push(pos),
                            );
                            lemma_accounted_grow(
                                *old(ctx),
                                start,
                                old_result,
                                visited_contents(touched_before),
                                nb,
                            );
                            lemma_accounted_insert(
                                *old(ctx),
                                start,
                                result@,
                                visited_contents(touched_before),
                                nb,
                            );
                            if finished && max_dist >= 1 {
                                let j = choose|j: int|
                                    0 <= j < old_result.len() && spec_manhattan(
                                        old_result[j],
                                        start,
                                    ) >= max_dist;
                                assert(spec_manhattan(result@[j], start) >= max_dist);
                            }
                        }
                    } else {
                        proof {
                            lemma_accounted_insert(
                                *old(ctx),
                                start,
                                result@,
                                visited_contents(touched_before),
                                nb,
                            );
                        }
                    }
                } else {
                    proof {
                        lemma_accounted_insert(
                            *old(ctx),
                            start,
                            result@,
                            visited_contents(touched_before),
                            nb,
                        );
                    }
                }
            }
            i += 1;
        }
        proof {
            assert forall|n: BlockPosition|
                max_dist >= 1 && spec_manhattan(n, start) == 1 && spec_y_in_bounds(n.y as int)
                    && !old(ctx).block(n).opaque implies result@.contains(n) by {
                assert(res_at_pop.contains(n));
                let k = choose|k: int| 0 <= k < res_at_pop.len() && res_at_pop[k] == n;
                assert(result@[k] == n);
            }
            assert(spec_visit_closed(*old(ctx), start, max_dist, result@, pos)) by {
                assert forall|n: BlockPosition|
                    spec_manhattan(n, pos) == 1 && spec_y_in_bounds(n.y as int) && spec_manhattan(
                        n,
                        start,
                    ) <= max_dist implies result@.contains(n) || n == start || old(ctx).block(
                    n,
                ).opaque by {
                    crate::adjacency::lemma_adjacent_complete(pos, n);
                    let k = choose|k: int| 0 <= k < nbrs@.len() && nbrs@[k] == n;
                    assert(spec_manhattan(nbrs@[k], start) <= max_dist);
                }
            }
            lemma_pending_close(*old(ctx), start, max_dist, result@, queue@, pos);
        }
    }
    proof {
        assert forall|i: int| 0 <= i < result@.len() implies spec_fits(
            #[trigger] result@[i],
            2,
        ) by {
            assert(abs_diff_int(result@[i].x as int, start.x as int) <= spec_manhattan(
                result@[i],
                start,
            ));
            assert(abs_diff_int(result@[i].y as int, start.y as int) <= spec_manhattan(
                result@[i],
                start,
            ));
            assert(abs_diff_int(result@[i].z as int, start.z as int) <= spec_manhattan(
                result@[i],
                start,
            ));
        }
        if !finished && steps < TRAVERSAL_STEP_BUDGET {
            assert(queue@.len() == 0);
            assert forall|j: int| 0 <= j < result@.len() implies spec_visit_closed(
                *old(ctx),
                start,
                max_dist,
                result@,
                #[trigger] result@[j],
            ) by {
                if queue@.contains(result@[j]) {
                    let k = choose|k: int| 0 <= k < queue@.len() && queue@[k] == result@[j];
                    assert(false);
                }
            }
            assert(spec_visit_closed(*old(ctx), start, max_dist, result@, start)) by {
                assert forall|n: BlockPosition|
                    spec_manhattan(n, start) == 1 && spec_y_in_bounds(n.y as int)
                        && spec_manhattan(n, start) <= max_dist implies result@.contains(n) || n
                    == start || old(ctx).block(n).opaque by {
                    if !old(ctx).block(n).opaque {
                        assert(max_dist >= 1);
                        assert(result@.contains(n));
                    }
                }
            }
        } else if finished {
            assert(max_dist == 0 || exists|j: int|
                0 <= j < result@.len() && spec_manhattan(#[trigger] result@[j], start)
                    >= max_dist);
        } else {
            assert(result@.len() >= TRAVERSAL_STEP_BUDGET);
        }
    }
    result
}

} // verus!
