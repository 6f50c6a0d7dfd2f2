//! The up-to-six axis-aligned neighbors of a block position, gathered in a
//! fixed-capacity buffer.

use vstd::prelude::*;
use crate::position::BlockPosition;
use crate::position::MIN_WORLD_Y;
use crate::position::MAX_WORLD_Y;
use crate::position::spec_fits;
use crate::position::spec_manhattan;
use crate::position::spec_y_in_bounds;

verus! {

#[verifier::external_type_specification]
#[verifier::external_body]
#[verifier::reject_recursive_types(T)]
pub struct ExArrayVec<T, const CAP: usize>(arrayvec::ArrayVec<T, CAP>);

/// The coordinate triples a neighbor buffer holds, in insertion order.
pub uninterp spec fn neighbor_buf_contents(
    v: arrayvec::ArrayVec<(i32, i32, i32), 6>,
) -> Seq<(i32, i32, i32)>;

/// Relies on arrayvec::ArrayVec::new: a fresh vector is empty.
#[verifier::external_body]
fn neighbor_buf_new() -> (v: arrayvec::ArrayVec<(i32, i32, i32), 6>)
    ensures
        neighbor_buf_contents(v) == Seq::<(i32, i32, i32)>::empty(),
{
    arrayvec::ArrayVec::new()
}

/// Relies on arrayvec::ArrayVec::push: appends the element; the capacity
/// bound in the precondition keeps the call from panicking.
#[verifier::external_body]
fn neighbor_buf_push(v: &mut arrayvec::ArrayVec<(i32, i32, i32), 6>, cell: (i32, i32, i32))
    requires
        neighbor_buf_contents(*old(v)).len() < 6,
    ensures
        neighbor_buf_contents(*final(v)) == neighbor_buf_contents(*old(v)).push(cell),
{
    v.push(cell)
}

/// Relies on arrayvec's IntoIterator impl: the elements come out in
/// insertion order.
#[verifier::external_body]
fn neighbor_buf_into_vec(v: arrayvec::ArrayVec<(i32, i32, i32), 6>) -> (r: Vec<(i32, i32, i32)>)
    ensures
        r@ == neighbor_buf_contents(v),
{
    v.into_iter().collect()
}

/// The block position `m` steps from `p` along each axis (as mathematical
/// integers, truncated back into `i32`).
pub open spec fn spec_offset(p: BlockPosition, dx: int, dy: int, dz: int) -> BlockPosition {
    BlockPosition {
        x: (p.x as int + dx) as i32,
        y: (p.y as int + dy) as i32,
        z: (p.z as int + dz) as i32,
    }
}

/// The neighbors of `p` offered to a traversal: the six axis-aligned
/// neighbors in a fixed order, those outside the vertical bounds excluded.
pub open spec fn spec_adjacent(p: BlockPosition) -> Seq<BlockPosition> {
    let c0 = spec_offset(p, -1, 0, 0);
    let c1 = spec_offset(p, 1, 0, 0);
    let c2 = spec_offset(p, 0, -1, 0);
    let c3 = spec_offset(p, 0, 1, 0);
    let c4 = spec_offset(p, 0, 0, -1);
    let c5 = spec_offset(p, 0, 0, 1);
    let s = Seq::<BlockPosition>::empty();
    let s = if spec_y_in_bounds(c0.y as int) { s.push(c0) } else { s };
    let s = if spec_y_in_bounds(c1.y as int) { s.push(c1) } else { s };
    let s = if spec_y_in_bounds(c2.y as int) { s.push(c2) } else { s };
    let s = if spec_y_in_bounds(c3.y as int) { s.push(c3) } else { s };
    let s = if spec_y_in_bounds(c4.y as int) { s.push(c4) } else { s };
    if spec_y_in_bounds(c5.y as int) { s.push(c5) } else { s }
}

/// The same neighbors as coordinate triples.
pub open spec fn spec_adjacent_cells(p: BlockPosition) -> Seq<(i32, i32, i32)> {
    spec_adjacent(p).map_values(|b: BlockPosition| (b.x, b.y, b.z))
}

/// Any position at Manhattan distance exactly 1 from `p` that lies inside
/// the vertical bounds appears among `p`'s listed neighbors.
pub proof fn lemma_adjacent_complete(p: BlockPosition, q: BlockPosition)
    requires
        spec_fits(p, 1),
        spec_manhattan(q, p) == 1,
        spec_y_in_bounds(q.y as int),
    ensures
        spec_adjacent(p).contains(q),
{
    let c0 = spec_offset(p, -1, 0, 0);
    let c1 = spec_offset(p, 1, 0, 0);
    let c2 = spec_offset(p, 0, -1, 0);
    let c3 = spec_offset(p, 0, 1, 0);
    let c4 = spec_offset(p, 0, 0, -1);
    let c5 = spec_offset(p, 0, 0, 1);
    let s = spec_adjacent(p);
    let b0: int = if spec_y_in_bounds(c0.y as int) { 1 } else { 0 };
    let b1: int = if spec_y_in_bounds(c1.y as int) { 1 } else { 0 };
    let b2: int = if spec_y_in_bounds(c2.y as int) { 1 } else { 0 };
    let b3: int = if spec_y_in_bounds(c3.y as int) { 1 } else { 0 };
    let b4: int = if spec_y_in_bounds(c4.y as int) { 1 } else { 0 };
    assert(q == c0 || q == c1 || q == c2 || q == c3 || q == c4 || q == c5);
    if q == c0 {
        assert(s[0] == q);
        assert(s.contains(q));
    } else if q == c1 {
        assert(s[b0] == q);
        assert(s.contains(q));
    } else if q == c2 {
        assert(s[b0 + b1] == q);
        assert(s.contains(q));
    } else if q == c3 {
        assert(s[b0 + b1 + b2] == q);
        assert(s.contains(q));
    } else if q == c4 {
        assert(s[b0 + b1 + b2 + b3] == q);
        assert(s.contains(q));
    } else {
        assert(s[b0 + b1 + b2 + b3 + b4] == q);
        assert(s.contains(q));
    }
}

/// Returns the axis-aligned neighbors of `to` that lie inside the vertical
/// world bounds, in a fixed order and without duplicates, each at Manhattan
/// distance exactly 1; every such neighbor is listed.
pub fn adjacent_blocks(to: BlockPosition) -> (r: Vec<BlockPosition>)
    requires
        spec_fits(to, 1),
    ensures
        r@ == spec_adjacent(to),
        r@.len() <= 6,
        forall|i: int| 0 <= i < r@.len() ==> spec_manhattan(#[trigger] r@[i], to) == 1,
        forall|i: int| 0 <= i < r@.len() ==> spec_y_in_bounds((#[trigger] r@[i]).y as int),
        forall|i: int, j: int| 0 <= i < j < r@.len() ==> r@[i] != r@[j],
        forall|q: BlockPosition|
            spec_manhattan(q, to) == 1 && spec_y_in_bounds(q.y as int) ==> r@.contains(q),
{
    let mut buf = neighbor_buf_new();
    let c0 = BlockPosition::new(to.x - 1, to.y, to.z);
    if MIN_WORLD_Y <= c0.y && c0.y <= MAX_WORLD_Y {
        neighbor_buf_push(&mut buf, (c0.x, c0.y, c0.z));
    }
    let c1 = BlockPosition::new(to.x + 1, to.y, to.z);
    if MIN_WORLD_Y <= c1.y && c1.y <= MAX_WORLD_Y {
        neighbor_buf_push(&mut buf, (c1.x, c1.y, c1.z));
    }
    let c2 = BlockPosition::new(to.x, to.y - 1, to.z);
    if MIN_WORLD_Y <= c2.y && c2.y <= MAX_WORLD_Y {
        neighbor_buf_push(&mut buf, (c2.x, c2.y, c2.z));
    }
    let c3 = BlockPosition::new(to.x, to.y + 1, to.z);
    if MIN_WORLD_Y <= c3.y && c3.y <= MAX_WORLD_Y {
        neighbor_buf_push(&mut buf, (c3.x, c3.y, c3.z));
    }
    let c4 = BlockPosition::new(to.x, to.y, to.z - 1);
    if MIN_WORLD_Y <= c4.y && c4.y <= MAX_WORLD_Y {
        neighbor_buf_push(&mut buf, (c4.x, c4.y, c4.z));
    }
    let c5 = BlockPosition::new(to.x, to.y, to.z + 1);
    if MIN_WORLD_Y <= c5.y && c5.y <= MAX_WORLD_Y {
        neighbor_buf_push(&mut buf, (c5.x, c5.y, c5.z));
    }
    proof {
        assert(neighbor_buf_contents(buf) =~= spec_adjacent_cells(to));
    }
    let cells = neighbor_buf_into_vec(buf);
    let mut out: Vec<BlockPosition> = Vec::new();
    let mut i: usize = 0;
    while i < cells.len()
        invariant
            cells@ == spec_adjacent_cells(to),
            i <= cells@.len(),
            out@.len() == i,
            forall|j: int| 0 <= j < i ==> out@[j] == spec_adjacent(to)[j],
        decreases cells@.len() - i,
    {
        let t = cells[i];
        proof {
            assert(cells@[i as int] == spec_adjacent_cells(to)[i as int]);
            assert(spec_adjacent_cells(to)[i as int] == {
                let b = spec_adjacent(to)[i as int];
                (b.x, b.y, b.z)
            });
        }
        out.push(BlockPosition::new(t.0, t.1, t.2));
        i += 1;
    }
    proof {
        assert(out@ =~= spec_adjacent(to));
        assert forall|q: BlockPosition|
            spec_manhattan(q, to) == 1 && spec_y_in_bounds(q.y as int) implies out@.contains(
            q,
        ) by {
            lemma_adjacent_complete(to, q);
        }
    }
    out
}

} // verus!
