//! The visited-position set backing the flood fill.
//!
//! The positions are stored as coordinate triples in a hash set; Verus sees
//! the set only through `visited_contents` and the trusted operations below.

use vstd::prelude::*;

verus! {

/// Records which coordinate triples a traversal has already touched.
#[verifier::external_body]
pub struct VisitedSet {
    cells: hashbrown::HashSet<(i32, i32, i32)>,
}

/// The mathematical set of coordinate triples a `VisitedSet` holds.
pub uninterp spec fn visited_contents(s: VisitedSet) -> Set<(i32, i32, i32)>;

/// Relies on hashbrown::HashSet::with_capacity: a fresh set is empty.
#[verifier::external_body]
pub fn visited_new() -> (s: VisitedSet)
    ensures
        visited_contents(s) == Set::<(i32, i32, i32)>::empty(),
{
    VisitedSet { cells: hashbrown::HashSet::with_capacity(64) }
}

/// Relies on hashbrown::HashSet::insert: adds the value and reports whether
/// it was absent before.
#[verifier::external_body]
pub fn visited_insert(s: &mut VisitedSet, cell: (i32, i32, i32)) -> (newly_added: bool)
    ensures
        visited_contents(*final(s)) == visited_contents(*old(s)).insert(cell),
        newly_added == !visited_contents(*old(s)).contains(cell),
{
    s.cells.insert(cell)
}

} // verus!
