//! The decisions of the engine's systems, apart from the ECS plumbing and
//! the floating-point physics that drive them.

use vstd::prelude::*;
use crate::components::EntityId;
use crate::resources::{
    Cell, SpatialGrid, box_insert, cell_contents, in_box, is_neighbor, nearby_entities,
};

verus! {

/// An entity to be placed in the grid together with the corner cells of the
/// box its bounds cover.
pub type GridEntry = (EntityId, Cell, Cell);

/// The grid obtained by inserting `entries` in order into an empty grid.
pub open spec fn grid_from(entries: Seq<GridEntry>) -> Map<Cell, Seq<EntityId>>
    decreases entries.len(),
{
    if entries.len() == 0 {
        Map::empty()
    } else {
        let last = entries.last();
        box_insert(grid_from(entries.drop_last()), last.0, last.1, last.2)
    }
}

/// The entities of `entries` whose box covers cell `c`, in entry order.
pub open spec fn covering_entities(entries: Seq<GridEntry>, c: Cell) -> Seq<EntityId> {
    entries.filter_map(|en: GridEntry| if in_box(c, en.1, en.2) { Some(en.0) } else { None })
}

/// Wipes the grid and inserts every entry, in order, so that stale cells
/// from the previous step never survive.
pub fn rebuild_spatial_grid_system(grid: &mut SpatialGrid, entries: &Vec<GridEntry>)
    ensures
        final(grid)@ == grid_from(entries@),
{
    grid.clear();
    let mut i: usize = 0;
    assert(entries@.take(0) =~= Seq::<GridEntry>::empty());
    while i < entries.len()
        invariant
            i <= entries.len(),
            grid@ == grid_from(entries@.take(i as int)),
        decreases entries.len() - i,
    {
        let (e, lo, hi) = entries[i];
        grid.insert_entity(e, lo, hi);
        assert(entries@.take(i + 1).drop_last() =~= entries@.take(i as int));
        i += 1;
    }
    assert(entries@.take(entries.len() as int) =~= entries@);
}

/// After a rebuild, a cell lists exactly the entities whose box covers it,
/// in the order the entries were given.
pub proof fn lemma_grid_cell_is_covering_entities(entries: Seq<GridEntry>, c: Cell)
    ensures
        cell_contents(grid_from(entries), c) == covering_entities(entries, c),
    decreases entries.len(),
{
    if entries.len() > 0 {
        let rest = entries.drop_last();
        lemma_grid_cell_is_covering_entities(rest, c);
        let last = entries.last();
        if in_box(c, last.1, last.2) {
            assert(covering_entities(entries, c) =~= covering_entities(rest, c).push(last.0));
        }
    }
}

/// After a rebuild, a cell is present exactly when some entry's box covers
/// it.
pub proof fn lemma_grid_cell_present_iff_covered(entries: Seq<GridEntry>, c: Cell)
    ensures
        grid_from(entries).contains_key(c) <==> exists|i: int|
            0 <= i < entries.len() && in_box(c, #[trigger] entries[i].1, entries[i].2),
    decreases entries.len(),
{
    if entries.len() > 0 {
        let rest = entries.drop_last();
        lemma_grid_cell_present_iff_covered(rest, c);
        if grid_from(entries).contains_key(c) {
            if !in_box(c, entries.last().1, entries.last().2) {
                let i = choose|i: int| 0 <= i < rest.len() && in_box(c, #[trigger] rest[i].1, rest[i].2);
                assert(entries[i] == rest[i]);
            } else {
                assert(entries[entries.len() - 1] == entries.last());
            }
        } else {
            assert forall|i: int| 0 <= i < entries.len() implies !in_box(c, #[trigger] entries[i].1, entries[i].2) by {
                if i < rest.len() {
                    assert(entries[i] == rest[i]);
                }
            }
        }
    }
}

/// An entity is listed in a cell of the rebuilt grid exactly when one of its
/// entries covers the cell.
pub proof fn lemma_covering_entities_membership(entries: Seq<GridEntry>, c: Cell, e: EntityId)
    ensures
        covering_entities(entries, c).contains(e) <==> exists|i: int|
            0 <= i < entries.len() && #[trigger] entries[i].0 == e && in_box(
                c,
                entries[i].1,
                entries[i].2,
            ),
    decreases entries.len(),
{
    if entries.len() > 0 {
        let rest = entries.drop_last();
        let last = entries.last();
        lemma_covering_entities_membership(rest, c, e);
        let cov = covering_entities(entries, c);
        let cov_rest = covering_entities(rest, c);
        if in_box(c, last.1, last.2) {
            assert(cov =~= cov_rest.push(last.0));
        } else {
            assert(cov =~= cov_rest);
        }
        if cov.contains(e) {
            if cov_rest.contains(e) {
                let i = choose|i: int|
                    0 <= i < rest.len() && #[trigger] rest[i].0 == e && in_box(c, rest[i].1, rest[i].2);
                assert(entries[i] == rest[i]);
            } else {
                assert(in_box(c, last.1, last.2));
                let k = choose|k: int| 0 <= k < cov.len() && cov[k] == e;
                assert(k == cov_rest.len());
                assert(entries[entries.len() - 1].0 == e);
            }
        }
        if exists|i: int|
            0 <= i < entries.len() && #[trigger] entries[i].0 == e && in_box(
                c,
                entries[i].1,
                entries[i].2,
            ) {
            let i = choose|i: int|
                0 <= i < entries.len() && #[trigger] entries[i].0 == e && in_box(
                    c,
                    entries[i].1,
                    entries[i].2,
                );
            if i < rest.len() {
                assert(rest[i] == entries[i]);
                assert(cov_rest.contains(e));
                let k = choose|k: int| 0 <= k < cov_rest.len() && cov_rest[k] == e;
                assert(cov[k] == e);
            } else {
                assert(cov[cov.len() - 1] == e);
            }
        }
    }
}

/// The broad phase misses no neighbour: after a rebuild, the neighbourhood
/// of cell `c` lists exactly the entities whose box covers `c` or one of its
/// neighbouring cells.
pub proof fn lemma_rebuilt_grid_nearby(entries: Seq<GridEntry>, c: Cell, e: EntityId)
    ensures
        nearby_entities(grid_from(entries), c).contains(e) <==> exists|i: int, d: Cell|
            #![trigger entries[i], is_neighbor(c, d)]
            0 <= i < entries.len() && entries[i].0 == e && is_neighbor(c, d) && in_box(
                d,
                entries[i].1,
                entries[i].2,
            ),
{
    let m = grid_from(entries);
    if nearby_entities(m, c).contains(e) {
        let d = choose|d: Cell| is_neighbor(c, d) && #[trigger] cell_contents(m, d).contains(e);
        lemma_grid_cell_is_covering_entities(entries, d);
        lemma_covering_entities_membership(entries, d, e);
        let i = choose|i: int|
            0 <= i < entries.len() && #[trigger] entries[i].0 == e && in_box(d, entries[i].1, entries[i].2);
        assert(0 <= i < entries.len() && entries[i].0 == e && is_neighbor(c, d) && in_box(d, entries[i].1, entries[i].2));
    }
    if exists|i: int, d: Cell|
        #![trigger entries[i], is_neighbor(c, d)]
        0 <= i < entries.len() && entries[i].0 == e && is_neighbor(c, d) && in_box(
            d,
            entries[i].1,
            entries[i].2,
        ) {
        let (i, d) = choose|i: int, d: Cell|
            #![trigger entries[i], is_neighbor(c, d)]
            0 <= i < entries.len() && entries[i].0 == e && is_neighbor(c, d) && in_box(
                d,
                entries[i].1,
                entries[i].2,
            );
        lemma_grid_cell_is_covering_entities(entries, d);
        lemma_covering_entities_membership(entries, d, e);
        assert(cell_contents(m, d).contains(e));
    }
}

} // verus!
