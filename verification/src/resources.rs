//! Global resources shared by the systems: the spatial hash grid of the
//! broad phase.

use std::collections::{HashMap, HashSet};
use vstd::prelude::*;
use crate::components::EntityId;

verus! {

broadcast use vstd::std_specs::hash::group_hash_axioms;

/// Integer coordinates `(x, y, z)` of a cell of the spatial grid.
pub type Cell = (i32, i32, i32);

/// Offset that maps an `i32` coordinate onto `0 .. 2^32`.
pub open spec fn coord_offset(v: i32) -> int {
    v as int + 0x8000_0000
}

/// The hash-table key under which a cell is stored: the three offset
/// coordinates laid side by side in 32-bit fields of a `u128`.
pub open spec fn spec_cell_key(c: Cell) -> u128 {
    (coord_offset(c.0) * 0x1_0000_0000_0000_0000 + coord_offset(c.1) * 0x1_0000_0000
        + coord_offset(c.2)) as u128
}

/// Distinct cells have distinct keys.
pub proof fn lemma_cell_key_injective(a: Cell, b: Cell)
    ensures
        spec_cell_key(a) == spec_cell_key(b) ==> a == b,
{
    let (ax, ay, az) = (coord_offset(a.0), coord_offset(a.1), coord_offset(a.2));
    let (bx, by, bz) = (coord_offset(b.0), coord_offset(b.1), coord_offset(b.2));
    assert(0 <= ax < 0x1_0000_0000 && 0 <= bx < 0x1_0000_0000);
    assert(0 <= ay < 0x1_0000_0000 && 0 <= by < 0x1_0000_0000);
    assert(0 <= az < 0x1_0000_0000 && 0 <= bz < 0x1_0000_0000);
    if spec_cell_key(a) == spec_cell_key(b) {
        assert(ax * 0x1_0000_0000_0000_0000 + ay * 0x1_0000_0000 + az == bx * 0x1_0000_0000_0000_0000
            + by * 0x1_0000_0000 + bz);
        assert(ax == bx && ay == by && az == bz) by (nonlinear_arith)
            requires
                0 <= ax < 0x1_0000_0000,
                0 <= bx < 0x1_0000_0000,
                0 <= ay < 0x1_0000_0000,
                0 <= by < 0x1_0000_0000,
                0 <= az < 0x1_0000_0000,
                0 <= bz < 0x1_0000_0000,
                ax * 0x1_0000_0000_0000_0000 + ay * 0x1_0000_0000 + az == bx * 0x1_0000_0000_0000_0000
                    + by * 0x1_0000_0000 + bz,
        ;
    }
}

fn cell_key(c: Cell) -> (k: u128)
    ensures
        k == spec_cell_key(c),
{
    let x = (c.0 as i64 + 0x8000_0000) as u128;
    let y = (c.1 as i64 + 0x8000_0000) as u128;
    let z = (c.2 as i64 + 0x8000_0000) as u128;
    x * 0x1_0000_0000_0000_0000u128 + y * 0x1_0000_0000u128 + z
}

/// What a cell of `m` holds: its entities, or nothing for an absent cell.
pub open spec fn cell_contents(m: Map<Cell, Seq<EntityId>>, c: Cell) -> Seq<EntityId> {
    if m.contains_key(c) {
        m[c]
    } else {
        Seq::empty()
    }
}

/// Cell `c` lies in the box spanned by the corner cells `lo` and `hi`
/// (both inclusive).
pub open spec fn in_box(c: Cell, lo: Cell, hi: Cell) -> bool {
    &&& lo.0 <= c.0 <= hi.0
    &&& lo.1 <= c.1 <= hi.1
    &&& lo.2 <= c.2 <= hi.2
}

/// The grid `m` after appending entity `e` to every cell of the box
/// `lo ..= hi`; cells outside the box are untouched.
pub open spec fn box_insert(m: Map<Cell, Seq<EntityId>>, e: EntityId, lo: Cell, hi: Cell) -> Map<
    Cell,
    Seq<EntityId>,
> {
    Map::new(
        |c: Cell| m.contains_key(c) || in_box(c, lo, hi),
        |c: Cell|
            if in_box(c, lo, hi) {
                cell_contents(m, c).push(e)
            } else {
                m[c]
            },
    )
}

/// Cell `c` of the box comes before the cell `(x, y, z)` in the order in
/// which `insert_entity` visits the box (x outermost, z innermost).
spec fn visited_before(c: Cell, lo: Cell, hi: Cell, x: int, y: int, z: int) -> bool {
    &&& in_box(c, lo, hi)
    &&& (c.0 < x || (c.0 == x && (c.1 < y || (c.1 == y && c.2 < z))))
}

spec fn partial_insert(
    m: Map<Cell, Seq<EntityId>>,
    e: EntityId,
    lo: Cell,
    hi: Cell,
    x: int,
    y: int,
    z: int,
) -> Map<Cell, Seq<EntityId>> {
    Map::new(
        |c: Cell| m.contains_key(c) || visited_before(c, lo, hi, x, y, z),
        |c: Cell|
            if visited_before(c, lo, hi, x, y, z) {
                cell_contents(m, c).push(e)
            } else {
                m[c]
            },
    )
}

/// Cell `d` is `c` itself or one of its 26 neighbours.
pub open spec fn is_neighbor(c: Cell, d: Cell) -> bool {
    &&& c.0 - 1 <= d.0 <= c.0 + 1
    &&& c.1 - 1 <= d.1 <= c.1 + 1
    &&& c.2 - 1 <= d.2 <= c.2 + 1
}

/// The entities recorded in cell `c` or in one of its neighbours.
pub open spec fn nearby_entities(m: Map<Cell, Seq<EntityId>>, c: Cell) -> Set<EntityId> {
    Set::new(
        |e: EntityId| exists|d: Cell| is_neighbor(c, d) && #[trigger] cell_contents(m, d).contains(e),
    )
}

/// Entities of the cells of the box visited before `(x, y, z)`.
spec fn gathered(
    m: Map<Cell, Seq<EntityId>>,
    lo: Cell,
    hi: Cell,
    x: int,
    y: int,
    z: int,
) -> Set<EntityId> {
    Set::new(
        |e: EntityId|
            exists|d: Cell|
                visited_before(d, lo, hi, x, y, z) && #[trigger] cell_contents(m, d).contains(e),
    )
}

proof fn lemma_gathered_step(m: Map<Cell, Seq<EntityId>>, lo: Cell, hi: Cell, c: Cell)
    requires
        in_box(c, lo, hi),
    ensures
        gathered(m, lo, hi, c.0 as int, c.1 as int, c.2 + 1) == gathered(
            m,
            lo,
            hi,
            c.0 as int,
            c.1 as int,
            c.2 as int,
        ).union(cell_contents(m, c).to_set()),
{
    let g0 = gathered(m, lo, hi, c.0 as int, c.1 as int, c.2 as int);
    let g1 = gathered(m, lo, hi, c.0 as int, c.1 as int, c.2 + 1);
    assert forall|e: EntityId| g1.contains(e) <==> g0.union(cell_contents(m, c).to_set()).contains(
        e,
    ) by {
        if g1.contains(e) {
            let d = choose|d: Cell|
                visited_before(d, lo, hi, c.0 as int, c.1 as int, c.2 + 1) && #[trigger] cell_contents(
                    m,
                    d,
                ).contains(e);
            if d != c {
                assert(g0.contains(e));
            } else {
                assert(cell_contents(m, c).to_set().contains(e));
            }
        }
        if g0.contains(e) {
            let d = choose|d: Cell|
                visited_before(d, lo, hi, c.0 as int, c.1 as int, c.2 as int) && #[trigger] cell_contents(
                    m,
                    d,
                ).contains(e);
            assert(visited_before(d, lo, hi, c.0 as int, c.1 as int, c.2 + 1));
        }
        if cell_contents(m, c).to_set().contains(e) {
            assert(visited_before(c, lo, hi, c.0 as int, c.1 as int, c.2 + 1));
            assert(cell_contents(m, c).contains(e));
        }
    }
    assert(g1 =~= g0.union(cell_contents(m, c).to_set()));
}

proof fn lemma_gathered_same(
    m: Map<Cell, Seq<EntityId>>,
    lo: Cell,
    hi: Cell,
    x1: int,
    y1: int,
    z1: int,
    x2: int,
    y2: int,
    z2: int,
)
    requires
        forall|d: Cell|
            visited_before(d, lo, hi, x1, y1, z1) == visited_before(d, lo, hi, x2, y2, z2),
    ensures
        gathered(m, lo, hi, x1, y1, z1) == gathered(m, lo, hi, x2, y2, z2),
{
    assert(gathered(m, lo, hi, x1, y1, z1) =~= gathered(m, lo, hi, x2, y2, z2));
}

/// The neighbourhood of cell `c` holds entity `e` exactly when some cell
/// whose coordinates each differ from `c`'s by at most one holds `e`: the
/// 3 x 3 x 3 block centred on `c`, below and above it on every axis.
pub proof fn lemma_nearby_entities_by_bounds(m: Map<Cell, Seq<EntityId>>, c: Cell, e: EntityId)
    ensures
        nearby_entities(m, c).contains(e) <==> exists|d: Cell|
            c.0 - 1 <= d.0 <= c.0 + 1 && c.1 - 1 <= d.1 <= c.1 + 1 && c.2 - 1 <= d.2 <= c.2 + 1
                && #[trigger] m.contains_key(d) && m[d].contains(e),
{
    if nearby_entities(m, c).contains(e) {
        let d = choose|d: Cell| is_neighbor(c, d) && #[trigger] cell_contents(m, d).contains(e);
        assert(m.contains_key(d));
    }
    if exists|d: Cell|
        c.0 - 1 <= d.0 <= c.0 + 1 && c.1 - 1 <= d.1 <= c.1 + 1 && c.2 - 1 <= d.2 <= c.2 + 1
            && #[trigger] m.contains_key(d) && m[d].contains(e) {
        let d = choose|d: Cell|
            c.0 - 1 <= d.0 <= c.0 + 1 && c.1 - 1 <= d.1 <= c.1 + 1 && c.2 - 1 <= d.2 <= c.2 + 1
                && #[trigger] m.contains_key(d) && m[d].contains(e);
        assert(cell_contents(m, d).contains(e));
    }
}

/// An entity in the cell directly below (or above, or beside) `c` is always
/// near `c`; an entity two cells away along any axis is not near because of
/// that cell.
pub proof fn lemma_nearby_reaches_exactly_one_cell(m: Map<Cell, Seq<EntityId>>, c: Cell, d: Cell, e: EntityId)
    requires
        m.contains_key(d),
        m[d].contains(e),
    ensures
        (-1 <= d.0 - c.0 <= 1 && -1 <= d.1 - c.1 <= 1 && -1 <= d.2 - c.2 <= 1) ==> nearby_entities(m, c).contains(e),
        (d.0 - c.0 >= 2 || c.0 - d.0 >= 2 || d.1 - c.1 >= 2 || c.1 - d.1 >= 2 || d.2 - c.2 >= 2 || c.2 - d.2 >= 2)
            && (forall|f: Cell| f != d && #[trigger] m.contains_key(f) ==> !m[f].contains(e))
            ==> !nearby_entities(m, c).contains(e),
{
    lemma_nearby_entities_by_bounds(m, c, e);
}

/// Spatial partitioning grid: for every occupied cell, the entities whose
/// bounds overlap it, in insertion order.
pub struct SpatialGrid {
    cells: HashMap<u128, Vec<EntityId>>,
}

impl View for SpatialGrid {
    type V = Map<Cell, Seq<EntityId>>;

    closed spec fn view(&self) -> Map<Cell, Seq<EntityId>> {
        Map::new(
            |c: Cell| self.cells@.contains_key(spec_cell_key(c)),
            |c: Cell| self.cells@[spec_cell_key(c)]@,
        )
    }
}

impl SpatialGrid {
    /// An empty grid.
    pub fn new() -> (grid: SpatialGrid)
        ensures
            grid@ == Map::<Cell, Seq<EntityId>>::empty(),
    {
        let grid = SpatialGrid { cells: HashMap::new() };
        assert(grid@ =~= Map::<Cell, Seq<EntityId>>::empty());
        grid
    }

    /// Removes every cell.
    pub fn clear(&mut self)
        ensures
            final(self)@ == Map::<Cell, Seq<EntityId>>::empty(),
    {
        self.cells.clear();
        assert(self@ =~= Map::<Cell, Seq<EntityId>>::empty());
    }

    /// The entities recorded in cell `c`, if the cell is occupied.
    pub fn cell_entities(&self, c: Cell) -> (res: Option<&Vec<EntityId>>)
        ensures
            match res {
                Some(v) => self@.contains_key(c) && v@ == self@[c],
                None => !self@.contains_key(c),
            },
    {
        let k = cell_key(c);
        self.cells.get(&k)
    }

    /// The entities recorded in cell `c` and its 26 neighbours (those inside
    /// the `i32` range), each listed once.
    pub fn get_nearby(&self, c: Cell) -> (res: Vec<EntityId>)
        ensures
            res@.no_duplicates(),
            res@.to_set() == nearby_entities(self@, c),
            forall|e: EntityId|
                #![trigger res@.contains(e)]
                res@.contains(e) <==> exists|d: Cell|
                    c.0 - 1 <= d.0 <= c.0 + 1 && c.1 - 1 <= d.1 <= c.1 + 1 && c.2 - 1 <= d.2 <= c.2
                        + 1 && #[trigger] self@.contains_key(d) && self@[d].contains(e),
    {
        let ghost m = self@;
        let lo: Cell = (
            if c.0 == i32::MIN { c.0 } else { c.0 - 1 },
            if c.1 == i32::MIN { c.1 } else { c.1 - 1 },
            if c.2 == i32::MIN { c.2 } else { c.2 - 1 },
        );
        let hi: Cell = (
            if c.0 == i32::MAX { c.0 } else { c.0 + 1 },
            if c.1 == i32::MAX { c.1 } else { c.1 + 1 },
            if c.2 == i32::MAX { c.2 } else { c.2 + 1 },
        );
        let mut res: Vec<EntityId> = Vec::new();
        let mut seen: HashSet<EntityId> = HashSet::new();
        proof {
            assert(gathered(m, lo, hi, lo.0 as int, lo.1 as int, lo.2 as int) =~= Set::empty());
            assert(res@.to_set() =~= Set::empty());
        }
        let mut x: i64 = lo.0 as i64;
        while x <= hi.0 as i64
            invariant
                m == self@,
                lo.0 <= x <= hi.0 + 1,
                lo.1 <= hi.1,
                lo.2 <= hi.2,
                res@.no_duplicates(),
                seen@ == res@.to_set(),
                res@.to_set() == gathered(m, lo, hi, x as int, lo.1 as int, lo.2 as int),
            decreases hi.0 + 1 - x,
        {
            let mut y: i64 = lo.1 as i64;
            while y <= hi.1 as i64
                invariant
                    m == self@,
                    lo.0 <= x <= hi.0,
                    lo.1 <= y <= hi.1 + 1,
                    lo.2 <= hi.2,
                    res@.no_duplicates(),
                    seen@ == res@.to_set(),
                    res@.to_set() == gathered(m, lo, hi, x as int, y as int, lo.2 as int),
                decreases hi.1 + 1 - y,
            {
                let mut z: i64 = lo.2 as i64;
                while z <= hi.2 as i64
                    invariant
                        m == self@,
                        lo.0 <= x <= hi.0,
                        lo.1 <= y <= hi.1,
                        lo.2 <= z <= hi.2 + 1,
                        res@.no_duplicates(),
                        seen@ == res@.to_set(),
                        res@.to_set() == gathered(m, lo, hi, x as int, y as int, z as int),
                    decreases hi.2 + 1 - z,
                {
                    let d: Cell = (x as i32, y as i32, z as i32);
                    let ghost before = res@.to_set();
                    match self.cell_entities(d) {
                        Some(v) => {
                            let mut i: usize = 0;
                            proof {
                                assert(v@.take(0).to_set() =~= Set::<EntityId>::empty());
                                assert(before.union(Set::<EntityId>::empty()) =~= before);
                            }
                            while i < v.len()
                                invariant
                                    i <= v.len(),
                                    res@.no_duplicates(),
                                    seen@ == res@.to_set(),
                                    res@.to_set() == before.union(v@.take(i as int).to_set()),
                                decreases v.len() - i,
                            {
                                let e = v[i];
                                let ghost prev = res@;
                                if !seen.contains(&e) {
                                    seen.insert(e);
                                    res.push(e);
                                    proof {
                                        assert(!prev.contains(e)) by {
                                            if prev.contains(e) {
                                                assert(prev.to_set().contains(e));
                                            }
                                        }
                                        prev.lemma_push_to_set_commute(e);
                                    }
                                } else {
                                    proof {
                                        assert(prev.to_set().contains(e));
                                    }
                                }
                                proof {
                                    assert(v@.take(i + 1) =~= v@.take(i as int).push(e));
                                    v@.take(i as int).lemma_push_to_set_commute(e);
                                    assert(res@.to_set() =~= before.union(v@.take(i + 1).to_set()));
                                }
                                i += 1;
                            }
                            proof {
                                assert(v@.take(v.len() as int) =~= v@);
                                assert(cell_contents(m, d) == v@);
                            }
                        },
                        None => {
                            proof {
                                assert(cell_contents(m, d).to_set() =~= Set::<EntityId>::empty());
                                assert(before.union(Set::<EntityId>::empty()) =~= before);
                            }
                        },
                    }
                    proof {
                        lemma_gathered_step(m, lo, hi, d);
                    }
                    z += 1;
                }
                proof {
                    lemma_gathered_same(m, lo, hi, x as int, y as int, z as int, x as int, y + 1, lo.2 as int);
                }
                y += 1;
            }
            proof {
                lemma_gathered_same(m, lo, hi, x as int, y as int, lo.2 as int, x + 1, lo.1 as int, lo.2 as int);
            }
            x += 1;
        }
        proof {
            assert(gathered(m, lo, hi, x as int, lo.1 as int, lo.2 as int) =~= nearby_entities(m, c)) by {
                assert forall|d: Cell| visited_before(d, lo, hi, x as int, lo.1 as int, lo.2 as int) <==> is_neighbor(c, d) by {}
            }
            assert forall|e: EntityId| #![trigger res@.contains(e)]
                res@.contains(e) <==> exists|d: Cell|
                    c.0 - 1 <= d.0 <= c.0 + 1 && c.1 - 1 <= d.1 <= c.1 + 1 && c.2 - 1 <= d.2 <= c.2
                        + 1 && #[trigger] m.contains_key(d) && m[d].contains(e) by {
                lemma_nearby_entities_by_bounds(m, c, e);
                assert(res@.contains(e) <==> res@.to_set().contains(e));
            }
        }
        res
    }

    fn push_to_cell(&mut self, c: Cell, e: EntityId)
        ensures
            final(self)@ == old(self)@.insert(c, cell_contents(old(self)@, c).push(e)),
    {
        let k = cell_key(c);
        let ghost before = self.cells@;
        let mut v = match self.cells.remove(&k) {
            Some(v) => v,
            None => Vec::new(),
        };
        v.push(e);
        self.cells.insert(k, v);
        proof {
            assert(self.cells@ == before.insert(k, v));
            assert forall|d: Cell| spec_cell_key(d) == k implies d == c by {
                lemma_cell_key_injective(d, c);
            }
            assert(self@ =~= old(self)@.insert(c, cell_contents(old(self)@, c).push(e)));
        }
    }

    /// Appends `entity` to every cell of the box spanned by the corner cells
    /// `lo` and `hi` (both inclusive); no cell changes when the box is empty.
    pub fn insert_entity(&mut self, entity: EntityId, lo: Cell, hi: Cell)
        ensures
            final(self)@ == box_insert(old(self)@, entity, lo, hi),
    {
        let ghost m0 = self@;
        assert(self@ =~= partial_insert(m0, entity, lo, hi, lo.0 as int, lo.1 as int, lo.2 as int));
        let mut x: i64 = lo.0 as i64;
        while x <= hi.0 as i64
            invariant
                lo.0 <= x,
                x <= hi.0 + 1 || x == lo.0,
                self@ == partial_insert(m0, entity, lo, hi, x as int, lo.1 as int, lo.2 as int),
            decreases hi.0 + 1 - x,
        {
            let mut y: i64 = lo.1 as i64;
            while y <= hi.1 as i64
                invariant
                    lo.0 <= x <= hi.0,
                    lo.1 <= y,
                    y <= hi.1 + 1 || y == lo.1,
                    self@ == partial_insert(m0, entity, lo, hi, x as int, y as int, lo.2 as int),
                decreases hi.1 + 1 - y,
            {
                let mut z: i64 = lo.2 as i64;
                while z <= hi.2 as i64
                    invariant
                        lo.0 <= x <= hi.0,
                        lo.1 <= y <= hi.1,
                        lo.2 <= z,
                        z <= hi.2 + 1 || z == lo.2,
                        self@ == partial_insert(m0, entity, lo, hi, x as int, y as int, z as int),
                    decreases hi.2 + 1 - z,
                {
                    let c: Cell = (x as i32, y as i32, z as i32);
                    let ghost pre = self@;
                    self.push_to_cell(c, entity);
                    proof {
                        assert(cell_contents(pre, c) == cell_contents(m0, c));
                        assert(self@ =~= partial_insert(
                            m0,
                            entity,
                            lo,
                            hi,
                            x as int,
                            y as int,
                            z + 1,
                        ));
                    }
                    z += 1;
                }
                assert(partial_insert(m0, entity, lo, hi, x as int, y as int, z as int)
                    =~= partial_insert(m0, entity, lo, hi, x as int, y + 1, lo.2 as int));
                y += 1;
            }
            assert(partial_insert(m0, entity, lo, hi, x as int, y as int, lo.2 as int)
                =~= partial_insert(m0, entity, lo, hi, x + 1, lo.1 as int, lo.2 as int));
            x += 1;
        }
        assert(partial_insert(m0, entity, lo, hi, x as int, lo.1 as int, lo.2 as int) =~= box_insert(
            m0,
            entity,
            lo,
            hi,
        ));
    }
}

} // verus!
