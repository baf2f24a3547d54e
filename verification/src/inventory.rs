use vstd::prelude::*;

use crate::grid::UVec2;

verus! {

/// Two half-open rectangles share at least one cell.
pub open spec fn spec_rects_overlap(a_origin: UVec2, a_size: UVec2, b_origin: UVec2, b_size: UVec2) -> bool {
    &&& a_origin.x < b_origin.x + b_size.x
    &&& b_origin.x < a_origin.x + a_size.x
    &&& a_origin.y < b_origin.y + b_size.y
    &&& b_origin.y < a_origin.y + a_size.y
}

/// Whether two half-open rectangles share a cell; touching edges do not.
pub fn rects_overlap(a_origin: UVec2, a_size: UVec2, b_origin: UVec2, b_size: UVec2) -> (r: bool)
    ensures
        r == spec_rects_overlap(a_origin, a_size, b_origin, b_size),
{
    (a_origin.x as u64) < (b_origin.x as u64) + (b_size.x as u64)
        && (b_origin.x as u64) < (a_origin.x as u64) + (a_size.x as u64)
        && (a_origin.y as u64) < (b_origin.y as u64) + (b_size.y as u64)
        && (b_origin.y as u64) < (a_origin.y as u64) + (a_size.y as u64)
}

} // verus!

verus! {

/// The rectangle `footprint` placed at `origin` lies inside a grid of size `grid`.
pub open spec fn spec_in_bounds(grid: UVec2, footprint: UVec2, origin: UVec2) -> bool {
    &&& origin.x + footprint.x <= grid.x
    &&& origin.y + footprint.y <= grid.y
}

/// The rectangle `footprint` at `origin` lies in the grid and overlaps none of
/// the `occupied` rectangles, each given as `(origin, size)`.
pub open spec fn spec_fits_at(grid: UVec2, occupied: Seq<(UVec2, UVec2)>, footprint: UVec2, origin: UVec2) -> bool {
    &&& spec_in_bounds(grid, footprint, origin)
    &&& forall|i: int| 0 <= i < occupied.len() ==>
        !spec_rects_overlap(origin, footprint, #[trigger] occupied[i].0, occupied[i].1)
}

/// Whether `footprint` can be placed at `origin` in a grid of size `grid`
/// without sticking out or overlapping any of the `occupied` rectangles.
pub fn fits_at(grid: UVec2, occupied: &[(UVec2, UVec2)], footprint: UVec2, origin: UVec2) -> (r: bool)
    ensures
        r == spec_fits_at(grid, occupied@, footprint, origin),
{
    if !((origin.x as u64) + (footprint.x as u64) <= (grid.x as u64)
        && (origin.y as u64) + (footprint.y as u64) <= (grid.y as u64)) {
        return false;
    }
    let n = occupied.len();
    let mut i: usize = 0;
    while i < n
        invariant
            n == occupied@.len(),
            i <= n,
            spec_in_bounds(grid, footprint, origin),
            forall|j: int| 0 <= j < i ==>
                !spec_rects_overlap(origin, footprint, #[trigger] occupied@[j].0, occupied@[j].1),
        decreases n - i,
    {
        let (other_origin, other_size) = occupied[i];
        if rects_overlap(origin, footprint, other_origin, other_size) {
            return false;
        }
        i = i + 1;
    }
    true
}

/// Row-major order on cells: `a` comes strictly before `b`.
pub open spec fn spec_row_major_before(a: UVec2, b: UVec2) -> bool {
    a.y < b.y || (a.y == b.y && a.x < b.x)
}

/// `origin` is the first cell, in row-major order, at which `footprint` fits.
pub open spec fn spec_is_first_fit(grid: UVec2, occupied: Seq<(UVec2, UVec2)>, footprint: UVec2, origin: UVec2) -> bool {
    &&& spec_fits_at(grid, occupied, footprint, origin)
    &&& forall|other: UVec2| spec_row_major_before(other, origin) ==>
        !#[trigger] spec_fits_at(grid, occupied, footprint, other)
}

/// No cell of the grid admits `footprint`.
pub open spec fn spec_no_fit(grid: UVec2, occupied: Seq<(UVec2, UVec2)>, footprint: UVec2) -> bool {
    forall|other: UVec2| !#[trigger] spec_fits_at(grid, occupied, footprint, other)
}

/// What `find_free_slot` answers: nothing for an empty or oversized
/// footprint, the preferred cell when it fits, else the first fit in
/// row-major order, else nothing.
pub open spec fn spec_free_slot(
    grid: UVec2,
    occupied: Seq<(UVec2, UVec2)>,
    footprint: UVec2,
    preferred: Option<UVec2>,
    r: Option<UVec2>,
) -> bool {
    if footprint.is_degenerate() || footprint.exceeds(grid) {
        r is None
    } else if preferred is Some && spec_fits_at(grid, occupied, footprint, preferred->0) {
        r == preferred
    } else {
        match r {
            Some(origin) => spec_is_first_fit(grid, occupied, footprint, origin),
            None => spec_no_fit(grid, occupied, footprint),
        }
    }
}

/// The answer of `find_free_slot` as a function: the first fit is unique,
/// so choosing it picks the one cell that the scan finds.
pub open spec fn spec_find_free_slot(
    grid: UVec2,
    occupied: Seq<(UVec2, UVec2)>,
    footprint: UVec2,
    preferred: Option<UVec2>,
) -> Option<UVec2> {
    if footprint.is_degenerate() || footprint.exceeds(grid) {
        None
    } else if preferred is Some && spec_fits_at(grid, occupied, footprint, preferred->0) {
        preferred
    } else if exists|origin: UVec2| spec_is_first_fit(grid, occupied, footprint, origin) {
        Some(choose|origin: UVec2| spec_is_first_fit(grid, occupied, footprint, origin))
    } else {
        None
    }
}

/// There is at most one first fit.
pub proof fn lemma_first_fit_unique(grid: UVec2, occupied: Seq<(UVec2, UVec2)>, footprint: UVec2, a: UVec2, b: UVec2)
    requires
        spec_is_first_fit(grid, occupied, footprint, a),
        spec_is_first_fit(grid, occupied, footprint, b),
    ensures
        a == b,
{
    if a != b {
        if spec_row_major_before(a, b) {
            assert(!spec_fits_at(grid, occupied, footprint, a));
        } else {
            assert(spec_row_major_before(b, a));
            assert(!spec_fits_at(grid, occupied, footprint, b));
        }
    }
}

/// Wherever `footprint` fits, some cell is the first fit in row-major order.
pub proof fn lemma_first_fit_exists(grid: UVec2, occupied: Seq<(UVec2, UVec2)>, footprint: UVec2, o: UVec2)
    requires
        spec_fits_at(grid, occupied, footprint, o),
    ensures
        exists|c: UVec2| spec_is_first_fit(grid, occupied, footprint, c),
    decreases o.y, o.x,
{
    if spec_is_first_fit(grid, occupied, footprint, o) {
    } else {
        let b = choose|b: UVec2| spec_row_major_before(b, o) && #[trigger] spec_fits_at(grid, occupied, footprint, b);
        lemma_first_fit_exists(grid, occupied, footprint, b);
    }
}

/// The slot search finds a cell whenever the footprint is not empty and
/// fits somewhere, and the cell it finds is free.
pub proof fn lemma_find_free_slot_complete(grid: UVec2, occupied: Seq<(UVec2, UVec2)>, footprint: UVec2, preferred: Option<UVec2>)
    ensures
        spec_find_free_slot(grid, occupied, footprint, preferred) is None <==> footprint.is_degenerate()
            || forall|c: UVec2| !#[trigger] spec_fits_at(grid, occupied, footprint, c),
        spec_find_free_slot(grid, occupied, footprint, preferred) matches Some(c)
            ==> spec_fits_at(grid, occupied, footprint, c),
        !footprint.is_degenerate() && preferred is Some && spec_fits_at(grid, occupied, footprint, preferred->0)
            ==> spec_find_free_slot(grid, occupied, footprint, preferred) == preferred,
        !(preferred is Some && spec_fits_at(grid, occupied, footprint, preferred->0)) ==> (
            spec_find_free_slot(grid, occupied, footprint, preferred) matches Some(c)
            ==> forall|b: UVec2| spec_row_major_before(b, c) ==> !#[trigger] spec_fits_at(grid, occupied, footprint, b)),
{
    if !footprint.is_degenerate() && footprint.exceeds(grid) {
        assert forall|c: UVec2| !#[trigger] spec_fits_at(grid, occupied, footprint, c) by {}
    }
    if exists|c: UVec2| spec_fits_at(grid, occupied, footprint, c) {
        let c = choose|c: UVec2| spec_fits_at(grid, occupied, footprint, c);
        lemma_first_fit_exists(grid, occupied, footprint, c);
    }
    if !(footprint.is_degenerate() || footprint.exceeds(grid)) && !(preferred is Some
        && spec_fits_at(grid, occupied, footprint, preferred->0))
        && exists|o: UVec2| spec_is_first_fit(grid, occupied, footprint, o) {
        let c = choose|o: UVec2| spec_is_first_fit(grid, occupied, footprint, o);
        assert(spec_is_first_fit(grid, occupied, footprint, c));
    }
}

/// The relational description of a free slot pins the answer down.
pub proof fn lemma_free_slot_is_functional(
    grid: UVec2,
    occupied: Seq<(UVec2, UVec2)>,
    footprint: UVec2,
    preferred: Option<UVec2>,
    r: Option<UVec2>,
)
    requires
        spec_free_slot(grid, occupied, footprint, preferred, r),
    ensures
        r == spec_find_free_slot(grid, occupied, footprint, preferred),
{
    if !(footprint.is_degenerate() || footprint.exceeds(grid)) && !(preferred is Some
        && spec_fits_at(grid, occupied, footprint, preferred->0)) {
        match r {
            Some(origin) => {
                let c = choose|o: UVec2| spec_is_first_fit(grid, occupied, footprint, o);
                lemma_first_fit_unique(grid, occupied, footprint, origin, c);
            },
            None => {
                assert(!exists|o: UVec2| spec_is_first_fit(grid, occupied, footprint, o));
            },
        }
    }
}

/// Finds a cell for `footprint`: the `preferred` (remembered) cell when it
/// is still free, otherwise the first free cell scanning rows top to
/// bottom and each row left to right.
pub fn find_free_slot(
    grid: UVec2,
    occupied: &[(UVec2, UVec2)],
    footprint: UVec2,
    preferred: Option<UVec2>,
) -> (r: Option<UVec2>)
    ensures
        spec_free_slot(grid, occupied@, footprint, preferred, r),
        r == spec_find_free_slot(grid, occupied@, footprint, preferred),
{
    let r = find_free_slot_scan(grid, occupied, footprint, preferred);
    proof {
        lemma_free_slot_is_functional(grid, occupied@, footprint, preferred, r);
    }
    r
}

fn find_free_slot_scan(
    grid: UVec2,
    occupied: &[(UVec2, UVec2)],
    footprint: UVec2,
    preferred: Option<UVec2>,
) -> (r: Option<UVec2>)
    ensures
        spec_free_slot(grid, occupied@, footprint, preferred, r),
{
    if footprint.x == 0 || footprint.y == 0 || footprint.x > grid.x || footprint.y > grid.y {
        return None;
    }
    if let Some(origin) = preferred {
        if fits_at(grid, occupied, footprint, origin) {
            return Some(origin);
        }
    }
    let max_y = grid.y - footprint.y;
    let max_x = grid.x - footprint.x;
    let ghost occ = occupied@;
    let mut y: u32 = 0;
    loop
        invariant
            occ == occupied@,
            max_y == grid.y - footprint.y,
            max_x == grid.x - footprint.x,
            !footprint.is_degenerate(),
            !footprint.exceeds(grid),
            !(preferred is Some && spec_fits_at(grid, occ, footprint, preferred->0)),
            y <= max_y,
            forall|other: UVec2| #![trigger spec_fits_at(grid, occ, footprint, other)]
                other.y < y ==> !spec_fits_at(grid, occ, footprint, other),
        decreases max_y - y,
    {
        let mut x: u32 = 0;
        loop
            invariant
                occ == occupied@,
                max_y == grid.y - footprint.y,
                max_x == grid.x - footprint.x,
                !footprint.is_degenerate(),
                !footprint.exceeds(grid),
                !(preferred is Some && spec_fits_at(grid, occ, footprint, preferred->0)),
                y <= max_y,
                x <= max_x,
                forall|other: UVec2| #![trigger spec_fits_at(grid, occ, footprint, other)]
                    spec_row_major_before(other, UVec2 { x, y }) ==> !spec_fits_at(grid, occ, footprint, other),
            ensures
                forall|other: UVec2| #![trigger spec_fits_at(grid, occ, footprint, other)]
                    other.y <= y ==> !spec_fits_at(grid, occ, footprint, other),
            decreases max_x - x,
        {
            let origin = UVec2 { x, y };
            if fits_at(grid, occupied, footprint, origin) {
                assert(spec_is_first_fit(grid, occ, footprint, origin));
                return Some(origin);
            }
            if x == max_x {
                assert forall|other: UVec2| other.y <= y implies
                    !#[trigger] spec_fits_at(grid, occ, footprint, other) by {
                    if other.y == y && other.x >= x {
                        if other.x > x {
                            assert(!spec_in_bounds(grid, footprint, other));
                        } else {
                            assert(other == origin);
                        }
                    }
                }
                break;
            }
            x = x + 1;
        }
        if y == max_y {
            assert forall|other: UVec2| !#[trigger] spec_fits_at(grid, occ, footprint, other) by {
                if other.y > y {
                    assert(!spec_in_bounds(grid, footprint, other));
                }
            }
            return None;
        }
        y = y + 1;
    }
}

/// `v` clamped into `0..=max`.
pub open spec fn spec_clamp_axis(v: int, max: int) -> int {
    if v < 0 {
        0
    } else if v > max {
        max
    } else {
        v
    }
}

/// The cell a drag lands on: the target clamped back onto the grid, so that
/// the footprint stays inside it.
pub open spec fn spec_drag_target(grid: UVec2, footprint: UVec2, target_x: int, target_y: int) -> UVec2 {
    UVec2 {
        x: spec_clamp_axis(target_x, grid.x - footprint.x) as u32,
        y: spec_clamp_axis(target_y, grid.y - footprint.y) as u32,
    }
}

fn clamp_axis(v: i32, max: u32) -> (r: u32)
    ensures
        r == spec_clamp_axis(v as int, max as int),
{
    if v < 0 {
        0
    } else if (v as u32) > max {
        max
    } else {
        v as u32
    }
}

/// Decides where a dragged item drops. `target_x`/`target_y` is the cell the
/// pointer released over (the start cell plus the drag distance in cells,
/// rounded), which may lie outside the grid; it is clamped back onto the
/// grid and accepted only if the footprint fits there.
pub fn commit_drag(
    grid: UVec2,
    occupied: &[(UVec2, UVec2)],
    footprint: UVec2,
    target_x: i32,
    target_y: i32,
) -> (r: Option<UVec2>)
    ensures
        footprint.is_degenerate() || footprint.exceeds(grid) ==> r is None,
        !(footprint.is_degenerate() || footprint.exceeds(grid)) ==> {
            let target = spec_drag_target(grid, footprint, target_x as int, target_y as int);
            r == if spec_fits_at(grid, occupied@, footprint, target) {
                Some(target)
            } else {
                None::<UVec2>
            }
        },
{
    if footprint.x == 0 || footprint.y == 0 || footprint.x > grid.x || footprint.y > grid.y {
        return None;
    }
    let target = UVec2 {
        x: clamp_axis(target_x, grid.x - footprint.x),
        y: clamp_axis(target_y, grid.y - footprint.y),
    };
    if fits_at(grid, occupied, footprint, target) {
        Some(target)
    } else {
        None
    }
}

/// The number of grid cells an item takes up; one cell unless said otherwise.
#[derive(Clone, Copy, Debug, PartialEq, Eq, Structural)]
pub struct ItemFootprint(pub UVec2);

impl Default for ItemFootprint {
    fn default() -> (r: Self)
        ensures
            r.0 == (UVec2 { x: 1, y: 1 }),
    {
        ItemFootprint(UVec2 { x: 1, y: 1 })
    }
}

/// The size, in cells, of a container's storage grid; never empty.
#[derive(Clone, Copy, Debug, PartialEq, Eq, Structural)]
pub struct InventoryGrid(UVec2);

impl InventoryGrid {
    #[verifier::type_invariant]
    spec fn has_cells(self) -> bool {
        self.0.x > 0 && self.0.y > 0
    }

    pub closed spec fn spec_size(self) -> UVec2 {
        self.0
    }

    /// A grid of `size` cells; both axes must be at least one cell.
    pub fn new(size: UVec2) -> (r: InventoryGrid)
        requires
            size.x > 0,
            size.y > 0,
        ensures
            r.spec_size() == size,
    {
        InventoryGrid(size)
    }

    pub fn size(&self) -> (r: UVec2)
        ensures
            r == self.spec_size(),
            r.x > 0,
            r.y > 0,
    {
        proof {
            use_type_invariant(self);
        }
        self.0
    }
}

/// One item in pick-up range: its id, footprint and remembered cell.
pub type PickupCandidate = (u64, UVec2, Option<UVec2>);

/// Which of the `candidates`, taken in order, a holder picks up: all of them
/// when it has no grid; otherwise each one that still finds a free cell,
/// counting the cells the ones before it were given.
pub open spec fn spec_plan_pickups(
    grid: Option<UVec2>,
    occupied: Seq<(UVec2, UVec2)>,
    candidates: Seq<PickupCandidate>,
) -> Seq<u64>
    decreases candidates.len(),
{
    if candidates.len() == 0 {
        Seq::empty()
    } else {
        let c = candidates[0];
        let rest = candidates.drop_first();
        match grid {
            None => seq![c.0] + spec_plan_pickups(grid, occupied, rest),
            Some(g) => match spec_find_free_slot(g, occupied, c.1, c.2) {
                Some(slot) => seq![c.0] + spec_plan_pickups(grid, occupied.push((slot, c.1)), rest),
                None => spec_plan_pickups(grid, occupied, rest),
            },
        }
    }
}

/// Plans a pick-up: the candidates (in pick-up range) that go into the
/// holder's storage, in order. A gridded holder only takes an item that
/// finds a free cell, and the cell is then counted as taken.
pub fn plan_pickups(
    grid: Option<UVec2>,
    occupied: Vec<(UVec2, UVec2)>,
    candidates: &[PickupCandidate],
) -> (r: Vec<u64>)
    ensures
        r@ == spec_plan_pickups(grid, occupied@, candidates@),
{
    let mut occupied = occupied;
    let mut taken: Vec<u64> = Vec::new();
    let n = candidates.len();
    let mut i: usize = 0;
    let ghost total = spec_plan_pickups(grid, occupied@, candidates@);
    assert(candidates@.skip(0) =~= candidates@);
    assert(taken@ + total =~= total);
    while i < n
        invariant
            n == candidates@.len(),
            i <= n,
            taken@ + spec_plan_pickups(grid, occupied@, candidates@.skip(i as int)) == total,
        decreases n - i,
    {
        let (id, footprint, preferred) = candidates[i];
        let ghost before = occupied@;
        let ghost rest = candidates@.skip(i as int);
        assert(rest[0] == candidates@[i as int]);
        assert(rest.drop_first() =~= candidates@.skip(i + 1));
        match grid {
            None => {
                taken.push(id);
                proof {
                    assert(taken@ + spec_plan_pickups(grid, occupied@, candidates@.skip(i + 1))
                        =~= taken@.drop_last() + (seq![id] + spec_plan_pickups(grid, before, rest.drop_first())));
                }
            },
            Some(g) => {
                match find_free_slot(g, occupied.as_slice(), footprint, preferred) {
                    Some(slot) => {
                        occupied.push((slot, footprint));
                        taken.push(id);
                        proof {
                            assert(taken@ + spec_plan_pickups(grid, occupied@, candidates@.skip(i + 1))
                                =~= taken@.drop_last() + (seq![id] + spec_plan_pickups(grid, before.push((slot, footprint)), rest.drop_first())));
                        }
                    },
                    None => {},
                }
            },
        }
        i = i + 1;
    }
    assert(candidates@.skip(n as int) =~= Seq::<PickupCandidate>::empty());
    assert(taken@ + Seq::<u64>::empty() =~= taken@);
    taken
}

/// A broken packing rule found in a gridded container.
#[derive(Clone, Copy, Debug, PartialEq, Eq, Structural)]
pub enum PackingViolation {
    /// A stored item has no cell.
    Unpacked(u64),
    /// A stored item sticks out of the grid.
    OutOfBounds(u64),
    /// Two stored items overlap: the later one, then the earlier one.
    Overlap(u64, u64),
}

/// One item stored in a gridded container: its id, its cell if packed, and
/// its footprint.
pub type StoredItem = (u64, Option<UVec2>, UVec2);

/// The packed items among `held`, as `(id, origin, size)`, in order.
pub open spec fn spec_packed_items(held: Seq<StoredItem>) -> Seq<(u64, UVec2, UVec2)>
    decreases held.len(),
{
    if held.len() == 0 {
        Seq::empty()
    } else {
        let h = held.last();
        match h.1 {
            Some(origin) => spec_packed_items(held.drop_last()).push((h.0, origin, h.2)),
            None => spec_packed_items(held.drop_last()),
        }
    }
}

/// The overlaps of item `id` at `origin` with the earlier packed items `seen`.
pub open spec fn spec_overlaps(id: u64, origin: UVec2, size: UVec2, seen: Seq<(u64, UVec2, UVec2)>) -> Seq<PackingViolation>
    decreases seen.len(),
{
    if seen.len() == 0 {
        Seq::empty()
    } else {
        let o = seen.last();
        let rest = spec_overlaps(id, origin, size, seen.drop_last());
        if spec_rects_overlap(origin, size, o.1, o.2) {
            rest.push(PackingViolation::Overlap(id, o.0))
        } else {
            rest
        }
    }
}

/// What is wrong with item `h` given the packed items before it.
pub open spec fn spec_item_violations(grid: UVec2, h: StoredItem, seen: Seq<(u64, UVec2, UVec2)>) -> Seq<PackingViolation> {
    match h.1 {
        None => seq![PackingViolation::Unpacked(h.0)],
        Some(origin) => {
            let bounds = if spec_in_bounds(grid, h.2, origin) {
                Seq::empty()
            } else {
                seq![PackingViolation::OutOfBounds(h.0)]
            };
            bounds + spec_overlaps(h.0, origin, h.2, seen)
        },
    }
}

/// Every broken packing rule among the items `held` in a grid, item by
/// item in order: an unpacked item, an item sticking out of the grid, and
/// each overlap with an earlier packed item.
pub open spec fn spec_packing_violations(grid: UVec2, held: Seq<StoredItem>) -> Seq<PackingViolation>
    decreases held.len(),
{
    if held.len() == 0 {
        Seq::empty()
    } else {
        let init = held.drop_last();
        spec_packing_violations(grid, init) + spec_item_violations(grid, held.last(), spec_packed_items(init))
    }
}

/// Checks the packing of the items stored in a gridded container and lists
/// every broken rule; an empty list means the packing is sound.
pub fn packing_violations(grid: UVec2, held: &[StoredItem]) -> (r: Vec<PackingViolation>)
    ensures
        r@ == spec_packing_violations(grid, held@),
{
    let ghost all = held@;
    let mut found: Vec<PackingViolation> = Vec::new();
    let mut seen: Vec<(u64, UVec2, UVec2)> = Vec::new();
    let n = held.len();
    let mut i: usize = 0;
    assert(all.take(0) =~= Seq::<StoredItem>::empty());
    while i < n
        invariant
            all == held@,
            n == all.len(),
            i <= n,
            found@ == spec_packing_violations(grid, all.take(i as int)),
            seen@ == spec_packed_items(all.take(i as int)),
        decreases n - i,
    {
        let (id, packed, size) = held[i];
        let ghost prefix = all.take(i as int);
        assert(all.take(i + 1).drop_last() =~= prefix);
        assert(all.take(i + 1).last() == all[i as int]);
        match packed {
            None => {
                found.push(PackingViolation::Unpacked(id));
                assert(found@ =~= spec_packing_violations(grid, prefix) + spec_item_violations(grid, all[i as int], seen@));
            },
            Some(origin) => {
                let ghost before = found@;
                if !((origin.x as u64) + (size.x as u64) <= (grid.x as u64)
                    && (origin.y as u64) + (size.y as u64) <= (grid.y as u64)) {
                    found.push(PackingViolation::OutOfBounds(id));
                }
                let ghost with_bounds = found@;
                let m = seen.len();
                let mut j: usize = 0;
                assert(seen@.take(0) =~= Seq::<(u64, UVec2, UVec2)>::empty());
                assert(with_bounds =~= with_bounds + spec_overlaps(id, origin, size, seen@.take(0)));
                while j < m
                    invariant
                        m == seen@.len(),
                        j <= m,
                        found@ == with_bounds + spec_overlaps(id, origin, size, seen@.take(j as int)),
                    decreases m - j,
                {
                    let (other, other_origin, other_size) = seen[j];
                    assert(seen@.take(j + 1).drop_last() =~= seen@.take(j as int));
                    assert(seen@.take(j + 1).last() == seen@[j as int]);
                    if rects_overlap(origin, size, other_origin, other_size) {
                        found.push(PackingViolation::Overlap(id, other));
                        assert(found@ =~= with_bounds + spec_overlaps(id, origin, size, seen@.take(j + 1)));
                    }
                    j = j + 1;
                }
                assert(seen@.take(m as int) =~= seen@);
                assert(found@ =~= spec_packing_violations(grid, prefix) + spec_item_violations(grid, all[i as int], seen@));
                seen.push((id, origin, size));
            },
        }
        i = i + 1;
    }
    assert(all.take(n as int) =~= all);
    found
}

} // verus!
