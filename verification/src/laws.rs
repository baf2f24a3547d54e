//! Properties of the placement state machine that span several operations.

use vstd::prelude::*;

use crate::grid::UVec2;
use crate::inventory::{
    lemma_find_free_slot_complete, spec_drag_target, spec_find_free_slot, spec_fits_at, spec_in_bounds,
    spec_plan_pickups, spec_rects_overlap, spec_row_major_before, PickupCandidate,
};
use crate::state::Placement;
use crate::world::{
    lemma_despawn_holder_wf, lemma_drop_wf, lemma_equip, lemma_equip_self, lemma_fits_occupied_map, lemma_item_index,
    lemma_item_map_entry, lemma_item_map_key, lemma_relink, lemma_self_link_wf, lemma_store, lemma_store_wf, spec_ids_placed,
    spec_occupies, ItemError, StoreOutcome, WorldView,
};

verus! {

/// A record's id is listed under `p` exactly when some record has that id
/// and placement.
pub proof fn lemma_ids_placed(items: Seq<crate::world::ItemRecord>, p: Placement, x: u64)
    ensures
        spec_ids_placed(items, p).contains(x) <==> exists|i: int|
            0 <= i < items.len() && #[trigger] items[i].id == x && items[i].placement == p,
    decreases items.len(),
{
    if items.len() > 0 {
        let init = items.drop_last();
        lemma_ids_placed(init, p, x);
        let rest = spec_ids_placed(init, p);
        if exists|i: int| 0 <= i < items.len() && #[trigger] items[i].id == x && items[i].placement == p {
            let i = choose|i: int| 0 <= i < items.len() && #[trigger] items[i].id == x && items[i].placement == p;
            if i < init.len() {
                assert(init[i] == items[i]);
                if items.last().placement == p {
                    let j = choose|j: int| 0 <= j < rest.len() && rest[j] == x;
                    assert(rest.push(items.last().id)[j] == x);
                }
            } else {
                assert(rest.push(items.last().id)[rest.len() as int] == x);
            }
        }
        if spec_ids_placed(items, p).contains(x) {
            if items.last().placement == p {
                let s = rest.push(items.last().id);
                let j = choose|j: int| 0 <= j < s.len() && s[j] == x;
                if j < rest.len() {
                    assert(rest[j] == x);
                    let i = choose|i: int| 0 <= i < init.len() && #[trigger] init[i].id == x && init[i].placement == p;
                    assert(items[i] == init[i]);
                } else {
                    assert(items[items.len() - 1].id == x);
                }
            } else {
                let i = choose|i: int| 0 <= i < init.len() && #[trigger] init[i].id == x && init[i].placement == p;
                assert(items[i] == init[i]);
            }
        }
    }
}

/// The reverse query agrees with the items: an item is listed under a
/// holder's equipped or stored items exactly when it is placed there.
pub proof fn law_listing_matches_placement(w: WorldView, p: Placement, x: u64)
    requires
        w.wf(),
    ensures
        spec_ids_placed(w.items, p).contains(x) <==> w.item_map().contains_key(x) && w.item_map()[x].placement == p,
{
    lemma_ids_placed(w.items, p, x);
    if w.item_map().contains_key(x) {
        lemma_item_map_key(w, x);
        lemma_item_index(w, w.item_index(x));
    }
    if exists|i: int| 0 <= i < w.items.len() && #[trigger] w.items[i].id == x && w.items[i].placement == p {
        let i = choose|i: int| 0 <= i < w.items.len() && #[trigger] w.items[i].id == x && w.items[i].placement == p;
        lemma_item_map_entry(w, i);
    }
}

/// One weapon in hand: after equipping, the item is the only one its holder
/// has equipped; what the holder had equipped before was stowed into the
/// holder's storage, or put on the ground at the holder when the storage
/// grid had no room for it. (An item cannot be equipped by itself.)
pub proof fn law_equip_is_exclusive(w: WorldView, id: u64, holder: u64)
    requires
        w.wf(),
        w.has_item(id),
        w.has_holder(holder),
        id != holder,
    ensures
        ({
            let (w2, demotion) = w.equip(id, holder);
            &&& w2.item_map()[id].placement == Placement::EquippedBy(holder)
            &&& forall|x: u64| #[trigger] w2.item_map().contains_key(x) && x != id
                ==> w2.item_map()[x].placement != Placement::EquippedBy(holder)
            &&& demotion matches Some(d) ==> {
                &&& w.item_map()[d.item].placement == Placement::EquippedBy(holder)
                &&& match d.outcome {
                    StoreOutcome::Refused => w2.item_map()[d.item].placement == Placement::OnGround,
                    _ => w2.item_map()[d.item].placement == Placement::StoredIn(holder),
                }
            }
        }),
{
    lemma_equip(w, id, holder);
    let (w2, demotion) = w.equip(id, holder);
    lemma_item_map_key(w, id);
    assert(w2.item_map().contains_key(id));
    assert forall|x: u64| #[trigger] w2.item_map().contains_key(x) && x != id
        implies w2.item_map()[x].placement != Placement::EquippedBy(holder) by {}
    if let Some(d) = demotion {
        let i = w.item_index(id);
        let w1 = w.relink(i, Placement::EquippedBy(holder));
        lemma_relink(w, i, Placement::EquippedBy(holder));
        lemma_store(w1, d.item, holder);
    }
}

/// Model components persist: equipping, storing and dropping keep every
/// item and every item's footprint, and touch no item but the one moved
/// and, for an equip, the one it displaced.
pub proof fn law_transitions_keep_every_item(w: WorldView, id: u64, holder: u64)
    requires
        w.wf(),
        w.has_item(id),
        w.has_holder(holder),
    ensures
        w.equip(id, holder).0.item_map().dom() == w.item_map().dom(),
        w.store(id, holder).0.item_map().dom() == w.item_map().dom(),
        w.drop(id).item_map().dom() == w.item_map().dom(),
        forall|x: u64| #[trigger] w.item_map().contains_key(x) ==> {
            &&& w.equip(id, holder).0.item_map()[x].footprint == w.item_map()[x].footprint
            &&& w.store(id, holder).0.item_map()[x].footprint == w.item_map()[x].footprint
            &&& w.drop(id).item_map()[x].footprint == w.item_map()[x].footprint
        },
{
    lemma_item_map_key(w, id);
    lemma_drop_wf(w, id);
    if id == holder {
        lemma_equip_self(w, id);
        lemma_self_link_wf(w, id, false);
    } else {
        lemma_equip(w, id, holder);
        lemma_store(w, id, holder);
        let (we, demotion) = w.equip(id, holder);
        if let Some(d) = demotion {
            let i = w.item_index(id);
            let w1 = w.relink(i, Placement::EquippedBy(holder));
            lemma_relink(w, i, Placement::EquippedBy(holder));
            lemma_store(w1, d.item, holder);
        }
    }
    let (we, demotion) = w.equip(id, holder);
    assert(we.item_map().dom() =~= w.item_map().dom());
    assert(w.store(id, holder).0.item_map().dom() =~= w.item_map().dom());
    assert(w.drop(id).item_map().dom() =~= w.item_map().dom());
}

/// Packing memory: a stored item that is dropped and stowed again into the
/// same container, with nothing else changed, goes back to the cell it was
/// packed at, as long as the container's packing is valid.
pub proof fn law_restow_returns_to_remembered_spot(w: WorldView, id: u64, container: u64)
    requires
        w.wf(),
        w.packing_valid(),
        w.has_item(id),
        w.item_map()[id].placement == Placement::StoredIn(container),
        w.holder_grid(container) is Some,
    ensures
        ({
            let (w2, outcome) = w.drop(id).store(id, container);
            &&& outcome == StoreOutcome::Packed(w.item_map()[id].packed->0)
            &&& w2.item_map()[id] == w.item_map()[id]
        }),
{
    let m = w.item_map();
    let r = m[id];
    let grid = w.holder_grid(container)->0;
    lemma_item_map_key(w, id);
    assert(w.in_grid(r));
    let origin = r.packed->0;
    lemma_drop_wf(w, id);
    let w1 = w.drop(id);
    let m1 = w1.item_map();
    assert(m1.contains_key(id));
    assert(w1.has_item(id));
    let i1 = w1.item_index(id);
    lemma_item_map_key(w1, id);
    lemma_relink(w1, i1, Placement::StoredIn(container));
    let w1s = w1.relink(i1, Placement::StoredIn(container));
    let m1s = w1s.item_map();
    assert(w1s.holder_grid(container) == Some(grid)) by {
        assert(w1s.holders == w.holders);
    }
    let last = w1s.items.last();
    assert(last == r);
    lemma_fits_occupied_map(w1s, container, id, grid, r.footprint, origin);
    assert forall|x: u64| #[trigger] m1s.contains_key(x) && spec_occupies(m1s[x], container, id)
        implies !crate::inventory::spec_rects_overlap(origin, r.footprint, m1s[x].packed->0, m1s[x].footprint) by {
        assert(x != id);
        assert(m1s[x] == m1[x]);
        assert(m1.contains_key(x));
        assert(m.contains_key(x) && m1[x] == m[x]);
        assert(w.in_grid(m[x]));
        assert(m.contains_key(id));
        assert(m[x].placement == m[id].placement);
    }
    assert(m.contains_key(id) && w.in_grid(m[id]));
    assert(spec_in_bounds(grid, r.footprint, origin));
    assert(spec_fits_at(grid, crate::world::spec_occupied(w1s.items, container, id), r.footprint, origin));
    assert(spec_find_free_slot(grid, crate::world::spec_occupied(w1s.items, container, id), r.footprint, r.packed) == Some(origin));
    lemma_store(w1, id, container);
}

/// When a holder dies, everything it carried, equipped and stowed alike,
/// lies on the ground, and nothing is linked to it any more; the items keep
/// their footprints and remembered cells. Every item it did not carry is
/// left exactly as it was.
pub proof fn law_holder_death_drops_everything(w: WorldView, holder: u64)
    requires
        w.wf(),
        w.has_holder(holder),
    ensures
        ({
            let w2 = w.despawn_holder(holder);
            &&& w2.wf()
            &&& w2.item_map().dom() == w.item_map().dom()
            &&& forall|x: u64| #[trigger] w.item_map().contains_key(x) ==> {
                &&& w2.item_map()[x].placement.spec_link() != Some(holder)
                &&& w.item_map()[x].placement.spec_link() == Some(holder)
                    ==> w2.item_map()[x].placement == Placement::OnGround
                &&& w2.item_map()[x].footprint == w.item_map()[x].footprint
                &&& w2.item_map()[x].packed == w.item_map()[x].packed
                &&& w.item_map()[x].placement.spec_link() != Some(holder)
                    ==> w2.item_map()[x] == w.item_map()[x]
            }
        }),
{
    lemma_despawn_holder_wf(w, holder);
}

/// `cell` is free for item `id`, of footprint `footprint`, in `container`'s
/// grid of size `grid`: the footprint stays inside the grid there and
/// overlaps no other item packed in that container. The item's own cells
/// do not count.
pub open spec fn spec_cell_free_for(w: WorldView, id: u64, container: u64, grid: UVec2, footprint: UVec2, cell: UVec2) -> bool {
    &&& spec_in_bounds(grid, footprint, cell)
    &&& forall|x: u64| #[trigger] w.item_map().contains_key(x) && x != id
        && w.item_map()[x].placement == Placement::StoredIn(container) && w.item_map()[x].packed is Some
        ==> !spec_rects_overlap(cell, footprint, w.item_map()[x].packed->0, w.item_map()[x].footprint)
}

/// Fitting against the occupied cells of a container other than `id` is
/// being free for `id`.
proof fn lemma_fits_is_free(w: WorldView, id: u64, container: u64, grid: UVec2, footprint: UVec2)
    requires
        w.ids_unique(),
    ensures
        forall|c: UVec2| #[trigger] spec_fits_at(grid, crate::world::spec_occupied(w.items, container, id), footprint, c)
            <==> spec_cell_free_for(w, id, container, grid, footprint, c),
{
    assert forall|c: UVec2| #[trigger] spec_fits_at(grid, crate::world::spec_occupied(w.items, container, id), footprint, c)
        <==> spec_cell_free_for(w, id, container, grid, footprint, c) by {
        lemma_fits_occupied_map(w, container, id, grid, footprint, c);
    }
}

/// Storing into a gridded container: the item goes back to its remembered
/// cell if that cell is still free, else to the first free cell in
/// row-major order, and stays stored there; it is refused and put on the
/// ground only when its footprint is empty or no cell of the grid is free
/// for it. Its own former cells never count as taken.
pub proof fn law_store_refuses_only_a_full_grid(w: WorldView, id: u64, container: u64)
    requires
        w.wf(),
        w.has_item(id),
        w.has_holder(container),
        id != container,
        w.holder_grid(container) is Some,
    ensures
        ({
            let (w2, outcome) = w.store(id, container);
            let grid = w.holder_grid(container)->0;
            let r = w.item_map()[id];
            &&& outcome != StoreOutcome::Kept
            &&& (outcome == StoreOutcome::Refused <==> r.footprint.is_degenerate()
                || forall|c: UVec2| !#[trigger] spec_cell_free_for(w, id, container, grid, r.footprint, c))
            &&& outcome == StoreOutcome::Refused ==> w2.item_map()[id].placement == Placement::OnGround
            &&& outcome matches StoreOutcome::Packed(c) ==> {
                &&& spec_cell_free_for(w, id, container, grid, r.footprint, c)
                &&& w2.item_map()[id].placement == Placement::StoredIn(container)
                &&& w2.item_map()[id].packed == Some(c)
            }
            &&& !r.footprint.is_degenerate() && r.packed is Some
                && spec_cell_free_for(w, id, container, grid, r.footprint, r.packed->0)
                ==> outcome == StoreOutcome::Packed(r.packed->0)
            &&& !(r.packed is Some && spec_cell_free_for(w, id, container, grid, r.footprint, r.packed->0)) ==> (
                outcome matches StoreOutcome::Packed(c)
                ==> forall|b: UVec2| spec_row_major_before(b, c)
                    ==> !#[trigger] spec_cell_free_for(w, id, container, grid, r.footprint, b))
        }),
{
    let grid = w.holder_grid(container)->0;
    let m = w.item_map();
    lemma_item_map_key(w, id);
    let r = m[id];
    let i = w.item_index(id);
    lemma_store(w, id, container);
    lemma_relink(w, i, Placement::StoredIn(container));
    let w1 = w.relink(i, Placement::StoredIn(container));
    let m1 = w1.item_map();
    assert(w1.holders == w.holders);
    assert(w1.holder_grid(container) == w.holder_grid(container));
    let r1 = w1.items[w1.items.len() - 1];
    assert(r1.footprint == r.footprint && r1.packed == r.packed && r1.id == id);
    let occ = crate::world::spec_occupied(w1.items, container, id);
    lemma_fits_is_free(w1, id, container, grid, r.footprint);
    assert forall|c: UVec2| #[trigger] spec_cell_free_for(w1, id, container, grid, r.footprint, c)
        <==> spec_cell_free_for(w, id, container, grid, r.footprint, c) by {
        if spec_cell_free_for(w1, id, container, grid, r.footprint, c) {
            assert forall|x: u64| #[trigger] m.contains_key(x) && x != id
                && m[x].placement == Placement::StoredIn(container) && m[x].packed is Some
                implies !spec_rects_overlap(c, r.footprint, m[x].packed->0, m[x].footprint) by {
                assert(m1.contains_key(x) && m1[x] == m[x]);
            }
        }
        if spec_cell_free_for(w, id, container, grid, r.footprint, c) {
            assert forall|x: u64| #[trigger] m1.contains_key(x) && x != id
                && m1[x].placement == Placement::StoredIn(container) && m1[x].packed is Some
                implies !spec_rects_overlap(c, r.footprint, m1[x].packed->0, m1[x].footprint) by {
                assert(m.contains_key(x) && m1[x] == m[x]);
            }
        }
    }
    lemma_find_free_slot_complete(grid, occ, r.footprint, r.packed);
    let slot = spec_find_free_slot(grid, occ, r.footprint, r.packed);
    let (w2, outcome) = w.store(id, container);
    assert(w.store(id, container) == w1.pack_last(container));
    assert(outcome == match slot {
        Some(o) => StoreOutcome::Packed(o),
        None => StoreOutcome::Refused,
    });
    assert((outcome == StoreOutcome::Refused) <==> (r.footprint.is_degenerate()
        || forall|c: UVec2| !#[trigger] spec_cell_free_for(w, id, container, grid, r.footprint, c))) by {
        if !r.footprint.is_degenerate() && !(forall|c: UVec2| !#[trigger] spec_cell_free_for(w, id, container, grid, r.footprint, c)) {
            let c = choose|c: UVec2| spec_cell_free_for(w, id, container, grid, r.footprint, c);
            assert(spec_cell_free_for(w1, id, container, grid, r.footprint, c));
            assert(spec_fits_at(grid, occ, r.footprint, c));
        }
        if outcome != StoreOutcome::Refused {
            let c = slot->0;
            assert(spec_fits_at(grid, occ, r.footprint, c));
            assert(spec_cell_free_for(w, id, container, grid, r.footprint, c));
        }
    }
    if !r.footprint.is_degenerate() && r.packed is Some
        && spec_cell_free_for(w, id, container, grid, r.footprint, r.packed->0) {
        assert(spec_cell_free_for(w1, id, container, grid, r.footprint, r.packed->0));
        assert(spec_fits_at(grid, occ, r.footprint, r.packed->0));
    }
    if !(r.packed is Some && spec_cell_free_for(w, id, container, grid, r.footprint, r.packed->0)) {
        if let StoreOutcome::Packed(c) = outcome {
            assert(!(r.packed is Some && spec_fits_at(grid, occ, r.footprint, r.packed->0))) by {
                if r.packed is Some && spec_fits_at(grid, occ, r.footprint, r.packed->0) {
                    assert(spec_cell_free_for(w1, id, container, grid, r.footprint, r.packed->0));
                }
            }
            assert forall|b: UVec2| spec_row_major_before(b, c)
                implies !#[trigger] spec_cell_free_for(w, id, container, grid, r.footprint, b) by {
                assert(!spec_fits_at(grid, occ, r.footprint, b));
                assert(!spec_cell_free_for(w1, id, container, grid, r.footprint, b));
            }
        }
    }
}

/// Storing into a container without a grid always keeps the item there,
/// with its remembered cell untouched, and changes no other item.
pub proof fn law_store_without_grid_keeps(w: WorldView, id: u64, container: u64)
    requires
        w.wf(),
        w.has_item(id),
        w.has_holder(container),
        id != container,
        w.holder_grid(container) is None,
    ensures
        ({
            let (w2, outcome) = w.store(id, container);
            &&& outcome == StoreOutcome::Kept
            &&& w2.item_map()[id].placement == Placement::StoredIn(container)
            &&& w2.item_map()[id].packed == w.item_map()[id].packed
            &&& w2.item_map()[id].footprint == w.item_map()[id].footprint
            &&& w2.item_map().dom() == w.item_map().dom()
            &&& forall|x: u64| #[trigger] w.item_map().contains_key(x) && x != id ==> w2.item_map()[x] == w.item_map()[x]
        }),
{
    lemma_item_map_key(w, id);
    lemma_store(w, id, container);
    let i = w.item_index(id);
    lemma_relink(w, i, Placement::StoredIn(container));
    let w1 = w.relink(i, Placement::StoredIn(container));
    assert(w1.holder_grid(container) == w.holder_grid(container)) by {
        assert forall|h: u64| w1.has_holder(h) == w.has_holder(h) by {}
    }
    let (w2, outcome) = w.store(id, container);
    assert(w2.item_map().dom() =~= w.item_map().dom());
}

/// Moving a stored item to a cell of its container's grid is refused as not
/// fitting exactly when the cell is not free for it; its own current cells
/// never block it. Where it is not refused the item is packed at the cell.
pub proof fn law_repack_ignores_own_cells(w: WorldView, id: u64, origin: UVec2)
    requires
        w.wf(),
        w.has_item(id),
        w.item_map()[id].placement is StoredIn,
        w.holder_grid(w.item_map()[id].placement->StoredIn_0) is Some,
    ensures
        ({
            let c = w.item_map()[id].placement->StoredIn_0;
            let grid = w.holder_grid(c)->0;
            let free = spec_cell_free_for(w, id, c, grid, w.item_map()[id].footprint, origin);
            &&& w.repack_error(id, origin) == Some(ItemError::DoesNotFit) <==> !free
            &&& w.repack_error(id, origin) is None <==> free
        }),
{
    lemma_item_map_key(w, id);
    let c = w.item_map()[id].placement->StoredIn_0;
    let grid = w.holder_grid(c)->0;
    lemma_fits_is_free(w, id, c, grid, w.item_map()[id].footprint);
}

/// A holder without a grid picks up every candidate in range.
pub proof fn law_gridless_pickup_takes_all(occupied: Seq<(UVec2, UVec2)>, candidates: Seq<PickupCandidate>)
    ensures
        spec_plan_pickups(None, occupied, candidates) == candidates.map_values(|c: PickupCandidate| c.0),
    decreases candidates.len(),
{
    if candidates.len() > 0 {
        law_gridless_pickup_takes_all(occupied, candidates.drop_first());
        assert(spec_plan_pickups(None, occupied, candidates) =~= candidates.map_values(|c: PickupCandidate| c.0));
    }
}

/// A gridded holder plans candidates one at a time: the first one is taken
/// exactly when its footprint is not empty and fits at some free cell, and
/// then the rest are planned with that cell taken by its whole footprint;
/// otherwise it is skipped and the rest are planned as if it were not
/// there. So the planned items can all be packed together.
pub proof fn law_pickup_counts_whole_footprints(grid: UVec2, occupied: Seq<(UVec2, UVec2)>, candidates: Seq<PickupCandidate>)
    requires
        candidates.len() > 0,
    ensures
        ({
            let c = candidates[0];
            let rest = candidates.drop_first();
            let plan = spec_plan_pickups(Some(grid), occupied, candidates);
            let room = !c.1.is_degenerate() && exists|s: UVec2| #[trigger] spec_fits_at(grid, occupied, c.1, s);
            &&& room ==> exists|s: UVec2| #[trigger] spec_fits_at(grid, occupied, c.1, s)
                && plan == seq![c.0] + spec_plan_pickups(Some(grid), occupied.push((s, c.1)), rest)
            &&& !room ==> plan == spec_plan_pickups(Some(grid), occupied, rest)
        }),
{
    let c = candidates[0];
    lemma_find_free_slot_complete(grid, occupied, c.1, c.2);
    match spec_find_free_slot(grid, occupied, c.1, c.2) {
        Some(s) => {
            assert(spec_fits_at(grid, occupied, c.1, s));
        },
        None => {},
    }
}

/// A drag lands where the pointer is released when that is on the grid for
/// the footprint; a target off the grid is pulled back to the nearest edge
/// on each axis, so the footprint always stays inside the grid.
pub proof fn law_drag_lands_where_dropped(grid: UVec2, footprint: UVec2, target_x: int, target_y: int)
    requires
        !footprint.is_degenerate(),
        !footprint.exceeds(grid),
    ensures
        ({
            let t = spec_drag_target(grid, footprint, target_x, target_y);
            &&& spec_in_bounds(grid, footprint, t)
            &&& 0 <= target_x <= grid.x - footprint.x ==> t.x == target_x
            &&& 0 <= target_y <= grid.y - footprint.y ==> t.y == target_y
            &&& target_x < 0 ==> t.x == 0
            &&& target_y < 0 ==> t.y == 0
            &&& target_x > grid.x - footprint.x ==> t.x == grid.x - footprint.x
            &&& target_y > grid.y - footprint.y ==> t.y == grid.y - footprint.y
        }),
{
}

} // verus!
