use vstd::prelude::*;

use crate::grid::UVec2;
use crate::inventory::{
    find_free_slot, fits_at, spec_find_free_slot, spec_fits_at, spec_in_bounds, spec_is_first_fit,
    spec_rects_overlap, InventoryGrid, ItemFootprint,
};
use crate::state::Placement;

verus! {

/// One item as the placement logic sees it.
#[derive(Clone, Copy, Debug, PartialEq, Eq, Structural)]
pub struct ItemRecord {
    /// The item's entity id.
    pub id: u64,
    pub placement: Placement,
    /// How many grid cells the item takes up.
    pub footprint: UVec2,
    /// The cell the item was last packed at. It is kept while the item is
    /// out of the container so that re-stowing returns it to the same spot.
    pub packed: Option<UVec2>,
}

/// An entity that can equip or store items: a pawn, a chest.
#[derive(Clone, Copy, Debug, PartialEq, Eq, Structural)]
pub struct HolderRecord {
    /// The holder's entity id.
    pub id: u64,
    /// The size of the holder's storage grid, if its storage is a grid.
    pub grid: Option<UVec2>,
}

/// The placement state of every item and holder. Item records are kept in
/// the order in which their current link was made, so the items a holder
/// carries are listed oldest link first.
pub struct ItemWorld {
    items: Vec<ItemRecord>,
    holders: Vec<HolderRecord>,
}

/// The mathematical content of an [`ItemWorld`].
pub struct WorldView {
    pub items: Seq<ItemRecord>,
    pub holders: Seq<HolderRecord>,
}

impl View for ItemWorld {
    type V = WorldView;

    closed spec fn view(&self) -> WorldView {
        WorldView { items: self.items@, holders: self.holders@ }
    }
}

/// `r` counts as taking up cells of `container`'s grid for an item other
/// than `except`.
pub open spec fn spec_occupies(r: ItemRecord, container: u64, except: u64) -> bool {
    &&& r.id != except
    &&& r.placement == Placement::StoredIn(container)
    &&& r.packed is Some
}

/// The rectangles `(origin, size)` that the items stored in `container`,
/// other than `except`, take up, in record order.
pub open spec fn spec_occupied(items: Seq<ItemRecord>, container: u64, except: u64) -> Seq<(UVec2, UVec2)>
    decreases items.len(),
{
    if items.len() == 0 {
        Seq::empty()
    } else {
        let rest = spec_occupied(items.drop_last(), container, except);
        let r = items.last();
        if spec_occupies(r, container, except) {
            rest.push((r.packed->0, r.footprint))
        } else {
            rest
        }
    }
}

/// Fitting against [`spec_occupied`] is fitting against every other item
/// stored in the container.
pub proof fn lemma_fits_occupied(
    items: Seq<ItemRecord>,
    container: u64,
    except: u64,
    grid: UVec2,
    footprint: UVec2,
    origin: UVec2,
)
    ensures
        spec_fits_at(grid, spec_occupied(items, container, except), footprint, origin) <==> {
            &&& spec_in_bounds(grid, footprint, origin)
            &&& forall|i: int| 0 <= i < items.len() && spec_occupies(#[trigger] items[i], container, except)
                ==> !spec_rects_overlap(origin, footprint, items[i].packed->0, items[i].footprint)
        },
    decreases items.len(),
{
    if items.len() > 0 {
        let init = items.drop_last();
        lemma_fits_occupied(init, container, except, grid, footprint, origin);
        let rest = spec_occupied(init, container, except);
        let r = items.last();
        if spec_occupies(r, container, except) {
            let occ = rest.push((r.packed->0, r.footprint));
            assert(spec_fits_at(grid, occ, footprint, origin) <==> (spec_fits_at(grid, rest, footprint, origin)
                && !spec_rects_overlap(origin, footprint, r.packed->0, r.footprint))) by {
                if spec_fits_at(grid, rest, footprint, origin) && !spec_rects_overlap(origin, footprint, r.packed->0, r.footprint) {
                    assert forall|k: int| 0 <= k < occ.len() implies
                        !spec_rects_overlap(origin, footprint, #[trigger] occ[k].0, occ[k].1) by {
                        if k < rest.len() {
                            assert(occ[k] == rest[k]);
                        } else {
                            assert(occ[k] == (r.packed->0, r.footprint));
                        }
                    }
                }
                if spec_fits_at(grid, occ, footprint, origin) {
                    assert forall|k: int| 0 <= k < rest.len() implies
                        !spec_rects_overlap(origin, footprint, #[trigger] rest[k].0, rest[k].1) by {
                        assert(occ[k] == rest[k]);
                    }
                    assert(occ[occ.len() - 1] == (r.packed->0, r.footprint));
                    assert(!spec_rects_overlap(origin, footprint, occ[occ.len() - 1].0, occ[occ.len() - 1].1));
                }
            }
        }
        assert forall|i: int| 0 <= i < init.len() implies #[trigger] init[i] == items[i] by {}
        if spec_in_bounds(grid, footprint, origin) && (forall|i: int| 0 <= i < init.len() && spec_occupies(#[trigger] init[i], container, except)
                ==> !spec_rects_overlap(origin, footprint, init[i].packed->0, init[i].footprint))
            && (spec_occupies(r, container, except) ==> !spec_rects_overlap(origin, footprint, r.packed->0, r.footprint)) {
            assert forall|i: int| 0 <= i < items.len() && spec_occupies(#[trigger] items[i], container, except)
                implies !spec_rects_overlap(origin, footprint, items[i].packed->0, items[i].footprint) by {
                if i < init.len() {
                    assert(init[i] == items[i]);
                }
            }
        }
    }
}

impl WorldView {
    pub open spec fn has_item(self, id: u64) -> bool {
        exists|i: int| 0 <= i < self.items.len() && self.items[i].id == id
    }

    pub open spec fn item_index(self, id: u64) -> int {
        choose|i: int| 0 <= i < self.items.len() && self.items[i].id == id
    }

    /// The record of item `id`; meaningful when [`Self::has_item`] holds.
    pub open spec fn item(self, id: u64) -> ItemRecord {
        self.items[self.item_index(id)]
    }

    pub open spec fn has_holder(self, id: u64) -> bool {
        exists|i: int| 0 <= i < self.holders.len() && self.holders[i].id == id
    }

    pub open spec fn holder_index(self, id: u64) -> int {
        choose|i: int| 0 <= i < self.holders.len() && self.holders[i].id == id
    }

    /// The storage grid of holder `id`, if it is a known holder with a grid.
    pub open spec fn holder_grid(self, id: u64) -> Option<UVec2> {
        if self.has_holder(id) {
            self.holders[self.holder_index(id)].grid
        } else {
            None
        }
    }

    /// The items by entity id.
    pub open spec fn item_map(self) -> Map<u64, ItemRecord> {
        Map::new(|id: u64| self.has_item(id), |id: u64| self.item(id))
    }

    /// Entity ids are unique among items and among holders. One entity may
    /// be both an item and a holder: a bag that is carried and holds items.
    pub open spec fn ids_unique(self) -> bool {
        &&& forall|i: int, j: int| 0 <= i < self.items.len() && 0 <= j < self.items.len() && i != j
            ==> #[trigger] self.items[i].id != #[trigger] self.items[j].id
        &&& forall|i: int, j: int| 0 <= i < self.holders.len() && 0 <= j < self.holders.len() && i != j
            ==> #[trigger] self.holders[i].id != #[trigger] self.holders[j].id
    }

    /// No item is equipped by or stored in itself.
    pub open spec fn no_self_links(self) -> bool {
        forall|id: u64| #[trigger] self.item_map().contains_key(id)
            ==> self.item_map()[id].placement.spec_link() != Some(id)
    }

    /// Grids hold at least one cell.
    pub open spec fn grids_nonempty(self) -> bool {
        forall|i: int| 0 <= i < self.holders.len() && (#[trigger] self.holders[i]).grid is Some
            ==> self.holders[i].grid->0.x > 0 && self.holders[i].grid->0.y > 0
    }

    /// `r` is stored in a container whose storage is a grid.
    pub open spec fn in_grid(self, r: ItemRecord) -> bool {
        &&& r.placement is StoredIn
        &&& self.holder_grid(r.placement->StoredIn_0) is Some
    }

    /// Every item that is equipped or stored is linked to a known holder.
    pub open spec fn links_valid(self) -> bool {
        forall|id: u64| #[trigger] self.item_map().contains_key(id) && self.item_map()[id].placement.spec_link() is Some
            ==> self.has_holder(self.item_map()[id].placement.spec_link()->0)
    }

    /// A holder equips at most one item at a time.
    pub open spec fn single_equipped(self) -> bool {
        forall|a: u64, b: u64| #[trigger] self.item_map().contains_key(a) && #[trigger] self.item_map().contains_key(b)
            && a != b && self.item_map()[a].placement is EquippedBy
            ==> self.item_map()[b].placement != self.item_map()[a].placement
    }

    /// Every item stored in a gridded container takes up at least one cell
    /// and is packed inside the grid, and no two items in the same grid
    /// overlap.
    pub open spec fn packing_valid(self) -> bool {
        &&& forall|a: u64| #[trigger] self.item_map().contains_key(a) && self.in_grid(self.item_map()[a]) ==> {
            &&& !self.item_map()[a].footprint.is_degenerate()
            &&& self.item_map()[a].packed is Some
            &&& spec_in_bounds(
                self.holder_grid(self.item_map()[a].placement->StoredIn_0)->0,
                self.item_map()[a].footprint,
                self.item_map()[a].packed->0,
            )
        }
        &&& forall|a: u64, b: u64| #[trigger] self.item_map().contains_key(a) && #[trigger] self.item_map().contains_key(b)
            && a != b && self.in_grid(self.item_map()[a])
            && self.item_map()[b].placement == self.item_map()[a].placement
            ==> !spec_rects_overlap(
                self.item_map()[a].packed->0,
                self.item_map()[a].footprint,
                self.item_map()[b].packed->0,
                self.item_map()[b].footprint,
            )
    }

    /// The world's invariant. Packing validity is kept apart: every
    /// transition keeps it, but giving a packed item a footprint that no
    /// longer fits where it lies breaks it, as it does in the game.
    pub open spec fn wf(self) -> bool {
        &&& self.ids_unique()
        &&& self.grids_nonempty()
        &&& self.links_valid()
        &&& self.no_self_links()
        &&& self.single_equipped()
    }
}

/// Under unique ids, the record found for `items[i].id` is `items[i]`.
pub proof fn lemma_item_index(w: WorldView, i: int)
    requires
        w.ids_unique(),
        0 <= i < w.items.len(),
    ensures
        w.has_item(w.items[i].id),
        w.item_index(w.items[i].id) == i,
        w.item(w.items[i].id) == w.items[i],
{
    let k = w.item_index(w.items[i].id);
    assert(0 <= k < w.items.len() && w.items[k].id == w.items[i].id);
}

/// Under unique ids, the holder found for `holders[i].id` is `holders[i]`.
pub proof fn lemma_holder_index(w: WorldView, i: int)
    requires
        w.ids_unique(),
        0 <= i < w.holders.len(),
    ensures
        w.has_holder(w.holders[i].id),
        w.holder_index(w.holders[i].id) == i,
        w.holder_grid(w.holders[i].id) == w.holders[i].grid,
{
    let k = w.holder_index(w.holders[i].id);
    assert(0 <= k < w.holders.len() && w.holders[k].id == w.holders[i].id);
}

/// The map entry of `items[i]` is `items[i]`.
pub proof fn lemma_item_map_entry(w: WorldView, i: int)
    requires
        w.ids_unique(),
        0 <= i < w.items.len(),
    ensures
        w.item_map().contains_key(w.items[i].id),
        w.item_map()[w.items[i].id] == w.items[i],
{
    lemma_item_index(w, i);
}

/// Every key of the item map is the id of its record.
pub proof fn lemma_item_map_key(w: WorldView, id: u64)
    requires
        w.item_map().contains_key(id),
    ensures
        w.item_map()[id].id == id,
        0 <= w.item_index(id) < w.items.len(),
        w.items[w.item_index(id)].id == id,
{
}

impl WorldView {
    /// `self` with record `i` replaced by `r`.
    pub open spec fn with_record(self, i: int, r: ItemRecord) -> WorldView {
        WorldView { items: self.items.update(i, r), holders: self.holders }
    }

    /// `self` with record `i` moved to the end with placement `p`: a new link
    /// is the youngest.
    pub open spec fn relink(self, i: int, p: Placement) -> WorldView {
        let r = self.items[i];
        WorldView {
            items: self.items.remove(i).push(ItemRecord { id: r.id, placement: p, footprint: r.footprint, packed: r.packed }),
            holders: self.holders,
        }
    }
}

/// Replacing a record by one with the same id is an insert into the map.
pub proof fn lemma_with_record(w: WorldView, i: int, r: ItemRecord)
    requires
        w.ids_unique(),
        0 <= i < w.items.len(),
        r.id == w.items[i].id,
    ensures
        w.with_record(i, r).ids_unique(),
        w.with_record(i, r).item_map() == w.item_map().insert(r.id, r),
{
    let w2 = w.with_record(i, r);
    assert forall|k: int| 0 <= k < w2.items.len() implies #[trigger] w2.items[k].id == w.items[k].id by {}
    assert(w2.ids_unique());
    assert forall|id: u64| w2.item_map().contains_key(id) <==> w.item_map().insert(r.id, r).contains_key(id) by {
        if w2.item_map().contains_key(id) {
            let k = w2.item_index(id);
            assert(w.items[k].id == id);
        }
        if w.item_map().contains_key(id) {
            let k = w.item_index(id);
            assert(w2.items[k].id == id);
        }
        if id == r.id {
            assert(w2.items[i].id == id);
        }
    }
    assert forall|id: u64| #[trigger] w2.item_map().contains_key(id) implies w2.item_map()[id] == w.item_map().insert(r.id, r)[id] by {
        let k = w2.item_index(id);
        lemma_item_index(w2, k);
        if k != i {
            lemma_item_index(w, k);
        }
    }
    assert(w2.item_map() =~= w.item_map().insert(r.id, r));
}

/// Moving a record to the end with a new placement is an insert into the map.
pub proof fn lemma_relink(w: WorldView, i: int, p: Placement)
    requires
        w.ids_unique(),
        0 <= i < w.items.len(),
    ensures
        ({
            let r = w.items[i];
            let r2 = ItemRecord { id: r.id, placement: p, footprint: r.footprint, packed: r.packed };
            let w2 = w.relink(i, p);
            &&& w2.ids_unique()
            &&& w2.items.len() == w.items.len()
            &&& w2.holders == w.holders
            &&& w2.items.last() == r2
            &&& w2.item_map() == w.item_map().insert(r.id, r2)
        }),
{
    let r = w.items[i];
    let r2 = ItemRecord { id: r.id, placement: p, footprint: r.footprint, packed: r.packed };
    let w2 = w.relink(i, p);
    let n = w.items.len();
    assert forall|k: int| 0 <= k < n implies #[trigger] w2.items[k].id == w.items[if k == n - 1 { i } else if k < i { k } else { k + 1 }].id by {}
    assert forall|a: int, b: int| 0 <= a < n && 0 <= b < n && a != b implies
        #[trigger] w2.items[a].id != #[trigger] w2.items[b].id by {
        assert(w2.items[a].id == w.items[if a == n - 1 { i } else if a < i { a } else { a + 1 }].id);
        assert(w2.items[b].id == w.items[if b == n - 1 { i } else if b < i { b } else { b + 1 }].id);
    }
    assert(w2.ids_unique());
    assert forall|id: u64| w2.item_map().contains_key(id) <==> w.item_map().insert(r.id, r2).contains_key(id) by {
        if w2.item_map().contains_key(id) {
            let k = w2.item_index(id);
            assert(w2.items[k].id == w.items[if k == n - 1 { i } else if k < i { k } else { k + 1 }].id);
        }
        if w.item_map().contains_key(id) {
            let k = w.item_index(id);
            let k2 = if k == i { n - 1 } else if k < i { k } else { k - 1 };
            assert(w2.items[k2].id == w.items[if k2 == n - 1 { i } else if k2 < i { k2 } else { k2 + 1 }].id);
        }
        if id == r.id {
            assert(w2.items[n - 1].id == id);
        }
    }
    assert forall|id: u64| #[trigger] w2.item_map().contains_key(id) implies w2.item_map()[id] == w.item_map().insert(r.id, r2)[id] by {
        let k = w2.item_index(id);
        lemma_item_index(w2, k);
        if k != n - 1 {
            let k0 = if k < i { k } else { k + 1 };
            assert(w2.items[k] == w.items[k0]);
            lemma_item_index(w, k0);
        }
    }
    assert(w2.item_map() =~= w.item_map().insert(r.id, r2));
}

/// What became of an item that was put into a container.
#[derive(Clone, Copy, Debug, PartialEq, Eq, Structural)]
pub enum StoreOutcome {
    /// The container has no grid; the item is stored without a cell.
    Kept,
    /// The item was packed at this cell of the container's grid.
    Packed(UVec2),
    /// The grid had no room: the item was put back on the ground, at the
    /// container.
    Refused,
}

/// The item that an equip pushed out of the holder's hands into its storage.
#[derive(Clone, Copy, Debug, PartialEq, Eq, Structural)]
pub struct Demotion {
    pub item: u64,
    pub outcome: StoreOutcome,
}

/// A slot answer is inside the grid and free.
pub proof fn lemma_free_slot_fits(grid: UVec2, occupied: Seq<(UVec2, UVec2)>, footprint: UVec2, preferred: Option<UVec2>)
    ensures
        spec_find_free_slot(grid, occupied, footprint, preferred) matches Some(o)
            ==> spec_fits_at(grid, occupied, footprint, o) && !footprint.is_degenerate(),
{
    if !(footprint.is_degenerate() || footprint.exceeds(grid)) && !(preferred is Some
        && spec_fits_at(grid, occupied, footprint, preferred->0))
        && exists|o: UVec2| spec_is_first_fit(grid, occupied, footprint, o) {
        let c = choose|o: UVec2| spec_is_first_fit(grid, occupied, footprint, o);
        assert(spec_is_first_fit(grid, occupied, footprint, c));
    }
}

impl WorldView {
    /// Every invariant but the one-equipped-item rule.
    pub open spec fn wf_loose(self) -> bool {
        &&& self.ids_unique()
        &&& self.grids_nonempty()
        &&& self.links_valid()
        &&& self.no_self_links()
    }

    /// Packs the youngest record, just linked into `container`: into the
    /// remembered cell if it is free, else the first free cell; without a
    /// free cell the item is put back on the ground.
    pub open spec fn pack_last(self, container: u64) -> (WorldView, StoreOutcome) {
        let n = self.items.len() - 1;
        let r = self.items[n];
        match self.holder_grid(container) {
            None => (self, StoreOutcome::Kept),
            Some(grid) => match spec_find_free_slot(grid, spec_occupied(self.items, container, r.id), r.footprint, r.packed) {
                Some(o) => (
                    self.with_record(n, ItemRecord { id: r.id, placement: r.placement, footprint: r.footprint, packed: Some(o) }),
                    StoreOutcome::Packed(o),
                ),
                None => (
                    self.with_record(n, ItemRecord { id: r.id, placement: Placement::OnGround, footprint: r.footprint, packed: r.packed }),
                    StoreOutcome::Refused,
                ),
            },
        }
    }

    /// A link of item `id` to itself is dropped: if the item was linked the
    /// same way before (equipped when `equip`, else stored), that link is
    /// gone too and the item lies on the ground; otherwise it stays where
    /// it was.
    pub open spec fn self_link(self, id: u64, equip: bool) -> WorldView {
        let p = self.item(id).placement;
        if (equip && p is EquippedBy) || (!equip && p is StoredIn) {
            self.drop(id)
        } else {
            self
        }
    }

    /// Item `id` is put into `container` and packed there. Storing an item
    /// in itself is refused as [`Self::self_link`] says.
    pub open spec fn store(self, id: u64, container: u64) -> (WorldView, StoreOutcome) {
        if id == container {
            (self.self_link(id, false), StoreOutcome::Refused)
        } else {
            self.relink(self.item_index(id), Placement::StoredIn(container)).pack_last(container)
        }
    }

    /// Some item other than `except` is equipped by `holder`.
    pub open spec fn other_equipped(self, holder: u64, except: u64) -> bool {
        exists|x: u64| #[trigger] self.item_map().contains_key(x) && x != except
            && self.item_map()[x].placement == Placement::EquippedBy(holder)
    }

    pub open spec fn other_equipped_id(self, holder: u64, except: u64) -> u64 {
        choose|x: u64| #[trigger] self.item_map().contains_key(x) && x != except
            && self.item_map()[x].placement == Placement::EquippedBy(holder)
    }

    /// Item `id` is equipped by `holder`; whatever the holder had equipped
    /// before is stowed into the holder's own storage, after `id` has left it.
    /// Equipping an item to itself is refused as [`Self::self_link`] says,
    /// and what the item itself had equipped is still stowed into it.
    pub open spec fn equip(self, id: u64, holder: u64) -> (WorldView, Option<Demotion>) {
        let w1 = if id == holder {
            self.self_link(id, true)
        } else {
            self.relink(self.item_index(id), Placement::EquippedBy(holder))
        };
        if w1.other_equipped(holder, id) {
            let d = w1.other_equipped_id(holder, id);
            let (w2, outcome) = w1.store(d, holder);
            (w2, Some(Demotion { item: d, outcome }))
        } else {
            (w1, None)
        }
    }
}

/// Fitting against the occupied cells of a container, in terms of the map.
pub proof fn lemma_fits_occupied_map(w: WorldView, container: u64, except: u64, grid: UVec2, footprint: UVec2, origin: UVec2)
    requires
        w.ids_unique(),
    ensures
        spec_fits_at(grid, spec_occupied(w.items, container, except), footprint, origin) <==> {
            &&& spec_in_bounds(grid, footprint, origin)
            &&& forall|x: u64| #[trigger] w.item_map().contains_key(x) && spec_occupies(w.item_map()[x], container, except)
                ==> !spec_rects_overlap(origin, footprint, w.item_map()[x].packed->0, w.item_map()[x].footprint)
        },
{
    lemma_fits_occupied(w.items, container, except, grid, footprint, origin);
    let m = w.item_map();
    if spec_fits_at(grid, spec_occupied(w.items, container, except), footprint, origin) {
        assert forall|x: u64| #[trigger] m.contains_key(x) && spec_occupies(m[x], container, except)
            implies !spec_rects_overlap(origin, footprint, m[x].packed->0, m[x].footprint) by {
            let k = w.item_index(x);
            lemma_item_index(w, k);
            assert(spec_occupies(w.items[k], container, except));
        }
    } else if spec_in_bounds(grid, footprint, origin) && forall|x: u64| #[trigger] m.contains_key(x) && spec_occupies(m[x], container, except)
                ==> !spec_rects_overlap(origin, footprint, m[x].packed->0, m[x].footprint) {
        assert forall|i: int| 0 <= i < w.items.len() && spec_occupies(#[trigger] w.items[i], container, except)
            implies !spec_rects_overlap(origin, footprint, w.items[i].packed->0, w.items[i].footprint) by {
            lemma_item_map_entry(w, i);
        }
    }
}

/// Storing keeps every invariant but possibly the one-equipped rule, and
/// changes only the stored item, which ends up unequipped.
pub proof fn lemma_store(w: WorldView, id: u64, container: u64)
    requires
        w.wf_loose(),
        w.has_item(id),
        w.has_holder(container),
        id != container,
    ensures
        ({
            let (w2, outcome) = w.store(id, container);
            &&& w2.wf_loose()
            &&& w.packing_valid() ==> w2.packing_valid()
            &&& w2.holders == w.holders
            &&& w2.items.len() == w.items.len()
            &&& w2.item_map() == w.item_map().insert(id, w2.item_map()[id])
            &&& w2.item_map()[id].id == id
            &&& w2.item_map()[id].footprint == w.item_map()[id].footprint
            &&& !(w2.item_map()[id].placement is EquippedBy)
            &&& match outcome {
                StoreOutcome::Kept => w2.item_map()[id].placement == Placement::StoredIn(container)
                    && w2.item_map()[id].packed == w.item_map()[id].packed
                    && w.holder_grid(container) is None,
                StoreOutcome::Packed(o) => w2.item_map()[id].placement == Placement::StoredIn(container)
                    && w2.item_map()[id].packed == Some(o),
                StoreOutcome::Refused => w2.item_map()[id].placement == Placement::OnGround
                    && w2.item_map()[id].packed == w.item_map()[id].packed,
            }
        }),
{
    let i = w.item_index(id);
    let r = w.items[i];
    let m = w.item_map();
    lemma_item_map_key(w, id);
    lemma_relink(w, i, Placement::StoredIn(container));
    let w1 = w.relink(i, Placement::StoredIn(container));
    let n = w1.items.len() - 1;
    let r1 = w1.items[n];
    let m1 = w1.item_map();
    assert(m1 == m.insert(id, r1));
    assert(w1.holders == w.holders);
    assert forall|h: u64| w1.holder_grid(h) == w.holder_grid(h) && w1.has_holder(h) == w.has_holder(h) by {}
    let (w2, outcome) = w1.pack_last(container);
    let r2 = w2.items[n];
    match w.holder_grid(container) {
        None => {
            assert(w2 == w1);
        },
        Some(grid) => {
            let occ = spec_occupied(w1.items, container, id);
            lemma_free_slot_fits(grid, occ, r1.footprint, r1.packed);
            lemma_with_record(w1, n, r2);
            match spec_find_free_slot(grid, occ, r1.footprint, r1.packed) {
                Some(o) => {
                    lemma_fits_occupied_map(w1, container, id, grid, r1.footprint, o);
                },
                None => {},
            }
        },
    }
    lemma_item_map_entry(w1, n);
    let m2 = w2.item_map();
    assert(m2 == m.insert(id, m2[id]));
    assert(w2.holders == w.holders);
    assert forall|h: u64| w2.holder_grid(h) == w.holder_grid(h) && w2.has_holder(h) == w.has_holder(h) by {}
    // links
    assert forall|x: u64| #[trigger] m2.contains_key(x) && m2[x].placement.spec_link() is Some
        implies w2.has_holder(m2[x].placement.spec_link()->0) by {
        if x != id {
            assert(m.contains_key(x));
        }
    }
    assert forall|x: u64| #[trigger] m2.contains_key(x) implies m2[x].placement.spec_link() != Some(x) by {
        if m.contains_key(x) {
        }
    }
    if w.packing_valid() {
        // packing: cells in bounds
        assert forall|a: u64| #[trigger] m2.contains_key(a) && w2.in_grid(m2[a]) implies {
            &&& !m2[a].footprint.is_degenerate()
            &&& m2[a].packed is Some
            &&& spec_in_bounds(w2.holder_grid(m2[a].placement->StoredIn_0)->0, m2[a].footprint, m2[a].packed->0)
        } by {
            if a != id {
                assert(m.contains_key(a) && w.in_grid(m[a]));
            }
        }
        // packing: no overlap
        assert forall|a: u64, b: u64| #[trigger] m2.contains_key(a) && #[trigger] m2.contains_key(b)
            && a != b && w2.in_grid(m2[a]) && m2[b].placement == m2[a].placement
            implies !spec_rects_overlap(m2[a].packed->0, m2[a].footprint, m2[b].packed->0, m2[b].footprint) by {
            if a != id && b != id {
                assert(m.contains_key(a) && m.contains_key(b) && w.in_grid(m[a]));
            } else if a == id {
                assert(m.contains_key(b) && w.in_grid(m[b]));
                assert(m1[b] == m[b]);
                assert(spec_occupies(m1[b], container, id));
            } else {
                assert(m.contains_key(a) && w.in_grid(m[a]));
                assert(m1[a] == m[a]);
                assert(spec_occupies(m1[a], container, id));
            }
        }
    }
}

/// Giving an item a placement outside any grid keeps the loose invariant.
pub proof fn lemma_unstore_loose(w: WorldView, w2: WorldView, id: u64, r2: ItemRecord)
    requires
        w.wf_loose(),
        w2.ids_unique(),
        w2.holders == w.holders,
        w.has_item(id),
        w2.item_map() == w.item_map().insert(id, r2),
        r2.id == id,
        !(r2.placement is StoredIn),
        r2.placement.spec_link() is Some ==> w.has_holder(r2.placement.spec_link()->0),
        r2.placement.spec_link() != Some(id),
    ensures
        w2.wf_loose(),
        w.packing_valid() ==> w2.packing_valid(),
{
    let m = w.item_map();
    let m2 = w2.item_map();
    assert forall|h: u64| w2.holder_grid(h) == w.holder_grid(h) && w2.has_holder(h) == w.has_holder(h) by {}
    assert forall|x: u64| #[trigger] m2.contains_key(x) && m2[x].placement.spec_link() is Some
        implies w2.has_holder(m2[x].placement.spec_link()->0) by {
        if x != id {
            assert(m.contains_key(x));
        }
    }
    assert forall|x: u64| #[trigger] m2.contains_key(x) implies m2[x].placement.spec_link() != Some(x) by {
        if m.contains_key(x) {
        }
    }
    if w.packing_valid() {
        assert forall|a: u64| #[trigger] m2.contains_key(a) && w2.in_grid(m2[a]) implies {
            &&& !m2[a].footprint.is_degenerate()
            &&& m2[a].packed is Some
            &&& spec_in_bounds(w2.holder_grid(m2[a].placement->StoredIn_0)->0, m2[a].footprint, m2[a].packed->0)
        } by {
            assert(m.contains_key(a) && w.in_grid(m[a]));
        }
        assert forall|a: u64, b: u64| #[trigger] m2.contains_key(a) && #[trigger] m2.contains_key(b)
            && a != b && w2.in_grid(m2[a]) && m2[b].placement == m2[a].placement
            implies !spec_rects_overlap(m2[a].packed->0, m2[a].footprint, m2[b].packed->0, m2[b].footprint) by {
            assert(m.contains_key(a) && m.contains_key(b) && w.in_grid(m[a]));
        }
    }
}

/// Equipping keeps every invariant; it changes the equipped item and, at
/// most, the one item it displaced.
pub proof fn lemma_equip(w: WorldView, id: u64, holder: u64)
    requires
        w.wf(),
        w.has_item(id),
        w.has_holder(holder),
        id != holder,
    ensures
        ({
            let (w2, demotion) = w.equip(id, holder);
            &&& w2.wf()
            &&& w.packing_valid() ==> w2.packing_valid()
            &&& w2.holders == w.holders
            &&& w2.items.len() == w.items.len()
            &&& w2.item_map()[id] == (ItemRecord {
                id,
                placement: Placement::EquippedBy(holder),
                footprint: w.item_map()[id].footprint,
                packed: w.item_map()[id].packed,
            })
            &&& match demotion {
                None => w2.item_map() == w.item_map().insert(id, w2.item_map()[id])
                    && !w.other_equipped(holder, id),
                Some(d) => {
                    &&& d.item != id
                    &&& w.item_map().contains_key(d.item)
                    &&& w.item_map()[d.item].placement == Placement::EquippedBy(holder)
                    &&& w2.item_map() == w.item_map().insert(id, w2.item_map()[id]).insert(d.item, w2.item_map()[d.item])
                }
            }
        }),
{
    let i = w.item_index(id);
    let m = w.item_map();
    lemma_item_map_key(w, id);
    lemma_relink(w, i, Placement::EquippedBy(holder));
    let w1 = w.relink(i, Placement::EquippedBy(holder));
    let r1 = w1.items.last();
    let m1 = w1.item_map();
    lemma_unstore_loose(w, w1, id, r1);
    lemma_item_map_entry(w1, w1.items.len() - 1);
    assert forall|x: u64| #[trigger] m1.contains_key(x) && x != id && m1[x].placement == Placement::EquippedBy(holder)
        implies m.contains_key(x) && m[x] == m1[x] by {}
    if w1.other_equipped(holder, id) {
        let d = w1.other_equipped_id(holder, id);
        assert(m1.contains_key(d) && d != id);
        assert(m1[d].placement.spec_link() == Some(holder));
        lemma_store(w1, d, holder);
        let (w2, outcome) = w1.store(d, holder);
        let m2 = w2.item_map();
        assert forall|a: u64, b: u64| #[trigger] m2.contains_key(a) && #[trigger] m2.contains_key(b)
            && a != b && m2[a].placement is EquippedBy
            implies m2[b].placement != m2[a].placement by {
            if m2[b].placement == m2[a].placement {
                if a != id && b != id {
                    assert(m.contains_key(a) && m.contains_key(b));
                } else if a == id {
                    assert(m.contains_key(b) && m.contains_key(d) && m[b].placement == m[d].placement);
                } else {
                    assert(m.contains_key(a) && m.contains_key(d) && m[a].placement == m[d].placement);
                }
            }
        }
        assert(m2 =~= m.insert(id, m2[id]).insert(d, m2[d]));
    } else {
        assert forall|a: u64, b: u64| #[trigger] m1.contains_key(a) && #[trigger] m1.contains_key(b)
            && a != b && m1[a].placement is EquippedBy
            implies m1[b].placement != m1[a].placement by {
            if m1[b].placement == m1[a].placement {
                if a != id && b != id {
                    assert(m.contains_key(a) && m.contains_key(b));
                } else if a == id {
                    assert(m1.contains_key(b) && b != id && m1[b].placement == Placement::EquippedBy(holder));
                } else {
                    assert(m1.contains_key(a) && a != id && m1[a].placement == Placement::EquippedBy(holder));
                }
            }
        }
        assert forall|x: u64| #[trigger] m.contains_key(x) && x != id implies m[x].placement != Placement::EquippedBy(holder) by {
            assert(m1.contains_key(x) && m1[x] == m[x]);
        }
    }
}

/// Storing keeps every invariant.
pub proof fn lemma_store_wf(w: WorldView, id: u64, container: u64)
    requires
        w.wf(),
        w.has_item(id),
        w.has_holder(container),
        id != container,
    ensures
        w.store(id, container).0.wf(),
        w.packing_valid() ==> w.store(id, container).0.packing_valid(),
{
    lemma_store(w, id, container);
    let w2 = w.store(id, container).0;
    let m = w.item_map();
    let m2 = w2.item_map();
    assert forall|a: u64, b: u64| #[trigger] m2.contains_key(a) && #[trigger] m2.contains_key(b)
        && a != b && m2[a].placement is EquippedBy
        implies m2[b].placement != m2[a].placement by {
        if m2[b].placement == m2[a].placement {
            assert(a != id && b != id);
            assert(m.contains_key(a) && m.contains_key(b));
        }
    }
}

/// A refused self-link keeps every invariant and every item, and changes at
/// most the item's placement.
pub proof fn lemma_self_link_wf(w: WorldView, id: u64, equip: bool)
    requires
        w.wf(),
        w.has_item(id),
    ensures
        w.self_link(id, equip).wf(),
        w.packing_valid() ==> w.self_link(id, equip).packing_valid(),
        w.self_link(id, equip).holders == w.holders,
        w.self_link(id, equip).items.len() == w.items.len(),
        w.self_link(id, equip).item_map() == w.item_map().insert(id, w.self_link(id, equip).item_map()[id]),
        w.self_link(id, equip).item_map()[id].id == id,
        w.self_link(id, equip).item_map()[id].footprint == w.item_map()[id].footprint,
        w.self_link(id, equip).item_map()[id].packed == w.item_map()[id].packed,
{
    lemma_item_map_key(w, id);
    let p = w.item(id).placement;
    if (equip && p is EquippedBy) || (!equip && p is StoredIn) {
        lemma_drop_wf(w, id);
        let i = w.item_index(id);
        let r = w.item(id);
        lemma_with_record(w, i, ItemRecord { id: r.id, placement: Placement::OnGround, footprint: r.footprint, packed: r.packed });
    } else {
        assert(w.item_map() =~= w.item_map().insert(id, w.item_map()[id]));
    }
}

/// Equipping an item to itself keeps every invariant: the item is at most
/// put on the ground, and what it had equipped is stowed into it.
pub proof fn lemma_equip_self(w: WorldView, id: u64)
    requires
        w.wf(),
        w.has_item(id),
        w.has_holder(id),
    ensures
        ({
            let (w2, demotion) = w.equip(id, id);
            &&& w2.wf()
            &&& w.packing_valid() ==> w2.packing_valid()
            &&& w2.holders == w.holders
            &&& w2.items.len() == w.items.len()
            &&& w2.item_map().dom() == w.item_map().dom()
            &&& forall|x: u64| #[trigger] w.item_map().contains_key(x) ==> w2.item_map()[x].footprint == w.item_map()[x].footprint
            &&& demotion matches Some(d) ==> d.item != id && w.item_map().contains_key(d.item)
                && w.item_map()[d.item].placement == Placement::EquippedBy(id)
        }),
{
    lemma_self_link_wf(w, id, true);
    let w1 = w.self_link(id, true);
    let m = w.item_map();
    let m1 = w1.item_map();
    lemma_item_map_key(w, id);
    assert(m1.dom() =~= m.dom());
    if w1.other_equipped(id, id) {
        let d = w1.other_equipped_id(id, id);
        assert(m1.contains_key(d) && d != id);
        assert(m1[d].placement.spec_link() == Some(id));
        assert(m1[d] == m[d]);
        lemma_store(w1, d, id);
        let (w2, outcome) = w1.store(d, id);
        let m2 = w2.item_map();
        assert forall|a: u64, b: u64| #[trigger] m2.contains_key(a) && #[trigger] m2.contains_key(b)
            && a != b && m2[a].placement is EquippedBy
            implies m2[b].placement != m2[a].placement by {
            if m2[b].placement == m2[a].placement {
                assert(a != d && b != d);
                assert(m1.contains_key(a) && m1.contains_key(b));
            }
        }
        assert(m2.dom() =~= m.dom());
    }
}

/// Why a transition was refused. The world is then left as it was, but for
/// [`ItemError::SelfLink`].
#[derive(Clone, Copy, Debug, PartialEq, Eq, Structural)]
pub enum ItemError {
    /// No item has this id.
    UnknownItem,
    /// No holder or container has this id.
    UnknownHolder,
    /// The id already names an item (when adding an item) or a holder (when
    /// adding a holder).
    IdTaken,
    /// The item is not stored in a container.
    NotStored,
    /// The item's container has no grid.
    NoGrid,
    /// The item does not fit at the requested cell.
    DoesNotFit,
    /// An item cannot be equipped by or stored in itself. The link is
    /// dropped, and with it a link of the same kind that the item had.
    SelfLink,
}

impl WorldView {
    /// Item `id` is put on the ground; its remembered cell is kept.
    pub open spec fn drop(self, id: u64) -> WorldView {
        let r = self.item(id);
        self.with_record(self.item_index(id), ItemRecord { id: r.id, placement: Placement::OnGround, footprint: r.footprint, packed: r.packed })
    }

    /// Why repacking item `id` at `origin` is refused, if it is.
    pub open spec fn repack_error(self, id: u64, origin: UVec2) -> Option<ItemError> {
        if !self.has_item(id) {
            Some(ItemError::UnknownItem)
        } else if !(self.item(id).placement is StoredIn) {
            Some(ItemError::NotStored)
        } else if self.holder_grid(self.item(id).placement->StoredIn_0) is None {
            Some(ItemError::NoGrid)
        } else if !spec_fits_at(
            self.holder_grid(self.item(id).placement->StoredIn_0)->0,
            spec_occupied(self.items, self.item(id).placement->StoredIn_0, id),
            self.item(id).footprint,
            origin,
        ) {
            Some(ItemError::DoesNotFit)
        } else {
            None
        }
    }

    /// Item `id` is moved to cell `origin` of its container's grid.
    pub open spec fn repack(self, id: u64, origin: UVec2) -> WorldView {
        let r = self.item(id);
        self.with_record(self.item_index(id), ItemRecord { id: r.id, placement: r.placement, footprint: r.footprint, packed: Some(origin) })
    }

    /// A new item lies on the ground, never packed yet.
    pub open spec fn add_item(self, id: u64, footprint: UVec2) -> WorldView {
        WorldView {
            items: self.items.push(ItemRecord { id, placement: Placement::OnGround, footprint, packed: None }),
            holders: self.holders,
        }
    }

    /// A new holder, with a storage grid of size `grid` if given.
    pub open spec fn add_holder(self, id: u64, grid: Option<UVec2>) -> WorldView {
        WorldView { items: self.items, holders: self.holders.push(HolderRecord { id, grid }) }
    }

    /// Item `id` is gone.
    pub open spec fn despawn_item(self, id: u64) -> WorldView {
        WorldView { items: self.items.remove(self.item_index(id)), holders: self.holders }
    }

    /// A record with its link to `holder` cut: it lies on the ground.
    pub open spec fn dropped_by(r: ItemRecord, holder: u64) -> ItemRecord {
        if r.placement.spec_link() == Some(holder) {
            ItemRecord { id: r.id, placement: Placement::OnGround, footprint: r.footprint, packed: r.packed }
        } else {
            r
        }
    }

    /// Holder `holder` is gone; everything it equipped or stored lies on the ground.
    pub open spec fn despawn_holder(self, holder: u64) -> WorldView {
        WorldView {
            items: Seq::new(self.items.len(), |k: int| Self::dropped_by(self.items[k], holder)),
            holders: self.holders.remove(self.holder_index(holder)),
        }
    }
}

/// The ids of the records placed at `p`, in record order.
pub open spec fn spec_ids_placed(items: Seq<ItemRecord>, p: Placement) -> Seq<u64>
    decreases items.len(),
{
    if items.len() == 0 {
        Seq::empty()
    } else if items.last().placement == p {
        spec_ids_placed(items.drop_last(), p).push(items.last().id)
    } else {
        spec_ids_placed(items.drop_last(), p)
    }
}

/// Dropping keeps every invariant.
pub proof fn lemma_drop_wf(w: WorldView, id: u64)
    requires
        w.wf(),
        w.has_item(id),
    ensures
        w.drop(id).wf(),
        w.packing_valid() ==> w.drop(id).packing_valid(),
        w.drop(id).item_map() == w.item_map().insert(id, w.drop(id).item_map()[id]),
{
    let i = w.item_index(id);
    let r = w.item(id);
    let r2 = ItemRecord { id: r.id, placement: Placement::OnGround, footprint: r.footprint, packed: r.packed };
    lemma_item_map_key(w, id);
    lemma_with_record(w, i, r2);
    lemma_unstore_loose(w, w.drop(id), id, r2);
    let m = w.item_map();
    let m2 = w.drop(id).item_map();
    assert forall|a: u64, b: u64| #[trigger] m2.contains_key(a) && #[trigger] m2.contains_key(b)
        && a != b && m2[a].placement is EquippedBy
        implies m2[b].placement != m2[a].placement by {
        if m2[b].placement == m2[a].placement {
            assert(m.contains_key(a) && m.contains_key(b));
        }
    }
}

/// Repacking at a free cell keeps every invariant.
pub proof fn lemma_repack_wf(w: WorldView, id: u64, origin: UVec2)
    requires
        w.wf(),
        w.repack_error(id, origin) is None,
    ensures
        w.repack(id, origin).wf(),
        w.packing_valid() ==> w.repack(id, origin).packing_valid(),
        w.repack(id, origin).item_map() == w.item_map().insert(id, w.repack(id, origin).item_map()[id]),
{
    let i = w.item_index(id);
    let r = w.item(id);
    let r2 = ItemRecord { id: r.id, placement: r.placement, footprint: r.footprint, packed: Some(origin) };
    let c = r.placement->StoredIn_0;
    let grid = w.holder_grid(c)->0;
    lemma_item_map_key(w, id);
    lemma_with_record(w, i, r2);
    lemma_fits_occupied_map(w, c, id, grid, r.footprint, origin);
    let w2 = w.repack(id, origin);
    let m = w.item_map();
    let m2 = w2.item_map();
    assert forall|h: u64| w2.holder_grid(h) == w.holder_grid(h) && w2.has_holder(h) == w.has_holder(h) by {}
    assert forall|x: u64| #[trigger] m2.contains_key(x) && m2[x].placement.spec_link() is Some
        implies w2.has_holder(m2[x].placement.spec_link()->0) by {
        assert(m.contains_key(x));
    }
    assert forall|a: u64, b: u64| #[trigger] m2.contains_key(a) && #[trigger] m2.contains_key(b)
        && a != b && m2[a].placement is EquippedBy
        implies m2[b].placement != m2[a].placement by {
        assert(m.contains_key(a) && m.contains_key(b));
    }
    assert forall|x: u64| #[trigger] m2.contains_key(x) implies m2[x].placement.spec_link() != Some(x) by {
        if m.contains_key(x) {
        }
    }
    if w.packing_valid() {
        assert forall|a: u64| #[trigger] m2.contains_key(a) && w2.in_grid(m2[a]) implies {
            &&& !m2[a].footprint.is_degenerate()
            &&& m2[a].packed is Some
            &&& spec_in_bounds(w2.holder_grid(m2[a].placement->StoredIn_0)->0, m2[a].footprint, m2[a].packed->0)
        } by {
            assert(m.contains_key(a) && w.in_grid(m[a]));
        }
        assert forall|a: u64, b: u64| #[trigger] m2.contains_key(a) && #[trigger] m2.contains_key(b)
            && a != b && w2.in_grid(m2[a]) && m2[b].placement == m2[a].placement
            implies !spec_rects_overlap(m2[a].packed->0, m2[a].footprint, m2[b].packed->0, m2[b].footprint) by {
            assert(m.contains_key(a) && m.contains_key(b) && w.in_grid(m[a]));
            if a == id {
                assert(spec_occupies(m[b], c, id));
            } else if b == id {
                assert(spec_occupies(m[a], c, id));
            }
        }
    }
}

/// Adding a fresh item keeps every invariant.
pub proof fn lemma_add_item_wf(w: WorldView, id: u64, footprint: UVec2)
    requires
        w.wf(),
        !w.has_item(id),
    ensures
        w.add_item(id, footprint).wf(),
        w.packing_valid() ==> w.add_item(id, footprint).packing_valid(),
        w.add_item(id, footprint).item_map() == w.item_map().insert(
            id,
            ItemRecord { id, placement: Placement::OnGround, footprint, packed: None },
        ),
{
    let w2 = w.add_item(id, footprint);
    let r = ItemRecord { id, placement: Placement::OnGround, footprint, packed: None };
    let n: int = w.items.len() as int;
    assert forall|a: int, b: int| 0 <= a < w2.items.len() && 0 <= b < w2.items.len() && a != b implies
        #[trigger] w2.items[a].id != #[trigger] w2.items[b].id by {
        if a == n {
            assert(w.items[b].id != id);
        } else if b == n {
            assert(w.items[a].id != id);
        }
    }
    assert(w2.ids_unique());
    let m = w.item_map();
    let m2 = w2.item_map();
    assert forall|x: u64| m2.contains_key(x) <==> m.insert(id, r).contains_key(x) by {
        if m2.contains_key(x) {
            let k = w2.item_index(x);
            if k < n {
                assert(w.items[k].id == x);
            }
        }
        if m.contains_key(x) {
            let k = w.item_index(x);
            assert(w2.items[k].id == x);
        }
        if x == id {
            assert(w2.items[n].id == id);
        }
    }
    assert forall|x: u64| #[trigger] m2.contains_key(x) implies m2[x] == m.insert(id, r)[x] by {
        let k = w2.item_index(x);
        lemma_item_index(w2, k);
        if k < n {
            lemma_item_index(w, k);
        }
    }
    assert(m2 =~= m.insert(id, r));
    assert forall|h: u64| w2.holder_grid(h) == w.holder_grid(h) && w2.has_holder(h) == w.has_holder(h) by {}
    assert(w2.wf_loose()) by {
        assert forall|x: u64| #[trigger] m2.contains_key(x) && m2[x].placement.spec_link() is Some
            implies w2.has_holder(m2[x].placement.spec_link()->0) by {
            assert(m.contains_key(x));
        }
        assert forall|x: u64| #[trigger] m2.contains_key(x) implies m2[x].placement.spec_link() != Some(x) by {
            if m.contains_key(x) {
            }
        }
    }
    {
        if w.packing_valid() {
            assert forall|a: u64| #[trigger] m2.contains_key(a) && w2.in_grid(m2[a]) implies {
                &&& !m2[a].footprint.is_degenerate()
                &&& m2[a].packed is Some
                &&& spec_in_bounds(w2.holder_grid(m2[a].placement->StoredIn_0)->0, m2[a].footprint, m2[a].packed->0)
            } by {
                assert(m.contains_key(a) && w.in_grid(m[a]));
            }
            assert forall|a: u64, b: u64| #[trigger] m2.contains_key(a) && #[trigger] m2.contains_key(b)
                && a != b && w2.in_grid(m2[a]) && m2[b].placement == m2[a].placement
                implies !spec_rects_overlap(m2[a].packed->0, m2[a].footprint, m2[b].packed->0, m2[b].footprint) by {
                assert(m.contains_key(a) && m.contains_key(b) && w.in_grid(m[a]));
            }
        }
    }
    assert forall|a: u64, b: u64| #[trigger] m2.contains_key(a) && #[trigger] m2.contains_key(b)
        && a != b && m2[a].placement is EquippedBy
        implies m2[b].placement != m2[a].placement by {
        if m2[b].placement == m2[a].placement {
            assert(a != id && b != id);
            assert(m.contains_key(a) && m.contains_key(b));
        }
    }
}

/// Adding a fresh holder keeps every invariant and leaves the items alone.
pub proof fn lemma_add_holder_wf(w: WorldView, id: u64, grid: Option<UVec2>)
    requires
        w.wf(),
        !w.has_holder(id),
        grid matches Some(g) ==> g.x > 0 && g.y > 0,
    ensures
        w.add_holder(id, grid).wf(),
        w.packing_valid() ==> w.add_holder(id, grid).packing_valid(),
        w.add_holder(id, grid).item_map() == w.item_map(),
        w.add_holder(id, grid).has_holder(id),
        w.add_holder(id, grid).holder_grid(id) == grid,
        forall|h: u64| h != id ==> w.add_holder(id, grid).holder_grid(h) == #[trigger] w.holder_grid(h),
{
    let w2 = w.add_holder(id, grid);
    let n: int = w.holders.len() as int;
    assert(w2.item_map() =~= w.item_map());
    assert forall|h: u64| w2.has_holder(h) <==> (w.has_holder(h) || h == id) by {
        if w.has_holder(h) {
            let k = w.holder_index(h);
            assert(w2.holders[k] == w.holders[k]);
        }
        if h == id {
            assert(w2.holders[n].id == id);
        }
        if w2.has_holder(h) && h != id {
            let k = w2.holder_index(h);
            assert(k < n);
            assert(w.holders[k].id == h);
        }
    }
    assert forall|a: int, b: int| 0 <= a < w2.holders.len() && 0 <= b < w2.holders.len() && a != b implies
        #[trigger] w2.holders[a].id != #[trigger] w2.holders[b].id by {
        if a == n {
            assert(w.holders[b].id != id);
        } else if b == n {
            assert(w.holders[a].id != id);
        }
    }
    assert(w2.ids_unique());
    lemma_holder_index(w2, n);
    assert forall|h: u64| h != id implies w2.holder_grid(h) == #[trigger] w.holder_grid(h) by {
        if w.has_holder(h) {
            let k = w.holder_index(h);
            lemma_holder_index(w, k);
            assert(w2.holders[k] == w.holders[k]);
            lemma_holder_index(w2, k);
        }
    }
    let m = w.item_map();
    assert forall|a: u64| #[trigger] m.contains_key(a) && w2.in_grid(m[a]) implies w.in_grid(m[a]) by {
        if m[a].placement->StoredIn_0 == id {
            let k = w.item_index(a);
            lemma_item_index(w, k);
            assert(w.links_valid());
            assert(m[a].placement.spec_link() is Some);
        }
    }
    assert forall|i: int| 0 <= i < w2.holders.len() && (#[trigger] w2.holders[i]).grid is Some
        implies w2.holders[i].grid->0.x > 0 && w2.holders[i].grid->0.y > 0 by {
        if i < n {
            assert(w2.holders[i] == w.holders[i]);
        }
    }
}

/// Removing an item keeps every invariant.
pub proof fn lemma_despawn_item_wf(w: WorldView, id: u64)
    requires
        w.wf(),
        w.has_item(id),
    ensures
        w.despawn_item(id).wf(),
        w.packing_valid() ==> w.despawn_item(id).packing_valid(),
        w.despawn_item(id).item_map() == w.item_map().remove(id),
{
    let i = w.item_index(id);
    lemma_item_map_key(w, id);
    let w2 = w.despawn_item(id);
    let n: int = w.items.len() as int;
    assert forall|k: int| 0 <= k < n - 1 implies #[trigger] w2.items[k] == w.items[if k < i { k } else { k + 1 }] by {}
    assert forall|a: int, b: int| 0 <= a < n - 1 && 0 <= b < n - 1 && a != b implies
        #[trigger] w2.items[a].id != #[trigger] w2.items[b].id by {
        assert(w2.items[a] == w.items[if a < i { a } else { a + 1 }]);
        assert(w2.items[b] == w.items[if b < i { b } else { b + 1 }]);
    }
    assert(w2.ids_unique());
    let m = w.item_map();
    let m2 = w2.item_map();
    assert forall|x: u64| m2.contains_key(x) <==> m.remove(id).contains_key(x) by {
        if m2.contains_key(x) {
            let k = w2.item_index(x);
            let k0 = if k < i { k } else { k + 1 };
            assert(w2.items[k] == w.items[k0]);
            assert(w.items[k0].id == x);
            assert(k0 != i);
        }
        if m.contains_key(x) && x != id {
            let k = w.item_index(x);
            assert(k != i);
            let k2 = if k < i { k } else { k - 1 };
            assert(w2.items[k2] == w.items[k]);
        }
    }
    assert forall|x: u64| #[trigger] m2.contains_key(x) implies m2[x] == m.remove(id)[x] by {
        let k = w2.item_index(x);
        lemma_item_index(w2, k);
        let k0 = if k < i { k } else { k + 1 };
        assert(w2.items[k] == w.items[k0]);
        lemma_item_index(w, k0);
    }
    assert(m2 =~= m.remove(id));
    assert forall|h: u64| w2.holder_grid(h) == w.holder_grid(h) && w2.has_holder(h) == w.has_holder(h) by {}
    assert forall|x: u64| #[trigger] m2.contains_key(x) && m2[x].placement.spec_link() is Some
        implies w2.has_holder(m2[x].placement.spec_link()->0) by {
        assert(m.contains_key(x));
    }
    assert forall|a: u64, b: u64| #[trigger] m2.contains_key(a) && #[trigger] m2.contains_key(b)
        && a != b && m2[a].placement is EquippedBy
        implies m2[b].placement != m2[a].placement by {
        assert(m.contains_key(a) && m.contains_key(b));
    }
    assert forall|x: u64| #[trigger] m2.contains_key(x) implies m2[x].placement.spec_link() != Some(x) by {
        if m.contains_key(x) {
        }
    }
    if w.packing_valid() {
        assert forall|a: u64| #[trigger] m2.contains_key(a) && w2.in_grid(m2[a]) implies {
            &&& !m2[a].footprint.is_degenerate()
            &&& m2[a].packed is Some
            &&& spec_in_bounds(w2.holder_grid(m2[a].placement->StoredIn_0)->0, m2[a].footprint, m2[a].packed->0)
        } by {
            assert(m.contains_key(a) && w.in_grid(m[a]));
        }
        assert forall|a: u64, b: u64| #[trigger] m2.contains_key(a) && #[trigger] m2.contains_key(b)
            && a != b && w2.in_grid(m2[a]) && m2[b].placement == m2[a].placement
            implies !spec_rects_overlap(m2[a].packed->0, m2[a].footprint, m2[b].packed->0, m2[b].footprint) by {
            assert(m.contains_key(a) && m.contains_key(b) && w.in_grid(m[a]));
        }
    }
}

/// Removing a holder keeps every invariant; its items are on the ground.
pub proof fn lemma_despawn_holder_wf(w: WorldView, holder: u64)
    requires
        w.wf(),
        w.has_holder(holder),
    ensures
        w.despawn_holder(holder).wf(),
        w.packing_valid() ==> w.despawn_holder(holder).packing_valid(),
        !w.despawn_holder(holder).has_holder(holder),
        w.despawn_holder(holder).item_map().dom() == w.item_map().dom(),
        forall|x: u64| #[trigger] w.item_map().contains_key(x) ==>
            w.despawn_holder(holder).item_map()[x] == WorldView::dropped_by(w.item_map()[x], holder),
        forall|h: u64| h != holder ==> w.despawn_holder(holder).holder_grid(h) == #[trigger] w.holder_grid(h),
{
    let hi = w.holder_index(holder);
    let w2 = w.despawn_holder(holder);
    let n: int = w.items.len() as int;
    let nh: int = w.holders.len() as int;
    assert forall|k: int| 0 <= k < nh - 1 implies #[trigger] w2.holders[k] == w.holders[if k < hi { k } else { k + 1 }] by {}
    assert forall|h: u64| w2.has_holder(h) <==> (w.has_holder(h) && h != holder) by {
        if w2.has_holder(h) {
            let k = w2.holder_index(h);
            let k0 = if k < hi { k } else { k + 1 };
            assert(w2.holders[k] == w.holders[k0]);
            assert(k0 != hi);
        }
        if w.has_holder(h) && h != holder {
            let k = w.holder_index(h);
            assert(k != hi);
            let k2 = if k < hi { k } else { k - 1 };
            assert(w2.holders[k2] == w.holders[k]);
        }
    }
    assert forall|a: int, b: int| 0 <= a < nh - 1 && 0 <= b < nh - 1 && a != b implies
        #[trigger] w2.holders[a].id != #[trigger] w2.holders[b].id by {
        assert(w2.holders[a] == w.holders[if a < hi { a } else { a + 1 }]);
        assert(w2.holders[b] == w.holders[if b < hi { b } else { b + 1 }]);
    }
    assert forall|k: int| 0 <= k < n implies #[trigger] w2.items[k].id == w.items[k].id by {}
    assert forall|a: int, b: int| 0 <= a < n && 0 <= b < n && a != b implies
        #[trigger] w2.items[a].id != #[trigger] w2.items[b].id by {
        assert(w2.items[a].id == w.items[a].id && w2.items[b].id == w.items[b].id);
    }
    assert(w2.ids_unique());
    assert forall|h: u64| h != holder implies w2.holder_grid(h) == #[trigger] w.holder_grid(h) by {
        if w.has_holder(h) {
            let k = w.holder_index(h);
            lemma_holder_index(w, k);
            let k2 = if k < hi { k } else { k - 1 };
            assert(k != hi);
            assert(w2.holders[k2] == w.holders[k]);
            lemma_holder_index(w2, k2);
        }
    }
    let m = w.item_map();
    let m2 = w2.item_map();
    assert forall|x: u64| m2.contains_key(x) <==> m.contains_key(x) by {
        if m2.contains_key(x) {
            let k = w2.item_index(x);
            assert(w.items[k].id == x);
        }
        if m.contains_key(x) {
            let k = w.item_index(x);
            assert(w2.items[k].id == x);
        }
    }
    assert(m2.dom() =~= m.dom());
    assert forall|x: u64| #[trigger] m.contains_key(x) implies m2[x] == WorldView::dropped_by(m[x], holder) by {
        let k = w.item_index(x);
        lemma_item_index(w, k);
        lemma_item_index(w2, k);
    }
    assert forall|x: u64| #[trigger] m2.contains_key(x) && m2[x].placement.spec_link() is Some
        implies w2.has_holder(m2[x].placement.spec_link()->0) by {
        assert(m.contains_key(x));
    }
    assert forall|a: u64, b: u64| #[trigger] m2.contains_key(a) && #[trigger] m2.contains_key(b)
        && a != b && m2[a].placement is EquippedBy
        implies m2[b].placement != m2[a].placement by {
        assert(m.contains_key(a) && m.contains_key(b));
    }
    assert forall|x: u64| #[trigger] m2.contains_key(x) implies m2[x].placement.spec_link() != Some(x) by {
        if m.contains_key(x) {
        }
    }
    if w.packing_valid() {
        assert forall|a: u64| #[trigger] m2.contains_key(a) && w2.in_grid(m2[a]) implies {
            &&& !m2[a].footprint.is_degenerate()
            &&& m2[a].packed is Some
            &&& spec_in_bounds(w2.holder_grid(m2[a].placement->StoredIn_0)->0, m2[a].footprint, m2[a].packed->0)
        } by {
            assert(m.contains_key(a) && w.in_grid(m[a]));
        }
        assert forall|a: u64, b: u64| #[trigger] m2.contains_key(a) && #[trigger] m2.contains_key(b)
            && a != b && w2.in_grid(m2[a]) && m2[b].placement == m2[a].placement
            implies !spec_rects_overlap(m2[a].packed->0, m2[a].footprint, m2[b].packed->0, m2[b].footprint) by {
            assert(m.contains_key(a) && m.contains_key(b) && w.in_grid(m[a]));
        }
    }
    assert forall|i: int| 0 <= i < w2.holders.len() && (#[trigger] w2.holders[i]).grid is Some
        implies w2.holders[i].grid->0.x > 0 && w2.holders[i].grid->0.y > 0 by {
        assert(w2.holders[i] == w.holders[if i < hi { i } else { i + 1 }]);
    }
}

/// Where an item is packed in its container's grid.
#[derive(Clone, Copy, Debug, PartialEq, Eq, Structural)]
pub struct PackedAt(UVec2);

impl PackedAt {
    pub closed spec fn spec_origin(self) -> UVec2 {
        self.0
    }

    /// The grid cell of the item's top-left corner.
    pub fn origin(&self) -> (r: UVec2)
        ensures
            r == self.spec_origin(),
    {
        self.0
    }
}

impl ItemWorld {
    /// An empty world.
    pub fn new() -> (r: ItemWorld)
        ensures
            r@.items.len() == 0,
            r@.holders.len() == 0,
            r@.wf(),
    {
        let r = ItemWorld { items: Vec::new(), holders: Vec::new() };
        assert(r@.item_map() =~= Map::empty());
        r
    }

    fn find_item(&self, id: u64) -> (r: Option<usize>)
        ensures
            match r {
                Some(i) => i < self@.items.len() && self@.items[i as int].id == id,
                None => !self@.has_item(id),
            },
    {
        let n = self.items.len();
        let mut i: usize = 0;
        while i < n
            invariant
                n == self@.items.len(),
                i <= n,
                forall|k: int| 0 <= k < i ==> self@.items[k].id != id,
            decreases n - i,
        {
            if self.items[i].id == id {
                return Some(i);
            }
            i = i + 1;
        }
        None
    }

    fn find_holder(&self, id: u64) -> (r: Option<usize>)
        ensures
            match r {
                Some(i) => i < self@.holders.len() && self@.holders[i as int].id == id,
                None => !self@.has_holder(id),
            },
    {
        let n = self.holders.len();
        let mut i: usize = 0;
        while i < n
            invariant
                n == self@.holders.len(),
                i <= n,
                forall|k: int| 0 <= k < i ==> self@.holders[k].id != id,
            decreases n - i,
        {
            if self.holders[i].id == id {
                return Some(i);
            }
            i = i + 1;
        }
        None
    }

    /// The size of holder `holder`'s storage grid, if it is a known holder
    /// whose storage is a grid.
    pub fn grid_of(&self, holder: u64) -> (r: Option<UVec2>)
        requires
            self@.ids_unique(),
        ensures
            r == self@.holder_grid(holder),
    {
        match self.find_holder(holder) {
            Some(i) => {
                proof {
                    lemma_holder_index(self@, i as int);
                }
                self.holders[i].grid
            },
            None => None,
        }
    }

    /// The rectangles taken up in `container`'s grid by the items stored
    /// there, other than `except`, as `(origin, size)`.
    pub fn occupied_cells(&self, container: u64, except: u64) -> (r: Vec<(UVec2, UVec2)>)
        ensures
            r@ == spec_occupied(self@.items, container, except),
    {
        let ghost items = self@.items;
        let mut r: Vec<(UVec2, UVec2)> = Vec::new();
        let n = self.items.len();
        let mut i: usize = 0;
        assert(items.take(0) =~= Seq::<ItemRecord>::empty());
        while i < n
            invariant
                items == self@.items,
                n == items.len(),
                i <= n,
                r@ == spec_occupied(items.take(i as int), container, except),
            decreases n - i,
        {
            let rec = self.items[i];
            assert(items.take(i + 1).drop_last() =~= items.take(i as int));
            if rec.id != except && rec.placement == Placement::StoredIn(container) {
                if let Some(origin) = rec.packed {
                    r.push((origin, rec.footprint));
                }
            }
            i = i + 1;
        }
        assert(items.take(n as int) =~= items);
        r
    }

    /// The items placed at `p`, in record order.
    fn ids_placed(&self, p: Placement) -> (r: Vec<u64>)
        ensures
            r@ == spec_ids_placed(self@.items, p),
    {
        let ghost items = self@.items;
        let mut r: Vec<u64> = Vec::new();
        let n = self.items.len();
        let mut i: usize = 0;
        assert(items.take(0) =~= Seq::<ItemRecord>::empty());
        while i < n
            invariant
                items == self@.items,
                n == items.len(),
                i <= n,
                r@ == spec_ids_placed(items.take(i as int), p),
            decreases n - i,
        {
            let rec = self.items[i];
            assert(items.take(i + 1).drop_last() =~= items.take(i as int));
            if rec.placement == p {
                r.push(rec.id);
            }
            i = i + 1;
        }
        assert(items.take(n as int) =~= items);
        r
    }

    /// The items `holder` has equipped, oldest link first.
    pub fn equipped_by(&self, holder: u64) -> (r: Vec<u64>)
        ensures
            r@ == spec_ids_placed(self@.items, Placement::EquippedBy(holder)),
    {
        self.ids_placed(Placement::EquippedBy(holder))
    }

    /// The items `container` stores, oldest link first.
    pub fn stored_in(&self, container: u64) -> (r: Vec<u64>)
        ensures
            r@ == spec_ids_placed(self@.items, Placement::StoredIn(container)),
    {
        self.ids_placed(Placement::StoredIn(container))
    }

    /// Where item `item` is, if it exists.
    pub fn placement(&self, item: u64) -> (r: Option<Placement>)
        requires
            self@.wf(),
        ensures
            r == if self@.has_item(item) {
                Some(self@.item(item).placement)
            } else {
                None::<Placement>
            },
    {
        match self.find_item(item) {
            Some(i) => {
                proof {
                    lemma_item_index(self@, i as int);
                }
                Some(self.items[i].placement)
            },
            None => None,
        }
    }

    /// The cell item `item` is, or was last, packed at.
    pub fn packed_at(&self, item: u64) -> (r: Option<PackedAt>)
        requires
            self@.wf(),
        ensures
            match r {
                Some(p) => self@.has_item(item) && self@.item(item).packed == Some(p.spec_origin()),
                None => !self@.has_item(item) || self@.item(item).packed is None,
            },
    {
        match self.find_item(item) {
            Some(i) => {
                proof {
                    lemma_item_index(self@, i as int);
                }
                match self.items[i].packed {
                    Some(origin) => Some(PackedAt(origin)),
                    None => None,
                }
            },
            None => None,
        }
    }

    /// How many cells item `item` takes up.
    pub fn footprint(&self, item: u64) -> (r: Option<ItemFootprint>)
        requires
            self@.wf(),
        ensures
            match r {
                Some(f) => self@.has_item(item) && self@.item(item).footprint == f.0,
                None => !self@.has_item(item),
            },
    {
        match self.find_item(item) {
            Some(i) => {
                proof {
                    lemma_item_index(self@, i as int);
                }
                Some(ItemFootprint(self.items[i].footprint))
            },
            None => None,
        }
    }
}

impl ItemWorld {
    /// A new item `id`, lying on the ground, taking up `footprint` cells.
    /// The id may already name a holder: a container that is itself carried.
    pub fn add_item(&mut self, id: u64, footprint: ItemFootprint) -> (r: Result<(), ItemError>)
        requires
            old(self)@.wf(),
        ensures
            final(self)@.wf(),
            old(self)@.packing_valid() ==> final(self)@.packing_valid(),
            r is Err <==> old(self)@.has_item(id),
            r is Err ==> r == Err::<(), ItemError>(ItemError::IdTaken) && final(self)@ == old(self)@,
            r is Ok ==> final(self)@ == old(self)@.add_item(id, footprint.0),
            r is Ok ==> final(self)@.has_item(id) && final(self)@.item(id) == (ItemRecord {
                id,
                placement: Placement::OnGround,
                footprint: footprint.0,
                packed: None,
            }),
    {
        if self.find_item(id).is_some() {
            return Err(ItemError::IdTaken);
        }
        proof {
            lemma_add_item_wf(self@, id, footprint.0);
        }
        self.items.push(ItemRecord { id, placement: Placement::OnGround, footprint: footprint.0, packed: None });
        proof {
            lemma_item_map_entry(self@, self@.items.len() - 1);
        }
        Ok(())
    }

    /// A new holder `id`: a pawn or a container, whose storage is `grid` if
    /// given. The id may already name an item: a bag that holds items.
    pub fn add_holder(&mut self, id: u64, grid: Option<InventoryGrid>) -> (r: Result<(), ItemError>)
        requires
            old(self)@.wf(),
        ensures
            final(self)@.wf(),
            old(self)@.packing_valid() ==> final(self)@.packing_valid(),
            r is Err <==> old(self)@.has_holder(id),
            r is Err ==> r == Err::<(), ItemError>(ItemError::IdTaken) && final(self)@ == old(self)@,
            r is Ok ==> final(self)@ == old(self)@.add_holder(
                id,
                match grid {
                    Some(g) => Some(g.spec_size()),
                    None => None::<UVec2>,
                },
            ),
            r is Ok ==> final(self)@.has_holder(id) && final(self)@.holder_grid(id) == match grid {
                Some(g) => Some(g.spec_size()),
                None => None::<UVec2>,
            },
    {
        if self.find_holder(id).is_some() {
            return Err(ItemError::IdTaken);
        }
        let size = match grid {
            Some(g) => Some(g.size()),
            None => None,
        };
        proof {
            lemma_add_holder_wf(self@, id, size);
        }
        self.holders.push(HolderRecord { id, grid: size });
        Ok(())
    }

    /// Puts item `item` on the ground. Its remembered cell is kept.
    pub fn drop_at(&mut self, item: u64) -> (r: Result<(), ItemError>)
        requires
            old(self)@.wf(),
        ensures
            final(self)@.wf(),
            old(self)@.packing_valid() ==> final(self)@.packing_valid(),
            r is Err <==> !old(self)@.has_item(item),
            r is Err ==> r == Err::<(), ItemError>(ItemError::UnknownItem) && final(self)@ == old(self)@,
            r is Ok ==> final(self)@ == old(self)@.drop(item),
            r is Ok ==> final(self)@.has_item(item) && final(self)@.item(item).placement == Placement::OnGround,
    {
        match self.find_item(item) {
            None => Err(ItemError::UnknownItem),
            Some(i) => {
                proof {
                    lemma_item_index(self@, i as int);
                    lemma_drop_wf(self@, item);
                    lemma_item_map_key(self@, item);
                }
                let rec = self.items[i];
                self.items.set(i, ItemRecord { id: rec.id, placement: Placement::OnGround, footprint: rec.footprint, packed: rec.packed });
                proof {
                    lemma_item_map_entry(self@, i as int);
                }
                Ok(())
            },
        }
    }

    /// Repairs an item whose link to its holder was cut without a
    /// transition: an equipped or stored item is put on the ground where it
    /// is. Answers whether a repair was needed.
    pub fn unlink(&mut self, item: u64) -> (r: Result<bool, ItemError>)
        requires
            old(self)@.wf(),
        ensures
            final(self)@.wf(),
            old(self)@.packing_valid() ==> final(self)@.packing_valid(),
            r is Err <==> !old(self)@.has_item(item),
            r is Err ==> r == Err::<bool, ItemError>(ItemError::UnknownItem) && final(self)@ == old(self)@,
            r == Ok::<bool, ItemError>(true) <==> old(self)@.has_item(item)
                && old(self)@.item(item).placement.spec_link() is Some,
            r == Ok::<bool, ItemError>(true) ==> final(self)@ == old(self)@.drop(item),
            r == Ok::<bool, ItemError>(false) ==> final(self)@ == old(self)@,
    {
        match self.find_item(item) {
            None => Err(ItemError::UnknownItem),
            Some(i) => {
                proof {
                    lemma_item_index(self@, i as int);
                }
                let rec = self.items[i];
                if rec.placement.link().is_none() {
                    return Ok(false);
                }
                proof {
                    lemma_drop_wf(self@, item);
                }
                self.items.set(i, ItemRecord { id: rec.id, placement: Placement::OnGround, footprint: rec.footprint, packed: rec.packed });
                Ok(true)
            },
        }
    }

    /// Removes item `item`; the cells it took up are free again.
    pub fn despawn_item(&mut self, item: u64) -> (r: Result<(), ItemError>)
        requires
            old(self)@.wf(),
        ensures
            final(self)@.wf(),
            old(self)@.packing_valid() ==> final(self)@.packing_valid(),
            r is Err <==> !old(self)@.has_item(item),
            r is Err ==> r == Err::<(), ItemError>(ItemError::UnknownItem) && final(self)@ == old(self)@,
            r is Ok ==> final(self)@ == old(self)@.despawn_item(item),
    {
        match self.find_item(item) {
            None => Err(ItemError::UnknownItem),
            Some(i) => {
                proof {
                    lemma_item_index(self@, i as int);
                    lemma_despawn_item_wf(self@, item);
                }
                self.items.remove(i);
                Ok(())
            },
        }
    }

    /// Moves stored item `item` to cell `origin` of its container's grid,
    /// if it fits there; otherwise leaves everything as it was.
    pub fn repack_at(&mut self, item: u64, origin: UVec2) -> (r: Result<(), ItemError>)
        requires
            old(self)@.wf(),
        ensures
            final(self)@.wf(),
            old(self)@.packing_valid() ==> final(self)@.packing_valid(),
            match old(self)@.repack_error(item, origin) {
                Some(e) => r == Err::<(), ItemError>(e) && final(self)@ == old(self)@,
                None => r is Ok && final(self)@ == old(self)@.repack(item, origin)
                    && final(self)@.has_item(item) && final(self)@.item(item).packed == Some(origin),
            },
    {
        let i = match self.find_item(item) {
            None => return Err(ItemError::UnknownItem),
            Some(i) => i,
        };
        proof {
            lemma_item_index(self@, i as int);
        }
        let rec = self.items[i];
        let container = match rec.placement {
            Placement::StoredIn(c) => c,
            _ => return Err(ItemError::NotStored),
        };
        let grid = match self.grid_of(container) {
            None => return Err(ItemError::NoGrid),
            Some(g) => g,
        };
        let occupied = self.occupied_cells(container, item);
        if !fits_at(grid, occupied.as_slice(), rec.footprint, origin) {
            return Err(ItemError::DoesNotFit);
        }
        proof {
            lemma_repack_wf(self@, item, origin);
            lemma_item_map_key(self@, item);
        }
        self.items.set(i, ItemRecord { id: rec.id, placement: rec.placement, footprint: rec.footprint, packed: Some(origin) });
        proof {
            lemma_item_map_entry(self@, i as int);
        }
        Ok(())
    }
}

/// After equipping `id`, at most one other item is equipped by the holder.
pub proof fn lemma_other_equipped_unique(w: WorldView, id: u64, holder: u64, x: u64)
    requires
        w.wf(),
        w.has_item(id),
        ({
            let w1 = w.relink(w.item_index(id), Placement::EquippedBy(holder));
            &&& w1.item_map().contains_key(x)
            &&& x != id
            &&& w1.item_map()[x].placement == Placement::EquippedBy(holder)
        }),
    ensures
        x == w.relink(w.item_index(id), Placement::EquippedBy(holder)).other_equipped_id(holder, id),
{
    let i = w.item_index(id);
    lemma_item_map_key(w, id);
    lemma_relink(w, i, Placement::EquippedBy(holder));
    let w1 = w.relink(i, Placement::EquippedBy(holder));
    let c = w1.other_equipped_id(holder, id);
    let m = w.item_map();
    assert(w1.other_equipped(holder, id));
    assert(m.contains_key(x) && m.contains_key(c));
    assert(m[x].placement == m[c].placement);
}

impl ItemWorld {
    fn relink_at(&mut self, i: usize, p: Placement)
        requires
            i < old(self)@.items.len(),
        ensures
            final(self)@ == old(self)@.relink(i as int, p),
    {
        let rec = self.items.remove(i);
        self.items.push(ItemRecord { id: rec.id, placement: p, footprint: rec.footprint, packed: rec.packed });
        assert(self@.items =~= old(self)@.relink(i as int, p).items);
    }

    fn pack_last_at(&mut self, container: u64) -> (r: StoreOutcome)
        requires
            old(self)@.ids_unique(),
            old(self)@.items.len() > 0,
        ensures
            (final(self)@, r) == old(self)@.pack_last(container),
    {
        let n = self.items.len() - 1;
        let rec = self.items[n];
        match self.grid_of(container) {
            None => StoreOutcome::Kept,
            Some(grid) => {
                let occupied = self.occupied_cells(container, rec.id);
                match find_free_slot(grid, occupied.as_slice(), rec.footprint, rec.packed) {
                    Some(o) => {
                        self.items.set(n, ItemRecord { id: rec.id, placement: rec.placement, footprint: rec.footprint, packed: Some(o) });
                        StoreOutcome::Packed(o)
                    },
                    None => {
                        self.items.set(n, ItemRecord { id: rec.id, placement: Placement::OnGround, footprint: rec.footprint, packed: rec.packed });
                        StoreOutcome::Refused
                    },
                }
            },
        }
    }

    fn find_other_equipped(&self, holder: u64, except: u64) -> (r: Option<usize>)
        requires
            self@.ids_unique(),
        ensures
            match r {
                Some(j) => j < self@.items.len() && self@.items[j as int].id != except
                    && self@.items[j as int].placement == Placement::EquippedBy(holder),
                None => !self@.other_equipped(holder, except),
            },
    {
        let n = self.items.len();
        let mut i: usize = 0;
        while i < n
            invariant
                n == self@.items.len(),
                i <= n,
                forall|k: int| 0 <= k < i ==> !(self@.items[k].id != except
                    && self@.items[k].placement == Placement::EquippedBy(holder)),
            decreases n - i,
        {
            if self.items[i].id != except && self.items[i].placement == Placement::EquippedBy(holder) {
                return Some(i);
            }
            i = i + 1;
        }
        assert forall|x: u64| #[trigger] self@.item_map().contains_key(x) && x != except
            implies self@.item_map()[x].placement != Placement::EquippedBy(holder) by {
            let k = self@.item_index(x);
            lemma_item_index(self@, k);
        }
        None
    }

    /// Puts item `item` into `container`. The item goes back to the cell it
    /// was last packed at if that is free, else to the first free cell
    /// (rows top to bottom, each left to right). A full grid refuses it: the
    /// item is put on the ground, at the container. An item cannot be stored
    /// in itself: that answers [`ItemError::SelfLink`], and an item that was
    /// stored somewhere is then put on the ground.
    pub fn store_in(&mut self, item: u64, container: u64) -> (r: Result<StoreOutcome, ItemError>)
        requires
            old(self)@.wf(),
        ensures
            final(self)@.wf(),
            old(self)@.packing_valid() ==> final(self)@.packing_valid(),
            !old(self)@.has_item(item) ==> r == Err::<StoreOutcome, ItemError>(ItemError::UnknownItem),
            old(self)@.has_item(item) && !old(self)@.has_holder(container)
                ==> r == Err::<StoreOutcome, ItemError>(ItemError::UnknownHolder),
            old(self)@.has_item(item) && old(self)@.has_holder(container) && item == container
                ==> r == Err::<StoreOutcome, ItemError>(ItemError::SelfLink)
                    && final(self)@ == old(self)@.self_link(item, false),
            r is Err && r != Err::<StoreOutcome, ItemError>(ItemError::SelfLink) ==> final(self)@ == old(self)@,
            old(self)@.has_item(item) && old(self)@.has_holder(container) && item != container ==> r is Ok,
            r matches Ok(o) ==> (final(self)@, o) == old(self)@.store(item, container),
            r matches Ok(o) ==> final(self)@.has_item(item) && match o {
                StoreOutcome::Kept => final(self)@.item(item).placement == Placement::StoredIn(container)
                    && final(self)@.item(item).packed == old(self)@.item(item).packed,
                StoreOutcome::Packed(cell) => final(self)@.item(item).placement == Placement::StoredIn(container)
                    && final(self)@.item(item).packed == Some(cell),
                StoreOutcome::Refused => final(self)@.item(item).placement == Placement::OnGround
                    && final(self)@.item(item).packed == old(self)@.item(item).packed,
            },
    {
        let i = match self.find_item(item) {
            None => return Err(ItemError::UnknownItem),
            Some(i) => i,
        };
        if self.find_holder(container).is_none() {
            return Err(ItemError::UnknownHolder);
        }
        proof {
            lemma_item_index(self@, i as int);
            lemma_item_map_key(self@, item);
        }
        if item == container {
            proof {
                lemma_self_link_wf(self@, item, false);
                lemma_drop_wf(self@, item);
            }
            let rec = self.items[i];
            if let Placement::StoredIn(_) = rec.placement {
                self.items.set(i, ItemRecord { id: rec.id, placement: Placement::OnGround, footprint: rec.footprint, packed: rec.packed });
            }
            return Err(ItemError::SelfLink);
        }
        proof {
            lemma_store_wf(self@, item, container);
            lemma_store(self@, item, container);
            lemma_relink(self@, i as int, Placement::StoredIn(container));
        }
        let ghost w0 = self@;
        self.relink_at(i, Placement::StoredIn(container));
        let outcome = self.pack_last_at(container);
        proof {
            assert(self@ == w0.store(item, container).0);
            assert(self@.item_map().contains_key(item));
            assert(self@.item_map()[item] == self@.item(item));
            assert(w0.item_map()[item] == w0.item(item));
        }
        Ok(outcome)
    }

    /// Equips item `item` to `holder`. Whatever the holder had equipped
    /// before is stowed into the holder's own storage, after `item` has left
    /// it, and is reported. An item cannot be equipped by itself: that
    /// answers [`ItemError::SelfLink`]; an item that was equipped is then put
    /// on the ground, and what the item itself had equipped is still stowed
    /// into it.
    pub fn equip_to(&mut self, item: u64, holder: u64) -> (r: Result<Option<Demotion>, ItemError>)
        requires
            old(self)@.wf(),
        ensures
            final(self)@.wf(),
            old(self)@.packing_valid() ==> final(self)@.packing_valid(),
            !old(self)@.has_item(item) ==> r == Err::<Option<Demotion>, ItemError>(ItemError::UnknownItem),
            old(self)@.has_item(item) && !old(self)@.has_holder(holder)
                ==> r == Err::<Option<Demotion>, ItemError>(ItemError::UnknownHolder),
            old(self)@.has_item(item) && old(self)@.has_holder(holder) && item == holder
                ==> r == Err::<Option<Demotion>, ItemError>(ItemError::SelfLink)
                    && final(self)@ == old(self)@.equip(item, holder).0,
            r is Err && r != Err::<Option<Demotion>, ItemError>(ItemError::SelfLink) ==> final(self)@ == old(self)@,
            old(self)@.has_item(item) && old(self)@.has_holder(holder) && item != holder ==> r is Ok,
            r matches Ok(d) ==> (final(self)@, d) == old(self)@.equip(item, holder),
            r is Ok ==> final(self)@.has_item(item) && final(self)@.item(item).placement == Placement::EquippedBy(holder),
    {
        let i = match self.find_item(item) {
            None => return Err(ItemError::UnknownItem),
            Some(i) => i,
        };
        if self.find_holder(holder).is_none() {
            return Err(ItemError::UnknownHolder);
        }
        let ghost w0 = self@;
        proof {
            lemma_item_index(self@, i as int);
        }
        if item == holder {
            proof {
                lemma_equip_self(self@, item);
                lemma_self_link_wf(self@, item, true);
                lemma_drop_wf(self@, item);
                lemma_item_map_key(self@, item);
            }
            let rec = self.items[i];
            if let Placement::EquippedBy(_) = rec.placement {
                self.items.set(i, ItemRecord { id: rec.id, placement: Placement::OnGround, footprint: rec.footprint, packed: rec.packed });
            }
            let ghost w1 = self@;
            assert(w1 == w0.self_link(item, true));
            match self.find_other_equipped(holder, item) {
                None => {},
                Some(j) => {
                    proof {
                        lemma_item_map_entry(self@, j as int);
                        lemma_item_index(self@, j as int);
                        lemma_relink(self@, j as int, Placement::StoredIn(holder));
                    }
                    self.relink_at(j, Placement::StoredIn(holder));
                    let _ = self.pack_last_at(holder);
                    proof {
                        assert(w1.other_equipped(holder, item));
                        assert(self@ == w0.equip(item, holder).0);
                    }
                },
            }
            return Err(ItemError::SelfLink);
        }
        proof {
            lemma_equip(self@, item, holder);
            lemma_relink(self@, i as int, Placement::EquippedBy(holder));
        }
        self.relink_at(i, Placement::EquippedBy(holder));
        let result = match self.find_other_equipped(holder, item) {
            None => None,
            Some(j) => {
                let demoted = self.items[j].id;
                proof {
                    lemma_item_map_entry(self@, j as int);
                    lemma_other_equipped_unique(w0, item, holder, demoted);
                    lemma_item_index(self@, j as int);
                    lemma_relink(self@, j as int, Placement::StoredIn(holder));
                }
                self.relink_at(j, Placement::StoredIn(holder));
                let outcome = self.pack_last_at(holder);
                Some(Demotion { item: demoted, outcome })
            },
        };
        proof {
            assert((self@, result) == w0.equip(item, holder));
            assert(self@.item_map().contains_key(item));
            assert(self@.item_map()[item] == self@.item(item));
        }
        Ok(result)
    }
}

impl ItemWorld {
    /// Removes holder `holder`. Everything it carried, equipped and stowed
    /// alike, is put on the ground at the holder. Answers the dropped items:
    /// the equipped ones, then the stored ones, each oldest link first.
    pub fn despawn_holder(&mut self, holder: u64) -> (r: Result<Vec<u64>, ItemError>)
        requires
            old(self)@.wf(),
        ensures
            final(self)@.wf(),
            old(self)@.packing_valid() ==> final(self)@.packing_valid(),
            r is Err <==> !old(self)@.has_holder(holder),
            r is Err ==> r == Err::<Vec<u64>, ItemError>(ItemError::UnknownHolder) && final(self)@ == old(self)@,
            r matches Ok(dropped) ==> {
                &&& final(self)@ == old(self)@.despawn_holder(holder)
                &&& dropped@ == spec_ids_placed(old(self)@.items, Placement::EquippedBy(holder))
                    + spec_ids_placed(old(self)@.items, Placement::StoredIn(holder))
            },
    {
        let hi = match self.find_holder(holder) {
            None => return Err(ItemError::UnknownHolder),
            Some(hi) => hi,
        };
        proof {
            lemma_holder_index(self@, hi as int);
            lemma_despawn_holder_wf(self@, holder);
        }
        let ghost w0 = self@;
        let mut dropped = self.ids_placed(Placement::EquippedBy(holder));
        let mut stored = self.ids_placed(Placement::StoredIn(holder));
        dropped.append(&mut stored);
        let n = self.items.len();
        let mut i: usize = 0;
        while i < n
            invariant
                n == w0.items.len(),
                n == self@.items.len(),
                i <= n,
                self@.holders == w0.holders,
                forall|k: int| 0 <= k < i ==> self@.items[k] == #[trigger] WorldView::dropped_by(w0.items[k], holder),
                forall|k: int| i <= k < n ==> self@.items[k] == w0.items[k],
            decreases n - i,
        {
            let rec = self.items[i];
            if rec.placement.link() == Some(holder) {
                self.items.set(i, ItemRecord { id: rec.id, placement: Placement::OnGround, footprint: rec.footprint, packed: rec.packed });
            }
            i = i + 1;
        }
        self.holders.remove(hi);
        assert(self@.items =~= w0.despawn_holder(holder).items);
        assert(self@.holders =~= w0.despawn_holder(holder).holders);
        Ok(dropped)
    }
}

impl WorldView {
    /// Item `id` now takes up `footprint` cells. Its placement and packed
    /// cell are left as they are, also inside a grid.
    pub open spec fn resize(self, id: u64, footprint: UVec2) -> WorldView {
        let r = self.item(id);
        self.with_record(self.item_index(id), ItemRecord { id: r.id, placement: r.placement, footprint, packed: r.packed })
    }

    /// Item `id` can take up `footprint` cells where it lies: it is in no
    /// grid, or the new footprint is not empty and fits at its packed cell
    /// beside the other items of the grid.
    pub open spec fn resize_fits(self, id: u64, footprint: UVec2) -> bool {
        let r = self.item(id);
        !self.in_grid(r) || {
            &&& !footprint.is_degenerate()
            &&& r.packed is Some
            &&& spec_fits_at(
                self.holder_grid(r.placement->StoredIn_0)->0,
                spec_occupied(self.items, r.placement->StoredIn_0, id),
                footprint,
                r.packed->0,
            )
        }
    }
}

/// Resizing keeps the invariant, and keeps the packing valid where the new
/// footprint fits where the item lies.
pub proof fn lemma_resize_wf(w: WorldView, id: u64, footprint: UVec2)
    requires
        w.wf(),
        w.has_item(id),
    ensures
        w.resize(id, footprint).wf(),
        w.packing_valid() && w.resize_fits(id, footprint) ==> w.resize(id, footprint).packing_valid(),
        w.resize(id, footprint).item_map() == w.item_map().insert(id, w.resize(id, footprint).item_map()[id]),
{
    let i = w.item_index(id);
    let r = w.item(id);
    let r2 = ItemRecord { id: r.id, placement: r.placement, footprint, packed: r.packed };
    lemma_item_map_key(w, id);
    lemma_with_record(w, i, r2);
    let w2 = w.resize(id, footprint);
    let m = w.item_map();
    let m2 = w2.item_map();
    assert forall|h: u64| w2.holder_grid(h) == w.holder_grid(h) && w2.has_holder(h) == w.has_holder(h) by {}
    assert forall|x: u64| #[trigger] m2.contains_key(x) && m2[x].placement.spec_link() is Some
        implies w2.has_holder(m2[x].placement.spec_link()->0) by {
        assert(m.contains_key(x));
    }
    assert forall|a: u64, b: u64| #[trigger] m2.contains_key(a) && #[trigger] m2.contains_key(b)
        && a != b && m2[a].placement is EquippedBy
        implies m2[b].placement != m2[a].placement by {
        assert(m.contains_key(a) && m.contains_key(b));
    }
    assert forall|x: u64| #[trigger] m2.contains_key(x) implies m2[x].placement.spec_link() != Some(x) by {
        assert(m.contains_key(x));
    }
    if w.packing_valid() && w.resize_fits(id, footprint) {
        if w.in_grid(r) {
            let c = r.placement->StoredIn_0;
            lemma_fits_occupied_map(w, c, id, w.holder_grid(c)->0, footprint, r.packed->0);
        }
        assert forall|a: u64| #[trigger] m2.contains_key(a) && w2.in_grid(m2[a]) implies {
            &&& !m2[a].footprint.is_degenerate()
            &&& m2[a].packed is Some
            &&& spec_in_bounds(w2.holder_grid(m2[a].placement->StoredIn_0)->0, m2[a].footprint, m2[a].packed->0)
        } by {
            assert(m.contains_key(a) && w.in_grid(m[a]));
        }
        assert forall|a: u64, b: u64| #[trigger] m2.contains_key(a) && #[trigger] m2.contains_key(b)
            && a != b && w2.in_grid(m2[a]) && m2[b].placement == m2[a].placement
            implies !spec_rects_overlap(m2[a].packed->0, m2[a].footprint, m2[b].packed->0, m2[b].footprint) by {
            assert(m.contains_key(a) && m.contains_key(b) && w.in_grid(m[a]));
            if a == id {
                assert(spec_occupies(m[b], r.placement->StoredIn_0, id));
            } else if b == id {
                assert(spec_occupies(m[a], r.placement->StoredIn_0, id));
            }
        }
    }
}

impl ItemWorld {
    /// Gives item `item` a new footprint. Its placement and packed cell stay
    /// as they are, also inside a grid; the packing stays valid when the new
    /// footprint fits where the item lies.
    pub fn resize(&mut self, item: u64, footprint: ItemFootprint) -> (r: Result<(), ItemError>)
        requires
            old(self)@.wf(),
        ensures
            final(self)@.wf(),
            r is Err <==> !old(self)@.has_item(item),
            r is Err ==> r == Err::<(), ItemError>(ItemError::UnknownItem) && final(self)@ == old(self)@,
            r is Ok ==> final(self)@ == old(self)@.resize(item, footprint.0),
            r is Ok ==> final(self)@.has_item(item) && final(self)@.item(item).footprint == footprint.0,
            r is Ok && old(self)@.packing_valid() && old(self)@.resize_fits(item, footprint.0)
                ==> final(self)@.packing_valid(),
    {
        let i = match self.find_item(item) {
            None => return Err(ItemError::UnknownItem),
            Some(i) => i,
        };
        proof {
            lemma_item_index(self@, i as int);
            lemma_resize_wf(self@, item, footprint.0);
            lemma_item_map_key(self@, item);
        }
        let rec = self.items[i];
        self.items.set(i, ItemRecord { id: rec.id, placement: rec.placement, footprint: footprint.0, packed: rec.packed });
        proof {
            lemma_item_map_entry(self@, i as int);
        }
        Ok(())
    }
}

} // verus!
