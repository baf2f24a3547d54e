//! The plain-value core of a temporally coherent item system: grid packing,
//! the placement state machine of items and their holders, stat modifier
//! lists, the firing rule, the item registry and where views hang.

pub mod firing;
pub mod grid;
pub mod inventory;
pub mod laws;
pub mod registry;
pub mod state;
pub mod stats;
pub mod views;
pub mod world;

pub use firing::{fire, try_fire, Ammo, FireOutcome};
pub use grid::UVec2;
pub use inventory::{
    commit_drag, find_free_slot, fits_at, packing_violations, plan_pickups, rects_overlap,
    InventoryGrid, ItemFootprint, PackingViolation, PickupCandidate, StoredItem,
};
pub use registry::{ItemDefinition, ItemRegistry};
pub use state::{axis_violation, ItemState, Placement};
pub use stats::{StatEntry, StatModifiers};
pub use views::{plan_tint, view_parent, TintPlan};
pub use world::{
    Demotion, HolderRecord, ItemError, ItemRecord, ItemWorld, PackedAt, StoreOutcome,
};
