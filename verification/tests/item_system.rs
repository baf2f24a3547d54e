use coherent_items::{
    Demotion, InventoryGrid, ItemError, ItemFootprint, ItemState, ItemWorld, Placement,
    StoreOutcome, UVec2,
};

const PLAYER: u64 = 100;
const CHEST: u64 = 101;

fn world_with_holder(holder: u64, grid: Option<UVec2>) -> ItemWorld {
    let mut world = ItemWorld::new();
    world.add_holder(holder, grid.map(InventoryGrid::new)).unwrap();
    world
}

fn spawn_sized(world: &mut ItemWorld, id: u64, footprint: UVec2) -> u64 {
    world.add_item(id, ItemFootprint(footprint)).unwrap();
    id
}

fn spawn_gun(world: &mut ItemWorld, id: u64) -> u64 {
    spawn_sized(world, id, UVec2::one())
}

fn kind(world: &ItemWorld, item: u64) -> Option<ItemState> {
    world.placement(item).map(|p| p.kind())
}

fn packed_origin(world: &ItemWorld, item: u64) -> Option<UVec2> {
    world.packed_at(item).map(|p| p.origin())
}

fn carried(world: &ItemWorld, holder: u64) -> Vec<u64> {
    let mut all = world.equipped_by(holder);
    all.extend(world.stored_in(holder));
    all
}

#[test]
fn model_components_persist_and_views_swap() {
    let mut world = world_with_holder(PLAYER, None);
    let model = spawn_sized(&mut world, 1, UVec2::new(2, 3));
    assert_eq!(kind(&world, model), Some(ItemState::OnGround));

    world.equip_to(model, PLAYER).unwrap();
    assert_eq!(world.placement(model), Some(Placement::EquippedBy(PLAYER)));
    assert_eq!(world.footprint(model), Some(ItemFootprint(UVec2::new(2, 3))));

    world.drop_at(model).unwrap();
    assert_eq!(kind(&world, model), Some(ItemState::OnGround));
    assert_eq!(world.placement(model).and_then(|p| p.link()), None);
    assert_eq!(world.footprint(model), Some(ItemFootprint(UVec2::new(2, 3))));

    world.store_in(model, PLAYER).unwrap();
    assert_eq!(kind(&world, model), Some(ItemState::Stored));
    assert_eq!(world.footprint(model), Some(ItemFootprint(UVec2::new(2, 3))));
}

#[test]
fn carry_both_and_reverse_query() {
    let mut world = world_with_holder(PLAYER, None);
    let sword = spawn_gun(&mut world, 1);
    let gun = spawn_gun(&mut world, 2);

    world.store_in(gun, PLAYER).unwrap();
    world.equip_to(sword, PLAYER).unwrap();

    assert_eq!(kind(&world, sword), Some(ItemState::Equipped));
    assert_eq!(kind(&world, gun), Some(ItemState::Stored));

    let carried = carried(&world, PLAYER);
    assert_eq!(carried.len(), 2);
    assert!(carried.contains(&sword) && carried.contains(&gun));
}

#[test]
fn single_equipped_policy_demotes_previous_weapon() {
    let mut world = world_with_holder(PLAYER, None);
    let first = spawn_gun(&mut world, 1);
    let second = spawn_gun(&mut world, 2);

    assert_eq!(world.equip_to(first, PLAYER), Ok(None));
    assert_eq!(
        world.equip_to(second, PLAYER),
        Ok(Some(Demotion { item: first, outcome: StoreOutcome::Kept }))
    );

    assert_eq!(kind(&world, first), Some(ItemState::Stored), "equipping a second weapon stows the first");
    assert_eq!(kind(&world, second), Some(ItemState::Equipped));
    assert_eq!(carried(&world, PLAYER).len(), 2);
}

#[test]
fn holder_death_drops_entire_inventory() {
    let mut world = world_with_holder(PLAYER, None);
    let sword = spawn_gun(&mut world, 1);
    let gun = spawn_gun(&mut world, 2);
    world.equip_to(sword, PLAYER).unwrap();
    world.store_in(gun, PLAYER).unwrap();

    assert_eq!(world.despawn_holder(PLAYER), Ok(vec![sword, gun]));

    for model in [sword, gun] {
        assert_eq!(
            kind(&world, model),
            Some(ItemState::OnGround),
            "everything the holder carried drops, equipped and stowed alike"
        );
    }
    assert_eq!(world.equip_to(sword, PLAYER), Err(ItemError::UnknownHolder));
}

#[test]
fn cross_container_move_updates_both_sides() {
    let mut world = world_with_holder(CHEST, None);
    world.add_holder(PLAYER, None).unwrap();
    let model = spawn_gun(&mut world, 1);

    world.store_in(model, CHEST).unwrap();
    world.equip_to(model, PLAYER).unwrap();

    assert_eq!(kind(&world, model), Some(ItemState::Equipped));
    assert!(carried(&world, CHEST).is_empty(), "the chest's side of the relationship empties automatically");
    assert_eq!(carried(&world, PLAYER).len(), 1);
}

#[test]
fn stored_items_pack_into_the_grid_with_icons() {
    let mut world = world_with_holder(PLAYER, Some(UVec2::new(12, 8)));
    let pistol = spawn_sized(&mut world, 1, UVec2::new(4, 4));
    let rifle = spawn_sized(&mut world, 2, UVec2::new(8, 4));

    assert_eq!(world.store_in(pistol, PLAYER), Ok(StoreOutcome::Packed(UVec2::zero())));
    assert_eq!(world.store_in(rifle, PLAYER), Ok(StoreOutcome::Packed(UVec2::new(4, 0))));

    assert_eq!(packed_origin(&world, pistol), Some(UVec2::zero()));
    assert_eq!(
        packed_origin(&world, rifle),
        Some(UVec2::new(4, 0)),
        "first fit packs the rifle beside the pistol"
    );
}

#[test]
fn a_full_bag_refuses_the_item_and_regrounds_it() {
    let mut world = world_with_holder(PLAYER, Some(UVec2::new(4, 4)));
    let first = spawn_sized(&mut world, 1, UVec2::new(4, 4));
    let second = spawn_sized(&mut world, 2, UVec2::new(4, 4));

    world.store_in(first, PLAYER).unwrap();
    assert_eq!(world.store_in(second, PLAYER), Ok(StoreOutcome::Refused));

    assert_eq!(kind(&world, first), Some(ItemState::Stored));
    assert_eq!(
        kind(&world, second),
        Some(ItemState::OnGround),
        "no room — the item is re-grounded instead of being left without a cell"
    );
    assert!(packed_origin(&world, second).is_none());
}

#[test]
fn packing_memory_survives_transitions() {
    let mut world = world_with_holder(PLAYER, Some(UVec2::new(12, 8)));
    let model = spawn_sized(&mut world, 1, UVec2::new(4, 4));
    world.store_in(model, PLAYER).unwrap();
    assert_eq!(packed_origin(&world, model), Some(UVec2::zero()));

    assert_eq!(world.repack_at(model, UVec2::new(5, 3)), Ok(()));
    assert_eq!(packed_origin(&world, model), Some(UVec2::new(5, 3)), "deliberate packing moves the item");

    world.equip_to(model, PLAYER).unwrap();
    world.drop_at(model).unwrap();
    assert_eq!(
        packed_origin(&world, model),
        Some(UVec2::new(5, 3)),
        "the spot is remembered while the item is out of the bag"
    );

    world.store_in(model, PLAYER).unwrap();
    assert_eq!(
        packed_origin(&world, model),
        Some(UVec2::new(5, 3)),
        "re-stowing returns the item to its remembered spot"
    );
}

#[test]
fn repacking_rejects_overlap_and_out_of_bounds() {
    let mut world = world_with_holder(PLAYER, Some(UVec2::new(12, 8)));
    let pistol = spawn_sized(&mut world, 1, UVec2::new(4, 4));
    let rifle = spawn_sized(&mut world, 2, UVec2::new(8, 4));
    world.store_in(pistol, PLAYER).unwrap();
    world.store_in(rifle, PLAYER).unwrap();
    assert_eq!(packed_origin(&world, rifle), Some(UVec2::new(4, 0)));

    assert_eq!(world.repack_at(rifle, UVec2::new(2, 2)), Err(ItemError::DoesNotFit));
    assert_eq!(packed_origin(&world, rifle), Some(UVec2::new(4, 0)), "a spot overlapping the pistol is refused");

    assert_eq!(world.repack_at(rifle, UVec2::new(5, 0)), Err(ItemError::DoesNotFit));
    assert_eq!(packed_origin(&world, rifle), Some(UVec2::new(4, 0)), "a spot past the right edge is refused");

    assert_eq!(world.repack_at(rifle, UVec2::new(2, 4)), Ok(()));
    assert_eq!(packed_origin(&world, rifle), Some(UVec2::new(2, 4)), "a free in-bounds spot is accepted");
}

#[test]
fn equip_swap_repacks_the_demoted_weapon() {
    let mut world = world_with_holder(PLAYER, Some(UVec2::new(8, 4)));
    let rifle = spawn_sized(&mut world, 1, UVec2::new(8, 4));
    let pistol = spawn_sized(&mut world, 2, UVec2::new(4, 4));

    world.store_in(rifle, PLAYER).unwrap();
    world.equip_to(rifle, PLAYER).unwrap();
    world.store_in(pistol, PLAYER).unwrap();
    assert_eq!(
        world.equip_to(pistol, PLAYER),
        Ok(Some(Demotion { item: rifle, outcome: StoreOutcome::Packed(UVec2::zero()) }))
    );

    assert_eq!(
        kind(&world, rifle),
        Some(ItemState::Stored),
        "the demoted rifle fits back in because the pistol left the grid first"
    );
    assert_eq!(packed_origin(&world, rifle), Some(UVec2::zero()));
    assert_eq!(kind(&world, pistol), Some(ItemState::Equipped));
}

#[test]
fn raw_link_removal_is_repaired() {
    let mut world = world_with_holder(PLAYER, None);
    let model = spawn_gun(&mut world, 1);
    world.equip_to(model, PLAYER).unwrap();

    assert_eq!(world.unlink(model), Ok(true));
    assert_eq!(kind(&world, model), Some(ItemState::OnGround));
    assert_eq!(world.unlink(model), Ok(false), "a grounded item needs no repair");
}

#[test]
fn refused_transitions_leave_the_world_alone() {
    let mut world = world_with_holder(PLAYER, Some(UVec2::new(4, 4)));
    world.add_holder(CHEST, None).unwrap();
    let gun = spawn_gun(&mut world, 1);
    assert_eq!(world.add_item(gun, ItemFootprint::default()), Err(ItemError::IdTaken));
    assert_eq!(world.add_holder(CHEST, None), Err(ItemError::IdTaken));
    assert_eq!(world.equip_to(7, PLAYER), Err(ItemError::UnknownItem));
    assert_eq!(world.store_in(gun, 7), Err(ItemError::UnknownHolder));
    assert_eq!(world.repack_at(gun, UVec2::zero()), Err(ItemError::NotStored));
    world.store_in(gun, CHEST).unwrap();
    assert_eq!(world.repack_at(gun, UVec2::zero()), Err(ItemError::NoGrid));
    assert_eq!(world.drop_at(7), Err(ItemError::UnknownItem));
    assert_eq!(world.despawn_item(7), Err(ItemError::UnknownItem));
    assert_eq!(world.despawn_holder(7), Err(ItemError::UnknownHolder));
    assert_eq!(world.placement(gun), Some(Placement::StoredIn(CHEST)));
}

#[test]
fn despawning_an_item_frees_its_cells() {
    let mut world = world_with_holder(PLAYER, Some(UVec2::new(4, 4)));
    let first = spawn_sized(&mut world, 1, UVec2::new(4, 4));
    let second = spawn_sized(&mut world, 2, UVec2::new(4, 4));
    world.store_in(first, PLAYER).unwrap();
    assert_eq!(world.occupied_cells(PLAYER, second), vec![(UVec2::zero(), UVec2::new(4, 4))]);
    world.despawn_item(first).unwrap();
    assert_eq!(world.placement(first), None);
    assert!(world.occupied_cells(PLAYER, second).is_empty());
    assert_eq!(world.store_in(second, PLAYER), Ok(StoreOutcome::Packed(UVec2::zero())));
}

#[test]
fn carried_items_are_listed_oldest_link_first() {
    let mut world = world_with_holder(PLAYER, None);
    let a = spawn_gun(&mut world, 1);
    let b = spawn_gun(&mut world, 2);
    world.store_in(b, PLAYER).unwrap();
    world.store_in(a, PLAYER).unwrap();
    assert_eq!(world.stored_in(PLAYER), vec![b, a]);
    world.drop_at(b).unwrap();
    world.store_in(b, PLAYER).unwrap();
    assert_eq!(world.stored_in(PLAYER), vec![a, b]);
}

#[test]
fn equipping_the_same_item_again_displaces_nothing() {
    let mut world = world_with_holder(PLAYER, None);
    let gun = spawn_gun(&mut world, 1);
    assert_eq!(world.equip_to(gun, PLAYER), Ok(None));
    assert_eq!(world.equip_to(gun, PLAYER), Ok(None));
    assert_eq!(world.equipped_by(PLAYER), vec![gun]);
    assert_eq!(world.grid_of(PLAYER), None);
}

#[test]
fn resizing_inside_a_grid_keeps_the_cell() {
    let mut world = world_with_holder(PLAYER, Some(UVec2::new(4, 4)));
    let gun = spawn_gun(&mut world, 1);
    assert_eq!(world.resize(gun, ItemFootprint(UVec2::new(2, 2))), Ok(()));
    assert_eq!(world.footprint(gun), Some(ItemFootprint(UVec2::new(2, 2))));
    world.store_in(gun, PLAYER).unwrap();
    assert_eq!(packed_origin(&world, gun), Some(UVec2::zero()));
    assert_eq!(world.resize(gun, ItemFootprint(UVec2::new(5, 5))), Ok(()));
    assert_eq!(world.footprint(gun), Some(ItemFootprint(UVec2::new(5, 5))));
    assert_eq!(world.placement(gun), Some(Placement::StoredIn(PLAYER)));
    assert_eq!(packed_origin(&world, gun), Some(UVec2::zero()));
    assert_eq!(world.resize(9, ItemFootprint::default()), Err(ItemError::UnknownItem));
}

#[test]
fn an_item_can_be_a_container() {
    const BAG: u64 = 7;
    let mut world = world_with_holder(PLAYER, None);
    spawn_sized(&mut world, BAG, UVec2::new(2, 2));
    assert_eq!(world.add_holder(BAG, Some(InventoryGrid::new(UVec2::new(2, 1)))), Ok(()));
    let gun = spawn_gun(&mut world, 1);
    assert_eq!(world.store_in(gun, BAG), Ok(StoreOutcome::Packed(UVec2::zero())));
    assert_eq!(world.equip_to(BAG, PLAYER), Ok(None));
    assert_eq!(world.placement(BAG), Some(Placement::EquippedBy(PLAYER)));
    assert_eq!(world.stored_in(BAG), vec![gun]);
    assert_eq!(world.despawn_holder(BAG), Ok(vec![gun]));
    assert_eq!(world.placement(gun), Some(Placement::OnGround));
    assert_eq!(world.placement(BAG), Some(Placement::EquippedBy(PLAYER)));
}

#[test]
fn an_item_is_never_linked_to_itself() {
    const BAG: u64 = 7;
    let mut world = world_with_holder(CHEST, None);
    spawn_gun(&mut world, BAG);
    world.add_holder(BAG, Some(InventoryGrid::new(UVec2::new(2, 2)))).unwrap();
    let gun = spawn_gun(&mut world, 1);

    assert_eq!(world.store_in(BAG, BAG), Err(ItemError::SelfLink));
    assert_eq!(world.placement(BAG), Some(Placement::OnGround));
    world.store_in(BAG, CHEST).unwrap();
    assert_eq!(world.store_in(BAG, BAG), Err(ItemError::SelfLink));
    assert_eq!(world.placement(BAG), Some(Placement::OnGround), "its old link is gone too");

    world.equip_to(gun, BAG).unwrap();
    world.store_in(BAG, CHEST).unwrap();
    assert_eq!(world.equip_to(BAG, BAG), Err(ItemError::SelfLink));
    assert_eq!(world.placement(BAG), Some(Placement::StoredIn(CHEST)));
    assert_eq!(world.placement(gun), Some(Placement::StoredIn(BAG)), "what it held is stowed into it");
    assert_eq!(packed_origin(&world, gun), Some(UVec2::zero()));
}

#[test]
fn model_despawn_while_contained_does_not_panic() {
    let mut world = world_with_holder(PLAYER, None);
    let model = spawn_gun(&mut world, 1);
    world.equip_to(model, PLAYER).unwrap();
    assert_eq!(world.despawn_item(model), Ok(()));
    assert!(carried(&world, PLAYER).is_empty());
    assert_eq!(world.placement(model), None);
}
