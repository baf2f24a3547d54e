use coherent_items::{ItemDefinition, ItemFootprint, ItemRegistry, ItemState, ItemWorld};

fn gun() -> ItemDefinition<&'static str> {
    ItemDefinition { on_ground: Some("ground"), equipped: Some("hand"), stored: Some("icon") }
}

#[test]
fn unknown_key_leaves_model_intact() {
    let mut registry = ItemRegistry::new();
    registry.register("core::item::gun".to_string(), gun());
    assert_eq!(registry.chrome(&"core::item::typo".to_string(), ItemState::OnGround), None);
    assert_eq!(registry.chrome(&"core::item::gun".to_string(), ItemState::OnGround), Some(&"ground"));
    assert_eq!(registry.chrome(&"core::item::gun".to_string(), ItemState::Equipped), Some(&"hand"));
    assert_eq!(registry.chrome(&"core::item::gun".to_string(), ItemState::Stored), Some(&"icon"));

    let mut world = ItemWorld::new();
    world.add_item(1, ItemFootprint::default()).unwrap();
    assert_eq!(world.placement(1).map(|p| p.kind()), Some(ItemState::OnGround));
}

#[test]
fn registering_a_key_again_replaces_its_definition() {
    let mut registry = ItemRegistry::new();
    registry.register("core::item::gun".to_string(), gun());
    registry.register(
        "core::item::gun".to_string(),
        ItemDefinition { on_ground: Some("new ground"), equipped: None, stored: None },
    );
    assert_eq!(registry.chrome(&"core::item::gun".to_string(), ItemState::OnGround), Some(&"new ground"));
    assert_eq!(registry.chrome(&"core::item::gun".to_string(), ItemState::Equipped), None);
    assert!(registry.definition(&"core::item::gun".to_string()).is_some());
    assert!(registry.definition(&"core::item::sword".to_string()).is_none());
}
