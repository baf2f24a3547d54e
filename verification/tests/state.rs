use coherent_items::{axis_violation, plan_tint, view_parent, ItemState, Placement, TintPlan};

#[test]
fn axis_violations_are_detected() {
    assert!(axis_violation(1).is_none());
    assert!(axis_violation(0).is_some());
    assert!(axis_violation(2).is_some());
    assert!(axis_violation(3).is_some());
}

#[test]
fn axis_violation_messages_name_the_problem() {
    assert_eq!(axis_violation(0), Some("item has no state marker"));
    assert_eq!(axis_violation(5), Some("item has more than one state marker"));
}

#[test]
fn state_is_read_from_the_markers_in_priority_order() {
    assert_eq!(ItemState::of(false, false, false), None);
    assert_eq!(ItemState::of(true, false, false), Some(ItemState::OnGround));
    assert_eq!(ItemState::of(false, true, false), Some(ItemState::Equipped));
    assert_eq!(ItemState::of(false, false, true), Some(ItemState::Stored));
    assert_eq!(ItemState::of(false, true, true), Some(ItemState::Equipped));
    assert_eq!(ItemState::of(true, true, true), Some(ItemState::OnGround));
}

#[test]
fn placements_know_their_kind_and_link() {
    assert_eq!(Placement::OnGround.kind(), ItemState::OnGround);
    assert_eq!(Placement::EquippedBy(7).kind(), ItemState::Equipped);
    assert_eq!(Placement::StoredIn(9).kind(), ItemState::Stored);
    assert_eq!(Placement::OnGround.link(), None);
    assert_eq!(Placement::EquippedBy(7).link(), Some(7));
    assert_eq!(Placement::StoredIn(9).link(), Some(9));
}

#[test]
fn views_hang_where_the_state_puts_them() {
    let model = 1;
    assert_eq!(view_parent(model, ItemState::OnGround, None, None, None), Some(model));
    assert_eq!(view_parent(model, ItemState::Equipped, Some(2), None, None), Some(2), "no socket: the holder root");
    assert_eq!(view_parent(model, ItemState::Equipped, None, None, None), Some(model), "no holder: the model");
    assert_eq!(view_parent(model, ItemState::Stored, Some(4), None, Some(5)), Some(5), "the container's panel");
    assert_eq!(view_parent(model, ItemState::Stored, Some(4), None, None), None, "no panel, no view");
    assert_eq!(view_parent(model, ItemState::Stored, None, None, Some(5)), None);
}

#[test]
fn tints_stash_the_untinted_look_once() {
    assert_eq!(plan_tint(true, false, true, false), TintPlan::Material { stash: true });
    assert_eq!(plan_tint(true, true, false, false), TintPlan::Material { stash: false }, "re-tinting keeps the first stash");
    assert_eq!(plan_tint(false, false, true, false), TintPlan::Background { stash: true });
    assert_eq!(plan_tint(false, false, true, true), TintPlan::Background { stash: false });
    assert_eq!(plan_tint(false, true, false, true), TintPlan::Nothing);
}

#[test]
fn equipped_view_parents_to_the_hand_socket() {
    let (model, holder, socket) = (1, 2, 3);
    assert_eq!(
        view_parent(model, ItemState::Equipped, Some(holder), Some(socket), None),
        Some(socket),
        "views attach to the socket, not the holder root"
    );
}
