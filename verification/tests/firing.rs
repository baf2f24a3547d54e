use coherent_items::{fire, try_fire, Ammo, FireOutcome};

/// Whether a gun whose last shot was at `last` (if any) is still cooling
/// down at `now`, with the given effective cooldown.
fn cooling(now_secs: f32, cooldown_secs: f32, last: Option<f32>) -> bool {
    last.is_some_and(|last| now_secs - last < cooldown_secs)
}

#[test]
fn try_fire_rules() {
    assert_eq!(try_fire(&Ammo(0), cooling(10.0, 0.5, None)), FireOutcome::Empty);
    assert_eq!(try_fire(&Ammo(3), cooling(10.0, 0.5, None)), FireOutcome::Fired);
    assert_eq!(try_fire(&Ammo(3), cooling(10.2, 0.5, Some(10.0))), FireOutcome::Cooldown);
    assert_eq!(try_fire(&Ammo(3), cooling(10.6, 0.5, Some(10.0))), FireOutcome::Fired);
}

#[test]
fn firing_spends_exactly_one_round() {
    let mut ammo = Ammo(8);
    assert_eq!(fire(&mut ammo, false), FireOutcome::Fired);
    assert_eq!(ammo, Ammo(7), "one click, one shot");
    assert_eq!(fire(&mut ammo, true), FireOutcome::Cooldown);
    assert_eq!(ammo, Ammo(7));
    let mut empty = Ammo(0);
    assert_eq!(fire(&mut empty, false), FireOutcome::Empty);
    assert_eq!(empty, Ammo(0));
}
