use coherent_items::StatModifiers;

/// A stat modifier: flat additions fold before multipliers.
#[derive(Clone, Copy, Debug, PartialEq)]
enum StatOp {
    Flat(f32),
    Mult(f32),
}

const SOURCE_A: u64 = 1;
const SOURCE_B: u64 = 2;
const RUSTY: u64 = 3;

/// The staged fold of a modifier list over a base value.
fn apply_to(modifiers: &StatModifiers<StatOp>, base: f32) -> f32 {
    let flat: f32 = modifiers
        .entries()
        .iter()
        .filter_map(|entry| match entry.op {
            StatOp::Flat(value) => Some(value),
            StatOp::Mult(_) => None,
        })
        .sum();
    let mult: f32 = modifiers
        .entries()
        .iter()
        .filter_map(|entry| match entry.op {
            StatOp::Mult(value) => Some(value),
            StatOp::Flat(_) => None,
        })
        .product();
    (base + flat) * mult
}

#[test]
fn fold_is_staged_and_order_independent() {
    let mut forward = StatModifiers::<StatOp>::default();
    forward.set(SOURCE_A, "SourceA", StatOp::Flat(0.2));
    forward.set(SOURCE_B, "SourceB", StatOp::Mult(2.0));

    let mut reverse = StatModifiers::<StatOp>::default();
    reverse.set(SOURCE_B, "SourceB", StatOp::Mult(2.0));
    reverse.set(SOURCE_A, "SourceA", StatOp::Flat(0.2));

    assert_eq!(apply_to(&forward, 0.5), 1.4, "(0.5 + 0.2) × 2.0");
    assert_eq!(apply_to(&forward, 0.5), apply_to(&reverse, 0.5));
}

#[test]
fn set_replaces_by_source_tag() {
    let mut modifiers = StatModifiers::<StatOp>::default();
    modifiers.set(SOURCE_A, "SourceA", StatOp::Mult(2.0));
    modifiers.set(SOURCE_A, "SourceA", StatOp::Mult(3.0));
    assert_eq!(apply_to(&modifiers, 1.0), 3.0, "re-set replaces, never stacks");

    modifiers.remove(SOURCE_A);
    assert!(modifiers.is_empty());
    assert_eq!(apply_to(&modifiers, 1.0), 1.0);
}

#[test]
fn stat_fold_reacts_to_rust() {
    let mut modifiers = StatModifiers::<StatOp>::new();
    assert_eq!(apply_to(&modifiers, 0.5), 0.5, "the fold over zero modifiers is the base");
    modifiers.set(RUSTY, "Rusty", StatOp::Mult(2.0));
    assert_eq!(apply_to(&modifiers, 0.5), 1.0, "rust doubles the cooldown through the fold");
    modifiers.remove(RUSTY);
    assert_eq!(apply_to(&modifiers, 0.5), 0.5, "modifiers un-apply cleanly");
    assert!(modifiers.is_empty(), "rust cleaned up its entry");
}

#[test]
fn stat_stages_fold_deterministically_from_any_source() {
    let mut a = StatModifiers::<StatOp>::new();
    a.set(SOURCE_A, "HeavyBarrel", StatOp::Flat(0.2));
    a.set(SOURCE_B, "Blessing", StatOp::Mult(2.0));
    let mut b = StatModifiers::<StatOp>::new();
    b.set(SOURCE_B, "Blessing", StatOp::Mult(2.0));
    b.set(SOURCE_A, "HeavyBarrel", StatOp::Flat(0.2));
    assert_eq!(apply_to(&a, 0.5), 1.4, "(0.5 + 0.2) x 2.0 — flat folds before multipliers");
    assert_eq!(apply_to(&a, 0.5), apply_to(&b, 0.5), "attach order is irrelevant");
    a.set(SOURCE_A, "HeavyBarrel", StatOp::Flat(0.3));
    assert_eq!(apply_to(&a, 0.5), 1.6, "re-setting a source replaces its entry, never stacks");
}

#[test]
fn entries_keep_first_set_order_and_names() {
    let mut modifiers = StatModifiers::<StatOp>::new();
    modifiers.set(SOURCE_B, "Blessing", StatOp::Mult(2.0));
    modifiers.set(SOURCE_A, "HeavyBarrel", StatOp::Flat(0.2));
    modifiers.set(SOURCE_B, "Renamed", StatOp::Mult(4.0));
    let entries = modifiers.entries();
    assert_eq!(entries.len(), 2);
    assert_eq!((entries[0].source, entries[0].source_name, entries[0].op), (SOURCE_B, "Blessing", StatOp::Mult(4.0)));
    assert_eq!((entries[1].source, entries[1].source_name, entries[1].op), (SOURCE_A, "HeavyBarrel", StatOp::Flat(0.2)));
}

#[test]
fn removing_an_absent_source_changes_nothing() {
    let mut modifiers = StatModifiers::<StatOp>::new();
    modifiers.set(SOURCE_A, "SourceA", StatOp::Flat(1.0));
    modifiers.remove(SOURCE_B);
    assert_eq!(modifiers.entries().len(), 1);
    assert_eq!(apply_to(&modifiers, 1.0), 2.0);
}
