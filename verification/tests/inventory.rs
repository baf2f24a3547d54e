use coherent_items::{
    commit_drag, find_free_slot, fits_at, packing_violations, plan_pickups, rects_overlap,
    InventoryGrid, ItemFootprint, PackingViolation, UVec2,
};

fn grid() -> UVec2 {
    UVec2::new(12, 8)
}

/// The cell a drag ends over: the start cell plus the drag distance in
/// cells, rounded to the nearest cell.
fn snapped(start: UVec2, drag_px: (f32, f32), cell_px: f32) -> (i32, i32) {
    (
        (start.x as f32 + drag_px.0 / cell_px).round() as i32,
        (start.y as f32 + drag_px.1 / cell_px).round() as i32,
    )
}

#[test]
fn fits_at_respects_bounds_and_overlap() {
    assert!(fits_at(grid(), &[], UVec2::new(8, 4), UVec2::new(4, 4)));
    assert!(
        !fits_at(grid(), &[], UVec2::new(8, 4), UVec2::new(5, 4)),
        "one column past the right edge"
    );
    let occupied = [(UVec2::new(0, 0), UVec2::new(4, 4))];
    assert!(!fits_at(grid(), &occupied, UVec2::new(4, 4), UVec2::new(3, 3)));
    assert!(
        fits_at(grid(), &occupied, UVec2::new(4, 4), UVec2::new(4, 0)),
        "rects are half-open; touching edges is not overlap"
    );
}

#[test]
fn find_free_slot_is_first_fit_row_major() {
    let occupied = [(UVec2::new(0, 0), UVec2::new(8, 4))];
    assert_eq!(
        find_free_slot(grid(), &occupied, UVec2::new(4, 4), None),
        Some(UVec2::new(8, 0)),
        "the first free spot on the top row wins"
    );
    assert_eq!(find_free_slot(grid(), &[], UVec2::new(13, 1), None), None);
    assert_eq!(find_free_slot(grid(), &[], UVec2::zero(), None), None);
}

#[test]
fn find_free_slot_prefers_the_remembered_spot() {
    assert_eq!(
        find_free_slot(grid(), &[], UVec2::new(4, 4), Some(UVec2::new(5, 3))),
        Some(UVec2::new(5, 3))
    );
    let occupied = [(UVec2::new(5, 3), UVec2::one())];
    assert_eq!(
        find_free_slot(grid(), &occupied, UVec2::new(4, 4), Some(UVec2::new(5, 3))),
        Some(UVec2::zero()),
        "a taken spot falls back to first fit"
    );
}

#[test]
fn commit_drag_snaps_to_the_nearest_cell() {
    let cell = 48.0;
    let footprint = UVec2::new(4, 4);
    let (x, y) = snapped(UVec2::zero(), (100.0, 20.0), cell);
    assert_eq!(
        commit_drag(grid(), &[], footprint, x, y),
        Some(UVec2::new(2, 0)),
        "100px right of the origin rounds to column 2"
    );
    let (x, y) = snapped(UVec2::zero(), (-500.0, 9999.0), cell);
    assert_eq!(
        commit_drag(grid(), &[], footprint, x, y),
        Some(UVec2::new(0, 4)),
        "out-of-bounds drags clamp back onto the grid"
    );
    let occupied = [(UVec2::new(0, 4), footprint)];
    let (x, y) = snapped(UVec2::zero(), (0.0, 9999.0), cell);
    assert_eq!(
        commit_drag(grid(), &occupied, footprint, x, y),
        None,
        "an occupied target rejects the drop"
    );
}

#[test]
fn commit_drag_refuses_empty_and_oversized_footprints() {
    assert_eq!(commit_drag(grid(), &[], UVec2::new(0, 2), 1, 1), None);
    assert_eq!(commit_drag(grid(), &[], UVec2::new(13, 2), 0, 0), None);
    assert_eq!(commit_drag(grid(), &[], UVec2::new(12, 8), 3, -3), Some(UVec2::zero()));
}

#[test]
fn rects_overlap_is_half_open_and_symmetric() {
    let a = (UVec2::new(0, 0), UVec2::new(4, 4));
    let b = (UVec2::new(3, 3), UVec2::new(2, 2));
    let c = (UVec2::new(4, 0), UVec2::new(2, 2));
    assert!(rects_overlap(a.0, a.1, b.0, b.1));
    assert!(rects_overlap(b.0, b.1, a.0, a.1));
    assert!(!rects_overlap(a.0, a.1, c.0, c.1));
    assert!(!rects_overlap(c.0, c.1, a.0, a.1));
    assert!(!rects_overlap(a.0, a.1, a.0, UVec2::zero()), "an empty rect covers no cell");
}

#[test]
fn fits_at_works_near_the_integer_limit() {
    let big = UVec2::new(u32::MAX, u32::MAX);
    assert!(!fits_at(big, &[], UVec2::new(2, 2), UVec2::new(u32::MAX - 1, 0)));
    assert!(fits_at(big, &[], UVec2::new(1, 1), UVec2::new(u32::MAX - 1, 0)));
}

#[test]
fn first_fit_scans_rows_before_columns() {
    let small = UVec2::new(4, 3);
    let occupied = [(UVec2::new(0, 0), UVec2::new(3, 1)), (UVec2::new(0, 1), UVec2::new(1, 2))];
    assert_eq!(find_free_slot(small, &occupied, UVec2::new(2, 1), None), Some(UVec2::new(1, 1)));
    assert_eq!(find_free_slot(small, &occupied, UVec2::new(1, 1), None), Some(UVec2::new(3, 0)));
    assert_eq!(find_free_slot(small, &occupied, UVec2::new(4, 1), None), None);
}

#[test]
fn pickups_take_what_fits_in_order() {
    let g = UVec2::new(8, 4);
    let candidates = [
        (1, UVec2::new(4, 4), None),
        (2, UVec2::new(8, 4), None),
        (3, UVec2::new(4, 4), Some(UVec2::new(0, 0))),
    ];
    assert_eq!(plan_pickups(Some(g), Vec::new(), &candidates), vec![1, 3]);
    assert_eq!(plan_pickups(None, Vec::new(), &candidates), vec![1, 2, 3]);
    let occupied = vec![(UVec2::new(0, 0), UVec2::new(4, 4))];
    assert_eq!(plan_pickups(Some(g), occupied, &candidates), vec![1]);
}

#[test]
fn packing_checker_reports_each_broken_rule() {
    let g = UVec2::new(4, 4);
    let held = [
        (10, Some(UVec2::new(0, 0)), UVec2::new(2, 2)),
        (11, None, UVec2::new(1, 1)),
        (12, Some(UVec2::new(1, 1)), UVec2::new(2, 2)),
        (13, Some(UVec2::new(2, 2)), UVec2::new(3, 1)),
    ];
    assert_eq!(
        packing_violations(g, &held),
        vec![
            PackingViolation::Unpacked(11),
            PackingViolation::Overlap(12, 10),
            PackingViolation::OutOfBounds(13),
            PackingViolation::Overlap(13, 12),
        ]
    );
    let sound = [
        (10, Some(UVec2::new(0, 0)), UVec2::new(2, 2)),
        (12, Some(UVec2::new(2, 0)), UVec2::new(2, 4)),
    ];
    assert!(packing_violations(g, &sound).is_empty());
}

#[test]
fn footprints_default_to_one_cell_and_grids_keep_their_size() {
    assert_eq!(ItemFootprint::default().0, UVec2::one());
    assert_eq!(InventoryGrid::new(UVec2::new(12, 8)).size(), UVec2::new(12, 8));
}
