use nexview::nexrad::detection::{cells_fit, lowest_member, RotationDetector, RotationStrength};

#[test]
fn cluster_of_five_adjacent_gates_is_reported() {
    let cells = vec![(10, 20), (10, 21), (11, 22), (12, 22), (12, 24)];
    let groups = RotationDetector::group_candidates(&cells);
    assert_eq!(groups, vec![vec![0, 1, 2, 3, 4]]);
}

#[test]
fn cluster_of_four_gates_is_dropped() {
    let cells = vec![(0, 0), (0, 1), (0, 2), (0, 3)];
    assert!(RotationDetector::group_candidates(&cells).is_empty());
}

#[test]
fn gates_three_bins_apart_are_not_linked() {
    // Two runs of five gates separated by a gap of three range gates.
    let mut cells = Vec::new();
    for g in 0..5 {
        cells.push((5, g));
    }
    for g in 8..13 {
        cells.push((5, g));
    }
    let groups = RotationDetector::group_candidates(&cells);
    assert_eq!(groups, vec![vec![0, 1, 2, 3, 4], vec![5, 6, 7, 8, 9]]);
}

#[test]
fn clusters_listed_by_first_member_with_interleaved_indices() {
    // Two clusters whose members alternate in the input.
    let cells = vec![
        (0, 0), (50, 0), (0, 2), (50, 2), (0, 4), (50, 4), (0, 6), (50, 6), (0, 8), (50, 8),
    ];
    let groups = RotationDetector::group_candidates(&cells);
    assert_eq!(groups, vec![vec![0, 2, 4, 6, 8], vec![1, 3, 5, 7, 9]]);
}

#[test]
fn duplicate_cells_are_not_linked_to_each_other() {
    // Five candidates on one cell: none is a neighbour of another.
    let cells = vec![(3, 3); 5];
    assert!(RotationDetector::group_candidates(&cells).is_empty());
}

#[test]
fn chain_links_through_diagonal_steps() {
    let cells = vec![(0, 0), (2, 2), (4, 4), (6, 6), (8, 8), (100, 100)];
    let groups = RotationDetector::group_candidates(&cells);
    assert_eq!(groups, vec![vec![0, 1, 2, 3, 4]]);
}

#[test]
fn empty_candidates_give_no_cluster() {
    assert!(RotationDetector::group_candidates(&Vec::new()).is_empty());
}

#[test]
fn cells_fit_checks_coordinate_bound() {
    assert!(cells_fit(&vec![(0, 0), (2147483645, 5)]));
    assert!(!cells_fit(&vec![(0, 0), (2147483646, 5)]));
}

#[test]
fn vertical_continuity_needs_two_tilts() {
    // Detections 0 (tilt 0) and 1 (tilt 1) are near each other; 2 is alone.
    let tilts = vec![0, 1, 0];
    let near = vec![
        vec![false, true, false],
        vec![true, false, false],
        vec![false, false, false],
    ];
    let groups = RotationDetector::apply_vertical_continuity(&tilts, &near);
    assert_eq!(groups, vec![vec![0, 1]]);
}

#[test]
fn vertical_continuity_ignores_high_tilts_and_repeated_tilts() {
    // 0 on tilt 0; 1 on tilt 0 too (same tilt, skipped); 2 on tilt 5 (not a low
    // tilt); 3 on tilt 2, near 0.
    let tilts = vec![0, 0, 5, 2];
    let near = vec![vec![true; 4]; 4];
    let groups = RotationDetector::apply_vertical_continuity(&tilts, &near);
    // 0 gathers 3; then 1 is unused but its candidates are used or on its tilt.
    assert_eq!(groups, vec![vec![0, 3]]);
}

#[test]
fn vertical_continuity_uses_each_detection_once() {
    let tilts = vec![0, 1, 2, 1];
    let near = vec![vec![true; 4]; 4];
    let groups = RotationDetector::apply_vertical_continuity(&tilts, &near);
    // 0 gathers 1 (tilt 1) and 2 (tilt 2); 3 alone has one tilt.
    assert_eq!(groups, vec![vec![0, 1, 2]]);
}

#[test]
fn vertical_continuity_gathers_earlier_unused_detections() {
    // 0 finds no partner; 1 then gathers 0.
    let tilts = vec![0, 1];
    let near = vec![vec![false, false], vec![true, false]];
    let groups = RotationDetector::apply_vertical_continuity(&tilts, &near);
    assert_eq!(groups, vec![vec![1, 0]]);
}

#[test]
fn lowest_member_picks_lowest_tilt() {
    let tilts = vec![3, 1, 2, 1];
    assert_eq!(lowest_member(&tilts, &vec![0, 2, 3, 1]), 3);
    assert_eq!(lowest_member(&tilts, &vec![0, 2]), 2);
}

#[test]
fn rotation_strength_names() {
    assert_eq!(RotationStrength::Weak.name(), "Weak");
    assert_eq!(RotationStrength::Moderate.name(), "Moderate");
    assert_eq!(RotationStrength::Strong.name(), "Strong");
}

#[test]
fn grid_keys_wrap_as_i32() {
    assert!(cells_fit(&vec![(4294967295, 0), (2147483650, 7)]));
    assert!(!cells_fit(&vec![(2147483648, 0)]));
    let cells = vec![(0, 0), (4294967295, 0), (1, 1), (4294967294, 1), (0, 2)];
    let groups = RotationDetector::group_candidates(&cells);
    assert_eq!(groups, vec![vec![0, 1, 2, 3, 4]]);
}
