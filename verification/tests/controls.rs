use nd_renderer::controls::{
    drag_rotation, fewer_subdivisions, free_axes, lower_facet_rank, more_subdivisions,
    raise_facet_rank, scroll_action, DragKeys, DragRotation, ScaleTarget, ScrollAction,
    ScrollDirection,
};

const NO_KEYS: DragKeys =
    DragKeys { control: false, z: false, x: false, c: false, v: false, b: false, n: false };

#[test]
fn subdivisions_go_up_by_one() {
    assert_eq!(more_subdivisions(1), 2);
    assert_eq!(more_subdivisions(7), 8);
}

#[test]
fn subdivisions_go_down_by_one() {
    assert_eq!(fewer_subdivisions(5), 4);
    assert_eq!(fewer_subdivisions(2), 1);
}

#[test]
fn subdivisions_never_reach_zero() {
    assert_eq!(fewer_subdivisions(1), 1);
}

#[test]
fn more_then_fewer_subdivisions_restore() {
    for s in 1..20 {
        assert_eq!(fewer_subdivisions(more_subdivisions(s)), s);
    }
}

#[test]
fn facet_rank_rises_up_to_dimension_minus_one() {
    assert_eq!(raise_facet_rank(2, 5), 3);
    assert_eq!(raise_facet_rank(4, 5), 4);
    assert_eq!(raise_facet_rank(9, 5), 4);
}

#[test]
fn facet_rank_falls_down_to_two() {
    assert_eq!(lower_facet_rank(4), 3);
    assert_eq!(lower_facet_rank(3), 2);
    assert_eq!(lower_facet_rank(2), 2);
    assert_eq!(lower_facet_rank(1), 2);
}

#[test]
fn facet_rank_in_a_plane() {
    assert_eq!(raise_facet_rank(2, 2), 1);
    assert_eq!(lower_facet_rank(raise_facet_rank(2, 2)), 2);
}

#[test]
fn facet_rank_stays_in_range() {
    for d in 3..8usize {
        for r in 2..d {
            let up = raise_facet_rank(r, d);
            let down = lower_facet_rank(r);
            assert!(2 <= up && up <= d - 1);
            assert!(2 <= down && down <= d - 1);
        }
    }
}

#[test]
fn plain_drag_turns_depth_axis() {
    assert_eq!(drag_rotation(NO_KEYS, 4), Some(DragRotation { axis: 2, inverted: false }));
}

#[test]
fn control_drag_turns_fourth_axis_inverted() {
    let keys = DragKeys { control: true, z: true, ..NO_KEYS };
    assert_eq!(drag_rotation(keys, 4), Some(DragRotation { axis: 3, inverted: true }));
}

#[test]
fn letter_keys_pick_higher_axes() {
    assert_eq!(drag_rotation(DragKeys { z: true, ..NO_KEYS }, 10).unwrap().axis, 4);
    assert_eq!(drag_rotation(DragKeys { x: true, ..NO_KEYS }, 10).unwrap().axis, 5);
    assert_eq!(drag_rotation(DragKeys { c: true, ..NO_KEYS }, 10).unwrap().axis, 6);
    assert_eq!(drag_rotation(DragKeys { v: true, ..NO_KEYS }, 10).unwrap().axis, 7);
    assert_eq!(drag_rotation(DragKeys { b: true, ..NO_KEYS }, 10).unwrap().axis, 8);
    assert_eq!(drag_rotation(DragKeys { n: true, ..NO_KEYS }, 10).unwrap().axis, 9);
}

#[test]
fn drag_towards_missing_axis_does_nothing() {
    assert_eq!(drag_rotation(DragKeys { z: true, ..NO_KEYS }, 4), None);
    assert_eq!(drag_rotation(NO_KEYS, 2), None);
}

#[test]
fn wheel_back_with_control_moves_camera_away() {
    assert_eq!(
        scroll_action(ScrollDirection::Back, true, true),
        ScrollAction { target: ScaleTarget::ZoomAndRenderSize, enlarge: true }
    );
}

#[test]
fn wheel_forward_with_control_moves_camera_closer() {
    assert_eq!(
        scroll_action(ScrollDirection::Forward, true, false),
        ScrollAction { target: ScaleTarget::ZoomAndRenderSize, enlarge: false }
    );
}

#[test]
fn wheel_with_shift_changes_edge_width() {
    assert_eq!(
        scroll_action(ScrollDirection::Back, false, true),
        ScrollAction { target: ScaleTarget::EdgeWidth, enlarge: false }
    );
    assert_eq!(
        scroll_action(ScrollDirection::Forward, false, true),
        ScrollAction { target: ScaleTarget::EdgeWidth, enlarge: true }
    );
}

#[test]
fn wheel_alone_resizes_picture() {
    assert_eq!(
        scroll_action(ScrollDirection::Back, false, false),
        ScrollAction { target: ScaleTarget::RenderSize, enlarge: false }
    );
    assert_eq!(
        scroll_action(ScrollDirection::Forward, false, false),
        ScrollAction { target: ScaleTarget::RenderSize, enlarge: true }
    );
}

#[test]
fn wheel_back_and_forward_cancel() {
    for control in [false, true] {
        for shift in [false, true] {
            let back = scroll_action(ScrollDirection::Back, control, shift);
            let forward = scroll_action(ScrollDirection::Forward, control, shift);
            assert_eq!(back.target, forward.target);
            assert_ne!(back.enlarge, forward.enlarge);
        }
    }
}

#[test]
fn free_axes_skip_depth() {
    assert_eq!(free_axes(5), vec![0, 1, 3, 4]);
    assert_eq!(free_axes(3), vec![0, 1]);
    assert_eq!(free_axes(2), vec![0, 1]);
    assert_eq!(free_axes(0), vec![]);
}
