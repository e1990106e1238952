use plot_digitizer::canvas::{AppMode, CanvasState, MoveTarget, CALIB_POINTS};

fn sorted(v: &[usize]) -> Vec<usize> {
    let mut v = v.to_vec();
    v.sort();
    v
}

fn with_selection(mode: AppMode, sel: &[usize]) -> CanvasState {
    let mut s = CanvasState::new(mode);
    s.selected_data_indices = sel.to_vec();
    s
}

#[test]
fn new_canvas_has_nothing_selected() {
    let s = CanvasState::new(AppMode::AddCalib);
    assert_eq!(s.mode, AppMode::AddCalib);
    assert_eq!(s.selected_calib_idx, None);
    assert!(s.selected_data_indices.is_empty());
    assert_eq!(s.dragging_calib_idx, None);
    assert_eq!(s.dragging_data_idx, None);
}

#[test]
fn escape_returns_to_select() {
    let mut s = with_selection(AppMode::Delete, &[1, 2]);
    s.selected_calib_idx = Some(0);
    s.dragging_data_idx = Some(1);
    s.escape();
    assert_eq!(s.mode, AppMode::Select);
    assert_eq!(s.selected_calib_idx, None);
    assert!(s.selected_data_indices.is_empty());
    assert_eq!(s.dragging_data_idx, None);
}

#[test]
fn click_on_calibration_point_selects_it() {
    let mut s = with_selection(AppMode::Select, &[3]);
    s.click_select(Some(2), Some(3), false, false);
    assert_eq!(s.selected_calib_idx, Some(2));
    assert!(s.selected_data_indices.is_empty());
}

#[test]
fn click_on_data_point_replaces_selection() {
    let mut s = with_selection(AppMode::Select, &[1, 4]);
    s.selected_calib_idx = Some(0);
    s.click_select(None, Some(2), false, false);
    assert_eq!(s.selected_data_indices, vec![2]);
    assert_eq!(s.selected_calib_idx, None);
}

#[test]
fn additive_click_toggles() {
    let mut s = with_selection(AppMode::Select, &[1, 4]);
    s.click_select(None, Some(2), false, true);
    assert_eq!(sorted(&s.selected_data_indices), vec![1, 2, 4]);
    s.click_select(None, Some(4), false, true);
    assert_eq!(sorted(&s.selected_data_indices), vec![1, 2]);
}

#[test]
fn two_additive_clicks_restore_selection() {
    let mut s = with_selection(AppMode::Select, &[5, 0]);
    s.click_select(None, Some(3), false, true);
    s.click_select(None, Some(3), false, true);
    assert_eq!(sorted(&s.selected_data_indices), vec![0, 5]);
}

#[test]
fn click_on_empty_space_clears() {
    let mut s = with_selection(AppMode::Select, &[1]);
    s.selected_calib_idx = Some(1);
    s.click_select(None, None, false, true);
    assert_eq!(s.selected_calib_idx, None);
    assert!(s.selected_data_indices.is_empty());
}

#[test]
fn delete_key_removes_selected_points() {
    let mut s = with_selection(AppMode::Select, &[3, 1, 7]);
    let mut data = vec![10, 20, 30, 40, 50];
    s.delete_selected(&mut data);
    assert_eq!(data, vec![10, 30, 50]);
    assert!(s.selected_data_indices.is_empty());
}

#[test]
fn delete_click_keeps_other_selection() {
    let mut s = with_selection(AppMode::Delete, &[0, 2, 3]);
    let mut data = vec!['a', 'b', 'c', 'd'];
    s.delete_data_point(&mut data, 2);
    assert_eq!(data, vec!['a', 'b', 'd']);
    // 'a' stays at 0, 'd' moved from 3 to 2; 'c' is gone.
    assert_eq!(sorted(&s.selected_data_indices), vec![0, 2]);
    for &i in &s.selected_data_indices {
        assert!(data[i] == 'a' || data[i] == 'd');
    }
}

#[test]
fn primary_click_in_delete_mode() {
    let mut s = with_selection(AppMode::Delete, &[1]);
    let mut calib: Vec<(f32, f32)> = vec![];
    let mut data = vec![1, 2, 3];
    let recompute = s.primary_click(&mut calib, &mut data, None, Some(0), false, false, true, (0.0, 0.0), 9);
    assert!(!recompute);
    assert_eq!(data, vec![2, 3]);
    assert_eq!(s.selected_data_indices, vec![0]);
    let recompute = s.primary_click(&mut calib, &mut data, Some(0), None, false, false, true, (0.0, 0.0), 9);
    assert!(!recompute);
    assert_eq!(data, vec![2, 3]);
}

#[test]
fn calibration_points_fill_up_then_switch_to_data() {
    let mut s = CanvasState::new(AppMode::AddCalib);
    let mut calib: Vec<u32> = vec![];
    for k in 0..CALIB_POINTS {
        assert!(s.add_calib_point(&mut calib, k as u32));
        assert_eq!(s.selected_calib_idx, Some(k));
    }
    assert_eq!(calib, vec![0, 1, 2, 3]);
    assert_eq!(s.mode, AppMode::AddData);
    assert!(!s.add_calib_point(&mut calib, 99));
    assert_eq!(calib.len(), 4);
}

#[test]
fn no_fifth_calibration_point() {
    let mut s = CanvasState::new(AppMode::AddCalib);
    let mut calib = vec![1, 2, 3, 4];
    assert!(!s.add_calib_point(&mut calib, 5));
    assert_eq!(calib, vec![1, 2, 3, 4]);
    assert_eq!(s.mode, AppMode::AddCalib);
}

#[test]
fn added_data_point_is_selected() {
    let mut s = with_selection(AppMode::AddData, &[0, 1]);
    s.selected_calib_idx = Some(2);
    let mut data = vec!["p", "q"];
    s.add_data_point(&mut data, "r");
    assert_eq!(data, vec!["p", "q", "r"]);
    assert_eq!(s.selected_data_indices, vec![2]);
    assert_eq!(s.selected_calib_idx, None);
}

#[test]
fn primary_click_adds_points_only_with_an_image() {
    let mut s = CanvasState::new(AppMode::AddData);
    let mut calib: Vec<i32> = vec![];
    let mut data: Vec<i32> = vec![];
    assert!(!s.primary_click(&mut calib, &mut data, None, None, false, false, false, 1, 2));
    assert!(data.is_empty());
    assert!(s.primary_click(&mut calib, &mut data, None, None, false, false, true, 1, 2));
    assert_eq!(data, vec![2]);
    assert!(calib.is_empty());
}

#[test]
fn primary_click_in_pan_mode_changes_nothing() {
    let mut s = with_selection(AppMode::Pan, &[0]);
    let mut calib = vec![1];
    let mut data = vec![1, 2];
    assert!(!s.primary_click(&mut calib, &mut data, Some(0), Some(1), false, true, true, 5, 6));
    assert_eq!(calib, vec![1]);
    assert_eq!(data, vec![1, 2]);
    assert_eq!(s.selected_data_indices, vec![0]);
}

#[test]
fn drag_on_empty_space_starts_box_in_select_mode_only() {
    let mut s = CanvasState::new(AppMode::Select);
    assert!(s.begin_drag(None, None, false));
    let mut s = CanvasState::new(AppMode::AddData);
    assert!(!s.begin_drag(None, None, false));
    let mut s = with_selection(AppMode::Pan, &[2]);
    assert!(!s.begin_drag(Some(1), Some(2), false));
    assert_eq!(s.dragging_calib_idx, None);
    assert_eq!(s.selected_data_indices, vec![2]);
}

#[test]
fn drag_on_points() {
    let mut s = with_selection(AppMode::Select, &[4]);
    assert!(!s.begin_drag(Some(1), None, false));
    assert_eq!(s.dragging_calib_idx, Some(1));
    assert_eq!(s.selected_calib_idx, Some(1));
    assert!(s.selected_data_indices.is_empty());

    let mut s = with_selection(AppMode::AddCalib, &[4]);
    s.begin_drag(None, Some(2), false);
    assert_eq!(s.dragging_data_idx, Some(2));
    assert_eq!(s.selected_data_indices, vec![2]);

    let mut s = with_selection(AppMode::Select, &[4]);
    s.begin_drag(None, Some(2), true);
    assert_eq!(sorted(&s.selected_data_indices), vec![2, 4]);

    // Grabbing a selected point keeps the whole selection, so that it moves together.
    let mut s = with_selection(AppMode::Select, &[4, 2]);
    s.begin_drag(None, Some(2), false);
    assert_eq!(sorted(&s.selected_data_indices), vec![2, 4]);
}

#[test]
fn end_of_drag_lets_go() {
    let mut s = CanvasState::new(AppMode::Select);
    assert!(!s.end_drag());
    s.dragging_data_idx = Some(3);
    assert!(s.end_drag());
    assert_eq!(s.dragging_data_idx, None);
    assert!(!s.end_drag());
}

#[test]
fn box_selection() {
    let inside = vec![false, true, true, false];
    let mut s = with_selection(AppMode::Select, &[0, 9]);
    s.box_select(&inside, false);
    assert_eq!(sorted(&s.selected_data_indices), vec![1, 2]);
    let mut s = with_selection(AppMode::Select, &[0, 2]);
    s.box_select(&inside, true);
    assert_eq!(sorted(&s.selected_data_indices), vec![0, 1, 2]);
}

#[test]
fn nudges_move_calibration_point_first() {
    let mut s = with_selection(AppMode::Select, &[0, 2]);
    s.selected_calib_idx = Some(1);
    assert!(matches!(s.nudge_target(3), MoveTarget::Calib(1)));
    s.selected_calib_idx = None;
    match s.nudge_target(3) {
        MoveTarget::Data(marks) => assert_eq!(marks, vec![true, false, true]),
        _ => panic!("expected data points"),
    }
    let s = CanvasState::new(AppMode::Select);
    assert!(matches!(s.nudge_target(3), MoveTarget::Nothing));
}

#[test]
fn drags_move_dragged_points() {
    let mut s = with_selection(AppMode::Select, &[1, 5]);
    assert!(matches!(s.drag_target(3), MoveTarget::Nothing));
    s.dragging_data_idx = Some(1);
    match s.drag_target(3) {
        MoveTarget::Data(marks) => assert_eq!(marks, vec![false, true, false]),
        _ => panic!("expected data points"),
    }
    s.dragging_calib_idx = Some(0);
    assert!(matches!(s.drag_target(3), MoveTarget::Calib(0)));
}

#[test]
fn selection_marks_ignore_indices_past_the_end() {
    let s = with_selection(AppMode::Select, &[4, 0, 2]);
    assert_eq!(s.selection_marks(3), vec![true, false, true]);
}

#[test]
fn shift_click_selects_range_from_anchor() {
    let mut s = CanvasState::new(AppMode::Select);
    s.click_select(None, Some(2), false, false);
    assert_eq!(s.anchor_data_idx, Some(2));
    s.click_select(None, Some(5), true, false);
    assert_eq!(sorted(&s.selected_data_indices), vec![2, 3, 4, 5]);
    assert_eq!(s.selected_calib_idx, None);
    // The anchor stays, so a second range click reaches back from it.
    s.click_select(None, Some(0), true, false);
    assert_eq!(sorted(&s.selected_data_indices), vec![0, 1, 2]);
    assert_eq!(s.anchor_data_idx, Some(2));
}

#[test]
fn shift_ctrl_click_adds_range() {
    let mut s = CanvasState::new(AppMode::Select);
    s.click_select(None, Some(7), false, false);
    s.click_select(None, Some(1), false, true);
    s.click_select(None, Some(3), true, true);
    assert_eq!(sorted(&s.selected_data_indices), vec![1, 2, 3, 7]);
}

#[test]
fn shift_click_without_anchor_ranges_from_selection() {
    let mut s = with_selection(AppMode::Select, &[4]);
    s.click_select(None, Some(6), true, false);
    assert_eq!(sorted(&s.selected_data_indices), vec![4, 5, 6]);
    let mut s = with_selection(AppMode::Select, &[3, 8]);
    s.click_select(None, Some(5), true, false);
    assert_eq!(sorted(&s.selected_data_indices), vec![3, 4, 5, 6, 7, 8]);
    let mut s = CanvasState::new(AppMode::Select);
    s.click_select(None, Some(6), true, false);
    assert_eq!(s.selected_data_indices, vec![6]);
    assert_eq!(s.anchor_data_idx, Some(6));
}

#[test]
fn shift_click_after_box_selection_ranges_from_it() {
    let mut s = CanvasState::new(AppMode::Select);
    s.click_select(None, Some(0), false, false);
    s.box_select(&vec![false, false, true, false, false, false], false);
    assert_eq!(s.anchor_data_idx, None);
    s.click_select(None, Some(5), true, false);
    assert_eq!(sorted(&s.selected_data_indices), vec![2, 3, 4, 5]);
    assert_eq!(s.selected_calib_idx, None);
}

#[test]
fn grabbing_a_point_sets_the_anchor() {
    let mut s = CanvasState::new(AppMode::Select);
    s.begin_drag(None, Some(3), false);
    s.end_drag();
    assert_eq!(s.anchor_data_idx, Some(3));
    s.click_select(None, Some(1), true, false);
    assert_eq!(sorted(&s.selected_data_indices), vec![1, 2, 3]);
}

#[test]
fn range_click_through_primary_click() {
    let mut s = CanvasState::new(AppMode::Select);
    let mut calib: Vec<u8> = vec![];
    let mut data = vec![0u8; 8];
    s.primary_click(&mut calib, &mut data, None, Some(2), false, false, true, 0, 0);
    s.primary_click(&mut calib, &mut data, None, Some(5), true, false, true, 0, 0);
    assert_eq!(sorted(&s.selected_data_indices), vec![2, 3, 4, 5]);
}

#[test]
fn calibration_indices_stay_in_range() {
    let mut s = CanvasState::new(AppMode::AddCalib);
    let mut calib: Vec<u8> = vec![];
    let mut data: Vec<u8> = vec![];
    for _ in 0..6 {
        s.primary_click(&mut calib, &mut data, None, None, false, false, true, 1, 1);
        assert!(calib.len() <= 4);
        if let Some(c) = s.selected_calib_idx {
            assert!(c < calib.len());
        }
    }
    assert_eq!(calib.len(), 4);
}
