use graphviz_core::layout::{Scheduler, SimState};
use graphviz_core::selection::{InteractionMode, Modifiers, SelectionState};

const NONE: Modifiers = Modifiers { ctrl: false, shift: false };
const CTRL: Modifiers = Modifiers { ctrl: true, shift: false };
const SHIFT: Modifiers = Modifiers { ctrl: false, shift: true };

fn selected(s: &SelectionState) -> Vec<usize> {
    let mut v = s.selected();
    v.sort();
    v
}

#[test]
fn box_then_ctrl_box_selects_then_clears() {
    let mut s = SelectionState::new();
    s.set_preview(&vec![4, 2, 7]);
    assert!(s.is_previewed(2));
    s.finish_box(NONE);
    assert_eq!(selected(&s), vec![2, 4, 7]);
    assert!(s.preview().is_empty());
    s.set_preview(&vec![4, 2, 7]);
    s.finish_box(CTRL);
    assert!(selected(&s).is_empty());
}

#[test]
fn box_with_shift_adds_and_without_replaces() {
    let mut s = SelectionState::new();
    s.click(Some(1), NONE);
    s.set_preview(&vec![3, 3, 5]);
    s.finish_box(SHIFT);
    assert_eq!(selected(&s), vec![1, 3, 5]);
    s.set_preview(&vec![9]);
    s.finish_box(NONE);
    assert_eq!(selected(&s), vec![9]);
}

#[test]
fn ctrl_box_toggles_each_boxed_node() {
    let mut s = SelectionState::new();
    s.set_preview(&vec![1, 2]);
    s.finish_box(NONE);
    s.set_preview(&vec![2, 3]);
    s.finish_box(CTRL);
    assert_eq!(selected(&s), vec![1, 3]);
}

#[test]
fn clicks_replace_add_and_toggle() {
    let mut s = SelectionState::new();
    s.click(Some(3), NONE);
    assert_eq!(selected(&s), vec![3]);
    s.click(Some(5), SHIFT);
    assert_eq!(selected(&s), vec![3, 5]);
    s.click(Some(3), CTRL);
    assert_eq!(selected(&s), vec![5]);
    s.click(Some(8), CTRL);
    assert_eq!(selected(&s), vec![5, 8]);
    s.click(None, SHIFT);
    assert_eq!(selected(&s), vec![5, 8]);
    s.click(Some(1), NONE);
    assert_eq!(selected(&s), vec![1]);
    s.click(None, NONE);
    assert!(selected(&s).is_empty());
}

#[test]
fn dragging_a_selected_node_moves_the_selection() {
    let mut s = SelectionState::new();
    s.set_preview(&vec![1, 2, 3]);
    s.finish_box(NONE);
    let mut t = s.drag_targets(2);
    t.sort();
    assert_eq!(t, vec![1, 2, 3]);
    assert_eq!(s.drag_targets(6), vec![6]);
}

#[test]
fn fit_frames_the_selection_or_everything() {
    let mut s = SelectionState::new();
    assert_eq!(s.nodes_to_fit(3), (vec![0, 1, 2], false));
    s.click(Some(2), NONE);
    assert_eq!(s.nodes_to_fit(3), (vec![2], true));
}

#[test]
fn mode_toggles_between_pan_and_select() {
    assert_eq!(InteractionMode::Pan.toggled(), InteractionMode::Select);
    assert_eq!(InteractionMode::Select.toggled(), InteractionMode::Pan);
}

#[test]
fn scheduler_settles_and_resumes() {
    let mut sch = Scheduler::new();
    assert!(sch.is_running());
    assert!(sch.begin_frame());
    assert!(!sch.begin_frame());
    assert_eq!(sch.frame_count, 2);
    assert!(!sch.end_frame(false));
    assert!(sch.is_running());
    assert!(sch.end_frame(true));
    assert_eq!(sch.state, SimState::Settled);
    assert_eq!(sch.frame_count, 0);
    sch.toggle();
    assert!(sch.is_running());
    sch.begin_frame();
    assert!(!sch.end_frame(true));
    sch.reset();
    assert!(sch.is_running());
    assert!(!sch.clock_started);
    sch.toggle();
    assert_eq!(sch.state, SimState::Settled);
}
