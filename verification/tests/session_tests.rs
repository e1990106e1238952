use plot_digitizer::session::{load_step, shortcut, History, HistoryStep, LoadStep};

#[test]
fn undo_redo_and_paste_shortcuts() {
    // (text_focused, cmd_or_ctrl, shift, z, v, paste_event)
    assert_eq!(shortcut(false, true, false, true, false, false), (false, Some(HistoryStep::Undo)));
    assert_eq!(shortcut(false, true, true, true, false, false), (false, Some(HistoryStep::Redo)));
    assert_eq!(shortcut(false, true, false, false, true, false), (true, None));
    assert_eq!(shortcut(false, false, false, false, false, true), (true, None));
    assert_eq!(shortcut(false, false, false, true, true, false), (false, None));
    assert_eq!(shortcut(false, false, true, true, false, false), (false, None));
}

#[test]
fn no_shortcut_while_typing() {
    assert_eq!(shortcut(true, true, false, true, true, true), (false, None));
    assert_eq!(shortcut(true, true, true, true, false, false), (false, None));
}

#[test]
fn pending_image_steps() {
    assert_eq!(load_step(false, false), LoadStep::Nothing);
    assert_eq!(load_step(false, true), LoadStep::Nothing);
    assert_eq!(load_step(true, true), LoadStep::AskFirst);
    assert_eq!(load_step(true, false), LoadStep::LoadNow);
}

#[test]
fn undo_after_record_gives_back_earlier_state() {
    let mut h: History<i32> = History::new();
    h.record(1);
    h.record(2);
    assert_eq!(h.undo(3), 2);
    assert_eq!(h.undo(2), 1);
    assert_eq!(h.undo(1), 1);
    assert_eq!(h.redo(1), 2);
    assert_eq!(h.redo(2), 3);
    assert_eq!(h.redo(3), 3);
}

#[test]
fn recording_drops_redo() {
    let mut h: History<&str> = History::new();
    h.record("a");
    assert_eq!(h.undo("b"), "a");
    h.record("a");
    assert_eq!(h.redo("c"), "c");
    assert_eq!(h.undo("c"), "a");
}
