use zeditor::cursors::merge_overlapping;
use zeditor::editor::MultiLineEditor;
use zeditor::position::{Cursor, CursorPosition};

fn pos(line: usize, col: usize) -> CursorPosition {
    CursorPosition::new(line, col)
}

fn editor_with(lines: &[&str], cursors: Vec<Cursor>) -> MultiLineEditor {
    let mut ed = MultiLineEditor::new();
    ed.lines = lines.iter().map(|l| l.as_bytes().to_vec()).collect();
    ed.cursors = cursors;
    assert!(ed.is_well_formed());
    ed
}

fn text(ed: &MultiLineEditor) -> Vec<String> {
    ed.lines.iter().map(|l| String::from_utf8(l.clone()).unwrap()).collect()
}

#[test]
fn merge_sorts_dedups_and_keeps_anchor() {
    let cs = vec![
        Cursor::new(1, 0),
        Cursor::new(0, 3),
        Cursor { position: pos(0, 3), anchor: Some(pos(0, 0)) },
        Cursor { position: pos(0, 3), anchor: Some(pos(0, 1)) },
    ];
    let m = merge_overlapping(&cs);
    assert_eq!(m, vec![Cursor { position: pos(0, 3), anchor: Some(pos(0, 0)) }, Cursor::new(1, 0)]);
    assert_eq!(merge_overlapping(&m), m);
}

#[test]
fn merge_of_empty_and_single() {
    assert_eq!(merge_overlapping(&vec![]), vec![]);
    assert_eq!(merge_overlapping(&vec![Cursor::new(2, 2)]), vec![Cursor::new(2, 2)]);
}

#[test]
fn well_formedness_check_rejects_bad_sets() {
    let mut ed = MultiLineEditor::new();
    assert!(ed.is_well_formed());
    ed.cursors = vec![Cursor::new(0, 1)];
    assert!(!ed.is_well_formed());
    ed.lines = vec![b"ab".to_vec()];
    ed.cursors = vec![Cursor::new(0, 2), Cursor::new(0, 1)];
    assert!(!ed.is_well_formed());
    ed.cursors = vec![];
    assert!(!ed.is_well_formed());
}

#[test]
fn reset_with_text_selects_everything() {
    let mut ed = MultiLineEditor::new();
    ed.reset_with_text(Some("ab\ncde".to_string()));
    assert_eq!(text(&ed), vec!["ab", "cde"]);
    assert_eq!(ed.cursors, vec![Cursor { position: pos(1, 3), anchor: Some(pos(0, 0)) }]);
    ed.reset_with_text(None);
    assert_eq!(text(&ed), vec![""]);
    assert_eq!(ed.cursors, vec![Cursor::new(0, 0)]);
}

#[test]
fn collapse_and_multiple_cursors() {
    let mut ed = editor_with(&["abc"], vec![Cursor { position: pos(0, 1), anchor: Some(pos(0, 0)) }, Cursor::new(0, 2)]);
    assert!(ed.has_multiple_cursors());
    ed.collapse_to_primary_cursor();
    assert!(!ed.has_multiple_cursors());
    assert_eq!(ed.cursors, vec![Cursor::new(0, 1)]);
}

#[test]
fn select_all_spans_document() {
    let mut ed = editor_with(&["ab", "c"], vec![Cursor::new(0, 1)]);
    ed.select_all();
    assert_eq!(ed.cursors, vec![Cursor { position: pos(1, 1), anchor: Some(pos(0, 0)) }]);
}

#[test]
fn add_cursor_up_and_down() {
    let mut ed = editor_with(&["abcdef", "ab", "abcdef"], vec![Cursor::new(1, 2)]);
    ed.add_cursor_up(None);
    assert_eq!(ed.cursors, vec![Cursor::new(0, 2), Cursor::new(1, 2)]);
    ed.add_cursor_up(None);
    assert_eq!(ed.cursors.len(), 2);
    ed.add_cursor_down(Some(5));
    assert_eq!(ed.cursors, vec![Cursor::new(0, 2), Cursor::new(1, 2), Cursor::new(2, 5)]);
    ed.add_cursor_down(None);
    assert_eq!(ed.cursors.len(), 3);
}

#[test]
fn add_cursor_clamps_column_to_line() {
    let mut ed = editor_with(&["a", "abcdef"], vec![Cursor::new(1, 5)]);
    ed.add_cursor_up(None);
    assert_eq!(ed.cursors, vec![Cursor::new(0, 1), Cursor::new(1, 5)]);
}

#[test]
fn vertical_moves_use_hints_and_edges() {
    let mut ed = editor_with(&["abcdef", "ab", "abcdef"], vec![Cursor::new(0, 4)]);
    let none: Vec<Option<usize>> = vec![];
    ed.down(&none);
    assert_eq!(ed.cursors, vec![Cursor::new(1, 2)]);
    ed.down(&vec![None, None, Some(5)]);
    assert_eq!(ed.cursors, vec![Cursor::new(2, 5)]);
    ed.down(&none);
    assert_eq!(ed.cursors, vec![Cursor::new(2, 6)]);
    ed.select_up(&none);
    assert_eq!(ed.cursors, vec![Cursor { position: pos(1, 2), anchor: Some(pos(2, 6)) }]);
    ed.up(&none);
    ed.up(&none);
    assert_eq!(ed.cursors, vec![Cursor::new(0, 0)]);
}

#[test]
fn move_line_up_and_down() {
    let mut ed = editor_with(&["a", "b", "c"], vec![Cursor::new(1, 1)]);
    ed.move_line_up();
    assert_eq!(text(&ed), vec!["b", "a", "c"]);
    assert_eq!(ed.cursors, vec![Cursor::new(0, 1)]);
    ed.move_line_up();
    assert_eq!(text(&ed), vec!["b", "a", "c"]);
    ed.move_line_down();
    ed.move_line_down();
    assert_eq!(text(&ed), vec!["a", "c", "b"]);
    assert_eq!(ed.cursors, vec![Cursor::new(2, 1)]);
    ed.move_line_down();
    assert_eq!(text(&ed), vec!["a", "c", "b"]);
}

#[test]
fn move_line_moves_only_the_span_cursors() {
    let mut ed = editor_with(
        &["x", "ab", "cd", "y"],
        vec![Cursor::new(0, 1), Cursor { position: pos(2, 1), anchor: Some(pos(1, 0)) }],
    );
    ed.move_line_down();
    assert_eq!(text(&ed), vec!["ab", "x", "cd", "y"]);
    assert_eq!(ed.cursors, vec![Cursor::new(1, 1), Cursor { position: pos(2, 1), anchor: Some(pos(1, 0)) }]);
    let mut ed = editor_with(
        &["x", "ab", "cd", "y"],
        vec![Cursor { position: pos(2, 1), anchor: Some(pos(1, 0)) }, Cursor::new(3, 1)],
    );
    ed.move_line_up();
    assert_eq!(text(&ed), vec!["ab", "cd", "x", "y"]);
    assert_eq!(ed.cursors, vec![Cursor { position: pos(1, 1), anchor: Some(pos(0, 0)) }, Cursor::new(3, 1)]);
}

#[test]
fn copy_and_cut_take_primary_selection() {
    let mut ed = editor_with(&["hello", "world"], vec![Cursor { position: pos(1, 2), anchor: Some(pos(0, 3)) }]);
    assert_eq!(ed.copy_text(), Some("lo\nwo".to_string()));
    assert_eq!(ed.cut_text(), Some("lo\nwo".to_string()));
    assert_eq!(text(&ed), vec!["helrld"]);
    assert_eq!(ed.copy_text(), None);
    assert_eq!(ed.cut_text(), None);
}

#[test]
fn mouse_selection_extends_primary() {
    let mut ed = editor_with(&["hello", "world"], vec![Cursor::new(0, 1)]);
    ed.select_primary_to(pos(1, 99));
    assert_eq!(ed.cursors, vec![Cursor { position: pos(1, 5), anchor: Some(pos(0, 1)) }]);
    ed.move_cursors_to(pos(7, 2));
    assert_eq!(ed.cursors, vec![Cursor::new(1, 2)]);
}

#[test]
fn blink_epoch_makes_old_steps_stale() {
    let mut ed = MultiLineEditor::new();
    let epoch = ed.blink_epoch;
    assert_eq!(ed.blink_step(epoch), Some(false));
    assert_eq!(ed.blink_step(epoch), Some(true));
    ed.reset_cursor_blink();
    assert_eq!(ed.blink_step(epoch), None);
    assert_eq!(ed.blink_step(epoch + 1), Some(false));
}

#[test]
fn well_formedness_needs_utf8_and_char_boundaries() {
    let mut ed = MultiLineEditor::new();
    ed.lines = vec![vec![0x61, 0xff]];
    ed.cursors = vec![Cursor::new(0, 0)];
    assert!(!ed.is_well_formed());
    ed.lines = vec!["aé".as_bytes().to_vec()];
    ed.cursors = vec![Cursor::new(0, 2)];
    assert!(!ed.is_well_formed());
    ed.cursors = vec![Cursor::new(0, 3)];
    assert!(ed.is_well_formed());
    ed.cursors = vec![Cursor { position: pos(0, 3), anchor: Some(pos(0, 2)) }];
    assert!(!ed.is_well_formed());
}

#[test]
fn placed_columns_snap_back_to_character_start() {
    let mut ed = editor_with(&["a😀b", "xy"], vec![Cursor::new(0, 0)]);
    ed.move_cursors_to(pos(0, 3));
    assert_eq!(ed.cursors, vec![Cursor::new(0, 1)]);
    ed.move_cursors_to(pos(1, 0));
    ed.up(&vec![Some(4), None]);
    assert_eq!(ed.cursors, vec![Cursor::new(0, 1)]);
    ed.add_cursor_down(Some(7));
    assert_eq!(ed.cursors, vec![Cursor::new(0, 1), Cursor::new(1, 2)]);
}

#[test]
fn overlapping_selections_edit_without_panicking() {
    let mut ed = editor_with(
        &["abcdef"],
        vec![Cursor { position: pos(0, 1), anchor: Some(pos(0, 5)) }, Cursor::new(0, 3)],
    );
    ed.insert_text_at_cursors("Z");
    // The later caret is edited first; the earlier selection then spans 1..5
    // of the edited line, and both cursors end after the last insertion.
    assert_eq!(text(&ed), vec!["aZef"]);
    assert_eq!(ed.cursors, vec![Cursor::new(0, 2)]);
    assert!(ed.is_well_formed());
}

#[test]
fn move_line_leaves_cursors_outside_the_span() {
    let mut ed = editor_with(
        &["l0", "l1", "l2", "l3"],
        vec![Cursor::new(1, 0), Cursor { position: pos(3, 0), anchor: Some(pos(0, 0)) }],
    );
    ed.move_line_up();
    assert_eq!(text(&ed), vec!["l1", "l0", "l2", "l3"]);
    assert_eq!(ed.cursors, vec![Cursor::new(0, 0), Cursor { position: pos(3, 0), anchor: Some(pos(0, 0)) }]);
    let mut ed = editor_with(&["l0", "l1", "l2"], vec![Cursor::new(0, 1), Cursor { position: pos(2, 1), anchor: Some(pos(1, 0)) }]);
    ed.move_line_down();
    assert_eq!(text(&ed), vec!["l1", "l0", "l2"]);
    assert_eq!(ed.cursors, vec![Cursor::new(1, 1), Cursor { position: pos(2, 1), anchor: Some(pos(1, 0)) }]);
}

#[test]
fn move_line_clamps_cursors_on_the_passed_line() {
    let mut ed = editor_with(&["abc", "x", "y"], vec![Cursor::new(1, 1), Cursor { position: pos(2, 1), anchor: Some(pos(0, 3)) }]);
    ed.move_line_up();
    assert_eq!(text(&ed), vec!["x", "abc", "y"]);
    assert_eq!(ed.cursors, vec![Cursor::new(0, 1), Cursor { position: pos(2, 1), anchor: Some(pos(0, 1)) }]);
    let mut ed = editor_with(&["x", "abc"], vec![Cursor::new(0, 1), Cursor::new(1, 3)]);
    ed.move_line_down();
    assert_eq!(text(&ed), vec!["abc", "x"]);
    assert_eq!(ed.cursors, vec![Cursor::new(1, 1)]);
}

#[test]
fn blink_current_epoch_query() {
    let mut ed = MultiLineEditor::new();
    let epoch = ed.blink_epoch;
    assert!(ed.blink_is_current(epoch));
    ed.reset_cursor_blink();
    assert!(!ed.blink_is_current(epoch));
}
