use zeditor::buffer::{delete_range, flat_offset, flat_text, insert_at, position_from_flat, split_text, text_in_range};
use zeditor::editor::{Expansion, MultiLineEditor};
use zeditor::position::{Cursor, CursorPosition};

fn editor_with(lines: &[&str], cursors: Vec<Cursor>) -> MultiLineEditor {
    let mut ed = MultiLineEditor::new();
    ed.lines = lines.iter().map(|l| l.as_bytes().to_vec()).collect();
    ed.cursors = cursors;
    assert!(ed.is_well_formed());
    ed
}

fn lines_of(ed: &MultiLineEditor) -> Vec<String> {
    ed.lines.iter().map(|l| String::from_utf8(l.clone()).unwrap()).collect()
}

fn pos(line: usize, col: usize) -> CursorPosition {
    CursorPosition::new(line, col)
}

#[test]
fn enter_at_line_end_opens_empty_line() {
    let mut ed = editor_with(&["hello", "world"], vec![Cursor::new(0, 5)]);
    ed.enter();
    assert_eq!(lines_of(&ed), vec!["hello", "", "world"]);
    assert_eq!(ed.cursors, vec![Cursor::new(1, 0)]);
}

#[test]
fn backspace_at_line_end_removes_last_char() {
    let mut ed = editor_with(&["abc"], vec![Cursor::new(0, 3)]);
    ed.backspace();
    assert_eq!(lines_of(&ed), vec!["ab"]);
    assert_eq!(ed.cursors, vec![Cursor::new(0, 2)]);
}

#[test]
fn insert_at_two_carets_shifts_later_caret() {
    let mut ed = editor_with(&["foo bar"], vec![Cursor::new(0, 0), Cursor::new(0, 4)]);
    ed.insert_text_at_cursors("X");
    assert_eq!(lines_of(&ed), vec!["Xfoo Xbar"]);
    assert_eq!(ed.cursors, vec![Cursor::new(0, 1), Cursor::new(0, 6)]);
}

#[test]
fn submit_text_whole_buffer_or_selection() {
    let mut ed = editor_with(&["line1", "line2", "line3"], vec![Cursor::new(0, 0)]);
    assert_eq!(ed.get_submit_text(), "line1\nline2\nline3");
    ed.cursors = vec![Cursor { position: pos(1, 0), anchor: Some(pos(0, 0)) }];
    assert_eq!(ed.get_submit_text(), "line1\n");
    assert_eq!(lines_of(&ed), vec!["line1", "line2", "line3"]);
}

#[test]
fn submit_text_joins_same_line_selections_with_space() {
    let ed = editor_with(
        &["foo bar baz", "qux"],
        vec![
            Cursor { position: pos(0, 3), anchor: Some(pos(0, 0)) },
            Cursor { position: pos(0, 7), anchor: Some(pos(0, 4)) },
            Cursor { position: pos(1, 3), anchor: Some(pos(1, 0)) },
        ],
    );
    assert_eq!(ed.get_submit_text(), "foo bar\nqux");
}

#[test]
fn submit_text_orders_selections_by_start() {
    let ed = editor_with(
        &["ab cd"],
        vec![
            Cursor { position: pos(0, 1), anchor: Some(pos(0, 3)) },
            Cursor { position: pos(0, 2), anchor: None },
            Cursor { position: pos(0, 4), anchor: Some(pos(0, 0)) },
        ],
    );
    assert_eq!(ed.get_submit_text(), "ab c b ");
}

#[test]
fn word_left_lands_at_word_start() {
    let mut ed = editor_with(&["foo  bar"], vec![Cursor::new(0, 8)]);
    ed.word_left();
    assert_eq!(ed.cursors, vec![Cursor::new(0, 5)]);
    let mut ed = editor_with(&["foo  bar"], vec![Cursor::new(0, 6)]);
    ed.word_left();
    assert_eq!(ed.cursors, vec![Cursor::new(0, 5)]);
    let mut ed = editor_with(&["foo  bar"], vec![Cursor::new(0, 5)]);
    ed.word_left();
    assert_eq!(ed.cursors, vec![Cursor::new(0, 0)]);
}

#[test]
fn word_right_goes_to_next_word_start() {
    let mut ed = editor_with(&["foo bar baz"], vec![Cursor::new(0, 1)]);
    ed.word_right();
    assert_eq!(ed.cursors, vec![Cursor::new(0, 4)]);
    ed.word_right();
    assert_eq!(ed.cursors, vec![Cursor::new(0, 8)]);
    ed.word_right();
    assert_eq!(ed.cursors, vec![Cursor::new(0, 11)]);
}

#[test]
fn word_moves_wrap_between_lines() {
    let mut ed = editor_with(&["ab", "cd"], vec![Cursor::new(1, 0)]);
    ed.word_left();
    assert_eq!(ed.cursors, vec![Cursor::new(0, 2)]);
    ed.word_right();
    assert_eq!(ed.cursors, vec![Cursor::new(1, 0)]);
}

#[test]
fn word_left_treats_accented_letters_and_underscore_as_word() {
    let mut ed = editor_with(&["x été_1"], vec![Cursor::new(0, 9)]);
    ed.word_left();
    assert_eq!(ed.cursors, vec![Cursor::new(0, 2)]);
}

#[test]
fn right_moves_over_whole_grapheme_cluster() {
    // "e" followed by a combining acute accent is one cluster of three bytes.
    let mut ed = editor_with(&["e\u{301}x"], vec![Cursor::new(0, 0)]);
    ed.right();
    assert_eq!(ed.cursors, vec![Cursor::new(0, 3)]);
    ed.left();
    assert_eq!(ed.cursors, vec![Cursor::new(0, 0)]);
}

#[test]
fn left_and_right_stop_at_document_edges_and_wrap_lines() {
    let mut ed = editor_with(&["a", "b"], vec![Cursor::new(0, 0)]);
    ed.left();
    assert_eq!(ed.cursors, vec![Cursor::new(0, 0)]);
    ed.right();
    ed.right();
    assert_eq!(ed.cursors, vec![Cursor::new(1, 0)]);
    ed.right();
    ed.right();
    assert_eq!(ed.cursors, vec![Cursor::new(1, 1)]);
}

#[test]
fn left_collapses_selection_to_its_start() {
    let mut ed = editor_with(&["hello"], vec![Cursor { position: pos(0, 4), anchor: Some(pos(0, 1)) }]);
    ed.left();
    assert_eq!(ed.cursors, vec![Cursor::new(0, 1)]);
    let mut ed = editor_with(&["hello"], vec![Cursor { position: pos(0, 1), anchor: Some(pos(0, 4)) }]);
    ed.right();
    assert_eq!(ed.cursors, vec![Cursor::new(0, 4)]);
}

#[test]
fn select_left_keeps_anchor() {
    let mut ed = editor_with(&["hello"], vec![Cursor::new(0, 3)]);
    ed.select_left();
    ed.select_left();
    assert_eq!(ed.cursors, vec![Cursor { position: pos(0, 1), anchor: Some(pos(0, 3)) }]);
}

#[test]
fn home_end_and_document_moves() {
    let mut ed = editor_with(&["abc", "de"], vec![Cursor::new(0, 1)]);
    ed.end();
    assert_eq!(ed.cursors, vec![Cursor::new(0, 3)]);
    ed.home();
    assert_eq!(ed.cursors, vec![Cursor::new(0, 0)]);
    ed.document_end();
    assert_eq!(ed.cursors, vec![Cursor::new(1, 2)]);
    ed.document_start();
    assert_eq!(ed.cursors, vec![Cursor::new(0, 0)]);
    ed.select_document_end();
    assert_eq!(ed.cursors, vec![Cursor { position: pos(1, 2), anchor: Some(pos(0, 0)) }]);
}

#[test]
fn select_document_start_merges_cursors() {
    let mut ed = editor_with(&["abc", "de"], vec![Cursor::new(0, 2), Cursor::new(1, 1)]);
    ed.select_document_start();
    assert_eq!(ed.cursors, vec![Cursor { position: pos(0, 0), anchor: Some(pos(0, 2)) }]);
}

#[test]
fn backspace_at_line_start_joins_lines() {
    let mut ed = editor_with(&["ab", "cd"], vec![Cursor::new(1, 0)]);
    ed.backspace();
    assert_eq!(lines_of(&ed), vec!["abcd"]);
    assert_eq!(ed.cursors, vec![Cursor::new(0, 2)]);
}

#[test]
fn backspace_at_document_start_does_nothing() {
    let mut ed = editor_with(&["ab"], vec![Cursor::new(0, 0)]);
    ed.backspace();
    assert_eq!(lines_of(&ed), vec!["ab"]);
    assert_eq!(ed.cursors, vec![Cursor::new(0, 0)]);
}

#[test]
fn delete_forward_and_at_line_end() {
    let mut ed = editor_with(&["ab", "cd"], vec![Cursor::new(0, 1)]);
    ed.delete();
    assert_eq!(lines_of(&ed), vec!["a", "cd"]);
    ed.delete();
    assert_eq!(lines_of(&ed), vec!["acd"]);
    let mut ed = editor_with(&["ab"], vec![Cursor::new(0, 2)]);
    ed.delete();
    assert_eq!(lines_of(&ed), vec!["ab"]);
}

#[test]
fn delete_removes_whole_multibyte_character() {
    let mut ed = editor_with(&["aéb"], vec![Cursor::new(0, 1)]);
    ed.delete();
    assert_eq!(lines_of(&ed), vec!["ab"]);
    let mut ed = editor_with(&["a😀"], vec![Cursor::new(0, 5)]);
    ed.backspace();
    assert_eq!(lines_of(&ed), vec!["a"]);
}

#[test]
fn delete_to_start_and_word_backward() {
    let mut ed = editor_with(&["hello world"], vec![Cursor::new(0, 11)]);
    ed.delete_word_backward();
    assert_eq!(lines_of(&ed), vec!["hello "]);
    ed.delete_to_start();
    assert_eq!(lines_of(&ed), vec![""]);
    assert_eq!(ed.cursors, vec![Cursor::new(0, 0)]);
}

#[test]
fn selection_is_replaced_by_typed_text() {
    let mut ed = editor_with(&["hello", "world"], vec![Cursor { position: pos(1, 2), anchor: Some(pos(0, 3)) }]);
    ed.insert_text_at_cursors("P");
    assert_eq!(lines_of(&ed), vec!["helPrld"]);
    assert_eq!(ed.cursors, vec![Cursor::new(0, 4)]);
}

#[test]
fn multi_line_insert_at_caret() {
    let mut ed = editor_with(&["abcd"], vec![Cursor::new(0, 2)]);
    ed.insert_text_at_cursors("1\n2\n3");
    assert_eq!(lines_of(&ed), vec!["ab1", "2", "3cd"]);
    assert_eq!(ed.cursors, vec![Cursor::new(2, 1)]);
}

#[test]
fn multi_cursor_newline_on_separate_lines() {
    let mut ed = editor_with(&["ab", "cd"], vec![Cursor::new(0, 1), Cursor::new(1, 1)]);
    ed.enter();
    assert_eq!(lines_of(&ed), vec!["a", "b", "c", "d"]);
    assert_eq!(ed.cursors, vec![Cursor::new(1, 0), Cursor::new(3, 0)]);
}

#[test]
fn multi_cursor_backspace_merges_collapsing_carets() {
    let mut ed = editor_with(&["abc"], vec![Cursor::new(0, 1), Cursor::new(0, 2)]);
    ed.backspace();
    assert_eq!(lines_of(&ed), vec!["c"]);
    assert_eq!(ed.cursors, vec![Cursor::new(0, 0)]);
}

#[test]
fn multi_cursor_insert_equals_bottom_up_single_inserts() {
    let carets = vec![Cursor::new(0, 1), Cursor::new(1, 0), Cursor::new(1, 2), Cursor::new(2, 3)];
    let mut ed = editor_with(&["abc", "de", "fgh"], carets.clone());
    ed.insert_text_at_cursors("x\ny");
    let mut lines: Vec<Vec<u8>> = vec![b"abc".to_vec(), b"de".to_vec(), b"fgh".to_vec()];
    for c in carets.iter().rev() {
        insert_at(&mut lines, c.position, b"x\ny");
    }
    assert_eq!(ed.lines, lines);
}

#[test]
fn insert_then_delete_restores_lines() {
    let before: Vec<Vec<u8>> = vec![b"one".to_vec(), b"two".to_vec()];
    for text in [&b""[..], b"zz", b"a\nb", b"\n\n"] {
        let mut lines = before.clone();
        let p = pos(1, 1);
        let end = insert_at(&mut lines, p, text);
        let removed = delete_range(&mut lines, p, end);
        assert_eq!(lines, before);
        assert_eq!(removed, text.to_vec());
    }
}

#[test]
fn text_in_range_spans_lines() {
    let lines: Vec<Vec<u8>> = vec![b"abc".to_vec(), b"def".to_vec(), b"ghi".to_vec()];
    assert_eq!(text_in_range(&lines, pos(0, 1), pos(2, 2)), b"bc\ndef\ngh".to_vec());
    assert_eq!(text_in_range(&lines, pos(1, 1), pos(1, 1)), Vec::<u8>::new());
}

#[test]
fn split_text_keeps_empty_segments() {
    assert_eq!(split_text(b""), vec![Vec::<u8>::new()]);
    assert_eq!(split_text(b"a\n\nb\n"), vec![b"a".to_vec(), vec![], b"b".to_vec(), vec![]]);
}

#[test]
fn flat_offsets_round_trip() {
    let lines: Vec<Vec<u8>> = vec![b"ab".to_vec(), vec![], b"cde".to_vec()];
    assert_eq!(flat_text(&lines), b"ab\n\ncde".to_vec());
    assert_eq!(flat_offset(&lines, pos(2, 1)), 5);
    assert_eq!(flat_offset(&lines, pos(0, 9)), 2);
    for line in 0..3 {
        for col in 0..=lines[line].len() {
            let p = pos(line, col);
            assert_eq!(position_from_flat(&lines, flat_offset(&lines, p)), p);
        }
    }
    for o in 0..=7 {
        assert_eq!(flat_offset(&lines, position_from_flat(&lines, o)), o);
    }
    assert_eq!(position_from_flat(&lines, 100), pos(2, 3));
}

#[test]
fn expansion_kind_is_exposed() {
    let mut ed = editor_with(&["ab cd"], vec![Cursor::new(0, 5)]);
    ed.edit_with_cursors(Expansion::WordBackward, "X");
    assert_eq!(lines_of(&ed), vec!["ab X"]);
}
