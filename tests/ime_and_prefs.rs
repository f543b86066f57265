use zeditor::editor::MultiLineEditor;
use zeditor::position::{Cursor, CursorPosition};
use zeditor::preferences::{gpui_key_to_vk, record_hotkey, HotkeyConfig, Preferences};
use zeditor::signals::{
    get_error, is_prefs_requested, is_show_requested, set_error, set_initial_text, str_eq, take_pending_clipboard,
    version_string, HotkeySignals,
};
use zeditor::utf16::{offset_from_utf16, offset_to_utf16};

fn pos(line: usize, col: usize) -> CursorPosition {
    CursorPosition::new(line, col)
}

fn editor_with(lines: &[&str], cursors: Vec<Cursor>) -> MultiLineEditor {
    let mut ed = MultiLineEditor::new();
    ed.lines = lines.iter().map(|l| l.as_bytes().to_vec()).collect();
    ed.cursors = cursors;
    assert!(ed.is_well_formed());
    ed
}

fn text(ed: &MultiLineEditor) -> Vec<String> {
    ed.lines.iter().map(|l| String::from_utf8(l.clone()).unwrap()).collect()
}

#[test]
fn utf16_offsets_count_astral_characters_twice() {
    let s = "a😀é\nb";
    assert_eq!(offset_to_utf16(s, 0), 0);
    assert_eq!(offset_to_utf16(s, 1), 1);
    assert_eq!(offset_to_utf16(s, 5), 3);
    assert_eq!(offset_to_utf16(s, 7), 4);
    assert_eq!(offset_to_utf16(s, 100), 6);
    assert_eq!(offset_from_utf16(s, 3), 5);
    assert_eq!(offset_from_utf16(s, 4), 7);
    assert_eq!(offset_from_utf16(s, 100), s.len());
}

#[test]
fn utf16_round_trip_on_boundaries() {
    let s = "x😀yé中\n";
    for o in 0..=s.len() {
        if s.is_char_boundary(o) {
            assert_eq!(offset_from_utf16(s, offset_to_utf16(s, o)), o);
        }
    }
}

#[test]
fn ime_text_and_selection_ranges() {
    let ed = editor_with(&["a😀b", "cd"], vec![Cursor { position: pos(0, 1), anchor: Some(pos(1, 1)) }]);
    let (t, actual) = ed.text_for_range((1, 6));
    assert_eq!(t, "😀b\nc");
    assert_eq!(actual, (1, 6));
    let (t, _) = ed.text_for_range((1, 5));
    assert_eq!(t, "😀b\n");
    assert_eq!(ed.selected_text_range(), ((1, 6), true));
    assert_eq!(ed.marked_text_range(), None);
    assert_eq!(ed.utf16_offset_of(pos(1, 1)), 6);
    assert_eq!(ed.positions_of_utf16_range((3, 6)), (pos(0, 5), pos(1, 1)));
}

#[test]
fn ime_reversed_range_is_clamped() {
    let ed = editor_with(&["abc"], vec![Cursor::new(0, 0)]);
    let (t, actual) = ed.text_for_range((2, 1));
    assert_eq!(t, "");
    assert_eq!(actual, (2, 2));
}

#[test]
fn ime_replace_and_mark_then_commit() {
    let mut ed = editor_with(&["ab"], vec![Cursor::new(0, 1)]);
    ed.replace_and_mark_text_in_range(None, "ka", Some((1, 1)));
    assert_eq!(text(&ed), vec!["akab"]);
    assert_eq!(ed.marked_range, Some((1, 3)));
    assert_eq!(ed.marked_text_range(), Some((1, 3)));
    assert_eq!(ed.cursors, vec![Cursor::new(0, 2)]);
    ed.replace_text_in_range(None, "か");
    assert_eq!(text(&ed), vec!["aかb"]);
    assert_eq!(ed.cursors, vec![Cursor::new(0, 4)]);
    assert_eq!(ed.marked_range, None);
}

#[test]
fn ime_replace_given_range() {
    let mut ed = editor_with(&["hello"], vec![Cursor::new(0, 0)]);
    ed.replace_text_in_range(Some((1, 4)), "EY\nX");
    assert_eq!(text(&ed), vec!["hEY", "Xo"]);
    assert_eq!(ed.cursors, vec![Cursor::new(1, 1)]);
    ed.unmark_text();
    assert_eq!(ed.marked_range, None);
}

#[test]
fn hotkey_signals_are_consumed() {
    let mut s = HotkeySignals::new();
    assert!(!is_prefs_requested(&mut s));
    s.prefs_requested = true;
    assert!(is_prefs_requested(&mut s));
    assert!(!is_prefs_requested(&mut s));
    set_initial_text(&mut s, "hi".to_string());
    assert!(is_show_requested(&mut s));
    assert!(!is_show_requested(&mut s));
    assert_eq!(take_pending_clipboard(&mut s), Some("hi".to_string()));
    assert_eq!(take_pending_clipboard(&mut s), None);
    assert_eq!(get_error(&s), None);
    set_error(&mut s, Some("failed".to_string()));
    assert_eq!(get_error(&s), Some("failed".to_string()));
}

#[test]
fn version_string_for_dev_and_release() {
    assert_eq!(version_string("0.1.0", "abc123", "2024-01-01"), "Zeditor dev (abc123, 2024-01-01)");
    assert_eq!(version_string("1.2.0", "abc123", "2024-01-01"), "Zeditor v1.2.0");
    assert!(str_eq("é", "é"));
    assert!(!str_eq("e", "é"));
}

#[test]
fn key_names_map_to_carbon_codes() {
    assert_eq!(gpui_key_to_vk("a"), Some(0x00));
    assert_eq!(gpui_key_to_vk("e"), Some(0x0E));
    assert_eq!(gpui_key_to_vk("f12"), Some(0x6F));
    assert_eq!(gpui_key_to_vk("\\"), Some(0x2A));
    assert_eq!(gpui_key_to_vk("`"), Some(0x32));
    assert_eq!(gpui_key_to_vk("enter"), None);
}

#[test]
fn recording_a_hotkey() {
    assert!(record_hotkey(false, true, false, false, "a").is_none());
    assert!(record_hotkey(true, false, false, false, "enter").is_none());
    let c = record_hotkey(true, true, false, true, "k").unwrap();
    assert_eq!(c.key_code, 0x28);
    assert_eq!(c.modifiers, 256 | 512 | 4096);
    assert_eq!(c.display_string, "Ctrl+Shift+Cmd+K");
}

#[test]
fn default_hotkey_is_cmd_shift_e() {
    let c = HotkeyConfig::default();
    assert_eq!(c.key_code, 0x0E);
    assert_eq!(c.modifiers, (1 << 8) | (1 << 9));
    assert_eq!(c.display_string, "Cmd+Shift+E");
    assert_eq!(Preferences::default().hotkey.display_string, "Cmd+Shift+E");
}
