use rico32::editor::IDEEngine;
use rico32::input::Key;

fn lines(ide: &IDEEngine) -> Vec<String> {
    ide.file.iter().map(|l| l.iter().collect()).collect()
}

fn text(s: &str) -> Vec<char> {
    s.chars().collect()
}

/// Presses `keys` for one frame whose count picks the newly pressed keys.
fn press(ide: &mut IDEEngine, held: &[Key], just: &[Key]) {
    ide.keyboard.keys_pressed = held.to_vec();
    ide.keyboard.keys_just_pressed = just.to_vec();
    ide.frame_hash = 1;
    assert!(ide.handle_input().is_ok());
}

fn shortcut(ide: &mut IDEEngine, k: Key) {
    press(ide, &[Key::LControl, k], &[k]);
}

#[test]
fn new_editor_splits_contents_into_lines() {
    let ide = IDEEngine::new("game.r32".to_string(), "a\nbc\n");
    assert_eq!(lines(&ide), vec!["a", "bc", ""]);
    assert_eq!(ide.file_name, "main.lua");
    assert_eq!(ide.cart_path, "game.r32");
    assert_eq!(ide.cursor, (0, 0));
    assert!(ide.selection.is_none());
    assert!(ide.upto_date);
    assert!(ide.files.is_empty());
}

#[test]
fn typing_inserts_and_moves_the_cursor_one_column() {
    let mut ide = IDEEngine::new("c.r32".to_string(), "hello");
    ide.cursor = (5, 0);
    ide.handle_string_input(" world".to_string());
    assert_eq!(lines(&ide), vec!["hello world"]);
    assert_eq!(ide.cursor, (6, 0));
    assert!(!ide.upto_date);
}

#[test]
fn typing_replaces_the_selection() {
    let mut ide = IDEEngine::new("c.r32".to_string(), "abcdef");
    ide.selection = Some(((4, 0), (1, 0)));
    ide.cursor = (4, 0);
    ide.handle_string_input("X".to_string());
    assert_eq!(lines(&ide), vec!["aXef"]);
    assert_eq!(ide.cursor, (2, 0));
    assert!(ide.selection.is_none());
}

#[test]
fn undo_after_typing_restores_text_and_cursor() {
    let mut ide = IDEEngine::new("c.r32".to_string(), "local x");
    ide.cursor = (7, 0);
    ide.handle_string_input(" = 1".to_string());
    assert_eq!(lines(&ide), vec!["local x = 1"]);
    shortcut(&mut ide, Key::Z);
    assert_eq!(lines(&ide), vec!["local x"]);
    assert_eq!(ide.cursor, (7, 0));
}

#[test]
fn redo_after_undo_gives_back_the_typing() {
    let mut ide = IDEEngine::new("c.r32".to_string(), "ab");
    ide.cursor = (1, 0);
    ide.handle_string_input("Z".to_string());
    shortcut(&mut ide, Key::Z);
    assert_eq!(lines(&ide), vec!["ab"]);
    shortcut(&mut ide, Key::R);
    assert_eq!(lines(&ide), vec!["aZb"]);
    assert_eq!(ide.cursor, (2, 0));
}

#[test]
fn undo_with_nothing_recorded_changes_nothing() {
    let mut ide = IDEEngine::new("c.r32".to_string(), "x");
    shortcut(&mut ide, Key::Z);
    assert_eq!(lines(&ide), vec!["x"]);
    assert_eq!(ide.cursor, (0, 0));
}

#[test]
fn return_splits_the_line_and_undo_joins_it() {
    let mut ide = IDEEngine::new("c.r32".to_string(), "foobar");
    ide.cursor = (3, 0);
    press(&mut ide, &[Key::Return], &[Key::Return]);
    assert_eq!(lines(&ide), vec!["foo", "bar"]);
    assert_eq!(ide.cursor, (0, 1));
    shortcut(&mut ide, Key::Z);
    assert_eq!(lines(&ide), vec!["foobar"]);
    assert_eq!(ide.cursor, (3, 0));
}

#[test]
fn backspace_at_line_start_joins_lines_and_undo_splits_them() {
    let mut ide = IDEEngine::new("c.r32".to_string(), "ab\ncd");
    ide.cursor = (0, 1);
    press(&mut ide, &[Key::Back], &[Key::Back]);
    assert_eq!(lines(&ide), vec!["abcd"]);
    assert_eq!(ide.cursor, (2, 0));
    shortcut(&mut ide, Key::Z);
    assert_eq!(lines(&ide), vec!["ab", "cd"]);
    assert_eq!(ide.cursor, (0, 1));
}

#[test]
fn backspace_removes_the_character_before_the_cursor() {
    let mut ide = IDEEngine::new("c.r32".to_string(), "abc");
    ide.cursor = (2, 0);
    press(&mut ide, &[Key::Back], &[Key::Back]);
    assert_eq!(lines(&ide), vec!["ac"]);
    assert_eq!(ide.cursor, (1, 0));
}

#[test]
fn tab_types_four_spaces() {
    let mut ide = IDEEngine::new("c.r32".to_string(), "x");
    press(&mut ide, &[Key::Tab], &[Key::Tab]);
    assert_eq!(lines(&ide), vec!["    x"]);
    assert_eq!(ide.cursor, (1, 0));
}

#[test]
fn arrows_move_across_lines() {
    let mut ide = IDEEngine::new("c.r32".to_string(), "abc\nd");
    ide.cursor = (3, 0);
    press(&mut ide, &[Key::Right], &[Key::Right]);
    assert_eq!(ide.cursor, (0, 1));
    press(&mut ide, &[Key::Left], &[Key::Left]);
    assert_eq!(ide.cursor, (3, 0));
    press(&mut ide, &[Key::Down], &[Key::Down]);
    assert_eq!(ide.cursor, (1, 1));
    press(&mut ide, &[Key::Up], &[Key::Up]);
    assert_eq!(ide.cursor, (1, 0));
}

#[test]
fn shift_arrow_extends_the_selection() {
    let mut ide = IDEEngine::new("c.r32".to_string(), "abc");
    press(&mut ide, &[Key::LShift, Key::Right], &[Key::Right]);
    assert_eq!(ide.selection, Some(((0, 0), (1, 0))));
    press(&mut ide, &[Key::LShift, Key::Right], &[Key::Right]);
    assert_eq!(ide.selection, Some(((0, 0), (2, 0))));
    press(&mut ide, &[Key::Right], &[Key::Right]);
    assert!(ide.selection.is_none());
}

#[test]
fn select_all_and_copy_puts_the_whole_text_on_the_clipboard() {
    let mut ide = IDEEngine::new("c.r32".to_string(), "one\ntwo\nthree");
    press(&mut ide, &[Key::LControl, Key::LShift, Key::A], &[Key::A]);
    assert_eq!(ide.cursor, (5, 2));
    assert_eq!(ide.selection, Some(((0, 0), (5, 2))));
    shortcut(&mut ide, Key::C);
    assert_eq!(ide.clipboard, text("one\ntwo\nthree"));
}

#[test]
fn paste_then_undo_restores_the_text() {
    let mut ide = IDEEngine::new("c.r32".to_string(), "ab");
    ide.clipboard = text("x\ny");
    ide.cursor = (1, 0);
    shortcut(&mut ide, Key::V);
    assert_eq!(lines(&ide), vec!["ax", "yb"]);
    assert_eq!(ide.cursor, (1, 1));
    shortcut(&mut ide, Key::Z);
    assert_eq!(lines(&ide), vec!["ab"]);
    assert_eq!(ide.cursor, (1, 0));
}

#[test]
fn cut_moves_the_selection_to_the_clipboard() {
    let mut ide = IDEEngine::new("c.r32".to_string(), "hello world");
    ide.selection = Some(((5, 0), (11, 0)));
    ide.cursor = (11, 0);
    shortcut(&mut ide, Key::X);
    assert_eq!(lines(&ide), vec!["hello"]);
    assert_eq!(ide.clipboard, text(" world"));
    assert_eq!(ide.cursor, (5, 0));
    shortcut(&mut ide, Key::Z);
    assert_eq!(lines(&ide), vec!["hello world"]);
}

#[test]
fn save_shortcut_marks_the_file_saved_and_hands_out_its_text() {
    let mut ide = IDEEngine::new("c.r32".to_string(), "a\nb");
    ide.handle_string_input("z".to_string());
    assert!(!ide.upto_date);
    shortcut(&mut ide, Key::S);
    assert!(ide.upto_date);
    assert_eq!(ide.pending_save, Some(text("za\nb")));
}

#[test]
fn typing_in_one_file_leaves_other_files_histories() {
    let mut ide = IDEEngine::new("c.r32".to_string(), "a");
    ide.handle_string_input("1".to_string());
    ide.open_file("other.lua".to_string(), "b");
    ide.handle_string_input("2".to_string());
    shortcut(&mut ide, Key::Z);
    assert_eq!(lines(&ide), vec!["b"]);
    ide.open_file("main.lua".to_string(), "1a");
    shortcut(&mut ide, Key::Z);
    assert_eq!(lines(&ide), vec!["a"]);
}

#[test]
fn an_invalid_cursor_is_an_error_where_the_editor_fails() {
    let mut ide = IDEEngine::new("c.r32".to_string(), "ab");
    ide.cursor = (0, 5);
    ide.keyboard.keys_pressed = vec![Key::Right];
    ide.keyboard.keys_just_pressed = vec![Key::Right];
    ide.frame_hash = 1;
    assert!(ide.handle_input().is_err());
    assert!(!ide.can_type());
}

#[test]
fn scrolling_follows_the_cursor() {
    let mut ide = IDEEngine::new("c.r32".to_string(), "x");
    ide.cursor = (40, 50);
    ide.scroll_to_cursor();
    assert_eq!(ide.scroll_offset, (9, 22));
    ide.cursor = (3, 2);
    ide.scroll_to_cursor();
    assert_eq!(ide.scroll_offset, (3, 2));
}

#[test]
fn update_counts_frames_modulo_24() {
    let mut ide = IDEEngine::new("c.r32".to_string(), "x");
    ide.frame_hash = 23;
    assert!(ide.update().is_ok());
    assert_eq!(ide.frame_hash, 0);
}

#[test]
fn select_all_without_shift_loses_the_selection_as_the_cursor_moves() {
    let mut ide = IDEEngine::new("c.r32".to_string(), "one\ntwo");
    shortcut(&mut ide, Key::A);
    assert_eq!(ide.cursor, (3, 1));
    assert!(ide.selection.is_none());
}

#[test]
fn undo_after_typing_over_a_selection_brings_the_selection_text_back() {
    let mut ide = IDEEngine::new("c.r32".to_string(), "one\ntwo\nthree");
    ide.selection = Some(((1, 0), (2, 2)));
    ide.cursor = (2, 2);
    ide.handle_string_input("X".to_string());
    assert_eq!(lines(&ide), vec!["oXree"]);
    assert_eq!(ide.cursor, (2, 0));
    shortcut(&mut ide, Key::Z);
    assert_eq!(lines(&ide), vec!["one", "two", "three"]);
    assert_eq!(ide.cursor, (2, 2));
    shortcut(&mut ide, Key::R);
    assert_eq!(lines(&ide), vec!["oXree"]);
    assert_eq!(ide.cursor, (2, 0));
}

#[test]
fn backspace_over_a_selection_cuts_it_and_undo_restores_it() {
    let mut ide = IDEEngine::new("c.r32".to_string(), "ab\ncd");
    ide.selection = Some(((1, 0), (1, 1)));
    ide.cursor = (1, 1);
    ide.clipboard = text("kept?");
    press(&mut ide, &[Key::Back], &[Key::Back]);
    assert_eq!(lines(&ide), vec!["ad"]);
    assert!(ide.clipboard.is_empty());
    assert_eq!(ide.cursor, (1, 0));
    shortcut(&mut ide, Key::Z);
    assert_eq!(lines(&ide), vec!["ab", "cd"]);
    assert_eq!(ide.cursor, (1, 1));
}

#[test]
fn typing_text_with_a_line_break_splits_the_row() {
    let mut ide = IDEEngine::new("c.r32".to_string(), "ab");
    ide.cursor = (1, 0);
    ide.handle_string_input("x\ny".to_string());
    assert_eq!(lines(&ide), vec!["ax", "yb"]);
    assert_eq!(ide.cursor, (2, 0));
}

#[test]
fn editing_keys_on_a_valid_cursor_never_fail_and_keep_it_valid() {
    let mut ide = IDEEngine::new("c.r32".to_string(), "ab\n\ncde");
    let keys = [
        Key::Left, Key::Up, Key::Right, Key::Right, Key::Right, Key::Down, Key::Down, Key::Tab, Key::Return,
        Key::Back, Key::Back, Key::Back, Key::Left, Key::Left, Key::Up, Key::Up, Key::Up,
    ];
    for k in keys {
        press(&mut ide, &[k], &[k]);
        let (c, r) = ide.cursor;
        assert!(r < ide.file.len() && c <= ide.file[r].len());
    }
    ide.cursor = (0, 0);
    press(&mut ide, &[Key::Left], &[Key::Left]);
    assert_eq!(ide.cursor, (0, 0));
}

#[test]
fn undo_and_redo_move_the_change_between_the_stacks() {
    let mut ide = IDEEngine::new("c.r32".to_string(), "abc");
    ide.cursor = (3, 0);
    press(&mut ide, &[Key::Return], &[Key::Return]);
    let depth = |h: &Vec<rico32::history::FileHistory>| {
        h.iter().find(|f| f.name == "main.lua").map(|f| f.changes.len()).unwrap_or(0)
    };
    assert_eq!(depth(&ide.undo_stack), 1);
    shortcut(&mut ide, Key::Z);
    assert_eq!(depth(&ide.undo_stack), 0);
    assert_eq!(depth(&ide.redo_stack), 1);
    shortcut(&mut ide, Key::R);
    assert_eq!(lines(&ide), vec!["abc", ""]);
    assert_eq!(ide.cursor, (0, 1));
    assert_eq!(depth(&ide.undo_stack), 1);
    assert_eq!(depth(&ide.redo_stack), 0);
}

#[test]
fn the_key_handlers_undo_and_redo_a_backspace() {
    let mut ide = IDEEngine::new("c.r32".to_string(), "abc");
    ide.cursor = (3, 0);
    assert_eq!(ide.handle_special_keys(&vec![Key::Back]).ok(), Some(true));
    assert_eq!(lines(&ide), vec!["ab"]);
    assert_eq!(ide.cursor, (2, 0));
    assert_eq!(ide.handle_special_keys(&vec![Key::LShift]).ok(), Some(false));
    assert_eq!(ide.handle_shortcuts(&vec![Key::Z]).ok(), Some(true));
    assert_eq!(lines(&ide), vec!["abc"]);
    assert_eq!(ide.cursor, (3, 0));
    assert_eq!(ide.handle_shortcuts(&vec![Key::R]).ok(), Some(true));
    assert_eq!(lines(&ide), vec!["ab"]);
    assert_eq!(ide.cursor, (2, 0));
    assert_eq!(ide.handle_shortcuts(&vec![Key::Escape]).ok(), Some(false));
}
