use rico32::console::Colors;
use rico32::editor::IDEEngine;
use rico32::files::{is_script_file, script_key, sync_files};
use rico32::highlight::{highlight_lua_line, lua_tokens, Token};
use rico32::input::Key;
use rico32::render::{decimal_chars, name_less, Draw};
use rico32::terminal::{LogTypes, TermKey, TerminalEngine};
use rico32::watch::{should_update, EventKind, FileEvent};

fn listing(v: &[(&str, i64)]) -> Vec<(String, i64)> {
    v.iter().map(|(n, t)| (n.to_string(), *t)).collect()
}

fn sorted(mut v: Vec<(String, i64)>) -> Vec<(String, i64)> {
    v.sort();
    v
}

fn chars(s: &str) -> Vec<char> {
    s.chars().collect()
}

#[derive(Debug, PartialEq)]
enum D {
    Clear(Colors),
    Rect(i32, i32, i32, i32, Colors),
    Text(i32, i32, Colors, String),
    Small(i32, i32, Colors, String),
    Plus(i32, i32),
}

fn plain(v: &[Draw]) -> Vec<D> {
    v.iter()
        .map(|d| match d {
            Draw::Clear(c) => D::Clear(*c),
            Draw::Rect(x, y, w, h, c) => D::Rect(*x, *y, *w, *h, *c),
            Draw::Text(x, y, c, t) => D::Text(*x, *y, *c, t.clone()),
            Draw::SmallText(x, y, c, t) => D::Small(*x, *y, *c, t.clone()),
            Draw::PlusSign(x, y) => D::Plus(*x, *y),
        })
        .collect()
}

fn tokens() -> Vec<Token> {
    lua_tokens().expect("the Lua patterns compile")
}

#[test]
fn a_change_to_a_lua_file_calls_for_saving_the_scripts() {
    let lua = FileEvent { kind: EventKind::Any, path: "r32/main.lua".to_string() };
    let txt = FileEvent { kind: EventKind::Any, path: "r32/notes.txt".to_string() };
    let series = FileEvent { kind: EventKind::AnyContinuous, path: "r32/a.lua".to_string() };
    assert!(should_update(&vec![txt, lua]));
    let txt = FileEvent { kind: EventKind::Any, path: "r32/notes.txt".to_string() };
    assert!(!should_update(&vec![txt, series]));
    assert!(!should_update(&vec![]));
}

#[test]
fn syncing_takes_the_listing_and_reports_what_went() {
    let mut files = listing(&[("main.lua", 1), ("old.lua", 2)]);
    let (changed, gone) = sync_files(&mut files, &listing(&[("main.lua", 1), ("new.lua", 5)]));
    assert!(changed);
    assert_eq!(gone, vec!["old.lua".to_string()]);
    assert_eq!(sorted(files.clone()), listing(&[("main.lua", 1), ("new.lua", 5)]));
    let (changed, gone) = sync_files(&mut files, &listing(&[("new.lua", 5), ("main.lua", 1)]));
    assert!(!changed);
    assert!(gone.is_empty());
    let (changed, _) = sync_files(&mut files, &listing(&[("new.lua", 6), ("main.lua", 1)]));
    assert!(changed);
    assert_eq!(sorted(files), listing(&[("main.lua", 1), ("new.lua", 6)]));
}

#[test]
fn when_the_open_file_goes_main_lua_is_to_be_opened() {
    let mut ide = IDEEngine::new("c.r32".to_string(), "x");
    let first = ide.update_files(&listing(&[("main.lua", 1), ("b.lua", 1)]));
    assert!(first.changed);
    assert!(first.reopen.is_none());
    ide.open_file("b.lua".to_string(), "bee");
    assert_eq!(ide.file_name, "b.lua");
    assert_eq!(ide.file, vec![chars("bee")]);
    let second = ide.update_files(&listing(&[("main.lua", 1)]));
    assert!(second.changed);
    assert_eq!(second.reopen, Some("main.lua".to_string()));
    let third = ide.update_files(&listing(&[("main.lua", 1)]));
    assert!(!third.changed);
}

#[test]
fn refreshing_the_open_script_takes_its_text_and_keeps_a_fitting_cursor() {
    let mut ide = IDEEngine::new("c.r32".to_string(), "hello\nworld");
    ide.cursor = (3, 1);
    ide.handle_string_input("!".to_string());
    assert!(!ide.upto_date);
    ide.refresh_script(&"other.lua".to_string(), "zzz");
    assert_eq!(ide.file.len(), 2);
    ide.refresh_script(&"main.lua".to_string(), "a\nbcdef");
    assert_eq!(ide.file, vec![chars("a"), chars("bcdef")]);
    assert_eq!(ide.cursor, (4, 1));
    assert!(ide.upto_date);
    ide.refresh_script(&"main.lua".to_string(), "a\nb");
    assert_eq!(ide.cursor, (0, 0));
}

#[test]
fn script_names_and_keys() {
    assert!(is_script_file("main.lua"));
    assert!(!is_script_file("main.lu"));
    assert!(!is_script_file("lua"));
    assert_eq!(script_key("lib\\util.lua"), "lib/util.lua");
    assert_eq!(script_key("plain.lua"), "plain.lua");
}

#[test]
fn numbers_are_written_in_decimal() {
    assert_eq!(decimal_chars(0), chars("0"));
    assert_eq!(decimal_chars(7), chars("7"));
    assert_eq!(decimal_chars(120), chars("120"));
    assert_eq!(decimal_chars(98765), chars("98765"));
}

#[test]
fn names_are_ordered_as_strings_are() {
    let pairs = [("a", "b"), ("ab", "a"), ("a", "ab"), ("Z", "a"), ("same", "same"), ("", "x")];
    for (a, b) in pairs {
        assert_eq!(name_less(&chars(a), &chars(b)), a < b, "{a} < {b}");
    }
}

#[test]
fn a_lua_line_is_cut_into_coloured_tokens() {
    let ts = tokens();
    let pieces = highlight_lua_line(&ts, "local x = 10 -- count").ok().unwrap();
    let expected: Vec<(String, Colors)> = vec![
        ("local", Colors::Blue),
        (" ", Colors::Silver),
        ("x", Colors::Silver),
        (" ", Colors::Silver),
        ("=", Colors::Teal),
        (" ", Colors::Silver),
        ("10", Colors::Yellow),
        (" ", Colors::Silver),
        ("-- count", Colors::Gray),
    ]
    .into_iter()
    .map(|(s, c)| (s.to_string(), c))
    .collect();
    assert_eq!(pieces, expected);
}

#[test]
fn strings_and_rico_calls_have_their_colours() {
    let ts = tokens();
    let pieces = highlight_lua_line(&ts, "rico:log(\"hi\")").ok().unwrap();
    assert_eq!(pieces[0], ("rico:".to_string(), Colors::Purple));
    assert_eq!(pieces[1], ("log".to_string(), Colors::Silver));
    assert_eq!(pieces[2], ("(".to_string(), Colors::Silver));
    assert_eq!(pieces[3], ("\"hi\"".to_string(), Colors::Orange));
    assert_eq!(pieces[4], (")".to_string(), Colors::Silver));
}

#[test]
fn a_leading_multibyte_character_cannot_be_highlighted() {
    let ts = tokens();
    assert!(highlight_lua_line(&ts, "é").is_err());
}

#[test]
fn the_screen_shows_text_cursor_status_and_file_list() {
    let mut ide = IDEEngine::new("c.r32".to_string(), "x = 1\nend");
    ide.update_files(&listing(&[("main.lua", 1), ("a.lua", 2)]));
    ide.cursor = (1, 1);
    ide.frame_hash = 11;
    ide.upto_date = false;
    assert!(ide.can_render());
    let draws = plain(&ide.render(&tokens()).ok().unwrap());
    let expected = vec![
        D::Clear(Colors::Black),
        D::Text(1, 1, Colors::Silver, "x".to_string()),
        D::Text(5, 1, Colors::Silver, " ".to_string()),
        D::Text(9, 1, Colors::Teal, "=".to_string()),
        D::Text(13, 1, Colors::Silver, " ".to_string()),
        D::Text(17, 1, Colors::Yellow, "1".to_string()),
        D::Text(1, 7, Colors::Blue, "end".to_string()),
        D::Rect(5, 7, 1, 6, Colors::Yellow),
        D::Rect(0, 179, 128, 7, Colors::Silver),
        D::Text(1, 180, Colors::Black, "main.lua* LINE 2/2".to_string()),
        D::Small(1, 196, Colors::Silver, "MAIN.LUA".to_string()),
        D::Small(1, 191, Colors::Silver, "A.LUA".to_string()),
        D::Rect(1, 202, 7, 7, Colors::Silver),
        D::Plus(2, 203),
    ];
    assert_eq!(draws, expected);
}

#[test]
fn the_selection_is_marked_row_by_row() {
    let mut ide = IDEEngine::new("c.r32".to_string(), "abcd\nef\nghi");
    ide.selection = Some(((2, 2), (1, 0)));
    ide.frame_hash = 0;
    let draws = plain(&ide.render(&tokens()).ok().unwrap());
    assert_eq!(draws[0], D::Clear(Colors::Black));
    assert_eq!(draws[1], D::Rect(5, 1, 12, 6, Colors::Teal));
    assert_eq!(draws[2], D::Rect(1, 7, 8, 6, Colors::Teal));
    assert_eq!(draws[3], D::Rect(1, 13, 8, 6, Colors::Teal));
    assert_eq!(draws[4], D::Text(1, 1, Colors::Silver, "abcd".to_string()));
}

#[test]
fn a_selection_that_does_not_fit_cannot_be_drawn() {
    let mut ide = IDEEngine::new("c.r32".to_string(), "ab");
    ide.selection = Some(((0, 0), (0, 3)));
    assert!(!ide.can_render());
}

#[test]
fn clicks_on_the_file_list_and_the_add_button() {
    let mut ide = IDEEngine::new("c.r32".to_string(), "x");
    ide.update_files(&listing(&[("main.lua", 1), ("a.lua", 2)]));
    ide.mouse.just_pressed = true;
    ide.mouse.x = 3;
    ide.mouse.y = 197;
    assert_eq!(ide.clicked_file(), Some("main.lua".to_string()));
    ide.mouse.y = 191;
    assert_eq!(ide.clicked_file(), Some("a.lua".to_string()));
    ide.mouse.y = 205;
    assert_eq!(ide.clicked_file(), None);
    assert_eq!(ide.add_button_clicked(), Some("2.lua".to_string()));
    ide.mouse.x = 9;
    assert_eq!(ide.add_button_clicked(), None);
    ide.mouse.x = 3;
    ide.mouse.just_pressed = false;
    assert_eq!(ide.add_button_clicked(), None);
}

#[test]
fn file_entries_are_listed_in_name_order_five_pixels_apart() {
    let mut ide = IDEEngine::new("c.r32".to_string(), "x");
    ide.update_files(&listing(&[("zeta.lua", 1), ("alpha.lua", 1), ("main.lua", 1)]));
    let draws = plain(&ide.render(&tokens()).ok().unwrap());
    let entries: Vec<&D> = draws.iter().filter(|d| matches!(d, D::Small(..))).collect();
    assert_eq!(
        entries,
        vec![
            &D::Small(1, 201, Colors::Silver, "ZETA.LUA".to_string()),
            &D::Small(1, 191, Colors::Silver, "ALPHA.LUA".to_string()),
            &D::Small(1, 196, Colors::Silver, "MAIN.LUA".to_string()),
        ]
    );
}

#[test]
fn the_terminal_shows_its_last_log_lines_and_the_typed_line() {
    let mut t = TerminalEngine::new();
    for i in 0..40 {
        t.add_log(if i % 2 == 0 { LogTypes::Info(format!("m{i}")) } else { LogTypes::Error(format!("e{i}")) });
    }
    assert!(t.update(&vec![TermKey::Text("a".to_string()), TermKey::Text("b".to_string())]).is_ok());
    t.frame_hash = 12;
    let draws = plain(&t.render());
    assert_eq!(draws.len(), 1 + 38 + 2);
    assert_eq!(draws[0], D::Clear(Colors::Gray));
    assert_eq!(draws[1], D::Text(1, 20, Colors::Black, "m2".to_string()));
    assert_eq!(draws[2], D::Text(1, 26, Colors::Maroon, "e3".to_string()));
    assert_eq!(draws[38], D::Text(1, 242, Colors::Maroon, "e39".to_string()));
    assert_eq!(draws[39], D::Rect(9, 250, 1, 5, Colors::White));
    assert_eq!(draws[40], D::Text(1, 250, Colors::Black, "ab".to_string()));
}

#[test]
fn the_folder_is_looked_at_every_half_second() {
    assert!(!rico32::files::files_check_due(499));
    assert!(rico32::files::files_check_due(500));
}

#[test]
fn long_lines_out_of_view_do_not_stop_drawing() {
    let long = "x".repeat(5000);
    let text = format!("a\n{long}\n{long}");
    let mut ide = IDEEngine::new("c.r32".to_string(), &text);
    ide.selection = Some(((0, 1), (4000, 2)));
    ide.cursor = (4000, 2);
    ide.scroll_to_cursor();
    assert!(ide.can_render());
    let draws = plain(&ide.render(&tokens()).ok().unwrap());
    assert_eq!(draws[0], D::Clear(Colors::Black));
    assert_eq!(ide.scroll_offset, (3969, 0));
    assert_eq!(draws[1], D::Rect(1, 7, 20000, 6, Colors::Teal));
    assert_eq!(draws[2], D::Rect(1, 13, 16000, 6, Colors::Teal));
    assert_eq!(draws[3], D::Text(1, 7, Colors::Silver, "x".repeat(32)));
    assert_eq!(draws[4], D::Text(1, 13, Colors::Silver, "x".repeat(32)));
}

#[test]
fn a_held_arrow_or_edit_key_shows_the_cursor_between_blinks() {
    let mut ide = IDEEngine::new("c.r32".to_string(), "ab");
    ide.cursor = (1, 0);
    ide.frame_hash = 3;
    let quiet = plain(&ide.render(&tokens()).ok().unwrap());
    assert!(!quiet.contains(&D::Rect(5, 1, 1, 6, Colors::Yellow)));
    ide.keyboard.keys_pressed = vec![Key::Left, Key::LShift, Key::Back];
    assert!(ide.can_render());
    let held = plain(&ide.render(&tokens()).ok().unwrap());
    assert_eq!(held.len(), quiet.len() + 2);
    assert_eq!(held[held.len() - 2], D::Rect(5, 1, 1, 6, Colors::Yellow));
    assert_eq!(held[held.len() - 1], D::Rect(5, 1, 1, 6, Colors::Yellow));
}
