use rico32::console::{
    add_ext, exported_message, hello_world, help_lines, loaded_message, plan_commands, saved_message, Cartridge,
    Colors, Step, TargetOs, SPRITE_COUNT, SPRITE_SIZE,
};
use rico32::input::{
    bind_keyboard, bind_mouse_input, bind_mouse_move, check_mouse_bounds, contains_key, ElementState, Key,
    Keyboard, MouseButton, MousePress,
};
use rico32::screen::{
    button_targets, char_target, copy_pixels_into_buffer, exits_on, key_target, pointer_targets, scale_row,
    Screen, Target,
};
use rico32::terminal::{Commands, LogTypes};

fn log_texts(v: &[LogTypes]) -> Vec<(bool, String)> {
    v.iter()
        .map(|l| match l {
            LogTypes::Info(s) => (false, s.clone()),
            LogTypes::Error(s) => (true, s.clone()),
        })
        .collect()
}

#[test]
fn a_new_cartridge_has_blank_sprites_and_the_hello_world_script() {
    let cart = Cartridge::new_default();
    assert_eq!(cart.sprite_sheet.len(), SPRITE_COUNT);
    for sprite in &cart.sprite_sheet {
        assert_eq!(sprite.len(), SPRITE_SIZE);
        for row in sprite {
            assert_eq!(row.len(), SPRITE_SIZE);
            assert!(row.iter().all(|c| *c == Colors::Blank));
        }
    }
    assert_eq!(cart.scripts.len(), 1);
    assert_eq!(cart.scripts[0].0, "main.lua");
    assert_eq!(cart.scripts[0].1, hello_world());
    assert!(hello_world().starts_with("function start()\n    rico:log(\"Welcome to RICO-32!\")"));
    assert!(hello_world().ends_with("    end\nend"));
    let d: Cartridge = Default::default();
    assert_eq!(d.scripts[0].0, "main.lua");
}

#[test]
fn executables_get_the_systems_extension_once() {
    assert_eq!(add_ext("game".to_string(), TargetOs::Linux), "game.linux");
    assert_eq!(add_ext("game.linux".to_string(), TargetOs::Linux), "game.linux");
    assert_eq!(add_ext("game".to_string(), TargetOs::Windows), "game.exe");
    assert_eq!(add_ext("game.exe".to_string(), TargetOs::Windows), "game.exe");
    assert_eq!(add_ext("game".to_string(), TargetOs::Other), "game");
}

#[test]
fn help_lists_the_commands_and_explains_each() {
    assert_eq!(log_texts(&help_lines(None)).len(), 4);
    assert_eq!(log_texts(&help_lines(None))[3], (false, "see help <cmd> for more information.".to_string()));
    let load = "load".to_string();
    assert_eq!(log_texts(&help_lines(Some(&load)))[1], (false, "Usage: load <filename>".to_string()));
    let export = "export".to_string();
    assert_eq!(help_lines(Some(&export)).len(), 3);
    let other = "dance".to_string();
    assert_eq!(log_texts(&help_lines(Some(&other))), vec![(true, "dance is not a valid command".to_string())]);
}

#[test]
fn commands_become_steps_and_the_last_load_wins() {
    let cmds = vec![
        Commands::Load("a.r32".to_string()),
        Commands::Save("b.r32".to_string()),
        Commands::Export("game".to_string()),
        Commands::Help(None),
        Commands::Load("c.r32".to_string()),
    ];
    let (steps, load) = plan_commands(&cmds, TargetOs::Windows);
    assert_eq!(load, Some("c.r32".to_string()));
    assert_eq!(steps.len(), 3);
    assert!(matches!(&steps[0], Step::Save(f) if f == "b.r32"));
    assert!(matches!(&steps[1], Step::Export(f) if f == "game.exe"));
    assert!(matches!(&steps[2], Step::Log(l) if l.len() == 4));
    let (none, no_load) = plan_commands(&vec![], TargetOs::Linux);
    assert!(none.is_empty());
    assert!(no_load.is_none());
}

#[test]
fn result_messages_name_the_file() {
    let f = "x.r32".to_string();
    assert_eq!(saved_message(&f), "Successfully saved cartridge to x.r32");
    assert_eq!(exported_message(&f), "Successfully exported to x.r32");
    assert_eq!(loaded_message(&f), "Successfully loaded cartridge from x.r32");
}

#[test]
fn pressing_and_releasing_keys_updates_both_sets() {
    let mut k = Keyboard::new();
    bind_keyboard(&mut k, ElementState::Pressed, Key::A);
    bind_keyboard(&mut k, ElementState::Pressed, Key::A);
    bind_keyboard(&mut k, ElementState::Pressed, Key::LShift);
    assert_eq!(k.keys_pressed, vec![Key::A, Key::LShift]);
    assert_eq!(k.keys_just_pressed, vec![Key::A, Key::LShift]);
    bind_keyboard(&mut k, ElementState::Released, Key::A);
    assert_eq!(k.keys_pressed, vec![Key::LShift]);
    assert_eq!(k.keys_just_pressed, vec![Key::A, Key::LShift]);
    assert!(contains_key(&k.keys_pressed, Key::LShift));
    assert!(!contains_key(&k.keys_pressed, Key::A));
}

#[test]
fn only_the_left_button_counts() {
    let mut m = MousePress::new();
    bind_mouse_input(&mut m, MouseButton::Right, ElementState::Pressed);
    assert!(!m.pressed && !m.just_pressed);
    bind_mouse_input(&mut m, MouseButton::Left, ElementState::Pressed);
    assert!(m.pressed && m.just_pressed);
    bind_mouse_input(&mut m, MouseButton::Left, ElementState::Released);
    assert!(!m.pressed);
}

#[test]
fn the_pointer_is_placed_in_console_pixels_or_taken_off_the_screen() {
    let mut m = MousePress::new();
    m.pressed = true;
    bind_mouse_move(&mut m, 100, 70, 0, 32, 512, 512);
    assert_eq!((m.x, m.y), (25, 9));
    assert!(m.pressed);
    bind_mouse_move(&mut m, 100, 10, 0, 32, 512, 512);
    assert_eq!((m.x, m.y), (-1, -1));
    assert!(!m.pressed && !m.just_pressed);
    let mut n = MousePress::new();
    n.x = 600;
    n.y = 5;
    assert!(check_mouse_bounds(&mut n, 0, 0, 512, 32));
    assert_eq!((n.x, n.y), (-1, -1));
    n.x = 512;
    n.y = 32;
    assert!(!check_mouse_bounds(&mut n, 0, 0, 512, 32));
}

#[test]
fn input_goes_to_the_shown_screen() {
    assert_eq!(char_target(Screen::Ide, 'a'), Some(Target::Ide));
    assert_eq!(char_target(Screen::Terminal, 'a'), Some(Target::Terminal));
    assert_eq!(char_target(Screen::Game, 'a'), None);
    assert_eq!(char_target(Screen::Ide, '\u{8}'), None);
    assert_eq!(key_target(Screen::Game), Target::GameScript);
    assert!(exits_on(Key::Escape));
    assert!(!exits_on(Key::A));
    assert_eq!(button_targets(Screen::Game), vec![Target::Nav, Target::GameScript, Target::GameConsole]);
    assert_eq!(button_targets(Screen::Ide), vec![Target::Nav]);
    assert_eq!(
        pointer_targets(Screen::Sprite),
        vec![(Target::Nav, (0, 0, 512, 32)), (Target::Sprite, (0, 32, 512, 1024))]
    );
}

#[test]
fn each_console_pixel_becomes_a_four_by_four_block() {
    let red = (255u8, 0u8, 0u8, 255u8);
    let blue = (0u8, 0u8, 255u8, 255u8);
    let pixels = vec![vec![red, blue]];
    let row = scale_row(&pixels, 2, 3);
    assert_eq!(row.len(), 32);
    assert_eq!(&row[0..4], &[255, 0, 0, 255]);
    assert_eq!(&row[12..16], &[255, 0, 0, 255]);
    assert_eq!(&row[16..20], &[0, 0, 255, 255]);
    let mut buffer = vec![0u8; 512 * 4 * 8];
    copy_pixels_into_buffer(&pixels, &mut buffer, 1, 2);
    let at = |x: usize, y: usize| &buffer[(y * 512 + x) * 4..(y * 512 + x) * 4 + 4];
    assert_eq!(at(1, 2), &[255, 0, 0, 255]);
    assert_eq!(at(4, 5), &[255, 0, 0, 255]);
    assert_eq!(at(5, 5), &[0, 0, 255, 255]);
    assert_eq!(at(0, 2), &[0, 0, 0, 0]);
    assert_eq!(at(1, 6), &[0, 0, 0, 0]);
}
