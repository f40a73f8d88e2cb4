use rico32::terminal::{log_fits, parse_command, CommandError, Commands, LogTypes, TermKey, TerminalEngine};

fn texts(t: &TerminalEngine) -> Vec<(bool, String)> {
    t.logs
        .iter()
        .map(|l| match l {
            LogTypes::Info(s) => (false, s.clone()),
            LogTypes::Error(s) => (true, s.clone()),
        })
        .collect()
}

#[test]
fn load_takes_a_cartridge_name_in_lower_case() {
    match parse_command("LOAD Game.R32") {
        Ok(Commands::Load(f)) => assert_eq!(f, "game.r32"),
        _ => panic!("expected a load command"),
    }
    match parse_command("  load   art.r32.txt  extra") {
        Ok(Commands::Load(f)) => assert_eq!(f, "art.r32.txt"),
        _ => panic!("expected a load command"),
    }
}

#[test]
fn save_and_export_take_their_file() {
    assert!(matches!(parse_command("save out.r32"), Ok(Commands::Save(f)) if f == "out.r32"));
    assert!(matches!(parse_command("export mygame"), Ok(Commands::Export(f)) if f == "mygame"));
}

#[test]
fn each_refusal_has_its_error_and_message() {
    assert!(matches!(parse_command(""), Err(CommandError::NotValid)));
    assert!(matches!(parse_command("jump"), Err(CommandError::NotValid)));
    assert!(matches!(parse_command("help"), Err(CommandError::NotValid)));
    assert!(matches!(parse_command("load"), Err(CommandError::MissingFile)));
    assert!(matches!(parse_command("save"), Err(CommandError::MissingFile)));
    assert!(matches!(parse_command("load notes.txt"), Err(CommandError::NotCartridgeToLoad)));
    assert!(matches!(parse_command("save game"), Err(CommandError::NotCartridgeToSave)));
    assert!(matches!(parse_command("export"), Err(CommandError::MissingExportName)));
    assert_eq!(CommandError::NotValid.message(), "Not a valid command");
    assert_eq!(CommandError::MissingFile.message(), "Must pass in a file");
    assert_eq!(CommandError::NotCartridgeToLoad.message(), "Must pass in a .r32 or .r32.txt cartridge to load");
    assert_eq!(CommandError::NotCartridgeToSave.message(), "Must pass in a .r32 or .r32.txt cartridge to save to");
    assert_eq!(CommandError::MissingExportName.message(), "Must pass in file name to export to");
}

#[test]
fn long_messages_are_cut_into_lines_of_thirty_bytes() {
    let mut t = TerminalEngine::new();
    let msg = "a".repeat(65);
    t.add_log(LogTypes::Error(msg));
    assert_eq!(
        texts(&t),
        vec![(true, "a".repeat(30)), (true, "a".repeat(30)), (true, "a".repeat(5))]
    );
}

#[test]
fn a_message_cut_inside_a_character_does_not_fit() {
    let fits = "é".repeat(15);
    assert!(log_fits(&fits));
    let split = format!("x{}", "é".repeat(15));
    assert!(!log_fits(&split));
}

#[test]
fn entering_a_line_echoes_it_and_logs_why_it_was_refused() {
    let mut t = TerminalEngine::new();
    let keys = vec![TermKey::Text("l".to_string()), TermKey::Text("s".to_string()), TermKey::Enter];
    assert!(t.update(&keys).is_ok());
    assert_eq!(texts(&t), vec![(false, ">ls".to_string()), (true, "Not a valid command".to_string())]);
    assert!(t.input.is_empty());
    assert_eq!(t.cursor, 0);
    assert!(t.commands.is_empty());
}

#[test]
fn entering_a_command_queues_it_for_the_frame() {
    let mut t = TerminalEngine::new();
    let keys: Vec<TermKey> =
        "load a.r32".chars().map(|c| TermKey::Text(c.to_string())).chain([TermKey::Enter]).collect();
    assert!(t.update(&keys).is_ok());
    assert_eq!(texts(&t), vec![(false, ">load a.r32".to_string())]);
    assert_eq!(t.commands.len(), 1);
    assert!(matches!(&t.commands[0], Commands::Load(f) if f == "a.r32"));
    assert!(t.update(&vec![]).is_ok());
    assert!(t.commands.is_empty());
}

#[test]
fn editing_keys_move_and_delete_in_the_line() {
    let mut t = TerminalEngine::new();
    let keys = vec![
        TermKey::Text("a".to_string()),
        TermKey::Text("b".to_string()),
        TermKey::Left,
        TermKey::Text("c".to_string()),
        TermKey::Right,
        TermKey::Right,
        TermKey::Back,
        TermKey::Ignored,
    ];
    assert!(t.update(&keys).is_ok());
    assert_eq!(t.input, vec!['a', 'c']);
    assert_eq!(t.cursor, 2);
    assert_eq!(t.frame_hash, 1);
}

#[test]
fn log_lines_read_as_their_text() {
    assert_eq!(LogTypes::Info("hi".to_string()).to_string(), "hi");
    assert_eq!(LogTypes::Error("no".to_string()).to_string(), "no");
}

#[test]
fn a_log_message_of_wide_characters_reads_back_whole() {
    let mut t = TerminalEngine::new();
    let msg = "é".repeat(20);
    assert!(log_fits(&msg));
    t.add_log(LogTypes::Info(msg.clone()));
    let lines = texts(&t);
    assert_eq!(lines, vec![(false, "é".repeat(15)), (false, "é".repeat(5))]);
    let joined: String = lines.iter().map(|(_, s)| s.as_str()).collect();
    assert_eq!(joined, msg);
    assert!(lines.iter().all(|(_, s)| s.len() <= 30));
}

#[test]
fn a_default_terminal_is_empty() {
    let t: TerminalEngine = Default::default();
    assert!(t.logs.is_empty() && t.input.is_empty() && t.commands.is_empty());
    assert_eq!((t.cursor, t.frame_hash), (0, 0));
}

#[test]
fn lower_case_words_read_as_their_command() {
    let words = |v: &[&str]| v.iter().map(|s| s.to_string()).collect::<Vec<String>>();
    assert!(matches!(rico32::terminal::command_from_words(&words(&["load", "a.r32"])), Ok(Commands::Load(f)) if f == "a.r32"));
    assert!(matches!(rico32::terminal::command_from_words(&words(&["LOAD", "a.r32"])), Err(CommandError::NotValid)));
    assert!(matches!(rico32::terminal::command_from_words(&words(&["save", "a"])), Err(CommandError::NotCartridgeToSave)));
    assert!(matches!(rico32::terminal::command_from_words(&words(&[])), Err(CommandError::NotValid)));
}

#[test]
fn only_the_lines_entered_in_one_frame_become_its_commands() {
    let mut t = TerminalEngine::new();
    let mut keys: Vec<TermKey> = "save x.r32".chars().map(|c| TermKey::Text(c.to_string())).collect();
    keys.push(TermKey::Enter);
    keys.extend("bogus".chars().map(|c| TermKey::Text(c.to_string())));
    keys.push(TermKey::Enter);
    keys.extend("export g".chars().map(|c| TermKey::Text(c.to_string())));
    keys.push(TermKey::Enter);
    assert!(t.update(&keys).is_ok());
    assert_eq!(t.commands.len(), 2);
    assert!(matches!(&t.commands[0], Commands::Save(f) if f == "x.r32"));
    assert!(matches!(&t.commands[1], Commands::Export(f) if f == "g"));
    assert!(t.update(&vec![TermKey::Text("z".to_string())]).is_ok());
    assert!(t.commands.is_empty());
}

#[test]
fn the_cursor_counts_bytes_of_the_typed_line() {
    let mut t = TerminalEngine::new();
    assert!(t.update(&vec![TermKey::Text("é".to_string()), TermKey::Right]).is_ok());
    assert_eq!(t.input, vec!['é']);
    assert_eq!(t.cursor, 2);
    assert!(t.update(&vec![TermKey::Text("a".to_string()), TermKey::Left, TermKey::Left]).is_ok());
    assert_eq!(t.input, vec!['é', 'a']);
    assert_eq!(t.cursor, 1);
}

#[test]
fn typing_or_deleting_inside_a_character_fails() {
    let mut t = TerminalEngine::new();
    assert!(t.update(&vec![TermKey::Text("é".to_string())]).is_ok());
    assert_eq!(t.cursor, 1);
    assert!(t.update(&vec![TermKey::Text("a".to_string())]).is_err());
    let mut u = TerminalEngine::new();
    assert!(u.update(&vec![TermKey::Text("é".to_string()), TermKey::Right]).is_ok());
    assert!(u.update(&vec![TermKey::Back]).is_err());
    let mut w = TerminalEngine::new();
    assert!(w.update(&vec![TermKey::Text("a".to_string()), TermKey::Text("é".to_string()), TermKey::Left]).is_ok());
    assert_eq!(w.cursor, 1);
    assert!(w.update(&vec![TermKey::Back]).is_ok());
    assert_eq!(w.input, vec!['é']);
    assert_eq!(w.cursor, 0);
}
