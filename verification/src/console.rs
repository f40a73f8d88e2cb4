use vstd::prelude::*;
use vstd::string::StringExecFns;

use crate::terminal::{ends_with, Commands, CommandView, LogTypes};

verus! {

/// Sprites are square, this many console pixels a side.
pub const SPRITE_SIZE: usize = 8;

/// Sprites in a cartridge's sheet.
pub const SPRITE_COUNT: usize = 60;

/// The console's colours (with `Blank` for a transparent pixel).
#[derive(PartialEq, Eq, Structural, Clone, Copy, Debug)]
pub enum Colors {
    Blank,
    Black,
    Maroon,
    Purple,
    Teal,
    Gray,
    Silver,
    Orange,
    Yellow,
    Blue,
    White,
}

/// A cartridge: its sprites, each a square of pixels, and its scripts, each
/// a file name with its text.
pub struct Cartridge {
    pub sprite_sheet: Vec<Vec<Vec<Colors>>>,
    pub scripts: Vec<(String, String)>,
}

/// The script of a new cartridge.
pub fn hello_world() -> (r: String)
    ensures
        r@ == hello_world_text(),
{
    String::from_str(
        "function start()\n    rico:log(\"Welcome to RICO-32!\")\n    rico:set_frame_rate(60)\nend\n\nfunction update(dt)\n    rico:clear(\"BLACK\")\n    rico:print_scr(10, 10, \"WHITE\", \"Hello, World!\")\n    \n    local mouse = rico:mouse()\n    if mouse.pressed then\n        rico:circle(mouse.x, mouse.y, 5, \"RED\")\n    end\nend",
    )
}

/// The text of the script of a new cartridge.
pub open spec fn hello_world_text() -> Seq<char> {
    "function start()\n    rico:log(\"Welcome to RICO-32!\")\n    rico:set_frame_rate(60)\nend\n\nfunction update(dt)\n    rico:clear(\"BLACK\")\n    rico:print_scr(10, 10, \"WHITE\", \"Hello, World!\")\n    \n    local mouse = rico:mouse()\n    if mouse.pressed then\n        rico:circle(mouse.x, mouse.y, 5, \"RED\")\n    end\nend"@
}

/// A square sprite of blank pixels.
fn blank_sprite() -> (r: Vec<Vec<Colors>>)
    ensures
        r@.len() == SPRITE_SIZE,
        forall|i: int| 0 <= i < SPRITE_SIZE ==> #[trigger] r@[i]@ == Seq::new(SPRITE_SIZE as nat, |j: int| Colors::Blank),
{
    let mut rows: Vec<Vec<Colors>> = Vec::new();
    let mut i: usize = 0;
    while i < SPRITE_SIZE
        invariant
            i <= SPRITE_SIZE,
            rows@.len() == i,
            forall|k: int| 0 <= k < i ==> #[trigger] rows@[k]@ == Seq::new(SPRITE_SIZE as nat, |j: int| Colors::Blank),
        decreases SPRITE_SIZE - i,
    {
        let mut row: Vec<Colors> = Vec::new();
        let mut j: usize = 0;
        while j < SPRITE_SIZE
            invariant
                j <= SPRITE_SIZE,
                row@ == Seq::new(j as nat, |x: int| Colors::Blank),
            decreases SPRITE_SIZE - j,
        {
            row.push(Colors::Blank);
            j += 1;
            assert(row@ =~= Seq::new(j as nat, |x: int| Colors::Blank));
        }
        rows.push(row);
        i += 1;
    }
    rows
}

impl Cartridge {
    /// A new cartridge: sixty blank sprites, and the script `main.lua`
    /// that greets the world.
    pub fn new_default() -> (r: Cartridge)
        ensures
            r.sprite_sheet@.len() == SPRITE_COUNT,
            forall|s: int| 0 <= s < SPRITE_COUNT ==> #[trigger] r.sprite_sheet@[s]@.len() == SPRITE_SIZE,
            forall|s: int, i: int|
                0 <= s < SPRITE_COUNT && 0 <= i < SPRITE_SIZE ==> #[trigger] r.sprite_sheet@[s]@[i]@ == Seq::new(
                    SPRITE_SIZE as nat,
                    |j: int| Colors::Blank,
                ),
            r.scripts@.len() == 1,
            r.scripts@[0].0@ == "main.lua"@,
            r.scripts@[0].1@ == hello_world_text(),
    {
        let mut sheet: Vec<Vec<Vec<Colors>>> = Vec::new();
        let mut s: usize = 0;
        while s < SPRITE_COUNT
            invariant
                s <= SPRITE_COUNT,
                sheet@.len() == s,
                forall|k: int| 0 <= k < s ==> #[trigger] sheet@[k]@.len() == SPRITE_SIZE,
                forall|k: int, i: int|
                    0 <= k < s && 0 <= i < SPRITE_SIZE ==> #[trigger] sheet@[k]@[i]@ == Seq::new(
                        SPRITE_SIZE as nat,
                        |j: int| Colors::Blank,
                    ),
            decreases SPRITE_COUNT - s,
        {
            sheet.push(blank_sprite());
            s += 1;
        }
        let mut scripts: Vec<(String, String)> = Vec::new();
        scripts.push((String::from_str("main.lua"), hello_world()));
        Cartridge { sprite_sheet: sheet, scripts }
    }
}

impl Default for Cartridge {
    fn default() -> (r: Cartridge)
        ensures
            r.sprite_sheet@.len() == SPRITE_COUNT,
            forall|s: int| 0 <= s < SPRITE_COUNT ==> #[trigger] r.sprite_sheet@[s]@.len() == SPRITE_SIZE,
            forall|s: int, i: int|
                0 <= s < SPRITE_COUNT && 0 <= i < SPRITE_SIZE ==> #[trigger] r.sprite_sheet@[s]@[i]@ == Seq::new(
                    SPRITE_SIZE as nat,
                    |j: int| Colors::Blank,
                ),
            r.scripts@.len() == 1,
            r.scripts@[0].0@ == "main.lua"@,
            r.scripts@[0].1@ == hello_world_text(),
    {
        Cartridge::new_default()
    }
}

// ---------------------------------------------------------------------------
// Exported executables' names
// ---------------------------------------------------------------------------

/// The system an executable is exported for.
#[derive(PartialEq, Eq, Structural, Clone, Copy, Debug)]
pub enum TargetOs {
    Linux,
    Windows,
    Other,
}

/// The name of an exported executable: with `.linux` on Linux and `.exe` on
/// Windows, unless it already ends so; unchanged elsewhere.
pub open spec fn with_ext(file: Seq<char>, os: TargetOs) -> Seq<char> {
    match os {
        TargetOs::Linux => if ends_with(file, ".linux"@) {
            file
        } else {
            file + ".linux"@
        },
        TargetOs::Windows => if ends_with(file, ".exe"@) {
            file
        } else {
            file + ".exe"@
        },
        TargetOs::Other => file,
    }
}

/// Giving a name the extension twice gives it once.
pub proof fn law_add_ext_idempotent(file: Seq<char>, os: TargetOs)
    ensures
        with_ext(with_ext(file, os), os) == with_ext(file, os),
{
    let f2 = with_ext(file, os);
    match os {
        TargetOs::Linux => {
            let ext = ".linux"@;
            assert((file + ext).skip((file + ext).len() - ext.len()) =~= ext);
        },
        TargetOs::Windows => {
            let ext = ".exe"@;
            assert((file + ext).skip((file + ext).len() - ext.len()) =~= ext);
        },
        TargetOs::Other => {},
    }
}

/// Gives an executable's name the extension of `os`.
pub fn add_ext(file: String, os: TargetOs) -> (r: String)
    ensures
        r@ == with_ext(file@, os),
{
    let mut file = file;
    let chars = crate::editor::chars_of(file.as_str());
    match os {
        TargetOs::Linux => {
            let ext = crate::editor::chars_of(".linux");
            if !crate::terminal::ends_with_chars(&chars, &ext) {
                file.append(".linux");
            }
            file
        },
        TargetOs::Windows => {
            let ext = crate::editor::chars_of(".exe");
            if !crate::terminal::ends_with_chars(&chars, &ext) {
                file.append(".exe");
            }
            file
        },
        TargetOs::Other => file,
    }
}

// ---------------------------------------------------------------------------
// What the console does with the terminal's commands
// ---------------------------------------------------------------------------

/// The help text for a topic, as lines of the log: each of the three
/// commands explained with its usage; without a topic, a line per command
/// and a pointer to `help <cmd>`; any other topic, an error naming it.
pub open spec fn help_text(topic: Option<Seq<char>>) -> Seq<(bool, Seq<char>)> {
    match topic {
        None => seq![
            (false, "load: loads cartridge into console memory"@),
            (false, "save: saves current cartridge to any file"@),
            (false, "export: exports cartridge to a standalone executable"@),
            (false, "see help <cmd> for more information."@),
        ],
        Some(t) => if t == "load"@ {
            seq![
                (false, "Loads the .r32 or .r32.txt (base64 version) cartridge into memory for editing."@),
                (false, "Usage: load <filename>"@),
            ]
        } else if t == "save"@ {
            seq![
                (false, "Saves the currently loaded cartridge into a .r32 or .r32.txt (base64 version) file. Converts type automatically."@),
                (false, "Usage: save <filename>"@),
            ]
        } else if t == "export"@ {
            seq![
                (false, "Automatically exports a standalone executable of a game of the current cartridge loaded. Will automatically export to the current operating systems format."@),
                (false, "There is currently only support for windows and linux."@),
                (false, "Usage: export <filename>"@),
            ]
        } else {
            seq![(true, t + " is not a valid command"@)]
        },
    }
}

/// The lines of a log, each as whether it is an error and its text.
pub open spec fn lines_view(v: Seq<LogTypes>) -> Seq<(bool, Seq<char>)> {
    crate::terminal::logs_of(v)
}

/// A message line of the log.
fn info(s: &str) -> (r: LogTypes)
    ensures
        !r.is_error(),
        r.text() == s@,
{
    LogTypes::Info(String::from_str(s))
}

/// The help text for a topic.
pub fn help_lines(topic: Option<&String>) -> (r: Vec<LogTypes>)
    ensures
        lines_view(r@) == help_text(
            match topic {
                Some(t) => Some(t@),
                None => None,
            },
        ),
{
    let mut out: Vec<LogTypes> = Vec::new();
    match topic {
        None => {
            out.push(info("load: loads cartridge into console memory"));
            out.push(info("save: saves current cartridge to any file"));
            out.push(info("export: exports cartridge to a standalone executable"));
            out.push(info("see help <cmd> for more information."));
        },
        Some(t) => {
            if *t == String::from_str("load") {
                out.push(
                    info(
                        "Loads the .r32 or .r32.txt (base64 version) cartridge into memory for editing.",
                    ),
                );
                out.push(info("Usage: load <filename>"));
            } else if *t == String::from_str("save") {
                out.push(
                    info(
                        "Saves the currently loaded cartridge into a .r32 or .r32.txt (base64 version) file. Converts type automatically.",
                    ),
                );
                out.push(info("Usage: save <filename>"));
            } else if *t == String::from_str("export") {
                out.push(
                    info(
                        "Automatically exports a standalone executable of a game of the current cartridge loaded. Will automatically export to the current operating systems format.",
                    ),
                );
                out.push(info("There is currently only support for windows and linux."));
                out.push(info("Usage: export <filename>"));
            } else {
                let msg = t.clone().concat(" is not a valid command");
                out.push(LogTypes::Error(msg));
            }
        },
    }
    assert(lines_view(out@) =~= help_text(
        match topic {
            Some(t) => Some(t@),
            None => None,
        },
    ));
    out
}

/// What the console does for a command that it does not carry out by itself.
pub enum Step {
    /// Adds these lines to the terminal's log.
    Log(Vec<LogTypes>),
    /// Saves the loaded cartridge to this file.
    Save(String),
    /// Exports a standalone executable to this file.
    Export(String),
}

/// A step, its texts by their views.
pub enum StepView {
    Log(Seq<(bool, Seq<char>)>),
    Save(Seq<char>),
    Export(Seq<char>),
}

impl Step {
    pub open spec fn view(&self) -> StepView {
        match self {
            Step::Log(l) => StepView::Log(lines_view(l@)),
            Step::Save(f) => StepView::Save(f@),
            Step::Export(f) => StepView::Export(f@),
        }
    }
}

/// The steps of a frame's commands, in order, and the cartridge to load
/// after them: help logs its text, `save` and `export` (to a name with the
/// system's extension) are steps, and of the `load` commands the last one
/// names the cartridge to load.
pub open spec fn planned(cmds: Seq<CommandView>, os: TargetOs) -> (Seq<StepView>, Option<Seq<char>>)
    decreases cmds.len(),
{
    if cmds.len() == 0 {
        (Seq::empty(), None)
    } else {
        let (steps, load) = planned(cmds.drop_last(), os);
        match cmds.last() {
            CommandView::Help(t) => (steps.push(StepView::Log(help_text(t))), load),
            CommandView::Load(f) => (steps, Some(f)),
            CommandView::Save(f) => (steps.push(StepView::Save(f)), load),
            CommandView::Export(f) => (steps.push(StepView::Export(with_ext(f, os))), load),
        }
    }
}

/// The steps of a frame's commands and the cartridge to load after them.
pub fn plan_commands(cmds: &Vec<Commands>, os: TargetOs) -> (r: (Vec<Step>, Option<String>))
    ensures
        ({
            let (steps, load) = planned(crate::terminal::commands_of(cmds@), os);
            &&& Seq::new(r.0@.len(), |i: int| r.0@[i].view()) == steps
            &&& match r.1 {
                Some(f) => load == Some(f@),
                None => load is None,
            }
        }),
{
    let ghost cv = crate::terminal::commands_of(cmds@);
    let mut steps: Vec<Step> = Vec::new();
    let mut load: Option<String> = None;
    let mut i: usize = 0;
    assert(cv.take(0) =~= Seq::<CommandView>::empty());
    while i < cmds.len()
        invariant
            i <= cmds@.len(),
            cv == crate::terminal::commands_of(cmds@),
            Seq::new(steps@.len(), |k: int| steps@[k].view()) == planned(cv.take(i as int), os).0,
            match load {
                Some(f) => planned(cv.take(i as int), os).1 == Some(f@),
                None => planned(cv.take(i as int), os).1 is None,
            },
        decreases cmds@.len() - i,
    {
        assert(cv.take(i + 1).drop_last() =~= cv.take(i as int));
        assert(cv.take(i + 1).last() == cmds@[i as int].view());
        let ghost before = Seq::new(steps@.len(), |k: int| steps@[k].view());
        match &cmds[i] {
            Commands::Help(t) => {
                let lines = help_lines(
                    match t {
                        Some(s) => Some(s),
                        None => None,
                    },
                );
                let step = Step::Log(lines);
                steps.push(step);
            },
            Commands::Load(f) => {
                load = Some(f.clone());
            },
            Commands::Save(f) => {
                steps.push(Step::Save(f.clone()));
            },
            Commands::Export(f) => {
                let named = add_ext(f.clone(), os);
                steps.push(Step::Export(named));
            },
        }
        assert(Seq::new(steps@.len(), |k: int| steps@[k].view()) =~= planned(cv.take(i + 1), os).0);
        i += 1;
    }
    assert(cv.take(cmds@.len() as int) =~= cv);
    (steps, load)
}

/// The log line after a cartridge was saved to `file`.
pub fn saved_message(file: &String) -> (r: String)
    ensures
        r@ == "Successfully saved cartridge to "@ + file@,
{
    String::from_str("Successfully saved cartridge to ").concat(file.as_str())
}

/// The log line after an executable was exported to `file`.
pub fn exported_message(file: &String) -> (r: String)
    ensures
        r@ == "Successfully exported to "@ + file@,
{
    String::from_str("Successfully exported to ").concat(file.as_str())
}

/// The log line after a cartridge was loaded from `file`.
pub fn loaded_message(file: &String) -> (r: String)
    ensures
        r@ == "Successfully loaded cartridge from "@ + file@,
{
    String::from_str("Successfully loaded cartridge from ").concat(file.as_str())
}

} // verus!
