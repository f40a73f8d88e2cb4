use vstd::prelude::*;
use vstd::utf8::{
    char_is_scalar, encode_scalar, encode_utf8, encode_utf8_valid_utf8, is_char_boundary, is_char_boundary_iff_not_is_continuation_byte,
    is_char_boundary_start_end_of_seq, is_continuation_byte, valid_utf8, valid_utf8_split,
};

use crate::editor::{chars_of, string_of};
use vstd::string::{StringExecFns, StringSliceAdditionalSpecFns};
use crate::text::{concat_chars, slice_chars};

verus! {

/// Bytes per line of the terminal's log.
pub const LOG_WIDTH: usize = 30;

/// A line of the terminal's log: a message, or an error.
pub enum LogTypes {
    Info(String),
    Error(String),
}

impl LogTypes {
    /// Whether the line is an error.
    pub open spec fn is_error(&self) -> bool {
        self is Error
    }

    /// The line's text.
    pub open spec fn text(&self) -> Seq<char> {
        match self {
            LogTypes::Info(s) => s@,
            LogTypes::Error(s) => s@,
        }
    }

    /// The line's text, as it is shown.
    pub fn to_string(&self) -> (r: String)
        ensures
            r@ == self.text(),
    {
        match self {
            LogTypes::Info(s) => s.clone(),
            LogTypes::Error(s) => s.clone(),
        }
    }
}

/// A command typed into the terminal.
pub enum Commands {
    Load(String),
    Save(String),
    Export(String),
    Help(Option<String>),
}

/// What a command asks for, its argument by its view.
pub enum CommandView {
    Load(Seq<char>),
    Save(Seq<char>),
    Export(Seq<char>),
    Help(Option<Seq<char>>),
}

impl Commands {
    pub open spec fn view(&self) -> CommandView {
        match self {
            Commands::Load(f) => CommandView::Load(f@),
            Commands::Save(f) => CommandView::Save(f@),
            Commands::Export(f) => CommandView::Export(f@),
            Commands::Help(t) => CommandView::Help(
                match t {
                    Some(s) => Some(s@),
                    None => None,
                },
            ),
        }
    }
}

/// Why a typed command was refused.
#[derive(PartialEq, Eq, Structural, Clone, Copy, Debug)]
pub enum CommandError {
    /// No command, or an unknown one.
    NotValid,
    /// `load` or `save` without a file.
    MissingFile,
    /// `load` of a file that is not a cartridge.
    NotCartridgeToLoad,
    /// `save` to a file that is not a cartridge.
    NotCartridgeToSave,
    /// `export` without a file.
    MissingExportName,
}

impl CommandError {
    /// The message that the terminal logs for this error.
    pub fn message(&self) -> (r: String)
        ensures
            r@ == error_message(*self),
    {
        match self {
            CommandError::NotValid => String::from_str("Not a valid command"),
            CommandError::MissingFile => String::from_str("Must pass in a file"),
            CommandError::NotCartridgeToLoad => String::from_str(
                "Must pass in a .r32 or .r32.txt cartridge to load",
            ),
            CommandError::NotCartridgeToSave => String::from_str(
                "Must pass in a .r32 or .r32.txt cartridge to save to",
            ),
            CommandError::MissingExportName => String::from_str("Must pass in file name to export to"),
        }
    }
}

/// The message of each error.
pub open spec fn error_message(e: CommandError) -> Seq<char> {
    match e {
        CommandError::NotValid => "Not a valid command"@,
        CommandError::MissingFile => "Must pass in a file"@,
        CommandError::NotCartridgeToLoad => "Must pass in a .r32 or .r32.txt cartridge to load"@,
        CommandError::NotCartridgeToSave => "Must pass in a .r32 or .r32.txt cartridge to save to"@,
        CommandError::MissingExportName => "Must pass in file name to export to"@,
    }
}

// ---------------------------------------------------------------------------
// Words and lower case
// ---------------------------------------------------------------------------

/// ASCII white space, as `char::is_ascii_whitespace` has it.
pub open spec fn is_ascii_ws(c: char) -> bool {
    c == ' ' || c == '\t' || c == '\n' || c == '\x0C' || c == '\r'
}

/// The words of `s`: its longest runs without ASCII white space, in order
/// (what `str::split_ascii_whitespace` yields).
pub open spec fn words(s: Seq<char>) -> Seq<Seq<char>>
    decreases s.len(),
{
    if s.len() == 0 {
        Seq::empty()
    } else {
        let w = words(s.drop_last());
        let c = s.last();
        if is_ascii_ws(c) {
            w
        } else if s.len() >= 2 && !is_ascii_ws(s[s.len() - 2]) {
            w.update(w.len() - 1, w.last().push(c))
        } else {
            w.push(seq![c])
        }
    }
}

/// What `str::to_lowercase` gives for a text.
pub uninterp spec fn unicode_lowercase(s: Seq<char>) -> Seq<char>;

/// The lower case of `s`, by `str::to_lowercase`. A function of the text
/// alone; what it is is left to the name `unicode_lowercase`.
#[verifier::external_body]
fn lowercase(s: &str) -> (r: String)
    ensures
        r@ == unicode_lowercase(s@),
{
    s.to_lowercase()
}

/// `t` ends with `suffix`.
pub open spec fn ends_with(t: Seq<char>, suffix: Seq<char>) -> bool {
    t.len() >= suffix.len() && t.skip(t.len() - suffix.len()) == suffix
}

/// A name of a cartridge file: one that ends in `.r32` or `.r32.txt`.
pub open spec fn is_cart_name(t: Seq<char>) -> bool {
    ends_with(t, ".r32"@) || ends_with(t, ".r32.txt"@)
}

/// The command that lower-case words stand for: the first names the command
/// and the second its file; `load` and `save` take only cartridge files.
pub open spec fn command_of(toks: Seq<Seq<char>>) -> Result<CommandView, CommandError> {
    if toks.len() == 0 {
        Err(CommandError::NotValid)
    } else if toks[0] == "load"@ {
        if toks.len() < 2 {
            Err(CommandError::MissingFile)
        } else if !is_cart_name(toks[1]) {
            Err(CommandError::NotCartridgeToLoad)
        } else {
            Ok(CommandView::Load(toks[1]))
        }
    } else if toks[0] == "save"@ {
        if toks.len() < 2 {
            Err(CommandError::MissingFile)
        } else if !is_cart_name(toks[1]) {
            Err(CommandError::NotCartridgeToSave)
        } else {
            Ok(CommandView::Save(toks[1]))
        }
    } else if toks[0] == "export"@ {
        if toks.len() < 2 {
            Err(CommandError::MissingExportName)
        } else {
            Ok(CommandView::Export(toks[1]))
        }
    } else {
        Err(CommandError::NotValid)
    }
}

/// The command a line of input stands for: its words, in lower case, read
/// by `command_of`.
pub open spec fn parsed(cmd: Seq<char>) -> Result<CommandView, CommandError> {
    command_of(words(cmd).map_values(|w: Seq<char>| unicode_lowercase(w)))
}

/// The words, each by its view.
pub open spec fn strings_of(v: Seq<String>) -> Seq<Seq<char>> {
    Seq::new(v.len(), |i: int| v[i]@)
}

/// Whether `c` is ASCII white space.
fn is_ws(c: char) -> (r: bool)
    ensures
        r == is_ascii_ws(c),
{
    c == ' ' || c == '\t' || c == '\n' || c == '\x0C' || c == '\r'
}

/// The words of `s`.
pub fn split_words(s: &Vec<char>) -> (r: Vec<Vec<char>>)
    ensures
        crate::text::lines_of(&r) == words(s@),
{
    let mut done: Vec<Vec<char>> = Vec::new();
    let mut cur: Vec<char> = Vec::new();
    let mut in_word = false;
    let mut i: usize = 0;
    assert(s@.take(0) =~= Seq::<char>::empty());
    while i < s.len()
        invariant
            i <= s@.len(),
            in_word == (i > 0 && !is_ascii_ws(s@[i - 1])),
            in_word ==> crate::text::lines_of(&done).push(cur@) == words(s@.take(i as int)),
            !in_word ==> crate::text::lines_of(&done) == words(s@.take(i as int)),
            in_word ==> cur@.len() > 0,
        decreases s@.len() - i,
    {
        let c = s[i];
        let ghost prev = s@.take(i as int);
        assert(s@.take(i + 1).drop_last() =~= prev);
        assert(s@.take(i + 1).last() == c);
        if is_ws(c) {
            if in_word {
                let w = cur;
                done.push(w);
                cur = Vec::new();
            }
            in_word = false;
        } else {
            if in_word {
                assert(s@.take(i + 1)[i - 1] == s@[i - 1]);
                let ghost before = crate::text::lines_of(&done).push(cur@);
                cur.push(c);
                assert(crate::text::lines_of(&done).push(cur@) =~= before.update(
                    before.len() - 1,
                    before.last().push(c),
                ));
            } else {
                if i > 0 {
                    assert(s@.take(i + 1)[i - 1] == s@[i - 1]);
                }
                cur = Vec::new();
                cur.push(c);
                assert(cur@ =~= seq![c]);
            }
            in_word = true;
        }
        i += 1;
    }
    if in_word {
        done.push(cur);
    }
    assert(s@.take(s@.len() as int) =~= s@);
    done
}

/// Whether `t` ends with `suffix`.
pub fn ends_with_chars(t: &Vec<char>, suffix: &Vec<char>) -> (r: bool)
    ensures
        r == ends_with(t@, suffix@),
{
    if t.len() < suffix.len() {
        return false;
    }
    let off = t.len() - suffix.len();
    let mut i: usize = 0;
    while i < suffix.len()
        invariant
            off == t@.len() - suffix@.len(),
            off + suffix.len() == t.len(),
            i <= suffix@.len(),
            forall|j: int| 0 <= j < i ==> t@[off + j] == suffix@[j],
        decreases suffix@.len() - i,
    {
        if t[off + i] != suffix[i] {
            assert(t@.skip(off as int)[i as int] != suffix@[i as int]);
            return false;
        }
        i += 1;
    }
    assert(t@.skip(off as int) =~= suffix@);
    true
}

/// Whether `t` names a cartridge file.
fn cart_name(t: &String) -> (r: bool)
    ensures
        r == is_cart_name(t@),
{
    let chars = chars_of(t.as_str());
    let bin = chars_of(".r32");
    let txt = chars_of(".r32.txt");
    ends_with_chars(&chars, &bin) || ends_with_chars(&chars, &txt)
}

/// Reads a line of input as a command: its words in lower case, the first
/// naming the command (`load`, `save` or `export`) and the second its file;
/// `load` and `save` take only cartridge files.
pub fn parse_command(cmd: &str) -> (r: Result<Commands, CommandError>)
    ensures
        match r {
            Ok(c) => parsed(cmd@) == Ok::<CommandView, CommandError>(c.view()),
            Err(e) => parsed(cmd@) == Err::<CommandView, CommandError>(e),
        },
{
    let chars = chars_of(cmd);
    let ws = split_words(&chars);
    let ghost toks_spec = words(cmd@).map_values(|w: Seq<char>| unicode_lowercase(w));
    let mut tokens: Vec<String> = Vec::new();
    let mut i: usize = 0;
    while i < ws.len()
        invariant
            i <= ws@.len(),
            crate::text::lines_of(&ws) == words(cmd@),
            toks_spec == words(cmd@).map_values(|w: Seq<char>| unicode_lowercase(w)),
            tokens@.len() == i,
            forall|j: int| 0 <= j < i ==> #[trigger] tokens@[j]@ == toks_spec[j],
        decreases ws@.len() - i,
    {
        let word = string_of(&ws[i]);
        let low = lowercase(word.as_str());
        tokens.push(low);
        i += 1;
    }
    assert(strings_of(tokens@) =~= toks_spec);
    command_from_words(&tokens)
}

/// The command that lower-case words stand for (see `command_of`).
pub fn command_from_words(tokens: &Vec<String>) -> (r: Result<Commands, CommandError>)
    ensures
        match r {
            Ok(c) => command_of(strings_of(tokens@)) == Ok::<CommandView, CommandError>(c.view()),
            Err(e) => command_of(strings_of(tokens@)) == Err::<CommandView, CommandError>(e),
        },
{
    let ghost toks_spec = strings_of(tokens@);
    if tokens.len() == 0 {
        return Err(CommandError::NotValid);
    }
    let load = String::from_str("load");
    let save = String::from_str("save");
    let export = String::from_str("export");
    proof {
        reveal_strlit("load");
        reveal_strlit("save");
        reveal_strlit("export");
    }
    assert(tokens@[0]@ == toks_spec[0]);
    if tokens[0] == load {
        if tokens.len() < 2 {
            return Err(CommandError::MissingFile);
        }
        assert(tokens@[1]@ == toks_spec[1]);
        if !cart_name(&tokens[1]) {
            return Err(CommandError::NotCartridgeToLoad);
        }
        Ok(Commands::Load(tokens[1].clone()))
    } else if tokens[0] == save {
        if tokens.len() < 2 {
            return Err(CommandError::MissingFile);
        }
        assert(tokens@[1]@ == toks_spec[1]);
        if !cart_name(&tokens[1]) {
            return Err(CommandError::NotCartridgeToSave);
        }
        Ok(Commands::Save(tokens[1].clone()))
    } else if tokens[0] == export {
        if tokens.len() < 2 {
            return Err(CommandError::MissingExportName);
        }
        assert(tokens@[1]@ == toks_spec[1]);
        Ok(Commands::Export(tokens[1].clone()))
    } else {
        Err(CommandError::NotValid)
    }
}

// ---------------------------------------------------------------------------
// The log
// ---------------------------------------------------------------------------

/// The bytes of a text.
pub open spec fn bytes_of(t: Seq<char>) -> Seq<u8> {
    encode_utf8(t)
}

/// A text can be cut into log lines: every multiple of the log width inside
/// its bytes starts a character.
pub open spec fn fits_log(t: Seq<char>) -> bool {
    forall|k: int|
        0 < k && 30 * k < bytes_of(t).len() ==> !is_continuation_byte(#[trigger] bytes_of(t)[30 * k])
}

/// How many log lines a text of `n` bytes takes.
pub open spec fn log_lines(n: int) -> int {
    (n + 29) / 30
}

/// The bytes of the `i`-th log line of a text of bytes `b`.
pub open spec fn log_chunk(b: Seq<u8>, i: int) -> Seq<u8> {
    b.subrange(30 * i, if 30 * (i + 1) < b.len() { 30 * (i + 1) } else { b.len() as int })
}

/// The text of bytes `v`, if they are UTF-8, by `String::from_utf8`.
#[verifier::external_body]
fn string_from_utf8(v: Vec<u8>) -> (r: Option<String>)
    ensures
        r is Some <==> valid_utf8(v@),
        r matches Some(s) ==> encode_utf8(s@) == v@,
{
    String::from_utf8(v).ok()
}

/// The bytes of `s` from `from` up to `to`.
pub fn slice_bytes(s: &[u8], from: usize, to: usize) -> (r: Vec<u8>)
    requires
        from <= to <= s@.len(),
    ensures
        r@ == s@.subrange(from as int, to as int),
{
    let mut r: Vec<u8> = Vec::new();
    let mut i = from;
    while i < to
        invariant
            from <= i <= to <= s@.len(),
            r@ == s@.subrange(from as int, i as int),
        decreases to - i,
    {
        r.push(s[i]);
        i += 1;
        assert(r@ =~= s@.subrange(from as int, i as int));
    }
    r
}

/// Whether `t` can be cut into log lines.
pub fn log_fits(t: &str) -> (r: bool)
    ensures
        r == fits_log(t@),
{
    let n = t.as_bytes().len();
    let ghost b = bytes_of(t@);
    proof {
        encode_utf8_valid_utf8(t@);
    }
    let mut k: usize = 1;
    while k <= n / 30
        invariant
            n == b.len(),
            valid_utf8(b),
            b == t.spec_bytes(),
            b == bytes_of(t@),
            1 <= k,
            forall|j: int| 0 < j < k && 30 * j < b.len() ==> !is_continuation_byte(#[trigger] b[30 * j]),
        decreases n / 30 + 1 - k,
    {
        let at = 30 * k;
        if at < n {
            let ok = t.is_char_boundary(at);
            proof {
                is_char_boundary_iff_not_is_continuation_byte(b, at as int);
            }
            if !ok {
                assert(is_continuation_byte(b[30 * (k as int)]));
                return false;
            }
        }
        k += 1;
    }
    assert forall|j: int| 0 < j && 30 * j < b.len() implies !is_continuation_byte(#[trigger] b[30 * j]) by {
        assert(j < k);
    }
    true
}

/// A log line of the same kind as `l` with the text `s`.
pub open spec fn same_kind(l: LogTypes, s: Seq<char>) -> (bool, Seq<char>) {
    (l.is_error(), s)
}

/// The terminal screen: its log, the line being typed with its cursor, and
/// the commands entered this frame.
pub struct TerminalEngine {
    pub logs: Vec<LogTypes>,
    pub input: Vec<char>,
    /// Where typing goes: a byte offset into the line's UTF-8 text.
    pub cursor: usize,
    pub frame_hash: i32,
    pub commands: Vec<Commands>,
}

/// A key as the terminal reads it.
pub enum TermKey {
    /// A key the terminal ignores (no text, or up and down).
    Ignored,
    Right,
    Left,
    Back,
    Enter,
    /// A key that types its text.
    Text(String),
}

/// The log's lines, each as whether it is an error and its text.
pub open spec fn logs_of(v: Seq<LogTypes>) -> Seq<(bool, Seq<char>)> {
    Seq::new(v.len(), |i: int| (v[i].is_error(), v[i].text()))
}

/// The log after a message of the given kind is added: cut into lines of at
/// most thirty bytes each, every line of the same kind.
pub open spec fn logged(logs: Seq<(bool, Seq<char>)>, err: bool, t: Seq<char>) -> Seq<(bool, Seq<char>)> {
    let b = bytes_of(t);
    logs + Seq::new(
        log_lines(b.len() as int) as nat,
        |i: int| (err, vstd::utf8::decode_utf8(log_chunk(b, i))),
    )
}

impl TerminalEngine {
    /// An empty terminal.
    pub fn new() -> (r: TerminalEngine)
        ensures
            r.wf(),
            r.logs@.len() == 0,
            r.input@.len() == 0,
            r.cursor == 0,
            r.frame_hash == 0,
            r.commands@.len() == 0,
    {
        TerminalEngine { logs: Vec::new(), input: Vec::new(), cursor: 0, frame_hash: 0, commands: Vec::new() }
    }

    /// The cursor, a byte offset into the line's UTF-8 text, lies within the
    /// line, the line's length in bytes fits in a `usize`, and the frame count
    /// is in its range.
    pub open spec fn wf(&self) -> bool {
        &&& self.cursor <= byte_len(self.input@)
        &&& byte_len(self.input@) <= usize::MAX
        &&& 0 <= self.frame_hash < 20
    }

    /// Adds a message to the log, cut into lines of at most thirty bytes.
    pub fn add_log(&mut self, log: LogTypes)
        requires
            fits_log(log.text()),
        ensures
            logs_of(final(self).logs@) == logged(logs_of(old(self).logs@), log.is_error(), log.text()),
            final(self).input == old(self).input,
            final(self).cursor == old(self).cursor,
            final(self).frame_hash == old(self).frame_hash,
            final(self).commands@ == old(self).commands@,
    {
        let is_err = match log {
            LogTypes::Error(_) => true,
            LogTypes::Info(_) => false,
        };
        let msg = log.to_string();
        let bytes = msg.as_str().as_bytes();
        let n = bytes.len();
        let ghost b = bytes_of(msg@);
        let ghost old_logs = logs_of(self.logs@);
        proof {
            encode_utf8_valid_utf8(msg@);
            is_char_boundary_start_end_of_seq(b);
        }
        let mut start: usize = 0;
        let mut i: usize = 0;
        assert(n == 0 ==> log_lines(n as int) == 0);
        while start < n
            invariant
                n == b.len(),
                b == bytes@,
                valid_utf8(b),
                fits_log(msg@),
                b == bytes_of(msg@),
                start <= n,
                start < n ==> start == 30 * i,
                start == n ==> i == log_lines(n as int),
                logs_of(self.logs@) == old_logs + Seq::new(
                    i as nat,
                    |j: int| (is_err, vstd::utf8::decode_utf8(log_chunk(b, j))),
                ),
                self.input == old(self).input,
                self.cursor == old(self).cursor,
                self.frame_hash == old(self).frame_hash,
                self.commands@ == old(self).commands@,
            decreases n - start,
        {
            let end = if n - start > 30 {
                start + 30
            } else {
                n
            };
            let chunk = slice_bytes(bytes, start, end);
            proof {
                assert(chunk@ == log_chunk(b, i as int));
                if start > 0 {
                    assert(!is_continuation_byte(b[30 * (i as int)]));
                    is_char_boundary_iff_not_is_continuation_byte(b, start as int);
                }
                valid_utf8_split(b, start as int);
                let tail = b.subrange(start as int, n as int);
                is_char_boundary_start_end_of_seq(tail);
                if end < n {
                    assert(!is_continuation_byte(b[30 * (i + 1)]));
                    assert(tail[end - start] == b[end as int]);
                    is_char_boundary_iff_not_is_continuation_byte(tail, end - start);
                } else {
                    assert(end - start == tail.len());
                }
                valid_utf8_split(tail, end - start);
                assert(tail.subrange(0, end - start) =~= chunk@);
                vstd::utf8::encode_utf8_decode_utf8(Seq::<char>::empty());
            }
            let text = match string_from_utf8(chunk) {
                Some(t) => t,
                None => {
                    assert(false);
                    return;
                },
            };
            proof {
                vstd::utf8::encode_utf8_decode_utf8(text@);
            }
            let part = if is_err {
                LogTypes::Error(text)
            } else {
                LogTypes::Info(text)
            };
            let ghost before = logs_of(self.logs@);
            self.logs.push(part);
            assert(logs_of(self.logs@) =~= before.push((is_err, vstd::utf8::decode_utf8(log_chunk(b, i as int)))));
            start = end;
            i += 1;
            assert(logs_of(self.logs@) =~= old_logs + Seq::new(
                i as nat,
                |j: int| (is_err, vstd::utf8::decode_utf8(log_chunk(b, j))),
            ));
            if start == n {
                assert(i == log_lines(n as int)) by (nonlinear_arith)
                    requires
                        30 * (i - 1) < n,
                        n <= 30 * i,
                        i >= 1;
            }
        }
    }

    /// What the terminal shows and holds, each part by its view.
    pub open spec fn view(&self) -> TermView {
        TermView {
            logs: logs_of(self.logs@),
            input: self.input@,
            cursor: self.cursor,
            commands: commands_of(self.commands@),
        }
    }

    /// One key: typing, moving and deleting in the line, or entering it.
    fn handle_key(&mut self, key: &TermKey) -> (r: Result<(), TermFault>)
        requires
            old(self).wf(),
        ensures
            final(self).frame_hash == old(self).frame_hash,
            r is Ok <==> term_defined(old(self).view(), *key),
            r is Ok ==> final(self).wf() && final(self).view() == term_step(old(self).view(), *key),
    {
        match key {
            TermKey::Ignored => Ok(()),
            TermKey::Right => {
                let n = match byte_len_of(&self.input) {
                    Some(n) => n,
                    None => {
                        return Err(TermFault);
                    },
                };
                self.cursor = if self.cursor < n {
                    self.cursor + 1
                } else {
                    n
                };
                Ok(())
            },
            TermKey::Left => {
                if self.cursor != 0 {
                    self.cursor = self.cursor - 1;
                }
                Ok(())
            },
            TermKey::Back => {
                if self.cursor != 0 {
                    let k = match char_index_at(&self.input, self.cursor - 1) {
                        Some(k) => k,
                        None => {
                            return Err(TermFault);
                        },
                    };
                    proof {
                        lemma_remove_fits(self.input@, k as int, (self.cursor - 1) as int);
                    }
                    self.input.remove(k);
                    self.cursor = self.cursor - 1;
                }
                Ok(())
            },
            TermKey::Enter => {
                let cmd = string_of(&self.input);
                let echo = String::from_str(">").concat(cmd.as_str());
                if !log_fits(echo.as_str()) {
                    return Err(TermFault);
                }
                self.add_log(LogTypes::Info(echo));
                match parse_command(cmd.as_str()) {
                    Ok(c) => {
                        self.commands.push(c);
                        assert(commands_of(self.commands@) =~= commands_of(old(self).commands@).push(c.view()));
                    },
                    Err(e) => {
                        let m = e.message();
                        if !log_fits(m.as_str()) {
                            return Err(TermFault);
                        }
                        self.add_log(LogTypes::Error(m));
                    },
                }
                self.input = Vec::new();
                self.cursor = 0;
                Ok(())
            },
            TermKey::Text(t) => {
                let typed = chars_of(t.as_str());
                if typed.len() == 0 {
                    return Ok(());
                }
                let k = match char_index_at(&self.input, self.cursor) {
                    Some(k) => k,
                    None => {
                        return Err(TermFault);
                    },
                };
                let len = self.input.len();
                let head = slice_chars(&self.input, 0, k);
                let tail = slice_chars(&self.input, k, len);
                let front = concat_chars(&head, &typed);
                let joined = concat_chars(&front, &tail);
                proof {
                    lemma_insert_len(self.input@, typed@, k as int);
                }
                match byte_len_of(&joined) {
                    Some(_) => {},
                    None => {
                        return Err(TermFault);
                    },
                }
                self.input = joined;
                self.cursor = self.cursor + 1;
                Ok(())
            },
        }
    }

    /// One frame of the terminal: the frame count moves on (modulo 20), last
    /// frame's commands are dropped, and the keys pressed this frame are
    /// taken in turn. Fails where the terminal's own code fails: on a message
    /// that cannot be cut into log lines.
    pub fn update(&mut self, keys: &Vec<TermKey>) -> (r: Result<(), TermFault>)
        requires
            old(self).wf(),
        ensures
            final(self).frame_hash == (old(self).frame_hash + 1) % 20,
            ({
                let start = TermView { commands: Seq::empty(), ..old(self).view() };
                &&& (r is Ok <==> run_term(start, keys@) is Some)
                &&& r is Ok ==> final(self).wf() && run_term(start, keys@) == Some(final(self).view())
            }),
    {
        self.frame_hash = (self.frame_hash + 1) % 20;
        self.commands = Vec::new();
        assert(commands_of(self.commands@) =~= Seq::<CommandView>::empty());
        let ghost v0 = self.view();
        let mut i: usize = 0;
        assert(keys@.take(0) =~= Seq::<TermKey>::empty());
        while i < keys.len()
            invariant
                i <= keys@.len(),
                self.wf(),
                self.frame_hash == (old(self).frame_hash + 1) % 20,
                v0 == (TermView { commands: Seq::empty(), ..old(self).view() }),
                run_term(v0, keys@.take(i as int)) == Some(self.view()),
            decreases keys@.len() - i,
        {
            assert(keys@.take(i + 1).drop_last() =~= keys@.take(i as int));
            assert(keys@.take(i + 1).last() == keys@[i as int]);
            match self.handle_key(&keys[i]) {
                Ok(()) => {},
                Err(e) => {
                    proof {
                        lemma_run_term_prefix(v0, keys@, i + 1);
                    }
                    return Err(e);
                },
            }
            i += 1;
        }
        assert(keys@.take(keys@.len() as int) =~= keys@);
        Ok(())
    }
}

impl Default for TerminalEngine {
    /// An empty terminal (see `TerminalEngine::new`).
    fn default() -> (r: TerminalEngine)
        ensures
            r.wf(),
            r.logs@.len() == 0,
            r.input@.len() == 0,
            r.cursor == 0,
            r.frame_hash == 0,
            r.commands@.len() == 0,
    {
        TerminalEngine::new()
    }
}

/// One more character: its bytes add to the length.
pub proof fn lemma_byte_len_step(s: Seq<char>, k: int)
    requires
        0 <= k < s.len(),
    ensures
        byte_len(s.take(k + 1)) == byte_len(s.take(k)) + char_width(s[k]),
{
    assert(s.take(k + 1).drop_last() =~= s.take(k));
}

/// `char_width` is the length of the character's UTF-8 encoding.
pub proof fn lemma_char_width(c: char)
    ensures
        char_width(c) == encode_scalar(c as u32).len(),
{
    char_is_scalar(c);
}

/// `byte_len` is the length of the text's UTF-8 encoding.
pub proof fn lemma_byte_len_is_utf8_len(s: Seq<char>)
    ensures
        byte_len(s) == encode_utf8(s).len(),
    decreases s.len(),
{
    if s.len() > 0 {
        lemma_byte_len_is_utf8_len(s.drop_first());
        lemma_char_width(s[0]);
        assert(s =~= seq![s[0]] + s.drop_first());
        lemma_byte_len_concat(seq![s[0]], s.drop_first());
        let one = seq![s[0]];
        assert(one.drop_last() =~= Seq::<char>::empty());
        assert(byte_len(one.drop_last()) == 0);
        assert(byte_len(one) == char_width(s[0]));
        assert(encode_utf8(s) == encode_scalar(s[0] as u32) + encode_utf8(s.drop_first()));
    }
}

/// Each character takes at least one byte, so a longer prefix is longer in
/// bytes.
pub proof fn lemma_byte_len_mono(s: Seq<char>, i: int, j: int)
    requires
        0 <= i <= j <= s.len(),
    ensures
        byte_len(s.take(i)) + (j - i) <= byte_len(s.take(j)),
    decreases j - i,
{
    if i < j {
        lemma_byte_len_mono(s, i, j - 1);
        lemma_byte_len_step(s, j - 1);
    }
}

/// The bytes of two texts one after the other.
pub proof fn lemma_byte_len_concat(a: Seq<char>, b: Seq<char>)
    ensures
        byte_len(a + b) == byte_len(a) + byte_len(b),
    decreases b.len(),
{
    if b.len() == 0 {
        assert(a + b =~= a);
    } else {
        assert((a + b).drop_last() =~= a + b.drop_last());
        lemma_byte_len_concat(a, b.drop_last());
    }
}

/// A byte offset reached after `k` characters falls between characters, and
/// `k` is the number of characters before it.
pub proof fn lemma_chars_before(s: Seq<char>, k: int, b: int)
    requires
        0 <= k <= s.len(),
        byte_len(s.take(k)) == b,
    ensures
        on_boundary(s, b),
        chars_before(s, b) == k,
{
    assert(0 <= k <= s.len() && byte_len(s.take(k)) == b);
    let k2 = chars_before(s, b);
    if k2 < k {
        lemma_byte_len_mono(s, k2, k);
    } else if k2 > k {
        lemma_byte_len_mono(s, k, k2);
    }
}

/// Removing the character that starts at byte offset `b`, just before the
/// cursor, keeps the cursor's new place within the line.
proof fn lemma_remove_fits(s: Seq<char>, k: int, b: int)
    requires
        0 <= k <= s.len(),
        byte_len(s.take(k)) == b,
        b < byte_len(s),
    ensures
        k < s.len(),
        byte_len(s.remove(k)) + char_width(s[k]) == byte_len(s),
        b <= byte_len(s.remove(k)),
{
    if k == s.len() {
        assert(s.take(k) =~= s);
    }
    lemma_byte_len_step(s, k);
    assert(s.remove(k) =~= s.take(k) + s.skip(k + 1));
    assert(s =~= s.take(k + 1) + s.skip(k + 1));
    lemma_byte_len_concat(s.take(k), s.skip(k + 1));
    lemma_byte_len_concat(s.take(k + 1), s.skip(k + 1));
}

/// Text put in after `k` characters adds its bytes to the line.
proof fn lemma_insert_len(s: Seq<char>, t: Seq<char>, k: int)
    requires
        0 <= k <= s.len(),
    ensures
        byte_len(s.take(k) + t + s.skip(k)) == byte_len(s) + byte_len(t),
        byte_len(s.take(k)) + byte_len(t) <= byte_len(s.take(k) + t + s.skip(k)),
{
    assert(s =~= s.take(k) + s.skip(k));
    lemma_byte_len_concat(s.take(k), s.skip(k));
    lemma_byte_len_concat(s.take(k) + t, s.skip(k));
    lemma_byte_len_concat(s.take(k), t);
}

/// The number of bytes that `c` takes in UTF-8.
fn width_of(c: char) -> (r: usize)
    ensures
        r == char_width(c),
{
    let u = c as u32;
    if u <= 0x7f {
        1
    } else if u <= 0x7ff {
        2
    } else if u <= 0xffff {
        3
    } else {
        4
    }
}

/// The number of bytes that `s` takes in UTF-8, or `None` where that does
/// not fit in a `usize`.
fn byte_len_of(s: &Vec<char>) -> (r: Option<usize>)
    ensures
        match r {
            Some(n) => n == byte_len(s@),
            None => byte_len(s@) > usize::MAX,
        },
{
    let mut acc: usize = 0;
    let mut k: usize = 0;
    while k < s.len()
        invariant
            k <= s@.len(),
            acc == byte_len(s@.take(k as int)),
        decreases s@.len() - k,
    {
        let w = width_of(s[k]);
        proof {
            lemma_byte_len_step(s@, k as int);
        }
        if w > usize::MAX - acc {
            proof {
                lemma_byte_len_mono(s@, k + 1, s@.len() as int);
                assert(s@.take(s@.len() as int) =~= s@);
            }
            return None;
        }
        acc = acc + w;
        k += 1;
    }
    assert(s@.take(s@.len() as int) =~= s@);
    Some(acc)
}

/// The number of characters before the byte offset `b` into `s`'s UTF-8
/// text, or `None` where `b` falls inside a character or past the end.
fn char_index_at(s: &Vec<char>, b: usize) -> (r: Option<usize>)
    ensures
        match r {
            Some(k) => on_boundary(s@, b as int) && k == chars_before(s@, b as int) && k <= s@.len(),
            None => !on_boundary(s@, b as int),
        },
{
    let mut acc: usize = 0;
    let mut k: usize = 0;
    while k < s.len() && acc < b
        invariant
            k <= s@.len(),
            acc <= b,
            acc == byte_len(s@.take(k as int)),
        decreases s@.len() - k,
    {
        let w = width_of(s[k]);
        proof {
            lemma_byte_len_step(s@, k as int);
        }
        if w > b - acc {
            proof {
                assert forall|j: int| 0 <= j <= s@.len() implies byte_len(#[trigger] s@.take(j)) != b by {
                    if j <= k {
                        lemma_byte_len_mono(s@, j, k as int);
                    } else {
                        lemma_byte_len_mono(s@, k + 1, j);
                    }
                }
            }
            return None;
        }
        acc = acc + w;
        k += 1;
    }
    if acc == b {
        proof {
            lemma_chars_before(s@, k as int, b as int);
        }
        Some(k)
    } else {
        proof {
            assert forall|j: int| 0 <= j <= s@.len() implies byte_len(#[trigger] s@.take(j)) != b by {
                lemma_byte_len_mono(s@, j, k as int);
            }
        }
        None
    }
}

/// A key on which the terminal's own code fails: a message that cannot be
/// cut into log lines, an edit at a byte offset inside a character, or a
/// line longer than memory can hold.
pub struct TermFault;

/// What the terminal holds, each part by its view.
pub struct TermView {
    pub logs: Seq<(bool, Seq<char>)>,
    pub input: Seq<char>,
    pub cursor: usize,
    pub commands: Seq<CommandView>,
}

/// The commands, each by its view.
pub open spec fn commands_of(v: Seq<Commands>) -> Seq<CommandView> {
    Seq::new(v.len(), |i: int| v[i].view())
}

/// The log after a line is entered: an echo of it after `>`, then, when the
/// line is no command, the reason.
pub open spec fn entered_logs(v: TermView) -> Seq<(bool, Seq<char>)> {
    let echoed = logged(v.logs, false, ">"@ + v.input);
    match parsed(v.input) {
        Ok(_) => echoed,
        Err(e) => logged(echoed, true, error_message(e)),
    }
}

/// The number of bytes that `c` takes in UTF-8.
pub open spec fn char_width(c: char) -> nat {
    if (c as u32) <= 0x7f {
        1
    } else if (c as u32) <= 0x7ff {
        2
    } else if (c as u32) <= 0xffff {
        3
    } else {
        4
    }
}

/// The number of bytes that `s` takes in UTF-8.
pub open spec fn byte_len(s: Seq<char>) -> nat
    decreases s.len(),
{
    if s.len() == 0 {
        0
    } else {
        byte_len(s.drop_last()) + char_width(s.last())
    }
}

/// Whether the byte offset `b` into the UTF-8 text of `s` falls between two
/// characters (or at either end).
pub open spec fn on_boundary(s: Seq<char>, b: int) -> bool {
    exists|k: int| 0 <= k <= s.len() && byte_len(s.take(k)) == b
}

/// The number of characters before the byte offset `b`, where `b` falls
/// between two characters.
pub open spec fn chars_before(s: Seq<char>, b: int) -> int {
    choose|k: int| 0 <= k <= s.len() && byte_len(s.take(k)) == b
}

/// Where the terminal's own code fails on a key: a message to log that
/// cannot be cut into log lines; backspace or typing where the cursor's byte
/// offset (for backspace, the one before it) falls inside a character; a line
/// longer in bytes than a `usize` counts.
pub open spec fn term_defined(v: TermView, key: TermKey) -> bool {
    let c = v.cursor as int;
    match key {
        TermKey::Enter => fits_log(">"@ + v.input) && match parsed(v.input) {
            Ok(_) => true,
            Err(e) => fits_log(error_message(e)),
        },
        TermKey::Back => c != 0 ==> on_boundary(v.input, c - 1),
        TermKey::Text(t) => t@.len() != 0 ==> on_boundary(v.input, c) && byte_len(v.input) + byte_len(t@)
            <= usize::MAX,
        _ => true,
    }
}

/// One key of the terminal.
pub open spec fn term_step(v: TermView, key: TermKey) -> TermView {
    let c = v.cursor;
    match key {
        TermKey::Ignored => v,
        TermKey::Right => TermView {
            cursor: if c + 1 <= byte_len(v.input) { (c + 1) as usize } else { byte_len(v.input) as usize },
            ..v
        },
        TermKey::Left => TermView { cursor: if c != 0 { (c - 1) as usize } else { c }, ..v },
        TermKey::Back => if c != 0 {
            TermView { input: v.input.remove(chars_before(v.input, c - 1)), cursor: (c - 1) as usize, ..v }
        } else {
            v
        },
        TermKey::Enter => TermView {
            logs: entered_logs(v),
            input: Seq::empty(),
            cursor: 0,
            commands: match parsed(v.input) {
                Ok(cv) => v.commands.push(cv),
                Err(_) => v.commands,
            },
        },
        TermKey::Text(t) => if t@.len() == 0 {
            v
        } else {
            let k = chars_before(v.input, c as int);
            TermView { input: v.input.take(k) + t@ + v.input.skip(k), cursor: (c + 1) as usize, ..v }
        },
    }
}

/// The keys taken in turn, or nothing when one of them fails.
pub open spec fn run_term(v: TermView, keys: Seq<TermKey>) -> Option<TermView>
    decreases keys.len(),
{
    if keys.len() == 0 {
        Some(v)
    } else {
        match run_term(v, keys.drop_last()) {
            None => None,
            Some(w) => if term_defined(w, keys.last()) {
                Some(term_step(w, keys.last()))
            } else {
                None
            },
        }
    }
}

/// The lines entered with the enter key in a run of keys, in order.
pub open spec fn entered_lines(v: TermView, keys: Seq<TermKey>) -> Seq<Seq<char>>
    decreases keys.len(),
{
    if keys.len() == 0 {
        seq![]
    } else {
        let before = entered_lines(v, keys.drop_last());
        match run_term(v, keys.drop_last()) {
            Some(w) => if keys.last() is Enter {
                before.push(w.input)
            } else {
                before
            },
            None => before,
        }
    }
}

/// The commands that lines stand for, in order, leaving out the lines that
/// are no command.
pub open spec fn parsed_commands(lines: Seq<Seq<char>>) -> Seq<CommandView>
    decreases lines.len(),
{
    if lines.len() == 0 {
        seq![]
    } else {
        let before = parsed_commands(lines.drop_last());
        match parsed(lines.last()) {
            Ok(c) => before.push(c),
            Err(_) => before,
        }
    }
}

/// A run of keys adds to the commands exactly those of the lines entered
/// with the enter key, in order, and keeps the cursor within the line.
pub proof fn law_commands_of_entered_lines(v: TermView, keys: Seq<TermKey>)
    requires
        v.cursor <= byte_len(v.input),
        run_term(v, keys) is Some,
    ensures
        run_term(v, keys).unwrap().commands == v.commands + parsed_commands(entered_lines(v, keys)),
        run_term(v, keys).unwrap().cursor <= byte_len(run_term(v, keys).unwrap().input),
    decreases keys.len(),
{
    if keys.len() == 0 {
        assert(v.commands + Seq::<CommandView>::empty() =~= v.commands);
    } else {
        let pre = keys.drop_last();
        law_commands_of_entered_lines(v, pre);
        let w = run_term(v, pre).unwrap();
        let k = keys.last();
        let before = entered_lines(v, pre);
        lemma_step_keeps_cursor(w, k);
        if k is Enter {
            match parsed(w.input) {
                Ok(c) => {
                    assert(before.push(w.input).drop_last() =~= before);
                    assert(v.commands + parsed_commands(before).push(c) =~= (v.commands + parsed_commands(before)).push(c));
                },
                Err(_) => {
                    assert(before.push(w.input).drop_last() =~= before);
                },
            }
        }
    }
}

/// A key that the terminal takes keeps the cursor within the line.
proof fn lemma_step_keeps_cursor(v: TermView, key: TermKey)
    requires
        v.cursor <= byte_len(v.input),
        term_defined(v, key),
    ensures
        term_step(v, key).cursor <= byte_len(term_step(v, key).input),
{
    let c = v.cursor as int;
    match key {
        TermKey::Back => {
            if c != 0 {
                let k = chars_before(v.input, c - 1);
                lemma_remove_fits(v.input, k, c - 1);
            }
        },
        TermKey::Text(t) => {
            if t@.len() != 0 {
                let k = chars_before(v.input, c);
                lemma_insert_len(v.input, t@, k);
            }
        },
        _ => {},
    }
}

/// Once a run of keys fails, every longer run from the same keys fails too.
pub proof fn lemma_run_term_prefix(v: TermView, keys: Seq<TermKey>, i: int)
    requires
        0 <= i <= keys.len(),
        run_term(v, keys.take(i)) is None,
    ensures
        run_term(v, keys) is None,
    decreases keys.len() - i,
{
    if i < keys.len() {
        assert(keys.take(i + 1).drop_last() =~= keys.take(i));
        lemma_run_term_prefix(v, keys, i + 1);
    } else {
        assert(keys.take(i) =~= keys);
    }
}

/// `load` and `save` take the same files, the cartridge files: names that
/// end in `.r32` or in `.r32.txt`; any other name is refused with the
/// command's own error. `export` takes any name. What follows the file name
/// is not read.
pub proof fn law_load_and_save_take_cartridges(f: Seq<char>, rest: Seq<Seq<char>>)
    ensures
        ({
            let cart = (f.len() >= 4 && f.skip(f.len() - 4) == seq!['.', 'r', '3', '2']) || (f.len() >= 8 && f.skip(
                f.len() - 8,
            ) == seq!['.', 'r', '3', '2', '.', 't', 'x', 't']);
            let load = seq!['l', 'o', 'a', 'd'];
            let save = seq!['s', 'a', 'v', 'e'];
            let export = seq!['e', 'x', 'p', 'o', 'r', 't'];
            &&& command_of(seq![load, f] + rest) == if cart {
                Ok::<CommandView, CommandError>(CommandView::Load(f))
            } else {
                Err::<CommandView, CommandError>(CommandError::NotCartridgeToLoad)
            }
            &&& command_of(seq![save, f] + rest) == if cart {
                Ok::<CommandView, CommandError>(CommandView::Save(f))
            } else {
                Err::<CommandView, CommandError>(CommandError::NotCartridgeToSave)
            }
            &&& (command_of(seq![save, f] + rest) is Ok <==> command_of(seq![load, f] + rest) is Ok)
            &&& command_of(seq![export, f] + rest) == Ok::<CommandView, CommandError>(CommandView::Export(f))
        }),
{
    reveal_strlit("load");
    reveal_strlit("save");
    reveal_strlit("export");
    reveal_strlit(".r32");
    reveal_strlit(".r32.txt");
    let load = seq!['l', 'o', 'a', 'd'];
    let save = seq!['s', 'a', 'v', 'e'];
    let export = seq!['e', 'x', 'p', 'o', 'r', 't'];
    assert(load =~= "load"@);
    assert(save =~= "save"@);
    assert(export =~= "export"@);
    assert(save != load) by {
        assert(save[0] != load[0]);
    }
    assert(export != load) by {
        assert(export[0] != load[0]);
    }
    assert(export != save) by {
        assert(export[0] != save[0]);
    }
    assert(seq!['.', 'r', '3', '2'] =~= ".r32"@);
    assert(seq!['.', 'r', '3', '2', '.', 't', 'x', 't'] =~= ".r32.txt"@);
    assert((seq![load, f] + rest)[1] == f);
    assert((seq![save, f] + rest)[1] == f);
    assert((seq![export, f] + rest)[1] == f);
    assert((seq![load, f] + rest)[0] == load);
    assert((seq![save, f] + rest)[0] == save);
    assert((seq![export, f] + rest)[0] == export);
}

/// The cursor keys of the terminal leave the line as it is. Right goes one
/// byte on while the cursor is before the line's end and stays at the end;
/// left goes one byte back while the cursor is past the start and stays at
/// the start.
pub proof fn law_term_cursor_keys(v: TermView)
    requires
        v.cursor <= byte_len(v.input),
        byte_len(v.input) <= usize::MAX,
    ensures
        term_defined(v, TermKey::Right),
        term_defined(v, TermKey::Left),
        term_step(v, TermKey::Right).input == v.input,
        term_step(v, TermKey::Left).input == v.input,
        term_step(v, TermKey::Right).logs == v.logs,
        term_step(v, TermKey::Right).commands == v.commands,
        v.cursor < byte_len(v.input) ==> term_step(v, TermKey::Right).cursor == v.cursor + 1,
        v.cursor == byte_len(v.input) ==> term_step(v, TermKey::Right).cursor == v.cursor,
        v.cursor > 0 ==> term_step(v, TermKey::Left).cursor == v.cursor - 1,
        v.cursor == 0 ==> term_step(v, TermKey::Left).cursor == 0,
{
}

/// Typing text puts it into the line at the cursor's byte offset, and the
/// cursor moves one on.
pub proof fn law_term_typing(v: TermView, t: String)
    requires
        v.cursor <= byte_len(v.input),
        t@.len() > 0,
        term_defined(v, TermKey::Text(t)),
    ensures
        exists|a: Seq<char>, b: Seq<char>|
            a + b == v.input && byte_len(a) == v.cursor && #[trigger] term_step(v, TermKey::Text(t)).input == a
                + t@ + b,
        term_step(v, TermKey::Text(t)).cursor == v.cursor + 1,
{
    let k = chars_before(v.input, v.cursor as int);
    let a = v.input.take(k);
    let b = v.input.skip(k);
    assert(a + b =~= v.input);
    assert(term_step(v, TermKey::Text(t)).input == a + t@ + b);
}

/// Backspace after the start takes out the one character that ends at the
/// cursor's byte offset, and the cursor goes one byte back.
pub proof fn law_term_backspace(v: TermView)
    requires
        v.cursor <= byte_len(v.input),
        v.cursor > 0,
        term_defined(v, TermKey::Back),
    ensures
        exists|a: Seq<char>, ch: char, b: Seq<char>|
            a + seq![ch] + b == v.input && byte_len(a) == v.cursor - 1 && #[trigger] term_step(
                v,
                TermKey::Back,
            ).input == a + b,
        term_step(v, TermKey::Back).cursor == v.cursor - 1,
{
    let c = v.cursor as int;
    let k = chars_before(v.input, c - 1);
    lemma_remove_fits(v.input, k, c - 1);
    let a = v.input.take(k);
    let b = v.input.skip(k + 1);
    assert(a + seq![v.input[k]] + b =~= v.input);
    assert(v.input.remove(k) =~= a + b);
}

} // verus!
