use vstd::prelude::*;

use crate::history::{top_change, clear_stack, forget, histories_of, lookup, pop_change, push_change, store, Change, ChangeView, FileHistory};
use crate::input::{contains_key, Key, Keyboard, MousePress};
use crate::text::{
    concat_chars, copy_chars, delete_lines, delete_range, end_of_text, insert_lines, insert_text, join, join_text,
    lemma_delete_lines, lemma_insert_lines, lemma_merge_rows, lemma_remove_char, lemma_split_basics,
    lemma_split_row, slice_chars, lines_of, lines_wf, newline_free, pos_valid,
    split_lines, split_text, text_between, text_in_range, Pos,
};

verus! {

/// Rows of the editor's text area, in console pixels.
pub const TEXT_SPACE: usize = 179;

/// Height of one row of text, in console pixels.
pub const TEXT_HEIGHT: usize = 6;

/// Width of one character, in console pixels.
pub const TEXT_WIDTH: usize = 4;

/// Width of the console's screen, in console pixels.
pub const SCREEN_SIZE: usize = 128;

/// Rows of text that the editor shows at once.
pub const VISIBLE_ROWS: usize = 29;

/// Columns of text that the editor shows at once.
pub const VISIBLE_COLS: usize = 32;

/// What the editing commands read and change, each part by its view.
pub struct EditorView {
    pub file_name: Seq<char>,
    pub lines: Seq<Seq<char>>,
    pub cursor: Pos,
    pub selection: Option<(Pos, Pos)>,
    pub clipboard: Seq<char>,
    pub undo: Seq<(Seq<char>, Seq<ChangeView>)>,
    pub redo: Seq<(Seq<char>, Seq<ChangeView>)>,
    pub upto_date: bool,
    pub pending_save: Option<Seq<char>>,
}

/// The code editor screen: the open file as lines of characters, the cursor
/// and selection, a clipboard, and per file the changes that can be undone
/// and redone.
pub struct IDEEngine {
    pub keyboard: Keyboard,
    pub mouse: MousePress,
    pub cart_path: String,
    /// The script files of the cartridge's folder, each with the time it
    /// was last seen changed.
    pub files: Vec<(String, i64)>,
    pub file_name: String,
    pub file: Vec<Vec<char>>,
    pub cursor: Pos,
    pub scroll_offset: Pos,
    pub selection: Option<(Pos, Pos)>,
    pub undo_stack: Vec<FileHistory>,
    pub redo_stack: Vec<FileHistory>,
    pub clipboard: Vec<char>,
    pub frame_hash: i32,
    pub upto_date: bool,
    /// The text last saved with the save shortcut and not yet written out.
    pub pending_save: Option<Vec<char>>,
}

/// The key's action failed where the editor's own code fails: a selection,
/// cursor or recorded change that no longer fits the text.
pub struct EditError;

// ---------------------------------------------------------------------------
// The model: what each command does to the view
// ---------------------------------------------------------------------------

/// The selection with its ends in text order.
pub open spec fn sorted(sel: Option<(Pos, Pos)>) -> Option<(Pos, Pos)> {
    match sel {
        None => None,
        Some((s, e)) => if s.1 > e.1 || (s.1 == e.1 && s.0 > e.0) {
            Some((e, s))
        } else {
            Some((s, e))
        },
    }
}

/// The selection, if any, has both ends at valid places.
pub open spec fn selection_ok(v: EditorView) -> bool {
    match sorted(v.selection) {
        None => true,
        Some((s, e)) => pos_valid(v.lines, s) && pos_valid(v.lines, e),
    }
}

/// The selected text (nothing without a selection).
pub open spec fn selected_text(v: EditorView) -> Seq<char> {
    match sorted(v.selection) {
        None => Seq::empty(),
        Some((s, e)) => text_between(v.lines, s, e),
    }
}

/// Where an edit starts: at the selection's start, or at the cursor.
pub open spec fn edit_start(v: EditorView) -> Pos {
    match sorted(v.selection) {
        None => v.cursor,
        Some((s, _)) => s,
    }
}

/// The view after the selected text is removed: the cursor goes to where the
/// selection started and the selection is gone.
pub open spec fn without_selection(v: EditorView) -> EditorView {
    match sorted(v.selection) {
        None => v,
        Some((s, e)) => EditorView { lines: delete_lines(v.lines, s, e), cursor: s, selection: None, ..v },
    }
}

/// The view after `c` is recorded: on top of the open file's undo stack, the
/// file's redo stack emptied, and the file marked as changed.
pub open spec fn record(v: EditorView, c: ChangeView) -> EditorView {
    EditorView {
        upto_date: false,
        undo: store(v.undo, v.file_name, lookup(v.undo, v.file_name).push(c)),
        redo: forget(v.redo, v.file_name),
        ..v
    }
}

/// The view after `s` is typed: it replaces the selection, and the cursor
/// moves one column on.
pub open spec fn typed(v: EditorView, s: Seq<char>) -> EditorView {
    let w = without_selection(v);
    let at = w.cursor;
    let after: Pos = ((at.0 + 1) as usize, at.1);
    record(
        EditorView { lines: insert_lines(w.lines, s, at.0 as int, at.1 as int), cursor: after, ..w },
        ChangeView {
            deleted_text: selected_text(v),
            deleted_start: edit_start(v),
            added_text: s,
            added_start: at,
            cursor_before: v.cursor,
            cursor_after: after,
        },
    )
}

/// Typing `s` fails where the editor fails: on a selection that does not fit
/// the text, or a cursor outside it.
pub open spec fn typed_defined(v: EditorView) -> bool {
    selection_ok(v) && pos_valid(without_selection(v).lines, without_selection(v).cursor)
}

/// Four spaces, what the tab key types.
pub open spec fn tab_text() -> Seq<char> {
    seq![' ', ' ', ' ', ' ']
}

/// The view after the return key: the selection goes, the row splits at the
/// cursor, and the cursor moves to the start of the new row.
pub open spec fn line_broken(v: EditorView) -> EditorView {
    let w = without_selection(v);
    let at = w.cursor;
    let line = w.lines[at.1 as int];
    let after: Pos = (0, (at.1 + 1) as usize);
    record(
        EditorView {
            lines: w.lines.update(at.1 as int, line.take(at.0 as int)).insert(
                at.1 + 1,
                line.skip(at.0 as int),
            ),
            cursor: after,
            ..w
        },
        ChangeView {
            deleted_text: selected_text(v),
            deleted_start: edit_start(v),
            added_text: seq!['\n'],
            added_start: at,
            cursor_before: v.cursor,
            cursor_after: after,
        },
    )
}

/// The view after the selection is cut: when it holds text, the text goes to
/// the clipboard and out of the file, as a recorded change.
pub open spec fn cut(v: EditorView) -> EditorView {
    let t = selected_text(v);
    if t.len() == 0 {
        v
    } else {
        let ds = edit_start(v);
        let w = without_selection(EditorView { clipboard: t, ..v });
        record(
            w,
            ChangeView {
                deleted_text: t,
                deleted_start: ds,
                added_text: Seq::empty(),
                added_start: ds,
                cursor_before: v.cursor,
                cursor_after: w.cursor,
            },
        )
    }
}

/// The backspace key: with a selection, it is cut and the clipboard emptied;
/// otherwise the character before the cursor, or the line break before its
/// row, goes. At the very start, nothing happens and the key does not count.
pub open spec fn backspace(v: EditorView) -> (EditorView, bool) {
    let c = v.cursor.0;
    let r = v.cursor.1;
    if v.selection is Some {
        (EditorView { clipboard: Seq::empty(), ..cut(v) }, true)
    } else if c > 0 {
        let line = v.lines[r as int];
        let at: Pos = ((c - 1) as usize, r);
        (
            record(
                EditorView { lines: v.lines.update(r as int, line.remove(c - 1)), cursor: at, ..v },
                ChangeView {
                    deleted_text: seq![line[c - 1]],
                    deleted_start: at,
                    added_text: Seq::empty(),
                    added_start: at,
                    cursor_before: v.cursor,
                    cursor_after: at,
                },
            ),
            true,
        )
    } else if r > 0 {
        let prev = v.lines[r - 1];
        let at: Pos = (prev.len() as usize, (r - 1) as usize);
        (
            record(
                EditorView {
                    lines: v.lines.update(r - 1, prev + v.lines[r as int]).remove(r as int),
                    cursor: at,
                    ..v
                },
                ChangeView {
                    deleted_text: seq!['\n'],
                    deleted_start: at,
                    added_text: Seq::empty(),
                    added_start: at,
                    cursor_before: v.cursor,
                    cursor_after: at,
                },
            ),
            true,
        )
    } else {
        (v, false)
    }
}

/// Where an arrow key moves the cursor.
pub open spec fn moved(v: EditorView, k: Key) -> Pos {
    let c = v.cursor.0;
    let r = v.cursor.1;
    match k {
        Key::Left => if c > 0 {
            ((c - 1) as usize, r)
        } else if r > 0 {
            (v.lines[r - 1].len() as usize, (r - 1) as usize)
        } else {
            v.cursor
        },
        Key::Right => if c < v.lines[r as int].len() {
            ((c + 1) as usize, r)
        } else if r < v.lines.len() - 1 {
            (0, (r + 1) as usize)
        } else {
            v.cursor
        },
        Key::Up => if r > 0 {
            (if c <= v.lines[r - 1].len() { c } else { v.lines[r - 1].len() as usize }, (r - 1) as usize)
        } else {
            v.cursor
        },
        Key::Down => if r < v.lines.len() - 1 {
            (if c <= v.lines[r + 1].len() { c } else { v.lines[r + 1].len() as usize }, (r + 1) as usize)
        } else {
            v.cursor
        },
        _ => v.cursor,
    }
}

/// Where the editor's own code would fail on a movement or editing key.
pub open spec fn special_defined(v: EditorView, k: Key) -> bool {
    let c = v.cursor.0;
    let r = v.cursor.1;
    match k {
        Key::Tab => typed_defined(v),
        Key::Return => typed_defined(v),
        Key::Left => c > 0 || r == 0 || r - 1 < v.lines.len(),
        Key::Right => r < v.lines.len(),
        Key::Up => r == 0 || r - 1 < v.lines.len(),
        Key::Back => if v.selection is Some {
            selection_ok(v)
        } else if c > 0 {
            pos_valid(v.lines, v.cursor)
        } else {
            r == 0 || r < v.lines.len()
        },
        _ => true,
    }
}

/// One movement or editing key: the new view, and whether the key counted.
pub open spec fn special_step(v: EditorView, k: Key) -> (EditorView, bool) {
    match k {
        Key::Tab => (typed(v, tab_text()), true),
        Key::Left => (EditorView { cursor: moved(v, k), ..v }, true),
        Key::Right => (EditorView { cursor: moved(v, k), ..v }, true),
        Key::Up => (EditorView { cursor: moved(v, k), ..v }, true),
        Key::Down => (EditorView { cursor: moved(v, k), ..v }, true),
        Key::Back => backspace(v),
        Key::Return => (line_broken(v), true),
        _ => (v, false),
    }
}

/// The keys taken in turn: the final view and whether any counted, or
/// nothing when one of them fails.
pub open spec fn run_special(v: EditorView, keys: Seq<Key>) -> Option<(EditorView, bool)>
    decreases keys.len(),
{
    if keys.len() == 0 {
        Some((v, false))
    } else {
        match run_special(v, keys.drop_last()) {
            None => None,
            Some((w, m)) => if special_defined(w, keys.last()) {
                Some((special_step(w, keys.last()).0, m || special_step(w, keys.last()).1))
            } else {
                None
            },
        }
    }
}

/// The place after `text` when it starts at `start`, as a position.
pub open spec fn end_pos(text: Seq<char>, start: Pos) -> Pos {
    (end_of_text(text, start).0 as usize, end_of_text(text, start).1 as usize)
}

/// `text` can be taken out of `ls` from `start`: the place its end would
/// reach lies in the lines.
pub open spec fn removable(ls: Seq<Seq<char>>, text: Seq<char>, start: Pos) -> bool {
    let e = end_of_text(text, start);
    &&& start.1 < ls.len()
    &&& e.1 < ls.len()
    &&& e.0 <= ls[e.1].len()
}

/// The lines with a change's written text taken out and its removed text put back.
pub open spec fn reverted(ls: Seq<Seq<char>>, c: ChangeView) -> Seq<Seq<char>> {
    let l1 = delete_lines(ls, c.added_start, end_pos(c.added_text, c.added_start));
    insert_lines(l1, c.deleted_text, c.deleted_start.0 as int, c.deleted_start.1 as int)
}

/// The lines with a change's removed text taken out and its written text put back.
pub open spec fn reapplied(ls: Seq<Seq<char>>, c: ChangeView) -> Seq<Seq<char>> {
    let l1 = delete_lines(ls, c.deleted_start, end_pos(c.deleted_text, c.deleted_start));
    insert_lines(l1, c.added_text, c.added_start.0 as int, c.added_start.1 as int)
}

/// Undoing `c` on `ls` goes through where the editor's own code goes through.
pub open spec fn revertible(ls: Seq<Seq<char>>, c: ChangeView) -> bool {
    &&& removable(ls, c.added_text, c.added_start)
    &&& pos_valid(delete_lines(ls, c.added_start, end_pos(c.added_text, c.added_start)), c.deleted_start)
}

/// Redoing `c` on `ls` goes through where the editor's own code goes through.
pub open spec fn reapplicable(ls: Seq<Seq<char>>, c: ChangeView) -> bool {
    &&& removable(ls, c.deleted_text, c.deleted_start)
    &&& pos_valid(delete_lines(ls, c.deleted_start, end_pos(c.deleted_text, c.deleted_start)), c.added_start)
}

/// The undo key: the open file's latest change is reverted, the cursor goes
/// back to where it was before it, and the change moves to the redo stack.
pub open spec fn undone(v: EditorView) -> EditorView {
    let st = lookup(v.undo, v.file_name);
    if st.len() == 0 {
        v
    } else {
        let c = st.last();
        EditorView {
            lines: reverted(v.lines, c),
            cursor: c.cursor_before,
            undo: store(v.undo, v.file_name, st.drop_last()),
            redo: store(v.redo, v.file_name, lookup(v.redo, v.file_name).push(c)),
            ..v
        }
    }
}

/// The redo key: the open file's latest undone change is made again, the
/// cursor goes to where it was after it, and the change moves back to the
/// undo stack.
pub open spec fn redone(v: EditorView) -> EditorView {
    let st = lookup(v.redo, v.file_name);
    if st.len() == 0 {
        v
    } else {
        let c = st.last();
        EditorView {
            lines: reapplied(v.lines, c),
            cursor: c.cursor_after,
            redo: store(v.redo, v.file_name, st.drop_last()),
            undo: store(v.undo, v.file_name, lookup(v.undo, v.file_name).push(c)),
            ..v
        }
    }
}

/// The paste shortcut: the clipboard replaces the selection, and the cursor
/// goes behind the pasted text.
pub open spec fn pasted(v: EditorView) -> EditorView {
    let w = without_selection(v);
    let at = w.cursor;
    let t = v.clipboard;
    let after = end_pos(t, at);
    record(
        EditorView { lines: insert_lines(w.lines, t, at.0 as int, at.1 as int), cursor: after, ..w },
        ChangeView {
            deleted_text: selected_text(v),
            deleted_start: edit_start(v),
            added_text: t,
            added_start: at,
            cursor_before: v.cursor,
            cursor_after: after,
        },
    )
}

/// The select-all shortcut: everything selected, the cursor at the end.
pub open spec fn all_selected(v: EditorView) -> EditorView {
    let r = (v.lines.len() - 1) as usize;
    let c = v.lines[r as int].len() as usize;
    EditorView { selection: Some(((0, 0), (c, r))), cursor: (c, r), ..v }
}

/// Where the editor's own code would fail on a shortcut.
pub open spec fn shortcut_defined(v: EditorView, k: Key) -> bool {
    match k {
        Key::V => typed_defined(v),
        Key::C => selection_ok(v),
        Key::X => selection_ok(v),
        Key::Z => {
            let st = lookup(v.undo, v.file_name);
            st.len() == 0 || revertible(v.lines, st.last())
        },
        Key::R => {
            let st = lookup(v.redo, v.file_name);
            st.len() == 0 || reapplicable(v.lines, st.last())
        },
        _ => true,
    }
}

/// One shortcut (with control held): the new view, and whether the key counted.
pub open spec fn shortcut_step(v: EditorView, k: Key) -> (EditorView, bool) {
    match k {
        Key::V => (pasted(v), true),
        Key::Z => (undone(v), true),
        Key::R => (redone(v), true),
        Key::C => (EditorView { clipboard: selected_text(v), ..v }, true),
        Key::X => (cut(v), true),
        Key::A => (all_selected(v), true),
        Key::S => (EditorView { upto_date: true, pending_save: Some(join(v.lines)), ..v }, true),
        _ => (v, false),
    }
}

/// The shortcuts taken in turn.
pub open spec fn run_shortcuts(v: EditorView, keys: Seq<Key>) -> Option<(EditorView, bool)>
    decreases keys.len(),
{
    if keys.len() == 0 {
        Some((v, false))
    } else {
        match run_shortcuts(v, keys.drop_last()) {
            None => None,
            Some((w, m)) => if shortcut_defined(w, keys.last()) {
                Some((shortcut_step(w, keys.last()).0, m || shortcut_step(w, keys.last()).1))
            } else {
                None
            },
        }
    }
}

/// Once a run of keys fails, every longer run from the same keys fails too.
pub proof fn lemma_run_special_prefix(v: EditorView, keys: Seq<Key>, i: int)
    requires
        0 <= i <= keys.len(),
        run_special(v, keys.take(i)) is None,
    ensures
        run_special(v, keys) is None,
    decreases keys.len() - i,
{
    if i < keys.len() {
        assert(keys.take(i + 1).drop_last() =~= keys.take(i));
        lemma_run_special_prefix(v, keys, i + 1);
    } else {
        assert(keys.take(i) =~= keys);
    }
}

/// Once a run of shortcuts fails, every longer run from the same keys fails too.
pub proof fn lemma_run_shortcuts_prefix(v: EditorView, keys: Seq<Key>, i: int)
    requires
        0 <= i <= keys.len(),
        run_shortcuts(v, keys.take(i)) is None,
    ensures
        run_shortcuts(v, keys) is None,
    decreases keys.len() - i,
{
    if i < keys.len() {
        assert(keys.take(i + 1).drop_last() =~= keys.take(i));
        lemma_run_shortcuts_prefix(v, keys, i + 1);
    } else {
        assert(keys.take(i) =~= keys);
    }
}

/// One frame's worth of keys: the movement and editing keys (all held keys
/// every third frame, else the newly pressed ones, which restart the count),
/// then with control held the shortcuts (all held keys every sixth frame,
/// else the newly pressed ones); when the cursor moved, shift extends the
/// selection to it and its absence drops the selection.
pub open spec fn input_step(v: EditorView, frame: i32, pressed: Seq<Key>, just: Seq<Key>) -> Option<
    (EditorView, i32),
> {
    let shift = pressed.contains(Key::LShift) || pressed.contains(Key::RShift);
    let ctrl = pressed.contains(Key::LControl) || pressed.contains(Key::RControl);
    let first = if frame % 3 == 0 {
        match run_special(v, pressed) {
            Some((w, _)) => Some((w, frame)),
            None => None,
        }
    } else {
        match run_special(v, just) {
            Some((w, m)) => Some((w, if m { 0 } else { frame })),
            None => None,
        }
    };
    let second = match first {
        None => None,
        Some((w, f)) => if !ctrl {
            Some((w, f))
        } else if f % 6 == 0 {
            match run_shortcuts(w, pressed) {
                Some((x, _)) => Some((x, f)),
                None => None,
            }
        } else {
            match run_shortcuts(w, just) {
                Some((x, m)) => Some((x, if m { 0 } else { f })),
                None => None,
            }
        },
    };
    match second {
        None => None,
        Some((w, f)) => if w.cursor != v.cursor {
            let sel = if shift {
                match w.selection {
                    Some((s, _)) => Some((s, w.cursor)),
                    None => Some((v.cursor, w.cursor)),
                }
            } else {
                None
            };
            Some((EditorView { selection: sel, ..w }, f))
        } else {
            Some((w, f))
        },
    }
}

/// The scroll position that keeps the cursor in view: the fewest rows and
/// columns moved from `scroll` so that the cursor's row and column show.
pub open spec fn scrolled(scroll: Pos, cursor: Pos) -> Pos {
    let s1 = if cursor.1 < scroll.1 { cursor.1 } else { scroll.1 };
    let s1b = if cursor.1 >= s1 + VISIBLE_ROWS { (cursor.1 - VISIBLE_ROWS + 1) as usize } else { s1 };
    let s0 = if cursor.0 < scroll.0 { cursor.0 } else { scroll.0 };
    let s0b = if cursor.0 >= s0 + VISIBLE_COLS { (cursor.0 - VISIBLE_COLS + 1) as usize } else { s0 };
    (s0b, s1b)
}

/// Scrolling to the cursor brings it into view: its row among the rows
/// shown and its column among the columns shown.
pub proof fn law_scroll_shows_cursor(scroll: Pos, cursor: Pos)
    ensures
        scrolled(scroll, cursor).1 <= cursor.1 < scrolled(scroll, cursor).1 + VISIBLE_ROWS,
        scrolled(scroll, cursor).0 <= cursor.0 < scrolled(scroll, cursor).0 + VISIBLE_COLS,
{
}

// ---------------------------------------------------------------------------
// The engine
// ---------------------------------------------------------------------------

/// A copy of a buffer of lines.
fn copy_lines(file: &Vec<Vec<char>>) -> (r: Vec<Vec<char>>)
    ensures
        lines_of(&r) == lines_of(file),
{
    let mut r: Vec<Vec<char>> = Vec::new();
    let mut i: usize = 0;
    while i < file.len()
        invariant
            i <= file@.len(),
            lines_of(&r) == lines_of(file).take(i as int),
        decreases file@.len() - i,
    {
        let line = copy_chars(&file[i]);
        let ghost before = lines_of(&r);
        r.push(line);
        assert(lines_of(&r) =~= before.push(file@[i as int]@));
        i += 1;
        assert(lines_of(&r) =~= lines_of(file).take(i as int));
    }
    assert(lines_of(file).take(file@.len() as int) =~= lines_of(file));
    r
}

/// The characters of `s`, in order.
pub(crate) fn chars_of(s: &str) -> (r: Vec<char>)
    ensures
        r@ == s@,
{
    broadcast use vstd::string::axiom_spec_iter, vstd::string::next_postcondition;

    let mut it = s.chars();
    let mut r: Vec<char> = Vec::new();
    loop
        invariant
            r@ + vstd::std_specs::iter::IteratorSpec::remaining(&it) == s@,
        ensures
            r@ == s@,
        decreases s@.len() - r@.len(),
    {
        match it.next() {
            Some(c) => {
                r.push(c);
            },
            None => {
                break;
            },
        }
    }
    r
}

/// The text of `v` as a `String`.
#[verifier::external_body]
pub(crate) fn string_of(v: &Vec<char>) -> (r: String)
    ensures
        r@ == v@,
{
    v.iter().collect()
}

/// Where `text` ends when written at `start`, or `None` when that place
/// does not fit in a position.
fn text_end(text: &Vec<char>, start: Pos) -> (r: Option<Pos>)
    ensures
        match r {
            Some(p) => p.0 == end_of_text(text@, start).0 && p.1 == end_of_text(text@, start).1,
            None => end_of_text(text@, start).0 > usize::MAX || end_of_text(text@, start).1 > usize::MAX,
        },
{
    proof {
        lemma_split_basics(text@);
    }
    let parts = split_text(text);
    let k = parts.len();
    if k == 1 {
        let l = parts[0].len();
        if start.0 > usize::MAX - l {
            return None;
        }
        Some((start.0 + l, start.1))
    } else {
        let l = parts[k - 1].len();
        if start.1 > usize::MAX - (k - 1) {
            return None;
        }
        Some((l, start.1 + (k - 1)))
    }
}

impl IDEEngine {
    /// The editing state, each part by its view.
    pub open spec fn view(&self) -> EditorView {
        EditorView {
            file_name: self.file_name@,
            lines: lines_of(&self.file),
            cursor: self.cursor,
            selection: self.selection,
            clipboard: self.clipboard@,
            undo: histories_of(self.undo_stack@),
            redo: histories_of(self.redo_stack@),
            upto_date: self.upto_date,
            pending_save: match self.pending_save {
                Some(t) => Some(t@),
                None => None,
            },
        }
    }

    /// The engine's own invariant: the lines are lines, the keyboard sets are
    /// sets, and the frame count is in its range.
    pub open spec fn wf(&self) -> bool {
        &&& lines_wf(lines_of(&self.file))
        &&& self.keyboard.wf()
        &&& 0 <= self.frame_hash < 24
    }

    /// The parts that editing leaves alone.
    pub open spec fn same_outside(&self, other: &IDEEngine) -> bool {
        &&& self.keyboard@ == other.keyboard@
        &&& self.mouse == other.mouse
        &&& self.cart_path@ == other.cart_path@
        &&& self.files@ == other.files@
        &&& self.scroll_offset == other.scroll_offset
        &&& self.frame_hash == other.frame_hash
    }

    /// An editor on `contents` as the file `main.lua` of the cartridge at
    /// `path`: the text split into lines, the cursor at the start, nothing
    /// selected, nothing to undo or redo, nothing unsaved.
    pub fn new(path: String, contents: &str) -> (r: IDEEngine)
        ensures
            r.wf(),
            r.view().lines == split_lines(contents@),
            r.view().file_name == seq!['m', 'a', 'i', 'n', '.', 'l', 'u', 'a'],
            r.cart_path@ == path@,
            r.files@.len() == 0,
            r.cursor == (0usize, 0usize),
            r.scroll_offset == (0usize, 0usize),
            r.selection is None,
            r.view().undo.len() == 0,
            r.view().redo.len() == 0,
            r.view().clipboard.len() == 0,
            r.upto_date,
            r.pending_save is None,
            r.frame_hash == 0,
            r.keyboard@.0.len() == 0 && r.keyboard@.1.len() == 0,
    {
        let text = chars_of(contents);
        let file = split_text(&text);
        proof {
            lemma_split_basics(text@);
        }
        let name = String::from_str("main.lua");
        proof {
            reveal_strlit("main.lua");
        }
        IDEEngine {
            keyboard: Keyboard::new(),
            mouse: MousePress::new(),
            cart_path: path,
            files: Vec::new(),
            file_name: name,
            file,
            cursor: (0, 0),
            scroll_offset: (0, 0),
            selection: None,
            undo_stack: Vec::new(),
            redo_stack: Vec::new(),
            clipboard: Vec::new(),
            frame_hash: 0,
            upto_date: true,
            pending_save: None,
        }
    }

    /// The selection with its ends in text order.
    pub(crate) fn get_sorted_selection(&self) -> (r: Option<(Pos, Pos)>)
        ensures
            r == sorted(self.selection),
    {
        match self.selection {
            None => None,
            Some((start, end)) => if start.1 > end.1 || (start.1 == end.1 && start.0 > end.0) {
                Some((end, start))
            } else {
                Some((start, end))
            },
        }
    }

    /// Whether `p` is a valid place in the text.
    fn pos_is_valid(&self, p: Pos) -> (r: bool)
        ensures
            r == pos_valid(self.view().lines, p),
    {
        p.1 < self.file.len() && p.0 <= self.file[p.1].len()
    }

    /// Whether the selection, if any, fits the text.
    pub fn selection_is_valid(&self) -> (r: bool)
        ensures
            r == selection_ok(self.view()),
    {
        match self.get_sorted_selection() {
            None => true,
            Some((s, e)) => self.pos_is_valid(s) && self.pos_is_valid(e),
        }
    }

    /// The selected text.
    fn get_selection_text(&self) -> (r: Vec<char>)
        requires
            selection_ok(self.view()),
        ensures
            r@ == selected_text(self.view()),
    {
        match self.get_sorted_selection() {
            None => Vec::new(),
            Some((s, e)) => text_in_range(&self.file, s, e),
        }
    }

    /// Removes the selected text and puts the cursor where it started.
    fn delete_selection(&mut self)
        requires
            old(self).wf(),
            selection_ok(old(self).view()),
        ensures
            final(self).wf(),
            final(self).same_outside(old(self)),
            final(self).view() == without_selection(old(self).view()),
            sorted(old(self).selection) is Some ==> pos_valid(final(self).view().lines, final(self).cursor),
    {
        match self.get_sorted_selection() {
            None => {},
            Some((s, e)) => {
                proof {
                    lemma_delete_lines(lines_of(&self.file), s, e);
                }
                delete_range(&mut self.file, s, e);
                self.cursor = s;
                self.selection = None;
            },
        }
    }

    /// Records `change` for the open file: onto its undo stack, its redo
    /// stack emptied, the file marked as changed.
    fn push_undo(&mut self, change: Change)
        requires
            old(self).wf(),
        ensures
            final(self).wf(),
            final(self).same_outside(old(self)),
            final(self).view() == record(old(self).view(), change@),
    {
        self.upto_date = false;
        push_change(&mut self.undo_stack, &self.file_name, change);
        clear_stack(&mut self.redo_stack, &self.file_name);
    }

    /// Types `s`: it replaces the selection, and the cursor moves one column
    /// on; the edit is recorded for undo.
    fn type_text(&mut self, s: Vec<char>)
        requires
            old(self).wf(),
            typed_defined(old(self).view()),
            (s@.len() > 0 && newline_free(s@)) || edit_start(old(self).view()).0 < usize::MAX,
        ensures
            final(self).wf(),
            final(self).same_outside(old(self)),
            final(self).view() == typed(old(self).view(), s@),
    {
        let ghost v = self.view();
        let cursor_before = self.cursor;
        let deleted_text = self.get_selection_text();
        let deleted_start = match self.get_sorted_selection() {
            Some((st, _)) => st,
            None => self.cursor,
        };
        self.delete_selection();
        let added_start = self.cursor;
        proof {
            lemma_insert_lines(lines_of(&self.file), s@, added_start);
            lemma_split_basics(s@);
        }
        insert_text(&mut self.file, &s, added_start);
        let line_len = self.file[added_start.1].len();
        assert(s@.len() > 0 && newline_free(s@) ==> line_len > added_start.0);
        self.cursor = (self.cursor.0 + 1, self.cursor.1);
        let change = Change {
            deleted_text,
            deleted_start,
            added_text: s,
            added_start,
            cursor_before,
            cursor_after: self.cursor,
        };
        self.push_undo(change);
    }

    /// Types `s` at the cursor, replacing the selection; the cursor moves one
    /// column on. The edit is recorded for undo.
    pub fn handle_string_input(&mut self, s: String)
        requires
            old(self).wf(),
            typed_defined(old(self).view()),
            (s@.len() > 0 && newline_free(s@)) || edit_start(old(self).view()).0 < usize::MAX,
        ensures
            final(self).wf(),
            final(self).same_outside(old(self)),
            final(self).view() == typed(old(self).view(), s@),
    {
        let t = chars_of(s.as_str());
        self.type_text(t);
    }

    /// Whether typing at the cursor goes through: a selection that fits and,
    /// once it is gone, a cursor inside the text.
    pub fn can_type(&self) -> (r: bool)
        requires
            self.wf(),
        ensures
            r == typed_defined(self.view()),
    {
        if !self.selection_is_valid() {
            return false;
        }
        match self.get_sorted_selection() {
            None => self.pos_is_valid(self.cursor),
            Some((s, e)) => {
                proof {
                    lemma_delete_lines(lines_of(&self.file), s, e);
                }
                true
            },
        }
    }

    /// Cuts the selection: its text, when there is any, goes to the
    /// clipboard and out of the file, recorded for undo.
    fn cut_selection(&mut self)
        requires
            old(self).wf(),
            selection_ok(old(self).view()),
        ensures
            final(self).wf(),
            final(self).same_outside(old(self)),
            final(self).view() == cut(old(self).view()),
    {
        let cursor_before = self.cursor;
        let deleted_text = self.get_selection_text();
        if deleted_text.len() == 0 {
            return;
        }
        self.clipboard = copy_chars(&deleted_text);
        let deleted_start = match self.get_sorted_selection() {
            Some((st, _)) => st,
            None => self.cursor,
        };
        self.delete_selection();
        let cursor_after = self.cursor;
        let change = Change {
            deleted_text,
            deleted_start,
            added_text: Vec::new(),
            added_start: deleted_start,
            cursor_before,
            cursor_after,
        };
        self.push_undo(change);
    }

    /// The backspace key.
    fn backspace_key(&mut self) -> (hit: bool)
        requires
            old(self).wf(),
            special_defined(old(self).view(), Key::Back),
        ensures
            final(self).wf(),
            final(self).same_outside(old(self)),
            (final(self).view(), hit) == backspace(old(self).view()),
    {
        let ghost v = self.view();
        if self.selection.is_some() {
            self.cut_selection();
            self.clipboard = Vec::new();
            return true;
        }
        let cursor_before = self.cursor;
        let (col, row) = self.cursor;
        if col > 0 {
            let mut line = copy_chars(&self.file[row]);
            let ch = line.remove(col - 1);
            proof {
                lemma_remove_char(lines_of(&self.file), col - 1, row as int);
            }
            self.file.set(row, line);
            assert(lines_of(&self.file) =~= v.lines.update(row as int, v.lines[row as int].remove(col - 1)));
            self.cursor = (col - 1, row);
            let mut deleted_text: Vec<char> = Vec::new();
            deleted_text.push(ch);
            let change = Change {
                deleted_text,
                deleted_start: (col - 1, row),
                added_text: Vec::new(),
                added_start: (col - 1, row),
                cursor_before,
                cursor_after: self.cursor,
            };
            self.push_undo(change);
            true
        } else if row > 0 {
            proof {
                lemma_merge_rows(lines_of(&self.file), row as int);
            }
            let line = self.file.remove(row);
            let merged = concat_chars(&self.file[row - 1], &line);
            let prev_len = self.file[row - 1].len();
            self.file.set(row - 1, merged);
            assert(lines_of(&self.file) =~= v.lines.update(row - 1, v.lines[row - 1] + v.lines[row as int]).remove(row as int));
            self.cursor = (prev_len, row - 1);
            let mut deleted_text: Vec<char> = Vec::new();
            deleted_text.push('\n');
            let change = Change {
                deleted_text,
                deleted_start: self.cursor,
                added_text: Vec::new(),
                added_start: self.cursor,
                cursor_before,
                cursor_after: self.cursor,
            };
            self.push_undo(change);
            true
        } else {
            false
        }
    }

    /// The return key: the selection goes, the row splits at the cursor,
    /// and the cursor moves to the start of the new row.
    fn return_key(&mut self)
        requires
            old(self).wf(),
            typed_defined(old(self).view()),
        ensures
            final(self).wf(),
            final(self).same_outside(old(self)),
            final(self).view() == line_broken(old(self).view()),
    {
        let cursor_before = self.cursor;
        let deleted_text = self.get_selection_text();
        let deleted_start = match self.get_sorted_selection() {
            Some((st, _)) => st,
            None => self.cursor,
        };
        self.delete_selection();
        let ghost w = self.view();
        let added_start = self.cursor;
        let (col, row) = self.cursor;
        let n = self.file.len();
        let len = self.file[row].len();
        let head = slice_chars(&self.file[row], 0, col);
        let rest = slice_chars(&self.file[row], col, len);
        proof {
            lemma_split_row(w.lines, col as int, row as int);
        }
        self.file.set(row, head);
        self.file.insert(row + 1, rest);
        assert(lines_of(&self.file) =~= w.lines.update(row as int, w.lines[row as int].take(col as int)).insert(
            row + 1,
            w.lines[row as int].skip(col as int),
        ));
        self.cursor = (0, row + 1);
        let mut added_text: Vec<char> = Vec::new();
        added_text.push('\n');
        let change = Change {
            deleted_text,
            deleted_start,
            added_text,
            added_start,
            cursor_before,
            cursor_after: self.cursor,
        };
        self.push_undo(change);
    }

    /// Whether a movement or editing key goes through.
    fn special_key_defined(&self, k: Key) -> (r: bool)
        requires
            self.wf(),
        ensures
            r == special_defined(self.view(), k),
    {
        let (c, r) = self.cursor;
        match k {
            Key::Tab => self.can_type(),
            Key::Return => self.can_type(),
            Key::Left => c > 0 || r == 0 || r - 1 < self.file.len(),
            Key::Right => r < self.file.len(),
            Key::Up => r == 0 || r - 1 < self.file.len(),
            Key::Back => if self.selection.is_some() {
                self.selection_is_valid()
            } else if c > 0 {
                self.pos_is_valid(self.cursor)
            } else {
                r == 0 || r < self.file.len()
            },
            _ => true,
        }
    }

    /// One movement or editing key; says whether it counted.
    fn special_key(&mut self, k: Key) -> (hit: bool)
        requires
            old(self).wf(),
            special_defined(old(self).view(), k),
        ensures
            final(self).wf(),
            final(self).same_outside(old(self)),
            (final(self).view(), hit) == special_step(old(self).view(), k),
    {
        let ghost v = self.view();
        let (c, r) = self.cursor;
        match k {
            Key::Tab => {
                let mut spaces: Vec<char> = Vec::new();
                spaces.push(' ');
                spaces.push(' ');
                spaces.push(' ');
                spaces.push(' ');
                assert(spaces@ =~= tab_text());
                self.type_text(spaces);
                true
            },
            Key::Left => {
                if c > 0 {
                    self.cursor = (c - 1, r);
                } else if r > 0 {
                    self.cursor = (self.file[r - 1].len(), r - 1);
                }
                true
            },
            Key::Right => {
                if c < self.file[r].len() {
                    self.cursor = (c + 1, r);
                } else if r < self.file.len() - 1 {
                    self.cursor = (0, r + 1);
                }
                true
            },
            Key::Up => {
                if r > 0 {
                    let l = self.file[r - 1].len();
                    self.cursor = (if c <= l { c } else { l }, r - 1);
                }
                true
            },
            Key::Down => {
                if r < self.file.len() - 1 {
                    let l = self.file[r + 1].len();
                    self.cursor = (if c <= l { c } else { l }, r + 1);
                }
                true
            },
            Key::Back => self.backspace_key(),
            Key::Return => {
                self.return_key();
                true
            },
            _ => false,
        }
    }

    /// The movement and editing keys, in turn; says whether any counted, or
    /// fails where the editor's own code fails, at the first key that does.
    pub fn handle_special_keys(&mut self, keys: &Vec<Key>) -> (r: Result<bool, EditError>)
        requires
            old(self).wf(),
        ensures
            final(self).same_outside(old(self)),
            r matches Ok(m) ==> final(self).wf() && run_special(old(self).view(), keys@) == Some(
                (final(self).view(), m),
            ),
            r is Err ==> run_special(old(self).view(), keys@) is None,
    {
        let ghost v0 = self.view();
        let mut matched = false;
        let mut i: usize = 0;
        assert(keys@.take(0) =~= Seq::<Key>::empty());
        while i < keys.len()
            invariant
                i <= keys@.len(),
                self.wf(),
                self.same_outside(old(self)),
                v0 == old(self).view(),
                run_special(v0, keys@.take(i as int)) == Some((self.view(), matched)),
            decreases keys@.len() - i,
        {
            let k = keys[i];
            assert(keys@.take(i + 1).drop_last() =~= keys@.take(i as int));
            assert(keys@.take(i + 1).last() == k);
            if !self.special_key_defined(k) {
                proof {
                    assert(run_special(v0, keys@.take(i + 1)) is None);
                    lemma_run_special_prefix(v0, keys@, i + 1);
                }
                return Err(EditError);
            }
            let hit = self.special_key(k);
            matched = matched || hit;
            i += 1;
        }
        assert(keys@.take(keys@.len() as int) =~= keys@);
        Ok(matched)
    }

    /// Pastes the clipboard over the selection; the cursor goes behind the
    /// pasted text. The edit is recorded for undo.
    fn paste(&mut self)
        requires
            old(self).wf(),
            typed_defined(old(self).view()),
        ensures
            final(self).wf(),
            final(self).same_outside(old(self)),
            final(self).view() == pasted(old(self).view()),
    {
        let cursor_before = self.cursor;
        let deleted_text = self.get_selection_text();
        let deleted_start = match self.get_sorted_selection() {
            Some((st, _)) => st,
            None => self.cursor,
        };
        self.delete_selection();
        let added_start = self.cursor;
        let (col, row) = added_start;
        let added_text = copy_chars(&self.clipboard);
        proof {
            lemma_insert_lines(lines_of(&self.file), added_text@, added_start);
            lemma_split_basics(added_text@);
        }
        insert_text(&mut self.file, &added_text, added_start);
        let parts = split_text(&added_text);
        let k = parts.len();
        if k == 1 {
            let l = self.file[row].len();
            self.cursor = (col + parts[0].len(), row);
        } else {
            let n = self.file.len();
            self.cursor = (parts[k - 1].len(), row + (k - 1));
        }
        let change = Change {
            deleted_text,
            deleted_start,
            added_text,
            added_start,
            cursor_before,
            cursor_after: self.cursor,
        };
        self.push_undo(change);
    }

    /// Undoes the open file's latest change, if it has one.
    fn undo(&mut self)
        requires
            old(self).wf(),
            shortcut_defined(old(self).view(), Key::Z),
        ensures
            final(self).wf(),
            final(self).same_outside(old(self)),
            final(self).view() == undone(old(self).view()),
    {
        let ghost v = self.view();
        match pop_change(&mut self.undo_stack, &self.file_name) {
            None => {},
            Some(change) => {
                proof {
                    lemma_line_lens(&self.file);
                    lemma_split_basics(change.added_text@);
                }
                let e = match text_end(&change.added_text, change.added_start) {
                    Some(e) => e,
                    None => {
                        assert(false);
                        return;
                    },
                };
                proof {
                    lemma_delete_lines(v.lines, change.added_start, e);
                }
                delete_range(&mut self.file, change.added_start, e);
                proof {
                    lemma_insert_lines(lines_of(&self.file), change.deleted_text@, change.deleted_start);
                }
                insert_text(&mut self.file, &change.deleted_text, change.deleted_start);
                self.cursor = change.cursor_before;
                push_change(&mut self.redo_stack, &self.file_name, change);
            },
        }
    }

    /// Redoes the open file's latest undone change, if it has one.
    fn redo(&mut self)
        requires
            old(self).wf(),
            shortcut_defined(old(self).view(), Key::R),
        ensures
            final(self).wf(),
            final(self).same_outside(old(self)),
            final(self).view() == redone(old(self).view()),
    {
        let ghost v = self.view();
        match pop_change(&mut self.redo_stack, &self.file_name) {
            None => {},
            Some(change) => {
                proof {
                    lemma_line_lens(&self.file);
                    lemma_split_basics(change.deleted_text@);
                }
                let e = match text_end(&change.deleted_text, change.deleted_start) {
                    Some(e) => e,
                    None => {
                        assert(false);
                        return;
                    },
                };
                proof {
                    lemma_delete_lines(v.lines, change.deleted_start, e);
                }
                delete_range(&mut self.file, change.deleted_start, e);
                proof {
                    lemma_insert_lines(lines_of(&self.file), change.added_text@, change.added_start);
                }
                insert_text(&mut self.file, &change.added_text, change.added_start);
                self.cursor = change.cursor_after;
                push_change(&mut self.undo_stack, &self.file_name, change);
            },
        }
    }

    /// Whether a shortcut goes through.
    fn shortcut_key_defined(&self, k: Key) -> (r: bool)
        requires
            self.wf(),
        ensures
            r == shortcut_defined(self.view(), k),
    {
        match k {
            Key::V => self.can_type(),
            Key::C => self.selection_is_valid(),
            Key::X => self.selection_is_valid(),
            Key::Z => match top_change(&self.undo_stack, &self.file_name) {
                None => true,
                Some(c) => removable_then_valid(&self.file, &c.added_text, c.added_start, c.deleted_start),
            },
            Key::R => match top_change(&self.redo_stack, &self.file_name) {
                None => true,
                Some(c) => removable_then_valid(&self.file, &c.deleted_text, c.deleted_start, c.added_start),
            },
            _ => true,
        }
    }

    /// One shortcut; says whether it counted.
    fn shortcut_key(&mut self, k: Key) -> (hit: bool)
        requires
            old(self).wf(),
            shortcut_defined(old(self).view(), k),
        ensures
            final(self).wf(),
            final(self).same_outside(old(self)),
            (final(self).view(), hit) == shortcut_step(old(self).view(), k),
    {
        match k {
            Key::V => {
                self.paste();
                true
            },
            Key::Z => {
                self.undo();
                true
            },
            Key::R => {
                self.redo();
                true
            },
            Key::C => {
                self.clipboard = self.get_selection_text();
                true
            },
            Key::X => {
                self.cut_selection();
                true
            },
            Key::A => {
                let end_row = self.file.len() - 1;
                let end_col = self.file[end_row].len();
                self.selection = Some(((0, 0), (end_col, end_row)));
                self.cursor = (end_col, end_row);
                true
            },
            Key::S => {
                self.upto_date = true;
                self.pending_save = Some(join_text(&self.file));
                true
            },
            _ => false,
        }
    }

    /// The shortcuts, in turn; says whether any counted, or fails where the
    /// editor's own code fails, at the first key that does.
    pub fn handle_shortcuts(&mut self, keys: &Vec<Key>) -> (r: Result<bool, EditError>)
        requires
            old(self).wf(),
        ensures
            final(self).same_outside(old(self)),
            r matches Ok(m) ==> final(self).wf() && run_shortcuts(old(self).view(), keys@) == Some(
                (final(self).view(), m),
            ),
            r is Err ==> run_shortcuts(old(self).view(), keys@) is None,
    {
        let ghost v0 = self.view();
        let mut matched = false;
        let mut i: usize = 0;
        assert(keys@.take(0) =~= Seq::<Key>::empty());
        while i < keys.len()
            invariant
                i <= keys@.len(),
                self.wf(),
                self.same_outside(old(self)),
                v0 == old(self).view(),
                run_shortcuts(v0, keys@.take(i as int)) == Some((self.view(), matched)),
            decreases keys@.len() - i,
        {
            let k = keys[i];
            assert(keys@.take(i + 1).drop_last() =~= keys@.take(i as int));
            assert(keys@.take(i + 1).last() == k);
            if !self.shortcut_key_defined(k) {
                proof {
                    assert(run_shortcuts(v0, keys@.take(i + 1)) is None);
                    lemma_run_shortcuts_prefix(v0, keys@, i + 1);
                }
                return Err(EditError);
            }
            let hit = self.shortcut_key(k);
            matched = matched || hit;
            i += 1;
        }
        assert(keys@.take(keys@.len() as int) =~= keys@);
        Ok(matched)
    }

    /// One frame's worth of keys (see `input_step`); fails where the
    /// editor's own code fails.
    pub fn handle_input(&mut self) -> (r: Result<(), EditError>)
        requires
            old(self).wf(),
        ensures
            r is Ok <==> input_step(
                old(self).view(),
                old(self).frame_hash,
                old(self).keyboard@.0,
                old(self).keyboard@.1,
            ) is Some,
            r is Ok ==> {
                &&& final(self).wf()
                &&& input_step(
                    old(self).view(),
                    old(self).frame_hash,
                    old(self).keyboard@.0,
                    old(self).keyboard@.1,
                ) == Some((final(self).view(), final(self).frame_hash))
            },
            final(self).keyboard@ == old(self).keyboard@,
            final(self).mouse == old(self).mouse,
            final(self).cart_path@ == old(self).cart_path@,
            final(self).files@ == old(self).files@,
            final(self).scroll_offset == old(self).scroll_offset,
    {
        let ghost v = self.view();
        let ghost f = self.frame_hash;
        let shift = contains_key(&self.keyboard.keys_pressed, Key::LShift) || contains_key(
            &self.keyboard.keys_pressed,
            Key::RShift,
        );
        let keys_just = copy_keys(&self.keyboard.keys_just_pressed);
        let keys_pressed = copy_keys(&self.keyboard.keys_pressed);
        let old_cursor = self.cursor;
        if self.frame_hash % 3 == 0 {
            match self.handle_special_keys(&keys_pressed) {
                Ok(_) => {},
                Err(e) => {
                    return Err(e);
                },
            }
        } else {
            match self.handle_special_keys(&keys_just) {
                Ok(m) => {
                    if m {
                        self.frame_hash = 0;
                    }
                },
                Err(e) => {
                    return Err(e);
                },
            }
        }
        let ctrl = contains_key(&self.keyboard.keys_pressed, Key::LControl) || contains_key(
            &self.keyboard.keys_pressed,
            Key::RControl,
        );
        if ctrl {
            if self.frame_hash % 6 == 0 {
                match self.handle_shortcuts(&keys_pressed) {
                    Ok(_) => {},
                    Err(e) => {
                        return Err(e);
                    },
                }
            } else {
                match self.handle_shortcuts(&keys_just) {
                    Ok(m) => {
                        if m {
                            self.frame_hash = 0;
                        }
                    },
                    Err(e) => {
                        return Err(e);
                    },
                }
            }
        }
        if self.cursor.0 != old_cursor.0 || self.cursor.1 != old_cursor.1 {
            self.selection = if shift {
                match self.selection {
                    Some((s, _)) => Some((s, self.cursor)),
                    None => Some((old_cursor, self.cursor)),
                }
            } else {
                None
            };
        }
        Ok(())
    }

    /// Moves the view the fewest rows and columns that bring the cursor into it.
    pub fn scroll_to_cursor(&mut self)
        ensures
            final(self).scroll_offset == scrolled(old(self).scroll_offset, old(self).cursor),
            final(self).view() == old(self).view(),
            final(self).keyboard@ == old(self).keyboard@,
            final(self).mouse == old(self).mouse,
            final(self).cart_path@ == old(self).cart_path@,
            final(self).files@ == old(self).files@,
            final(self).frame_hash == old(self).frame_hash,
    {
        if self.cursor.1 < self.scroll_offset.1 {
            self.scroll_offset.1 = self.cursor.1;
        }
        if self.cursor.1 - self.scroll_offset.1 >= VISIBLE_ROWS {
            self.scroll_offset.1 = self.cursor.1 - VISIBLE_ROWS + 1;
        }
        if self.cursor.0 < self.scroll_offset.0 {
            self.scroll_offset.0 = self.cursor.0;
        }
        if self.cursor.0 - self.scroll_offset.0 >= VISIBLE_COLS {
            self.scroll_offset.0 = self.cursor.0 - VISIBLE_COLS + 1;
        }
    }

    /// One frame of the editor: the frame count moves on (modulo 24), the
    /// view scrolls to the cursor, and the frame's keys are handled.
    pub fn update(&mut self) -> (r: Result<(), EditError>)
        requires
            old(self).wf(),
        ensures
            ({
                let f = (old(self).frame_hash + 1) % 24;
                let step = input_step(old(self).view(), f as i32, old(self).keyboard@.0, old(self).keyboard@.1);
                &&& (r is Ok <==> step is Some)
                &&& r is Ok ==> final(self).wf() && step == Some((final(self).view(), final(self).frame_hash))
                &&& final(self).scroll_offset == scrolled(old(self).scroll_offset, old(self).cursor)
            }),
            final(self).keyboard@ == old(self).keyboard@,
            final(self).mouse == old(self).mouse,
            final(self).cart_path@ == old(self).cart_path@,
            final(self).files@ == old(self).files@,
    {
        self.frame_hash = (self.frame_hash + 1) % 24;
        if self.file.len() == 0 {
            let mut blank: Vec<char> = Vec::new();
            blank.push(' ');
            self.file.push(blank);
        }
        self.scroll_to_cursor();
        self.handle_input()
    }
}

/// A copy of a set of keys.
fn copy_keys(v: &Vec<Key>) -> (r: Vec<Key>)
    ensures
        r@ == v@,
{
    let mut r: Vec<Key> = Vec::new();
    let mut i: usize = 0;
    while i < v.len()
        invariant
            i <= v@.len(),
            r@ == v@.take(i as int),
        decreases v@.len() - i,
    {
        r.push(v[i]);
        i += 1;
        assert(r@ =~= v@.take(i as int));
    }
    assert(v@.take(v@.len() as int) =~= v@);
    r
}

/// Each line of a buffer is at most `usize::MAX` long.
proof fn lemma_line_lens(file: &Vec<Vec<char>>)
    ensures
        file@.len() <= usize::MAX,
        forall|i: int| 0 <= i < file@.len() ==> #[trigger] file@[i]@.len() <= usize::MAX,
        forall|i: int| 0 <= i < file@.len() ==> #[trigger] lines_of(file)[i].len() <= usize::MAX,
{
    assert(file.len() == file@.len());
    assert forall|i: int| 0 <= i < file@.len() implies #[trigger] file@[i]@.len() <= usize::MAX by {
        let l = file@[i];
        assert(l.len() == l@.len());
    }
}

/// Whether `text` can be taken out of `file` from `start`, and `place` is a
/// valid place in what is left.
fn removable_then_valid(file: &Vec<Vec<char>>, text: &Vec<char>, start: Pos, place: Pos) -> (r: bool)
    requires
        lines_wf(lines_of(file)),
    ensures
        r == (removable(lines_of(file), text@, start) && pos_valid(
            delete_lines(lines_of(file), start, end_pos(text@, start)),
            place,
        )),
{
    proof {
        lemma_line_lens(file);
        lemma_split_basics(text@);
    }
    let e = match text_end(text, start) {
        None => {
            return false;
        },
        Some(e) => e,
    };
    if !(start.1 < file.len() && e.1 < file.len() && e.0 <= file[e.1].len()) {
        return false;
    }
    let mut scratch = copy_lines(file);
    assert(lines_of(&scratch)[e.1 as int] == lines_of(file)[e.1 as int]);
    assert(scratch@[e.1 as int]@.len() == file@[e.1 as int]@.len());
    delete_range(&mut scratch, start, e);
    place.1 < scratch.len() && place.0 <= scratch[place.1].len()
}

} // verus!
