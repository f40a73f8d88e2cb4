use vstd::prelude::*;

use crate::editor::{
    all_selected, backspace, cut, edit_start, end_pos, reapplicable, reapplied, record, removable, revertible,
    line_broken, pasted, redone, reverted, selected_text,
    selection_ok, shortcut_defined, shortcut_step, sorted, typed, typed_defined, undone, without_selection,
    EditorView,
};
use crate::history::{ChangeView, lemma_lookup_forget, lemma_lookup_store, lookup};
use crate::input::Key;
use crate::editor::{input_step, run_special, special_defined, special_step, tab_text};
use crate::terminal::{bytes_of, fits_log, log_chunk, log_lines, logged};
use vstd::utf8::{
    decode_utf8, decode_utf8_encode_utf8, decode_utf8_split, encode_utf8_decode_utf8, encode_utf8_valid_utf8,
    is_char_boundary, is_char_boundary_iff_not_is_continuation_byte, is_char_boundary_start_end_of_seq, valid_utf8,
    valid_utf8_split,
};
use crate::text::{
    delete_lines, end_of_text, insert_lines, join, lemma_delete_lines, lemma_delete_then_insert, lemma_insert_empty,
    lemma_insert_lines, lemma_insert_then_delete, lemma_insert_then_read, text_between, lemma_merge_rows, lemma_remove_char, lemma_split_basics, lemma_split_join, lemma_split_row,
    lemma_text_between_all, lines_wf,
    newline_free, pos_le, pos_valid, split_lines, Pos,
};

verus! {

/// Taking out the selection leaves valid lines with the cursor where the
/// selection started; writing the selected text back there gives back the
/// lines.
proof fn lemma_selection_restored(v: EditorView)
    requires
        lines_wf(v.lines),
        typed_defined(v),
    ensures
        lines_wf(without_selection(v).lines),
        without_selection(v).cursor == edit_start(v),
        insert_lines(
            without_selection(v).lines,
            selected_text(v),
            edit_start(v).0 as int,
            edit_start(v).1 as int,
        ) == v.lines,
        delete_lines(v.lines, edit_start(v), end_pos(selected_text(v), edit_start(v))) == without_selection(v).lines,
        removable(v.lines, selected_text(v), edit_start(v)),
{
    match sorted(v.selection) {
        Some((a, b)) => {
            assert(pos_le(a, b));
            lemma_delete_lines(v.lines, a, b);
            lemma_delete_then_insert(v.lines, a, b);
        },
        None => {
            lemma_insert_empty(v.lines, v.cursor);
            lemma_split_basics(Seq::<char>::empty());
            assert(split_lines(Seq::<char>::empty()) =~= seq![Seq::<char>::empty()]);
            let line = v.lines[v.cursor.1 as int];
            assert(line.take(v.cursor.0 as int) + line.skip(v.cursor.0 as int) =~= line);
            assert(delete_lines(v.lines, v.cursor, end_pos(Seq::<char>::empty(), v.cursor)) =~= v.lines);
        },
    }
}

/// An edit taking `v` to `t` is undone and redone whole: undo gives back
/// the lines and the cursor, leaves the open file's undo stack as it was
/// and its redo stack holding just the edit's change; redo then gives the
/// edit's lines and cursor again, with that change back on the undo stack
/// and the redo stack empty.
pub open spec fn undo_round_trip(v: EditorView, t: EditorView) -> bool {
    let f = v.file_name;
    let u = undone(t);
    let r = redone(u);
    &&& shortcut_defined(t, Key::Z)
    &&& u.lines == v.lines
    &&& u.cursor == v.cursor
    &&& lookup(u.undo, f) == lookup(v.undo, f)
    &&& lookup(u.redo, f) == seq![lookup(t.undo, f).last()]
    &&& shortcut_defined(u, Key::R)
    &&& r.lines == t.lines
    &&& r.cursor == t.cursor
    &&& lookup(r.undo, f) == lookup(t.undo, f)
    &&& lookup(r.redo, f) == Seq::<ChangeView>::empty()
}

/// Undoing a recorded change moves it from the open file's undo stack to
/// its emptied redo stack; redoing it moves it back.
proof fn lemma_record_undo_redo(w: EditorView, c: ChangeView)
    ensures
        ({
            let t = record(w, c);
            let f = w.file_name;
            let u = undone(t);
            let r = redone(u);
            &&& lookup(t.undo, f) == lookup(w.undo, f).push(c)
            &&& u.lines == reverted(w.lines, c)
            &&& u.cursor == c.cursor_before
            &&& u.file_name == f
            &&& lookup(u.undo, f) == lookup(w.undo, f)
            &&& lookup(u.redo, f) == seq![c]
            &&& r.lines == reapplied(u.lines, c)
            &&& r.cursor == c.cursor_after
            &&& lookup(r.undo, f) == lookup(w.undo, f).push(c)
            &&& lookup(r.redo, f) == Seq::<ChangeView>::empty()
        }),
{
    let t = record(w, c);
    let f = w.file_name;
    let st = lookup(w.undo, f).push(c);
    lemma_lookup_store(w.undo, f, st, f);
    assert(st.drop_last() =~= lookup(w.undo, f));
    lemma_lookup_store(t.undo, f, st.drop_last(), f);
    lemma_lookup_forget(w.redo, f, f);
    let u = undone(t);
    lemma_lookup_store(t.redo, f, lookup(t.redo, f).push(c), f);
    assert(lookup(t.redo, f).push(c) =~= seq![c]);
    let rs = lookup(u.redo, f);
    assert(rs.drop_last() =~= Seq::<ChangeView>::empty());
    lemma_lookup_store(u.redo, f, rs.drop_last(), f);
    lemma_lookup_store(u.undo, f, lookup(u.undo, f).push(c), f);
}

/// The edit's change, reverted on the edit's lines, gives back the lines
/// before it, and made again on those, the edit's lines: the edit is undone
/// and redone whole (see `undo_round_trip`).
proof fn lemma_round_trip_of(v: EditorView, w: EditorView, c: ChangeView)
    requires
        w.file_name == v.file_name,
        w.undo == v.undo,
        w.redo == v.redo,
        c.cursor_before == v.cursor,
        c.cursor_after == w.cursor,
        revertible(w.lines, c),
        reverted(w.lines, c) == v.lines,
        reapplicable(v.lines, c),
        reapplied(v.lines, c) == w.lines,
    ensures
        undo_round_trip(v, record(w, c)),
{
    lemma_record_undo_redo(w, c);
}

/// Typing any text, over the selection if there is one, is undone and
/// redone whole (see `undo_round_trip`).
pub proof fn law_undo_after_typing(v: EditorView, s: Seq<char>)
    requires
        lines_wf(v.lines),
        typed_defined(v),
        edit_start(v).0 < usize::MAX,
        end_of_text(s, edit_start(v)).0 <= usize::MAX,
        end_of_text(s, edit_start(v)).1 <= usize::MAX,
    ensures
        undo_round_trip(v, typed(v, s)),
{
    lemma_selection_restored(v);
    let w = without_selection(v);
    let p = w.cursor;
    let after: Pos = ((p.0 + 1) as usize, p.1);
    let c = ChangeView {
        deleted_text: selected_text(v),
        deleted_start: edit_start(v),
        added_text: s,
        added_start: p,
        cursor_before: v.cursor,
        cursor_after: after,
    };
    let wt = EditorView { lines: insert_lines(w.lines, s, p.0 as int, p.1 as int), cursor: after, ..w };
    assert(typed(v, s) == record(wt, c));
    lemma_split_basics(s);
    lemma_insert_lines(w.lines, s, p);
    lemma_insert_then_delete(w.lines, s, p);
    lemma_round_trip_of(v, wt, c);
}

/// Pasting, over the selection if there is one, is undone and redone whole
/// (see `undo_round_trip`).
pub proof fn law_undo_after_paste(v: EditorView)
    requires
        lines_wf(v.lines),
        typed_defined(v),
        end_of_text(v.clipboard, edit_start(v)).0 <= usize::MAX,
        end_of_text(v.clipboard, edit_start(v)).1 <= usize::MAX,
    ensures
        undo_round_trip(v, pasted(v)),
{
    lemma_selection_restored(v);
    let w = without_selection(v);
    let p = w.cursor;
    let c = ChangeView {
        deleted_text: selected_text(v),
        deleted_start: edit_start(v),
        added_text: v.clipboard,
        added_start: p,
        cursor_before: v.cursor,
        cursor_after: end_pos(v.clipboard, p),
    };
    let wt = EditorView {
        lines: insert_lines(w.lines, v.clipboard, p.0 as int, p.1 as int),
        cursor: end_pos(v.clipboard, p),
        ..w
    };
    assert(pasted(v) == record(wt, c));
    lemma_split_basics(v.clipboard);
    lemma_insert_lines(w.lines, v.clipboard, p);
    lemma_insert_then_delete(w.lines, v.clipboard, p);
    lemma_round_trip_of(v, wt, c);
}

/// Breaking a line, over the selection if there is one, is undone and
/// redone whole (see `undo_round_trip`).
pub proof fn law_undo_after_line_break(v: EditorView)
    requires
        lines_wf(v.lines),
        typed_defined(v),
        edit_start(v).1 + 1 <= usize::MAX,
    ensures
        undo_round_trip(v, line_broken(v)),
{
    lemma_selection_restored(v);
    let w = without_selection(v);
    let p = w.cursor;
    let nl = seq!['\n'];
    let after: Pos = (0, (p.1 + 1) as usize);
    let c = ChangeView {
        deleted_text: selected_text(v),
        deleted_start: edit_start(v),
        added_text: nl,
        added_start: p,
        cursor_before: v.cursor,
        cursor_after: after,
    };
    lemma_split_basics(nl);
    assert(nl.drop_last() =~= Seq::<char>::empty());
    assert(split_lines(Seq::<char>::empty()) == seq![Seq::<char>::empty()]);
    assert(split_lines(nl) =~= seq![Seq::<char>::empty(), Seq::<char>::empty()]);
    let line = w.lines[p.1 as int];
    assert(line.take(p.0 as int) + Seq::<char>::empty() =~= line.take(p.0 as int));
    assert(Seq::<char>::empty() + line.skip(p.0 as int) =~= line.skip(p.0 as int));
    let wt = EditorView { lines: insert_lines(w.lines, nl, p.0 as int, p.1 as int), cursor: after, ..w };
    assert(line_broken(v).lines =~= wt.lines);
    assert(line_broken(v) == record(wt, c));
    lemma_insert_lines(w.lines, nl, p);
    lemma_insert_then_delete(w.lines, nl, p);
    lemma_round_trip_of(v, wt, c);
}

/// Cutting a selection that holds text is undone and redone whole (see
/// `undo_round_trip`), and the cut text stays on the clipboard.
pub proof fn law_undo_after_cut(v: EditorView)
    requires
        lines_wf(v.lines),
        selection_ok(v),
        selected_text(v).len() > 0,
    ensures
        cut(v).clipboard == selected_text(v),
        undo_round_trip(v, cut(v)),
        undone(cut(v)).clipboard == selected_text(v),
{
    let (a, b) = sorted(v.selection).unwrap();
    assert(pos_le(a, b));
    lemma_delete_lines(v.lines, a, b);
    assert(typed_defined(v));
    lemma_selection_restored(v);
    let ds = edit_start(v);
    let w = without_selection(EditorView { clipboard: selected_text(v), ..v });
    let c = ChangeView {
        deleted_text: selected_text(v),
        deleted_start: ds,
        added_text: Seq::empty(),
        added_start: ds,
        cursor_before: v.cursor,
        cursor_after: w.cursor,
    };
    assert(cut(v) == record(w, c));
    assert(w.lines == without_selection(v).lines);
    lemma_split_basics(Seq::<char>::empty());
    assert(split_lines(Seq::<char>::empty()) =~= seq![Seq::<char>::empty()]);
    let line = w.lines[ds.1 as int];
    assert(line.take(ds.0 as int) + line.skip(ds.0 as int) =~= line);
    assert(delete_lines(w.lines, ds, end_pos(Seq::<char>::empty(), ds)) =~= w.lines);
    lemma_insert_empty(w.lines, ds);
    lemma_round_trip_of(EditorView { clipboard: selected_text(v), ..v }, w, c);
}

/// The backspace key is undone and redone whole (see `undo_round_trip`):
/// whether it cut a selection holding text, removed the character before
/// the cursor, or joined the cursor's row to the one above.
pub proof fn law_undo_after_backspace(v: EditorView)
    requires
        lines_wf(v.lines),
        match v.selection {
            Some(_) => selection_ok(v) && selected_text(v).len() > 0,
            None => pos_valid(v.lines, v.cursor) && (v.cursor.0 > 0 || (v.cursor.1 > 0 && v.lines[v.cursor.1
                - 1].len() <= usize::MAX)),
        },
    ensures
        undo_round_trip(v, backspace(v).0),
{
    let t = backspace(v).0;
    let col = v.cursor.0;
    let row = v.cursor.1;
    lemma_split_basics(Seq::<char>::empty());
    assert(split_lines(Seq::<char>::empty()) =~= seq![Seq::<char>::empty()]);
    if v.selection is Some {
        law_undo_after_cut(v);
        assert(t == EditorView { clipboard: Seq::empty(), ..cut(v) });
    } else if col > 0 {
        let line = v.lines[row as int];
        let at: Pos = ((col - 1) as usize, row);
        let ch = seq![line[col - 1]];
        let c = ChangeView {
            deleted_text: ch,
            deleted_start: at,
            added_text: Seq::empty(),
            added_start: at,
            cursor_before: v.cursor,
            cursor_after: at,
        };
        let short = line.remove(col - 1);
        let w = EditorView { lines: v.lines.update(row as int, short), cursor: at, ..v };
        assert(t == record(w, c));
        assert(short.take(col - 1) + short.skip(col - 1) =~= short);
        assert(delete_lines(w.lines, at, end_pos(Seq::<char>::empty(), at)) =~= w.lines);
        assert(newline_free(v.lines[row as int]));
        assert(newline_free(ch));
        lemma_split_basics(ch);
        assert(ch.drop_last() =~= Seq::<char>::empty());
        assert(split_lines(ch) =~= seq![ch]);
        assert(short.take(col - 1) + ch + short.skip(col - 1) =~= line);
        assert(reverted(w.lines, c) =~= v.lines);
        assert(line.take(col - 1) + line.skip(col as int) =~= short);
        assert(delete_lines(v.lines, at, end_pos(ch, at)) =~= w.lines);
        lemma_insert_empty(w.lines, at);
        lemma_round_trip_of(v, w, c);
    } else {
        let prev = v.lines[row - 1];
        let cur = v.lines[row as int];
        let at: Pos = (prev.len() as usize, (row - 1) as usize);
        let nl = seq!['\n'];
        let c = ChangeView {
            deleted_text: nl,
            deleted_start: at,
            added_text: Seq::empty(),
            added_start: at,
            cursor_before: v.cursor,
            cursor_after: at,
        };
        let joined = prev + cur;
        let w = EditorView { lines: v.lines.update(row - 1, joined).remove(row as int), cursor: at, ..v };
        assert(t == record(w, c));
        assert(w.lines[row - 1] == joined);
        assert(joined.take(prev.len() as int) + joined.skip(prev.len() as int) =~= joined);
        assert(delete_lines(w.lines, at, end_pos(Seq::<char>::empty(), at)) =~= w.lines);
        lemma_split_basics(nl);
        assert(nl.drop_last() =~= Seq::<char>::empty());
        assert(split_lines(nl) =~= seq![Seq::<char>::empty(), Seq::<char>::empty()]);
        assert(joined.take(prev.len() as int) + Seq::<char>::empty() =~= prev);
        assert(Seq::<char>::empty() + joined.skip(prev.len() as int) =~= cur);
        assert(reverted(w.lines, c) =~= v.lines);
        assert(prev.take(prev.len() as int) =~= prev);
        assert(cur.skip(0) =~= cur);
        assert(delete_lines(v.lines, at, end_pos(nl, at)) =~= w.lines);
        lemma_insert_empty(w.lines, at);
        lemma_round_trip_of(v, w, c);
    }
}

/// The editor's text, cursor and selection fit together: valid lines, the
/// cursor at a valid place, and the selection, if any, with both ends at
/// valid places.
pub open spec fn view_valid(v: EditorView) -> bool {
    &&& lines_wf(v.lines)
    &&& pos_valid(v.lines, v.cursor)
    &&& selection_ok(v)
}

/// The size of a text: its characters and its line breaks, with one more.
pub open spec fn text_size(ls: Seq<Seq<char>>) -> nat
    decreases ls.len(),
{
    if ls.len() == 0 {
        0
    } else {
        text_size(ls.drop_last()) + ls.last().len() + 1
    }
}

proof fn lemma_size_concat(a: Seq<Seq<char>>, b: Seq<Seq<char>>)
    ensures
        text_size(a + b) == text_size(a) + text_size(b),
        text_size(a) >= 0,
    decreases b.len(),
{
    if b.len() == 0 {
        assert(a + b =~= a);
    } else {
        assert((a + b).drop_last() =~= a + b.drop_last());
        lemma_size_concat(a, b.drop_last());
    }
}

/// A text's size counts each line with its break.
proof fn lemma_size_split(ls: Seq<Seq<char>>, i: int)
    requires
        0 <= i < ls.len(),
    ensures
        text_size(ls) == text_size(ls.take(i)) + ls[i].len() + 1 + text_size(ls.skip(i + 1)),
        text_size(ls.take(i)) >= 0,
        text_size(ls.skip(i + 1)) >= 0,
        ls[i].len() + 1 <= text_size(ls),
        ls.len() <= text_size(ls),
    decreases ls.len(),
{
    assert(ls =~= ls.take(i) + (seq![ls[i]] + ls.skip(i + 1)));
    lemma_size_concat(ls.take(i), seq![ls[i]] + ls.skip(i + 1));
    lemma_size_concat(seq![ls[i]], ls.skip(i + 1));
    assert(seq![ls[i]].drop_last() =~= Seq::<Seq<char>>::empty());
    lemma_size_concat(ls.skip(i + 1), Seq::<Seq<char>>::empty());
    lemma_size_rows(ls);
}

/// A text has no more lines than its size.
proof fn lemma_size_rows(ls: Seq<Seq<char>>)
    ensures
        ls.len() <= text_size(ls),
    decreases ls.len(),
{
    if ls.len() > 0 {
        lemma_size_rows(ls.drop_last());
    }
}

/// Putting `l` in the place of row `i`.
proof fn lemma_size_update(ls: Seq<Seq<char>>, i: int, l: Seq<char>)
    requires
        0 <= i < ls.len(),
    ensures
        text_size(ls.update(i, l)) == text_size(ls) - ls[i].len() + l.len(),
{
    lemma_size_split(ls, i);
    let u = ls.update(i, l);
    lemma_size_split(u, i);
    assert(u.take(i) =~= ls.take(i));
    assert(u.skip(i + 1) =~= ls.skip(i + 1));
}

/// Inserting `l` as row `i`.
proof fn lemma_size_insert(ls: Seq<Seq<char>>, i: int, l: Seq<char>)
    requires
        0 <= i <= ls.len(),
    ensures
        text_size(ls.insert(i, l)) == text_size(ls) + l.len() + 1,
{
    let u = ls.insert(i, l);
    lemma_size_split(u, i);
    assert(u.take(i) =~= ls.take(i));
    assert(u.skip(i + 1) =~= ls.skip(i));
    assert(ls =~= ls.take(i) + ls.skip(i));
    lemma_size_concat(ls.take(i), ls.skip(i));
}

/// Removing row `i`.
proof fn lemma_size_remove(ls: Seq<Seq<char>>, i: int)
    requires
        0 <= i < ls.len(),
    ensures
        text_size(ls.remove(i)) == text_size(ls) - ls[i].len() - 1,
{
    lemma_size_split(ls, i);
    let u = ls.remove(i);
    assert(u =~= ls.take(i) + ls.skip(i + 1));
    lemma_size_concat(ls.take(i), ls.skip(i + 1));
}

/// Removing text between valid places does not make a text bigger.
proof fn lemma_size_delete(ls: Seq<Seq<char>>, a: Pos, b: Pos)
    requires
        pos_valid(ls, a),
        pos_valid(ls, b),
        pos_le(a, b),
    ensures
        text_size(delete_lines(ls, a, b)) <= text_size(ls),
{
    let r0 = a.1 as int;
    let r1 = b.1 as int;
    if r0 == r1 {
        lemma_size_update(ls, r0, ls[r0].take(a.0 as int) + ls[r0].skip(b.0 as int));
    } else {
        let la = ls[r0];
        let lb = ls[r1];
        let nl = la.take(a.0 as int) + lb.skip(b.0 as int);
        let joined = ls.update(r0, nl);
        lemma_size_update(ls, r0, nl);
        let d = delete_lines(ls, a, b);
        assert(d =~= joined.take(r0 + 1) + joined.skip(r1 + 1));
        lemma_size_concat(joined.take(r0 + 1), joined.skip(r1 + 1));
        let mid = joined.subrange(r0 + 1, r1 + 1);
        assert(joined.skip(r0 + 1) =~= mid + joined.skip(r1 + 1));
        lemma_size_concat(mid, joined.skip(r1 + 1));
        assert(joined =~= joined.take(r0 + 1) + joined.skip(r0 + 1));
        lemma_size_concat(joined.take(r0 + 1), joined.skip(r0 + 1));
        lemma_size_split(mid, r1 - r0 - 1);
        assert(mid[r1 - r0 - 1] == lb);
    }
}

/// Removing the selection of a valid view leaves valid lines, no bigger,
/// with the cursor at a valid place and no selection.
proof fn lemma_without_selection_valid(v: EditorView)
    requires
        view_valid(v),
    ensures
        typed_defined(v),
        lines_wf(without_selection(v).lines),
        pos_valid(without_selection(v).lines, without_selection(v).cursor),
        without_selection(v).selection is None,
        text_size(without_selection(v).lines) <= text_size(v.lines),
{
    match sorted(v.selection) {
        Some((a, b)) => {
            assert(pos_le(a, b));
            lemma_delete_lines(v.lines, a, b);
            lemma_size_delete(v.lines, a, b);
        },
        None => {},
    }
}

/// On a valid view, a movement or editing key never fails and leaves the
/// view valid, its text at most four characters bigger; the left key at the
/// very start and the right key at the very end change nothing. The text
/// must leave room for a tab.
#[verifier::spinoff_prover]
#[verifier::rlimit(60)]
pub proof fn law_special_keys_keep_valid(v: EditorView, k: Key)
    requires
        view_valid(v),
        text_size(v.lines) + 8 <= usize::MAX,
    ensures
        special_defined(v, k),
        view_valid(special_step(v, k).0),
        text_size(special_step(v, k).0.lines) <= text_size(v.lines) + 4,
        k == Key::Left && v.cursor == (0usize, 0usize) ==> special_step(v, k).0 == v,
        k == Key::Right && v.cursor == ((v.lines[v.lines.len() - 1].len()) as usize, (v.lines.len() - 1) as usize)
            ==> special_step(v, k).0 == v,
{
    let c = v.cursor.0;
    let r = v.cursor.1;
    lemma_without_selection_valid(v);
    let w = without_selection(v);
    let at = w.cursor;
    lemma_size_split(v.lines, r as int);
    match k {
        Key::Tab => {
            let t = tab_text();
            lemma_split_basics(t);
            assert(newline_free(t));
            assert(split_lines(t) == seq![t]);
            lemma_size_split(w.lines, at.1 as int);
            lemma_insert_lines(w.lines, t, at);
            let line = w.lines[at.1 as int];
            let nl = line.take(at.0 as int) + t + line.skip(at.0 as int);
            assert(insert_lines(w.lines, t, at.0 as int, at.1 as int) =~= w.lines.update(at.1 as int, nl));
            lemma_size_update(w.lines, at.1 as int, nl);
        },
        Key::Return => {
            let line = w.lines[at.1 as int];
            lemma_size_split(w.lines, at.1 as int);
            lemma_split_row(w.lines, at.0 as int, at.1 as int);
            let u = w.lines.update(at.1 as int, line.take(at.0 as int));
            lemma_size_update(w.lines, at.1 as int, line.take(at.0 as int));
            lemma_size_insert(u, at.1 + 1, line.skip(at.0 as int));
        },
        Key::Back => {
            if v.selection is Some {
                if selected_text(v).len() > 0 {
                    let (a, b) = sorted(v.selection).unwrap();
                    assert(pos_le(a, b));
                    lemma_delete_lines(v.lines, a, b);
                }
            } else if c > 0 {
                lemma_remove_char(v.lines, c - 1, r as int);
                lemma_size_update(v.lines, r as int, v.lines[r as int].remove(c - 1));
            } else if r > 0 {
                lemma_merge_rows(v.lines, r as int);
                lemma_size_split(v.lines, r - 1);
                let u = v.lines.update(r - 1, v.lines[r - 1] + v.lines[r as int]);
                lemma_size_update(v.lines, r - 1, v.lines[r - 1] + v.lines[r as int]);
                lemma_size_remove(u, r as int);
            }
        },
        Key::Left => {
            if c == 0 && r > 0 {
                lemma_size_split(v.lines, r - 1);
            }
        },
        _ => {},
    }
}

/// On a valid view, a run of movement and editing keys never fails and
/// leaves the view valid, as long as the text leaves room for a tab per key.
pub proof fn law_special_run_keeps_valid(v: EditorView, keys: Seq<Key>)
    requires
        view_valid(v),
        text_size(v.lines) + 4 * keys.len() + 8 <= usize::MAX,
    ensures
        run_special(v, keys) is Some,
        view_valid(run_special(v, keys).unwrap().0),
        text_size(run_special(v, keys).unwrap().0.lines) <= text_size(v.lines) + 4 * keys.len(),
    decreases keys.len(),
{
    if keys.len() > 0 {
        let pre = keys.drop_last();
        law_special_run_keeps_valid(v, pre);
        let w = run_special(v, pre).unwrap().0;
        law_special_keys_keep_valid(w, keys.last());
    }
}

/// The save shortcut hands out the file's text, lines joined by line
/// breaks, leaves the lines as they are and marks the file saved; that text,
/// split at its line breaks, gives the lines back.
pub proof fn law_save_reads_back(v: EditorView)
    requires
        lines_wf(v.lines),
    ensures
        shortcut_step(v, Key::S).0.pending_save == Some(join(v.lines)),
        shortcut_step(v, Key::S).0.upto_date,
        shortcut_step(v, Key::S).0.lines == v.lines,
        split_lines(join(v.lines)) == v.lines,
{
    lemma_split_join(v.lines);
}

/// Selecting everything and copying puts the whole text on the clipboard.
pub proof fn law_select_all_copies_everything(v: EditorView)
    requires
        v.lines.len() >= 1,
        v.lines.len() <= usize::MAX,
        v.lines[v.lines.len() - 1].len() <= usize::MAX,
    ensures
        shortcut_defined(all_selected(v), Key::C),
        shortcut_step(all_selected(v), Key::C).0.clipboard == join(v.lines),
{
    lemma_text_between_all(v.lines);
}

/// Typing records its change for the open file alone: every other file's
/// undo and redo stacks stay as they were.
pub proof fn law_typing_keeps_other_files(v: EditorView, s: Seq<char>, other: Seq<char>)
    requires
        other != v.file_name,
    ensures
        lookup(typed(v, s).undo, other) == lookup(v.undo, other),
        lookup(typed(v, s).redo, other) == lookup(v.redo, other),
{
    let w = crate::editor::without_selection(v);
    let at = w.cursor;
    let after: Pos = ((at.0 + 1) as usize, at.1);
    let c = ChangeView {
        deleted_text: crate::editor::selected_text(v),
        deleted_start: crate::editor::edit_start(v),
        added_text: s,
        added_start: at,
        cursor_before: v.cursor,
        cursor_after: after,
    };
    lemma_lookup_store(v.undo, v.file_name, lookup(v.undo, v.file_name).push(c), other);
    lemma_lookup_forget(v.redo, v.file_name, other);
}

/// The texts of log lines, one after the other.
pub open spec fn texts_joined(lines: Seq<(bool, Seq<char>)>) -> Seq<char>
    decreases lines.len(),
{
    if lines.len() == 0 {
        Seq::empty()
    } else {
        texts_joined(lines.drop_last()) + lines.last().1
    }
}

/// Where the first `k` log lines of a message of `n` bytes end.
spec fn chunks_end(n: int, k: int) -> int {
    if 30 * k < n {
        30 * k
    } else {
        n
    }
}

/// The first `k` lines of a message read back as the text of its first
/// bytes, up to where they end.
proof fn lemma_chunks_read_back(b: Seq<u8>, err: bool, k: nat)
    requires
        valid_utf8(b),
        forall|j: int| 0 < j && 30 * j < b.len() ==> !vstd::utf8::is_continuation_byte(#[trigger] b[30 * j]),
        k <= log_lines(b.len() as int),
    ensures
        ({
            let added = Seq::new(log_lines(b.len() as int) as nat, |i: int| (err, decode_utf8(log_chunk(b, i))));
            texts_joined(added.take(k as int)) == decode_utf8(b.subrange(0, chunks_end(b.len() as int, k as int)))
        }),
    decreases k,
{
    let n = b.len() as int;
    let added = Seq::new(log_lines(n) as nat, |i: int| (err, decode_utf8(log_chunk(b, i))));
    if k == 0 {
        assert(added.take(0) =~= Seq::<(bool, Seq<char>)>::empty());
        assert(b.subrange(0, 0) =~= Seq::<u8>::empty());
    } else {
        let j = k - 1;
        lemma_chunks_read_back(b, err, j as nat);
        assert(added.take(k as int).drop_last() =~= added.take(j));
        assert(30 * j < n) by (nonlinear_arith)
            requires
                j < log_lines(n),
                log_lines(n) == (n + 29) / 30,
                n >= 0,
        ;
        let e0 = 30 * j;
        let e1 = chunks_end(n, k as int);
        is_char_boundary_start_end_of_seq(b);
        if e1 < n {
            is_char_boundary_iff_not_is_continuation_byte(b, e1);
        }
        assert(is_char_boundary(b, e1));
        valid_utf8_split(b, e1);
        let p = b.subrange(0, e1);
        is_char_boundary_start_end_of_seq(p);
        if j > 0 {
            assert(p[e0] == b[e0]);
            is_char_boundary_iff_not_is_continuation_byte(p, e0);
        }
        assert(is_char_boundary(p, e0));
        decode_utf8_split(p, e0);
        assert(p.subrange(0, e0) =~= b.subrange(0, chunks_end(n, j)));
        assert(p.subrange(e0, p.len() as int) =~= log_chunk(b, j));
    }
}

/// A message added to the log reads back whole: the lines it is cut into,
/// taken in order, hold its text, and each is of the message's kind and at
/// most thirty bytes long.
#[verifier::spinoff_prover]
#[verifier::rlimit(40)]
pub proof fn law_log_reads_back(logs: Seq<(bool, Seq<char>)>, err: bool, t: Seq<char>)
    requires
        fits_log(t),
    ensures
        logged(logs, err, t).take(logs.len() as int) == logs,
        texts_joined(logged(logs, err, t).skip(logs.len() as int)) == t,
        forall|i: int|
            logs.len() <= i < logged(logs, err, t).len() ==> (#[trigger] logged(logs, err, t)[i]).0 == err
                && bytes_of(logged(logs, err, t)[i].1).len() <= 30,
{
    let b = bytes_of(t);
    let n = b.len() as int;
    let m = log_lines(n);
    encode_utf8_valid_utf8(t);
    encode_utf8_decode_utf8(t);
    let added = Seq::new(m as nat, |i: int| (err, decode_utf8(log_chunk(b, i))));
    let all = logged(logs, err, t);
    assert(all.take(logs.len() as int) =~= logs);
    assert(all.skip(logs.len() as int) =~= added);
    lemma_chunks_read_back(b, err, m as nat);
    assert(added.take(m) =~= added);
    assert(30 * m >= n) by (nonlinear_arith)
        requires
            m == (n + 29) / 30,
            n >= 0,
    ;
    assert(b.subrange(0, n) =~= b);
    assert forall|i: int| logs.len() <= i < all.len() implies (#[trigger] all[i]).0 == err && bytes_of(all[i].1).len()
        <= 30 by {
        let j = i - logs.len();
        assert(all[i] == added[j]);
        assert(30 * j < n) by (nonlinear_arith)
            requires
                0 <= j < m,
                m == (n + 29) / 30,
                n >= 0,
        ;
        let e1 = chunks_end(n, j + 1);
        is_char_boundary_start_end_of_seq(b);
        if e1 < n {
            is_char_boundary_iff_not_is_continuation_byte(b, e1);
        }
        valid_utf8_split(b, e1);
        let p = b.subrange(0, e1);
        is_char_boundary_start_end_of_seq(p);
        if j > 0 {
            assert(p[30 * j] == b[30 * j]);
            is_char_boundary_iff_not_is_continuation_byte(p, 30 * j);
        }
        valid_utf8_split(p, 30 * j);
        assert(p.subrange(30 * j, p.len() as int) =~= log_chunk(b, j));
        decode_utf8_encode_utf8(log_chunk(b, j));
    }
}


/// The arrow keys on a valid view: they never fail, count, and leave the
/// text and the selection alone. Left goes one column back, or from the
/// start of a row to the end of the row above; right goes one column on, or
/// from the end of a row to the start of the next; up and down go one row
/// and keep the column, except that it is cut back to that row's length. At
/// the edges of the text the cursor stays put.
pub proof fn law_arrow_keys(v: EditorView)
    requires
        view_valid(v),
        v.lines.len() <= usize::MAX,
        forall|i: int| 0 <= i < v.lines.len() ==> #[trigger] v.lines[i].len() <= usize::MAX,
    ensures
        ({
            let c = v.cursor.0 as int;
            let r = v.cursor.1 as int;
            let ls = v.lines;
            let n = ls.len() as int;
            &&& forall|k: Key|
                (k == Key::Left || k == Key::Right || k == Key::Up || k == Key::Down) ==> {
                    &&& special_defined(v, k)
                    &&& #[trigger] special_step(v, k).1
                    &&& special_step(v, k).0.lines == ls
                    &&& special_step(v, k).0.selection == v.selection
                    &&& special_step(v, k).0.clipboard == v.clipboard
                }
            &&& special_step(v, Key::Left).0.cursor.0 == (if c > 0 {
                c - 1
            } else if r > 0 {
                ls[r - 1].len() as int
            } else {
                c
            })
            &&& special_step(v, Key::Left).0.cursor.1 == (if c == 0 && r > 0 {
                r - 1
            } else {
                r
            })
            &&& special_step(v, Key::Right).0.cursor.0 == (if c < ls[r].len() {
                c + 1
            } else if r + 1 < n {
                0
            } else {
                c
            })
            &&& special_step(v, Key::Right).0.cursor.1 == (if c == ls[r].len() && r + 1 < n {
                r + 1
            } else {
                r
            })
            &&& r > 0 ==> special_step(v, Key::Up).0.cursor.1 == r - 1
            &&& r > 0 && c <= ls[r - 1].len() ==> special_step(v, Key::Up).0.cursor.0 == c
            &&& r > 0 && c > ls[r - 1].len() ==> special_step(v, Key::Up).0.cursor.0 == ls[r - 1].len()
            &&& r == 0 ==> special_step(v, Key::Up).0.cursor == v.cursor
            &&& r + 1 < n ==> special_step(v, Key::Down).0.cursor.1 == r + 1
            &&& r + 1 < n && c <= ls[r + 1].len() ==> special_step(v, Key::Down).0.cursor.0 == c
            &&& r + 1 < n && c > ls[r + 1].len() ==> special_step(v, Key::Down).0.cursor.0 == ls[r + 1].len()
            &&& r + 1 == n ==> special_step(v, Key::Down).0.cursor == v.cursor
        }),
{
}

/// Arrows in opposite directions cancel: down then up comes back to the
/// cursor when the row below is long enough, and so does up then down with
/// the row above; right then left comes back from inside a row, and left
/// then right from past its start.
pub proof fn law_arrows_cancel(v: EditorView)
    requires
        view_valid(v),
        v.lines.len() <= usize::MAX,
        forall|i: int| 0 <= i < v.lines.len() ==> #[trigger] v.lines[i].len() <= usize::MAX,
    ensures
        ({
            let c = v.cursor.0 as int;
            let r = v.cursor.1 as int;
            let ls = v.lines;
            &&& r + 1 < ls.len() && c <= ls[r + 1].len() ==> special_step(
                special_step(v, Key::Down).0,
                Key::Up,
            ).0.cursor == v.cursor
            &&& r > 0 && c <= ls[r - 1].len() ==> special_step(special_step(v, Key::Up).0, Key::Down).0.cursor
                == v.cursor
            &&& c < ls[r].len() ==> special_step(special_step(v, Key::Right).0, Key::Left).0.cursor == v.cursor
            &&& c > 0 ==> special_step(special_step(v, Key::Left).0, Key::Right).0.cursor == v.cursor
        }),
{
}

/// Movement and editing keys leave a view without a selection without one.
proof fn lemma_run_special_no_selection(v: EditorView, keys: Seq<Key>)
    requires
        v.selection is None,
        run_special(v, keys) is Some,
    ensures
        run_special(v, keys).unwrap().0.selection is None,
    decreases keys.len(),
{
    if keys.len() > 0 {
        lemma_run_special_no_selection(v, keys.drop_last());
    }
}

/// A frame in which the cursor moves: with shift held the selection runs to
/// the new cursor, and a selection begun this frame starts where the cursor
/// was; without shift there is no selection afterwards.
pub proof fn law_shift_selects(v: EditorView, frame: i32, pressed: Seq<Key>, just: Seq<Key>)
    requires
        input_step(v, frame, pressed, just) is Some,
        input_step(v, frame, pressed, just).unwrap().0.cursor != v.cursor,
    ensures
        ({
            let w = input_step(v, frame, pressed, just).unwrap().0;
            let shift = pressed.contains(Key::LShift) || pressed.contains(Key::RShift);
            let ctrl = pressed.contains(Key::LControl) || pressed.contains(Key::RControl);
            &&& shift ==> (w.selection matches Some((_, e)) && e == w.cursor)
            &&& !shift ==> w.selection is None
            &&& shift && !ctrl && v.selection is None ==> w.selection == Some((v.cursor, w.cursor))
        }),
{
    let ctrl = pressed.contains(Key::LControl) || pressed.contains(Key::RControl);
    if !ctrl && v.selection is None {
        if frame % 3 == 0 {
            lemma_run_special_no_selection(v, pressed);
        } else {
            lemma_run_special_no_selection(v, just);
        }
    }
}

/// Pasting puts the clipboard's text at the edit's start and the cursor
/// right behind it: reading from the start to the cursor gives the
/// clipboard, and taking that text out again gives the lines without the
/// selection. A clipboard without line breaks leaves the cursor on the
/// start's row, as many columns on as the clipboard has characters.
pub proof fn law_paste_puts_cursor_behind_text(v: EditorView)
    requires
        lines_wf(v.lines),
        typed_defined(v),
        end_of_text(v.clipboard, edit_start(v)).0 <= usize::MAX,
        end_of_text(v.clipboard, edit_start(v)).1 <= usize::MAX,
    ensures
        ({
            let w = shortcut_step(v, Key::V).0;
            let s = edit_start(v);
            &&& shortcut_defined(v, Key::V)
            &&& lines_wf(w.lines)
            &&& pos_valid(w.lines, w.cursor)
            &&& pos_le(s, w.cursor)
            &&& text_between(w.lines, s, w.cursor) == v.clipboard
            &&& delete_lines(w.lines, s, w.cursor) == without_selection(v).lines
            &&& newline_free(v.clipboard) ==> w.cursor == ((s.0 + v.clipboard.len()) as usize, s.1)
            &&& w.selection is None
        }),
{
    lemma_selection_restored(v);
    let u = without_selection(v);
    let p = u.cursor;
    lemma_split_basics(v.clipboard);
    lemma_insert_lines(u.lines, v.clipboard, p);
    lemma_insert_then_read(u.lines, v.clipboard, p);
    lemma_insert_then_delete(u.lines, v.clipboard, p);
    if newline_free(v.clipboard) {
        assert(split_lines(v.clipboard) == seq![v.clipboard]);
    }
}

/// Typing puts the text at the edit's start, over the selection if there is
/// one: reading from the start to where the text ends gives the text, and
/// taking it out again gives the lines without the selection. The cursor
/// goes one column on from the start, and no selection is left.
pub proof fn law_typing_puts_text_at_start(v: EditorView, s: Seq<char>)
    requires
        lines_wf(v.lines),
        typed_defined(v),
        edit_start(v).0 < usize::MAX,
        end_of_text(s, edit_start(v)).0 <= usize::MAX,
        end_of_text(s, edit_start(v)).1 <= usize::MAX,
    ensures
        ({
            let t = typed(v, s);
            let st = edit_start(v);
            let e = end_pos(s, st);
            &&& lines_wf(t.lines)
            &&& text_between(t.lines, st, e) == s
            &&& delete_lines(t.lines, st, e) == without_selection(v).lines
            &&& t.cursor == ((st.0 + 1) as usize, st.1)
            &&& t.selection is None
            &&& t.clipboard == v.clipboard
        }),
{
    lemma_selection_restored(v);
    let u = without_selection(v);
    let p = u.cursor;
    lemma_insert_lines(u.lines, s, p);
    lemma_insert_then_read(u.lines, s, p);
    lemma_insert_then_delete(u.lines, s, p);
}

/// The return key on a row without a selection splits the row at the
/// cursor: the part before stays, the part after becomes the next row, the
/// other rows stay, and the cursor goes to the start of the new row.
pub proof fn law_return_splits_row(v: EditorView)
    requires
        view_valid(v),
        v.selection is None,
        v.cursor.1 < usize::MAX,
    ensures
        ({
            let t = special_step(v, Key::Return).0;
            let c = v.cursor.0 as int;
            let r = v.cursor.1 as int;
            let line = v.lines[r];
            &&& special_defined(v, Key::Return)
            &&& special_step(v, Key::Return).1
            &&& t.lines.len() == v.lines.len() + 1
            &&& t.lines[r] == line.take(c)
            &&& t.lines[r + 1] == line.skip(c)
            &&& t.lines[r] + t.lines[r + 1] == line
            &&& forall|i: int| 0 <= i < r ==> t.lines[i] == v.lines[i]
            &&& forall|i: int| r + 1 < i < t.lines.len() ==> t.lines[i] == v.lines[i - 1]
            &&& t.cursor == (0usize, (r + 1) as usize)
        }),
{
    let line = v.lines[v.cursor.1 as int];
    assert(line.take(v.cursor.0 as int) + line.skip(v.cursor.0 as int) =~= line);
}

/// Backspace without a selection: inside a row it takes out the character
/// before the cursor and the cursor goes one column back; at the start of a
/// row it joins the row to the one above, the cursor going to where that
/// row ended; at the very start it does nothing and does not count.
pub proof fn law_backspace_removes_one(v: EditorView)
    requires
        view_valid(v),
        v.selection is None,
        forall|i: int| 0 <= i < v.lines.len() ==> #[trigger] v.lines[i].len() <= usize::MAX,
    ensures
        ({
            let (t, hit) = special_step(v, Key::Back);
            let c = v.cursor.0 as int;
            let r = v.cursor.1 as int;
            let line = v.lines[r];
            &&& special_defined(v, Key::Back)
            &&& c > 0 ==> {
                &&& hit
                &&& t.lines.len() == v.lines.len()
                &&& t.lines[r].len() + 1 == line.len()
                &&& t.lines[r].take(c - 1) == line.take(c - 1)
                &&& t.lines[r].skip(c - 1) == line.skip(c)
                &&& forall|i: int| 0 <= i < v.lines.len() && i != r ==> t.lines[i] == v.lines[i]
                &&& t.cursor == ((c - 1) as usize, r as usize)
            }
            &&& c == 0 && r > 0 ==> {
                &&& hit
                &&& t.lines.len() + 1 == v.lines.len()
                &&& t.lines[r - 1] == v.lines[r - 1] + line
                &&& forall|i: int| 0 <= i < r - 1 ==> t.lines[i] == v.lines[i]
                &&& forall|i: int| r <= i < t.lines.len() ==> t.lines[i] == v.lines[i + 1]
                &&& t.cursor == (v.lines[r - 1].len() as usize, (r - 1) as usize)
            }
            &&& c == 0 && r == 0 ==> !hit && t == v
        }),
{
    let c = v.cursor.0 as int;
    let r = v.cursor.1 as int;
    let line = v.lines[r];
    if c > 0 {
        let nl = line.remove(c - 1);
        assert(nl.take(c - 1) =~= line.take(c - 1));
        assert(nl.skip(c - 1) =~= line.skip(c));
    }
}

/// Copying a selection and pasting it over that same selection leaves the
/// text as it was, with the cursor at the selection's end.
pub proof fn law_copy_then_paste_keeps_text(v: EditorView)
    requires
        lines_wf(v.lines),
        typed_defined(v),
        v.selection is Some,
    ensures
        ({
            let u = shortcut_step(v, Key::C).0;
            let p = shortcut_step(u, Key::V).0;
            &&& shortcut_defined(v, Key::C)
            &&& shortcut_defined(u, Key::V)
            &&& u.lines == v.lines
            &&& u.clipboard == selected_text(v)
            &&& p.lines == v.lines
            &&& p.cursor == sorted(v.selection).unwrap().1
        }),
{
    let u = shortcut_step(v, Key::C).0;
    lemma_selection_restored(u);
    let (a, b) = sorted(v.selection).unwrap();
    assert(pos_le(a, b));
    lemma_delete_then_insert(v.lines, a, b);
}

/// Cutting a selection that holds text puts that text on the clipboard and
/// takes it out of the lines; pasting right away puts the text back as it
/// was, with the cursor at the selection's end.
pub proof fn law_cut_then_paste_restores(v: EditorView)
    requires
        lines_wf(v.lines),
        typed_defined(v),
        selected_text(v).len() > 0,
    ensures
        ({
            let x = shortcut_step(v, Key::X).0;
            let p = shortcut_step(x, Key::V).0;
            &&& shortcut_defined(v, Key::X)
            &&& x.clipboard == selected_text(v)
            &&& x.lines == without_selection(v).lines
            &&& x.cursor == edit_start(v)
            &&& x.selection is None
            &&& shortcut_defined(x, Key::V)
            &&& p.lines == v.lines
            &&& p.cursor == sorted(v.selection).unwrap().1
        }),
{
    lemma_selection_restored(v);
    let (a, b) = sorted(v.selection).unwrap();
    assert(pos_le(a, b));
    lemma_delete_then_insert(v.lines, a, b);
    lemma_delete_lines(v.lines, a, b);
}

} // verus!
