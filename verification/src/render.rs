use vstd::prelude::*;

use crate::console::Colors;
use crate::editor::{chars_of, sorted, string_of, EditorView, IDEEngine};
use crate::highlight::{highlight_lua_line, highlighted, token_specs, HighlightError, Token};
use crate::input::{Key, MousePress};
use crate::terminal::{logs_of, LogTypes, TerminalEngine};
use crate::text::{lines_of, slice_chars, Pos};
use vstd::utf8::{decode_utf8, encode_utf8};

verus! {

// ---------------------------------------------------------------------------
// Drawing steps
// ---------------------------------------------------------------------------

/// One drawing step on the editor's screen, in console pixels.
pub enum Draw {
    /// The whole screen filled with a colour.
    Clear(Colors),
    /// A filled rectangle: left, top, width, height and colour.
    Rect(i32, i32, i32, i32, Colors),
    /// Text in the middle-sized font: left, top, colour and text.
    Text(i32, i32, Colors, String),
    /// Text in the small font: left, top, colour and text.
    SmallText(i32, i32, Colors, String),
    /// The plus sign of the add-file button, by its top left corner.
    PlusSign(i32, i32),
}

/// A drawing step, its text by its characters.
pub enum DrawView {
    Clear(Colors),
    Rect(int, int, int, int, Colors),
    Text(int, int, Colors, Seq<char>),
    SmallText(int, int, Colors, Seq<char>),
    PlusSign(int, int),
}

impl Draw {
    pub open spec fn view(&self) -> DrawView {
        match self {
            Draw::Clear(c) => DrawView::Clear(*c),
            Draw::Rect(x, y, w, h, c) => DrawView::Rect(*x as int, *y as int, *w as int, *h as int, *c),
            Draw::Text(x, y, c, t) => DrawView::Text(*x as int, *y as int, *c, t@),
            Draw::SmallText(x, y, c, t) => DrawView::SmallText(*x as int, *y as int, *c, t@),
            Draw::PlusSign(x, y) => DrawView::PlusSign(*x as int, *y as int),
        }
    }
}

/// The steps, each by its view.
pub open spec fn draws_of(v: Seq<Draw>) -> Seq<DrawView> {
    Seq::new(v.len(), |i: int| v[i].view())
}

// ---------------------------------------------------------------------------
// Names in order
// ---------------------------------------------------------------------------

/// `a` comes before `b` in the order of `String`: character by character,
/// a proper prefix first.
pub open spec fn name_lt(a: Seq<char>, b: Seq<char>) -> bool
    decreases a.len(),
{
    if a.len() == 0 {
        b.len() > 0
    } else if b.len() == 0 {
        false
    } else if a[0] != b[0] {
        (a[0] as u32) < (b[0] as u32)
    } else {
        name_lt(a.drop_first(), b.drop_first())
    }
}

/// How many of `ns` come before `a`.
pub open spec fn count_before(ns: Seq<Seq<char>>, a: Seq<char>) -> nat
    decreases ns.len(),
{
    if ns.len() == 0 {
        0
    } else {
        count_before(ns.drop_last(), a) + if name_lt(ns.last(), a) {
            1nat
        } else {
            0nat
        }
    }
}

/// No name comes before itself.
proof fn lemma_name_lt_irreflexive(a: Seq<char>)
    ensures
        !name_lt(a, a),
    decreases a.len(),
{
    if a.len() > 0 {
        lemma_name_lt_irreflexive(a.drop_first());
    }
}

/// Coming before is transitive.
proof fn lemma_name_lt_transitive(a: Seq<char>, b: Seq<char>, c: Seq<char>)
    requires
        name_lt(a, b),
        name_lt(b, c),
    ensures
        name_lt(a, c),
    decreases a.len(),
{
    if a.len() > 0 && b.len() > 0 && c.len() > 0 && a[0] == b[0] && b[0] == c[0] {
        lemma_name_lt_transitive(a.drop_first(), b.drop_first(), c.drop_first());
    }
}

/// Of two different names, one comes before the other.
proof fn lemma_name_lt_total(a: Seq<char>, b: Seq<char>)
    requires
        a != b,
    ensures
        name_lt(a, b) || name_lt(b, a),
    decreases a.len(),
{
    if a.len() == 0 {
        if b.len() == 0 {
            assert(a =~= b);
        }
    } else if b.len() > 0 {
        if a[0] != b[0] {
            vstd::utf8::char_u32_cast(a[0], a[0] as u32);
            vstd::utf8::char_u32_cast(b[0], b[0] as u32);
        } else {
            if a.drop_first() == b.drop_first() {
                assert(a =~= seq![a[0]] + a.drop_first());
                assert(b =~= seq![b[0]] + b.drop_first());
            }
            lemma_name_lt_total(a.drop_first(), b.drop_first());
        }
    }
}

/// A name that comes before another has no more names before it, and fewer
/// when it is among the names.
proof fn lemma_count_before_lt(ns: Seq<Seq<char>>, a: Seq<char>, b: Seq<char>)
    requires
        name_lt(a, b),
    ensures
        count_before(ns, a) <= count_before(ns, b),
        ns.contains(a) ==> count_before(ns, a) < count_before(ns, b),
    decreases ns.len(),
{
    if ns.len() > 0 {
        let rest = ns.drop_last();
        lemma_count_before_lt(rest, a, b);
        if name_lt(ns.last(), a) {
            lemma_name_lt_transitive(ns.last(), a, b);
        }
        lemma_name_lt_irreflexive(a);
        if ns.contains(a) && ns.last() != a {
            let i = choose|i: int| 0 <= i < ns.len() && ns[i] == a;
            assert(rest[i] == a);
        }
    }
}

/// Files with different names get entries in the list that do not overlap:
/// their tops are at least an entry's height apart.
pub proof fn law_entries_apart(names: Seq<Seq<char>>)
    requires
        forall|i: int, j: int| 0 <= i < j < names.len() ==> names[i] != names[j],
    ensures
        forall|j: int, k: int|
            0 <= j < names.len() && 0 <= k < names.len() && j != k ==> entry_top(names, j) + 5 <= entry_top(
                names,
                k,
            ) || entry_top(names, k) + 5 <= entry_top(names, j),
{
    assert forall|j: int, k: int|
        0 <= j < names.len() && 0 <= k < names.len() && j != k implies entry_top(names, j) + 5 <= entry_top(
            names,
            k,
        ) || entry_top(names, k) + 5 <= entry_top(names, j) by {
        assert(names[j] != names[k]);
        lemma_name_lt_total(names[j], names[k]);
        assert(names.contains(names[j]));
        assert(names.contains(names[k]));
        if name_lt(names[j], names[k]) {
            lemma_count_before_lt(names, names[j], names[k]);
        } else {
            lemma_count_before_lt(names, names[k], names[j]);
        }
    }
}

/// Whether `a` comes before `b` (see `name_lt`).
pub fn name_less(a: &Vec<char>, b: &Vec<char>) -> (r: bool)
    ensures
        r == name_lt(a@, b@),
{
    let mut i: usize = 0;
    assert(a@.skip(0) =~= a@ && b@.skip(0) =~= b@);
    while i < a.len() && i < b.len() && a[i] == b[i]
        invariant
            i <= a@.len(),
            i <= b@.len(),
            name_lt(a@, b@) == name_lt(a@.skip(i as int), b@.skip(i as int)),
        decreases a@.len() - i,
    {
        assert(a@.skip(i as int).drop_first() =~= a@.skip(i + 1));
        assert(b@.skip(i as int).drop_first() =~= b@.skip(i + 1));
        i += 1;
    }
    if i == a.len() {
        i < b.len()
    } else if i == b.len() {
        false
    } else {
        (a[i] as u32) < (b[i] as u32)
    }
}

// ---------------------------------------------------------------------------
// Numbers as text
// ---------------------------------------------------------------------------

/// The digit for `d`, below ten.
pub open spec fn digit(d: int) -> char {
    if d == 0 {
        '0'
    } else if d == 1 {
        '1'
    } else if d == 2 {
        '2'
    } else if d == 3 {
        '3'
    } else if d == 4 {
        '4'
    } else if d == 5 {
        '5'
    } else if d == 6 {
        '6'
    } else if d == 7 {
        '7'
    } else if d == 8 {
        '8'
    } else {
        '9'
    }
}

/// `n` in decimal, without leading zeros.
pub open spec fn decimal(n: nat) -> Seq<char>
    decreases n,
{
    if n < 10 {
        seq![digit(n as int)]
    } else {
        decimal(n / 10).push(digit((n % 10) as int))
    }
}

/// The digit for `d`.
fn digit_char(d: usize) -> (c: char)
    requires
        d < 10,
    ensures
        c == digit(d as int),
{
    if d == 0 {
        '0'
    } else if d == 1 {
        '1'
    } else if d == 2 {
        '2'
    } else if d == 3 {
        '3'
    } else if d == 4 {
        '4'
    } else if d == 5 {
        '5'
    } else if d == 6 {
        '6'
    } else if d == 7 {
        '7'
    } else if d == 8 {
        '8'
    } else {
        '9'
    }
}

/// `n` in decimal (see `decimal`).
pub fn decimal_chars(n: usize) -> (r: Vec<char>)
    ensures
        r@ == decimal(n as nat),
{
    let mut m: usize = n;
    let mut acc: Vec<char> = Vec::new();
    assert(decimal(n as nat) + acc@ =~= decimal(n as nat));
    loop
        invariant_except_break
            m > 0 || acc@.len() == 0,
            m > 0 ==> decimal(n as nat) == decimal(m as nat) + acc@,
            acc@.len() == 0 ==> m == n,
        ensures
            decimal(n as nat) == acc@,
        decreases m,
    {
        let d = m % 10;
        let c = digit_char(d);
        let ghost before = acc@;
        acc.insert(0, c);
        assert(acc@ =~= seq![c] + before);
        if m < 10 {
            assert(decimal(m as nat) =~= seq![c]);
            assert(decimal(n as nat) =~= acc@);
            break;
        }
        assert(decimal(m as nat) == decimal((m / 10) as nat).push(c));
        assert(decimal((m / 10) as nat).push(c) + before =~= decimal((m / 10) as nat) + acc@);
        m = m / 10;
    }
    acc
}

// ---------------------------------------------------------------------------
// The editor's screen
// ---------------------------------------------------------------------------

/// The file list, `n` entries long, and the add-file button under it fit in
/// pixel coordinates.
pub open spec fn files_fit(n: int) -> bool {
    5 * n + 199 <= i32::MAX
}

/// The rectangle that marks the selected part of `row`, when it shows: the
/// selection runs from column `s.0` of row `s.1` to column `e.0` of row
/// `e.1`.
pub open spec fn selection_rect(ls: Seq<Seq<char>>, s: Pos, e: Pos, scroll: Pos, row: int) -> Seq<DrawView> {
    if row < scroll.1 || row >= scroll.1 + 29 {
        seq![]
    } else {
        let y = (row - scroll.1) * 6 + 1;
        let sc: int = if row == s.1 {
            s.0 as int
        } else {
            0
        };
        let ec: int = if row == e.1 {
            e.0 as int
        } else {
            ls[row].len() as int
        };
        let x = (if sc > scroll.0 {
            sc - scroll.0
        } else {
            0
        }) * 4 + 1;
        let w = (ec - sc) * 4;
        if x < 128 && x + w > 0 {
            seq![DrawView::Rect(x, y, w, 6, Colors::Teal)]
        } else {
            seq![]
        }
    }
}

/// The selection's rectangles on the `n` rows from `from` on.
pub open spec fn selection_rects(ls: Seq<Seq<char>>, s: Pos, e: Pos, scroll: Pos, from: int, n: nat) -> Seq<
    DrawView,
>
    decreases n,
{
    if n == 0 {
        seq![]
    } else {
        selection_rects(ls, s, e, scroll, from, (n - 1) as nat) + selection_rect(ls, s, e, scroll, from + n - 1)
    }
}

/// The first selected row that shows.
pub open spec fn first_shown(s: Pos, scroll: Pos) -> int {
    if s.1 > scroll.1 {
        s.1 as int
    } else {
        scroll.1 as int
    }
}

/// The last selected row that shows.
pub open spec fn last_shown(e: Pos, scroll: Pos) -> int {
    if e.1 < scroll.1 + 28 {
        e.1 as int
    } else {
        scroll.1 + 28
    }
}

/// The rectangles that mark the selection, on its rows that show (rows
/// that do not show get none).
pub open spec fn selection_draws(v: EditorView, scroll: Pos) -> Seq<DrawView> {
    match sorted(v.selection) {
        Some((s, e)) => if first_shown(s, scroll) <= last_shown(e, scroll) {
            selection_rects(
                v.lines,
                s,
                e,
                scroll,
                first_shown(s, scroll),
                (last_shown(e, scroll) - first_shown(s, scroll) + 1) as nat,
            )
        } else {
            seq![]
        },
        None => seq![],
    }
}

/// A selected row that shows can be marked: it exists, the selection does
/// not end before it starts on it, and its rectangle fits in pixel
/// coordinates.
pub open spec fn row_fits(ls: Seq<Seq<char>>, s: Pos, e: Pos, scroll: Pos, row: int) -> bool {
    &&& row < ls.len()
    &&& {
        let sc: int = if row == s.1 {
            s.0 as int
        } else {
            0
        };
        let ec: int = if row == e.1 {
            e.0 as int
        } else {
            ls[row].len() as int
        };
        let x = (if sc > scroll.0 {
            sc - scroll.0
        } else {
            0
        }) * 4 + 1;
        &&& sc <= ec
        &&& x <= i32::MAX
        &&& (ec - sc) * 4 <= i32::MAX
        &&& x < 128 ==> x + (ec - sc) * 4 <= i32::MAX
    }
}

/// Every row from `s` to `e` that shows can be marked (see `row_fits`).
pub open spec fn rows_fit(ls: Seq<Seq<char>>, s: Pos, e: Pos, scroll: Pos) -> bool {
    forall|row: int| first_shown(s, scroll) <= row <= last_shown(e, scroll) ==> #[trigger] row_fits(ls, s, e, scroll, row)
}

/// Every selected row that shows can be marked (see `row_fits`).
pub open spec fn selection_fits(v: EditorView, scroll: Pos) -> bool {
    match sorted(v.selection) {
        Some((s, e)) => rows_fit(v.lines, s, e, scroll),
        None => true,
    }
}

/// Pieces of text written one after the other from `x` on the row at `y`,
/// each as wide as its bytes.
pub open spec fn placed(pieces: Seq<(Seq<u8>, Colors)>, x: int, y: int) -> Seq<DrawView>
    decreases pieces.len(),
{
    if pieces.len() == 0 {
        seq![]
    } else {
        seq![DrawView::Text(x, y, pieces[0].1, decode_utf8(pieces[0].0))] + placed(
            pieces.drop_first(),
            x + pieces[0].0.len() * 4,
            y,
        )
    }
}

/// The columns of `line` that show: at most 32 from the scroll column.
pub open spec fn shown_end(line: Seq<char>, col: int) -> int {
    if line.len() < col + 32 {
        line.len() as int
    } else {
        col + 32
    }
}

/// The text of one row, highlighted; nothing where highlighting fails.
pub open spec fn row_text(ts: Seq<(Seq<char>, Colors)>, ls: Seq<Seq<char>>, scroll: Pos, row: int) -> Option<
    Seq<DrawView>,
> {
    let y = (row - scroll.1) * 6 + 1;
    let line = ls[row];
    let end = shown_end(line, scroll.0 as int);
    if scroll.0 < end {
        match highlighted(ts, encode_utf8(line.subrange(scroll.0 as int, end))) {
            Some(p) => Some(placed(p, 1, y)),
            None => None,
        }
    } else {
        Some(seq![])
    }
}

/// The text of the first `n` rows from the scroll row on.
pub open spec fn text_rows(ts: Seq<(Seq<char>, Colors)>, ls: Seq<Seq<char>>, scroll: Pos, n: nat) -> Option<
    Seq<DrawView>,
>
    decreases n,
{
    if n == 0 {
        Some(seq![])
    } else {
        let row = scroll.1 + n - 1;
        match text_rows(ts, ls, scroll, (n - 1) as nat) {
            Some(before) => if row < ls.len() {
                match row_text(ts, ls, scroll, row) {
                    Some(d) => Some(before + d),
                    None => None,
                }
            } else {
                Some(before)
            },
            None => None,
        }
    }
}

/// The bytes of the pieces, all together.
pub open spec fn bytes_len(pieces: Seq<(Seq<u8>, Colors)>) -> nat
    decreases pieces.len(),
{
    if pieces.len() == 0 {
        0
    } else {
        pieces[0].0.len() + bytes_len(pieces.drop_first())
    }
}

/// A character takes at most four bytes.
proof fn lemma_encode_len(chars: Seq<char>)
    ensures
        encode_utf8(chars).len() <= 4 * chars.len(),
    decreases chars.len(),
{
    if chars.len() > 0 {
        lemma_encode_len(chars.drop_first());
    }
}

/// The pieces of a highlighted line take no more bytes than the line.
proof fn lemma_highlighted_len(ts: Seq<(Seq<char>, Colors)>, b: Seq<u8>)
    requires
        highlighted(ts, b) is Some,
    ensures
        bytes_len(highlighted(ts, b).unwrap()) <= b.len(),
    decreases b.len(),
{
    let p = highlighted(ts, b).unwrap();
    if b.len() == 0 {
    } else if b.len() >= 2 && b[0] == 0x2du8 && b[1] == 0x2du8 {
        assert(p.drop_first() =~= Seq::<(Seq<u8>, Colors)>::empty());
        assert(bytes_len(p.drop_first()) == 0);
        assert(bytes_len(p) == b.len());
    } else {
        match crate::highlight::first_match(ts, decode_utf8(b)) {
            Some((s, e, c)) => {
                lemma_highlighted_len(ts, b.skip(e));
                let rest = highlighted(ts, b.skip(e)).unwrap();
                assert(p == seq![(b.subrange(s, e), c)] + rest);
                assert(p.drop_first() =~= rest);
                assert(p[0].0.len() == e - s);
                assert(bytes_len(p) == (e - s) + bytes_len(rest));
            },
            None => {
                lemma_highlighted_len(ts, b.skip(1));
                let rest = highlighted(ts, b.skip(1)).unwrap();
                assert(p == seq![(b.take(1), Colors::Silver)] + rest);
                assert(p.drop_first() =~= rest);
                assert(bytes_len(p) == 1 + bytes_len(rest));
            },
        }
    }
}

/// Once a row's highlighting fails, so does the text of every longer run
/// of rows.
proof fn lemma_text_rows_none(ts: Seq<(Seq<char>, Colors)>, ls: Seq<Seq<char>>, scroll: Pos, n: nat, m: nat)
    requires
        n <= m,
        text_rows(ts, ls, scroll, n) is None,
    ensures
        text_rows(ts, ls, scroll, m) is None,
    decreases m,
{
    if n < m {
        lemma_text_rows_none(ts, ls, scroll, n, (m - 1) as nat);
    }
}

/// The cursor's bar, as tall as a row, at the cursor's place in the view;
/// nothing where that place is below the text area.
pub open spec fn cursor_bar(c: Pos, scroll: Pos) -> Seq<DrawView> {
    let cx = (if c.0 > scroll.0 {
        c.0 - scroll.0
    } else {
        0
    }) * 4 + 1;
    let cy = (if c.1 > scroll.1 {
        c.1 - scroll.1
    } else {
        0
    }) * 6 + 1;
    if 0 <= cy < 179 {
        seq![DrawView::Rect(cx, cy, 1, 6, Colors::Yellow)]
    } else {
        seq![]
    }
}

/// The blinking cursor: its bar in the second part of each blink.
pub open spec fn cursor_draws(c: Pos, scroll: Pos, frame: int) -> Seq<DrawView> {
    if frame > 10 {
        cursor_bar(c, scroll)
    } else {
        seq![]
    }
}

/// The keys that move the cursor or edit at it: the arrows, backspace and
/// return.
pub open spec fn moves_cursor(k: Key) -> bool {
    k == Key::Left || k == Key::Right || k == Key::Up || k == Key::Down || k == Key::Back || k == Key::Return
}

/// Whether one of `keys` moves the cursor or edits at it.
pub open spec fn holds_cursor_key(keys: Seq<Key>) -> bool {
    exists|i: int| 0 <= i < keys.len() && moves_cursor(#[trigger] keys[i])
}

/// The cursor's bar once more for each held key that moves the cursor or
/// edits at it, so that it shows, blink or not, while such a key is down.
pub open spec fn held_cursor_draws(keys: Seq<Key>, c: Pos, scroll: Pos) -> Seq<DrawView>
    decreases keys.len(),
{
    if keys.len() == 0 {
        seq![]
    } else {
        held_cursor_draws(keys.drop_last(), c, scroll) + (if moves_cursor(keys.last()) {
            cursor_bar(c, scroll)
        } else {
            seq![]
        })
    }
}

/// The cursor's place in the view fits in pixel coordinates.
pub open spec fn cursor_fits(c: Pos, scroll: Pos) -> bool {
    &&& (if c.0 > scroll.0 {
        c.0 - scroll.0
    } else {
        0
    }) * 4 + 1 <= i32::MAX
    &&& (if c.1 > scroll.1 {
        c.1 - scroll.1
    } else {
        0
    }) * 6 + 1 <= i32::MAX
}

/// The status line: the file's name, a star while it has unsaved changes,
/// and the cursor's line out of all lines, counted from one.
pub open spec fn status_text(v: EditorView) -> Seq<char> {
    v.file_name + (if v.upto_date {
        seq![]
    } else {
        seq!['*']
    }) + seq![' ', 'L', 'I', 'N', 'E', ' '] + decimal((v.cursor.1 + 1) as nat) + seq!['/'] + decimal(v.lines.len())
}

/// The status bar under the text and the status line on it.
pub open spec fn status_draws(v: EditorView) -> Seq<DrawView> {
    seq![DrawView::Rect(0, 179, 128, 7, Colors::Silver), DrawView::Text(1, 180, Colors::Black, status_text(v))]
}

/// The upper case of `s`, as `str::to_uppercase` gives it.
pub uninterp spec fn unicode_uppercase(s: Seq<char>) -> Seq<char>;

/// The upper case of `s`, by `str::to_uppercase`. A function of the text
/// alone; what it is is left to the name `unicode_uppercase`.
#[verifier::external_body]
fn uppercase(s: &str) -> (r: String)
    ensures
        r@ == unicode_uppercase(s@),
{
    s.to_uppercase()
}

/// The names of the recorded files.
pub open spec fn names_of(files: Seq<(String, i64)>) -> Seq<Seq<char>> {
    Seq::new(files.len(), |i: int| files[i].0@)
}

/// The top of the `k`-th file's entry in the list: the entries go down in
/// name order, five pixels apart.
pub open spec fn entry_top(names: Seq<Seq<char>>, k: int) -> int {
    191 + (count_before(names, names[k]) as int) * 5
}

/// The file list under the status bar, each name in upper case at its
/// entry.
pub open spec fn file_list_draws(names: Seq<Seq<char>>) -> Seq<DrawView> {
    Seq::new(
        names.len(),
        |k: int| DrawView::SmallText(1, entry_top(names, k), Colors::Silver, unicode_uppercase(names[k])),
    )
}

/// The top of the add-file button, under the last entry.
pub open spec fn button_top(n: int) -> int {
    191 + n * 5 + 1
}

/// The add-file button: a square with a plus sign.
pub open spec fn button_draws(n: int) -> Seq<DrawView> {
    seq![
        DrawView::Rect(1, button_top(n), 7, 7, Colors::Silver),
        DrawView::PlusSign(2, button_top(n) + 1),
    ]
}

/// The whole screen, in drawing order: cleared to black, the selection, the
/// text, the cursor, the status bar, the file list with its button, and the
/// cursor's bar for each held key among `held` that moves it. Nothing where
/// highlighting a row fails.
pub open spec fn screen(
    ts: Seq<(Seq<char>, Colors)>,
    v: EditorView,
    scroll: Pos,
    frame: int,
    names: Seq<Seq<char>>,
    held: Seq<Key>,
) -> Option<Seq<DrawView>> {
    match text_rows(ts, v.lines, scroll, 30) {
        Some(t) => Some(
            seq![DrawView::Clear(Colors::Black)] + selection_draws(v, scroll) + t + cursor_draws(v.cursor, scroll, frame) + status_draws(v) + file_list_draws(
                names,
            ) + button_draws(names.len() as int) + held_cursor_draws(held, v.cursor, scroll),
        ),
        None => None,
    }
}

/// A click just now on the `k`-th file's entry.
pub open spec fn file_hit(m: MousePress, names: Seq<Seq<char>>, k: int) -> bool {
    m.just_pressed && m.y >= entry_top(names, k) && m.y < entry_top(names, k) + 5
}

/// A click just now on the add-file button, `n` files being listed.
pub open spec fn button_hit(m: MousePress, n: int) -> bool {
    m.just_pressed && m.y >= button_top(n) && m.y < button_top(n) + 7 && m.x >= 1 && m.x < 8
}

/// The names, each by its view.
pub open spec fn char_names(v: Seq<Vec<char>>) -> Seq<Seq<char>> {
    Seq::new(v.len(), |i: int| v[i]@)
}

/// How many of `names` come before `a` (see `count_before`).
fn rank_of(names: &Vec<Vec<char>>, a: &Vec<char>) -> (r: usize)
    ensures
        r == count_before(char_names(names@), a@),
        r <= names@.len(),
{
    let ghost ns = char_names(names@);
    let mut cnt: usize = 0;
    let mut j: usize = 0;
    assert(ns.take(0) =~= Seq::<Seq<char>>::empty());
    while j < names.len()
        invariant
            ns == char_names(names@),
            j <= names@.len(),
            cnt <= j,
            cnt == count_before(ns.take(j as int), a@),
        decreases names@.len() - j,
    {
        assert(ns.take(j + 1).drop_last() =~= ns.take(j as int));
        assert(ns.take(j + 1).last() == names@[j as int]@);
        if name_less(&names[j], a) {
            cnt += 1;
        }
        j += 1;
    }
    assert(ns.take(names@.len() as int) =~= ns);
    cnt
}

/// Whether one of `keys` moves the cursor or edits at it (see
/// `holds_cursor_key`).
fn has_cursor_key(keys: &Vec<Key>) -> (r: bool)
    ensures
        r == holds_cursor_key(keys@),
{
    let mut i: usize = 0;
    while i < keys.len()
        invariant
            i <= keys@.len(),
            forall|j: int| 0 <= j < i ==> !moves_cursor(#[trigger] keys@[j]),
        decreases keys@.len() - i,
    {
        match keys[i] {
            Key::Left | Key::Right | Key::Up | Key::Down | Key::Back | Key::Return => {
                assert(moves_cursor(keys@[i as int]));
                return true;
            },
            _ => {},
        }
        i += 1;
    }
    false
}

impl IDEEngine {
    /// The screen can be drawn where the editor's own drawing goes through:
    /// the selected rows that show can be marked, the cursor's place fits in
    /// pixel coordinates whenever its bar is drawn (in the second part of a
    /// blink, or while a key that moves it is held), the cursor's line can be
    /// counted from one, and the file list fits.
    pub open spec fn renderable(&self) -> bool {
        &&& selection_fits(self.view(), self.scroll_offset)
        &&& (self.frame_hash > 10 || holds_cursor_key(self.keyboard.keys_pressed@)) ==> cursor_fits(
            self.cursor,
            self.scroll_offset,
        )
        &&& self.cursor.1 < usize::MAX
        &&& files_fit(self.files@.len() as int)
    }

    /// Whether a selected row that shows can be marked (see `row_fits`).
    fn row_can_be_marked(&self, s: Pos, e: Pos, row: usize) -> (r: bool)
        ensures
            r == row_fits(lines_of(&self.file), s, e, self.scroll_offset, row as int),
    {
        if row >= self.file.len() {
            return false;
        }
        let scroll = self.scroll_offset;
        let sc: usize = if row == s.1 {
            s.0
        } else {
            0
        };
        let ec: usize = if row == e.1 {
            e.0
        } else {
            self.file[row].len()
        };
        let d: usize = if sc > scroll.0 {
            sc - scroll.0
        } else {
            0
        };
        if sc > ec || d > 0x1fff_ffff || ec - sc > 0x1fff_ffff {
            return false;
        }
        let x: u64 = (d as u64) * 4 + 1;
        x >= 128 || x + ((ec - sc) as u64) * 4 <= 0x7fff_ffff
    }

    /// Whether the screen can be drawn (see `renderable`).
    pub fn can_render(&self) -> (r: bool)
        ensures
            r == self.renderable(),
    {
        let c = self.cursor;
        let scroll = self.scroll_offset;
        if self.frame_hash > 10 || has_cursor_key(&self.keyboard.keys_pressed) {
            let dx: usize = if c.0 > scroll.0 {
                c.0 - scroll.0
            } else {
                0
            };
            let dy: usize = if c.1 > scroll.1 {
                c.1 - scroll.1
            } else {
                0
            };
            if dx > 0x1fff_ffff || dy > 0x1555_5555 {
                return false;
            }
        }
        if c.1 == usize::MAX || self.files.len() > 0x1999_9971 {
            return false;
        }
        match self.get_sorted_selection() {
            None => true,
            Some((s, e)) => {
                let lo: usize = if s.1 > scroll.1 {
                    s.1
                } else {
                    scroll.1
                };
                if e.1 < scroll.1 {
                    return true;
                }
                let hi: usize = if e.1 - scroll.1 < 28 {
                    e.1
                } else {
                    scroll.1 + 28
                };
                if lo > hi {
                    return true;
                }
                let count: usize = hi - lo;
                let mut k: usize = 0;
                while k <= count
                    invariant
                        lo == first_shown(s, scroll),
                        hi == last_shown(e, scroll),
                        scroll == self.scroll_offset,
                        count == hi - lo,
                        count <= 28,
                        k <= count + 1,
                        sorted(self.selection) == Some((s, e)),
                        forall|j: int| lo <= j < lo + k ==> #[trigger] row_fits(lines_of(&self.file), s, e, scroll, j),
                    decreases count + 1 - k,
                {
                    if !self.row_can_be_marked(s, e, lo + k) {
                        assert(sorted(self.view().selection) == Some((s, e)));
                        assert(self.view().lines == lines_of(&self.file));
                        assert(!row_fits(self.view().lines, s, e, scroll, (lo + k) as int));
                        assert(!rows_fit(self.view().lines, s, e, scroll));
                        return false;
                    }
                    k += 1;
                }
                true
            },
        }
    }

    /// The rectangles that mark the selection (see `selection_draws`).
    fn selection_part(&self) -> (r: Vec<Draw>)
        requires
            self.renderable(),
        ensures
            draws_of(r@) == selection_draws(self.view(), self.scroll_offset),
    {
        let mut out: Vec<Draw> = Vec::new();
        let ghost ls = lines_of(&self.file);
        let scroll = self.scroll_offset;
        match self.get_sorted_selection() {
            None => {
                assert(draws_of(out@) =~= seq![]);
            },
            Some((s, e)) => {
                if e.1 < scroll.1 {
                    assert(draws_of(out@) =~= seq![]);
                    return out;
                }
                let lo: usize = if s.1 > scroll.1 {
                    s.1
                } else {
                    scroll.1
                };
                let hi: usize = if e.1 - scroll.1 < 28 {
                    e.1
                } else {
                    scroll.1 + 28
                };
                if lo > hi {
                    assert(draws_of(out@) =~= seq![]);
                    return out;
                }
                let count: usize = hi - lo;
                let mut k: usize = 0;
                assert(draws_of(out@) =~= selection_rects(ls, s, e, scroll, lo as int, 0));
                while k <= count
                    invariant
                        self.renderable(),
                        ls == lines_of(&self.file),
                        scroll == self.scroll_offset,
                        sorted(self.selection) == Some((s, e)),
                        lo == first_shown(s, scroll),
                        hi == last_shown(e, scroll),
                        count == hi - lo,
                        count <= 28,
                        k <= count + 1,
                        draws_of(out@) == selection_rects(ls, s, e, scroll, lo as int, k as nat),
                    decreases count + 1 - k,
                {
                    let row = lo + k;
                    let ghost before = out@;
                    assert(selection_rects(ls, s, e, scroll, lo as int, (k + 1) as nat) == selection_rects(
                        ls,
                        s,
                        e,
                        scroll,
                        lo as int,
                        k as nat,
                    ) + selection_rect(ls, s, e, scroll, row as int));
                    assert(self.view().lines == ls);
                    assert(selection_fits(self.view(), scroll));
                    assert(first_shown(s, scroll) <= row <= last_shown(e, scroll));
                    assert(row_fits(ls, s, e, scroll, row as int)) by {
                        let v = self.view();
                        assert(sorted(v.selection) == Some((s, e)));
                        assert(v.lines == ls);
                        assert(rows_fit(ls, s, e, scroll));
                    }
                    let y: i32 = ((row - scroll.1) as i32) * 6 + 1;
                    let line_len = self.file[row].len();
                    assert(line_len == ls[row as int].len());
                    let sc: usize = if row == s.1 {
                        s.0
                    } else {
                        0
                    };
                    let ec: usize = if row == e.1 {
                        e.0
                    } else {
                        line_len
                    };
                    let x: i32 = (if sc > scroll.0 {
                        sc - scroll.0
                    } else {
                        0
                    }) as i32 * 4 + 1;
                    let w: i32 = (ec - sc) as i32 * 4;
                    if x < 128 && x + w > 0 {
                        out.push(Draw::Rect(x, y, w, 6, Colors::Teal));
                        assert(draws_of(out@) =~= draws_of(before) + seq![DrawView::Rect(x as int, y as int, w as int, 6, Colors::Teal)]);
                    } else {
                        assert(draws_of(out@) =~= draws_of(before) + seq![]);
                    }
                    k += 1;
                }
            },
        }
        out
    }

    /// One row's text, highlighted and placed (see `row_text`).
    fn row_part(&self, tokens: &Vec<Token>, row: usize) -> (r: Result<Vec<Draw>, HighlightError>)
        requires
            self.renderable(),
            self.scroll_offset.1 <= row < self.file@.len(),
            row < self.scroll_offset.1 + 30,
        ensures
            match r {
                Ok(d) => row_text(token_specs(tokens@), lines_of(&self.file), self.scroll_offset, row as int) == Some(
                    draws_of(d@),
                ),
                Err(_) => row_text(token_specs(tokens@), lines_of(&self.file), self.scroll_offset, row as int) is None,
            },
    {
        let ghost ls = lines_of(&self.file);
        let ghost ts = token_specs(tokens@);
        let scroll = self.scroll_offset;
        let y: i32 = ((row - scroll.1) as i32) * 6 + 1;
        let line = &self.file[row];
        assert(line@ == ls[row as int]);
        let start = scroll.0;
        let end = if start >= line.len() || line.len() - start < 32 {
            line.len()
        } else {
            start + 32
        };
        if start < end {
            let part = slice_chars(line, start, end);
            let text = string_of(&part);
            match highlight_lua_line(tokens, text.as_str()) {
                Ok(pieces) => {
                    let ghost all = crate::highlight::pieces_of(pieces@);
                    proof {
                        lemma_highlighted_len(ts, encode_utf8(part@));
                        lemma_encode_len(part@);
                    }
                    let mut out: Vec<Draw> = Vec::new();
                    let mut x: i32 = 1;
                    let mut k: usize = 0;
                    assert(all.skip(0) =~= all);
                    assert(draws_of(out@) + placed(all, 1, y as int) =~= placed(all, 1, y as int));
                    while k < pieces.len()
                        invariant
                            all == crate::highlight::pieces_of(pieces@),
                            bytes_len(all) <= 128,
                            k <= pieces@.len(),
                            placed(all, 1, y as int) == draws_of(out@) + placed(all.skip(k as int), x as int, y as int),
                            x == 1 + 4 * (bytes_len(all) - bytes_len(all.skip(k as int))),
                            bytes_len(all.skip(k as int)) <= bytes_len(all),
                        decreases pieces@.len() - k,
                    {
                        let ghost rest = all.skip(k as int);
                        assert(rest.drop_first() =~= all.skip(k + 1));
                        assert(rest[0] == all[k as int]);
                        let t = &pieces[k].0;
                        let c = pieces[k].1;
                        let n = t.as_str().len();
                        proof {
                            vstd::utf8::encode_utf8_decode_utf8(t@);
                        }
                        let ghost before = out@;
                        out.push(Draw::Text(x, y, c, t.clone()));
                        assert(draws_of(out@) =~= draws_of(before) + seq![DrawView::Text(x as int, y as int, c, decode_utf8(rest[0].0))]);
                        x = x + (n as i32) * 4;
                        k += 1;
                    }
                    assert(all.skip(k as int) =~= Seq::<(Seq<u8>, Colors)>::empty());
                    assert(draws_of(out@) + seq![] =~= draws_of(out@));
                    Ok(out)
                },
                Err(e) => Err(e),
            }
        } else {
            let out: Vec<Draw> = Vec::new();
            assert(draws_of(out@) =~= seq![]);
            Ok(out)
        }
    }

    /// The text of the rows that show (see `text_rows`).
    fn text_part(&self, tokens: &Vec<Token>) -> (r: Result<Vec<Draw>, HighlightError>)
        requires
            self.renderable(),
        ensures
            match r {
                Ok(d) => text_rows(token_specs(tokens@), lines_of(&self.file), self.scroll_offset, 30) == Some(
                    draws_of(d@),
                ),
                Err(_) => text_rows(token_specs(tokens@), lines_of(&self.file), self.scroll_offset, 30) is None,
            },
    {
        let ghost ls = lines_of(&self.file);
        let ghost ts = token_specs(tokens@);
        let scroll = self.scroll_offset;
        let mut out: Vec<Draw> = Vec::new();
        let mut n: usize = 0;
        assert(draws_of(out@) =~= seq![]);
        while n < 30
            invariant
                self.renderable(),
                ls == lines_of(&self.file),
                ts == token_specs(tokens@),
                scroll == self.scroll_offset,
                n <= 30,
                text_rows(ts, ls, scroll, n as nat) == Some(draws_of(out@)),
            decreases 30 - n,
        {
            if scroll.1 < self.file.len() && n < self.file.len() - scroll.1 {
                let row = scroll.1 + n;
                match self.row_part(tokens, row) {
                    Ok(d) => {
                        let ghost before = out@;
                        let mut d = d;
                        let ghost dv = d@;
                        out.append(&mut d);
                        assert(draws_of(out@) =~= draws_of(before) + draws_of(dv));
                    },
                    Err(e) => {
                        proof {
                            lemma_text_rows_none(ts, ls, scroll, (n + 1) as nat, 30);
                        }
                        return Err(e);
                    },
                }
            }
            n += 1;
        }
        Ok(out)
    }

    /// The names of the recorded files, as characters.
    fn name_chars(&self) -> (r: Vec<Vec<char>>)
        ensures
            char_names(r@) == names_of(self.files@),
    {
        let mut r: Vec<Vec<char>> = Vec::new();
        let mut k: usize = 0;
        while k < self.files.len()
            invariant
                k <= self.files@.len(),
                char_names(r@) == names_of(self.files@).take(k as int),
            decreases self.files@.len() - k,
        {
            let ghost before = r@;
            r.push(chars_of(self.files[k].0.as_str()));
            assert(char_names(r@) =~= char_names(before).push(self.files@[k as int].0@));
            k += 1;
            assert(char_names(r@) =~= names_of(self.files@).take(k as int));
        }
        assert(names_of(self.files@).take(k as int) =~= names_of(self.files@));
        r
    }

    /// The cursor's bar (see `cursor_bar`), added to `out`.
    fn push_cursor_bar(&self, out: &mut Vec<Draw>)
        requires
            cursor_fits(self.cursor, self.scroll_offset),
        ensures
            draws_of(final(out)@) == draws_of(old(out)@) + cursor_bar(self.cursor, self.scroll_offset),
    {
        let c = self.cursor;
        let scroll = self.scroll_offset;
        let cx: i32 = (if c.0 > scroll.0 {
            c.0 - scroll.0
        } else {
            0
        }) as i32 * 4 + 1;
        let cy: i32 = (if c.1 > scroll.1 {
            c.1 - scroll.1
        } else {
            0
        }) as i32 * 6 + 1;
        let ghost before = out@;
        if cy >= 0 && cy < 179 {
            out.push(Draw::Rect(cx, cy, 1, 6, Colors::Yellow));
        }
        assert(draws_of(out@) =~= draws_of(before) + cursor_bar(self.cursor, self.scroll_offset));
    }

    /// The blinking cursor (see `cursor_draws`).
    fn cursor_part(&self) -> (r: Vec<Draw>)
        requires
            self.renderable(),
        ensures
            draws_of(r@) == cursor_draws(self.cursor, self.scroll_offset, self.frame_hash as int),
    {
        let mut out: Vec<Draw> = Vec::new();
        if self.frame_hash > 10 {
            self.push_cursor_bar(&mut out);
        }
        assert(draws_of(out@) =~= cursor_draws(self.cursor, self.scroll_offset, self.frame_hash as int));
        out
    }

    /// The cursor's bar for each held key that moves it (see
    /// `held_cursor_draws`).
    fn held_cursor_part(&self) -> (r: Vec<Draw>)
        requires
            self.renderable(),
        ensures
            draws_of(r@) == held_cursor_draws(self.keyboard.keys_pressed@, self.cursor, self.scroll_offset),
    {
        let keys = &self.keyboard.keys_pressed;
        let mut out: Vec<Draw> = Vec::new();
        let mut i: usize = 0;
        assert(draws_of(out@) =~= held_cursor_draws(keys@.take(0), self.cursor, self.scroll_offset));
        while i < keys.len()
            invariant
                self.renderable(),
                keys@ == self.keyboard.keys_pressed@,
                i <= keys@.len(),
                draws_of(out@) == held_cursor_draws(keys@.take(i as int), self.cursor, self.scroll_offset),
            decreases keys@.len() - i,
        {
            let k = keys[i];
            assert(keys@.take(i + 1).drop_last() =~= keys@.take(i as int));
            assert(keys@.take(i + 1).last() == k);
            match k {
                Key::Left | Key::Right | Key::Up | Key::Down | Key::Back | Key::Return => {
                    assert(moves_cursor(keys@[i as int]));
                    self.push_cursor_bar(&mut out);
                },
                _ => {},
            }
            i += 1;
        }
        assert(keys@.take(keys@.len() as int) =~= keys@);
        out
    }

    /// The status bar and line (see `status_draws`).
    fn status_part(&self) -> (r: Vec<Draw>)
        requires
            self.renderable(),
        ensures
            draws_of(r@) == status_draws(self.view()),
    {
        let mut text = chars_of(self.file_name.as_str());
        if !self.upto_date {
            text.push('*');
        }
        let mut label = chars_of(" LINE ");
        proof {
            reveal_strlit(" LINE ");
        }
        text.append(&mut label);
        let mut line = decimal_chars(self.cursor.1 + 1);
        text.append(&mut line);
        text.push('/');
        let mut total = decimal_chars(self.file.len());
        text.append(&mut total);
        assert(text@ =~= status_text(self.view()));
        let status = string_of(&text);
        let mut out: Vec<Draw> = Vec::new();
        out.push(Draw::Rect(0, 179, 128, 7, Colors::Silver));
        out.push(Draw::Text(1, 180, Colors::Black, status));
        assert(draws_of(out@) =~= status_draws(self.view()));
        out
    }

    /// The file list (see `file_list_draws`).
    fn files_part(&self) -> (r: Vec<Draw>)
        requires
            files_fit(self.files@.len() as int),
        ensures
            draws_of(r@) == file_list_draws(names_of(self.files@)),
    {
        let names = self.name_chars();
        let ghost ns = names_of(self.files@);
        assert(char_names(names@).len() == names@.len());
        let mut out: Vec<Draw> = Vec::new();
        let mut k: usize = 0;
        while k < self.files.len()
            invariant
                files_fit(self.files@.len() as int),
                ns == names_of(self.files@),
                char_names(names@) == ns,
                names@.len() == self.files@.len(),
                k <= self.files@.len(),
                draws_of(out@) == file_list_draws(ns).take(k as int),
            decreases self.files@.len() - k,
        {
            assert(names@[k as int]@ == ns[k as int]);
            let cnt = rank_of(&names, &names[k]);
            let y: i32 = 191 + (cnt as i32) * 5;
            let up = uppercase(self.files[k].0.as_str());
            let ghost before = out@;
            out.push(Draw::SmallText(1, y, Colors::Silver, up));
            assert(draws_of(out@) =~= draws_of(before).push(file_list_draws(ns)[k as int]));
            k += 1;
            assert(draws_of(out@) =~= file_list_draws(ns).take(k as int));
        }
        assert(file_list_draws(ns).take(k as int) =~= file_list_draws(ns));
        out
    }

    /// The add-file button (see `button_draws`).
    fn button_part(&self) -> (r: Vec<Draw>)
        requires
            files_fit(self.files@.len() as int),
        ensures
            draws_of(r@) == button_draws(self.files@.len() as int),
    {
        let y: i32 = 191 + (self.files.len() as i32) * 5 + 1;
        let mut out: Vec<Draw> = Vec::new();
        out.push(Draw::Rect(1, y, 7, 7, Colors::Silver));
        out.push(Draw::PlusSign(2, y + 1));
        assert(draws_of(out@) =~= button_draws(self.files@.len() as int));
        out
    }

    /// The drawing steps of one frame of the editor's screen (see `screen`);
    /// an error where highlighting a row that shows fails.
    pub fn render(&self, tokens: &Vec<Token>) -> (r: Result<Vec<Draw>, HighlightError>)
        requires
            self.renderable(),
        ensures
            match r {
                Ok(d) => screen(
                    token_specs(tokens@),
                    self.view(),
                    self.scroll_offset,
                    self.frame_hash as int,
                    names_of(self.files@),
                    self.keyboard.keys_pressed@,
                ) == Some(draws_of(d@)),
                Err(_) => screen(
                    token_specs(tokens@),
                    self.view(),
                    self.scroll_offset,
                    self.frame_hash as int,
                    names_of(self.files@),
                    self.keyboard.keys_pressed@,
                ) is None,
            },
    {
        let mut out: Vec<Draw> = Vec::new();
        out.push(Draw::Clear(Colors::Black));
        let mut selection = self.selection_part();
        let mut text = match self.text_part(tokens) {
            Ok(t) => t,
            Err(e) => {
                return Err(e);
            },
        };
        let mut cursor = self.cursor_part();
        let mut status = self.status_part();
        let mut list = self.files_part();
        let mut button = self.button_part();
        let mut held = self.held_cursor_part();
        let ghost (z, a, b, c, d, e, f, g) = (out@, selection@, text@, cursor@, status@, list@, button@, held@);
        out.append(&mut selection);
        out.append(&mut text);
        out.append(&mut cursor);
        out.append(&mut status);
        out.append(&mut list);
        out.append(&mut button);
        out.append(&mut held);
        assert(draws_of(z) =~= seq![DrawView::Clear(Colors::Black)]);
        assert(draws_of(out@) =~= draws_of(z) + draws_of(a) + draws_of(b) + draws_of(c) + draws_of(d) + draws_of(e)
            + draws_of(f) + draws_of(g));
        Ok(out)
    }

    /// The file whose entry in the list was just clicked, if any.
    pub fn clicked_file(&self) -> (r: Option<String>)
        requires
            files_fit(self.files@.len() as int),
        ensures
            r is None <==> forall|k: int| 0 <= k < self.files@.len() ==> !file_hit(self.mouse, names_of(self.files@), k),
            r matches Some(n) ==> exists|k: int|
                0 <= k < self.files@.len() && file_hit(self.mouse, names_of(self.files@), k) && n@ == #[trigger] names_of(self.files@)[k],
    {
        let names = self.name_chars();
        let ghost ns = names_of(self.files@);
        assert(char_names(names@).len() == names@.len());
        let mut k: usize = 0;
        while k < self.files.len()
            invariant
                files_fit(self.files@.len() as int),
                ns == names_of(self.files@),
                char_names(names@) == ns,
                names@.len() == self.files@.len(),
                k <= self.files@.len(),
                forall|j: int| 0 <= j < k ==> !file_hit(self.mouse, ns, j),
            decreases self.files@.len() - k,
        {
            assert(names@[k as int]@ == ns[k as int]);
            let cnt = rank_of(&names, &names[k]);
            let top: i32 = 191 + (cnt as i32) * 5;
            if self.mouse.just_pressed && self.mouse.y >= top && self.mouse.y < top + 5 {
                let name = self.files[k].0.clone();
                assert(file_hit(self.mouse, ns, k as int));
                return Some(name);
            }
            k += 1;
        }
        None
    }

    /// The name of the file to create when the add-file button was just
    /// clicked: the number of listed files, then `.lua`.
    pub fn add_button_clicked(&self) -> (r: Option<String>)
        requires
            files_fit(self.files@.len() as int),
        ensures
            r is Some <==> button_hit(self.mouse, self.files@.len() as int),
            r matches Some(n) ==> n@ == decimal(self.files@.len() as nat) + seq!['.', 'l', 'u', 'a'],
    {
        let top: i32 = 191 + (self.files.len() as i32) * 5 + 1;
        let m = &self.mouse;
        if m.just_pressed && m.y >= top && m.y < top + 7 && m.x >= 1 && m.x < 8 {
            let mut name = decimal_chars(self.files.len());
            let mut ext = chars_of(".lua");
            proof {
                reveal_strlit(".lua");
            }
            name.append(&mut ext);
            Some(string_of(&name))
        } else {
            None
        }
    }
}

// ---------------------------------------------------------------------------
// The terminal's screen
// ---------------------------------------------------------------------------

/// The log lines that show: the last 38.
pub open spec fn shown_logs(logs: Seq<(bool, Seq<char>)>) -> Seq<(bool, Seq<char>)> {
    logs.skip(if logs.len() > 38 {
        logs.len() - 38
    } else {
        0
    })
}

/// The terminal's screen, in drawing order: cleared to gray, the log lines
/// that show from the top down (errors in maroon), the cursor in the second
/// part of each blink, and the line being typed at the bottom.
pub open spec fn term_screen(logs: Seq<(bool, Seq<char>)>, input: Seq<char>, cursor: int, frame: int) -> Seq<
    DrawView,
> {
    let shown = shown_logs(logs);
    seq![DrawView::Clear(Colors::Gray)] + Seq::new(
        shown.len(),
        |i: int|
            DrawView::Text(
                1,
                6 * i + 20,
                if shown[i].0 {
                    Colors::Maroon
                } else {
                    Colors::Black
                },
                shown[i].1,
            ),
    ) + (if frame > 10 {
        seq![DrawView::Rect(1 + 4 * cursor, 250, 1, 5, Colors::White)]
    } else {
        seq![]
    }) + seq![DrawView::Text(1, 250, Colors::Black, input)]
}

impl TerminalEngine {
    /// The drawing steps of one frame of the terminal's screen (see
    /// `term_screen`).
    pub fn render(&self) -> (r: Vec<Draw>)
        requires
            self.frame_hash > 10 ==> 4 * self.cursor + 1 <= i32::MAX,
        ensures
            draws_of(r@) == term_screen(logs_of(self.logs@), self.input@, self.cursor as int, self.frame_hash as int),
    {
        let ghost all = logs_of(self.logs@);
        let ghost shown = shown_logs(all);
        let mut out: Vec<Draw> = Vec::new();
        out.push(Draw::Clear(Colors::Gray));
        let n = self.logs.len();
        let start = if n > 38 {
            n - 38
        } else {
            0
        };
        let mut i: usize = start;
        let ghost lines = Seq::new(
            shown.len(),
            |k: int|
                DrawView::Text(
                    1,
                    6 * k + 20,
                    if shown[k].0 {
                        Colors::Maroon
                    } else {
                        Colors::Black
                    },
                    shown[k].1,
                ),
        );
        assert(draws_of(out@) =~= seq![DrawView::Clear(Colors::Gray)] + lines.take(0));
        while i < n
            invariant
                all == logs_of(self.logs@),
                shown == shown_logs(all),
                n == self.logs@.len(),
                start == (if n > 38 { n - 38 } else { 0 }),
                start <= i <= n,
                n - start <= 38,
                lines.len() == n - start,
                forall|k: int| 0 <= k < lines.len() ==> #[trigger] lines[k] == DrawView::Text(
                    1,
                    6 * k + 20,
                    if shown[k].0 {
                        Colors::Maroon
                    } else {
                        Colors::Black
                    },
                    shown[k].1,
                ),
                draws_of(out@) == seq![DrawView::Clear(Colors::Gray)] + lines.take(i - start),
            decreases n - i,
        {
            let k = i - start;
            let y: i32 = 6 * (k as i32) + 20;
            let (color, text) = match &self.logs[i] {
                LogTypes::Error(t) => (Colors::Maroon, t.clone()),
                LogTypes::Info(t) => (Colors::Black, t.clone()),
            };
            assert(shown[k as int] == all[i as int]);
            let ghost before = out@;
            out.push(Draw::Text(1, y, color, text));
            assert(draws_of(out@) =~= draws_of(before).push(lines[k as int]));
            i += 1;
            assert(lines.take(i - start) =~= lines.take(k as int).push(lines[k as int]));
        }
        assert(lines.take(n - start) =~= lines);
        if self.frame_hash > 10 {
            out.push(Draw::Rect(1 + 4 * (self.cursor as i32), 250, 1, 5, Colors::White));
        }
        let input = string_of(&self.input);
        out.push(Draw::Text(1, 250, Colors::Black, input));
        assert(draws_of(out@) =~= term_screen(all, self.input@, self.cursor as int, self.frame_hash as int));
        out
    }
}

} // verus!
