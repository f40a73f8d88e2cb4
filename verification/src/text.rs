use vstd::prelude::*;

verus! {

/// A position in a buffer of lines: `(column, row)`, as the editor stores it.
pub type Pos = (usize, usize);

/// The lines of a `Vec` of lines, each taken by its view.
pub open spec fn lines_of(v: &Vec<Vec<char>>) -> Seq<Seq<char>> {
    Seq::new(v@.len(), |i: int| v@[i]@)
}

/// The text that a sequence of lines stands for: the lines joined by `'\n'`.
pub open spec fn join(ls: Seq<Seq<char>>) -> Seq<char>
    decreases ls.len(),
{
    if ls.len() == 0 {
        Seq::empty()
    } else if ls.len() == 1 {
        ls[0]
    } else {
        join(ls.drop_last()) + seq!['\n'] + ls.last()
    }
}

/// A line holds no line break.
pub open spec fn newline_free(l: Seq<char>) -> bool {
    forall|i: int| 0 <= i < l.len() ==> l[i] != '\n'
}

/// A buffer of lines: at least one line, none with a line break in it.
pub open spec fn lines_wf(ls: Seq<Seq<char>>) -> bool {
    &&& ls.len() >= 1
    &&& forall|i: int| 0 <= i < ls.len() ==> #[trigger] newline_free(ls[i])
}

/// The pieces of `t` between its line breaks (what `str::split('\n')` yields).
pub open spec fn split_lines(t: Seq<char>) -> Seq<Seq<char>>
    decreases t.len(),
{
    if t.len() == 0 {
        seq![Seq::<char>::empty()]
    } else {
        let p = split_lines(t.drop_last());
        if t.last() == '\n' {
            p.push(Seq::<char>::empty())
        } else {
            p.update(p.len() - 1, p.last().push(t.last()))
        }
    }
}

/// `p` names a place in `ls`: an existing row, and a column at most that row's length.
pub open spec fn pos_valid(ls: Seq<Seq<char>>, p: Pos) -> bool {
    p.1 < ls.len() && p.0 <= ls[p.1 as int].len()
}

/// `a` comes no later than `b`, row first, then column.
pub open spec fn pos_le(a: Pos, b: Pos) -> bool {
    a.1 < b.1 || (a.1 == b.1 && a.0 <= b.0)
}

/// The index in `join(ls)` of the place `p`.
pub open spec fn offset(ls: Seq<Seq<char>>, p: Pos) -> int {
    if p.1 == 0 {
        p.0 as int
    } else {
        join(ls.take(p.1 as int)).len() + 1 + p.0
    }
}

/// Where the cursor stands after `text` was written at `start`: behind the
/// text's last piece, on the row that piece lands on.
pub open spec fn end_of_text(text: Seq<char>, start: Pos) -> (int, int) {
    let parts = split_lines(text);
    if parts.len() == 1 {
        (start.0 + parts[0].len(), start.1 as int)
    } else {
        (parts.last().len() as int, start.1 + parts.len() - 1)
    }
}

/// The lines after `text` is written into `ls` at `(col, row)`.
pub open spec fn insert_lines(ls: Seq<Seq<char>>, text: Seq<char>, col: int, row: int) -> Seq<
    Seq<char>,
> {
    let parts = split_lines(text);
    let line = ls[row];
    let first = parts.update(0, line.take(col) + parts[0]);
    let mid = first.update(parts.len() - 1, first[parts.len() - 1] + line.skip(col));
    ls.take(row) + mid + ls.skip(row + 1)
}

/// The lines after the text from `start` up to `end` is removed, as the editor
/// removes it: on one row the columns between; across rows, the start row keeps
/// its part before `start` (all of it if `start` lies past its end), gains the
/// end row's part after `end`, and the rows after it up to the end row go.
pub open spec fn delete_lines(ls: Seq<Seq<char>>, start: Pos, end: Pos) -> Seq<Seq<char>> {
    if start.1 == end.1 {
        let line = ls[start.1 as int];
        ls.update(start.1 as int, line.take(start.0 as int) + line.skip(end.0 as int))
    } else {
        let line = ls[start.1 as int];
        let keep = if start.0 <= line.len() {
            line.take(start.0 as int)
        } else {
            line
        };
        let joined = ls.update(start.1 as int, keep + ls[end.1 as int].skip(end.0 as int));
        joined.take(start.1 + 1) + joined.skip(end.1 + 1)
    }
}

/// The text between `start` and `end` (with `start` no later than `end`), read line by line.
pub open spec fn text_between(ls: Seq<Seq<char>>, start: Pos, end: Pos) -> Seq<char> {
    if start.1 == end.1 {
        ls[start.1 as int].subrange(start.0 as int, end.0 as int)
    } else {
        join(
            seq![ls[start.1 as int].skip(start.0 as int)] + ls.subrange(start.1 + 1, end.1 as int)
                + seq![ls[end.1 as int].take(end.0 as int)],
        )
    }
}

// ---------------------------------------------------------------------------
// Lemmas on `join` and `split_lines`
// ---------------------------------------------------------------------------

/// Joining one more line adds a line break and the line.
pub proof fn lemma_join_push(ls: Seq<Seq<char>>, l: Seq<char>)
    requires
        ls.len() >= 1,
    ensures
        join(ls.push(l)) == join(ls) + seq!['\n'] + l,
{
    assert(ls.push(l).drop_last() =~= ls);
}

/// Joining a concatenation puts one line break between the two joins.
pub proof fn lemma_join_concat(a: Seq<Seq<char>>, b: Seq<Seq<char>>)
    requires
        a.len() >= 1,
        b.len() >= 1,
    ensures
        join(a + b) == join(a) + seq!['\n'] + join(b),
    decreases b.len(),
{
    if b.len() == 1 {
        assert(a + b =~= a.push(b[0]));
        lemma_join_push(a, b[0]);
    } else {
        let b1 = b.drop_last();
        lemma_join_concat(a, b1);
        assert(a + b =~= (a + b1).push(b.last()));
        lemma_join_push(a + b1, b.last());
        assert(b1.push(b.last()) =~= b);
        lemma_join_push(b1, b.last());
        assert(join(a + b) =~= join(a) + seq!['\n'] + join(b));
    }
}

/// Splitting text gives at least one line, none with a break in it, and
/// joining them gives the text back; text without breaks is one line.
pub proof fn lemma_split_basics(t: Seq<char>)
    ensures
        split_lines(t).len() >= 1,
        lines_wf(split_lines(t)),
        join(split_lines(t)) == t,
        split_lines(t).len() == 1 ==> newline_free(t),
        newline_free(t) ==> split_lines(t) == seq![t],
    decreases t.len(),
{
    if t.len() == 0 {
        assert(join(seq![Seq::<char>::empty()]) == Seq::<char>::empty());
    } else {
        let t0 = t.drop_last();
        lemma_split_basics(t0);
        let p = split_lines(t0);
        let c = t.last();
        assert(t0.push(c) =~= t);
        if newline_free(t) {
            assert(newline_free(t0));
            assert(p == seq![t0]);
            assert(c != '\n');
            assert(split_lines(t) =~= seq![t]);
        }
        if c == '\n' {
            let q = p.push(Seq::<char>::empty());
            assert(q == split_lines(t));
            lemma_join_push(p, Seq::<char>::empty());
            assert(join(q) =~= t);
            assert forall|i: int| 0 <= i < q.len() implies #[trigger] newline_free(q[i]) by {
                if i < p.len() {
                    assert(q[i] == p[i]);
                }
            }
            assert(q.len() == 1 ==> newline_free(t)) by {
                assert(q.len() >= 2);
            }
        } else {
            let q = p.update(p.len() - 1, p.last().push(c));
            assert(q == split_lines(t));
            assert forall|i: int| 0 <= i < q.len() implies #[trigger] newline_free(q[i]) by {
                if i < p.len() - 1 {
                    assert(q[i] == p[i]);
                } else {
                    assert(newline_free(p[p.len() - 1]));
                    assert(q[i] == p.last().push(c));
                }
            }
            if p.len() == 1 {
                assert(q =~= seq![p[0].push(c)]);
                assert(join(q) == p[0].push(c));
                assert(join(p) == p[0]);
                assert(join(q) =~= t);
                assert(newline_free(t)) by {
                    assert(t =~= p[0].push(c));
                }
            } else {
                assert(q.drop_last() =~= p.drop_last());
                assert(join(q) == join(q.drop_last()) + seq!['\n'] + q.last());
                assert(join(p) == join(p.drop_last()) + seq!['\n'] + p.last());
                assert(join(q) =~= join(p).push(c));
                assert(join(q) =~= t);
            }
        }
    }
}

// ---------------------------------------------------------------------------
// Executable helpers on lines of characters
// ---------------------------------------------------------------------------

/// The characters of `v` from `from` up to `to`.
pub fn slice_chars(v: &Vec<char>, from: usize, to: usize) -> (r: Vec<char>)
    requires
        from <= to <= v@.len(),
    ensures
        r@ == v@.subrange(from as int, to as int),
{
    let mut r: Vec<char> = Vec::new();
    let mut i = from;
    while i < to
        invariant
            from <= i <= to <= v@.len(),
            r@ == v@.subrange(from as int, i as int),
        decreases to - i,
    {
        r.push(v[i]);
        i += 1;
        assert(r@ =~= v@.subrange(from as int, i as int));
    }
    r
}

/// `a` followed by `b`.
pub fn concat_chars(a: &Vec<char>, b: &Vec<char>) -> (r: Vec<char>)
    ensures
        r@ == a@ + b@,
{
    let mut r: Vec<char> = Vec::new();
    let mut i: usize = 0;
    while i < a.len()
        invariant
            i <= a@.len(),
            r@ == a@.take(i as int),
        decreases a@.len() - i,
    {
        r.push(a[i]);
        i += 1;
        assert(r@ =~= a@.take(i as int));
    }
    let mut j: usize = 0;
    while j < b.len()
        invariant
            j <= b@.len(),
            r@ == a@ + b@.take(j as int),
        decreases b@.len() - j,
    {
        r.push(b[j]);
        j += 1;
        assert(r@ =~= a@ + b@.take(j as int));
    }
    assert(a@.take(a@.len() as int) =~= a@);
    assert(b@.take(b@.len() as int) =~= b@);
    r
}

/// A copy of `v`.
pub fn copy_chars(v: &Vec<char>) -> (r: Vec<char>)
    ensures
        r@ == v@,
{
    let r = slice_chars(v, 0, v.len());
    assert(v@.subrange(0, v@.len() as int) =~= v@);
    r
}

/// The pieces of `t` between its line breaks.
pub fn split_text(t: &Vec<char>) -> (parts: Vec<Vec<char>>)
    ensures
        lines_of(&parts) == split_lines(t@),
{
    let mut parts: Vec<Vec<char>> = Vec::new();
    let mut cur: Vec<char> = Vec::new();
    let mut i: usize = 0;
    assert(t@.take(0) =~= Seq::<char>::empty());
    assert(lines_of(&parts).push(cur@) =~= split_lines(t@.take(0)));
    while i < t.len()
        invariant
            i <= t@.len(),
            lines_of(&parts).push(cur@) == split_lines(t@.take(i as int)),
        decreases t@.len() - i,
    {
        let c = t[i];
        let ghost prev = lines_of(&parts).push(cur@);
        assert(t@.take(i + 1).drop_last() =~= t@.take(i as int));
        assert(t@.take(i + 1).last() == c);
        if c == '\n' {
            let done = cur;
            parts.push(done);
            cur = Vec::new();
            assert(lines_of(&parts).push(cur@) =~= prev.push(Seq::<char>::empty()));
        } else {
            cur.push(c);
            assert(lines_of(&parts).push(cur@) =~= prev.update(prev.len() - 1, prev.last().push(c)));
        }
        i += 1;
    }
    assert(t@.take(t@.len() as int) =~= t@);
    parts.push(cur);
    assert(lines_of(&parts) =~= split_lines(t@));
    parts
}

/// The text of `lines`, joined by `'\n'`.
pub fn join_text(lines: &Vec<Vec<char>>) -> (r: Vec<char>)
    ensures
        r@ == join(lines_of(lines)),
{
    let mut r: Vec<char> = Vec::new();
    if lines.len() == 0 {
        return r;
    }
    r = copy_chars(&lines[0]);
    let mut i: usize = 1;
    assert(lines_of(lines).take(1) =~= seq![lines@[0]@]);
    while i < lines.len()
        invariant
            1 <= i <= lines@.len(),
            r@ == join(lines_of(lines).take(i as int)),
        decreases lines@.len() - i,
    {
        r.push('\n');
        let next = concat_chars(&r, &lines[i]);
        r = next;
        proof {
            let ls = lines_of(lines);
            assert(ls.take(i + 1) =~= ls.take(i as int).push(ls[i as int]));
            lemma_join_push(ls.take(i as int), ls[i as int]);
        }
        i += 1;
    }
    assert(lines_of(lines).take(lines@.len() as int) =~= lines_of(lines));
    r
}

/// Writes `text` into `file` at `(col, row)`, as the editor writes typed or
/// pasted text: its first piece joins the row's part before `col`, its last
/// piece is followed by the row's part after `col`, and the pieces between
/// become rows of their own.
pub fn insert_text(file: &mut Vec<Vec<char>>, text: &Vec<char>, pos: Pos)
    requires
        pos.1 < old(file)@.len(),
        pos.0 <= old(file)@[pos.1 as int]@.len(),
    ensures
        lines_of(final(file)) == insert_lines(lines_of(old(file)), text@, pos.0 as int, pos.1 as int),
{
    let (col, row) = pos;
    let ghost ls = lines_of(file);
    let ghost parts_s = split_lines(text@);
    proof {
        lemma_split_basics(text@);
    }
    let mut parts = split_text(text);
    let k = parts.len();
    let n_rows = file.len();
    let line_len = file[row].len();
    let prefix = slice_chars(&file[row], 0, col);
    let suffix = slice_chars(&file[row], col, line_len);
    let mut tail = file.split_off(row + 1);
    let _old_line = file.pop();
    assert(lines_of(file) =~= ls.take(row as int));
    assert(lines_of(&tail) =~= ls.skip(row + 1));
    let ghost line = ls[row as int];
    let ghost first = parts_s.update(0, line.take(col as int) + parts_s[0]);
    let ghost mid = first.update(parts_s.len() - 1, first[parts_s.len() - 1] + line.skip(col as int));
    let last = parts.pop().unwrap();
    assert(last@ == parts_s[k - 1]);
    if k == 1 {
        assert(suffix@ =~= line.skip(col as int));
        assert(prefix@ =~= line.take(col as int));
        let head = concat_chars(&prefix, &last);
        let whole = concat_chars(&head, &suffix);
        file.push(whole);
        assert(lines_of(file) =~= ls.take(row as int) + mid);
    } else {
        let head = concat_chars(&prefix, &parts[0]);
        assert(prefix@ =~= line.take(col as int));
        assert(head@ == mid[0]);
        file.push(head);
        let mut i: usize = 1;
        assert(lines_of(file) =~= ls.take(row as int) + mid.take(1));
        while i < k - 1
            invariant
                1 <= i <= k - 1,
                k == parts_s.len(),
                k >= 2,
                parts@.len() == k - 1,
                forall|j: int| 0 <= j < k - 1 ==> parts@[j]@ == parts_s[j],
                mid.len() == k,
                forall|j: int| 1 <= j < k - 1 ==> mid[j] == parts_s[j],
                lines_of(file) == ls.take(row as int) + mid.take(i as int),
            decreases k - 1 - i,
        {
            let piece = copy_chars(&parts[i]);
            assert(piece@ == mid[i as int]);
            let ghost before = lines_of(file);
            file.push(piece);
            assert(lines_of(file) =~= before.push(mid[i as int]));
            assert(mid.take(i + 1) =~= mid.take(i as int).push(mid[i as int]));
            i += 1;
            assert(lines_of(file) =~= ls.take(row as int) + mid.take(i as int));
        }
        let end = concat_chars(&last, &suffix);
        assert(suffix@ =~= line.skip(col as int));
        assert(first[k - 1] == parts_s[k - 1]);
        assert(end@ == mid[k - 1]);
        let ghost before = lines_of(file);
        file.push(end);
        assert(lines_of(file) =~= before.push(mid[k - 1]));
        assert(mid.take(k - 1).push(mid[k - 1]) =~= mid);
        assert(mid.take(k as int) =~= mid);
        assert(lines_of(file) =~= ls.take(row as int) + mid);
    }
    let ghost before_tail = lines_of(file);
    file.append(&mut tail);
    assert(lines_of(file) =~= before_tail + ls.skip(row + 1));
}

/// Removes the text from `start` up to `end` from `file`, as the editor does.
pub fn delete_range(file: &mut Vec<Vec<char>>, start: Pos, end: Pos)
    requires
        start.1 <= end.1 < old(file)@.len(),
        start.1 == end.1 ==> start.0 <= end.0 <= old(file)@[end.1 as int]@.len(),
        end.0 <= old(file)@[end.1 as int]@.len(),
    ensures
        lines_of(final(file)) == delete_lines(lines_of(old(file)), start, end),
{
    let ghost ls = lines_of(file);
    if start.1 == end.1 {
        let len = file[start.1].len();
        let a = slice_chars(&file[start.1], 0, start.0);
        let b = slice_chars(&file[start.1], end.0, len);
        let joined = concat_chars(&a, &b);
        file.set(start.1, joined);
        assert(lines_of(file) =~= delete_lines(ls, start, end));
    } else {
        let end_len = file[end.1].len();
        let end_part = slice_chars(&file[end.1], end.0, end_len);
        let start_len = file[start.1].len();
        let keep = if start.0 <= start_len {
            slice_chars(&file[start.1], 0, start.0)
        } else {
            copy_chars(&file[start.1])
        };
        let joined = concat_chars(&keep, &end_part);
        file.set(start.1, joined);
        let ghost j = lines_of(file);
        let n_rows = file.len();
        let mut tail = file.split_off(end.1 + 1);
        file.truncate(start.1 + 1);
        file.append(&mut tail);
        assert(lines_of(file) =~= j.take(start.1 + 1) + j.skip(end.1 + 1));
    }
}

/// The text from `start` up to `end`, read line by line as the editor reads a selection.
pub fn text_in_range(file: &Vec<Vec<char>>, start: Pos, end: Pos) -> (r: Vec<char>)
    requires
        start.1 <= end.1 < file@.len(),
        start.1 == end.1 ==> start.0 <= end.0,
        start.0 <= file@[start.1 as int]@.len(),
        end.0 <= file@[end.1 as int]@.len(),
    ensures
        r@ == text_between(lines_of(file), start, end),
{
    let ghost ls = lines_of(file);
    if start.1 == end.1 {
        slice_chars(&file[start.1], start.0, end.0)
    } else {
        let first_len = file[start.1].len();
        let mut r = slice_chars(&file[start.1], start.0, first_len);
        let ghost pieces = seq![ls[start.1 as int].skip(start.0 as int)] + ls.subrange(
            start.1 + 1,
            end.1 as int,
        ) + seq![ls[end.1 as int].take(end.0 as int)];
        let mut row = start.1 + 1;
        assert(pieces.take(1) =~= seq![ls[start.1 as int].skip(start.0 as int)]);
        while row < end.1
            invariant
                start.1 < row <= end.1 < file@.len(),
                ls == lines_of(file),
                pieces.len() == end.1 - start.1 + 1,
                forall|j: int| 1 <= j < end.1 - start.1 ==> pieces[j] == ls[start.1 + j],
                r@ == join(pieces.take(row - start.1)),
            decreases end.1 - row,
        {
            r.push('\n');
            let next = concat_chars(&r, &file[row]);
            r = next;
            proof {
                let n = row - start.1;
                assert(pieces.take(n + 1) =~= pieces.take(n as int).push(pieces[n as int]));
                lemma_join_push(pieces.take(n as int), pieces[n as int]);
            }
            row += 1;
        }
        r.push('\n');
        let last = slice_chars(&file[end.1], 0, end.0);
        let next = concat_chars(&r, &last);
        proof {
            let n = end.1 - start.1;
            assert(pieces.take(n + 1) =~= pieces.take(n as int).push(pieces[n as int]));
            lemma_join_push(pieces.take(n as int), pieces[n as int]);
            assert(pieces.take(n + 1) =~= pieces);
        }
        next
    }
}

/// Writing text into valid lines at a valid place keeps them valid, adds as
/// many rows as the text has line breaks, leaves the rows before the place as
/// they were, and puts the end of the text at a valid place.
pub proof fn lemma_insert_lines(ls: Seq<Seq<char>>, text: Seq<char>, p: Pos)
    requires
        lines_wf(ls),
        pos_valid(ls, p),
    ensures
        ({
            let col = p.0 as int;
            let row = p.1 as int;
            let r = insert_lines(ls, text, col, row);
            let parts = split_lines(text);
            let e = end_of_text(text, p);
            &&& lines_wf(r)
            &&& r.len() == ls.len() + parts.len() - 1
            &&& forall|i: int| 0 <= i < row ==> r[i] == ls[i]
            &&& forall|i: int| row + parts.len() <= i < r.len() ==> r[i] == ls[i - parts.len() + 1]
            &&& row <= e.1 < r.len()
            &&& 0 <= e.0 <= r[e.1].len()
            &&& e.1 == row ==> r[row] == ls[row].take(col) + text + ls[row].skip(col)
            &&& e.1 == row ==> newline_free(text)
        }),
{
    let col = p.0 as int;
    let row = p.1 as int;
    lemma_split_basics(text);
    let parts = split_lines(text);
    let k = parts.len();
    let line = ls[row];
    let first = parts.update(0, line.take(col) + parts[0]);
    let mid = first.update(k - 1, first[k - 1] + line.skip(col));
    let r = insert_lines(ls, text, col, row);
    assert(r == ls.take(row) + mid + ls.skip(row + 1));
    assert(newline_free(line));
    assert forall|i: int| 0 <= i < r.len() implies #[trigger] newline_free(r[i]) by {
        if i < row {
            assert(r[i] == ls[i]);
        } else if i < row + k {
            let j = i - row;
            assert(r[i] == mid[j]);
            assert(newline_free(parts[j]));
            if j == 0 && k == 1 {
                assert(mid[j] == line.take(col) + parts[0] + line.skip(col));
            } else if j == 0 {
                assert(mid[j] == line.take(col) + parts[0]);
            } else if j == k - 1 {
                assert(mid[j] == parts[j] + line.skip(col));
            } else {
                assert(mid[j] == parts[j]);
            }
        } else {
            assert(r[i] == ls[i - k + 1]);
        }
    }
    if k == 1 {
        assert(r[row] == line.take(col) + parts[0] + line.skip(col));
        assert(parts[0] == join(parts));
    } else {
        assert(r[row + k - 1] == mid[k - 1]);
    }
}

/// Removing text between valid places keeps lines valid, keeps the start valid,
/// leaves the rows before the start as they were, and takes away as many rows
/// as the two places are apart.
pub proof fn lemma_delete_lines(ls: Seq<Seq<char>>, start: Pos, end: Pos)
    requires
        lines_wf(ls),
        start.1 <= end.1 < ls.len(),
        start.1 == end.1 ==> start.0 <= end.0 <= ls[end.1 as int].len(),
        end.0 <= ls[end.1 as int].len(),
    ensures
        ({
            let r = delete_lines(ls, start, end);
            &&& lines_wf(r)
            &&& r.len() == ls.len() - (end.1 - start.1)
            &&& forall|i: int| 0 <= i < start.1 ==> r[i] == ls[i]
            &&& start.0 <= ls[start.1 as int].len() ==> pos_valid(r, start)
        }),
{
    let r = delete_lines(ls, start, end);
    let line = ls[start.1 as int];
    assert(newline_free(line));
    assert(newline_free(ls[end.1 as int]));
    assert forall|i: int| 0 <= i < r.len() implies #[trigger] newline_free(r[i]) by {
        if i < start.1 {
            assert(r[i] == ls[i]);
        } else if i == start.1 {
        } else {
            assert(r[i] == ls[i + (end.1 - start.1)]);
        }
    }
}

/// Removing a line break between two rows.
pub proof fn lemma_merge_rows(ls: Seq<Seq<char>>, row: int)
    requires
        lines_wf(ls),
        1 <= row < ls.len(),
    ensures
        lines_wf(ls.update(row - 1, ls[row - 1] + ls[row]).remove(row)),
        ls.update(row - 1, ls[row - 1] + ls[row]).remove(row).len() == ls.len() - 1,
{
    let r = ls.update(row - 1, ls[row - 1] + ls[row]).remove(row);
    assert(newline_free(ls[row - 1]));
    assert(newline_free(ls[row]));
    assert forall|i: int| 0 <= i < r.len() implies #[trigger] newline_free(r[i]) by {
        if i < row - 1 {
            assert(r[i] == ls[i]);
        } else if i == row - 1 {
        } else {
            assert(r[i] == ls[i + 1]);
        }
    }
}

/// Splitting a row in two at a valid column.
pub proof fn lemma_split_row(ls: Seq<Seq<char>>, col: int, row: int)
    requires
        lines_wf(ls),
        0 <= row < ls.len(),
        0 <= col <= ls[row].len(),
    ensures
        lines_wf(ls.update(row, ls[row].take(col)).insert(row + 1, ls[row].skip(col))),
{
    let r = ls.update(row, ls[row].take(col)).insert(row + 1, ls[row].skip(col));
    assert(newline_free(ls[row]));
    assert forall|i: int| 0 <= i < r.len() implies #[trigger] newline_free(r[i]) by {
        if i < row {
            assert(r[i] == ls[i]);
        } else if i == row || i == row + 1 {
        } else {
            assert(r[i] == ls[i - 1]);
        }
    }
}

/// Removing one character from a row.
pub proof fn lemma_remove_char(ls: Seq<Seq<char>>, col: int, row: int)
    requires
        lines_wf(ls),
        0 <= row < ls.len(),
        0 <= col < ls[row].len(),
    ensures
        lines_wf(ls.update(row, ls[row].remove(col))),
{
    let r = ls.update(row, ls[row].remove(col));
    assert(newline_free(ls[row]));
    assert forall|i: int| 0 <= i < r.len() implies #[trigger] newline_free(r[i]) by {
        if i != row {
            assert(r[i] == ls[i]);
        }
    }
}

/// Removing text right where it was written, up to where it ends, gives
/// back the lines as they were.
pub proof fn lemma_insert_then_delete(ls: Seq<Seq<char>>, text: Seq<char>, p: Pos)
    requires
        lines_wf(ls),
        pos_valid(ls, p),
        end_of_text(text, p).0 <= usize::MAX,
        end_of_text(text, p).1 <= usize::MAX,
    ensures
        ({
            let e = end_of_text(text, p);
            delete_lines(insert_lines(ls, text, p.0 as int, p.1 as int), p, (e.0 as usize, e.1 as usize))
                == ls
        }),
{
    lemma_split_basics(text);
    let col = p.0 as int;
    let row = p.1 as int;
    let parts = split_lines(text);
    let k = parts.len();
    let line = ls[row];
    let first = parts.update(0, line.take(col) + parts[0]);
    let mid = first.update(k - 1, first[k - 1] + line.skip(col));
    let r = insert_lines(ls, text, col, row);
    assert(r == ls.take(row) + mid + ls.skip(row + 1));
    let e = end_of_text(text, p);
    let ep: Pos = (e.0 as usize, e.1 as usize);
    let d = delete_lines(r, p, ep);
    if k == 1 {
        assert(r[row] == line.take(col) + parts[0] + line.skip(col));
        assert(r[row].take(col) =~= line.take(col));
        assert(r[row].skip(col + parts[0].len()) =~= line.skip(col));
        assert(line.take(col) + line.skip(col) =~= line);
        assert(d =~= ls);
    } else {
        assert(r[row] == line.take(col) + parts[0]);
        assert(r[row + k - 1] == parts[k - 1] + line.skip(col));
        assert(r[row].take(col) =~= line.take(col));
        assert(r[row + k - 1].skip(parts[k - 1].len() as int) =~= line.skip(col));
        assert(line.take(col) + line.skip(col) =~= line);
        let joined = r.update(row, line.take(col) + line.skip(col));
        assert(d == joined.take(row + 1) + joined.skip(row + k));
        assert(d =~= ls);
    }
}

/// Text written at `p` is read back between `p` and where it ends.
pub proof fn lemma_insert_then_read(ls: Seq<Seq<char>>, text: Seq<char>, p: Pos)
    requires
        lines_wf(ls),
        pos_valid(ls, p),
        end_of_text(text, p).0 <= usize::MAX,
        end_of_text(text, p).1 <= usize::MAX,
    ensures
        ({
            let e = end_of_text(text, p);
            text_between(insert_lines(ls, text, p.0 as int, p.1 as int), p, (e.0 as usize, e.1 as usize))
                == text
        }),
{
    lemma_split_basics(text);
    let col = p.0 as int;
    let row = p.1 as int;
    let parts = split_lines(text);
    let k = parts.len();
    let line = ls[row];
    let first = parts.update(0, line.take(col) + parts[0]);
    let mid = first.update(k - 1, first[k - 1] + line.skip(col));
    let r = insert_lines(ls, text, col, row);
    assert(r == ls.take(row) + mid + ls.skip(row + 1));
    let e = end_of_text(text, p);
    if k == 1 {
        assert(r[row] == line.take(col) + parts[0] + line.skip(col));
        assert(r[row].subrange(col, col + parts[0].len()) =~= parts[0]);
        assert(join(parts) == parts[0]);
    } else {
        assert(r[row] == line.take(col) + parts[0]);
        assert(r[row + k - 1] == parts[k - 1] + line.skip(col));
        let pieces = seq![r[row].skip(col)] + r.subrange(row + 1, row + k - 1) + seq![
            r[row + k - 1].take(parts[k - 1].len() as int),
        ];
        assert(r[row].skip(col) =~= parts[0]);
        assert(r[row + k - 1].take(parts[k - 1].len() as int) =~= parts[k - 1]);
        assert forall|i: int| 0 <= i < k implies pieces[i] == parts[i] by {
            if i == 0 {
            } else if i == k - 1 {
            } else {
                assert(pieces[i] == r.subrange(row + 1, row + k - 1)[i - 1]);
                assert(r[row + i] == mid[i]);
            }
        }
        assert(pieces =~= parts);
    }
}

/// Selecting from the very start to the very end reads the whole text.
pub proof fn lemma_text_between_all(ls: Seq<Seq<char>>)
    requires
        ls.len() >= 1,
        ls.len() - 1 <= usize::MAX,
        ls[ls.len() - 1].len() <= usize::MAX,
    ensures
        text_between(ls, (0, 0), (ls[ls.len() - 1].len() as usize, (ls.len() - 1) as usize)) == join(ls),
{
    let n = ls.len();
    if n == 1 {
        assert(ls[0].subrange(0, ls[0].len() as int) =~= ls[0]);
    } else {
        let pieces = seq![ls[0].skip(0)] + ls.subrange(1, n - 1) + seq![ls[n - 1].take(ls[n - 1].len() as int)];
        assert(ls[0].skip(0) =~= ls[0]);
        assert(ls[n - 1].take(ls[n - 1].len() as int) =~= ls[n - 1]);
        assert forall|i: int| 0 <= i < n implies pieces[i] == ls[i] by {
            if i == 0 {
            } else if i == n - 1 {
            } else {
                assert(pieces[i] == ls.subrange(1, n - 1)[i - 1]);
            }
        }
        assert(pieces =~= ls);
    }
}

/// Writing no text changes nothing.
pub proof fn lemma_insert_empty(ls: Seq<Seq<char>>, p: Pos)
    requires
        pos_valid(ls, p),
    ensures
        insert_lines(ls, Seq::empty(), p.0 as int, p.1 as int) == ls,
{
    let col = p.0 as int;
    let row = p.1 as int;
    lemma_split_basics(Seq::<char>::empty());
    assert(split_lines(Seq::<char>::empty()) =~= seq![Seq::<char>::empty()]);
    let line = ls[row];
    assert(line.take(col) + Seq::<char>::empty() + line.skip(col) =~= line);
    assert(insert_lines(ls, Seq::empty(), col, row) =~= ls);
}

/// A line break and then a line without breaks add that line to the pieces.
pub proof fn lemma_split_push_line(t: Seq<char>, l: Seq<char>)
    requires
        newline_free(l),
    ensures
        split_lines(t + seq!['\n'] + l) == split_lines(t).push(l),
    decreases l.len(),
{
    let s = t + seq!['\n'] + l;
    if l.len() == 0 {
        assert(s.drop_last() =~= t);
        assert(s.last() == '\n');
        assert(l =~= Seq::<char>::empty());
    } else {
        let l0 = l.drop_last();
        assert(newline_free(l0));
        lemma_split_push_line(t, l0);
        assert(s.drop_last() =~= t + seq!['\n'] + l0);
        assert(s.last() == l.last());
        assert(l.last() != '\n');
        let p = split_lines(t).push(l0);
        assert(l0.push(l.last()) =~= l);
        assert(p.last() == l0);
        assert(p.update(p.len() - 1, p.last().push(l.last())) =~= split_lines(t).push(l));
    }
}

/// Lines without breaks, joined and split again, come back.
pub proof fn lemma_split_join(ps: Seq<Seq<char>>)
    requires
        ps.len() >= 1,
        forall|i: int| 0 <= i < ps.len() ==> #[trigger] newline_free(ps[i]),
    ensures
        split_lines(join(ps)) == ps,
    decreases ps.len(),
{
    if ps.len() == 1 {
        lemma_split_basics(ps[0]);
        assert(seq![ps[0]] =~= ps);
    } else {
        let p0 = ps.drop_last();
        assert forall|i: int| 0 <= i < p0.len() implies #[trigger] newline_free(p0[i]) by {
            assert(p0[i] == ps[i]);
        }
        lemma_split_join(p0);
        assert(newline_free(ps[ps.len() - 1]));
        lemma_split_push_line(join(p0), ps.last());
        assert(p0.push(ps.last()) =~= ps);
    }
}

/// The text between two places, written back where it was taken out, gives
/// back the lines; written there, it ends where it was read up to.
pub proof fn lemma_delete_then_insert(ls: Seq<Seq<char>>, a: Pos, b: Pos)
    requires
        lines_wf(ls),
        pos_valid(ls, a),
        pos_valid(ls, b),
        pos_le(a, b),
    ensures
        insert_lines(delete_lines(ls, a, b), text_between(ls, a, b), a.0 as int, a.1 as int) == ls,
        end_of_text(text_between(ls, a, b), a) == (b.0 as int, b.1 as int),
{
    let t = text_between(ls, a, b);
    let d = delete_lines(ls, a, b);
    let r0 = a.1 as int;
    let r1 = b.1 as int;
    let c0 = a.0 as int;
    let c1 = b.0 as int;
    let r = insert_lines(d, t, c0, r0);
    if r0 == r1 {
        let line = ls[r0];
        assert(newline_free(line));
        assert(newline_free(t)) by {
            assert forall|i: int| 0 <= i < t.len() implies t[i] != '\n' by {
                assert(t[i] == line[c0 + i]);
            }
        }
        lemma_split_basics(t);
        let dl = line.take(c0) + line.skip(c1);
        assert(d[r0] == dl);
        assert(dl.take(c0) =~= line.take(c0));
        assert(dl.skip(c0) =~= line.skip(c1));
        assert(line.take(c0) + t + line.skip(c1) =~= line);
        assert(r =~= ls);
    } else {
        let la = ls[r0];
        let lb = ls[r1];
        let k = r1 - r0 + 1;
        let pieces = seq![la.skip(c0)] + ls.subrange(r0 + 1, r1) + seq![lb.take(c1)];
        assert(pieces.len() == k);
        assert forall|i: int| 0 <= i < pieces.len() implies #[trigger] newline_free(pieces[i]) by {
            if i == 0 {
                assert(newline_free(la));
                assert forall|j: int| 0 <= j < pieces[i].len() implies pieces[i][j] != '\n' by {
                    assert(pieces[i][j] == la[c0 + j]);
                }
            } else if i == k - 1 {
                assert(newline_free(lb));
                assert forall|j: int| 0 <= j < pieces[i].len() implies pieces[i][j] != '\n' by {
                    assert(pieces[i][j] == lb[j]);
                }
            } else {
                assert(pieces[i] == ls[r0 + i]);
                assert(newline_free(ls[r0 + i]));
            }
        }
        lemma_split_join(pieces);
        assert(split_lines(t) == pieces);
        let keep = la.take(c0);
        let joined = ls.update(r0, keep + lb.skip(c1));
        assert(d == joined.take(r0 + 1) + joined.skip(r1 + 1));
        assert(d[r0] == keep + lb.skip(c1));
        assert(d[r0].take(c0) =~= keep);
        assert(d[r0].skip(c0) =~= lb.skip(c1));
        let first = pieces.update(0, d[r0].take(c0) + pieces[0]);
        let mid = first.update(k - 1, first[k - 1] + d[r0].skip(c0));
        assert(keep + la.skip(c0) =~= la);
        assert(lb.take(c1) + lb.skip(c1) =~= lb);
        assert(mid[0] == la);
        assert(mid[k - 1] == lb);
        assert(r == d.take(r0) + mid + d.skip(r0 + 1));
        assert(r.len() == ls.len());
        assert forall|i: int| 0 <= i < ls.len() implies r[i] == ls[i] by {
            if i < r0 {
                assert(r[i] == d[i]);
                assert(d[i] == joined[i]);
            } else if i < r0 + k {
                assert(r[i] == mid[i - r0]);
                if i != r0 && i != r1 {
                    assert(mid[i - r0] == pieces[i - r0]);
                    assert(pieces[i - r0] == ls.subrange(r0 + 1, r1)[i - r0 - 1]);
                }
            } else {
                assert(r[i] == d[i - k + 1]);
                assert(d[i - k + 1] == joined[i]);
            }
        }
        assert(r =~= ls);
    }
}

} // verus!
