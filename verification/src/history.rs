use vstd::prelude::*;

use crate::text::{copy_chars, Pos};

verus! {

/// One edit of a file, enough to undo and redo it: the text it removed and
/// where, the text it wrote and where, and the cursor before and after.
pub struct Change {
    pub deleted_text: Vec<char>,
    pub deleted_start: Pos,
    pub added_text: Vec<char>,
    pub added_start: Pos,
    pub cursor_before: Pos,
    pub cursor_after: Pos,
}

/// A `Change` with its texts taken as sequences of characters.
pub struct ChangeView {
    pub deleted_text: Seq<char>,
    pub deleted_start: Pos,
    pub added_text: Seq<char>,
    pub added_start: Pos,
    pub cursor_before: Pos,
    pub cursor_after: Pos,
}

impl View for Change {
    type V = ChangeView;

    open spec fn view(&self) -> ChangeView {
        ChangeView {
            deleted_text: self.deleted_text@,
            deleted_start: self.deleted_start,
            added_text: self.added_text@,
            added_start: self.added_start,
            cursor_before: self.cursor_before,
            cursor_after: self.cursor_after,
        }
    }
}

impl Change {
    /// A copy of this change.
    pub fn duplicate(&self) -> (r: Change)
        ensures
            r@ == self@,
    {
        Change {
            deleted_text: copy_chars(&self.deleted_text),
            deleted_start: self.deleted_start,
            added_text: copy_chars(&self.added_text),
            added_start: self.added_start,
            cursor_before: self.cursor_before,
            cursor_after: self.cursor_after,
        }
    }
}

/// The changes kept for one file, the latest last.
pub struct FileHistory {
    pub name: String,
    pub changes: Vec<Change>,
}

/// The changes of a stack, each by its view.
pub open spec fn changes_of(v: Seq<Change>) -> Seq<ChangeView> {
    Seq::new(v.len(), |i: int| v[i]@)
}

/// A history by file: each entry a file's name and its stack of changes.
pub open spec fn histories_of(v: Seq<FileHistory>) -> Seq<(Seq<char>, Seq<ChangeView>)> {
    Seq::new(v.len(), |i: int| (v[i].name@, changes_of(v[i].changes@)))
}

/// The stack kept for `name`: that of its first entry, or nothing.
pub open spec fn lookup(h: Seq<(Seq<char>, Seq<ChangeView>)>, name: Seq<char>) -> Seq<ChangeView>
    decreases h.len(),
{
    if h.len() == 0 {
        Seq::empty()
    } else if h[0].0 == name {
        h[0].1
    } else {
        lookup(h.drop_first(), name)
    }
}

/// Whether `name` has an entry, and the first index of one.
pub open spec fn first_entry(h: Seq<(Seq<char>, Seq<ChangeView>)>, name: Seq<char>, i: int) -> bool {
    &&& 0 <= i < h.len()
    &&& h[i].0 == name
    &&& forall|j: int| 0 <= j < i ==> h[j].0 != name
}

/// The history with `name`'s stack set to `stack`: its first entry updated,
/// or a new entry at the end when it has none.
pub open spec fn store(
    h: Seq<(Seq<char>, Seq<ChangeView>)>,
    name: Seq<char>,
    stack: Seq<ChangeView>,
) -> Seq<(Seq<char>, Seq<ChangeView>)> {
    if exists|i: int| first_entry(h, name, i) {
        h.update(choose|i: int| first_entry(h, name, i), (name, stack))
    } else {
        h.push((name, stack))
    }
}

/// The history with `name`'s stack emptied, if it has one.
pub open spec fn forget(h: Seq<(Seq<char>, Seq<ChangeView>)>, name: Seq<char>) -> Seq<
    (Seq<char>, Seq<ChangeView>),
> {
    if exists|i: int| first_entry(h, name, i) {
        h.update(choose|i: int| first_entry(h, name, i), (name, Seq::<ChangeView>::empty()))
    } else {
        h
    }
}

/// Entries of other names before `i` do not change what a name looks up.
pub proof fn lemma_lookup_skip(h: Seq<(Seq<char>, Seq<ChangeView>)>, name: Seq<char>, i: int)
    requires
        0 <= i <= h.len(),
        forall|j: int| 0 <= j < i ==> h[j].0 != name,
    ensures
        lookup(h, name) == lookup(h.skip(i), name),
    decreases i,
{
    if i > 0 {
        lemma_lookup_skip(h.drop_first(), name, i - 1);
        assert(h.drop_first().skip(i - 1) =~= h.skip(i));
    } else {
        assert(h.skip(0) =~= h);
    }
}

/// A name has one first entry.
pub proof fn lemma_first_entry_unique(h: Seq<(Seq<char>, Seq<ChangeView>)>, name: Seq<char>, i: int, k: int)
    requires
        first_entry(h, name, i),
        first_entry(h, name, k),
    ensures
        i == k,
{
}

/// A name with no entry looks up an empty stack.
pub proof fn lemma_lookup_absent(h: Seq<(Seq<char>, Seq<ChangeView>)>, name: Seq<char>)
    requires
        forall|j: int| 0 <= j < h.len() ==> h[j].0 != name,
    ensures
        lookup(h, name) == Seq::<ChangeView>::empty(),
{
    lemma_lookup_skip(h, name, h.len() as int);
}

/// A name looks up the stack of its first entry.
pub proof fn lemma_lookup_first(h: Seq<(Seq<char>, Seq<ChangeView>)>, name: Seq<char>, i: int)
    requires
        first_entry(h, name, i),
    ensures
        lookup(h, name) == h[i].1,
{
    lemma_lookup_skip(h, name, i);
}

/// Reading back a stored stack gives it; other names keep theirs.
pub proof fn lemma_lookup_store(
    h: Seq<(Seq<char>, Seq<ChangeView>)>,
    name: Seq<char>,
    stack: Seq<ChangeView>,
    other: Seq<char>,
)
    ensures
        lookup(store(h, name, stack), name) == stack,
        other != name ==> lookup(store(h, name, stack), other) == lookup(h, other),
    decreases h.len(),
{
    if h.len() == 0 {
        assert(!exists|i: int| first_entry(h, name, i));
        let s = h.push((name, stack));
        assert(s.drop_first() =~= Seq::<(Seq<char>, Seq<ChangeView>)>::empty());
        assert(lookup(s.drop_first(), other) == Seq::<ChangeView>::empty());
        assert(other != name ==> lookup(s, other) == lookup(s.drop_first(), other));
    } else if h[0].0 == name {
        assert(first_entry(h, name, 0));
        let i = choose|i: int| first_entry(h, name, i);
        lemma_first_entry_unique(h, name, i, 0);
        let s = store(h, name, stack);
        assert(s.drop_first() =~= h.drop_first());
        assert(s[0] == (name, stack));
        assert(other != name ==> lookup(s, other) == lookup(s.drop_first(), other));
        assert(other != name ==> lookup(h, other) == lookup(h.drop_first(), other));
    } else {
        let t = h.drop_first();
        lemma_lookup_store(t, name, stack, other);
        if exists|i: int| first_entry(h, name, i) {
            let i = choose|i: int| first_entry(h, name, i);
            assert(first_entry(t, name, i - 1));
            let k = choose|k: int| first_entry(t, name, k);
            lemma_first_entry_unique(t, name, i - 1, k);
            assert(store(h, name, stack).drop_first() =~= store(t, name, stack));
            assert(store(h, name, stack)[0] == h[0]);
        } else {
            assert(!exists|k: int| first_entry(t, name, k)) by {
                if exists|k: int| first_entry(t, name, k) {
                    let k = choose|k: int| first_entry(t, name, k);
                    assert forall|j: int| 0 <= j < k + 1 implies h[j].0 != name by {
                        if j > 0 {
                            assert(h[j] == t[j - 1]);
                        }
                    }
                    assert(first_entry(h, name, k + 1));
                }
            }
            assert(store(h, name, stack).drop_first() =~= store(t, name, stack));
            assert(store(h, name, stack)[0] == h[0]);
        }
    }
}

/// An emptied stack reads back empty; other names keep theirs.
pub proof fn lemma_lookup_forget(h: Seq<(Seq<char>, Seq<ChangeView>)>, name: Seq<char>, other: Seq<char>)
    ensures
        lookup(forget(h, name), name) == Seq::<ChangeView>::empty(),
        other != name ==> lookup(forget(h, name), other) == lookup(h, other),
{
    if exists|i: int| first_entry(h, name, i) {
        assert(forget(h, name) == store(h, name, Seq::<ChangeView>::empty()));
        lemma_lookup_store(h, name, Seq::<ChangeView>::empty(), other);
    } else {
        assert forall|j: int| 0 <= j < h.len() implies h[j].0 != name by {
            if h[j].0 == name {
                let k = first_named(h, name, j);
                assert(first_entry(h, name, k));
            }
        }
        lemma_lookup_absent(h, name);
    }
}

/// Some entry at or before `j` is the first one named `name`.
proof fn first_named(h: Seq<(Seq<char>, Seq<ChangeView>)>, name: Seq<char>, j: int) -> (k: int)
    requires
        0 <= j < h.len(),
        h[j].0 == name,
    ensures
        first_entry(h, name, k),
    decreases j,
{
    if exists|m: int| 0 <= m < j && h[m].0 == name {
        let m = choose|m: int| 0 <= m < j && h[m].0 == name;
        first_named(h, name, m)
    } else {
        j
    }
}

/// The index of the first entry named `name`, if any.
fn find_entry(h: &Vec<FileHistory>, name: &String) -> (r: Option<usize>)
    ensures
        match r {
            Some(i) => first_entry(histories_of(h@), name@, i as int),
            None => forall|j: int| 0 <= j < h@.len() ==> h@[j].name@ != name@,
        },
{
    let mut i: usize = 0;
    while i < h.len()
        invariant
            i <= h@.len(),
            forall|j: int| 0 <= j < i ==> h@[j].name@ != name@,
        decreases h@.len() - i,
    {
        if h[i].name == *name {
            return Some(i);
        }
        i += 1;
    }
    None
}

/// `None` when `h` has an entry named `name`; otherwise that no entry has it.
proof fn lemma_no_entry(h: Seq<(Seq<char>, Seq<ChangeView>)>, name: Seq<char>)
    requires
        forall|j: int| 0 <= j < h.len() ==> h[j].0 != name,
    ensures
        !exists|i: int| first_entry(h, name, i),
{
}

/// The stack of `name`, each change by its view.
pub fn stack_len(h: &Vec<FileHistory>, name: &String) -> (r: usize)
    ensures
        r == lookup(histories_of(h@), name@).len(),
{
    match find_entry(h, name) {
        Some(i) => {
            proof {
                lemma_lookup_first(histories_of(h@), name@, i as int);
            }
            h[i].changes.len()
        },
        None => {
            proof {
                lemma_lookup_absent(histories_of(h@), name@);
            }
            0
        },
    }
}

/// Puts `change` on top of `name`'s stack.
pub fn push_change(h: &mut Vec<FileHistory>, name: &String, change: Change)
    ensures
        histories_of(final(h)@) == store(
            histories_of(old(h)@),
            name@,
            lookup(histories_of(old(h)@), name@).push(change@),
        ),
{
    let ghost hv = histories_of(h@);
    let ghost cv = change@;
    match find_entry(h, name) {
        Some(i) => {
            proof {
                lemma_lookup_first(hv, name@, i as int);
                let k = choose|k: int| first_entry(hv, name@, k);
                lemma_first_entry_unique(hv, name@, i as int, k);
            }
            let mut entry = h.remove(i);
            entry.changes.push(change);
            assert(changes_of(entry.changes@) =~= lookup(hv, name@).push(cv));
            h.insert(i, entry);
            assert(histories_of(h@) =~= store(hv, name@, lookup(hv, name@).push(cv)));
        },
        None => {
            proof {
                lemma_lookup_absent(hv, name@);
                lemma_no_entry(hv, name@);
            }
            let mut changes: Vec<Change> = Vec::new();
            changes.push(change);
            let entry = FileHistory { name: name.clone(), changes };
            assert(changes_of(entry.changes@) =~= Seq::<ChangeView>::empty().push(cv));
            h.push(entry);
            assert(histories_of(h@) =~= store(hv, name@, lookup(hv, name@).push(cv)));
        },
    }
}

/// Takes the top change off `name`'s stack, if it has one.
pub fn pop_change(h: &mut Vec<FileHistory>, name: &String) -> (r: Option<Change>)
    ensures
        ({
            let st = lookup(histories_of(old(h)@), name@);
            match r {
                Some(c) => st.len() > 0 && c@ == st.last() && histories_of(final(h)@) == store(
                    histories_of(old(h)@),
                    name@,
                    st.drop_last(),
                ),
                None => st.len() == 0 && final(h)@ == old(h)@,
            }
        }),
{
    let ghost hv = histories_of(h@);
    match find_entry(h, name) {
        Some(i) => {
            proof {
                lemma_lookup_first(hv, name@, i as int);
                let k = choose|k: int| first_entry(hv, name@, k);
                lemma_first_entry_unique(hv, name@, i as int, k);
            }
            if h[i].changes.len() == 0 {
                return None;
            }
            let mut entry = h.remove(i);
            let c = entry.changes.pop().unwrap();
            assert(changes_of(entry.changes@) =~= lookup(hv, name@).drop_last());
            h.insert(i, entry);
            assert(histories_of(h@) =~= store(hv, name@, lookup(hv, name@).drop_last()));
            Some(c)
        },
        None => {
            proof {
                lemma_lookup_absent(hv, name@);
            }
            None
        },
    }
}

/// Empties `name`'s stack.
pub fn clear_stack(h: &mut Vec<FileHistory>, name: &String)
    ensures
        histories_of(final(h)@) == forget(histories_of(old(h)@), name@),
{
    let ghost hv = histories_of(h@);
    match find_entry(h, name) {
        Some(i) => {
            proof {
                let k = choose|k: int| first_entry(hv, name@, k);
                lemma_first_entry_unique(hv, name@, i as int, k);
            }
            let mut entry = h.remove(i);
            entry.changes = Vec::new();
            assert(changes_of(entry.changes@) =~= Seq::<ChangeView>::empty());
            h.insert(i, entry);
            assert(histories_of(h@) =~= forget(hv, name@));
        },
        None => {
            proof {
                lemma_no_entry(hv, name@);
            }
            assert(histories_of(h@) =~= forget(hv, name@));
        },
    }
}

/// The top change of `name`'s stack, if it has one.
pub fn top_change<'a>(h: &'a Vec<FileHistory>, name: &String) -> (r: Option<&'a Change>)
    ensures
        ({
            let st = lookup(histories_of(h@), name@);
            match r {
                Some(c) => st.len() > 0 && c@ == st.last(),
                None => st.len() == 0,
            }
        }),
{
    match find_entry(h, name) {
        Some(i) => {
            proof {
                lemma_lookup_first(histories_of(h@), name@, i as int);
            }
            let n = h[i].changes.len();
            if n == 0 {
                None
            } else {
                Some(&h[i].changes[n - 1])
            }
        },
        None => {
            proof {
                lemma_lookup_absent(histories_of(h@), name@);
            }
            None
        },
    }
}

} // verus!
