use vstd::prelude::*;

use crate::editor::{EditorView, IDEEngine};
use crate::text::{lemma_split_basics, split_lines, split_text, Pos};
use crate::editor::{chars_of, string_of};
use crate::terminal::{ends_with, ends_with_chars};

verus! {

// ---------------------------------------------------------------------------
// The editor's list of script files and their modification times
// ---------------------------------------------------------------------------

/// The time recorded for `name`: at its last entry.
pub open spec fn time_of(l: Seq<(Seq<char>, i64)>, name: Seq<char>) -> Option<i64>
    decreases l.len(),
{
    if l.len() == 0 {
        None
    } else if l.last().0 == name {
        Some(l.last().1)
    } else {
        time_of(l.drop_last(), name)
    }
}

/// Each name has at most one entry.
pub open spec fn names_unique(l: Seq<(Seq<char>, i64)>) -> bool {
    forall|i: int, j: int| 0 <= i < j < l.len() ==> l[i].0 != l[j].0
}

/// The entries, each name by its view.
pub open spec fn entries_of(v: Seq<(String, i64)>) -> Seq<(Seq<char>, i64)> {
    Seq::new(v.len(), |i: int| (v[i].0@, v[i].1))
}

/// The listing taken in order into the recorded times: each file's time is
/// set, and a change is noted whenever a file was missing or had another time.
pub open spec fn listing_changes(l: Seq<(Seq<char>, i64)>, listing: Seq<(Seq<char>, i64)>) -> bool
    decreases listing.len(),
{
    if listing.len() == 0 {
        false
    } else {
        let before = listing.drop_last();
        listing_changes(l, before) || time_of(l + before, listing.last().0) != Some(listing.last().1)
    }
}

/// A name's time in two listings one after the other: from the second if it has one.
proof fn lemma_time_of_concat(a: Seq<(Seq<char>, i64)>, b: Seq<(Seq<char>, i64)>, name: Seq<char>)
    ensures
        time_of(a + b, name) == match time_of(b, name) {
            Some(t) => Some(t),
            None => time_of(a, name),
        },
    decreases b.len(),
{
    if b.len() == 0 {
        assert(a + b =~= a);
    } else {
        assert((a + b).drop_last() =~= a + b.drop_last());
        lemma_time_of_concat(a, b.drop_last(), name);
    }
}

/// With each name once, an entry's name has that entry's time.
proof fn lemma_time_of_index(l: Seq<(Seq<char>, i64)>, i: int)
    requires
        names_unique(l),
        0 <= i < l.len(),
    ensures
        time_of(l, l[i].0) == Some(l[i].1),
    decreases l.len(),
{
    if i < l.len() - 1 {
        assert(l.drop_last()[i] == l[i]);
        lemma_time_of_index(l.drop_last(), i);
    }
}

/// A name with no entry has no time.
proof fn lemma_time_of_absent(l: Seq<(Seq<char>, i64)>, name: Seq<char>)
    requires
        forall|i: int| 0 <= i < l.len() ==> l[i].0 != name,
    ensures
        time_of(l, name) is None,
    decreases l.len(),
{
    if l.len() > 0 {
        lemma_time_of_absent(l.drop_last(), name);
    }
}

/// A name with a time has an entry with that time.
proof fn lemma_time_of_some(l: Seq<(Seq<char>, i64)>, name: Seq<char>)
    requires
        time_of(l, name) is Some,
    ensures
        exists|i: int| 0 <= i < l.len() && l[i].0 == name && l[i].1 == time_of(l, name).unwrap(),
    decreases l.len(),
{
    if l.last().0 != name {
        lemma_time_of_some(l.drop_last(), name);
        let i = choose|i: int|
            0 <= i < l.drop_last().len() && l.drop_last()[i].0 == name && l.drop_last()[i].1 == time_of(
                l.drop_last(),
                name,
            ).unwrap();
        assert(l[i] == l.drop_last()[i]);
    } else {
        assert(l[l.len() - 1].0 == name);
    }
}

/// Retiming an entry changes that name's time and no other.
proof fn lemma_time_of_update(l: Seq<(Seq<char>, i64)>, j: int, t: i64)
    requires
        names_unique(l),
        0 <= j < l.len(),
    ensures
        names_unique(l.update(j, (l[j].0, t))),
        forall|nm: Seq<char>| #[trigger] time_of(l.update(j, (l[j].0, t)), nm) == (if nm == l[j].0 {
            Some(t)
        } else {
            time_of(l, nm)
        }),
    decreases l.len(),
{
    let u = l.update(j, (l[j].0, t));
    assert forall|a: int| 0 <= a < l.len() implies #[trigger] u[a].0 == l[a].0 by {}
    if j == l.len() - 1 {
        assert(u.drop_last() =~= l.drop_last());
        assert forall|nm: Seq<char>| nm != l[j].0 implies #[trigger] time_of(u, nm) == time_of(l, nm) by {}
    } else {
        assert(u.drop_last() =~= l.drop_last().update(j, (l[j].0, t)));
        assert(l.drop_last()[j] == l[j]);
        lemma_time_of_update(l.drop_last(), j, t);
        assert(u.last() == l.last());
        assert(l[l.len() - 1].0 != l[j].0);
        assert forall|nm: Seq<char>| #[trigger] time_of(u, nm) == (if nm == l[j].0 {
            Some(t)
        } else {
            time_of(l, nm)
        }) by {
            assert(time_of(u.drop_last(), nm) == time_of(l.drop_last().update(j, (l[j].0, t)), nm));
        }
    }
}

/// Once the recorded times are those of a listing with each name once, the
/// same listing again notes no change, and no recorded file is missing
/// from it: a second look at an unchanged folder calls for nothing.
pub proof fn law_sync_settles(recorded: Seq<(Seq<char>, i64)>, listing: Seq<(Seq<char>, i64)>)
    requires
        names_unique(listing),
        forall|name: Seq<char>| #[trigger] time_of(recorded, name) == time_of(listing, name),
    ensures
        !listing_changes(recorded, listing),
        !exists|name: Seq<char>| time_of(recorded, name) is Some && #[trigger] time_of(listing, name) is None,
{
    lemma_settled_prefix(recorded, listing, listing.len() as int);
    assert(listing.take(listing.len() as int) =~= listing);
}

/// No entry of the listing's first `k` notes a change.
proof fn lemma_settled_prefix(recorded: Seq<(Seq<char>, i64)>, listing: Seq<(Seq<char>, i64)>, k: int)
    requires
        names_unique(listing),
        forall|name: Seq<char>| #[trigger] time_of(recorded, name) == time_of(listing, name),
        0 <= k <= listing.len(),
    ensures
        !listing_changes(recorded, listing.take(k)),
    decreases k,
{
    if k > 0 {
        let pre = listing.take(k);
        assert(pre.drop_last() =~= listing.take(k - 1));
        lemma_settled_prefix(recorded, listing, k - 1);
        let e = listing[k - 1];
        assert(pre.last() == e);
        lemma_time_of_concat(recorded, listing.take(k - 1), e.0);
        lemma_time_of_absent(listing.take(k - 1), e.0);
        lemma_time_of_index(listing, k - 1);
    }
}

/// The index of `name`'s entry, if it has one.
fn find_name(files: &Vec<(String, i64)>, name: &String) -> (r: Option<usize>)
    ensures
        match r {
            Some(i) => i < files@.len() && files@[i as int].0@ == name@,
            None => forall|j: int| 0 <= j < files@.len() ==> files@[j].0@ != name@,
        },
{
    let mut i: usize = 0;
    while i < files.len()
        invariant
            i <= files@.len(),
            forall|j: int| 0 <= j < i ==> files@[j].0@ != name@,
        decreases files@.len() - i,
    {
        if files[i].0 == *name {
            return Some(i);
        }
        i += 1;
    }
    None
}

/// Brings the recorded times up to date with a listing of the script files:
/// afterwards each listed file has its listed time (the last one listed)
/// and no other file is recorded. Gives whether anything changed (a file
/// new, retimed, or gone) and the files that went.
pub fn sync_files(files: &mut Vec<(String, i64)>, listing: &Vec<(String, i64)>) -> (r: (bool, Vec<String>))
    requires
        names_unique(entries_of(old(files)@)),
    ensures
        names_unique(entries_of(final(files)@)),
        forall|name: Seq<char>| #[trigger] time_of(entries_of(final(files)@), name) == time_of(entries_of(listing@), name),
        forall|k: int|
            0 <= k < r.1@.len() ==> time_of(entries_of(old(files)@), #[trigger] r.1@[k]@) is Some
                && time_of(entries_of(listing@), r.1@[k]@) is None,
        forall|name: Seq<char>|
            time_of(entries_of(old(files)@), name) is Some && #[trigger] time_of(entries_of(listing@), name) is None
                ==> exists|k: int| 0 <= k < r.1@.len() && r.1@[k]@ == name,
        r.0 == (listing_changes(entries_of(old(files)@), entries_of(listing@)) || r.1@.len() > 0),
{
    let ghost l0 = entries_of(files@);
    let ghost ls = entries_of(listing@);
    let mut changed = false;
    let mut i: usize = 0;
    assert(ls.take(0) =~= Seq::<(Seq<char>, i64)>::empty());
    while i < listing.len()
        invariant
            i <= listing@.len(),
            ls == entries_of(listing@),
            names_unique(entries_of(files@)),
            forall|name: Seq<char>| #[trigger] time_of(entries_of(files@), name) == time_of(l0 + ls.take(i as int), name),
            changed == listing_changes(l0, ls.take(i as int)),
        decreases listing@.len() - i,
    {
        let ghost prev = entries_of(files@);
        let (name, time) = (&listing[i].0, listing[i].1);
        assert(ls.take(i + 1).drop_last() =~= ls.take(i as int));
        assert(ls.take(i + 1).last() == (name@, time));
        assert(l0 + ls.take(i + 1) =~= (l0 + ls.take(i as int)).push((name@, time)));
        assert forall|nm: Seq<char>| #[trigger] time_of(l0 + ls.take(i + 1), nm) == (if nm == name@ {
            Some(time)
        } else {
            time_of(prev, nm)
        }) by {
            assert((l0 + ls.take(i + 1)).drop_last() =~= l0 + ls.take(i as int));
        }
        match find_name(files, name) {
            Some(j) => {
                if files[j].1 != time {
                    changed = true;
                }
                proof {
                    lemma_time_of_index(prev, j as int);
                    lemma_time_of_update(prev, j as int, time);
                }
                let entry = (files[j].0.clone(), time);
                files.set(j, entry);
                assert(entries_of(files@) =~= prev.update(j as int, (name@, time)));
            },
            None => {
                proof {
                    lemma_time_of_absent(prev, name@);
                }
                changed = true;
                files.push((name.clone(), time));
                assert(entries_of(files@) =~= prev.push((name@, time)));
                assert forall|nm: Seq<char>| #[trigger] time_of(entries_of(files@), nm) == (if nm == name@ {
                    Some(time)
                } else {
                    time_of(prev, nm)
                }) by {
                    assert(entries_of(files@).drop_last() =~= prev);
                }
                assert(names_unique(entries_of(files@))) by {
                    assert forall|a: int, b: int| 0 <= a < b < entries_of(files@).len() implies entries_of(files@)[a].0
                        != entries_of(files@)[b].0 by {
                        assert(entries_of(files@)[a] == prev[a]);
                        if b < prev.len() {
                            assert(entries_of(files@)[b] == prev[b]);
                        }
                    }
                }
            },
        }
        i += 1;
    }
    assert(ls.take(listing@.len() as int) =~= ls);
    let ghost merged = entries_of(files@);
    proof {
        assert forall|name: Seq<char>| #[trigger] time_of(merged, name) == (match time_of(ls, name) {
            Some(t) => Some(t),
            None => time_of(l0, name),
        }) by {
            lemma_time_of_concat(l0, ls, name);
        }
    }
    let mut kept: Vec<(String, i64)> = Vec::new();
    let mut removed: Vec<String> = Vec::new();
    let mut j: usize = 0;
    assert(merged.take(0) =~= Seq::<(Seq<char>, i64)>::empty());
    while j < files.len()
        invariant
            j <= files@.len(),
            ls == entries_of(listing@),
            merged == entries_of(files@),
            names_unique(merged),
            forall|name: Seq<char>| #[trigger] time_of(merged, name) == (match time_of(ls, name) {
                Some(t) => Some(t),
                None => time_of(l0, name),
            }),
            names_unique(entries_of(kept@)),
            forall|name: Seq<char>|
                #[trigger] time_of(entries_of(kept@), name) == (if time_of(merged.take(j as int), name) is Some
                    && time_of(ls, name) is Some {
                    time_of(ls, name)
                } else {
                    None
                }),
            forall|k: int|
                0 <= k < removed@.len() ==> time_of(l0, #[trigger] removed@[k]@) is Some && time_of(
                    ls,
                    removed@[k]@,
                ) is None,
            forall|name: Seq<char>|
                #[trigger] time_of(merged.take(j as int), name) is Some && time_of(ls, name) is None ==> exists|
                    m: int,
                | 0 <= m < removed@.len() && removed@[m]@ == name,
        decreases files@.len() - j,
    {
        let ghost e = merged[j as int];
        let ghost pre = merged.take(j as int);
        assert(merged.take(j + 1) =~= pre.push(e));
        assert forall|name: Seq<char>| #[trigger] time_of(merged.take(j + 1), name) == (if name == e.0 {
            Some(e.1)
        } else {
            time_of(pre, name)
        }) by {
            assert(merged.take(j + 1).drop_last() =~= pre);
        }
        proof {
            lemma_time_of_index(merged, j as int);
            if time_of(pre, e.0) is Some {
                lemma_time_of_some(pre, e.0);
                let k = choose|k: int| 0 <= k < pre.len() && pre[k].0 == e.0 && pre[k].1 == time_of(pre, e.0).unwrap();
                assert(merged[k].0 == merged[j as int].0);
            }
        }
        let name = files[j].0.clone();
        let listed = find_name(listing, &name);
        match listed {
            Some(li) => {
                proof {
                    if time_of(ls, e.0) is None {
                        lemma_time_of_index_any(ls, li as int);
                    }
                }
                let ghost before = entries_of(kept@);
                proof {
                    if exists|k: int| 0 <= k < before.len() && before[k].0 == e.0 {
                        let k = choose|k: int| 0 <= k < before.len() && before[k].0 == e.0;
                        lemma_time_of_index(before, k);
                    }
                }
                kept.push((name, files[j].1));
                assert(entries_of(kept@) =~= before.push(e));
                proof {
                    lemma_time_of_index(merged, j as int);
                    assert(time_of(ls, e.0) is Some);
                    assert(e.1 == time_of(ls, e.0).unwrap());
                }
                assert forall|name2: Seq<char>| #[trigger] time_of(entries_of(kept@), name2) == (if time_of(
                    merged.take(j + 1),
                    name2,
                ) is Some && time_of(ls, name2) is Some {
                    time_of(ls, name2)
                } else {
                    None
                }) by {
                    assert(entries_of(kept@).drop_last() =~= before);
                    if name2 != e.0 {
                        assert(time_of(merged.take(j + 1), name2) == time_of(pre, name2));
                        assert(time_of(before, name2) == (if time_of(pre, name2) is Some && time_of(ls, name2) is Some {
                            time_of(ls, name2)
                        } else {
                            None
                        }));
                    } else {
                        assert(time_of(merged.take(j + 1), name2) == Some(e.1));
                    }
                }
                assert(names_unique(entries_of(kept@))) by {
                    assert forall|a: int, b: int| 0 <= a < b < entries_of(kept@).len() implies entries_of(kept@)[a].0 != entries_of(kept@)[b].0 by {
                        if b == entries_of(kept@).len() - 1 {
                            assert(entries_of(kept@)[a] == before[a]);
                            if before[a].0 == e.0 {
                                lemma_time_of_index(before, a);
                            }
                        } else {
                            assert(entries_of(kept@)[a] == before[a]);
                            assert(entries_of(kept@)[b] == before[b]);
                        }
                    }
                }
            },
            None => {
                proof {
                    lemma_time_of_absent(ls, e.0);
                }
                let ghost old_removed = removed@;
                removed.push(name);
                assert forall|name2: Seq<char>|
                    #[trigger] time_of(merged.take(j + 1), name2) is Some && time_of(ls, name2) is None implies exists|
                        m: int,
                    | 0 <= m < removed@.len() && removed@[m]@ == name2 by {
                    if name2 == e.0 {
                        assert(removed@[removed@.len() - 1]@ == name2);
                    } else {
                        assert(time_of(pre, name2) is Some);
                        let m = choose|m: int| 0 <= m < old_removed.len() && old_removed[m]@ == name2;
                        assert(removed@[m] == old_removed[m]);
                    }
                }
                proof {
                    lemma_time_of_index(merged, j as int);
                    assert(time_of(l0, e.0) is Some);
                }
                assert forall|k: int|
                    0 <= k < removed@.len() implies time_of(l0, #[trigger] removed@[k]@) is Some && time_of(
                        ls,
                        removed@[k]@,
                    ) is None by {
                    if k < old_removed.len() {
                        assert(removed@[k] == old_removed[k]);
                    }
                }
            },
        }
        j += 1;
    }
    assert(merged.take(files@.len() as int) =~= merged);
    *files = kept;
    assert forall|name: Seq<char>| #[trigger] time_of(entries_of(files@), name) == time_of(ls, name) by {
        if time_of(ls, name) is Some {
        }
    }
    assert forall|name: Seq<char>|
        time_of(l0, name) is Some && #[trigger] time_of(ls, name) is None implies exists|k: int|
            0 <= k < removed@.len() && removed@[k]@ == name by {
        assert(time_of(merged, name) is Some);
    }
    (changed || removed.len() > 0, removed)
}

/// A name listed somewhere has a time.
proof fn lemma_time_of_index_any(l: Seq<(Seq<char>, i64)>, i: int)
    requires
        0 <= i < l.len(),
    ensures
        time_of(l, l[i].0) is Some,
    decreases l.len(),
{
    if i < l.len() - 1 && l.last().0 != l[i].0 {
        assert(l.drop_last()[i] == l[i]);
        lemma_time_of_index_any(l.drop_last(), i);
    }
}

// ---------------------------------------------------------------------------
// The editor's side of the script folder
// ---------------------------------------------------------------------------

/// What a look at the script folder calls for: whether the cartridge's
/// scripts must be gathered and written anew, and the file to open in place
/// of the open one when that one went.
pub struct FilesUpdate {
    pub changed: bool,
    pub reopen: Option<String>,
}

/// The script the editor falls back on.
pub open spec fn main_script() -> Seq<char> {
    seq!['m', 'a', 'i', 'n', '.', 'l', 'u', 'a']
}

/// The cursor lies outside the text: past the last row, or past the end of
/// its row.
pub open spec fn out_of_scope(ls: Seq<Seq<char>>, c: Pos) -> bool {
    c.1 >= ls.len() || ls[c.1 as int].len() < c.0
}

impl IDEEngine {
    /// Each script file is recorded once.
    pub open spec fn files_wf(&self) -> bool {
        names_unique(entries_of(self.files@))
    }

    /// Whether each script file is recorded once (see `files_wf`).
    pub fn files_are_distinct(&self) -> (r: bool)
        ensures
            r == self.files_wf(),
    {
        let ghost l = entries_of(self.files@);
        let mut i: usize = 0;
        while i < self.files.len()
            invariant
                l == entries_of(self.files@),
                i <= self.files@.len(),
                forall|a: int, b: int| 0 <= a < b < self.files@.len() && a < i ==> l[a].0 != l[b].0,
            decreases self.files@.len() - i,
        {
            let mut j: usize = i + 1;
            while j < self.files.len()
                invariant
                    l == entries_of(self.files@),
                    i < self.files@.len(),
                    i + 1 <= j <= self.files@.len(),
                    forall|a: int, b: int| 0 <= a < b < self.files@.len() && a < i ==> l[a].0 != l[b].0,
                    forall|b: int| i < b < j ==> l[i as int].0 != l[b].0,
                decreases self.files@.len() - j,
            {
                if self.files[i].0 == self.files[j].0 {
                    assert(l[i as int].0 == l[j as int].0);
                    return false;
                }
                j += 1;
            }
            i += 1;
        }
        true
    }

    /// Takes in a listing of the script folder (each file with its
    /// modification time): the recorded files become the listed ones. The
    /// scripts must be written anew when a file is new, retimed or gone; when
    /// the open file went, `main.lua` is to be opened in its place.
    pub fn update_files(&mut self, listing: &Vec<(String, i64)>) -> (r: FilesUpdate)
        requires
            old(self).files_wf(),
        ensures
            final(self).files_wf(),
            forall|name: Seq<char>| #[trigger] time_of(entries_of(final(self).files@), name) == time_of(entries_of(listing@), name),
            r.changed == (listing_changes(entries_of(old(self).files@), entries_of(listing@)) || exists|name: Seq<char>|
                time_of(entries_of(old(self).files@), name) is Some && #[trigger] time_of(entries_of(listing@), name) is None),
            r.reopen is Some <==> (time_of(entries_of(old(self).files@), old(self).file_name@) is Some && time_of(
                entries_of(listing@),
                old(self).file_name@,
            ) is None),
            r.reopen matches Some(n) ==> n@ == main_script(),
            final(self).view() == old(self).view(),
            final(self).keyboard@ == old(self).keyboard@,
            final(self).mouse == old(self).mouse,
            final(self).cart_path@ == old(self).cart_path@,
            final(self).scroll_offset == old(self).scroll_offset,
            final(self).frame_hash == old(self).frame_hash,
            old(self).wf() ==> final(self).wf(),
    {
        let ghost l0 = entries_of(self.files@);
        let (changed, removed) = sync_files(&mut self.files, listing);
        proof {
            if removed@.len() > 0 {
                assert(time_of(entries_of(listing@), removed@[0]@) is None);
            }
        }
        let mut i: usize = 0;
        let mut gone = false;
        while i < removed.len()
            invariant
                i <= removed@.len(),
                gone <==> exists|k: int| 0 <= k < i && removed@[k]@ == self.file_name@,
            decreases removed@.len() - i,
        {
            if removed[i] == self.file_name {
                gone = true;
            }
            i += 1;
        }
        proof {
            if time_of(l0, self.file_name@) is Some && time_of(entries_of(listing@), self.file_name@) is None {
                let k = choose|k: int| 0 <= k < removed@.len() && removed@[k]@ == self.file_name@;
            }
            if gone {
                let k = choose|k: int| 0 <= k < removed@.len() && removed@[k]@ == self.file_name@;
                assert(time_of(l0, removed@[k]@) is Some);
            }
        }
        let reopen = if gone {
            proof {
                reveal_strlit("main.lua");
            }
            Some(String::from_str("main.lua"))
        } else {
            None
        };
        FilesUpdate { changed, reopen }
    }

    /// Opens the script `name` with the text `contents`, the cursor at its
    /// start; the selection, the clipboard, the histories and the saved state
    /// stay as they were.
    pub fn open_file(&mut self, name: String, contents: &str)
        ensures
            final(self).view() == (EditorView {
                file_name: name@,
                lines: split_lines(contents@),
                cursor: (0usize, 0usize),
                ..old(self).view()
            }),
            final(self).files@ == old(self).files@,
            final(self).keyboard@ == old(self).keyboard@,
            final(self).mouse == old(self).mouse,
            final(self).cart_path@ == old(self).cart_path@,
            final(self).scroll_offset == old(self).scroll_offset,
            final(self).frame_hash == old(self).frame_hash,
            old(self).wf() ==> final(self).wf(),
    {
        let text = chars_of(contents);
        proof {
            lemma_split_basics(text@);
        }
        self.file = split_text(&text);
        self.file_name = name;
        self.cursor = (0, 0);
    }

    /// The script `name` now reads `contents` on disk. When it is the open
    /// file, the editor takes the new text, puts the cursor back at the start
    /// if it now lies outside the text, and counts the file as saved.
    pub fn refresh_script(&mut self, name: &String, contents: &str)
        ensures
            name@ == old(self).file_name@ ==> final(self).view() == (EditorView {
                lines: split_lines(contents@),
                cursor: if out_of_scope(split_lines(contents@), old(self).cursor) {
                    (0usize, 0usize)
                } else {
                    old(self).cursor
                },
                upto_date: true,
                ..old(self).view()
            }),
            name@ != old(self).file_name@ ==> final(self).view() == old(self).view(),
            final(self).files@ == old(self).files@,
            final(self).keyboard@ == old(self).keyboard@,
            final(self).mouse == old(self).mouse,
            final(self).cart_path@ == old(self).cart_path@,
            final(self).scroll_offset == old(self).scroll_offset,
            final(self).frame_hash == old(self).frame_hash,
            old(self).wf() ==> final(self).wf(),
    {
        if *name == self.file_name {
            let text = chars_of(contents);
            proof {
                lemma_split_basics(text@);
            }
            self.file = split_text(&text);
            let out = self.cursor.1 >= self.file.len() || self.file[self.cursor.1].len() < self.cursor.0;
            if out {
                self.cursor = (0, 0);
            }
            self.upto_date = true;
        }
    }
}

/// The editor looks at the scripts' folder at most every half second.
pub open spec fn folder_check_due(elapsed_ms: u128) -> bool {
    elapsed_ms >= 500
}

/// Whether, `elapsed_ms` milliseconds after its last look, the editor looks
/// at the scripts' folder again (see `folder_check_due`).
pub fn files_check_due(elapsed_ms: u128) -> (r: bool)
    ensures
        r == folder_check_due(elapsed_ms),
{
    elapsed_ms >= 500
}

// ---------------------------------------------------------------------------
// Names of script files
// ---------------------------------------------------------------------------

/// A script is a file whose name ends in `.lua`.
pub open spec fn is_script_name(name: Seq<char>) -> bool {
    ends_with(name, seq!['.', 'l', 'u', 'a'])
}

/// Whether a file's name makes it a script (see `is_script_name`).
pub fn is_script_file(name: &str) -> (r: bool)
    ensures
        r == is_script_name(name@),
{
    let t = chars_of(name);
    let suffix = chars_of(".lua");
    proof {
        reveal_strlit(".lua");
    }
    assert(suffix@ =~= seq!['.', 'l', 'u', 'a']);
    ends_with_chars(&t, &suffix)
}

/// A path with each backslash made a forward slash.
pub open spec fn forward_slashes(path: Seq<char>) -> Seq<char> {
    path.map_values(|c: char| if c == '\\' {
        '/'
    } else {
        c
    })
}

/// The key a script is known by in a cartridge: its path under the
/// scripts' folder, with forward slashes (see `forward_slashes`).
pub fn script_key(rel: &str) -> (r: String)
    ensures
        r@ == forward_slashes(rel@),
{
    let t = chars_of(rel);
    let mut out: Vec<char> = Vec::new();
    let mut i: usize = 0;
    while i < t.len()
        invariant
            i <= t@.len(),
            t@ == rel@,
            out@ == forward_slashes(t@.take(i as int)),
        decreases t@.len() - i,
    {
        let c = t[i];
        out.push(if c == '\\' {
            '/'
        } else {
            c
        });
        i += 1;
        assert(out@ =~= forward_slashes(t@.take(i as int)));
    }
    assert(t@.take(i as int) =~= t@);
    string_of(&out)
}

} // verus!
