use vstd::prelude::*;

verus! {

/// How the file watcher reports a change: once, or as one of a series.
#[derive(PartialEq, Eq, Structural, Clone, Copy, Debug)]
pub enum EventKind {
    Any,
    AnyContinuous,
}

/// A change to a file under the scripts' folder.
pub struct FileEvent {
    pub kind: EventKind,
    pub path: String,
}

/// The extension of a path, as `std::path::Path::extension` gives it.
pub uninterp spec fn path_extension(path: Seq<char>) -> Option<Seq<char>>;

/// `std::path::Path::extension` of `path`, as text.
#[verifier::external_body]
fn extension_of(path: &str) -> (r: Option<String>)
    ensures
        match r {
            Some(e) => path_extension(path@) == Some(e@),
            None => path_extension(path@) is None,
        },
{
    std::path::Path::new(path).extension().and_then(|s| s.to_str()).map(|s| s.to_string())
}

/// A change calls for saving the scripts when it is a single change to a
/// file with the extension `lua`.
pub open spec fn is_script_change(e: FileEvent) -> bool {
    e.kind == EventKind::Any && path_extension(e.path@) == Some("lua"@)
}

/// Whether a batch of changes calls for saving the scripts into the cartridge.
pub fn should_update(events: &Vec<FileEvent>) -> (r: bool)
    ensures
        r == exists|i: int| 0 <= i < events@.len() && is_script_change(#[trigger] events@[i]),
{
    let lua = String::from_str("lua");
    let mut i: usize = 0;
    while i < events.len()
        invariant
            i <= events@.len(),
            lua@ == "lua"@,
            forall|j: int| 0 <= j < i ==> !is_script_change(#[trigger] events@[j]),
        decreases events@.len() - i,
    {
        if events[i].kind == EventKind::Any {
            match extension_of(events[i].path.as_str()) {
                Some(ext) => {
                    if ext == lua {
                        assert(is_script_change(events@[i as int]));
                        return true;
                    }
                },
                None => {},
            }
        }
        i += 1;
    }
    false
}

} // verus!
