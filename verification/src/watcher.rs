//! Deciding which file events are a completed save.
//!
//! Kdenlive saves through QSaveFile, which writes a temporary file in the
//! same directory and renames it over the project, so the rename landing is
//! the real completion signal and a reader never sees a partial document
//! under the project's name. Save As and other tools may still write in
//! place, so a write being closed counts too. Both mean the writer is done,
//! which is why this is correct where a fixed delay would only be a guess.
//!
//! Watching the directory and waiting for events happens around this
//! module; it is handed each event's kind and paths.

use vstd::prelude::*;

use crate::cli::{file_name_of, file_name_text, texts};

verus! {

/// Events closer together than this, in milliseconds, belong to one save: a
/// rename landing followed by a metadata update, for instance.
pub const COALESCE_WINDOW_MS: u64 = 300;

/// What happened to a path in the watched directory.
#[derive(Clone, Copy, PartialEq, Eq, Structural, Debug)]
pub enum Happening {
    /// A rename landed on the path.
    RenamedTo,
    /// A file was created at the path.
    CreatedFile,
    /// A file opened for writing was closed.
    ClosedAfterWrite,
    /// Anything else.
    Other,
}

/// Whether two paths name the same file by their components, as `Path`'s
/// `==` compares them.
pub uninterp spec fn same_path(a: Seq<char>, b: Seq<char>) -> bool;

/// `Path == Path` for paths given as text. Claimed: the answer is
/// `same_path(a, b)`, a function of the two texts alone.
#[verifier::external_body]
fn paths_equal(a: &str, b: &str) -> (r: bool)
    ensures
        r == same_path(a@, b@),
{
    std::path::Path::new(a) == std::path::Path::new(b)
}

/// A path is the project's when it is the project path, or has the same
/// file name: the watched directory may be reached through a symlink.
pub open spec fn names_project(path: Seq<char>, file: Seq<char>) -> bool {
    same_path(path, file) || file_name_text(path) == file_name_text(file)
}

pub fn is_project_file(path: &str, file: &str) -> (r: bool)
    ensures
        r == names_project(path@, file@),
{
    if paths_equal(path, file) {
        return true;
    }
    match (file_name_of(path), file_name_of(file)) {
        (Some(a), Some(b)) => crate::text::str_same(a.as_str(), b.as_str()),
        (None, None) => true,
        _ => false,
    }
}

/// An event is a completed save when it touches the project file and is a
/// rename landing, a file created, or a write closed.
pub open spec fn completes_save(kind: Happening, paths: Seq<Seq<char>>, file: Seq<char>) -> bool {
    (exists|i: int| 0 <= i < paths.len() && names_project(#[trigger] paths[i], file)) && (kind
        == Happening::RenamedTo || kind == Happening::CreatedFile || kind == Happening::ClosedAfterWrite)
}

pub fn is_completed_save(kind: Happening, paths: &Vec<String>, file: &str) -> (r: bool)
    ensures
        r == completes_save(kind, texts(paths@), file@),
{
    let ghost t = texts(paths@);
    let mut i: usize = 0;
    while i < paths.len()
        invariant
            t == texts(paths@),
            i <= paths.len(),
            forall|k: int| 0 <= k < i ==> !names_project(#[trigger] t[k], file@),
        decreases paths.len() - i,
    {
        if is_project_file(paths[i].as_str(), file) {
            assert(names_project(t[i as int], file@));
            return kind == Happening::RenamedTo || kind == Happening::CreatedFile || kind
                == Happening::ClosedAfterWrite;
        }
        i = i + 1;
    }
    false
}

} // verus!
