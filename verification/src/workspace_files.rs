//! Which files of a workspace folder are CEA scripts to index.
use vstd::prelude::*;
use crate::text::{ascii_lowercase, lower_chars, text_eq};

verus! {

/// Scripts indexed per workspace folder, at most.
pub const MAX_FILES_PER_FOLDER: usize = 10_000;

/// Scripts larger than this many bytes are not indexed.
pub const MAX_FILE_SIZE: u64 = 2 * 1024 * 1024;

/// Folders nested deeper than this are not searched.
pub const MAX_DEPTH: usize = 32;

/// The names of directories that are never searched for scripts.
pub open spec fn excluded_name(name: Seq<char>) -> bool {
    name == ".git"@ || name == ".hg"@ || name == ".svn"@ || name == "node_modules"@ || name
        == "target"@ || name == "dist"@ || name == "build"@ || name == "vendor"@
}

/// Whether a directory, by its file name when it has one that is text, is
/// skipped (see [`excluded_name`]).
pub fn excluded(file_name: Option<&str>) -> (r: bool)
    ensures
        r == match file_name {
            Some(n) => excluded_name(n@),
            None => false,
        },
{
    match file_name {
        None => false,
        Some(n) => text_eq(n, ".git") || text_eq(n, ".hg") || text_eq(n, ".svn") || text_eq(
            n,
            "node_modules",
        ) || text_eq(n, "target") || text_eq(n, "dist") || text_eq(n, "build") || text_eq(n, "vendor"),
    }
}

/// Whether a file, by its extension when it has one that is text, is a
/// script: the extension is `cea` in any ASCII letter case.
pub fn is_cea_file(extension: Option<&str>) -> (r: bool)
    ensures
        r == match extension {
            Some(e) => lower_chars(e@) == "cea"@,
            None => false,
        },
{
    match extension {
        None => false,
        Some(e) => {
            let lower = ascii_lowercase(e);
            text_eq(lower.as_str(), "cea")
        },
    }
}

/// Whether a directory at `depth` below a workspace folder is searched,
/// with `remaining` scripts still to be indexed for that folder.
pub fn should_search(depth: usize, remaining: usize) -> (r: bool)
    ensures
        r == (depth <= MAX_DEPTH && remaining > 0),
{
    depth <= MAX_DEPTH && remaining > 0
}

} // verus!
