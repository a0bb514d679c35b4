use vstd::prelude::*;
use crate::pattern::{glob_matches, Glob};

verus! {

/// What `find` does with one directory entry.
#[derive(Debug, Clone, Copy, PartialEq, Eq, Structural)]
pub enum FindStep {
    /// Print the entry's path.
    Report,
    /// Search inside the directory.
    Descend,
    /// Leave the entry alone.
    Skip,
}

/// What `clean` does with one directory entry.
#[derive(Debug, Clone, Copy, PartialEq, Eq, Structural)]
pub enum CleanStep {
    /// Delete the file.
    DeleteFile,
    /// Delete the directory with everything in it.
    DeleteDir,
    /// Clean inside the directory.
    Descend,
    /// Leave the entry alone.
    Skip,
}

/// The name starts with a dot.
pub open spec fn is_hidden(name: Seq<char>) -> bool {
    name.len() > 0 && name[0] == '.'
}

pub open spec fn find_step_spec(matched: bool, name: Seq<char>, is_file: bool, is_dir: bool) -> FindStep {
    if is_file {
        if matched {
            FindStep::Report
        } else {
            FindStep::Skip
        }
    } else if is_dir && !is_hidden(name) {
        FindStep::Descend
    } else {
        FindStep::Skip
    }
}

pub open spec fn clean_step_spec(matched: bool, is_file: bool, is_dir: bool) -> CleanStep {
    if is_file {
        if matched {
            CleanStep::DeleteFile
        } else {
            CleanStep::Skip
        }
    } else if is_dir {
        if matched {
            CleanStep::DeleteDir
        } else {
            CleanStep::Descend
        }
    } else {
        CleanStep::Skip
    }
}

/// Whether `name` starts with a dot.
pub fn hidden(name: &str) -> (r: bool)
    ensures
        r == is_hidden(name@),
{
    name.unicode_len() > 0 && name.get_char(0) == '.'
}

/// `find`'s decision for an entry named `name`: report a matching file,
/// search every directory but hidden ones, and pass over the rest.
pub fn find_step(pattern: &Glob, name: &str, is_file: bool, is_dir: bool) -> (r: FindStep)
    ensures
        r == find_step_spec(glob_matches(pattern@, name@), name@, is_file, is_dir),
{
    if is_file {
        if pattern.matches(name) {
            FindStep::Report
        } else {
            FindStep::Skip
        }
    } else if is_dir && !hidden(name) {
        FindStep::Descend
    } else {
        FindStep::Skip
    }
}

/// `clean`'s decision for an entry named `name`: delete what matches, a
/// directory with its contents, and clean inside other directories.
pub fn clean_step(pattern: &Glob, name: &str, is_file: bool, is_dir: bool) -> (r: CleanStep)
    ensures
        r == clean_step_spec(glob_matches(pattern@, name@), is_file, is_dir),
{
    if is_file {
        if pattern.matches(name) {
            CleanStep::DeleteFile
        } else {
            CleanStep::Skip
        }
    } else if is_dir {
        if pattern.matches(name) {
            CleanStep::DeleteDir
        } else {
            CleanStep::Descend
        }
    } else {
        CleanStep::Skip
    }
}

} // verus!
