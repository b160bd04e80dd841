//! Where a project file's atomic-save temp file lives.
use vstd::prelude::*;

use crate::text::{chars_of, string_from};

verus! {

/// What `std::path::Path::parent` gives for the path `p`, as text.
pub uninterp spec fn path_parent(p: Seq<char>) -> Option<Seq<char>>;

/// `std::path::Path::parent` on a path given as text: the path without its
/// final component, or `None` for a root or an empty path. Named by
/// `path_parent`; the parent of a path built from text is itself valid text.
#[verifier::external_body]
fn parent_of_path(p: &str) -> (r: Option<String>)
    ensures
        match r {
            Some(s) => path_parent(p@) == Some(s@),
            None => path_parent(p@) is None,
        },
{
    std::path::Path::new(p).parent().map(|d| d.to_string_lossy().into_owned())
}

/// The directory named by a path's parent: the parent itself, or `.` when
/// there is none or it is empty (a bare file name lives in the current
/// directory).
pub open spec fn dir_of_parent(parent: Option<Seq<char>>) -> Seq<char> {
    match parent {
        Some(d) if d.len() > 0 => d,
        _ => seq!['.'],
    }
}

/// The directory for a path whose parent is `parent`.
pub fn dir_or_current(parent: Option<String>) -> (r: String)
    ensures
        r@ == dir_of_parent(match parent {
            Some(d) => Some(d@),
            None => None,
        }),
{
    match parent {
        Some(d) => {
            let v = chars_of(d.as_str());
            if v.len() > 0 {
                return d;
            }
        },
        None => {},
    }
    let mut v: Vec<char> = Vec::new();
    v.push('.');
    assert(v@ =~= seq!['.']);
    string_from(v.as_slice())
}

/// The directory a temp file for `path` must live in.
///
/// `rename` is only atomic within a single filesystem, so the temp file has
/// to be a sibling of the target. A bare file name has an empty parent, which
/// means the current directory.
pub fn sibling_dir(path: &str) -> (r: String)
    ensures
        r@ == dir_of_parent(path_parent(path@)),
{
    dir_or_current(parent_of_path(path))
}

} // verus!
