//! The paths that are left out of authorship tracking.

use crate::text::chars_of;
use ignore::gitignore::Gitignore;
use vstd::prelude::*;

verus! {

/// `ignore::gitignore::Gitignore`, a matcher built from the lines of an
/// ignore file. Nothing is known of its inside.
#[verifier::external_type_specification]
#[verifier::external_body]
pub struct ExGitignore(Gitignore);

/// The paths that a matcher excludes, itself or through one of its parent
/// directories.
pub uninterp spec fn ignored_paths(matcher: Gitignore) -> Set<Seq<char>>;

/// A path as a tree snapshot lists it: it does not start with `/` or `./`
/// and holds no empty component.
pub open spec fn plain_relative(path: Seq<char>) -> bool {
    &&& path.len() >= 1 ==> path[0] != '/'
    &&& path.len() >= 2 ==> !(path[0] == '.' && path[1] == '/')
    &&& forall|i: int| 0 <= i < path.len() - 1 ==> !(#[trigger] path[i] == '/' && path[i + 1] == '/')
}

/// Calls `Gitignore::matched_path_or_any_parents` for a file and takes
/// `Match::is_ignore` of the outcome. The contract claims that the answer is a
/// function of the matcher and the path. The call panics on a path that,
/// once the matcher's root is stripped from it, starts with `/`; the
/// `requires` keeps to paths from which no stripping can leave such a rest.
#[verifier::external_body]
fn matcher_ignores(matcher: &Gitignore, path: &str) -> (ignored: bool)
    requires
        plain_relative(path@),
    ensures
        ignored == ignored_paths(*matcher).contains(path@),
{
    matcher.matched_path_or_any_parents(path, false).is_ignore()
}

/// Whether `path` is written as a tree snapshot writes its paths.
pub fn is_plain_relative(path: &str) -> (plain: bool)
    ensures
        plain == plain_relative(path@),
{
    let chars = chars_of(path);
    let n = chars.len();
    if n >= 1 && chars[0] == '/' {
        return false;
    }
    if n >= 2 && chars[0] == '.' && chars[1] == '/' {
        return false;
    }
    if n == 0 {
        return true;
    }
    let mut i: usize = 0;
    while i + 1 < n
        invariant
            i + 1 <= n,
            n == chars.len(),
            chars@ == path@,
            forall|j: int| 0 <= j < i && j < n - 1 ==> !(#[trigger] chars[j] == '/' && chars[j + 1] == '/'),
        decreases n - i,
    {
        if chars[i] == '/' && chars[i + 1] == '/' {
            return false;
        }
        i += 1;
    }
    true
}

/// Whether the matcher excludes the file at `path`.
pub fn is_ignored(matcher: &Gitignore, path: &str) -> (ignored: bool)
    requires
        plain_relative(path@),
    ensures
        ignored == ignored_paths(*matcher).contains(path@),
{
    matcher_ignores(matcher, path)
}

/// Whether the matcher excludes the file at `path`; `None` for a path that
/// the matcher cannot be asked about.
pub fn try_is_ignored(matcher: &Gitignore, path: &str) -> (ignored: Option<bool>)
    ensures
        match ignored {
            Some(b) => plain_relative(path@) && b == ignored_paths(*matcher).contains(path@),
            None => !plain_relative(path@),
        },
{
    if is_plain_relative(path) {
        Some(matcher_ignores(matcher, path))
    } else {
        None
    }
}

} // verus!
