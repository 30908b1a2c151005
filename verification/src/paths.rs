//! Path arithmetic, left to `std::path`.
//!
//! Paths travel through the library as strings. What the standard library
//! makes of them is not restated here: each operation has a name in
//! specifications, and the function that performs it promises only that it
//! returns what the name denotes. The names stand for the behaviour of
//! `std::path` on the platform the library is built for.

use vstd::prelude::*;

verus! {

/// What `Path::ancestors` yields for `path`, in the order it yields it: the
/// path itself, then its parent, then the parent's parent, and so on.
pub uninterp spec fn path_ancestors(path: Seq<char>) -> Seq<Seq<char>>;

/// What `Path::join` makes of `base` and `tail`.
pub uninterp spec fn path_join(base: Seq<char>, tail: Seq<char>) -> Seq<char>;

/// What `Path::extension` finds in `path`.
pub uninterp spec fn path_extension(path: Seq<char>) -> Option<Seq<char>>;

/// What `Path::with_extension` makes of `path` and `extension`.
pub uninterp spec fn path_with_extension(path: Seq<char>, extension: Seq<char>) -> Seq<char>;

/// Whether `extension` is free of path separators, which
/// `Path::with_extension` insists on.
pub open spec fn plain_extension(extension: Seq<char>) -> bool {
    forall|i: int| 0 <= i < extension.len() ==> extension[i] != '/' && extension[i] != '\\'
}

/// The directories around `file`, innermost first: every ancestor that
/// `std::path` reports, except the path itself.
pub open spec fn enclosing_dirs(file: Seq<char>) -> Seq<Seq<char>> {
    let all = path_ancestors(file);
    if all.len() == 0 {
        all
    } else {
        all.subrange(1, all.len() as int)
    }
}

/// The directory that holds `file`, if `std::path` reports one.
pub open spec fn parent_dir(file: Seq<char>) -> Option<Seq<char>> {
    let dirs = enclosing_dirs(file);
    if dirs.len() == 0 {
        None
    } else {
        Some(dirs[0])
    }
}

/// Calls `std::path::Path::ancestors` and collects what it yields. Trusted:
/// the result is whatever `path_ancestors` names; nothing is claimed about
/// its length or contents.
#[verifier::external_body]
pub(crate) fn ancestors(path: &str) -> (r: Vec<String>)
    ensures
        r.deep_view() == path_ancestors(path@),
{
    std::path::Path::new(path).ancestors().map(|a| a.to_string_lossy().into_owned()).collect()
}

/// Calls `std::path::Path::join`. Trusted: the result is whatever
/// `path_join` names.
#[verifier::external_body]
pub(crate) fn join(base: &str, tail: &str) -> (r: String)
    ensures
        r@ == path_join(base@, tail@),
{
    std::path::Path::new(base).join(tail).to_string_lossy().into_owned()
}

/// Calls `std::path::Path::extension`. Trusted: the result is whatever
/// `path_extension` names.
#[verifier::external_body]
pub(crate) fn extension(path: &str) -> (r: Option<String>)
    ensures
        r.deep_view() == path_extension(path@),
{
    std::path::Path::new(path).extension().map(|e| e.to_string_lossy().into_owned())
}

/// Calls `std::path::Path::with_extension`, which panics on an extension
/// that holds a path separator; such extensions are excluded. Trusted: the
/// result is whatever `path_with_extension` names.
#[verifier::external_body]
pub(crate) fn with_extension(path: &str, extension: &str) -> (r: String)
    requires
        plain_extension(extension@),
    ensures
        r@ == path_with_extension(path@, extension@),
{
    std::path::Path::new(path).with_extension(extension).to_string_lossy().into_owned()
}

/// The directories around `file`, innermost first.
pub fn directories(file: &str) -> (r: Vec<String>)
    ensures
        r.deep_view() == enclosing_dirs(file@),
{
    let all: Vec<String> = ancestors(file);
    let mut dirs: Vec<String> = Vec::new();
    if all.len() == 0 {
        proof {
            assert(dirs.deep_view() =~= all.deep_view());
        }
        return dirs;
    }
    proof {
        assert(dirs.deep_view() =~= all.deep_view().subrange(1, 1));
    }
    let mut i: usize = 1;
    while i < all.len()
        invariant
            1 <= i <= all.len(),
            all.deep_view() == path_ancestors(file@),
            dirs.deep_view() == all.deep_view().subrange(1, i as int),
        decreases all.len() - i,
    {
        let ghost before = dirs.deep_view();
        dirs.push(all[i].clone());
        proof {
            assert(dirs.deep_view() =~= before.push(all[i as int]@));
            assert(all.deep_view()[i as int] == all[i as int]@);
            assert(dirs.deep_view() =~= all.deep_view().subrange(1, i + 1));
        }
        i = i + 1;
    }
    proof {
        assert(all.deep_view().len() == all.len());
    }
    dirs
}

/// The directory that holds `file`.
pub fn directory(file: &str) -> (r: Option<String>)
    ensures
        r.deep_view() == parent_dir(file@),
{
    let dirs: Vec<String> = directories(file);
    if dirs.len() == 0 {
        proof {
            assert(dirs.deep_view().len() == 0);
        }
        None
    } else {
        proof {
            assert(dirs.deep_view()[0] == dirs[0]@);
        }
        Some(dirs[0].clone())
    }
}

} // verus!
