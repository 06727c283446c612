//! Where the files of a repository lie, below the directory that holds it.
//! Paths are written with `/` between their components.

use vstd::prelude::*;
use vstd::string::*;

verus! {

/// The path of `name` inside the directory `dir`.
pub open spec fn join(dir: Seq<char>, name: Seq<char>) -> Seq<char> {
    dir + seq!['/'] + name
}

/// The name of the directory that marks a repository and holds its files.
pub const MARKER: &'static str = ".tgit";

/// The name of the directory that marks a repository and holds its files.
pub open spec fn marker() -> Seq<char> {
    MARKER@
}

/// The directory of the repository's own files.
pub open spec fn tgit_dir(root: Seq<char>) -> Seq<char> {
    join(root, marker())
}

/// The directory of the object store.
pub open spec fn object_dir(root: Seq<char>) -> Seq<char> {
    join(tgit_dir(root), "objects"@)
}

/// The index file.
pub open spec fn index_path(root: Seq<char>) -> Seq<char> {
    join(tgit_dir(root), "index"@)
}

/// The file that names the current branch.
pub open spec fn head_path(root: Seq<char>) -> Seq<char> {
    join(tgit_dir(root), "HEAD"@)
}

/// The path of `name` inside the directory `dir`.
pub(crate) fn join_path(dir: &str, name: &str) -> (path: String)
    ensures
        path@ == join(dir@, name@),
{
    let mut path = String::from_str(dir);
    path.append("/");
    path.append(name);
    proof {
        reveal_strlit("/");
        assert("/"@ =~= seq!['/']);
    }
    path
}

} // verus!
