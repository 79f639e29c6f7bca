//! Paths relative to the root of a workspace.

use vstd::prelude::*;

verus! {

/// A path that starts at the root of the file system.
pub open spec fn absolute(path: Seq<char>) -> bool {
    path.len() > 0 && path[0] == '/'
}

/// A relative path below a directory: a separator is put between them where the directory
/// has a name that does not end in one.
pub open spec fn joined(directory: Seq<char>, path: Seq<char>) -> Seq<char> {
    if directory.len() > 0 && directory.last() != '/' {
        directory + "/"@ + path
    } else {
        directory + path
    }
}

/// Where a path of the workspace lies: an absolute path where it says, another one below
/// the root of the workspace.
pub open spec fn resolved(root: Seq<char>, path: Seq<char>) -> Seq<char> {
    if absolute(path) {
        path
    } else {
        joined(root, path)
    }
}

/// Where a path of the workspace lies.
pub fn resolve_workspace_path(root: &str, path: &str) -> (result: String)
    ensures
        result@ == resolved(root@, path@),
{
    if path.unicode_len() > 0 && path.get_char(0) == '/' {
        return path.to_owned();
    }
    let n: usize = root.unicode_len();
    let mut result: String = root.to_owned();
    if n > 0 && root.get_char(n - 1) != '/' {
        result.append("/");
    }
    result.append(path);
    result
}

/// A resolved path stays where it is when it is resolved again, below an absolute root.
pub proof fn law_resolving_twice(root: Seq<char>, path: Seq<char>)
    requires
        absolute(root),
    ensures
        absolute(resolved(root, path)),
        resolved(root, resolved(root, path)) == resolved(root, path),
{
    reveal_strlit("/");
}

} // verus!
