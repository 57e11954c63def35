//! Paths as text.

use vstd::prelude::*;
use vstd::string::*;

verus! {

broadcast use vstd::string::group_string_axioms;

/// `base` with `rest` below it: `rest` alone if it is absolute, else the two with
/// one slash between them, unless `base` is empty or ends in one.
pub open spec fn joined(base: Seq<char>, rest: Seq<char>) -> Seq<char> {
    if rest.len() > 0 && rest[0] == '/' {
        rest
    } else if base.len() == 0 || base.last() == '/' {
        base + rest
    } else {
        base + "/"@ + rest
    }
}

/// `base` with `rest` below it.
pub fn join(base: &str, rest: &str) -> (path: String)
    ensures
        path@ == joined(base@, rest@),
{
    if !rest.is_empty() && rest.get_char(0) == '/' {
        return rest.to_owned();
    }
    let mut path: String = base.to_owned();
    let len: usize = base.unicode_len();
    if len > 0 && base.get_char(len - 1) != '/' {
        path.append("/");
    }
    path.append(rest);
    path
}

/// A path below a directory starts with the directory and ends with what is below
/// it, with one slash between them, which the directory may end in; below nothing,
/// and where it starts with a slash, the second is the path.
pub proof fn joined_paths_keep_both_parts(base: Seq<char>, rest: Seq<char>)
    ensures
        base.len() == 0 || (rest.len() > 0 && rest[0] == '/') ==> joined(base, rest) == rest,
        base.len() > 0 && base.last() == '/' && !(rest.len() > 0 && rest[0] == '/') ==> joined(
            base,
            rest,
        ) == base + rest,
        base.len() > 0 && base.last() != '/' && !(rest.len() > 0 && rest[0] == '/') ==> joined(
            base,
            rest,
        ) == base.push('/') + rest,
{
    reveal_strlit("/");
    if base.len() == 0 {
        assert(base + rest =~= rest);
    }
    assert(base + "/"@ + rest =~= base.push('/') + rest);
}

} // verus!
