//! What files hold, for statements about what the crate's requests do to them.
//!
//! Nothing here runs. A disk is a map from the paths of files to their bytes.
//! [`performed`] says what carrying a request out may make of it, and [`truthful`]
//! what an answer tells of it, so that laws can speak of every moment at which
//! the work may be cut short.

use vstd::prelude::*;

use crate::storage::{Answer, EntryView, Op};

verus! {

/// The files of a disk, by their paths.
pub type Files = Map<Seq<char>, Seq<u8>>;

/// The two disks hold the same, but perhaps at `path`.
pub open spec fn same_but(a: Files, b: Files, path: Seq<char>) -> bool {
    forall|p: Seq<char>|
        p != path ==> {
            &&& #[trigger] a.contains_key(p) == b.contains_key(p)
            &&& a.contains_key(p) ==> a[p] == b[p]
        }
}

/// `files` after what is at `from` was put in the place of what is at `to`.
pub open spec fn moved(files: Files, from: Seq<char>, to: Seq<char>) -> Files {
    files.remove(from).insert(to, files[from])
}

/// What carrying out `op` makes of `before`. A request that is answered with
/// `Done` has had its whole effect. Of any other, and of one that was cut short,
/// a write may have left anything at its path; a rename and a removal have been
/// done or not.
pub open spec fn performed(op: Op, answer: Answer, before: Files, after: Files) -> bool {
    match op {
        Op::WriteSynced { path, data } => if answer is Done {
            after == before.insert(path, data)
        } else {
            same_but(after, before, path)
        },
        Op::Write { path, data } => if answer is Done {
            after == before.insert(path, data)
        } else {
            same_but(after, before, path)
        },
        Op::CreateFile { path } => if answer is Done {
            after == before.insert(path, seq![])
        } else {
            same_but(after, before, path)
        },
        Op::Rename { from, to } => if answer is Done {
            before.contains_key(from) && after == moved(before, from, to)
        } else {
            after == before || (before.contains_key(from) && after == moved(before, from, to))
        },
        Op::Remove { path } => if answer is Done {
            before.contains_key(path) && after == before.remove(path)
        } else {
            after == before || after == before.remove(path)
        },
        _ => after == before,
    }
}

/// `name` is that of an entry of a directory.
pub open spec fn plain(name: Seq<char>) -> bool {
    &&& name.len() > 0
    &&& forall|i: int| 0 <= i < name.len() ==> name[i] != '/'
    &&& name != "."@
    &&& name != ".."@
}

/// `entries` lists, in some order, the files of the directory `dir`, each once
/// and with its size.
pub open spec fn lists(entries: Seq<EntryView>, dir: Seq<char>, files: Files) -> bool {
    &&& forall|i: int| #![trigger entries[i]]
        0 <= i < entries.len() ==> {
            let path = crate::path::joined(dir, entries[i].name);
            &&& plain(entries[i].name)
            &&& files.contains_key(path)
            &&& entries[i].size matches Some(size) && size == files[path].len()
        }
    &&& forall|i: int, j: int|
        0 <= i < j < entries.len() ==> (#[trigger] entries[i]).name != (#[trigger] entries[j]).name
    &&& forall|name: Seq<char>|
        plain(name) && files.contains_key(#[trigger] crate::path::joined(dir, name)) ==> exists|
            i: int,
        |
            0 <= i < entries.len() && (#[trigger] entries[i]).name == name
}

/// `answer` tells what is so of `files`, where it is asked what they hold.
pub open spec fn truthful(op: Op, answer: Answer, files: Files) -> bool {
    match op {
        Op::ListDir { path } => answer matches Answer::Listing(entries) && lists(
            entries,
            path,
            files,
        ),
        Op::Exists { path } => answer == Answer::Present(files.contains_key(path)),
        Op::Size { path } => files.contains_key(path) && (answer matches Answer::Size(size) && size
            == files[path].len()),
        _ => true,
    }
}

/// A request that was carried out: what came back, and what the disk then holds.
pub struct Moment {
    pub answer: Answer,
    pub files: Files,
}

/// Plain names in one directory that have one path are one name.
pub proof fn lemma_same_dir(dir: Seq<char>, a: Seq<char>, b: Seq<char>)
    requires
        plain(a),
        plain(b),
        crate::path::joined(dir, a) == crate::path::joined(dir, b),
    ensures
        a == b,
{
    reveal_strlit("/");
    let x = crate::path::joined(dir, a);
    let y = crate::path::joined(dir, b);
    assert(a[0] != '/' && b[0] != '/');
    assert(a =~= x.subrange(x.len() - a.len(), x.len() as int));
    assert(b =~= y.subrange(y.len() - b.len(), y.len() as int));
}

/// A path below a directory tells the directory, but for a slash at its end, and
/// the name.
proof fn lemma_last_name(x: Seq<char>, a: Seq<char>, y: Seq<char>, b: Seq<char>)
    requires
        plain(a),
        plain(b),
        x + "/"@ + a == y + "/"@ + b,
    ensures
        x == y,
        a == b,
{
    reveal_strlit("/");
    let p = x + "/"@ + a;
    let q = y + "/"@ + b;
    assert(p.len() == x.len() + 1 + a.len() && q.len() == y.len() + 1 + b.len());
    assert(p[x.len() as int] == '/');
    assert(q[y.len() as int] == '/');
    if x.len() < y.len() {
        assert(p[y.len() as int] == a[y.len() - x.len() - 1]);
        assert(false);
    }
    if y.len() < x.len() {
        assert(q[x.len() as int] == b[x.len() - y.len() - 1]);
        assert(false);
    }
    assert(x =~= p.take(x.len() as int));
    assert(y =~= q.take(y.len() as int));
    assert(a =~= p.skip(x.len() as int + 1));
    assert(b =~= q.skip(y.len() as int + 1));
}

/// Files of two sessions under one directory have different paths, and so have
/// two files of one session.
pub proof fn lemma_below(out: Seq<char>, s: Seq<char>, a: Seq<char>, t: Seq<char>, b: Seq<char>)
    requires
        plain(s),
        plain(a),
        plain(t),
        plain(b),
        crate::path::joined(crate::path::joined(out, s), a) == crate::path::joined(
            crate::path::joined(out, t),
            b,
        ),
    ensures
        s == t,
        a == b,
{
    reveal_strlit("/");
    let x = crate::path::joined(out, s);
    let y = crate::path::joined(out, t);
    assert(s[0] != '/' && t[0] != '/' && a[0] != '/' && b[0] != '/');
    assert(x.last() == s.last() && s.last() != '/');
    assert(y.last() == t.last() && t.last() != '/');
    lemma_last_name(x, a, y, b);
    lemma_same_dir(out, s, t);
}

} // verus!
