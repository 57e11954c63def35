//! Single-instance guard: an exclusive lock that is tried without waiting, on
//! `.witness.lock` in the output directory.

use vstd::prelude::*;

use crate::path::join;
use crate::storage::LockOutcome;

verus! {

/// The path of the lock file in `dir`.
pub open spec fn lock_path_of(dir: Seq<char>) -> Seq<char> {
    crate::path::joined(dir, ".witness.lock"@)
}

/// The path of the lock file in `dir`.
pub fn lock_path(dir: &str) -> (path: String)
    ensures
        path@ == lock_path_of(dir@),
{
    join(dir, ".witness.lock")
}

/// What a non-blocking `flock` that returned `ret` came to.
pub open spec fn outcome_of(ret: int, would_block: bool) -> LockOutcome {
    if ret == 0 {
        LockOutcome::Acquired
    } else if would_block {
        LockOutcome::Busy
    } else {
        LockOutcome::Failed
    }
}

/// What a non-blocking `flock` that returned `ret` came to; `would_block` tells
/// whether the error that it left says that it would have had to wait.
pub fn flock_outcome(ret: i32, would_block: bool) -> (outcome: LockOutcome)
    ensures
        outcome is Acquired <==> ret == 0,
        outcome is Busy <==> ret != 0 && would_block,
        outcome is Failed <==> ret != 0 && !would_block,
        outcome == outcome_of(ret as int, would_block),
{
    if ret == 0 {
        LockOutcome::Acquired
    } else if would_block {
        LockOutcome::Busy
    } else {
        LockOutcome::Failed
    }
}

/// The lock file is `.witness.lock` in the directory.
pub proof fn lock_file_is_in_the_directory(dir: Seq<char>)
    requires
        dir.len() > 0 && dir.last() != '/',
    ensures
        lock_path_of(dir) == dir + "/.witness.lock"@,
{
    reveal_strlit("/");
    reveal_strlit(".witness.lock");
    reveal_strlit("/.witness.lock");
    assert(dir + "/"@ + ".witness.lock"@ =~= dir + "/.witness.lock"@);
}

/// The lock is taken where the call returns zero, whatever an error from before says,
/// and nowhere else; what the other values are makes no difference.
pub proof fn lock_is_taken_only_at_zero(a: int, b: int, error: bool, other: bool)
    requires
        a != 0,
        b != 0,
    ensures
        outcome_of(0, error) == outcome_of(0, other),
        outcome_of(0, error) is Acquired,
        outcome_of(a, error) == outcome_of(b, error),
        outcome_of(a, error) !is Acquired,
        outcome_of(a, error) == outcome_of(b, other) <==> error == other,
        outcome_of(a, true) is Busy,
{
}

} // verus!
