//! Quoted text, as the standard library's debug formatting writes it.

use vstd::prelude::*;

verus! {

/// What `{:?}` writes for a string with the characters `s`.
pub uninterp spec fn debug_text(s: Seq<char>) -> Seq<char>;

/// Formats `s` with `{:?}`, which calls `<str as std::fmt::Debug>::fmt`. Claimed
/// is that the outcome depends on the characters of `s` alone; which characters
/// it escapes, and how, is left unsaid.
#[verifier::external_body]
pub(crate) fn quoted(s: &str) -> (text: String)
    ensures
        text@ == debug_text(s@),
{
    format!("{:?}", s)
}

/// What `{:?}` writes for a path whose text is `s`.
pub uninterp spec fn path_debug_text(s: Seq<char>) -> Seq<char>;

/// Formats the path `s` with `{:?}`, which calls `<std::path::Path as
/// std::fmt::Debug>::fmt`. Claimed is that the outcome depends on the characters
/// of `s` alone; which characters it escapes, and how, is left unsaid.
#[verifier::external_body]
pub(crate) fn quoted_path(s: &str) -> (text: String)
    ensures
        text@ == path_debug_text(s@),
{
    format!("{:?}", std::path::Path::new(s))
}

} // verus!
