//! The URL side of a request: from the path that was asked for to the path
//! relative to the served directory.

use crate::path::{leading_separators, without_leading_separators};
use vstd::prelude::*;

verus! {

/// Whether `pattern` stands in `text` at index `at`.
pub open spec fn occurs_at(text: Seq<u8>, pattern: Seq<u8>, at: int) -> bool {
    0 <= at && at + pattern.len() <= text.len() && text.subrange(at, at + pattern.len())
        == pattern
}

/// Whether `at` is the least index at which `pattern` stands in `text`.
pub open spec fn is_first_occurrence(text: Seq<u8>, pattern: Seq<u8>, at: int) -> bool {
    occurs_at(text, pattern, at) && forall|earlier: int|
        0 <= earlier < at ==> !occurs_at(text, pattern, earlier)
}

/// `text` without the first occurrence of `pattern`; `text` itself where
/// `pattern` does not occur.
pub open spec fn without_first(text: Seq<u8>, pattern: Seq<u8>) -> Seq<u8> {
    if exists|at: int| occurs_at(text, pattern, at) {
        let at = choose|at: int| is_first_occurrence(text, pattern, at);
        text.take(at) + text.skip(at + pattern.len())
    } else {
        text
    }
}

/// Whether `pattern` stands in `text` at index `at`.
pub fn matches_at(text: &[u8], pattern: &[u8], at: usize) -> (yes: bool)
    ensures
        yes == occurs_at(text@, pattern@, at as int),
{
    let end = text.len();
    if at > end || pattern.len() > end - at {
        return false;
    }
    let mut i: usize = 0;
    while i < pattern.len()
        invariant
            i <= pattern@.len(),
            at + pattern@.len() <= text@.len() == end,
            forall|j: int| 0 <= j < i ==> text@[at + j] == pattern@[j],
        decreases pattern@.len() - i,
    {
        if text[at + i] != pattern[i] {
            assert(text@.subrange(at as int, at + pattern@.len())[i as int] != pattern@[i as int]);
            return false;
        }
        i += 1;
    }
    assert(text@.subrange(at as int, at + pattern@.len()) =~= pattern@);
    true
}

/// The least index at which `pattern` stands in `text`, if there is one.
pub fn find(text: &[u8], pattern: &[u8]) -> (found: Option<usize>)
    ensures
        match found {
            Some(at) => is_first_occurrence(text@, pattern@, at as int),
            None => forall|at: int| !occurs_at(text@, pattern@, at),
        },
{
    if pattern.len() > text.len() {
        return None;
    }
    if pattern.len() == 0 {
        assert(text@.subrange(0, 0) =~= pattern@);
        return Some(0);
    }
    let last = text.len() - pattern.len();
    let mut at: usize = 0;
    while at <= last
        invariant
            at <= last + 1,
            last < usize::MAX,
            last == text@.len() - pattern@.len(),
            forall|earlier: int| 0 <= earlier < at ==> !occurs_at(text@, pattern@, earlier),
        decreases last + 1 - at,
    {
        if matches_at(text, pattern, at) {
            return Some(at);
        }
        at += 1;
    }
    None
}

/// Copies `text` without the first occurrence of `pattern`.
pub fn remove_first(text: &[u8], pattern: &[u8]) -> (rest: Vec<u8>)
    ensures
        rest@ == without_first(text@, pattern@),
{
    match find(text, pattern) {
        Some(at) => {
            proof {
                let chosen = choose|c: int| is_first_occurrence(text@, pattern@, c);
                assert(is_first_occurrence(text@, pattern@, at as int));
                assert(chosen == at);
            }
            let end = text.len();
            let mut rest = vstd::slice::slice_to_vec(
                vstd::slice::slice_subrange(text, 0, at),
            );
            rest.extend_from_slice(vstd::slice::slice_subrange(text, at + pattern.len(), end));
            assert(rest@ =~= text@.take(at as int) + text@.skip(at + pattern@.len()));
            rest
        },
        None => vstd::slice::slice_to_vec(text),
    }
}

/// The path that is left of `request` below the mount point `prefix`:
/// `request` without the first occurrence of `prefix` and without the
/// separators that then lead it.
pub open spec fn relative_to(prefix: Seq<u8>, request: Seq<u8>) -> Seq<u8> {
    without_leading_separators(without_first(request, prefix))
}

/// Strips `prefix` from `request` once, then every leading separator.
pub fn relative(prefix: &[u8], request: &[u8]) -> (rest: Vec<u8>)
    ensures
        rest@ == relative_to(prefix@, request@),
{
    let stripped = remove_first(request, prefix);
    let skip = leading_separators(stripped.as_slice());
    vstd::slice::slice_to_vec(vstd::slice::slice_subrange(stripped.as_slice(), skip, stripped.len()))
}

} // verus!
