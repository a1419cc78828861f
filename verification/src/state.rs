//! Application state handed from the launcher to the window: the path the
//! program was started with, and an update found at startup.  Both wait
//! until the window takes them, because an event sent before the window
//! listens is lost.
use vstd::prelude::*;

use crate::updater::UpdateInfo;

verus! {

/// The path the program was opened with, waiting for the window to take
/// it (the caller keeps it behind a lock).
pub struct PendingFile(pub Option<String>);

/// An update found by the startup check, waiting for the window.
pub struct PendingUpdate(pub Option<UpdateInfo>);

/// The pending path after storing `path`: the latest path wins.
pub open spec fn after_set(pending: Option<String>, path: String) -> Option<String> {
    Some(path)
}

/// Taking the pending path: it is handed out and nothing is left.
pub open spec fn after_take(pending: Option<String>) -> (Option<String>, Option<String>) {
    (None, pending)
}

/// The first of `args[i..]` that names an existing file or folder
/// (`exists[i]` for `args[i]`).
pub open spec fn first_existing_from(args: Seq<String>, exists: Seq<bool>, i: int) -> Option<String>
    decreases args.len() - i,
{
    if i < 0 || i >= args.len() {
        None
    } else if exists[i] {
        Some(args[i])
    } else {
        first_existing_from(args, exists, i + 1)
    }
}

/// Finds the path the program was opened with: the first argument after the
/// program's own path (`args[0]`) that names an existing file or folder
/// (`exists[i]` for `args[i]`).
pub fn extract_path_from_args(args: &[String], exists: &[bool]) -> (res: Option<String>)
    requires
        args@.len() == exists@.len(),
    ensures
        res == first_existing_from(args@, exists@, 1),
{
    let mut i: usize = 1;
    while i < args.len()
        invariant
            1 <= i,
            args@.len() == exists@.len(),
            first_existing_from(args@, exists@, 1) == first_existing_from(args@, exists@, i as int),
        decreases args.len() - i,
    {
        if exists[i] {
            return Some(args[i].clone());
        }
        i = i + 1;
    }
    None
}

/// Stores the latest path to hand to the window.
pub fn set_pending_file(state: &mut PendingFile, path: String)
    ensures
        final(state).0 == after_set(old(state).0, path),
{
    state.0 = Some(path);
}

/// Hands out the pending path once.
pub fn take_pending_file_impl(state: &mut PendingFile) -> (res: Option<String>)
    ensures
        (final(state).0, res) == after_take(old(state).0),
{
    state.0.take()
}

/// A stored path is what the next take hands out.
pub proof fn lemma_take_returns_latest(pending: Option<String>, first: String, second: String)
    ensures
        after_take(after_set(pending, first)).1 == Some(first),
        after_take(after_set(after_set(pending, first), second)).1 == Some(second),
{
}

/// A take is one-shot: a second take finds nothing.
pub proof fn lemma_take_is_one_shot(pending: Option<String>)
    ensures
        after_take(after_take(pending).0).1 is None,
{
}

} // verus!
