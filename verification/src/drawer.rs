//! A collapsible panel's focus rule: closing a drawer takes its contents
//! out of the Tab order, and opening it puts back exactly what was there.
//!
//! Suppression is reversible, not a blanket rewrite: closing records each
//! focusable descendant's own `TabIndex` before pushing it negative, and
//! opening restores exactly that value. Something that was deliberately
//! unreachable before the drawer closed stays unreachable when it opens.
use vstd::prelude::*;

verus! {

/// What closing or opening a drawer does to one descendant's `TabIndex`.
#[derive(Clone, Copy, Debug, PartialEq, Eq, Structural)]
pub enum TabChange {
    /// Leave it alone.
    Keep,
    /// Remember `original`, then make it unreachable.
    Suppress { original: i32 },
    /// Put back what it was before the drawer closed.
    Restore { original: i32 },
}

/// The rule, stated once.
pub open spec fn spec_tab_change(open: bool, current: i32, suppressed: Option<i32>) -> TabChange {
    if open && suppressed is Some {
        TabChange::Restore { original: suppressed.unwrap() }
    } else if !open && suppressed is None && current >= 0 {
        TabChange::Suppress { original: current }
    } else {
        TabChange::Keep
    }
}

/// What happens to a descendant with `TabIndex` `current` (and the index
/// recorded when its drawer closed, if any) when its drawer is synced
/// `open` or closed. A descendant that was already unreachable (negative)
/// when the drawer closed is not recorded, so opening leaves it
/// unreachable too.
pub fn tab_change(open: bool, current: i32, suppressed: Option<i32>) -> (c: TabChange)
    ensures
        c == spec_tab_change(open, current, suppressed),
{
    match (open, suppressed) {
        (true, Some(original)) => TabChange::Restore { original },
        (false, None) if current >= 0 => TabChange::Suppress { original: current },
        _ => TabChange::Keep,
    }
}

/// A descendant's focus state after a sync: its `TabIndex` and the index
/// recorded for it, if any.
pub open spec fn synced(open: bool, state: (i32, Option<i32>)) -> (i32, Option<i32>) {
    match spec_tab_change(open, state.0, state.1) {
        TabChange::Keep => state,
        TabChange::Suppress { original } => (-1i32, Some(original)),
        TabChange::Restore { original } => (original, None),
    }
}

/// Applies one sync to a descendant: the `TabIndex` it ends with and the
/// index recorded for it.
pub fn sync_tab_index(open: bool, current: i32, suppressed: Option<i32>) -> (r: (i32, Option<i32>))
    ensures
        r == synced(open, (current, suppressed)),
{
    match tab_change(open, current, suppressed) {
        TabChange::Keep => (current, suppressed),
        TabChange::Suppress { original } => (-1, Some(original)),
        TabChange::Restore { original } => (original, None),
    }
}

/// Closing a drawer over an unsuppressed descendant and opening it again
/// restores exactly the `TabIndex` it had, reachable or not, and leaves
/// nothing recorded.
pub proof fn law_reopening_restores_exactly_what_was_there(index: i32)
    ensures
        synced(true, synced(false, (index, None))) == (index, None::<i32>),
        index >= 0 ==> synced(false, (index, None)).0 < 0,
{
}

/// Syncing twice the same way is the same as syncing once.
pub proof fn law_repeated_syncs_are_idempotent(open: bool, state: (i32, Option<i32>))
    requires
        state.1 is Some ==> state.0 < 0,
    ensures
        synced(open, synced(open, state)) == synced(open, state),
{
}

} // verus!
