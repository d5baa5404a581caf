use harmonicon::drawer::{sync_tab_index, tab_change, TabChange};

#[test]
fn closing_records_a_reachable_index_and_opening_restores_it() {
    assert_eq!(
        tab_change(false, 0, None),
        TabChange::Suppress { original: 0 }
    );
    assert_eq!(
        tab_change(false, 3, None),
        TabChange::Suppress { original: 3 }
    );
    assert_eq!(
        tab_change(true, -1, Some(3)),
        TabChange::Restore { original: 3 }
    );
}

#[test]
fn an_already_unreachable_index_is_left_unreachable_both_ways() {
    // A closed combobox's items: -1 before, -1 after, whatever the drawer
    // around them does.
    assert_eq!(tab_change(false, -1, None), TabChange::Keep);
    assert_eq!(tab_change(true, -1, None), TabChange::Keep);
}

#[test]
fn repeated_syncs_are_idempotent() {
    // Closed twice: the second pass must not record `-1` as the original.
    assert_eq!(tab_change(false, -1, Some(0)), TabChange::Keep);
    // Open twice: nothing left to restore.
    assert_eq!(tab_change(true, 0, None), TabChange::Keep);
}

#[test]
fn a_closed_drawer_hides_its_tab_stops() {
    assert_eq!(sync_tab_index(false, 0, None), (-1, Some(0)));
    assert_eq!(sync_tab_index(false, -1, None), (-1, None));
}

#[test]
fn reopening_restores_exactly_what_was_there() {
    let (reachable, recorded) = sync_tab_index(false, 0, None);
    let (unreachable, none) = sync_tab_index(false, -1, None);
    assert_eq!(sync_tab_index(true, reachable, recorded), (0, None));
    assert_eq!(
        sync_tab_index(true, unreachable, none),
        (-1, None),
        "something unreachable before the drawer closed stays unreachable"
    );
}
