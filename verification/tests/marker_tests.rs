use crabshell::marker::LoadMarker;

#[test]
fn dex_load_marker_allows_only_first_call() {
    let mut marker = LoadMarker::new();
    marker.clear_dex_load_marker_for_tests();

    assert!(marker.try_mark_dex_load_started());
    assert!(!marker.try_mark_dex_load_started());

    marker.clear_dex_load_marker_for_tests();
    assert!(marker.try_mark_dex_load_started());
}

#[test]
fn idempotence_under_dual_entry() {
    // Two loader entry points fire in quick succession; only the first wins,
    // and a failure path may clear the flag for a retry.
    let mut marker = LoadMarker::new();
    assert!(marker.try_mark_dex_load_started());
    assert!(!marker.try_mark_dex_load_started());
    marker.clear_dex_load_marker();
    assert!(marker.try_mark_dex_load_started());
}

#[test]
fn exactly_one_winner_among_many_tries() {
    let mut marker = LoadMarker::new();
    let mut winners = 0;
    for _ in 0..1000 {
        if marker.try_mark_dex_load_started() {
            winners += 1;
        }
    }
    assert_eq!(winners, 1);
}
