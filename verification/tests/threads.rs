use dm_core::threads::thread_count;

#[test]
fn no_parallel_flag_scans_on_one_thread() {
    assert_eq!(thread_count(None, Some(true), 16), None);
}

#[test]
fn an_explicit_count_is_kept() {
    assert_eq!(thread_count(Some(Some(3)), Some(false), 16), Some(3));
}

#[test]
fn solid_state_uses_the_processors_up_to_eight() {
    assert_eq!(thread_count(Some(None), Some(true), 16), Some(8));
    assert_eq!(thread_count(Some(None), Some(true), 6), Some(6));
}

#[test]
fn spinning_disk_scans_on_one_thread() {
    assert_eq!(thread_count(Some(None), Some(false), 16), None);
}

#[test]
fn unknown_disk_uses_four_threads() {
    assert_eq!(thread_count(Some(None), None, 16), Some(4));
}
