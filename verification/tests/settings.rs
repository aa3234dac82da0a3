use rage::{
    default_max_cores, raised_open_files_limit, select_worker_threads, step_pause,
    worker_time_limit, CoreSelection,
};

#[test]
fn omitted_max_cores_means_all() {
    assert_eq!(default_max_cores(), -1);
    assert_eq!(select_worker_threads(default_max_cores(), 8), (8, CoreSelection::AllCores));
}

#[test]
fn worker_threads_follow_max_cores() {
    assert_eq!(select_worker_threads(0, 8), (8, CoreSelection::InvalidRequest));
    assert_eq!(select_worker_threads(-5, 8), (8, CoreSelection::InvalidRequest));
    assert_eq!(select_worker_threads(16, 8), (8, CoreSelection::CappedAtHardware));
    assert_eq!(select_worker_threads(8, 8), (8, CoreSelection::Requested));
    assert_eq!(select_worker_threads(3, 8), (3, CoreSelection::Requested));
}

#[test]
fn open_files_limit_is_raised_to_target() {
    assert_eq!(raised_open_files_limit(1024, 1_048_576), Some(65536));
    assert_eq!(raised_open_files_limit(1024, 4096), Some(4096));
    assert_eq!(raised_open_files_limit(65536, 1_048_576), None);
    assert_eq!(raised_open_files_limit(100_000, 100_000), None);
}

#[test]
fn pause_only_without_tps_target() {
    assert_eq!(step_pause(None, Some(2)), Some(2));
    assert_eq!(step_pause(Some(100), Some(2)), None);
    assert_eq!(step_pause(None, None), None);
}

#[test]
fn time_limit_is_remaining_runtime_or_session() {
    let s = 1_000_000_000u128;
    assert_eq!(worker_time_limit(60, 10 * s, None), 50 * s);
    assert_eq!(worker_time_limit(60, 10 * s, Some(5)), 5 * s);
    assert_eq!(worker_time_limit(60, 10 * s, Some(100)), 50 * s);
    assert_eq!(worker_time_limit(60, 70 * s, Some(5)), 0);
    assert_eq!(worker_time_limit(60, 500, None), 60 * s - 500);
}
