use dupfinder::args::{Args, LogLevel};

#[test]
fn new_args_hold_the_defaults() {
    let args = Args::new("/data".to_string());
    assert_eq!(args.path, "/data");
    assert_eq!(args.log_level, LogLevel::Info);
    assert!(!args.follow_links);
    assert!(!args.no_ignore);
    assert!(args.ignore.is_empty());
    assert!(!args.hidden);
    assert_eq!(args.quick_hash_size, 8192);
    assert_eq!(args.quick_buffer_size, 64);
    assert_eq!(args.full_buffer_size, 1);
    assert_eq!(args.output_json, None);
    assert_eq!(args.min_size, 0);
    assert_eq!(args.threads, 0);
}

#[test]
fn worker_threads_are_set_only_when_asked_for() {
    let mut args = Args::new(".".to_string());
    assert_eq!(args.worker_threads(), None);
    args.threads = 8;
    assert_eq!(args.worker_threads(), Some(8));
}

#[test]
fn buffer_sizes_are_given_in_bytes() {
    let mut args = Args::new(".".to_string());
    assert_eq!(args.quick_buffer_bytes(), Some(64 * 1024));
    assert_eq!(args.full_buffer_bytes(), Some(1024 * 1024));
    args.quick_buffer_size = 0;
    args.full_buffer_size = 16;
    assert_eq!(args.quick_buffer_bytes(), Some(0));
    assert_eq!(args.full_buffer_bytes(), Some(16 * 1024 * 1024));
    args.quick_buffer_size = usize::MAX / 1024 + 1;
    args.full_buffer_size = usize::MAX / 1024;
    assert_eq!(args.quick_buffer_bytes(), None);
    assert_eq!(args.full_buffer_bytes(), None);
    args.quick_buffer_size = usize::MAX / 1024;
    assert_eq!(args.quick_buffer_bytes(), Some(usize::MAX / 1024 * 1024));
}
