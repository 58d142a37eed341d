use sysinfo::stat::{parse_stat_file, split_content, Parts, ProcessStatus};

#[test]
fn test_copy_file() {
    assert_eq!(split_content(b"hello\0"), vec![b"hello".to_vec()]);
    assert_eq!(split_content(b"hello"), vec![b"hello".to_vec()]);
    assert_eq!(split_content(b"hello\0b"), vec![b"hello".to_vec(), b"b".to_vec()]);
    assert_eq!(split_content(b"hello\0\0\0\0b"), vec![b"hello".to_vec(), b"b".to_vec()]);
}

fn expected(short_exe: &[u8]) -> Parts {
    Parts {
        short_exe: short_exe.to_vec(),
        status: ProcessStatus::Sleep,
        parent_pid: Some(b"2".to_vec()),
        flags: Some(b"2129984".to_vec()),
        user_time: 14,
        start_time: 21,
        system_time: 28,
        virtual_size: Some(b"66".to_vec()),
        resident_set_size: Some(b"77".to_vec()),
    }
}

#[test]
fn test_parse_stat_file() {
    let content = b"1 (blob) S 2 0 0 0 -1 2129984 0 0 0 0 14 28 0 0 20 0 1 0 21 66 77";
    let data = parse_stat_file(content).unwrap();
    assert_eq!(data, expected(b"blob"));
}

#[test]
fn test_parse_stat_file_short_exe() {
    let content = b"1 (bl()ob) S 2 0 0 0 -1 2129984 0 0 0 0 14 28 0 0 20 0 1 0 21 66 77";
    let data = parse_stat_file(content).unwrap();
    assert_eq!(data, expected(b"bl()ob"));
}

#[test]
fn test_parse_stat_file_long_exe() {
    let content = b"1 (nvidia-modeset/deferred_close_kthread_q) S 2 0 0 0 -1 2129984 0 0 0 0 14 28 0 0 20 0 1 0 21 66 77";
    let data = parse_stat_file(content).unwrap();
    assert_eq!(data, expected(b"nvidia-modeset/deferred_close_kthread_q"));
}

#[test]
fn status_names() {
    assert_eq!(ProcessStatus::from(b'R').to_string(), "Runnable");
    assert_eq!(ProcessStatus::from(b'S').to_string(), "Sleeping");
    assert_eq!(ProcessStatus::from(b'D').to_string(), "UninterruptibleDiskSleep");
    assert_eq!(ProcessStatus::from(b'x').to_string(), "Dead");
    assert_eq!(ProcessStatus::from(b'?').to_string(), "Unknown");
}

#[test]
fn stat_line_sliceable() {
    assert!(sysinfo::stat::stat_sliceable_check(b"1 (init) S 0"));
    assert!(sysinfo::stat::stat_sliceable_check(b"1"));
    assert!(sysinfo::stat::stat_sliceable_check(b"1 noparen"));
    assert!(!sysinfo::stat::stat_sliceable_check(b"1 ) S 0"));
}
