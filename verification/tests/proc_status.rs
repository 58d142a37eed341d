use sysinfo::common::IoCounters;
use sysinfo::proc_status::{uid_and_gid, update_disk_activity, update_optional_path};

#[test]
fn reads_user_and_group_ids() {
    let status = b"Name:\tcat\nUmask:\t0022\nState:\tR (running)\nTgid:\t5\nUid:\t1000\t1001\t1002\t1003\nGid:\t100\t101\t102\t103\nGroups:\t\n";
    assert_eq!(uid_and_gid(status), Some(Some(((1000, 1001), (100, 101)))));
}

#[test]
fn missing_or_bad_ids() {
    assert_eq!(uid_and_gid(b"Uid:\t1\t2\n"), Some(None));
    assert_eq!(uid_and_gid(b"Uid:\nGid:\t7\n"), Some(Some(((0, 0), (7, 0)))));
    assert_eq!(uid_and_gid(b"Uid:\tx\t2\nGid:\t1\t1\n"), Some(None));
    assert_eq!(uid_and_gid(b"\xff\nUid:\t1\t1\nGid:\t1\t1\n"), Some(None));
    // Once both are known the rest is not read.
    assert_eq!(uid_and_gid(b"Gid:\t3\t4\nUid:\t1\t2\nUid:\t9\t9\n"), Some(Some(((1, 2), (3, 4)))));
    // A second user line before the group line trips a debug assertion of the reading.
    assert_eq!(uid_and_gid(b"Uid:\t1\t2\nUid:\t9\t9\nGid:\t3\t4\n"), None);
}

fn io(read: u64, written: u64) -> IoCounters {
    IoCounters { read_bytes: read, old_read_bytes: 0, written_bytes: written, old_written_bytes: 0 }
}

#[test]
fn rolls_disk_counters() {
    let mut c = io(10, 20);
    update_disk_activity(&mut c, b"rchar: 1\nwchar: 2\nsyscr: 3\nread_bytes: 4096\nwrite_bytes: 8192\ncancelled_write_bytes: 0\n");
    assert_eq!(c, IoCounters { read_bytes: 4096, old_read_bytes: 10, written_bytes: 8192, old_written_bytes: 20 });
    let mut c = io(10, 20);
    update_disk_activity(&mut c, b"read_bytes: oops\n");
    assert_eq!(c, IoCounters { read_bytes: 10, old_read_bytes: 10, written_bytes: 20, old_written_bytes: 0 });
    let mut c = io(10, 20);
    update_disk_activity(&mut c, b"read_bytes: 1\nread_bytes: 2\nwrite_bytes: 3\n");
    assert_eq!(c, IoCounters { read_bytes: 2, old_read_bytes: 1, written_bytes: 20, old_written_bytes: 0 });
    let mut c = io(10, 20);
    update_disk_activity(&mut c, b"read_bytes: 1\xff\n");
    assert_eq!(c, io(10, 20));
}

#[test]
fn keeps_known_paths() {
    let mut p = Some(b"/bin/cat".to_vec());
    update_optional_path(&mut p, None);
    assert_eq!(p, Some(b"/bin/cat".to_vec()));
    update_optional_path(&mut p, Some(b"/bin/dog".to_vec()));
    assert_eq!(p, Some(b"/bin/dog".to_vec()));
    let mut q: Option<Vec<u8>> = None;
    update_optional_path(&mut q, None);
    assert_eq!(q, None);
}
