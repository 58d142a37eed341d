use sysinfo::common::IoCounters;
use sysinfo::linux_disk::DiskKind;
use sysinfo::windisk::{
    device_path_of, io_from_performance, kind_from_seek_penalty, lists_drive,
    split_multi_strings, volume_disks, wide_before_nul, DiskInner, DiskRefreshKind, DisksInner,
    VolumeReadings,
};

fn wide(s: &str) -> Vec<u16> {
    s.encode_utf16().collect()
}

fn wide_nul(s: &str) -> Vec<u16> {
    let mut v = wide(s);
    v.push(0);
    v
}

fn zero_io() -> IoCounters {
    IoCounters { read_bytes: 0, written_bytes: 0, old_read_bytes: 0, old_written_bytes: 0 }
}

fn disk(mount: &str, total: u64) -> DiskInner {
    DiskInner {
        kind: DiskKind::Unknown(-1),
        name: wide("data"),
        file_system: wide("NTFS"),
        mount_point: wide_nul(mount),
        s_mount_point: wide(mount),
        total_space: total,
        available_space: total / 2,
        is_removable: false,
        is_read_only: false,
        device_path: wide_nul("\\\\?\\Volume{1}"),
        io: zero_io(),
    }
}

#[test]
fn wide_string_before_nul() {
    let mut buf = wide("NTFS");
    buf.extend_from_slice(&[0, 65, 66]);
    assert_eq!(wide_before_nul(&buf), wide("NTFS"));
    assert_eq!(wide_before_nul(&wide("abc")), wide("abc"));
    assert_eq!(wide_before_nul(&[0, 1, 2]), Vec::<u16>::new());
}

#[test]
fn multi_strings_split_at_each_nul() {
    let mut buf = wide_nul("C:\\");
    buf.extend(wide_nul("D:\\mnt\\"));
    buf.push(0);
    buf.extend(wide_nul("ignored"));
    let parts = split_multi_strings(&buf);
    assert_eq!(parts, vec![wide_nul("C:\\"), wide_nul("D:\\mnt\\")]);
    assert!(split_multi_strings(&[0, 0]).is_empty());
    assert!(split_multi_strings(&[]).is_empty());
}

#[test]
fn device_path_drops_the_last_backslash() {
    let name = wide_nul("\\\\?\\Volume{abc}\\");
    assert_eq!(device_path_of(&name), wide_nul("\\\\?\\Volume{abc}"));
}

#[test]
fn seek_penalty_kinds() {
    assert_eq!(kind_from_seek_penalty(false, true, true), DiskKind::Unknown(-1));
    assert_eq!(kind_from_seek_penalty(true, false, false), DiskKind::Unknown(-1));
    assert_eq!(kind_from_seek_penalty(true, true, true), DiskKind::HDD);
    assert_eq!(kind_from_seek_penalty(true, true, false), DiskKind::SSD);
}

#[test]
fn performance_counters() {
    assert_eq!(io_from_performance(10, 20), Some((10, 20)));
    assert_eq!(io_from_performance(-1, 20), None);
    assert_eq!(io_from_performance(10, -5), None);
    assert!(lists_drive(true, false));
    assert!(lists_drive(false, true));
    assert!(!lists_drive(false, false));
}

#[test]
fn disks_of_a_volume() {
    let refreshes = DiskRefreshKind { kind: true, details: true, io_usage: true };
    let mut name = wide("data");
    name.extend_from_slice(&[0, 9, 9]);
    let mut fs = wide("NTFS");
    fs.push(0);
    let readings = VolumeReadings {
        name,
        file_system: fs,
        read_only: true,
        size: Some((1000, 400)),
        kind: DiskKind::SSD,
        io: Some((7, 8)),
    };
    let volume = wide_nul("\\\\?\\Volume{1}\\");
    let paths = vec![wide_nul("C:\\"), wide_nul("E:\\x\\")];
    let disks = volume_disks(refreshes, true, &volume, &readings, paths);
    assert_eq!(disks.len(), 2);
    assert_eq!(disks[0].mount_point, wide_nul("C:\\"));
    assert_eq!(disks[0].s_mount_point, wide("C:\\"));
    assert_eq!(disks[1].s_mount_point, wide("E:\\x\\"));
    assert_eq!(disks[1].name, wide("data"));
    assert_eq!(disks[1].file_system, wide("NTFS"));
    assert_eq!(disks[1].device_path, wide_nul("\\\\?\\Volume{1}"));
    assert_eq!(disks[0].kind(), DiskKind::SSD);
    assert_eq!(disks[0].total_space(), 1000);
    assert_eq!(disks[0].available_space(), 400);
    assert!(disks[0].is_removable());
    assert!(disks[0].is_read_only());
    assert_eq!(disks[0].usage().total_read_bytes, 7);
    assert_eq!(disks[0].usage().total_written_bytes, 8);

    let lean = DiskRefreshKind { kind: false, details: false, io_usage: false };
    let plain = volume_disks(lean, true, &volume, &readings, vec![wide_nul("C:\\")]);
    assert_eq!(plain[0].kind(), DiskKind::Unknown(-1));
    assert_eq!(plain[0].total_space(), 0);
    assert!(!plain[0].is_removable());
    assert!(!plain[0].is_read_only());
    assert_eq!(plain[0].usage().total_read_bytes, 0);
}

#[test]
fn refresh_of_a_disk() {
    let mut d = disk("C:\\", 100);
    d.io = IoCounters { read_bytes: 5, written_bytes: 6, old_read_bytes: 0, old_written_bytes: 0 };
    let all = DiskRefreshKind { kind: true, details: true, io_usage: true };
    assert!(d.needs_kind(all));
    let r = d.refresh_specifics(all, DiskKind::HDD, Some((15, 26)), Some((300, 100)));
    assert!(!r);
    assert_eq!(d.kind(), DiskKind::HDD);
    assert!(!d.needs_kind(all));
    let u = d.usage();
    assert_eq!(u.total_read_bytes, 15);
    assert_eq!(u.read_bytes, 10);
    assert_eq!(u.written_bytes, 20);
    assert_eq!(d.total_space(), 300);
    assert_eq!(d.available_space(), 100);

    // The kind once known stays; unreadable traffic ends the refresh.
    d.refresh_specifics(all, DiskKind::SSD, None, Some((1, 1)));
    assert_eq!(d.kind(), DiskKind::HDD);
    assert_eq!(d.total_space(), 300);

    let details = DiskRefreshKind { kind: false, details: true, io_usage: false };
    d.refresh_specifics(details, DiskKind::SSD, None, None);
    assert_eq!(d.total_space(), 0);
    assert_eq!(d.available_space(), 0);
}

#[test]
fn disk_list_refresh() {
    let mut list = DisksInner::new();
    assert!(list.list().is_empty());
    list.refresh_list_specifics(vec![vec![disk("C:\\", 1), disk("D:\\", 2)], vec![], vec![disk("E:\\", 3)]]);
    let totals: Vec<u64> = list.list().iter().map(|d| d.total_space()).collect();
    assert_eq!(totals, vec![1, 2, 3]);
    list.list_mut().pop();
    assert_eq!(list.list().len(), 2);
    let back = DisksInner::from_vec(list.into_vec());
    assert_eq!(back.list().len(), 2);
}
