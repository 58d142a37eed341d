use sysinfo::linux_disk::DisksInner;
use sysinfo::common::IoCounters;
use sysinfo::linux_disk::{
    device_step, disk_io, disk_mount_entries, kind_from_rotational, parse_isize_range,
    replace_bytes, DeviceStep, DiskInner, DiskKind, DiskStatRow, FsStat,
};

#[test]
fn disk_kinds() {
    assert_eq!(kind_from_rotational(b"1\n"), DiskKind::HDD);
    assert_eq!(kind_from_rotational(b"0"), DiskKind::SSD);
    assert_eq!(kind_from_rotational(b" 7 "), DiskKind::Unknown(7));
    assert_eq!(kind_from_rotational(b"-3"), DiskKind::Unknown(-3));
    assert_eq!(kind_from_rotational(b""), DiskKind::Unknown(-1));
    assert_eq!(kind_from_rotational(b"x"), DiskKind::Unknown(-1));
    assert_eq!(kind_from_rotational(b"\xff1"), DiskKind::Unknown(-1));
}

#[test]
fn parses_isize() {
    assert_eq!(parse_isize_range(b"-9223372036854775808", 0, 20), Some(isize::MIN));
    assert_eq!(parse_isize_range(b"9223372036854775807", 0, 19), Some(isize::MAX));
    assert_eq!(parse_isize_range(b"9223372036854775808", 0, 19), None);
    assert_eq!(parse_isize_range(b"+5", 0, 2), Some(5));
    assert_eq!(parse_isize_range(b"-+5", 0, 3), None);
    assert_eq!(parse_isize_range(b"-", 0, 1), None);
}

#[test]
fn replaces_patterns() {
    assert_eq!(replace_bytes(b"a\\040b\\040", b"\\040", b" "), b"a b ".to_vec());
    assert_eq!(replace_bytes(b"aaa", b"aa", b"b"), b"ba".to_vec());
}

#[test]
fn lists_disk_mounts() {
    let mounts = b"sysfs /sys sysfs rw 0 0\n\
proc /proc proc rw 0 0\n\
/dev/sda1 / ext4 rw 0 0\n\
tmpfs /run tmpfs rw 0 0\n\
/dev/sdb1 /run/media/usb vfat rw 0 0\n\
/dev/sdc1 /run/other ext4 rw 0 0\n\
/dev/sdd1 /mnt/with\\040space xfs rw 0 0\n\
sunrpc /var/lib/nfs/rpc_pipefs rpc_pipefs rw 0 0\n\
sunrpcx /mnt/x ext4 rw 0 0\n\
server:/export /mnt/nfs nfs4 rw 0 0\n\
   /dev/sde1   /data   btrfs rw 0 0\n";
    let disks = disk_mount_entries(mounts);
    let points: Vec<Vec<u8>> = disks.iter().map(|d| d.mount_point.clone()).collect();
    assert_eq!(
        points,
        vec![b"/".to_vec(), b"/run/media/usb".to_vec(), b"/mnt/with space".to_vec(), b"/data".to_vec()]
    );
    assert_eq!(disks[0].device, b"/dev/sda1".to_vec());
    assert_eq!(disks[3].file_system, b"btrfs".to_vec());
    assert!(disk_mount_entries(b"/dev/sda1 / ext4 rw 0 0\n\xff\n").is_empty());
}

#[test]
fn decodes_mount_points_in_order() {
    let disks = disk_mount_entries(b"/dev/x /a\\134040b ext4 rw 0 0\n");
    assert_eq!(disks[0].mount_point, b"/a b".to_vec());
}

fn block(s: Option<DeviceStep>) -> Vec<u8> {
    match s {
        Some(DeviceStep::Block(b)) => b,
        _ => panic!("not a block name"),
    }
}

#[test]
fn finds_block_devices() {
    assert_eq!(block(device_step(b"/dev/sda1", b"/dev/sda1")), b"sda".to_vec());
    assert_eq!(block(device_step(b"/dev/vdb12", b"/dev/vdb12")), b"vdb".to_vec());
    assert_eq!(block(device_step(b"/dev/nvme0n1p2", b"/dev/nvme0n1p2")), b"nvme0n1".to_vec());
    assert_eq!(block(device_step(b"/dev/nvme0n1", b"/dev/nvme0n1")), b"nvme0n1".to_vec());
    assert_eq!(block(device_step(b"/dev/mmcblk0p1", b"/dev/mmcblk0p1")), b"mmcblk0".to_vec());
    assert_eq!(block(device_step(b"/dev/dm-0", b"/dev/dm-0")), b"dm-0".to_vec());
    assert!(matches!(device_step(b"/dev/mapper/root", b"/dev/dm-1"), Some(DeviceStep::Resolve(p)) if p == b"/dev/dm-1".to_vec()));
    assert!(matches!(device_step(b"/dev/root", b"/dev/mmcblk0p2"), Some(DeviceStep::Resolve(_))));
    assert_eq!(block(device_step(b"/dev/root", b"/dev/root")), b"/dev/root".to_vec());
    // A partition path too short for its slice: the original panics.
    assert!(device_step(b"/dev/nvme0", b"/p").is_none());
}

#[test]
fn looks_up_disk_traffic() {
    let stats = vec![
        DiskStatRow { name: b"sda".to_vec(), sectors_read: 2, sectors_written: 4 },
        DiskStatRow { name: b"sdb".to_vec(), sectors_read: 1, sectors_written: 1 },
        DiskStatRow { name: b"sda".to_vec(), sectors_read: 9, sectors_written: 9 },
    ];
    assert_eq!(disk_io(&stats, b"sda"), Some(Some((1024, 2048))));
    assert_eq!(disk_io(&stats, b"sdc"), Some(None));
    let huge = vec![DiskStatRow { name: b"x".to_vec(), sectors_read: u64::MAX, sectors_written: 0 }];
    assert_eq!(disk_io(&huge, b"x"), None);
}

#[test]
fn builds_and_refreshes_disks() {
    let stat = FsStat { block_size: 4096, blocks: 10, blocks_available: 4, read_only: true };
    let removable = vec![b"/dev/sdb".to_vec()];
    let d = DiskInner::new_disk(
        b"/dev/sdb".to_vec(), b"/media".to_vec(), b"vfat".to_vec(), DiskKind::SSD,
        Some(stat), &removable, b"sdb".to_vec(), Some((512, 1024)),
    )
    .unwrap();
    assert_eq!(d.total_space, 40960);
    assert_eq!(d.available_space, 16384);
    assert!(d.is_removable);
    assert!(d.is_read_only);
    assert_eq!(d.io, IoCounters { read_bytes: 512, written_bytes: 1024, old_read_bytes: 0, old_written_bytes: 0 });
    assert!(DiskInner::new_disk(b"a".to_vec(), b"/".to_vec(), b"x".to_vec(), DiskKind::HDD, None, &[], b"a".to_vec(), None).is_none());

    let mut d = d;
    assert!(!d.efficient_refresh(None, Some(stat)));
    assert_eq!(d.io.read_bytes, 512);
    let fuller = FsStat { blocks_available: 1, ..stat };
    assert!(d.efficient_refresh(Some((2048, 4096)), Some(fuller)));
    assert_eq!(d.io, IoCounters { read_bytes: 2048, written_bytes: 4096, old_read_bytes: 512, old_written_bytes: 1024 });
    assert_eq!(d.available_space, 4096);
    assert!(!d.efficient_refresh(Some((2048, 4096)), None));
}

#[test]
fn disk_list_keeps_the_disks_found() {
    let stat = FsStat { block_size: 4096, blocks: 100, blocks_available: 40, read_only: false };
    let d = DiskInner::new_disk(
        b"/dev/sda1".to_vec(),
        b"/".to_vec(),
        b"ext4".to_vec(),
        DiskKind::SSD,
        Some(stat),
        &[],
        b"sda1".to_vec(),
        Some((1024, 2048)),
    );
    let none = DiskInner::new_disk(
        b"none".to_vec(),
        b"/x".to_vec(),
        b"ext4".to_vec(),
        DiskKind::SSD,
        None,
        &[],
        b"none".to_vec(),
        None,
    );
    assert!(none.is_none());
    let mut disks = DisksInner::new();
    disks.refresh_list(vec![none, d]);
    assert_eq!(disks.list().len(), 1);
    let disk = &disks.list()[0];
    assert_eq!(disk.name(), b"/dev/sda1");
    assert_eq!(disk.mount_point(), b"/");
    assert_eq!(disk.file_system(), b"ext4");
    assert_eq!(disk.kind(), DiskKind::SSD);
    assert_eq!(disk.total_space(), 409_600);
    assert_eq!(disk.available_space(), 163_840);
    assert!(!disk.is_removable());
    assert!(!disk.is_read_only());
    assert_eq!(disk.usage().total_written_bytes, 2048);
    for disk in disks.list_mut().iter_mut() {
        disk.efficient_refresh(Some((2048, 2048)), None);
    }
    assert_eq!(disks.list()[0].usage().read_bytes, 1024);
    disks.refresh_list(Vec::new());
    assert!(disks.list().is_empty());
}
