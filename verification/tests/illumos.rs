use sysinfo::illumos::{
    devfs_path, is_display_controller, is_pseudo_file_system, mnttab_entries, parse_id_and_name,
    parse_mnttab_line, parse_pci_names, pci_from_reg, unescape_mnttab, PCI,
};

#[test]
fn tmpfs_is_not_a_disk() {
    assert!(is_pseudo_file_system(b"tmpfs"));
}

#[test]
fn pseudo_file_systems_are_exactly_the_listed_ones() {
    for fs in [
        "autofs", "bootfs", "ctfs", "dev", "devfs", "fd", "lofs", "mntfs", "objfs", "proc",
        "sharefs", "tmpfs",
    ] {
        assert!(is_pseudo_file_system(fs.as_bytes()), "{fs}");
    }
    for fs in ["zfs", "ufs", "nfs", "tmp", "tmpfs2", ""] {
        assert!(!is_pseudo_file_system(fs.as_bytes()), "{fs}");
    }
}

#[test]
fn extracts_devfs_node_path() {
    assert_eq!(
        devfs_path(b"/devices/pci@0,0/pci1af4,2@3/blkdev@0,0:a"),
        Some(b"/pci@0,0/pci1af4,2@3/blkdev@0,0".to_vec()),
    );
    assert!(devfs_path(b"/dev/dsk/c1t0d0s0").is_none());
}

#[test]
fn devfs_path_needs_a_minor_name() {
    assert!(devfs_path(b"/devices/pci@0,0/blkdev@0,0").is_none());
    assert_eq!(devfs_path(b"/devices:a:b"), Some(b":a".to_vec()));
}

#[test]
fn display_controller_class() {
    assert!(is_display_controller(0x030000));
    assert!(is_display_controller(0x030200));
    assert!(!is_display_controller(0x020000));
}

#[test]
fn pci_location_from_reg() {
    assert_eq!(
        pci_from_reg(0x00001800),
        PCI {
            domain: 0,
            bus: 0,
            device: 3,
            function: 0,
        }
    );
    assert_eq!(
        pci_from_reg(0x00122b00),
        PCI {
            domain: 0,
            bus: 0x12,
            device: 5,
            function: 3,
        }
    );
}

#[test]
fn pci_id_names() {
    let data = b"\
1234  Example Devices, Inc.\n\
\t1111  Example GPU\n\
\t\t1234 5678  Example subsystem\n\
\t2222  Another GPU\n\
abcd  Other Vendor\n\
C 00  Unclassified device\n";

    assert_eq!(
        parse_pci_names(data, 0x1234, 0x1111),
        (
            Some("Example Devices, Inc.".to_owned()),
            Some("Example GPU".to_owned()),
        )
    );
    assert_eq!(
        parse_pci_names(data, 0x1234, 0x9999),
        (Some("Example Devices, Inc.".to_owned()), None)
    );
    assert_eq!(parse_pci_names(data, 0xffff, 0x1111), (None, None));
}

#[test]
fn pci_names_stop_at_the_class_list_and_at_invalid_text() {
    let data = b"C 00  Unclassified device\n1234  Late Vendor\n";
    assert_eq!(parse_pci_names(data, 0x1234, 0x1111), (None, None));
    let data = b"\xff\xfe\n1234  Late Vendor\n";
    assert_eq!(parse_pci_names(data, 0x1234, 0x1111), (None, None));
    let data = b"abcd  Other\n1234  Vendor\n\t1111  Device\n";
    assert_eq!(
        parse_pci_names(data, 0x1234, 0x1111),
        (Some("Vendor".to_owned()), Some("Device".to_owned()))
    );
}

#[test]
fn parses_database_lines() {
    assert_eq!(parse_id_and_name(b"8086  Intel Corporation"), Some((0x8086, b"Intel Corporation".to_vec())));
    assert_eq!(parse_id_and_name(b"1111\tExample GPU"), Some((0x1111, b"Example GPU".to_vec())));
    assert_eq!(parse_id_and_name(b"+10 x"), Some((0x10, b"x".to_vec())));
    assert_eq!(parse_id_and_name(b"8086"), None);
    assert_eq!(parse_id_and_name(b"zz name"), None);
    assert_eq!(parse_id_and_name(b"100000000 too big"), None);
}

#[test]
fn unescapes_mount_table_fields() {
    assert_eq!(unescape_mnttab(b"/mnt/with\\040space"), b"/mnt/with space".to_vec());
    assert_eq!(unescape_mnttab(b"\\134"), b"\\".to_vec());
    assert_eq!(unescape_mnttab(b"\\04"), b"\\04".to_vec());
    assert_eq!(unescape_mnttab(b"\\0x1"), b"\\0x1".to_vec());
    assert_eq!(unescape_mnttab(b"plain"), b"plain".to_vec());
}

#[test]
fn reads_mount_table_lines() {
    let e = parse_mnttab_line(b"rpool/ROOT/x\t/\tzfs\tdev=4010002,ro\t0").unwrap();
    assert_eq!(e.name, b"rpool/ROOT/x".to_vec());
    assert_eq!(e.mount_point, b"/".to_vec());
    assert_eq!(e.file_system, b"zfs".to_vec());
    assert!(e.is_read_only);

    let e = parse_mnttab_line(b"/dev/dsk/c0 /mnt/a\\040b ufs rw,rom").unwrap();
    assert_eq!(e.mount_point, b"/mnt/a b".to_vec());
    assert!(!e.is_read_only);

    assert!(parse_mnttab_line(b"swap /tmp tmpfs xattr 0").is_none());
    assert!(parse_mnttab_line(b"a b c").is_none());
}

#[test]
fn reads_the_whole_mount_table() {
    let table = b"rpool /rpool zfs rw 0\nproc /proc proc rw 0\n/dev/dsk/x /data ufs ro 0\n";
    let entries = mnttab_entries(table);
    assert_eq!(entries.len(), 2);
    assert_eq!(entries[0].mount_point, b"/rpool".to_vec());
    assert_eq!(entries[1].mount_point, b"/data".to_vec());
    assert!(entries[1].is_read_only);

    let table = b"rpool /rpool zfs rw 0\n\xff\n/dev/dsk/x /data ufs ro 0\n";
    assert_eq!(mnttab_entries(table).len(), 1);
}

use sysinfo::common::{DiskUsage, IoCounters};
use sysinfo::illumos::{DeviceInfo, DiskInner, DiskRefreshKind, DisksInner, IoSource, MnttabEntry};
use sysinfo::illumos::{new_gpu, node_ids, IllumosGpus};
use sysinfo::linux_disk::{DiskKind, FsStat};

fn disk(name: &str, fs: &str) -> DiskInner {
    DiskInner {
        kind: DiskKind::Unknown(-1),
        name: name.as_bytes().to_vec(),
        device_id: None,
        mount_point: b"/".to_vec(),
        total_space: 0,
        available_space: 0,
        file_system: fs.as_bytes().to_vec(),
        is_removable: false,
        is_read_only: false,
        io_source: None,
        io: IoCounters::default(),
        updated: false,
    }
}

fn source() -> IoSource {
    IoSource { module: b"blkdev".to_vec(), instance: 0, name: b"blkdev0".to_vec() }
}

#[test]
fn zfs_dataset_does_not_report_pool_io() {
    let mut disk = disk("rpool/example", "zfs");
    let kind = DiskRefreshKind { kind: false, storage: false, io_usage: true };
    let (needs_io_source, needs_kind) = disk.device_info_needs(kind);
    assert!(!needs_io_source && !needs_kind);
    disk.refresh_io_usage(None);
    assert!(disk.io_source.is_none());
    assert_eq!(disk.io.usage(), DiskUsage::default());
}

#[test]
fn disk_refresh_steps() {
    let mut d = disk("/dev/dsk/c0", "ufs");
    let all = DiskRefreshKind { kind: true, storage: true, io_usage: true };
    assert_eq!(d.device_info_needs(all), (true, true));
    d.apply_device_info(
        Some(DeviceInfo { io_source: source(), kind: DiskKind::SSD, is_removable: true }),
        true,
        true,
    );
    assert_eq!(d.kind, DiskKind::SSD);
    assert!(d.is_removable && d.io_source.is_some());
    assert_eq!(d.device_info_needs(all), (false, false));
    d.refresh_storage(Some(FsStat { block_size: 512, blocks: 100, blocks_available: 10, read_only: true }));
    assert_eq!((d.total_space, d.available_space, d.is_read_only), (51200, 5120, true));
    d.refresh_io_usage(Some((100, 200)));
    d.refresh_io_usage(Some((150, 260)));
    assert_eq!(d.io.usage(), DiskUsage { read_bytes: 50, total_read_bytes: 150, written_bytes: 60, total_written_bytes: 260 });
}

fn entry(name: &str, mp: &[u8], fs: &str, ro: bool) -> MnttabEntry {
    MnttabEntry { name: name.as_bytes().to_vec(), mount_point: mp.to_vec(), file_system: fs.as_bytes().to_vec(), is_read_only: ro }
}

#[test]
fn disk_list_follows_the_mount_table() {
    let mut disks = DisksInner::new();
    assert!(disks.add_disk(entry("a", b"/a", "ufs", false), Some(7)));
    assert!(disks.add_disk(entry("b", b"/b", "ufs", false), None));
    assert!(!disks.add_disk(entry("c", b"/c\0", "ufs", false), None));
    assert_eq!(disks.disks.len(), 2);
    disks.disks[0].io_source = Some(source());
    disks.disks[0].kind = DiskKind::HDD;

    disks.mark_all_not_updated();
    let i = disks.find_mount(b"/a").unwrap();
    disks.update_existing(i, entry("a", b"/a", "ufs", true));
    assert!(disks.disks[0].io_source.is_some() && disks.disks[0].is_read_only);
    disks.update_existing(i, entry("a2", b"/a", "ufs", true));
    assert!(disks.disks[0].io_source.is_none());
    assert_eq!(disks.disks[0].kind, DiskKind::Unknown(-1));
    assert!(disks.find_mount(b"/zzz").is_none());
    disks.remove_not_updated();
    assert_eq!(disks.disks.len(), 1);
    assert_eq!(disks.disks[0].mount_point, b"/a".to_vec());
    assert_eq!(disks.disks[0].device_id, Some(7));
}

#[test]
fn disk_list_round_trip() {
    let disks = DisksInner::from_vec(Vec::new());
    assert!(disks.list().is_empty());
    let mut disks = DisksInner::new();
    assert!(disks.list_mut().is_empty());
    assert!(disks.into_vec().is_empty());
}

#[test]
fn device_info_from_the_device_tree() {
    let d = sysinfo::illumos::device_info_from(b"blkdev", 3, Some(1), Some(1), true).unwrap();
    assert_eq!(d.io_source.module, b"blkdev".to_vec());
    assert_eq!(d.io_source.instance, 3);
    assert_eq!(d.io_source.name, b"blkdev3".to_vec());
    assert_eq!(d.kind, DiskKind::SSD);
    assert!(d.is_removable);
    let h = sysinfo::illumos::device_info_from(b"sd", 12, Some(0), Some(7), false).unwrap();
    assert_eq!(h.io_source.name, b"sd12".to_vec());
    assert_eq!(h.kind, DiskKind::HDD);
    let u = sysinfo::illumos::device_info_from(b"sd", 0, None, Some(0), false).unwrap();
    assert_eq!(u.kind, DiskKind::Unknown(-1));
    assert!(sysinfo::illumos::device_info_from(b"sd", -1, None, None, false).is_none());
    assert!(sysinfo::illumos::device_info_from(b"s\0d", 1, None, None, false).is_none());
}

#[test]
fn mount_table_refresh() {
    let mut disks = DisksInner::new();
    disks.refresh_mount_table(
        Some(vec![(entry("a", b"/a", "ufs", false), Some(1)), (entry("b", b"/b", "ufs", false), None)]),
        true,
    );
    assert_eq!(disks.disks.len(), 2);
    disks.refresh_mount_table(None, true);
    assert_eq!(disks.disks.len(), 2);
    assert!(disks.disks.iter().all(|d| !d.updated));
    disks.refresh_mount_table(
        Some(vec![(entry("b", b"/b", "ufs", true), None), (entry("c", b"/c\0", "ufs", false), None)]),
        false,
    );
    assert_eq!(disks.disks.len(), 2);
    assert!(disks.disks[1].updated && disks.disks[1].is_read_only);
    disks.refresh_mount_table(Some(vec![(entry("b", b"/b", "ufs", true), None)]), true);
    assert_eq!(disks.disks.len(), 1);
    assert_eq!(disks.disks[0].mount_point, b"/b".to_vec());
}

#[test]
fn gpu_walk_marks_or_adds() {
    let mut gpus = IllumosGpus::new();
    // Not a display controller, or no location: nothing.
    assert_eq!(gpus.mark_node(Some(0x020000), Some(0x10800)), None);
    assert_eq!(gpus.mark_node(None, Some(0x10800)), None);
    assert_eq!(gpus.mark_node(Some(0x030000), None), None);
    // A new display controller: its location is returned.
    let pci = gpus.mark_node(Some(0x030000), Some(0x01_0800)).unwrap();
    assert_eq!(pci, PCI { domain: 0, bus: 1, device: 1, function: 0 });
    assert_eq!(node_ids(Some(0x1_10de), Some(0x2_1c82)), Some((0x10de, 0x1c82)));
    assert_eq!(node_ids(Some(0x10de), None), None);
    let g = new_gpu(pci, (None, Some("GA106".to_string())), Some("NVIDIA".to_string()), Some("prop".to_string()));
    assert_eq!(g.vendor.as_deref(), Some("NVIDIA"));
    assert_eq!(g.model.as_deref(), Some("GA106"));
    gpus.push_gpu(g);
    gpus.gpus[0].updated = false;
    // Seen again: marked, nothing returned.
    assert_eq!(gpus.mark_node(Some(0x030001), Some(0x01_0800)), None);
    assert!(gpus.gpus[0].updated);
    assert_eq!(gpus.gpus.len(), 1);
}

#[test]
fn mount_table_decodable() {
    use_decodable();
}

fn use_decodable() {
    assert!(sysinfo::illumos::escapes_fit(b"/mnt/a\\040b"));
    assert!(!sysinfo::illumos::escapes_fit(b"/mnt/\\999"));
    assert!(sysinfo::illumos::mnttab_decodable_check(b"rpool/ROOT / zfs rw 0\n/dev/x /a\\040b ufs ro 1\n"));
    assert!(!sysinfo::illumos::mnttab_decodable_check(b"/dev/x /a\\999 ufs ro 1\n"));
    // A pseudo file system is not decoded.
    assert!(sysinfo::illumos::mnttab_decodable_check(b"proc /\\999 proc rw 0\n"));
    // The reading stops at the first line that is not UTF-8.
    assert!(sysinfo::illumos::mnttab_decodable_check(b"\xff\n/dev/x /a\\999 ufs ro 1\n"));
}
