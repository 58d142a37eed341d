use sysinfo::common::{Error, Pid, ProcessRefreshKind, UpdateKind};
use sysinfo::illumos_sys::{
    distribution_id, distribution_id_like, long_os_version, name, os_release_value, os_version,
    physical_core_count, physical_swap_pages, pid_from_entry, release_value, uptime, IllumosMemory,
    MemoryRefreshKind, ProcessList, SwapEntry,
};
use sysinfo::psinfo::{ByteOrder, Fetched, ProcessInfo};

const OMNIOS: &str = "NAME=\"OmniOS\"\nPRETTY_NAME='OmniOS Community Edition v11 r151046'\nCPE_NAME=\"cpe:/o:omniosce:omnios:11:151046:0\"\nID=omnios\nID_LIKE=illumos solaris\nVERSION_ID=r151046\n";

#[test]
fn os_release_values() {
    assert_eq!(os_release_value(OMNIOS, b"NAME"), Some("OmniOS".to_owned()));
    assert_eq!(os_release_value(OMNIOS, b"PRETTY_NAME"), Some("OmniOS Community Edition v11 r151046".to_owned()));
    assert_eq!(os_release_value(OMNIOS, b"ID"), Some("omnios".to_owned()));
    assert_eq!(os_release_value(OMNIOS, b"VERSION"), None);
    assert_eq!(os_release_value("A=  \"x\"  \nA=y\n", b"A"), Some("x".to_owned()));
    assert_eq!(os_release_value("A=\"x'\n", b"A"), Some("\"x'".to_owned()));
    assert_eq!(os_release_value("A=\"\n", b"A"), Some("\"".to_owned()));
    assert_eq!(release_value(None, b"NAME"), None);
}

fn sys_err() -> Error {
    Error::Other("sysinfo failed".to_owned())
}

#[test]
fn names_and_versions() {
    assert_eq!(name(Some(OMNIOS), Err(sys_err())).unwrap(), "OmniOS");
    assert_eq!(name(None, Ok("SunOS".to_owned())).unwrap(), "SunOS");
    assert!(name(None, Err(sys_err())).is_err());
    assert_eq!(os_version(Some(OMNIOS), Ok("5.11".to_owned())).unwrap(), "r151046");
    assert_eq!(os_version(Some("NAME=x\n"), Ok("5.11".to_owned())).unwrap(), "5.11");
    assert_eq!(
        long_os_version(Some(OMNIOS), Err(sys_err()), Err(sys_err())).unwrap(),
        "OmniOS Community Edition v11 r151046"
    );
    assert_eq!(long_os_version(None, Ok("SunOS".to_owned()), Ok("5.11".to_owned())).unwrap(), "SunOS 5.11");
    assert!(long_os_version(None, Ok("SunOS".to_owned()), Err(sys_err())).is_err());
}

#[test]
fn distribution_ids() {
    assert_eq!(distribution_id(Some(OMNIOS)), "omnios");
    assert_eq!(distribution_id(None), "illumos");
    assert_eq!(distribution_id_like(Some(OMNIOS)), vec!["illumos".to_owned(), "solaris".to_owned()]);
    assert_eq!(distribution_id_like(Some("ID=smartos\n")), vec!["illumos".to_owned()]);
    assert!(distribution_id_like(Some("ID=illumos\n")).is_empty());
    assert!(distribution_id_like(None).is_empty());
}

#[test]
fn memory_and_swap_figures() {
    let mut m = IllumosMemory::default();
    m.refresh(MemoryRefreshKind { ram: true, swap: true }, 4096, 1000, 250, Some((100, 40)));
    assert_eq!(m.total_memory(), 4_096_000);
    assert_eq!(m.free_memory(), 1_024_000);
    assert_eq!(m.available_memory(), 1_024_000);
    assert_eq!(m.used_memory(), 3_072_000);
    assert_eq!(m.total_swap(), 409_600);
    assert_eq!(m.used_swap(), 245_760);
    assert_eq!(m.free_swap(), 163_840);
    let before = m;
    m.refresh(MemoryRefreshKind { ram: false, swap: true }, 4096, 1, 1, None);
    assert_eq!(m, before);
    m.refresh(MemoryRefreshKind { ram: true, swap: false }, -1, 1000, 250, Some((1, 1)));
    assert_eq!(m.total_memory(), 0);
    assert_eq!(m.total_swap(), 409_600);
}

#[test]
fn swap_table_sums() {
    let entries = [
        SwapEntry { deleted: false, pages: 100, free: 30 },
        SwapEntry { deleted: true, pages: 50, free: 50 },
        SwapEntry { deleted: false, pages: -5, free: 7 },
        SwapEntry { deleted: false, pages: 10, free: 10 },
    ];
    assert_eq!(physical_swap_pages(&entries, 3), (100, 37));
    assert_eq!(physical_swap_pages(&entries, 10), (110, 47));
    assert_eq!(physical_swap_pages(&entries[..1], 1), (100, 30));
    assert_eq!(physical_swap_pages(&[SwapEntry { deleted: false, pages: 1, free: 9 }], 1), (1, 1));
    assert_eq!(uptime(100, 40), 60);
    assert_eq!(uptime(10, 40), 0);
}

#[test]
fn distinct_physical_cores() {
    let records = [
        (0, Some((Some(0), Some(0)))),
        (1, Some((Some(0), Some(0)))),
        (2, Some((Some(0), Some(1)))),
        (3, None),
        (4, Some((None, None))),
    ];
    assert_eq!(physical_core_count(&records).unwrap(), 3);
    assert!(physical_core_count(&[(0, None)]).is_err());
}

#[test]
fn proc_entries() {
    assert_eq!(pid_from_entry(b"42"), Some(Pid(42)));
    assert_eq!(pid_from_entry(b"+7"), Some(Pid(7)));
    assert_eq!(pid_from_entry(b"self"), None);
    assert_eq!(pid_from_entry(&[0xff]), None);
}

fn record(pid: i32, start: i64) -> Vec<u8> {
    let mut d = vec![0u8; 315];
    d[8..12].copy_from_slice(&pid.to_le_bytes());
    d[88..96].copy_from_slice(&start.to_le_bytes());
    d[136..140].copy_from_slice(b"init");
    d[314] = b'R';
    d
}

fn kind() -> ProcessRefreshKind {
    let u = UpdateKind::OnlyIfNotSet;
    ProcessRefreshKind { cpu: true, disk_usage: false, memory: true, user: u, cwd: u, root: u, environ: u, cmd: u, exe: u }
}

fn fetched(exe: &str) -> Fetched {
    Fetched { exe: Some(exe.as_bytes().to_vec()), cwd: None, root: None, cmd: Vec::new(), environ: Vec::new() }
}

#[test]
fn process_list_keeps_one_entry_per_pid() {
    let mut list = ProcessList::new();
    let info = ProcessInfo::read(&record(1, 100), Pid(1), ByteOrder::Little).unwrap();
    assert!(list.needs_for(&info, kind()).exe);
    list.apply(&info, 150, kind(), fetched("/sbin/init"));
    assert_eq!(list.list().len(), 1);
    assert_eq!(list.list()[0].run_time, 50);
    // Same process again: its executable is known, no read asked for.
    assert!(!list.needs_for(&info, kind()).exe);
    list.apply(&info, 170, kind(), fetched("/ignored"));
    assert_eq!(list.list().len(), 1);
    assert_eq!(list.list()[0].exe, Some(b"/sbin/init".to_vec()));
    assert_eq!(list.list()[0].run_time, 70);
    // The id was taken by another process: it is made anew.
    let other = ProcessInfo::read(&record(1, 160), Pid(1), ByteOrder::Little).unwrap();
    assert!(list.needs_for(&other, kind()).exe);
    list.apply(&other, 170, kind(), fetched("/bin/sh"));
    assert_eq!(list.list().len(), 1);
    assert_eq!(list.list()[0].exe, Some(b"/bin/sh".to_vec()));
    assert_eq!(list.list()[0].start_time, 160);
    let second = ProcessInfo::read(&record(2, 10), Pid(2), ByteOrder::Little).unwrap();
    list.apply(&second, 170, kind(), fetched("/bin/ls"));
    assert_eq!(list.list().len(), 2);
    assert_eq!(list.position(Pid(2)), Some(1));
    assert_eq!(list.position(Pid(3)), None);
}

#[test]
fn process_refresh_counts_the_records_read() {
    let mut list = ProcessList::new();
    assert_eq!(list.refresh_records(Vec::new(), 10, kind()), 0);
    let one = ProcessInfo::read(&record(1, 100), Pid(1), ByteOrder::Little).unwrap();
    let two = ProcessInfo::read(&record(2, 120), Pid(2), ByteOrder::Little).unwrap();
    let n = list.refresh_records(
        vec![Some((one, fetched("/sbin/init"))), None, Some((two, fetched("/bin/sh")))],
        150,
        kind(),
    );
    assert_eq!(n, 2);
    assert_eq!(list.list().len(), 2);
    assert_eq!(list.position(Pid(2)), Some(1));
    let again = ProcessInfo::read(&record(1, 100), Pid(1), ByteOrder::Little).unwrap();
    let n = list.refresh_records(vec![Some((again, fetched("/ignored"))), None], 170, kind());
    assert_eq!(n, 1);
    assert_eq!(list.list().len(), 2);
    assert_eq!(list.list()[0].exe, Some(b"/sbin/init".to_vec()));
    assert_eq!(list.list()[0].run_time, 70);
    assert_eq!(list.list()[1].run_time, 30);
}
