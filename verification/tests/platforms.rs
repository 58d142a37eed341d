use sysinfo::unknown::{DiskInner, DisksInner};
use sysinfo::linux_disk::DiskKind;
use sysinfo::illumos::DiskRefreshKind;
use sysinfo::common::{Gid, Pid, Uid};
use sysinfo::stat::ProcessStatus;
use sysinfo::unknown::{get_groups, Group, Process, User};
use sysinfo::windows::{KeyHandler, Sid};

#[test]
fn unknown_process_only_knows_its_identifiers() {
    let p = Process::new(Pid(12), Some(Pid(1)));
    assert_eq!(p.pid(), Pid(12));
    assert_eq!(p.parent(), Some(Pid(1)));
    assert_eq!(p.name(), "");
    assert_eq!(p.memory(), 0);
    assert_eq!(p.virtual_memory(), 0);
    assert_eq!(p.status(), ProcessStatus::Unknown(0));
    assert_eq!(p.start_time(), 0);
    assert_eq!(p.run_time(), 0);
    let d = p.disk_usage();
    assert_eq!((d.read_bytes, d.total_read_bytes, d.written_bytes, d.total_written_bytes), (0, 0, 0, 0));
    assert!(p.user_id().is_none());
    assert!(p.effective_user_id().is_none());
    assert!(p.group_id().is_none());
    assert!(p.effective_group_id().is_none());
    assert!(p.session_id().is_none());
    assert!(p.kill().is_none());
    p.wait();
    assert_eq!(Process::new(Pid(3), None).parent(), None);
}

#[test]
fn unknown_user_and_group_are_empty() {
    let u = User;
    assert_eq!(u.id(), Uid(0));
    assert_eq!(u.group_id(), Gid(0));
    assert_eq!(u.name(), "");
    assert!(u.groups().is_empty());
    let g = Group;
    assert_eq!(g.id(), Gid(0));
    assert_eq!(g.name(), "");
    let mut groups = vec![Group];
    get_groups(&mut groups);
    assert_eq!(groups.len(), 1);
}

#[test]
fn sid_keeps_its_bytes() {
    let raw = [1u8, 2, 0, 0, 0, 0, 0, 5, 32, 0, 0, 0];
    let sid = Sid::from_bytes(&raw);
    assert_eq!(sid.as_bytes(), &raw);
    let copy = sid.clone();
    assert_eq!(copy.as_bytes(), &raw);
}

#[test]
fn key_handler_keeps_its_id() {
    let k = KeyHandler::new("\\Processor(_Total)\\% Idle Time".to_owned());
    assert_eq!(k.unique_id, "\\Processor(_Total)\\% Idle Time");
}

#[test]
fn unknown_platform_has_no_disks() {
    assert!(DisksInner::new().is_err());
    let mut disks = DisksInner::from_vec(vec![DiskInner]);
    assert!(disks.list().is_empty());
    disks.refresh_specifics(true, DiskRefreshKind { kind: true, storage: true, io_usage: true });
    assert!(disks.into_vec().is_empty());
    let mut d = DiskInner;
    assert_eq!(d.kind(), DiskKind::Unknown(-1));
    assert_eq!(d.name(), "");
    assert_eq!(d.file_system(), "");
    assert_eq!(d.mount_point(), "");
    assert_eq!(d.total_space(), 0);
    assert_eq!(d.available_space(), 0);
    assert!(!d.is_removable());
    assert!(!d.is_read_only());
    assert!(d.refresh_specifics(DiskRefreshKind { kind: false, storage: false, io_usage: false }));
    assert_eq!(d.usage().total_read_bytes, 0);
}

#[test]
fn windows_users_merge_sessions() {
    let sid = |n: u8| Sid::from_bytes(&[1, 1, 0, 0, 0, 0, 0, 5, n]);
    let accounts = vec![
        (sid(1), "alice".to_string(), vec!["Users".to_string()]),
        (sid(2), "bob".to_string(), vec![]),
    ];
    let sessions = vec![
        (sid(2), "bob-session".to_string(), 2),
        (sid(3), "remote".to_string(), sysinfo::windows::NETWORK_LOGON),
        (sid(4), "SYSTEM".to_string(), 5),
        (sid(4), "SYSTEM again".to_string(), 5),
    ];
    let users = sysinfo::windows::merge_users(accounts, sessions);
    let names: Vec<&str> = users.iter().map(|u| u.name.as_str()).collect();
    assert_eq!(names, vec!["alice", "bob", "SYSTEM"]);
    assert_eq!(users[0].groups, vec!["Users".to_string()]);
    assert!(users[2].groups.is_empty());
    assert!(users.iter().all(|u| u.gid.0 == 0));
    assert_eq!(users[2].uid.as_bytes(), &[1, 1, 0, 0, 0, 0, 0, 5, 4]);
}
