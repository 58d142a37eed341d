use sysinfo::common::Pid;
use sysinfo::winsys::{
    check_sub, compute_start, existing_outcome, filetime_to_u64, from_zero_terminated, get_executable_path,
    next_buffer_size, parent_from, pid_selected, placeholder_process_name, snapshot_action, CpuCalcValues,
    PerformanceInfo, SnapshotAction, WinMemory,
};

#[test]
fn windows_times() {
    assert_eq!(filetime_to_u64(1, 2), (1u64 << 32) | 2);
    // 2024-01-01T00:00:00Z in 100 ns units since 1601.
    assert_eq!(compute_start(133_485_408_000_000_000), 1_704_067_200);
    assert_eq!(check_sub(10, 3), 7);
    assert_eq!(check_sub(3, 10), 3);
}

#[test]
fn zero_terminated_copy_keeps_the_nul() {
    assert_eq!(from_zero_terminated(&[0x43, 0x3a, 0, 0x44, 0]), vec![0x43, 0x3a, 0]);
    assert_eq!(from_zero_terminated(&[0]), vec![0]);
}

#[test]
fn no_executable_path_by_pid() {
    assert_eq!(get_executable_path(Pid(12)), None);
}

#[test]
fn memory_and_swap() {
    let mut m = WinMemory::default();
    m.refresh_ram(8000, 3000);
    assert_eq!(m.total_memory(), 8000);
    assert_eq!(m.free_memory(), 3000);
    assert_eq!(m.available_memory(), 3000);
    assert_eq!(m.used_memory(), 5000);
    m.refresh_swap(Some(PerformanceInfo { page_size: 4096, physical_total: 100, commit_limit: 150, commit_total: 120 }));
    assert_eq!(m.total_swap(), 50 * 4096);
    assert_eq!(m.used_swap(), 20 * 4096);
    assert_eq!(m.free_swap(), 30 * 4096);
    let before = m;
    m.refresh_swap(None);
    assert_eq!(m, before);
    m.refresh_swap(Some(PerformanceInfo { page_size: 4096, physical_total: 100, commit_limit: 50, commit_total: 20 }));
    assert_eq!(m.total_swap(), 0);
    assert_eq!(m.used_swap(), 0);
}

#[test]
fn cpu_deltas() {
    let mut v = CpuCalcValues::default();
    assert_eq!(v.step(100, 50, 1000, 2000), (150, 3000));
    assert_eq!(v.step(130, 60, 1100, 2300), (40, 400));
    assert_eq!(v, CpuCalcValues { old_process_sys_cpu: 60, old_process_user_cpu: 130, old_system_sys_cpu: 2300, old_system_user_cpu: 1100 });
    // A counter that went back counts from its new value.
    assert_eq!(v.step(5, 60, 1100, 2300), (5, 0));
}

#[test]
fn process_snapshot_decisions() {
    assert_eq!(next_buffer_size(512 * 1024, 0), 1024 * 1024);
    assert_eq!(next_buffer_size(512 * 1024, 700_000), 710_240);
    assert!(pid_selected(None, Pid(3)));
    assert!(pid_selected(Some(&[Pid(1), Pid(3)]), Pid(3)));
    assert!(!pid_selected(Some(&[Pid(1), Pid(3)]), Pid(2)));
    assert_eq!(parent_from(0), None);
    assert_eq!(parent_from(88), Some(Pid(88)));
    assert_eq!(snapshot_action(None, Some(5)), SnapshotAction::Create);
    assert_eq!(snapshot_action(Some(5), Some(5)), SnapshotAction::Update);
    assert_eq!(snapshot_action(Some(5), None), SnapshotAction::Update);
    assert_eq!(snapshot_action(Some(5), Some(6)), SnapshotAction::Create);
    assert_eq!(existing_outcome(5, None), Some(false));
    assert_eq!(existing_outcome(5, Some((6, true))), None);
    assert_eq!(existing_outcome(5, Some((5, false))), Some(false));
    assert_eq!(existing_outcome(5, Some((5, true))), Some(true));
}

#[test]
fn placeholder_names() {
    assert_eq!(placeholder_process_name(0), "Idle");
    assert_eq!(placeholder_process_name(4), "System");
    assert_eq!(placeholder_process_name(1234), "<no name> Process 1234");
}

fn snap(pid: i32, name: &str, start: Option<u64>) -> sysinfo::winsys::SnapshotEntry {
    sysinfo::winsys::SnapshotEntry {
        pid: sysinfo::common::Pid(pid),
        parent: None,
        name: name.to_string(),
        working_set: 100 + pid as u64,
        virtual_size: 200,
        start,
    }
}

#[test]
fn process_table_follows_the_snapshots() {
    let mut list = sysinfo::winsys::WinProcessList::new();
    list.refresh_from_snapshot(vec![snap(4, "System", Some(1)), snap(8, "a", Some(5))], None, true);
    assert_eq!(list.procs.len(), 2);
    assert_eq!(list.procs[1].memory, 108);
    assert!(!list.procs[0].updated);
    // Pid 8 now belongs to a process started later: made anew; pid 4 is gone.
    list.refresh_from_snapshot(vec![snap(8, "b", Some(9))], None, false);
    assert_eq!(list.procs.len(), 1);
    assert_eq!(list.procs[0].name, "b");
    assert_eq!(list.procs[0].start_time, 9);
    assert_eq!(list.procs[0].memory, 0);
    // A filter that leaves it out drops it.
    let only: [sysinfo::common::Pid; 1] = [sysinfo::common::Pid(3)];
    list.refresh_from_snapshot(vec![snap(8, "b", Some(9))], Some(&only), true);
    assert!(list.procs.is_empty());
}

fn wide(s: &str) -> Vec<u16> {
    s.encode_utf16().collect()
}

#[test]
fn environment_block_entries() {
    assert!(sysinfo::winsys::proc_environ(None).is_empty());
    let block = wide("A=1\0PATH=C:\\x\0junk\0C=3\0\0");
    assert_eq!(sysinfo::winsys::proc_environ(Some(&block)), vec!["A=1".to_string(), "PATH=C:\\x".to_string()]);
    let block = wide("X=1\0\0");
    assert_eq!(sysinfo::winsys::proc_environ(Some(&block)), vec!["X=1".to_string()]);
    // No final NUL: the last piece is not an entry.
    let block = wide("X=1\0Y=2");
    assert_eq!(sysinfo::winsys::proc_environ(Some(&block)), vec!["X=1".to_string()]);
    let mut block = wide("K=");
    block.push(0xd800);
    block.push(0);
    assert_eq!(sysinfo::winsys::proc_environ(Some(&block)), vec!["K=\u{FFFD}".to_string()]);
}
