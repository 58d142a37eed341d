use sysinfo::common::{Gid, Pid, Uid};
use sysinfo::linux_proc::{
    accumulated_cpu_time, apply_ids, cpu_ticks_since, get_proc_and_tasks, get_proc_tasks, get_memory, old_get_memory,
    pid_entry, same_process, set_time, start_times, statm_fits_exec, thread_kind_of, update_list,
    update_time_and_memory, ProcTimes, SystemInfo, ThreadKind,
};
use sysinfo::stat::parse_stat_file;

const INFO: SystemInfo = SystemInfo { page_size_b: 4096, clock_cycle: 100, boot_time: 1_000_000 };

fn zero_times() -> ProcTimes {
    ProcTimes {
        memory: 0,
        virtual_memory: 0,
        utime: 0,
        stime: 0,
        old_utime: 0,
        old_stime: 0,
        start_time_without_boot_time: 0,
        run_time: 0,
    }
}

#[test]
fn times_roll_and_ticks_follow() {
    let mut p = zero_times();
    set_time(&mut p, 10, 5);
    assert_eq!((p.utime, p.stime, p.old_utime, p.old_stime), (10, 5, 0, 0));
    // First refresh: no previous times, no usage yet.
    assert_eq!(cpu_ticks_since(&p), None);
    set_time(&mut p, 30, 6);
    assert_eq!(cpu_ticks_since(&p), Some(21));
    assert_eq!(accumulated_cpu_time(&p, &INFO), 360);
}

#[test]
fn start_times_from_ticks() {
    assert_eq!(start_times(12_345, &INFO), (123, 1_000_123));
    assert_eq!(start_times(u64::MAX, &SystemInfo { boot_time: u64::MAX, ..INFO }).1, u64::MAX);
}

#[test]
fn memory_from_statm_or_stat() {
    let mut p = zero_times();
    assert!(statm_fits_exec(b"100 20 5 1 0 30 0"));
    get_memory(b"100 20 5 1 0 30 0", &mut p, &INFO);
    assert_eq!(p.virtual_memory, 100 * 4096);
    assert_eq!(p.memory, 20 * 4096);
    assert!(!statm_fits_exec(b"99999999999999999999999 1"));

    let parts = parse_stat_file(b"1 (blob) S 2 0 0 0 -1 2129984 0 0 0 0 14 28 0 0 20 0 1 0 21 66 77").unwrap();
    old_get_memory(&mut p, &parts, &INFO);
    assert_eq!(p.virtual_memory, 66);
    assert_eq!(p.memory, 77 * 4096);

    let mut q = zero_times();
    q.start_time_without_boot_time = 40;
    update_time_and_memory(&mut q, &parts, 100, &INFO, true, None);
    assert_eq!((q.utime, q.stime), (14, 28));
    assert_eq!(q.run_time, 60);
    assert_eq!(q.memory, 77 * 4096);
    let mut r = zero_times();
    update_time_and_memory(&mut r, &parts, 100, &INFO, false, Some(b"5 6"));
    assert_eq!(r.memory, 0);
    update_time_and_memory(&mut r, &parts, 100, &INFO, true, Some(b"5 6"));
    assert_eq!((r.virtual_memory, r.memory), (5 * 4096, 6 * 4096));
    assert_eq!((r.old_utime, r.utime), (14, 14));
}

#[test]
fn kernel_threads_and_tasks() {
    assert_eq!(thread_kind_of(&Some(b"2129984".to_vec()), false), Some(ThreadKind::Kernel));
    assert_eq!(thread_kind_of(&Some(b"4194304".to_vec()), true), Some(ThreadKind::Userland));
    assert_eq!(thread_kind_of(&Some(b"x".to_vec()), false), None);
    assert_eq!(thread_kind_of(&None, true), Some(ThreadKind::Userland));
}

#[test]
fn lists_keep_what_was_read() {
    let mut cmd = vec![b"a".to_vec()];
    update_list(&mut cmd, Vec::new());
    assert_eq!(cmd, vec![b"a".to_vec()]);
    update_list(&mut cmd, vec![b"b".to_vec()]);
    assert_eq!(cmd, vec![b"b".to_vec()]);
    let mut ids = (None, None, None, None);
    apply_ids(&mut ids, None);
    assert_eq!(ids, (None, None, None, None));
    apply_ids(&mut ids, Some(((1, 2), (3, 4))));
    assert_eq!(ids, (Some(Uid(1)), Some(Uid(2)), Some(Gid(3)), Some(Gid(4))));
    assert!(same_process(21, 21));
    assert!(!same_process(21, 22));
}

#[test]
fn entries_of_proc() {
    assert_eq!(pid_entry(true, b"1234"), Some(Pid(1234)));
    assert_eq!(pid_entry(false, b"1234"), None);
    assert_eq!(pid_entry(true, b"self"), None);

    let tasks = get_proc_tasks(
        vec![(b"/proc/10/task/10".to_vec(), Pid(10)), (b"/proc/10/task/11".to_vec(), Pid(11))],
        Pid(10),
    );
    assert_eq!(tasks.len(), 1);
    assert_eq!(tasks[0].pid, Pid(11));
    assert!(tasks[0].is_thread);
    assert_eq!(tasks[0].parent_pid, Some(Pid(10)));

    // A process with its tasks, when all processes are refreshed.
    let all = get_proc_and_tasks(b"/proc/10".to_vec(), Pid(10), Some(tasks), Some(Pid(10)), true);
    assert_eq!(all.len(), 2);
    assert_eq!(all[0].pid, Pid(11));
    assert_eq!(all[1].pid, Pid(10));
    assert_eq!(all[1].tasks, Some(vec![Pid(11)]));
    assert!(!all[1].is_thread);

    // Only some processes: the tasks are not read, but remembered.
    let tasks = get_proc_tasks(vec![(b"/proc/10/task/11".to_vec(), Pid(11))], Pid(10));
    let some = get_proc_and_tasks(b"/proc/10".to_vec(), Pid(10), Some(tasks), None, false);
    assert_eq!(some.len(), 1);
    assert_eq!(some[0].tasks, Some(vec![Pid(11)]));

    // A thread: read alone, with its group leader as parent.
    let thread = get_proc_and_tasks(b"/proc/11".to_vec(), Pid(11), None, Some(Pid(10)), true);
    assert_eq!(thread.len(), 1);
    assert!(thread[0].is_thread);
    assert_eq!(thread[0].parent_pid, Some(Pid(10)));
    assert_eq!(thread[0].tasks, None);
}

#[test]
fn open_files_limit_of_a_process() {
    let limits = b"Limit                     Soft Limit           Hard Limit           Units     \n\
Max cpu time              unlimited            unlimited            seconds   \n\
Max open files            1024                 524288               files     \n";
    assert_eq!(sysinfo::linux_proc::open_files_limit_from(limits), Some(1024));
    assert_eq!(sysinfo::linux_proc::open_files_limit_from(b"Max open files \nMax open files  77 9\n"), Some(77));
    assert_eq!(sysinfo::linux_proc::open_files_limit_from(b"Max open files  unlimited  x\n"), None);
    assert_eq!(sysinfo::linux_proc::open_files_limit_from(b"nothing here"), None);
}
