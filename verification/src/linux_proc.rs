//! The bookkeeping of a refresh of Linux processes: the times and memory figures
//! taken from `/proc/<pid>/stat` and `statm`, the CPU ticks spent since the last
//! refresh, the kind of thread, and which entries of `/proc` a refresh visits.
use vstd::prelude::*;
use crate::common::{Pid, Uid, Gid};
use crate::stat::{
    Parts, opt_view, spec_checked_u64, parse_ascii_checked_u64, nb_value, nb_fits, nb_fits_exec,
    slice_to_nb, parse_ascii_checked_usize,
};
use crate::text::{
    split_on, split_bytes, views, nonempty_pieces, nonempty_split, starts_with_at, copy_range, all_digits,
    dec_value,
};
use crate::cgroup::{sat_mul, saturating_mul};

verus! {

/// What is known of the system for the reading of processes: the size of a page in
/// bytes, the clock ticks per second, and the boot time in seconds.
#[derive(Clone, Copy, Debug)]
pub struct SystemInfo {
    pub page_size_b: u64,
    pub clock_cycle: u64,
    pub boot_time: u64,
}

/// The kind of a thread.
#[derive(Clone, Copy, Debug, PartialEq, Eq, Structural)]
pub enum ThreadKind {
    Kernel,
    Userland,
}

/// The figures of a process that a refresh keeps up to date.
#[derive(Clone, Copy, Debug, PartialEq, Eq, Structural)]
pub struct ProcTimes {
    pub memory: u64,
    pub virtual_memory: u64,
    pub utime: u64,
    pub stime: u64,
    pub old_utime: u64,
    pub old_stime: u64,
    pub start_time_without_boot_time: u64,
    pub run_time: u64,
}

/// `a - b`, or 0 when `b` is the larger.
pub open spec fn sat_sub(a: u64, b: u64) -> u64 {
    if a < b {
        0
    } else {
        (a - b) as u64
    }
}

/// `a + b`, or `u64::MAX` when that overflows.
pub open spec fn sat_add(a: u64, b: u64) -> u64 {
    if a + b > u64::MAX {
        u64::MAX
    } else {
        (a + b) as u64
    }
}

/// The times after a refresh read the user and system times `utime` and `stime`:
/// the current ones become the previous ones.
pub fn set_time(p: &mut ProcTimes, utime: u64, stime: u64)
    ensures
        *final(p) == (ProcTimes { old_utime: old(p).utime, old_stime: old(p).stime, utime, stime, ..*old(p) }),
{
    p.old_utime = p.utime;
    p.old_stime = p.stime;
    p.utime = utime;
    p.stime = stime;
}

/// A numeric field of the stat file, 0 when it is missing or not a number.
pub open spec fn field_or_zero(f: Option<Seq<u8>>) -> u64 {
    match f {
        Some(b) => match spec_checked_u64(b) {
            Some(v) => v,
            None => 0,
        },
        None => 0,
    }
}

fn field_or_zero_exec(f: &Option<Vec<u8>>) -> (r: u64)
    ensures
        r == field_or_zero(opt_view(*f)),
{
    match f {
        Some(b) => match parse_ascii_checked_u64(b.as_slice()) {
            Some(v) => v,
            None => 0,
        },
        None => 0,
    }
}

/// The memory figures from the stat file, when `statm` cannot be read: the resident
/// set (in pages) and the virtual size (in bytes).
pub fn old_get_memory(p: &mut ProcTimes, parts: &Parts, info: &SystemInfo)
    ensures
        *final(p) == (ProcTimes {
            memory: sat_mul(field_or_zero(opt_view(parts.resident_set_size)), info.page_size_b),
            virtual_memory: field_or_zero(opt_view(parts.virtual_size)),
            ..*old(p)
        }),
{
    p.memory = saturating_mul(field_or_zero_exec(&parts.resident_set_size), info.page_size_b);
    p.virtual_memory = field_or_zero_exec(&parts.virtual_size);
}

/// The value of the `k`-th space-separated piece of `statm`, 0 when missing.
pub open spec fn statm_value(content: Seq<u8>, k: int) -> nat {
    let f = split_on(content, 0x20u8);
    if k < f.len() {
        nb_value(f[k])
    } else {
        0
    }
}

/// Whether the first two pieces of `statm` can be read without a panic: their
/// bytes are not below `0` and their values fit in 64 bits.
pub open spec fn statm_fits(content: Seq<u8>) -> bool {
    let f = split_on(content, 0x20u8);
    (f.len() > 0 ==> nb_fits(f[0])) && (f.len() > 1 ==> nb_fits(f[1]))
}

/// Whether `statm` can be read without a panic.
pub fn statm_fits_exec(content: &[u8]) -> (r: bool)
    ensures
        r == statm_fits(content@),
{
    let f = split_bytes(content, 0x20);
    proof {
        assert(views(f@) == split_on(content@, 0x20u8));
        if f@.len() > 0 {
            assert(views(f@)[0] == f@[0]@);
        }
        if f@.len() > 1 {
            assert(views(f@)[1] == f@[1]@);
        }
    }
    (f.len() == 0 || nb_fits_exec(f[0].as_slice())) && (f.len() <= 1 || nb_fits_exec(f[1].as_slice()))
}

/// The memory figures from the contents of `/proc/<pid>/statm`: the virtual size and
/// the resident set, both in pages, times the page size (saturating).
pub fn get_memory(content: &[u8], p: &mut ProcTimes, info: &SystemInfo)
    requires
        statm_fits(content@),
    ensures
        *final(p) == (ProcTimes {
            virtual_memory: sat_mul(statm_value(content@, 0) as u64, info.page_size_b),
            memory: sat_mul(statm_value(content@, 1) as u64, info.page_size_b),
            ..*old(p)
        }),
{
    let f = split_bytes(content, 0x20);
    proof {
        assert(views(f@) == split_on(content@, 0x20u8));
        if f@.len() > 0 {
            assert(views(f@)[0] == f@[0]@);
        }
        if f@.len() > 1 {
            assert(views(f@)[1] == f@[1]@);
        }
    }
    let vm: u64 = if f.len() > 0 { slice_to_nb(f[0].as_slice()) } else { 0 };
    let rss: u64 = if f.len() > 1 { slice_to_nb(f[1].as_slice()) } else { 0 };
    p.virtual_memory = saturating_mul(vm, info.page_size_b);
    p.memory = saturating_mul(rss, info.page_size_b);
}

/// A refresh of the times and memory of a process from its stat fields `parts`, at the
/// uptime `uptime`: when the memory is asked for, the figures of `statm` (its contents,
/// `None` when it could not be read), else those of the stat file; then the CPU
/// times, and the run time since the start.
pub fn update_time_and_memory(
    p: &mut ProcTimes,
    parts: &Parts,
    uptime: u64,
    info: &SystemInfo,
    memory: bool,
    statm: Option<&[u8]>,
)
    requires
        memory ==> match statm {
            Some(c) => statm_fits(c@),
            None => true,
        },
    ensures
        final(p).utime == parts.user_time,
        final(p).stime == parts.system_time,
        final(p).old_utime == old(p).utime,
        final(p).old_stime == old(p).stime,
        final(p).start_time_without_boot_time == old(p).start_time_without_boot_time,
        final(p).run_time == sat_sub(uptime, old(p).start_time_without_boot_time),
        !memory ==> final(p).memory == old(p).memory && final(p).virtual_memory == old(p).virtual_memory,
        memory ==> match statm {
            Some(c) => final(p).virtual_memory == sat_mul(statm_value(c@, 0) as u64, info.page_size_b)
                && final(p).memory == sat_mul(statm_value(c@, 1) as u64, info.page_size_b),
            None => final(p).memory == sat_mul(field_or_zero(opt_view(parts.resident_set_size)), info.page_size_b)
                && final(p).virtual_memory == field_or_zero(opt_view(parts.virtual_size)),
        },
{
    if memory {
        match statm {
            Some(c) => get_memory(c, p, info),
            None => old_get_memory(p, parts, info),
        }
    }
    set_time(p, parts.user_time, parts.system_time);
    p.run_time = uptime.saturating_sub(p.start_time_without_boot_time);
}

/// The CPU ticks a process spent since the refresh before, or `None` at its first
/// refresh (no previous times yet: the usage is then left as it is). The usage in
/// percent is the ticks over the ticks of the system per CPU, times 100, capped at
/// 100 per CPU.
pub fn cpu_ticks_since(p: &ProcTimes) -> (r: Option<u64>)
    ensures
        r == (if p.old_utime == 0 && p.old_stime == 0 {
            None
        } else {
            Some(sat_add(sat_sub(p.utime, p.old_utime), sat_sub(p.stime, p.old_stime)))
        }),
{
    if p.old_utime == 0 && p.old_stime == 0 {
        return None;
    }
    Some(p.utime.saturating_sub(p.old_utime).saturating_add(p.stime.saturating_sub(p.old_stime)))
}

/// The CPU time spent, in milliseconds, from the ticks: `(utime + stime) * 1000 /
/// clock_cycle`, the sum and product saturating.
pub fn accumulated_cpu_time(p: &ProcTimes, info: &SystemInfo) -> (r: u64)
    requires
        info.clock_cycle != 0,
    ensures
        r == sat_mul(sat_add(p.utime, p.stime), 1000) / info.clock_cycle,
{
    saturating_mul(p.utime.saturating_add(p.stime), 1000) / info.clock_cycle
}

/// The start time of a process from the start field of its stat file (in ticks since
/// the boot): the seconds since the boot, and the seconds since the Unix epoch.
pub fn start_times(start_time_raw: u64, info: &SystemInfo) -> (r: (u64, u64))
    requires
        info.clock_cycle != 0,
    ensures
        r.0 == start_time_raw / info.clock_cycle,
        r.1 == sat_add(start_time_raw / info.clock_cycle, info.boot_time),
{
    let since_boot = start_time_raw / info.clock_cycle;
    (since_boot, since_boot.saturating_add(info.boot_time))
}

/// The `PF_KTHREAD` flag of a process's flags: it is a kernel thread.
pub const PF_KTHREAD: u64 = 0x0020_0000;

/// The kind of thread of a new process: a kernel thread when its flags (a field of
/// the stat file) hold `PF_KTHREAD`, else a user thread when it was found as a task
/// of another process, else none.
pub open spec fn spec_thread_kind(flags: Option<Seq<u8>>, is_thread: bool) -> Option<ThreadKind> {
    let kernel = match flags {
        Some(f) => match spec_checked_u64(f) {
            Some(v) => v & PF_KTHREAD != 0,
            None => false,
        },
        None => false,
    };
    if kernel {
        Some(ThreadKind::Kernel)
    } else if is_thread {
        Some(ThreadKind::Userland)
    } else {
        None
    }
}

/// The kind of thread of a new process.
pub fn thread_kind_of(flags: &Option<Vec<u8>>, is_thread: bool) -> (r: Option<ThreadKind>)
    ensures
        r == spec_thread_kind(opt_view(*flags), is_thread),
{
    let kernel = match flags {
        Some(f) => match parse_ascii_checked_u64(f.as_slice()) {
            Some(v) => v & PF_KTHREAD != 0,
            None => false,
        },
        None => false,
    };
    if kernel {
        Some(ThreadKind::Kernel)
    } else if is_thread {
        Some(ThreadKind::Userland)
    } else {
        None
    }
}

/// Replaces a list read from a file (the command line, the environment) by a fresh
/// reading, unless the reading came back empty and a list is known: a process that
/// ends during a refresh keeps what was read of it.
pub fn update_list(target: &mut Vec<Vec<u8>>, new_val: Vec<Vec<u8>>)
    ensures
        new_val@.len() > 0 || old(target)@.len() == 0 ==> *final(target) == new_val,
        new_val@.len() == 0 && old(target)@.len() > 0 ==> *final(target) == *old(target),
{
    if new_val.len() > 0 || target.len() == 0 {
        *target = new_val;
    }
}

/// The ids of a process after a refresh that asked for them: the ones read from the
/// status file, when they could be read; the known ones otherwise.
pub fn apply_ids(
    ids: &mut (Option<Uid>, Option<Uid>, Option<Gid>, Option<Gid>),
    read: Option<((u32, u32), (u32, u32))>,
)
    ensures
        read matches Some(((u, eu), (g, eg))) ==> *final(ids) == (Some(Uid(u)), Some(Uid(eu)), Some(Gid(g)), Some(Gid(eg))),
        read is None ==> *final(ids) == *old(ids),
{
    if let Some(((u, eu), (g, eg))) = read {
        *ids = (Some(Uid(u)), Some(Uid(eu)), Some(Gid(g)), Some(Gid(eg)));
    }
}

/// What a refresh does with a process it already knows: its stat file says when it
/// started (`start_time_raw`); when that differs from the known start, the id now
/// belongs to another process, which is read anew.
pub fn same_process(known_start_raw: u64, start_time_raw: u64) -> (r: bool)
    ensures
        r == (known_start_raw == start_time_raw),
{
    known_start_raw == start_time_raw
}

// ---------------------------------------------------------------------------
// The entries of /proc
// ---------------------------------------------------------------------------

/// An entry of `/proc` (or of a process's `task` folder) to read.
pub struct ProcAndTasks {
    pub pid: Pid,
    pub parent_pid: Option<Pid>,
    pub path: Vec<u8>,
    pub tasks: Option<Vec<Pid>>,
    pub is_thread: bool,
}

/// An entry of a folder as the id it names: a folder whose name is a number (`None`
/// for another entry). The number is kept to 32 bits, as `Pid::from` does.
pub fn pid_entry(is_dir: bool, name: &[u8]) -> (r: Option<Pid>)
    ensures
        r == (if is_dir && crate::text::all_digits(name@) && crate::text::dec_value(name@) <= usize::MAX {
            Some(Pid((crate::text::dec_value(name@) as usize) as i32))
        } else {
            None
        }),
{
    if !is_dir {
        return None;
    }
    match crate::stat::parse_ascii_checked_usize(name) {
        Some(v) => Some(Pid(usize_to_pid(v))),
        None => None,
    }
}

#[verifier::truncate]
fn usize_to_pid(v: usize) -> (r: i32)
    ensures
        r == v as i32,
{
    v as i32
}

/// The ids and paths of the entries of a `task` folder that are not the process
/// `parent` itself, in order.
pub open spec fn task_entries(entries: Seq<(Vec<u8>, Pid)>, parent: Pid) -> Seq<(Pid, Seq<u8>)>
    decreases entries.len(),
{
    if entries.len() == 0 {
        seq![]
    } else {
        let rest = task_entries(entries.drop_last(), parent);
        let e = entries.last();
        if e.1 != parent {
            rest.push((e.1, e.0@))
        } else {
            rest
        }
    }
}

/// An entry to read as plain values: its id and path.
pub open spec fn entry_key(t: ProcAndTasks) -> (Pid, Seq<u8>) {
    (t.pid, t.path@)
}

/// The tasks of the process `parent` from the entries of its `task` folder (paths
/// and ids): every one but the process itself, in order, as a thread of it.
pub fn get_proc_tasks(entries: Vec<(Vec<u8>, Pid)>, parent: Pid) -> (r: Vec<ProcAndTasks>)
    ensures
        r@.map_values(|t: ProcAndTasks| entry_key(t)) == task_entries(entries@, parent),
        forall|i: int| 0 <= i < r@.len() ==> (#[trigger] r@[i]).is_thread && r@[i].parent_pid == Some(parent)
            && r@[i].tasks is None,
{
    let ghost all = entries@;
    let n = entries.len();
    let mut rest = entries;
    let mut out: Vec<ProcAndTasks> = Vec::new();
    let mut i: usize = 0;
    while i < n
        invariant
            i <= n == all.len(),
            rest@ == all.subrange(i as int, n as int),
            out@.map_values(|t: ProcAndTasks| entry_key(t)) == task_entries(all.take(i as int), parent),
            forall|k: int| 0 <= k < out@.len() ==> (#[trigger] out@[k]).is_thread && out@[k].parent_pid == Some(parent)
                && out@[k].tasks is None,
        decreases n - i,
    {
        let (path, pid) = rest.remove(0);
        proof {
            assert(all.take(i + 1).drop_last() =~= all.take(i as int));
            assert(all.take(i + 1).last() == all[i as int]);
            assert(all[i as int] == (path, pid));
        }
        if pid.0 != parent.0 {
            let ghost before = out@.map_values(|t: ProcAndTasks| entry_key(t));
            let ghost key = (pid, path@);
            out.push(ProcAndTasks { pid, parent_pid: Some(parent), path, tasks: None, is_thread: true });
            proof {
                assert(out@.map_values(|t: ProcAndTasks| entry_key(t)) =~= before.push(key));
            }
        }
        i = i + 1;
    }
    proof {
        assert(all.take(n as int) =~= all);
    }
    out
}

/// The entries that a refresh reads for the process `pid` found at `path`: its tasks
/// (`tasks`, when they were asked for), and itself. A process whose thread-group id
/// (`tgid`, from its status file) is another's is a thread of that one: it is read
/// alone, with that parent. The tasks are read only when all processes are refreshed.
pub fn get_proc_and_tasks(
    path: Vec<u8>,
    pid: Pid,
    tasks: Option<Vec<ProcAndTasks>>,
    tgid: Option<Pid>,
    all_processes: bool,
) -> (r: Vec<ProcAndTasks>)
    ensures
        r@.len() >= 1,
        r@.last().pid == pid,
        r@.last().path@ == path@,
        ({
            let is_thread = tgid matches Some(t) && t != pid;
            &&& r@.last().is_thread == is_thread
            &&& r@.last().parent_pid == (if is_thread { tgid } else { None })
            &&& is_thread ==> r@.last().tasks is None
            &&& !is_thread ==> match tasks {
                Some(t) => r@.last().tasks matches Some(ids) && ids@ == t@.map_values(|e: ProcAndTasks| e.pid),
                None => r@.last().tasks is None,
            }
            &&& r@.len() == 1 + (if !is_thread && all_processes {
                match tasks {
                    Some(t) => t@.len() as int,
                    None => 0,
                }
            } else {
                0
            })
            &&& !is_thread && all_processes ==> match tasks {
                Some(t) => forall|k: int| 0 <= k < t@.len() ==> (#[trigger] r@[k]) == t@[k],
                None => true,
            }
        }),
{
    let (mut procs, mut task_ids) = match tasks {
        Some(t) => {
            let mut ids: Vec<Pid> = Vec::new();
            let mut k: usize = 0;
            while k < t.len()
                invariant
                    k <= t@.len(),
                    ids@ == t@.take(k as int).map_values(|e: ProcAndTasks| e.pid),
                decreases t@.len() - k,
            {
                ids.push(t[k].pid);
                proof {
                    assert(ids@ =~= t@.take(k + 1).map_values(|e: ProcAndTasks| e.pid));
                }
                k = k + 1;
            }
            proof {
                assert(t@.take(t@.len() as int) =~= t@);
            }
            (t, Some(ids))
        },
        None => (Vec::new(), None),
    };
    let ghost listed = procs@;
    let mut parent_pid: Option<Pid> = None;
    let mut is_thread = false;
    let thread = match tgid {
        Some(t) => t.0 != pid.0,
        None => false,
    };
    if thread {
        parent_pid = tgid;
        task_ids = None;
        is_thread = true;
        procs.clear();
    } else if !all_processes {
        procs.clear();
    }
    procs.push(ProcAndTasks { is_thread, pid, parent_pid, path, tasks: task_ids });
    proof {
        if !thread && all_processes {
            assert forall|k: int| 0 <= k < listed.len() implies (#[trigger] procs@[k]) == listed[k] by {}
        }
    }
    procs
}

// ---------------------------------------------------------------------------
// Limits
// ---------------------------------------------------------------------------

/// `Max open files ` (a line of `/proc/<pid>/limits`).
pub open spec fn max_open_files_key() -> Seq<u8> {
    seq![
        0x4du8, 0x61u8, 0x78u8, 0x20u8, 0x6fu8, 0x70u8, 0x65u8, 0x6eu8, 0x20u8, 0x66u8, 0x69u8,
        0x6cu8, 0x65u8, 0x73u8, 0x20u8,
    ]
}

/// The value of a string of digits that fits in a `usize`.
pub open spec fn spec_checked_usize(b: Seq<u8>) -> Option<usize> {
    if all_digits(b) && dec_value(b) <= usize::MAX {
        Some(dec_value(b) as usize)
    } else {
        None
    }
}

/// The open-file limit that the lines `ls[i..]` of `/proc/<pid>/limits` give: the
/// first word after `Max open files ` on the first such line that has one.
pub open spec fn open_files_limit_in(ls: Seq<Seq<u8>>, i: int) -> Option<usize>
    decreases ls.len() - i,
{
    if i < 0 || i >= ls.len() {
        None
    } else if 15 <= ls[i].len() && ls[i].subrange(0, 15) == max_open_files_key() && nonempty_pieces(
        split_on(ls[i].subrange(15, ls[i].len() as int), 0x20u8),
    ).len() > 0 {
        spec_checked_usize(nonempty_pieces(split_on(ls[i].subrange(15, ls[i].len() as int), 0x20u8))[0])
    } else {
        open_files_limit_in(ls, i + 1)
    }
}

/// The limit of open files of a process from its `/proc/<pid>/limits` (the soft
/// limit, the first number of the `Max open files` line).
pub fn open_files_limit_from(limits: &[u8]) -> (r: Option<usize>)
    ensures
        r == open_files_limit_in(split_on(limits@, 0x0au8), 0),
{
    let ls = split_bytes(limits, 0x0a);
    let ghost l = views(ls@);
    let key: [u8; 15] = [0x4d, 0x61, 0x78, 0x20, 0x6f, 0x70, 0x65, 0x6e, 0x20, 0x66, 0x69, 0x6c, 0x65, 0x73, 0x20];
    assert(key@ =~= max_open_files_key());
    let mut i: usize = 0;
    while i < ls.len()
        invariant
            i <= ls@.len(),
            l == views(ls@),
            l == split_on(limits@, 0x0au8),
            key@ == max_open_files_key(),
            open_files_limit_in(l, i as int) == open_files_limit_in(l, 0),
        decreases ls@.len() - i,
    {
        let line = ls[i].as_slice();
        assert(line@ == l[i as int]);
        if starts_with_at(line, 0, key.as_slice()) {
            let rest = copy_range(line, 15, line.len());
            let f = nonempty_split(rest.as_slice(), 0x20);
            if f.len() >= 1 {
                assert(f@[0]@ == nonempty_pieces(split_on(rest@, 0x20u8))[0]);
                return parse_ascii_checked_usize(f[0].as_slice());
            }
        }
        i = i + 1;
    }
    None
}

} // verus!
