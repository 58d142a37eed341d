//! Figures of Windows systems and processes computed from what the system calls
//! return: times in 100 ns units since 1601, memory and swap figures, the growth of a
//! process's CPU times, and the decisions of a refresh of the process list.
use vstd::prelude::*;
use crate::common::Pid;
use crate::windisk::{nul_from, nul_index, lemma_nul_from};
use crate::wingpu::{utf16_lossy, string_from_utf16_lossy};
use crate::text::{decimal, lemma_decimal_ascii, push_decimal, ascii_chars, lemma_ascii_utf8, string_from_utf8};

verus! {

// ---------------------------------------------------------------------------
// Times
// ---------------------------------------------------------------------------

/// Seconds between the Windows epoch (1601-01-01) and the Unix one (1970-01-01).
pub const EPOCH_OFFSET_SECS: u64 = 11_644_473_600;

/// The 64-bit value of a `FILETIME` made of its two halves.
pub open spec fn spec_filetime(high: u32, low: u32) -> u64 {
    (high as int * 0x1_0000_0000 + low as int) as u64
}

/// Joins the two halves of a `FILETIME`.
pub fn filetime_to_u64(high: u32, low: u32) -> (r: u64)
    ensures
        r == spec_filetime(high, low),
{
    (high as u64) * 0x1_0000_0000 + (low as u64)
}

/// The start time in seconds since the Unix epoch of a process whose creation time
/// is `process_times` (100 ns units since 1601). A creation time before 1970 makes
/// the subtraction underflow, which the caller must rule out.
pub fn compute_start(process_times: u64) -> (r: u64)
    requires
        process_times / 10_000_000 >= EPOCH_OFFSET_SECS,
    ensures
        r == process_times / 10_000_000 - EPOCH_OFFSET_SECS,
{
    process_times / 10_000_000 - EPOCH_OFFSET_SECS
}

/// `a - b`, or `a` itself when `b` is the larger.
pub open spec fn spec_check_sub(a: u64, b: u64) -> u64 {
    if a < b {
        a
    } else {
        (a - b) as u64
    }
}

/// `a - b`, or `a` itself when `b` is the larger.
pub fn check_sub(a: u64, b: u64) -> (r: u64)
    ensures
        r == spec_check_sub(a, b),
{
    if a < b {
        a
    } else {
        a - b
    }
}

/// The path of a process's executable found by its id alone: the system offers no
/// way to find it, so there is none.
pub fn get_executable_path(pid: Pid) -> (r: Option<Vec<u8>>)
    ensures
        r is None,
{
    None
}

/// The wide string in `buf` up to and with its first NUL.
pub fn from_zero_terminated(buf: &[u16]) -> (r: Vec<u16>)
    requires
        exists|i: int| 0 <= i < buf@.len() && buf@[i] == 0u16,
    ensures
        exists|end: int|
            0 <= end < buf@.len() && buf@[end] == 0u16 && (forall|j: int| 0 <= j < end ==> buf@[j] != 0u16)
                && r@ == buf@.subrange(0, end + 1),
{
    let n = buf.len();
    let mut end: usize = 0;
    while end < n && buf[end] != 0
        invariant
            end <= n == buf@.len(),
            forall|j: int| 0 <= j < end ==> buf@[j] != 0u16,
            exists|i: int| 0 <= i < buf@.len() && buf@[i] == 0u16,
        decreases n - end,
    {
        end = end + 1;
    }
    proof {
        if end == n {
            let i = choose|i: int| 0 <= i < buf@.len() && buf@[i] == 0u16;
            assert(buf@[i] != 0u16);
        }
    }
    let mut out: Vec<u16> = Vec::new();
    let mut k: usize = 0;
    while k <= end
        invariant
            end < n == buf@.len(),
            k <= end + 1,
            out@ == buf@.subrange(0, k as int),
        decreases end + 1 - k,
    {
        out.push(buf[k]);
        proof {
            assert(out@ =~= buf@.subrange(0, k + 1));
        }
        k = k + 1;
    }
    out
}

// ---------------------------------------------------------------------------
// Memory
// ---------------------------------------------------------------------------

/// What `K32GetPerformanceInfo` reports, in pages (the page size in bytes).
#[derive(Clone, Copy, Debug, PartialEq, Eq, Structural)]
pub struct PerformanceInfo {
    pub page_size: u64,
    pub physical_total: u64,
    pub commit_limit: u64,
    pub commit_total: u64,
}

/// `a * b`, or `u64::MAX` when that overflows.
pub open spec fn sat_mul(a: u64, b: u64) -> u64 {
    if a * b > u64::MAX {
        u64::MAX
    } else {
        (a * b) as u64
    }
}

/// `a - b`, or 0 when `b` is the larger.
pub open spec fn sat_sub(a: u64, b: u64) -> u64 {
    if a < b {
        0
    } else {
        (a - b) as u64
    }
}

/// The memory and swap figures of a Windows system, in bytes.
#[derive(Clone, Copy, Debug, Default, PartialEq, Eq, Structural)]
pub struct WinMemory {
    pub mem_total: u64,
    pub mem_available: u64,
    pub swap_total: u64,
    pub swap_used: u64,
}

impl WinMemory {
    /// Takes the total and available physical memory of `GlobalMemoryStatusEx`.
    pub fn refresh_ram(&mut self, total: u64, available: u64)
        ensures
            *final(self) == (WinMemory { mem_total: total, mem_available: available, ..*old(self) }),
    {
        self.mem_total = total;
        self.mem_available = available;
    }

    /// Takes the swap figures from the performance information, when the call
    /// succeeded: the swap is the commit limit beyond the physical memory, the used
    /// swap the commit total beyond it (in pages, times the page size; saturating).
    pub fn refresh_swap(&mut self, info: Option<PerformanceInfo>)
        ensures
            info is None ==> *final(self) == *old(self),
            info matches Some(p) ==> *final(self) == (WinMemory {
                swap_total: sat_mul(p.page_size, sat_sub(p.commit_limit, p.physical_total)),
                swap_used: sat_mul(p.page_size, sat_sub(p.commit_total, p.physical_total)),
                ..*old(self)
            }),
    {
        if let Some(p) = info {
            self.swap_total = crate::cgroup::saturating_mul(p.page_size, p.commit_limit.saturating_sub(p.physical_total));
            self.swap_used = crate::cgroup::saturating_mul(p.page_size, p.commit_total.saturating_sub(p.physical_total));
        }
    }

    /// The total memory.
    pub fn total_memory(&self) -> (r: u64)
        ensures
            r == self.mem_total,
    {
        self.mem_total
    }

    /// The free memory: the system reports none apart from the available memory.
    pub fn free_memory(&self) -> (r: u64)
        ensures
            r == self.mem_available,
    {
        self.mem_available
    }

    /// The available memory.
    pub fn available_memory(&self) -> (r: u64)
        ensures
            r == self.mem_available,
    {
        self.mem_available
    }

    /// The used memory (the subtraction panics when the available memory is the larger).
    pub fn used_memory(&self) -> (r: u64)
        requires
            self.mem_available <= self.mem_total,
        ensures
            r == self.mem_total - self.mem_available,
    {
        self.mem_total - self.mem_available
    }

    /// The total swap.
    pub fn total_swap(&self) -> (r: u64)
        ensures
            r == self.swap_total,
    {
        self.swap_total
    }

    /// The free swap (the subtraction panics when the used swap is the larger).
    pub fn free_swap(&self) -> (r: u64)
        requires
            self.swap_used <= self.swap_total,
        ensures
            r == self.swap_total - self.swap_used,
    {
        self.swap_total - self.swap_used
    }

    /// The used swap.
    pub fn used_swap(&self) -> (r: u64)
        ensures
            r == self.swap_used,
    {
        self.swap_used
    }
}

// ---------------------------------------------------------------------------
// Processes
// ---------------------------------------------------------------------------

/// The CPU times of a process and of the system at the last refresh (100 ns units).
#[derive(Clone, Copy, Debug, Default, PartialEq, Eq, Structural)]
pub struct CpuCalcValues {
    pub old_process_sys_cpu: u64,
    pub old_process_user_cpu: u64,
    pub old_system_sys_cpu: u64,
    pub old_system_user_cpu: u64,
}

/// The growth of the process's CPU time and of the system's, between the values of
/// `v` and the times just read (each growth is taken by `check_sub`; the sums
/// saturate). The usage in percent is `100 * process / system * number of CPUs`,
/// or 0 when the system's growth is 0.
pub open spec fn spec_cpu_deltas(v: CpuCalcValues, user: u64, sys: u64, global_user: u64, global_kernel: u64) -> (u64, u64) {
    let du = spec_check_sub(user, v.old_process_user_cpu);
    let ds = spec_check_sub(sys, v.old_process_sys_cpu);
    let dgk = spec_check_sub(global_kernel, v.old_system_sys_cpu);
    let dgu = spec_check_sub(global_user, v.old_system_user_cpu);
    (
        if du + ds > u64::MAX { u64::MAX } else { (du + ds) as u64 },
        if dgu + dgk > u64::MAX { u64::MAX } else { (dgu + dgk) as u64 },
    )
}

impl CpuCalcValues {
    /// Takes the times just read (the process's user and kernel times, the system's
    /// user and kernel times) and returns the growth of the process's and the
    /// system's times since the last refresh.
    pub fn step(&mut self, user: u64, sys: u64, global_user: u64, global_kernel: u64) -> (r: (u64, u64))
        ensures
            r == spec_cpu_deltas(*old(self), user, sys, global_user, global_kernel),
            *final(self) == (CpuCalcValues {
                old_process_sys_cpu: sys,
                old_process_user_cpu: user,
                old_system_sys_cpu: global_kernel,
                old_system_user_cpu: global_user,
            }),
    {
        let delta_global_kernel = check_sub(global_kernel, self.old_system_sys_cpu);
        let delta_global_user = check_sub(global_user, self.old_system_user_cpu);
        let delta_user = check_sub(user, self.old_process_user_cpu);
        let delta_sys = check_sub(sys, self.old_process_sys_cpu);
        self.old_process_user_cpu = user;
        self.old_process_sys_cpu = sys;
        self.old_system_user_cpu = global_user;
        self.old_system_sys_cpu = global_kernel;
        (delta_user.saturating_add(delta_sys), delta_global_user.saturating_add(delta_global_kernel))
    }
}

/// The size of the buffer to try after `NtQuerySystemInformation` found `size`
/// bytes too small and asked for `needed`: twice the size when it asked for
/// nothing, else what it asked for and 10 KiB more.
pub open spec fn spec_next_buffer_size(size: usize, needed: u32) -> int {
    if needed == 0 {
        2 * size
    } else {
        needed + 10240
    }
}

/// The size of the buffer to try next.
pub fn next_buffer_size(size: usize, needed: u32) -> (r: usize)
    requires
        needed == 0 ==> 2 * size <= usize::MAX,
        needed != 0 ==> needed + 10240 <= u32::MAX,
    ensures
        r == spec_next_buffer_size(size, needed),
{
    if needed == 0 {
        size * 2
    } else {
        (needed + 10240) as usize
    }
}

/// Whether a refresh restricted to `filter` (all processes when there is none)
/// looks at the process `pid`.
pub fn pid_selected(filter: Option<&[Pid]>, pid: Pid) -> (r: bool)
    ensures
        r == (filter is None || filter.unwrap()@.contains(pid)),
{
    match filter {
        None => true,
        Some(f) => {
            let mut i: usize = 0;
            while i < f.len()
                invariant
                    filter == Some(f),
                    i <= f@.len(),
                    forall|j: int| 0 <= j < i ==> f@[j] != pid,
                decreases f@.len() - i,
            {
                if f[i].0 == pid.0 {
                    assert(f@[i as int] == pid);
                    assert(f@.contains(pid));
                    return true;
                }
                i = i + 1;
            }
            false
        },
    }
}

/// The parent of a process from the id it was created from (`None` for 0).
pub fn parent_from(inherited: usize) -> (r: Option<Pid>)
    requires
        inherited <= i32::MAX,
    ensures
        r == (if inherited == 0 { None } else { Some(Pid(inherited as i32)) }),
{
    if inherited != 0 {
        Some(Pid(inherited as i32))
    } else {
        None
    }
}

/// What a refresh does with a process found in the snapshot of the system.
#[derive(Clone, Copy, Debug, PartialEq, Eq, Structural)]
pub enum SnapshotAction {
    /// It is known, with the same start: refresh it.
    Update,
    /// It is not known, or its id now belongs to another process: make it anew.
    Create,
}

/// What to do with a process of the snapshot: `known_start` is the start time of the
/// process known under its id, if any; `current_start` the start time read from the
/// process's handle, when it has one.
pub fn snapshot_action(known_start: Option<u64>, current_start: Option<u64>) -> (r: SnapshotAction)
    ensures
        r == (match known_start {
            None => SnapshotAction::Create,
            Some(k) => match current_start {
                None => SnapshotAction::Update,
                Some(c) => if c == k { SnapshotAction::Update } else { SnapshotAction::Create },
            },
        }),
{
    match known_start {
        None => SnapshotAction::Create,
        Some(k) => match current_start {
            None => SnapshotAction::Update,
            Some(c) => if c == k {
                SnapshotAction::Update
            } else {
                SnapshotAction::Create
            },
        },
    }
}

/// What a refresh of one known process found: the start time and whether the
/// process still runs, read from its handle (`None` when it has none).
pub open spec fn spec_existing_outcome(known_start: u64, handle: Option<(u64, bool)>) -> Option<bool> {
    match handle {
        None => Some(false),
        Some((start, running)) => if start != known_start {
            None
        } else if !running {
            Some(false)
        } else {
            Some(true)
        },
    }
}

/// The outcome of refreshing a known process: `None` when its id now belongs to
/// another process (it must be made anew), `Some(false)` when it has no handle or no
/// longer runs, `Some(true)` when it is to be refreshed.
pub fn existing_outcome(known_start: u64, handle: Option<(u64, bool)>) -> (r: Option<bool>)
    ensures
        r == spec_existing_outcome(known_start, handle),
{
    match handle {
        None => Some(false),
        Some((start, running)) => {
            if start != known_start {
                None
            } else if !running {
                Some(false)
            } else {
                Some(true)
            }
        },
    }
}

/// The name of a process whose image name is missing: `Idle` for 0, `System` for 4,
/// else `<no name> Process ` and the id.
pub open spec fn placeholder_name(pid: u32) -> Seq<char> {
    if pid == 0 {
        seq!['I', 'd', 'l', 'e']
    } else if pid == 4 {
        seq!['S', 'y', 's', 't', 'e', 'm']
    } else {
        seq!['<', 'n', 'o', ' ', 'n', 'a', 'm', 'e', '>', ' ', 'P', 'r', 'o', 'c', 'e', 's', 's', ' ']
            + ascii_chars(decimal(pid as nat))
    }
}

/// The name of a process whose image name is missing.
pub fn placeholder_process_name(pid: u32) -> (r: String)
    ensures
        r@ == placeholder_name(pid),
{
    if pid == 0 {
        let r = "Idle".to_owned();
        proof {
            reveal_strlit("Idle");
        }
        return r;
    }
    if pid == 4 {
        let r = "System".to_owned();
        proof {
            reveal_strlit("System");
        }
        return r;
    }
    let prefix: [u8; 18] = [0x3c, 0x6e, 0x6f, 0x20, 0x6e, 0x61, 0x6d, 0x65, 0x3e, 0x20, 0x50, 0x72, 0x6f, 0x63, 0x65, 0x73, 0x73, 0x20];
    let mut b: Vec<u8> = Vec::new();
    let mut i: usize = 0;
    while i < 18
        invariant
            i <= 18,
            b@ == prefix@.subrange(0, i as int),
        decreases 18 - i,
    {
        b.push(prefix[i]);
        proof {
            assert(b@ =~= prefix@.subrange(0, i + 1));
        }
        i = i + 1;
    }
    push_decimal(&mut b, pid as u64);
    proof {
        lemma_decimal_ascii(pid as nat);
        let d = decimal(pid as nat);
        assert(b@ =~= prefix@ + d);
        assert forall|j: int| 0 <= j < b@.len() implies #[trigger] b@[j] < 0x80 by {
            if j >= 18 {
                assert(b@[j] == d[j - 18]);
            }
        }
        lemma_ascii_utf8(b@);
        assert(ascii_chars(prefix@) =~= seq!['<', 'n', 'o', ' ', 'n', 'a', 'm', 'e', '>', ' ', 'P', 'r', 'o', 'c', 'e', 's', 's', ' ']);
        assert(ascii_chars(b@) =~= ascii_chars(prefix@) + ascii_chars(d));
    }
    match string_from_utf8(b) {
        Some(s) => s,
        None => String::new(),
    }
}

// ---------------------------------------------------------------------------
// The process table
// ---------------------------------------------------------------------------

/// A process of the table: its id, parent, name, start time, memory figures, and
/// whether the current refresh saw it.
pub struct WinProcess {
    pub pid: Pid,
    pub parent: Option<Pid>,
    pub name: String,
    pub start_time: u64,
    pub memory: u64,
    pub virtual_memory: u64,
    pub updated: bool,
}

/// A process as plain values.
pub struct WinProcessView {
    pub pid: Pid,
    pub parent: Option<Pid>,
    pub name: Seq<char>,
    pub start_time: u64,
    pub memory: u64,
    pub virtual_memory: u64,
    pub updated: bool,
}

pub open spec fn proc_view(p: WinProcess) -> WinProcessView {
    WinProcessView {
        pid: p.pid,
        parent: p.parent,
        name: p.name@,
        start_time: p.start_time,
        memory: p.memory,
        virtual_memory: p.virtual_memory,
        updated: p.updated,
    }
}

pub open spec fn procs_view(v: Seq<WinProcess>) -> Seq<WinProcessView> {
    v.map_values(|p: WinProcess| proc_view(p))
}

/// A process of the system snapshot: its id, parent (see `parent_from`), name,
/// working set and virtual size, and the start time of the process now holding the
/// id, read from a handle on it (`None` without a handle).
pub struct SnapshotEntry {
    pub pid: Pid,
    pub parent: Option<Pid>,
    pub name: String,
    pub working_set: u64,
    pub virtual_size: u64,
    pub start: Option<u64>,
}

/// The index of the process `pid` in `v`, or the length.
pub open spec fn proc_index(v: Seq<WinProcessView>, pid: Pid) -> int
    decreases v.len(),
{
    if v.len() == 0 {
        0
    } else if v.last().pid == pid {
        v.len() - 1
    } else if proc_index(v.drop_last(), pid) < v.len() - 1 {
        proc_index(v.drop_last(), pid)
    } else {
        v.len() as int
    }
}

/// The table after a snapshot entry is taken. A process known under the id with
/// the same start is refreshed: marked seen and, when the memory is refreshed, its
/// memory figures replaced. Otherwise the entry becomes a process made anew (its
/// memory figures only when the memory is refreshed), in place of the one that held
/// the id, or at the end.
pub open spec fn spec_take_entry(v: Seq<WinProcessView>, e: SnapshotEntry, memory: bool) -> Seq<WinProcessView> {
    let k = proc_index(v, e.pid);
    if k < v.len() && match e.start {
        None => true,
        Some(c) => c == v[k].start_time,
    } {
        let p = v[k];
        v.update(
            k,
            WinProcessView {
                updated: true,
                memory: if memory { e.working_set } else { p.memory },
                virtual_memory: if memory { e.virtual_size } else { p.virtual_memory },
                ..p
            },
        )
    } else {
        let p = WinProcessView {
            pid: e.pid,
            parent: e.parent,
            name: e.name@,
            start_time: match e.start {
                Some(t) => t,
                None => 0,
            },
            memory: if memory { e.working_set } else { 0 },
            virtual_memory: if memory { e.virtual_size } else { 0 },
            updated: true,
        };
        if k < v.len() {
            v.update(k, p)
        } else {
            v.push(p)
        }
    }
}

/// The table after the selected entries of a snapshot are taken in turn.
pub open spec fn take_entries(v: Seq<WinProcessView>, es: Seq<SnapshotEntry>, filter: Option<Seq<Pid>>, memory: bool) -> Seq<
    WinProcessView,
>
    decreases es.len(),
{
    if es.len() == 0 {
        v
    } else {
        let p = take_entries(v, es.drop_last(), filter, memory);
        let e = es.last();
        if filter is None || filter.unwrap().contains(e.pid) {
            spec_take_entry(p, e, memory)
        } else {
            p
        }
    }
}

/// The processes of `v` seen by the refresh, in order, their marks cleared.
pub open spec fn retain_seen(v: Seq<WinProcessView>) -> Seq<WinProcessView>
    decreases v.len(),
{
    if v.len() == 0 {
        seq![]
    } else {
        let p = retain_seen(v.drop_last());
        if v.last().updated {
            p.push(WinProcessView { updated: false, ..v.last() })
        } else {
            p
        }
    }
}

/// Whether no two processes of `v` share an id.
pub open spec fn pids_distinct(v: Seq<WinProcessView>) -> bool {
    forall|a: int, b: int| 0 <= a < b < v.len() ==> v[a].pid != v[b].pid
}

proof fn lemma_proc_index(v: Seq<WinProcessView>, pid: Pid)
    requires
        pids_distinct(v),
    ensures
        0 <= proc_index(v, pid) <= v.len(),
        proc_index(v, pid) < v.len() ==> v[proc_index(v, pid)].pid == pid,
        proc_index(v, pid) == v.len() ==> forall|j: int| 0 <= j < v.len() ==> v[j].pid != pid,
    decreases v.len(),
{
    if v.len() > 0 {
        let d = v.drop_last();
        assert forall|a: int, b: int| 0 <= a < b < d.len() implies d[a].pid != d[b].pid by {
            assert(d[a] == v[a] && d[b] == v[b]);
        }
        lemma_proc_index(d, pid);
        if v.last().pid != pid && proc_index(d, pid) < d.len() {
            assert(v[proc_index(d, pid)] == d[proc_index(d, pid)]);
        }
        if proc_index(v, pid) == v.len() {
            assert forall|j: int| 0 <= j < v.len() implies v[j].pid != pid by {
                if j < d.len() {
                    assert(v[j] == d[j]);
                }
            }
        }
    }
}

/// The processes of Windows.
pub struct WinProcessList {
    pub procs: Vec<WinProcess>,
}

impl WinProcessList {
    /// The invariant: no two processes share an id.
    pub open spec fn wf(&self) -> bool {
        pids_distinct(procs_view(self.procs@))
    }

    /// No process yet.
    pub fn new() -> (r: WinProcessList)
        ensures
            r.procs@.len() == 0,
            r.wf(),
    {
        WinProcessList { procs: Vec::new() }
    }

    fn index_of(&self, pid: Pid) -> (r: usize)
        requires
            self.wf(),
        ensures
            r == proc_index(procs_view(self.procs@), pid),
    {
        let ghost v = procs_view(self.procs@);
        proof {
            lemma_proc_index(v, pid);
        }
        let mut i: usize = 0;
        while i < self.procs.len()
            invariant
                i <= self.procs@.len(),
                v == procs_view(self.procs@),
                pids_distinct(v),
                0 <= proc_index(v, pid) <= v.len(),
                proc_index(v, pid) < v.len() ==> v[proc_index(v, pid)].pid == pid,
                proc_index(v, pid) == v.len() ==> forall|j: int| 0 <= j < v.len() ==> v[j].pid != pid,
                forall|j: int| 0 <= j < i ==> v[j].pid != pid,
            decreases self.procs@.len() - i,
        {
            if self.procs[i].pid.0 == pid.0 {
                proof {
                    assert(v[i as int].pid == pid);
                    if proc_index(v, pid) != i {
                        assert(proc_index(v, pid) < v.len());
                    }
                }
                return i;
            }
            i = i + 1;
        }
        proof {
            if proc_index(v, pid) < v.len() {
                assert(v[proc_index(v, pid)].pid == pid);
            }
        }
        i
    }

    /// Takes a snapshot entry (see `spec_take_entry`).
    fn take_entry(&mut self, e: SnapshotEntry, memory: bool)
        requires
            old(self).wf(),
        ensures
            final(self).wf(),
            procs_view(final(self).procs@) == spec_take_entry(procs_view(old(self).procs@), e, memory),
    {
        let ghost v = procs_view(self.procs@);
        let ghost e0 = e;
        proof {
            lemma_proc_index(v, e.pid);
        }
        let k = self.index_of(e.pid);
        if k < self.procs.len() && snapshot_action(Some(self.procs[k].start_time), e.start) == SnapshotAction::Update {
            let mut p = self.procs.remove(k);
            p.updated = true;
            if memory {
                p.memory = e.working_set;
                p.virtual_memory = e.virtual_size;
            }
            self.procs.insert(k, p);
            proof {
                assert(procs_view(self.procs@) =~= v.update(k as int, proc_view(p)));
                assert forall|a: int, b: int| 0 <= a < b < v.len() implies procs_view(self.procs@)[a].pid
                    != procs_view(self.procs@)[b].pid by {
                    assert(procs_view(self.procs@)[a].pid == v[a].pid);
                    assert(procs_view(self.procs@)[b].pid == v[b].pid);
                }
            }
            return;
        }
        let start = match e.start {
            Some(t) => t,
            None => 0,
        };
        let p = WinProcess {
            pid: e.pid,
            parent: e.parent,
            name: e.name,
            start_time: start,
            memory: if memory { e.working_set } else { 0 },
            virtual_memory: if memory { e.virtual_size } else { 0 },
            updated: true,
        };
        if k < self.procs.len() {
            let _old = self.procs.remove(k);
            self.procs.insert(k, p);
            proof {
                assert(procs_view(self.procs@) =~= v.update(k as int, proc_view(p)));
                assert forall|a: int, b: int| 0 <= a < b < v.len() implies procs_view(self.procs@)[a].pid
                    != procs_view(self.procs@)[b].pid by {
                    assert(procs_view(self.procs@)[a].pid == v[a].pid);
                    assert(procs_view(self.procs@)[b].pid == v[b].pid);
                }
            }
        } else {
            self.procs.push(p);
            proof {
                assert(procs_view(self.procs@) =~= v.push(proc_view(p)));
                assert forall|a: int, b: int| 0 <= a < b < v.len() + 1 implies procs_view(self.procs@)[a].pid
                    != procs_view(self.procs@)[b].pid by {
                    if b == v.len() {
                        assert(procs_view(self.procs@)[a] == v[a]);
                    } else {
                        assert(procs_view(self.procs@)[a] == v[a]);
                        assert(procs_view(self.procs@)[b] == v[b]);
                    }
                }
            }
        }
    }

    /// A refresh from a snapshot of the system: the entries that `filter` selects
    /// (all without one) are taken in turn, then the processes the refresh did not
    /// see are dropped and the marks of the others cleared.
    pub fn refresh_from_snapshot(&mut self, entries: Vec<SnapshotEntry>, filter: Option<&[Pid]>, memory: bool)
        requires
            old(self).wf(),
        ensures
            final(self).wf(),
            procs_view(final(self).procs@) == retain_seen(
                take_entries(
                    procs_view(old(self).procs@),
                    entries@,
                    match filter {
                        Some(f) => Some(f@),
                        None => None,
                    },
                    memory,
                ),
            ),
    {
        let ghost v0 = procs_view(self.procs@);
        let ghost fv = match filter {
            Some(f) => Some(f@),
            None => None,
        };
        let ghost all = entries@;
        let n = entries.len();
        let mut rest = entries;
        let mut i: usize = 0;
        while i < n
            invariant
                i <= n == all.len(),
                rest@ == all.subrange(i as int, n as int),
                self.wf(),
                fv == match filter {
                    Some(f) => Some(f@),
                    None => None,
                },
                procs_view(self.procs@) == take_entries(v0, all.take(i as int), fv, memory),
            decreases n - i,
        {
            let e = rest.remove(0);
            proof {
                assert(all[i as int] == e);
                assert(all.take(i + 1).drop_last() =~= all.take(i as int));
                assert(all.take(i + 1).last() == e);
            }
            if pid_selected(filter, e.pid) {
                self.take_entry(e, memory);
            }
            i = i + 1;
        }
        proof {
            assert(all.take(n as int) =~= all);
        }
        self.retain_seen();
    }

    fn retain_seen(&mut self)
        requires
            old(self).wf(),
        ensures
            final(self).wf(),
            procs_view(final(self).procs@) == retain_seen(procs_view(old(self).procs@)),
    {
        let ghost v0 = procs_view(self.procs@);
        let mut old_list: Vec<WinProcess> = Vec::new();
        std::mem::swap(&mut old_list, &mut self.procs);
        let n = old_list.len();
        let mut rest = old_list;
        let ghost all = rest@;
        proof {
            assert(procs_view(all) == v0);
        }
        let mut i: usize = 0;
        while i < n
            invariant
                i <= n == all.len(),
                procs_view(all) == v0,
                rest@ == all.subrange(i as int, n as int),
                procs_view(self.procs@) == retain_seen(v0.take(i as int)),
                pids_distinct(v0),
                forall|k: int| 0 <= k < self.procs@.len() ==> exists|j: int| 0 <= j < i && (#[trigger] procs_view(self.procs@)[k]).pid == v0[j].pid,
            decreases n - i,
        {
            let mut p = rest.remove(0);
            proof {
                assert(all[i as int] == p);
                assert(v0[i as int] == proc_view(p));
                assert(v0.take(i + 1).drop_last() =~= v0.take(i as int));
                assert(v0.take(i + 1).last() == v0[i as int]);
            }
            if p.updated {
                let ghost before = procs_view(self.procs@);
                p.updated = false;
                self.procs.push(p);
                proof {
                    assert(procs_view(self.procs@) =~= before.push(proc_view(p)));
                }
            }
            i = i + 1;
        }
        proof {
            assert(v0.take(n as int) =~= v0);
            assert forall|a: int, b: int| 0 <= a < b < self.procs@.len() implies procs_view(self.procs@)[a].pid
                != procs_view(self.procs@)[b].pid by {
                lemma_retain_seen_order(v0, a, b);
            }
        }
    }
}

proof fn lemma_retain_seen_order(v: Seq<WinProcessView>, a: int, b: int)
    requires
        pids_distinct(v),
        0 <= a < b < retain_seen(v).len(),
    ensures
        retain_seen(v)[a].pid != retain_seen(v)[b].pid,
    decreases v.len(),
{
    lemma_retain_seen_from(v);
    let d = v.drop_last();
    assert forall|x: int, y: int| 0 <= x < y < d.len() implies d[x].pid != d[y].pid by {
        assert(d[x] == v[x] && d[y] == v[y]);
    }
    let p = retain_seen(d);
    if b < p.len() {
        assert(retain_seen(v)[a] == p[a] && retain_seen(v)[b] == p[b]);
        lemma_retain_seen_order(d, a, b);
    } else {
        lemma_retain_seen_from(d);
        assert(retain_seen(v)[a] == p[a]);
        let j = choose|j: int| 0 <= j < d.len() && d[j].pid == p[a].pid;
        assert(v[j] == d[j]);
        assert(retain_seen(v)[b].pid == v[v.len() - 1].pid);
    }
}

proof fn lemma_retain_seen_from(v: Seq<WinProcessView>)
    ensures
        forall|k: int| 0 <= k < retain_seen(v).len() ==> exists|j: int| 0 <= j < v.len() && v[j].pid == (#[trigger] retain_seen(v)[k]).pid,
        retain_seen(v).len() <= v.len(),
    decreases v.len(),
{
    if v.len() > 0 {
        let d = v.drop_last();
        lemma_retain_seen_from(d);
        let p = retain_seen(d);
        assert forall|k: int| 0 <= k < retain_seen(v).len() implies exists|j: int| 0 <= j < v.len() && v[j].pid == (#[trigger] retain_seen(v)[k]).pid by {
            if k < p.len() {
                assert(retain_seen(v)[k] == p[k]);
                let j = choose|j: int| 0 <= j < d.len() && d[j].pid == (#[trigger] p[k]).pid;
                assert(v[j] == d[j]);
            } else {
                assert(retain_seen(v)[k].pid == v[v.len() - 1].pid);
            }
        }
    }
}

/// Whether the entry `e` is taken by a refresh with the filter `filter`.
pub open spec fn selected(filter: Option<Seq<Pid>>, e: SnapshotEntry) -> bool {
    filter is None || filter.unwrap().contains(e.pid)
}

/// Whether one of the entries `es` that `filter` selects has the id `pid`.
pub open spec fn pid_taken(es: Seq<SnapshotEntry>, filter: Option<Seq<Pid>>, pid: Pid) -> bool {
    exists|i: int| 0 <= i < es.len() && selected(filter, #[trigger] es[i]) && es[i].pid == pid
}

proof fn lemma_take_entries_marks(v: Seq<WinProcessView>, es: Seq<SnapshotEntry>, filter: Option<Seq<Pid>>, memory: bool)
    requires
        pids_distinct(v),
        forall|k: int| 0 <= k < v.len() ==> !(#[trigger] v[k]).updated,
    ensures
        pids_distinct(take_entries(v, es, filter, memory)),
        forall|k: int| 0 <= k < take_entries(v, es, filter, memory).len() ==> ((#[trigger] take_entries(v, es, filter, memory)[k]).updated
            ==> pid_taken(es, filter, take_entries(v, es, filter, memory)[k].pid)),
    decreases es.len(),
{
    if es.len() > 0 {
        let ed = es.drop_last();
        lemma_take_entries_marks(v, ed, filter, memory);
        let p = take_entries(v, ed, filter, memory);
        let r = take_entries(v, es, filter, memory);
        let e = es.last();
        assert forall|x: Pid| pid_taken(ed, filter, x) implies pid_taken(es, filter, x) by {
            let i = choose|i: int| 0 <= i < ed.len() && selected(filter, #[trigger] ed[i]) && ed[i].pid == x;
            assert(es[i] == ed[i]);
        }
        if selected(filter, e) {
            assert(pid_taken(es, filter, e.pid)) by {
                assert(es[es.len() - 1] == e);
            }
            lemma_proc_index(p, e.pid);
            let k = proc_index(p, e.pid);
            assert forall|a: int, b: int| 0 <= a < b < r.len() implies r[a].pid != r[b].pid by {
                if k < p.len() {
                    assert(r[a].pid == p[a].pid && r[b].pid == p[b].pid);
                } else if b == p.len() {
                    assert(r[a] == p[a]);
                } else {
                    assert(r[a] == p[a] && r[b] == p[b]);
                }
            }
            assert forall|j: int| 0 <= j < r.len() implies ((#[trigger] r[j]).updated ==> pid_taken(es, filter, r[j].pid)) by {
                if j == k || j == p.len() {
                } else {
                    assert(r[j] == p[j]);
                }
            }
        }
    }
}

/// A refresh keeps only the processes it saw: when the table's marks are cleared
/// (as every refresh leaves them), every process left after a refresh has the id of
/// an entry of the snapshot that the filter selects, its mark cleared again, and no
/// two processes share an id.
pub proof fn refresh_keeps_the_seen(
    v: Seq<WinProcessView>,
    es: Seq<SnapshotEntry>,
    filter: Option<Seq<Pid>>,
    memory: bool,
)
    requires
        pids_distinct(v),
        forall|k: int| 0 <= k < v.len() ==> !(#[trigger] v[k]).updated,
    ensures
        ({
            let r = retain_seen(take_entries(v, es, filter, memory));
            &&& pids_distinct(r)
            &&& forall|k: int| 0 <= k < r.len() ==> pid_taken(es, filter, (#[trigger] r[k]).pid) && !r[k].updated
        }),
{
    lemma_take_entries_marks(v, es, filter, memory);
    let a = take_entries(v, es, filter, memory);
    lemma_retain_seen_kept(a);
    let r = retain_seen(a);
    assert forall|x: int, y: int| 0 <= x < y < r.len() implies r[x].pid != r[y].pid by {
        lemma_retain_seen_order(a, x, y);
    }
}

proof fn lemma_retain_seen_kept(v: Seq<WinProcessView>)
    ensures
        forall|k: int| 0 <= k < retain_seen(v).len() ==> !(#[trigger] retain_seen(v)[k]).updated && exists|j: int|
            0 <= j < v.len() && v[j].updated && v[j].pid == retain_seen(v)[k].pid,
    decreases v.len(),
{
    if v.len() > 0 {
        let d = v.drop_last();
        lemma_retain_seen_kept(d);
        let p = retain_seen(d);
        assert forall|k: int| 0 <= k < retain_seen(v).len() implies !(#[trigger] retain_seen(v)[k]).updated && exists|j: int|
            0 <= j < v.len() && v[j].updated && v[j].pid == retain_seen(v)[k].pid by {
            if k < p.len() {
                assert(retain_seen(v)[k] == p[k]);
                let j = choose|j: int| 0 <= j < d.len() && d[j].updated && d[j].pid == p[k].pid;
                assert(v[j] == d[j]);
            } else {
                assert(retain_seen(v)[k].pid == v[v.len() - 1].pid);
            }
        }
    }
}


// ---------------------------------------------------------------------------
// The environment block of a process
// ---------------------------------------------------------------------------

/// The entries of an environment block from `i` on: each NUL-ended piece that holds
/// a `=`, up to the first piece without one or to the end of the block.
pub open spec fn environ_from(w: Seq<u16>, i: int) -> Seq<Seq<u16>>
    decreases w.len() - i,
{
    if i < 0 || i > w.len() {
        seq![]
    } else {
        let e = nul_from(w, i);
        proof {
            lemma_nul_from(w, i);
        }
        if e >= w.len() || !w.subrange(i, e).contains(0x3du16) {
            seq![]
        } else {
            seq![w.subrange(i, e)] + environ_from(w, e + 1)
        }
    }
}

/// The environment of a process from its environment block (`None` when the block
/// could not be read, which gives no entry): each entry decoded from UTF-16, an
/// unpaired surrogate becoming U+FFFD.
pub fn proc_environ(block: Option<&[u16]>) -> (r: Vec<String>)
    ensures
        block is None ==> r@.len() == 0,
        block matches Some(w) ==> r@.len() == environ_from(w@, 0).len() && forall|k: int|
            0 <= k < r@.len() ==> (#[trigger] r@[k])@ == utf16_lossy(environ_from(w@, 0)[k]),
{
    let mut out: Vec<String> = Vec::new();
    let w = match block {
        Some(w) => w,
        None => return out,
    };
    let n = w.len();
    let mut begin: usize = 0;
    let mut done = false;
    let ghost mut pieces: Seq<Seq<u16>> = seq![];
    while !done
        invariant
            n == w@.len(),
            begin <= n,
            environ_from(w@, 0) == pieces + if done {
                seq![]
            } else {
                environ_from(w@, begin as int)
            },
            out@.len() == pieces.len(),
            forall|k: int| 0 <= k < out@.len() ==> (#[trigger] out@[k])@ == utf16_lossy(pieces[k]),
        decreases 2 * (n - begin) + if done { 0int } else { 1int },
    {
        let e = nul_index(w, begin);
        proof {
            lemma_nul_from(w@, begin as int);
        }
        if e >= n {
            done = true;
            proof {
                assert(pieces + seq![] =~= pieces);
            }
        } else {
            let mut j: usize = begin;
            let mut has_eq = false;
            while j < e
                invariant
                    begin <= j <= e < n == w@.len(),
                    has_eq ==> w@.subrange(begin as int, e as int).contains(0x3du16),
                    !has_eq ==> forall|k: int| begin <= k < j ==> w@[k] != 0x3du16,
                decreases e - j,
            {
                if w[j] == 0x3d {
                    has_eq = true;
                    proof {
                        assert(w@.subrange(begin as int, e as int)[j - begin] == 0x3du16);
                    }
                }
                j = j + 1;
            }
            if !has_eq {
                proof {
                    assert(!w@.subrange(begin as int, e as int).contains(0x3du16)) by {
                        if w@.subrange(begin as int, e as int).contains(0x3du16) {
                            let k = choose|k: int| 0 <= k < e - begin && w@.subrange(begin as int, e as int)[k] == 0x3du16;
                            assert(w@[begin + k] == 0x3du16);
                        }
                    }
                    assert(pieces + seq![] =~= pieces);
                }
                done = true;
            } else {
                let mut piece: Vec<u16> = Vec::new();
                let mut q: usize = begin;
                while q < e
                    invariant
                        begin <= q <= e < n == w@.len(),
                        piece@ == w@.subrange(begin as int, q as int),
                    decreases e - q,
                {
                    piece.push(w[q]);
                    proof {
                        assert(piece@ =~= w@.subrange(begin as int, q + 1));
                    }
                    q = q + 1;
                }
                let entry = string_from_utf16_lossy(piece.as_slice());
                out.push(entry);
                proof {
                    let p = w@.subrange(begin as int, e as int);
                    assert(environ_from(w@, begin as int) == seq![p] + environ_from(w@, e + 1));
                    assert(pieces + (seq![p] + environ_from(w@, e + 1)) =~= pieces.push(p) + environ_from(w@, e + 1));
                    pieces = pieces.push(p);
                }
                begin = e + 1;
            }
        }
    }
    out
}

} // verus!
