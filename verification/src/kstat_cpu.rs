//! The processors of illumos as the kernel statistics (`kstat`) give them: the
//! values of named statistics, the tick counters of each processor, and the
//! bookkeeping of a refresh.
use vstd::prelude::*;
use crate::text::{decimal, lemma_decimal_ascii, push_decimal, ascii_chars, lemma_ascii_utf8, string_from_utf8};

verus! {

// ---------------------------------------------------------------------------
// Named values
// ---------------------------------------------------------------------------

/// The value of a named kernel statistic, by its data type.
#[derive(Clone, Copy, Debug, PartialEq, Eq, Structural)]
pub enum KstatValue {
    Int32(i32),
    Uint32(u32),
    Int64(i64),
    Uint64(u64),
    /// A value of another type (characters, a string).
    Other,
}

/// The integer that a named statistic holds: negative values count as 0, and a
/// value that is no integer gives `None`.
pub open spec fn spec_integer(v: KstatValue) -> Option<u64> {
    match v {
        KstatValue::Int32(x) => Some(if x < 0 { 0 } else { x as u64 }),
        KstatValue::Uint32(x) => Some(x as u64),
        KstatValue::Int64(x) => Some(if x < 0 { 0 } else { x as u64 }),
        KstatValue::Uint64(x) => Some(x),
        KstatValue::Other => None,
    }
}

impl KstatValue {
    /// The integer that the statistic holds.
    pub fn integer(&self) -> (r: Option<u64>)
        ensures
            r == spec_integer(*self),
    {
        match *self {
            KstatValue::Int32(x) => Some(if x < 0 { 0 } else { x as u64 }),
            KstatValue::Uint32(x) => Some(x as u64),
            KstatValue::Int64(x) => Some(if x < 0 { 0 } else { x as u64 }),
            KstatValue::Uint64(x) => Some(x),
            KstatValue::Other => None,
        }
    }
}

/// The largest processor id that the system may use, from the value of
/// `sysconf(_SC_CPUID_MAX)` (-1 when there is none; values past `i32` are cut).
pub fn max_cpu_id(limit: i64) -> (r: i32)
    ensures
        r == (if limit < -1 { -1 } else if limit > i32::MAX { i32::MAX as int } else { limit as int }),
{
    if limit < -1 {
        -1
    } else if limit > 0x7fff_ffff {
        0x7fff_ffff
    } else {
        limit as i32
    }
}

// ---------------------------------------------------------------------------
// Ticks
// ---------------------------------------------------------------------------

/// The ticks a processor spent in each state.
#[derive(Clone, Copy, Debug, Default, PartialEq, Eq, Structural)]
pub struct CpuTimes {
    pub user: u64,
    pub kernel: u64,
    pub wait: u64,
    pub idle: u64,
}

/// `a + b`, or `u64::MAX` when that overflows.
pub open spec fn sat_add(a: u64, b: u64) -> u64 {
    if a + b > u64::MAX {
        u64::MAX
    } else {
        (a + b) as u64
    }
}

/// `a - b`, or 0 when `b` is the larger.
pub open spec fn sat_sub(a: u64, b: u64) -> u64 {
    if a < b {
        0
    } else {
        (a - b) as u64
    }
}

/// The ticks of `a` and `b` together, each sum saturating.
pub open spec fn times_sum(a: CpuTimes, b: CpuTimes) -> CpuTimes {
    CpuTimes {
        user: sat_add(a.user, b.user),
        kernel: sat_add(a.kernel, b.kernel),
        wait: sat_add(a.wait, b.wait),
        idle: sat_add(a.idle, b.idle),
    }
}

/// The busy and the total ticks between the readings `old` and `new`: the busy
/// ones are those in user and kernel mode; each difference is at least 0, and the
/// sums saturate. The usage in percent is `100 * busy / total` (0 when `total` is 0).
pub open spec fn spec_usage_since(new: CpuTimes, old: CpuTimes) -> (u64, u64) {
    let user = sat_sub(new.user, old.user);
    let kernel = sat_sub(new.kernel, old.kernel);
    let wait = sat_sub(new.wait, old.wait);
    let idle = sat_sub(new.idle, old.idle);
    (sat_add(user, kernel), sat_add(sat_add(sat_add(user, kernel), wait), idle))
}

impl CpuTimes {
    /// Adds the ticks of `other`.
    pub fn add(&mut self, other: CpuTimes)
        ensures
            *final(self) == times_sum(*old(self), other),
    {
        self.user = self.user.saturating_add(other.user);
        self.kernel = self.kernel.saturating_add(other.kernel);
        self.wait = self.wait.saturating_add(other.wait);
        self.idle = self.idle.saturating_add(other.idle);
    }

    /// The busy and total ticks since the reading `old`.
    pub fn usage_since(self, old: CpuTimes) -> (r: (u64, u64))
        ensures
            r == spec_usage_since(self, old),
    {
        let user = self.user.saturating_sub(old.user);
        let kernel = self.kernel.saturating_sub(old.kernel);
        let wait = self.wait.saturating_sub(old.wait);
        let idle = self.idle.saturating_sub(old.idle);
        let busy = user.saturating_add(kernel);
        (busy, busy.saturating_add(wait).saturating_add(idle))
    }
}

// ---------------------------------------------------------------------------
// Processors
// ---------------------------------------------------------------------------

/// A processor: its usage since the refresh before (busy and total ticks), its
/// name, vendor, brand and frequency in MHz.
pub struct CpuInner {
    pub usage: (u64, u64),
    pub name: String,
    pub vendor_id: String,
    pub brand: String,
    pub frequency: u64,
}

impl CpuInner {
    /// The busy and total ticks of the last refresh.
    pub fn cpu_usage(&self) -> (r: (u64, u64))
        ensures
            r == self.usage,
    {
        self.usage
    }

    /// The processor's name.
    pub fn name(&self) -> (r: &str)
        ensures
            r@ == self.name@,
    {
        self.name.as_str()
    }

    /// The frequency in MHz.
    pub fn frequency(&self) -> (r: u64)
        ensures
            r == self.frequency,
    {
        self.frequency
    }

    /// The vendor.
    pub fn vendor_id(&self) -> (r: &str)
        ensures
            r@ == self.vendor_id@,
    {
        self.vendor_id.as_str()
    }

    /// The brand.
    pub fn brand(&self) -> (r: &str)
        ensures
            r@ == self.brand@,
    {
        self.brand.as_str()
    }
}

/// What the `cpu_info` statistics of a processor say: its `vendor_id`, `brand` and
/// `implementation` strings and its `clock_MHz` integer, where they could be read.
pub struct CpuInfoRecord {
    pub vendor_id: Option<String>,
    pub brand: Option<String>,
    pub implementation: Option<String>,
    pub clock_mhz: Option<u64>,
}

/// The name of the processor with the id `id`: `cpu ` and the id in decimal.
pub open spec fn cpu_name(id: i32) -> Seq<char> {
    let digits = if id < 0 {
        seq![0x2du8] + decimal((-id) as nat)
    } else {
        decimal(id as nat)
    };
    ascii_chars(seq![0x63u8, 0x70u8, 0x75u8, 0x20u8] + digits)
}

fn make_cpu_name(id: i32) -> (r: String)
    ensures
        r@ == cpu_name(id),
{
    let mut b: Vec<u8> = Vec::new();
    b.push(0x63);
    b.push(0x70);
    b.push(0x75);
    b.push(0x20);
    let ghost head = b@;
    if id < 0 {
        b.push(0x2d);
        let m: i64 = id as i64;
        push_decimal(&mut b, (0 - m) as u64);
        proof {
            lemma_decimal_ascii((-id) as nat);
            assert(b@ =~= seq![0x63u8, 0x70u8, 0x75u8, 0x20u8] + (seq![0x2du8] + decimal((-id) as nat)));
        }
    } else {
        push_decimal(&mut b, id as u64);
        proof {
            lemma_decimal_ascii(id as nat);
            assert(b@ =~= seq![0x63u8, 0x70u8, 0x75u8, 0x20u8] + decimal(id as nat));
        }
    }
    proof {
        assert(crate::text::all_ascii(b@));
        lemma_ascii_utf8(b@);
    }
    match string_from_utf8(b) {
        Some(s) => s,
        None => String::new(),
    }
}

/// The text `unknown`.
pub open spec fn unknown_text() -> Seq<char> {
    seq!['u', 'n', 'k', 'n', 'o', 'w', 'n']
}

fn unknown() -> (r: String)
    ensures
        r@ == unknown_text(),
{
    let r = "unknown".to_owned();
    proof {
        reveal_strlit("unknown");
    }
    r
}

/// The text of a string that may be missing.
pub open spec fn opt_text(s: Option<String>) -> Option<Seq<char>> {
    match s {
        Some(t) => Some(t@),
        None => None,
    }
}

/// The processor that the `cpu_info` record `info` of `id` describes: the vendor and
/// brand default to `unknown` (the brand is, failing that, the implementation), the
/// frequency to 0, and is read only when asked for.
pub open spec fn described_cpu(c: CpuInner, id: i32, info: CpuInfoRecord, include_frequency: bool) -> bool {
    &&& c.usage == (0u64, 0u64)
    &&& c.name@ == cpu_name(id)
    &&& c.vendor_id@ == match opt_text(info.vendor_id) {
        Some(t) => t,
        None => unknown_text(),
    }
    &&& c.brand@ == match opt_text(info.brand) {
        Some(t) => t,
        None => match opt_text(info.implementation) {
            Some(t) => t,
            None => unknown_text(),
        },
    }
    &&& c.frequency == (if include_frequency {
        match info.clock_mhz {
            Some(f) => f,
            None => 0,
        }
    } else {
        0
    })
}

/// What a refresh of the processors has to read.
#[derive(Clone, Copy, Debug, PartialEq, Eq, Structural)]
pub struct RefreshPlan {
    /// List the processors (they are not known yet).
    pub populate: bool,
    /// Read the frequencies of the known processors.
    pub frequencies: bool,
    /// Read their tick counters.
    pub usage: bool,
}

/// What a refresh of processors reads.
#[derive(Clone, Copy, Debug)]
pub struct CpuRefreshKind {
    pub cpu_usage: bool,
    pub frequency: bool,
}

/// The processors of the system, with the tick counters of their last refresh.
pub struct CpusWrapper {
    pub global_usage: (u64, u64),
    pub cpus: Vec<CpuInner>,
    pub cpu_ids: Vec<i32>,
    pub old_times: Vec<CpuTimes>,
    pub got_frequency: bool,
}

/// The ticks of all processors up to `k` that have a reading: the new readings and
/// the old counters, summed.
pub open spec fn global_sums(readings: Seq<Option<CpuTimes>>, olds: Seq<CpuTimes>, k: int) -> (CpuTimes, CpuTimes)
    decreases k,
{
    if k <= 0 {
        (CpuTimes { user: 0, kernel: 0, wait: 0, idle: 0 }, CpuTimes { user: 0, kernel: 0, wait: 0, idle: 0 })
    } else {
        let (n, o) = global_sums(readings, olds, k - 1);
        match readings[k - 1] {
            Some(t) => (times_sum(n, t), times_sum(o, olds[k - 1])),
            None => (n, o),
        }
    }
}

impl CpusWrapper {
    /// Whether the lists of processors, ids and counters go together.
    pub open spec fn wf(&self) -> bool {
        self.cpus@.len() == self.cpu_ids@.len() && self.cpus@.len() == self.old_times@.len()
    }

    /// No processor known yet.
    pub fn new() -> (r: CpusWrapper)
        ensures
            r.wf(),
            r.cpus@.len() == 0,
            r.global_usage == (0u64, 0u64),
            !r.got_frequency,
    {
        CpusWrapper { global_usage: (0, 0), cpus: Vec::new(), cpu_ids: Vec::new(), old_times: Vec::new(), got_frequency: false }
    }

    /// What a refresh with `kind` reads: the list of processors when none is known,
    /// else their frequencies when asked for and not read yet; and the tick counters
    /// when the usage is asked for.
    pub fn refresh_plan(&self, kind: CpuRefreshKind) -> (r: RefreshPlan)
        ensures
            r.populate == (self.cpus@.len() == 0),
            r.frequencies == (self.cpus@.len() != 0 && kind.frequency && !self.got_frequency),
            r.usage == kind.cpu_usage,
    {
        let populate = self.cpus.len() == 0;
        RefreshPlan { populate, frequencies: !populate && kind.frequency && !self.got_frequency, usage: kind.cpu_usage }
    }

    /// Adds the processors whose `cpu_info` record could be read, in order.
    pub fn populate(&mut self, infos: Vec<(i32, CpuInfoRecord)>, include_frequency: bool)
        requires
            old(self).wf(),
        ensures
            final(self).wf(),
            final(self).got_frequency == include_frequency,
            final(self).global_usage == old(self).global_usage,
            final(self).cpus@.len() == old(self).cpus@.len() + infos@.len(),
            forall|i: int| 0 <= i < old(self).cpus@.len() ==> final(self).cpus@[i] == old(self).cpus@[i]
                && final(self).cpu_ids@[i] == old(self).cpu_ids@[i] && final(self).old_times@[i] == old(self).old_times@[i],
            forall|j: int| #![trigger infos@[j]] 0 <= j < infos@.len() ==> {
                let i = old(self).cpus@.len() + j;
                &&& final(self).cpu_ids@[i] == infos@[j].0
                &&& final(self).old_times@[i] == CpuTimes::default_spec()
                &&& described_cpu(final(self).cpus@[i], infos@[j].0, infos@[j].1, include_frequency)
            },
    {
        let ghost start = *self;
        let ghost all = infos@;
        let n = infos.len();
        let mut rest = infos;
        let mut j: usize = 0;
        while j < n
            invariant
                self.wf(),
                j <= n == all.len(),
                rest@ == all.subrange(j as int, n as int),
                self.global_usage == start.global_usage,
                self.cpus@.len() == start.cpus@.len() + j,
                forall|i: int| 0 <= i < start.cpus@.len() ==> self.cpus@[i] == start.cpus@[i]
                    && self.cpu_ids@[i] == start.cpu_ids@[i] && self.old_times@[i] == start.old_times@[i],
                forall|k: int| #![trigger all[k]] 0 <= k < j ==> {
                    let i = start.cpus@.len() + k;
                    &&& self.cpu_ids@[i] == all[k].0
                    &&& self.old_times@[i] == CpuTimes::default_spec()
                    &&& described_cpu(self.cpus@[i], all[k].0, all[k].1, include_frequency)
                },
            decreases n - j,
        {
            let (id, info) = rest.remove(0);
            assert((id, info) == all[j as int]);
            let vendor_id = match info.vendor_id {
                Some(v) => v,
                None => unknown(),
            };
            let brand = match info.brand {
                Some(b) => b,
                None => match info.implementation {
                    Some(b) => b,
                    None => unknown(),
                },
            };
            let frequency = if include_frequency {
                match info.clock_mhz {
                    Some(f) => f,
                    None => 0,
                }
            } else {
                0
            };
            let name = make_cpu_name(id);
            self.cpu_ids.push(id);
            self.old_times.push(CpuTimes { user: 0, kernel: 0, wait: 0, idle: 0 });
            self.cpus.push(CpuInner { usage: (0, 0), name, vendor_id, brand, frequency });
            j = j + 1;
        }
        self.got_frequency = include_frequency;
    }

    /// Sets the frequencies of the processors from their `cpu_info` records, in the
    /// order of the processors: `None` where the record could not be read (the
    /// frequency stays), `Some(None)` where it has no `clock_MHz` integer (0).
    pub fn refresh_frequencies(&mut self, clocks: &[Option<Option<u64>>])
        requires
            old(self).wf(),
        ensures
            final(self).wf(),
            final(self).got_frequency,
            final(self).global_usage == old(self).global_usage,
            final(self).cpu_ids@ == old(self).cpu_ids@,
            final(self).old_times@ == old(self).old_times@,
            final(self).cpus@.len() == old(self).cpus@.len(),
            forall|i: int| #![trigger final(self).cpus@[i]] 0 <= i < old(self).cpus@.len() ==> {
                let (o, c) = (old(self).cpus@[i], final(self).cpus@[i]);
                &&& c.usage == o.usage && c.name == o.name && c.vendor_id == o.vendor_id && c.brand == o.brand
                &&& c.frequency == (if i < clocks@.len() {
                    match clocks@[i] {
                        Some(Some(f)) => f,
                        Some(None) => 0,
                        None => o.frequency,
                    }
                } else {
                    o.frequency
                })
            },
    {
        let ghost start = *self;
        let n = if clocks.len() < self.cpus.len() { clocks.len() } else { self.cpus.len() };
        let mut i: usize = 0;
        while i < n
            invariant
                self.wf(),
                i <= n <= start.cpus@.len(),
                n <= clocks@.len(),
                n == clocks@.len() || n == start.cpus@.len(),
                self.global_usage == start.global_usage,
                self.got_frequency == start.got_frequency,
                self.cpu_ids@ == start.cpu_ids@,
                self.old_times@ == start.old_times@,
                self.cpus@.len() == start.cpus@.len(),
                forall|k: int| #![trigger self.cpus@[k]] 0 <= k < start.cpus@.len() ==> {
                    let (o, c) = (start.cpus@[k], self.cpus@[k]);
                    &&& c.usage == o.usage && c.name == o.name && c.vendor_id == o.vendor_id && c.brand == o.brand
                    &&& c.frequency == (if k < i {
                        match clocks@[k] {
                            Some(Some(f)) => f,
                            Some(None) => 0,
                            None => o.frequency,
                        }
                    } else {
                        o.frequency
                    })
                },
            decreases n - i,
        {
            match clocks[i] {
                Some(c) => {
                    let f = match c {
                        Some(f) => f,
                        None => 0,
                    };
                    self.cpus[i].frequency = f;
                },
                None => {},
            }
            i = i + 1;
        }
        self.got_frequency = true;
    }

    /// Takes the tick counters of the processors, in their order (`None` where they
    /// could not be read): each processor's usage is the one since its counters of the
    /// refresh before, and the global usage sums the processors that were read.
    pub fn refresh_usage(&mut self, readings: &[Option<CpuTimes>])
        requires
            old(self).wf(),
        ensures
            final(self).wf(),
            final(self).got_frequency == old(self).got_frequency,
            final(self).cpu_ids@ == old(self).cpu_ids@,
            final(self).cpus@.len() == old(self).cpus@.len(),
            ({
                let n = if readings@.len() < old(self).cpus@.len() {
                    readings@.len() as int
                } else {
                    old(self).cpus@.len() as int
                };
                let (gn, go) = global_sums(readings@, old(self).old_times@, n);
                final(self).global_usage == spec_usage_since(gn, go)
            }),
            forall|i: int| #![trigger final(self).cpus@[i]] 0 <= i < old(self).cpus@.len() ==> {
                let (o, c) = (old(self).cpus@[i], final(self).cpus@[i]);
                let reading = if i < readings@.len() { readings@[i] } else { None };
                &&& c.name == o.name && c.vendor_id == o.vendor_id && c.brand == o.brand && c.frequency == o.frequency
                &&& c.usage == match reading {
                    Some(t) => spec_usage_since(t, old(self).old_times@[i]),
                    None => o.usage,
                }
                &&& final(self).old_times@[i] == match reading {
                    Some(t) => t,
                    None => old(self).old_times@[i],
                }
            },
    {
        let ghost start = *self;
        let n = if readings.len() < self.cpus.len() { readings.len() } else { self.cpus.len() };
        let mut global_new = CpuTimes { user: 0, kernel: 0, wait: 0, idle: 0 };
        let mut global_old = CpuTimes { user: 0, kernel: 0, wait: 0, idle: 0 };
        let mut i: usize = 0;
        while i < n
            invariant
                self.wf(),
                i <= n <= start.cpus@.len(),
                n <= readings@.len(),
                start.wf(),
                n == (if readings@.len() < start.cpus@.len() { readings@.len() as int } else { start.cpus@.len() as int }),
                self.got_frequency == start.got_frequency,
                self.cpu_ids@ == start.cpu_ids@,
                self.cpus@.len() == start.cpus@.len(),
                (global_new, global_old) == global_sums(readings@, start.old_times@, i as int),
                forall|k: int| #![trigger self.cpus@[k]] #![trigger self.old_times@[k]] 0 <= k < start.cpus@.len() ==> {
                    let (o, c) = (start.cpus@[k], self.cpus@[k]);
                    let reading = if k < i { readings@[k] } else { None };
                    &&& c.name == o.name && c.vendor_id == o.vendor_id && c.brand == o.brand && c.frequency == o.frequency
                    &&& c.usage == match reading {
                        Some(t) => spec_usage_since(t, start.old_times@[k]),
                        None => o.usage,
                    }
                    &&& self.old_times@[k] == match reading {
                        Some(t) => t,
                        None => start.old_times@[k],
                    }
                },
            decreases n - i,
        {
            let ghost before = *self;
            match readings[i] {
                Some(new) => {
                    let old_t = self.old_times[i];
                    assert(old_t == start.old_times@[i as int]);
                    let u = new.usage_since(old_t);
                    self.cpus[i].usage = u;
                    global_new.add(new);
                    global_old.add(old_t);
                    self.old_times.set(i, new);
                },
                None => {},
            }
            proof {
                assert forall|k: int| 0 <= k < start.cpus@.len() && k != i implies self.cpus@[k] == before.cpus@[k]
                    && self.old_times@[k] == before.old_times@[k] by {}
            }
            i = i + 1;
        }
        self.global_usage = global_new.usage_since(global_old);
    }
}

impl CpuTimes {
    /// No ticks.
    pub open spec fn default_spec() -> CpuTimes {
        CpuTimes { user: 0, kernel: 0, wait: 0, idle: 0 }
    }
}

} // verus!
