//! Process information of illumos: the fixed-offset fields of the binary record
//! `/proc/<pid>/psinfo`, and what a refresh makes of them.
use vstd::prelude::*;
use crate::common::{Pid, Uid, Gid, IoCounters, DiskUsage, UpdateKind, ProcessRefreshKind};
use crate::stat::ProcessStatus;
use crate::text::{
    views, find_from, lemma_find_from, lemma_find_from_is, find_byte_from, copy_range, copy_pieces,
    ascii_tokens, ascii_tokens_from,
};
use crate::cgroup::{sat_mul, saturating_mul};
use crate::path::{spec_file_name, file_name, opt_bytes};

verus! {

// ---------------------------------------------------------------------------
// Integers in a byte record
// ---------------------------------------------------------------------------

/// The order in which the machine stores the bytes of an integer.
#[derive(Clone, Copy, Debug, PartialEq, Eq, Structural)]
pub enum ByteOrder {
    /// Least significant byte first.
    Little,
    /// Most significant byte first.
    Big,
}

/// The value of `s` read least significant byte first.
pub open spec fn le_value(s: Seq<u8>) -> nat
    decreases s.len(),
{
    if s.len() == 0 {
        0
    } else {
        s[0] as nat + 256 * le_value(s.drop_first())
    }
}

/// The value of `s` read most significant byte first.
pub open spec fn be_value(s: Seq<u8>) -> nat
    decreases s.len(),
{
    if s.len() == 0 {
        0
    } else {
        be_value(s.drop_last()) * 256 + s.last() as nat
    }
}

/// The value of `s` in the byte order `order`.
pub open spec fn word_value(s: Seq<u8>, order: ByteOrder) -> nat {
    match order {
        ByteOrder::Little => le_value(s),
        ByteOrder::Big => be_value(s),
    }
}

/// `256` to the power `n`.
pub open spec fn pow256(n: nat) -> nat
    decreases n,
{
    if n == 0 {
        1
    } else {
        256 * pow256((n - 1) as nat)
    }
}

proof fn lemma_pow256_mono(k: nat, m: nat)
    requires
        k <= m,
    ensures
        1 <= pow256(k) <= pow256(m),
    decreases m,
{
    if m > 0 {
        if k < m {
            lemma_pow256_mono(k, (m - 1) as nat);
        } else {
            lemma_pow256_mono((k - 1) as nat, (m - 1) as nat);
        }
    }
}

proof fn lemma_pow256_values()
    ensures
        pow256(2) == 0x1_0000,
        pow256(4) == 0x1_0000_0000,
        pow256(7) == 0x100_0000_0000_0000,
        pow256(8) == 0x1_0000_0000_0000_0000,
{
    reveal_with_fuel(pow256, 9);
}

proof fn lemma_le_bound(s: Seq<u8>)
    ensures
        le_value(s) < pow256(s.len()),
    decreases s.len(),
{
    if s.len() > 0 {
        lemma_le_bound(s.drop_first());
    }
}

proof fn lemma_be_bound(s: Seq<u8>)
    ensures
        be_value(s) < pow256(s.len()),
    decreases s.len(),
{
    if s.len() > 0 {
        lemma_be_bound(s.drop_last());
    }
}

/// A value of `s` never reaches `256` to the power of its length.
pub proof fn lemma_word_bound(s: Seq<u8>, order: ByteOrder)
    ensures
        word_value(s, order) < pow256(s.len()),
{
    lemma_le_bound(s);
    lemma_be_bound(s);
}

/// The `n` bytes of `s` at `offset`, as an integer in the byte order `order`.
pub open spec fn field(s: Seq<u8>, offset: int, n: int, order: ByteOrder) -> nat {
    word_value(s.subrange(offset, offset + n), order)
}

fn word_at(data: &[u8], offset: usize, n: usize, order: ByteOrder) -> (r: u64)
    requires
        n <= 8,
        offset + n <= data@.len(),
    ensures
        r == field(data@, offset as int, n as int, order),
{
    let ghost s = data@.subrange(offset as int, offset + n);
    proof {
        lemma_pow256_values();
        lemma_pow256_mono(n as nat, 8);
    }
    let len = data.len();
    let mut v: u64 = 0;
    match order {
        ByteOrder::Little => {
            let mut i: usize = n;
            while i > 0
                invariant
                    i <= n <= 8,
                    offset + n <= len == data@.len(),
                    s == data@.subrange(offset as int, offset + n),
                    v == le_value(s.subrange(i as int, n as int)),
                    pow256(7) == 0x100_0000_0000_0000,
                decreases i,
            {
                i = i - 1;
                proof {
                    lemma_le_bound(s.subrange(i + 1, n as int));
                    lemma_pow256_mono((n - i - 1) as nat, 7);
                    assert(s.subrange(i as int, n as int).drop_first() =~= s.subrange(i + 1, n as int));
                    assert(s.subrange(i as int, n as int)[0] == data@[offset + i]);
                }
                v = v * 256 + data[offset + i] as u64;
            }
            assert(s.subrange(0, n as int) =~= s);
        },
        ByteOrder::Big => {
            let mut i: usize = 0;
            while i < n
                invariant
                    i <= n <= 8,
                    offset + n <= len == data@.len(),
                    s == data@.subrange(offset as int, offset + n),
                    v == be_value(s.subrange(0, i as int)),
                    pow256(7) == 0x100_0000_0000_0000,
                decreases n - i,
            {
                proof {
                    lemma_be_bound(s.subrange(0, i as int));
                    lemma_pow256_mono(i as nat, 7);
                    assert(s.subrange(0, i + 1).drop_last() =~= s.subrange(0, i as int));
                    assert(s.subrange(0, i + 1).last() == data@[offset + i]);
                }
                v = v * 256 + data[offset + i] as u64;
                i = i + 1;
            }
            assert(s.subrange(0, n as int) =~= s);
        },
    }
    v
}

/// `v` as a signed integer of 32 bits in two's complement.
pub open spec fn signed32(v: nat) -> int {
    if v < 0x8000_0000 {
        v as int
    } else {
        v - 0x1_0000_0000
    }
}

/// `v` as a signed integer of 64 bits in two's complement.
pub open spec fn signed64(v: nat) -> int {
    if v < 0x8000_0000_0000_0000 {
        v as int
    } else {
        v - 0x1_0000_0000_0000_0000
    }
}

/// Whether the `n` bytes at `offset` lie inside `s`.
pub open spec fn has_bytes(s: Seq<u8>, offset: int, n: int) -> bool {
    offset + n <= s.len()
}

/// The 16-bit integer at `offset` (`None` past the end of `data`).
pub fn read_u16(data: &[u8], offset: usize, order: ByteOrder) -> (r: Option<u16>)
    requires
        offset + 2 <= usize::MAX,
    ensures
        r == (if has_bytes(data@, offset as int, 2) {
            Some(field(data@, offset as int, 2, order) as u16)
        } else {
            None
        }),
{
    if offset + 2 > data.len() {
        return None;
    }
    let v = word_at(data, offset, 2, order);
    proof {
        lemma_word_bound(data@.subrange(offset as int, offset + 2), order);
        lemma_pow256_values();
    }
    Some(v as u16)
}

/// The unsigned 32-bit integer at `offset` (`None` past the end of `data`).
pub fn read_u32(data: &[u8], offset: usize, order: ByteOrder) -> (r: Option<u32>)
    requires
        offset + 4 <= usize::MAX,
    ensures
        r == (if has_bytes(data@, offset as int, 4) {
            Some(field(data@, offset as int, 4, order) as u32)
        } else {
            None
        }),
{
    if offset + 4 > data.len() {
        return None;
    }
    let v = word_at(data, offset, 4, order);
    proof {
        lemma_word_bound(data@.subrange(offset as int, offset + 4), order);
        lemma_pow256_values();
    }
    Some(v as u32)
}

/// The signed 32-bit integer at `offset` (`None` past the end of `data`).
pub fn read_i32(data: &[u8], offset: usize, order: ByteOrder) -> (r: Option<i32>)
    requires
        offset + 4 <= usize::MAX,
    ensures
        r == (if has_bytes(data@, offset as int, 4) {
            Some(signed32(field(data@, offset as int, 4, order)) as i32)
        } else {
            None
        }),
{
    match read_u32(data, offset, order) {
        None => None,
        Some(u) => {
            proof {
                lemma_word_bound(data@.subrange(offset as int, offset + 4), order);
                lemma_pow256_values();
            }
            if u < 0x8000_0000 {
                Some(u as i32)
            } else {
                let low: u32 = u - 0x8000_0000;
                Some((low as i32) - 0x7fff_ffff - 1)
            }
        },
    }
}

/// The unsigned 64-bit integer at `offset` (`None` past the end of `data`).
pub fn read_u64(data: &[u8], offset: usize, order: ByteOrder) -> (r: Option<u64>)
    requires
        offset + 8 <= usize::MAX,
    ensures
        r == (if has_bytes(data@, offset as int, 8) {
            Some(field(data@, offset as int, 8, order) as u64)
        } else {
            None
        }),
{
    if offset + 8 > data.len() {
        return None;
    }
    let v = word_at(data, offset, 8, order);
    Some(v)
}

/// The signed 64-bit integer at `offset` (`None` past the end of `data`).
pub fn read_i64(data: &[u8], offset: usize, order: ByteOrder) -> (r: Option<i64>)
    requires
        offset + 8 <= usize::MAX,
    ensures
        r == (if has_bytes(data@, offset as int, 8) {
            Some(signed64(field(data@, offset as int, 8, order)) as i64)
        } else {
            None
        }),
{
    match read_u64(data, offset, order) {
        None => None,
        Some(u) => {
            proof {
                lemma_word_bound(data@.subrange(offset as int, offset + 8), order);
                lemma_pow256_values();
            }
            if u < 0x8000_0000_0000_0000 {
                Some(u as i64)
            } else {
                let low: u64 = u - 0x8000_0000_0000_0000;
                Some((low as i64) - 0x7fff_ffff_ffff_ffff - 1)
            }
        },
    }
}

/// A pointer of `size` bytes (4 or 8) at `offset`; `None` for another size or past the
/// end of `data`.
pub fn read_pointer(data: &[u8], offset: usize, size: usize, order: ByteOrder) -> (r: Option<u64>)
    requires
        size == 4 ==> offset + 4 <= usize::MAX,
        size == 8 ==> offset + 8 <= usize::MAX,
    ensures
        r == (if (size == 4 || size == 8) && has_bytes(data@, offset as int, size as int) {
            Some(field(data@, offset as int, size as int, order) as u64)
        } else {
            None
        }),
{
    if size == 4 {
        match read_u32(data, offset, order) {
            Some(v) => {
                proof {
                    lemma_word_bound(data@.subrange(offset as int, offset + 4), order);
                    lemma_pow256_values();
                }
                Some(v as u64)
            },
            None => None,
        }
    } else if size == 8 {
        read_u64(data, offset, order)
    } else {
        None
    }
}

/// `v` when it is positive, else 0.
pub open spec fn non_negative(v: int) -> nat {
    if v < 0 {
        0
    } else {
        v as nat
    }
}

/// A time of seconds and nanoseconds at `offset`, in milliseconds (negative parts
/// count as 0; the sum saturates).
pub open spec fn spec_timespec_millis(s: Seq<u8>, offset: int, order: ByteOrder) -> Option<u64> {
    if has_bytes(s, offset, 16) {
        let seconds = non_negative(signed64(field(s, offset, 8, order))) as u64;
        let nanos = non_negative(signed64(field(s, offset + 8, 8, order))) as u64;
        let ms = sat_mul(seconds, 1000) + nanos / 1_000_000;
        Some(if ms > u64::MAX { u64::MAX } else { ms as u64 })
    } else {
        None
    }
}

/// Reads a time of seconds and nanoseconds at `offset` as milliseconds.
pub fn timespec_millis(data: &[u8], offset: usize, order: ByteOrder) -> (r: Option<u64>)
    requires
        offset + 16 <= usize::MAX,
    ensures
        r == spec_timespec_millis(data@, offset as int, order),
{
    proof {
        if has_bytes(data@, offset as int, 16) {
            lemma_word_bound(data@.subrange(offset as int, offset + 8), order);
            lemma_word_bound(data@.subrange(offset + 8, offset + 16), order);
            lemma_pow256_values();
        }
    }
    let seconds = match read_i64(data, offset, order) {
        Some(v) => if v < 0 { 0u64 } else { v as u64 },
        None => return None,
    };
    let nanos = match read_i64(data, offset + 8, order) {
        Some(v) => if v < 0 { 0u64 } else { v as u64 },
        None => return None,
    };
    Some(saturating_mul(seconds, 1000).saturating_add(nanos / 1_000_000))
}

// ---------------------------------------------------------------------------
// Text fields
// ---------------------------------------------------------------------------

/// `s` up to its first NUL byte.
pub open spec fn before_nul(s: Seq<u8>) -> Seq<u8> {
    s.subrange(0, find_from(s, 0u8, 0))
}

/// The C string in the `length` bytes at `offset`: the bytes before the first NUL, or
/// nothing when the field does not lie inside `s`.
pub open spec fn spec_c_field(s: Seq<u8>, offset: int, length: int) -> Seq<u8> {
    let end = if offset + length > usize::MAX { usize::MAX as int } else { offset + length };
    if end <= s.len() {
        before_nul(s.subrange(offset, end))
    } else {
        seq![]
    }
}

/// Reads the C string in the `length` bytes at `offset`.
pub fn c_field(data: &[u8], offset: usize, length: usize) -> (r: Vec<u8>)
    ensures
        r@ == spec_c_field(data@, offset as int, length as int),
{
    let end = offset.saturating_add(length);
    if end > data.len() {
        return Vec::new();
    }
    let k = find_byte_from(data, 0, offset);
    proof {
        lemma_find_from(data@, 0u8, offset as int);
    }
    let stop = if k < end { k } else { end };
    let r = copy_range(data, offset, stop);
    proof {
        let f = data@.subrange(offset as int, end as int);
        assert forall|j: int| 0 <= j < stop - offset implies f[j] != 0u8 by {
            assert(f[j] == data@[offset + j]);
        }
        if stop - offset < f.len() {
            assert(f[stop - offset] == data@[stop as int]);
        }
        lemma_find_from_is(f, 0u8, 0, stop - offset);
        assert(r@ =~= before_nul(f));
    }
    r
}

// ---------------------------------------------------------------------------
// The record
// ---------------------------------------------------------------------------

/// The smallest psinfo record that holds every field read.
pub const PSINFO_MIN_SIZE: usize = 315;

/// What a psinfo record says of a process.
pub struct ProcessInfo {
    pub pid: Pid,
    pub parent: Option<Pid>,
    pub user_id: Uid,
    pub effective_user_id: Uid,
    pub group_id: Gid,
    pub effective_group_id: Gid,
    pub virtual_memory: u64,
    pub memory: u64,
    /// The recent CPU usage, as a fraction of `0x8000` (100 %).
    pub pctcpu: u16,
    pub start_time: u64,
    pub accumulated_cpu_time: u64,
    pub name: Vec<u8>,
    /// The arguments of the short command line of the record, for when the full one
    /// cannot be read.
    pub fallback_cmd: Vec<Vec<u8>>,
    pub argc: usize,
    pub argv: u64,
    pub envp: u64,
    pub pointer_size: usize,
    pub status: ProcessStatus,
}

/// The state that the state letter of a psinfo record stands for.
pub open spec fn psinfo_status(b: u8) -> ProcessStatus {
    if b == 0x4f || b == 0x52 {
        ProcessStatus::Run
    } else if b == 0x53 {
        ProcessStatus::Sleep
    } else if b == 0x54 {
        ProcessStatus::Stop
    } else if b == 0x5a {
        ProcessStatus::Zombie
    } else if b == 0x49 {
        ProcessStatus::Idle
    } else {
        ProcessStatus::Unknown(b as u32)
    }
}

fn status_of(b: u8) -> (r: ProcessStatus)
    ensures
        r == psinfo_status(b),
{
    match b {
        0x4f | 0x52 => ProcessStatus::Run,
        0x53 => ProcessStatus::Sleep,
        0x54 => ProcessStatus::Stop,
        0x5a => ProcessStatus::Zombie,
        0x49 => ProcessStatus::Idle,
        v => ProcessStatus::Unknown(v as u32),
    }
}

/// Whether `s` is a psinfo record of the process `pid`: long enough, and with that id.
pub open spec fn psinfo_matches(s: Seq<u8>, pid: Pid, order: ByteOrder) -> bool {
    s.len() >= PSINFO_MIN_SIZE && signed32(field(s, 8, 4, order)) == pid.0
}

/// The size of the pointers of the process: 4 bytes for a 32-bit data model.
pub open spec fn pointer_size_of(s: Seq<u8>) -> usize {
    if s[256] == 1 {
        4
    } else {
        8
    }
}

/// The id in the 4 bytes at `offset`, `None` when it is 0.
pub open spec fn optional_pid(s: Seq<u8>, offset: int, order: ByteOrder) -> Option<Pid> {
    let v = signed32(field(s, offset, 4, order));
    if v == 0 {
        None
    } else {
        Some(Pid(v as i32))
    }
}

/// What `p` holds when it was read from the record `s` of `pid`.
pub open spec fn psinfo_fields(p: ProcessInfo, s: Seq<u8>, pid: Pid, order: ByteOrder) -> bool {
    let psz = pointer_size_of(s);
    &&& p.pid == pid
    &&& p.parent == optional_pid(s, 12, order)
    &&& p.user_id == Uid(field(s, 24, 4, order) as u32)
    &&& p.effective_user_id == Uid(field(s, 28, 4, order) as u32)
    &&& p.group_id == Gid(field(s, 32, 4, order) as u32)
    &&& p.effective_group_id == Gid(field(s, 36, 4, order) as u32)
    &&& p.virtual_memory == sat_mul(field(s, 48, 8, order) as u64, 1024)
    &&& p.memory == sat_mul(field(s, 56, 8, order) as u64, 1024)
    &&& p.pctcpu == field(s, 80, 2, order) as u16
    &&& p.start_time == non_negative(signed64(field(s, 88, 8, order))) as u64
    &&& spec_timespec_millis(s, 104, order) == Some(p.accumulated_cpu_time)
    &&& p.name@ == spec_c_field(s, 136, 16)
    &&& views(p.fallback_cmd@) == ascii_tokens_from(spec_c_field(s, 152, 80), 0)
    &&& p.argc == non_negative(signed32(field(s, 236, 4, order))) as usize
    &&& p.pointer_size == psz
    &&& p.argv == field(s, 240, psz as int, order) as u64
    &&& p.envp == field(s, 248, psz as int, order) as u64
    &&& p.status == psinfo_status(s[314])
}

impl ProcessInfo {
    /// Reads the psinfo record `data` of the process `pid`, whose integers are in the
    /// byte order `order`. `None` when the record is too short or names another process.
    pub fn read(data: &[u8], pid: Pid, order: ByteOrder) -> (r: Option<ProcessInfo>)
        ensures
            r is Some <==> psinfo_matches(data@, pid, order),
            r matches Some(p) ==> psinfo_fields(p, data@, pid, order),
    {
        if data.len() < PSINFO_MIN_SIZE {
            return None;
        }
        let id = match read_i32(data, 8, order) {
            Some(v) => v,
            None => return None,
        };
        proof {
            lemma_pow256_values();
            lemma_word_bound(data@.subrange(8, 12), order);
        }
        if id != pid.0 {
            return None;
        }
        let model = data[256];
        let pointer_size: usize = if model == 1 { 4 } else { 8 };
        let name = c_field(data, 136, 16);
        let psargs = c_field(data, 152, 80);
        let fallback_cmd = if psargs.len() == 0 {
            Vec::new()
        } else {
            ascii_tokens(psargs.as_slice())
        };
        proof {
            if psargs@.len() == 0 {
                assert(views(fallback_cmd@) =~= ascii_tokens_from(psargs@, 0));
            }
        }
        let status = status_of(data[314]);
        let parent = match read_i32(data, 12, order) {
            Some(0) => None,
            Some(p) => Some(Pid(p)),
            None => return None,
        };
        let user_id = match read_u32(data, 24, order) {
            Some(v) => Uid(v),
            None => return None,
        };
        let effective_user_id = match read_u32(data, 28, order) {
            Some(v) => Uid(v),
            None => return None,
        };
        let group_id = match read_u32(data, 32, order) {
            Some(v) => Gid(v),
            None => return None,
        };
        let effective_group_id = match read_u32(data, 36, order) {
            Some(v) => Gid(v),
            None => return None,
        };
        let virtual_memory = match read_u64(data, 48, order) {
            Some(v) => saturating_mul(v, 1024),
            None => return None,
        };
        let memory = match read_u64(data, 56, order) {
            Some(v) => saturating_mul(v, 1024),
            None => return None,
        };
        let pctcpu = match read_u16(data, 80, order) {
            Some(v) => v,
            None => return None,
        };
        let start_time = match read_i64(data, 88, order) {
            Some(v) => if v < 0 { 0u64 } else { v as u64 },
            None => return None,
        };
        let accumulated_cpu_time = match timespec_millis(data, 104, order) {
            Some(v) => v,
            None => return None,
        };
        let argc = match read_i32(data, 236, order) {
            Some(v) => if v < 0 { 0usize } else { v as usize },
            None => return None,
        };
        let argv = match read_pointer(data, 240, pointer_size, order) {
            Some(v) => v,
            None => return None,
        };
        let envp = match read_pointer(data, 248, pointer_size, order) {
            Some(v) => v,
            None => return None,
        };
        proof {
            lemma_word_bound(data@.subrange(12, 16), order);
            lemma_word_bound(data@.subrange(24, 28), order);
            lemma_word_bound(data@.subrange(28, 32), order);
            lemma_word_bound(data@.subrange(32, 36), order);
            lemma_word_bound(data@.subrange(36, 40), order);
            lemma_word_bound(data@.subrange(80, 82), order);
            lemma_word_bound(data@.subrange(88, 96), order);
            lemma_word_bound(data@.subrange(236, 240), order);
        }
        Some(ProcessInfo {
            pid,
            parent,
            user_id,
            effective_user_id,
            group_id,
            effective_group_id,
            virtual_memory,
            memory,
            pctcpu,
            start_time,
            accumulated_cpu_time,
            name,
            fallback_cmd,
            argc,
            argv,
            envp,
            pointer_size,
            status,
        })
    }

    /// When the process started.
    pub fn start_time(&self) -> (r: u64)
        ensures
            r == self.start_time,
    {
        self.start_time
    }
}


// ---------------------------------------------------------------------------
// Refresh
// ---------------------------------------------------------------------------

/// A process of illumos, as the library keeps it.
pub struct ProcessInner {
    pub name: Vec<u8>,
    pub cmd: Vec<Vec<u8>>,
    pub exe: Option<Vec<u8>>,
    pub pid: Pid,
    pub parent: Option<Pid>,
    pub environ: Vec<Vec<u8>>,
    pub cwd: Option<Vec<u8>>,
    pub root: Option<Vec<u8>>,
    pub memory: u64,
    pub virtual_memory: u64,
    pub updated: bool,
    /// The recent CPU usage, as a fraction of `0x8000` (100 %).
    pub pctcpu: u16,
    pub start_time: u64,
    pub run_time: u64,
    pub status: ProcessStatus,
    pub user_id: Uid,
    pub effective_user_id: Uid,
    pub group_id: Gid,
    pub effective_group_id: Gid,
    /// The byte counters; the system gives none per process, so they stay at 0.
    pub io: IoCounters,
    pub accumulated_cpu_time: u64,
    pub exists: bool,
}

impl ProcessInner {
    /// The bytes read and written.
    pub fn disk_usage(&self) -> (r: DiskUsage)
        ensures
            r.total_read_bytes == self.io.read_bytes,
            r.total_written_bytes == self.io.written_bytes,
            r.read_bytes == self.io.read_bytes.saturating_sub(self.io.old_read_bytes),
            r.written_bytes == self.io.written_bytes.saturating_sub(self.io.old_written_bytes),
    {
        self.io.usage()
    }
}

/// Which values that take a read of their own a refresh asks for.
#[derive(Clone, Copy, Debug, PartialEq, Eq, Structural)]
pub struct PathNeeds {
    pub exe: bool,
    pub cwd: bool,
    pub root: bool,
    pub cmd: bool,
    pub environ: bool,
}

/// Whether `u` asks for a value, given whether it is missing.
pub open spec fn needs(u: UpdateKind, missing: bool) -> bool {
    match u {
        UpdateKind::Never => false,
        UpdateKind::Always => true,
        UpdateKind::OnlyIfNotSet => missing,
    }
}

/// The reads that a refresh of `p` with `k` asks for.
pub open spec fn spec_needs(p: ProcessInner, k: ProcessRefreshKind) -> PathNeeds {
    PathNeeds {
        exe: needs(k.exe, p.exe is None),
        cwd: needs(k.cwd, p.cwd is None),
        root: needs(k.root, p.root is None),
        cmd: needs(k.cmd, p.cmd@.len() == 0),
        environ: needs(k.environ, p.environ@.len() == 0),
    }
}

/// The reads that a refresh of `p` with `k` asks for: the executable's path, the
/// working directory, the root, the command line and the environment.
pub fn refresh_needs(p: &ProcessInner, k: ProcessRefreshKind) -> (r: PathNeeds)
    ensures
        r == spec_needs(*p, k),
{
    PathNeeds {
        exe: k.exe.needs_update(p.exe.is_none()),
        cwd: k.cwd.needs_update(p.cwd.is_none()),
        root: k.root.needs_update(p.root.is_none()),
        cmd: k.cmd.needs_update(p.cmd.len() == 0),
        environ: k.environ.needs_update(p.environ.len() == 0),
    }
}

/// What was read for a refresh: the paths (`None` where the link could not be read),
/// and the command line and environment read from the process's memory. Only the
/// values that the refresh asked for count.
pub struct Fetched {
    pub exe: Option<Vec<u8>>,
    pub cwd: Option<Vec<u8>>,
    pub root: Option<Vec<u8>>,
    pub cmd: Vec<Vec<u8>>,
    pub environ: Vec<Vec<u8>>,
}

/// The name after a refresh: the one known, else the record's, else the file name
/// of the command.
pub open spec fn refreshed_name(known: Seq<u8>, recorded: Seq<u8>, cmd: Seq<Seq<u8>>) -> Seq<u8> {
    if known.len() > 0 {
        known
    } else if recorded.len() > 0 {
        recorded
    } else if cmd.len() > 0 {
        match spec_file_name(cmd[0]) {
            Some(n) => n,
            None => seq![],
        }
    } else {
        seq![]
    }
}

/// `a - b`, or 0 when `b` is the larger.
pub open spec fn sat_sub(a: u64, b: u64) -> u64 {
    if a < b {
        0
    } else {
        (a - b) as u64
    }
}

/// The command line after a refresh that asked for it: the one read, or the record's
/// short one when nothing could be read.
pub open spec fn refreshed_cmd(read: Seq<Seq<u8>>, fallback: Seq<Seq<u8>>) -> Seq<Seq<u8>> {
    if read.len() == 0 {
        fallback
    } else {
        read
    }
}

/// What a refresh of `o` from its psinfo record `info` at the time `now`, with the
/// values read in `f`, makes of it: `n`.
pub open spec fn refreshed_process(
    o: ProcessInner,
    n: ProcessInner,
    info: ProcessInfo,
    now: u64,
    refresh_kind: ProcessRefreshKind,
    f: Fetched,
) -> bool {
    let needs = spec_needs(o, refresh_kind);
    &&& n.pid == o.pid
    &&& n.start_time == o.start_time
    &&& n.user_id == o.user_id
    &&& n.effective_user_id == o.effective_user_id
    &&& n.group_id == o.group_id
    &&& n.effective_group_id == o.effective_group_id
    &&& n.parent == info.parent
    &&& n.run_time == sat_sub(now, info.start_time)
    &&& n.exists
    &&& n.updated
    &&& n.status == info.status
    &&& n.virtual_memory == (if refresh_kind.memory { info.virtual_memory } else { o.virtual_memory })
    &&& n.memory == (if refresh_kind.memory { info.memory } else { o.memory })
    &&& n.pctcpu == (if refresh_kind.cpu { info.pctcpu } else { o.pctcpu })
    &&& n.accumulated_cpu_time == (if refresh_kind.cpu { info.accumulated_cpu_time } else { o.accumulated_cpu_time })
    &&& n.io == (if refresh_kind.disk_usage {
        IoCounters { old_read_bytes: o.io.read_bytes, old_written_bytes: o.io.written_bytes, ..o.io }
    } else {
        o.io
    })
    &&& n.exe == (if needs.exe { f.exe } else { o.exe })
    &&& n.cwd == (if needs.cwd { f.cwd } else { o.cwd })
    &&& n.root == (if needs.root { f.root } else { o.root })
    &&& views(n.cmd@) == (if needs.cmd {
        refreshed_cmd(views(f.cmd@), views(info.fallback_cmd@))
    } else {
        views(o.cmd@)
    })
    &&& views(n.environ@) == (if needs.environ { views(f.environ@) } else { views(o.environ@) })
    &&& n.name@ == refreshed_name(o.name@, info.name@, views(n.cmd@))
}

/// Refreshes `process` from its psinfo record `info` at the time `now`, with the
/// values read for the refresh in `fetched`.
#[verifier::rlimit(60)]
pub fn update_process(
    info: &ProcessInfo,
    now: u64,
    refresh_kind: ProcessRefreshKind,
    fetched: Fetched,
    process: &mut ProcessInner,
)
    ensures
        refreshed_process(*old(process), *final(process), *info, now, refresh_kind, fetched),
{
    let needs = refresh_needs(process, refresh_kind);
    process.parent = info.parent;
    process.run_time = now.saturating_sub(info.start_time);
    process.exists = true;
    if refresh_kind.memory {
        process.virtual_memory = info.virtual_memory;
        process.memory = info.memory;
    }
    if refresh_kind.cpu {
        process.pctcpu = info.pctcpu;
        process.accumulated_cpu_time = info.accumulated_cpu_time;
    }
    if refresh_kind.disk_usage {
        // The system keeps no byte counters per process: keep the totals, so that
        // the growth since the last refresh is 0.
        process.io.roll();
    }
    let Fetched { exe, cwd, root, cmd, environ } = fetched;
    if needs.exe {
        process.exe = exe;
    }
    if needs.cwd {
        process.cwd = cwd;
    }
    if needs.root {
        process.root = root;
    }
    if needs.cmd {
        if cmd.len() == 0 {
            process.cmd = copy_pieces(&info.fallback_cmd);
        } else {
            process.cmd = cmd;
        }
    }
    if needs.environ {
        process.environ = environ;
    }
    if process.name.len() == 0 {
        process.name = copy_range(info.name.as_slice(), 0, info.name.len());
        proof {
            assert(info.name@.subrange(0, info.name@.len() as int) =~= info.name@);
        }
        if process.name.len() == 0 && process.cmd.len() > 0 {
            process.name = match file_name(process.cmd[0].as_slice()) {
                Some(n) => n,
                None => Vec::new(),
            };
        }
    }
    process.status = info.status;
    process.updated = true;
    assert(process.name@ == refreshed_name(old(process).name@, info.name@, views(process.cmd@)));
}

/// A process as first seen, before its first refresh.
pub fn initial_process(info: &ProcessInfo) -> (r: ProcessInner)
    ensures
        r.name@.len() == 0,
        r.cmd@.len() == 0,
        r.exe is None,
        r.pid == info.pid,
        r.parent == info.parent,
        r.environ@.len() == 0,
        r.cwd is None,
        r.root is None,
        r.memory == 0,
        r.virtual_memory == 0,
        r.updated,
        r.pctcpu == 0,
        r.start_time == info.start_time,
        r.run_time == 0,
        r.status == info.status,
        r.user_id == info.user_id,
        r.effective_user_id == info.effective_user_id,
        r.group_id == info.group_id,
        r.effective_group_id == info.effective_group_id,
        r.io == (IoCounters { read_bytes: 0, old_read_bytes: 0, written_bytes: 0, old_written_bytes: 0 }),
        r.accumulated_cpu_time == 0,
        r.exists,
{
    ProcessInner {
        name: Vec::new(),
        cmd: Vec::new(),
        exe: None,
        pid: info.pid,
        parent: info.parent,
        environ: Vec::new(),
        cwd: None,
        root: None,
        memory: 0,
        virtual_memory: 0,
        updated: true,
        pctcpu: 0,
        start_time: info.start_time,
        run_time: 0,
        status: info.status,
        user_id: info.user_id,
        effective_user_id: info.effective_user_id,
        group_id: info.group_id,
        effective_group_id: info.effective_group_id,
        io: IoCounters { read_bytes: 0, old_read_bytes: 0, written_bytes: 0, old_written_bytes: 0 },
        accumulated_cpu_time: 0,
        exists: true,
    }
}

/// What a new process made from its psinfo record `info` at the time `now`, with the
/// values read in `f`, is: `r`.
pub open spec fn created_process(r: ProcessInner, info: ProcessInfo, now: u64, refresh_kind: ProcessRefreshKind, f: Fetched) -> bool {
    &&& r.pid == info.pid
    &&& r.parent == info.parent
    &&& r.start_time == info.start_time
    &&& r.run_time == sat_sub(now, info.start_time)
    &&& r.status == info.status
    &&& r.user_id == info.user_id
    &&& r.effective_user_id == info.effective_user_id
    &&& r.group_id == info.group_id
    &&& r.effective_group_id == info.effective_group_id
    &&& r.exists
    &&& r.updated
    &&& r.virtual_memory == (if refresh_kind.memory { info.virtual_memory } else { 0 })
    &&& r.memory == (if refresh_kind.memory { info.memory } else { 0 })
    &&& r.pctcpu == (if refresh_kind.cpu { info.pctcpu } else { 0 })
    &&& r.accumulated_cpu_time == (if refresh_kind.cpu { info.accumulated_cpu_time } else { 0 })
    &&& r.io == (IoCounters { read_bytes: 0, old_read_bytes: 0, written_bytes: 0, old_written_bytes: 0 })
    &&& r.exe == (if needs(refresh_kind.exe, true) { f.exe } else { None })
    &&& r.cwd == (if needs(refresh_kind.cwd, true) { f.cwd } else { None })
    &&& r.root == (if needs(refresh_kind.root, true) { f.root } else { None })
    &&& views(r.cmd@) == (if needs(refresh_kind.cmd, true) {
        refreshed_cmd(views(f.cmd@), views(info.fallback_cmd@))
    } else {
        seq![]
    })
    &&& views(r.environ@) == (if needs(refresh_kind.environ, true) { views(f.environ@) } else { seq![] })
    &&& r.name@ == refreshed_name(seq![], info.name@, views(r.cmd@))
}

/// A new process from its psinfo record `info`, refreshed at the time `now` with the
/// values read in `fetched` (those that `refresh_needs` asks for on
/// `initial_process(info)`).
pub fn new_process(info: &ProcessInfo, now: u64, refresh_kind: ProcessRefreshKind, fetched: Fetched) -> (r: ProcessInner)
    ensures
        created_process(r, *info, now, refresh_kind, fetched),
{
    let mut p = initial_process(info);
    let ghost p0 = p;
    proof {
        assert(views(p0.cmd@) =~= Seq::<Seq<u8>>::empty());
        assert(views(p0.environ@) =~= Seq::<Seq<u8>>::empty());
        assert(p0.name@ =~= Seq::<u8>::empty());
        assert(spec_needs(p0, refresh_kind).cmd == needs(refresh_kind.cmd, true));
        assert(spec_needs(p0, refresh_kind).environ == needs(refresh_kind.environ, true));
    }
    update_process(info, now, refresh_kind, fetched, &mut p);
    p
}

} // verus!
