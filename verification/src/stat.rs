//! Process information from Linux procfs: `/proc/<pid>/stat`, `status`, `statm`
//! and `io`, and the bookkeeping done with what they hold.
use vstd::prelude::*;
use vstd::string::StringSliceAdditionalSpecFns;
use crate::common::Pid;
use crate::text::{
    contains_byte, fields_from, lemma_find_from, views, find_from, find_byte_from, split_on, split_bytes, copy_range, rfind, rfind_byte,
    nonempty_pieces, nonempty_split, all_digits, dec_value, is_digit, trim_ascii, trim_ascii_range,
    spec_lines, lines, trim_start, trim_start_index, spec_parse_i32, parse_i32_range,
    spec_parse_u64, parse_u64_range,
};

verus! {

/// The state of a process.
#[derive(Clone, Copy, Debug, PartialEq, Eq)]
pub enum ProcessStatus {
    Idle,
    Run,
    Sleep,
    Stop,
    Zombie,
    Tracing,
    Dead,
    Wakekill,
    Waking,
    Parked,
    UninterruptibleDiskSleep,
    Unknown(u32),
}

/// The state that a state letter of `/proc/<pid>/stat` stands for.
pub open spec fn status_of_byte(b: u8) -> ProcessStatus {
    if b == 0x52 {
        ProcessStatus::Run
    } else if b == 0x53 {
        ProcessStatus::Sleep
    } else if b == 0x49 {
        ProcessStatus::Idle
    } else if b == 0x44 {
        ProcessStatus::UninterruptibleDiskSleep
    } else if b == 0x5a {
        ProcessStatus::Zombie
    } else if b == 0x54 {
        ProcessStatus::Stop
    } else if b == 0x74 {
        ProcessStatus::Tracing
    } else if b == 0x58 || b == 0x78 {
        ProcessStatus::Dead
    } else if b == 0x4b {
        ProcessStatus::Wakekill
    } else if b == 0x57 {
        ProcessStatus::Waking
    } else if b == 0x50 {
        ProcessStatus::Parked
    } else {
        ProcessStatus::Unknown(b as u32)
    }
}

impl From<u8> for ProcessStatus {
    fn from(status: u8) -> (r: ProcessStatus)
        ensures
            r == status_of_byte(status),
    {
        match status {
            0x52 => ProcessStatus::Run,
            0x53 => ProcessStatus::Sleep,
            0x49 => ProcessStatus::Idle,
            0x44 => ProcessStatus::UninterruptibleDiskSleep,
            0x5a => ProcessStatus::Zombie,
            0x54 => ProcessStatus::Stop,
            0x74 => ProcessStatus::Tracing,
            0x58 | 0x78 => ProcessStatus::Dead,
            0x4b => ProcessStatus::Wakekill,
            0x57 => ProcessStatus::Waking,
            0x50 => ProcessStatus::Parked,
            x => ProcessStatus::Unknown(x as u32),
        }
    }
}

impl vstd::std_specs::convert::FromSpecImpl<u8> for ProcessStatus {
    open spec fn obeys_from_spec() -> bool {
        true
    }

    open spec fn from_spec(v: u8) -> ProcessStatus {
        status_of_byte(v)
    }
}

/// The name that a state is shown under.
pub open spec fn status_name(s: ProcessStatus) -> Seq<char> {
    match s {
        ProcessStatus::Idle => "Idle"@,
        ProcessStatus::Run => "Runnable"@,
        ProcessStatus::Sleep => "Sleeping"@,
        ProcessStatus::Stop => "Stopped"@,
        ProcessStatus::Zombie => "Zombie"@,
        ProcessStatus::Tracing => "Tracing"@,
        ProcessStatus::Dead => "Dead"@,
        ProcessStatus::Wakekill => "Wakekill"@,
        ProcessStatus::Waking => "Waking"@,
        ProcessStatus::Parked => "Parked"@,
        ProcessStatus::UninterruptibleDiskSleep => "UninterruptibleDiskSleep"@,
        ProcessStatus::Unknown(_) => "Unknown"@,
    }
}

impl ProcessStatus {
    /// The name of the state, as it is shown.
    pub fn to_string(&self) -> (r: String)
        ensures
            r@ == status_name(*self),
    {
        let name: &str = match *self {
            ProcessStatus::Idle => "Idle",
            ProcessStatus::Run => "Runnable",
            ProcessStatus::Sleep => "Sleeping",
            ProcessStatus::Stop => "Stopped",
            ProcessStatus::Zombie => "Zombie",
            ProcessStatus::Tracing => "Tracing",
            ProcessStatus::Dead => "Dead",
            ProcessStatus::Wakekill => "Wakekill",
            ProcessStatus::Waking => "Waking",
            ProcessStatus::Parked => "Parked",
            ProcessStatus::UninterruptibleDiskSleep => "UninterruptibleDiskSleep",
            ProcessStatus::Unknown(_) => "Unknown",
        };
        name.to_owned()
    }
}

/// The value of a string of digits when every byte is a digit and the value fits
/// in 64 bits (an empty string is 0).
pub open spec fn spec_checked_u64(b: Seq<u8>) -> Option<u64> {
    if all_digits(b) && dec_value(b) <= u64::MAX {
        Some(dec_value(b) as u64)
    } else {
        None
    }
}

/// Parses a string of ASCII digits with overflow checks; no sign is accepted.
pub fn parse_ascii_checked_u64(bytes: &[u8]) -> (r: Option<u64>)
    ensures
        r == spec_checked_u64(bytes@),
{
    let mut num: u64 = 0;
    let mut i: usize = 0;
    while i < bytes.len()
        invariant
            i <= bytes@.len(),
            all_digits(bytes@.take(i as int)),
            num as nat == dec_value(bytes@.take(i as int)),
        decreases bytes@.len() - i,
    {
        let b = bytes[i];
        proof {
            assert(bytes@.take(i + 1).drop_last() =~= bytes@.take(i as int));
        }
        if !(0x30 <= b && b <= 0x39) {
            proof {
                assert(!is_digit(bytes@[i as int]));
            }
            return None;
        }
        match num.checked_mul(10) {
            Some(m) => match m.checked_add((b - 0x30) as u64) {
                Some(n) => {
                    num = n;
                },
                None => {
                    proof {
                        lemma_prefix_value_bound(bytes@, i + 1);
                    }
                    return None;
                },
            },
            None => {
                proof {
                    lemma_prefix_value_bound(bytes@, i + 1);
                }
                return None;
            },
        }
        i = i + 1;
    }
    proof {
        assert(bytes@.take(bytes@.len() as int) =~= bytes@);
    }
    Some(num)
}

/// The value of a prefix of a digit string never exceeds that of the whole.
proof fn lemma_prefix_value_bound(b: Seq<u8>, k: int)
    requires
        0 <= k <= b.len(),
    ensures
        all_digits(b) ==> dec_value(b.take(k)) <= dec_value(b),
    decreases b.len() - k,
{
    if k < b.len() && all_digits(b) {
        lemma_prefix_value_bound(b, k + 1);
        assert(b.take(k + 1).drop_last() =~= b.take(k));
        assert(is_digit(b[k]));
        assert(dec_value(b.take(k + 1)) >= dec_value(b.take(k)) * 10);
        assert(dec_value(b.take(k)) * 10 >= dec_value(b.take(k))) by (nonlinear_arith);
    } else if k == b.len() {
        assert(b.take(k) =~= b);
    }
}

/// Parses a string of ASCII digits into a `usize` with overflow checks.
pub fn parse_ascii_checked_usize(bytes: &[u8]) -> (r: Option<usize>)
    ensures
        r == (if all_digits(bytes@) && dec_value(bytes@) <= usize::MAX {
            Some(dec_value(bytes@) as usize)
        } else {
            None
        }),
{
    match parse_ascii_checked_u64(bytes) {
        Some(v) => if v <= usize::MAX as u64 {
            Some(v as usize)
        } else {
            None
        },
        None => None,
    }
}

/// Parses a string of ASCII digits into a process identifier with overflow checks.
pub fn parse_ascii_checked_pid_t(bytes: &[u8]) -> (r: Option<Pid>)
    ensures
        r == (if all_digits(bytes@) && dec_value(bytes@) <= i32::MAX {
            Some(Pid(dec_value(bytes@) as i32))
        } else {
            None
        }),
{
    match parse_ascii_checked_u64(bytes) {
        Some(v) => if v <= 0x7fff_ffff {
            Some(Pid(v as i32))
        } else {
            None
        },
        None => None,
    }
}

/// The value that a string of bytes gives when read as digits without checks.
pub open spec fn nb_value(s: Seq<u8>) -> nat
    decreases s.len(),
{
    if s.len() == 0 {
        0
    } else {
        nb_value(s.drop_last()) * 10 + (s.last() - 0x30) as nat
    }
}

/// Whether reading `s` as digits without checks neither goes below `0` in a byte nor
/// past `u64::MAX` (either would panic).
pub open spec fn nb_fits(s: Seq<u8>) -> bool {
    (forall|i: int| 0 <= i < s.len() ==> #[trigger] s[i] >= 0x30) && nb_value(s) <= u64::MAX
}

proof fn lemma_nb_value_grows(s: Seq<u8>, k: int)
    requires
        0 <= k <= s.len(),
        forall|i: int| 0 <= i < s.len() ==> #[trigger] s[i] >= 0x30,
    ensures
        nb_value(s.take(k)) <= nb_value(s),
    decreases s.len() - k,
{
    if k < s.len() {
        lemma_nb_value_grows(s, k + 1);
        assert(s.take(k + 1).drop_last() =~= s.take(k));
        assert(nb_value(s.take(k)) * 10 >= nb_value(s.take(k))) by (nonlinear_arith);
    } else {
        assert(s.take(k) =~= s);
    }
}

/// Reads bytes as decimal digits without checking them (the `statm` numbers).
pub fn slice_to_nb(s: &[u8]) -> (r: u64)
    requires
        nb_fits(s@),
    ensures
        r == nb_value(s@),
{
    let mut nb: u64 = 0;
    let mut i: usize = 0;
    while i < s.len()
        invariant
            i <= s@.len(),
            nb_fits(s@),
            nb as nat == nb_value(s@.take(i as int)),
        decreases s@.len() - i,
    {
        proof {
            assert(s@.take(i + 1).drop_last() =~= s@.take(i as int));
            lemma_nb_value_grows(s@, i + 1);
            assert(s@[i as int] >= 0x30);
        }
        nb = nb * 10 + (s[i] - 0x30) as u64;
        i = i + 1;
    }
    proof {
        assert(s@.take(s@.len() as int) =~= s@);
    }
    nb
}

/// Whether reading `s` as digits without checks succeeds (`nb_fits`).
pub fn nb_fits_exec(s: &[u8]) -> (r: bool)
    ensures
        r == nb_fits(s@),
{
    let mut nb: u64 = 0;
    let mut i: usize = 0;
    while i < s.len()
        invariant
            i <= s@.len(),
            forall|j: int| 0 <= j < i ==> #[trigger] s@[j] >= 0x30,
            nb as nat == nb_value(s@.take(i as int)),
        decreases s@.len() - i,
    {
        proof {
            assert(s@.take(i + 1).drop_last() =~= s@.take(i as int));
        }
        if s[i] < 0x30 {
            return false;
        }
        let d = (s[i] - 0x30) as u64;
        if nb > (u64::MAX - d) / 10 {
            proof {
                assert(nb * 10 + d > u64::MAX) by (nonlinear_arith)
                    requires
                        nb > (u64::MAX - d) / 10,
                        d <= 0xff,
                ;
                if forall|j: int| 0 <= j < s@.len() ==> #[trigger] s@[j] >= 0x30 {
                    lemma_nb_value_grows(s@, i + 1);
                }
            }
            return false;
        }
        proof {
            assert(nb * 10 + d <= u64::MAX) by (nonlinear_arith)
                requires
                    nb <= (u64::MAX - d) / 10,
                    d <= 0xff,
            ;
        }
        nb = nb * 10 + d;
        i = i + 1;
    }
    proof {
        assert(s@.take(s@.len() as int) =~= s@);
    }
    true
}

/// The parts of `/proc/<pid>/stat` that are read.
#[derive(Clone, Debug, PartialEq, Eq)]
pub struct Parts {
    pub short_exe: Vec<u8>,
    pub status: ProcessStatus,
    pub parent_pid: Option<Vec<u8>>,
    pub flags: Option<Vec<u8>>,
    pub user_time: u64,
    pub system_time: u64,
    pub start_time: u64,
    pub virtual_size: Option<Vec<u8>>,
    pub resident_set_size: Option<Vec<u8>>,
}

/// The contents of an optional byte vector.
pub open spec fn opt_view(o: Option<Vec<u8>>) -> Option<Seq<u8>> {
    match o {
        Some(v) => Some(v@),
        None => None,
    }
}

/// The `i`-th field, if there is one.
pub open spec fn nth_field(t: Seq<Seq<u8>>, i: int) -> Option<Seq<u8>> {
    if 0 <= i < t.len() {
        Some(t[i])
    } else {
        None
    }
}

/// A numeric field: its value when it holds only digits, else 0.
pub open spec fn numeric_field(f: Option<Seq<u8>>) -> u64 {
    match f {
        Some(b) => match spec_checked_u64(b) {
            Some(v) => v,
            None => 0,
        },
        None => 0,
    }
}

/// The two halves of a stat line: the command name (between the `(` after the pid
/// and the last `)`), and the space-separated fields after that `)`, the state
/// first. `None` when the line has no space or no `)` after the pid.
pub open spec fn stat_split(data: Seq<u8>) -> Option<(Seq<u8>, Seq<Seq<u8>>)> {
    let k = find_from(data, 0x20u8, 0);
    if k >= data.len() {
        None
    } else {
        let rest = data.subrange(k + 1, data.len() as int);
        match rfind(rest, 0x29u8) {
            None => None,
            Some(pos) => Some(
                (
                    rest.subrange(1, pos),
                    nonempty_pieces(split_on(rest.subrange(pos + 1, rest.len() as int), 0x20u8)),
                ),
            ),
        }
    }
}

/// Whether slicing out the command name is possible: the last `)` after the pid is
/// not its first byte (else the slice panics).
pub open spec fn stat_sliceable(data: Seq<u8>) -> bool {
    let k = find_from(data, 0x20u8, 0);
    k < data.len() ==> match rfind(data.subrange(k + 1, data.len() as int), 0x29u8) {
        Some(pos) => pos >= 1,
        None => true,
    }
}

/// Whether `parse_stat_file` can read `data` (see `stat_sliceable`); callers test it
/// first.
pub fn stat_sliceable_check(data: &[u8]) -> (r: bool)
    ensures
        r == stat_sliceable(data@),
{
    let k = find_byte_from(data, 0x20, 0);
    if k >= data.len() {
        return true;
    }
    let rest = copy_range(data, k + 1, data.len());
    match rfind_byte(rest.as_slice(), 0x29) {
        Some(p) => p >= 1,
        None => true,
    }
}

/// Parses a line of `/proc/<pid>/stat`.
pub fn parse_stat_file(data: &[u8]) -> (r: Option<Parts>)
    requires
        stat_sliceable(data@),
    ensures
        match r {
            None => stat_split(data@) is None,
            Some(p) => stat_split(data@) matches Some((exe, t)) && {
                &&& p.short_exe@ == exe
                &&& p.status == (if t.len() > 0 && t[0].len() > 0 {
                    status_of_byte(t[0][0])
                } else {
                    ProcessStatus::Unknown(0)
                })
                &&& opt_view(p.parent_pid) == nth_field(t, 1)
                &&& opt_view(p.flags) == nth_field(t, 6)
                &&& p.user_time == numeric_field(nth_field(t, 11))
                &&& p.system_time == numeric_field(nth_field(t, 12))
                &&& p.start_time == numeric_field(nth_field(t, 19))
                &&& opt_view(p.virtual_size) == nth_field(t, 20)
                &&& opt_view(p.resident_set_size) == nth_field(t, 21)
            },
        },
{
    // The first field (the pid) ends at the first space; the command name follows
    // in parentheses and may itself hold spaces and parentheses, so it ends at the
    // last `)`.
    let k = find_byte_from(data, 0x20, 0);
    if k >= data.len() {
        return None;
    }
    let rest = copy_range(data, k + 1, data.len());
    let pos = match rfind_byte(rest.as_slice(), 0x29) {
        Some(p) => p,
        None => return None,
    };
    let short_exe = copy_range(rest.as_slice(), 1, pos);
    let tail = copy_range(rest.as_slice(), pos + 1, rest.len());
    let t = nonempty_split(tail.as_slice(), 0x20);
    let ghost tv = views(t@);
    let status = if t.len() > 0 && t[0].len() > 0 {
        ProcessStatus::from(t[0][0])
    } else {
        ProcessStatus::Unknown(0)
    };
    let parent_pid = field(&t, 1);
    let flags = field(&t, 6);
    let user_time = numeric(&t, 11);
    let system_time = numeric(&t, 12);
    let start_time = numeric(&t, 19);
    let virtual_size = field(&t, 20);
    let resident_set_size = field(&t, 21);
    Some(
        Parts {
            short_exe,
            status,
            parent_pid,
            flags,
            user_time,
            system_time,
            start_time,
            virtual_size,
            resident_set_size,
        },
    )
}

fn field(t: &Vec<Vec<u8>>, i: usize) -> (r: Option<Vec<u8>>)
    ensures
        opt_view(r) == nth_field(views(t@), i as int),
{
    if i < t.len() {
        let r = copy_range(t[i].as_slice(), 0, t[i].len());
        proof {
            assert(r@ =~= t@[i as int]@);
        }
        Some(r)
    } else {
        None
    }
}

fn numeric(t: &Vec<Vec<u8>>, i: usize) -> (r: u64)
    ensures
        r == numeric_field(nth_field(views(t@), i as int)),
{
    if i < t.len() {
        match parse_ascii_checked_u64(t[i].as_slice()) {
            Some(v) => v,
            None => 0,
        }
    } else {
        0
    }
}

/// The pieces of `data` between NUL bytes, each without surrounding ASCII
/// whitespace, the empty ones left out.
pub open spec fn spec_split_content(data: Seq<u8>) -> Seq<Seq<u8>> {
    nonempty_pieces(split_on(data, 0u8).map_values(|p: Seq<u8>| trim_ascii(p)))
}

/// Splits NUL-separated contents (`cmdline`, `environ`) into their entries.
pub fn split_content(data: &[u8]) -> (r: Vec<Vec<u8>>)
    ensures
        views(r@) == spec_split_content(data@),
{
    let pieces = split_bytes(data, 0);
    let ghost pv = views(pieces@).map_values(|p: Seq<u8>| trim_ascii(p));
    let mut out: Vec<Vec<u8>> = Vec::new();
    let mut i: usize = 0;
    while i < pieces.len()
        invariant
            i <= pieces@.len(),
            views(pieces@) == split_on(data@, 0u8),
            pv == views(pieces@).map_values(|p: Seq<u8>| trim_ascii(p)),
            views(out@) == nonempty_pieces(pv.take(i as int)),
        decreases pieces@.len() - i,
    {
        let p = pieces[i].as_slice();
        let (a, b) = trim_ascii_range(p, 0, p.len());
        proof {
            assert(p@.subrange(0, p@.len() as int) =~= p@);
            let t = pv.take(i + 1);
            assert(t.drop_last() =~= pv.take(i as int));
            assert(t.last() == trim_ascii(p@));
        }
        if b > a {
            let ghost before = views(out@);
            let piece = copy_range(p, a, b);
            out.push(piece);
            proof {
                assert(views(out@) =~= before.push(piece@));
            }
        }
        i = i + 1;
    }
    proof {
        assert(pv.take(pieces@.len() as int) =~= pv);
    }
    out
}

/// The key `Tgid:`.
pub open spec fn tgid_word() -> Seq<u8> {
    seq![0x54u8, 0x67u8, 0x69u8, 0x64u8, 0x3au8]
}

/// The index of the first line that starts with `Tgid:`, or `lines.len()`.
pub open spec fn first_tgid_line(l: Seq<Seq<u8>>, i: int) -> int
    decreases l.len() - i,
{
    if i >= l.len() {
        l.len() as int
    } else if l[i].len() >= 5 && l[i].take(5) == tgid_word() {
        i
    } else {
        first_tgid_line(l, i + 1)
    }
}

/// The thread-group id from the contents of `/proc/<pid>/status`: the number after
/// `Tgid:` on the first line that starts with it.
pub open spec fn spec_get_tgid(status: Seq<u8>) -> Option<Pid> {
    let l = spec_lines(status);
    let i = first_tgid_line(l, 0);
    if i >= l.len() {
        None
    } else {
        match spec_parse_i32(trim_start(l[i].skip(5))) {
            Some(v) => Some(Pid(v)),
            None => None,
        }
    }
}

/// The thread-group id from the contents of `/proc/<pid>/status`.
pub fn get_tgid(status: &str) -> (r: Option<Pid>)
    ensures
        r == spec_get_tgid(status.spec_bytes()),
{
    let bytes = status.as_bytes();
    let all = lines(bytes);
    let ghost l = views(all@);
    let mut i: usize = 0;
    while i < all.len()
        invariant
            i <= all@.len(),
            l == views(all@),
            l == spec_lines(status.spec_bytes()),
            first_tgid_line(l, 0) == first_tgid_line(l, i as int),
        decreases all@.len() - i,
    {
        let line = all[i].as_slice();
        if line.len() >= 5 && line[0] == 0x54 && line[1] == 0x67 && line[2] == 0x69 && line[3] == 0x64
            && line[4] == 0x3a {
            proof {
                assert(line@.take(5) =~= tgid_word());
            }
            let start = trim_start_index(line, 5, line.len());
            proof {
                assert(line@.subrange(5, line@.len() as int) =~= line@.skip(5));
                assert(l[i as int] == line@);
                assert(first_tgid_line(l, i as int) == i);
            }
            return match parse_i32_range(line, start, line.len()) {
                Some(v) => Some(Pid(v)),
                None => None,
            };
        }
        proof {
            if line@.len() >= 5 && line@.take(5) == tgid_word() {
                assert(line@.take(5)[0] == line@[0]);
                assert(line@.take(5)[1] == line@[1]);
                assert(line@.take(5)[2] == line@[2]);
                assert(line@.take(5)[3] == line@[3]);
                assert(line@.take(5)[4] == line@[4]);
            }
        }
        i = i + 1;
    }
    None
}

/// The parent of a process: the parent given by the caller unless it is 0, else
/// the parent field of the stat file unless it is 0 or not a number.
pub open spec fn spec_parent_pid(given: Option<Pid>, field: Option<Seq<u8>>) -> Option<Pid> {
    match given {
        Some(p) if p.0 != 0 => Some(p),
        _ => match field {
            Some(f) => if all_digits(f) && dec_value(f) <= i32::MAX && dec_value(f) != 0 {
                Some(Pid(dec_value(f) as i32))
            } else {
                None
            },
            None => None,
        },
    }
}

/// The parent of a process from the parent the caller knows and the stat file's field.
pub fn parent_pid_of(given: Option<Pid>, field: &Option<Vec<u8>>) -> (r: Option<Pid>)
    ensures
        r == spec_parent_pid(given, opt_view(*field)),
{
    match given {
        Some(p) if p.0 != 0 => Some(p),
        _ => match field {
            Some(f) => match parse_ascii_checked_pid_t(f.as_slice()) {
                Some(p) if p.0 != 0 => Some(p),
                _ => None,
            },
            None => None,
        },
    }
}


/// The parent that the caller gives wins when it is not 0, whatever the stat file says;
/// the parent is never 0; and when the caller gives none (or 0), the parent is the stat
/// file's field exactly when that field is a number from 1 to `i32::MAX`.
pub proof fn given_parent_wins(given: Option<Pid>, field: Option<Seq<u8>>)
    ensures
        (given matches Some(p) && p.0 != 0) ==> spec_parent_pid(given, field) == given,
        spec_parent_pid(given, field) matches Some(q) ==> q.0 != 0,
        !(given matches Some(p) && p.0 != 0) ==> match spec_parent_pid(given, field) {
            Some(q) => field matches Some(f) && all_digits(f) && dec_value(f) == q.0,
            None => !(field matches Some(f) && all_digits(f) && 1 <= dec_value(f) <= i32::MAX),
        },
{
}


/// Whether `line` starts with `Tgid:`.
pub open spec fn starts_with_tgid(line: Seq<u8>) -> bool {
    line.len() >= 5 && line.take(5) == seq![0x54u8, 0x67u8, 0x69u8, 0x64u8, 0x3au8]
}

proof fn lemma_first_tgid_line(l: Seq<Seq<u8>>, i: int)
    requires
        0 <= i <= l.len(),
    ensures
        i <= first_tgid_line(l, i) <= l.len(),
        first_tgid_line(l, i) < l.len() ==> starts_with_tgid(l[first_tgid_line(l, i)]),
        forall|j: int| i <= j < first_tgid_line(l, i) ==> !starts_with_tgid(#[trigger] l[j]),
    decreases l.len() - i,
{
    assert(tgid_word() == seq![0x54u8, 0x67u8, 0x69u8, 0x64u8, 0x3au8]);
    if i < l.len() && !starts_with_tgid(l[i]) {
        lemma_first_tgid_line(l, i + 1);
    }
}

/// The thread-group id comes from the first line of `/proc/<pid>/status` that starts
/// with `Tgid:`: the number after it (leading whitespace skipped), none when that is
/// not a number; with no such line there is none.
pub proof fn tgid_from_first_tgid_line(status: Seq<u8>)
    ensures
        (forall|i: int| 0 <= i < spec_lines(status).len() ==> !starts_with_tgid(#[trigger] spec_lines(status)[i]))
            ==> spec_get_tgid(status) is None,
        forall|i: int|
            0 <= i < spec_lines(status).len() && starts_with_tgid(#[trigger] spec_lines(status)[i]) && (forall|j: int|
                0 <= j < i ==> !starts_with_tgid(spec_lines(status)[j])) ==> spec_get_tgid(status) == match spec_parse_i32(
                trim_start(spec_lines(status)[i].skip(5)),
            ) {
                Some(v) => Some(Pid(v)),
                None => None,
            },
{
    let l = spec_lines(status);
    lemma_first_tgid_line(l, 0);
    let r = first_tgid_line(l, 0);
    assert forall|i: int|
        0 <= i < l.len() && starts_with_tgid(#[trigger] l[i]) && (forall|j: int| 0 <= j < i ==> !starts_with_tgid(l[j]))
            implies r == i by {
        if r < i {
            assert(starts_with_tgid(l[r]));
        }
    }
    if r < l.len() {
        assert(starts_with_tgid(l[r]));
    }
}

/// The state letters of `/proc/<pid>/stat`: `R` running, `S` sleeping, `I` idle, `D`
/// in uninterruptible disk sleep, `Z` zombie, `T` stopped, `t` traced, `X` or `x` dead,
/// `K` wakekill, `W` waking, `P` parked; any other byte is unknown, keeping its value.
pub proof fn stat_state_letters(b: u8)
    ensures
        status_of_byte(0x52) == ProcessStatus::Run,
        status_of_byte(0x53) == ProcessStatus::Sleep,
        status_of_byte(0x49) == ProcessStatus::Idle,
        status_of_byte(0x44) == ProcessStatus::UninterruptibleDiskSleep,
        status_of_byte(0x5a) == ProcessStatus::Zombie,
        status_of_byte(0x54) == ProcessStatus::Stop,
        status_of_byte(0x74) == ProcessStatus::Tracing,
        status_of_byte(0x58) == ProcessStatus::Dead,
        status_of_byte(0x78) == ProcessStatus::Dead,
        status_of_byte(0x4b) == ProcessStatus::Wakekill,
        status_of_byte(0x57) == ProcessStatus::Waking,
        status_of_byte(0x50) == ProcessStatus::Parked,
        !(b == 0x52 || b == 0x53 || b == 0x49 || b == 0x44 || b == 0x5a || b == 0x54 || b == 0x74 || b == 0x58 || b
            == 0x78 || b == 0x4b || b == 0x57 || b == 0x50) ==> status_of_byte(b) == ProcessStatus::Unknown(b as u32),
{
}


proof fn lemma_fields_from_bytes(s: Seq<u8>, sep: u8, i: int, c: u8)
    requires
        0 <= i <= s.len(),
    ensures
        forall|k: int| 0 <= k < fields_from(s, sep, i).len() ==> !contains_byte(#[trigger] fields_from(s, sep, i)[k], sep),
        !contains_byte(s.subrange(i, s.len() as int), c) ==> forall|k: int|
            0 <= k < fields_from(s, sep, i).len() ==> !contains_byte(#[trigger] fields_from(s, sep, i)[k], c),
    decreases s.len() - i + 1,
{
    lemma_find_from(s, sep, i);
    let f = find_from(s, sep, i);
    let r = fields_from(s, sep, i);
    if f >= s.len() {
        let p = s.subrange(i, s.len() as int);
        assert(r == seq![p]);
        assert(!contains_byte(p, sep)) by {
            if contains_byte(p, sep) {
                let m = choose|m: int| 0 <= m < p.len() && p[m] == sep;
                assert(s[i + m] == sep);
            }
        }
    } else {
        let p = s.subrange(i, f);
        lemma_fields_from_bytes(s, sep, f + 1, c);
        let t = fields_from(s, sep, f + 1);
        assert(r == seq![p] + t);
        assert(!contains_byte(p, sep)) by {
            if contains_byte(p, sep) {
                let m = choose|m: int| 0 <= m < p.len() && p[m] == sep;
                assert(s[i + m] == sep);
            }
        }
        if !contains_byte(s.subrange(i, s.len() as int), c) {
            assert(!contains_byte(p, c)) by {
                if contains_byte(p, c) {
                    let m = choose|m: int| 0 <= m < p.len() && p[m] == c;
                    assert(s.subrange(i, s.len() as int)[m] == c);
                }
            }
            assert(!contains_byte(s.subrange(f + 1, s.len() as int), c)) by {
                let q = s.subrange(f + 1, s.len() as int);
                if contains_byte(q, c) {
                    let m = choose|m: int| 0 <= m < q.len() && q[m] == c;
                    assert(s.subrange(i, s.len() as int)[f + 1 + m - i] == c);
                }
            }
        }
        assert forall|k: int| 0 <= k < r.len() implies #[trigger] r[k] == if k == 0 { p } else { t[k - 1] } by {}
    }
}

proof fn lemma_nonempty_pieces_from(f: Seq<Seq<u8>>)
    ensures
        forall|k: int| 0 <= k < nonempty_pieces(f).len() ==> (#[trigger] nonempty_pieces(f)[k]).len() > 0 && exists|j: int|
            0 <= j < f.len() && f[j] == nonempty_pieces(f)[k],
    decreases f.len(),
{
    if f.len() > 0 {
        lemma_nonempty_pieces_from(f.drop_last());
        let p = nonempty_pieces(f.drop_last());
        let r = nonempty_pieces(f);
        assert forall|k: int| 0 <= k < r.len() implies (#[trigger] r[k]).len() > 0 && exists|j: int| 0 <= j < f.len() && f[j] == r[k] by {
            if k < p.len() {
                assert(r[k] == p[k]);
                let j = choose|j: int| 0 <= j < f.drop_last().len() && f.drop_last()[j] == p[k];
                assert(f[j] == p[k]);
            } else {
                assert(r[k] == f.last());
                assert(f[f.len() - 1] == r[k]);
            }
        }
    }
}

proof fn lemma_last_from(s: Seq<u8>, c: u8, i0: int)
    requires
        0 <= i0 < s.len(),
        s[i0] == c,
    ensures
        exists|i: int| 0 <= i < s.len() && s[i] == c && forall|j: int| i < j < s.len() ==> s[j] != c,
    decreases s.len() - i0,
{
    if exists|j: int| i0 < j < s.len() && s[j] == c {
        let j = choose|j: int| i0 < j < s.len() && s[j] == c;
        lemma_last_from(s, c, j);
    } else {
        assert(forall|j: int| i0 < j < s.len() ==> s[j] != c);
    }
}

proof fn lemma_rfind(s: Seq<u8>, c: u8)
    ensures
        rfind(s, c) matches Some(p) ==> 0 <= p < s.len() && s[p] == c && forall|j: int| p < j < s.len() ==> s[j] != c,
{
    if contains_byte(s, c) {
        let i0 = choose|i: int| 0 <= i < s.len() && s[i] == c;
        lemma_last_from(s, c, i0);
    }
}

/// The fields of a stat line all come after the last `)` of the line, which ends the
/// command name: none is empty, none holds a space, and none holds a `)` (a command
/// name that holds `)` does not shift them).
pub proof fn stat_fields_follow_the_last_paren(data: Seq<u8>)
    ensures
        stat_split(data) matches Some((name, t)) ==> forall|k: int|
            0 <= k < t.len() ==> (#[trigger] t[k]).len() > 0 && !contains_byte(t[k], 0x20u8) && !contains_byte(t[k], 0x29u8),
{
    let k0 = find_from(data, 0x20u8, 0);
    if k0 < data.len() {
        let rest = data.subrange(k0 + 1, data.len() as int);
        lemma_rfind(rest, 0x29u8);
        if let Some(pos) = rfind(rest, 0x29u8) {
            let tail = rest.subrange(pos + 1, rest.len() as int);
            assert(!contains_byte(tail.subrange(0, tail.len() as int), 0x29u8)) by {
                assert(tail.subrange(0, tail.len() as int) =~= tail);
                if contains_byte(tail, 0x29u8) {
                    let m = choose|m: int| 0 <= m < tail.len() && tail[m] == 0x29u8;
                    assert(rest[pos + 1 + m] == 0x29u8);
                }
            }
            lemma_fields_from_bytes(tail, 0x20u8, 0, 0x29u8);
            lemma_nonempty_pieces_from(split_on(tail, 0x20u8));
            let f = split_on(tail, 0x20u8);
            let t = nonempty_pieces(f);
            assert forall|k: int| 0 <= k < t.len() implies (#[trigger] t[k]).len() > 0 && !contains_byte(t[k], 0x20u8)
                && !contains_byte(t[k], 0x29u8) by {
                let j = choose|j: int| 0 <= j < f.len() && f[j] == t[k];
                assert(f[j] == fields_from(tail, 0x20u8, 0)[j]);
            }
        }
    }
}

} // verus!
