//! System facts of Linux read from text: the distribution's name and version
//! (`/etc/os-release`, `/etc/lsb-release`), the uptime, the boot time, the memory
//! figures of `/proc/meminfo`, and strings of `uname` and `gethostname`.
use vstd::prelude::*;
use vstd::string::StringExecFns;
use vstd::utf8::{valid_utf8, decode_utf8};
use crate::text::{
    views, spec_lines, lines, split_on, split_bytes, nonempty_pieces, nonempty_split, copy_range,
    starts_with_at, spec_parse_u64, parse_u64_range, find_from, lemma_find_from, find_byte_from,
    is_valid_utf8, string_from_utf8, bytes_eq,
};
use crate::stat::{nb_value, nb_fits, slice_to_nb};
use crate::cgroup::{sat_mul, saturating_mul};

verus! {

// ---------------------------------------------------------------------------
// Distribution
// ---------------------------------------------------------------------------

/// What to read of the distribution.
#[derive(Clone, Copy, Debug, PartialEq, Eq, Structural)]
pub enum InfoType {
    /// The distribution's name.
    Name,
    /// Its version.
    OsVersion,
    /// Its machine-readable id.
    DistributionID,
}

/// The key of `/etc/os-release` for `info`.
pub open spec fn os_release_key(info: InfoType) -> Seq<u8> {
    match info {
        InfoType::Name => seq![0x4eu8, 0x41u8, 0x4du8, 0x45u8, 0x3du8],
        InfoType::OsVersion => seq![0x56u8, 0x45u8, 0x52u8, 0x53u8, 0x49u8, 0x4fu8, 0x4eu8, 0x5fu8, 0x49u8, 0x44u8, 0x3du8],
        InfoType::DistributionID => seq![0x49u8, 0x44u8, 0x3du8],
    }
}

/// The key of `/etc/lsb-release` for `info`, which has none for the distribution id.
pub open spec fn lsb_release_key(info: InfoType) -> Option<Seq<u8>> {
    match info {
        InfoType::Name => Some(seq![0x44u8, 0x49u8, 0x53u8, 0x54u8, 0x52u8, 0x49u8, 0x42u8, 0x5fu8, 0x49u8, 0x44u8, 0x3du8]),
        InfoType::OsVersion => Some(seq![0x44u8, 0x49u8, 0x53u8, 0x54u8, 0x52u8, 0x49u8, 0x42u8, 0x5fu8, 0x52u8, 0x45u8, 0x4cu8, 0x45u8, 0x41u8, 0x53u8, 0x45u8, 0x3du8]),
        InfoType::DistributionID => None,
    }
}

/// `s` without its `"` bytes.
pub open spec fn without_quotes(s: Seq<u8>) -> Seq<u8>
    decreases s.len(),
{
    if s.len() == 0 {
        seq![]
    } else if s.last() == 0x22u8 {
        without_quotes(s.drop_last())
    } else {
        without_quotes(s.drop_last()).push(s.last())
    }
}

/// The value of the first line of `ls[i..]` that starts with `key`, without its quotes.
pub open spec fn keyed_value(ls: Seq<Seq<u8>>, i: int, key: Seq<u8>) -> Option<Seq<u8>>
    decreases ls.len() - i,
{
    if i < 0 || i >= ls.len() {
        None
    } else if key.len() <= ls[i].len() && ls[i].subrange(0, key.len() as int) == key {
        Some(without_quotes(ls[i].subrange(key.len() as int, ls[i].len() as int)))
    } else {
        keyed_value(ls, i + 1, key)
    }
}

/// The value for `key` in a `KEY=value` file, when its text was read and is UTF-8.
pub open spec fn file_value(content: Option<Seq<u8>>, key: Seq<u8>) -> Option<Seq<u8>> {
    match content {
        Some(c) => if valid_utf8(c) {
            keyed_value(spec_lines(c), 0, key)
        } else {
            None
        },
        None => None,
    }
}

/// What the distribution files say of `info`: the value in `/etc/os-release`, or else
/// the one in `/etc/lsb-release` (`None` when a file could not be read).
pub open spec fn spec_system_info(info: InfoType, os_release: Option<Seq<u8>>, lsb_release: Option<Seq<u8>>) -> Option<Seq<u8>> {
    match file_value(os_release, os_release_key(info)) {
        Some(v) => Some(v),
        None => match lsb_release_key(info) {
            Some(k) => file_value(lsb_release, k),
            None => None,
        },
    }
}

fn remove_quotes(s: &[u8]) -> (r: Vec<u8>)
    ensures
        r@ == without_quotes(s@),
{
    let mut out: Vec<u8> = Vec::new();
    let mut i: usize = 0;
    while i < s.len()
        invariant
            i <= s@.len(),
            out@ == without_quotes(s@.take(i as int)),
        decreases s@.len() - i,
    {
        proof {
            assert(s@.take(i + 1).drop_last() =~= s@.take(i as int));
            assert(s@.take(i + 1).last() == s@[i as int]);
        }
        if s[i] != 0x22 {
            out.push(s[i]);
        }
        i = i + 1;
    }
    proof {
        assert(s@.take(s@.len() as int) =~= s@);
    }
    out
}

fn value_in(content: Option<&[u8]>, key: &[u8]) -> (r: Option<Vec<u8>>)
    ensures
        crate::path::opt_bytes(r) == file_value(
            match content {
                Some(c) => Some(c@),
                None => None,
            },
            key@,
        ),
{
    let c = match content {
        Some(c) => c,
        None => return None,
    };
    if !is_valid_utf8(c) {
        return None;
    }
    let ls = lines(c);
    let ghost l = views(ls@);
    let mut i: usize = 0;
    while i < ls.len()
        invariant
            i <= ls@.len(),
            l == views(ls@),
            l == spec_lines(c@),
            valid_utf8(c@),
            content == Some(c),
            keyed_value(l, i as int, key@) == keyed_value(l, 0, key@),
        decreases ls@.len() - i,
    {
        let line = ls[i].as_slice();
        assert(line@ == l[i as int]);
        if starts_with_at(line, 0, key) {
            let rest = copy_range(line, key.len(), line.len());
            return Some(remove_quotes(rest.as_slice()));
        }
        i = i + 1;
    }
    None
}

/// The characters of an optional string.
pub open spec fn opt_chars(s: Option<String>) -> Option<Seq<char>> {
    match s {
        Some(x) => Some(x@),
        None => None,
    }
}

/// Text as characters, when it is UTF-8.
pub open spec fn decoded(b: Option<Seq<u8>>) -> Option<Seq<char>> {
    match b {
        Some(x) => if valid_utf8(x) {
            Some(decode_utf8(x))
        } else {
            None
        },
        None => None,
    }
}

/// The distribution's name, version or id, from the texts of `/etc/os-release` and
/// `/etc/lsb-release` (`None` for a file that could not be read).
pub fn get_system_info_linux(info: InfoType, os_release: Option<&[u8]>, lsb_release: Option<&[u8]>) -> (r: Option<String>)
    ensures
        opt_chars(r) == decoded(spec_system_info(
            info,
            match os_release {
                Some(c) => Some(c@),
                None => None,
            },
            match lsb_release {
                Some(c) => Some(c@),
                None => None,
            },
        )),
{
    let name: [u8; 5] = [0x4e, 0x41, 0x4d, 0x45, 0x3d];
    let version: [u8; 11] = [0x56, 0x45, 0x52, 0x53, 0x49, 0x4f, 0x4e, 0x5f, 0x49, 0x44, 0x3d];
    let id: [u8; 3] = [0x49, 0x44, 0x3d];
    let dname: [u8; 11] = [0x44, 0x49, 0x53, 0x54, 0x52, 0x49, 0x42, 0x5f, 0x49, 0x44, 0x3d];
    let drelease: [u8; 16] = [0x44, 0x49, 0x53, 0x54, 0x52, 0x49, 0x42, 0x5f, 0x52, 0x45, 0x4c, 0x45, 0x41, 0x53, 0x45, 0x3d];
    proof {
        assert(name@ =~= seq![0x4eu8, 0x41u8, 0x4du8, 0x45u8, 0x3du8]);
        assert(version@ =~= seq![0x56u8, 0x45u8, 0x52u8, 0x53u8, 0x49u8, 0x4fu8, 0x4eu8, 0x5fu8, 0x49u8, 0x44u8, 0x3du8]);
        assert(id@ =~= seq![0x49u8, 0x44u8, 0x3du8]);
        assert(dname@ =~= seq![0x44u8, 0x49u8, 0x53u8, 0x54u8, 0x52u8, 0x49u8, 0x42u8, 0x5fu8, 0x49u8, 0x44u8, 0x3du8]);
        assert(drelease@ =~= seq![0x44u8, 0x49u8, 0x53u8, 0x54u8, 0x52u8, 0x49u8, 0x42u8, 0x5fu8, 0x52u8, 0x45u8, 0x4cu8, 0x45u8, 0x41u8, 0x53u8, 0x45u8, 0x3du8]);
    }
    let key: &[u8] = match info {
        InfoType::Name => name.as_slice(),
        InfoType::OsVersion => version.as_slice(),
        InfoType::DistributionID => id.as_slice(),
    };
    let found = match value_in(os_release, key) {
        Some(v) => Some(v),
        None => {
            let fallback: Option<&[u8]> = match info {
                InfoType::Name => Some(dname.as_slice()),
                InfoType::OsVersion => Some(drelease.as_slice()),
                InfoType::DistributionID => None,
            };
            match fallback {
                Some(k) => value_in(lsb_release, k),
                None => None,
            }
        },
    };
    match found {
        Some(v) => string_from_utf8(v),
        None => None,
    }
}

// ---------------------------------------------------------------------------
// Uptime and boot time
// ---------------------------------------------------------------------------

/// The uptime in seconds that `/proc/uptime` gives: the number before its first `.`,
/// 0 when it is not one (or the text is not UTF-8).
pub open spec fn spec_uptime(content: Seq<u8>) -> u64 {
    if !valid_utf8(content) {
        0
    } else {
        match spec_parse_u64(split_on(content, 0x2eu8)[0]) {
            Some(v) => v,
            None => 0,
        }
    }
}

/// Reads the uptime from the text of `/proc/uptime`.
pub fn uptime_from(content: &[u8]) -> (r: u64)
    ensures
        r == spec_uptime(content@),
{
    if !is_valid_utf8(content) {
        return 0;
    }
    let pieces = split_bytes(content, 0x2e);
    let first = pieces[0].as_slice();
    assert(first@ == split_on(content@, 0x2eu8)[0]);
    match parse_u64_range(first, 0, first.len()) {
        Some(v) => {
            proof {
                assert(first@.subrange(0, first@.len() as int) =~= first@);
            }
            v
        },
        None => {
            proof {
                assert(first@.subrange(0, first@.len() as int) =~= first@);
            }
            0
        },
    }
}

/// Reads a string of digits without checks (the bytes must be digits, or at least
/// not below `0`, and the value must fit in 64 bits).
pub fn to_u64(v: &[u8]) -> (r: u64)
    requires
        nb_fits(v@),
    ensures
        r == nb_value(v@),
{
    slice_to_nb(v)
}

/// `btime`.
pub open spec fn btime_key() -> Seq<u8> {
    seq![0x62u8, 0x74u8, 0x69u8, 0x6du8, 0x65u8]
}

/// The first line of `ls[i..]` that starts with `btime`, if any.
pub open spec fn btime_line(ls: Seq<Seq<u8>>, i: int) -> Option<Seq<u8>>
    decreases ls.len() - i,
{
    if i < 0 || i >= ls.len() {
        None
    } else if 5 <= ls[i].len() && ls[i].subrange(0, 5) == btime_key() {
        Some(ls[i])
    } else {
        btime_line(ls, i + 1)
    }
}

/// The boot time that `/proc/stat` gives: the second field of its `btime` line (0
/// when missing); `None` when there is no such line. The field is read without
/// checks (see `spec_boot_time_panics`).
pub open spec fn spec_boot_time(content: Seq<u8>) -> Option<u64> {
    match btime_line(split_on(content, 0x0au8), 0) {
        None => None,
        Some(line) => {
            let f = nonempty_pieces(split_on(line, 0x20u8));
            if f.len() >= 2 {
                Some(nb_value(f[1]) as u64)
            } else {
                Some(0)
            }
        },
    }
}

/// Whether reading the boot time panics: the field has a byte below `0` or a value
/// past 64 bits.
pub open spec fn spec_boot_time_panics(content: Seq<u8>) -> bool {
    match btime_line(split_on(content, 0x0au8), 0) {
        None => false,
        Some(line) => {
            let f = nonempty_pieces(split_on(line, 0x20u8));
            f.len() >= 2 && !nb_fits(f[1])
        },
    }
}

/// The boot time from the contents of `/proc/stat` (`None` when it has no `btime`
/// line: the clock then gives it).
pub fn boot_time_from_stat(content: &[u8]) -> (r: Option<u64>)
    requires
        !spec_boot_time_panics(content@),
    ensures
        r == spec_boot_time(content@),
{
    let ls = split_bytes(content, 0x0a);
    let ghost l = views(ls@);
    let key: [u8; 5] = [0x62, 0x74, 0x69, 0x6d, 0x65];
    assert(key@ =~= btime_key());
    let mut i: usize = 0;
    while i < ls.len()
        invariant
            i <= ls@.len(),
            l == views(ls@),
            l == split_on(content@, 0x0au8),
            key@ == btime_key(),
            !spec_boot_time_panics(content@),
            btime_line(l, i as int) == btime_line(l, 0),
        decreases ls@.len() - i,
    {
        let line = ls[i].as_slice();
        assert(line@ == l[i as int]);
        if starts_with_at(line, 0, key.as_slice()) {
            let f = nonempty_split(line, 0x20);
            if f.len() >= 2 {
                assert(f@[1]@ == nonempty_pieces(split_on(line@, 0x20u8))[1]);
                return Some(to_u64(f[1].as_slice()));
            }
            return Some(0);
        }
        i = i + 1;
    }
    None
}

/// Whether reading the boot time from `content` would panic (callers test it first).
pub fn boot_time_would_panic(content: &[u8]) -> (r: bool)
    ensures
        r == spec_boot_time_panics(content@),
{
    let ls = split_bytes(content, 0x0a);
    let ghost l = views(ls@);
    let key: [u8; 5] = [0x62, 0x74, 0x69, 0x6d, 0x65];
    assert(key@ =~= btime_key());
    let mut i: usize = 0;
    while i < ls.len()
        invariant
            i <= ls@.len(),
            l == views(ls@),
            l == split_on(content@, 0x0au8),
            key@ == btime_key(),
            btime_line(l, i as int) == btime_line(l, 0),
        decreases ls@.len() - i,
    {
        let line = ls[i].as_slice();
        assert(line@ == l[i as int]);
        if starts_with_at(line, 0, key.as_slice()) {
            let f = nonempty_split(line, 0x20);
            if f.len() >= 2 {
                assert(f@[1]@ == nonempty_pieces(split_on(line@, 0x20u8))[1]);
                return !crate::stat::nb_fits_exec(f[1].as_slice());
            }
            return false;
        }
        i = i + 1;
    }
    false
}

// ---------------------------------------------------------------------------
// C strings
// ---------------------------------------------------------------------------

/// The bytes of `b` before its first NUL, if it holds one.
pub open spec fn before_nul(b: Seq<u8>) -> Option<Seq<u8>> {
    let k = find_from(b, 0u8, 0);
    if k < b.len() {
        Some(b.subrange(0, k))
    } else {
        None
    }
}

/// The machine name of `uname` (its `machine` field): the text before the first NUL,
/// when there is one and the text is UTF-8.
pub fn cpu_arch_from(machine: &[u8]) -> (r: Option<String>)
    ensures
        opt_chars(r) == decoded(before_nul(machine@)),
{
    let k = find_byte_from(machine, 0, 0);
    proof {
        lemma_find_from(machine@, 0u8, 0);
    }
    if k >= machine.len() {
        return None;
    }
    string_from_utf8(copy_range(machine, 0, k))
}

/// The host name that `gethostname` wrote in `buffer`: the text before the first NUL
/// (all of it when there is none), when it is UTF-8.
pub fn host_name_from(buffer: &[u8]) -> (r: Option<String>)
    ensures
        opt_chars(r) == decoded(Some(
            match before_nul(buffer@) {
                Some(p) => p,
                None => buffer@,
            },
        )),
{
    let k = find_byte_from(buffer, 0, 0);
    proof {
        lemma_find_from(buffer@, 0u8, 0);
        assert(buffer@.subrange(0, buffer@.len() as int) =~= buffer@);
    }
    string_from_utf8(copy_range(buffer, 0, k))
}

// ---------------------------------------------------------------------------
// Memory
// ---------------------------------------------------------------------------

/// The memory figures of the system, in bytes.
#[derive(Clone, Copy, Debug, Default, PartialEq, Eq, Structural)]
pub struct MemoryInfo {
    pub mem_total: u64,
    pub mem_free: u64,
    pub mem_available: u64,
    pub mem_buffers: u64,
    pub mem_page_cache: u64,
    pub mem_shmem: u64,
    pub mem_slab_reclaimable: u64,
    pub swap_total: u64,
    pub swap_free: u64,
}

/// Which memory figures a refresh updates.
#[derive(Clone, Copy, Debug)]
pub struct MemoryRefreshKind {
    pub ram: bool,
    pub swap: bool,
}

/// The figures after one `/proc/meminfo` entry: a known key sets its figure to the
/// value in KiB times 1024 (saturating); `MemAvailable` is noted as found.
pub open spec fn meminfo_step(m: MemoryInfo, key: Seq<u8>, v: u64) -> MemoryInfo {
    let b = sat_mul(v, 1024);
    if key == seq![0x4du8, 0x65u8, 0x6du8, 0x54u8, 0x6fu8, 0x74u8, 0x61u8, 0x6cu8] {
        MemoryInfo { mem_total: b, ..m }
    } else if key == seq![0x4du8, 0x65u8, 0x6du8, 0x46u8, 0x72u8, 0x65u8, 0x65u8] {
        MemoryInfo { mem_free: b, ..m }
    } else if key == seq![0x4du8, 0x65u8, 0x6du8, 0x41u8, 0x76u8, 0x61u8, 0x69u8, 0x6cu8, 0x61u8, 0x62u8, 0x6cu8, 0x65u8] {
        MemoryInfo { mem_available: b, ..m }
    } else if key == seq![0x42u8, 0x75u8, 0x66u8, 0x66u8, 0x65u8, 0x72u8, 0x73u8] {
        MemoryInfo { mem_buffers: b, ..m }
    } else if key == seq![0x43u8, 0x61u8, 0x63u8, 0x68u8, 0x65u8, 0x64u8] {
        MemoryInfo { mem_page_cache: b, ..m }
    } else if key == seq![0x53u8, 0x68u8, 0x6du8, 0x65u8, 0x6du8] {
        MemoryInfo { mem_shmem: b, ..m }
    } else if key == seq![0x53u8, 0x52u8, 0x65u8, 0x63u8, 0x6cu8, 0x61u8, 0x69u8, 0x6du8, 0x61u8, 0x62u8, 0x6cu8, 0x65u8] {
        MemoryInfo { mem_slab_reclaimable: b, ..m }
    } else if key == seq![0x53u8, 0x77u8, 0x61u8, 0x70u8, 0x54u8, 0x6fu8, 0x74u8, 0x61u8, 0x6cu8] {
        MemoryInfo { swap_total: b, ..m }
    } else if key == seq![0x53u8, 0x77u8, 0x61u8, 0x70u8, 0x46u8, 0x72u8, 0x65u8, 0x65u8] {
        MemoryInfo { swap_free: b, ..m }
    } else {
        m
    }
}

/// The figures after the entries `es` in turn.
pub open spec fn meminfo_fold(m: MemoryInfo, es: Seq<(Seq<u8>, u64)>) -> MemoryInfo
    decreases es.len(),
{
    if es.len() == 0 {
        m
    } else {
        meminfo_step(meminfo_fold(m, es.drop_last()), es.last().0, es.last().1)
    }
}

/// Whether the entries `es` hold `MemAvailable`.
pub open spec fn has_available(es: Seq<(Seq<u8>, u64)>) -> bool {
    exists|i: int| 0 <= i < es.len() && (#[trigger] es[i]).0 == seq![0x4du8, 0x65u8, 0x6du8, 0x41u8, 0x76u8, 0x61u8, 0x69u8, 0x6cu8, 0x61u8, 0x62u8, 0x6cu8, 0x65u8]
}

/// `a + b`, or `u64::MAX` when that overflows.
pub open spec fn sat_add(a: u64, b: u64) -> u64 {
    if a + b > u64::MAX {
        u64::MAX
    } else {
        (a + b) as u64
    }
}

/// `a - b`, or 0 when that goes below 0.
pub open spec fn sat_sub(a: u64, b: u64) -> u64 {
    if a < b {
        0
    } else {
        (a - b) as u64
    }
}

/// The estimate of the available memory for kernels whose `/proc/meminfo` has no
/// `MemAvailable`: free, buffers, page cache and reclaimable slab, less shared memory.
pub open spec fn estimated_available(m: MemoryInfo) -> u64 {
    sat_sub(sat_add(sat_add(sat_add(m.mem_free, m.mem_buffers), m.mem_page_cache), m.mem_slab_reclaimable), m.mem_shmem)
}

/// The figures after a refresh that read the entries `es` of `/proc/meminfo`.
pub open spec fn refreshed_memory(m: MemoryInfo, es: Seq<(Seq<u8>, u64)>) -> MemoryInfo {
    let f = meminfo_fold(m, es);
    if has_available(es) {
        f
    } else {
        MemoryInfo { mem_available: estimated_available(f), ..f }
    }
}

fn meminfo_entry(m: &mut MemoryInfo, key: &[u8], v: u64) -> (found_available: bool)
    ensures
        *final(m) == meminfo_step(*old(m), key@, v),
        found_available == (key@ == seq![0x4du8, 0x65u8, 0x6du8, 0x41u8, 0x76u8, 0x61u8, 0x69u8, 0x6cu8, 0x61u8, 0x62u8, 0x6cu8, 0x65u8]),
{
    let k0: [u8; 8] = [0x4d, 0x65, 0x6d, 0x54, 0x6f, 0x74, 0x61, 0x6c];
    let k1: [u8; 7] = [0x4d, 0x65, 0x6d, 0x46, 0x72, 0x65, 0x65];
    let k2: [u8; 12] = [0x4d, 0x65, 0x6d, 0x41, 0x76, 0x61, 0x69, 0x6c, 0x61, 0x62, 0x6c, 0x65];
    let k3: [u8; 7] = [0x42, 0x75, 0x66, 0x66, 0x65, 0x72, 0x73];
    let k4: [u8; 6] = [0x43, 0x61, 0x63, 0x68, 0x65, 0x64];
    let k5: [u8; 5] = [0x53, 0x68, 0x6d, 0x65, 0x6d];
    let k6: [u8; 12] = [0x53, 0x52, 0x65, 0x63, 0x6c, 0x61, 0x69, 0x6d, 0x61, 0x62, 0x6c, 0x65];
    let k7: [u8; 9] = [0x53, 0x77, 0x61, 0x70, 0x54, 0x6f, 0x74, 0x61, 0x6c];
    let k8: [u8; 8] = [0x53, 0x77, 0x61, 0x70, 0x46, 0x72, 0x65, 0x65];
    proof {
        assert(k0@ =~= seq![0x4du8, 0x65u8, 0x6du8, 0x54u8, 0x6fu8, 0x74u8, 0x61u8, 0x6cu8]);
        assert(k1@ =~= seq![0x4du8, 0x65u8, 0x6du8, 0x46u8, 0x72u8, 0x65u8, 0x65u8]);
        assert(k2@ =~= seq![0x4du8, 0x65u8, 0x6du8, 0x41u8, 0x76u8, 0x61u8, 0x69u8, 0x6cu8, 0x61u8, 0x62u8, 0x6cu8, 0x65u8]);
        assert(k3@ =~= seq![0x42u8, 0x75u8, 0x66u8, 0x66u8, 0x65u8, 0x72u8, 0x73u8]);
        assert(k4@ =~= seq![0x43u8, 0x61u8, 0x63u8, 0x68u8, 0x65u8, 0x64u8]);
        assert(k5@ =~= seq![0x53u8, 0x68u8, 0x6du8, 0x65u8, 0x6du8]);
        assert(k6@ =~= seq![0x53u8, 0x52u8, 0x65u8, 0x63u8, 0x6cu8, 0x61u8, 0x69u8, 0x6du8, 0x61u8, 0x62u8, 0x6cu8, 0x65u8]);
        assert(k7@ =~= seq![0x53u8, 0x77u8, 0x61u8, 0x70u8, 0x54u8, 0x6fu8, 0x74u8, 0x61u8, 0x6cu8]);
        assert(k8@ =~= seq![0x53u8, 0x77u8, 0x61u8, 0x70u8, 0x46u8, 0x72u8, 0x65u8, 0x65u8]);
    }
    let b = saturating_mul(v, 1024);
    if bytes_eq(key, k0.as_slice()) {
        m.mem_total = b;
    } else if bytes_eq(key, k1.as_slice()) {
        m.mem_free = b;
    } else if bytes_eq(key, k2.as_slice()) {
        m.mem_available = b;
    } else if bytes_eq(key, k3.as_slice()) {
        m.mem_buffers = b;
    } else if bytes_eq(key, k4.as_slice()) {
        m.mem_page_cache = b;
    } else if bytes_eq(key, k5.as_slice()) {
        m.mem_shmem = b;
    } else if bytes_eq(key, k6.as_slice()) {
        m.mem_slab_reclaimable = b;
    } else if bytes_eq(key, k7.as_slice()) {
        m.swap_total = b;
    } else if bytes_eq(key, k8.as_slice()) {
        m.swap_free = b;
    }
    bytes_eq(key, k2.as_slice())
}

/// Entries of a table as plain values.
pub open spec fn entries_view(es: Seq<(Vec<u8>, u64)>) -> Seq<(Seq<u8>, u64)> {
    es.map_values(|e: (Vec<u8>, u64)| (e.0@, e.1))
}

impl MemoryInfo {
    /// Refreshes the figures from the entries of `/proc/meminfo` (read with
    /// `cgroup::read_table`), unless the refresh asks for neither RAM nor swap.
    pub fn refresh_memory_specifics(&mut self, kind: MemoryRefreshKind, entries: &[(Vec<u8>, u64)])
        ensures
            !kind.ram && !kind.swap ==> *final(self) == *old(self),
            kind.ram || kind.swap ==> *final(self) == refreshed_memory(*old(self), entries_view(entries@)),
    {
        if !kind.ram && !kind.swap {
            return;
        }
        let ghost ev = entries_view(entries@);
        let ghost start = *self;
        let mut found = false;
        let mut i: usize = 0;
        while i < entries.len()
            invariant
                i <= entries@.len(),
                ev == entries_view(entries@),
                *self == meminfo_fold(start, ev.take(i as int)),
                found == has_available(ev.take(i as int)),
            decreases entries@.len() - i,
        {
            proof {
                assert(ev.take(i + 1).drop_last() =~= ev.take(i as int));
                assert(ev.take(i + 1).last() == ev[i as int]);
                assert(ev[i as int] == (entries@[i as int].0@, entries@[i as int].1));
            }
            let f = meminfo_entry(self, entries[i].0.as_slice(), entries[i].1);
            proof {
                if f {
                    assert(ev.take(i + 1)[i as int].0 == seq![0x4du8, 0x65u8, 0x6du8, 0x41u8, 0x76u8, 0x61u8, 0x69u8, 0x6cu8, 0x61u8, 0x62u8, 0x6cu8, 0x65u8]);
                }
                if has_available(ev.take(i + 1)) && !found {
                    let j = choose|j: int| 0 <= j < i + 1 && (#[trigger] ev.take(i + 1)[j]).0 == seq![0x4du8, 0x65u8, 0x6du8, 0x41u8, 0x76u8, 0x61u8, 0x69u8, 0x6cu8, 0x61u8, 0x62u8, 0x6cu8, 0x65u8];
                    if j < i {
                        assert(ev.take(i as int)[j] == ev.take(i + 1)[j]);
                    }
                }
                if found {
                    let j = choose|j: int| 0 <= j < i && (#[trigger] ev.take(i as int)[j]).0 == seq![0x4du8, 0x65u8, 0x6du8, 0x41u8, 0x76u8, 0x61u8, 0x69u8, 0x6cu8, 0x61u8, 0x62u8, 0x6cu8, 0x65u8];
                    assert(ev.take(i + 1)[j] == ev.take(i as int)[j]);
                }
            }
            found = found || f;
            i = i + 1;
        }
        proof {
            assert(ev.take(entries@.len() as int) =~= ev);
        }
        if !found {
            self.mem_available = sat_sub_exec(
                self.mem_free.saturating_add(self.mem_buffers).saturating_add(self.mem_page_cache).saturating_add(
                    self.mem_slab_reclaimable,
                ),
                self.mem_shmem,
            );
        }
    }

    /// The total memory.
    pub fn total_memory(&self) -> (r: u64)
        ensures
            r == self.mem_total,
    {
        self.mem_total
    }

    /// The free memory.
    pub fn free_memory(&self) -> (r: u64)
        ensures
            r == self.mem_free,
    {
        self.mem_free
    }

    /// The available memory.
    pub fn available_memory(&self) -> (r: u64)
        ensures
            r == self.mem_available,
    {
        self.mem_available
    }

    /// The used memory: total less available (the subtraction panics when the available
    /// memory is the larger).
    pub fn used_memory(&self) -> (r: u64)
        requires
            self.mem_available <= self.mem_total,
        ensures
            r == self.mem_total - self.mem_available,
    {
        self.mem_total - self.mem_available
    }

    /// The total swap.
    pub fn total_swap(&self) -> (r: u64)
        ensures
            r == self.swap_total,
    {
        self.swap_total
    }

    /// The free swap.
    pub fn free_swap(&self) -> (r: u64)
        ensures
            r == self.swap_free,
    {
        self.swap_free
    }

    /// The used swap: total less free (the subtraction panics when the free swap is
    /// the larger).
    pub fn used_swap(&self) -> (r: u64)
        requires
            self.swap_free <= self.swap_total,
        ensures
            r == self.swap_total - self.swap_free,
    {
        self.swap_total - self.swap_free
    }
}

fn sat_sub_exec(a: u64, b: u64) -> (r: u64)
    ensures
        r == sat_sub(a, b),
{
    a.saturating_sub(b)
}

/// The cgroup limits of the whole system as the files under `/sys/fs/cgroup` give
/// them: total memory, free memory and free swap.
#[derive(Clone, Copy, Debug, PartialEq, Eq, Structural)]
pub struct SystemCGroupLimits {
    pub total_memory: u64,
    pub free_memory: u64,
    pub free_swap: u64,
}

/// The limits from the numbers read: cgroups v2 (`memory.current`, `memory.max`,
/// `memory.swap.current`) when both of the first two were read, else cgroups v1
/// (`memory.usage_in_bytes`, `memory.limit_in_bytes`), else none.
pub open spec fn spec_system_limits(
    m: MemoryInfo,
    v2_current: Option<u64>,
    v2_max: Option<u64>,
    v2_swap_current: Option<u64>,
    v1_usage: Option<u64>,
    v1_limit: Option<u64>,
) -> Option<SystemCGroupLimits> {
    if v2_current is Some && v2_max is Some {
        let total = if v2_max->0 < m.mem_total { v2_max->0 } else { m.mem_total };
        Some(SystemCGroupLimits {
            total_memory: total,
            free_memory: sat_sub(total, v2_current->0),
            free_swap: match v2_swap_current {
                Some(s) => sat_sub(m.swap_total, s),
                None => m.swap_free,
            },
        })
    } else if v1_usage is Some && v1_limit is Some {
        let total = if v1_limit->0 < m.mem_total { v1_limit->0 } else { m.mem_total };
        Some(SystemCGroupLimits { total_memory: total, free_memory: sat_sub(total, v1_usage->0), free_swap: m.swap_free })
    } else {
        None
    }
}

/// The cgroup limits of the system from the memory figures and the cgroup files
/// read (`None` for one that could not be read). The memory figures must have been
/// refreshed: a total of 0 is refused with a panic.
pub fn system_cgroup_limits(
    m: &MemoryInfo,
    v2_current: Option<u64>,
    v2_max: Option<u64>,
    v2_swap_current: Option<u64>,
    v1_usage: Option<u64>,
    v1_limit: Option<u64>,
) -> (r: Option<SystemCGroupLimits>)
    requires
        m.mem_total != 0,
    ensures
        r == spec_system_limits(*m, v2_current, v2_max, v2_swap_current, v1_usage, v1_limit),
{
    if let (Some(cur), Some(max)) = (v2_current, v2_max) {
        let total = if max < m.mem_total { max } else { m.mem_total };
        let free_swap = match v2_swap_current {
            Some(s) => sat_sub_exec(m.swap_total, s),
            None => m.swap_free,
        };
        return Some(SystemCGroupLimits { total_memory: total, free_memory: sat_sub_exec(total, cur), free_swap });
    }
    if let (Some(usage), Some(limit)) = (v1_usage, v1_limit) {
        let total = if limit < m.mem_total { limit } else { m.mem_total };
        return Some(SystemCGroupLimits { total_memory: total, free_memory: sat_sub_exec(total, usage), free_swap: m.swap_free });
    }
    None
}

// ---------------------------------------------------------------------------
// Names
// ---------------------------------------------------------------------------

/// The text `linux`, the name of the operating system.
pub open spec fn linux_text() -> Seq<char> {
    seq!['l', 'i', 'n', 'u', 'x']
}

/// The id of the distribution: the one `/etc/os-release` gives (see
/// `get_system_info_linux`), else `linux`.
pub fn distribution_id(os_release: Option<&[u8]>) -> (r: String)
    ensures
        r@ == match decoded(spec_system_info(
            InfoType::DistributionID,
            match os_release {
                Some(c) => Some(c@),
                None => None,
            },
            None,
        )) {
            Some(t) => t,
            None => linux_text(),
        },
{
    match get_system_info_linux(InfoType::DistributionID, os_release, None) {
        Some(v) => v,
        None => {
            let r = "linux".to_owned();
            proof {
                reveal_strlit("linux");
            }
            r
        },
    }
}

/// The text of an optional string, empty when it is missing.
pub open spec fn or_empty(s: Option<String>) -> Seq<char> {
    match s {
        Some(x) => x@,
        None => seq![],
    }
}

/// The long version of the system: `Linux`, the version and the name of the
/// distribution (empty when unknown), separated by spaces.
pub fn long_os_version(os_version: Option<String>, name: Option<String>) -> (r: String)
    ensures
        r@ == seq!['L', 'i', 'n', 'u', 'x', ' '] + or_empty(os_version) + seq![' '] + or_empty(name),
{
    let mut r = "Linux ".to_owned();
    proof {
        reveal_strlit("Linux ");
        reveal_strlit(" ");
        reveal_strlit("");
    }
    match &os_version {
        Some(v) => r.append(v.as_str()),
        None => r.append(""),
    }
    r.append(" ");
    match &name {
        Some(n) => r.append(n.as_str()),
        None => r.append(""),
    }
    r
}

/// The ticks that all processors spent between two readings of their global
/// counters (`old` then `new`): 1 when the counter went back. The time available to
/// a process per processor is these ticks over the number of processors.
pub fn global_ticks(new: u64, old: u64) -> (r: u64)
    ensures
        r == (if old > new { 1 } else { new - old }),
{
    if old > new {
        1
    } else {
        new - old
    }
}

} // verus!
