//! System facts of illumos: the values of `/etc/os-release`, the memory and swap
//! figures, the physical cores, and the list of processes that a refresh keeps.
use vstd::prelude::*;
use vstd::string::{StringExecFns, StringSliceAdditionalSpecFns};
use crate::common::{Pid, Error, ProcessRefreshKind};
use crate::text::{
    views, spec_lines, lines, find_from, lemma_find_from, find_byte_from, trim, trim_range, copy_range,
    range_eq, string_from_utf8, ascii_tokens_from, ascii_tokens, spec_parse_i32, parse_i32_range,
    is_valid_utf8,
};
use crate::linux_system::{opt_chars, decoded};
use crate::cgroup::{sat_mul, saturating_mul};
use crate::psinfo::{
    ProcessInfo, ProcessInner, Fetched, PathNeeds, spec_needs, refresh_needs, initial_process, update_process,
    new_process, refreshed_process, created_process, needs,
};

verus! {

// ---------------------------------------------------------------------------
// /etc/os-release
// ---------------------------------------------------------------------------

/// `v` without one pair of surrounding double quotes, or else of single quotes.
pub open spec fn unquote(v: Seq<u8>) -> Seq<u8> {
    if v.len() >= 2 && v[0] == 0x22u8 && v.last() == 0x22u8 {
        v.subrange(1, v.len() - 1)
    } else if v.len() >= 2 && v[0] == 0x27u8 && v.last() == 0x27u8 {
        v.subrange(1, v.len() - 1)
    } else {
        v
    }
}

/// The value of the first of the lines `ls[i..]` whose name (the text before its
/// first `=`) is `key`: the text after the `=`, trimmed and unquoted.
pub open spec fn release_value_from(ls: Seq<Seq<u8>>, i: int, key: Seq<u8>) -> Option<Seq<u8>>
    decreases ls.len() - i,
{
    if i < 0 || i >= ls.len() {
        None
    } else {
        let line = ls[i];
        let k = find_from(line, 0x3du8, 0);
        if k < line.len() && line.subrange(0, k) == key {
            Some(unquote(trim(line.subrange(k + 1, line.len() as int))))
        } else {
            release_value_from(ls, i + 1, key)
        }
    }
}

/// The value of `key` in the text of `/etc/os-release`.
pub open spec fn spec_os_release_value(content: Seq<u8>, key: Seq<u8>) -> Option<Seq<u8>> {
    release_value_from(spec_lines(content), 0, key)
}

fn unquote_range(s: &[u8], a: usize, b: usize) -> (r: (usize, usize))
    requires
        a <= b <= s@.len(),
    ensures
        r.0 <= r.1 <= s@.len(),
        s@.subrange(r.0 as int, r.1 as int) == unquote(s@.subrange(a as int, b as int)),
{
    let ghost v = s@.subrange(a as int, b as int);
    if b - a >= 2 && ((s[a] == 0x22 && s[b - 1] == 0x22) || (s[a] == 0x27 && s[b - 1] == 0x27)) {
        proof {
            assert(v[0] == s@[a as int]);
            assert(v.last() == s@[b - 1]);
            assert(s@.subrange(a + 1, b - 1) =~= v.subrange(1, v.len() - 1));
        }
        (a + 1, b - 1)
    } else {
        proof {
            if v.len() >= 2 {
                assert(v[0] == s@[a as int]);
                assert(v.last() == s@[b - 1]);
            }
        }
        (a, b)
    }
}

/// The value of `key` in the text of `/etc/os-release`, when the file could be read;
/// `None` when no line names it.
pub fn os_release_value(content: &str, key: &[u8]) -> (r: Option<String>)
    ensures
        opt_chars(r) == decoded(spec_os_release_value(content.spec_bytes(), key@)),
{
    let bytes = content.as_bytes();
    let all = lines(bytes);
    let ghost l = views(all@);
    let mut i: usize = 0;
    while i < all.len()
        invariant
            i <= all@.len(),
            l == views(all@),
            l == spec_lines(bytes@),
            bytes@ == content.spec_bytes(),
            release_value_from(l, 0, key@) == release_value_from(l, i as int, key@),
        decreases all@.len() - i,
    {
        let line = all[i].as_slice();
        assert(line@ == l[i as int]);
        let k = find_byte_from(line, 0x3d, 0);
        proof {
            lemma_find_from(line@, 0x3du8, 0);
        }
        if k < line.len() && k == key.len() && range_eq(line, 0, k, key) {
            let (x, y) = trim_range(line, k + 1, line.len());
            let (u, w) = unquote_range(line, x, y);
            proof {
                assert(line@.subrange(0, k as int) =~= key@);
            }
            let v = copy_range(line, u, w);
            return string_from_utf8(v);
        }
        proof {
            if k < line@.len() && line@.subrange(0, k as int) == key@ {
                assert(k == key@.len());
            }
        }
        i = i + 1;
    }
    None
}

/// The value of `key` in `/etc/os-release`, `None` when the file could not be read.
pub fn release_value(content: Option<&str>, key: &[u8]) -> (r: Option<String>)
    ensures
        opt_chars(r) == match content {
            Some(c) => decoded(spec_os_release_value(c.spec_bytes(), key@)),
            None => None,
        },
{
    match content {
        Some(c) => os_release_value(c, key),
        None => None,
    }
}

/// The value of `key` in the optional text of `/etc/os-release`, as characters.
pub open spec fn release_chars(content: Option<&str>, key: Seq<u8>) -> Option<Seq<char>> {
    match content {
        Some(c) => decoded(spec_os_release_value(c.spec_bytes(), key)),
        None => None,
    }
}

/// `NAME`.
pub open spec fn name_key() -> Seq<u8> {
    seq![0x4eu8, 0x41u8, 0x4du8, 0x45u8]
}

/// `VERSION_ID`.
pub open spec fn version_key() -> Seq<u8> {
    seq![0x56u8, 0x45u8, 0x52u8, 0x53u8, 0x49u8, 0x4fu8, 0x4eu8, 0x5fu8, 0x49u8, 0x44u8]
}

/// `PRETTY_NAME`.
pub open spec fn pretty_key() -> Seq<u8> {
    seq![0x50u8, 0x52u8, 0x45u8, 0x54u8, 0x54u8, 0x59u8, 0x5fu8, 0x4eu8, 0x41u8, 0x4du8, 0x45u8]
}

/// `ID`.
pub open spec fn id_key() -> Seq<u8> {
    seq![0x49u8, 0x44u8]
}

/// `ID_LIKE`.
pub open spec fn id_like_key() -> Seq<u8> {
    seq![0x49u8, 0x44u8, 0x5fu8, 0x4cu8, 0x49u8, 0x4bu8, 0x45u8]
}

/// The text `illumos`.
pub open spec fn illumos_text() -> Seq<char> {
    seq!['i', 'l', 'l', 'u', 'm', 'o', 's']
}

fn illumos() -> (r: String)
    ensures
        r@ == illumos_text(),
{
    let r = "illumos".to_owned();
    proof {
        reveal_strlit("illumos");
    }
    r
}

/// The name of the system: `NAME` of `/etc/os-release`, else the system name that
/// `sysinfo(SI_SYSNAME)` gave (or its failure).
pub fn name(os_release: Option<&str>, sysname: Result<String, Error>) -> (r: Result<String, Error>)
    ensures
        match release_chars(os_release, name_key()) {
            Some(t) => r matches Ok(s) && s@ == t,
            None => r == sysname,
        },
{
    let key: [u8; 4] = [0x4e, 0x41, 0x4d, 0x45];
    assert(key@ =~= name_key());
    match release_value(os_release, key.as_slice()) {
        Some(v) => Ok(v),
        None => sysname,
    }
}

/// The version of the system: `VERSION_ID` of `/etc/os-release`, else the release that
/// `sysinfo(SI_RELEASE)` gave (or its failure).
pub fn os_version(os_release: Option<&str>, release: Result<String, Error>) -> (r: Result<String, Error>)
    ensures
        match release_chars(os_release, version_key()) {
            Some(t) => r matches Ok(s) && s@ == t,
            None => r == release,
        },
{
    let key: [u8; 10] = [0x56, 0x45, 0x52, 0x53, 0x49, 0x4f, 0x4e, 0x5f, 0x49, 0x44];
    assert(key@ =~= version_key());
    match release_value(os_release, key.as_slice()) {
        Some(v) => Ok(v),
        None => release,
    }
}

/// The long version of the system: `PRETTY_NAME` of `/etc/os-release`, else the name
/// and the version (see `name` and `os_version`) joined by a space, or the first of
/// their failures.
pub fn long_os_version(
    os_release: Option<&str>,
    name: Result<String, Error>,
    version: Result<String, Error>,
) -> (r: Result<String, Error>)
    ensures
        match release_chars(os_release, pretty_key()) {
            Some(t) => r matches Ok(s) && s@ == t,
            None => match (name, version) {
                (Ok(n), Ok(v)) => r matches Ok(s) && s@ == n@ + seq![' '] + v@,
                (Err(e), _) => r == Err::<String, Error>(e),
                (Ok(_), Err(e)) => r == Err::<String, Error>(e),
            },
        },
{
    let key: [u8; 11] = [0x50, 0x52, 0x45, 0x54, 0x54, 0x59, 0x5f, 0x4e, 0x41, 0x4d, 0x45];
    assert(key@ =~= pretty_key());
    if let Some(v) = release_value(os_release, key.as_slice()) {
        return Ok(v);
    }
    let n = match name {
        Ok(n) => n,
        Err(e) => return Err(e),
    };
    let v = match version {
        Ok(v) => v,
        Err(e) => return Err(e),
    };
    let sep = " ";
    proof {
        reveal_strlit(" ");
    }
    let joined = n.concat(sep).concat(v.as_str());
    Ok(joined)
}

/// The id of the distribution: `ID` of `/etc/os-release`, else `illumos`.
pub fn distribution_id(os_release: Option<&str>) -> (r: String)
    ensures
        r@ == distribution_chars(os_release),
{
    let key: [u8; 2] = [0x49, 0x44];
    assert(key@ =~= id_key());
    match release_value(os_release, key.as_slice()) {
        Some(v) => v,
        None => illumos(),
    }
}

/// The id of the distribution, as characters.
pub open spec fn distribution_chars(os_release: Option<&str>) -> Seq<char> {
    match release_chars(os_release, id_key()) {
        Some(t) => t,
        None => illumos_text(),
    }
}

/// The decoded text of the pieces of `ts` that are UTF-8, in order.
pub open spec fn decoded_pieces(ts: Seq<Seq<u8>>) -> Seq<Seq<char>>
    decreases ts.len(),
{
    if ts.len() == 0 {
        seq![]
    } else {
        let rest = decoded_pieces(ts.drop_last());
        match decoded(Some(ts.last())) {
            Some(c) => rest.push(c),
            None => rest,
        }
    }
}

/// The characters of each string.
pub open spec fn strings_view(v: Seq<String>) -> Seq<Seq<char>> {
    v.map_values(|s: String| s@)
}

/// The distributions this one derives from: the words of `ID_LIKE` of
/// `/etc/os-release`; without it, `illumos` unless the distribution is `illumos` itself.
pub fn distribution_id_like(os_release: Option<&str>) -> (r: Vec<String>)
    ensures
        strings_view(r@) == match os_release {
            Some(c) => match spec_os_release_value(c.spec_bytes(), id_like_key()) {
                Some(v) => if vstd::utf8::valid_utf8(v) {
                    decoded_pieces(ascii_tokens_from(v, 0))
                } else {
                    if distribution_chars(os_release) != illumos_text() {
                        seq![illumos_text()]
                    } else {
                        seq![]
                    }
                },
                None => if distribution_chars(os_release) != illumos_text() {
                    seq![illumos_text()]
                } else {
                    seq![]
                },
            },
            None => seq![],
        },
{
    let key: [u8; 7] = [0x49, 0x44, 0x5f, 0x4c, 0x49, 0x4b, 0x45];
    assert(key@ =~= id_like_key());
    let value = release_value(os_release, key.as_slice());
    match value {
        Some(v) => {
            let bytes = v.as_str().as_bytes();
            let ghost b = bytes@;
            proof {
                let c = os_release->0;
                assert(os_release is Some);
                let sv = spec_os_release_value(c.spec_bytes(), id_like_key());
                assert(sv is Some && vstd::utf8::valid_utf8(sv->0));
                assert(v@ == vstd::utf8::decode_utf8(sv->0));
                vstd::utf8::decode_utf8_encode_utf8(sv->0);
                assert(b == sv->0);
            }
            let tokens = ascii_tokens(bytes);
            let mut out: Vec<String> = Vec::new();
            let mut i: usize = 0;
            while i < tokens.len()
                invariant
                    i <= tokens@.len(),
                    views(tokens@) == ascii_tokens_from(b, 0),
                    strings_view(out@) == decoded_pieces(views(tokens@).take(i as int)),
                decreases tokens@.len() - i,
            {
                let t = copy_range(tokens[i].as_slice(), 0, tokens[i].len());
                proof {
                    assert(tokens@[i as int]@.subrange(0, tokens@[i as int]@.len() as int) =~= tokens@[i as int]@);
                    assert(views(tokens@).take(i + 1).drop_last() =~= views(tokens@).take(i as int));
                    assert(views(tokens@).take(i + 1).last() == t@);
                }
                let ghost before = strings_view(out@);
                match string_from_utf8(t) {
                    Some(s) => {
                        out.push(s);
                        proof {
                            assert(strings_view(out@) =~= before.push(s@));
                        }
                    },
                    None => {},
                }
                i = i + 1;
            }
            proof {
                assert(views(tokens@).take(tokens@.len() as int) =~= views(tokens@));
                let c = os_release->0;
                let sv = spec_os_release_value(c.spec_bytes(), id_like_key());
                assert(sv is Some);
                assert(vstd::utf8::valid_utf8(sv->0));
                assert(b == sv->0);
                assert(strings_view(out@) == decoded_pieces(ascii_tokens_from(sv->0, 0)));
            }
            out
        },
        None => {
            let id = distribution_id(os_release);
            let mut out: Vec<String> = Vec::new();
            let ill = illumos();
            if !string_eq(&id, &ill) {
                out.push(ill);
                proof {
                    assert(strings_view(out@) =~= seq![illumos_text()]);
                }
            } else {
                proof {
                    assert(strings_view(out@) =~= Seq::<Seq<char>>::empty());
                }
            }
            out
        },
    }
}

fn string_eq(a: &String, b: &String) -> (r: bool)
    ensures
        r == (a@ == b@),
{
    *a == *b
}

// ---------------------------------------------------------------------------
// Memory and swap
// ---------------------------------------------------------------------------

/// `v` when it is positive, else 0 (a `sysconf` value).
pub open spec fn non_negative(v: i64) -> u64 {
    if v < 0 {
        0
    } else {
        v as u64
    }
}

fn non_negative_exec(v: i64) -> (r: u64)
    ensures
        r == non_negative(v),
{
    if v < 0 {
        0
    } else {
        v as u64
    }
}

/// `a - b`, or 0 when `b` is the larger.
pub open spec fn sat_sub(a: u64, b: u64) -> u64 {
    if a < b {
        0
    } else {
        (a - b) as u64
    }
}

/// `a + b`, or `u64::MAX` when that overflows.
pub open spec fn sat_add(a: u64, b: u64) -> u64 {
    if a + b > u64::MAX {
        u64::MAX
    } else {
        (a + b) as u64
    }
}

/// An entry of the swap table: whether it is being deleted, and its pages in all
/// and free.
#[derive(Clone, Copy, Debug)]
pub struct SwapEntry {
    pub deleted: bool,
    pub pages: i64,
    pub free: i64,
}

/// The pages of the swap entries `es[..k]` that are not being deleted: in all and
/// free (each sum saturating).
pub open spec fn swap_sums(es: Seq<SwapEntry>, k: int) -> (u64, u64)
    decreases k,
{
    if k <= 0 {
        (0, 0)
    } else {
        let (t, f) = swap_sums(es, k - 1);
        let e = es[k - 1];
        if e.deleted {
            (t, f)
        } else {
            (sat_add(t, non_negative(e.pages)), sat_add(f, non_negative(e.free)))
        }
    }
}

/// The swap pages in all and free from the table that `swapctl(SC_LIST)` filled:
/// the first `listed` entries (at most all of them) that are not being deleted;
/// the free pages are at most all of them.
pub fn physical_swap_pages(entries: &[SwapEntry], listed: usize) -> (r: (u64, u64))
    ensures
        ({
            let k = if listed < entries@.len() { listed as int } else { entries@.len() as int };
            let (t, f) = swap_sums(entries@, k);
            r == (t, if f < t { f } else { t })
        }),
{
    let n = if listed < entries.len() { listed } else { entries.len() };
    let mut total: u64 = 0;
    let mut free: u64 = 0;
    let mut i: usize = 0;
    while i < n
        invariant
            i <= n <= entries@.len(),
            (total, free) == swap_sums(entries@, i as int),
        decreases n - i,
    {
        let e = entries[i];
        if !e.deleted {
            total = total.saturating_add(non_negative_exec(e.pages));
            free = free.saturating_add(non_negative_exec(e.free));
        }
        i = i + 1;
    }
    (total, if free < total { free } else { total })
}

/// The memory and swap figures of illumos, in bytes.
#[derive(Clone, Copy, Debug, Default, PartialEq, Eq, Structural)]
pub struct IllumosMemory {
    pub mem_total: u64,
    pub mem_free: u64,
    pub mem_used: u64,
    pub mem_available: u64,
    pub swap_total: u64,
    pub swap_used: u64,
}

/// What a refresh of the memory reads.
#[derive(Clone, Copy, Debug)]
pub struct MemoryRefreshKind {
    pub ram: bool,
    pub swap: bool,
}

impl IllumosMemory {
    /// Refreshes the figures from what `sysconf` gave (the page size, the physical
    /// pages and the available ones; negative values count as 0) and the swap pages
    /// (`None` when they could not be read: the swap figures stay).
    pub fn refresh(&mut self, kind: MemoryRefreshKind, page_size: i64, total_pages: i64, free_pages: i64, swap: Option<(u64, u64)>)
        ensures
            ({
                let ps = non_negative(page_size);
                let total = sat_mul(non_negative(total_pages), ps);
                let free = sat_mul(non_negative(free_pages), ps);
                let (st, sf) = match swap {
                    Some(p) => p,
                    None => (0u64, 0u64),
                };
                &&& kind.ram ==> final(self).mem_total == total && final(self).mem_free == free
                    && final(self).mem_available == free && final(self).mem_used == sat_sub(total, free)
                &&& !kind.ram ==> final(self).mem_total == old(self).mem_total && final(self).mem_free == old(self).mem_free
                    && final(self).mem_available == old(self).mem_available && final(self).mem_used == old(self).mem_used
                &&& (kind.swap && swap is Some) ==> final(self).swap_total == sat_mul(st, ps)
                    && final(self).swap_used == sat_mul(sat_sub(st, sf), ps)
                &&& !(kind.swap && swap is Some) ==> final(self).swap_total == old(self).swap_total
                    && final(self).swap_used == old(self).swap_used
            }),
    {
        let ps = non_negative_exec(page_size);
        if kind.ram {
            self.mem_total = saturating_mul(non_negative_exec(total_pages), ps);
            self.mem_free = saturating_mul(non_negative_exec(free_pages), ps);
            self.mem_available = self.mem_free;
            self.mem_used = self.mem_total.saturating_sub(self.mem_free);
        }
        if kind.swap {
            if let Some((total, free)) = swap {
                self.swap_total = saturating_mul(total, ps);
                self.swap_used = saturating_mul(total.saturating_sub(free), ps);
            }
        }
    }

    /// The total memory.
    pub fn total_memory(&self) -> (r: u64)
        ensures
            r == self.mem_total,
    {
        self.mem_total
    }

    /// The free memory.
    pub fn free_memory(&self) -> (r: u64)
        ensures
            r == self.mem_free,
    {
        self.mem_free
    }

    /// The available memory.
    pub fn available_memory(&self) -> (r: u64)
        ensures
            r == self.mem_available,
    {
        self.mem_available
    }

    /// The used memory.
    pub fn used_memory(&self) -> (r: u64)
        ensures
            r == self.mem_used,
    {
        self.mem_used
    }

    /// The total swap.
    pub fn total_swap(&self) -> (r: u64)
        ensures
            r == self.swap_total,
    {
        self.swap_total
    }

    /// The free swap: the total less the used (0 at least).
    pub fn free_swap(&self) -> (r: u64)
        ensures
            r == sat_sub(self.swap_total, self.swap_used),
    {
        self.swap_total.saturating_sub(self.swap_used)
    }

    /// The used swap.
    pub fn used_swap(&self) -> (r: u64)
        ensures
            r == self.swap_used,
    {
        self.swap_used
    }
}

/// The time since the boot: the seconds now less the boot time (0 at least).
pub fn uptime(now: u64, boot_time: u64) -> (r: u64)
    ensures
        r == sat_sub(now, boot_time),
{
    now.saturating_sub(boot_time)
}

// ---------------------------------------------------------------------------
// Physical cores
// ---------------------------------------------------------------------------

/// The core of a processor as its `cpu_info` record places it: its `chip_id` and
/// `core_id`, each defaulting to the processor's id.
pub open spec fn core_of(id: i32, chip: Option<u64>, core: Option<u64>) -> (u64, u64) {
    (
        match chip {
            Some(c) => c,
            None => id as u64,
        },
        match core {
            Some(c) => c,
            None => id as u64,
        },
    )
}

/// The cores of the records that could be read, in order.
pub open spec fn record_cores(rs: Seq<(i32, Option<(Option<u64>, Option<u64>)>)>) -> Seq<(u64, u64)>
    decreases rs.len(),
{
    if rs.len() == 0 {
        seq![]
    } else {
        let rest = record_cores(rs.drop_last());
        match rs.last().1 {
            Some((chip, core)) => rest.push(core_of(rs.last().0, chip, core)),
            None => rest,
        }
    }
}

/// `s` without the repetitions of an item seen before.
pub open spec fn first_seen(s: Seq<(u64, u64)>) -> Seq<(u64, u64)>
    decreases s.len(),
{
    if s.len() == 0 {
        seq![]
    } else {
        let rest = first_seen(s.drop_last());
        if rest.contains(s.last()) {
            rest
        } else {
            rest.push(s.last())
        }
    }
}

#[verifier::truncate]
fn id_as_u64(id: i32) -> (r: u64)
    ensures
        r == id as u64,
{
    id as u64
}

/// The number of physical cores from the `cpu_info` records of the possible
/// processors (`None` where a record could not be read; else its `chip_id` and
/// `core_id` integers, if any): the number of distinct cores; an error when none
/// was read.
pub fn physical_core_count(records: &[(i32, Option<(Option<u64>, Option<u64>)>)]) -> (r: Result<usize, Error>)
    ensures
        first_seen(record_cores(records@)).len() == 0 ==> r is Err,
        first_seen(record_cores(records@)).len() > 0 ==> r == Ok::<usize, Error>(first_seen(record_cores(records@)).len() as usize),
{
    let mut cores: Vec<(u64, u64)> = Vec::new();
    let mut i: usize = 0;
    while i < records.len()
        invariant
            i <= records@.len(),
            cores@ == first_seen(record_cores(records@.take(i as int))),
            cores@.len() <= i,
        decreases records@.len() - i,
    {
        let (id, rec) = records[i];
        proof {
            assert(records@.take(i + 1).drop_last() =~= records@.take(i as int));
            assert(records@.take(i + 1).last() == records@[i as int]);
        }
        if let Some((chip, core)) = rec {
            let c = (
                match chip {
                    Some(x) => x,
                    None => id_as_u64(id),
                },
                match core {
                    Some(x) => x,
                    None => id_as_u64(id),
                },
            );
            let ghost before = cores@;
            let mut seen = false;
            let mut j: usize = 0;
            while j < cores.len()
                invariant
                    j <= cores@.len(),
                    cores@ == before,
                    seen == (exists|k: int| 0 <= k < j && cores@[k] == c),
                decreases cores@.len() - j,
            {
                if cores[j].0 == c.0 && cores[j].1 == c.1 {
                    seen = true;
                }
                j = j + 1;
            }
            proof {
                if before.contains(c) {
                    let k = choose|k: int| 0 <= k < before.len() && before[k] == c;
                    assert(seen);
                }
            }
            proof {
                let rc = record_cores(records@.take(i as int));
                assert(c == core_of(id, chip, core));
                assert(record_cores(records@.take(i + 1)) == rc.push(c));
                assert(rc.push(c).drop_last() =~= rc);
            }
            if !seen {
                cores.push(c);
            }
        }
        i = i + 1;
    }
    proof {
        assert(records@.take(records@.len() as int) =~= records@);
    }
    if cores.len() == 0 {
        let msg = "failed to retrieve physical core count".to_owned();
        Err(Error::Other(msg))
    } else {
        Ok(cores.len())
    }
}

// ---------------------------------------------------------------------------
// Processes
// ---------------------------------------------------------------------------

/// The id that an entry of `/proc` names: its name read as `i32::from_str` reads it,
/// when the name is UTF-8.
pub fn pid_from_entry(name: &[u8]) -> (r: Option<Pid>)
    ensures
        r == (if vstd::utf8::valid_utf8(name@) {
            match spec_parse_i32(name@) {
                Some(v) => Some(Pid(v)),
                None => None,
            }
        } else {
            None
        }),
{
    if !is_valid_utf8(name) {
        return None;
    }
    proof {
        assert(name@.subrange(0, name@.len() as int) =~= name@);
    }
    match parse_i32_range(name, 0, name.len()) {
        Some(v) => Some(Pid(v)),
        None => None,
    }
}

/// Whether no two processes of `v` share an id.
pub open spec fn pids_distinct(v: Seq<ProcessInner>) -> bool {
    forall|a: int, b: int| 0 <= a < b < v.len() ==> v[a].pid != v[b].pid
}

/// Whether `v` holds the process `pid`.
pub open spec fn has_pid(v: Seq<ProcessInner>, pid: Pid) -> bool {
    exists|i: int| 0 <= i < v.len() && (#[trigger] v[i]).pid == pid
}

/// Whether `v` holds the process that `info` describes, started at the same time.
pub open spec fn knows(v: Seq<ProcessInner>, info: ProcessInfo) -> bool {
    exists|i: int| 0 <= i < v.len() && (#[trigger] v[i]).pid == info.pid && v[i].start_time == info.start_time
}

/// Whether `w` is the list `v` once the record `info` (with the values `f` read for it)
/// is applied at the time `now`: the known process of that id is refreshed when it is the
/// same (same start), else made anew in its place; an unknown one is appended.
pub open spec fn applied_record(
    v: Seq<ProcessInner>,
    w: Seq<ProcessInner>,
    info: ProcessInfo,
    now: u64,
    kind: ProcessRefreshKind,
    f: Fetched,
) -> bool {
    &&& has_pid(v, info.pid) ==> ({
        let i = choose|i: int| 0 <= i < v.len() && (#[trigger] v[i]).pid == info.pid;
        &&& w.len() == v.len()
        &&& forall|j: int| 0 <= j < v.len() && j != i ==> (#[trigger] w[j]) == v[j]
        &&& v[i].start_time == info.start_time ==> refreshed_process(v[i], w[i], info, now, kind, f)
        &&& v[i].start_time != info.start_time ==> created_process(w[i], info, now, kind, f)
    })
    &&& !has_pid(v, info.pid) ==> ({
        &&& w.len() == v.len() + 1
        &&& forall|j: int| 0 <= j < v.len() ==> (#[trigger] w[j]) == v[j]
        &&& created_process(w[v.len() as int], info, now, kind, f)
    })
}

/// Whether `trace` holds the lists through which the records of `records` lead, applied
/// in turn at the time `now`: a record not read leaves the list as it was.
pub open spec fn applied_records(
    trace: Seq<Seq<ProcessInner>>,
    records: Seq<Option<(ProcessInfo, Fetched)>>,
    now: u64,
    kind: ProcessRefreshKind,
) -> bool {
    &&& trace.len() == records.len() + 1
    &&& forall|j: int| #![trigger records[j]] 0 <= j < records.len() ==> match records[j] {
        Some(x) => applied_record(trace[j], trace[j + 1], x.0, now, kind, x.1),
        None => trace[j + 1] == trace[j],
    }
}

/// The processes of illumos, by id.
pub struct ProcessList {
    procs: Vec<ProcessInner>,
}

impl View for ProcessList {
    type V = Seq<ProcessInner>;

    closed spec fn view(&self) -> Seq<ProcessInner> {
        self.procs@
    }
}

impl ProcessList {
    /// The invariant: one process per id.
    pub open spec fn wf(&self) -> bool {
        pids_distinct(self@)
    }

    /// No process yet.
    pub fn new() -> (r: ProcessList)
        ensures
            r@.len() == 0,
            r.wf(),
    {
        ProcessList { procs: Vec::new() }
    }

    /// The processes.
    pub fn list(&self) -> (r: &[ProcessInner])
        ensures
            r@ == self@,
    {
        self.procs.as_slice()
    }

    /// The position of the process `pid`, if it is known.
    pub fn position(&self, pid: Pid) -> (r: Option<usize>)
        ensures
            r matches Some(i) ==> i < self@.len() && self@[i as int].pid == pid,
            r is None ==> !has_pid(self@, pid),
    {
        let mut j: usize = 0;
        while j < self.procs.len()
            invariant
                j <= self@.len(),
                forall|k: int| 0 <= k < j ==> (#[trigger] self@[k]).pid != pid,
            decreases self@.len() - j,
        {
            if self.procs[j].pid.0 == pid.0 {
                return Some(j);
            }
            j = j + 1;
        }
        None
    }

    /// The reads that a refresh from `info` asks for: those of the known process when
    /// it is the same (same start), else those of a new one.
    pub fn needs_for(&self, info: &ProcessInfo, kind: ProcessRefreshKind) -> (r: PathNeeds)
        requires
            self.wf(),
        ensures
            knows(self@, *info) ==> (exists|i: int| 0 <= i < self@.len() && (#[trigger] self@[i]).pid == info.pid
                && r == spec_needs(self@[i], kind)),
            !knows(self@, *info) ==> r == (PathNeeds {
                exe: needs(kind.exe, true),
                cwd: needs(kind.cwd, true),
                root: needs(kind.root, true),
                cmd: needs(kind.cmd, true),
                environ: needs(kind.environ, true),
            }),
    {
        match self.position(info.pid) {
            Some(i) if self.procs[i].start_time == info.start_time => refresh_needs(&self.procs[i], kind),
            _ => {
                proof {
                    if knows(self@, *info) {
                        let k = choose|k: int| 0 <= k < self@.len() && (#[trigger] self@[k]).pid == info.pid
                            && self@[k].start_time == info.start_time;
                    }
                }
                let p = initial_process(info);
                refresh_needs(&p, kind)
            },
        }
    }

    /// Refreshes the process that `info` describes at the time `now`, with the values
    /// read in `fetched` (those that `needs_for` asks for): the known process when it is
    /// the same, else a new one in its place or at the end.
    pub fn apply(&mut self, info: &ProcessInfo, now: u64, kind: ProcessRefreshKind, fetched: Fetched)
        requires
            old(self).wf(),
        ensures
            final(self).wf(),
            applied_record(old(self)@, final(self)@, *info, now, kind, fetched),
            has_pid(old(self)@, info.pid) ==> ({
                let i = choose|i: int| 0 <= i < old(self)@.len() && (#[trigger] old(self)@[i]).pid == info.pid;
                &&& final(self)@.len() == old(self)@.len()
                &&& forall|j: int| 0 <= j < old(self)@.len() && j != i ==> (#[trigger] final(self)@[j]) == old(self)@[j]
                &&& old(self)@[i].start_time == info.start_time ==> refreshed_process(
                    old(self)@[i],
                    final(self)@[i],
                    *info,
                    now,
                    kind,
                    fetched,
                )
                &&& old(self)@[i].start_time != info.start_time ==> created_process(final(self)@[i], *info, now, kind, fetched)
            }),
            !has_pid(old(self)@, info.pid) ==> ({
                &&& final(self)@.len() == old(self)@.len() + 1
                &&& forall|j: int| 0 <= j < old(self)@.len() ==> (#[trigger] final(self)@[j]) == old(self)@[j]
                &&& created_process(final(self)@[old(self)@.len() as int], *info, now, kind, fetched)
            }),
    {
        let ghost v = self@;
        match self.position(info.pid) {
            Some(i) => {
                proof {
                    let k = choose|k: int| 0 <= k < v.len() && (#[trigger] v[k]).pid == info.pid;
                    assert(k == i);
                }
                if self.procs[i].start_time == info.start_time {
                    let mut p = self.procs.remove(i);
                    update_process(info, now, kind, fetched, &mut p);
                    self.procs.insert(i, p);
                } else {
                    let p = new_process(info, now, kind, fetched);
                    self.procs.set(i, p);
                }
                proof {
                    assert forall|a: int, b: int| 0 <= a < b < self@.len() implies self@[a].pid != self@[b].pid by {
                        if a != i && b != i {
                            assert(self@[a] == v[a] && self@[b] == v[b]);
                        } else if a == i {
                            assert(self@[b] == v[b]);
                        } else {
                            assert(self@[a] == v[a]);
                        }
                    }
                    assert forall|j: int| 0 <= j < v.len() && j != i implies (#[trigger] self@[j]) == v[j] by {}
                }
            },
            None => {
                let p = new_process(info, now, kind, fetched);
                self.procs.push(p);
                proof {
                    assert forall|a: int, b: int| 0 <= a < b < self@.len() implies self@[a].pid != self@[b].pid by {
                        if b == v.len() {
                            assert(self@[a] == v[a]);
                        } else {
                            assert(self@[a] == v[a] && self@[b] == v[b]);
                        }
                    }
                }
            },
        }
    }
}


/// The id of the process that a record was read for, if it was read.
pub open spec fn record_pid(o: Option<(ProcessInfo, Fetched)>) -> Option<Pid> {
    match o {
        Some(x) => Some(x.0.pid),
        None => None,
    }
}

/// How many of the records of `s` were read.
pub open spec fn read_count(s: Seq<Option<(ProcessInfo, Fetched)>>) -> nat
    decreases s.len(),
{
    if s.len() == 0 {
        0
    } else {
        read_count(s.drop_last()) + if s.last() is Some {
            1nat
        } else {
            0nat
        }
    }
}

/// Whether one of the first `n` records of `s` was read for the process `pid`.
pub open spec fn names_pid(s: Seq<Option<(ProcessInfo, Fetched)>>, n: int, pid: Pid) -> bool {
    exists|j: int| 0 <= j < n && record_pid(#[trigger] s[j]) == Some(pid)
}

/// Whether the record `j` of `s` was read, and no later one among the first `n` was
/// read for the same process.
pub open spec fn last_record(s: Seq<Option<(ProcessInfo, Fetched)>>, j: int, n: int) -> bool {
    &&& s[j] is Some
    &&& forall|k: int| j < k < n ==> record_pid(#[trigger] s[k]) != record_pid(s[j])
}

/// Whether the record `j` of `s` was read, and no other record of `s` was read for the
/// same process.
pub open spec fn sole_record(s: Seq<Option<(ProcessInfo, Fetched)>>, j: int) -> bool {
    &&& s[j] is Some
    &&& forall|k: int| 0 <= k < s.len() && k != j ==> record_pid(#[trigger] s[k]) != record_pid(s[j])
}

/// Whether `w` holds what the record `info` (with the values `f` read for it) makes of
/// the list `v`: the known process of that id refreshed when it is the same (same start)
/// or made anew in its place, else a new process after those of `v`.
pub open spec fn record_result(
    v: Seq<ProcessInner>,
    w: Seq<ProcessInner>,
    info: ProcessInfo,
    now: u64,
    kind: ProcessRefreshKind,
    f: Fetched,
) -> bool {
    if has_pid(v, info.pid) {
        let i = choose|i: int| 0 <= i < v.len() && (#[trigger] v[i]).pid == info.pid;
        &&& i < w.len()
        &&& v[i].start_time == info.start_time ==> refreshed_process(v[i], w[i], info, now, kind, f)
        &&& v[i].start_time != info.start_time ==> created_process(w[i], info, now, kind, f)
    } else {
        exists|k: int| v.len() <= k < w.len() && (#[trigger] w[k]).pid == info.pid && created_process(w[k], info, now, kind, f)
    }
}

proof fn lemma_applied_keeps(
    v: Seq<ProcessInner>,
    w: Seq<ProcessInner>,
    info: ProcessInfo,
    now: u64,
    kind: ProcessRefreshKind,
    f: Fetched,
)
    requires
        applied_record(v, w, info, now, kind, f),
    ensures
        w.len() >= v.len(),
        forall|k: int| 0 <= k < v.len() ==> (#[trigger] w[k]).pid == v[k].pid,
        forall|k: int| 0 <= k < v.len() && (#[trigger] v[k]).pid != info.pid ==> w[k] == v[k],
{
    if has_pid(v, info.pid) {
        let i = choose|i: int| 0 <= i < v.len() && (#[trigger] v[i]).pid == info.pid;
        assert forall|k: int| 0 <= k < v.len() implies (#[trigger] w[k]).pid == v[k].pid by {
            if k != i {
                assert(w[k] == v[k]);
            }
        }
        assert forall|k: int| 0 <= k < v.len() && (#[trigger] v[k]).pid != info.pid implies w[k] == v[k] by {
            assert(k != i);
        }
    } else {
        assert forall|k: int| 0 <= k < v.len() implies (#[trigger] w[k]).pid == v[k].pid by {
            assert(w[k] == v[k]);
        }
    }
}

impl ProcessList {
    /// A refresh from the records read at the time `now`, one per process named (`None`
    /// where the record could not be read), each with the values read for it (those that
    /// `needs_for` asks for against the list before the refresh): each record refreshes
    /// its process in turn. The number of records read.
    pub fn refresh_records(&mut self, records: Vec<Option<(ProcessInfo, Fetched)>>, now: u64, kind: ProcessRefreshKind) -> (r: usize)
        requires
            old(self).wf(),
        ensures
            final(self).wf(),
            r == read_count(records@),
            final(self)@.len() >= old(self)@.len(),
            forall|i: int| 0 <= i < old(self)@.len() && !names_pid(records@, records@.len() as int, (#[trigger] old(self)@[i]).pid)
                ==> final(self)@[i] == old(self)@[i],
            forall|j: int| 0 <= j < records@.len() && #[trigger] last_record(records@, j, records@.len() as int) ==> knows(
                final(self)@,
                records@[j].unwrap().0,
            ),
            forall|k: int| 0 <= k < final(self)@.len() ==> k < old(self)@.len() || names_pid(
                records@,
                records@.len() as int,
                (#[trigger] final(self)@[k]).pid,
            ),
            exists|trace: Seq<Seq<ProcessInner>>|
                applied_records(trace, records@, now, kind) && trace[0] == old(self)@ && #[trigger] trace.last()
                    == final(self)@,
            forall|j: int| 0 <= j < records@.len() && #[trigger] sole_record(records@, j) ==> record_result(
                old(self)@,
                final(self)@,
                records@[j].unwrap().0,
                now,
                kind,
                records@[j].unwrap().1,
            ),
    {
        let ghost all = records@;
        let ghost v0 = self@;
        let n = records.len();
        let mut rest = records;
        let mut count: usize = 0;
        let mut c: usize = 0;
        let ghost mut trace: Seq<Seq<ProcessInner>> = seq![v0];
        while c < n
            invariant
                c <= n == all.len(),
                rest@ == all.subrange(c as int, n as int),
                self.wf(),
                count == read_count(all.take(c as int)),
                count <= c,
                self@.len() >= v0.len(),
                forall|i: int| 0 <= i < v0.len() && !names_pid(all, c as int, (#[trigger] v0[i]).pid) ==> self@[i] == v0[i],
                forall|j: int| 0 <= j < c && #[trigger] last_record(all, j, c as int) ==> knows(self@, all[j].unwrap().0),
                forall|k: int| 0 <= k < self@.len() ==> k < v0.len() || names_pid(all, c as int, (#[trigger] self@[k]).pid),
                applied_records(trace, all.take(c as int), now, kind),
                forall|k: int| 0 <= k < v0.len() ==> (#[trigger] self@[k]).pid == v0[k].pid,
                forall|j: int| 0 <= j < c && #[trigger] sole_record(all, j) ==> record_result(
                    v0,
                    self@,
                    all[j].unwrap().0,
                    now,
                    kind,
                    all[j].unwrap().1,
                ),
                trace[0] == v0,
                trace.last() == self@,
            decreases n - c,
        {
            let item = rest.remove(0);
            proof {
                assert(all[c as int] == item);
                assert(all.take(c + 1).drop_last() =~= all.take(c as int));
                assert(all.take(c + 1).last() == item);
            }
            let ghost before = self@;
            match item {
                Some((info, fetched)) => {
                    self.apply(&info, now, kind, fetched);
                    count = count + 1;
                    proof {
                        let p = info.pid;
                        assert(record_pid(all[c as int]) == Some(p));
                        // the process `p` is the one the record refreshed
                        assert(knows(self@, info)) by {
                            if has_pid(before, p) {
                                let i = choose|i: int| 0 <= i < before.len() && (#[trigger] before[i]).pid == p;
                                assert(self@[i].pid == p && self@[i].start_time == info.start_time);
                            } else {
                                assert(self@[before.len() as int].pid == p);
                            }
                        }
                        lemma_applied_keeps(before, self@, info, now, kind, fetched);
                        assert forall|j: int| 0 <= j < c + 1 && #[trigger] sole_record(all, j) implies record_result(
                            v0,
                            self@,
                            all[j].unwrap().0,
                            now,
                            kind,
                            all[j].unwrap().1,
                        ) by {
                            let w = all[j].unwrap().0;
                            let pj = w.pid;
                            if j < c {
                                assert(record_pid(all[c as int]) != record_pid(all[j]));
                                assert(pj != p);
                                assert(record_result(v0, before, w, now, kind, all[j].unwrap().1));
                                if has_pid(v0, pj) {
                                    let i = choose|i: int| 0 <= i < v0.len() && (#[trigger] v0[i]).pid == pj;
                                    assert(before[i].pid == pj);
                                    assert(self@[i] == before[i]);
                                } else {
                                    let k = choose|k: int| v0.len() <= k < before.len() && (#[trigger] before[k]).pid == pj
                                        && created_process(before[k], w, now, kind, all[j].unwrap().1);
                                    assert(self@[k] == before[k]);
                                }
                            } else {
                                assert(w == info && all[j].unwrap().1 == fetched);
                                assert(!names_pid(all, c as int, p)) by {
                                    if names_pid(all, c as int, p) {
                                        let q = choose|q: int| 0 <= q < c && record_pid(#[trigger] all[q]) == Some(p);
                                        assert(q != j);
                                    }
                                }
                                if has_pid(v0, p) {
                                    let i = choose|i: int| 0 <= i < v0.len() && (#[trigger] v0[i]).pid == p;
                                    assert(before[i] == v0[i]);
                                    assert(has_pid(before, p));
                                    let i2 = choose|i2: int| 0 <= i2 < before.len() && (#[trigger] before[i2]).pid == p;
                                    assert(i2 == i);
                                } else {
                                    assert(!has_pid(before, p)) by {
                                        if has_pid(before, p) {
                                            let k = choose|k: int| 0 <= k < before.len() && (#[trigger] before[k]).pid == p;
                                            if k < v0.len() {
                                                assert(before[k].pid == v0[k].pid);
                                            } else {
                                                assert(names_pid(all, c as int, before[k].pid));
                                            }
                                        }
                                    }
                                    assert(self@[before.len() as int].pid == p);
                                }
                            }
                        }
                        // every other process keeps its place and its values
                        assert forall|q: int| 0 <= q < before.len() && (#[trigger] before[q]).pid != p implies self@[q] == before[q] by {
                            if has_pid(before, p) {
                                let i = choose|i: int| 0 <= i < before.len() && (#[trigger] before[i]).pid == p;
                                assert(q != i);
                            }
                        }
                        assert forall|q: int| 0 <= q < self@.len() && q >= before.len() implies (#[trigger] self@[q]).pid == p by {
                            if has_pid(before, p) {
                            } else {
                                assert(q == before.len());
                            }
                        }
                    }
                },
                None => {},
            }
            proof {
                let t0 = trace;
                trace = trace.push(self@);
                let rs = all.take(c + 1);
                assert forall|j: int| #![trigger rs[j]] 0 <= j < rs.len() implies match rs[j] {
                    Some(x) => applied_record(trace[j], trace[j + 1], x.0, now, kind, x.1),
                    None => trace[j + 1] == trace[j],
                } by {
                    if j < c {
                        assert(rs[j] == all.take(c as int)[j]);
                        assert(trace[j] == t0[j] && trace[j + 1] == t0[j + 1]);
                    } else {
                        assert(rs[j] == all[c as int]);
                        assert(trace[j] == before && trace[j + 1] == self@);
                    }
                }
                assert forall|x: Pid| names_pid(all, c as int, x) implies names_pid(all, c + 1, x) by {
                    let j = choose|j: int| 0 <= j < c && record_pid(#[trigger] all[j]) == Some(x);
                }
                assert forall|i: int| 0 <= i < v0.len() && !names_pid(all, c + 1, (#[trigger] v0[i]).pid) implies self@[i] == v0[i] by {
                    if names_pid(all, c as int, v0[i].pid) {
                        let j = choose|j: int| 0 <= j < c && record_pid(#[trigger] all[j]) == Some(v0[i].pid);
                        assert(names_pid(all, c + 1, v0[i].pid));
                    }
                    assert(record_pid(all[c as int]) != Some(v0[i].pid));
                    assert(before[i] == v0[i]);
                }
                assert forall|j: int| 0 <= j < c + 1 && #[trigger] last_record(all, j, c + 1) implies knows(self@, all[j].unwrap().0) by {
                    if j < c {
                        assert(last_record(all, j, c as int));
                        let w = all[j].unwrap().0;
                        let i = choose|i: int| 0 <= i < before.len() && (#[trigger] before[i]).pid == w.pid
                            && before[i].start_time == w.start_time;
                        assert(record_pid(all[c as int]) != record_pid(all[j]));
                        assert(self@[i] == before[i]);
                    }
                }
                assert forall|k: int| 0 <= k < self@.len() implies k < v0.len() || names_pid(all, c + 1, (#[trigger] self@[k]).pid) by {
                    if k >= v0.len() {
                        if k < before.len() {
                            assert(names_pid(all, c as int, before[k].pid));
                            let j = choose|j: int| 0 <= j < c && record_pid(#[trigger] all[j]) == Some(before[k].pid);
                            if self@[k] != before[k] {
                                assert(record_pid(all[c as int]) == Some(self@[k].pid));
                            }
                        } else {
                            assert(record_pid(all[c as int]) == Some(self@[k].pid));
                        }
                    }
                }
            }
            c = c + 1;
        }
        proof {
            assert(all.take(n as int) =~= all);
            assert(applied_records(trace, all, now, kind) && trace[0] == v0 && trace.last() == self@);
        }
        count
    }
}

} // verus!
