//! Per-process GPU figures from the DRM `fdinfo` files of `/proc/<pid>/fdinfo`: which
//! open files are GPU devices, what each file reports, and how the reports of one
//! process add up.
use vstd::prelude::*;
use crate::text::{
    blank_tokens, blank_tokens_from,
    views, split_on, split_bytes, find_from, lemma_find_from, find_byte_from, trim_ascii,
    trim_ascii_range, copy_range, starts_with_at, ends_with, bytes_eq,
};
use crate::stat::{spec_checked_u64, parse_ascii_checked_u64};
use crate::path::opt_bytes;

verus! {

/// Whether `s` starts with `t`.
pub open spec fn has_prefix(s: Seq<u8>, t: Seq<u8>) -> bool {
    t.len() <= s.len() && s.subrange(0, t.len() as int) == t
}

/// Whether `s` ends with `t`.
pub open spec fn has_suffix(s: Seq<u8>, t: Seq<u8>) -> bool {
    t.len() <= s.len() && s.subrange(s.len() - t.len(), s.len() as int) == t
}

/// `/dev/`.
pub open spec fn dev_dir() -> Seq<u8> {
    seq![0x2fu8, 0x64u8, 0x65u8, 0x76u8, 0x2fu8]
}

/// `dri/`.
pub open spec fn dri_dir() -> Seq<u8> {
    seq![0x64u8, 0x72u8, 0x69u8, 0x2fu8]
}

/// `accel/`.
pub open spec fn accel_dir() -> Seq<u8> {
    seq![0x61u8, 0x63u8, 0x63u8, 0x65u8, 0x6cu8, 0x2fu8]
}

/// Whether a file descriptor's link target is a GPU device: a path under
/// `/dev/dri/` or `/dev/accel/`.
pub open spec fn is_gpu_device(target: Seq<u8>) -> bool {
    has_prefix(target, dev_dir()) && {
        let rest = target.subrange(5, target.len() as int);
        has_prefix(rest, dri_dir()) || has_prefix(rest, accel_dir())
    }
}

/// Whether the link target of an open file is a GPU device.
pub fn is_gpu_device_link(target: &[u8]) -> (r: bool)
    ensures
        r == is_gpu_device(target@),
{
    let dev: [u8; 5] = [0x2f, 0x64, 0x65, 0x76, 0x2f];
    let dri: [u8; 4] = [0x64, 0x72, 0x69, 0x2f];
    let accel: [u8; 6] = [0x61, 0x63, 0x63, 0x65, 0x6c, 0x2f];
    proof {
        assert(dev@ =~= dev_dir());
        assert(dri@ =~= dri_dir());
        assert(accel@ =~= accel_dir());
    }
    if !starts_with_at(target, 0, dev.as_slice()) {
        return false;
    }
    let r = starts_with_at(target, 5, dri.as_slice()) || starts_with_at(target, 5, accel.as_slice());
    proof {
        let rest = target@.subrange(5, target@.len() as int);
        if rest.len() >= 6 {
            assert(rest.subrange(0, 6) =~= target@.subrange(5, 11));
        }
        if rest.len() >= 4 {
            assert(rest.subrange(0, 4) =~= target@.subrange(5, 9));
        }
    }
    r
}

/// `drm-`.
pub open spec fn drm_key() -> Seq<u8> {
    seq![0x64u8, 0x72u8, 0x6du8, 0x2du8]
}

/// `client-id:`.
pub open spec fn client_id_key() -> Seq<u8> {
    seq![0x63u8, 0x6cu8, 0x69u8, 0x65u8, 0x6eu8, 0x74u8, 0x2du8, 0x69u8, 0x64u8, 0x3au8]
}

/// `pdev:`.
pub open spec fn pdev_key() -> Seq<u8> {
    seq![0x70u8, 0x64u8, 0x65u8, 0x76u8, 0x3au8]
}

/// `engine-`.
pub open spec fn engine_key() -> Seq<u8> {
    seq![0x65u8, 0x6eu8, 0x67u8, 0x69u8, 0x6eu8, 0x65u8, 0x2du8]
}

/// `capacity-`.
pub open spec fn capacity_key() -> Seq<u8> {
    seq![0x63u8, 0x61u8, 0x70u8, 0x61u8, 0x63u8, 0x69u8, 0x74u8, 0x79u8, 0x2du8]
}

/// ` ns`.
pub open spec fn ns_suffix() -> Seq<u8> {
    seq![0x20u8, 0x6eu8, 0x73u8]
}

/// `total-`.
pub open spec fn total_key() -> Seq<u8> {
    seq![0x74u8, 0x6fu8, 0x74u8, 0x61u8, 0x6cu8, 0x2du8]
}

/// What an `fdinfo` file says of a GPU client, as read so far: its client id, its
/// PCI device, the time its engines were busy (ns) and its memory (bytes).
pub type DrmView = (Option<Seq<u8>>, Option<Seq<u8>>, Option<u64>, Option<u64>);

/// The bytes after the first `:` of `s`, if it holds one.
pub open spec fn after_first_colon(s: Seq<u8>) -> Option<Seq<u8>> {
    let k = find_from(s, 0x3au8, 0);
    if k < s.len() {
        Some(s.subrange(k + 1, s.len() as int))
    } else {
        None
    }
}

/// The factor of a memory unit: `K`, `M` or `G` (either case); 0 for another unit.
pub open spec fn unit_factor(u: u8) -> nat {
    if u == 0x4bu8 || u == 0x6bu8 {
        1024
    } else if u == 0x4du8 || u == 0x6du8 {
        1024 * 1024
    } else if u == 0x47u8 || u == 0x67u8 {
        1024 * 1024 * 1024
    } else {
        0
    }
}

/// The state after a `drm-engine-<name>: <n> ns` line (`r` is what follows `engine-`):
/// the busy time grows by `n`. `None` when the sum overflows.
pub open spec fn engine_step(r: Seq<u8>, st: DrmView, want_time: bool) -> Option<DrmView> {
    if want_time && !has_prefix(r, capacity_key()) && has_suffix(r, ns_suffix()) {
        let parts = split_on(r.subrange(0, r.len() - 3), 0x3au8);
        if parts.len() >= 2 {
            match spec_checked_u64(trim_ascii(parts[1])) {
                Some(v) => {
                    let t = match st.2 {
                        Some(x) => x + v,
                        None => v as int,
                    };
                    if t > u64::MAX {
                        None
                    } else {
                        Some((st.0, st.1, Some(t as u64), st.3))
                    }
                },
                None => Some(st),
            }
        } else {
            Some(st)
        }
    } else {
        Some(st)
    }
}

/// The state after a `drm-total-<region>: <n> <unit>` line (`r` is what follows
/// `total-`): the memory becomes `n` times the unit, or unknown for another unit.
/// `None` when the product overflows.
pub open spec fn total_step(r: Seq<u8>, st: DrmView, want_memory: bool) -> Option<DrmView> {
    if want_memory {
        match after_first_colon(r) {
            Some(a) => {
                let toks = blank_tokens_from(a, 0);
                if toks.len() >= 2 {
                    match spec_checked_u64(trim_ascii(toks[0])) {
                        Some(v) => {
                            let f = unit_factor(toks[1][0]);
                            if f == 0 {
                                Some((st.0, st.1, st.2, None))
                            } else if v * f > u64::MAX {
                                None
                            } else {
                                Some((st.0, st.1, st.2, Some((v * f) as u64)))
                            }
                        },
                        None => Some(st),
                    }
                } else {
                    Some(st)
                }
            },
            None => Some(st),
        }
    } else {
        Some(st)
    }
}

/// The state after one line of an `fdinfo` file; only lines starting with `drm-`
/// count. `None` when the arithmetic overflows.
pub open spec fn drm_line_step(line: Seq<u8>, st: DrmView, want_time: bool, want_memory: bool) -> Option<
    DrmView,
> {
    if !has_prefix(line, drm_key()) {
        Some(st)
    } else {
        let l = line.subrange(4, line.len() as int);
        if has_prefix(l, client_id_key()) {
            Some((Some(trim_ascii(l.subrange(10, l.len() as int))), st.1, st.2, st.3))
        } else if has_prefix(l, pdev_key()) {
            Some((st.0, Some(trim_ascii(l.subrange(5, l.len() as int))), st.2, st.3))
        } else if has_prefix(l, engine_key()) {
            engine_step(l.subrange(7, l.len() as int), st, want_time)
        } else if has_prefix(l, total_key()) {
            total_step(l.subrange(6, l.len() as int), st, want_memory)
        } else {
            Some(st)
        }
    }
}

/// The state after the lines `ls[i..]`.
pub open spec fn drm_scan(
    ls: Seq<Seq<u8>>,
    i: int,
    st: DrmView,
    want_time: bool,
    want_memory: bool,
) -> Option<DrmView>
    decreases ls.len() - i,
{
    if i < 0 || i >= ls.len() {
        Some(st)
    } else {
        match drm_line_step(ls[i], st, want_time, want_memory) {
            Some(next) => drm_scan(ls, i + 1, next, want_time, want_memory),
            None => None,
        }
    }
}

/// What an `fdinfo` file says, its lines being the pieces between `\n`; `None` when
/// reading it overflows.
pub open spec fn spec_fdinfo(buf: Seq<u8>, want_time: bool, want_memory: bool) -> Option<DrmView> {
    drm_scan(split_on(buf, 0x0au8), 0, (None, None, None, None), want_time, want_memory)
}

/// What an `fdinfo` file says of a GPU client.
pub struct DrmFdInfo {
    pub client_id: Option<Vec<u8>>,
    pub pdev: Option<Vec<u8>>,
    pub engine_time: Option<u64>,
    pub memory: Option<u64>,
}

/// The report as plain values.
pub open spec fn drm_view(d: DrmFdInfo) -> DrmView {
    (opt_bytes(d.client_id), opt_bytes(d.pdev), d.engine_time, d.memory)
}

/// The state after an `engine-` line.
fn engine_line(r: &[u8], st: &mut DrmFdInfo, want_time: bool) -> (ok: bool)
    ensures
        match engine_step(r@, drm_view(*old(st)), want_time) {
            Some(n) => ok && drm_view(*final(st)) == n,
            None => !ok,
        },
{
    let capacity: [u8; 9] = [0x63, 0x61, 0x70, 0x61, 0x63, 0x69, 0x74, 0x79, 0x2d];
    let ns: [u8; 3] = [0x20, 0x6e, 0x73];
    proof {
        assert(capacity@ =~= capacity_key());
        assert(ns@ =~= ns_suffix());
    }
    if !(want_time && !starts_with_at(r, 0, capacity.as_slice()) && ends_with(r, ns.as_slice())) {
        return true;
    }
    let body = copy_range(r, 0, r.len() - 3);
    let parts = split_bytes(body.as_slice(), 0x3a);
    if parts.len() < 2 {
        return true;
    }
    let piece = parts[1].as_slice();
    assert(piece@ == split_on(body@, 0x3au8)[1]);
    let (x, y) = trim_ascii_range(piece, 0, piece.len());
    proof {
        assert(piece@.subrange(0, piece@.len() as int) =~= piece@);
    }
    let digits = copy_range(piece, x, y);
    match parse_ascii_checked_u64(digits.as_slice()) {
        Some(v) => {
            let prev: u64 = match st.engine_time {
                Some(t) => t,
                None => 0,
            };
            if prev > u64::MAX - v {
                return false;
            }
            st.engine_time = Some(prev + v);
            true
        },
        None => true,
    }
}

/// The state after a `total-` line.
fn total_line(r: &[u8], st: &mut DrmFdInfo, want_memory: bool) -> (ok: bool)
    ensures
        match total_step(r@, drm_view(*old(st)), want_memory) {
            Some(n) => ok && drm_view(*final(st)) == n,
            None => !ok,
        },
{
    if !want_memory {
        return true;
    }
    let k = find_byte_from(r, 0x3a, 0);
    if k >= r.len() {
        return true;
    }
    let a = copy_range(r, k + 1, r.len());
    let toks = blank_tokens(a.as_slice());
    if toks.len() < 2 {
        return true;
    }
    let t0 = toks[0].as_slice();
    let t1 = toks[1].as_slice();
    assert(t0@ == blank_tokens_from(a@, 0)[0] && t1@ == blank_tokens_from(a@, 0)[1]);
    proof {
        assert(t0@.subrange(0, t0@.len() as int) =~= t0@);
        assert(t1@.len() > 0) by {
            lemma_blank_tokens_nonempty(a@, 0);
        }
    }
    let (x, y) = trim_ascii_range(t0, 0, t0.len());
    let digits = copy_range(t0, x, y);
    match parse_ascii_checked_u64(digits.as_slice()) {
        Some(v) => {
            let u = t1[0];
            let f: u64 = if u == 0x4b || u == 0x6b {
                1024
            } else if u == 0x4d || u == 0x6d {
                1024 * 1024
            } else if u == 0x47 || u == 0x67 {
                1024 * 1024 * 1024
            } else {
                0
            };
            assert(f == unit_factor(u));
            if f == 0 {
                st.memory = None;
                return true;
            }
            if v > u64::MAX / f {
                proof {
                    assert(v * f > u64::MAX) by (nonlinear_arith)
                        requires
                            v > u64::MAX / f,
                            f > 0,
                    ;
                }
                return false;
            }
            proof {
                assert(v * f <= u64::MAX) by (nonlinear_arith)
                    requires
                        v <= u64::MAX / f,
                        f > 0,
                ;
            }
            st.memory = Some(v * f);
            true
        },
        None => true,
    }
}

/// Every token between blanks is non-empty.
proof fn lemma_blank_tokens_nonempty(s: Seq<u8>, i: int)
    requires
        0 <= i <= s.len(),
    ensures
        forall|j: int| 0 <= j < blank_tokens_from(s, i).len() ==> (#[trigger] blank_tokens_from(s, i)[j]).len() > 0,
    decreases s.len() - i,
{
    if i < s.len() {
        if !crate::text::is_blank(s[i]) {
            crate::text::lemma_blank_from_bounds(s, i + 1);
            let e = crate::text::blank_from(s, i + 1);
            lemma_blank_tokens_nonempty(s, e);
            let rest = blank_tokens_from(s, e);
            let all = blank_tokens_from(s, i);
            assert(all == seq![s.subrange(i, e)] + rest);
            assert forall|j: int| 0 <= j < all.len() implies (#[trigger] all[j]).len() > 0 by {
                if j > 0 {
                    assert(all[j] == rest[j - 1]);
                }
            }
        } else {
            lemma_blank_tokens_nonempty(s, i + 1);
            assert(blank_tokens_from(s, i) == blank_tokens_from(s, i + 1));
        }
    }
}

/// Reads an `fdinfo` file of a process: its client id (`drm-client-id`), its PCI
/// device (`drm-pdev`), the sum of its engines' busy times when `want_time`
/// (`drm-engine-*`, in ns) and its memory when `want_memory` (`drm-total-*`, the last
/// such line winning). `None` when a sum or a product overflows 64 bits.
pub fn parse_drm_fdinfo(buf: &[u8], want_time: bool, want_memory: bool) -> (r: Option<DrmFdInfo>)
    ensures
        r is None <==> spec_fdinfo(buf@, want_time, want_memory) is None,
        r matches Some(d) ==> spec_fdinfo(buf@, want_time, want_memory) == Some(drm_view(d)),
{
    let ls = split_bytes(buf, 0x0a);
    let ghost l = views(ls@);
    let mut st = DrmFdInfo { client_id: None, pdev: None, engine_time: None, memory: None };
    let drm: [u8; 4] = [0x64, 0x72, 0x6d, 0x2d];
    let client: [u8; 10] = [0x63, 0x6c, 0x69, 0x65, 0x6e, 0x74, 0x2d, 0x69, 0x64, 0x3a];
    let pdev: [u8; 5] = [0x70, 0x64, 0x65, 0x76, 0x3a];
    let engine: [u8; 7] = [0x65, 0x6e, 0x67, 0x69, 0x6e, 0x65, 0x2d];
    let total: [u8; 6] = [0x74, 0x6f, 0x74, 0x61, 0x6c, 0x2d];
    proof {
        assert(drm@ =~= drm_key());
        assert(client@ =~= client_id_key());
        assert(pdev@ =~= pdev_key());
        assert(engine@ =~= engine_key());
        assert(total@ =~= total_key());
    }
    let mut i: usize = 0;
    while i < ls.len()
        invariant
            i <= ls@.len(),
            l == views(ls@),
            l == split_on(buf@, 0x0au8),
            drm@ == drm_key(),
            client@ == client_id_key(),
            pdev@ == pdev_key(),
            engine@ == engine_key(),
            total@ == total_key(),
            drm_scan(l, i as int, drm_view(st), want_time, want_memory) == spec_fdinfo(
                buf@,
                want_time,
                want_memory,
            ),
        decreases ls@.len() - i,
    {
        let line = ls[i].as_slice();
        assert(line@ == l[i as int]);
        if starts_with_at(line, 0, drm.as_slice()) {
            let lb = copy_range(line, 4, line.len());
            let lr = lb.as_slice();
            if starts_with_at(lr, 0, client.as_slice()) {
                let (x, y) = trim_ascii_range(lr, 10, lr.len());
                st.client_id = Some(copy_range(lr, x, y));
            } else if starts_with_at(lr, 0, pdev.as_slice()) {
                let (x, y) = trim_ascii_range(lr, 5, lr.len());
                st.pdev = Some(copy_range(lr, x, y));
            } else if starts_with_at(lr, 0, engine.as_slice()) {
                let rest = copy_range(lr, 7, lr.len());
                if !engine_line(rest.as_slice(), &mut st, want_time) {
                    return None;
                }
            } else if starts_with_at(lr, 0, total.as_slice()) {
                let rest = copy_range(lr, 6, lr.len());
                if !total_line(rest.as_slice(), &mut st, want_memory) {
                    return None;
                }
            }
        }
        i = i + 1;
    }
    Some(st)
}

/// `a + b`, or `u64::MAX` when that overflows.
pub open spec fn sat_add(a: u64, b: u64) -> u64 {
    if a + b > u64::MAX {
        u64::MAX
    } else {
        (a + b) as u64
    }
}

/// The busy time, the memory and whether any memory was reported, once the reports
/// `infos[i..]` are added to these: a report counts only with both a client id and a
/// device, and only the first report of each (client id, device) pair counts.
pub open spec fn gpu_scan(
    infos: Seq<DrmView>,
    i: int,
    seen: Seq<(Seq<u8>, Seq<u8>)>,
    time: u64,
    memory: u64,
    found: bool,
) -> (u64, u64, bool)
    decreases infos.len() - i,
{
    if i < 0 || i >= infos.len() {
        (time, memory, found)
    } else {
        let d = infos[i];
        if d.0 is Some && d.1 is Some && !seen.contains((d.0->0, d.1->0)) {
            let t = match d.2 {
                Some(x) => sat_add(time, x),
                None => time,
            };
            let m = match d.3 {
                Some(x) => sat_add(memory, x),
                None => memory,
            };
            gpu_scan(infos, i + 1, seen.push((d.0->0, d.1->0)), t, m, found || d.3 is Some)
        } else {
            gpu_scan(infos, i + 1, seen, time, memory, found)
        }
    }
}

/// What the `fdinfo` reports of a process add up to.
pub struct GpuTotals {
    pub time: u64,
    pub memory: Option<u64>,
}

/// The totals of the reports `infos`.
pub open spec fn spec_gpu_totals(infos: Seq<DrmView>) -> (u64, Option<u64>) {
    let (t, m, f) = gpu_scan(infos, 0, seq![], 0, 0, false);
    (
        t,
        if f {
            Some(m)
        } else {
            None
        },
    )
}

/// The reports as plain values.
pub open spec fn drm_views(infos: Seq<DrmFdInfo>) -> Seq<DrmView> {
    infos.map_values(|d: DrmFdInfo| drm_view(d))
}

/// The pairs seen so far as plain values.
pub open spec fn pair_views(v: Seq<(Vec<u8>, Vec<u8>)>) -> Seq<(Seq<u8>, Seq<u8>)> {
    v.map_values(|p: (Vec<u8>, Vec<u8>)| (p.0@, p.1@))
}

/// Adds up the `fdinfo` reports of a process's GPU files: the busy time and the
/// memory, each saturating, with every (client id, device) pair counted once.
pub fn gpu_totals(infos: &[DrmFdInfo]) -> (r: GpuTotals)
    ensures
        (r.time, r.memory) == spec_gpu_totals(drm_views(infos@)),
{
    let ghost iv = drm_views(infos@);
    let mut seen: Vec<(Vec<u8>, Vec<u8>)> = Vec::new();
    let mut time: u64 = 0;
    let mut memory: u64 = 0;
    let mut found = false;
    let mut i: usize = 0;
    proof {
        assert(pair_views(seen@) =~= Seq::<(Seq<u8>, Seq<u8>)>::empty());
    }
    while i < infos.len()
        invariant
            i <= infos@.len(),
            iv == drm_views(infos@),
            gpu_scan(iv, i as int, pair_views(seen@), time, memory, found) == gpu_scan(
                iv,
                0,
                seq![],
                0,
                0,
                false,
            ),
        decreases infos@.len() - i,
    {
        let d = &infos[i];
        assert(drm_view(*d) == iv[i as int]);
        if let (Some(id), Some(pci)) = (&d.client_id, &d.pdev) {
            let mut known = false;
            let mut j: usize = 0;
            while j < seen.len()
                invariant
                    j <= seen@.len(),
                    known == exists|k: int| 0 <= k < j && (#[trigger] pair_views(seen@)[k]) == (id@, pci@),
                decreases seen@.len() - j,
            {
                let same = bytes_eq(seen[j].0.as_slice(), id.as_slice()) && bytes_eq(
                    seen[j].1.as_slice(),
                    pci.as_slice(),
                );
                proof {
                    assert(pair_views(seen@)[j as int] == (seen@[j as int].0@, seen@[j as int].1@));
                }
                if same {
                    known = true;
                }
                j = j + 1;
            }
            proof {
                if pair_views(seen@).contains((id@, pci@)) {
                    let k = choose|k: int| 0 <= k < pair_views(seen@).len() && pair_views(seen@)[k] == (id@, pci@);
                    assert(pair_views(seen@)[k] == (id@, pci@));
                }
            }
            if !known {
                let ghost before = pair_views(seen@);
                let idc = copy_range(id.as_slice(), 0, id.len());
                let pcic = copy_range(pci.as_slice(), 0, pci.len());
                proof {
                    assert(idc@ =~= id@);
                    assert(pcic@ =~= pci@);
                }
                seen.push((idc, pcic));
                proof {
                    assert(pair_views(seen@) =~= before.push((id@, pci@)));
                }
                if let Some(t) = d.engine_time {
                    time = time.saturating_add(t);
                }
                if let Some(m) = d.memory {
                    memory = memory.saturating_add(m);
                    found = true;
                }
            }
        }
        i = i + 1;
    }
    GpuTotals {
        time,
        memory: if found {
            Some(memory)
        } else {
            None
        },
    }
}

/// What a refresh of a process's GPU usage finds.
pub enum GpuUsageStep {
    /// No busy time was reported: the usage is 0.
    Idle,
    /// The busy time did not grow, or no time passed since the last refresh: the
    /// usage is unknown.
    Unmeasured,
    /// The engines were busy `delta_ns` nanoseconds during `elapsed_ms` milliseconds.
    Busy { delta_ns: u64, elapsed_ms: u128 },
}

/// Decides what the busy time `total_time` means, given the busy time of the last
/// refresh and the milliseconds elapsed since it (0 when there was none).
pub fn gpu_usage_step(total_time: u64, previous_time: u64, elapsed_ms: u128) -> (r: GpuUsageStep)
    ensures
        total_time == 0 ==> r is Idle,
        total_time != 0 && (total_time <= previous_time || elapsed_ms == 0) ==> r is Unmeasured,
        total_time != 0 && total_time > previous_time && elapsed_ms != 0 ==> r == (GpuUsageStep::Busy {
            delta_ns: (total_time - previous_time) as u64,
            elapsed_ms,
        }),
{
    if total_time == 0 {
        return GpuUsageStep::Idle;
    }
    let delta = total_time.saturating_sub(previous_time);
    if delta == 0 || elapsed_ms == 0 {
        GpuUsageStep::Unmeasured
    } else {
        GpuUsageStep::Busy { delta_ns: delta, elapsed_ms }
    }
}

/// The busy time a process's GPU figures keep after a refresh that read `total`,
/// and whether the refresh instant is kept as the last measure: a reading with busy
/// time replaces both, a reading without any keeps the previous ones.
pub fn next_gpu_time(gpu_time: u64, total: u64) -> (r: (u64, bool))
    ensures
        r == (if total != 0 {
            (total, true)
        } else {
            (gpu_time, false)
        }),
{
    if total != 0 {
        (total, true)
    } else {
        (gpu_time, false)
    }
}

} // verus!
