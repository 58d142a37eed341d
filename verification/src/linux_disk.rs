//! The disks of Linux: which mounts of `/proc/mounts` are disks, which block device
//! holds a mount, what kind of disk it is, and its space and traffic figures.
use vstd::prelude::*;
use vstd::utf8::valid_utf8;
use crate::common::{IoCounters, DiskUsage};
use crate::cgroup::{sat_mul, saturating_mul};
use crate::text::{
    views, spec_lines, lines, ws_fields, split_whitespace, trim, trim_start, trim_range,
    trim_start_index, copy_range, starts_with_at, bytes_eq, range_eq, is_valid_utf8, unsigned_digits,
    all_digits, dec_value, spec_parse_u64, parse_u64_range,
};

verus! {

/// The kind of a disk.
#[derive(Clone, Copy, Debug, PartialEq, Eq, Structural)]
pub enum DiskKind {
    HDD,
    SSD,
    Unknown(isize),
}

/// The value that `isize::from_str` parses from `s`: an optional sign, then at least
/// one decimal digit, within the range of `isize`.
pub open spec fn spec_parse_isize(s: Seq<u8>) -> Option<isize> {
    if s.len() > 0 && s[0] == 0x2du8 {
        let d = s.drop_first();
        if d.len() > 0 && all_digits(d) && dec_value(d) <= isize::MAX + 1 {
            Some((0 - dec_value(d)) as isize)
        } else {
            None
        }
    } else {
        let d = unsigned_digits(s);
        if d.len() > 0 && all_digits(d) && dec_value(d) <= isize::MAX {
            Some(dec_value(d) as isize)
        } else {
            None
        }
    }
}

/// Parses `s[a..b]` as `isize::from_str` does.
pub fn parse_isize_range(s: &[u8], a: usize, b: usize) -> (r: Option<isize>)
    requires
        a <= b <= s@.len(),
    ensures
        r == spec_parse_isize(s@.subrange(a as int, b as int)),
{
    let ghost t = s@.subrange(a as int, b as int);
    let negative = a < b && s[a] == 0x2d;
    if negative {
        let start = a + 1;
        proof {
            assert(t.drop_first() =~= s@.subrange(start as int, b as int));
        }
        if start == b {
            return None;
        }
        let ghost d = s@.subrange(start as int, b as int);
        match parse_u64_range(s, start, b) {
            Some(v) => {
                if s[start] == 0x2b {
                    proof {
                        assert(d[0] == 0x2bu8);
                    }
                    return None;
                }
                proof {
                    assert(unsigned_digits(d) =~= d);
                }
                if v > isize::MAX as u64 + 1 {
                    return None;
                }
                if v == isize::MAX as u64 + 1 {
                    Some(isize::MIN)
                } else {
                    Some(0 - (v as isize))
                }
            },
            None => {
                proof {
                    if d.len() > 0 && all_digits(d) {
                        assert(0x30 <= d[0] <= 0x39);
                        assert(unsigned_digits(d) =~= d);
                    }
                }
                None
            },
        }
    } else {
        match parse_u64_range(s, a, b) {
            Some(v) => {
                if v > isize::MAX as u64 {
                    return None;
                }
                Some(v as isize)
            },
            None => None,
        }
    }
}

/// The kind that the contents of `/sys/block/<dev>/queue/rotational` give: rotational
/// (1) is a hard disk, 0 a solid-state disk, another number unknown with that number,
/// unreadable text unknown with -1.
pub open spec fn spec_kind(content: Seq<u8>) -> DiskKind {
    let t = if valid_utf8(content) {
        trim(content)
    } else {
        seq![]
    };
    match spec_parse_isize(t) {
        Some(1) => DiskKind::HDD,
        Some(0) => DiskKind::SSD,
        Some(x) => DiskKind::Unknown(x),
        None => DiskKind::Unknown(-1isize),
    }
}

/// The kind of a disk, from the contents of its `rotational` file.
pub fn kind_from_rotational(content: &[u8]) -> (r: DiskKind)
    ensures
        r == spec_kind(content@),
{
    if !is_valid_utf8(content) {
        let empty: [u8; 0] = [];
        proof {
            assert(empty@ =~= Seq::<u8>::empty());
            assert(empty@.subrange(0, 0) =~= Seq::<u8>::empty());
        }
        return match parse_isize_range(empty.as_slice(), 0, 0) {
            Some(1) => DiskKind::HDD,
            Some(0) => DiskKind::SSD,
            Some(x) => DiskKind::Unknown(x),
            None => DiskKind::Unknown(-1),
        };
    }
    let (x, y) = trim_range(content, 0, content.len());
    proof {
        assert(content@.subrange(0, content@.len() as int) =~= content@);
    }
    match parse_isize_range(content, x, y) {
        Some(1) => DiskKind::HDD,
        Some(0) => DiskKind::SSD,
        Some(v) => DiskKind::Unknown(v),
        None => DiskKind::Unknown(-1),
    }
}

/// Whether a mount's file system type is one that holds no disk worth listing:
/// pseudo file systems, compressed images, optical media, `tmpfs`, and network file
/// systems (whose `statvfs` may hang).
pub open spec fn is_ignored_fs(t: Seq<u8>) -> bool {
    ||| t == seq![0x72u8, 0x6fu8, 0x6fu8, 0x74u8, 0x66u8, 0x73u8]
    ||| t == seq![0x73u8, 0x79u8, 0x73u8, 0x66u8, 0x73u8]
    ||| t == seq![0x70u8, 0x72u8, 0x6fu8, 0x63u8]
    ||| t == seq![0x64u8, 0x65u8, 0x76u8, 0x74u8, 0x6du8, 0x70u8, 0x66u8, 0x73u8]
    ||| t == seq![0x63u8, 0x67u8, 0x72u8, 0x6fu8, 0x75u8, 0x70u8]
    ||| t == seq![0x63u8, 0x67u8, 0x72u8, 0x6fu8, 0x75u8, 0x70u8, 0x32u8]
    ||| t == seq![0x70u8, 0x73u8, 0x74u8, 0x6fu8, 0x72u8, 0x65u8]
    ||| t == seq![0x73u8, 0x71u8, 0x75u8, 0x61u8, 0x73u8, 0x68u8, 0x66u8, 0x73u8]
    ||| t == seq![0x72u8, 0x70u8, 0x63u8, 0x5fu8, 0x70u8, 0x69u8, 0x70u8, 0x65u8, 0x66u8, 0x73u8]
    ||| t == seq![0x69u8, 0x73u8, 0x6fu8, 0x39u8, 0x36u8, 0x36u8, 0x30u8]
    ||| t == seq![0x74u8, 0x6du8, 0x70u8, 0x66u8, 0x73u8]
    ||| t == seq![0x63u8, 0x69u8, 0x66u8, 0x73u8]
    ||| t == seq![0x6eu8, 0x66u8, 0x73u8]
    ||| t == seq![0x6eu8, 0x66u8, 0x73u8, 0x34u8]
}

/// Whether a file system type is ignored.
pub fn ignored_fs(t: &[u8]) -> (r: bool)
    ensures
        r == is_ignored_fs(t@),
{
    let k0: [u8; 6] = [0x72, 0x6f, 0x6f, 0x74, 0x66, 0x73];
    let k1: [u8; 5] = [0x73, 0x79, 0x73, 0x66, 0x73];
    let k2: [u8; 4] = [0x70, 0x72, 0x6f, 0x63];
    let k3: [u8; 8] = [0x64, 0x65, 0x76, 0x74, 0x6d, 0x70, 0x66, 0x73];
    let k4: [u8; 6] = [0x63, 0x67, 0x72, 0x6f, 0x75, 0x70];
    let k5: [u8; 7] = [0x63, 0x67, 0x72, 0x6f, 0x75, 0x70, 0x32];
    let k6: [u8; 6] = [0x70, 0x73, 0x74, 0x6f, 0x72, 0x65];
    let k7: [u8; 8] = [0x73, 0x71, 0x75, 0x61, 0x73, 0x68, 0x66, 0x73];
    let k8: [u8; 10] = [0x72, 0x70, 0x63, 0x5f, 0x70, 0x69, 0x70, 0x65, 0x66, 0x73];
    let k9: [u8; 7] = [0x69, 0x73, 0x6f, 0x39, 0x36, 0x36, 0x30];
    let k10: [u8; 5] = [0x74, 0x6d, 0x70, 0x66, 0x73];
    let k11: [u8; 4] = [0x63, 0x69, 0x66, 0x73];
    let k12: [u8; 3] = [0x6e, 0x66, 0x73];
    let k13: [u8; 4] = [0x6e, 0x66, 0x73, 0x34];
    proof {
        assert(k0@ =~= seq![0x72u8, 0x6fu8, 0x6fu8, 0x74u8, 0x66u8, 0x73u8]);
        assert(k1@ =~= seq![0x73u8, 0x79u8, 0x73u8, 0x66u8, 0x73u8]);
        assert(k2@ =~= seq![0x70u8, 0x72u8, 0x6fu8, 0x63u8]);
        assert(k3@ =~= seq![0x64u8, 0x65u8, 0x76u8, 0x74u8, 0x6du8, 0x70u8, 0x66u8, 0x73u8]);
        assert(k4@ =~= seq![0x63u8, 0x67u8, 0x72u8, 0x6fu8, 0x75u8, 0x70u8]);
        assert(k5@ =~= seq![0x63u8, 0x67u8, 0x72u8, 0x6fu8, 0x75u8, 0x70u8, 0x32u8]);
        assert(k6@ =~= seq![0x70u8, 0x73u8, 0x74u8, 0x6fu8, 0x72u8, 0x65u8]);
        assert(k7@ =~= seq![0x73u8, 0x71u8, 0x75u8, 0x61u8, 0x73u8, 0x68u8, 0x66u8, 0x73u8]);
        assert(k8@ =~= seq![0x72u8, 0x70u8, 0x63u8, 0x5fu8, 0x70u8, 0x69u8, 0x70u8, 0x65u8, 0x66u8, 0x73u8]);
        assert(k9@ =~= seq![0x69u8, 0x73u8, 0x6fu8, 0x39u8, 0x36u8, 0x36u8, 0x30u8]);
        assert(k10@ =~= seq![0x74u8, 0x6du8, 0x70u8, 0x66u8, 0x73u8]);
        assert(k11@ =~= seq![0x63u8, 0x69u8, 0x66u8, 0x73u8]);
        assert(k12@ =~= seq![0x6eu8, 0x66u8, 0x73u8]);
        assert(k13@ =~= seq![0x6eu8, 0x66u8, 0x73u8, 0x34u8]);
    }
    bytes_eq(t, k0.as_slice())
        || bytes_eq(t, k1.as_slice())
        || bytes_eq(t, k2.as_slice())
        || bytes_eq(t, k3.as_slice())
        || bytes_eq(t, k4.as_slice())
        || bytes_eq(t, k5.as_slice())
        || bytes_eq(t, k6.as_slice())
        || bytes_eq(t, k7.as_slice())
        || bytes_eq(t, k8.as_slice())
        || bytes_eq(t, k9.as_slice())
        || bytes_eq(t, k10.as_slice())
        || bytes_eq(t, k11.as_slice())
        || bytes_eq(t, k12.as_slice())
        || bytes_eq(t, k13.as_slice())
}

/// `s` with every occurrence of `p` (non-empty), from the left, replaced by `r`
/// (`str::replace`).
pub open spec fn replace_all(s: Seq<u8>, p: Seq<u8>, r: Seq<u8>) -> Seq<u8>
    decreases s.len(),
{
    if s.len() == 0 || p.len() == 0 {
        s
    } else if p.len() <= s.len() && s.subrange(0, p.len() as int) == p {
        r + replace_all(s.subrange(p.len() as int, s.len() as int), p, r)
    } else {
        seq![s[0]] + replace_all(s.drop_first(), p, r)
    }
}

/// Replaces every occurrence of `p` in `s` by `r`.
pub fn replace_bytes(s: &[u8], p: &[u8], r: &[u8]) -> (out: Vec<u8>)
    requires
        p@.len() > 0,
    ensures
        out@ == replace_all(s@, p@, r@),
{
    let n = s.len();
    let mut out: Vec<u8> = Vec::new();
    let mut i: usize = 0;
    proof {
        assert(s@.subrange(0, n as int) =~= s@);
        assert(out@ + replace_all(s@, p@, r@) =~= replace_all(s@, p@, r@));
    }
    while i < n
        invariant
            i <= n == s@.len(),
            p@.len() > 0,
            out@ + replace_all(s@.subrange(i as int, n as int), p@, r@) == replace_all(s@, p@, r@),
        decreases n - i,
    {
        let ghost t = s@.subrange(i as int, n as int);
        let ghost before = out@;
        if starts_with_at(s, i, p) {
            let mut k: usize = 0;
            while k < r.len()
                invariant
                    k <= r@.len(),
                    out@ == before + r@.subrange(0, k as int),
                decreases r@.len() - k,
            {
                out.push(r[k]);
                k = k + 1;
                proof {
                    assert(out@ =~= before + r@.subrange(0, k as int));
                }
            }
            proof {
                assert(t.subrange(0, p@.len() as int) =~= s@.subrange(i as int, i + p@.len()));
                assert(t.subrange(p@.len() as int, t.len() as int) =~= s@.subrange(i + p@.len(), n as int));
                assert(r@.subrange(0, r@.len() as int) =~= r@);
                assert(before + (r@ + replace_all(s@.subrange(i + p@.len(), n as int), p@, r@)) =~= out@
                    + replace_all(s@.subrange(i + p@.len(), n as int), p@, r@));
            }
            i = i + p.len();
        } else {
            out.push(s[i]);
            proof {
                if p@.len() <= t.len() {
                    assert(t.subrange(0, p@.len() as int) =~= s@.subrange(i as int, i + p@.len()));
                }
                assert(t.drop_first() =~= s@.subrange(i + 1, n as int));
                assert(before + (seq![s@[i as int]] + replace_all(s@.subrange(i + 1, n as int), p@, r@))
                    =~= out@ + replace_all(s@.subrange(i + 1, n as int), p@, r@));
            }
            i = i + 1;
        }
    }
    proof {
        assert(s@.subrange(n as int, n as int) =~= Seq::<u8>::empty());
        assert(out@ + Seq::<u8>::empty() =~= out@);
    }
    out
}

/// The escapes of a mount point in `/proc/mounts` decoded, one after the other:
/// `\134` (backslash), `\040` (space), `\011` (tab), `\012` (newline).
pub open spec fn unescape_mount_point(s: Seq<u8>) -> Seq<u8> {
    let a = replace_all(s, seq![0x5cu8, 0x31u8, 0x33u8, 0x34u8], seq![0x5cu8]);
    let b = replace_all(a, seq![0x5cu8, 0x30u8, 0x34u8, 0x30u8], seq![0x20u8]);
    let c = replace_all(b, seq![0x5cu8, 0x30u8, 0x31u8, 0x31u8], seq![0x09u8]);
    replace_all(c, seq![0x5cu8, 0x30u8, 0x31u8, 0x32u8], seq![0x0au8])
}

/// A mount of `/proc/mounts`: the device, the mount point (decoded), the file system.
pub struct MountEntry {
    pub device: Vec<u8>,
    pub mount_point: Vec<u8>,
    pub file_system: Vec<u8>,
}

/// The `k`-th field of `f`, empty when missing.
pub open spec fn field_or_empty(f: Seq<Seq<u8>>, k: int) -> Seq<u8> {
    if 0 <= k < f.len() {
        f[k]
    } else {
        seq![]
    }
}

/// Whether `s` starts with `t`.
pub open spec fn has_prefix(s: Seq<u8>, t: Seq<u8>) -> bool {
    t.len() <= s.len() && s.subrange(0, t.len() as int) == t
}

/// Whether a mount is listed as a disk: its file system is not ignored, its mount
/// point is not under `/sys`, `/proc` or `/run` (but `/run/media` is kept), and its
/// device is not an RPC pipe (`sunrpc`).
pub open spec fn is_disk_mount(device: Seq<u8>, mount_point: Seq<u8>, fs: Seq<u8>) -> bool {
    !(is_ignored_fs(fs) || has_prefix(mount_point, seq![0x2fu8, 0x73u8, 0x79u8, 0x73u8]) || has_prefix(mount_point, seq![0x2fu8, 0x70u8, 0x72u8, 0x6fu8, 0x63u8]) || (
    has_prefix(mount_point, seq![0x2fu8, 0x72u8, 0x75u8, 0x6eu8]) && !has_prefix(mount_point, seq![0x2fu8, 0x72u8, 0x75u8, 0x6eu8, 0x2fu8, 0x6du8, 0x65u8, 0x64u8, 0x69u8, 0x61u8])) || has_prefix(
        device,
        seq![0x73u8, 0x75u8, 0x6eu8, 0x72u8, 0x70u8, 0x63u8],
    ))
}

/// The mount of a line of `/proc/mounts`.
pub open spec fn mount_of(line: Seq<u8>) -> (Seq<u8>, Seq<u8>, Seq<u8>) {
    let f = ws_fields(line);
    (field_or_empty(f, 0), unescape_mount_point(field_or_empty(f, 1)), field_or_empty(f, 2))
}

/// The disk mounts of the lines `ls`, in order.
pub open spec fn disk_mounts(ls: Seq<Seq<u8>>) -> Seq<(Seq<u8>, Seq<u8>, Seq<u8>)>
    decreases ls.len(),
{
    if ls.len() == 0 {
        seq![]
    } else {
        let rest = disk_mounts(ls.drop_last());
        let m = mount_of(ls.last());
        if is_disk_mount(m.0, m.1, m.2) {
            rest.push(m)
        } else {
            rest
        }
    }
}

/// The disk mounts listed in the contents of `/proc/mounts` (none when they are not
/// UTF-8).
pub open spec fn spec_disk_mounts(content: Seq<u8>) -> Seq<(Seq<u8>, Seq<u8>, Seq<u8>)> {
    if valid_utf8(content) {
        disk_mounts(spec_lines(content))
    } else {
        seq![]
    }
}

/// A mount as plain values.
pub open spec fn mount_view(m: MountEntry) -> (Seq<u8>, Seq<u8>, Seq<u8>) {
    (m.device@, m.mount_point@, m.file_system@)
}

fn field_copy(f: &Vec<Vec<u8>>, k: usize) -> (r: Vec<u8>)
    ensures
        r@ == field_or_empty(views(f@), k as int),
{
    if k < f.len() {
        let r = copy_range(f[k].as_slice(), 0, f[k].len());
        proof {
            assert(r@ =~= f@[k as int]@);
        }
        r
    } else {
        Vec::new()
    }
}

fn decode_mount_point(s: &[u8]) -> (r: Vec<u8>)
    ensures
        r@ == unescape_mount_point(s@),
{
    let e1: [u8; 4] = [0x5c, 0x31, 0x33, 0x34];
    let e2: [u8; 4] = [0x5c, 0x30, 0x34, 0x30];
    let e3: [u8; 4] = [0x5c, 0x30, 0x31, 0x31];
    let e4: [u8; 4] = [0x5c, 0x30, 0x31, 0x32];
    let r1: [u8; 1] = [0x5c];
    let r2: [u8; 1] = [0x20];
    let r3: [u8; 1] = [0x09];
    let r4: [u8; 1] = [0x0a];
    proof {
        assert(e1@ =~= seq![0x5cu8, 0x31u8, 0x33u8, 0x34u8]);
        assert(e2@ =~= seq![0x5cu8, 0x30u8, 0x34u8, 0x30u8]);
        assert(e3@ =~= seq![0x5cu8, 0x30u8, 0x31u8, 0x31u8]);
        assert(e4@ =~= seq![0x5cu8, 0x30u8, 0x31u8, 0x32u8]);
        assert(r1@ =~= seq![0x5cu8]);
        assert(r2@ =~= seq![0x20u8]);
        assert(r3@ =~= seq![0x09u8]);
        assert(r4@ =~= seq![0x0au8]);
    }
    let a = replace_bytes(s, e1.as_slice(), r1.as_slice());
    let b = replace_bytes(a.as_slice(), e2.as_slice(), r2.as_slice());
    let c = replace_bytes(b.as_slice(), e3.as_slice(), r3.as_slice());
    replace_bytes(c.as_slice(), e4.as_slice(), r4.as_slice())
}

/// The mount of one line.
pub fn parse_mount_line(line: &[u8]) -> (r: MountEntry)
    ensures
        mount_view(r) == mount_of(line@),
{
    let f = split_whitespace(line);
    let device = field_copy(&f, 0);
    let raw = field_copy(&f, 1);
    let mount_point = decode_mount_point(raw.as_slice());
    let file_system = field_copy(&f, 2);
    MountEntry { device, mount_point, file_system }
}

/// Whether a mount is a disk's.
pub fn is_disk(m: &MountEntry) -> (r: bool)
    ensures
        r == is_disk_mount(m.device@, m.mount_point@, m.file_system@),
{
    let sys: [u8; 4] = [0x2f, 0x73, 0x79, 0x73];
    let procp: [u8; 5] = [0x2f, 0x70, 0x72, 0x6f, 0x63];
    let run: [u8; 4] = [0x2f, 0x72, 0x75, 0x6e];
    let run_media: [u8; 10] = [0x2f, 0x72, 0x75, 0x6e, 0x2f, 0x6d, 0x65, 0x64, 0x69, 0x61];
    let sunrpc: [u8; 6] = [0x73, 0x75, 0x6e, 0x72, 0x70, 0x63];
    proof {
        assert(sys@ =~= seq![0x2fu8, 0x73u8, 0x79u8, 0x73u8]);
        assert(procp@ =~= seq![0x2fu8, 0x70u8, 0x72u8, 0x6fu8, 0x63u8]);
        assert(run@ =~= seq![0x2fu8, 0x72u8, 0x75u8, 0x6eu8]);
        assert(run_media@ =~= seq![0x2fu8, 0x72u8, 0x75u8, 0x6eu8, 0x2fu8, 0x6du8, 0x65u8, 0x64u8, 0x69u8, 0x61u8]);
        assert(sunrpc@ =~= seq![0x73u8, 0x75u8, 0x6eu8, 0x72u8, 0x70u8, 0x63u8]);
    }
    let mp = m.mount_point.as_slice();
    !(ignored_fs(m.file_system.as_slice()) || starts_with_at(mp, 0, sys.as_slice())
        || starts_with_at(mp, 0, procp.as_slice()) || (starts_with_at(mp, 0, run.as_slice())
        && !starts_with_at(mp, 0, run_media.as_slice())) || starts_with_at(
        m.device.as_slice(),
        0,
        sunrpc.as_slice(),
    ))
}

/// The mounts of `/proc/mounts` that are disks (the text of the file), in order.
pub fn disk_mount_entries(content: &[u8]) -> (r: Vec<MountEntry>)
    ensures
        r@.map_values(|m: MountEntry| mount_view(m)) == spec_disk_mounts(content@),
{
    let mut out: Vec<MountEntry> = Vec::new();
    if !is_valid_utf8(content) {
        proof {
            assert(out@.map_values(|m: MountEntry| mount_view(m)) =~= Seq::<(Seq<u8>, Seq<u8>, Seq<u8>)>::empty());
        }
        return out;
    }
    let ls = lines(content);
    let ghost l = views(ls@);
    let mut i: usize = 0;
    while i < ls.len()
        invariant
            i <= ls@.len(),
            l == views(ls@),
            l == spec_lines(content@),
            out@.map_values(|m: MountEntry| mount_view(m)) == disk_mounts(l.take(i as int)),
        decreases ls@.len() - i,
    {
        let ghost before = out@.map_values(|m: MountEntry| mount_view(m));
        proof {
            assert(l.take(i + 1).drop_last() =~= l.take(i as int));
            assert(l.take(i + 1).last() == l[i as int]);
        }
        let m = parse_mount_line(ls[i].as_slice());
        if is_disk(&m) {
            let ghost mv = mount_view(m);
            out.push(m);
            proof {
                assert(out@.map_values(|m: MountEntry| mount_view(m)) =~= before.push(mv));
            }
        }
        i = i + 1;
    }
    proof {
        assert(l.take(l.len() as int) =~= l);
    }
    out
}

// ---------------------------------------------------------------------------
// Block devices
// ---------------------------------------------------------------------------

/// What to do with a mounted device to find its block device under `/sys/block`.
pub enum DeviceStep {
    /// Look again with this path (the device is a link elsewhere).
    Resolve(Vec<u8>),
    /// The name of the block device (or a path, when it could not be shortened).
    Block(Vec<u8>),
}

/// `s` without all its leading copies of `p` (non-empty) (`str::trim_start_matches`).
pub open spec fn strip_all_prefix(s: Seq<u8>, p: Seq<u8>) -> Seq<u8>
    decreases s.len(),
{
    if p.len() > 0 && has_prefix(s, p) {
        strip_all_prefix(s.subrange(p.len() as int, s.len() as int), p)
    } else {
        s
    }
}

/// `s` without its trailing decimal digits.
pub open spec fn strip_trailing_digits(s: Seq<u8>) -> Seq<u8>
    decreases s.len(),
{
    if s.len() > 0 && 0x30 <= s.last() <= 0x39 {
        strip_trailing_digits(s.drop_last())
    } else {
        s
    }
}

/// The index of the first `p` of `s`, if any.
pub open spec fn first_p(s: Seq<u8>) -> Option<int> {
    let k = crate::text::find_from(s, 0x70u8, 0);
    if k < s.len() {
        Some(k)
    } else {
        None
    }
}

/// The part of `canonical` between `/dev/` and its first `p` (or its end): the disk of
/// an NVMe or MMC partition. `None` when that slice panics: `canonical` is shorter than
/// 5 bytes, its first `p` comes before byte 5, or byte 5 is not where a character
/// starts.
pub open spec fn partition_disk(canonical: Seq<u8>) -> Option<Seq<u8>> {
    let end = match first_p(canonical) {
        Some(k) => k,
        None => canonical.len() as int,
    };
    if canonical.len() < 5 || end < 5 || (5 < canonical.len() && vstd::utf8::is_continuation_byte(canonical[5])) {
        None
    } else {
        Some(canonical.subrange(5, end))
    }
}

/// The step for a device named `device` whose canonical path is `canonical` (both as
/// text): mapper and root devices that are links are resolved again; the partitions
/// of SCSI and virtio disks, of NVMe disks and of MMC cards give their disk's name;
/// another device gives its name under `/dev/`. `None` when a slice panics.
pub open spec fn spec_device_step(device: Seq<u8>, canonical: Seq<u8>) -> Option<(bool, Seq<u8>)> {
    if has_prefix(device, seq![0x2fu8, 0x64u8, 0x65u8, 0x76u8, 0x2fu8, 0x6du8, 0x61u8, 0x70u8, 0x70u8, 0x65u8, 0x72u8, 0x2fu8]) || (!has_prefix(device, seq![0x2fu8, 0x64u8, 0x65u8, 0x76u8, 0x2fu8, 0x73u8, 0x64u8]) && !has_prefix(device, seq![0x2fu8, 0x64u8, 0x65u8, 0x76u8, 0x2fu8, 0x76u8, 0x64u8])
        && !has_prefix(device, seq![0x2fu8, 0x64u8, 0x65u8, 0x76u8, 0x2fu8, 0x6eu8, 0x76u8, 0x6du8, 0x65u8]) && has_prefix(device, seq![0x2fu8, 0x64u8, 0x65u8, 0x76u8, 0x2fu8, 0x72u8, 0x6fu8, 0x6fu8, 0x74u8])) {
        Some((canonical != device, canonical))
    } else if has_prefix(device, seq![0x2fu8, 0x64u8, 0x65u8, 0x76u8, 0x2fu8, 0x73u8, 0x64u8]) || has_prefix(device, seq![0x2fu8, 0x64u8, 0x65u8, 0x76u8, 0x2fu8, 0x76u8, 0x64u8]) {
        Some((false, strip_trailing_digits(strip_all_prefix(canonical, seq![0x2fu8, 0x64u8, 0x65u8, 0x76u8, 0x2fu8]))))
    } else if has_prefix(device, seq![0x2fu8, 0x64u8, 0x65u8, 0x76u8, 0x2fu8, 0x6eu8, 0x76u8, 0x6du8, 0x65u8]) || (!has_prefix(device, seq![0x2fu8, 0x64u8, 0x65u8, 0x76u8, 0x2fu8, 0x72u8, 0x6fu8, 0x6fu8, 0x74u8]) && has_prefix(
        device,
        seq![0x2fu8, 0x64u8, 0x65u8, 0x76u8, 0x2fu8, 0x6du8, 0x6du8, 0x63u8, 0x62u8, 0x6cu8, 0x6bu8],
    )) {
        match partition_disk(canonical) {
            Some(d) => Some((false, d)),
            None => None,
        }
    } else {
        Some((false, strip_all_prefix(canonical, seq![0x2fu8, 0x64u8, 0x65u8, 0x76u8, 0x2fu8])))
    }
}

/// The step as plain values: whether to resolve again, and the path or name.
pub open spec fn step_view(s: DeviceStep) -> (bool, Seq<u8>) {
    match s {
        DeviceStep::Resolve(p) => (true, p@),
        DeviceStep::Block(n) => (false, n@),
    }
}

fn strip_all_dev(s: &[u8]) -> (r: Vec<u8>)
    ensures
        r@ == strip_all_prefix(s@, seq![0x2fu8, 0x64u8, 0x65u8, 0x76u8, 0x2fu8]),
{
    let dev: [u8; 5] = [0x2f, 0x64, 0x65, 0x76, 0x2f];
    assert(dev@ =~= seq![0x2fu8, 0x64u8, 0x65u8, 0x76u8, 0x2fu8]);
    let mut i: usize = 0;
    proof {
        assert(s@.subrange(0, s@.len() as int) =~= s@);
    }
    loop
        invariant
            i <= s@.len(),
            dev@ == seq![0x2fu8, 0x64u8, 0x65u8, 0x76u8, 0x2fu8],
            strip_all_prefix(s@.subrange(i as int, s@.len() as int), seq![0x2fu8, 0x64u8, 0x65u8, 0x76u8, 0x2fu8]) == strip_all_prefix(s@, seq![0x2fu8, 0x64u8, 0x65u8, 0x76u8, 0x2fu8]),
        ensures
            i <= s@.len(),
            !(i + 5 <= s@.len() && s@.subrange(i as int, i + 5) == seq![0x2fu8, 0x64u8, 0x65u8, 0x76u8, 0x2fu8]),
            strip_all_prefix(s@.subrange(i as int, s@.len() as int), seq![0x2fu8, 0x64u8, 0x65u8, 0x76u8, 0x2fu8]) == strip_all_prefix(s@, seq![0x2fu8, 0x64u8, 0x65u8, 0x76u8, 0x2fu8]),
        decreases s@.len() - i,
    {
        let ok = starts_with_at(s, i, dev.as_slice());
        if !ok {
            break;
        }
        assert(i + 5 <= s@.len());
        assert(s@.len() == s.len());
        proof {
            let t = s@.subrange(i as int, s@.len() as int);
            assert(t.subrange(0, 5) =~= s@.subrange(i as int, i + 5));
            assert(t.subrange(5, t.len() as int) =~= s@.subrange(i + 5, s@.len() as int));
        }
        i = i + 5;
    }
    proof {
        let t = s@.subrange(i as int, s@.len() as int);
        if t.len() >= 5 {
            assert(t.subrange(0, 5) =~= s@.subrange(i as int, i + 5));
        }
        assert(s@.subrange(0, s@.len() as int) =~= s@);
    }
    copy_range(s, i, s.len())
}

fn strip_digits_end(s: &[u8]) -> (r: Vec<u8>)
    ensures
        r@ == strip_trailing_digits(s@),
{
    let mut j = s.len();
    proof {
        assert(s@.subrange(0, s@.len() as int) =~= s@);
    }
    while j > 0 && 0x30 <= s[j - 1] && s[j - 1] <= 0x39
        invariant
            j <= s@.len(),
            strip_trailing_digits(s@.subrange(0, j as int)) == strip_trailing_digits(s@),
        decreases j,
    {
        proof {
            assert(s@.subrange(0, j as int).drop_last() =~= s@.subrange(0, j - 1));
        }
        j = j - 1;
    }
    proof {
        assert(s@.subrange(0, s@.len() as int) =~= s@);
    }
    copy_range(s, 0, j)
}

/// The next step to find the block device of `device`, whose canonical path is
/// `canonical`; `None` when the slicing of the path panics.
pub fn device_step(device: &[u8], canonical: &[u8]) -> (r: Option<DeviceStep>)
    ensures
        match spec_device_step(device@, canonical@) {
            None => r is None,
            Some(v) => r matches Some(x) && step_view(x) == v,
        },
{
    let mapper: [u8; 12] = [0x2f, 0x64, 0x65, 0x76, 0x2f, 0x6d, 0x61, 0x70, 0x70, 0x65, 0x72, 0x2f];
    let sd: [u8; 7] = [0x2f, 0x64, 0x65, 0x76, 0x2f, 0x73, 0x64];
    let vd: [u8; 7] = [0x2f, 0x64, 0x65, 0x76, 0x2f, 0x76, 0x64];
    let nvme: [u8; 9] = [0x2f, 0x64, 0x65, 0x76, 0x2f, 0x6e, 0x76, 0x6d, 0x65];
    let root: [u8; 9] = [0x2f, 0x64, 0x65, 0x76, 0x2f, 0x72, 0x6f, 0x6f, 0x74];
    let mmc: [u8; 11] = [0x2f, 0x64, 0x65, 0x76, 0x2f, 0x6d, 0x6d, 0x63, 0x62, 0x6c, 0x6b];
    proof {
        assert(mapper@ =~= seq![0x2fu8, 0x64u8, 0x65u8, 0x76u8, 0x2fu8, 0x6du8, 0x61u8, 0x70u8, 0x70u8, 0x65u8, 0x72u8, 0x2fu8]);
        assert(sd@ =~= seq![0x2fu8, 0x64u8, 0x65u8, 0x76u8, 0x2fu8, 0x73u8, 0x64u8]);
        assert(vd@ =~= seq![0x2fu8, 0x64u8, 0x65u8, 0x76u8, 0x2fu8, 0x76u8, 0x64u8]);
        assert(nvme@ =~= seq![0x2fu8, 0x64u8, 0x65u8, 0x76u8, 0x2fu8, 0x6eu8, 0x76u8, 0x6du8, 0x65u8]);
        assert(root@ =~= seq![0x2fu8, 0x64u8, 0x65u8, 0x76u8, 0x2fu8, 0x72u8, 0x6fu8, 0x6fu8, 0x74u8]);
        assert(mmc@ =~= seq![0x2fu8, 0x64u8, 0x65u8, 0x76u8, 0x2fu8, 0x6du8, 0x6du8, 0x63u8, 0x62u8, 0x6cu8, 0x6bu8]);
    }
    let is_mapper = starts_with_at(device, 0, mapper.as_slice());
    let is_sd = starts_with_at(device, 0, sd.as_slice()) || starts_with_at(device, 0, vd.as_slice());
    let is_nvme = starts_with_at(device, 0, nvme.as_slice());
    let is_root = starts_with_at(device, 0, root.as_slice());
    let is_mmc = starts_with_at(device, 0, mmc.as_slice());
    if is_mapper || (!is_sd && !is_nvme && is_root) {
        let same = bytes_eq(canonical, device);
        let path = copy_range(canonical, 0, canonical.len());
        proof {
            assert(path@ =~= canonical@);
        }
        if same {
            Some(DeviceStep::Block(path))
        } else {
            Some(DeviceStep::Resolve(path))
        }
    } else if is_sd {
        let a = strip_all_dev(canonical);
        Some(DeviceStep::Block(strip_digits_end(a.as_slice())))
    } else if is_nvme || (!is_root && is_mmc) {
        let k = crate::text::find_byte_from(canonical, 0x70, 0);
        proof {
            crate::text::lemma_find_from(canonical@, 0x70u8, 0);
        }
        let end = k;
        if canonical.len() < 5 || end < 5 || (5 < canonical.len() && 0x80 <= canonical[5] && canonical[5] <= 0xbf) {
            return None;
        }
        Some(DeviceStep::Block(copy_range(canonical, 5, end)))
    } else {
        Some(DeviceStep::Block(strip_all_dev(canonical)))
    }
}

// ---------------------------------------------------------------------------
// Disks
// ---------------------------------------------------------------------------

/// A row of `/proc/diskstats`: the device name and the sectors read and written.
pub struct DiskStatRow {
    pub name: Vec<u8>,
    pub sectors_read: u64,
    pub sectors_written: u64,
}

/// The bytes read and written by the device `name`, from the first row of the
/// statistics that names it (sectors of 512 bytes): `Some(None)` when no row names
/// it, `None` when the multiplication overflows.
pub open spec fn spec_disk_io(stats: Seq<DiskStatRow>, name: Seq<u8>) -> Option<Option<(u64, u64)>>
    decreases stats.len(),
{
    if stats.len() == 0 {
        Some(None)
    } else if stats[0].name@ == name {
        let r = stats[0].sectors_read * 512;
        let w = stats[0].sectors_written * 512;
        if r > u64::MAX || w > u64::MAX {
            None
        } else {
            Some(Some((r as u64, w as u64)))
        }
    } else {
        spec_disk_io(stats.drop_first(), name)
    }
}

/// Looks up the traffic of a device in the rows of `/proc/diskstats`.
pub fn disk_io(stats: &[DiskStatRow], name: &[u8]) -> (r: Option<Option<(u64, u64)>>)
    ensures
        r == spec_disk_io(stats@, name@),
{
    let mut i: usize = 0;
    proof {
        assert(stats@.subrange(0, stats@.len() as int) =~= stats@);
    }
    while i < stats.len()
        invariant
            i <= stats@.len(),
            spec_disk_io(stats@.subrange(i as int, stats@.len() as int), name@) == spec_disk_io(
                stats@,
                name@,
            ),
        decreases stats@.len() - i,
    {
        let ghost t = stats@.subrange(i as int, stats@.len() as int);
        assert(t[0] == stats@[i as int]);
        if bytes_eq(stats[i].name.as_slice(), name) {
            let sr = stats[i].sectors_read;
            let sw = stats[i].sectors_written;
            if sr > u64::MAX / 512 || sw > u64::MAX / 512 {
                return None;
            }
            return Some(Some((sr * 512, sw * 512)));
        }
        proof {
            assert(t.drop_first() =~= stats@.subrange(i + 1, stats@.len() as int));
        }
        i = i + 1;
    }
    proof {
        assert(stats@.subrange(i as int, stats@.len() as int) =~= Seq::<DiskStatRow>::empty());
    }
    Some(None)
}

/// A disk of Linux.
pub struct DiskInner {
    pub kind: DiskKind,
    pub device_name: Vec<u8>,
    pub actual_device_name: Vec<u8>,
    pub file_system: Vec<u8>,
    pub mount_point: Vec<u8>,
    pub total_space: u64,
    pub available_space: u64,
    pub is_removable: bool,
    pub is_read_only: bool,
    pub io: IoCounters,
}

/// What `statvfs` says of a file system: the fragment size, the blocks, the blocks
/// available, and whether it is mounted read-only.
#[derive(Clone, Copy, Debug)]
pub struct FsStat {
    pub block_size: u64,
    pub blocks: u64,
    pub blocks_available: u64,
    pub read_only: bool,
}

/// Whether `entries` holds `name`.
pub open spec fn lists(entries: Seq<Vec<u8>>, name: Seq<u8>) -> bool {
    exists|i: int| 0 <= i < entries.len() && (#[trigger] entries[i])@ == name
}

impl DiskInner {
    /// A disk for a mount, from what was read of it: its kind, its `statvfs` (when the
    /// call succeeded), the removable devices (`/dev/disk/by-id/usb-*`), the name of its
    /// block device and its traffic. `None` when it holds no space.
    pub fn new_disk(
        device_name: Vec<u8>,
        mount_point: Vec<u8>,
        file_system: Vec<u8>,
        kind: DiskKind,
        stat: Option<FsStat>,
        removable_entries: &[Vec<u8>],
        actual_device_name: Vec<u8>,
        io: Option<(u64, u64)>,
    ) -> (r: Option<DiskInner>)
        ensures
            ({
                let total = match stat {
                    Some(s) => sat_mul(s.block_size, s.blocks),
                    None => 0,
                };
                &&& total == 0 ==> r is None
                &&& total != 0 ==> (r matches Some(d) && d.total_space == total && d.available_space
                    == match stat {
                    Some(s) => sat_mul(s.block_size, s.blocks_available),
                    None => 0,
                } && d.is_read_only == match stat {
                    Some(s) => s.read_only,
                    None => false,
                } && d.kind == kind && d.device_name@ == device_name@ && d.mount_point@
                    == mount_point@ && d.file_system@ == file_system@ && d.actual_device_name@
                    == actual_device_name@ && d.is_removable == lists(
                    removable_entries@,
                    device_name@,
                ) && d.io == (IoCounters {
                    read_bytes: match io {
                        Some(x) => x.0,
                        None => 0,
                    },
                    written_bytes: match io {
                        Some(x) => x.1,
                        None => 0,
                    },
                    old_read_bytes: 0,
                    old_written_bytes: 0,
                }))
            }),
    {
        let (total, available, is_read_only) = match stat {
            Some(s) => (
                saturating_mul(s.block_size, s.blocks),
                saturating_mul(s.block_size, s.blocks_available),
                s.read_only,
            ),
            None => (0, 0, false),
        };
        if total == 0 {
            return None;
        }
        let mut is_removable = false;
        let mut i: usize = 0;
        while i < removable_entries.len()
            invariant
                i <= removable_entries@.len(),
                is_removable == exists|k: int| 0 <= k < i && (#[trigger] removable_entries@[k])@
                    == device_name@,
            decreases removable_entries@.len() - i,
        {
            if bytes_eq(removable_entries[i].as_slice(), device_name.as_slice()) {
                is_removable = true;
            }
            i = i + 1;
        }
        let (read_bytes, written_bytes) = match io {
            Some(x) => x,
            None => (0, 0),
        };
        Some(DiskInner {
            kind,
            device_name,
            actual_device_name,
            file_system,
            mount_point,
            total_space: total,
            available_space: available,
            is_removable,
            is_read_only,
            io: IoCounters { read_bytes, written_bytes, old_read_bytes: 0, old_written_bytes: 0 },
        })
    }

    /// Refreshes the traffic and the free space: nothing changes when the traffic of the
    /// device could not be read (`io` is `None`); otherwise the counters roll and, when
    /// `statvfs` succeeded (`stat`), the available space is updated. Whether both
    /// succeeded.
    pub fn efficient_refresh(&mut self, io: Option<(u64, u64)>, stat: Option<FsStat>) -> (r: bool)
        ensures
            io is None ==> !r && final(self).io == old(self).io && final(self).available_space
                == old(self).available_space,
            io matches Some(x) ==> (final(self).io == (IoCounters {
                read_bytes: x.0,
                written_bytes: x.1,
                old_read_bytes: old(self).io.read_bytes,
                old_written_bytes: old(self).io.written_bytes,
            }) && r == stat is Some && final(self).available_space == match stat {
                Some(s) => sat_mul(s.block_size, s.blocks_available),
                None => old(self).available_space,
            }),
            final(self).total_space == old(self).total_space,
            final(self).kind == old(self).kind,
    {
        let (read_bytes, written_bytes) = match io {
            Some(x) => x,
            None => return false,
        };
        self.io = IoCounters {
            read_bytes,
            written_bytes,
            old_read_bytes: self.io.read_bytes,
            old_written_bytes: self.io.written_bytes,
        };
        match stat {
            Some(s) => {
                self.available_space = saturating_mul(s.block_size, s.blocks_available);
                true
            },
            None => false,
        }
    }
}

impl DiskInner {
    /// Its kind.
    pub fn kind(&self) -> (r: DiskKind)
        ensures
            r == self.kind,
    {
        self.kind
    }

    /// The name of its device.
    pub fn name(&self) -> (r: &[u8])
        ensures
            r@ == self.device_name@,
    {
        self.device_name.as_slice()
    }

    /// Its file system.
    pub fn file_system(&self) -> (r: &[u8])
        ensures
            r@ == self.file_system@,
    {
        self.file_system.as_slice()
    }

    /// Where it is mounted.
    pub fn mount_point(&self) -> (r: &[u8])
        ensures
            r@ == self.mount_point@,
    {
        self.mount_point.as_slice()
    }

    /// Its size in bytes.
    pub fn total_space(&self) -> (r: u64)
        ensures
            r == self.total_space,
    {
        self.total_space
    }

    /// Its free space in bytes.
    pub fn available_space(&self) -> (r: u64)
        ensures
            r == self.available_space,
    {
        self.available_space
    }

    /// Whether it is removable.
    pub fn is_removable(&self) -> (r: bool)
        ensures
            r == self.is_removable,
    {
        self.is_removable
    }

    /// Whether it is mounted read-only.
    pub fn is_read_only(&self) -> (r: bool)
        ensures
            r == self.is_read_only,
    {
        self.is_read_only
    }

    /// The bytes read and written, in total and since the refresh before.
    pub fn usage(&self) -> (r: DiskUsage)
        ensures
            r.total_read_bytes == self.io.read_bytes,
            r.total_written_bytes == self.io.written_bytes,
            r.read_bytes == self.io.read_bytes.saturating_sub(self.io.old_read_bytes),
            r.written_bytes == self.io.written_bytes.saturating_sub(self.io.old_written_bytes),
    {
        self.io.usage()
    }
}

/// The disks of `found` that exist, in order.
pub open spec fn found_disks(found: Seq<Option<DiskInner>>) -> Seq<DiskInner>
    decreases found.len(),
{
    if found.len() == 0 {
        seq![]
    } else {
        let rest = found_disks(found.drop_last());
        match found.last() {
            Some(d) => rest.push(d),
            None => rest,
        }
    }
}

/// The disks of Linux.
pub struct DisksInner {
    pub disks: Vec<DiskInner>,
}

impl DisksInner {
    /// No disk yet.
    pub fn new() -> (r: DisksInner)
        ensures
            r.disks@.len() == 0,
    {
        DisksInner { disks: Vec::new() }
    }

    /// Replaces the list by the disks made for the mounts of `/proc/mounts` (one entry
    /// per mount that is a disk; `None` where `new_disk` found no space).
    pub fn refresh_list(&mut self, found: Vec<Option<DiskInner>>)
        ensures
            final(self).disks@ == found_disks(found@),
    {
        self.disks.clear();
        let ghost all = found@;
        let n = found.len();
        let mut rest = found;
        let mut i: usize = 0;
        while i < n
            invariant
                i <= n == all.len(),
                rest@ == all.subrange(i as int, n as int),
                self.disks@ == found_disks(all.take(i as int)),
            decreases n - i,
        {
            let d = rest.remove(0);
            proof {
                assert(all.take(i + 1).drop_last() =~= all.take(i as int));
                assert(all.take(i + 1).last() == all[i as int]);
            }
            match d {
                Some(disk) => self.disks.push(disk),
                None => {},
            }
            i = i + 1;
        }
        proof {
            assert(all.take(n as int) =~= all);
        }
    }

    /// The disks.
    pub fn list(&self) -> (r: &[DiskInner])
        ensures
            r@ == self.disks@,
    {
        self.disks.as_slice()
    }

    /// The disks, to change in place.
    pub fn list_mut(&mut self) -> (r: &mut Vec<DiskInner>)
        ensures
            *r == old(self).disks,
            final(self).disks == *final(r),
    {
        &mut self.disks
    }
}


proof fn lemma_disk_mounts_are_disks(ls: Seq<Seq<u8>>)
    ensures
        forall|k: int| 0 <= k < disk_mounts(ls).len() ==> {
            let m = #[trigger] disk_mounts(ls)[k];
            is_disk_mount(m.0, m.1, m.2)
        },
    decreases ls.len(),
{
    if ls.len() > 0 {
        lemma_disk_mounts_are_disks(ls.drop_last());
        let rest = disk_mounts(ls.drop_last());
        assert forall|k: int| 0 <= k < disk_mounts(ls).len() implies {
            let m = #[trigger] disk_mounts(ls)[k];
            is_disk_mount(m.0, m.1, m.2)
        } by {
            if k < rest.len() {
                assert(disk_mounts(ls)[k] == rest[k]);
            }
        }
    }
}

/// No mount that `disk_mount_entries` lists has a pseudo file system or one that holds
/// no disk worth listing: `rootfs`, `sysfs`, `proc`, `devtmpfs`, `cgroup`, `cgroup2`,
/// `pstore`, `squashfs`, `rpc_pipefs`, `iso9660`, `tmpfs`, `cifs`, `nfs`, `nfs4`; and
/// none is mounted under `/sys` or `/proc`.
pub proof fn disk_mounts_skip_pseudo_file_systems(content: Seq<u8>)
    ensures
        forall|k: int| 0 <= k < spec_disk_mounts(content).len() ==> {
            let fs = (#[trigger] spec_disk_mounts(content)[k]).2;
            let mp = spec_disk_mounts(content)[k].1;
            &&& fs != seq![0x72u8, 0x6fu8, 0x6fu8, 0x74u8, 0x66u8, 0x73u8]
            &&& fs != seq![0x73u8, 0x79u8, 0x73u8, 0x66u8, 0x73u8]
            &&& fs != seq![0x70u8, 0x72u8, 0x6fu8, 0x63u8]
            &&& fs != seq![0x64u8, 0x65u8, 0x76u8, 0x74u8, 0x6du8, 0x70u8, 0x66u8, 0x73u8]
            &&& fs != seq![0x63u8, 0x67u8, 0x72u8, 0x6fu8, 0x75u8, 0x70u8]
            &&& fs != seq![0x63u8, 0x67u8, 0x72u8, 0x6fu8, 0x75u8, 0x70u8, 0x32u8]
            &&& fs != seq![0x70u8, 0x73u8, 0x74u8, 0x6fu8, 0x72u8, 0x65u8]
            &&& fs != seq![0x73u8, 0x71u8, 0x75u8, 0x61u8, 0x73u8, 0x68u8, 0x66u8, 0x73u8]
            &&& fs != seq![0x72u8, 0x70u8, 0x63u8, 0x5fu8, 0x70u8, 0x69u8, 0x70u8, 0x65u8, 0x66u8, 0x73u8]
            &&& fs != seq![0x69u8, 0x73u8, 0x6fu8, 0x39u8, 0x36u8, 0x36u8, 0x30u8]
            &&& fs != seq![0x74u8, 0x6du8, 0x70u8, 0x66u8, 0x73u8]
            &&& fs != seq![0x63u8, 0x69u8, 0x66u8, 0x73u8]
            &&& fs != seq![0x6eu8, 0x66u8, 0x73u8]
            &&& fs != seq![0x6eu8, 0x66u8, 0x73u8, 0x34u8]
            &&& !(mp.len() >= 4 && mp.subrange(0, 4) == seq![0x2fu8, 0x73u8, 0x79u8, 0x73u8])
            &&& !(mp.len() >= 5 && mp.subrange(0, 5) == seq![0x2fu8, 0x70u8, 0x72u8, 0x6fu8, 0x63u8])
        },
{
    if valid_utf8(content) {
        lemma_disk_mounts_are_disks(spec_lines(content));
    }
}


/// The disk mounts of the lines of a mount table are the mounts of those lines that
/// `is_disk_mount` keeps, in the table's order: none is dropped, added or moved.
pub proof fn disk_mounts_keep_the_passing_mounts(ls: Seq<Seq<u8>>)
    ensures
        disk_mounts(ls) == ls.map_values(|l: Seq<u8>| mount_of(l)).filter(
            |m: (Seq<u8>, Seq<u8>, Seq<u8>)| is_disk_mount(m.0, m.1, m.2),
        ),
    decreases ls.len(),
{
    reveal(Seq::filter);
    let f = |l: Seq<u8>| mount_of(l);
    let pred = |m: (Seq<u8>, Seq<u8>, Seq<u8>)| is_disk_mount(m.0, m.1, m.2);
    if ls.len() == 0 {
        assert(ls.map_values(f) =~= Seq::<(Seq<u8>, Seq<u8>, Seq<u8>)>::empty());
    } else {
        disk_mounts_keep_the_passing_mounts(ls.drop_last());
        assert(ls.map_values(f).drop_last() =~= ls.drop_last().map_values(f));
        assert(ls.map_values(f).last() == mount_of(ls.last()));
    }
}

/// Which mounts are disks: exactly those whose file system is none of `rootfs`,
/// `sysfs`, `proc`, `devtmpfs`, `cgroup`, `cgroup2`, `pstore`, `squashfs`, `rpc_pipefs`,
/// `iso9660`, `tmpfs`, `cifs`, `nfs`, `nfs4`, that are mounted neither under `/sys` nor
/// under `/proc` nor under `/run` (but `/run/media` is kept), and whose device does not
/// start with `sunrpc`.
pub proof fn disk_mount_rule(device: Seq<u8>, mp: Seq<u8>, fs: Seq<u8>)
    ensures
        is_disk_mount(device, mp, fs) <==> {
            &&& fs != seq![0x72u8, 0x6fu8, 0x6fu8, 0x74u8, 0x66u8, 0x73u8]
            &&& fs != seq![0x73u8, 0x79u8, 0x73u8, 0x66u8, 0x73u8]
            &&& fs != seq![0x70u8, 0x72u8, 0x6fu8, 0x63u8]
            &&& fs != seq![0x64u8, 0x65u8, 0x76u8, 0x74u8, 0x6du8, 0x70u8, 0x66u8, 0x73u8]
            &&& fs != seq![0x63u8, 0x67u8, 0x72u8, 0x6fu8, 0x75u8, 0x70u8]
            &&& fs != seq![0x63u8, 0x67u8, 0x72u8, 0x6fu8, 0x75u8, 0x70u8, 0x32u8]
            &&& fs != seq![0x70u8, 0x73u8, 0x74u8, 0x6fu8, 0x72u8, 0x65u8]
            &&& fs != seq![0x73u8, 0x71u8, 0x75u8, 0x61u8, 0x73u8, 0x68u8, 0x66u8, 0x73u8]
            &&& fs != seq![0x72u8, 0x70u8, 0x63u8, 0x5fu8, 0x70u8, 0x69u8, 0x70u8, 0x65u8, 0x66u8, 0x73u8]
            &&& fs != seq![0x69u8, 0x73u8, 0x6fu8, 0x39u8, 0x36u8, 0x36u8, 0x30u8]
            &&& fs != seq![0x74u8, 0x6du8, 0x70u8, 0x66u8, 0x73u8]
            &&& fs != seq![0x63u8, 0x69u8, 0x66u8, 0x73u8]
            &&& fs != seq![0x6eu8, 0x66u8, 0x73u8]
            &&& fs != seq![0x6eu8, 0x66u8, 0x73u8, 0x34u8]
            &&& !(mp.len() >= 4 && mp.subrange(0, 4) == seq![0x2fu8, 0x73u8, 0x79u8, 0x73u8])
            &&& !(mp.len() >= 5 && mp.subrange(0, 5) == seq![0x2fu8, 0x70u8, 0x72u8, 0x6fu8, 0x63u8])
            &&& !(mp.len() >= 4 && mp.subrange(0, 4) == seq![0x2fu8, 0x72u8, 0x75u8, 0x6eu8] && !(mp.len() >= 10
                && mp.subrange(0, 10) == seq![0x2fu8, 0x72u8, 0x75u8, 0x6eu8, 0x2fu8, 0x6du8, 0x65u8, 0x64u8, 0x69u8, 0x61u8]))
            &&& !(device.len() >= 6 && device.subrange(0, 6) == seq![0x73u8, 0x75u8, 0x6eu8, 0x72u8, 0x70u8, 0x63u8])
        },
{
}


/// The traffic of a device comes from the first row of `/proc/diskstats` that names it,
/// its sector counts times 512 bytes (`None` when that overflows); with no such row, no
/// traffic is known (`Some(None)`).
pub proof fn disk_io_from_first_named_row(stats: Seq<DiskStatRow>, name: Seq<u8>)
    ensures
        (forall|k: int| 0 <= k < stats.len() ==> (#[trigger] stats[k]).name@ != name) ==> spec_disk_io(stats, name)
            == Some(None::<(u64, u64)>),
        forall|k: int|
            0 <= k < stats.len() && (#[trigger] stats[k]).name@ == name && (forall|j: int| 0 <= j < k ==> stats[j].name@ != name)
                ==> spec_disk_io(stats, name) == if stats[k].sectors_read * 512 > u64::MAX || stats[k].sectors_written * 512
                > u64::MAX {
                None
            } else {
                Some(Some(((stats[k].sectors_read * 512) as u64, (stats[k].sectors_written * 512) as u64)))
            },
    decreases stats.len(),
{
    if stats.len() > 0 {
        let t = stats.drop_first();
        disk_io_from_first_named_row(t, name);
        assert forall|k: int| 1 <= k < stats.len() implies #[trigger] stats[k] == t[k - 1] by {}
        if stats[0].name@ != name {
            assert forall|k: int|
                0 <= k < stats.len() && (#[trigger] stats[k]).name@ == name && (forall|j: int| 0 <= j < k ==> stats[j].name@ != name)
                implies spec_disk_io(stats, name) == if stats[k].sectors_read * 512 > u64::MAX || stats[k].sectors_written * 512
                > u64::MAX {
                None
            } else {
                Some(Some(((stats[k].sectors_read * 512) as u64, (stats[k].sectors_written * 512) as u64)))
            } by {
                assert(k >= 1);
                assert(t[k - 1] == stats[k]);
                assert forall|j: int| 0 <= j < k - 1 implies t[j].name@ != name by {
                    assert(t[j] == stats[j + 1]);
                }
            }
            if forall|k: int| 0 <= k < stats.len() ==> (#[trigger] stats[k]).name@ != name {
                assert forall|k: int| 0 <= k < t.len() implies (#[trigger] t[k]).name@ != name by {
                    assert(t[k] == stats[k + 1]);
                }
            }
        }
    }
}

} // verus!
