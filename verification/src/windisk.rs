//! The disks of Windows: the wide strings that the volume calls fill, the disks that
//! a volume gives (one per mount path), and what a refresh of a disk changes.
use vstd::prelude::*;
use crate::common::{IoCounters, DiskUsage};
use crate::linux_disk::DiskKind;
use crate::winsys::from_zero_terminated;

verus! {

// ---------------------------------------------------------------------------
// Wide strings
// ---------------------------------------------------------------------------

/// The index of the first NUL of `w` at or after `i`, or its length.
pub open spec fn nul_from(w: Seq<u16>, i: int) -> int
    decreases w.len() - i,
{
    if i < 0 || i >= w.len() {
        w.len() as int
    } else if w[i] == 0 {
        i
    } else {
        nul_from(w, i + 1)
    }
}

pub proof fn lemma_nul_from(w: Seq<u16>, i: int)
    requires
        0 <= i <= w.len(),
    ensures
        i <= nul_from(w, i) <= w.len(),
        nul_from(w, i) < w.len() ==> w[nul_from(w, i)] == 0,
        forall|j: int| i <= j < nul_from(w, i) ==> w[j] != 0,
    decreases w.len() - i,
{
    if i < w.len() && w[i] != 0 {
        lemma_nul_from(w, i + 1);
    }
}

pub(crate) fn nul_index(w: &[u16], start: usize) -> (r: usize)
    requires
        start <= w@.len(),
    ensures
        r == nul_from(w@, start as int),
{
    let mut i = start;
    while i < w.len() && w[i] != 0
        invariant
            start <= i <= w@.len(),
            nul_from(w@, start as int) == nul_from(w@, i as int),
        decreases w@.len() - i,
    {
        i = i + 1;
    }
    i
}

/// The wide string in `w` before its first NUL (all of it without one).
pub fn wide_before_nul(w: &[u16]) -> (r: Vec<u16>)
    ensures
        r@ == w@.subrange(0, nul_from(w@, 0)),
{
    let k = nul_index(w, 0);
    proof {
        lemma_nul_from(w@, 0);
    }
    let mut out: Vec<u16> = Vec::new();
    let mut i: usize = 0;
    while i < k
        invariant
            k == nul_from(w@, 0),
            k <= w@.len(),
            i <= k,
            out@ == w@.subrange(0, i as int),
        decreases k - i,
    {
        out.push(w[i]);
        proof {
            assert(out@ =~= w@.subrange(0, i + 1));
        }
        i = i + 1;
    }
    out
}

/// The strings of a list of NUL-terminated wide strings ended by an empty one
/// (`GetVolumePathNamesForVolumeNameW`), from `i` on, each with its NUL.
pub open spec fn multi_strings_from(w: Seq<u16>, i: int) -> Seq<Seq<u16>>
    decreases w.len() - i,
{
    if i < 0 || i >= w.len() || w[i] == 0 {
        seq![]
    } else {
        let e = nul_from(w, i);
        proof {
            lemma_nul_from(w, i);
        }
        if e >= w.len() {
            seq![]
        } else {
            seq![w.subrange(i, e + 1)] + multi_strings_from(w, e + 1)
        }
    }
}

/// Whether the list in `w` from `i` on is well formed: every string it reads has its
/// NUL (the reading panics on one that runs to the end of the buffer).
pub open spec fn multi_strings_ok(w: Seq<u16>, i: int) -> bool
    decreases w.len() - i,
{
    if i < 0 || i >= w.len() || w[i] == 0 {
        true
    } else {
        let e = nul_from(w, i);
        proof {
            lemma_nul_from(w, i);
        }
        e < w.len() && multi_strings_ok(w, e + 1)
    }
}

/// The strings of a list of NUL-terminated wide strings, each with its NUL.
pub fn split_multi_strings(w: &[u16]) -> (r: Vec<Vec<u16>>)
    requires
        multi_strings_ok(w@, 0),
    ensures
        r@.map_values(|v: Vec<u16>| v@) == multi_strings_from(w@, 0),
{
    let n = w.len();
    let mut out: Vec<Vec<u16>> = Vec::new();
    let mut i: usize = 0;
    while i < n && w[i] != 0
        invariant
            i <= n == w@.len(),
            multi_strings_ok(w@, i as int),
            out@.map_values(|v: Vec<u16>| v@) + multi_strings_from(w@, i as int) == multi_strings_from(w@, 0),
        decreases n - i,
    {
        let e = nul_index(w, i);
        proof {
            lemma_nul_from(w@, i as int);
        }
        let mut piece: Vec<u16> = Vec::new();
        let mut k: usize = i;
        while k <= e
            invariant
                i <= k <= e + 1,
                e < n == w@.len(),
                piece@ == w@.subrange(i as int, k as int),
            decreases e + 1 - k,
        {
            piece.push(w[k]);
            proof {
                assert(piece@ =~= w@.subrange(i as int, k + 1));
            }
            k = k + 1;
        }
        let ghost before = out@.map_values(|v: Vec<u16>| v@);
        out.push(piece);
        proof {
            assert(out@.map_values(|v: Vec<u16>| v@) =~= before.push(w@.subrange(i as int, e + 1)));
            assert(before + multi_strings_from(w@, i as int) =~= before.push(w@.subrange(i as int, e + 1))
                + multi_strings_from(w@, e + 1));
        }
        i = e + 1;
    }
    proof {
        assert(multi_strings_from(w@, i as int) =~= Seq::<Seq<u16>>::empty());
        assert(out@.map_values(|v: Vec<u16>| v@) + Seq::<Seq<u16>>::empty() =~= out@.map_values(|v: Vec<u16>| v@));
    }
    out
}

/// The device path of a volume from its GUID path (`\\?\Volume{...}\` and its NUL):
/// without the trailing backslash, NUL-terminated.
pub fn device_path_of(volume_name: &[u16]) -> (r: Vec<u16>)
    requires
        volume_name@.len() >= 2,
    ensures
        r@ == volume_name@.subrange(0, volume_name@.len() - 2).push(0u16),
{
    let n = volume_name.len() - 2;
    let mut out: Vec<u16> = Vec::new();
    let mut i: usize = 0;
    while i < n
        invariant
            n == volume_name@.len() - 2,
            i <= n,
            out@ == volume_name@.subrange(0, i as int),
        decreases n - i,
    {
        out.push(volume_name[i]);
        proof {
            assert(out@ =~= volume_name@.subrange(0, i + 1));
        }
        i = i + 1;
    }
    out.push(0);
    out
}

// ---------------------------------------------------------------------------
// Figures
// ---------------------------------------------------------------------------

/// The kind of a disk from the seek-penalty query: unknown when the query failed or
/// gave a reply of another size, else a hard disk when it incurs a seek penalty, a
/// solid-state disk otherwise.
pub fn kind_from_seek_penalty(query_ok: bool, size_ok: bool, incurs_seek_penalty: bool) -> (r: DiskKind)
    ensures
        r == (if !query_ok || !size_ok {
            DiskKind::Unknown(-1isize)
        } else if incurs_seek_penalty {
            DiskKind::HDD
        } else {
            DiskKind::SSD
        }),
{
    if !query_ok || !size_ok {
        DiskKind::Unknown(-1)
    } else if incurs_seek_penalty {
        DiskKind::HDD
    } else {
        DiskKind::SSD
    }
}

/// The bytes read and written from the disk performance counters: `None` when one of
/// them is negative.
pub fn io_from_performance(bytes_read: i64, bytes_written: i64) -> (r: Option<(u64, u64)>)
    ensures
        r == (if bytes_read < 0 || bytes_written < 0 {
            None
        } else {
            Some((bytes_read as u64, bytes_written as u64))
        }),
{
    if bytes_read < 0 || bytes_written < 0 {
        None
    } else {
        Some((bytes_read as u64, bytes_written as u64))
    }
}

/// Which figures of a disk a refresh updates.
#[derive(Clone, Copy, Debug)]
pub struct DiskRefreshKind {
    pub kind: bool,
    pub details: bool,
    pub io_usage: bool,
}

/// A disk of Windows: a mount path of a volume.
pub struct DiskInner {
    pub kind: DiskKind,
    pub name: Vec<u16>,
    pub file_system: Vec<u16>,
    /// The mount path, NUL-terminated.
    pub mount_point: Vec<u16>,
    /// The mount path without its NUL.
    pub s_mount_point: Vec<u16>,
    pub total_space: u64,
    pub available_space: u64,
    pub is_removable: bool,
    pub is_read_only: bool,
    pub device_path: Vec<u16>,
    pub io: IoCounters,
}

/// What was read of a volume to list its disks.
pub struct VolumeReadings {
    /// The name and file system buffers of `GetVolumeInformationW`, and whether its
    /// flags say the volume is read-only.
    pub name: Vec<u16>,
    pub file_system: Vec<u16>,
    pub read_only: bool,
    /// The size and free space of the first mount path (`None` when they could not be read).
    pub size: Option<(u64, u64)>,
    /// The kind of disk, when it was read.
    pub kind: DiskKind,
    /// The bytes read and written, when they could be read.
    pub io: Option<(u64, u64)>,
}

impl DiskInner {
    /// Its kind.
    pub fn kind(&self) -> (r: DiskKind)
        ensures
            r == self.kind,
    {
        self.kind
    }

    /// Its size in bytes.
    pub fn total_space(&self) -> (r: u64)
        ensures
            r == self.total_space,
    {
        self.total_space
    }

    /// Its free space in bytes.
    pub fn available_space(&self) -> (r: u64)
        ensures
            r == self.available_space,
    {
        self.available_space
    }

    /// Whether it is removable.
    pub fn is_removable(&self) -> (r: bool)
        ensures
            r == self.is_removable,
    {
        self.is_removable
    }

    /// Whether it is read-only.
    pub fn is_read_only(&self) -> (r: bool)
        ensures
            r == self.is_read_only,
    {
        self.is_read_only
    }

    /// The bytes read and written.
    pub fn usage(&self) -> (r: DiskUsage)
        ensures
            r.total_read_bytes == self.io.read_bytes,
            r.total_written_bytes == self.io.written_bytes,
            r.read_bytes == self.io.read_bytes.saturating_sub(self.io.old_read_bytes),
            r.written_bytes == self.io.written_bytes.saturating_sub(self.io.old_written_bytes),
    {
        self.io.usage()
    }

    /// Whether a refresh with `refreshes` reads the kind of the disk: it is asked for
    /// and not known yet.
    pub fn needs_kind(&self, refreshes: DiskRefreshKind) -> (r: bool)
        ensures
            r == (refreshes.kind && self.kind == DiskKind::Unknown(-1isize)),
    {
        refreshes.kind && match self.kind {
            DiskKind::Unknown(v) => v == -1,
            _ => false,
        }
    }

    /// A refresh with what was read for it: the kind (when `needs_kind` asked for it),
    /// the traffic (when asked for; `None` when it could not be read, which ends the
    /// refresh there) and the size (when the details are asked for; `None` counts as
    /// 0). The refresh reports no success.
    pub fn refresh_specifics(
        &mut self,
        refreshes: DiskRefreshKind,
        kind: DiskKind,
        io: Option<(u64, u64)>,
        size: Option<(u64, u64)>,
    ) -> (r: bool)
        ensures
            !r,
            final(self).kind == (if refreshes.kind && old(self).kind == DiskKind::Unknown(-1isize) {
                kind
            } else {
                old(self).kind
            }),
            refreshes.io_usage && io is None ==> final(self).io == old(self).io && final(self).total_space
                == old(self).total_space && final(self).available_space == old(self).available_space,
            refreshes.io_usage ==> match io {
                Some(x) => final(self).io == (IoCounters {
                    read_bytes: x.0,
                    written_bytes: x.1,
                    old_read_bytes: old(self).io.read_bytes,
                    old_written_bytes: old(self).io.written_bytes,
                }),
                None => true,
            },
            !refreshes.io_usage ==> final(self).io == old(self).io,
            (!refreshes.io_usage || io is Some) ==> (if refreshes.details {
                (final(self).total_space, final(self).available_space) == match size {
                    Some(s) => s,
                    None => (0u64, 0u64),
                }
            } else {
                final(self).total_space == old(self).total_space && final(self).available_space
                    == old(self).available_space
            }),
    {
        if self.needs_kind(refreshes) {
            self.kind = kind;
        }
        if refreshes.io_usage {
            let (read_bytes, written_bytes) = match io {
                Some(x) => x,
                None => return false,
            };
            self.io = IoCounters {
                read_bytes,
                written_bytes,
                old_read_bytes: self.io.read_bytes,
                old_written_bytes: self.io.written_bytes,
            };
        }
        if refreshes.details {
            let (total, available) = match size {
                Some(s) => s,
                None => (0, 0),
            };
            self.total_space = total;
            self.available_space = available;
        }
        false
    }
}

/// Whether a volume of the drive type reported holds disks: fixed and removable
/// drives do.
pub fn lists_drive(fixed: bool, removable: bool) -> (r: bool)
    ensures
        r == (fixed || removable),
{
    fixed || removable
}

/// The disks of a volume: one per mount path (each NUL-terminated), all sharing the
/// volume's figures. Removability and read-only state are read only with the
/// details; the size only with the details (0 otherwise or when unreadable); the
/// traffic only when asked for (0 when unreadable).
pub fn volume_disks(
    refreshes: DiskRefreshKind,
    removable_drive: bool,
    volume_name: &[u16],
    readings: &VolumeReadings,
    mount_paths: Vec<Vec<u16>>,
) -> (r: Vec<DiskInner>)
    requires
        volume_name@.len() >= 2,
        forall|i: int| 0 <= i < mount_paths@.len() ==> (#[trigger] mount_paths@[i])@.len() >= 1,
    ensures
        r@.len() == mount_paths@.len(),
        forall|i: int| 0 <= i < r@.len() ==> {
            let d = #[trigger] r@[i];
            &&& d.mount_point@ == mount_paths@[i]@
            &&& d.s_mount_point@ == mount_paths@[i]@.subrange(0, mount_paths@[i]@.len() - 1)
            &&& d.name@ == readings.name@.subrange(0, nul_from(readings.name@, 0))
            &&& d.file_system@ == readings.file_system@.subrange(0, nul_from(readings.file_system@, 0))
            &&& d.device_path@ == volume_name@.subrange(0, volume_name@.len() - 2).push(0u16)
            &&& d.is_removable == (refreshes.details && removable_drive)
            &&& d.is_read_only == (refreshes.details && readings.read_only)
            &&& d.kind == (if refreshes.kind { readings.kind } else { DiskKind::Unknown(-1isize) })
            &&& (d.total_space, d.available_space) == (if refreshes.details {
                match readings.size {
                    Some(s) => s,
                    None => (0u64, 0u64),
                }
            } else {
                (0u64, 0u64)
            })
            &&& d.io == (if refreshes.io_usage {
                match readings.io {
                    Some(x) => IoCounters { read_bytes: x.0, written_bytes: x.1, old_read_bytes: 0, old_written_bytes: 0 },
                    None => IoCounters { read_bytes: 0, written_bytes: 0, old_read_bytes: 0, old_written_bytes: 0 },
                }
            } else {
                IoCounters { read_bytes: 0, written_bytes: 0, old_read_bytes: 0, old_written_bytes: 0 }
            })
        },
{
    let device_path = device_path_of(volume_name);
    let is_removable = refreshes.details && removable_drive;
    let is_read_only = refreshes.details && readings.read_only;
    let (total_space, available_space) = if refreshes.details {
        match readings.size {
            Some(s) => s,
            None => (0, 0),
        }
    } else {
        (0, 0)
    };
    let kind = if refreshes.kind { readings.kind } else { DiskKind::Unknown(-1) };
    let (read_bytes, written_bytes) = if refreshes.io_usage {
        match readings.io {
            Some(x) => x,
            None => (0, 0),
        }
    } else {
        (0, 0)
    };
    let name = wide_before_nul(readings.name.as_slice());
    let file_system = wide_before_nul(readings.file_system.as_slice());
    let ghost all = mount_paths@;
    let n = mount_paths.len();
    let mut rest = mount_paths;
    let mut out: Vec<DiskInner> = Vec::new();
    let mut i: usize = 0;
    while i < n
        invariant
            i <= n == all.len(),
            rest@ == all.subrange(i as int, n as int),
            forall|j: int| 0 <= j < all.len() ==> (#[trigger] all[j])@.len() >= 1,
            out@.len() == i,
            forall|j: int| 0 <= j < i ==> {
                let d = #[trigger] out@[j];
                &&& d.mount_point@ == all[j]@
                &&& d.s_mount_point@ == all[j]@.subrange(0, all[j]@.len() - 1)
                &&& d.name@ == name@
                &&& d.file_system@ == file_system@
                &&& d.device_path@ == device_path@
                &&& d.is_removable == is_removable
                &&& d.is_read_only == is_read_only
                &&& d.kind == kind
                &&& d.total_space == total_space
                &&& d.available_space == available_space
                &&& d.io == IoCounters { read_bytes, written_bytes, old_read_bytes: 0, old_written_bytes: 0 }
            },
        decreases n - i,
    {
        let mount_path = rest.remove(0);
        assert(mount_path == all[i as int]);
        let s_mount_point = {
            let m = mount_path.len() - 1;
            let mut v: Vec<u16> = Vec::new();
            let mut k: usize = 0;
            while k < m
                invariant
                    m == mount_path@.len() - 1,
                    k <= m,
                    v@ == mount_path@.subrange(0, k as int),
                decreases m - k,
            {
                v.push(mount_path[k]);
                proof {
                    assert(v@ =~= mount_path@.subrange(0, k + 1));
                }
                k = k + 1;
            }
            v
        };
        let name_copy = copy_wide(&name);
        let fs_copy = copy_wide(&file_system);
        let path_copy = copy_wide(&device_path);
        out.push(DiskInner {
            kind,
            name: name_copy,
            file_system: fs_copy,
            mount_point: mount_path,
            s_mount_point,
            total_space,
            available_space,
            is_removable,
            is_read_only,
            device_path: path_copy,
            io: IoCounters { read_bytes, written_bytes, old_read_bytes: 0, old_written_bytes: 0 },
        });
        i = i + 1;
    }
    out
}

fn copy_wide(v: &Vec<u16>) -> (r: Vec<u16>)
    ensures
        r@ == v@,
{
    let mut out: Vec<u16> = Vec::new();
    let mut i: usize = 0;
    while i < v.len()
        invariant
            i <= v@.len(),
            out@ == v@.subrange(0, i as int),
        decreases v@.len() - i,
    {
        out.push(v[i]);
        proof {
            assert(out@ =~= v@.subrange(0, i + 1));
        }
        i = i + 1;
    }
    proof {
        assert(v@.subrange(0, v@.len() as int) =~= v@);
    }
    out
}

/// The disks of Windows.
pub struct DisksInner {
    pub disks: Vec<DiskInner>,
}

impl DisksInner {
    /// No disk yet.
    pub fn new() -> (r: DisksInner)
        ensures
            r.disks@.len() == 0,
    {
        DisksInner { disks: Vec::new() }
    }

    /// The list made of `disks`.
    pub fn from_vec(disks: Vec<DiskInner>) -> (r: DisksInner)
        ensures
            r.disks == disks,
    {
        DisksInner { disks }
    }

    /// The disks of the list.
    pub fn into_vec(self) -> (r: Vec<DiskInner>)
        ensures
            r == self.disks,
    {
        self.disks
    }

    /// Replaces the list by the disks of the volumes, in order.
    pub fn refresh_list_specifics(&mut self, volumes: Vec<Vec<DiskInner>>)
        ensures
            final(self).disks@ == volumes@.map_values(|v: Vec<DiskInner>| v@).flatten(),
    {
        let ghost all = volumes@;
        let n = volumes.len();
        let mut rest = volumes;
        let mut out: Vec<DiskInner> = Vec::new();
        let mut i: usize = 0;
        while i < n
            invariant
                i <= n == all.len(),
                rest@ == all.subrange(i as int, n as int),
                out@ == all.take(i as int).map_values(|v: Vec<DiskInner>| v@).flatten(),
            decreases n - i,
        {
            let mut v = rest.remove(0);
            let ghost before = out@;
            proof {
                assert(v == all[i as int]);
                assert(all.take(i + 1).map_values(|v: Vec<DiskInner>| v@) =~= all.take(i as int).map_values(
                    |v: Vec<DiskInner>| v@,
                ).push(v@));
                all.take(i as int).map_values(|v: Vec<DiskInner>| v@).lemma_flatten_push(v@);
            }
            out.append(&mut v);
            i = i + 1;
        }
        proof {
            assert(all.take(n as int) =~= all);
        }
        self.disks = out;
    }

    /// The disks.
    pub fn list(&self) -> (r: &[DiskInner])
        ensures
            r@ == self.disks@,
    {
        self.disks.as_slice()
    }

    /// The disks, to change in place.
    pub fn list_mut(&mut self) -> (r: &mut Vec<DiskInner>)
        ensures
            *r == old(self).disks,
            final(self).disks == *final(r),
    {
        &mut self.disks
    }
}

} // verus!
