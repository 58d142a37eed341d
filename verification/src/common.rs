//! Identifiers and figures shared by the platform parts.
use vstd::prelude::*;

verus! {

/// A process identifier.
#[derive(Clone, Copy, Debug, PartialEq, Eq, Structural, PartialOrd, Ord, Hash)]
pub struct Pid(pub i32);

/// A user identifier.
#[derive(Clone, Copy, Debug, PartialEq, Eq, Structural, PartialOrd, Ord, Hash)]
pub struct Uid(pub u32);

/// A group identifier.
#[derive(Clone, Copy, Debug, PartialEq, Eq, Structural, PartialOrd, Ord, Hash)]
pub struct Gid(pub u32);

/// Bytes read and written, since the last refresh and in total.
#[derive(Clone, Copy, Debug, Default, PartialEq, Eq)]
pub struct DiskUsage {
    pub total_written_bytes: u64,
    pub written_bytes: u64,
    pub total_read_bytes: u64,
    pub read_bytes: u64,
}

/// Read and written byte counters as of the last refresh and the one before.
#[derive(Clone, Copy, Debug, Default, PartialEq, Eq)]
pub struct IoCounters {
    pub read_bytes: u64,
    pub old_read_bytes: u64,
    pub written_bytes: u64,
    pub old_written_bytes: u64,
}

impl IoCounters {
    /// The usage: the totals, and their growth since the refresh before the last
    /// (0 when a counter went down).
    pub fn usage(&self) -> (r: DiskUsage)
        ensures
            r.total_read_bytes == self.read_bytes,
            r.total_written_bytes == self.written_bytes,
            r.read_bytes == self.read_bytes.saturating_sub(self.old_read_bytes),
            r.written_bytes == self.written_bytes.saturating_sub(self.old_written_bytes),
    {
        DiskUsage {
            read_bytes: self.read_bytes.saturating_sub(self.old_read_bytes),
            total_read_bytes: self.read_bytes,
            written_bytes: self.written_bytes.saturating_sub(self.old_written_bytes),
            total_written_bytes: self.written_bytes,
        }
    }

    /// Starts a new refresh: the current totals become the previous ones.
    pub fn roll(&mut self)
        ensures
            final(self).old_read_bytes == old(self).read_bytes,
            final(self).old_written_bytes == old(self).written_bytes,
            final(self).read_bytes == old(self).read_bytes,
            final(self).written_bytes == old(self).written_bytes,
    {
        self.old_read_bytes = self.read_bytes;
        self.old_written_bytes = self.written_bytes;
    }
}

/// The errors of the library: a feature the platform does not support, or another
/// failure, described in words.
#[derive(Debug)]
pub enum Error {
    Unsupported,
    Other(String),
}

/// How a refresh treats a value that may already be known.
#[derive(Clone, Copy, Debug, PartialEq, Eq, Structural)]
pub enum UpdateKind {
    /// Never read it.
    Never,
    /// Read it at every refresh.
    Always,
    /// Read it only while it is not known.
    OnlyIfNotSet,
}

impl UpdateKind {
    /// Whether a refresh reads the value, given whether it is still missing.
    pub fn needs_update(&self, missing: bool) -> (r: bool)
        ensures
            r == match *self {
                UpdateKind::Never => false,
                UpdateKind::Always => true,
                UpdateKind::OnlyIfNotSet => missing,
            },
    {
        match self {
            UpdateKind::Never => false,
            UpdateKind::Always => true,
            UpdateKind::OnlyIfNotSet => missing,
        }
    }
}

/// What a refresh of processes reads.
#[derive(Clone, Copy, Debug)]
pub struct ProcessRefreshKind {
    pub cpu: bool,
    pub disk_usage: bool,
    pub memory: bool,
    pub user: UpdateKind,
    pub cwd: UpdateKind,
    pub root: UpdateKind,
    pub environ: UpdateKind,
    pub cmd: UpdateKind,
    pub exe: UpdateKind,
}

} // verus!
