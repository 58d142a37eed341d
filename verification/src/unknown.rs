//! The process, user and disk types of a platform that the library does not
//! support: every figure is empty or zero.
use vstd::prelude::*;
use crate::common::{DiskUsage, Error, Gid, Pid, Uid};
use crate::illumos::DiskRefreshKind;
use crate::linux_disk::DiskKind;
use crate::stat::ProcessStatus;

verus! {

/// A process on an unsupported platform: only its identifiers are known.
pub struct Process {
    pid: Pid,
    parent: Option<Pid>,
}

impl View for Process {
    /// The identifier and the parent's.
    type V = (Pid, Option<Pid>);

    closed spec fn view(&self) -> (Pid, Option<Pid>) {
        (self.pid, self.parent)
    }
}

impl Process {
    /// A process with the given identifier and parent.
    pub fn new(pid: Pid, parent: Option<Pid>) -> (r: Process)
        ensures
            r@ == (pid, parent),
    {
        Process { pid, parent }
    }

    /// Its name: always empty here.
    pub fn name(&self) -> (r: &str)
        ensures
            r@ == Seq::<char>::empty(),
    {
        proof {
            reveal_strlit("");
        }
        ""
    }

    /// Its identifier.
    pub fn pid(&self) -> (r: Pid)
        ensures
            r == self@.0,
    {
        self.pid
    }

    /// Its parent's identifier, if it was given one.
    pub fn parent(&self) -> (r: Option<Pid>)
        ensures
            r == self@.1,
    {
        self.parent
    }

    /// Resident memory: unknown, so 0.
    pub fn memory(&self) -> (r: u64)
        ensures
            r == 0,
    {
        0
    }

    /// Virtual memory: unknown, so 0.
    pub fn virtual_memory(&self) -> (r: u64)
        ensures
            r == 0,
    {
        0
    }

    /// Its state: unknown.
    pub fn status(&self) -> (r: ProcessStatus)
        ensures
            r == ProcessStatus::Unknown(0),
    {
        ProcessStatus::Unknown(0)
    }

    /// Start time: unknown, so 0.
    pub fn start_time(&self) -> (r: u64)
        ensures
            r == 0,
    {
        0
    }

    /// Run time: unknown, so 0.
    pub fn run_time(&self) -> (r: u64)
        ensures
            r == 0,
    {
        0
    }

    /// Disk usage: nothing read or written.
    pub fn disk_usage(&self) -> (r: DiskUsage)
        ensures
            r.total_written_bytes == 0,
            r.written_bytes == 0,
            r.total_read_bytes == 0,
            r.read_bytes == 0,
    {
        DiskUsage { total_written_bytes: 0, written_bytes: 0, total_read_bytes: 0, read_bytes: 0 }
    }

    /// Its owner: unknown.
    pub fn user_id(&self) -> (r: Option<&Uid>)
        ensures
            r is None,
    {
        None
    }

    /// Its effective owner: unknown.
    pub fn effective_user_id(&self) -> (r: Option<&Uid>)
        ensures
            r is None,
    {
        None
    }

    /// Its group: unknown.
    pub fn group_id(&self) -> (r: Option<Gid>)
        ensures
            r is None,
    {
        None
    }

    /// Its effective group: unknown.
    pub fn effective_group_id(&self) -> (r: Option<Gid>)
        ensures
            r is None,
    {
        None
    }

    /// Its session: unknown.
    pub fn session_id(&self) -> (r: Option<Pid>)
        ensures
            r is None,
    {
        None
    }

    /// Sending a signal is not supported: the answer is always `None`.
    pub fn kill(&self) -> (r: Option<bool>)
        ensures
            r is None,
    {
        None
    }

    /// Waiting for the process returns at once.
    pub fn wait(&self) {
    }
}

/// A user on an unsupported platform: identifiers 0 and an empty name.
pub struct User;

impl User {
    /// The user's identifier: 0.
    pub fn id(&self) -> (r: Uid)
        ensures
            r == Uid(0),
    {
        Uid(0)
    }

    /// The user's group: 0.
    pub fn group_id(&self) -> (r: Gid)
        ensures
            r == Gid(0),
    {
        Gid(0)
    }

    /// The user's name: empty.
    pub fn name(&self) -> (r: &str)
        ensures
            r@ == Seq::<char>::empty(),
    {
        proof {
            reveal_strlit("");
        }
        ""
    }

    /// The groups the user belongs to: none.
    pub fn groups(&self) -> (r: Vec<Group>)
        ensures
            r@.len() == 0,
    {
        Vec::new()
    }
}

/// A group on an unsupported platform: identifier 0 and an empty name.
pub struct Group;

impl Group {
    /// The group's identifier: 0.
    pub fn id(&self) -> (r: Gid)
        ensures
            r == Gid(0),
    {
        Gid(0)
    }

    /// The group's name: empty.
    pub fn name(&self) -> (r: &str)
        ensures
            r@ == Seq::<char>::empty(),
    {
        proof {
            reveal_strlit("");
        }
        ""
    }
}

/// Listing the groups is not supported: the list is left empty.
pub fn get_groups(groups: &mut Vec<Group>)
    ensures
        final(groups)@ == old(groups)@,
{
}

/// A disk on an unsupported platform: nothing is known of it.
pub struct DiskInner;

impl DiskInner {
    /// Its kind: unknown (-1).
    pub fn kind(&self) -> (r: DiskKind)
        ensures
            r == DiskKind::Unknown(-1isize),
    {
        DiskKind::Unknown(-1)
    }

    /// Its name: empty.
    pub fn name(&self) -> (r: &str)
        ensures
            r@ == Seq::<char>::empty(),
    {
        proof {
            reveal_strlit("");
        }
        ""
    }

    /// Its file system: empty.
    pub fn file_system(&self) -> (r: &str)
        ensures
            r@ == Seq::<char>::empty(),
    {
        proof {
            reveal_strlit("");
        }
        ""
    }

    /// Where it is mounted: nowhere.
    pub fn mount_point(&self) -> (r: &str)
        ensures
            r@ == Seq::<char>::empty(),
    {
        proof {
            reveal_strlit("");
        }
        ""
    }

    /// Its size: 0.
    pub fn total_space(&self) -> (r: u64)
        ensures
            r == 0,
    {
        0
    }

    /// Its free space: 0.
    pub fn available_space(&self) -> (r: u64)
        ensures
            r == 0,
    {
        0
    }

    /// Whether it is removable: no.
    pub fn is_removable(&self) -> (r: bool)
        ensures
            !r,
    {
        false
    }

    /// Whether it is read-only: no.
    pub fn is_read_only(&self) -> (r: bool)
        ensures
            !r,
    {
        false
    }

    /// A refresh: there is nothing to read, and it succeeds.
    pub fn refresh_specifics(&mut self, refreshes: DiskRefreshKind) -> (r: bool)
        ensures
            r,
    {
        true
    }

    /// Its usage: nothing read or written.
    pub fn usage(&self) -> (r: DiskUsage)
        ensures
            r == (DiskUsage { total_written_bytes: 0, written_bytes: 0, total_read_bytes: 0, read_bytes: 0 }),
    {
        DiskUsage { total_written_bytes: 0, written_bytes: 0, total_read_bytes: 0, read_bytes: 0 }
    }
}

/// The disks of an unsupported platform: there are none.
pub struct DisksInner;

impl DisksInner {
    /// Listing disks is not supported.
    pub fn new() -> (r: Result<DisksInner, Error>)
        ensures
            r matches Err(Error::Unsupported),
    {
        Err(Error::Unsupported)
    }

    /// The list made of `disks`: the platform keeps none.
    pub fn from_vec(disks: Vec<DiskInner>) -> (r: DisksInner) {
        DisksInner
    }

    /// The disks of the list: none.
    pub fn into_vec(self) -> (r: Vec<DiskInner>)
        ensures
            r@.len() == 0,
    {
        Vec::new()
    }

    /// A refresh: does nothing.
    pub fn refresh_specifics(&mut self, remove_not_listed_disks: bool, refreshes: DiskRefreshKind) {
    }

    /// The disks: none.
    pub fn list(&self) -> (r: &[DiskInner])
        ensures
            r@.len() == 0,
    {
        &[]
    }
}

} // verus!
