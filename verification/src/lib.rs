use vstd::prelude::*;

pub mod common;
pub mod netmask;
pub mod text;
pub mod path;
pub mod cgroup;
pub mod stat;
pub mod unknown;
pub mod windows;
pub mod illumos;
pub mod users;
pub mod fdinfo;
pub mod network;
pub mod winnet;
pub mod smbios;
pub mod cpuid;
pub mod proc_status;
pub mod linux_disk;
pub mod linux_gpu;
pub mod linux_system;
pub mod psinfo;
pub mod kstat_cpu;
pub mod winsys;
pub mod illumos_net;
pub mod linux_proc;
pub mod illumos_sys;
pub mod windisk;
pub mod linux_dmi;
pub mod wingpu;
