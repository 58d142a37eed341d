# sysinfo (verified core)

The logic of a system-information library for Linux, illumos and Windows, written
in Verus: the parsers of procfs, sysfs, mountinfo, `/etc/passwd`, the PCI ID
database and the kernel statistics; the bookkeeping of refreshes (processes,
disks, network interfaces, GPUs, memory); and the decisions each refresh makes.
Every function in `src/` is verified against its `requires` and `ensures`; the
laws that relate several functions are public proof functions next to them.

## Layout

- `src/` — the verified library, one module per subject (for example `cgroup`,
  `stat`, `linux_disk`, `network`, `linux_gpu`, `winnet`, `windisk`, `wingpu`,
  `illumos_net`, `psinfo`). The few calls into std that vstd does not specify
  (UTF-8 and UTF-16 decoding, `str::trim`) stand behind small
  trusted wrappers, each with a doc comment saying what is assumed of it.
- `tests/` — tests on concrete values, run against the compiled library.
- `app/` — ordinary Rust around the library: for Linux it reads the files of
  procfs and sysfs, calls libc (and NVML and Vulkan, loaded at run time), computes the
  floating-point figures (usage percentages, load averages, temperatures), and
  hands the library plain values; for illumos it reads the mount table, the records
  of `/proc` and the device tree (`libdevinfo`).

## Left to the caller

- Floating-point figures are computed in `app/` from the integers the library
  gives.
- The Windows system calls (DXGI, PDH, the LSA and NetUser calls, the process
  snapshot) and the illumos `kstat` and `swapctl` calls are not made here: the
  library takes what they return as plain values (`AdapterDesc`, `merge_users`,
  `proc_environ`, `IfReading`, ...).
- NVML and Vulkan are loaded at run time by `app/` (`dlopen`); the library takes what
  they say of each device (`apply_nvml_devices`, `apply_vulkan_device`).
