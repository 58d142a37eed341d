use sysinfo::linux_system::{
    distribution_id, global_ticks, long_os_version, boot_time_from_stat, boot_time_would_panic, cpu_arch_from, get_system_info_linux, host_name_from,
    system_cgroup_limits, uptime_from, InfoType, MemoryInfo, MemoryRefreshKind, SystemCGroupLimits,
};

const OS_RELEASE: &str = r#"NAME="Ubuntu"
VERSION="20.10 (Groovy Gorilla)"
ID=ubuntu
ID_LIKE=debian
PRETTY_NAME="Ubuntu 20.10"
VERSION_ID="20.10"
VERSION_CODENAME=groovy
UBUNTU_CODENAME=groovy
"#;

const LSB_RELEASE: &str = r#"DISTRIB_ID=Ubuntu
DISTRIB_RELEASE=20.10
DISTRIB_CODENAME=groovy
DISTRIB_DESCRIPTION="Ubuntu 20.10"
"#;

#[test]
fn lsb_release_fallback_not_android() {
    let tmp1 = OS_RELEASE.as_bytes();
    let tmp2 = LSB_RELEASE.as_bytes();

    // Check for the "normal" path: "/etc/os-release"
    assert_eq!(
        get_system_info_linux(InfoType::OsVersion, Some(tmp1), None),
        Some("20.10".to_owned())
    );
    assert_eq!(
        get_system_info_linux(InfoType::Name, Some(tmp1), None),
        Some("Ubuntu".to_owned())
    );
    assert_eq!(
        get_system_info_linux(InfoType::DistributionID, Some(tmp1), None),
        Some("ubuntu".to_owned())
    );

    // Check for the "fallback" path: "/etc/lsb-release"
    assert_eq!(
        get_system_info_linux(InfoType::OsVersion, None, Some(tmp2)),
        Some("20.10".to_owned())
    );
    assert_eq!(
        get_system_info_linux(InfoType::Name, None, Some(tmp2)),
        Some("Ubuntu".to_owned())
    );
    assert_eq!(get_system_info_linux(InfoType::DistributionID, None, Some(tmp2)), None);
}

#[test]
fn os_release_wins_over_lsb_release() {
    let os = b"NAME=\"Fedora Linux\"\nVERSION_ID=39\n";
    assert_eq!(
        get_system_info_linux(InfoType::Name, Some(os), Some(LSB_RELEASE.as_bytes())),
        Some("Fedora Linux".to_owned())
    );
    // os-release has no ID: lsb-release is not asked for the id.
    assert_eq!(get_system_info_linux(InfoType::DistributionID, Some(os), Some(LSB_RELEASE.as_bytes())), None);
    // A key that os-release lacks falls back to lsb-release.
    let os2 = b"ID=fedora\n";
    assert_eq!(
        get_system_info_linux(InfoType::OsVersion, Some(os2), Some(LSB_RELEASE.as_bytes())),
        Some("20.10".to_owned())
    );
}

#[test]
fn distribution_file_that_is_not_utf8_gives_nothing() {
    let bad = [0x4e, 0x41, 0x4d, 0x45, 0x3d, 0xff, 0x0a];
    assert_eq!(get_system_info_linux(InfoType::Name, Some(&bad), None), None);
}

#[test]
fn uptime_is_the_integer_part() {
    assert_eq!(uptime_from(b"350735.47 234388.90\n"), 350735);
    assert_eq!(uptime_from(b"abc 1"), 0);
    assert_eq!(uptime_from(b""), 0);
}

#[test]
fn boot_time_from_btime_line() {
    let stat = b"cpu  1 2 3\nintr 4\nbtime 1700000000\nprocesses 7\n";
    assert!(!boot_time_would_panic(stat));
    assert_eq!(boot_time_from_stat(stat), Some(1700000000));
    assert_eq!(boot_time_from_stat(b"btime\n"), Some(0));
    assert_eq!(boot_time_from_stat(b"cpu 1\n"), None);
    assert!(boot_time_would_panic(b"btime 99999999999999999999999\n"));
}

#[test]
fn uname_machine_and_host_name() {
    assert_eq!(cpu_arch_from(b"x86_64\0\0\0"), Some("x86_64".to_owned()));
    assert_eq!(cpu_arch_from(b"x86_64"), None);
    assert_eq!(host_name_from(b"box\0junk"), Some("box".to_owned()));
    assert_eq!(host_name_from(b"box"), Some("box".to_owned()));
}

fn entry(k: &str, v: u64) -> (Vec<u8>, u64) {
    (k.as_bytes().to_vec(), v)
}

#[test]
fn memory_refresh_with_mem_available() {
    let mut m = MemoryInfo::default();
    let entries = vec![
        entry("MemTotal", 1000),
        entry("MemFree", 200),
        entry("MemAvailable", 600),
        entry("SwapTotal", 50),
        entry("SwapFree", 20),
        entry("Dirty", 7),
    ];
    m.refresh_memory_specifics(MemoryRefreshKind { ram: true, swap: true }, &entries);
    assert_eq!(m.total_memory(), 1000 * 1024);
    assert_eq!(m.free_memory(), 200 * 1024);
    assert_eq!(m.available_memory(), 600 * 1024);
    assert_eq!(m.used_memory(), 400 * 1024);
    assert_eq!(m.total_swap(), 50 * 1024);
    assert_eq!(m.free_swap(), 20 * 1024);
    assert_eq!(m.used_swap(), 30 * 1024);
}

#[test]
fn memory_refresh_estimates_available() {
    let mut m = MemoryInfo::default();
    let entries = vec![
        entry("MemTotal", 1000),
        entry("MemFree", 100),
        entry("Buffers", 10),
        entry("Cached", 200),
        entry("SReclaimable", 30),
        entry("Shmem", 40),
    ];
    m.refresh_memory_specifics(MemoryRefreshKind { ram: true, swap: false }, &entries);
    assert_eq!(m.available_memory(), (100 + 10 + 200 + 30 - 40) * 1024);
}

#[test]
fn memory_refresh_for_nothing_changes_nothing() {
    let mut m = MemoryInfo::default();
    m.refresh_memory_specifics(MemoryRefreshKind { ram: false, swap: false }, &[entry("MemTotal", 5)]);
    assert_eq!(m, MemoryInfo::default());
}

#[test]
fn memory_values_saturate() {
    let mut m = MemoryInfo::default();
    m.refresh_memory_specifics(MemoryRefreshKind { ram: true, swap: true }, &[entry("MemTotal", u64::MAX)]);
    assert_eq!(m.total_memory(), u64::MAX);
}

#[test]
fn cgroup_limits_prefer_v2() {
    let m = MemoryInfo { mem_total: 2000, swap_total: 700, swap_free: 300, ..MemoryInfo::default() };
    assert_eq!(
        system_cgroup_limits(&m, Some(350), Some(1000), Some(100), Some(1), Some(2)),
        Some(SystemCGroupLimits { total_memory: 1000, free_memory: 650, free_swap: 600 })
    );
    assert_eq!(
        system_cgroup_limits(&m, Some(350), Some(5000), None, None, None),
        Some(SystemCGroupLimits { total_memory: 2000, free_memory: 1650, free_swap: 300 })
    );
}

#[test]
fn cgroup_limits_fall_back_to_v1() {
    let m = MemoryInfo { mem_total: 2000, swap_free: 300, ..MemoryInfo::default() };
    assert_eq!(
        system_cgroup_limits(&m, None, Some(1000), None, Some(1500), Some(1000)),
        Some(SystemCGroupLimits { total_memory: 1000, free_memory: 0, free_swap: 300 })
    );
    assert_eq!(system_cgroup_limits(&m, None, None, None, Some(1), None), None);
}

#[test]
fn distribution_id_defaults_to_linux() {
    assert_eq!(distribution_id(Some(OS_RELEASE.as_bytes())), "ubuntu");
    assert_eq!(distribution_id(Some(b"NAME=x\n")), "linux");
    assert_eq!(distribution_id(None), "linux");
}

#[test]
fn long_version_joins_the_parts() {
    assert_eq!(long_os_version(Some("20.10".to_owned()), Some("Ubuntu".to_owned())), "Linux 20.10 Ubuntu");
    assert_eq!(long_os_version(None, Some("Ubuntu".to_owned())), "Linux  Ubuntu");
    assert_eq!(long_os_version(None, None), "Linux  ");
}

#[test]
fn global_ticks_between_readings() {
    assert_eq!(global_ticks(1500, 1000), 500);
    assert_eq!(global_ticks(1000, 1000), 0);
    assert_eq!(global_ticks(900, 1000), 1);
}
