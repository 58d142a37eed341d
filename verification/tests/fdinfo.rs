use sysinfo::fdinfo::{
    gpu_totals, gpu_usage_step, is_gpu_device_link, parse_drm_fdinfo, DrmFdInfo, GpuUsageStep,
};

const FDINFO: &[u8] = b"pos:\t0\nflags:\t02100002\nmnt_id:\t24\n\
drm-driver:\tamdgpu\n\
drm-client-id:\t 42 \n\
drm-pdev:\t0000:03:00.0\n\
drm-engine-gfx:\t1500 ns\n\
drm-engine-compute:\t500 ns\n\
drm-engine-capacity-gfx:\t2\n\
drm-total-vram:\t3 MiB\n\
drm-total-gtt:\t16 KiB\n";

#[test]
fn recognises_gpu_device_links() {
    assert!(is_gpu_device_link(b"/dev/dri/renderD128"));
    assert!(is_gpu_device_link(b"/dev/accel/accel0"));
    assert!(!is_gpu_device_link(b"/dev/null"));
    assert!(!is_gpu_device_link(b"/dev/dri"));
    assert!(!is_gpu_device_link(b"dri/card0"));
}

#[test]
fn reads_an_fdinfo_file() {
    let d = parse_drm_fdinfo(FDINFO, true, true).unwrap();
    assert_eq!(d.client_id, Some(b"42".to_vec()));
    assert_eq!(d.pdev, Some(b"0000:03:00.0".to_vec()));
    assert_eq!(d.engine_time, Some(2000));
    assert_eq!(d.memory, Some(16 * 1024));

    let d = parse_drm_fdinfo(FDINFO, false, false).unwrap();
    assert_eq!(d.engine_time, None);
    assert_eq!(d.memory, None);
    assert_eq!(d.client_id, Some(b"42".to_vec()));
}

#[test]
fn unknown_memory_unit_forgets_the_memory() {
    let d = parse_drm_fdinfo(b"drm-total-vram: 3 MiB\ndrm-total-gtt: 5 B\n", true, true).unwrap();
    assert_eq!(d.memory, None);
    let d = parse_drm_fdinfo(b"drm-total-vram: 7 G\n", true, true).unwrap();
    assert_eq!(d.memory, Some(7 * 1024 * 1024 * 1024));
}

#[test]
fn overflowing_fdinfo_is_refused() {
    assert!(parse_drm_fdinfo(b"drm-engine-a: 18446744073709551615 ns\ndrm-engine-b: 1 ns\n", true, true).is_none());
    assert!(parse_drm_fdinfo(b"drm-total-vram: 18446744073709551615 K\n", true, true).is_none());
    assert!(parse_drm_fdinfo(b"drm-total-vram: 18446744073709551615 K\n", true, false).is_some());
}

fn info(id: &[u8], pci: &[u8], time: Option<u64>, memory: Option<u64>) -> DrmFdInfo {
    DrmFdInfo {
        client_id: Some(id.to_vec()),
        pdev: Some(pci.to_vec()),
        engine_time: time,
        memory,
    }
}

#[test]
fn totals_count_each_client_once() {
    let infos = vec![
        info(b"1", b"a", Some(10), Some(100)),
        info(b"1", b"a", Some(10), Some(100)),
        info(b"2", b"a", Some(5), None),
        info(b"1", b"b", None, Some(1)),
        DrmFdInfo { client_id: None, pdev: Some(b"a".to_vec()), engine_time: Some(99), memory: Some(99) },
    ];
    let t = gpu_totals(&infos);
    assert_eq!(t.time, 15);
    assert_eq!(t.memory, Some(101));

    let t = gpu_totals(&[info(b"1", b"a", Some(u64::MAX), None), info(b"2", b"a", Some(1), None)]);
    assert_eq!(t.time, u64::MAX);
    assert_eq!(t.memory, None);
}

#[test]
fn usage_steps() {
    assert!(matches!(gpu_usage_step(0, 10, 5), GpuUsageStep::Idle));
    assert!(matches!(gpu_usage_step(10, 10, 5), GpuUsageStep::Unmeasured));
    assert!(matches!(gpu_usage_step(20, 10, 0), GpuUsageStep::Unmeasured));
    assert!(matches!(
        gpu_usage_step(20, 10, 5),
        GpuUsageStep::Busy { delta_ns: 10, elapsed_ms: 5 }
    ));
}

#[test]
fn gpu_time_kept_between_refreshes() {
    assert_eq!(sysinfo::fdinfo::next_gpu_time(50, 80), (80, true));
    assert_eq!(sysinfo::fdinfo::next_gpu_time(50, 0), (50, false));
}
