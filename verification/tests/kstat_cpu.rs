use sysinfo::kstat_cpu::{max_cpu_id, CpuInfoRecord, CpuRefreshKind, CpuTimes, CpusWrapper, KstatValue};

#[test]
fn kstat_integers() {
    assert_eq!(KstatValue::Int32(-4).integer(), Some(0));
    assert_eq!(KstatValue::Int32(4).integer(), Some(4));
    assert_eq!(KstatValue::Uint32(7).integer(), Some(7));
    assert_eq!(KstatValue::Int64(-1).integer(), Some(0));
    assert_eq!(KstatValue::Uint64(u64::MAX).integer(), Some(u64::MAX));
    assert_eq!(KstatValue::Other.integer(), None);
}

#[test]
fn cpu_id_limit_is_clamped() {
    assert_eq!(max_cpu_id(-5), -1);
    assert_eq!(max_cpu_id(-1), -1);
    assert_eq!(max_cpu_id(63), 63);
    assert_eq!(max_cpu_id(1 << 40), i32::MAX);
}

#[test]
fn ticks_add_and_usage() {
    let mut a = CpuTimes { user: 1, kernel: 2, wait: 3, idle: u64::MAX };
    a.add(CpuTimes { user: 10, kernel: 20, wait: 30, idle: 1 });
    assert_eq!(a, CpuTimes { user: 11, kernel: 22, wait: 33, idle: u64::MAX });
    let old = CpuTimes { user: 100, kernel: 50, wait: 10, idle: 840 };
    let new = CpuTimes { user: 130, kernel: 70, wait: 10, idle: 890 };
    assert_eq!(new.usage_since(old), (50, 100));
    // Counters that went down count as no ticks.
    assert_eq!(old.usage_since(new), (0, 0));
}

fn info(vendor: Option<&str>, brand: Option<&str>, implementation: Option<&str>, clock: Option<u64>) -> CpuInfoRecord {
    CpuInfoRecord {
        vendor_id: vendor.map(str::to_owned),
        brand: brand.map(str::to_owned),
        implementation: implementation.map(str::to_owned),
        clock_mhz: clock,
    }
}

#[test]
fn populate_then_refresh_usage() {
    let mut cpus = CpusWrapper::new();
    let plan = cpus.refresh_plan(CpuRefreshKind { cpu_usage: true, frequency: false });
    assert!(plan.populate && !plan.frequencies && plan.usage);
    cpus.populate(
        vec![
            (0, info(Some("GenuineIntel"), Some("Xeon"), None, Some(2400))),
            (3, info(None, None, Some("x86"), None)),
        ],
        false,
    );
    assert_eq!(cpus.cpus.len(), 2);
    assert_eq!(cpus.cpus[0].name(), "cpu 0");
    assert_eq!(cpus.cpus[1].name(), "cpu 3");
    assert_eq!(cpus.cpus[0].vendor_id(), "GenuineIntel");
    assert_eq!(cpus.cpus[1].vendor_id(), "unknown");
    assert_eq!(cpus.cpus[1].brand(), "x86");
    assert_eq!(cpus.cpus[0].frequency(), 0);
    assert!(!cpus.got_frequency);

    let plan = cpus.refresh_plan(CpuRefreshKind { cpu_usage: false, frequency: true });
    assert!(!plan.populate && plan.frequencies && !plan.usage);
    cpus.refresh_frequencies(&[Some(Some(2400)), None]);
    assert_eq!(cpus.cpus[0].frequency(), 2400);
    assert_eq!(cpus.cpus[1].frequency(), 0);
    assert!(cpus.got_frequency);

    cpus.refresh_usage(&[
        Some(CpuTimes { user: 30, kernel: 20, wait: 0, idle: 50 }),
        Some(CpuTimes { user: 10, kernel: 0, wait: 10, idle: 80 }),
    ]);
    assert_eq!(cpus.cpus[0].cpu_usage(), (50, 100));
    assert_eq!(cpus.cpus[1].cpu_usage(), (10, 100));
    assert_eq!(cpus.global_usage, (60, 200));

    cpus.refresh_usage(&[None, Some(CpuTimes { user: 20, kernel: 0, wait: 10, idle: 90 })]);
    assert_eq!(cpus.cpus[0].cpu_usage(), (50, 100));
    assert_eq!(cpus.cpus[1].cpu_usage(), (10, 20));
    assert_eq!(cpus.global_usage, (10, 20));
}

#[test]
fn negative_ids_are_named_with_a_sign() {
    let mut cpus = CpusWrapper::new();
    cpus.populate(vec![(-2, info(None, Some("b"), None, Some(5)))], true);
    assert_eq!(cpus.cpus[0].name(), "cpu -2");
    assert_eq!(cpus.cpus[0].frequency(), 5);
    assert!(cpus.got_frequency);
}
