use sysinfo::illumos::PCI;
use sysinfo::wingpu::{AdapterDesc, Luid, WinGpusInner};

fn desc(low: u32, name: &str, used: Option<u64>) -> AdapterDesc {
    let mut description: Vec<u16> = name.encode_utf16().collect();
    description.push(0);
    description.extend_from_slice(&[65, 66]);
    AdapterDesc { luid: Luid { low, high: 0 }, vendor_name: Some("NVIDIA".to_string()), description, dedicated: 8192, used }
}

#[test]
fn adapters_follow_the_pci_devices() {
    let pcis = vec![
        PCI { domain: 0, bus: 1, device: 0, function: 0 },
        PCI { domain: 0, bus: 2, device: 0, function: 0 },
    ];
    let mut gpus = WinGpusInner::new();
    // No bus address: nothing is added.
    gpus.apply_adapter(desc(1, "RTX", Some(5)), None, &pcis);
    assert!(gpus.gpus.is_empty());
    // An address that no PCI device has: a "fake" adapter, skipped.
    gpus.apply_adapter(desc(1, "RTX", Some(5)), Some((9, 0, 0)), &pcis);
    assert!(gpus.gpus.is_empty());
    // A real one.
    gpus.apply_adapter(desc(1, "RTX", Some(5)), Some((2, 0, 0)), &pcis);
    assert_eq!(gpus.gpus.len(), 1);
    assert_eq!(gpus.gpus[0].pci, pcis[1]);
    assert_eq!(gpus.gpus[0].model.as_deref(), Some("RTX"));
    assert_eq!(gpus.gpus[0].total_memory, Some(8192));
    assert_eq!(gpus.gpus[0].used_memory, Some(5));
    // The same adapter again: updated in place, the used memory kept when unknown.
    gpus.gpus[0].updated = false;
    gpus.apply_adapter(desc(1, "other", None), None, &pcis);
    assert_eq!(gpus.gpus.len(), 1);
    assert!(gpus.gpus[0].updated);
    assert_eq!(gpus.gpus[0].used_memory, Some(5));
    assert_eq!(gpus.gpus[0].model.as_deref(), Some("RTX"));
}
