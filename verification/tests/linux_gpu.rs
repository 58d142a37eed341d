use sysinfo::illumos::PCI;
use sysinfo::linux_gpu::{
    contains_bytes, fill_device_map, find_device, find_vendor, get_id_and_name, gpu_class, hex_id,
    is_card_entry, parse_pci_address, vendor_kind,
};

#[test]
fn card_entries() {
    assert!(is_card_entry(b"card0"));
    assert!(is_card_entry(b"card12"));
    assert!(!is_card_entry(b"card0-HDMI-A-1"));
    assert!(!is_card_entry(b"renderD128"));
    assert!(!is_card_entry(b"car"));
}

#[test]
fn class_and_ids() {
    assert!(gpu_class(b"0x030000\n"));
    assert!(gpu_class(b"  0x0302"));
    assert!(!gpu_class(b"0x020000\n"));
    assert_eq!(hex_id(b"0x1002\n"), Some(0x1002));
    assert_eq!(hex_id(b"1002\n"), None);
    assert_eq!(hex_id(b"0xzz"), None);
}

#[test]
fn pci_addresses() {
    assert_eq!(
        parse_pci_address(b"0000:03:00.0"),
        Some(PCI { domain: 0, bus: 3, device: 0, function: 0 })
    );
    assert_eq!(
        parse_pci_address(b"0001:1a:1f.7"),
        Some(PCI { domain: 1, bus: 0x1a, device: 0x1f, function: 7 })
    );
    assert_eq!(parse_pci_address(b"03:00.0"), None);
    assert_eq!(parse_pci_address(b"0000:03:00"), None);
}

#[test]
fn database_lines() {
    assert_eq!(get_id_and_name(b"1002 Advanced Micro Devices  "), Some((0x1002, b"Advanced Micro Devices".to_vec())));
    assert_eq!(get_id_and_name(b"1002"), None);
    assert_eq!(get_id_and_name(b"zz name"), None);
}

#[test]
fn device_map() {
    let db = b"# comment\n\
\t0001  orphan device\n\
1002  AMD\n\
\t67df  Ellesmere\n\
\t\t1002 0b31  subsystem\n\
# another comment\n\
10de  NVIDIA Corporation\n\
\t1b80  GP104\n\
8086  Intel\n\
\t1234  Last vendor device\n\
C 00  Unclassified\n";
    let map = fill_device_map(db);
    assert_eq!(map.len(), 2);
    let amd = find_vendor(&map, 0x1002).unwrap();
    assert_eq!(amd.name, b"AMD".to_vec());
    assert_eq!(find_device(amd, 0x67df), Some(b"Ellesmere".to_vec()));
    assert_eq!(find_device(amd, 0x0b31), None);
    let nv = find_vendor(&map, 0x10de).unwrap();
    assert_eq!(find_device(nv, 0x1b80), Some(b"GP104".to_vec()));
    // The last vendor of the database is never recorded.
    assert!(find_vendor(&map, 0x8086).is_none());
}

#[test]
fn vendor_kinds() {
    assert_eq!(vendor_kind(b"Advanced Micro Devices, Inc. [AMD/ATI]"), (true, false));
    assert_eq!(vendor_kind(b"NVIDIA Corporation"), (false, true));
    assert_eq!(vendor_kind(b"Intel"), (false, false));
    assert!(contains_bytes(b"abc", b""));
    assert!(!contains_bytes(b"", b"a"));
}

fn amd_none() -> sysinfo::linux_gpu::AmdReadings {
    sysinfo::linux_gpu::AmdReadings { busy_percent: None, vram_used: None, vram_total: None }
}

fn card(pci: sysinfo::illumos::PCI, class: &str, vendor: &str, device: &str) -> sysinfo::linux_gpu::CardReadings {
    sysinfo::linux_gpu::CardReadings {
        pci,
        class: Some(class.as_bytes().to_vec()),
        vendor: Some(vendor.as_bytes().to_vec()),
        device: Some(device.as_bytes().to_vec()),
        amd: amd_none(),
    }
}

#[test]
fn gpu_list_follows_the_cards() {
    let db = b"# PCI ids\n1002  Advanced Micro Devices, Inc. [AMD/ATI]\n\t73bf  Navi 21\n10de  NVIDIA Corporation\n\t2204  GA102\n8086  Intel Corporation\nffff  Illegal\n".to_vec();
    let pci_a = sysinfo::illumos::PCI { domain: 0, bus: 3, device: 0, function: 0 };
    let pci_n = sysinfo::illumos::PCI { domain: 0, bus: 4, device: 0, function: 0 };
    let pci_i = sysinfo::illumos::PCI { domain: 0, bus: 0, device: 2, function: 0 };
    let mut gpus = sysinfo::linux_gpu::GpusInner::new();
    let mut needs = sysinfo::linux_gpu::GpuNeeds { vulkan: false, nvidia: false };

    // Not a display controller: skipped, and the database is not read yet.
    gpus.visit_card(card(pci_a, "0x020000\n", "0x1002\n", "0x73bf\n"), Some(&db), None, &mut needs);
    assert!(gpus.gpus.is_empty());
    assert!(!gpus.filled_device_map);

    // An AMD card: added with its model and its sysfs figures.
    let mut c = card(pci_a, "0x030000\n", "0x1002\n", "0x73bf\n");
    c.amd = sysinfo::linux_gpu::AmdReadings {
        busy_percent: Some(b" 45\n".to_vec()),
        vram_used: Some(b"1024\n".to_vec()),
        vram_total: Some(b"x".to_vec()),
    };
    gpus.visit_card(c, Some(&db), None, &mut needs);
    assert!(gpus.filled_device_map);
    assert_eq!(gpus.gpus.len(), 1);
    assert_eq!(gpus.gpus[0].vendor, b"Advanced Micro Devices, Inc. [AMD/ATI]".to_vec());
    assert_eq!(gpus.gpus[0].model, Some(b"Navi 21".to_vec()));
    assert!(matches!(&gpus.gpus[0].usage, Some(sysinfo::linux_gpu::UsageReading::Text(t)) if t == b"45"));
    assert_eq!(gpus.gpus[0].used_memory, Some(1024));
    assert_eq!(gpus.gpus[0].total_memory, None);
    assert_eq!(needs, sysinfo::linux_gpu::GpuNeeds { vulkan: false, nvidia: false });

    // The same card again: refreshed in place.
    gpus.gpus[0].updated = false;
    let mut c = card(pci_a, "", "", "");
    c.amd.vram_total = Some(b"8192".to_vec());
    gpus.visit_card(c, None, None, &mut needs);
    assert_eq!(gpus.gpus.len(), 1);
    assert!(gpus.gpus[0].updated);
    assert_eq!(gpus.gpus[0].total_memory, Some(8192));

    // An NVIDIA card needs NVML and is not listed here.
    gpus.visit_card(card(pci_n, "0x030000", "0x10de", "0x2204"), None, None, &mut needs);
    assert_eq!(gpus.gpus.len(), 1);
    assert!(needs.nvidia);

    // The last vendor of the database is not recorded: without a known name the card is skipped.
    gpus.visit_card(card(pci_i, "0x030000", "0xffff", "0x1"), None, None, &mut needs);
    assert_eq!(gpus.gpus.len(), 1);

    // Another vendor: added, needing Vulkan for its memory.
    gpus.visit_card(card(pci_i, "0x030000", "0x8086", "0x1"), None, None, &mut needs);
    assert_eq!(gpus.gpus.len(), 2);
    assert_eq!(gpus.gpus[1].vendor, b"Intel Corporation".to_vec());
    assert_eq!(gpus.gpus[1].model, None);
    assert!(needs.vulkan);

    // A vendor the database does not list takes the known name.
    let pci_x = sysinfo::illumos::PCI { domain: 1, bus: 0, device: 0, function: 0 };
    gpus.visit_card(card(pci_x, "0x030000", "0x1234", "0x1"), None, Some(b"Acme".to_vec()), &mut needs);
    assert_eq!(gpus.gpus.len(), 3);
    assert_eq!(gpus.gpus[2].vendor, b"Acme".to_vec());
}

#[test]
fn vulkan_and_nvml_figures() {
    let pci_a = sysinfo::illumos::PCI { domain: 0, bus: 3, device: 0, function: 0 };
    let mut gpus = sysinfo::linux_gpu::GpusInner::new();
    let mut needs = sysinfo::linux_gpu::GpuNeeds { vulkan: false, nvidia: false };
    gpus.visit_card(card(pci_a, "0x030000", "0x8086", "0x1"), None, Some(b"Intel".to_vec()), &mut needs);
    assert_eq!(gpus.gpus.len(), 1);

    // A Vulkan device at another address changes nothing.
    let other = sysinfo::illumos::PCI { domain: 0, bus: 9, device: 0, function: 0 };
    let heaps = vec![
        sysinfo::linux_gpu::VulkanHeap { flags: 1, size: 100, usage: 10 },
        sysinfo::linux_gpu::VulkanHeap { flags: 0, size: 1000, usage: 500 },
        sysinfo::linux_gpu::VulkanHeap { flags: 3, size: 50, usage: 5 },
    ];
    gpus.apply_vulkan_device(&sysinfo::linux_gpu::VulkanDevice {
        pci: other,
        name: b"X\0".to_vec(),
        budget: true,
        heaps: heaps.clone(),
    });
    assert_eq!(gpus.gpus[0].total_memory, None);

    // Without the budget extension only the total is known.
    gpus.apply_vulkan_device(&sysinfo::linux_gpu::VulkanDevice {
        pci: pci_a,
        name: b"Arc A770\0junk".to_vec(),
        budget: false,
        heaps: heaps.clone(),
    });
    assert_eq!(gpus.gpus[0].model, Some(b"Arc A770".to_vec()));
    assert_eq!(gpus.gpus[0].total_memory, Some(150));
    assert_eq!(gpus.gpus[0].used_memory, None);

    // With it, the device-local heaps give both figures.
    gpus.apply_vulkan_device(&sysinfo::linux_gpu::VulkanDevice {
        pci: pci_a,
        name: b"Other\0".to_vec(),
        budget: true,
        heaps: heaps.clone(),
    });
    assert_eq!(gpus.gpus[0].model, Some(b"Arc A770".to_vec()));
    assert_eq!(gpus.gpus[0].used_memory, Some(15));

    // Once both are known, Vulkan changes nothing more.
    gpus.apply_vulkan_device(&sysinfo::linux_gpu::VulkanDevice {
        pci: pci_a,
        name: b"Y\0".to_vec(),
        budget: true,
        heaps: vec![],
    });
    assert_eq!(gpus.gpus[0].total_memory, Some(150));

    // NVML adds a device it finds and updates one listed.
    let dev = sysinfo::linux_gpu::NvmlDevice {
        bus_id: b"00000000:01:00.0\0".to_vec(),
        name: Some(b"NVIDIA GeForce RTX 3080\0".to_vec()),
        utilization: Some(37),
        memory: Some((10_000, 2_500)),
    };
    gpus.apply_nvml_device(&dev);
    assert_eq!(gpus.gpus.len(), 2);
    assert_eq!(gpus.gpus[1].pci, sysinfo::illumos::PCI { domain: 0, bus: 1, device: 0, function: 0 });
    assert_eq!(gpus.gpus[1].vendor, b"NVIDIA Corporation".to_vec());
    assert_eq!(gpus.gpus[1].model, Some(b"NVIDIA GeForce RTX 3080".to_vec()));
    assert!(matches!(gpus.gpus[1].usage, Some(sysinfo::linux_gpu::UsageReading::Percent(37))));
    assert_eq!(gpus.gpus[1].used_memory, Some(2_500));
    let again = sysinfo::linux_gpu::NvmlDevice { bus_id: b"00000000:01:00.0".to_vec(), name: None, utilization: Some(50), memory: None };
    gpus.apply_nvml_device(&again);
    assert_eq!(gpus.gpus.len(), 2);
    assert!(matches!(gpus.gpus[1].usage, Some(sysinfo::linux_gpu::UsageReading::Percent(50))));
    assert_eq!(gpus.gpus[1].total_memory, Some(10_000));
    let bad = sysinfo::linux_gpu::NvmlDevice { bus_id: b"nonsense\0".to_vec(), name: None, utilization: None, memory: None };
    gpus.apply_nvml_device(&bad);
    assert_eq!(gpus.gpus.len(), 2);
}
