use sysinfo::common::Error;
use sysinfo::cpuid::{package_id_would_panic, vendor_of, x86_cpu_package_id, CpuidLeaves, Vendor};

fn intel(family_eax: u32, ebx1: u32, edx1: u32, leaf4: u32) -> CpuidLeaves {
    CpuidLeaves {
        max_cpuid: 0xd,
        vendor_ebx: u32::from_le_bytes(*b"Genu"),
        vendor_edx: u32::from_le_bytes(*b"ineI"),
        vendor_ecx: u32::from_le_bytes(*b"ntel"),
        max_ext_cpuid: 0x8000_0008,
        leaf1_eax: family_eax,
        leaf1_ebx: ebx1,
        leaf1_edx: edx1,
        leaf4_eax: leaf4,
        leaf80000008_ecx: 0,
        leaf8000001e_ebx: 0,
    }
}

fn amd(family_eax: u32, ebx1: u32, ecx8: u32) -> CpuidLeaves {
    CpuidLeaves {
        vendor_ebx: u32::from_le_bytes(*b"Auth"),
        vendor_edx: u32::from_le_bytes(*b"enti"),
        vendor_ecx: u32::from_le_bytes(*b"cAMD"),
        leaf80000008_ecx: ecx8,
        ..intel(family_eax, ebx1, 0x1000_0000, 0)
    }
}

#[test]
fn recognises_vendors() {
    assert_eq!(vendor_of(&intel(0, 0, 0, 0)), Some(Vendor::Intel));
    assert_eq!(vendor_of(&amd(0, 0, 0)), Some(Vendor::Amd));
    let other = CpuidLeaves { vendor_ebx: u32::from_le_bytes(*b"Cent"), ..intel(0, 0, 0, 0) };
    assert_eq!(vendor_of(&other), None);
    let short = CpuidLeaves { vendor_ecx: 0, ..intel(0, 0, 0, 0) };
    assert_eq!(vendor_of(&short), None);
}

#[test]
fn intel_package_id_drops_the_smt_and_core_bits() {
    // Family 6, APIC id 48, 16 logical processors, HTT, 8 cores per package:
    // one SMT bit and three core bits.
    let l = intel(0x0003_06a9, 0x3010_0800, 0x1000_0000, 7 << 26);
    assert!(!package_id_would_panic(&l));
    assert_eq!(x86_cpu_package_id(&l).unwrap(), 3);
}

#[test]
fn old_processors_use_the_apic_id() {
    let l = intel(0x0000_0500, 0x0700_0000, 0, 0);
    assert_eq!(x86_cpu_package_id(&l).unwrap(), 7);
    let l = amd(0x0000_0e00, 0x0900_0000, 0);
    assert_eq!(x86_cpu_package_id(&l).unwrap(), 9);
}

#[test]
fn unsupported_processors() {
    let l = CpuidLeaves { max_cpuid: 0, ..intel(0x0003_06a9, 0, 0, 0) };
    assert!(matches!(x86_cpu_package_id(&l), Err(Error::Unsupported)));
    let l = CpuidLeaves { vendor_ebx: 0, ..intel(0x0003_06a9, 0, 0, 0) };
    assert!(matches!(x86_cpu_package_id(&l), Err(Error::Unsupported)));
    // AMD family 0x10 needs a model-specific register.
    let l = amd(0x0010_0f00, 0x0008_0000, 3);
    assert!(!package_id_would_panic(&l));
    assert!(matches!(x86_cpu_package_id(&l), Err(Error::Unsupported)));
}

#[test]
fn panicking_inputs_are_recognised() {
    // As many logical processors as cores: the logarithm of zero.
    assert!(package_id_would_panic(&intel(0x0003_06a9, 0x3008_0800, 0x1000_0000, 7 << 26)));
    // Without HTT on a single-core Intel processor: the logarithm of zero.
    assert!(package_id_would_panic(&intel(0x0003_06a9, 0, 0, 0)));
    // AMD family 0x17 trips a debug assertion of the method.
    assert!(package_id_would_panic(&amd(0x0080_0f00, 0x0010_0000, 0x700f)));
}
