//! The physical package of the running x86 processor, from what the `cpuid`
//! instruction reports (the method of NetBSD's `x86_cpu_topology`).
use vstd::prelude::*;
use crate::common::Error;

verus! {

/// What `cpuid` reports, register by register, for the leaves the computation reads.
/// A leaf that the processor does not offer is read as zeros.
#[derive(Clone, Copy, Debug)]
pub struct CpuidLeaves {
    /// Leaf 0: the highest basic leaf and the vendor string (EBX, EDX, ECX).
    pub max_cpuid: u32,
    pub vendor_ebx: u32,
    pub vendor_edx: u32,
    pub vendor_ecx: u32,
    /// Leaf 0x8000_0000: the highest extended leaf.
    pub max_ext_cpuid: u32,
    /// Leaf 1: signature, APIC id and logical processor count, feature flags.
    pub leaf1_eax: u32,
    pub leaf1_ebx: u32,
    pub leaf1_edx: u32,
    /// Leaf 4, sub-leaf 0 (Intel): cores per package.
    pub leaf4_eax: u32,
    /// Leaf 0x8000_0008 (AMD): thread count and APIC id size.
    pub leaf80000008_ecx: u32,
    /// Leaf 0x8000_001e (AMD): threads per core.
    pub leaf8000001e_ebx: u32,
}

/// The processor vendors the computation knows.
#[derive(Clone, Copy, Debug, PartialEq, Eq, Structural)]
pub enum Vendor {
    Intel,
    Amd,
}

/// The base-2 logarithm of `x`, rounded down.
pub open spec fn floor_log2(x: nat) -> nat
    decreases x,
{
    if x < 2 {
        0
    } else {
        1 + floor_log2(x / 2)
    }
}

/// The base-2 logarithm of `x`, rounded down, by halving (what `u32::ilog2` gives; it is
/// undefined on 0).
fn ilog2(x: u32) -> (r: u32)
    requires
        x > 0,
    ensures
        r == floor_log2(x as nat),
{
    let mut y: u32 = x;
    let mut r: u32 = 0;
    proof {
        lemma_floor_log2_bound(x as nat);
    }
    while y >= 2
        invariant
            y >= 1,
            r + floor_log2(y as nat) == floor_log2(x as nat),
            floor_log2(x as nat) < 32,
        decreases y,
    {
        assert(floor_log2(y as nat) == 1 + floor_log2((y / 2) as nat));
        y = y / 2;
        r = r + 1;
    }
    r
}

proof fn lemma_floor_log2_lt(x: nat, k: nat)
    requires
        k > 0,
        x < vstd::arithmetic::power2::pow2(k),
    ensures
        floor_log2(x) < k,
    decreases x,
{
    if x >= 2 {
        vstd::arithmetic::power2::lemma_pow2_unfold(k);
        if k == 1 {
            vstd::arithmetic::power2::lemma2_to64();
        } else {
            lemma_floor_log2_lt(x / 2, (k - 1) as nat);
        }
    }
}

proof fn lemma_floor_log2_bound(x: nat)
    ensures
        x < 0x1_0000_0000 ==> floor_log2(x) < 32,
{
    if x < 0x1_0000_0000 {
        vstd::arithmetic::power2::lemma2_to64();
        lemma_floor_log2_lt(x, 32);
    }
}

/// The bytes of a register in memory order (little-endian, as on x86).
pub open spec fn le_bytes(v: u32) -> Seq<u8> {
    seq![(v % 0x100) as u8, ((v / 0x100) % 0x100) as u8, ((v / 0x10000) % 0x100) as u8, (v
        / 0x1000000) as u8]
}

/// The 12 vendor bytes: EBX, EDX, ECX of leaf 0.
pub open spec fn vendor_bytes(l: CpuidLeaves) -> Seq<u8> {
    le_bytes(l.vendor_ebx) + le_bytes(l.vendor_edx) + le_bytes(l.vendor_ecx)
}

/// The index of the first NUL of `s`, or its length.
pub open spec fn nul_index(s: Seq<u8>, i: int) -> int
    decreases s.len() - i,
{
    if i < 0 || i >= s.len() {
        s.len() as int
    } else if s[i] == 0 {
        i
    } else {
        nul_index(s, i + 1)
    }
}

/// `GenuineIntel`.
pub open spec fn intel_id() -> Seq<u8> {
    seq![0x47u8, 0x65u8, 0x6eu8, 0x75u8, 0x69u8, 0x6eu8, 0x65u8, 0x49u8, 0x6eu8, 0x74u8, 0x65u8, 0x6cu8]
}

/// `AuthenticAMD`.
pub open spec fn amd_id() -> Seq<u8> {
    seq![0x41u8, 0x75u8, 0x74u8, 0x68u8, 0x65u8, 0x6eu8, 0x74u8, 0x69u8, 0x63u8, 0x41u8, 0x4du8, 0x44u8]
}

/// The vendor whose string leaf 0 holds (up to its first NUL).
pub open spec fn spec_vendor(l: CpuidLeaves) -> Option<Vendor> {
    let b = vendor_bytes(l);
    let id = b.subrange(0, nul_index(b, 0));
    if id == intel_id() {
        Some(Vendor::Intel)
    } else if id == amd_id() {
        Some(Vendor::Amd)
    } else {
        None
    }
}

/// The processor family: the base family, plus the extended family when the base
/// family is 0xf.
pub open spec fn cpu_family(l: CpuidLeaves) -> u32 {
    let base = (l.leaf1_eax / 0x100) % 0x10;
    let ext = (l.leaf1_eax / 0x100000) % 0x100;
    if base == 0xf {
        (base + ext) as u32
    } else {
        base as u32
    }
}

/// Whether leaf 1 announces hyper-threading (EDX bit 28).
pub open spec fn has_htt(l: CpuidLeaves) -> bool {
    (l.leaf1_edx / 0x10000000) % 2 == 1
}

/// The most logical processors per package.
pub open spec fn lp_max(l: CpuidLeaves) -> u32 {
    if has_htt(l) {
        ((l.leaf1_ebx / 0x10000) % 0x100) as u32
    } else {
        1
    }
}

/// The most cores per package, and the width of the core field of the APIC id when
/// the processor gives it (0 otherwise).
pub open spec fn core_max_and_bits(l: CpuidLeaves, v: Vendor) -> (u32, u32) {
    match v {
        Vendor::Intel => if l.max_cpuid >= 4 {
            (((l.leaf4_eax / 0x4000000) % 0x40 + 1) as u32, 0)
        } else {
            (1, 0)
        },
        Vendor::Amd => if !has_htt(l) {
            (1, 0)
        } else if cpu_family(l) < 0x10 || l.max_ext_cpuid < 0x80000008 {
            (lp_max(l), 0)
        } else {
            (((l.leaf80000008_ecx % 0x100) + 1) as u32, ((l.leaf80000008_ecx / 0x1000) % 0x10) as u32)
        },
    }
}

/// Whether `v` returns the APIC id at once for family `fam`: Intel before family 6,
/// AMD before family 0xf.
pub open spec fn legacy_family(v: Vendor, fam: u32) -> bool {
    (v == Vendor::Intel && fam < 6) || (v == Vendor::Amd && fam < 0xf)
}

/// Whether the method panics on `l`: a division by zero, an underflow, a logarithm of
/// zero, or one of its debug assertions failing (the one that expects no SMT bits
/// before the AMD family 0x17 adjustment always fails, as they are at least 1). Every
/// AMD processor of family 0x17 or later is thus left out, though a build without
/// debug assertions skips that check and returns an id for it; which id is not stated
/// here.
pub open spec fn package_id_panics(l: CpuidLeaves) -> bool {
    match spec_vendor(l) {
        None => false,
        Some(v) => {
            let fam = cpu_family(l);
            let lp = lp_max(l);
            let (cm, cb) = core_max_and_bits(l, v);
            l.max_cpuid >= 1 && !legacy_family(v, fam) && (cm == 0 || lp < cm || lp / cm == 1 || (
            cb == 0 && cm == 1) || (v == Vendor::Amd && fam >= 0x17))
        },
    }
}

/// The package id that the method computes from `l` (when it does not panic), or
/// `Err` when the processor is not supported.
pub open spec fn spec_package_id(l: CpuidLeaves) -> Result<u32, ()> {
    match spec_vendor(l) {
        None => Err(()),
        Some(v) => {
            let fam = cpu_family(l);
            let apic_id = (l.leaf1_ebx / 0x1000000) as u32;
            if l.max_cpuid < 1 {
                Err(())
            } else if legacy_family(v, fam) {
                Ok(apic_id)
            } else if v == Vendor::Amd && fam < 0x11 {
                Err(())
            } else {
                let lp = lp_max(l);
                let (cm, cb) = core_max_and_bits(l, v);
                let smt = floor_log2((lp / cm - 1) as nat) + 1;
                let core = if cb != 0 {
                    cb as nat
                } else {
                    floor_log2((cm - 1) as nat) + 1
                };
                if smt + core < 32 {
                    Ok((apic_id as nat / vstd::arithmetic::power2::pow2(smt + core)) as u32)
                } else {
                    Ok(0)
                }
            }
        },
    }
}

/// The vendor named by leaf 0.
pub fn vendor_of(l: &CpuidLeaves) -> (r: Option<Vendor>)
    ensures
        r == spec_vendor(*l),
{
    let mut x: Vec<u8> = Vec::new();
    let regs: [u32; 3] = [l.vendor_ebx, l.vendor_edx, l.vendor_ecx];
    let mut k: usize = 0;
    while k < 3
        invariant
            k <= 3,
            regs@ == seq![l.vendor_ebx, l.vendor_edx, l.vendor_ecx],
            x@ == reg_bytes(regs@, k as int),
        decreases 3 - k,
    {
        let v = regs[k];
        let b0 = (v & 0xff) as u8;
        let b1 = ((v >> 8) & 0xff) as u8;
        let b2 = ((v >> 16) & 0xff) as u8;
        let b3 = (v >> 24) as u8;
        assert(b0 == v % 0x100 && b1 == (v / 0x100) % 0x100 && b2 == (v / 0x10000) % 0x100 && b3 == v
            / 0x1000000) by (bit_vector)
            requires
                b0 == (v & 0xff) as u8,
                b1 == ((v >> 8) & 0xff) as u8,
                b2 == ((v >> 16) & 0xff) as u8,
                b3 == (v >> 24) as u8,
        ;
        let ghost before = x@;
        x.push(b0);
        x.push(b1);
        x.push(b2);
        x.push(b3);
        proof {
            assert(x@ =~= before + le_bytes(v));
        }
        k = k + 1;
    }
    proof {
        reveal_with_fuel(reg_bytes, 4);
        assert(x@ =~= vendor_bytes(*l));
    }
    let mut pos: usize = 0;
    while pos < x.len() && x[pos] != 0
        invariant
            pos <= x@.len(),
            nul_index(x@, pos as int) == nul_index(x@, 0),
        decreases x@.len() - pos,
    {
        pos = pos + 1;
    }
    let intel: [u8; 12] = [0x47, 0x65, 0x6e, 0x75, 0x69, 0x6e, 0x65, 0x49, 0x6e, 0x74, 0x65, 0x6c];
    let amd: [u8; 12] = [0x41, 0x75, 0x74, 0x68, 0x65, 0x6e, 0x74, 0x69, 0x63, 0x41, 0x4d, 0x44];
    proof {
        assert(intel@ =~= intel_id());
        assert(amd@ =~= amd_id());
    }
    if crate::text::range_eq(x.as_slice(), 0, pos, intel.as_slice()) {
        Some(Vendor::Intel)
    } else if crate::text::range_eq(x.as_slice(), 0, pos, amd.as_slice()) {
        Some(Vendor::Amd)
    } else {
        None
    }
}

/// The bytes of the first `k` registers of `regs`, in order.
pub open spec fn reg_bytes(regs: Seq<u32>, k: int) -> Seq<u8>
    decreases k,
{
    if k <= 0 || k > regs.len() {
        seq![]
    } else {
        reg_bytes(regs, k - 1) + le_bytes(regs[k - 1])
    }
}

/// The id of the physical package of the processor that `l` describes;
/// `Error::Unsupported` for a vendor other than Intel and AMD, a processor without
/// leaf 1, or an AMD processor of family 0xf or 0x10. The inputs on which the
/// computation panics are left out (`package_id_panics`), among them every AMD
/// processor of family 0x17 or later, on which a debug assertion fails; without debug
/// assertions the computation would go on there and return an id.
pub fn x86_cpu_package_id(l: &CpuidLeaves) -> (r: Result<u32, Error>)
    requires
        !package_id_panics(*l),
    ensures
        match spec_package_id(*l) {
            Ok(id) => r matches Ok(x) && x == id,
            Err(_) => r matches Err(Error::Unsupported),
        },
{
    let vendor = match vendor_of(l) {
        Some(v) => v,
        None => return Err(Error::Unsupported),
    };
    if l.max_cpuid < 1 {
        return Err(Error::Unsupported);
    }
    let signature = l.leaf1_eax;
    let features_edx = l.leaf1_edx;
    let ebx1 = l.leaf1_ebx;
    let apic_id = ebx1 >> 24;
    let base_family = (signature >> 8) & 0x0f;
    let ext_family = (signature >> 20) & 0xff;
    assert(apic_id == ebx1 / 0x1000000 && base_family == (signature / 0x100) % 0x10
        && ext_family == (signature / 0x100000) % 0x100) by (bit_vector)
        requires
            apic_id == ebx1 >> 24,
            base_family == (signature >> 8) & 0x0f,
            ext_family == (signature >> 20) & 0xff,
    ;
    let cpu_family = if base_family == 0x0f {
        base_family + ext_family
    } else {
        base_family
    };
    assert(cpu_family == self::cpu_family(*l));
    if (vendor == Vendor::Intel && cpu_family < 6) || (vendor == Vendor::Amd && cpu_family < 0xf) {
        return Ok(apic_id);
    }
    let htt = (features_edx & 0x10000000) != 0;
    assert(htt == ((features_edx / 0x10000000) % 2 == 1)) by (bit_vector)
        requires
            htt == ((features_edx & 0x10000000) != 0),
    ;
    let lp_max: u32 = if htt {
        let e = (ebx1 >> 16) & 0xff;
        assert(e == (ebx1 / 0x10000) % 0x100) by (bit_vector)
            requires
                e == (ebx1 >> 16) & 0xff,
        ;
        e
    } else {
        1
    };
    assert(lp_max == self::lp_max(*l));
    let mut core_bits: u32 = 0;
    let core_max: u32 = match vendor {
        Vendor::Intel => {
            if l.max_cpuid >= 4 {
                let eax4 = l.leaf4_eax;
                assert((eax4 >> 26) & 0x3f <= 0x3f) by (bit_vector);
                let c = ((eax4 >> 26) & 0x3f) + 1;
                assert(c == (eax4 / 0x4000000) % 0x40 + 1) by (bit_vector)
                    requires
                        c == ((eax4 >> 26) & 0x3f) + 1,
                ;
                c
            } else {
                1
            }
        },
        Vendor::Amd => {
            if !htt {
                1
            } else if cpu_family < 0x10 || l.max_ext_cpuid < 0x80000008 {
                lp_max
            } else {
                let ecx = l.leaf80000008_ecx;
                assert(ecx & 0xff <= 0xff) by (bit_vector);
                let c = (ecx & 0xff) + 1;
                let apic_id_size = (ecx >> 12) & 0x0f;
                assert(c == ecx % 0x100 + 1 && apic_id_size == (ecx / 0x1000) % 0x10) by (bit_vector)
                    requires
                        c == (ecx & 0xff) + 1,
                        apic_id_size == (ecx >> 12) & 0x0f,
                ;
                if apic_id_size != 0 {
                    core_bits = apic_id_size;
                }
                c
            }
        },
    };
    assert((core_max, core_bits) == core_max_and_bits(*l, vendor));
    assert(core_max > 0 && lp_max >= core_max && lp_max / core_max != 1);
    assert(lp_max / core_max >= 1) by (nonlinear_arith)
        requires
            core_max > 0,
            lp_max >= core_max,
    ;
    proof {
        lemma_floor_log2_bound(((lp_max / core_max) - 1) as nat);
        lemma_floor_log2_bound((core_max - 1) as nat);
    }
    let smt_bits = ilog2((lp_max / core_max) - 1) + 1;
    if core_bits == 0 {
        core_bits = ilog2(core_max - 1) + 1;
    }
    if vendor == Vendor::Amd && cpu_family < 0x11 {
        return Err(Error::Unsupported);
    }
    if smt_bits + core_bits < 32 {
        let id = apic_id >> (smt_bits + core_bits);
        proof {
            vstd::bits::lemma_u32_shr_is_div(apic_id, (smt_bits + core_bits) as u32);
        }
        Ok(id)
    } else {
        Ok(0)
    }
}

/// Whether the method would panic on `l` (see `package_id_panics`): callers test it
/// before `x86_cpu_package_id`.
pub fn package_id_would_panic(l: &CpuidLeaves) -> (r: bool)
    ensures
        r == package_id_panics(*l),
{
    let vendor = match vendor_of(l) {
        Some(v) => v,
        None => return false,
    };
    let signature = l.leaf1_eax;
    let base_family = (signature >> 8) & 0x0f;
    let ext_family = (signature >> 20) & 0xff;
    assert(base_family == (signature / 0x100) % 0x10 && ext_family == (signature / 0x100000)
        % 0x100) by (bit_vector)
        requires
            base_family == (signature >> 8) & 0x0f,
            ext_family == (signature >> 20) & 0xff,
    ;
    let fam = if base_family == 0x0f {
        base_family + ext_family
    } else {
        base_family
    };
    assert(fam == cpu_family(*l));
    if l.max_cpuid < 1 || (vendor == Vendor::Intel && fam < 6) || (vendor == Vendor::Amd && fam
        < 0xf) {
        return false;
    }
    let edx = l.leaf1_edx;
    let ebx1 = l.leaf1_ebx;
    let htt = (edx & 0x10000000) != 0;
    let e = (ebx1 >> 16) & 0xff;
    assert(htt == ((edx / 0x10000000) % 2 == 1) && e == (ebx1 / 0x10000) % 0x100) by (bit_vector)
        requires
            htt == ((edx & 0x10000000) != 0),
            e == (ebx1 >> 16) & 0xff,
    ;
    let lp: u32 = if htt { e } else { 1 };
    let mut cb: u32 = 0;
    let cm: u32 = match vendor {
        Vendor::Intel => {
            if l.max_cpuid >= 4 {
                let eax4 = l.leaf4_eax;
                assert((eax4 >> 26) & 0x3f <= 0x3f) by (bit_vector);
                let c = ((eax4 >> 26) & 0x3f) + 1;
                assert(c == (eax4 / 0x4000000) % 0x40 + 1) by (bit_vector)
                    requires
                        c == ((eax4 >> 26) & 0x3f) + 1,
                ;
                c
            } else {
                1
            }
        },
        Vendor::Amd => {
            if !htt {
                1
            } else if fam < 0x10 || l.max_ext_cpuid < 0x80000008 {
                lp
            } else {
                let ecx = l.leaf80000008_ecx;
                assert(ecx & 0xff <= 0xff) by (bit_vector);
                let c = (ecx & 0xff) + 1;
                let size = (ecx >> 12) & 0x0f;
                assert(c == ecx % 0x100 + 1 && size == (ecx / 0x1000) % 0x10) by (bit_vector)
                    requires
                        c == (ecx & 0xff) + 1,
                        size == (ecx >> 12) & 0x0f,
                ;
                cb = size;
                c
            }
        },
    };
    assert((cm, cb) == core_max_and_bits(*l, vendor));
    cm == 0 || lp < cm || lp / cm == 1 || (cb == 0 && cm == 1) || (vendor == Vendor::Amd && fam
        >= 0x17)
}

} // verus!
