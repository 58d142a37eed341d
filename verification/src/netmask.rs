//! Netmask to prefix-length conversion for IPv4 and IPv6 addresses.
use vstd::prelude::*;
use vstd::std_specs::bits::*;

verus! {

broadcast use axiom_u32_leading_ones, axiom_u16_leading_ones;


/// An IPv4 address, held as its four octets in network order.
#[derive(Clone, Copy, Debug, PartialEq, Eq)]
pub struct Ipv4Addr {
    pub octets: [u8; 4],
}

/// An IPv6 address, held as its eight 16-bit segments in network order.
#[derive(Clone, Copy, Debug, PartialEq, Eq)]
pub struct Ipv6Addr {
    pub segments: [u16; 8],
}

/// An IPv4 or IPv6 address.
#[derive(Clone, Copy, Debug, PartialEq, Eq)]
pub enum IpAddr {
    V4(Ipv4Addr),
    V6(Ipv6Addr),
}

/// Error returned when a netmask is not a run of leading one bits.
#[derive(Clone, Copy, Debug, PartialEq, Eq)]
pub enum MaskError {
    InvalidIpv4Prefix,
    InvalidIpv6Prefix,
}

impl Ipv4Addr {
    pub fn new(a: u8, b: u8, c: u8, d: u8) -> (r: Ipv4Addr)
        ensures
            r.octets@ == seq![a, b, c, d],
    {
        Ipv4Addr { octets: [a, b, c, d] }
    }
}

impl Ipv6Addr {
    #[allow(clippy::too_many_arguments)]
    pub fn new(a: u16, b: u16, c: u16, d: u16, e: u16, f: u16, g: u16, h: u16) -> (r: Ipv6Addr)
        ensures
            r.segments@ == seq![a, b, c, d, e, f, g, h],
    {
        Ipv6Addr { segments: [a, b, c, d, e, f, g, h] }
    }
}

impl From<Ipv4Addr> for IpAddr {
    fn from(a: Ipv4Addr) -> (r: IpAddr)
        ensures
            r == IpAddr::V4(a),
    {
        IpAddr::V4(a)
    }
}

impl vstd::std_specs::convert::FromSpecImpl<Ipv4Addr> for IpAddr {
    open spec fn obeys_from_spec() -> bool {
        true
    }

    open spec fn from_spec(v: Ipv4Addr) -> IpAddr {
        IpAddr::V4(v)
    }
}

impl From<Ipv6Addr> for IpAddr {
    fn from(a: Ipv6Addr) -> (r: IpAddr)
        ensures
            r == IpAddr::V6(a),
    {
        IpAddr::V6(a)
    }
}

impl vstd::std_specs::convert::FromSpecImpl<Ipv6Addr> for IpAddr {
    open spec fn obeys_from_spec() -> bool {
        true
    }

    open spec fn from_spec(v: Ipv6Addr) -> IpAddr {
        IpAddr::V6(v)
    }
}

/// The 32-bit big-endian value of four octets.
pub open spec fn spec_v4_bits(o: Seq<u8>) -> u32 {
    ((o[0] as u32) << 24u32) | ((o[1] as u32) << 16u32) | ((o[2] as u32) << 8u32) | (o[3] as u32)
}

/// The IPv4 netmask with `prefix` leading one bits (for `prefix <= 32`).
pub open spec fn spec_v4_mask(prefix: u32) -> u32 {
    !(0xffff_ffffu32 >> prefix)
}

/// The 16-bit netmask segment with `k` leading one bits (for `k <= 16`).
pub open spec fn spec_u16_mask(k: u16) -> u16 {
    !(0xffffu16 >> k)
}

/// The number of the `prefix` leading one bits that fall into segment `i`.
pub open spec fn spec_bits_in_segment(prefix: nat, i: int) -> u16 {
    if prefix <= 16 * i {
        0
    } else if prefix >= 16 * i + 16 {
        16
    } else {
        (prefix - 16 * i) as u16
    }
}

/// Whether eight segments form the IPv6 netmask with `prefix` leading one bits.
pub open spec fn is_v6_mask(segs: Seq<u16>, prefix: nat) -> bool {
    &&& prefix <= 128
    &&& segs.len() == 8
    &&& forall|i: int| 0 <= i < 8 ==> #[trigger] segs[i] == spec_u16_mask(spec_bits_in_segment(prefix, i))
}

proof fn lemma_v4_mask_shape(mask: u32, lo: u32)
    by (bit_vector)
    requires
        lo <= 32,
        (!mask) >> ((32 - lo) as u32) == 0,
        ((mask as u64) << (lo as u64)) & 0xffff_ffffu64 == 0,
    ensures
        mask == !(0xffff_ffffu32 >> lo),
{
}

proof fn lemma_v4_mask_unique(mask: u32, lo: u32, p: u32)
    by (bit_vector)
    requires
        lo <= 32,
        p <= 32,
        (!mask) >> ((32 - lo) as u32) == 0,
        lo < 32 ==> (mask >> ((31 - lo) as u32)) & 1u32 == 0u32,
        mask == !(0xffff_ffffu32 >> p),
    ensures
        lo == p,
        ((mask as u64) << (lo as u64)) & 0xffff_ffffu64 == 0,
{
}

proof fn lemma_u16_mask_shape(seg: u16, lo: u16)
    by (bit_vector)
    requires
        lo < 16,
        (!seg) >> (16 - lo) as u16 == 0,
        seg << lo == 0,
    ensures
        seg == !(0xffffu16 >> lo),
{
}

proof fn lemma_u16_mask_unique(seg: u16, lo: u16, k: u16)
    by (bit_vector)
    requires
        lo < 16,
        k <= 16,
        (!seg) >> (16 - lo) as u16 == 0,
        (seg >> (15 - lo) as u16) & 1u16 == 0u16,
        seg == !(0xffffu16 >> k),
    ensures
        lo == k,
        seg << lo == 0,
{
}

proof fn lemma_u16_mask_ends(k: u16)
    by (bit_vector)
    requires
        k <= 16,
    ensures
        !(0xffffu16 >> k) == 0xffffu16 <==> k == 16,
        !(0xffffu16 >> k) == 0u16 <==> k == 0,
{
}

/// The prefix length of an IPv4 netmask: `Ok(p)` exactly when the mask is `p` one
/// bits followed by zero bits.
pub fn ipv4_mask_to_prefix(mask: Ipv4Addr) -> (r: Result<u8, MaskError>)
    ensures
        match r {
            Ok(p) => p <= 32 && spec_v4_bits(mask.octets@) == spec_v4_mask(p as u32),
            Err(e) => e == MaskError::InvalidIpv4Prefix && forall|p: u32|
                p <= 32 ==> spec_v4_bits(mask.octets@) != #[trigger] spec_v4_mask(p),
        },
{
    let o = mask.octets;
    let m: u32 = ((o[0] as u32) << 24u32) | ((o[1] as u32) << 16u32) | ((o[2] as u32) << 8u32) | (
    o[3] as u32);
    assert(m == spec_v4_bits(mask.octets@));
    let lo: u32 = (!m).leading_zeros();
    assert(lo == u32_leading_ones(m));
    let prefix = lo as u8;
    if ((m as u64) << (lo as u64)) & 0xffff_ffffu64 != 0 {
        proof {
            assert forall|p: u32| p <= 32 implies m != #[trigger] spec_v4_mask(p) by {
                if m == spec_v4_mask(p) {
                    lemma_v4_mask_unique(m, lo, p);
                }
            }
        }
        Err(MaskError::InvalidIpv4Prefix)
    } else {
        proof {
            lemma_v4_mask_shape(m, lo);
        }
        Ok(prefix)
    }
}

/// The prefix length of an IPv6 netmask: `Ok(p)` exactly when the eight segments
/// are `p` one bits followed by zero bits.
pub fn ipv6_mask_to_prefix(mask: Ipv6Addr) -> (r: Result<u8, MaskError>)
    ensures
        match r {
            Ok(p) => is_v6_mask(mask.segments@, p as nat),
            Err(e) => e == MaskError::InvalidIpv6Prefix && forall|p: nat|
                !#[trigger] is_v6_mask(mask.segments@, p),
        },
{
    let segs = mask.segments;
    let ghost s = segs@;
    assert(s == mask.segments@);
    let mut prefix: u8 = 0;
    let mut i: usize = 0;
    let ghost mut boundary = true;
    // Count the number of set bits from the start of the address.
    while i < 8
        invariant_except_break
            0 <= i <= 8,
            s == segs@,
            s == mask.segments@,
            s.len() == 8,
            prefix as nat == 16 * i,
            forall|j: int| 0 <= j < i ==> s[j] == 0xffffu16,
            boundary,
        ensures
            0 <= i <= 8,
            s == segs@,
            s == mask.segments@,
            s.len() == 8,
            boundary ==> prefix as nat == 16 * i && (forall|j: int| 0 <= j < i ==> s[j] == 0xffffu16)
                && (i < 8 ==> s[i as int] == 0u16),
            !boundary ==> 0 < i && 16 * i - 16 < prefix as nat && (prefix as nat) < 16 * i && (
            forall|j: int| 0 <= j < i - 1 ==> s[j] == 0xffffu16) && s[i - 1] == spec_u16_mask(
                (prefix - (16 * i - 16)) as u16,
            ) && (forall|p: nat| #[trigger] is_v6_mask(s, p) ==> p == prefix as nat),
        decreases 8 - i,
    {
        let segment = segs[i];
        if segment == 0xffff {
            prefix = prefix + 16;
            i = i + 1;
        } else if segment == 0 {
            // The prefix finishes on a segment boundary.
            break;
        } else {
            let lo: u32 = (!segment).leading_zeros();
            assert(lo == u16_leading_ones(segment));
            assert(lo < 16);
            let prefix_bits = lo as u8;
            // Check that the remainder of the bits are all unset.
            if segment << prefix_bits != 0 {
                proof {
                    assert forall|p: nat| !#[trigger] is_v6_mask(s, p) by {
                        if is_v6_mask(s, p) {
                            assert(s[i as int] == spec_u16_mask(spec_bits_in_segment(p, i as int)));
                            lemma_u16_mask_unique(
                                segment,
                                lo as u16,
                                spec_bits_in_segment(p, i as int),
                            );
                        }
                    }
                }
                return Err(MaskError::InvalidIpv6Prefix);
            }
            proof {
                lemma_u16_mask_shape(segment, lo as u16);
                if lo == 0 {
                    assert(segment << 0u16 == segment) by (bit_vector);
                }
                assert forall|p: nat| #[trigger] is_v6_mask(s, p) implies p == prefix + lo by {
                    let k = spec_bits_in_segment(p, i as int);
                    assert(s[i as int] == spec_u16_mask(k));
                    lemma_u16_mask_unique(segment, lo as u16, k);
                }
                boundary = false;
            }
            prefix = prefix + prefix_bits;
            i = i + 1;
            break;
        }
    }
    let ghost end = i;
    // Now check that all the remaining bits are unset.
    while i < 8
        invariant
            end <= i <= 8,
            s == segs@,
            s == mask.segments@,
            s.len() == 8,
            forall|j: int| end <= j < i ==> s[j] == 0u16,
            boundary ==> prefix as nat == 16 * end && (forall|j: int|
                0 <= j < end ==> s[j] == 0xffffu16) && (end < 8 ==> s[end as int] == 0u16),
            !boundary ==> 0 < end && 16 * end - 16 < prefix as nat && (prefix as nat) < 16 * end
                && (forall|j: int| 0 <= j < end - 1 ==> s[j] == 0xffffu16) && s[end - 1]
                == spec_u16_mask((prefix - (16 * end - 16)) as u16) && (forall|p: nat|
                #[trigger] is_v6_mask(s, p) ==> p == prefix as nat),
        decreases 8 - i,
    {
        if segs[i] != 0 {
            proof {
                assert forall|p: nat| !#[trigger] is_v6_mask(s, p) by {
                    if is_v6_mask(s, p) {
                        assert(s[i as int] == spec_u16_mask(spec_bits_in_segment(p, i as int)));
                        lemma_u16_mask_ends(spec_bits_in_segment(p, i as int));
                        if boundary {
                            if end > 0 {
                                assert(s[end - 1] == spec_u16_mask(
                                    spec_bits_in_segment(p, end - 1),
                                ));
                                lemma_u16_mask_ends(spec_bits_in_segment(p, end - 1));
                            }
                            assert(s[end as int] == spec_u16_mask(
                                spec_bits_in_segment(p, end as int),
                            ));
                            lemma_u16_mask_ends(spec_bits_in_segment(p, end as int));
                        }
                    }
                }
            }
            return Err(MaskError::InvalidIpv6Prefix);
        }
        i = i + 1;
    }
    proof {
        assert forall|j: int| 0 <= j < 8 implies #[trigger] s[j] == spec_u16_mask(
            spec_bits_in_segment(prefix as nat, j),
        ) by {
            lemma_u16_mask_ends(spec_bits_in_segment(prefix as nat, j));
        }
    }
    Ok(prefix)
}

/// The prefix length of a netmask of either address family.
pub fn ip_mask_to_prefix(mask: IpAddr) -> (r: Result<u8, MaskError>)
    ensures
        match mask {
            IpAddr::V4(m) => match r {
                Ok(p) => p <= 32 && spec_v4_bits(m.octets@) == spec_v4_mask(p as u32),
                Err(e) => e == MaskError::InvalidIpv4Prefix && forall|p: u32|
                    p <= 32 ==> spec_v4_bits(m.octets@) != #[trigger] spec_v4_mask(p),
            },
            IpAddr::V6(m) => match r {
                Ok(p) => is_v6_mask(m.segments@, p as nat),
                Err(e) => e == MaskError::InvalidIpv6Prefix && forall|p: nat|
                    !#[trigger] is_v6_mask(m.segments@, p),
            },
        },
{
    match mask {
        IpAddr::V4(m) => ipv4_mask_to_prefix(m),
        IpAddr::V6(m) => ipv6_mask_to_prefix(m),
    }
}

/// Distinct prefix lengths give distinct IPv4 netmasks, so the prefix that
/// `ipv4_mask_to_prefix` returns is the only one whose mask matches.
pub proof fn v4_masks_are_distinct(p: u32, q: u32)
    requires
        p <= 32,
        q <= 32,
        spec_v4_mask(p) == spec_v4_mask(q),
    ensures
        p == q,
{
    assert(p <= 32 && q <= 32 && !(0xffff_ffffu32 >> p) == !(0xffff_ffffu32 >> q) ==> p == q)
        by (bit_vector);
}

/// Distinct prefix lengths give distinct IPv6 netmasks.
pub proof fn v6_masks_are_distinct(segs: Seq<u16>, p: nat, q: nat)
    requires
        is_v6_mask(segs, p),
        is_v6_mask(segs, q),
    ensures
        p == q,
{
    if p != q {
        let (lo, hi) = if p < q { (p, q) } else { (q, p) };
        let i = (lo / 16) as int;
        assert(segs[i] == spec_u16_mask(spec_bits_in_segment(p, i)));
        assert(segs[i] == spec_u16_mask(spec_bits_in_segment(q, i)));
        let a = spec_bits_in_segment(lo, i);
        let b = spec_bits_in_segment(hi, i);
        assert(a < b);
        assert(a < b && b <= 16 ==> !(0xffffu16 >> a) != !(0xffffu16 >> b)) by (bit_vector);
    }
}


/// The IPv4 netmask of a prefix length `p` has exactly its `p` leading bits set: bit
/// `31 - i` (counting from the least significant) is set exactly when `i < p`.
pub proof fn v4_mask_has_prefix_leading_ones(p: u32, i: u32)
    requires
        p <= 32,
        i < 32,
    ensures
        (spec_v4_mask(p) >> (31 - i) as u32) & 1u32 == 1u32 <==> i < p,
{
    assert(p <= 32 && i < 32 ==> ((((!(0xffff_ffffu32 >> p)) >> (31 - i) as u32) & 1u32 == 1u32) <==> i < p))
        by (bit_vector);
}

/// A 16-bit netmask segment of `k` bits has exactly its `k` leading bits set.
pub proof fn u16_mask_has_leading_ones(k: u16, i: u16)
    requires
        k <= 16,
        i < 16,
    ensures
        (spec_u16_mask(k) >> (15 - i) as u16) & 1u16 == 1u16 <==> i < k,
{
    assert(k <= 16 && i < 16 ==> ((((!(0xffffu16 >> k)) >> (15 - i) as u16) & 1u16 == 1u16) <==> i < k))
        by (bit_vector);
}

/// The four octets of an IPv4 address are read most significant first.
pub proof fn v4_bits_are_big_endian(o: Seq<u8>)
    requires
        o.len() == 4,
    ensures
        spec_v4_bits(o) == o[0] as int * 0x100_0000 + o[1] as int * 0x1_0000 + o[2] as int * 0x100 + o[3] as int,
{
    let (a, b, c, d) = (o[0], o[1], o[2], o[3]);
    assert(((a as u32) << 24u32) | ((b as u32) << 16u32) | ((c as u32) << 8u32) | (d as u32) == a as u32 * 0x100_0000
        + b as u32 * 0x1_0000 + c as u32 * 0x100 + d as u32) by (bit_vector);
}

/// The `prefix` leading one bits of an IPv6 netmask fill the segments in order: a
/// segment before the prefix's end is full, one after it empty, and the segment where
/// it ends holds what is left of it.
pub proof fn v6_mask_segments(prefix: nat, i: int)
    requires
        prefix <= 128,
        0 <= i < 8,
    ensures
        16 * i + 16 <= prefix ==> spec_bits_in_segment(prefix, i) == 16,
        prefix <= 16 * i ==> spec_bits_in_segment(prefix, i) == 0,
        16 * i < prefix < 16 * i + 16 ==> spec_bits_in_segment(prefix, i) == prefix - 16 * i,
{
}

} // verus!
