//! The GPUs of Linux that the sysfs describes: which DRM entries are cards, what their
//! `class` and `vendor` files say, the names of the PCI ID database, and how the list
//! of GPUs follows the cards found.
use vstd::prelude::*;
use vstd::utf8::valid_utf8;
use crate::illumos::PCI;
use crate::text::{
    views, spec_lines, lines, trim, trim_range, spec_parse_hex_u32, parse_hex_u32_range,
    starts_with_at, copy_range, find_from, lemma_find_from, find_byte_from, contains_byte,
    is_valid_utf8, string_from_utf8, spec_parse_u64, parse_u64_range, utf8_lossy, string_from_utf8_lossy,
};

verus! {

/// Whether a `/sys/class/drm` entry is a card: `card<N>`, not one of its connectors
/// (`card<N>-<connector>`).
pub open spec fn is_card_name(name: Seq<u8>) -> bool {
    name.len() >= 4 && name.subrange(0, 4) == seq![0x63u8, 0x61u8, 0x72u8, 0x64u8] && !contains_byte(name, 0x2du8)
}

/// Whether a `/sys/class/drm` entry is a card.
pub fn is_card_entry(name: &[u8]) -> (r: bool)
    ensures
        r == is_card_name(name@),
{
    let card: [u8; 4] = [0x63, 0x61, 0x72, 0x64];
    assert(card@ =~= seq![0x63u8, 0x61u8, 0x72u8, 0x64u8]);
    if !starts_with_at(name, 0, card.as_slice()) {
        return false;
    }
    let k = find_byte_from(name, 0x2d, 0);
    proof {
        lemma_find_from(name@, 0x2du8, 0);
        if k < name@.len() {
            assert(name@[k as int] == 0x2du8);
        }
    }
    k >= name.len()
}

/// Whether the `class` file of a device says it is a display controller: its trimmed
/// text starts with `0x03`.
pub open spec fn is_gpu_class(text: Seq<u8>) -> bool {
    let t = trim(text);
    t.len() >= 4 && t.subrange(0, 4) == seq![0x30u8, 0x78u8, 0x30u8, 0x33u8]
}

/// Whether a device's `class` file (its text) describes a display controller.
pub fn gpu_class(text: &[u8]) -> (r: bool)
    ensures
        r == is_gpu_class(text@),
{
    let (x, y) = trim_range(text, 0, text.len());
    proof {
        assert(text@.subrange(0, text@.len() as int) =~= text@);
    }
    let t = copy_range(text, x, y);
    let k: [u8; 4] = [0x30, 0x78, 0x30, 0x33];
    assert(k@ =~= seq![0x30u8, 0x78u8, 0x30u8, 0x33u8]);
    starts_with_at(t.as_slice(), 0, k.as_slice())
}

/// The hexadecimal id that a `vendor` or `device` file holds: its trimmed text after
/// `0x`.
pub open spec fn spec_hex_id(text: Seq<u8>) -> Option<u32> {
    let t = trim(text);
    if t.len() >= 2 && t[0] == 0x30u8 && t[1] == 0x78u8 {
        spec_parse_hex_u32(t.subrange(2, t.len() as int))
    } else {
        None
    }
}

/// Reads the hexadecimal id of a `vendor` or `device` file.
pub fn hex_id(text: &[u8]) -> (r: Option<u32>)
    ensures
        r == spec_hex_id(text@),
{
    let (x, y) = trim_range(text, 0, text.len());
    proof {
        assert(text@.subrange(0, text@.len() as int) =~= text@);
    }
    let t = copy_range(text, x, y);
    if t.len() >= 2 && t[0] == 0x30 && t[1] == 0x78 {
        parse_hex_u32_range(t.as_slice(), 2, t.len())
    } else {
        None
    }
}

// ---------------------------------------------------------------------------
// PCI addresses
// ---------------------------------------------------------------------------

/// The value of `s[a..b]` read as hexadecimal, if it is one.
pub open spec fn hex_field(s: Seq<u8>, a: int, b: int) -> Option<u32> {
    spec_parse_hex_u32(s.subrange(a, b))
}

/// The location that a PCI address `domain:bus:device.function` (hexadecimal fields,
/// as the sysfs names devices, e.g. `0000:03:00.0`) gives.
pub open spec fn spec_pci_address(s: Seq<u8>) -> Option<PCI> {
    let c1 = find_from(s, 0x3au8, 0);
    let c2 = find_from(s, 0x3au8, c1 + 1);
    let d = find_from(s, 0x2eu8, c2 + 1);
    if c1 >= s.len() || c2 >= s.len() || d >= s.len() {
        None
    } else {
        match (hex_field(s, 0, c1), hex_field(s, c1 + 1, c2), hex_field(s, c2 + 1, d), hex_field(
            s,
            d + 1,
            s.len() as int,
        )) {
            (Some(a), Some(b), Some(c), Some(e)) => Some(PCI { domain: a, bus: b, device: c, function: e }),
            _ => None,
        }
    }
}

/// Reads a PCI address such as `0000:03:00.0`.
pub fn parse_pci_address(s: &[u8]) -> (r: Option<PCI>)
    ensures
        r == spec_pci_address(s@),
{
    let n = s.len();
    let c1 = find_byte_from(s, 0x3a, 0);
    proof {
        lemma_find_from(s@, 0x3au8, 0);
    }
    if c1 >= n {
        return None;
    }
    let c2 = find_byte_from(s, 0x3a, c1 + 1);
    proof {
        lemma_find_from(s@, 0x3au8, c1 + 1);
    }
    if c2 >= n {
        return None;
    }
    let d = find_byte_from(s, 0x2e, c2 + 1);
    proof {
        lemma_find_from(s@, 0x2eu8, c2 + 1);
    }
    if d >= n {
        return None;
    }
    let a = parse_hex_u32_range(s, 0, c1);
    let b = parse_hex_u32_range(s, c1 + 1, c2);
    let c = parse_hex_u32_range(s, c2 + 1, d);
    let e = parse_hex_u32_range(s, d + 1, n);
    match (a, b, c, e) {
        (Some(a), Some(b), Some(c), Some(e)) => Some(PCI { domain: a, bus: b, device: c, function: e }),
        _ => None,
    }
}

// ---------------------------------------------------------------------------
// The PCI ID database
// ---------------------------------------------------------------------------

/// The identifier and name of a database line: the text before the first space read
/// as hexadecimal, and the trimmed text after it.
pub open spec fn spec_id_and_name(line: Seq<u8>) -> Option<(u32, Seq<u8>)> {
    let k = find_from(line, 0x20u8, 0);
    if k >= line.len() {
        None
    } else {
        match spec_parse_hex_u32(line.subrange(0, k)) {
            Some(id) => Some((id, trim(line.subrange(k + 1, line.len() as int)))),
            None => None,
        }
    }
}

/// Reads the identifier and name of a line of the PCI ID database.
pub fn get_id_and_name(line: &[u8]) -> (r: Option<(u32, Vec<u8>)>)
    ensures
        match spec_id_and_name(line@) {
            None => r is None,
            Some(v) => r matches Some(x) && x.0 == v.0 && x.1@ == v.1,
        },
{
    let k = find_byte_from(line, 0x20, 0);
    proof {
        lemma_find_from(line@, 0x20u8, 0);
    }
    if k >= line.len() {
        return None;
    }
    match parse_hex_u32_range(line, 0, k) {
        Some(id) => {
            let (x, y) = trim_range(line, k + 1, line.len());
            Some((id, copy_range(line, x, y)))
        },
        None => None,
    }
}

/// A vendor of the database: its id, its name, and its devices (ids and names, in
/// the order of the database).
pub type VendorView = (u32, Seq<u8>, Seq<(u32, Seq<u8>)>);

/// The vendors that the database lines `ls[i..]` add to `done`, `cur` being the
/// vendor being read. Lines starting with `#` are comments; the reading stops at a
/// line that is not UTF-8 and at the device classes (`C `); before the first vendor,
/// device lines are skipped; a vendor is recorded when the next one starts, so the
/// last vendor of the database is left out.
pub open spec fn vendor_scan(
    ls: Seq<Seq<u8>>,
    i: int,
    cur: Option<VendorView>,
    done: Seq<VendorView>,
) -> Seq<VendorView>
    decreases ls.len() - i,
{
    if i < 0 || i >= ls.len() {
        done
    } else {
        let line = ls[i];
        if !valid_utf8(line) || (line.len() >= 2 && line[0] == 0x43u8 && line[1] == 0x20u8) {
            done
        } else if line.len() >= 1 && line[0] == 0x23u8 {
            vendor_scan(ls, i + 1, cur, done)
        } else if line.len() >= 1 && line[0] == 0x09u8 {
            let rest = line.subrange(1, line.len() as int);
            match cur {
                Some(v) => if !(rest.len() >= 1 && rest[0] == 0x09u8) && spec_id_and_name(rest) is Some {
                    let d = spec_id_and_name(rest)->0;
                    vendor_scan(ls, i + 1, Some((v.0, v.1, v.2.push(d))), done)
                } else {
                    vendor_scan(ls, i + 1, cur, done)
                },
                None => vendor_scan(ls, i + 1, cur, done),
            }
        } else {
            match spec_id_and_name(line) {
                Some(p) => match cur {
                    Some(v) => vendor_scan(ls, i + 1, Some((p.0, p.1, seq![])), done.push(v)),
                    None => vendor_scan(ls, i + 1, Some((p.0, p.1, seq![])), done),
                },
                None => vendor_scan(ls, i + 1, cur, done),
            }
        }
    }
}

/// The vendors that a PCI ID database (its text) lists.
pub open spec fn spec_device_map(data: Seq<u8>) -> Seq<VendorView> {
    vendor_scan(spec_lines(data), 0, None, seq![])
}

/// A vendor of the database.
pub struct VendorDevices {
    pub id: u32,
    pub name: Vec<u8>,
    pub devices: Vec<(u32, Vec<u8>)>,
}

/// A vendor as plain values.
pub open spec fn vendor_view(v: VendorDevices) -> VendorView {
    (v.id, v.name@, v.devices@.map_values(|d: (u32, Vec<u8>)| (d.0, d.1@)))
}

/// The optional vendor as plain values.
pub open spec fn opt_vendor_view(v: Option<VendorDevices>) -> Option<VendorView> {
    match v {
        Some(x) => Some(vendor_view(x)),
        None => None,
    }
}

/// The vendors and devices of the PCI ID database, read from its text.
pub fn fill_device_map(data: &[u8]) -> (r: Vec<VendorDevices>)
    ensures
        r@.map_values(|v: VendorDevices| vendor_view(v)) == spec_device_map(data@),
{
    let ls = lines(data);
    let ghost l = views(ls@);
    let mut done: Vec<VendorDevices> = Vec::new();
    let mut cur: Option<VendorDevices> = None;
    let mut i: usize = 0;
    proof {
        assert(done@.map_values(|v: VendorDevices| vendor_view(v)) =~= Seq::<VendorView>::empty());
    }
    while i < ls.len()
        invariant
            i <= ls@.len(),
            l == views(ls@),
            l == spec_lines(data@),
            vendor_scan(l, i as int, opt_vendor_view(cur), done@.map_values(|v: VendorDevices| vendor_view(v)))
                == spec_device_map(data@),
        decreases ls@.len() - i,
    {
        let line = ls[i].as_slice();
        assert(line@ == l[i as int]);
        let ghost dv = done@.map_values(|v: VendorDevices| vendor_view(v));
        if !is_valid_utf8(line) || (line.len() >= 2 && line[0] == 0x43 && line[1] == 0x20) {
            return done;
        }
        if line.len() >= 1 && line[0] == 0x23 {
        } else if line.len() >= 1 && line[0] == 0x09 {
            let rest = copy_range(line, 1, line.len());
            if let Some(mut v) = cur {
                if !(rest.len() >= 1 && rest[0] == 0x09) {
                    match get_id_and_name(rest.as_slice()) {
                        Some(d) => {
                            let ghost before = vendor_view(v);
                            let ghost dd = (d.0, d.1@);
                            v.devices.push(d);
                            proof {
                                assert(vendor_view(v).2 =~= before.2.push(dd));
                            }
                        },
                        None => {},
                    }
                }
                cur = Some(v);
            }
        } else {
            match get_id_and_name(line) {
                Some((id, name)) => {
                    let fresh = VendorDevices { id, name, devices: Vec::new() };
                    proof {
                        assert(vendor_view(fresh).2 =~= Seq::<(u32, Seq<u8>)>::empty());
                    }
                    match cur {
                        Some(v) => {
                            let ghost vv = vendor_view(v);
                            done.push(v);
                            proof {
                                assert(done@.map_values(|v: VendorDevices| vendor_view(v)) =~= dv.push(vv));
                            }
                        },
                        None => {},
                    }
                    cur = Some(fresh);
                },
                None => {},
            }
        }
        i = i + 1;
    }
    done
}

/// The last vendor with id `id` in `vs`, as the database map keeps it.
pub open spec fn last_vendor(vs: Seq<VendorView>, id: u32) -> Option<VendorView>
    decreases vs.len(),
{
    if vs.len() == 0 {
        None
    } else if vs.last().0 == id {
        Some(vs.last())
    } else {
        last_vendor(vs.drop_last(), id)
    }
}

/// The name of the last device with id `id` in `ds`.
pub open spec fn last_device(ds: Seq<(u32, Seq<u8>)>, id: u32) -> Option<Seq<u8>>
    decreases ds.len(),
{
    if ds.len() == 0 {
        None
    } else if ds.last().0 == id {
        Some(ds.last().1)
    } else {
        last_device(ds.drop_last(), id)
    }
}

/// The vendor `id` of the database, if it lists it.
pub fn find_vendor(vs: &Vec<VendorDevices>, id: u32) -> (r: Option<&VendorDevices>)
    ensures
        match last_vendor(vs@.map_values(|v: VendorDevices| vendor_view(v)), id) {
            None => r is None,
            Some(v) => r matches Some(x) && vendor_view(*x) == v,
        },
{
    let ghost w = vs@.map_values(|v: VendorDevices| vendor_view(v));
    let mut i = vs.len();
    proof {
        assert(w.take(w.len() as int) =~= w);
    }
    while i > 0
        invariant
            i <= vs@.len(),
            w == vs@.map_values(|v: VendorDevices| vendor_view(v)),
            last_vendor(w.take(i as int), id) == last_vendor(w, id),
        decreases i,
    {
        proof {
            assert(w.take(i as int).drop_last() =~= w.take(i - 1));
            assert(w.take(i as int).last() == w[i - 1]);
        }
        if vs[i - 1].id == id {
            return Some(&vs[i - 1]);
        }
        i = i - 1;
    }
    None
}

/// The name of the device `id` of a vendor, if the database lists it.
pub fn find_device(v: &VendorDevices, id: u32) -> (r: Option<Vec<u8>>)
    ensures
        match last_device(vendor_view(*v).2, id) {
            None => r is None,
            Some(n) => r matches Some(x) && x@ == n,
        },
{
    let ghost w = vendor_view(*v).2;
    let mut i = v.devices.len();
    proof {
        assert(w.take(w.len() as int) =~= w);
    }
    while i > 0
        invariant
            i <= v.devices@.len(),
            w == vendor_view(*v).2,
            last_device(w.take(i as int), id) == last_device(w, id),
        decreases i,
    {
        proof {
            assert(w.take(i as int).drop_last() =~= w.take(i - 1));
            assert(w.take(i as int).last() == w[i - 1]);
        }
        if v.devices[i - 1].0 == id {
            let n = copy_range(v.devices[i - 1].1.as_slice(), 0, v.devices[i - 1].1.len());
            proof {
                assert(n@ =~= v.devices@[i - 1].1@);
            }
            return Some(n);
        }
        i = i - 1;
    }
    None
}

/// Whether `t` occurs in `s`.
pub open spec fn occurs_in(s: Seq<u8>, t: Seq<u8>) -> bool {
    exists|i: int| 0 <= i && i + t.len() <= s.len() && #[trigger] s.subrange(i, i + t.len()) == t
}

/// Whether `t` occurs in `s` (`str::contains`).
pub fn contains_bytes(s: &[u8], t: &[u8]) -> (r: bool)
    ensures
        r == occurs_in(s@, t@),
{
    let n = s.len();
    let m = t.len();
    let mut i: usize = 0;
    while i <= n && n - i >= m
        invariant
            n == s@.len(),
            m == t@.len(),
            i <= n + 1,
            forall|k: int| 0 <= k < i ==> #[trigger] s@.subrange(k, k + t@.len()) != t@,
        decreases n + 1 - i,
    {
        if crate::text::range_eq(s, i, i + m, t) {
            return true;
        }
        if i == n {
            return false;
        }
        i = i + 1;
    }
    false
}

/// `AMD`.
pub open spec fn amd_text() -> Seq<u8> {
    seq![0x41u8, 0x4du8, 0x44u8]
}

/// `NVIDIA`.
pub open spec fn nvidia_text() -> Seq<u8> {
    seq![0x4eu8, 0x56u8, 0x49u8, 0x44u8, 0x49u8, 0x41u8]
}

/// Whether a vendor name is AMD's and whether it is NVIDIA's (they hold `AMD` and
/// `NVIDIA`): AMD GPUs are read from the sysfs, NVIDIA ones through NVML.
pub fn vendor_kind(vendor: &[u8]) -> (r: (bool, bool))
    ensures
        r.0 == occurs_in(vendor@, amd_text()),
        r.1 == occurs_in(vendor@, nvidia_text()),
{
    let amd: [u8; 3] = [0x41, 0x4d, 0x44];
    let nvidia: [u8; 6] = [0x4e, 0x56, 0x49, 0x44, 0x49, 0x41];
    proof {
        assert(amd@ =~= amd_text());
        assert(nvidia@ =~= nvidia_text());
    }
    (contains_bytes(vendor, amd.as_slice()), contains_bytes(vendor, nvidia.as_slice()))
}

// ---------------------------------------------------------------------------
// The list of GPUs
// ---------------------------------------------------------------------------

/// A GPU that the sysfs lists.
pub struct GpuInner {
    pub pci: PCI,
    pub vendor: Vec<u8>,
    pub model: Option<Vec<u8>>,
    pub total_memory: Option<u64>,
    pub used_memory: Option<u64>,
    /// The usage in percent, as it was read.
    pub usage: Option<UsageReading>,
    pub updated: bool,
}

/// The usage of a GPU in percent as it was read: the trimmed text of
/// `gpu_busy_percent` (AMD GPUs), or the figure NVML gives.
pub enum UsageReading {
    Text(Vec<u8>),
    Percent(u32),
}

/// A usage reading as plain values.
pub enum UsageView {
    Text(Seq<u8>),
    Percent(u32),
}

pub open spec fn usage_view(u: Option<UsageReading>) -> Option<UsageView> {
    match u {
        Some(UsageReading::Text(t)) => Some(UsageView::Text(t@)),
        Some(UsageReading::Percent(p)) => Some(UsageView::Percent(p)),
        None => None,
    }
}

/// A GPU as plain values.
pub struct GpuView {
    pub pci: PCI,
    pub vendor: Seq<u8>,
    pub model: Option<Seq<u8>>,
    pub total_memory: Option<u64>,
    pub used_memory: Option<u64>,
    pub usage: Option<UsageView>,
    pub updated: bool,
}

pub open spec fn opt_seq(o: Option<Vec<u8>>) -> Option<Seq<u8>> {
    match o {
        Some(v) => Some(v@),
        None => None,
    }
}

pub open spec fn gpu_view(g: GpuInner) -> GpuView {
    GpuView {
        pci: g.pci,
        vendor: g.vendor@,
        model: opt_seq(g.model),
        total_memory: g.total_memory,
        used_memory: g.used_memory,
        usage: usage_view(g.usage),
        updated: g.updated,
    }
}

pub open spec fn gpus_view(v: Seq<GpuInner>) -> Seq<GpuView> {
    v.map_values(|g: GpuInner| gpu_view(g))
}

/// What was read of the AMD files of a device: `gpu_busy_percent`,
/// `mem_info_vram_used` and `mem_info_vram_total` (`None` for a file that could not
/// be read as text).
pub struct AmdReadings {
    pub busy_percent: Option<Vec<u8>>,
    pub vram_used: Option<Vec<u8>>,
    pub vram_total: Option<Vec<u8>>,
}

/// A GPU after its AMD files were read: each file read replaces its figure (a
/// memory figure that is not a number becomes unknown).
pub open spec fn amd_applied(g: GpuView, a: AmdReadings) -> GpuView {
    GpuView {
        usage: match a.busy_percent {
            Some(t) => Some(UsageView::Text(trim(t@))),
            None => g.usage,
        },
        used_memory: match a.vram_used {
            Some(t) => spec_parse_u64(trim(t@)),
            None => g.used_memory,
        },
        total_memory: match a.vram_total {
            Some(t) => spec_parse_u64(trim(t@)),
            None => g.total_memory,
        },
        ..g
    }
}

fn trimmed_copy(t: &Vec<u8>) -> (r: Vec<u8>)
    ensures
        r@ == trim(t@),
{
    let (x, y) = trim_range(t.as_slice(), 0, t.len());
    proof {
        assert(t@.subrange(0, t@.len() as int) =~= t@);
    }
    copy_range(t.as_slice(), x, y)
}

fn parse_trimmed(t: &Vec<u8>) -> (r: Option<u64>)
    ensures
        r == spec_parse_u64(trim(t@)),
{
    let (x, y) = trim_range(t.as_slice(), 0, t.len());
    proof {
        assert(t@.subrange(0, t@.len() as int) =~= t@);
    }
    parse_u64_range(t.as_slice(), x, y)
}

impl GpuInner {
    /// Takes what was read of the AMD files of the device.
    pub fn apply_amd_info(&mut self, a: &AmdReadings)
        ensures
            gpu_view(*final(self)) == amd_applied(gpu_view(*old(self)), *a),
    {
        match &a.busy_percent {
            Some(t) => self.usage = Some(UsageReading::Text(trimmed_copy(t))),
            None => {},
        }
        match &a.vram_used {
            Some(t) => self.used_memory = parse_trimmed(t),
            None => {},
        }
        match &a.vram_total {
            Some(t) => self.total_memory = parse_trimmed(t),
            None => {},
        }
    }
}

/// What was read of a card of `/sys/class/drm`: the PCI address its `device` link
/// names, the `class`, `vendor` and `device` files of the device (`None` for one that
/// could not be read as text), and its AMD files.
pub struct CardReadings {
    pub pci: PCI,
    pub class: Option<Vec<u8>>,
    pub vendor: Option<Vec<u8>>,
    pub device: Option<Vec<u8>>,
    pub amd: AmdReadings,
}

/// Which libraries a refresh needs after the sysfs: Vulkan for the memory of GPUs
/// other than AMD's, NVML for NVIDIA's.
#[derive(Clone, Copy, Debug, PartialEq, Eq, Structural)]
pub struct GpuNeeds {
    pub vulkan: bool,
    pub nvidia: bool,
}

/// The GPUs of Linux, and the PCI ID database once it was read.
pub struct GpusInner {
    pub gpus: Vec<GpuInner>,
    pub device_map: Vec<VendorDevices>,
    pub filled_device_map: bool,
}

pub open spec fn map_view(m: Seq<VendorDevices>) -> Seq<VendorView> {
    m.map_values(|v: VendorDevices| vendor_view(v))
}

/// The index of the first GPU of `gpus[i..]` at `pci`, or the length.
pub open spec fn first_gpu_with(gpus: Seq<GpuView>, pci: PCI, i: int) -> int
    decreases gpus.len() - i,
{
    if i < 0 || i >= gpus.len() {
        gpus.len() as int
    } else if gpus[i].pci == pci {
        i
    } else {
        first_gpu_with(gpus, pci, i + 1)
    }
}

/// The name of a vendor and its devices: the database's entry when it lists the
/// vendor, else the name `known` (without devices) when there is one.
pub open spec fn vendor_lookup(map: Seq<VendorView>, id: u32, known: Option<Seq<u8>>) -> Option<
    (Seq<u8>, Option<Seq<(u32, Seq<u8>)>>),
> {
    match last_vendor(map, id) {
        Some(v) => Some((v.1, Some(v.2))),
        None => match known {
            Some(n) => Some((n, None)),
            None => None,
        },
    }
}

/// A GPU just found.
pub open spec fn new_gpu(pci: PCI, vendor: Seq<u8>, model: Option<Seq<u8>>) -> GpuView {
    GpuView {
        pci,
        vendor,
        model,
        total_memory: None,
        used_memory: None,
        usage: None,
        updated: true,
    }
}

/// The model of a new GPU: the name the vendor's devices give to the id of its
/// `device` file.
pub open spec fn model_of(devices: Option<Seq<(u32, Seq<u8>)>>, device: Option<Vec<u8>>) -> Option<Seq<u8>> {
    match (devices, device) {
        (Some(ds), Some(t)) => match spec_hex_id(t@) {
            Some(id) => last_device(ds, id),
            None => None,
        },
        _ => None,
    }
}

/// What a card does to the GPUs, the database and the libraries needed. A card
/// already listed is refreshed: from its AMD files when it is AMD's, and marked
/// updated unless it is NVIDIA's (which needs NVML). Otherwise a device that is not a
/// display controller, or whose vendor id cannot be read, is skipped; the database
/// is read at the first such vendor id (`database`, `None` when it could not be
/// read); a vendor it does not list takes the name `known`, and without one the
/// card is skipped; an NVIDIA card needs NVML; another card is added, reading its
/// AMD files when it is AMD's and needing Vulkan otherwise.
pub open spec fn spec_visit_card(
    gpus: Seq<GpuView>,
    map: Seq<VendorView>,
    filled: bool,
    card: CardReadings,
    database: Option<Seq<u8>>,
    known: Option<Seq<u8>>,
    needs: GpuNeeds,
) -> (Seq<GpuView>, Seq<VendorView>, bool, GpuNeeds) {
    let k = first_gpu_with(gpus, card.pci, 0);
    if k < gpus.len() {
        let g = gpus[k];
        let nv = occurs_in(g.vendor, nvidia_text());
        let g1 = if occurs_in(g.vendor, amd_text()) { amd_applied(g, card.amd) } else { g };
        let g2 = if nv { g1 } else { GpuView { updated: true, ..g1 } };
        (gpus.update(k, g2), map, filled, GpuNeeds { nvidia: needs.nvidia || nv, ..needs })
    } else if !(card.class matches Some(c) && is_gpu_class(c@)) {
        (gpus, map, filled, needs)
    } else {
        match card.vendor {
            None => (gpus, map, filled, needs),
            Some(vt) => match spec_hex_id(vt@) {
                None => (gpus, map, filled, needs),
                Some(vid) => {
                    let map2 = if filled {
                        map
                    } else {
                        match database {
                            Some(d) => spec_device_map(d),
                            None => seq![],
                        }
                    };
                    match vendor_lookup(map2, vid, known) {
                        None => (gpus, map2, true, needs),
                        Some(found) => {
                            let name = found.0;
                            if occurs_in(name, nvidia_text()) {
                                (gpus, map2, true, GpuNeeds { nvidia: true, ..needs })
                            } else {
                                let g = new_gpu(card.pci, name, model_of(found.1, card.device));
                                if occurs_in(name, amd_text()) {
                                    (gpus.push(amd_applied(g, card.amd)), map2, true, needs)
                                } else {
                                    (gpus.push(g), map2, true, GpuNeeds { vulkan: true, ..needs })
                                }
                            }
                        },
                    }
                },
            },
        }
    }
}

impl GpusInner {
    /// No GPU yet, and the database not read.
    pub fn new() -> (r: GpusInner)
        ensures
            r.gpus@.len() == 0,
            r.device_map@.len() == 0,
            !r.filled_device_map,
    {
        GpusInner { gpus: Vec::new(), device_map: Vec::new(), filled_device_map: false }
    }

    /// The list is well formed: the database is empty until it is read.
    pub open spec fn wf(&self) -> bool {
        !self.filled_device_map ==> self.device_map@.len() == 0
    }

    /// Takes a card of `/sys/class/drm` (see `spec_visit_card`).
    pub fn visit_card(
        &mut self,
        card: CardReadings,
        database: Option<&[u8]>,
        known_vendor_name: Option<Vec<u8>>,
        needs: &mut GpuNeeds,
    )
        requires
            old(self).wf(),
        ensures
            final(self).wf(),
            (gpus_view(final(self).gpus@), map_view(final(self).device_map@), final(self).filled_device_map, *final(needs))
                == spec_visit_card(
                gpus_view(old(self).gpus@),
                map_view(old(self).device_map@),
                old(self).filled_device_map,
                card,
                match database {
                    Some(d) => Some(d@),
                    None => None,
                },
                opt_seq(known_vendor_name),
                *old(needs),
            ),
    {
        let ghost g0 = gpus_view(self.gpus@);
        let mut i: usize = 0;
        while i < self.gpus.len() && !(self.gpus[i].pci == card.pci)
            invariant
                i <= self.gpus@.len(),
                g0 == gpus_view(self.gpus@),
                first_gpu_with(g0, card.pci, i as int) == first_gpu_with(g0, card.pci, 0),
            decreases self.gpus@.len() - i,
        {
            i = i + 1;
        }
        if i < self.gpus.len() {
            let (amd, nv) = vendor_kind(self.gpus[i].vendor.as_slice());
            let ghost before = self.gpus@;
            let mut g = self.gpus.remove(i);
            if amd {
                g.apply_amd_info(&card.amd);
            }
            if !nv {
                g.updated = true;
            }
            self.gpus.insert(i, g);
            proof {
                assert(gpus_view(self.gpus@) =~= g0.update(i as int, gpu_view(g)));
            }
            if nv {
                needs.nvidia = true;
            }
            return;
        }
        let is_gpu = match &card.class {
            Some(c) => gpu_class(c.as_slice()),
            None => false,
        };
        if !is_gpu {
            return;
        }
        let vid = match &card.vendor {
            Some(vt) => match hex_id(vt.as_slice()) {
                Some(v) => v,
                None => return,
            },
            None => return,
        };
        if !self.filled_device_map {
            self.device_map = match database {
                Some(d) => fill_device_map(d),
                None => Vec::new(),
            };
            self.filled_device_map = true;
            proof {
                assert(database is None ==> map_view(self.device_map@) =~= Seq::<VendorView>::empty());
            }
        }
        let ghost map2 = map_view(self.device_map@);
        proof {
            assert(map2 =~= self.device_map@.map_values(|v: VendorDevices| vendor_view(v)));
        }
        let (name, devices): (Vec<u8>, Option<Vec<(u32, Vec<u8>)>>) = match find_vendor(&self.device_map, vid) {
            Some(v) => {
                let n = copy_range(v.name.as_slice(), 0, v.name.len());
                let ds = copy_devices(&v.devices);
                proof {
                    assert(n@ =~= v.name@);
                    assert(devices_view(v.devices@) =~= vendor_view(*v).2);
                    assert(vendor_lookup(map2, vid, opt_seq(known_vendor_name)) == Some((n@, Some(devices_view(ds@)))));
                }
                (n, Some(ds))
            },
            None => match known_vendor_name {
                Some(n) => (n, None),
                None => return,
            },
        };
        proof {
            let f = vendor_lookup(map2, vid, opt_seq(known_vendor_name));
            assert(f is Some);
            let found = f->0;
            let (fname, fdevices) = found;
            assert(fname == name@);
            assert(fdevices == match devices {
                Some(ds) => Some(devices_view(ds@)),
                None => None::<Seq<(u32, Seq<u8>)>>,
            });
        }
        let (amd, nv) = vendor_kind(name.as_slice());
        if nv {
            needs.nvidia = true;
            return;
        }
        let model = match (&devices, &card.device) {
            (Some(ds), Some(t)) => match hex_id(t.as_slice()) {
                Some(did) => find_device_in(ds, did),
                None => None,
            },
            _ => None,
        };
        let mut g = GpuInner {
            pci: card.pci,
            vendor: name,
            model,
            total_memory: None,
            used_memory: None,
            usage: None,
            updated: true,
        };
        if amd {
            g.apply_amd_info(&card.amd);
        } else {
            needs.vulkan = true;
        }
        let ghost before = gpus_view(self.gpus@);
        self.gpus.push(g);
        proof {
            assert(gpus_view(self.gpus@) =~= before.push(gpu_view(g)));
        }
    }
}

pub open spec fn devices_view(ds: Seq<(u32, Vec<u8>)>) -> Seq<(u32, Seq<u8>)> {
    ds.map_values(|d: (u32, Vec<u8>)| (d.0, d.1@))
}

fn copy_devices(ds: &Vec<(u32, Vec<u8>)>) -> (r: Vec<(u32, Vec<u8>)>)
    ensures
        devices_view(r@) == devices_view(ds@),
{
    let mut out: Vec<(u32, Vec<u8>)> = Vec::new();
    let mut i: usize = 0;
    while i < ds.len()
        invariant
            i <= ds@.len(),
            devices_view(out@) == devices_view(ds@.take(i as int)),
        decreases ds@.len() - i,
    {
        let n = copy_range(ds[i].1.as_slice(), 0, ds[i].1.len());
        let ghost before = devices_view(out@);
        out.push((ds[i].0, n));
        proof {
            assert(n@ =~= ds@[i as int].1@);
            assert(devices_view(ds@.take(i + 1)) =~= devices_view(ds@.take(i as int)).push((ds@[i as int].0, ds@[i as int].1@)));
            assert(devices_view(out@) =~= before.push((ds@[i as int].0, n@)));
        }
        i = i + 1;
    }
    proof {
        assert(ds@.take(ds@.len() as int) =~= ds@);
    }
    out
}

fn find_device_in(ds: &Vec<(u32, Vec<u8>)>, id: u32) -> (r: Option<Vec<u8>>)
    ensures
        opt_seq(r) == last_device(devices_view(ds@), id),
{
    let ghost w = devices_view(ds@);
    let mut i = ds.len();
    proof {
        assert(w.take(w.len() as int) =~= w);
    }
    while i > 0
        invariant
            i <= ds@.len(),
            w == devices_view(ds@),
            last_device(w.take(i as int), id) == last_device(w, id),
        decreases i,
    {
        proof {
            assert(w.take(i as int).drop_last() =~= w.take(i - 1));
            assert(w.take(i as int).last() == w[i - 1]);
        }
        if ds[i - 1].0 == id {
            let n = copy_range(ds[i - 1].1.as_slice(), 0, ds[i - 1].1.len());
            proof {
                assert(n@ =~= ds@[i - 1].1@);
            }
            return Some(n);
        }
        i = i - 1;
    }
    None
}

// ---------------------------------------------------------------------------
// Vulkan and NVML
// ---------------------------------------------------------------------------

/// The text before the first NUL of a C string buffer (all of it without one).
pub open spec fn c_text(b: Seq<u8>) -> Seq<u8> {
    b.subrange(0, find_from(b, 0u8, 0))
}

/// The bytes of the UTF-8 text that a C string buffer holds, ill-formed sequences
/// replaced by U+FFFD.
pub open spec fn c_string_bytes(b: Seq<u8>) -> Seq<u8> {
    vstd::utf8::encode_utf8(utf8_lossy(c_text(b)))
}

/// The text of a C string buffer of Vulkan or NVML, as bytes.
fn c_string(b: &[u8]) -> (r: Vec<u8>)
    ensures
        r@ == c_string_bytes(b@),
{
    let k = find_byte_from(b, 0, 0);
    let head = copy_range(b, 0, k);
    let s = string_from_utf8_lossy(head.as_slice());
    proof {
        assert(head@ =~= c_text(b@));
    }
    let bytes = s.as_str().as_bytes();
    copy_range(bytes, 0, bytes.len())
}

/// A memory heap of a Vulkan device: its flags, its size and its usage (the budget
/// extension's figure; 0 without it).
#[derive(Clone, Copy, Debug)]
pub struct VulkanHeap {
    pub flags: u32,
    pub size: u64,
    pub usage: u64,
}

/// What Vulkan says of a physical device: its PCI address, its name buffer, whether
/// the memory budget extension answered, and its memory heaps.
pub struct VulkanDevice {
    pub pci: PCI,
    pub name: Vec<u8>,
    pub budget: bool,
    pub heaps: Vec<VulkanHeap>,
}

/// Whether a heap is the device's own memory (`VK_MEMORY_HEAP_DEVICE_LOCAL_BIT`).
pub open spec fn is_vram(h: VulkanHeap) -> bool {
    h.flags & 1u32 != 0u32
}

/// `a + b`, or `u64::MAX` when that overflows.
pub open spec fn sat_add(a: u64, b: u64) -> u64 {
    if a + b > u64::MAX {
        u64::MAX
    } else {
        (a + b) as u64
    }
}

/// The sizes and usages of the device-local heaps among the first `n`, each summed
/// (saturating), and whether there is one.
pub open spec fn vram_sums(heaps: Seq<VulkanHeap>, n: int) -> (u64, u64, bool)
    decreases n,
{
    if n <= 0 || n > heaps.len() {
        (0, 0, false)
    } else {
        let (t, u, f) = vram_sums(heaps, n - 1);
        let h = heaps[n - 1];
        if is_vram(h) {
            (sat_add(t, h.size), sat_add(u, h.usage), true)
        } else {
            (t, u, f)
        }
    }
}

/// A GPU after Vulkan described its device: it keeps its figures when both memory
/// figures are known; otherwise it takes the device's name when it has no model, and
/// the sums of its device-local heaps (the total alone without the budget
/// extension), unknown when it has none.
pub open spec fn vulkan_applied(g: GpuView, d: VulkanDevice) -> GpuView {
    if g.total_memory is Some && g.used_memory is Some {
        g
    } else {
        let model = if g.model is None { Some(c_string_bytes(d.name@)) } else { g.model };
        let (t, u, f) = vram_sums(d.heaps@, d.heaps@.len() as int);
        if d.budget {
            GpuView {
                model,
                total_memory: if f { Some(t) } else { None },
                used_memory: if f { Some(u) } else { None },
                ..g
            }
        } else {
            GpuView { model, total_memory: if f { Some(t) } else { None }, ..g }
        }
    }
}

/// What NVML says of a device: its PCI bus id buffer, its name buffer (when it
/// could be read), its usage in percent and its total and used memory (when they
/// could be read).
pub struct NvmlDevice {
    pub bus_id: Vec<u8>,
    pub name: Option<Vec<u8>>,
    pub utilization: Option<u32>,
    pub memory: Option<(u64, u64)>,
}

/// `NVIDIA Corporation`.
pub open spec fn nvidia_corporation() -> Seq<u8> {
    seq![
        0x4eu8, 0x56u8, 0x49u8, 0x44u8, 0x49u8, 0x41u8, 0x20u8, 0x43u8, 0x6fu8, 0x72u8, 0x70u8,
        0x6fu8, 0x72u8, 0x61u8, 0x74u8, 0x69u8, 0x6fu8, 0x6eu8,
    ]
}

/// A GPU after NVML described it: its usage and memory when NVML gave them.
pub open spec fn nvml_applied(g: GpuView, d: NvmlDevice) -> GpuView {
    let g1 = match d.utilization {
        Some(p) => GpuView { usage: Some(UsageView::Percent(p)), ..g },
        None => g,
    };
    match d.memory {
        Some((t, u)) => GpuView { total_memory: Some(t), used_memory: Some(u), ..g1 },
        None => g1,
    }
}

/// The GPUs after NVML described a device: a device whose bus id is not a PCI
/// address is skipped; the GPU at its address is updated, or a new NVIDIA GPU (named
/// by NVML when it could) is added and updated.
pub open spec fn spec_nvml_device(gpus: Seq<GpuView>, d: NvmlDevice) -> Seq<GpuView> {
    match spec_pci_address(c_string_bytes(d.bus_id@)) {
        None => gpus,
        Some(pci) => {
            let k = first_gpu_with(gpus, pci, 0);
            if k < gpus.len() {
                gpus.update(k, nvml_applied(gpus[k], d))
            } else {
                let model = match d.name {
                    Some(n) => Some(c_string_bytes(n@)),
                    None => None,
                };
                gpus.push(nvml_applied(new_gpu(pci, nvidia_corporation(), model), d))
            }
        },
    }
}

fn vram_sums_exec(heaps: &Vec<VulkanHeap>) -> (r: (u64, u64, bool))
    ensures
        r == vram_sums(heaps@, heaps@.len() as int),
{
    let mut t: u64 = 0;
    let mut u: u64 = 0;
    let mut f = false;
    let mut i: usize = 0;
    while i < heaps.len()
        invariant
            i <= heaps@.len(),
            (t, u, f) == vram_sums(heaps@, i as int),
        decreases heaps@.len() - i,
    {
        let h = heaps[i];
        if h.flags & 1 != 0 {
            t = t.saturating_add(h.size);
            u = u.saturating_add(h.usage);
            f = true;
        }
        i = i + 1;
    }
    (t, u, f)
}

impl GpusInner {
    fn position_of(&self, pci: PCI) -> (r: usize)
        ensures
            r == first_gpu_with(gpus_view(self.gpus@), pci, 0),
    {
        let ghost g0 = gpus_view(self.gpus@);
        let mut i: usize = 0;
        while i < self.gpus.len() && !(self.gpus[i].pci == pci)
            invariant
                i <= self.gpus@.len(),
                g0 == gpus_view(self.gpus@),
                first_gpu_with(g0, pci, i as int) == first_gpu_with(g0, pci, 0),
            decreases self.gpus@.len() - i,
        {
            i = i + 1;
        }
        i
    }

    /// Takes what Vulkan says of a device: only a GPU already listed at its address
    /// changes (see `vulkan_applied`).
    pub fn apply_vulkan_device(&mut self, d: &VulkanDevice)
        requires
            old(self).wf(),
        ensures
            final(self).wf(),
            final(self).device_map == old(self).device_map,
            final(self).filled_device_map == old(self).filled_device_map,
            ({
                let g0 = gpus_view(old(self).gpus@);
                let k = first_gpu_with(g0, d.pci, 0);
                gpus_view(final(self).gpus@) == if k < g0.len() {
                    g0.update(k, vulkan_applied(g0[k], *d))
                } else {
                    g0
                }
            }),
    {
        let ghost g0 = gpus_view(self.gpus@);
        let k = self.position_of(d.pci);
        if k >= self.gpus.len() {
            return;
        }
        if self.gpus[k].total_memory.is_some() && self.gpus[k].used_memory.is_some() {
            proof {
                assert(g0.update(k as int, vulkan_applied(g0[k as int], *d)) =~= g0);
            }
            return;
        }
        let mut g = self.gpus.remove(k);
        if g.model.is_none() {
            g.model = Some(c_string(d.name.as_slice()));
        }
        let (t, u, f) = vram_sums_exec(&d.heaps);
        if d.budget {
            g.total_memory = if f { Some(t) } else { None };
            g.used_memory = if f { Some(u) } else { None };
        } else {
            g.total_memory = if f { Some(t) } else { None };
        }
        self.gpus.insert(k, g);
        proof {
            assert(gpus_view(self.gpus@) =~= g0.update(k as int, gpu_view(g)));
        }
    }

    /// Takes what NVML says of a device (see `spec_nvml_device`).
    pub fn apply_nvml_device(&mut self, d: &NvmlDevice)
        requires
            old(self).wf(),
        ensures
            final(self).wf(),
            final(self).device_map == old(self).device_map,
            final(self).filled_device_map == old(self).filled_device_map,
            gpus_view(final(self).gpus@) == spec_nvml_device(gpus_view(old(self).gpus@), *d),
    {
        let ghost g0 = gpus_view(self.gpus@);
        let text = c_string(d.bus_id.as_slice());
        let pci = match parse_pci_address(text.as_slice()) {
            Some(p) => p,
            None => return,
        };
        let k = self.position_of(pci);
        let found = k < self.gpus.len();
        let mut g = if found {
            self.gpus.remove(k)
        } else {
            let vendor: Vec<u8> = vec![
                0x4e, 0x56, 0x49, 0x44, 0x49, 0x41, 0x20, 0x43, 0x6f, 0x72, 0x70, 0x6f, 0x72, 0x61, 0x74,
                0x69, 0x6f, 0x6e,
            ];
            proof {
                assert(vendor@ =~= nvidia_corporation());
            }
            let model = match &d.name {
                Some(n) => Some(c_string(n.as_slice())),
                None => None,
            };
            GpuInner {
                pci,
                vendor,
                model,
                total_memory: None,
                used_memory: None,
                usage: None,
                updated: true,
            }
        };
        let ghost gv = gpu_view(g);
        match d.utilization {
            Some(p) => g.usage = Some(UsageReading::Percent(p)),
            None => {},
        }
        match d.memory {
            Some((t, u)) => {
                g.total_memory = Some(t);
                g.used_memory = Some(u);
            },
            None => {},
        }
        proof {
            assert(gpu_view(g) == nvml_applied(gv, *d));
        }
        if found {
            self.gpus.insert(k, g);
            proof {
                assert(gpus_view(self.gpus@) =~= g0.update(k as int, gpu_view(g)));
            }
        } else {
            self.gpus.push(g);
            proof {
                assert(gpus_view(self.gpus@) =~= g0.push(gpu_view(g)));
            }
        }
    }
}

// ---------------------------------------------------------------------------
// Whole passes
// ---------------------------------------------------------------------------

/// The GPUs, the database, whether it was read, and the libraries needed.
pub type GpuPass = (Seq<GpuView>, Seq<VendorView>, bool, GpuNeeds);

/// The state after the cards `cards` (each with the name its vendor is known by,
/// when there is one) are visited in turn.
pub open spec fn visit_all(
    s: GpuPass,
    cards: Seq<(CardReadings, Option<Vec<u8>>)>,
    database: Option<Seq<u8>>,
) -> GpuPass
    decreases cards.len(),
{
    if cards.len() == 0 {
        s
    } else {
        let p = visit_all(s, cards.drop_last(), database);
        let c = cards.last();
        spec_visit_card(p.0, p.1, p.2, c.0, database, opt_seq(c.1), p.3)
    }
}

/// The GPUs after NVML described the devices `devices` in turn.
pub open spec fn nvml_all(gpus: Seq<GpuView>, devices: Seq<NvmlDevice>) -> Seq<GpuView>
    decreases devices.len(),
{
    if devices.len() == 0 {
        gpus
    } else {
        spec_nvml_device(nvml_all(gpus, devices.drop_last()), devices.last())
    }
}

impl GpusInner {
    /// The pass over the cards of `/sys/class/drm` (see `visit_all`): the GPUs that
    /// are not NVIDIA's are listed or refreshed, and the libraries still needed noted.
    pub fn get_non_nvidia_gpus(
        &mut self,
        cards: Vec<(CardReadings, Option<Vec<u8>>)>,
        database: Option<&[u8]>,
        needs: &mut GpuNeeds,
    )
        requires
            old(self).wf(),
        ensures
            final(self).wf(),
            (gpus_view(final(self).gpus@), map_view(final(self).device_map@), final(self).filled_device_map, *final(needs))
                == visit_all(
                (gpus_view(old(self).gpus@), map_view(old(self).device_map@), old(self).filled_device_map, *old(needs)),
                cards@,
                match database {
                    Some(d) => Some(d@),
                    None => None,
                },
            ),
    {
        let ghost s0 = (gpus_view(self.gpus@), map_view(self.device_map@), self.filled_device_map, *needs);
        let ghost db = match database {
            Some(d) => Some(d@),
            None => None,
        };
        let ghost all = cards@;
        let n = cards.len();
        let mut rest = cards;
        let mut i: usize = 0;
        while i < n
            invariant
                i <= n == all.len(),
                rest@ == all.subrange(i as int, n as int),
                self.wf(),
                db == match database {
                    Some(d) => Some(d@),
                    None => None,
                },
                (gpus_view(self.gpus@), map_view(self.device_map@), self.filled_device_map, *needs) == visit_all(
                    s0,
                    all.take(i as int),
                    db,
                ),
            decreases n - i,
        {
            let (card, known) = rest.remove(0);
            proof {
                assert(all.take(i + 1).drop_last() =~= all.take(i as int));
                assert(all.take(i + 1).last() == all[i as int]);
                assert(all[i as int] == (card, known));
            }
            self.visit_card(card, database, known, needs);
            i = i + 1;
        }
        proof {
            assert(all.take(n as int) =~= all);
        }
    }

    /// The NVML query over its devices (see `nvml_all`).
    pub fn apply_nvml_devices(&mut self, devices: &Vec<NvmlDevice>)
        requires
            old(self).wf(),
        ensures
            final(self).wf(),
            final(self).device_map == old(self).device_map,
            final(self).filled_device_map == old(self).filled_device_map,
            gpus_view(final(self).gpus@) == nvml_all(gpus_view(old(self).gpus@), devices@),
    {
        let ghost g0 = gpus_view(self.gpus@);
        let ghost m0 = self.device_map;
        let ghost f0 = self.filled_device_map;
        let mut i: usize = 0;
        while i < devices.len()
            invariant
                i <= devices@.len(),
                self.wf(),
                self.device_map == m0,
                self.filled_device_map == f0,
                gpus_view(self.gpus@) == nvml_all(g0, devices@.take(i as int)),
            decreases devices@.len() - i,
        {
            proof {
                assert(devices@.take(i + 1).drop_last() =~= devices@.take(i as int));
                assert(devices@.take(i + 1).last() == devices@[i as int]);
            }
            self.apply_nvml_device(&devices[i]);
            i = i + 1;
        }
        proof {
            assert(devices@.take(devices@.len() as int) =~= devices@);
        }
    }
}

// ---------------------------------------------------------------------------
// Laws
// ---------------------------------------------------------------------------

/// Whether no two GPUs of `gpus` are at the same PCI address.
pub open spec fn distinct_pci(gpus: Seq<GpuView>) -> bool {
    forall|i: int, j: int| 0 <= i < j < gpus.len() ==> gpus[i].pci != gpus[j].pci
}

proof fn lemma_first_gpu_with(gpus: Seq<GpuView>, pci: PCI, i: int)
    requires
        0 <= i <= gpus.len(),
    ensures
        i <= first_gpu_with(gpus, pci, i) <= gpus.len(),
        first_gpu_with(gpus, pci, i) < gpus.len() ==> gpus[first_gpu_with(gpus, pci, i)].pci == pci,
        forall|j: int| i <= j < first_gpu_with(gpus, pci, i) ==> gpus[j].pci != pci,
    decreases gpus.len() - i,
{
    if i < gpus.len() && gpus[i].pci != pci {
        lemma_first_gpu_with(gpus, pci, i + 1);
    }
}

/// A card already listed is refreshed in place, never listed a second time: a
/// visit keeps the GPUs at distinct PCI addresses, and a card leaves at most one more
/// GPU than there were.
pub proof fn visit_keeps_gpus_distinct(
    gpus: Seq<GpuView>,
    map: Seq<VendorView>,
    filled: bool,
    card: CardReadings,
    database: Option<Seq<u8>>,
    known: Option<Seq<u8>>,
    needs: GpuNeeds,
)
    requires
        distinct_pci(gpus),
    ensures
        distinct_pci(spec_visit_card(gpus, map, filled, card, database, known, needs).0),
        spec_visit_card(gpus, map, filled, card, database, known, needs).0.len() <= gpus.len() + 1,
        first_gpu_with(gpus, card.pci, 0) < gpus.len() ==> spec_visit_card(
            gpus,
            map,
            filled,
            card,
            database,
            known,
            needs,
        ).0.len() == gpus.len(),
{
    lemma_first_gpu_with(gpus, card.pci, 0);
    let r = spec_visit_card(gpus, map, filled, card, database, known, needs).0;
    let k = first_gpu_with(gpus, card.pci, 0);
    if k < gpus.len() {
        assert forall|i: int, j: int| 0 <= i < j < r.len() implies r[i].pci != r[j].pci by {
            assert(r[i].pci == gpus[i].pci);
            assert(r[j].pci == gpus[j].pci);
        }
    } else if r.len() == gpus.len() + 1 {
        assert(r.drop_last() =~= gpus);
        assert(r.last().pci == card.pci);
        assert forall|i: int, j: int| 0 <= i < j < r.len() implies r[i].pci != r[j].pci by {
            if j == gpus.len() {
                assert(r[i] == gpus[i]);
            } else {
                assert(r[i] == gpus[i]);
                assert(r[j] == gpus[j]);
            }
        }
    } else {
        assert(r =~= gpus);
    }
}

/// NVML adds a GPU only for an address not listed yet: a device keeps the GPUs at
/// distinct PCI addresses.
pub proof fn nvml_keeps_gpus_distinct(gpus: Seq<GpuView>, d: NvmlDevice)
    requires
        distinct_pci(gpus),
    ensures
        distinct_pci(spec_nvml_device(gpus, d)),
{
    let r = spec_nvml_device(gpus, d);
    match spec_pci_address(c_string_bytes(d.bus_id@)) {
        None => {},
        Some(pci) => {
            lemma_first_gpu_with(gpus, pci, 0);
            let k = first_gpu_with(gpus, pci, 0);
            if k < gpus.len() {
                assert forall|i: int, j: int| 0 <= i < j < r.len() implies r[i].pci != r[j].pci by {
                    assert(r[i].pci == gpus[i].pci);
                    assert(r[j].pci == gpus[j].pci);
                }
            } else {
                assert forall|i: int, j: int| 0 <= i < j < r.len() implies r[i].pci != r[j].pci by {
                    if j == gpus.len() {
                        assert(r[i] == gpus[i]);
                    } else {
                        assert(r[i] == gpus[i]);
                        assert(r[j] == gpus[j]);
                    }
                }
            }
        },
    }
}

/// Whether `r` starts with the GPUs of `g`, at the same addresses and of the same
/// vendors (their figures may have changed).
pub open spec fn keeps_gpus(g: Seq<GpuView>, r: Seq<GpuView>) -> bool {
    g.len() <= r.len() && forall|i: int| 0 <= i < g.len() ==> (#[trigger] r[i]).pci == g[i].pci && r[i].vendor
        == g[i].vendor
}

/// Whether the need flags of `a` that are set are set in `b`.
pub open spec fn needs_grow(a: GpuNeeds, b: GpuNeeds) -> bool {
    (a.vulkan ==> b.vulkan) && (a.nvidia ==> b.nvidia)
}

/// What the pass over the cards promises of the GPUs appended after the first `n`:
/// none is NVIDIA's, and one that is not AMD's needs Vulkan.
pub open spec fn appended_fit(r: Seq<GpuView>, n: int, needs: GpuNeeds) -> bool {
    forall|i: int| n <= i < r.len() ==> !occurs_in((#[trigger] r[i]).vendor, nvidia_text()) && (!occurs_in(
        r[i].vendor,
        amd_text(),
    ) ==> needs.vulkan)
}

proof fn lemma_visit_step(
    p: GpuPass,
    card: CardReadings,
    database: Option<Seq<u8>>,
    known: Option<Seq<u8>>,
)
    ensures
        ({
            let q = spec_visit_card(p.0, p.1, p.2, card, database, known, p.3);
            &&& keeps_gpus(p.0, q.0)
            &&& q.0.len() <= p.0.len() + 1
            &&& needs_grow(p.3, q.3)
            &&& appended_fit(q.0, p.0.len() as int, q.3)
        }),
{
    lemma_first_gpu_with(p.0, card.pci, 0);
}

/// A whole pass over the cards of `/sys/class/drm` keeps what was listed: the GPUs
/// known before stay first, at their addresses and with their vendors; the GPUs it
/// appends are at distinct new addresses, none is NVIDIA's, and one that is not
/// AMD's leaves Vulkan needed; a library once needed stays needed.
pub proof fn non_nvidia_pass_laws(
    s: GpuPass,
    cards: Seq<(CardReadings, Option<Vec<u8>>)>,
    database: Option<Seq<u8>>,
)
    requires
        distinct_pci(s.0),
    ensures
        ({
            let r = visit_all(s, cards, database);
            &&& distinct_pci(r.0)
            &&& keeps_gpus(s.0, r.0)
            &&& needs_grow(s.3, r.3)
            &&& appended_fit(r.0, s.0.len() as int, r.3)
        }),
    decreases cards.len(),
{
    if cards.len() > 0 {
        let p = visit_all(s, cards.drop_last(), database);
        non_nvidia_pass_laws(s, cards.drop_last(), database);
        let c = cards.last();
        lemma_visit_step(p, c.0, database, opt_seq(c.1));
        visit_keeps_gpus_distinct(p.0, p.1, p.2, c.0, database, opt_seq(c.1), p.3);
        let r = visit_all(s, cards, database);
        assert forall|i: int| s.0.len() <= i < r.0.len() implies !occurs_in((#[trigger] r.0[i]).vendor, nvidia_text())
            && (!occurs_in(r.0[i].vendor, amd_text()) ==> r.3.vulkan) by {
            if i < p.0.len() {
                assert(r.0[i].vendor == p.0[i].vendor);
            }
        }
    }
}

proof fn lemma_nvml_step(gpus: Seq<GpuView>, d: NvmlDevice)
    ensures
        keeps_gpus(gpus, spec_nvml_device(gpus, d)),
        forall|i: int| gpus.len() <= i < spec_nvml_device(gpus, d).len() ==> (#[trigger] spec_nvml_device(gpus, d)[i]).vendor
            == nvidia_corporation(),
        spec_pci_address(c_string_bytes(d.bus_id@)) matches Some(p) ==> exists|i: int| 0 <= i < spec_nvml_device(gpus, d).len()
            && (#[trigger] spec_nvml_device(gpus, d)[i]).pci == p,
{
    match spec_pci_address(c_string_bytes(d.bus_id@)) {
        None => {},
        Some(p) => {
            lemma_first_gpu_with(gpus, p, 0);
            let r = spec_nvml_device(gpus, d);
            let k = first_gpu_with(gpus, p, 0);
            if k < gpus.len() {
                assert(r[k].pci == p);
            } else {
                assert(r[gpus.len() as int].pci == p);
            }
        },
    }
}

/// A whole NVML query keeps what was listed: the GPUs known before stay first, at
/// their addresses and with their vendors; the GPUs it appends are NVIDIA's, at
/// distinct new addresses; and every device whose bus id is a PCI address has a GPU
/// at that address afterwards.
pub proof fn nvml_query_laws(gpus: Seq<GpuView>, devices: Seq<NvmlDevice>)
    requires
        distinct_pci(gpus),
    ensures
        distinct_pci(nvml_all(gpus, devices)),
        keeps_gpus(gpus, nvml_all(gpus, devices)),
        forall|i: int| gpus.len() <= i < nvml_all(gpus, devices).len() ==> (#[trigger] nvml_all(gpus, devices)[i]).vendor
            == nvidia_corporation(),
        forall|j: int| 0 <= j < devices.len() ==> (spec_pci_address(c_string_bytes((#[trigger] devices[j]).bus_id@)) matches Some(p)
            ==> exists|i: int| 0 <= i < nvml_all(gpus, devices).len() && nvml_all(gpus, devices)[i].pci == p),
    decreases devices.len(),
{
    if devices.len() > 0 {
        let ds = devices.drop_last();
        let d = devices.last();
        let p = nvml_all(gpus, ds);
        let r = nvml_all(gpus, devices);
        nvml_query_laws(gpus, ds);
        lemma_nvml_step(p, d);
        nvml_keeps_gpus_distinct(p, d);
        assert forall|i: int| gpus.len() <= i < r.len() implies (#[trigger] r[i]).vendor == nvidia_corporation() by {
            if i < p.len() {
                assert(r[i].vendor == p[i].vendor);
            }
        }
        assert forall|j: int| 0 <= j < devices.len() implies (spec_pci_address(c_string_bytes((#[trigger] devices[j]).bus_id@)) matches Some(q)
            ==> exists|i: int| 0 <= i < r.len() && r[i].pci == q) by {
            if j < ds.len() {
                assert(devices[j] == ds[j]);
                if let Some(q) = spec_pci_address(c_string_bytes(devices[j].bus_id@)) {
                    let i = choose|i: int| 0 <= i < p.len() && p[i].pci == q;
                    assert(r[i].pci == p[i].pci);
                }
            } else {
                if let Some(q) = spec_pci_address(c_string_bytes(devices[j].bus_id@)) {
                    let i = choose|i: int| 0 <= i < r.len() && (#[trigger] r[i]).pci == q;
                    assert(r[i].pci == q);
                }
            }
        }
    }
}

} // verus!
