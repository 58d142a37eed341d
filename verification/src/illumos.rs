//! The parts of the illumos support that decide things: which devices are display
//! controllers and where they sit on the PCI bus, the names that the PCI ID
//! database gives them, and how the mount table is read.
use vstd::prelude::*;
use crate::text::{
    first_ws_from, lemma_first_ws_from_bounds, ws_fields, split_whitespace, has_piece,
    any_piece_eq, bytes_eq, rfind, rfind_byte, contains_byte, is_digit, find_byte_from,
    lemma_find_from,
    views, spec_lines, lines, ws_prefix_len, ws_prefix_len_at, trim_start, trim_start_index,
    spec_parse_hex_u32, parse_hex_u32_range, copy_range, starts_with_at, is_valid_utf8,
    string_from_utf8,
};
use crate::path::opt_bytes;
use crate::common::IoCounters;
use crate::linux_disk::{DiskKind, FsStat};
use crate::cgroup::{sat_mul, saturating_mul};
use vstd::utf8::{valid_utf8, decode_utf8};

verus! {

// ---------------------------------------------------------------------------
// PCI devices
// ---------------------------------------------------------------------------

/// The location of a device on the PCI bus.
#[derive(Clone, Copy, Debug, PartialEq, Eq, Structural)]
pub struct PCI {
    pub domain: u32,
    pub bus: u32,
    pub device: u32,
    pub function: u32,
}

/// Whether a PCI class code (base class in bits 16 to 23) names a display controller,
/// base class 3.
pub fn is_display_controller(class_code: u32) -> (r: bool)
    ensures
        r == ((class_code / 0x10000) % 0x100 == 3),
{
    let r = class_code & 0xff0000 == 0x030000;
    assert(r == ((class_code / 0x10000) % 0x100 == 3)) by (bit_vector)
        requires
            r == (class_code & 0xff0000 == 0x030000),
    ;
    r
}

/// The PCI location written in the first cell of a `reg` property: the bus in bits
/// 16 to 23, the device in bits 11 to 15, the function in bits 8 to 10.
pub fn pci_from_reg(reg: u32) -> (r: PCI)
    ensures
        r.domain == 0,
        r.bus == (reg / 0x10000) % 0x100,
        r.device == (reg / 0x800) % 0x20,
        r.function == (reg / 0x100) % 0x8,
{
    let bus = (reg >> 16) & 0xff;
    let device = (reg >> 11) & 0x1f;
    let function = (reg >> 8) & 0x7;
    assert(bus == (reg / 0x10000) % 0x100 && device == (reg / 0x800) % 0x20 && function == (reg
        / 0x100) % 0x8) by (bit_vector)
        requires
            bus == (reg >> 16) & 0xff,
            device == (reg >> 11) & 0x1f,
            function == (reg >> 8) & 0x7,
    ;
    PCI { domain: 0, bus, device, function }
}

// ---------------------------------------------------------------------------
// The PCI ID database
// ---------------------------------------------------------------------------

/// An identifier and a name: the line split at its first whitespace character, the
/// first part read as a hexadecimal number, the second without its leading
/// whitespace. `None` when there is no whitespace or the number is not one.
pub open spec fn id_and_name(line: Seq<u8>) -> Option<(u32, Seq<u8>)> {
    let p = first_ws_from(line, 0);
    if p >= line.len() {
        None
    } else {
        match spec_parse_hex_u32(line.subrange(0, p)) {
            None => None,
            Some(id) => {
                let k = ws_prefix_len(line.subrange(p, line.len() as int));
                Some((id, trim_start(line.subrange(p + k, line.len() as int))))
            },
        }
    }
}

/// Reads the identifier and name of a line of the PCI ID database, such as
/// `8086  Intel Corporation`.
pub fn parse_id_and_name(line: &[u8]) -> (r: Option<(u32, Vec<u8>)>)
    ensures
        match id_and_name(line@) {
            None => r is None,
            Some((id, name)) => r matches Some((i, n)) && i == id && n@ == name,
        },
{
    let n = line.len();
    let mut p: usize = 0;
    while p < n
        invariant
            p <= n == line@.len(),
            first_ws_from(line@, p as int) == first_ws_from(line@, 0),
        ensures
            p <= n,
            first_ws_from(line@, p as int) == first_ws_from(line@, 0),
            p < n ==> ws_prefix_len(line@.subrange(p as int, n as int)) > 0,
        decreases n - p,
    {
        if ws_prefix_len_at(line, p, n) > 0 {
            break;
        }
        p = p + 1;
    }
    proof {
        lemma_first_ws_from_bounds(line@, 0);
    }
    if p >= n {
        return None;
    }
    let k = ws_prefix_len_at(line, p, n);
    match parse_hex_u32_range(line, 0, p) {
        None => None,
        Some(id) => {
            let start = trim_start_index(line, p + k, n);
            Some((id, copy_range(line, start, n)))
        },
    }
}

/// Whether a line of the database starts the list of device classes (`C `).
pub open spec fn starts_class_list(line: Seq<u8>) -> bool {
    line.len() >= 2 && line[0] == 0x43u8 && line[1] == 0x20u8
}

/// Whether a line lists a device of the current vendor: one tab, not two.
pub open spec fn is_device_line(line: Seq<u8>) -> bool {
    line.len() >= 1 && line[0] == 0x09u8 && !(line.len() >= 2 && line[1] == 0x09u8)
}

/// The vendor and device names that the database lines `ls[i..]` give for
/// `vendor_id` and `device_id`, having seen `vendor` so far and being inside its list
/// when `in_vendor` holds. The scan stops at a line that is not UTF-8, at the class
/// list, at the line after the vendor's devices, and at the device.
pub open spec fn pci_scan(
    ls: Seq<Seq<u8>>,
    i: int,
    vendor: Option<Seq<u8>>,
    in_vendor: bool,
    vendor_id: u32,
    device_id: u32,
) -> (Option<Seq<u8>>, Option<Seq<u8>>)
    decreases ls.len() - i,
{
    if i < 0 || i >= ls.len() {
        (vendor, None)
    } else {
        let line = ls[i];
        if !valid_utf8(line) || starts_class_list(line) {
            (vendor, None)
        } else if ws_prefix_len(line) == 0 {
            if in_vendor {
                (vendor, None)
            } else {
                match id_and_name(line) {
                    Some(p) => if p.0 == vendor_id {
                        pci_scan(ls, i + 1, Some(p.1), true, vendor_id, device_id)
                    } else {
                        pci_scan(ls, i + 1, vendor, in_vendor, vendor_id, device_id)
                    },
                    None => pci_scan(ls, i + 1, vendor, in_vendor, vendor_id, device_id),
                }
            }
        } else if in_vendor && is_device_line(line) {
            match id_and_name(trim_start(line)) {
                Some(p) => if p.0 == device_id {
                    (vendor, Some(p.1))
                } else {
                    pci_scan(ls, i + 1, vendor, in_vendor, vendor_id, device_id)
                },
                None => pci_scan(ls, i + 1, vendor, in_vendor, vendor_id, device_id),
            }
        } else {
            pci_scan(ls, i + 1, vendor, in_vendor, vendor_id, device_id)
        }
    }
}

/// The vendor and device names that the PCI ID database `data` gives.
pub open spec fn spec_pci_names(data: Seq<u8>, vendor_id: u32, device_id: u32) -> (
    Option<Seq<u8>>,
    Option<Seq<u8>>,
) {
    pci_scan(spec_lines(data), 0, None, false, vendor_id, device_id)
}

/// Looks up the names of vendor `vendor_id` and of its device `device_id` in the
/// contents of a PCI ID database, as bytes.
pub fn pci_names_in(data: &[u8], vendor_id: u32, device_id: u32) -> (r: (
    Option<Vec<u8>>,
    Option<Vec<u8>>,
))
    ensures
        (opt_bytes(r.0), opt_bytes(r.1)) == spec_pci_names(data@, vendor_id, device_id),
{
    let ls = lines(data);
    let ghost l = views(ls@);
    let mut vendor: Option<Vec<u8>> = None;
    let mut in_vendor = false;
    let mut i: usize = 0;
    while i < ls.len()
        invariant
            i <= ls@.len(),
            l == views(ls@),
            l == spec_lines(data@),
            pci_scan(l, i as int, opt_bytes(vendor), in_vendor, vendor_id, device_id)
                == spec_pci_names(data@, vendor_id, device_id),
        decreases ls@.len() - i,
    {
        let line = ls[i].as_slice();
        assert(line@ == l[i as int]);
        if !is_valid_utf8(line) || (line.len() >= 2 && line[0] == 0x43 && line[1] == 0x20) {
            return (vendor, None);
        }
        let w = ws_prefix_len_at(line, 0, line.len());
        proof {
            assert(line@.subrange(0, line@.len() as int) =~= line@);
        }
        if w == 0 {
            if in_vendor {
                return (vendor, None);
            }
            match parse_id_and_name(line) {
                Some((id, name)) => {
                    if id == vendor_id {
                        vendor = Some(name);
                        in_vendor = true;
                    }
                },
                None => {},
            }
        } else if in_vendor && line[0] == 0x09 && !(line.len() >= 2 && line[1] == 0x09) {
            let start = trim_start_index(line, 0, line.len());
            let rest = copy_range(line, start, line.len());
            match parse_id_and_name(rest.as_slice()) {
                Some((id, name)) => {
                    if id == device_id {
                        return (vendor, Some(name));
                    }
                },
                None => {},
            }
        }
        i = i + 1;
    }
    (vendor, None)
}

/// A name as a string, when its bytes are UTF-8.
pub open spec fn decoded(b: Option<Seq<u8>>) -> Option<Seq<char>> {
    match b {
        Some(x) => if valid_utf8(x) {
            Some(decode_utf8(x))
        } else {
            None
        },
        None => None,
    }
}

/// The characters of an optional string.
pub open spec fn opt_chars(s: Option<String>) -> Option<Seq<char>> {
    match s {
        Some(x) => Some(x@),
        None => None,
    }
}

fn name_string(b: Option<Vec<u8>>) -> (r: Option<String>)
    ensures
        opt_chars(r) == decoded(opt_bytes(b)),
{
    match b {
        Some(v) => string_from_utf8(v),
        None => None,
    }
}

/// Looks up the names of vendor `vendor_id` and of its device `device_id` in the
/// contents of a PCI ID database.
pub fn parse_pci_names(data: &[u8], vendor_id: u32, device_id: u32) -> (r: (
    Option<String>,
    Option<String>,
))
    ensures
        opt_chars(r.0) == decoded(spec_pci_names(data@, vendor_id, device_id).0),
        opt_chars(r.1) == decoded(spec_pci_names(data@, vendor_id, device_id).1),
{
    let (vendor, device) = pci_names_in(data, vendor_id, device_id);
    (name_string(vendor), name_string(device))
}

// ---------------------------------------------------------------------------
// The mount table
// ---------------------------------------------------------------------------

/// Whether `fs` names a file system of the mount table that holds no disk: `autofs`, `bootfs`, `ctfs`, `dev`, `devfs`, `fd`, `lofs`, `mntfs`, `objfs`, `proc`, `sharefs`, `tmpfs`.
pub open spec fn is_pseudo_fs(fs: Seq<u8>) -> bool {
    ||| fs == seq![0x61u8, 0x75u8, 0x74u8, 0x6fu8, 0x66u8, 0x73u8]
    ||| fs == seq![0x62u8, 0x6fu8, 0x6fu8, 0x74u8, 0x66u8, 0x73u8]
    ||| fs == seq![0x63u8, 0x74u8, 0x66u8, 0x73u8]
    ||| fs == seq![0x64u8, 0x65u8, 0x76u8]
    ||| fs == seq![0x64u8, 0x65u8, 0x76u8, 0x66u8, 0x73u8]
    ||| fs == seq![0x66u8, 0x64u8]
    ||| fs == seq![0x6cu8, 0x6fu8, 0x66u8, 0x73u8]
    ||| fs == seq![0x6du8, 0x6eu8, 0x74u8, 0x66u8, 0x73u8]
    ||| fs == seq![0x6fu8, 0x62u8, 0x6au8, 0x66u8, 0x73u8]
    ||| fs == seq![0x70u8, 0x72u8, 0x6fu8, 0x63u8]
    ||| fs == seq![0x73u8, 0x68u8, 0x61u8, 0x72u8, 0x65u8, 0x66u8, 0x73u8]
    ||| fs == seq![0x74u8, 0x6du8, 0x70u8, 0x66u8, 0x73u8]
}

/// Whether `fs` names a file system that holds no disk.
pub fn is_pseudo_file_system(fs: &[u8]) -> (r: bool)
    ensures
        r == is_pseudo_fs(fs@),
{
    let k0: [u8; 6] = [0x61, 0x75, 0x74, 0x6f, 0x66, 0x73];
    let k1: [u8; 6] = [0x62, 0x6f, 0x6f, 0x74, 0x66, 0x73];
    let k2: [u8; 4] = [0x63, 0x74, 0x66, 0x73];
    let k3: [u8; 3] = [0x64, 0x65, 0x76];
    let k4: [u8; 5] = [0x64, 0x65, 0x76, 0x66, 0x73];
    let k5: [u8; 2] = [0x66, 0x64];
    let k6: [u8; 4] = [0x6c, 0x6f, 0x66, 0x73];
    let k7: [u8; 5] = [0x6d, 0x6e, 0x74, 0x66, 0x73];
    let k8: [u8; 5] = [0x6f, 0x62, 0x6a, 0x66, 0x73];
    let k9: [u8; 4] = [0x70, 0x72, 0x6f, 0x63];
    let k10: [u8; 7] = [0x73, 0x68, 0x61, 0x72, 0x65, 0x66, 0x73];
    let k11: [u8; 5] = [0x74, 0x6d, 0x70, 0x66, 0x73];
    proof {
        assert(k0@ =~= seq![0x61u8, 0x75u8, 0x74u8, 0x6fu8, 0x66u8, 0x73u8]);
        assert(k1@ =~= seq![0x62u8, 0x6fu8, 0x6fu8, 0x74u8, 0x66u8, 0x73u8]);
        assert(k2@ =~= seq![0x63u8, 0x74u8, 0x66u8, 0x73u8]);
        assert(k3@ =~= seq![0x64u8, 0x65u8, 0x76u8]);
        assert(k4@ =~= seq![0x64u8, 0x65u8, 0x76u8, 0x66u8, 0x73u8]);
        assert(k5@ =~= seq![0x66u8, 0x64u8]);
        assert(k6@ =~= seq![0x6cu8, 0x6fu8, 0x66u8, 0x73u8]);
        assert(k7@ =~= seq![0x6du8, 0x6eu8, 0x74u8, 0x66u8, 0x73u8]);
        assert(k8@ =~= seq![0x6fu8, 0x62u8, 0x6au8, 0x66u8, 0x73u8]);
        assert(k9@ =~= seq![0x70u8, 0x72u8, 0x6fu8, 0x63u8]);
        assert(k10@ =~= seq![0x73u8, 0x68u8, 0x61u8, 0x72u8, 0x65u8, 0x66u8, 0x73u8]);
        assert(k11@ =~= seq![0x74u8, 0x6du8, 0x70u8, 0x66u8, 0x73u8]);
    }
    bytes_eq(fs, k0.as_slice())
        || bytes_eq(fs, k1.as_slice())
        || bytes_eq(fs, k2.as_slice())
        || bytes_eq(fs, k3.as_slice())
        || bytes_eq(fs, k4.as_slice())
        || bytes_eq(fs, k5.as_slice())
        || bytes_eq(fs, k6.as_slice())
        || bytes_eq(fs, k7.as_slice())
        || bytes_eq(fs, k8.as_slice())
        || bytes_eq(fs, k9.as_slice())
        || bytes_eq(fs, k10.as_slice())
        || bytes_eq(fs, k11.as_slice())
}

/// Whether an escape `\ddd` (three decimal digits) starts at `pos` in `b`.
pub open spec fn mnttab_escape_at(b: Seq<u8>, pos: int) -> bool {
    0 <= pos && pos + 3 < b.len() && b[pos] == 0x5cu8 && is_digit(b[pos + 1]) && is_digit(
        b[pos + 2],
    ) && is_digit(b[pos + 3])
}

/// The byte that the escape at `pos` stands for, its digits read in base 8.
pub open spec fn mnttab_escape_value(b: Seq<u8>, pos: int) -> int {
    (b[pos + 1] - 0x30) * 64 + (b[pos + 2] - 0x30) * 8 + (b[pos + 3] - 0x30)
}

/// `b[pos..]` with each escape replaced by the byte it stands for.
pub open spec fn unescape_from(b: Seq<u8>, pos: int) -> Seq<u8>
    decreases b.len() - pos,
{
    if pos < 0 || pos >= b.len() {
        seq![]
    } else if mnttab_escape_at(b, pos) {
        seq![mnttab_escape_value(b, pos) as u8] + unescape_from(b, pos + 4)
    } else {
        seq![b[pos]] + unescape_from(b, pos + 1)
    }
}

/// Whether each escape can be computed in a byte: the byte arithmetic of the
/// decoding overflows, and panics, on an escape such as `\999`.
pub open spec fn mnttab_escapes_fit(b: Seq<u8>) -> bool {
    forall|i: int|
        #![trigger mnttab_escape_at(b, i)]
        mnttab_escape_at(b, i) ==> (b[i + 1] - 0x30) * 64 + (b[i + 2] - 0x30) * 8 + b[i + 3] <= 255
}

/// Replaces the escapes `\ddd` of a mount-table field by the bytes they stand for.
pub fn unescape_mnttab(value: &[u8]) -> (r: Vec<u8>)
    requires
        mnttab_escapes_fit(value@),
    ensures
        r@ == unescape_from(value@, 0),
{
    let n = value.len();
    let mut out: Vec<u8> = Vec::new();
    let mut i: usize = 0;
    while i < n
        invariant
            i <= n == value@.len(),
            mnttab_escapes_fit(value@),
            out@ + unescape_from(value@, i as int) == unescape_from(value@, 0),
        decreases n - i,
    {
        let ghost before = out@;
        if value[i] == 0x5c && n - i > 3 && 0x30 <= value[i + 1] && value[i + 1] <= 0x39 && 0x30
            <= value[i + 2] && value[i + 2] <= 0x39 && 0x30 <= value[i + 3] && value[i + 3] <= 0x39 {
            assert(mnttab_escape_at(value@, i as int));
            let v = (value[i + 1] - 0x30) * 64 + (value[i + 2] - 0x30) * 8 + value[i + 3] - 0x30;
            out.push(v);
            proof {
                assert(out@ =~= before + seq![v]);
                assert(before + (seq![v] + unescape_from(value@, i + 4)) =~= out@ + unescape_from(
                    value@,
                    i + 4,
                ));
            }
            i = i + 4;
        } else {
            assert(!mnttab_escape_at(value@, i as int));
            out.push(value[i]);
            proof {
                assert(out@ =~= before + seq![value@[i as int]]);
                assert(before + (seq![value@[i as int]] + unescape_from(value@, i + 1)) =~= out@
                    + unescape_from(value@, i + 1));
            }
            i = i + 1;
        }
    }
    proof {
        assert(out@ + Seq::<u8>::empty() =~= out@);
    }
    out
}

/// The devfs node path of a physical device path: the path without its `/devices`
/// prefix and its minor name (after the last `:`). `None` when the path does not
/// start with `/devices`, has no minor name, or the node path holds a NUL byte.
pub open spec fn spec_devfs_path(path: Seq<u8>) -> Option<Seq<u8>> {
    let prefix = seq![0x2fu8, 0x64u8, 0x65u8, 0x76u8, 0x69u8, 0x63u8, 0x65u8, 0x73u8];
    if path.len() >= 8 && path.subrange(0, 8) == prefix {
        let rest = path.subrange(8, path.len() as int);
        match rfind(rest, 0x3au8) {
            None => None,
            Some(m) => if contains_byte(rest.subrange(0, m), 0u8) {
                None
            } else {
                Some(rest.subrange(0, m))
            },
        }
    } else {
        None
    }
}

/// The devfs node path of a physical device path such as
/// `/devices/pci@0,0/blkdev@0,0:a`.
pub fn devfs_path(path: &[u8]) -> (r: Option<Vec<u8>>)
    ensures
        opt_bytes(r) == spec_devfs_path(path@),
{
    let prefix: [u8; 8] = [0x2f, 0x64, 0x65, 0x76, 0x69, 0x63, 0x65, 0x73];
    assert(prefix@ =~= seq![0x2fu8, 0x64u8, 0x65u8, 0x76u8, 0x69u8, 0x63u8, 0x65u8, 0x73u8]);
    if !starts_with_at(path, 0, prefix.as_slice()) {
        return None;
    }
    let rest = copy_range(path, 8, path.len());
    match rfind_byte(rest.as_slice(), 0x3a) {
        None => None,
        Some(m) => {
            let node = copy_range(rest.as_slice(), 0, m);
            let z = find_byte_from(node.as_slice(), 0, 0);
            proof {
                lemma_find_from(node@, 0u8, 0);
                if z < node@.len() {
                    assert(node@[z as int] == 0u8);
                }
            }
            if z < node.len() {
                None
            } else {
                Some(node)
            }
        },
    }
}

/// A line of the mount table: the device, the mount point (both with their escapes
/// decoded), the file system, and whether the options hold `ro`.
pub struct MnttabEntry {
    pub name: Vec<u8>,
    pub mount_point: Vec<u8>,
    pub file_system: Vec<u8>,
    pub is_read_only: bool,
}

/// The option `ro`.
pub open spec fn ro_option() -> Seq<u8> {
    seq![0x72u8, 0x6fu8]
}

/// What a line of the mount table describes: `None` when it has fewer than four
/// fields or its file system holds no disk.
pub open spec fn mnttab_entry(line: Seq<u8>) -> Option<(Seq<u8>, Seq<u8>, Seq<u8>, bool)> {
    let f = ws_fields(line);
    if f.len() < 4 || is_pseudo_fs(f[2]) {
        None
    } else {
        Some(
            (
                unescape_from(f[0], 0),
                unescape_from(f[1], 0),
                f[2],
                has_piece(f[3], 0x2cu8, ro_option()),
            ),
        )
    }
}

/// Whether the escapes of the fields that a line's decoding reads all fit.
pub open spec fn mnttab_line_decodable(line: Seq<u8>) -> bool {
    let f = ws_fields(line);
    f.len() >= 4 && !is_pseudo_fs(f[2]) ==> mnttab_escapes_fit(f[0]) && mnttab_escapes_fit(f[1])
}

/// The view of an entry.
pub open spec fn entry_view(e: MnttabEntry) -> (Seq<u8>, Seq<u8>, Seq<u8>, bool) {
    (e.name@, e.mount_point@, e.file_system@, e.is_read_only)
}

/// Reads a line of the mount table.
pub fn parse_mnttab_line(line: &[u8]) -> (r: Option<MnttabEntry>)
    requires
        mnttab_line_decodable(line@),
    ensures
        match mnttab_entry(line@) {
            None => r is None,
            Some(e) => r matches Some(x) && entry_view(x) == e,
        },
{
    let fields = split_whitespace(line);
    let ghost f = views(fields@);
    if fields.len() < 4 {
        return None;
    }
    assert(fields@[2]@ == f[2]);
    if is_pseudo_file_system(fields[2].as_slice()) {
        return None;
    }
    assert(fields@[0]@ == f[0] && fields@[1]@ == f[1] && fields@[3]@ == f[3]);
    let ro: [u8; 2] = [0x72, 0x6f];
    assert(ro@ =~= ro_option());
    let name = unescape_mnttab(fields[0].as_slice());
    let mount_point = unescape_mnttab(fields[1].as_slice());
    let file_system = copy_range(fields[2].as_slice(), 0, fields[2].len());
    assert(file_system@ =~= f[2]);
    let is_read_only = any_piece_eq(fields[3].as_slice(), 0x2c, ro.as_slice());
    Some(MnttabEntry { name, mount_point, file_system, is_read_only })
}

/// The entries of the mount table lines `ls[i..]`; the reading stops at the first
/// line that is not UTF-8.
pub open spec fn mnttab_scan(ls: Seq<Seq<u8>>, i: int) -> Seq<(Seq<u8>, Seq<u8>, Seq<u8>, bool)>
    decreases ls.len() - i,
{
    if i < 0 || i >= ls.len() || !valid_utf8(ls[i]) {
        seq![]
    } else {
        match mnttab_entry(ls[i]) {
            Some(e) => seq![e] + mnttab_scan(ls, i + 1),
            None => mnttab_scan(ls, i + 1),
        }
    }
}

/// Whether every line that the reading of `ls[i..]` decodes can be decoded.
pub open spec fn mnttab_scan_decodable(ls: Seq<Seq<u8>>, i: int) -> bool
    decreases ls.len() - i,
{
    if i < 0 || i >= ls.len() || !valid_utf8(ls[i]) {
        true
    } else {
        mnttab_line_decodable(ls[i]) && mnttab_scan_decodable(ls, i + 1)
    }
}

/// Whether the escapes of `b` all fit in a byte (see `mnttab_escapes_fit`).
pub fn escapes_fit(b: &[u8]) -> (r: bool)
    ensures
        r == mnttab_escapes_fit(b@),
{
    let n = b.len();
    let mut i: usize = 0;
    while i < n
        invariant
            i <= n == b@.len(),
            forall|k: int|
                #![trigger mnttab_escape_at(b@, k)]
                0 <= k < i && mnttab_escape_at(b@, k) ==> (b@[k + 1] - 0x30) * 64 + (b@[k + 2] - 0x30) * 8 + b@[k + 3] <= 255,
        decreases n - i,
    {
        if b[i] == 0x5c && n - i > 3 && 0x30 <= b[i + 1] && b[i + 1] <= 0x39 && 0x30 <= b[i + 2] && b[i + 2] <= 0x39
            && 0x30 <= b[i + 3] && b[i + 3] <= 0x39 {
            assert(mnttab_escape_at(b@, i as int));
            let v: u32 = (b[i + 1] - 0x30) as u32 * 64 + (b[i + 2] - 0x30) as u32 * 8 + b[i + 3] as u32;
            if v > 255 {
                return false;
            }
        }
        i = i + 1;
    }
    proof {
        assert forall|k: int| #![trigger mnttab_escape_at(b@, k)] mnttab_escape_at(b@, k) implies (b@[k + 1] - 0x30) * 64
            + (b@[k + 2] - 0x30) * 8 + b@[k + 3] <= 255 by {
            assert(k < n);
        }
    }
    true
}

/// Whether every line that the reading of the mount table `content` decodes can be
/// decoded, which is what `mnttab_entries` asks of its input.
pub fn mnttab_decodable_check(content: &[u8]) -> (r: bool)
    ensures
        r == mnttab_scan_decodable(spec_lines(content@), 0),
{
    let ls = lines(content);
    let ghost l = views(ls@);
    let mut i: usize = 0;
    while i < ls.len()
        invariant
            i <= ls@.len(),
            l == views(ls@),
            l == spec_lines(content@),
            mnttab_scan_decodable(l, 0) == mnttab_scan_decodable(l, i as int),
        decreases ls@.len() - i,
    {
        let line = ls[i].as_slice();
        assert(line@ == l[i as int]);
        if !is_valid_utf8(line) {
            return true;
        }
        let fields = split_whitespace(line);
        let ghost f = views(fields@);
        assert(f == ws_fields(line@));
        if fields.len() >= 4 {
            assert(fields@[2]@ == f[2]);
            if !is_pseudo_file_system(fields[2].as_slice()) {
                assert(fields@[0]@ == f[0] && fields@[1]@ == f[1]);
                if !escapes_fit(fields[0].as_slice()) || !escapes_fit(fields[1].as_slice()) {
                    return false;
                }
            }
        }
        i = i + 1;
    }
    true
}

/// Reads the disk entries of the mount table `content` (the text of `/etc/mnttab`).
pub fn mnttab_entries(content: &[u8]) -> (r: Vec<MnttabEntry>)
    requires
        mnttab_scan_decodable(spec_lines(content@), 0),
    ensures
        r@.map_values(|e: MnttabEntry| entry_view(e)) == mnttab_scan(spec_lines(content@), 0),
{
    let ls = lines(content);
    let ghost l = views(ls@);
    let mut out: Vec<MnttabEntry> = Vec::new();
    let mut i: usize = 0;
    while i < ls.len()
        invariant
            i <= ls@.len(),
            l == views(ls@),
            l == spec_lines(content@),
            mnttab_scan_decodable(l, i as int),
            out@.map_values(|e: MnttabEntry| entry_view(e)) + mnttab_scan(l, i as int)
                == mnttab_scan(l, 0),
        decreases ls@.len() - i,
    {
        let line = ls[i].as_slice();
        assert(line@ == l[i as int]);
        if !is_valid_utf8(line) {
            proof {
                assert(out@.map_values(|e: MnttabEntry| entry_view(e)) + Seq::empty()
                    =~= out@.map_values(|e: MnttabEntry| entry_view(e)));
            }
            return out;
        }
        let ghost before = out@.map_values(|e: MnttabEntry| entry_view(e));
        match parse_mnttab_line(line) {
            Some(e) => {
                let ghost ev = entry_view(e);
                out.push(e);
                proof {
                    assert(out@.map_values(|e: MnttabEntry| entry_view(e)) =~= before.push(ev));
                    assert(before + (seq![ev] + mnttab_scan(l, i + 1)) =~= before.push(ev)
                        + mnttab_scan(l, i + 1));
                }
            },
            None => {},
        }
        i = i + 1;
    }
    proof {
        assert(out@.map_values(|e: MnttabEntry| entry_view(e)) + Seq::empty()
            =~= out@.map_values(|e: MnttabEntry| entry_view(e)));
    }
    out
}

// ---------------------------------------------------------------------------
// Disks
// ---------------------------------------------------------------------------

/// Where the I/O statistics of a disk are found: the kstat module, instance and name.
pub struct IoSource {
    pub module: Vec<u8>,
    pub instance: i32,
    pub name: Vec<u8>,
}

/// What the device tree says of a disk's device.
pub struct DeviceInfo {
    pub io_source: IoSource,
    pub kind: DiskKind,
    pub is_removable: bool,
}

/// The kind of disk that the device-tree properties give: solid state when its
/// solid-state property is non-zero, else a hard disk when its rotational property is
/// non-zero, else unknown.
pub open spec fn kind_from_properties(solid_state: Option<i64>, rotational: Option<i64>) -> DiskKind {
    if solid_state matches Some(v) && v != 0 {
        DiskKind::SSD
    } else if rotational matches Some(v) && v != 0 {
        DiskKind::HDD
    } else {
        DiskKind::Unknown(-1isize)
    }
}

/// What the device-tree node of a disk says: its driver's name and instance, its
/// solid-state and rotational integer properties and whether it is removable. The
/// I/O statistics are the kstat of the driver named by the driver and the instance
/// in decimal. `None` when the instance is negative or the name holds a NUL.
pub fn device_info_from(
    driver: &[u8],
    instance: i32,
    solid_state: Option<i64>,
    rotational: Option<i64>,
    removable: bool,
) -> (r: Option<DeviceInfo>)
    ensures
        instance < 0 || crate::text::contains_byte(driver@, 0u8) ==> r is None,
        instance >= 0 && !crate::text::contains_byte(driver@, 0u8) ==> (r matches Some(d) && d.io_source.module@
            == driver@ && d.io_source.instance == instance && d.io_source.name@ == driver@
            + crate::text::decimal(instance as nat) && d.kind == kind_from_properties(solid_state, rotational)
            && d.is_removable == removable),
{
    if instance < 0 {
        return None;
    }
    let k = crate::text::find_byte_from(driver, 0, 0);
    proof {
        crate::text::lemma_find_from(driver@, 0u8, 0);
    }
    if k < driver.len() {
        proof {
            assert(driver@[k as int] == 0u8);
        }
        return None;
    }
    let module = copy_range(driver, 0, driver.len());
    let mut name = copy_range(driver, 0, driver.len());
    proof {
        assert(driver@.subrange(0, driver@.len() as int) =~= driver@);
        crate::text::lemma_decimal_ascii(instance as nat);
    }
    crate::text::push_decimal(&mut name, instance as u64);
    let kind = match (solid_state, rotational) {
        (Some(v), _) if v != 0 => DiskKind::SSD,
        (_, Some(v)) if v != 0 => DiskKind::HDD,
        _ => DiskKind::Unknown(-1),
    };
    Some(DeviceInfo { io_source: IoSource { module, instance, name }, kind, is_removable: removable })
}

/// Which figures of a disk a refresh updates.
#[derive(Clone, Copy, Debug)]
pub struct DiskRefreshKind {
    pub kind: bool,
    pub storage: bool,
    pub io_usage: bool,
}

/// A disk of illumos: a mounted file system.
pub struct DiskInner {
    pub kind: DiskKind,
    pub name: Vec<u8>,
    pub device_id: Option<u64>,
    pub mount_point: Vec<u8>,
    pub total_space: u64,
    pub available_space: u64,
    pub file_system: Vec<u8>,
    pub is_removable: bool,
    pub is_read_only: bool,
    pub io_source: Option<IoSource>,
    pub io: IoCounters,
    pub updated: bool,
}

/// `zfs`.
pub open spec fn zfs_name() -> Seq<u8> {
    seq![0x7au8, 0x66u8, 0x73u8]
}

impl DiskInner {
    /// Which device facts a refresh of kind `k` needs: an I/O source, and the kind.
    /// Neither for a ZFS dataset, whose statistics describe a whole pool.
    pub fn device_info_needs(&self, k: DiskRefreshKind) -> (r: (bool, bool))
        ensures
            r.0 == (k.io_usage && self.io_source is None && self.file_system@ != zfs_name()),
            r.1 == (k.kind && self.kind == DiskKind::Unknown(-1isize) && self.file_system@
                != zfs_name()),
    {
        let zfs: [u8; 3] = [0x7a, 0x66, 0x73];
        assert(zfs@ =~= zfs_name());
        let is_zfs = bytes_eq(self.file_system.as_slice(), zfs.as_slice());
        let needs_io_source = k.io_usage && self.io_source.is_none() && !is_zfs;
        let needs_kind = k.kind && self.kind == DiskKind::Unknown(-1) && !is_zfs;
        (needs_io_source, needs_kind)
    }

    /// Records the device facts that were needed, when they could be read.
    pub fn apply_device_info(&mut self, info: Option<DeviceInfo>, needs_io_source: bool, needs_kind: bool)
        ensures
            match info {
                Some(i) => {
                    &&& needs_io_source ==> final(self).io_source == Some(i.io_source)
                    &&& !needs_io_source ==> final(self).io_source == old(self).io_source
                    &&& needs_kind ==> final(self).kind == i.kind && final(self).is_removable
                        == i.is_removable
                    &&& !needs_kind ==> final(self).kind == old(self).kind && final(self).is_removable
                        == old(self).is_removable
                },
                None => final(self).io_source == old(self).io_source && final(self).kind == old(
                    self,
                ).kind && final(self).is_removable == old(self).is_removable,
            },
            final(self).name == old(self).name,
            final(self).mount_point == old(self).mount_point,
            final(self).file_system == old(self).file_system,
            final(self).io == old(self).io,
    {
        if let Some(i) = info {
            if needs_io_source {
                self.io_source = Some(i.io_source);
            }
            if needs_kind {
                self.kind = i.kind;
                self.is_removable = i.is_removable;
            }
        }
    }

    /// Records what `statvfs` said of the file system, when the call succeeded.
    pub fn refresh_storage(&mut self, stat: Option<FsStat>)
        ensures
            match stat {
                Some(s) => final(self).total_space == sat_mul(s.blocks, s.block_size)
                    && final(self).available_space == sat_mul(s.blocks_available, s.block_size)
                    && final(self).is_read_only == s.read_only,
                None => final(self).total_space == old(self).total_space
                    && final(self).available_space == old(self).available_space
                    && final(self).is_read_only == old(self).is_read_only,
            },
            final(self).io == old(self).io,
            final(self).kind == old(self).kind,
    {
        if let Some(s) = stat {
            self.total_space = saturating_mul(s.blocks, s.block_size);
            self.available_space = saturating_mul(s.blocks_available, s.block_size);
            self.is_read_only = s.read_only;
        }
    }

    /// Rolls the I/O counters and records the bytes read and written that the disk's I/O
    /// source reports (`reading`); without a source or a reading, the counters stay.
    pub fn refresh_io_usage(&mut self, reading: Option<(u64, u64)>)
        ensures
            final(self).io.old_read_bytes == old(self).io.read_bytes,
            final(self).io.old_written_bytes == old(self).io.written_bytes,
            match reading {
                Some(x) if old(self).io_source is Some => final(self).io.read_bytes == x.0
                    && final(self).io.written_bytes == x.1,
                _ => final(self).io.read_bytes == old(self).io.read_bytes
                    && final(self).io.written_bytes == old(self).io.written_bytes,
            },
    {
        self.io.old_read_bytes = self.io.read_bytes;
        self.io.old_written_bytes = self.io.written_bytes;
        if self.io_source.is_none() {
            return;
        }
        if let Some((nread, nwritten)) = reading {
            self.io.read_bytes = nread;
            self.io.written_bytes = nwritten;
        }
    }
}

/// The disks of illumos.
pub struct DisksInner {
    pub disks: Vec<DiskInner>,
}

/// `v` with every mark cleared.
pub open spec fn cleared(v: Seq<DiskInner>) -> Seq<DiskInner> {
    Seq::new(v.len(), |i: int| DiskInner { updated: false, ..v[i] })
}

/// The position of the first disk of `v` mounted at `m`, or the length of `v` when
/// none is.
pub open spec fn first_mount(v: Seq<DiskInner>, m: Seq<u8>) -> int {
    if exists|k: int| 0 <= k < v.len() && (#[trigger] v[k]).mount_point@ == m {
        choose|k: int| 0 <= k < v.len() && (#[trigger] v[k]).mount_point@ == m && forall|j: int| 0 <= j < k ==> (#[trigger] v[j]).mount_point@ != m
    } else {
        v.len() as int
    }
}

/// The disk `o` once the mount-table entry `e` for its mount point is recorded: it is
/// marked; when its device or file system changed, its I/O source, kind and
/// removability are forgotten.
pub open spec fn recorded_disk(o: DiskInner, e: MnttabEntry) -> DiskInner {
    let changed = o.name@ != e.name@ || o.file_system@ != e.file_system@;
    DiskInner {
        updated: true,
        name: e.name,
        file_system: e.file_system,
        is_read_only: e.is_read_only,
        io_source: if changed { None } else { o.io_source },
        kind: if changed { DiskKind::Unknown(-1isize) } else { o.kind },
        is_removable: if changed { false } else { o.is_removable },
        ..o
    }
}

/// The disk made for a new mount-table entry `e`, its mount point's device id being
/// `device_id`.
pub open spec fn new_disk(e: MnttabEntry, device_id: Option<u64>) -> DiskInner {
    DiskInner {
        kind: DiskKind::Unknown(-1isize),
        name: e.name,
        device_id,
        mount_point: e.mount_point,
        total_space: 0,
        available_space: 0,
        file_system: e.file_system,
        is_removable: false,
        is_read_only: e.is_read_only,
        io_source: None,
        io: IoCounters { read_bytes: 0, old_read_bytes: 0, written_bytes: 0, old_written_bytes: 0 },
        updated: true,
    }
}

/// The list `v` once the entry `e` (with its device id) is read: the disk mounted there
/// is updated, else a new disk is appended, unless the mount point holds a NUL byte.
pub open spec fn mount_step(v: Seq<DiskInner>, e: MnttabEntry, device_id: Option<u64>) -> Seq<DiskInner> {
    let k = first_mount(v, e.mount_point@);
    if k < v.len() {
        v.update(k, recorded_disk(v[k], e))
    } else if contains_byte(e.mount_point@, 0u8) {
        v
    } else {
        v.push(new_disk(e, device_id))
    }
}

/// The list `v` once the entries of `t` are read in turn.
pub open spec fn mount_table_applied(v: Seq<DiskInner>, t: Seq<(MnttabEntry, Option<u64>)>) -> Seq<DiskInner>
    decreases t.len(),
{
    if t.len() == 0 {
        v
    } else {
        mount_step(mount_table_applied(v, t.drop_last()), t.last().0, t.last().1)
    }
}

proof fn lemma_first_from(v: Seq<DiskInner>, m: Seq<u8>, k0: int)
    requires
        0 <= k0 < v.len(),
        v[k0].mount_point@ == m,
    ensures
        exists|k: int| 0 <= k < v.len() && (#[trigger] v[k]).mount_point@ == m && forall|j: int| 0 <= j < k ==> (#[trigger] v[j]).mount_point@ != m,
    decreases k0,
{
    if exists|j: int| 0 <= j < k0 && (#[trigger] v[j]).mount_point@ == m {
        let j = choose|j: int| 0 <= j < k0 && (#[trigger] v[j]).mount_point@ == m;
        lemma_first_from(v, m, j);
    } else {
        assert(forall|j: int| 0 <= j < k0 ==> (#[trigger] v[j]).mount_point@ != m);
    }
}

/// What `first_mount` is: the first disk mounted at `m`, or none.
proof fn lemma_first_mount(v: Seq<DiskInner>, m: Seq<u8>)
    ensures
        0 <= first_mount(v, m) <= v.len(),
        first_mount(v, m) < v.len() ==> v[first_mount(v, m)].mount_point@ == m,
        forall|j: int| 0 <= j < first_mount(v, m) ==> (#[trigger] v[j]).mount_point@ != m,
{
    if exists|k: int| 0 <= k < v.len() && (#[trigger] v[k]).mount_point@ == m {
        let k0 = choose|k: int| 0 <= k < v.len() && (#[trigger] v[k]).mount_point@ == m;
        lemma_first_from(v, m, k0);
    }
}

/// Reading a mount table keeps the disks already listed in their places, mounted
/// where they were; the new ones come after them.
pub proof fn mount_table_keeps_places(v: Seq<DiskInner>, t: Seq<(MnttabEntry, Option<u64>)>)
    ensures
        mount_table_applied(v, t).len() >= v.len(),
        forall|k: int| 0 <= k < v.len() ==> (#[trigger] mount_table_applied(v, t)[k]).mount_point == v[k].mount_point,
    decreases t.len(),
{
    if t.len() > 0 {
        mount_table_keeps_places(v, t.drop_last());
        let w = mount_table_applied(v, t.drop_last());
        let r = mount_table_applied(v, t);
        lemma_first_mount(w, t.last().0.mount_point@);
        assert(r.len() >= w.len());
        assert forall|k: int| 0 <= k < v.len() implies (#[trigger] r[k]).mount_point == v[k].mount_point by {
            assert(w[k].mount_point == v[k].mount_point);
        }
    }
}

impl DisksInner {
    /// No disk yet.
    pub fn new() -> (r: DisksInner)
        ensures
            r.disks@.len() == 0,
    {
        DisksInner { disks: Vec::new() }
    }

    /// The list made of `disks`.
    pub fn from_vec(disks: Vec<DiskInner>) -> (r: DisksInner)
        ensures
            r.disks == disks,
    {
        DisksInner { disks }
    }

    /// The disks of the list.
    pub fn into_vec(self) -> (r: Vec<DiskInner>)
        ensures
            r == self.disks,
    {
        self.disks
    }

    /// The disks.
    pub fn list(&self) -> (r: &[DiskInner])
        ensures
            r@ == self.disks@,
    {
        self.disks.as_slice()
    }

    /// The disks, to change in place.
    pub fn list_mut(&mut self) -> (r: &mut Vec<DiskInner>)
        ensures
            *r == old(self).disks,
            final(self).disks == *final(r),
    {
        &mut self.disks
    }

    /// Clears the marks: the disks not seen again by the next reading will be unmarked.
    pub fn mark_all_not_updated(&mut self)
        ensures
            final(self).disks@.len() == old(self).disks@.len(),
            forall|i: int| 0 <= i < final(self).disks@.len() ==> !(#[trigger] final(self).disks@[i]).updated
                && final(self).disks@[i].mount_point == old(self).disks@[i].mount_point,
            forall|i: int| 0 <= i < final(self).disks@.len() ==> #[trigger] final(self).disks@[i] == (DiskInner {
                updated: false,
                ..old(self).disks@[i]
            }),
    {
        let n = self.disks.len();
        let mut i: usize = 0;
        while i < n
            invariant
                i <= n == self.disks@.len() == old(self).disks@.len(),
                forall|k: int| 0 <= k < i ==> #[trigger] self.disks@[k] == (DiskInner {
                    updated: false,
                    ..old(self).disks@[k]
                }),
                forall|k: int| i <= k < n ==> #[trigger] self.disks@[k] == old(self).disks@[k],
            decreases n - i,
        {
            let ghost before = self.disks@;
            self.disks[i].updated = false;
            proof {
                assert(self.disks@ =~= before.update(i as int, DiskInner { updated: false, ..before[i as int] }));
            }
            i = i + 1;
        }
    }

    /// The position of the disk mounted at `mount_point`, if any.
    pub fn find_mount(&self, mount_point: &[u8]) -> (r: Option<usize>)
        ensures
            r matches Some(i) ==> i < self.disks@.len() && self.disks@[i as int].mount_point@
                == mount_point@,
            r matches Some(i) ==> forall|k: int| 0 <= k < i ==> (#[trigger] self.disks@[k]).mount_point@
                != mount_point@,
            r is None ==> forall|k: int| 0 <= k < self.disks@.len() ==> (#[trigger] self.disks@[k]).mount_point@
                != mount_point@,
    {
        let mut i: usize = 0;
        while i < self.disks.len()
            invariant
                i <= self.disks@.len(),
                forall|k: int| 0 <= k < i ==> (#[trigger] self.disks@[k]).mount_point@ != mount_point@,
            decreases self.disks@.len() - i,
        {
            if bytes_eq(self.disks[i].mount_point.as_slice(), mount_point) {
                return Some(i);
            }
            i = i + 1;
        }
        None
    }

    /// Records a mount-table entry for the disk at `i`, already known: it is marked; when
    /// its device or file system changed, its I/O source, kind and removability are
    /// forgotten.
    pub fn update_existing(&mut self, i: usize, e: MnttabEntry)
        requires
            i < old(self).disks@.len(),
        ensures
            final(self).disks@.len() == old(self).disks@.len(),
            forall|k: int| 0 <= k < final(self).disks@.len() && k != i ==> #[trigger] final(self).disks@[k]
                == old(self).disks@[k],
            final(self).disks@ == old(self).disks@.update(i as int, recorded_disk(old(self).disks@[i as int], e)),
            ({
                let d = final(self).disks@[i as int];
                let o = old(self).disks@[i as int];
                let changed = o.name@ != e.name@ || o.file_system@ != e.file_system@;
                &&& d.updated
                &&& d.name@ == e.name@
                &&& d.file_system@ == e.file_system@
                &&& d.is_read_only == e.is_read_only
                &&& d.mount_point == o.mount_point
                &&& changed ==> d.io_source is None && d.kind == DiskKind::Unknown(-1isize)
                    && !d.is_removable
                &&& !changed ==> d.io_source == o.io_source && d.kind == o.kind && d.is_removable
                    == o.is_removable
                &&& d.io == o.io
                &&& d.total_space == o.total_space
            }),
    {
        let changed = !bytes_eq(self.disks[i].name.as_slice(), e.name.as_slice()) || !bytes_eq(
            self.disks[i].file_system.as_slice(),
            e.file_system.as_slice(),
        );
        self.disks[i].updated = true;
        self.disks[i].name = e.name;
        self.disks[i].file_system = e.file_system;
        if changed {
            self.disks[i].io_source = None;
            self.disks[i].kind = DiskKind::Unknown(-1);
            self.disks[i].is_removable = false;
        }
        self.disks[i].is_read_only = e.is_read_only;
    }

    /// Adds a disk for a new mount-table entry, the mount point's device id being
    /// `device_id`; a mount point holding a NUL byte is refused. Whether it was added.
    pub fn add_disk(&mut self, e: MnttabEntry, device_id: Option<u64>) -> (r: bool)
        ensures
            r == !contains_byte(e.mount_point@, 0u8),
            r ==> final(self).disks@ == old(self).disks@.push(new_disk(e, device_id)),
            r ==> final(self).disks@.len() == old(self).disks@.len() + 1 && ({
                let d = final(self).disks@.last();
                &&& d.name@ == e.name@
                &&& d.mount_point@ == e.mount_point@
                &&& d.file_system@ == e.file_system@
                &&& d.is_read_only == e.is_read_only
                &&& d.device_id == device_id
                &&& d.kind == DiskKind::Unknown(-1isize)
                &&& d.io_source is None
                &&& !d.is_removable
                &&& d.updated
                &&& d.total_space == 0 && d.available_space == 0
                &&& d.io == IoCounters {
                    read_bytes: 0,
                    old_read_bytes: 0,
                    written_bytes: 0,
                    old_written_bytes: 0,
                }
            }),
            forall|k: int| 0 <= k < old(self).disks@.len() ==> #[trigger] final(self).disks@[k]
                == old(self).disks@[k],
            !r ==> final(self).disks@.len() == old(self).disks@.len(),
    {
        let z = find_byte_from(e.mount_point.as_slice(), 0, 0);
        proof {
            lemma_find_from(e.mount_point@, 0u8, 0);
            if z < e.mount_point@.len() {
                assert(e.mount_point@[z as int] == 0u8);
            }
        }
        if z < e.mount_point.len() {
            return false;
        }
        self.disks.push(
            DiskInner {
                kind: DiskKind::Unknown(-1),
                name: e.name,
                device_id,
                mount_point: e.mount_point,
                total_space: 0,
                available_space: 0,
                file_system: e.file_system,
                is_removable: false,
                is_read_only: e.is_read_only,
                io_source: None,
                io: IoCounters { read_bytes: 0, old_read_bytes: 0, written_bytes: 0, old_written_bytes: 0 },
                updated: true,
            },
        );
        true
    }

    /// Drops the disks that the last reading did not mark.
    pub fn remove_not_updated(&mut self)
        ensures
            final(self).disks@ == kept_disks(old(self).disks@),
    {
        let ghost v0 = self.disks@;
        let n = self.disks.len();
        let mut c: usize = 0;
        let mut j: usize = 0;
        while c < n
            invariant
                n == v0.len(),
                v0 == old(self).disks@,
                j <= c <= v0.len(),
                self.disks@ == kept_disks(v0.take(c as int)) + v0.skip(c as int),
                j == kept_disks(v0.take(c as int)).len(),
            decreases v0.len() - c,
        {
            proof {
                assert(v0.take(c + 1).drop_last() =~= v0.take(c as int));
                assert(v0.take(c + 1).last() == v0[c as int]);
                assert(self.disks@[j as int] == v0[c as int]);
            }
            let ghost before = self.disks@;
            if self.disks[j].updated {
                proof {
                    assert(self.disks@ =~= kept_disks(v0.take(c + 1)) + v0.skip(c + 1));
                }
                j = j + 1;
            } else {
                let _gone = self.disks.remove(j);
                proof {
                    assert(self.disks@ =~= before.remove(j as int));
                    assert(self.disks@ =~= kept_disks(v0.take(c + 1)) + v0.skip(c + 1));
                }
            }
            c = c + 1;
        }
        proof {
            assert(v0.take(v0.len() as int) =~= v0);
            assert(v0.skip(v0.len() as int) =~= Seq::<DiskInner>::empty());
            assert(self.disks@ =~= kept_disks(v0));
        }
    }
}

/// The marked disks of `v`, in order.
pub open spec fn kept_disks(v: Seq<DiskInner>) -> Seq<DiskInner>
    decreases v.len(),
{
    if v.len() == 0 {
        seq![]
    } else if v.last().updated {
        kept_disks(v.drop_last()).push(v.last())
    } else {
        kept_disks(v.drop_last())
    }
}

/// Whether no two disks of `v` are mounted at the same place.
pub open spec fn mounts_distinct(v: Seq<DiskInner>) -> bool {
    forall|a: int, b: int| 0 <= a < b < v.len() ==> v[a].mount_point@ != v[b].mount_point@
}

/// Whether one of the disks of `v` is mounted at `m`.
pub open spec fn has_mount(v: Seq<DiskInner>, m: Seq<u8>) -> bool {
    exists|k: int| 0 <= k < v.len() && (#[trigger] v[k]).mount_point@ == m
}

/// Whether one of the marked disks of `v` is mounted at `m`.
pub open spec fn has_marked_mount(v: Seq<DiskInner>, m: Seq<u8>) -> bool {
    exists|k: int| 0 <= k < v.len() && (#[trigger] v[k]).mount_point@ == m && v[k].updated
}

/// Whether one of the first `n` mount-table entries of `t` is mounted at `m`.
pub open spec fn entry_at(t: Seq<(MnttabEntry, Option<u64>)>, n: int, m: Seq<u8>) -> bool {
    exists|j: int| 0 <= j < n && (#[trigger] t[j]).0.mount_point@ == m
}

/// Whether the `a`-th and `b`-th marked disks of `v` stand in `v` in that order.
pub open spec fn kept_in_order(v: Seq<DiskInner>, a: int, b: int) -> bool {
    exists|x: int, y: int| #![trigger v[x], v[y]] 0 <= x < y < v.len() && kept_disks(v)[a] == v[x] && kept_disks(v)[b] == v[y]
}

proof fn lemma_kept_disks(v: Seq<DiskInner>)
    ensures
        forall|k: int| #![trigger kept_disks(v)[k]] 0 <= k < kept_disks(v).len() ==> kept_disks(v)[k].updated
            && has_mount(v, kept_disks(v)[k].mount_point@),
        forall|k: int| #![trigger v[k]] 0 <= k < v.len() && v[k].updated ==> has_mount(kept_disks(v), v[k].mount_point@),
        forall|a: int, b: int| 0 <= a < b < kept_disks(v).len() ==> #[trigger] kept_in_order(v, a, b),
    decreases v.len(),
{
    if v.len() > 0 {
        let d = v.drop_last();
        lemma_kept_disks(d);
        assert forall|k: int| #![trigger kept_disks(v)[k]] 0 <= k < kept_disks(v).len() implies kept_disks(v)[k].updated
            && has_mount(v, kept_disks(v)[k].mount_point@) by {
            if k < kept_disks(d).len() {
                assert(kept_disks(v)[k] == kept_disks(d)[k]);
                let j = choose|j: int| 0 <= j < d.len() && (#[trigger] d[j]).mount_point@ == kept_disks(d)[k].mount_point@;
                assert(v[j] == d[j]);
            } else {
                assert(kept_disks(v)[k] == v[v.len() - 1]);
            }
        }
        assert forall|k: int| #![trigger v[k]] 0 <= k < v.len() && v[k].updated implies has_mount(kept_disks(v), v[k].mount_point@) by {
            if k < d.len() {
                assert(d[k] == v[k]);
                let j = choose|j: int| 0 <= j < kept_disks(d).len() && (#[trigger] kept_disks(d)[j]).mount_point@ == d[k].mount_point@;
                assert(kept_disks(v)[j] == kept_disks(d)[j]);
            } else {
                assert(kept_disks(v)[kept_disks(d).len() as int] == v[k]);
            }
        }
        assert forall|a: int, b: int| 0 <= a < b < kept_disks(v).len() implies #[trigger] kept_in_order(v, a, b) by {
            assert(kept_disks(v)[a] == kept_disks(d)[a]);
            if b < kept_disks(d).len() {
                assert(kept_disks(v)[b] == kept_disks(d)[b]);
                assert(kept_in_order(d, a, b));
                let (x, y) = choose|x: int, y: int| #![trigger d[x], d[y]] 0 <= x < y < d.len() && kept_disks(d)[a] == d[x]
                    && kept_disks(d)[b] == d[y];
                assert(v[x] == d[x] && v[y] == d[y]);
            } else {
                assert(kept_disks(v)[b] == v[v.len() - 1]);
                lemma_kept_disks_from(d, a);
                let x = choose|x: int| 0 <= x < d.len() && kept_disks(d)[a] == d[x];
                assert(v[x] == d[x]);
                assert(v[v.len() - 1] == v[v.len() - 1]);
            }
        }
    } else {
        assert(kept_disks(v).len() == 0);
    }
}

proof fn lemma_kept_disks_from(v: Seq<DiskInner>, k: int)
    requires
        0 <= k < kept_disks(v).len(),
    ensures
        exists|x: int| 0 <= x < v.len() && kept_disks(v)[k] == v[x],
    decreases v.len(),
{
    let d = v.drop_last();
    let p = kept_disks(d);
    if k < p.len() {
        lemma_kept_disks_from(d, k);
        let x = choose|x: int| 0 <= x < d.len() && p[k] == d[x];
        assert(kept_disks(v)[k] == p[k] && v[x] == d[x]);
    } else {
        assert(kept_disks(v)[k] == v[v.len() - 1]);
    }
}

/// Whether the `a`-th and `c`-th disks of `r` stand in `w` in that order, and, where the
/// later one was among the disks of `v`, both were, in that order too.
pub open spec fn after_refresh_in_order(v: Seq<DiskInner>, w: Seq<DiskInner>, r: Seq<DiskInner>, a: int, c: int) -> bool {
    exists|x: int, y: int|
        #![trigger w[x], w[y]]
        0 <= x < y < w.len() && r[a] == w[x] && r[c] == w[y] && (y < v.len() ==> r[a].mount_point == v[x].mount_point
            && r[c].mount_point == v[y].mount_point)
}

/// A refresh from a mount table keeps the order of the disks: those listed before keep
/// their relative order and come before the ones it adds.
pub proof fn mount_refresh_keeps_order(v: Seq<DiskInner>, t: Seq<(MnttabEntry, Option<u64>)>, remove: bool)
    ensures
        ({
            let w = mount_table_applied(cleared(v), t);
            let r = if remove { kept_disks(w) } else { w };
            forall|a: int, c: int| 0 <= a < c < r.len() ==> #[trigger] after_refresh_in_order(v, w, r, a, c)
        }),
{
    let w = mount_table_applied(cleared(v), t);
    let r = if remove { kept_disks(w) } else { w };
    mount_table_keeps_places(cleared(v), t);
    assert forall|a: int, c: int| 0 <= a < c < r.len() implies #[trigger] after_refresh_in_order(v, w, r, a, c) by {
        if remove {
            lemma_kept_disks(w);
            assert(kept_in_order(w, a, c));
            let (x, y) = choose|x: int, y: int| #![trigger w[x], w[y]] 0 <= x < y < w.len() && r[a] == w[x] && r[c] == w[y];
            if y < v.len() {
                assert(w[x].mount_point == cleared(v)[x].mount_point);
                assert(w[y].mount_point == cleared(v)[y].mount_point);
            }
        } else {
            if c < v.len() {
                assert(w[a].mount_point == cleared(v)[a].mount_point);
                assert(w[c].mount_point == cleared(v)[c].mount_point);
            }
            assert(r[a] == w[a] && r[c] == w[c]);
        }
    }
}

impl DisksInner {
    /// A refresh of the list from the mount table (each entry with the device id of
    /// its mount point; `None` when the table could not be opened): the marks are
    /// cleared; a disk already mounted at an entry's place is updated, another entry
    /// becomes a new disk (unless its mount point holds a NUL byte); when `remove`
    /// holds, the disks the table did not name are dropped. When the table could not be
    /// opened nothing is dropped. Each disk's own storage and I/O figures are refreshed by
    /// the caller, with the disk's steps.
    pub fn refresh_mount_table(&mut self, table: Option<Vec<(MnttabEntry, Option<u64>)>>, remove: bool)
        ensures
            table is None ==> final(self).disks@.len() == old(self).disks@.len() && forall|i: int|
                0 <= i < final(self).disks@.len() ==> #[trigger] final(self).disks@[i] == (DiskInner {
                    updated: false,
                    ..old(self).disks@[i]
                }),
            table matches Some(t) ==> final(self).disks@ == if remove {
                kept_disks(mount_table_applied(cleared(old(self).disks@), t@))
            } else {
                mount_table_applied(cleared(old(self).disks@), t@)
            },
            table matches Some(t) ==> {
                &&& forall|j: int| 0 <= j < t@.len() && !contains_byte((#[trigger] t@[j]).0.mount_point@, 0u8)
                    ==> has_mount(final(self).disks@, t@[j].0.mount_point@)
                &&& forall|k: int| 0 <= k < final(self).disks@.len() ==> entry_at(
                    t@,
                    t@.len() as int,
                    (#[trigger] final(self).disks@[k]).mount_point@,
                ) || (!remove && has_mount(old(self).disks@, final(self).disks@[k].mount_point@))
                &&& mounts_distinct(old(self).disks@) ==> mounts_distinct(final(self).disks@)
            },
    {
        let ghost v0 = self.disks@;
        self.mark_all_not_updated();
        let t = match table {
            Some(t) => t,
            None => return,
        };
        let ghost all = t@;
        let n = t.len();
        let mut rest = t;
        let mut i: usize = 0;
        proof {
            assert(self.disks@ =~= cleared(v0));
            assert(all.take(0) =~= Seq::<(MnttabEntry, Option<u64>)>::empty());
            assert forall|k: int| 0 <= k < self.disks@.len() implies has_mount(v0, (#[trigger] self.disks@[k]).mount_point@) by {
                assert(self.disks@[k].mount_point == v0[k].mount_point);
            }
            if mounts_distinct(v0) {
                assert forall|a: int, b: int| 0 <= a < b < self.disks@.len() implies self.disks@[a].mount_point@
                    != self.disks@[b].mount_point@ by {
                    assert(self.disks@[a].mount_point == v0[a].mount_point);
                    assert(self.disks@[b].mount_point == v0[b].mount_point);
                }
            }
        }
        while i < n
            invariant
                i <= n == all.len(),
                rest@ == all.subrange(i as int, n as int),
                forall|j: int| 0 <= j < i && !contains_byte((#[trigger] all[j]).0.mount_point@, 0u8) ==> has_marked_mount(
                    self.disks@,
                    all[j].0.mount_point@,
                ),
                forall|k: int| 0 <= k < self.disks@.len() ==> ((#[trigger] self.disks@[k]).updated ==> entry_at(
                    all,
                    i as int,
                    self.disks@[k].mount_point@,
                )),
                forall|k: int| 0 <= k < self.disks@.len() ==> entry_at(all, i as int, (#[trigger] self.disks@[k]).mount_point@)
                    || has_mount(v0, self.disks@[k].mount_point@),
                mounts_distinct(v0) ==> mounts_distinct(self.disks@),
                self.disks@ == mount_table_applied(cleared(v0), all.take(i as int)),
            decreases n - i,
        {
            let (e, device_id) = rest.remove(0);
            proof {
                assert(all[i as int] == (e, device_id));
            }
            let ghost before = self.disks@;
            let ghost m = e.mount_point@;
            let ghost eg = e;
            proof {
                assert(all.take(i + 1).drop_last() =~= all.take(i as int));
                assert(all.take(i + 1).last() == (e, device_id));
                lemma_first_mount(before, m);
                assert forall|x: Seq<u8>| entry_at(all, i as int, x) implies entry_at(all, i + 1, x) by {
                    let j = choose|j: int| 0 <= j < i && (#[trigger] all[j]).0.mount_point@ == x;
                }
                assert(entry_at(all, i + 1, m)) by {
                    assert(all[i as int].0.mount_point@ == m);
                }
            }
            match self.find_mount(e.mount_point.as_slice()) {
                Some(k) => {
                    proof {
                        let f = first_mount(before, m);
                        if f < k {
                            assert(before[f].mount_point@ == m);
                        }
                        if k < f {
                            assert(before[k as int].mount_point@ == m);
                        }
                        assert(k == f);
                    }
                    self.update_existing(k, e);
                    proof {
                        assert(self.disks@ == mount_step(before, eg, device_id));
                        assert forall|q: int| 0 <= q < self.disks@.len() implies (#[trigger] self.disks@[q]).mount_point@
                            == before[q].mount_point@ by {}
                        assert(self.disks@[k as int].mount_point@ == m && self.disks@[k as int].updated);
                        assert(has_marked_mount(self.disks@, m));
                    }
                },
                None => {
                    proof {
                        let f = first_mount(before, m);
                        if f < before.len() {
                            assert(before[f].mount_point@ == m);
                        }
                    }
                    let added = self.add_disk(e, device_id);
                    proof {
                        assert(self.disks@ == mount_step(before, eg, device_id));
                        if added {
                            assert(self.disks@[before.len() as int].mount_point@ == m);
                            assert(self.disks@[before.len() as int].updated);
                            assert(has_marked_mount(self.disks@, m));
                        }
                    }
                },
            }
            proof {
                assert(!contains_byte(m, 0u8) ==> has_marked_mount(self.disks@, m));
                assert forall|j: int| 0 <= j < i + 1 && !contains_byte((#[trigger] all[j]).0.mount_point@, 0u8) implies has_marked_mount(
                    self.disks@,
                    all[j].0.mount_point@,
                ) by {
                    if j < i {
                        let q = choose|q: int| 0 <= q < before.len() && (#[trigger] before[q]).mount_point@ == all[j].0.mount_point@ && before[q].updated;
                        assert(self.disks@[q].mount_point@ == before[q].mount_point@);
                        assert(self.disks@[q].updated);
                    } else {
                        assert(all[j].0.mount_point@ == m);
                    }
                }
                assert forall|k: int| 0 <= k < self.disks@.len() implies ((#[trigger] self.disks@[k]).updated ==> entry_at(
                    all,
                    i + 1,
                    self.disks@[k].mount_point@,
                )) && (entry_at(all, i + 1, self.disks@[k].mount_point@) || has_mount(v0, self.disks@[k].mount_point@)) by {
                    if k < before.len() {
                        assert(self.disks@[k].mount_point@ == before[k].mount_point@);
                        if self.disks@[k].updated && !before[k].updated {
                            assert(self.disks@[k].mount_point@ == m);
                        }
                    } else {
                        assert(self.disks@[k].mount_point@ == m);
                    }
                }
                if mounts_distinct(v0) {
                    assert forall|a: int, b: int| 0 <= a < b < self.disks@.len() implies self.disks@[a].mount_point@
                        != self.disks@[b].mount_point@ by {
                        if b < before.len() {
                            assert(self.disks@[a].mount_point@ == before[a].mount_point@);
                            assert(self.disks@[b].mount_point@ == before[b].mount_point@);
                        } else {
                            assert(self.disks@[a].mount_point@ == before[a].mount_point@);
                            assert(self.disks@[b].mount_point@ == m);
                        }
                    }
                }
            }
            i = i + 1;
        }
        let ghost b = self.disks@;
        proof {
            assert(all.take(n as int) =~= all);
        }
        if remove {
            self.remove_not_updated();
            proof {
                lemma_kept_disks(b);
                let r = self.disks@;
                assert forall|j: int| 0 <= j < all.len() && !contains_byte((#[trigger] all[j]).0.mount_point@, 0u8) implies has_mount(
                    r,
                    all[j].0.mount_point@,
                ) by {
                    let q = choose|q: int| 0 <= q < b.len() && (#[trigger] b[q]).mount_point@ == all[j].0.mount_point@ && b[q].updated;
                    assert(has_mount(r, b[q].mount_point@));
                }
                assert forall|k: int| 0 <= k < r.len() implies entry_at(all, all.len() as int, (#[trigger] r[k]).mount_point@) by {
                    lemma_kept_disks_from(b, k);
                    let x = choose|x: int| 0 <= x < b.len() && r[k] == b[x];
                    assert(r[k].updated);
                    assert(b[x].updated);
                }
                if mounts_distinct(v0) {
                    assert forall|a: int, c: int| 0 <= a < c < r.len() implies r[a].mount_point@ != r[c].mount_point@ by {
                        assert(kept_in_order(b, a, c));
                        let (x, y) = choose|x: int, y: int| #![trigger b[x], b[y]] 0 <= x < y < b.len() && r[a] == b[x] && r[c] == b[y];
                    }
                }
            }
        } else {
            proof {
                assert forall|j: int| 0 <= j < all.len() && !contains_byte((#[trigger] all[j]).0.mount_point@, 0u8) implies has_mount(
                    b,
                    all[j].0.mount_point@,
                ) by {
                    let q = choose|q: int| 0 <= q < b.len() && (#[trigger] b[q]).mount_point@ == all[j].0.mount_point@ && b[q].updated;
                }
            }
        }
    }
}


// ---------------------------------------------------------------------------
// The GPU list
// ---------------------------------------------------------------------------

/// A GPU of the device tree: its PCI location, its vendor and model names, and whether
/// the last walk of the tree saw it.
pub struct IllumosGpu {
    pub pci: PCI,
    pub vendor: Option<String>,
    pub model: Option<String>,
    pub updated: bool,
}

/// The GPUs found in the device tree.
pub struct IllumosGpus {
    pub gpus: Vec<IllumosGpu>,
}

/// The PCI location that `pci_from_reg` reads from `reg`.
pub open spec fn spec_pci_from_reg(reg: u32) -> PCI {
    PCI {
        domain: 0,
        bus: ((reg / 0x10000) % 0x100) as u32,
        device: ((reg / 0x800) % 0x20) as u32,
        function: ((reg / 0x100) % 0x8) as u32,
    }
}

/// The position of the first GPU of `v` at `pci` from `i` on, or the length of `v`.
pub open spec fn first_gpu_from(v: Seq<IllumosGpu>, pci: PCI, i: int) -> int
    decreases v.len() - i,
{
    if i < 0 || i >= v.len() {
        v.len() as int
    } else if v[i].pci == pci {
        i
    } else {
        first_gpu_from(v, pci, i + 1)
    }
}

proof fn lemma_first_gpu_from(v: Seq<IllumosGpu>, pci: PCI, i: int)
    requires
        0 <= i <= v.len(),
    ensures
        i <= first_gpu_from(v, pci, i) <= v.len(),
        first_gpu_from(v, pci, i) < v.len() ==> v[first_gpu_from(v, pci, i)].pci == pci,
        forall|j: int| i <= j < first_gpu_from(v, pci, i) ==> (#[trigger] v[j]).pci != pci,
    decreases v.len() - i,
{
    if i < v.len() && v[i].pci != pci {
        lemma_first_gpu_from(v, pci, i + 1);
    }
}

/// Whether no two GPUs of `v` are at the same PCI location.
pub open spec fn gpu_pcis_distinct(v: Seq<IllumosGpu>) -> bool {
    forall|a: int, b: int| 0 <= a < b < v.len() ==> v[a].pci != v[b].pci
}

/// The GPU made for a display controller not listed yet: the names that the PCI ID
/// database gives, else the known name of the vendor and the `model` property.
pub open spec fn spec_new_gpu(
    pci: PCI,
    database: (Option<String>, Option<String>),
    known_vendor: Option<String>,
    model_property: Option<String>,
) -> IllumosGpu {
    IllumosGpu {
        pci,
        vendor: if database.0 is Some { database.0 } else { known_vendor },
        model: if database.1 is Some { database.1 } else { model_property },
        updated: true,
    }
}

/// The vendor and device ids of a node, each cut to 16 bits, when it has both.
pub fn node_ids(vendor_id: Option<u32>, device_id: Option<u32>) -> (r: Option<(u32, u32)>)
    ensures
        r == match (vendor_id, device_id) {
            (Some(v), Some(d)) => Some(((v % 0x10000) as u32, (d % 0x10000) as u32)),
            _ => None,
        },
{
    match (vendor_id, device_id) {
        (Some(v), Some(d)) => {
            let a = v & 0xffff;
            let b = d & 0xffff;
            assert(a == v % 0x10000 && b == d % 0x10000) by (bit_vector)
                requires
                    a == v & 0xffff,
                    b == d & 0xffff,
            ;
            Some((a, b))
        },
        _ => None,
    }
}

/// The GPU made for a display controller not listed yet (see `spec_new_gpu`).
pub fn new_gpu(
    pci: PCI,
    database: (Option<String>, Option<String>),
    known_vendor: Option<String>,
    model_property: Option<String>,
) -> (r: IllumosGpu)
    ensures
        r == spec_new_gpu(pci, database, known_vendor, model_property),
{
    let (db_vendor, db_model) = database;
    let vendor = match db_vendor {
        Some(v) => Some(v),
        None => known_vendor,
    };
    let model = match db_model {
        Some(m) => Some(m),
        None => model_property,
    };
    IllumosGpu { pci, vendor, model, updated: true }
}

impl IllumosGpus {
    /// No GPU yet.
    pub fn new() -> (r: IllumosGpus)
        ensures
            r.gpus@.len() == 0,
    {
        IllumosGpus { gpus: Vec::new() }
    }

    /// Takes a node of the device tree, with its `class-code` and `reg` properties: a
    /// display controller at a location already listed marks that GPU; at another
    /// location, the location is returned, for the caller to read the names of the GPU
    /// and hand it to `push_gpu`. Any other node changes nothing.
    pub fn mark_node(&mut self, class_code: Option<u32>, reg: Option<u32>) -> (r: Option<PCI>)
        ensures
            ({
                let wanted = class_code matches Some(c) && (c / 0x10000) % 0x100 == 3 && reg is Some;
                let p = spec_pci_from_reg(reg.unwrap());
                let k = first_gpu_from(old(self).gpus@, p, 0);
                &&& !wanted ==> r is None && final(self).gpus@ == old(self).gpus@
                &&& wanted && k < old(self).gpus@.len() ==> r is None && final(self).gpus@ == old(self).gpus@.update(
                    k,
                    IllumosGpu { updated: true, ..old(self).gpus@[k] },
                )
                &&& wanted && k >= old(self).gpus@.len() ==> r == Some(p) && final(self).gpus@ == old(self).gpus@
            }),
            r matches Some(p) ==> forall|j: int| 0 <= j < old(self).gpus@.len() ==> (#[trigger] old(self).gpus@[j]).pci != p,
    {
        let c = match class_code {
            Some(c) => c,
            None => return None,
        };
        if !is_display_controller(c) {
            return None;
        }
        let rg = match reg {
            Some(x) => x,
            None => return None,
        };
        let pci = pci_from_reg(rg);
        let ghost v = self.gpus@;
        proof {
            lemma_first_gpu_from(v, pci, 0);
            assert(pci == spec_pci_from_reg(rg));
        }
        let mut i: usize = 0;
        while i < self.gpus.len()
            invariant
                self.gpus@ == v,
                v == old(self).gpus@,
                pci == spec_pci_from_reg(rg),
                reg == Some(rg),
                class_code == Some(c),
                (c / 0x10000) % 0x100 == 3,
                i <= v.len(),
                first_gpu_from(v, pci, i as int) == first_gpu_from(v, pci, 0),
            decreases v.len() - i,
        {
            if self.gpus[i].pci == pci {
                proof {
                    assert(first_gpu_from(v, pci, i as int) == i);
                }
                self.gpus[i].updated = true;
                proof {
                    assert(self.gpus@ =~= v.update(i as int, IllumosGpu { updated: true, ..v[i as int] }));
                }
                return None;
            }
            i = i + 1;
        }
        Some(pci)
    }

    /// Appends a GPU found at a location not listed yet.
    pub fn push_gpu(&mut self, g: IllumosGpu)
        ensures
            final(self).gpus@ == old(self).gpus@.push(g),
            gpu_pcis_distinct(old(self).gpus@) && (forall|j: int| 0 <= j < old(self).gpus@.len() ==> (#[trigger] old(self).gpus@[j]).pci
                != g.pci) ==> gpu_pcis_distinct(final(self).gpus@),
    {
        self.gpus.push(g);
        proof {
            let v = old(self).gpus@;
            let w = self.gpus@;
            if gpu_pcis_distinct(v) && (forall|j: int| 0 <= j < v.len() ==> (#[trigger] v[j]).pci != g.pci) {
                assert forall|a: int, b: int| 0 <= a < b < w.len() implies w[a].pci != w[b].pci by {
                    assert(w[a] == v[a]);
                    if b < v.len() {
                        assert(w[b] == v[b]);
                    }
                }
            }
        }
    }
}

/// Marking the nodes of a walk keeps the GPUs at distinct locations: the location a node
/// returns is listed by no GPU yet.
pub proof fn marked_nodes_keep_gpus_distinct(v: Seq<IllumosGpu>, k: int)
    requires
        gpu_pcis_distinct(v),
        0 <= k < v.len(),
    ensures
        gpu_pcis_distinct(v.update(k, IllumosGpu { updated: true, ..v[k] })),
{
    let w = v.update(k, IllumosGpu { updated: true, ..v[k] });
    assert forall|a: int, b: int| 0 <= a < b < w.len() implies w[a].pci != w[b].pci by {
        assert(w[a].pci == v[a].pci && w[b].pci == v[b].pci);
    }
}

} // verus!
