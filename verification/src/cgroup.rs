//! Control-group (cgroup) memory limits: parsing `/proc/<pid>/cgroup` and
//! `/proc/<pid>/mountinfo`, choosing the directories where the memory
//! controller files live, and computing the limits from their contents.
use vstd::prelude::*;
use vstd::string::StringSliceAdditionalSpecFns;
use crate::text::{
    joined, join_extra, lemma_lines_of_joined,
    views, find_from, lemma_find_from, find_byte_from, split_on, split_bytes, has_piece,
    any_piece_eq, spec_lines, lines, copy_range, bytes_eq, is_valid_utf8, trim, trim_start,
    trim_range, trim_start_index, spec_parse_u64, parse_u64_range,
};
use crate::path::{
    has_root, body_comps, join_slash, body_components, join_slash_components, components,
    spec_join, spec_strip_prefix, join, strip_prefix, path_eq, opt_bytes,
};

verus! {

// ---------------------------------------------------------------------------
// Octal escapes
// ---------------------------------------------------------------------------

/// Whether `b` is an ASCII octal digit.
pub open spec fn is_octal(b: u8) -> bool {
    0x30 <= b <= 0x37
}

/// Whether all bytes of `s` are octal digits.
pub open spec fn all_octal(s: Seq<u8>) -> bool {
    forall|i: int| 0 <= i < s.len() ==> is_octal(#[trigger] s[i])
}

/// The value of a string of octal digits.
pub open spec fn octal_value(s: Seq<u8>) -> nat
    decreases s.len(),
{
    if s.len() == 0 {
        0
    } else {
        octal_value(s.drop_last()) * 8 + (s.last() - 0x30) as nat
    }
}

/// Whether reading the octal digits of `s` one by one into a byte never goes past
/// 255 (past it, the byte arithmetic overflows and panics).
pub open spec fn octal_fits(s: Seq<u8>) -> bool {
    forall|k: int| 0 <= k <= s.len() ==> (all_octal(#[trigger] s.take(k)) ==> octal_value(s.take(k)) <= 255)
}

/// The byte that a string of octal digits stands for, if all its bytes are octal digits.
pub open spec fn spec_decode_octal(s: Seq<u8>) -> Option<u8> {
    if all_octal(s) {
        Some(octal_value(s) as u8)
    } else {
        None
    }
}

/// The byte written by the octal digits in `digits`, or `None` when one of them is
/// not an octal digit.
pub fn decode_octal_escape(digits: &[u8]) -> (r: Option<u8>)
    requires
        octal_fits(digits@),
    ensures
        r == spec_decode_octal(digits@),
{
    let mut value: u8 = 0;
    let mut i: usize = 0;
    while i < digits.len()
        invariant
            i <= digits@.len(),
            octal_fits(digits@),
            all_octal(digits@.take(i as int)),
            value as nat == octal_value(digits@.take(i as int)),
        decreases digits@.len() - i,
    {
        let d = digits[i];
        if !(0x30 <= d && d <= 0x37) {
            proof {
                assert(!is_octal(digits@[i as int]));
            }
            return None;
        }
        proof {
            let t = digits@.take(i + 1);
            assert(t.drop_last() =~= digits@.take(i as int));
            assert(all_octal(t));
            assert(octal_value(t) <= 255);
        }
        value = value * 8 + (d - 0x30);
        i = i + 1;
    }
    proof {
        assert(digits@.take(digits@.len() as int) =~= digits@);
    }
    Some(value)
}

/// The byte of the escape `\ooo` at `pos`, if one stands there.
pub open spec fn escape_at(b: Seq<u8>, pos: int) -> Option<u8> {
    if 0 <= pos && pos + 3 < b.len() && b[pos] == 0x5cu8 {
        spec_decode_octal(b.subrange(pos + 1, pos + 4))
    } else {
        None
    }
}

/// `b[pos..]` with each escape `\ooo` replaced by the byte it stands for.
pub open spec fn decode_from(b: Seq<u8>, pos: int) -> Seq<u8>
    decreases b.len() - pos,
{
    if pos < 0 || pos >= b.len() {
        seq![]
    } else {
        match escape_at(b, pos) {
            Some(v) => seq![v] + decode_from(b, pos + 4),
            None => seq![b[pos]] + decode_from(b, pos + 1),
        }
    }
}

/// Whether every escape `\ooo` in `b` stands for a byte (the decoding panics otherwise).
pub open spec fn escapes_fit(b: Seq<u8>) -> bool {
    forall|i: int| 0 <= i && i + 3 < b.len() && b[i] == 0x5cu8 ==> octal_fits(#[trigger] b.subrange(i + 1, i + 4))
}

/// The decoded path: the escapes replaced when the result is valid UTF-8, the
/// bytes unchanged otherwise.
pub open spec fn spec_decode_cgroup_path(b: Seq<u8>) -> Seq<u8> {
    let d = decode_from(b, 0);
    if vstd::utf8::valid_utf8(d) {
        d
    } else {
        b
    }
}

/// Decodes the octal escapes (`\040` for a space) that the kernel writes in
/// mountinfo paths.
pub fn decode_cgroup_path(path: &[u8]) -> (r: Vec<u8>)
    requires
        escapes_fit(path@),
    ensures
        r@ == spec_decode_cgroup_path(path@),
{
    let mut decoded: Vec<u8> = Vec::new();
    let mut pos: usize = 0;
    while pos < path.len()
        invariant
            pos <= path@.len(),
            escapes_fit(path@),
            decoded@ + decode_from(path@, pos as int) == decode_from(path@, 0),
        decreases path@.len() - pos,
    {
        let ghost before = decoded@;
        if path[pos] == 0x5c && path.len() - pos > 3 {
            let digits = copy_range(path, pos + 1, pos + 4);
            proof {
                assert(octal_fits(path@.subrange(pos + 1, pos + 4)));
            }
            let v = decode_octal_escape(digits.as_slice());
            if let Some(value) = v {
                decoded.push(value);
                proof {
                    assert(decode_from(path@, pos as int) == seq![value] + decode_from(
                        path@,
                        pos + 4,
                    ));
                    assert(before + (seq![value] + decode_from(path@, pos + 4)) =~= decoded@
                        + decode_from(path@, pos + 4));
                }
                pos = pos + 4;
                continue;
            }
        }
        decoded.push(path[pos]);
        proof {
            assert(escape_at(path@, pos as int) is None);
            assert(decode_from(path@, pos as int) == seq![path@[pos as int]] + decode_from(
                path@,
                pos + 1,
            ));
            assert(before + (seq![path@[pos as int]] + decode_from(path@, pos + 1)) =~= decoded@
                + decode_from(path@, pos + 1));
        }
        pos = pos + 1;
    }
    proof {
        assert(decoded@ + Seq::<u8>::empty() =~= decoded@);
    }
    if is_valid_utf8(decoded.as_slice()) {
        decoded
    } else {
        copy_range(path, 0, path.len())
    }
}

// ---------------------------------------------------------------------------
// Normalizing paths
// ---------------------------------------------------------------------------

/// A cgroup path relative to its hierarchy's root: an absolute path loses its
/// root (`Path::strip_prefix("/")`); any other path stays as it is.
pub open spec fn spec_normalize_cgroup_path(p: Seq<u8>) -> Seq<u8> {
    if has_root(p) {
        join_slash(body_comps(p))
    } else {
        p
    }
}

/// A mountinfo path, decoded, then made relative as `spec_normalize_cgroup_path` does.
pub open spec fn spec_normalize_mountinfo_path(p: Seq<u8>) -> Seq<u8> {
    spec_normalize_cgroup_path(spec_decode_cgroup_path(p))
}

/// Makes a cgroup path relative to the root of its hierarchy.
pub fn normalize_cgroup_path(path: &[u8]) -> (r: Vec<u8>)
    ensures
        r@ == spec_normalize_cgroup_path(path@),
{
    if path.len() > 0 && path[0] == 0x2f {
        let c = body_components(path);
        join_slash_components(&c)
    } else {
        let r = copy_range(path, 0, path.len());
        proof {
            assert(path@.subrange(0, path@.len() as int) =~= path@);
        }
        r
    }
}

/// Decodes a mountinfo path and makes it relative to the root.
pub fn normalize_mountinfo_path(path: &[u8]) -> (r: Vec<u8>)
    requires
        escapes_fit(path@),
    ensures
        r@ == spec_normalize_mountinfo_path(path@),
{
    let decoded = decode_cgroup_path(path);
    normalize_cgroup_path(decoded.as_slice())
}

// ---------------------------------------------------------------------------
// /proc/<pid>/cgroup
// ---------------------------------------------------------------------------

/// The word `memory`.
pub open spec fn memory_word() -> Seq<u8> {
    seq![0x6du8, 0x65u8, 0x6du8, 0x6fu8, 0x72u8, 0x79u8]
}

fn memory_bytes() -> (r: Vec<u8>)
    ensures
        r@ == memory_word(),
{
    let mut r: Vec<u8> = Vec::new();
    r.push(0x6d);
    r.push(0x65);
    r.push(0x6d);
    r.push(0x6f);
    r.push(0x72);
    r.push(0x79);
    proof {
        assert(r@ =~= memory_word());
    }
    r
}

/// The cgroup of a process: its path in the unified (v2) hierarchy and in the
/// v1 hierarchy of the memory controller, each relative to the hierarchy root.
#[derive(Debug, Default, Clone, PartialEq, Eq)]
pub struct CGroupPath {
    pub v2: Option<Vec<u8>>,
    pub v1_memory: Option<Vec<u8>>,
}

/// The contents of an optional byte vector.
pub open spec fn opt_view(o: Option<Vec<u8>>) -> Option<Seq<u8>> {
    match o {
        Some(v) => Some(v@),
        None => None,
    }
}

impl CGroupPath {
    /// The two paths, as plain values.
    pub open spec fn view(&self) -> (Option<Seq<u8>>, Option<Seq<u8>>) {
        (opt_view(self.v2), opt_view(self.v1_memory))
    }

    /// Whether neither hierarchy holds a path.
    pub fn is_empty(&self) -> (r: bool)
        ensures
            r == (self.v2 is None && self.v1_memory is None),
    {
        self.v2.is_none() && self.v1_memory.is_none()
    }
}

/// What one line `hierarchy-ID:controller-list:cgroup-path` of `/proc/<pid>/cgroup`
/// makes of the paths found so far: the line `0::path` gives the v2 path, a line
/// whose controllers include `memory` gives the v1 memory path, and other lines
/// (or lines with fewer than two `:`) change nothing.
pub open spec fn cgroup_line_step(acc: (Option<Seq<u8>>, Option<Seq<u8>>), line: Seq<u8>) -> (
    Option<Seq<u8>>,
    Option<Seq<u8>>,
) {
    let f1 = find_from(line, 0x3au8, 0);
    if f1 >= line.len() {
        acc
    } else {
        let f2 = find_from(line, 0x3au8, f1 + 1);
        if f2 >= line.len() {
            acc
        } else {
            let id = line.subrange(0, f1);
            let controllers = line.subrange(f1 + 1, f2);
            let path = line.subrange(f2 + 1, line.len() as int);
            if id == seq![0x30u8] && controllers.len() == 0 {
                (Some(spec_normalize_cgroup_path(path)), acc.1)
            } else if has_piece(controllers, 0x2cu8, memory_word()) {
                (acc.0, Some(spec_normalize_cgroup_path(path)))
            } else {
                acc
            }
        }
    }
}

/// The paths that the lines give, processed in order.
pub open spec fn cgroup_path_of(lines: Seq<Seq<u8>>) -> (Option<Seq<u8>>, Option<Seq<u8>>)
    decreases lines.len(),
{
    if lines.len() == 0 {
        (None, None)
    } else {
        cgroup_line_step(cgroup_path_of(lines.drop_last()), lines.last())
    }
}

/// The paths that the contents of `/proc/<pid>/cgroup` give.
pub open spec fn spec_parse_cgroup_path(content: Seq<u8>) -> (Option<Seq<u8>>, Option<Seq<u8>>) {
    cgroup_path_of(spec_lines(content))
}

/// Parses the contents of `/proc/<pid>/cgroup`.
pub fn parse_cgroup_path(content: &str) -> (r: CGroupPath)
    ensures
        r.view() == spec_parse_cgroup_path(content.spec_bytes()),
{
    let bytes = content.as_bytes();
    let all = lines(bytes);
    let memory = memory_bytes();
    let mut cgroup_path = CGroupPath { v2: None, v1_memory: None };
    let mut i: usize = 0;
    while i < all.len()
        invariant
            i <= all@.len(),
            views(all@) == spec_lines(bytes@),
            memory@ == memory_word(),
            cgroup_path.view() == cgroup_path_of(views(all@).take(i as int)),
        decreases all@.len() - i,
    {
        let line = all[i].as_slice();
        proof {
            let t = views(all@).take(i + 1);
            assert(t.drop_last() =~= views(all@).take(i as int));
            assert(t.last() == line@);
        }
        let f1 = find_byte_from(line, 0x3a, 0);
        if f1 < line.len() {
            let f2 = find_byte_from(line, 0x3a, f1 + 1);
            if f2 < line.len() {
                let path = copy_range(line, f2 + 1, line.len());
                let controllers = copy_range(line, f1 + 1, f2);
                if f1 == 1 && line[0] == 0x30 && f2 == f1 + 1 {
                    proof {
                        assert(line@.subrange(0, f1 as int) =~= seq![0x30u8]);
                    }
                    cgroup_path.v2 = Some(normalize_cgroup_path(path.as_slice()));
                } else {
                    proof {
                        if line@.subrange(0, f1 as int) == seq![0x30u8] {
                            assert(line@.subrange(0, f1 as int).len() == 1);
                            assert(line@.subrange(0, f1 as int)[0] == line@[0]);
                        }
                    }
                    if any_piece_eq(controllers.as_slice(), 0x2c, memory.as_slice()) {
                        cgroup_path.v1_memory = Some(normalize_cgroup_path(path.as_slice()));
                    }
                }
            }
        }
        i = i + 1;
    }
    proof {
        assert(views(all@).take(all@.len() as int) =~= views(all@));
    }
    cgroup_path
}

/// The cgroup of a process from the contents of `/proc/<pid>/cgroup`, or `None`
/// when it names neither a v2 path nor a v1 memory path.
pub fn get_cgroup_path(content: &str) -> (r: Option<CGroupPath>)
    ensures
        match r {
            Some(p) => p.view() == spec_parse_cgroup_path(content.spec_bytes()) && !(p.v2 is None
                && p.v1_memory is None),
            None => spec_parse_cgroup_path(content.spec_bytes()) == (
                None::<Seq<u8>>,
                None::<Seq<u8>>,
            ),
        },
{
    let cgroup_path = parse_cgroup_path(content);
    if cgroup_path.is_empty() {
        return None;
    }
    Some(cgroup_path)
}

// ---------------------------------------------------------------------------
// /proc/<pid>/mountinfo
// ---------------------------------------------------------------------------

/// A mounted cgroup hierarchy: the directory of the hierarchy that is mounted
/// (relative to the hierarchy root) and where it is mounted.
#[derive(Debug, Clone, PartialEq, Eq)]
pub struct CGroupMount {
    pub root: Vec<u8>,
    pub mount_point: Vec<u8>,
}

/// The mounted v2 hierarchies and the mounted v1 hierarchies of the memory controller.
#[derive(Debug, Default, Clone, PartialEq, Eq)]
pub struct CGroupMounts {
    pub v2: Vec<CGroupMount>,
    pub v1_memory: Vec<CGroupMount>,
}

/// A mount as a pair of plain values.
pub open spec fn mount_view(m: CGroupMount) -> (Seq<u8>, Seq<u8>) {
    (m.root@, m.mount_point@)
}

/// A list of mounts as plain values.
pub open spec fn mounts_view(v: Seq<CGroupMount>) -> Seq<(Seq<u8>, Seq<u8>)> {
    v.map_values(|m: CGroupMount| mount_view(m))
}

impl CGroupMounts {
    /// Both lists, as plain values.
    pub open spec fn view(&self) -> (Seq<(Seq<u8>, Seq<u8>)>, Seq<(Seq<u8>, Seq<u8>)>) {
        (mounts_view(self.v2@), mounts_view(self.v1_memory@))
    }
}

/// The first index at or after `i` where `f` holds `t`, or `f.len()`.
pub open spec fn find_piece_from(f: Seq<Seq<u8>>, t: Seq<u8>, i: int) -> int
    decreases f.len() - i,
{
    if i >= f.len() {
        f.len() as int
    } else if f[i] == t {
        i
    } else {
        find_piece_from(f, t, i + 1)
    }
}

proof fn lemma_find_piece_from(f: Seq<Seq<u8>>, t: Seq<u8>, i: int)
    requires
        0 <= i <= f.len(),
    ensures
        i <= find_piece_from(f, t, i) <= f.len(),
        find_piece_from(f, t, i) < f.len() ==> f[find_piece_from(f, t, i)] == t,
    decreases f.len() - i,
{
    if i < f.len() && f[i] != t {
        lemma_find_piece_from(f, t, i + 1);
    }
}

/// The separator `-` of the optional fields.
pub open spec fn dash_word() -> Seq<u8> {
    seq![0x2du8]
}

/// The file system type `cgroup2`.
pub open spec fn cgroup2_word() -> Seq<u8> {
    seq![0x63u8, 0x67u8, 0x72u8, 0x6fu8, 0x75u8, 0x70u8, 0x32u8]
}

/// The file system type `cgroup`.
pub open spec fn cgroup_word() -> Seq<u8> {
    seq![0x63u8, 0x67u8, 0x72u8, 0x6fu8, 0x75u8, 0x70u8]
}

/// The fields of a mountinfo line that matter: the root, the mount point, the file
/// system type and the super options; `None` when the line lacks one of the six
/// leading fields, the `-` separator, or one of the three fields after it.
pub open spec fn mount_fields(line: Seq<u8>) -> Option<(Seq<u8>, Seq<u8>, Seq<u8>, Seq<u8>)> {
    let f = split_on(line, 0x20u8);
    if f.len() < 6 {
        None
    } else {
        let j = find_piece_from(f, dash_word(), 6);
        if j + 3 < f.len() {
            Some((f[3], f[4], f[j + 1], f[j + 3]))
        } else {
            None
        }
    }
}

/// What one mountinfo line adds to the mounts found so far: a `cgroup2` mount to
/// the v2 list, a `cgroup` mount whose super options include `memory` to the v1 list.
pub open spec fn mount_line_step(
    acc: (Seq<(Seq<u8>, Seq<u8>)>, Seq<(Seq<u8>, Seq<u8>)>),
    line: Seq<u8>,
) -> (Seq<(Seq<u8>, Seq<u8>)>, Seq<(Seq<u8>, Seq<u8>)>) {
    match mount_fields(line) {
        None => acc,
        Some(fields) => {
            let m = (
                spec_normalize_mountinfo_path(fields.0),
                spec_decode_cgroup_path(fields.1),
            );
            if fields.2 == cgroup2_word() {
                (acc.0.push(m), acc.1)
            } else if fields.2 == cgroup_word() && has_piece(fields.3, 0x2cu8, memory_word()) {
                (acc.0, acc.1.push(m))
            } else {
                acc
            }
        },
    }
}

/// The mounts that the lines give, processed in order.
pub open spec fn mounts_of(lines: Seq<Seq<u8>>) -> (Seq<(Seq<u8>, Seq<u8>)>, Seq<(Seq<u8>, Seq<u8>)>)
    decreases lines.len(),
{
    if lines.len() == 0 {
        (seq![], seq![])
    } else {
        mount_line_step(mounts_of(lines.drop_last()), lines.last())
    }
}

/// The mounts that the contents of `/proc/<pid>/mountinfo` give.
pub open spec fn spec_parse_cgroup_mounts(content: Seq<u8>) -> (
    Seq<(Seq<u8>, Seq<u8>)>,
    Seq<(Seq<u8>, Seq<u8>)>,
) {
    mounts_of(spec_lines(content))
}

/// Whether the paths that parsing decodes hold only escapes that stand for a byte.
pub open spec fn mounts_decodable(content: Seq<u8>) -> bool {
    forall|i: int|
        0 <= i < spec_lines(content).len() ==> match #[trigger] mount_fields(spec_lines(content)[i]) {
            Some(f) => escapes_fit(f.0) && escapes_fit(f.1),
            None => true,
        }
}

fn word(w: &[u8]) -> (r: Vec<u8>)
    ensures
        r@ == w@,
{
    let r = copy_range(w, 0, w.len());
    proof {
        assert(w@.subrange(0, w@.len() as int) =~= w@);
    }
    r
}

/// Parses the contents of `/proc/<pid>/mountinfo` into the mounted cgroup hierarchies.
pub fn parse_cgroup_mounts(content: &str) -> (r: CGroupMounts)
    requires
        mounts_decodable(content.spec_bytes()),
    ensures
        r.view() == spec_parse_cgroup_mounts(content.spec_bytes()),
{
    let bytes = content.as_bytes();
    let all = lines(bytes);
    let memory = memory_bytes();
    let mut dash: Vec<u8> = Vec::new();
    dash.push(0x2d);
    let mut cg: Vec<u8> = Vec::new();
    cg.push(0x63);
    cg.push(0x67);
    cg.push(0x72);
    cg.push(0x6f);
    cg.push(0x75);
    cg.push(0x70);
    let mut cg2 = word(cg.as_slice());
    cg2.push(0x32);
    proof {
        assert(dash@ =~= dash_word());
        assert(cg@ =~= cgroup_word());
        assert(cg2@ =~= cgroup2_word());
    }
    let mut mounts = CGroupMounts { v2: Vec::new(), v1_memory: Vec::new() };
    proof {
        assert(mounts.view().0 =~= Seq::<(Seq<u8>, Seq<u8>)>::empty());
        assert(mounts.view().1 =~= Seq::<(Seq<u8>, Seq<u8>)>::empty());
    }
    let mut i: usize = 0;
    while i < all.len()
        invariant
            i <= all@.len(),
            views(all@) == spec_lines(bytes@),
            bytes@ == content.spec_bytes(),
            mounts_decodable(content.spec_bytes()),
            memory@ == memory_word(),
            dash@ == dash_word(),
            cg@ == cgroup_word(),
            cg2@ == cgroup2_word(),
            mounts.view() == mounts_of(views(all@).take(i as int)),
        decreases all@.len() - i,
    {
        let line = all[i].as_slice();
        proof {
            let t = views(all@).take(i + 1);
            assert(t.drop_last() =~= views(all@).take(i as int));
            assert(t.last() == line@);
            assert(spec_lines(content.spec_bytes())[i as int] == line@);
        }
        let fields = split_bytes(line, 0x20);
        let ghost f = views(fields@);
        if fields.len() >= 6 {
            let mut j: usize = 6;
            while j < fields.len() && !bytes_eq(fields[j].as_slice(), dash.as_slice())
                invariant
                    6 <= j <= fields@.len(),
                    f == views(fields@),
                    dash@ == dash_word(),
                    find_piece_from(f, dash_word(), 6) == find_piece_from(f, dash_word(), j as int),
                decreases fields@.len() - j,
            {
                j = j + 1;
            }
            proof {
                lemma_find_piece_from(f, dash_word(), j as int);
                assert(j < fields@.len() ==> f[j as int] == dash_word());
            }
            if j < fields.len() && fields.len() - j > 3 {
                proof {
                    assert(mount_fields(line@) == Some((f[3], f[4], f[j + 1], f[j + 3])));
                }
                let root = normalize_mountinfo_path(fields[3].as_slice());
                let mount_point = decode_cgroup_path(fields[4].as_slice());
                let ghost m = (root@, mount_point@);
                let mount = CGroupMount { root, mount_point };
                let ghost before = mounts.view();
                if bytes_eq(fields[j + 1].as_slice(), cg2.as_slice()) {
                    mounts.v2.push(mount);
                    proof {
                        assert(mounts_view(mounts.v2@) =~= before.0.push(m));
                    }
                } else if bytes_eq(fields[j + 1].as_slice(), cg.as_slice()) && any_piece_eq(
                    fields[j + 3].as_slice(),
                    0x2c,
                    memory.as_slice(),
                ) {
                    mounts.v1_memory.push(mount);
                    proof {
                        assert(mounts_view(mounts.v1_memory@) =~= before.1.push(m));
                    }
                }
            } else {
                proof {
                    if j >= fields@.len() {
                        assert(find_piece_from(f, dash_word(), 6) == f.len());
                    }
                }
            }
        }
        i = i + 1;
    }
    proof {
        assert(views(all@).take(all@.len() as int) =~= views(all@));
    }
    mounts
}

fn octal_fits_exec(s: &[u8]) -> (r: bool)
    ensures
        r == octal_fits(s@),
{
    let n = s.len();
    let mut value: u32 = 0;
    let mut i: usize = 0;
    proof {
        assert(s@.take(0) =~= Seq::<u8>::empty());
    }
    while i < n
        invariant
            i <= n == s@.len(),
            all_octal(s@.take(i as int)),
            value as nat == octal_value(s@.take(i as int)),
            value <= 255,
            forall|k: int| 0 <= k <= i ==> (all_octal(#[trigger] s@.take(k)) ==> octal_value(s@.take(k)) <= 255),
        decreases n - i,
    {
        let d = s[i];
        if !(0x30 <= d && d <= 0x37) {
            proof {
                assert forall|k: int| 0 <= k <= s@.len() implies (all_octal(#[trigger] s@.take(k)) ==> octal_value(s@.take(k)) <= 255) by {
                    if k > i {
                        assert(s@.take(k)[i as int] == d);
                    }
                }
            }
            return true;
        }
        proof {
            let t = s@.take(i + 1);
            assert(t.drop_last() =~= s@.take(i as int));
            assert(all_octal(t));
        }
        value = value * 8 + (d - 0x30) as u32;
        if value > 255 {
            return false;
        }
        i = i + 1;
    }
    proof {
        assert forall|k: int| 0 <= k <= s@.len() implies (all_octal(#[trigger] s@.take(k)) ==> octal_value(s@.take(k)) <= 255) by {}
    }
    true
}

fn escapes_fit_exec(b: &[u8]) -> (r: bool)
    ensures
        r == escapes_fit(b@),
{
    let n = b.len();
    let mut i: usize = 0;
    while i < n
        invariant
            i <= n == b@.len(),
            forall|k: int| 0 <= k < i && k + 3 < b@.len() && b@[k] == 0x5cu8 ==> octal_fits(#[trigger] b@.subrange(k + 1, k + 4)),
        decreases n - i,
    {
        if b[i] == 0x5c && n - i > 3 {
            let digits = copy_range(b, i + 1, i + 4);
            if !octal_fits_exec(digits.as_slice()) {
                return false;
            }
        }
        i = i + 1;
    }
    true
}

/// Whether the paths of `content` (a mountinfo file) can be decoded: every escape
/// `\ooo` in them stands for a byte.
pub fn mounts_decodable_check(content: &str) -> (r: bool)
    ensures
        r == mounts_decodable(content.spec_bytes()),
{
    let bytes = content.as_bytes();
    let all = lines(bytes);
    let mut dash: Vec<u8> = Vec::new();
    dash.push(0x2d);
    proof {
        assert(dash@ =~= dash_word());
    }
    let mut i: usize = 0;
    while i < all.len()
        invariant
            i <= all@.len(),
            views(all@) == spec_lines(bytes@),
            bytes@ == content.spec_bytes(),
            dash@ == dash_word(),
            forall|k: int| 0 <= k < i ==> match #[trigger] mount_fields(spec_lines(bytes@)[k]) {
                Some(f) => escapes_fit(f.0) && escapes_fit(f.1),
                None => true,
            },
        decreases all@.len() - i,
    {
        let line = all[i].as_slice();
        proof {
            assert(spec_lines(bytes@)[i as int] == line@);
        }
        let fields = split_bytes(line, 0x20);
        let ghost f = views(fields@);
        if fields.len() >= 6 {
            let mut j: usize = 6;
            while j < fields.len() && !bytes_eq(fields[j].as_slice(), dash.as_slice())
                invariant
                    6 <= j <= fields@.len(),
                    f == views(fields@),
                    dash@ == dash_word(),
                    find_piece_from(f, dash_word(), 6) == find_piece_from(f, dash_word(), j as int),
                decreases fields@.len() - j,
            {
                j = j + 1;
            }
            proof {
                lemma_find_piece_from(f, dash_word(), j as int);
            }
            if j < fields.len() && fields.len() - j > 3 {
                proof {
                    assert(mount_fields(line@) == Some((f[3], f[4], f[j + 1], f[j + 3])));
                }
                if !escapes_fit_exec(fields[3].as_slice()) || !escapes_fit_exec(fields[4].as_slice()) {
                    proof {
                        assert(!match mount_fields(spec_lines(bytes@)[i as int]) {
                            Some(f) => escapes_fit(f.0) && escapes_fit(f.1),
                            None => true,
                        });
                    }
                    return false;
                }
            } else {
                proof {
                    if j >= fields@.len() {
                        assert(find_piece_from(f, dash_word(), 6) == f.len());
                    }
                    assert(mount_fields(line@) is None);
                }
            }
        } else {
            proof {
                assert(mount_fields(line@) is None);
            }
        }
        i = i + 1;
    }
    true
}

/// The mounted cgroup hierarchies from the contents of `/proc/<pid>/mountinfo`, when
/// it could be read.
pub fn get_cgroup_mounts(content: Option<&str>) -> (r: Option<CGroupMounts>)
    requires
        content matches Some(c) ==> mounts_decodable(c.spec_bytes()),
    ensures
        r is Some == content is Some,
        r matches Some(m) ==> m.view() == spec_parse_cgroup_mounts(content->0.spec_bytes()),
{
    match content {
        Some(c) => Some(parse_cgroup_mounts(c)),
        None => None,
    }
}

// ---------------------------------------------------------------------------
// Candidate directories
// ---------------------------------------------------------------------------

/// A directory where memory controller files may be found (`base`), with the
/// root of its hierarchy (`root`), where the search for limits stops.
#[derive(Debug, Clone, PartialEq, Eq)]
pub struct CGroupBase {
    pub base: Vec<u8>,
    pub root: Vec<u8>,
}

/// A base as a pair of plain values.
pub open spec fn base_view(b: CGroupBase) -> (Seq<u8>, Seq<u8>) {
    (b.base@, b.root@)
}

/// A list of bases as plain values.
pub open spec fn bases_view(v: Seq<CGroupBase>) -> Seq<(Seq<u8>, Seq<u8>)> {
    v.map_values(|b: CGroupBase| base_view(b))
}

impl CGroupBase {
    pub fn new(base: Vec<u8>, root: Vec<u8>) -> (r: Self)
        ensures
            r.base@ == base@,
            r.root@ == root@,
    {
        Self { base, root }
    }

    /// The root of a hierarchy as its own base.
    pub fn root(root: &[u8]) -> (r: Self)
        ensures
            r.base@ == root@,
            r.root@ == root@,
    {
        let b = copy_range(root, 0, root.len());
        let r = copy_range(root, 0, root.len());
        proof {
            assert(root@.subrange(0, root@.len() as int) =~= root@);
        }
        Self::new(b, r)
    }
}

/// `root` joined with `path`, or `root` itself when `path` is empty.
pub open spec fn spec_join_cgroup_path(root: Seq<u8>, path: Seq<u8>) -> Seq<u8> {
    if path.len() == 0 {
        root
    } else {
        spec_join(root, path)
    }
}

/// Joins a cgroup path to the directory of its hierarchy.
pub fn join_cgroup_path(root: &[u8], path: &[u8]) -> (r: Vec<u8>)
    ensures
        r@ == spec_join_cgroup_path(root@, path@),
{
    if path.len() == 0 {
        let r = copy_range(root, 0, root.len());
        proof {
            assert(root@.subrange(0, root@.len() as int) =~= root@);
        }
        return r;
    }
    join(root, path)
}

/// The base where the cgroup `cgroup_path` lies under `mount`: its path below the
/// mounted root, joined to the mount point. `None` when the cgroup does not lie
/// below the mounted root.
pub open spec fn spec_resolve_cgroup_base(cgroup_path: Seq<u8>, mount: (Seq<u8>, Seq<u8>)) -> Option<
    (Seq<u8>, Seq<u8>),
> {
    let relative = if mount.0.len() == 0 {
        Some(cgroup_path)
    } else {
        spec_strip_prefix(cgroup_path, mount.0)
    };
    match relative {
        Some(rel) => Some((spec_join_cgroup_path(mount.1, rel), mount.1)),
        None => None,
    }
}

/// The base of a cgroup under a mounted hierarchy, if the cgroup lies below it.
pub fn resolve_cgroup_base(cgroup_path: &[u8], mount: &CGroupMount) -> (r: Option<CGroupBase>)
    ensures
        match r {
            Some(b) => spec_resolve_cgroup_base(cgroup_path@, mount_view(*mount)) == Some(
                base_view(b),
            ),
            None => spec_resolve_cgroup_base(cgroup_path@, mount_view(*mount)) is None,
        },
{
    let relative = if mount.root.len() == 0 {
        let r = copy_range(cgroup_path, 0, cgroup_path.len());
        proof {
            assert(cgroup_path@.subrange(0, cgroup_path@.len() as int) =~= cgroup_path@);
        }
        r
    } else {
        match strip_prefix(cgroup_path, mount.root.as_slice()) {
            Some(r) => r,
            None => return None,
        }
    };
    let base = join_cgroup_path(mount.mount_point.as_slice(), relative.as_slice());
    let root = copy_range(mount.mount_point.as_slice(), 0, mount.mount_point.len());
    proof {
        assert(mount.mount_point@.subrange(0, mount.mount_point@.len() as int) =~= mount.mount_point@);
    }
    Some(CGroupBase::new(base, root))
}

/// Whether two bases are equal as paths (component by component).
pub open spec fn same_base(a: (Seq<u8>, Seq<u8>), b: (Seq<u8>, Seq<u8>)) -> bool {
    components(a.0) == components(b.0) && components(a.1) == components(b.1)
}

/// `bases` with `c` appended, unless an equal base is already there.
pub open spec fn spec_push_unique(bases: Seq<(Seq<u8>, Seq<u8>)>, c: (Seq<u8>, Seq<u8>)) -> Seq<
    (Seq<u8>, Seq<u8>),
> {
    if exists|i: int| 0 <= i < bases.len() && same_base(#[trigger] bases[i], c) {
        bases
    } else {
        bases.push(c)
    }
}

/// Appends a base unless an equal one is already in the list.
pub fn push_unique_base(bases: &mut Vec<CGroupBase>, candidate: CGroupBase)
    ensures
        bases_view(final(bases)@) == spec_push_unique(bases_view(old(bases)@), base_view(candidate)),
{
    let ghost v = bases_view(bases@);
    let mut i: usize = 0;
    while i < bases.len()
        invariant
            i <= bases@.len(),
            v == bases_view(bases@),
            forall|j: int| 0 <= j < i ==> !same_base(#[trigger] v[j], base_view(candidate)),
        decreases bases@.len() - i,
    {
        if path_eq(bases[i].base.as_slice(), candidate.base.as_slice()) && path_eq(
            bases[i].root.as_slice(),
            candidate.root.as_slice(),
        ) {
            proof {
                assert(same_base(v[i as int], base_view(candidate)));
            }
            return;
        }
        i = i + 1;
    }
    bases.push(candidate);
    proof {
        assert(bases_view(bases@) =~= v.push(base_view(candidate)));
    }
}

/// Whether no two bases of a list are equal as paths.
pub open spec fn distinct_bases(bases: Seq<(Seq<u8>, Seq<u8>)>) -> bool {
    forall|i: int, j: int| 0 <= i < j < bases.len() ==> !same_base(#[trigger] bases[i], #[trigger] bases[j])
}

/// The candidates in order, each dropped when an equal one came before.
pub open spec fn dedup_bases(c: Seq<(Seq<u8>, Seq<u8>)>) -> Seq<(Seq<u8>, Seq<u8>)>
    decreases c.len(),
{
    if c.len() == 0 {
        seq![]
    } else {
        spec_push_unique(dedup_bases(c.drop_last()), c.last())
    }
}

/// The bases of a cgroup under each mount below which it lies, in mount order.
pub open spec fn resolved_bases(cgroup_path: Seq<u8>, mounts: Seq<(Seq<u8>, Seq<u8>)>) -> Seq<
    (Seq<u8>, Seq<u8>),
>
    decreases mounts.len(),
{
    if mounts.len() == 0 {
        seq![]
    } else {
        let rest = resolved_bases(cgroup_path, mounts.drop_last());
        match spec_resolve_cgroup_base(cgroup_path, mounts.last()) {
            Some(b) => rest.push(b),
            None => rest,
        }
    }
}

/// The candidate bases of a cgroup: those under the mounts, then the cgroup under
/// the conventional root, then that root itself.
pub open spec fn spec_cgroup_bases_for_path(
    cgroup_path: Seq<u8>,
    mounts: Seq<(Seq<u8>, Seq<u8>)>,
    fallback_root: Seq<u8>,
) -> Seq<(Seq<u8>, Seq<u8>)> {
    dedup_bases(
        resolved_bases(cgroup_path, mounts) + seq![
            (spec_join_cgroup_path(fallback_root, cgroup_path), fallback_root),
            (fallback_root, fallback_root),
        ],
    )
}

/// Pushing without duplicates keeps a list free of duplicates.
pub proof fn push_unique_keeps_distinct(bases: Seq<(Seq<u8>, Seq<u8>)>, c: (Seq<u8>, Seq<u8>))
    requires
        distinct_bases(bases),
    ensures
        distinct_bases(spec_push_unique(bases, c)),
{
    if !(exists|i: int| 0 <= i < bases.len() && same_base(#[trigger] bases[i], c)) {
        let r = bases.push(c);
        assert forall|i: int, j: int| 0 <= i < j < r.len() implies !same_base(
            #[trigger] r[i],
            #[trigger] r[j],
        ) by {
            if j == bases.len() {
                assert(r[i] == bases[i]);
                if same_base(r[i], r[j]) {
                    assert(same_base(bases[i], c));
                }
            } else {
                assert(r[i] == bases[i] && r[j] == bases[j]);
            }
        }
    }
}

/// The mounts of the lines `x` then `y`: those of `x` followed by those of `y`.
proof fn lemma_mounts_of_concat(x: Seq<Seq<u8>>, y: Seq<Seq<u8>>)
    ensures
        mounts_of(x + y) == (mounts_of(x).0 + mounts_of(y).0, mounts_of(x).1 + mounts_of(y).1),
    decreases y.len(),
{
    if y.len() == 0 {
        assert(x + y =~= x);
        assert(mounts_of(x).0 + Seq::<(Seq<u8>, Seq<u8>)>::empty() =~= mounts_of(x).0);
        assert(mounts_of(x).1 + Seq::<(Seq<u8>, Seq<u8>)>::empty() =~= mounts_of(x).1);
    } else {
        let y1 = y.drop_last();
        lemma_mounts_of_concat(x, y1);
        assert((x + y).drop_last() =~= x + y1);
        assert((x + y).last() == y.last());
        let a = mounts_of(x);
        let b = mounts_of(y1);
        match mount_fields(y.last()) {
            None => {},
            Some(fields) => {
                let m = (spec_normalize_mountinfo_path(fields.0), spec_decode_cgroup_path(fields.1));
                assert((a.0 + b.0).push(m) =~= a.0 + b.0.push(m));
                assert((a.1 + b.1).push(m) =~= a.1 + b.1.push(m));
            },
        }
    }
}

/// An empty line gives no mount and no cgroup path.
proof fn lemma_empty_line_is_no_op()
    ensures
        mount_fields(Seq::<u8>::empty()) is None,
        forall|acc: (Option<Seq<u8>>, Option<Seq<u8>>)| #[trigger] cgroup_line_step(acc, Seq::<u8>::empty()) == acc,
{
    let e = Seq::<u8>::empty();
    assert(find_from(e, 0x20u8, 0) == 0);
    assert(crate::text::fields_from(e, 0x20u8, 0) == seq![e.subrange(0, 0)]);
    assert(split_on(e, 0x20u8).len() < 6);
}

/// Parsing two mountinfo texts joined by a newline gives the mounts of the first
/// followed by those of the second: the lines are read one by one, in order. (The
/// first must not end with a carriage return, which the newline would take away.)
pub proof fn mounts_of_joined_texts(a: Seq<u8>, b: Seq<u8>)
    requires
        a.len() == 0 || a.last() != 0x0du8,
    ensures
        spec_parse_cgroup_mounts(joined(a, b)) == (
            spec_parse_cgroup_mounts(a).0 + spec_parse_cgroup_mounts(b).0,
            spec_parse_cgroup_mounts(a).1 + spec_parse_cgroup_mounts(b).1,
        ),
{
    lemma_lines_of_joined(a, b);
    let la = crate::text::spec_lines(a);
    let lb = crate::text::spec_lines(b);
    let e = join_extra(a);
    lemma_empty_line_is_no_op();
    lemma_mounts_of_concat(la + e, lb);
    lemma_mounts_of_concat(la, e);
    if e.len() == 1 {
        assert(e.drop_last() =~= Seq::<Seq<u8>>::empty());
        assert(e.last() =~= Seq::<u8>::empty());
        assert(mounts_of(e) == mounts_of(Seq::<Seq<u8>>::empty()));
    }
    assert(mounts_of(e).0 =~= Seq::<(Seq<u8>, Seq<u8>)>::empty());
    assert(mounts_of(e).1 =~= Seq::<(Seq<u8>, Seq<u8>)>::empty());
    assert(mounts_of(la).0 + mounts_of(e).0 =~= mounts_of(la).0);
    assert(mounts_of(la).1 + mounts_of(e).1 =~= mounts_of(la).1);
}

/// The paths found in `y` where it found one, else those found in `x`.
pub open spec fn later_path(
    x: (Option<Seq<u8>>, Option<Seq<u8>>),
    y: (Option<Seq<u8>>, Option<Seq<u8>>),
) -> (Option<Seq<u8>>, Option<Seq<u8>>) {
    (
        if y.0 is Some { y.0 } else { x.0 },
        if y.1 is Some { y.1 } else { x.1 },
    )
}

proof fn lemma_cgroup_path_of_concat(x: Seq<Seq<u8>>, y: Seq<Seq<u8>>)
    ensures
        cgroup_path_of(x + y) == later_path(cgroup_path_of(x), cgroup_path_of(y)),
    decreases y.len(),
{
    if y.len() == 0 {
        assert(x + y =~= x);
    } else {
        let y1 = y.drop_last();
        lemma_cgroup_path_of_concat(x, y1);
        assert((x + y).drop_last() =~= x + y1);
        assert((x + y).last() == y.last());
    }
}

/// Parsing two `/proc/<pid>/cgroup` texts joined by a newline: a path that the
/// second text gives replaces the one the first gave (a later matching line wins).
/// (The first must not end with a carriage return.)
pub proof fn later_cgroup_line_wins(a: Seq<u8>, b: Seq<u8>)
    requires
        a.len() == 0 || a.last() != 0x0du8,
    ensures
        spec_parse_cgroup_path(joined(a, b)) == later_path(spec_parse_cgroup_path(a), spec_parse_cgroup_path(b)),
{
    lemma_lines_of_joined(a, b);
    let la = crate::text::spec_lines(a);
    let lb = crate::text::spec_lines(b);
    let e = join_extra(a);
    lemma_empty_line_is_no_op();
    lemma_cgroup_path_of_concat(la + e, lb);
    lemma_cgroup_path_of_concat(la, e);
    if e.len() == 1 {
        assert(e.drop_last() =~= Seq::<Seq<u8>>::empty());
        assert(e.last() =~= Seq::<u8>::empty());
        let none: (Option<Seq<u8>>, Option<Seq<u8>>) = (None, None);
        assert(cgroup_line_step(none, Seq::<u8>::empty()) == none);
        assert(cgroup_path_of(e.drop_last()) == none);
        assert(cgroup_path_of(e) == cgroup_line_step(cgroup_path_of(e.drop_last()), e.last()));
        assert(cgroup_path_of(e) == none);
    } else {
        assert(e =~= Seq::<Seq<u8>>::empty());
    }
    assert(later_path(cgroup_path_of(la), cgroup_path_of(e)) == cgroup_path_of(la));
}

/// The candidate bases never hold two directories that are equal as paths.
pub proof fn dedup_bases_are_distinct(c: Seq<(Seq<u8>, Seq<u8>)>)
    ensures
        distinct_bases(dedup_bases(c)),
    decreases c.len(),
{
    if c.len() > 0 {
        dedup_bases_are_distinct(c.drop_last());
        push_unique_keeps_distinct(dedup_bases(c.drop_last()), c.last());
    }
}

/// The candidate bases of a cgroup: those under the mounts below which it lies,
/// then the cgroup under `fallback_root`, then `fallback_root` itself, each
/// dropped when an equal base came before.
pub fn cgroup_bases_for_path(cgroup_path: &[u8], mounts: &Vec<CGroupMount>, fallback_root: &[u8]) -> (r:
    Vec<CGroupBase>)
    ensures
        bases_view(r@) == spec_cgroup_bases_for_path(cgroup_path@, mounts_view(mounts@), fallback_root@),
        distinct_bases(bases_view(r@)),
{
    let ghost mv = mounts_view(mounts@);
    let mut bases: Vec<CGroupBase> = Vec::new();
    let ghost mut cands: Seq<(Seq<u8>, Seq<u8>)> = seq![];
    proof {
        assert(bases_view(bases@) =~= Seq::<(Seq<u8>, Seq<u8>)>::empty());
        assert(mv.take(0) =~= Seq::<(Seq<u8>, Seq<u8>)>::empty());
    }
    let mut i: usize = 0;
    while i < mounts.len()
        invariant
            i <= mounts@.len(),
            mv == mounts_view(mounts@),
            cands == resolved_bases(cgroup_path@, mv.take(i as int)),
            bases_view(bases@) == dedup_bases(cands),
        decreases mounts@.len() - i,
    {
        let ghost prev = cands;
        proof {
            let t = mv.take(i + 1);
            assert(t.drop_last() =~= mv.take(i as int));
            assert(t.last() == mount_view(mounts@[i as int]));
        }
        if let Some(base) = resolve_cgroup_base(cgroup_path, &mounts[i]) {
            proof {
                cands = prev.push(base_view(base));
                assert(cands.drop_last() =~= prev);
            }
            push_unique_base(&mut bases, base);
            proof {
                assert(dedup_bases(cands) == spec_push_unique(dedup_bases(prev), cands.last()));
            }
        }
        i = i + 1;
    }
    proof {
        assert(mv.take(mounts@.len() as int) =~= mv);
    }
    let ghost resolved = cands;
    let fallback = CGroupBase::new(
        join_cgroup_path(fallback_root, cgroup_path),
        copy_range(fallback_root, 0, fallback_root.len()),
    );
    proof {
        assert(fallback_root@.subrange(0, fallback_root@.len() as int) =~= fallback_root@);
        cands = resolved.push(base_view(fallback));
        assert(cands.drop_last() =~= resolved);
    }
    let ghost fb = base_view(fallback);
    push_unique_base(&mut bases, fallback);
    proof {
        assert(dedup_bases(cands) == spec_push_unique(dedup_bases(resolved), fb));
    }
    let last = CGroupBase::root(fallback_root);
    proof {
        let c2 = cands.push(base_view(last));
        assert(c2.drop_last() =~= cands);
        assert(c2 =~= resolved + seq![
            (spec_join_cgroup_path(fallback_root@, cgroup_path@), fallback_root@),
            (fallback_root@, fallback_root@),
        ]);
        cands = c2;
    }
    let ghost prevc = cands.drop_last();
    let ghost lb = base_view(last);
    push_unique_base(&mut bases, last);
    proof {
        assert(dedup_bases(cands) == spec_push_unique(dedup_bases(prevc), lb));
        dedup_bases_are_distinct(cands);
    }
    bases
}

/// The candidate bases of a process's cgroups: `(v2, v1 memory)`. A hierarchy in
/// which the process has no cgroup gives no candidates.
pub fn cgroup_base_paths(
    cgroup_path: &CGroupPath,
    cgroup_mounts: Option<&CGroupMounts>,
    v2_root: &[u8],
    v1_root: &[u8],
) -> (r: (Vec<CGroupBase>, Vec<CGroupBase>))
    ensures
        bases_view(r.0@) == match cgroup_path.v2 {
            Some(p) => spec_cgroup_bases_for_path(
                p@,
                match cgroup_mounts {
                    Some(m) => mounts_view(m.v2@),
                    None => seq![],
                },
                v2_root@,
            ),
            None => seq![],
        },
        bases_view(r.1@) == match cgroup_path.v1_memory {
            Some(p) => spec_cgroup_bases_for_path(
                p@,
                match cgroup_mounts {
                    Some(m) => mounts_view(m.v1_memory@),
                    None => seq![],
                },
                v1_root@,
            ),
            None => seq![],
        },
{
    let empty: Vec<CGroupMount> = Vec::new();
    proof {
        assert(mounts_view(empty@) =~= Seq::<(Seq<u8>, Seq<u8>)>::empty());
    }
    let v2_mounts = match cgroup_mounts {
        Some(m) => &m.v2,
        None => &empty,
    };
    let v2_bases = match &cgroup_path.v2 {
        Some(path) => cgroup_bases_for_path(path.as_slice(), v2_mounts, v2_root),
        None => Vec::new(),
    };
    let v1_mounts = match cgroup_mounts {
        Some(m) => &m.v1_memory,
        None => &empty,
    };
    let v1_bases = match &cgroup_path.v1_memory {
        Some(path) => cgroup_bases_for_path(path.as_slice(), v1_mounts, v1_root),
        None => Vec::new(),
    };
    proof {
        if cgroup_path.v2 is None {
            assert(bases_view(v2_bases@) =~= Seq::<(Seq<u8>, Seq<u8>)>::empty());
        }
        if cgroup_path.v1_memory is None {
            assert(bases_view(v1_bases@) =~= Seq::<(Seq<u8>, Seq<u8>)>::empty());
        }
    }
    (v2_bases, v1_bases)
}

// ---------------------------------------------------------------------------
// Reading the controller files
// ---------------------------------------------------------------------------

/// The number in a file holding one decimal number, whitespace around it allowed.
pub open spec fn spec_read_u64(content: Option<Seq<u8>>) -> Option<u64> {
    match content {
        Some(c) => spec_parse_u64(trim(c)),
        None => None,
    }
}

/// The number in the contents of a file holding one decimal number; `None` when
/// the file could not be read (`content` is `None`) or holds something else.
pub fn read_u64(content: &Option<Vec<u8>>) -> (r: Option<u64>)
    ensures
        r == spec_read_u64(opt_view(*content)),
{
    match content {
        Some(c) => {
            let (a, b) = trim_range(c.as_slice(), 0, c.len());
            proof {
                assert(c@.subrange(0, c@.len() as int) =~= c@);
            }
            parse_u64_range(c.as_slice(), a, b)
        },
        None => None,
    }
}

/// The word `max` that `memory.max` holds when there is no limit.
pub open spec fn max_word() -> Seq<u8> {
    seq![0x6du8, 0x61u8, 0x78u8]
}

/// The limit that a v2 `memory.max` file gives: `u64::MAX` for `max`, for a file
/// that could not be read or for contents that are not a number.
pub open spec fn spec_read_v2_memory_max(content: Option<Seq<u8>>) -> u64 {
    match content {
        Some(c) => if trim(c) == max_word() {
            u64::MAX
        } else {
            match spec_parse_u64(trim(c)) {
                Some(v) => v,
                None => u64::MAX,
            }
        },
        None => u64::MAX,
    }
}

/// The limit in the contents of a v2 `memory.max` file.
pub fn read_v2_memory_max(content: &Option<Vec<u8>>) -> (r: u64)
    ensures
        r == spec_read_v2_memory_max(opt_view(*content)),
{
    match content {
        Some(c) => {
            let (a, b) = trim_range(c.as_slice(), 0, c.len());
            proof {
                assert(c@.subrange(0, c@.len() as int) =~= c@);
            }
            if b - a == 3 && c[a] == 0x6d && c[a + 1] == 0x61 && c[a + 2] == 0x78 {
                proof {
                    assert(c@.subrange(a as int, b as int) =~= max_word());
                }
                return u64::MAX;
            }
            proof {
                if c@.subrange(a as int, b as int) == max_word() {
                    assert(c@.subrange(a as int, b as int).len() == 3);
                    assert(b - a == 3);
                    assert(c@.subrange(a as int, b as int)[0] == c@[a as int]);
                    assert(c@.subrange(a as int, b as int)[1] == c@[a + 1]);
                    assert(c@.subrange(a as int, b as int)[2] == c@[a + 2]);
                }
            }
            match parse_u64_range(c.as_slice(), a, b) {
                Some(v) => v,
                None => u64::MAX,
            }
        },
        None => u64::MAX,
    }
}

/// The value of a table line `key<sep>value ...`: the first space-separated word
/// of what follows the first `sep` (leading whitespace skipped), as a number.
pub open spec fn table_entry(line: Seq<u8>, colsep: u8) -> Option<(Seq<u8>, u64)> {
    let f = split_on(line, colsep);
    if f.len() < 2 {
        None
    } else {
        match spec_parse_u64(split_on(trim_start(f[1]), 0x20u8)[0]) {
            Some(v) => Some((f[0], v)),
            None => None,
        }
    }
}

/// The entries of the table lines, in order.
pub open spec fn table_entries(lines: Seq<Seq<u8>>, colsep: u8) -> Seq<(Seq<u8>, u64)>
    decreases lines.len(),
{
    if lines.len() == 0 {
        seq![]
    } else {
        let rest = table_entries(lines.drop_last(), colsep);
        match table_entry(lines.last(), colsep) {
            Some(e) => rest.push(e),
            None => rest,
        }
    }
}

/// The `(key, value)` entries of a table file such as `/proc/meminfo`, whose lines
/// (split at each `\n`) read `key<sep>value ...`.
pub open spec fn spec_read_table(content: Seq<u8>, colsep: u8) -> Seq<(Seq<u8>, u64)> {
    table_entries(split_on(content, 0x0au8), colsep)
}

/// An entry as plain values.
pub open spec fn entry_view(e: (Vec<u8>, u64)) -> (Seq<u8>, u64) {
    (e.0@, e.1)
}

/// The entry of one table line, computed.
fn read_table_line(line: &[u8], colsep: u8) -> (r: Option<(Vec<u8>, u64)>)
    ensures
        match r {
            Some(e) => table_entry(line@, colsep) == Some(entry_view(e)),
            None => table_entry(line@, colsep) is None,
        },
{
    let fields = split_bytes(line, colsep);
    if fields.len() < 2 {
        return None;
    }
    let value = fields[1].as_slice();
    let start = trim_start_index(value, 0, value.len());
    proof {
        assert(value@.subrange(0, value@.len() as int) =~= value@);
    }
    let rest = copy_range(value, start, value.len());
    let words = split_bytes(rest.as_slice(), 0x20);
    let first = &words[0];
    match parse_u64_range(first.as_slice(), 0, first.len()) {
        Some(v) => {
            proof {
                assert(first@.subrange(0, first@.len() as int) =~= first@);
            }
            let key = copy_range(fields[0].as_slice(), 0, fields[0].len());
            proof {
                assert(fields@[0]@.subrange(0, fields@[0]@.len() as int) =~= fields@[0]@);
            }
            Some((key, v))
        },
        None => {
            proof {
                assert(first@.subrange(0, first@.len() as int) =~= first@);
            }
            None
        },
    }
}

/// The `(key, value)` entries of a table file, in order.
pub fn read_table(content: &[u8], colsep: u8) -> (r: Vec<(Vec<u8>, u64)>)
    ensures
        r@.map_values(|e: (Vec<u8>, u64)| entry_view(e)) == spec_read_table(content@, colsep),
{
    let pieces = split_bytes(content, 0x0a);
    let mut out: Vec<(Vec<u8>, u64)> = Vec::new();
    let mut i: usize = 0;
    while i < pieces.len()
        invariant
            i <= pieces@.len(),
            views(pieces@) == split_on(content@, 0x0au8),
            out@.map_values(|e: (Vec<u8>, u64)| entry_view(e)) == table_entries(
                views(pieces@).take(i as int),
                colsep,
            ),
        decreases pieces@.len() - i,
    {
        proof {
            let t = views(pieces@).take(i + 1);
            assert(t.drop_last() =~= views(pieces@).take(i as int));
            assert(t.last() == pieces@[i as int]@);
        }
        let ghost before = out@.map_values(|e: (Vec<u8>, u64)| entry_view(e));
        if let Some(e) = read_table_line(pieces[i].as_slice(), colsep) {
            let ghost ev = entry_view(e);
            out.push(e);
            proof {
                assert(out@.map_values(|e: (Vec<u8>, u64)| entry_view(e)) =~= before.push(ev));
            }
        }
        i = i + 1;
    }
    proof {
        assert(views(pieces@).take(pieces@.len() as int) =~= views(pieces@));
    }
    out
}

/// The value of the first line whose key is `target` and whose value is a number.
pub open spec fn first_value_for(entries: Seq<(Seq<u8>, u64)>, target: Seq<u8>) -> Option<u64>
    decreases entries.len(),
{
    if entries.len() == 0 {
        None
    } else {
        match first_value_for(entries.drop_last(), target) {
            Some(v) => Some(v),
            None => if entries.last().0 == target {
                Some(entries.last().1)
            } else {
                None
            },
        }
    }
}

/// The value of the first table line whose key is `target_key` and whose value is a
/// number (`memory.stat` lines read `key value`).
pub fn read_table_key(content: &[u8], target_key: &[u8], colsep: u8) -> (r: Option<u64>)
    ensures
        r == first_value_for(spec_read_table(content@, colsep), target_key@),
{
    let entries = read_table(content, colsep);
    let ghost ev = entries@.map_values(|e: (Vec<u8>, u64)| entry_view(e));
    let mut i: usize = 0;
    while i < entries.len()
        invariant
            i <= entries@.len(),
            ev == entries@.map_values(|e: (Vec<u8>, u64)| entry_view(e)),
            ev == spec_read_table(content@, colsep),
            first_value_for(ev.take(i as int), target_key@) is None,
        decreases entries@.len() - i,
    {
        proof {
            let t = ev.take(i + 1);
            assert(t.drop_last() =~= ev.take(i as int));
            assert(t.last() == entry_view(entries@[i as int]));
        }
        if bytes_eq(entries[i].0.as_slice(), target_key) {
            proof {
                assert(first_value_for(ev.take(i + 1), target_key@) == Some(entries@[i as int].1));
                lemma_first_value_prefix(ev, target_key@, i + 1);
            }
            return Some(entries[i].1);
        }
        i = i + 1;
    }
    proof {
        assert(ev.take(entries@.len() as int) =~= ev);
    }
    None
}

/// Once a prefix holds a value for the key, the whole list gives that value.
proof fn lemma_first_value_prefix(e: Seq<(Seq<u8>, u64)>, target: Seq<u8>, k: int)
    requires
        0 <= k <= e.len(),
    ensures
        first_value_for(e.take(k), target) is Some ==> first_value_for(e, target) == first_value_for(
            e.take(k),
            target,
        ),
    decreases e.len() - k,
{
    if k < e.len() {
        lemma_first_value_prefix(e, target, k + 1);
        assert(e.take(k + 1).drop_last() =~= e.take(k));
    } else {
        assert(e.take(k) =~= e);
    }
}

// ---------------------------------------------------------------------------
// Limits
// ---------------------------------------------------------------------------

/// `a * b`, or `u64::MAX` when the product does not fit.
pub open spec fn sat_mul(a: u64, b: u64) -> u64 {
    if a * b > u64::MAX {
        u64::MAX
    } else {
        (a * b) as u64
    }
}

/// `a * b`, or `u64::MAX` when that overflows (`u64::saturating_mul`).
pub fn saturating_mul(a: u64, b: u64) -> (r: u64)
    ensures
        r == sat_mul(a, b),
{
    match a.checked_mul(b) {
        Some(v) => v,
        None => u64::MAX,
    }
}

/// The system-wide memory figures, in bytes, that cgroup limits are compared with.
#[derive(Debug, Clone, Copy, PartialEq, Eq)]
pub struct CGroupLimitsContext {
    pub mem_total: u64,
    pub swap_total: u64,
    pub swap_free: u64,
}

/// The memory limits of a cgroup, in bytes.
#[derive(Debug, Clone, Copy, PartialEq, Eq)]
pub struct CGroupLimits {
    pub total_memory: u64,
    pub free_memory: u64,
    pub free_swap: u64,
    pub rss: u64,
}

/// The key `MemTotal`.
pub open spec fn mem_total_word() -> Seq<u8> {
    seq![0x4du8, 0x65u8, 0x6du8, 0x54u8, 0x6fu8, 0x74u8, 0x61u8, 0x6cu8]
}

/// The key `SwapTotal`.
pub open spec fn swap_total_word() -> Seq<u8> {
    seq![0x53u8, 0x77u8, 0x61u8, 0x70u8, 0x54u8, 0x6fu8, 0x74u8, 0x61u8, 0x6cu8]
}

/// The key `SwapFree`.
pub open spec fn swap_free_word() -> Seq<u8> {
    seq![0x53u8, 0x77u8, 0x61u8, 0x70u8, 0x46u8, 0x72u8, 0x65u8, 0x65u8]
}

/// What one `/proc/meminfo` entry (in KiB) changes in `(MemTotal, SwapTotal, SwapFree)`
/// (in bytes); a later entry for a key replaces an earlier one.
pub open spec fn meminfo_step(acc: (Option<u64>, u64, u64), e: (Seq<u8>, u64)) -> (Option<u64>, u64, u64) {
    let value = sat_mul(e.1, 1024);
    if e.0 == mem_total_word() {
        (Some(value), acc.1, acc.2)
    } else if e.0 == swap_total_word() {
        (acc.0, value, acc.2)
    } else if e.0 == swap_free_word() {
        (acc.0, acc.1, value)
    } else {
        acc
    }
}

/// The figures that the entries give, processed in order.
pub open spec fn meminfo_of(entries: Seq<(Seq<u8>, u64)>) -> (Option<u64>, u64, u64)
    decreases entries.len(),
{
    if entries.len() == 0 {
        (None, 0, 0)
    } else {
        meminfo_step(meminfo_of(entries.drop_last()), entries.last())
    }
}

/// The context that the contents of `/proc/meminfo` give; `None` without `MemTotal`.
pub open spec fn spec_limits_context(meminfo: Seq<u8>) -> Option<CGroupLimitsContext> {
    let m = meminfo_of(spec_read_table(meminfo, 0x3au8));
    match m.0 {
        Some(t) => Some(CGroupLimitsContext { mem_total: t, swap_total: m.1, swap_free: m.2 }),
        None => None,
    }
}

fn key_is(key: &[u8], w: &[u8]) -> (r: bool)
    ensures
        r == (key@ == w@),
{
    bytes_eq(key, w)
}

/// The system-wide memory figures from the contents of `/proc/meminfo`.
pub fn read_cgroup_limits_context(meminfo: &[u8]) -> (r: Option<CGroupLimitsContext>)
    ensures
        r == spec_limits_context(meminfo@),
{
    let entries = read_table(meminfo, 0x3a);
    let ghost ev = entries@.map_values(|e: (Vec<u8>, u64)| entry_view(e));
    let mem_total_key: [u8; 8] = [0x4d, 0x65, 0x6d, 0x54, 0x6f, 0x74, 0x61, 0x6c];
    let swap_total_key: [u8; 9] = [0x53, 0x77, 0x61, 0x70, 0x54, 0x6f, 0x74, 0x61, 0x6c];
    let swap_free_key: [u8; 8] = [0x53, 0x77, 0x61, 0x70, 0x46, 0x72, 0x65, 0x65];
    proof {
        assert(mem_total_key@ =~= mem_total_word());
        assert(swap_total_key@ =~= swap_total_word());
        assert(swap_free_key@ =~= swap_free_word());
    }
    let mut mem_total: Option<u64> = None;
    let mut swap_total: u64 = 0;
    let mut swap_free: u64 = 0;
    let mut i: usize = 0;
    while i < entries.len()
        invariant
            i <= entries@.len(),
            ev == entries@.map_values(|e: (Vec<u8>, u64)| entry_view(e)),
            mem_total_key@ == mem_total_word(),
            swap_total_key@ == swap_total_word(),
            swap_free_key@ == swap_free_word(),
            (mem_total, swap_total, swap_free) == meminfo_of(ev.take(i as int)),
        decreases entries@.len() - i,
    {
        proof {
            let t = ev.take(i + 1);
            assert(t.drop_last() =~= ev.take(i as int));
            assert(t.last() == entry_view(entries@[i as int]));
        }
        let key = entries[i].0.as_slice();
        let value = saturating_mul(entries[i].1, 1024);
        if key_is(key, mem_total_key.as_slice()) {
            mem_total = Some(value);
        } else if key_is(key, swap_total_key.as_slice()) {
            swap_total = value;
        } else if key_is(key, swap_free_key.as_slice()) {
            swap_free = value;
        }
        i = i + 1;
    }
    proof {
        assert(ev.take(entries@.len() as int) =~= ev);
    }
    match mem_total {
        Some(t) => Some(CGroupLimitsContext { mem_total: t, swap_total, swap_free }),
        None => None,
    }
}

/// The smaller of a value and an optional bound.
pub open spec fn min_opt(o: Option<u64>, v: u64) -> u64 {
    match o {
        Some(x) => if x < v {
            x
        } else {
            v
        },
        None => v,
    }
}

/// The running `(total, free)` memory over the levels from a cgroup up to its
/// hierarchy root. Each level is `(limit, usage)`. A level whose limit does not
/// exceed `mem_total` narrows the total to its limit and the free memory to what
/// its usage leaves; such a level without a usage fails (`None`).
pub open spec fn limits_fold(levels: Seq<(u64, Option<u64>)>, mem_total: u64) -> Option<
    (Option<u64>, Option<u64>),
>
    decreases levels.len(),
{
    if levels.len() == 0 {
        Some((None, None))
    } else {
        match limits_fold(levels.drop_last(), mem_total) {
            None => None,
            Some(acc) => {
                let (limit, usage) = levels.last();
                if limit <= mem_total {
                    match usage {
                        None => None,
                        Some(u) => Some(
                            (
                                Some(min_opt(acc.0, limit)),
                                Some(min_opt(acc.1, limit.saturating_sub(u))),
                            ),
                        ),
                    }
                } else {
                    Some(acc)
                }
            },
        }
    }
}

/// The `(total, free)` memory of a cgroup from its levels, the cgroup's own first
/// and its hierarchy root last: `None` when the cgroup's own usage is unknown, when
/// a limiting level's usage is unknown, or when no level limits the memory.
pub open spec fn spec_memory_limits(levels: Seq<(u64, Option<u64>)>, mem_total: u64) -> Option<(u64, u64)> {
    if levels.len() == 0 || levels[0].1 is None {
        None
    } else {
        match limits_fold(levels, mem_total) {
            Some((Some(t), Some(f))) => Some((t, f)),
            _ => None,
        }
    }
}

/// Within any prefix of the levels, the free memory never exceeds the total, the
/// total never exceeds `mem_total`, and both are known together.
proof fn lemma_limits_fold_bounds(levels: Seq<(u64, Option<u64>)>, mem_total: u64)
    ensures
        limits_fold(levels, mem_total) matches Some(acc) ==> (acc.0 is Some <==> acc.1 is Some) && (
        acc.0 matches Some(t) ==> t <= mem_total && acc.1.unwrap() <= t),
    decreases levels.len(),
{
    if levels.len() > 0 {
        lemma_limits_fold_bounds(levels.drop_last(), mem_total);
    }
}

/// What is left below `limit` once `used` is taken, 0 past the limit.
pub open spec fn headroom(limit: u64, used: u64) -> int {
    if used <= limit {
        limit - used
    } else {
        0
    }
}

/// Whether the level `l` limits the memory: its limit does not exceed `mem_total`.
pub open spec fn limits_memory(l: (u64, Option<u64>), mem_total: u64) -> bool {
    l.0 <= mem_total
}

proof fn lemma_limits_fold_tightest(levels: Seq<(u64, Option<u64>)>, mem_total: u64)
    ensures
        (limits_fold(levels, mem_total) is None) <==> exists|k: int|
            0 <= k < levels.len() && limits_memory(#[trigger] levels[k], mem_total) && levels[k].1 is None,
        limits_fold(levels, mem_total) matches Some(r) ==> {
            &&& (r.0 is Some <==> exists|k: int| 0 <= k < levels.len() && limits_memory(#[trigger] levels[k], mem_total))
            &&& (r.1 is Some <==> r.0 is Some)
            &&& forall|k: int|
                0 <= k < levels.len() && limits_memory(#[trigger] levels[k], mem_total) ==> levels[k].1 is Some
                    && r.0.unwrap() <= levels[k].0 && r.1.unwrap() <= headroom(levels[k].0, levels[k].1.unwrap())
            &&& r.0 is Some ==> exists|k: int|
                0 <= k < levels.len() && limits_memory(#[trigger] levels[k], mem_total) && r.0.unwrap() == levels[k].0
            &&& r.1 is Some ==> exists|k: int|
                0 <= k < levels.len() && limits_memory(#[trigger] levels[k], mem_total) && r.1.unwrap()
                    == headroom(levels[k].0, levels[k].1.unwrap())
        },
    decreases levels.len(),
{
    if levels.len() > 0 {
        let p = levels.drop_last();
        let n = levels.len() - 1;
        let l = levels[n];
        lemma_limits_fold_tightest(p, mem_total);
        assert(levels.last() == l);
        assert forall|k: int| 0 <= k < n implies #[trigger] levels[k] == p[k] by {}
        match limits_fold(p, mem_total) {
            None => {
                let k = choose|k: int| 0 <= k < p.len() && limits_memory(#[trigger] p[k], mem_total) && p[k].1 is None;
                assert(levels[k] == p[k]);
            },
            Some(acc) => {
                if !limits_memory(l, mem_total) {
                    assert(limits_fold(levels, mem_total) == Some(acc));
                    if exists|k: int| 0 <= k < levels.len() && limits_memory(#[trigger] levels[k], mem_total) && levels[k].1 is None {
                        let k = choose|k: int| 0 <= k < levels.len() && limits_memory(#[trigger] levels[k], mem_total) && levels[k].1 is None;
                        assert(p[k] == levels[k]);
                    }
                    if exists|k: int| 0 <= k < levels.len() && limits_memory(#[trigger] levels[k], mem_total) {
                        let k = choose|k: int| 0 <= k < levels.len() && limits_memory(#[trigger] levels[k], mem_total);
                        assert(p[k] == levels[k]);
                    }
                    if acc.0 is Some {
                        let k = choose|k: int| 0 <= k < p.len() && limits_memory(#[trigger] p[k], mem_total) && acc.0.unwrap() == p[k].0;
                        assert(levels[k] == p[k]);
                    }
                    if acc.1 is Some {
                        let k = choose|k: int|
                            0 <= k < p.len() && limits_memory(#[trigger] p[k], mem_total) && acc.1.unwrap() == headroom(p[k].0, p[k].1.unwrap());
                        assert(levels[k] == p[k]);
                    }
                    assert forall|k: int| 0 <= k < levels.len() && limits_memory(#[trigger] levels[k], mem_total) implies levels[k].1 is Some
                        && acc.0.unwrap() <= levels[k].0 && acc.1.unwrap() <= headroom(levels[k].0, levels[k].1.unwrap()) by {
                        assert(k < n);
                        assert(p[k] == levels[k]);
                    }
                } else {
                    match l.1 {
                        None => {
                            assert(limits_memory(levels[n], mem_total) && levels[n].1 is None);
                        },
                        Some(u) => {
                            let h = l.0.saturating_sub(u);
                            assert(h == headroom(l.0, u));
                            let t = min_opt(acc.0, l.0);
                            let f = min_opt(acc.1, h);
                            assert(limits_fold(levels, mem_total) == Some((Some(t), Some(f))));
                            assert(!exists|k: int| 0 <= k < levels.len() && limits_memory(#[trigger] levels[k], mem_total) && levels[k].1 is None) by {
                                if exists|k: int| 0 <= k < levels.len() && limits_memory(#[trigger] levels[k], mem_total) && levels[k].1 is None {
                                    let k = choose|k: int| 0 <= k < levels.len() && limits_memory(#[trigger] levels[k], mem_total) && levels[k].1 is None;
                                    if k < n {
                                        assert(p[k] == levels[k]);
                                    }
                                }
                            }
                            assert(limits_memory(levels[n], mem_total));
                            assert forall|k: int| 0 <= k < levels.len() && limits_memory(#[trigger] levels[k], mem_total) implies levels[k].1 is Some
                                && t <= levels[k].0 && f <= headroom(levels[k].0, levels[k].1.unwrap()) by {
                                if k < n {
                                    assert(p[k] == levels[k]);
                                }
                            }
                            if acc.0 is Some && acc.0.unwrap() < l.0 {
                                let k = choose|k: int| 0 <= k < p.len() && limits_memory(#[trigger] p[k], mem_total) && acc.0.unwrap() == p[k].0;
                                assert(levels[k] == p[k]);
                            } else {
                                assert(t == levels[n].0);
                            }
                            if acc.1 is Some && acc.1.unwrap() < h {
                                let k = choose|k: int|
                                    0 <= k < p.len() && limits_memory(#[trigger] p[k], mem_total) && acc.1.unwrap() == headroom(p[k].0, p[k].1.unwrap());
                                assert(levels[k] == p[k]);
                            } else {
                                assert(f == headroom(levels[n].0, levels[n].1.unwrap()));
                            }
                        },
                    }
                }
            },
        }
    }
}

/// The memory limits of a cgroup are set by its tightest levels. With `levels` from the
/// cgroup up to its hierarchy root, and a level limiting the memory when its limit does
/// not exceed `mem_total`: a result is given exactly when the cgroup's own usage is known,
/// some level limits the memory and every limiting level's usage is known; the total is
/// then the smallest limit of a limiting level, and the free memory the smallest of what
/// each limiting level's own usage leaves below that level's own limit.
pub proof fn memory_limits_are_the_tightest(levels: Seq<(u64, Option<u64>)>, mem_total: u64)
    ensures
        spec_memory_limits(levels, mem_total) is Some <==> {
            &&& levels.len() > 0 && levels[0].1 is Some
            &&& exists|k: int| 0 <= k < levels.len() && limits_memory(#[trigger] levels[k], mem_total)
            &&& forall|k: int| 0 <= k < levels.len() && limits_memory(#[trigger] levels[k], mem_total) ==> levels[k].1 is Some
        },
        spec_memory_limits(levels, mem_total) matches Some((t, f)) ==> {
            &&& forall|k: int|
                0 <= k < levels.len() && limits_memory(#[trigger] levels[k], mem_total) ==> t <= levels[k].0 && f
                    <= headroom(levels[k].0, levels[k].1.unwrap())
            &&& exists|k: int| 0 <= k < levels.len() && limits_memory(#[trigger] levels[k], mem_total) && t == levels[k].0
            &&& exists|k: int|
                0 <= k < levels.len() && limits_memory(#[trigger] levels[k], mem_total) && f == headroom(
                    levels[k].0,
                    levels[k].1.unwrap(),
                )
        },
{
    lemma_limits_fold_tightest(levels, mem_total);
    if levels.len() > 0 && levels[0].1 is Some {
        match limits_fold(levels, mem_total) {
            Some(r) => {
                if forall|k: int| 0 <= k < levels.len() && limits_memory(#[trigger] levels[k], mem_total) ==> levels[k].1 is Some {
                } else {
                    let k = choose|k: int| !(0 <= k < levels.len() && limits_memory(#[trigger] levels[k], mem_total) ==> levels[k].1 is Some);
                }
            },
            None => {
                let k = choose|k: int| 0 <= k < levels.len() && limits_memory(#[trigger] levels[k], mem_total) && levels[k].1 is None;
            },
        }
    }
}

/// The memory limits of a cgroup from the limit and usage at each level from the
/// cgroup up to its hierarchy root.
pub fn memory_limits(levels: &Vec<(u64, Option<u64>)>, mem_total: u64) -> (r: Option<(u64, u64)>)
    ensures
        r == spec_memory_limits(levels@, mem_total),
        r matches Some((t, f)) ==> f <= t && t <= mem_total,
{
    if levels.len() == 0 || levels[0].1.is_none() {
        return None;
    }
    let mut total: Option<u64> = None;
    let mut free: Option<u64> = None;
    let mut i: usize = 0;
    while i < levels.len()
        invariant
            i <= levels@.len(),
            limits_fold(levels@.take(i as int), mem_total) == Some((total, free)),
        decreases levels@.len() - i,
    {
        proof {
            let t = levels@.take(i + 1);
            assert(t.drop_last() =~= levels@.take(i as int));
            assert(t.last() == levels@[i as int]);
        }
        let (limit, usage) = levels[i];
        if limit <= mem_total {
            match usage {
                None => {
                    proof {
                        lemma_fold_fails_later(levels@, mem_total, i + 1);
                    }
                    return None;
                },
                Some(u) => {
                    let avail = limit.saturating_sub(u);
                    total = Some(
                        match total {
                            Some(t) => if t < limit {
                                t
                            } else {
                                limit
                            },
                            None => limit,
                        },
                    );
                    free = Some(
                        match free {
                            Some(f) => if f < avail {
                                f
                            } else {
                                avail
                            },
                            None => avail,
                        },
                    );
                },
            }
        }
        i = i + 1;
    }
    proof {
        assert(levels@.take(levels@.len() as int) =~= levels@);
        lemma_limits_fold_bounds(levels@, mem_total);
    }
    match (total, free) {
        (Some(t), Some(f)) => Some((t, f)),
        _ => None,
    }
}

/// Once a prefix of the levels fails, all of them fail.
proof fn lemma_fold_fails_later(levels: Seq<(u64, Option<u64>)>, mem_total: u64, k: int)
    requires
        0 <= k <= levels.len(),
        limits_fold(levels.take(k), mem_total) is None,
    ensures
        limits_fold(levels, mem_total) is None,
    decreases levels.len() - k,
{
    if k < levels.len() {
        assert(levels.take(k + 1).drop_last() =~= levels.take(k));
        lemma_fold_fails_later(levels, mem_total, k + 1);
    } else {
        assert(levels.take(k) =~= levels);
    }
}

/// The contents of the limit and usage files at one level (`None` for a file that
/// could not be read).
#[derive(Debug, Clone, PartialEq, Eq)]
pub struct LevelFiles {
    pub limit: Option<Vec<u8>>,
    pub usage: Option<Vec<u8>>,
}

/// The contents of the files that the limits of one candidate base are read from:
/// the limit and usage files of each level from the base up to the hierarchy root
/// (`None` when the root is not an ancestor of the base), the `memory.stat` file
/// and, for v2, the `memory.swap.current` file.
#[derive(Debug, Clone, PartialEq, Eq)]
pub struct CGroupFiles {
    pub levels: Option<Vec<LevelFiles>>,
    pub stat: Option<Vec<u8>>,
    pub swap_current: Option<Vec<u8>>,
}

/// A level's files as plain values.
pub open spec fn level_view(l: LevelFiles) -> (Option<Seq<u8>>, Option<Seq<u8>>) {
    (opt_view(l.limit), opt_view(l.usage))
}

/// A list of levels as plain values.
pub open spec fn levels_view(v: Seq<LevelFiles>) -> Seq<(Option<Seq<u8>>, Option<Seq<u8>>)> {
    v.map_values(|l: LevelFiles| level_view(l))
}

impl CGroupFiles {
    /// The levels as plain values.
    pub open spec fn levels_view(&self) -> Option<Seq<(Option<Seq<u8>>, Option<Seq<u8>>)>> {
        match self.levels {
            Some(v) => Some(levels_view(v@)),
            None => None,
        }
    }
}

/// The v2 `(limit, usage)` of each level: `memory.max` (`max` or unreadable meaning
/// no limit) and `memory.current`.
pub open spec fn v2_readings(levels: Seq<(Option<Seq<u8>>, Option<Seq<u8>>)>) -> Seq<(u64, Option<u64>)> {
    levels.map_values(
        |l: (Option<Seq<u8>>, Option<Seq<u8>>)| (spec_read_v2_memory_max(l.0), spec_read_u64(l.1)),
    )
}

/// The v1 `(limit, usage)` of each level: `memory.limit_in_bytes` (unreadable above
/// the cgroup itself meaning no limit) and `memory.usage_in_bytes`.
pub open spec fn v1_readings(levels: Seq<(Option<Seq<u8>>, Option<Seq<u8>>)>) -> Seq<(u64, Option<u64>)> {
    levels.map_values(
        |l: (Option<Seq<u8>>, Option<Seq<u8>>)|
            (
                match spec_read_u64(l.0) {
                    Some(v) => v,
                    None => u64::MAX,
                },
                spec_read_u64(l.1),
            ),
    )
}

/// The key `anon` of v2 `memory.stat`.
pub open spec fn anon_word() -> Seq<u8> {
    seq![0x61u8, 0x6eu8, 0x6fu8, 0x6eu8]
}

/// The key `total_rss` of v1 `memory.stat`.
pub open spec fn total_rss_word() -> Seq<u8> {
    seq![0x74u8, 0x6fu8, 0x74u8, 0x61u8, 0x6cu8, 0x5fu8, 0x72u8, 0x73u8, 0x73u8]
}

/// The resident memory that a `memory.stat` file gives for `key`.
pub open spec fn spec_stat_value(stat: Option<Seq<u8>>, key: Seq<u8>) -> Option<u64> {
    match stat {
        Some(c) => first_value_for(spec_read_table(c, 0x20u8), key),
        None => None,
    }
}

/// The limits of a v2 cgroup from its files.
pub open spec fn spec_v2_limits(
    levels: Option<Seq<(Option<Seq<u8>>, Option<Seq<u8>>)>>,
    stat: Option<Seq<u8>>,
    swap_current: Option<Seq<u8>>,
    context: CGroupLimitsContext,
) -> Option<CGroupLimits> {
    match levels {
        None => None,
        Some(lv) => match spec_memory_limits(v2_readings(lv), context.mem_total) {
            None => None,
            Some((total, free)) => match spec_stat_value(stat, anon_word()) {
                None => None,
                Some(rss) => Some(
                    CGroupLimits {
                        total_memory: total,
                        free_memory: free,
                        free_swap: match spec_read_u64(swap_current) {
                            Some(cur) => context.swap_total.saturating_sub(cur),
                            None => context.swap_free,
                        },
                        rss,
                    },
                ),
            },
        },
    }
}

/// The limits of a v1 cgroup from its files; its own `memory.limit_in_bytes` must
/// hold a number.
pub open spec fn spec_v1_limits(
    levels: Option<Seq<(Option<Seq<u8>>, Option<Seq<u8>>)>>,
    stat: Option<Seq<u8>>,
    context: CGroupLimitsContext,
) -> Option<CGroupLimits> {
    match levels {
        None => None,
        Some(lv) => if lv.len() == 0 || spec_read_u64(lv[0].0) is None {
            None
        } else {
            match spec_memory_limits(v1_readings(lv), context.mem_total) {
                None => None,
                Some((total, free)) => match spec_stat_value(stat, total_rss_word()) {
                    None => None,
                    Some(rss) => Some(
                        CGroupLimits {
                            total_memory: total,
                            free_memory: free,
                            free_swap: context.swap_free,
                            rss,
                        },
                    ),
                },
            }
        },
    }
}

fn stat_value(stat: &Option<Vec<u8>>, key: &[u8]) -> (r: Option<u64>)
    ensures
        r == spec_stat_value(opt_view(*stat), key@),
{
    match stat {
        Some(c) => read_table_key(c.as_slice(), key, 0x20),
        None => None,
    }
}

fn readings(levels: &Vec<LevelFiles>, v2: bool) -> (r: Vec<(u64, Option<u64>)>)
    ensures
        r@ == if v2 {
            v2_readings(levels_view(levels@))
        } else {
            v1_readings(levels_view(levels@))
        },
{
    let ghost lv = levels_view(levels@);
    let mut out: Vec<(u64, Option<u64>)> = Vec::new();
    let mut i: usize = 0;
    while i < levels.len()
        invariant
            i <= levels@.len(),
            lv == levels_view(levels@),
            out@ == if v2 {
                v2_readings(lv).take(i as int)
            } else {
                v1_readings(lv).take(i as int)
            },
        decreases levels@.len() - i,
    {
        let usage = read_u64(&levels[i].usage);
        let limit = if v2 {
            read_v2_memory_max(&levels[i].limit)
        } else {
            match read_u64(&levels[i].limit) {
                Some(v) => v,
                None => u64::MAX,
            }
        };
        let ghost before = out@;
        out.push((limit, usage));
        proof {
            if v2 {
                assert(v2_readings(lv).take(i + 1) =~= before.push((limit, usage)));
            } else {
                assert(v1_readings(lv).take(i + 1) =~= before.push((limit, usage)));
            }
        }
        i = i + 1;
    }
    proof {
        assert(v2_readings(lv).take(levels@.len() as int) =~= v2_readings(lv));
        assert(v1_readings(lv).take(levels@.len() as int) =~= v1_readings(lv));
    }
    out
}

/// The limits of a v2 cgroup from the contents of its files.
pub fn v2_limits(files: &CGroupFiles, context: CGroupLimitsContext) -> (r: Option<CGroupLimits>)
    ensures
        r == spec_v2_limits(
            files.levels_view(),
            opt_view(files.stat),
            opt_view(files.swap_current),
            context,
        ),
{
    let levels = match &files.levels {
        Some(l) => l,
        None => return None,
    };
    let lv = readings(levels, true);
    let (total_memory, free_memory) = match memory_limits(&lv, context.mem_total) {
        Some(p) => p,
        None => return None,
    };
    let anon: [u8; 4] = [0x61, 0x6e, 0x6f, 0x6e];
    proof {
        assert(anon@ =~= anon_word());
    }
    let rss = match stat_value(&files.stat, anon.as_slice()) {
        Some(v) => v,
        None => return None,
    };
    let free_swap = match read_u64(&files.swap_current) {
        Some(cur) => context.swap_total.saturating_sub(cur),
        None => context.swap_free,
    };
    Some(CGroupLimits { total_memory, free_memory, free_swap, rss })
}

/// The limits of a v1 cgroup from the contents of its files.
pub fn v1_limits(files: &CGroupFiles, context: CGroupLimitsContext) -> (r: Option<CGroupLimits>)
    ensures
        r == spec_v1_limits(files.levels_view(), opt_view(files.stat), context),
{
    let levels = match &files.levels {
        Some(l) => l,
        None => return None,
    };
    if levels.len() == 0 {
        return None;
    }
    if read_u64(&levels[0].limit).is_none() {
        return None;
    }
    let lv = readings(levels, false);
    let (total_memory, free_memory) = match memory_limits(&lv, context.mem_total) {
        Some(p) => p,
        None => return None,
    };
    let total_rss: [u8; 9] = [0x74, 0x6f, 0x74, 0x61, 0x6c, 0x5f, 0x72, 0x73, 0x73];
    proof {
        assert(total_rss@ =~= total_rss_word());
    }
    let rss = match stat_value(&files.stat, total_rss.as_slice()) {
        Some(v) => v,
        None => return None,
    };
    Some(CGroupLimits { total_memory, free_memory, free_swap: context.swap_free, rss })
}

/// The first of the limits that some candidate gives, or `None`.
pub open spec fn first_limits(l: Seq<Option<CGroupLimits>>) -> Option<CGroupLimits>
    decreases l.len(),
{
    if l.len() == 0 {
        None
    } else {
        match l[0] {
            Some(x) => Some(x),
            None => first_limits(l.drop_first()),
        }
    }
}

/// The v2 limits that each candidate gives.
pub open spec fn v2_candidates(files: Seq<CGroupFiles>, context: CGroupLimitsContext) -> Seq<Option<CGroupLimits>> {
    files.map_values(
        |f: CGroupFiles|
            spec_v2_limits(f.levels_view(), opt_view(f.stat), opt_view(f.swap_current), context),
    )
}

/// The v1 limits that each candidate gives.
pub open spec fn v1_candidates(files: Seq<CGroupFiles>, context: CGroupLimitsContext) -> Seq<Option<CGroupLimits>> {
    files.map_values(|f: CGroupFiles| spec_v1_limits(f.levels_view(), opt_view(f.stat), context))
}

proof fn lemma_first_limits_step(l: Seq<Option<CGroupLimits>>, k: int)
    requires
        0 <= k < l.len(),
        first_limits(l) == first_limits(l.skip(k)),
        l[k] is None,
    ensures
        first_limits(l) == first_limits(l.skip(k + 1)),
{
    assert(l.skip(k).drop_first() =~= l.skip(k + 1));
}

/// The limits of the first v1 candidate that gives some, else those of the first
/// v2 candidate that gives some: a hybrid setup exposes the effective memory
/// limit through the v1 memory controller.
pub fn limits_for_base_with_context(
    v2_bases: &Vec<CGroupFiles>,
    v1_bases: &Vec<CGroupFiles>,
    context: CGroupLimitsContext,
) -> (r: Option<CGroupLimits>)
    ensures
        r == match first_limits(v1_candidates(v1_bases@, context)) {
            Some(x) => Some(x),
            None => first_limits(v2_candidates(v2_bases@, context)),
        },
{
    let ghost c1 = v1_candidates(v1_bases@, context);
    let ghost c2 = v2_candidates(v2_bases@, context);
    proof {
        assert(c1.skip(0) =~= c1);
        assert(c2.skip(0) =~= c2);
    }
    let mut i: usize = 0;
    while i < v1_bases.len()
        invariant
            i <= v1_bases@.len(),
            c1 == v1_candidates(v1_bases@, context),
            first_limits(c1) == first_limits(c1.skip(i as int)),
        decreases v1_bases@.len() - i,
    {
        let l = v1_limits(&v1_bases[i], context);
        if l.is_some() {
            proof {
                assert(c1.skip(i as int)[0] == l);
            }
            return l;
        }
        proof {
            lemma_first_limits_step(c1, i as int);
        }
        i = i + 1;
    }
    proof {
        assert(c1.skip(v1_bases@.len() as int) =~= Seq::<Option<CGroupLimits>>::empty());
    }
    let mut j: usize = 0;
    while j < v2_bases.len()
        invariant
            j <= v2_bases@.len(),
            c2 == v2_candidates(v2_bases@, context),
            c1 == v1_candidates(v1_bases@, context),
            first_limits(c1) is None,
            first_limits(c2) == first_limits(c2.skip(j as int)),
        decreases v2_bases@.len() - j,
    {
        let l = v2_limits(&v2_bases[j], context);
        if l.is_some() {
            proof {
                assert(c2.skip(j as int)[0] == l);
            }
            return l;
        }
        proof {
            lemma_first_limits_step(c2, j as int);
        }
        j = j + 1;
    }
    proof {
        assert(c2.skip(v2_bases@.len() as int) =~= Seq::<Option<CGroupLimits>>::empty());
    }
    None
}


/// The figures of a cgroup's limits come from the right files. In v2: the total and
/// free memory are those of its levels, each level's limit being its `memory.max` (no
/// limit for `max`, an unreadable file or one that holds no number) and its usage its
/// `memory.current`; the swap left is the swap total less `memory.swap.current`
/// (0 past it) when that file holds a number, else `SwapFree`; the resident memory is
/// the first `anon` line of `memory.stat`. In v1: the limit is
/// `memory.limit_in_bytes` (no limit when unreadable above the cgroup, whose own must
/// hold a number), the swap left is `SwapFree`, and the resident memory the first
/// `total_rss` line.
pub proof fn cgroup_limits_figures(
    lv: Seq<(Option<Seq<u8>>, Option<Seq<u8>>)>,
    stat: Option<Seq<u8>>,
    swap_current: Option<Seq<u8>>,
    context: CGroupLimitsContext,
)
    ensures
        forall|k: int| 0 <= k < lv.len() ==> {
            let r = #[trigger] v2_readings(lv)[k];
            &&& r.1 == spec_read_u64(lv[k].1)
            &&& r.0 == match lv[k].0 {
                None => u64::MAX,
                Some(c) => if trim(c) == seq![0x6du8, 0x61u8, 0x78u8] {
                    u64::MAX
                } else {
                    match spec_parse_u64(trim(c)) {
                        Some(v) => v,
                        None => u64::MAX,
                    }
                },
            }
        },
        forall|k: int| 0 <= k < lv.len() ==> {
            let r = #[trigger] v1_readings(lv)[k];
            &&& r.1 == spec_read_u64(lv[k].1)
            &&& r.0 == match spec_read_u64(lv[k].0) {
                Some(v) => v,
                None => u64::MAX,
            }
        },
        spec_v2_limits(Some(lv), stat, swap_current, context) matches Some(l) ==> {
            &&& spec_memory_limits(v2_readings(lv), context.mem_total) == Some((l.total_memory, l.free_memory))
            &&& l.free_memory <= l.total_memory <= context.mem_total
            &&& (spec_read_u64(swap_current) matches Some(cur) ==> l.free_swap == headroom(context.swap_total, cur))
            &&& (spec_read_u64(swap_current) is None ==> l.free_swap == context.swap_free)
            &&& stat matches Some(c) && first_value_for(spec_read_table(c, 0x20u8), seq![0x61u8, 0x6eu8, 0x6fu8, 0x6eu8])
                == Some(l.rss)
        },
        spec_v2_limits(Some(lv), stat, swap_current, context) is Some <==> (spec_memory_limits(
            v2_readings(lv),
            context.mem_total,
        ) is Some && (stat matches Some(c) && first_value_for(
            spec_read_table(c, 0x20u8),
            seq![0x61u8, 0x6eu8, 0x6fu8, 0x6eu8],
        ) is Some)),
        spec_v1_limits(Some(lv), stat, context) matches Some(l) ==> {
            &&& lv.len() > 0 && spec_read_u64(lv[0].0) is Some
            &&& spec_memory_limits(v1_readings(lv), context.mem_total) == Some((l.total_memory, l.free_memory))
            &&& l.free_memory <= l.total_memory <= context.mem_total
            &&& l.free_swap == context.swap_free
            &&& stat matches Some(c) && first_value_for(
                spec_read_table(c, 0x20u8),
                seq![0x74u8, 0x6fu8, 0x74u8, 0x61u8, 0x6cu8, 0x5fu8, 0x72u8, 0x73u8, 0x73u8],
            ) == Some(l.rss)
        },
{
    lemma_limits_fold_bounds(v2_readings(lv), context.mem_total);
    lemma_limits_fold_bounds(v1_readings(lv), context.mem_total);
    assert(anon_word() == seq![0x61u8, 0x6eu8, 0x6fu8, 0x6eu8]);
}


/// Whether the entry `k` of `e` is the last one with the key `key`.
pub open spec fn last_with_key(e: Seq<(Seq<u8>, u64)>, k: int, key: Seq<u8>) -> bool {
    &&& 0 <= k < e.len()
    &&& e[k].0 == key
    &&& forall|j: int| k < j < e.len() ==> (#[trigger] e[j]).0 != key
}

/// The system figures of `/proc/meminfo` (in KiB) come, in bytes, from the last line of
/// each key: `MemTotal` (none without such a line), `SwapTotal` and `SwapFree` (0
/// without one).
pub proof fn meminfo_takes_the_last_lines(e: Seq<(Seq<u8>, u64)>)
    ensures
        ({
            let mt = seq![0x4du8, 0x65u8, 0x6du8, 0x54u8, 0x6fu8, 0x74u8, 0x61u8, 0x6cu8];
            let st = seq![0x53u8, 0x77u8, 0x61u8, 0x70u8, 0x54u8, 0x6fu8, 0x74u8, 0x61u8, 0x6cu8];
            let sf = seq![0x53u8, 0x77u8, 0x61u8, 0x70u8, 0x46u8, 0x72u8, 0x65u8, 0x65u8];
            let m = meminfo_of(e);
            &&& (forall|k: int| 0 <= k < e.len() ==> (#[trigger] e[k]).0 != mt) ==> m.0 is None
            &&& (forall|k: int| 0 <= k < e.len() ==> (#[trigger] e[k]).0 != st) ==> m.1 == 0
            &&& (forall|k: int| 0 <= k < e.len() ==> (#[trigger] e[k]).0 != sf) ==> m.2 == 0
            &&& forall|k: int| #[trigger] last_with_key(e, k, mt) ==> m.0 == Some(sat_mul(e[k].1, 1024))
            &&& forall|k: int| #[trigger] last_with_key(e, k, st) ==> m.1 == sat_mul(e[k].1, 1024)
            &&& forall|k: int| #[trigger] last_with_key(e, k, sf) ==> m.2 == sat_mul(e[k].1, 1024)
        }),
    decreases e.len(),
{
    let mt = seq![0x4du8, 0x65u8, 0x6du8, 0x54u8, 0x6fu8, 0x74u8, 0x61u8, 0x6cu8];
    let st = seq![0x53u8, 0x77u8, 0x61u8, 0x70u8, 0x54u8, 0x6fu8, 0x74u8, 0x61u8, 0x6cu8];
    let sf = seq![0x53u8, 0x77u8, 0x61u8, 0x70u8, 0x46u8, 0x72u8, 0x65u8, 0x65u8];
    assert(mem_total_word() == mt && swap_total_word() == st && swap_free_word() == sf);
    assert(mt != st && mt != sf && st != sf) by {
        assert(mt.len() != st.len());
        assert(st.len() != sf.len());
        assert(mt[4] != sf[4]);
    }
    if e.len() > 0 {
        let p = e.drop_last();
        let n = e.len() - 1;
        meminfo_takes_the_last_lines(p);
        assert forall|k: int| 0 <= k < n implies #[trigger] e[k] == p[k] by {}
        assert forall|key: Seq<u8>, k: int| k < n && #[trigger] last_with_key(e, k, key) && e[n].0 != key implies last_with_key(p, k, key) by {
            assert forall|j: int| k < j < p.len() implies (#[trigger] p[j]).0 != key by {
                assert(e[j] == p[j]);
            }
        }
        assert forall|key: Seq<u8>, k: int| #[trigger] last_with_key(e, k, key) && e[n].0 == key implies k == n by {
            if k < n {
                assert(e[n].0 != key);
            }
        }
    }
}

} // verus!
