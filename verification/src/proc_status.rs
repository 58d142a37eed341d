//! Per-process facts read from `/proc/<pid>/status` and `/proc/<pid>/io`, and the
//! rule that keeps a known path when a fresh reading fails.
use vstd::prelude::*;
use vstd::utf8::valid_utf8;
use crate::common::IoCounters;
use crate::text::{
    views, spec_lines, lines, split_on, split_bytes, ws_fields, split_whitespace, spec_parse_u64,
    parse_u64, is_valid_utf8, starts_with_at, copy_range, range_eq,
};
use crate::users::spec_parse_u32;

verus! {

// ---------------------------------------------------------------------------
// User and group ids
// ---------------------------------------------------------------------------

/// `Uid:`.
pub open spec fn uid_key() -> Seq<u8> {
    seq![0x55u8, 0x69u8, 0x64u8, 0x3au8]
}

/// `Gid:`.
pub open spec fn gid_key() -> Seq<u8> {
    seq![0x47u8, 0x69u8, 0x64u8, 0x3au8]
}

/// `0`, what a missing id field reads as.
pub open spec fn zero_text() -> Seq<u8> {
    seq![0x30u8]
}

/// The actual and effective ids of a `Uid:` or `Gid:` line (`key`): its second and third
/// whitespace-separated fields, `0` when missing; `(None, None)` for another line.
pub open spec fn line_ids(line: Seq<u8>, key: Seq<u8>) -> (Option<u32>, Option<u32>) {
    if key.len() <= line.len() && line.subrange(0, key.len() as int) == key {
        let f = ws_fields(line);
        let actual = if f.len() >= 2 {
            f[1]
        } else {
            zero_text()
        };
        let effective = if f.len() >= 3 {
            f[2]
        } else {
            zero_text()
        };
        (spec_parse_u32(actual), spec_parse_u32(effective))
    } else {
        (None, None)
    }
}

/// The ids found so far: user (actual, effective) and group (actual, effective).
pub type IdsState = (Option<(u32, u32)>, Option<(u32, u32)>);

/// The ids after the lines `ls[i..]`; the scan stops once both are known. `None`
/// when a second `Uid:` (or `Gid:`) line comes before both are known, where a debug
/// assertion of the reading fails.
pub open spec fn ids_scan(ls: Seq<Seq<u8>>, i: int, st: IdsState) -> Option<IdsState>
    decreases ls.len() - i,
{
    if i < 0 || i >= ls.len() {
        Some(st)
    } else {
        let u = line_ids(ls[i], uid_key());
        let g = line_ids(ls[i], gid_key());
        if u.0 is Some && u.1 is Some {
            if st.0 is Some {
                None
            } else {
                let next = (Some((u.0->0, u.1->0)), st.1);
                if next.1 is Some {
                    Some(next)
                } else {
                    ids_scan(ls, i + 1, next)
                }
            }
        } else if g.0 is Some && g.1 is Some {
            if st.1 is Some {
                None
            } else {
                let next = (st.0, Some((g.0->0, g.1->0)));
                if next.0 is Some {
                    Some(next)
                } else {
                    ids_scan(ls, i + 1, next)
                }
            }
        } else {
            ids_scan(ls, i + 1, st)
        }
    }
}

/// The actual and effective user and group ids that a status file gives: `Some(None)`
/// when it is not UTF-8 or lacks one of them, `None` when the reading panics.
pub open spec fn spec_uid_and_gid(status: Seq<u8>) -> Option<Option<((u32, u32), (u32, u32))>> {
    if !valid_utf8(status) {
        Some(None)
    } else {
        match ids_scan(spec_lines(status), 0, (None, None)) {
            None => None,
            Some(st) => if st.0 is Some && st.1 is Some {
                Some(Some((st.0->0, st.1->0)))
            } else {
                Some(None)
            },
        }
    }
}

fn parse_id(f: &Vec<Vec<u8>>, k: usize) -> (r: Option<u32>)
    ensures
        r == spec_parse_u32(if k < f@.len() { views(f@)[k as int] } else { zero_text() }),
{
    let zero: [u8; 1] = [0x30];
    proof {
        assert(zero@ =~= zero_text());
    }
    let field: &[u8] = if k < f.len() { f[k].as_slice() } else { zero.as_slice() };
    match parse_u64(field) {
        Some(v) => if v <= 0xffff_ffff {
            Some(v as u32)
        } else {
            None
        },
        None => None,
    }
}

fn ids_of_line(line: &[u8], key: &[u8]) -> (r: (Option<u32>, Option<u32>))
    ensures
        r == line_ids(line@, key@),
{
    if !starts_with_at(line, 0, key) {
        return (None, None);
    }
    let f = split_whitespace(line);
    (parse_id(&f, 1), parse_id(&f, 2))
}

/// Reads the actual and effective user and group ids from the contents of
/// `/proc/<pid>/status`; `Some(None)` when they cannot be read, `None` when the
/// reading panics (two `Uid:` or `Gid:` lines).
pub fn uid_and_gid(status: &[u8]) -> (r: Option<Option<((u32, u32), (u32, u32))>>)
    ensures
        r == spec_uid_and_gid(status@),
{
    if !is_valid_utf8(status) {
        return Some(None);
    }
    let ls = lines(status);
    let ghost l = views(ls@);
    let ukey: [u8; 4] = [0x55, 0x69, 0x64, 0x3a];
    let gkey: [u8; 4] = [0x47, 0x69, 0x64, 0x3a];
    proof {
        assert(ukey@ =~= uid_key());
        assert(gkey@ =~= gid_key());
    }
    let mut uid: Option<(u32, u32)> = None;
    let mut gid: Option<(u32, u32)> = None;
    let mut i: usize = 0;
    while i < ls.len()
        invariant
            i <= ls@.len(),
            l == views(ls@),
            l == spec_lines(status@),
            valid_utf8(status@),
            ukey@ == uid_key(),
            gkey@ == gid_key(),
            ids_scan(l, i as int, (uid, gid)) == ids_scan(l, 0, (None, None)),
        decreases ls@.len() - i,
    {
        let line = ls[i].as_slice();
        assert(line@ == l[i as int]);
        let u = ids_of_line(line, ukey.as_slice());
        let g = ids_of_line(line, gkey.as_slice());
        assert(u == line_ids(l[i as int], uid_key()) && g == line_ids(l[i as int], gid_key()));
        if let (Some(actual), Some(effective)) = u {
            if uid.is_some() {
                assert(ids_scan(l, i as int, (uid, gid)) is None);
                return None;
            }
            uid = Some((actual, effective));
            if gid.is_some() {
                assert(ids_scan(l, i as int, (None, gid)) == Some((uid, gid)));
                return Some(Some((uid.unwrap(), gid.unwrap())));
            }
        } else if let (Some(actual), Some(effective)) = g {
            if gid.is_some() {
                assert(ids_scan(l, i as int, (uid, gid)) is None);
                return None;
            }
            gid = Some((actual, effective));
            if uid.is_some() {
                assert(ids_scan(l, i as int, (uid, None)) == Some((uid, gid)));
                return Some(Some((uid.unwrap(), gid.unwrap())));
            }
        }
        i = i + 1;
    }
    match (uid, gid) {
        (Some(u), Some(g)) => Some(Some((u, g))),
        _ => Some(None),
    }
}

// ---------------------------------------------------------------------------
// Disk activity
// ---------------------------------------------------------------------------

/// The first index at or after `i` where `": "` starts in `s`, or its length.
pub open spec fn colon_space_from(s: Seq<u8>, i: int) -> int
    decreases s.len() - i,
{
    if i < 0 || i + 1 >= s.len() {
        s.len() as int
    } else if s[i] == 0x3au8 && s[i + 1] == 0x20u8 {
        i
    } else {
        colon_space_from(s, i + 1)
    }
}

proof fn lemma_colon_space_from(s: Seq<u8>, i: int)
    requires
        0 <= i <= s.len(),
    ensures
        i <= colon_space_from(s, i) <= s.len(),
        colon_space_from(s, i) < s.len() ==> colon_space_from(s, i) + 1 < s.len(),
    decreases s.len() - i,
{
    if i + 1 < s.len() && !(s[i] == 0x3au8 && s[i + 1] == 0x20u8) {
        lemma_colon_space_from(s, i + 1);
    }
}

/// The key of a line of `/proc/<pid>/io`: what comes before the first `": "`.
pub open spec fn io_key(line: Seq<u8>) -> Seq<u8> {
    line.subrange(0, colon_space_from(line, 0))
}

/// The value of a line: what comes between the first `": "` and the next, if there is
/// a first.
pub open spec fn io_value(line: Seq<u8>) -> Option<Seq<u8>> {
    let k = colon_space_from(line, 0);
    if k >= line.len() {
        None
    } else {
        Some(line.subrange(k + 2, colon_space_from(line, k + 2)))
    }
}

/// `read_bytes`.
pub open spec fn read_key() -> Seq<u8> {
    seq![0x72u8, 0x65u8, 0x61u8, 0x64u8, 0x5fu8, 0x62u8, 0x79u8, 0x74u8, 0x65u8, 0x73u8]
}

/// `write_bytes`.
pub open spec fn write_key() -> Seq<u8> {
    seq![0x77u8, 0x72u8, 0x69u8, 0x74u8, 0x65u8, 0x5fu8, 0x62u8, 0x79u8, 0x74u8, 0x65u8, 0x73u8]
}

/// A new counter value read from `value`, or the previous value when it is not a number.
pub open spec fn counter_value(value: Option<Seq<u8>>, previous: u64) -> u64 {
    match value {
        Some(v) => match spec_parse_u64(v) {
            Some(n) => n,
            None => previous,
        },
        None => previous,
    }
}

/// The counters after the lines `ls[i..]`, `done` of the two counter lines having been
/// read already; the reading stops after the second.
pub open spec fn io_scan(ls: Seq<Seq<u8>>, i: int, io: IoCounters, done: nat) -> IoCounters
    decreases ls.len() - i,
{
    if i < 0 || i >= ls.len() {
        io
    } else {
        let key = io_key(ls[i]);
        if key == read_key() || key == write_key() {
            let next = if key == read_key() {
                IoCounters {
                    old_read_bytes: io.read_bytes,
                    read_bytes: counter_value(io_value(ls[i]), io.read_bytes),
                    ..io
                }
            } else {
                IoCounters {
                    old_written_bytes: io.written_bytes,
                    written_bytes: counter_value(io_value(ls[i]), io.written_bytes),
                    ..io
                }
            };
            if done + 1 > 1 {
                next
            } else {
                io_scan(ls, i + 1, next, done + 1)
            }
        } else {
            io_scan(ls, i + 1, io, done)
        }
    }
}

/// The counters after reading the contents of `/proc/<pid>/io`; unchanged when they
/// are not UTF-8.
pub open spec fn spec_disk_activity(io: IoCounters, data: Seq<u8>) -> IoCounters {
    if !valid_utf8(data) {
        io
    } else {
        io_scan(split_on(data, 0x0au8), 0, io, 0)
    }
}

fn colon_space_index(s: &[u8], start: usize) -> (r: usize)
    requires
        start <= s@.len(),
    ensures
        r == colon_space_from(s@, start as int),
{
    let mut i = start;
    while s.len() - i > 1 && !(s[i] == 0x3a && s[i + 1] == 0x20)
        invariant
            start <= i <= s@.len(),
            colon_space_from(s@, i as int) == colon_space_from(s@, start as int),
        decreases s@.len() - i,
    {
        i = i + 1;
    }
    if s.len() - i > 1 {
        i
    } else {
        s.len()
    }
}

fn counter_of(line: &[u8], previous: u64) -> (r: u64)
    ensures
        r == counter_value(io_value(line@), previous),
{
    let k = colon_space_index(line, 0);
    proof {
        lemma_colon_space_from(line@, 0);
    }
    if k >= line.len() {
        return previous;
    }
    let e = colon_space_index(line, k + 2);
    proof {
        lemma_colon_space_from(line@, k + 2);
    }
    let v = copy_range(line, k + 2, e);
    match parse_u64(v.as_slice()) {
        Some(n) => n,
        None => previous,
    }
}

/// Updates the read and written byte counters of a process from the contents of
/// `/proc/<pid>/io` (`read_bytes: <n>` and `write_bytes: <n>`): each counter found
/// rolls, keeping its previous value when the new one is not a number.
pub fn update_disk_activity(io: &mut IoCounters, data: &[u8])
    ensures
        *final(io) == spec_disk_activity(*old(io), data@),
{
    if !is_valid_utf8(data) {
        return;
    }
    let ls = split_bytes(data, 0x0a);
    let ghost l = views(ls@);
    let rk: [u8; 10] = [0x72, 0x65, 0x61, 0x64, 0x5f, 0x62, 0x79, 0x74, 0x65, 0x73];
    let wk: [u8; 11] = [0x77, 0x72, 0x69, 0x74, 0x65, 0x5f, 0x62, 0x79, 0x74, 0x65, 0x73];
    proof {
        assert(rk@ =~= read_key());
        assert(wk@ =~= write_key());
    }
    let ghost start = *io;
    let mut done: usize = 0;
    let mut i: usize = 0;
    while i < ls.len()
        invariant
            i <= ls@.len(),
            l == views(ls@),
            l == split_on(data@, 0x0au8),
            valid_utf8(data@),
            rk@ == read_key(),
            wk@ == write_key(),
            done <= 1,
            start == *old(io),
            io_scan(l, i as int, *io, done as nat) == spec_disk_activity(start, data@),
        decreases ls@.len() - i,
    {
        let line = ls[i].as_slice();
        assert(line@ == l[i as int]);
        let k = colon_space_index(line, 0);
        proof {
            lemma_colon_space_from(line@, 0);
        }
        let is_read = range_eq(line, 0, k, rk.as_slice());
        let is_write = range_eq(line, 0, k, wk.as_slice());
        let ghost before = *io;
        if is_read || is_write {
            if is_read {
                let v = counter_of(line, io.read_bytes);
                io.old_read_bytes = io.read_bytes;
                io.read_bytes = v;
            } else {
                let v = counter_of(line, io.written_bytes);
                io.old_written_bytes = io.written_bytes;
                io.written_bytes = v;
            }
            done = done + 1;
            if done > 1 {
                assert(io_scan(l, i as int, before, (done - 1) as nat) == *io);
                return;
            }
        }
        i = i + 1;
    }
}

// ---------------------------------------------------------------------------
// Paths
// ---------------------------------------------------------------------------

/// Replaces a known path with a fresh reading, unless the reading failed and a path
/// is known: a process that ends during a refresh keeps its paths.
pub fn update_optional_path(target: &mut Option<Vec<u8>>, new_val: Option<Vec<u8>>)
    ensures
        new_val is Some || *old(target) is None ==> *final(target) == new_val,
        new_val is None && *old(target) is Some ==> *final(target) == *old(target),
{
    if new_val.is_some() || target.is_none() {
        *target = new_val;
    }
}

} // verus!
