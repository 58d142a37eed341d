//! Motherboard and product facts of Linux: what the DMI files of sysfs and the
//! device tree give, which source wins, and how the text is cleaned up.
use vstd::prelude::*;
use vstd::string::StringSliceAdditionalSpecFns;
use vstd::utf8::{valid_utf8, decode_utf8, encode_utf8};
use crate::common::Error;
use crate::text::{find_from, lemma_find_from, find_byte_from, copy_range, trim, trim_str, string_from_utf8};

verus! {

// ---------------------------------------------------------------------------
// The device tree
// ---------------------------------------------------------------------------

/// The first entry of `/proc/device-tree/compatible`: its bytes before the first NUL.
pub open spec fn compatible_entry(b: Seq<u8>) -> Seq<u8> {
    b.subrange(0, find_from(b, 0u8, 0))
}

/// The vendor and board name of the first `compatible` entry, split at its first
/// comma; `None` when that entry is not UTF-8 or holds no comma.
pub open spec fn spec_device_tree_compatible(b: Seq<u8>) -> Option<(Seq<char>, Seq<char>)> {
    let e = compatible_entry(b);
    let k = find_from(e, 0x2cu8, 0);
    if !valid_utf8(e) || k >= e.len() {
        None
    } else {
        Some((decode_utf8(e.subrange(0, k)), decode_utf8(e.subrange(k + 1, e.len() as int))))
    }
}

/// Splitting well-formed UTF-8 around an ASCII byte gives two pieces of well-formed
/// UTF-8 that decode to the text before and after it.
proof fn lemma_split_around_ascii(e: Seq<u8>, k: int)
    requires
        valid_utf8(e),
        0 <= k < e.len(),
        e[k] < 0x80,
    ensures
        valid_utf8(e.subrange(0, k)),
        valid_utf8(e.subrange(k + 1, e.len() as int)),
        decode_utf8(e) == decode_utf8(e.subrange(0, k)) + seq![e[k] as char] + decode_utf8(
            e.subrange(k + 1, e.len() as int),
        ),
{
    vstd::utf8::is_char_boundary_iff_not_is_continuation_byte(e, k);
    vstd::utf8::valid_utf8_split(e, k);
    vstd::utf8::decode_utf8_split(e, k);
    let s2 = e.subrange(k, e.len() as int);
    let rest = e.subrange(k + 1, e.len() as int);
    assert(s2[0] == e[k]);
    assert(vstd::utf8::pop_first_scalar(s2) =~= rest);
    let b0 = e[k];
    assert((b0 & 0x7f) == b0) by (bit_vector)
        requires
            b0 < 0x80,
    ;
    assert(decode_utf8(s2) =~= seq![e[k] as char] + decode_utf8(rest));
}

/// The vendor and the board name that the first entry of
/// `/proc/device-tree/compatible` gives.
pub fn parse_device_tree_compatible(bytes: &[u8]) -> (r: Option<(String, String)>)
    ensures
        match r {
            Some((vendor, board)) => spec_device_tree_compatible(bytes@) == Some((vendor@, board@)),
            None => spec_device_tree_compatible(bytes@) is None,
        },
{
    let end = find_byte_from(bytes, 0, 0);
    let entry = copy_range(bytes, 0, end);
    assert(entry@ =~= compatible_entry(bytes@));
    if !crate::text::is_valid_utf8(entry.as_slice()) {
        return None;
    }
    let k = find_byte_from(entry.as_slice(), 0x2c, 0);
    if k >= entry.len() {
        return None;
    }
    proof {
        lemma_find_from(entry@, 0x2cu8, 0);
        lemma_split_around_ascii(entry@, k as int);
    }
    let before = copy_range(entry.as_slice(), 0, k);
    let after = copy_range(entry.as_slice(), k + 1, entry.len());
    let vendor = string_from_utf8(before);
    let board = string_from_utf8(after);
    match (vendor, board) {
        (Some(v), Some(b)) => Some((v, b)),
        _ => None,
    }
}

// ---------------------------------------------------------------------------
// Cleaning up
// ---------------------------------------------------------------------------

/// The text of a file of sysfs as the facts give it: without leading and trailing
/// whitespace.
pub fn trimmed(text: &String) -> (r: String)
    ensures
        encode_utf8(r@) == trim(encode_utf8(text@)),
{
    let t = trim_str(text.as_str());
    t.to_owned()
}

/// The text of a file of sysfs when it could be read, trimmed.
pub fn trimmed_file(text: Option<String>) -> (r: Option<String>)
    ensures
        match text {
            None => r is None,
            Some(t) => r matches Some(s) && encode_utf8(s@) == trim(encode_utf8(t@)),
        },
{
    match text {
        None => None,
        Some(t) => Some(trimmed(&t)),
    }
}

/// The number of bytes of `b` left once its trailing NULs are dropped.
pub open spec fn without_trailing_nuls_len(b: Seq<u8>) -> int
    decreases b.len(),
{
    if b.len() > 0 && b.last() == 0u8 {
        without_trailing_nuls_len(b.drop_last())
    } else {
        b.len() as int
    }
}

proof fn lemma_without_trailing_nuls(b: Seq<u8>)
    ensures
        0 <= without_trailing_nuls_len(b) <= b.len(),
        forall|i: int| without_trailing_nuls_len(b) <= i < b.len() ==> b[i] == 0u8,
        without_trailing_nuls_len(b) > 0 ==> b[without_trailing_nuls_len(b) - 1] != 0u8,
    decreases b.len(),
{
    if b.len() > 0 && b.last() == 0u8 {
        let d = b.drop_last();
        lemma_without_trailing_nuls(d);
        assert forall|i: int| without_trailing_nuls_len(b) <= i < b.len() implies b[i] == 0u8 by {
            if i < d.len() {
                assert(b[i] == d[i]);
            }
        }
        if without_trailing_nuls_len(b) > 0 {
            assert(b[without_trailing_nuls_len(b) - 1] == d[without_trailing_nuls_len(b) - 1]);
        }
    }
}

/// A string without its trailing NULs (`str::trim_end_matches('\0')`), as the
/// device tree files end with one.
pub fn trim_trailing_nuls(s: &str) -> (r: String)
    ensures
        encode_utf8(r@) == s.spec_bytes().subrange(0, without_trailing_nuls_len(s.spec_bytes())),
{
    let b = s.as_bytes();
    let ghost bs = s.spec_bytes();
    let mut j = b.len();
    proof {
        lemma_without_trailing_nuls(bs);
        assert(bs.subrange(0, j as int) =~= bs);
    }
    while j > 0 && b[j - 1] == 0
        invariant
            j <= b@.len(),
            b@ == bs,
            without_trailing_nuls_len(bs.subrange(0, j as int)) == without_trailing_nuls_len(bs),
            forall|i: int| j <= i < bs.len() ==> bs[i] == 0u8,
        decreases j,
    {
        proof {
            assert(bs.subrange(0, j as int).drop_last() =~= bs.subrange(0, j - 1));
        }
        j = j - 1;
    }
    proof {
        let p = bs.subrange(0, j as int);
        assert(without_trailing_nuls_len(p) == j);
        vstd::utf8::encode_utf8_valid_utf8(s@);
        vstd::utf8::is_char_boundary_start_end_of_seq(bs);
        if j < bs.len() {
            vstd::utf8::is_char_boundary_iff_not_is_continuation_byte(bs, j as int);
        }
    }
    let (head, _tail) = s.split_at(j);
    proof {
        vstd::utf8::encode_utf8_decode_utf8(head@);
    }
    head.to_owned()
}

// ---------------------------------------------------------------------------
// The motherboard
// ---------------------------------------------------------------------------

/// The text of the first source that gave one.
pub open spec fn first_text(a: Option<Seq<char>>, b: Option<Seq<char>>) -> Option<Seq<char>> {
    match a {
        Some(t) => Some(t),
        None => b,
    }
}

pub open spec fn text_of(s: Option<String>) -> Option<Seq<char>> {
    match s {
        Some(t) => Some(t@),
        None => None,
    }
}

/// The board part (`.1`) or the vendor part (`.0`) of `compatible`, when it was read
/// and parses.
pub open spec fn compatible_part(compatible: Option<Vec<u8>>, board: bool) -> Option<Seq<char>> {
    match compatible {
        Some(b) => match spec_device_tree_compatible(b@) {
            Some(p) => Some(if board { p.1 } else { p.0 }),
            None => None,
        },
        None => None,
    }
}

/// Whether `r` is the trimmed text of `src` (`None` when `src` is).
pub open spec fn is_trimmed(r: Option<String>, src: Option<Seq<char>>) -> bool {
    match src {
        None => r is None,
        Some(t) => r matches Some(s) && encode_utf8(s@) == trim(encode_utf8(t)),
    }
}

fn compatible_parts(compatible: &Option<Vec<u8>>) -> (r: Option<(String, String)>)
    ensures
        match compatible {
            Some(b) => match r {
                Some((v, n)) => spec_device_tree_compatible(b@) == Some((v@, n@)),
                None => spec_device_tree_compatible(b@) is None,
            },
            None => r is None,
        },
{
    match compatible {
        Some(b) => parse_device_tree_compatible(b.as_slice()),
        None => None,
    }
}

/// The name of the motherboard: `board_name` of the DMI files, else the device
/// tree's `board`, else the board part of its `compatible`; trimmed.
pub fn board_name(
    dmi_board_name: Option<String>,
    device_tree_board: Option<String>,
    compatible: Option<Vec<u8>>,
) -> (r: Option<String>)
    ensures
        is_trimmed(
            r,
            first_text(
                text_of(dmi_board_name),
                first_text(text_of(device_tree_board), compatible_part(compatible, true)),
            ),
        ),
{
    match dmi_board_name {
        Some(t) => Some(trimmed(&t)),
        None => match device_tree_board {
            Some(t) => Some(trimmed(&t)),
            None => match compatible_parts(&compatible) {
                Some((_, n)) => Some(trimmed(&n)),
                None => None,
            },
        },
    }
}

/// The vendor of the motherboard: `board_vendor` of the DMI files, else the vendor
/// part of the device tree's `compatible`; trimmed.
pub fn board_vendor_name(dmi_board_vendor: Option<String>, compatible: Option<Vec<u8>>) -> (r: Option<
    String,
>)
    ensures
        is_trimmed(r, first_text(text_of(dmi_board_vendor), compatible_part(compatible, false))),
{
    match dmi_board_vendor {
        Some(t) => Some(trimmed(&t)),
        None => match compatible_parts(&compatible) {
            Some((v, _)) => Some(trimmed(&v)),
            None => None,
        },
    }
}

// ---------------------------------------------------------------------------
// The product
// ---------------------------------------------------------------------------

/// A fact of the product read from one DMI file: its trimmed text, or the error
/// `message` when the file could not be read.
pub fn product_fact(text: Option<String>, message: &str) -> (r: Result<String, Error>)
    ensures
        match text {
            Some(t) => r matches Ok(s) && encode_utf8(s@) == trim(encode_utf8(t@)),
            None => r matches Err(Error::Other(m)) && m@ == message@,
        },
{
    match text {
        Some(t) => Ok(trimmed(&t)),
        None => Err(Error::Other(message.to_owned())),
    }
}

/// The text a device tree file gives once its trailing NULs are dropped.
pub open spec fn device_tree_text(t: Seq<char>) -> Seq<u8> {
    encode_utf8(t).subrange(0, without_trailing_nuls_len(encode_utf8(t)))
}

/// The text of the first device tree file that could be read, without trailing NULs.
pub open spec fn first_device_tree_text(files: Seq<Option<String>>, i: int) -> Option<Seq<u8>>
    decreases files.len() - i,
{
    if i < 0 || i >= files.len() {
        None
    } else {
        match files[i] {
            Some(t) => Some(device_tree_text(t@)),
            None => first_device_tree_text(files, i + 1),
        }
    }
}

/// A fact of the product read from its DMI file when there is one, else from the
/// first of the device tree files (`fallbacks`, in order) that could be read, its
/// trailing NULs dropped; trimmed. The error `message` when none could be read.
pub fn product_fact_with_fallbacks(dmi: Option<String>, fallbacks: Vec<Option<String>>, message: &str) -> (r:
    Result<String, Error>)
    ensures
        match dmi {
            Some(t) => r matches Ok(s) && encode_utf8(s@) == trim(encode_utf8(t@)),
            None => match first_device_tree_text(fallbacks@, 0) {
                Some(b) => r matches Ok(s) && encode_utf8(s@) == trim(b),
                None => r matches Err(Error::Other(m)) && m@ == message@,
            },
        },
{
    match dmi {
        Some(t) => return Ok(trimmed(&t)),
        None => {},
    }
    let ghost all = fallbacks@;
    let n = fallbacks.len();
    let mut rest = fallbacks;
    let mut i: usize = 0;
    while i < n
        invariant
            i <= n == all.len(),
            dmi is None,
            all == fallbacks@,
            rest@ == all.subrange(i as int, n as int),
            first_device_tree_text(all, i as int) == first_device_tree_text(all, 0),
        decreases n - i,
    {
        let f = rest.remove(0);
        assert(f == all[i as int]);
        match f {
            Some(t) => {
                let ts = t.as_str();
                let cut = trim_trailing_nuls(ts);
                proof {
                    assert(ts@ == t@);
                    assert(ts.spec_bytes() == encode_utf8(t@));
                    assert(first_device_tree_text(all, i as int) == Some(device_tree_text(t@)));
                }
                let s = trimmed(&cut);
                return Ok(s);
            },
            None => {},
        }
        i = i + 1;
    }
    Err(Error::Other(message.to_owned()))
}

} // verus!
