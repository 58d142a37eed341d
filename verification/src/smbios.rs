//! Product and baseboard facts from the SMBIOS tables (illumos): the UUID as text,
//! the strings cleaned up, and what each query answers.
use vstd::prelude::*;
use vstd::string::StringSliceAdditionalSpecFns;
use vstd::utf8::{valid_utf8, decode_utf8, encode_utf8};
use crate::common::Error;
use crate::text::{
    trim, all_ascii, ascii_chars, lemma_ascii_utf8, string_from_utf8, trim_str, utf8_lossy, string_from_utf8_lossy,
};

verus! {

// ---------------------------------------------------------------------------
// Strings
// ---------------------------------------------------------------------------

/// The text of an SMBIOS string (its bytes before the NUL): decoded, ill-formed
/// sequences replaced, trimmed; `None` when nothing is left.
pub open spec fn spec_clean_string(raw: Seq<u8>) -> Option<Seq<u8>> {
    let t = trim(encode_utf8(utf8_lossy(raw)));
    if t.len() == 0 {
        None
    } else {
        Some(t)
    }
}

/// Cleans up an SMBIOS string.
pub fn copy_string(raw: &[u8]) -> (r: Option<String>)
    ensures
        match spec_clean_string(raw@) {
            None => r is None,
            Some(t) => r matches Some(s) && encode_utf8(s@) == t,
        },
{
    let s = string_from_utf8_lossy(raw);
    let t = trim_str(s.as_str());
    if t.is_empty() {
        proof {
            vstd::utf8::encode_utf8_decode_utf8(t@);
            assert(t@.len() == 0 ==> encode_utf8(t@) =~= Seq::<u8>::empty());
        }
        None
    } else {
        proof {
            if t.spec_bytes().len() == 0 {
                vstd::utf8::encode_utf8_decode_utf8(t@);
            }
        }
        Some(t.to_owned())
    }
}

// ---------------------------------------------------------------------------
// The UUID
// ---------------------------------------------------------------------------

/// The lower-case hexadecimal digit of `d` (below 16).
pub open spec fn hex_digit(d: u8) -> u8 {
    if d < 10 {
        (0x30 + d) as u8
    } else {
        (0x61 + d - 10) as u8
    }
}

/// The two lower-case hexadecimal digits of a byte.
pub open spec fn hex2(b: u8) -> Seq<u8> {
    seq![hex_digit(b / 16), hex_digit(b % 16)]
}

/// The text of an SMBIOS UUID: its first three fields are little-endian numbers
/// (bytes 0 to 3, 4 and 5, 6 and 7), the last two are bytes in order:
/// `xxxxxxxx-xxxx-xxxx-xxxx-xxxxxxxxxxxx`.
pub open spec fn uuid_text(b: Seq<u8>) -> Seq<u8> {
    hex2(b[3]) + hex2(b[2]) + hex2(b[1]) + hex2(b[0]) + seq![0x2du8] + hex2(b[5]) + hex2(b[4])
        + seq![0x2du8] + hex2(b[7]) + hex2(b[6]) + seq![0x2du8] + hex2(b[8]) + hex2(b[9])
        + seq![0x2du8] + hex2(b[10]) + hex2(b[11]) + hex2(b[12]) + hex2(b[13]) + hex2(b[14])
        + hex2(b[15])
}

/// Whether all bytes of `b` equal `v`.
pub open spec fn all_equal(b: Seq<u8>, v: u8) -> bool {
    forall|i: int| 0 <= i < b.len() ==> #[trigger] b[i] == v
}

/// Whether an SMBIOS UUID is set: 16 bytes, neither all zero nor all 0xff.
pub open spec fn uuid_is_set(b: Seq<u8>) -> bool {
    b.len() == 16 && !all_equal(b, 0) && !all_equal(b, 0xff)
}

fn push_hex2(out: &mut Vec<u8>, b: u8)
    ensures
        final(out)@ == old(out)@ + hex2(b),
        all_ascii(old(out)@) ==> all_ascii(final(out)@),
{
    let hi = b / 16;
    let lo = b % 16;
    let h = if hi < 10 { 0x30 + hi } else { 0x61 + hi - 10 };
    let l = if lo < 10 { 0x30 + lo } else { 0x61 + lo - 10 };
    out.push(h);
    out.push(l);
    proof {
        assert(final(out)@ =~= old(out)@ + hex2(b));
        if all_ascii(old(out)@) {
            assert forall|j: int| 0 <= j < final(out)@.len() implies #[trigger] final(out)@[j] < 0x80 by {
                if j < old(out)@.len() {
                    assert(final(out)@[j] == old(out)@[j]);
                }
            }
        }
    }
}

fn push_dash(out: &mut Vec<u8>)
    ensures
        final(out)@ == old(out)@ + seq![0x2du8],
        all_ascii(old(out)@) ==> all_ascii(final(out)@),
{
    out.push(0x2d);
    proof {
        assert(final(out)@ =~= old(out)@ + seq![0x2du8]);
        if all_ascii(old(out)@) {
            assert forall|j: int| 0 <= j < final(out)@.len() implies #[trigger] final(out)@[j] < 0x80 by {
                if j < old(out)@.len() {
                    assert(final(out)@[j] == old(out)@[j]);
                }
            }
        }
    }
}

/// The bytes of the text of a 16-byte UUID.
fn uuid_bytes(bytes: &[u8]) -> (out: Vec<u8>)
    requires
        bytes@.len() == 16,
    ensures
        out@ == uuid_text(bytes@),
        all_ascii(out@),
{
    let mut out: Vec<u8> = Vec::new();
    push_hex2(&mut out, bytes[3]);
    push_hex2(&mut out, bytes[2]);
    push_hex2(&mut out, bytes[1]);
    push_hex2(&mut out, bytes[0]);
    push_dash(&mut out);
    push_hex2(&mut out, bytes[5]);
    push_hex2(&mut out, bytes[4]);
    push_dash(&mut out);
    push_hex2(&mut out, bytes[7]);
    push_hex2(&mut out, bytes[6]);
    push_dash(&mut out);
    push_hex2(&mut out, bytes[8]);
    push_hex2(&mut out, bytes[9]);
    push_dash(&mut out);
    let ghost head = out@;
    let mut k: usize = 10;
    while k < 16
        invariant
            10 <= k <= 16 == bytes@.len(),
            out@ == head + hex_run(bytes@, 10, k as int),
            all_ascii(out@),
        decreases 16 - k,
    {
        push_hex2(&mut out, bytes[k]);
        proof {
            assert(out@ =~= head + hex_run(bytes@, 10, k + 1));
        }
        k = k + 1;
    }
    proof {
        reveal_with_fuel(hex_run, 7);
        assert(out@ =~= uuid_text(bytes@));
    }
    out
}

proof fn lemma_all_equal_push(s: Seq<u8>, x: u8, v: u8)
    ensures
        all_equal(s.push(x), v) == (all_equal(s, v) && x == v),
{
    let t = s.push(x);
    if all_equal(t, v) {
        assert(t[s.len() as int] == x);
        assert forall|i: int| 0 <= i < s.len() implies #[trigger] s[i] == v by {
            assert(t[i] == s[i]);
        }
    }
    if all_equal(s, v) && x == v {
        assert forall|i: int| 0 <= i < t.len() implies #[trigger] t[i] == v by {
            if i < s.len() {
                assert(t[i] == s[i]);
            }
        }
    }
}

/// The text of the product UUID that SMBIOS reports as `bytes`; `None` when there are
/// not exactly 16 bytes or the UUID is unset (all zero or all 0xff).
pub fn copy_uuid(bytes: &[u8]) -> (r: Option<String>)
    ensures
        uuid_is_set(bytes@) ==> (r matches Some(s) && s@ == ascii_chars(uuid_text(bytes@))),
        !uuid_is_set(bytes@) ==> r is None,
{
    if bytes.len() != 16 {
        return None;
    }
    let mut zero = true;
    let mut full = true;
    let mut i: usize = 0;
    while i < 16
        invariant
            i <= 16 == bytes@.len(),
            zero == all_equal(bytes@.take(i as int), 0),
            full == all_equal(bytes@.take(i as int), 0xff),
        decreases 16 - i,
    {
        proof {
            assert(bytes@.take(i + 1) =~= bytes@.take(i as int).push(bytes@[i as int]));
            lemma_all_equal_push(bytes@.take(i as int), bytes@[i as int], 0);
            lemma_all_equal_push(bytes@.take(i as int), bytes@[i as int], 0xff);
        }
        if bytes[i] != 0 {
            zero = false;
        }
        if bytes[i] != 0xff {
            full = false;
        }
        i = i + 1;
    }
    proof {
        assert(bytes@.take(16) =~= bytes@);
    }
    if zero || full {
        return None;
    }
    let out = uuid_bytes(bytes);
    proof {
        lemma_ascii_utf8(out@);
    }
    string_from_utf8(out)
}

/// The hexadecimal digits of `b[a..c]`, byte after byte.
pub open spec fn hex_run(b: Seq<u8>, a: int, c: int) -> Seq<u8>
    decreases c - a,
{
    if c <= a {
        seq![]
    } else {
        hex_run(b, a, c - 1) + hex2(b[c - 1])
    }
}

// ---------------------------------------------------------------------------
// Product and baseboard
// ---------------------------------------------------------------------------

/// The strings of an SMBIOS structure.
pub struct CommonInfo {
    pub manufacturer: Option<String>,
    pub product: Option<String>,
    pub version: Option<String>,
    pub serial: Option<String>,
    pub asset: Option<String>,
}

/// The system information of SMBIOS.
pub struct SystemInfo {
    pub common: CommonInfo,
    pub sku: Option<String>,
    pub family: Option<String>,
    pub uuid: Option<String>,
}

/// The system information, or why there is none: the SMBIOS data could not be
/// opened (`opened` false), or it holds no system information (`info` is `None`).
pub fn system_info(opened: bool, info: Option<SystemInfo>) -> (r: Result<SystemInfo, Error>)
    ensures
        !opened ==> (r matches Err(Error::Other(m)) && m@ == "failed to open system SMBIOS data"@),
        opened && info is None ==> (r matches Err(Error::Other(m)) && m@
            == "failed to retrieve system SMBIOS data"@),
        opened && info is Some ==> r == Ok::<SystemInfo, Error>(info->0),
{
    if !opened {
        return Err(Error::Other("failed to open system SMBIOS data".to_owned()));
    }
    match info {
        Some(i) => Ok(i),
        None => Err(Error::Other("failed to retrieve system SMBIOS data".to_owned())),
    }
}

/// The product, as SMBIOS describes it.
pub struct ProductInner;

impl ProductInner {
    /// The product family, from the system information; an error when the information could
    /// not be read or lacks it.
    pub fn family(info: Result<SystemInfo, Error>) -> (r: Result<String, Error>)
        ensures
            match info {
                Err(e) => r == Err::<String, Error>(e),
                Ok(i) => match i.family {
                    Some(v) => r == Ok::<String, Error>(v),
                    None => r matches Err(Error::Other(m)) && m@ == "failed to retrieve product family"@,
                },
            },
    {
        match info {
            Err(e) => Err(e),
            Ok(i) => match i.family {
                Some(v) => Ok(v),
                None => Err(Error::Other("failed to retrieve product family".to_owned())),
            },
        }
    }

    /// The product name, from the system information; an error when the information could
    /// not be read or lacks it.
    pub fn name(info: Result<SystemInfo, Error>) -> (r: Result<String, Error>)
        ensures
            match info {
                Err(e) => r == Err::<String, Error>(e),
                Ok(i) => match i.common.product {
                    Some(v) => r == Ok::<String, Error>(v),
                    None => r matches Err(Error::Other(m)) && m@ == "failed to retrieve product name"@,
                },
            },
    {
        match info {
            Err(e) => Err(e),
            Ok(i) => match i.common.product {
                Some(v) => Ok(v),
                None => Err(Error::Other("failed to retrieve product name".to_owned())),
            },
        }
    }

    /// The product serial number, from the system information; an error when the information could
    /// not be read or lacks it.
    pub fn serial_number(info: Result<SystemInfo, Error>) -> (r: Result<String, Error>)
        ensures
            match info {
                Err(e) => r == Err::<String, Error>(e),
                Ok(i) => match i.common.serial {
                    Some(v) => r == Ok::<String, Error>(v),
                    None => r matches Err(Error::Other(m)) && m@ == "failed to retrieve product serial number"@,
                },
            },
    {
        match info {
            Err(e) => Err(e),
            Ok(i) => match i.common.serial {
                Some(v) => Ok(v),
                None => Err(Error::Other("failed to retrieve product serial number".to_owned())),
            },
        }
    }

    /// The product stock keeping unit, from the system information; an error when the information could
    /// not be read or lacks it.
    pub fn stock_keeping_unit(info: Result<SystemInfo, Error>) -> (r: Result<String, Error>)
        ensures
            match info {
                Err(e) => r == Err::<String, Error>(e),
                Ok(i) => match i.sku {
                    Some(v) => r == Ok::<String, Error>(v),
                    None => r matches Err(Error::Other(m)) && m@ == "failed to retrieve product stock keeping unit"@,
                },
            },
    {
        match info {
            Err(e) => Err(e),
            Ok(i) => match i.sku {
                Some(v) => Ok(v),
                None => Err(Error::Other("failed to retrieve product stock keeping unit".to_owned())),
            },
        }
    }

    /// The product uuid, from the system information; an error when the information could
    /// not be read or lacks it.
    pub fn uuid(info: Result<SystemInfo, Error>) -> (r: Result<String, Error>)
        ensures
            match info {
                Err(e) => r == Err::<String, Error>(e),
                Ok(i) => match i.uuid {
                    Some(v) => r == Ok::<String, Error>(v),
                    None => r matches Err(Error::Other(m)) && m@ == "failed to retrieve product uuid"@,
                },
            },
    {
        match info {
            Err(e) => Err(e),
            Ok(i) => match i.uuid {
                Some(v) => Ok(v),
                None => Err(Error::Other("failed to retrieve product uuid".to_owned())),
            },
        }
    }

    /// The product version, from the system information; an error when the information could
    /// not be read or lacks it.
    pub fn version(info: Result<SystemInfo, Error>) -> (r: Result<String, Error>)
        ensures
            match info {
                Err(e) => r == Err::<String, Error>(e),
                Ok(i) => match i.common.version {
                    Some(v) => r == Ok::<String, Error>(v),
                    None => r matches Err(Error::Other(m)) && m@ == "failed to retrieve product version"@,
                },
            },
    {
        match info {
            Err(e) => Err(e),
            Ok(i) => match i.common.version {
                Some(v) => Ok(v),
                None => Err(Error::Other("failed to retrieve product version".to_owned())),
            },
        }
    }

    /// The product vendor name, from the system information; an error when the information could
    /// not be read or lacks it.
    pub fn vendor_name(info: Result<SystemInfo, Error>) -> (r: Result<String, Error>)
        ensures
            match info {
                Err(e) => r == Err::<String, Error>(e),
                Ok(i) => match i.common.manufacturer {
                    Some(v) => r == Ok::<String, Error>(v),
                    None => r matches Err(Error::Other(m)) && m@ == "failed to retrieve product vendor name"@,
                },
            },
    {
        match info {
            Err(e) => Err(e),
            Ok(i) => match i.common.manufacturer {
                Some(v) => Ok(v),
                None => Err(Error::Other("failed to retrieve product vendor name".to_owned())),
            },
        }
    }
}

/// The baseboard, as SMBIOS describes it.
pub struct MotherboardInner;

impl MotherboardInner {
    /// The baseboard, when the SMBIOS data could be opened.
    pub fn new(opened: bool) -> (r: Result<MotherboardInner, Error>)
        ensures
            opened ==> r is Ok,
            !opened ==> (r matches Err(Error::Other(m)) && m@ == "failed to open system SMBIOS data"@),
    {
        if opened {
            Ok(MotherboardInner)
        } else {
            Err(Error::Other("failed to open system SMBIOS data".to_owned()))
        }
    }

    /// The baseboard's asset tag, from the baseboard information if it could be read.
    pub fn asset_tag(&self, info: Option<CommonInfo>) -> (r: Option<String>)
        ensures
            match info {
                Some(i) => r == i.asset,
                None => r is None,
            },
    {
        match info {
            Some(i) => i.asset,
            None => None,
        }
    }

    /// The baseboard's name, from the baseboard information if it could be read.
    pub fn name(&self, info: Option<CommonInfo>) -> (r: Option<String>)
        ensures
            match info {
                Some(i) => r == i.product,
                None => r is None,
            },
    {
        match info {
            Some(i) => i.product,
            None => None,
        }
    }

    /// The baseboard's vendor, from the baseboard information if it could be read.
    pub fn vendor_name(&self, info: Option<CommonInfo>) -> (r: Option<String>)
        ensures
            match info {
                Some(i) => r == i.manufacturer,
                None => r is None,
            },
    {
        match info {
            Some(i) => i.manufacturer,
            None => None,
        }
    }

    /// The baseboard's version, from the baseboard information if it could be read.
    pub fn version(&self, info: Option<CommonInfo>) -> (r: Option<String>)
        ensures
            match info {
                Some(i) => r == i.version,
                None => r is None,
            },
    {
        match info {
            Some(i) => i.version,
            None => None,
        }
    }

    /// The baseboard's serial number, from the baseboard information if it could be read.
    pub fn serial_number(&self, info: Option<CommonInfo>) -> (r: Option<String>)
        ensures
            match info {
                Some(i) => r == i.serial,
                None => r is None,
            },
    {
        match info {
            Some(i) => i.serial,
            None => None,
        }
    }
}

/// The strings of an SMBIOS structure as `smbios_info_common` gives them: the bytes of
/// each C string before its NUL, `None` for a null pointer.
pub struct RawCommon {
    pub manufacturer: Option<Vec<u8>>,
    pub product: Option<Vec<u8>>,
    pub version: Option<Vec<u8>>,
    pub serial: Option<Vec<u8>>,
    pub asset: Option<Vec<u8>>,
}

/// Whether `r` holds the cleaned text of the C string `raw` (nothing for a null
/// pointer).
pub open spec fn cleaned(raw: Option<Vec<u8>>, r: Option<String>) -> bool {
    match raw {
        None => r is None,
        Some(b) => match spec_clean_string(b@) {
            None => r is None,
            Some(t) => r matches Some(s) && encode_utf8(s@) == t,
        },
    }
}

fn copy_optional(raw: Option<Vec<u8>>) -> (r: Option<String>)
    ensures
        cleaned(raw, r),
{
    match raw {
        Some(b) => copy_string(b.as_slice()),
        None => None,
    }
}

/// The strings of a structure, cleaned up; `None` when `smbios_info_common` failed.
pub fn common_info(raw: Option<RawCommon>) -> (r: Option<CommonInfo>)
    ensures
        r is Some == raw is Some,
        raw matches Some(c) ==> (r matches Some(i) && cleaned(c.manufacturer, i.manufacturer) && cleaned(
            c.product,
            i.product,
        ) && cleaned(c.version, i.version) && cleaned(c.serial, i.serial) && cleaned(c.asset, i.asset)),
{
    match raw {
        None => None,
        Some(c) => {
            let RawCommon { manufacturer, product, version, serial, asset } = c;
            Some(CommonInfo {
                manufacturer: copy_optional(manufacturer),
                product: copy_optional(product),
                version: copy_optional(version),
                serial: copy_optional(serial),
                asset: copy_optional(asset),
            })
        },
    }
}

/// The baseboard's strings: nothing when the SMBIOS data could not be opened or holds
/// no baseboard structure, else those that `smbios_info_common` gave for it.
pub fn baseboard_info(opened: bool, found: bool, raw: Option<RawCommon>) -> (r: Option<CommonInfo>)
    ensures
        !(opened && found) ==> r is None,
        opened && found ==> (r is Some == raw is Some),
        opened && found ==> (raw matches Some(c) ==> (r matches Some(i) && cleaned(c.manufacturer, i.manufacturer)
            && cleaned(c.product, i.product) && cleaned(c.version, i.version) && cleaned(c.serial, i.serial)
            && cleaned(c.asset, i.asset))),
{
    if !opened || !found {
        return None;
    }
    common_info(raw)
}

} // verus!
