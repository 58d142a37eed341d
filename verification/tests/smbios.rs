use sysinfo::common::Error;
use sysinfo::smbios::{
    baseboard_info, common_info, RawCommon, copy_string, copy_uuid, system_info, CommonInfo, MotherboardInner, ProductInner, SystemInfo,
};

#[test]
fn formats_uuid_using_smbios_byte_order() {
    let bytes = [
        0x75, 0x36, 0x21, 0x57, 0xe8, 0x09, 0x14, 0x44, 0xa3, 0x94, 0x8f, 0x9f, 0xbb, 0x30, 0xaa,
        0x7c,
    ];
    assert_eq!(
        copy_uuid(&bytes).as_deref(),
        Some("57213675-09e8-4414-a394-8f9fbb30aa7c"),
    );
}

#[test]
fn rejects_unset_uuids() {
    assert_eq!(copy_uuid(&[0; 16]), None);
    assert_eq!(copy_uuid(&[u8::MAX; 16]), None);
}

#[test]
fn rejects_uuids_of_another_length() {
    assert_eq!(copy_uuid(&[1; 15]), None);
    assert_eq!(copy_uuid(&[1; 17]), None);
    assert_eq!(copy_uuid(&[]), None);
}

#[test]
fn cleans_smbios_strings() {
    assert_eq!(copy_string(b"  To Be Filled \t"), Some("To Be Filled".to_owned()));
    assert_eq!(copy_string(b"   "), None);
    assert_eq!(copy_string(b""), None);
    assert_eq!(copy_string(b"Acme\xff"), Some("Acme\u{fffd}".to_owned()));
}

fn info() -> SystemInfo {
    SystemInfo {
        common: CommonInfo {
            manufacturer: Some("Acme".to_owned()),
            product: Some("Box".to_owned()),
            version: None,
            serial: Some("42".to_owned()),
            asset: None,
        },
        sku: None,
        family: Some("Boxes".to_owned()),
        uuid: Some("u".to_owned()),
    }
}

fn message(r: Result<String, Error>) -> String {
    match r {
        Err(Error::Other(m)) => m,
        other => panic!("unexpected {other:?}"),
    }
}

#[test]
fn product_facts() {
    assert_eq!(ProductInner::family(Ok(info())).unwrap(), "Boxes");
    assert_eq!(ProductInner::name(Ok(info())).unwrap(), "Box");
    assert_eq!(ProductInner::vendor_name(Ok(info())).unwrap(), "Acme");
    assert_eq!(ProductInner::serial_number(Ok(info())).unwrap(), "42");
    assert_eq!(ProductInner::uuid(Ok(info())).unwrap(), "u");
    assert_eq!(message(ProductInner::version(Ok(info()))), "failed to retrieve product version");
    assert_eq!(
        message(ProductInner::stock_keeping_unit(Ok(info()))),
        "failed to retrieve product stock keeping unit"
    );
    let e = system_info(false, Some(info()));
    assert_eq!(message(ProductInner::name(e)), "failed to open system SMBIOS data");
    let e = system_info(true, None);
    assert_eq!(message(ProductInner::name(e)), "failed to retrieve system SMBIOS data");
}

#[test]
fn baseboard_facts() {
    let board = MotherboardInner::new(true).unwrap();
    assert_eq!(board.vendor_name(Some(info().common)), Some("Acme".to_owned()));
    assert_eq!(board.name(Some(info().common)), Some("Box".to_owned()));
    assert_eq!(board.serial_number(Some(info().common)), Some("42".to_owned()));
    assert_eq!(board.asset_tag(Some(info().common)), None);
    assert_eq!(board.version(None), None);
    assert!(matches!(MotherboardInner::new(false), Err(Error::Other(_))));
}

#[test]
fn baseboard_strings_are_cleaned() {
    let raw = || RawCommon {
        manufacturer: Some(b"  Example Corp ".to_vec()),
        product: Some(b"   ".to_vec()),
        version: None,
        serial: Some(b"SN\xff1".to_vec()),
        asset: Some(b"Tag".to_vec()),
    };
    let info = common_info(Some(raw())).unwrap();
    assert_eq!(info.manufacturer.as_deref(), Some("Example Corp"));
    assert_eq!(info.product, None);
    assert_eq!(info.version, None);
    assert_eq!(info.serial.as_deref(), Some("SN\u{fffd}1"));
    assert_eq!(info.asset.as_deref(), Some("Tag"));
    assert!(common_info(None).is_none());
    assert!(baseboard_info(false, true, Some(raw())).is_none());
    assert!(baseboard_info(true, false, Some(raw())).is_none());
    assert!(baseboard_info(true, true, None).is_none());
    assert_eq!(baseboard_info(true, true, Some(raw())).unwrap().asset.as_deref(), Some("Tag"));
}

#[test]
fn smbios_string_replaces_ill_formed_parts() {
    // A truncated three-byte sequence is one replacement; a stray byte is another.
    assert_eq!(copy_string(b"a\xe2\x82b\xffc"), Some("a\u{FFFD}b\u{FFFD}c".to_owned()));
    // A surrogate encoding: each byte on its own.
    assert_eq!(copy_string(b"x\xed\xa0\x80"), Some("x\u{FFFD}\u{FFFD}\u{FFFD}".to_owned()));
    assert_eq!(copy_string("é€😀".as_bytes()), Some("é€😀".to_owned()));
}
