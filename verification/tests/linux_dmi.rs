use sysinfo::common::Error;
use sysinfo::linux_dmi::{
    board_name, board_vendor_name, parse_device_tree_compatible, product_fact,
    product_fact_with_fallbacks, trim_trailing_nuls, trimmed_file,
};

#[test]
fn device_tree_compatible_first_entry() {
    let r = parse_device_tree_compatible(b"raspberrypi,4-model-b\0brcm,bcm2711\0");
    assert_eq!(r, Some(("raspberrypi".to_string(), "4-model-b".to_string())));
    assert_eq!(parse_device_tree_compatible(b"no-comma\0a,b\0"), None);
    assert_eq!(parse_device_tree_compatible(b"\xff,x\0"), None);
    assert_eq!(parse_device_tree_compatible(b"a,b,c"), Some(("a".to_string(), "b,c".to_string())));
    assert_eq!(parse_device_tree_compatible(b""), None);
}

#[test]
fn board_name_fallbacks() {
    let compat = Some(b"acme,board-x\0".to_vec());
    assert_eq!(
        board_name(Some(" Z690 \n".to_string()), Some("dt".to_string()), compat.clone()),
        Some("Z690".to_string())
    );
    assert_eq!(board_name(None, Some("dt-board\n".to_string()), compat.clone()), Some("dt-board".to_string()));
    assert_eq!(board_name(None, None, compat.clone()), Some("board-x".to_string()));
    assert_eq!(board_name(None, None, Some(b"nocomma".to_vec())), None);
    assert_eq!(board_name(None, None, None), None);
    assert_eq!(board_vendor_name(None, compat.clone()), Some("acme".to_string()));
    assert_eq!(board_vendor_name(Some("ASUSTeK\n".to_string()), compat), Some("ASUSTeK".to_string()));
    assert_eq!(trimmed_file(Some("\tx y \n".to_string())), Some("x y".to_string()));
    assert_eq!(trimmed_file(None), None);
}

#[test]
fn product_facts_from_sysfs() {
    assert!(matches!(product_fact(Some("Family\n".to_string()), "failed"), Ok(s) if s == "Family"));
    assert!(matches!(
        product_fact(None, "failed to retrieve product family"),
        Err(Error::Other(m)) if m == "failed to retrieve product family"
    ));
    assert_eq!(trim_trailing_nuls("model\0\0"), "model");
    assert_eq!(trim_trailing_nuls("\0a\0b"), "\0a\0b");
    let r = product_fact_with_fallbacks(
        None,
        vec![None, Some(" Raspberry Pi 4\0".to_string()), Some("other".to_string())],
        "failed to retrieve product name",
    );
    assert!(matches!(r, Ok(s) if s == "Raspberry Pi 4"));
    let r = product_fact_with_fallbacks(Some(" X1 \n".to_string()), vec![Some("y".to_string())], "m");
    assert!(matches!(r, Ok(s) if s == "X1"));
    let r = product_fact_with_fallbacks(None, vec![None, None], "failed to retrieve product name");
    assert!(matches!(r, Err(Error::Other(m)) if m == "failed to retrieve product name"));
}
