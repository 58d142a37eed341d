use sysinfo::path::file_name;
use sysinfo::text::{ascii_tokens, copy_pieces, push_decimal};

#[test]
fn file_names_of_paths() {
    assert_eq!(file_name(b"/usr/bin/ls"), Some(b"ls".to_vec()));
    assert_eq!(file_name(b"/usr/bin/"), Some(b"bin".to_vec()));
    assert_eq!(file_name(b"bin/./"), Some(b"bin".to_vec()));
    assert_eq!(file_name(b"a/.."), None);
    assert_eq!(file_name(b"/"), None);
    assert_eq!(file_name(b"."), None);
    assert_eq!(file_name(b""), None);
}

#[test]
fn tokens_between_ascii_whitespace() {
    assert_eq!(
        ascii_tokens(b"  a\tbc\n\x0cd\r "),
        vec![b"a".to_vec(), b"bc".to_vec(), b"d".to_vec()]
    );
    // A vertical tab is no ASCII whitespace for `u8::is_ascii_whitespace`.
    assert_eq!(ascii_tokens(b"a\x0bb"), vec![b"a\x0bb".to_vec()]);
    assert!(ascii_tokens(b" \t").is_empty());
}

#[test]
fn decimal_digits_and_copies() {
    let mut v = b"n=".to_vec();
    push_decimal(&mut v, 0);
    assert_eq!(v, b"n=0".to_vec());
    let mut w = Vec::new();
    push_decimal(&mut w, u64::MAX);
    assert_eq!(w, b"18446744073709551615".to_vec());
    let pieces = vec![b"x".to_vec(), Vec::new(), b"yz".to_vec()];
    assert_eq!(copy_pieces(&pieces), pieces);
}
