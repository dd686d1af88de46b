use executable_packer::compare::are_compatible;
use executable_packer::listing::{parse_line, parse_listing};
use executable_packer::paths::{file_name, join};

const LDD_OUTPUT: &str = "\tlinux-vdso.so.1 (0x00007ffc2d1f2000)\n\tlibX.so => /opt/x/libX.so (0x00007f3a1c000000)\n\tlibc.so.6 => /lib/x86_64-linux-gnu/libc.so.6 (0x00007f3a1be00000)\n\t/lib64/ld-linux-x86-64.so.2 (0x00007f3a1c200000)\n";

#[test]
fn listing_keeps_resolved_paths_in_order() {
    let paths = parse_listing(LDD_OUTPUT.as_bytes()).ok().unwrap();
    assert_eq!(
        paths,
        vec![b"/opt/x/libX.so".to_vec(), b"/lib/x86_64-linux-gnu/libc.so.6".to_vec()]
    );
}

#[test]
fn listing_of_static_binary_is_empty() {
    let paths = parse_listing(b"\tnot a dynamic executable\n").ok().unwrap();
    assert!(paths.is_empty());
    assert!(parse_listing(b"").ok().unwrap().is_empty());
}

#[test]
fn listing_rejects_path_with_space() {
    let text = b"\tlibok.so => /lib/libok.so (0x1)\n\tlibs.so => /my libs/libs.so (0x2)\n";
    let err = parse_listing(text).err().unwrap();
    assert_eq!(err.line, b"libs.so => /my libs/libs.so (0x2)".to_vec());
}

#[test]
fn listing_skips_unresolved_entry() {
    let text = b"\tlibgone.so => not found\n\tlibm.so.6 => /lib/libm.so.6 (0x1)\n";
    let paths = parse_listing(text).ok().unwrap();
    assert_eq!(paths, vec![b"/lib/libm.so.6".to_vec()]);
}

#[test]
fn listing_rejects_missing_path() {
    let err = parse_listing(b"\tlibq.so =>  (0x1)\n").err().unwrap();
    assert_eq!(err.line, b"libq.so =>  (0x1)".to_vec());
}

#[test]
fn line_without_separator_is_skipped() {
    assert_eq!(parse_line(b"\t/lib64/ld-linux-x86-64.so.2 (0x7f)").ok().unwrap(), None);
}

#[test]
fn line_with_separator_gives_path() {
    assert_eq!(
        parse_line(b"\tlibm.so.6 => /lib/libm.so.6 (0x00007f)").ok().unwrap(),
        Some(b"/lib/libm.so.6".to_vec())
    );
}

#[test]
fn line_with_two_separators_is_malformed() {
    assert!(parse_line(b"a => b => /lib/c.so (0x1)").is_err());
}

#[test]
fn file_name_is_last_component() {
    assert_eq!(file_name(b"/usr/lib/libc.so.6"), Some(b"libc.so.6".to_vec()));
    assert_eq!(file_name(b"libz.so"), Some(b"libz.so".to_vec()));
    assert_eq!(file_name(b"/usr/lib/"), None);
    assert_eq!(file_name(b"/usr/.."), None);
}

#[test]
fn join_adds_one_separator() {
    assert_eq!(join(b"app/lib", b"libX.so"), b"app/lib/libX.so".to_vec());
    assert_eq!(join(b"app/lib/", b"libX.so"), b"app/lib/libX.so".to_vec());
    assert_eq!(join(b"", b"libX.so"), b"libX.so".to_vec());
}

#[test]
fn missing_file_is_always_compatible() {
    let some: &[u8] = b"\x7fELF anything";
    assert!(are_compatible(None, Some(some)));
    assert!(are_compatible(Some(some), None));
    assert!(are_compatible(None, None));
    assert!(are_compatible(None, Some(b"")));
}

#[test]
fn compatibility_compares_bytes() {
    assert!(are_compatible(Some(b"abc"), Some(b"abc")));
    assert!(!are_compatible(Some(b"abc"), Some(b"abcd")));
    assert!(!are_compatible(Some(b"abc"), Some(b"abd")));
    assert!(are_compatible(Some(b""), Some(b"")));
}
