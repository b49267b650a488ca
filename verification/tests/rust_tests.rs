use ch4::rust::fmt;

#[test]
fn two_rows_align_and_carry_offsets() {
    let bytes: Vec<u8> = b"ABCDEFGHIJKLM".to_vec();
    let mut s = String::new();
    fmt(&mut s, None, None, "M0", &bytes);
    let expected = format!(
        "const M0: [u8; 13] = [\n    0x41, 0x42, 0x43, 0x44, 0x45, 0x46, 0x47, 0x48, 0x49, 0x4a, 0x4b, 0x4c, // |ABCDEFGHIJKL| 0\n    0x4d, /*{}*/ // |M| 12\n];\n",
        " ".repeat(61),
    );
    assert_eq!(s, expected);

    let lines: Vec<&str> = s.lines().collect();
    let full = lines[1];
    let short = lines[2];
    assert_eq!(full.find(" // |"), short.find(" // |"), "comment columns must align");
}

#[test]
fn heading_names_type_and_query() {
    let bytes = vec![0u8, 1];
    let mut s = String::new();
    fmt(&mut s, Some(15), Some("example.com"), "M3", &bytes);
    assert!(s.starts_with("// MX example.com\nconst M3: [u8; 2] = [\n"));
    assert!(s.contains("    0x00, 0x01, // |..| 0\n"));
}

#[test]
fn heading_needs_both_parts() {
    let bytes = vec![0x41u8];
    let mut s = String::new();
    fmt(&mut s, Some(15), None, "M1", &bytes);
    assert_eq!(s, "const M1: [u8; 1] = [\n    0x41, // |A| 0\n];\n");
}

#[test]
fn empty_buffer_emits_no_rows() {
    let bytes: Vec<u8> = Vec::new();
    let mut s = String::new();
    fmt(&mut s, None, None, "M9", &bytes);
    assert_eq!(s, "const M9: [u8; 0] = [\n];\n");
}

#[test]
fn nonprintable_bytes_become_dots() {
    let bytes = vec![0x00u8, 0x1f, 0x20, 0x7e, 0x7f, 0xff];
    let mut s = String::new();
    fmt(&mut s, None, None, "M2", &bytes);
    assert!(s.contains("// |.. ~..| 0\n"), "got:\n{}", s);
}
