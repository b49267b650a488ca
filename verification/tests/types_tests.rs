use ch4::types::{is_data_type, is_meta_type, push_class, push_opcode, push_rcode, rcode_extended,
    type_from_str, type_to_string};

#[test]
fn type_names_render() {
    assert_eq!(type_to_string(1), "A");
    assert_eq!(type_to_string(15), "MX");
    assert_eq!(type_to_string(28), "AAAA");
    assert_eq!(type_to_string(255), "ANY");
    assert_eq!(type_to_string(300), "TYPE300");
    assert_eq!(type_to_string(41), "OPT");
}

#[test]
fn type_parse_round_trip() {
    for v in [1u16, 2, 5, 6, 12, 15, 16, 28, 33, 41, 252, 253, 254, 255, 300, 65535] {
        assert_eq!(type_from_str(&type_to_string(v)), Some(v));
    }
}

#[test]
fn type_parse_is_case_sensitive() {
    assert_eq!(type_from_str("MX"), Some(15));
    assert_eq!(type_from_str("mx"), None);
    assert_eq!(type_from_str("Type300"), None);
    assert_eq!(type_from_str("TYPE70000"), None);
    assert_eq!(type_from_str("TYPE+3"), Some(3));
    assert_eq!(type_from_str("NOPE"), None);
}

#[test]
fn data_and_meta_ranges() {
    assert!(is_data_type(1));
    assert!(is_data_type(41));
    assert!(is_data_type(300));
    assert!(!is_data_type(255));
    assert!(!is_data_type(0));
    assert!(is_meta_type(255));
    assert!(is_meta_type(252));
    assert!(!is_meta_type(1));
}

#[test]
fn class_opcode_rcode_render() {
    let mut s = String::new();
    push_class(&mut s, 1);
    s.push(' ');
    push_class(&mut s, 255);
    s.push(' ');
    push_class(&mut s, 5);
    assert_eq!(s, "IN ANY CLASS5");

    let mut s = String::new();
    push_opcode(&mut s, 0);
    s.push(' ');
    push_opcode(&mut s, 9);
    assert_eq!(s, "QUERY OPCODE9");

    let mut s = String::new();
    push_rcode(&mut s, 0);
    s.push(' ');
    push_rcode(&mut s, 3);
    s.push(' ');
    push_rcode(&mut s, 16);
    s.push(' ');
    push_rcode(&mut s, 23);
    assert_eq!(s, "NOERROR NXDOMAIN BADVERS RCODE23");
}

#[test]
fn extended_rcode_combines() {
    assert_eq!(rcode_extended(3, 2), 0x23);
    assert_eq!(rcode_extended(0, 1), 16);
    assert_eq!(rcode_extended(0x0f, 0), 15);
}
