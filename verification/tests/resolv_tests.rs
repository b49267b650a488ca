use ch4::addr::IpAddress;
use ch4::resolv::{line_nameserver, parse_resolv_conf};

fn octets(ip: &IpAddress) -> Vec<u8> {
    match ip {
        IpAddress::V4(a) => a.octets.clone(),
        _ => panic!("expected a v4 address"),
    }
}

#[test]
fn reads_nameserver_lines_in_order() {
    let lines: Vec<String> = vec![
        "# a comment".to_string(),
        "".to_string(),
        "nameserver 1.2.3.4".to_string(),
        "options ndots:1".to_string(),
        "  nameserver\t2606:4700:4700::1111  trailing".to_string(),
        "nameserver bogus".to_string(),
        "nameserver 8.8.8.8".to_string(),
        "nameserver ::ffff:9.9.9.9".to_string(),
    ];
    let ips = parse_resolv_conf(&lines);
    assert_eq!(ips.len(), 4);
    assert_eq!(octets(&ips[0]), vec![1, 2, 3, 4]);
    match &ips[1] {
        IpAddress::V6(a) => {
            assert_eq!(a.segments, vec![0x2606, 0x4700, 0x4700, 0, 0, 0, 0, 0x1111]);
        },
        _ => panic!("expected a v6 address"),
    }
    assert_eq!(octets(&ips[2]), vec![8, 8, 8, 8]);
    match &ips[3] {
        IpAddress::V6(a) => {
            assert_eq!(a.segments, vec![0, 0, 0, 0, 0, 0xffff, 0x0909, 0x0909]);
        },
        _ => panic!("expected a v6 address"),
    }
}

#[test]
fn line_shapes() {
    assert!(line_nameserver("nameserver 1.1.1.1").is_some());
    assert!(line_nameserver("   nameserver   1.1.1.1").is_some());
    assert!(line_nameserver("nameserver").is_none());
    assert!(line_nameserver("nameserver ").is_none());
    assert!(line_nameserver("#nameserver 1.1.1.1").is_none());
    assert!(line_nameserver("search example.com").is_none());
    assert!(line_nameserver("").is_none());
    assert!(line_nameserver("nameservers 1.1.1.1").is_none());
}
