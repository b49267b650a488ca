use ch4::addr::{IpAddress, Ipv4Address};
use ch4::args::{Args, ArgsError, EdnsConfig, OutputFormat, ProtocolStrategy, Recursion};

fn base_args(tokens: &[&str]) -> Args {
    Args {
        port: 53,
        query_lifetime: 10000,
        query_timeout: 2000,
        format: OutputFormat::Zone,
        protocol: ProtocolStrategy::Udp,
        recursion: Recursion::On,
        edns: EdnsConfig { enabled: true, version: 0, udp_payload_size: 4096 },
        nameserver: None,
        qtype: None,
        qnames: Vec::new(),
        nameservers: Vec::new(),
        save_path: None,
        read_path: None,
        positional: tokens.iter().map(|t| t.to_string()).collect(),
    }
}

fn system() -> Vec<IpAddress> {
    vec![IpAddress::V4(Ipv4Address { octets: vec![9, 9, 9, 9] })]
}

#[test]
fn full_scenario() {
    let mut a = base_args(&["+tcp", "@8.8.8.8", "MX", "+short", "example.com"]);
    assert!(a.parse(&Vec::new()).is_ok());
    assert_eq!(a.protocol, ProtocolStrategy::Tcp);
    assert_eq!(a.format, OutputFormat::Short);
    assert_eq!(a.qtype, Some(15));
    assert_eq!(a.qnames, vec!["example.com".to_string()]);
    assert_eq!(a.nameservers, vec!["8.8.8.8".to_string()]);
    let ns = a.nameserver.expect("nameserver resolved");
    assert_eq!(ns.port, 53);
    match ns.ip {
        IpAddress::V4(ip) => assert_eq!(ip.octets, vec![8, 8, 8, 8]),
        _ => panic!("wrong family"),
    }
}

#[test]
fn later_protocol_token_wins() {
    let mut a = base_args(&["+tcp", "+udp"]);
    assert!(a.parse(&system()).is_ok());
    assert_eq!(a.protocol, ProtocolStrategy::Udp);

    let mut b = base_args(&["+udp", "+tcp"]);
    assert!(b.parse(&system()).is_ok());
    assert_eq!(b.protocol, ProtocolStrategy::Tcp);
}

#[test]
fn different_categories_commute() {
    let mut a = base_args(&["+tcp", "example.com", "+norec"]);
    assert!(a.parse(&system()).is_ok());
    let mut b = base_args(&["+norec", "+tcp", "example.com"]);
    assert!(b.parse(&system()).is_ok());
    assert_eq!(a.protocol, b.protocol);
    assert_eq!(a.recursion, b.recursion);
    assert_eq!(a.qnames, b.qnames);
    assert_eq!(a.recursion, Recursion::Off);
}

#[test]
fn qtype_validation() {
    let mut ok_any = base_args(&["any", "example.com"]);
    assert!(ok_any.parse(&system()).is_ok());
    assert_eq!(ok_any.qtype, Some(255));

    let mut ok_data = base_args(&["TYPE300"]);
    assert!(ok_data.parse(&system()).is_ok());
    assert_eq!(ok_data.qtype, Some(300));

    let mut bad_opt = base_args(&["OPT"]);
    match bad_opt.parse(&system()) {
        Err(ArgsError::BadQType(v)) => {
            assert_eq!(v, 41);
        },
        _ => panic!("the OPT pseudo-type must be rejected"),
    }

    let mut bad_axfr = base_args(&["axfr"]);
    match bad_axfr.parse(&system()) {
        Err(ArgsError::BadQType(v)) => assert_eq!(v, 252),
        _ => panic!("a meta type must be rejected"),
    }
}

#[test]
fn error_messages() {
    let mut bad = base_args(&["+bogus"]);
    match bad.parse(&system()) {
        Err(e) => assert_eq!(e.message(), "bad option: +bogus"),
        _ => panic!("unrecognized options are fatal"),
    }

    let mut bad_ns = base_args(&["@12.34.56"]);
    match bad_ns.parse(&system()) {
        Err(e) => assert_eq!(e.message(), "failed to parse nameserver ip address"),
        _ => panic!("a malformed address is fatal"),
    }

    let mut bad_opt = base_args(&["OPT"]);
    match bad_opt.parse(&system()) {
        Err(e) => assert_eq!(e.message(), "only data-type queries are supported or ANY: OPT"),
        _ => panic!("the OPT pseudo-type must be rejected"),
    }

    let mut no_ns = base_args(&["example.com"]);
    match no_ns.parse(&Vec::new()) {
        Err(e) => assert_eq!(e.message(), "no nameservers"),
        _ => panic!("a run without any nameserver is fatal"),
    }
}

#[test]
fn edns_and_bufsize_tokens() {
    let mut a = base_args(&["+noedns"]);
    assert!(a.parse(&system()).is_ok());
    assert!(!a.edns.enabled);

    let mut b = base_args(&["+noedns", "+edns=7", "+bufsize=512"]);
    assert!(b.parse(&system()).is_ok());
    assert!(b.edns.enabled);
    assert_eq!(b.edns.version, 7);
    assert_eq!(b.edns.udp_payload_size, 512);

    let mut c = base_args(&["+edns=abc"]);
    match c.parse(&system()) {
        Err(e) => assert_eq!(e.message(), "bad option: +edns=abc"),
        _ => panic!("a malformed version is fatal"),
    }

    let mut d = base_args(&["+bufsize=70000"]);
    assert!(d.parse(&system()).is_err());

    let mut e = base_args(&["+edns=256"]);
    assert!(e.parse(&system()).is_err());
}

#[test]
fn system_nameserver_fallback() {
    let mut a = base_args(&["example.com"]);
    assert!(a.parse(&system()).is_ok());
    match a.nameserver.expect("fallback used").ip {
        IpAddress::V4(ip) => assert_eq!(ip.octets, vec![9, 9, 9, 9]),
        _ => panic!("wrong family"),
    }
}

#[test]
fn last_nameserver_wins_and_all_are_kept() {
    let mut a = base_args(&["@1.1.1.1", "@8.8.4.4"]);
    assert!(a.parse(&Vec::new()).is_ok());
    assert_eq!(a.nameservers, vec!["1.1.1.1".to_string(), "8.8.4.4".to_string()]);
    match a.nameserver.expect("explicit nameserver").ip {
        IpAddress::V4(ip) => assert_eq!(ip.octets, vec![8, 8, 4, 4]),
        _ => panic!("wrong family"),
    }
}

#[test]
fn v6_nameserver_token() {
    let mut a = base_args(&["@2001:db8::1"]);
    assert!(a.parse(&Vec::new()).is_ok());
    match a.nameserver.expect("v6 nameserver").ip {
        IpAddress::V6(ip) => assert_eq!(ip.segments, vec![0x2001, 0xdb8, 0, 0, 0, 0, 0, 1]),
        _ => panic!("wrong family"),
    }
}

#[test]
fn mapped_v6_nameserver_token() {
    let mut a = base_args(&["@::ffff:8.8.8.8"]);
    assert!(a.parse(&Vec::new()).is_ok());
    match a.nameserver.expect("mapped nameserver").ip {
        IpAddress::V6(ip) => assert_eq!(ip.segments, vec![0, 0, 0, 0, 0, 0xffff, 0x0808, 0x0808]),
        _ => panic!("wrong family"),
    }
}

#[test]
fn cmd_line_forms() {
    let a = base_args(&["+tcp", "example.com"]);
    assert_eq!(a.cmd_line(), "+tcp example.com");

    let mut b = base_args(&["example.com"]);
    b.save_path = Some("out.json".to_string());
    assert_eq!(b.cmd_line(), "--save out.json example.com");

    let mut c = base_args(&["example.com"]);
    c.read_path = Some("in.json".to_string());
    assert_eq!(c.cmd_line(), "--read in.json example.com");

    let d = base_args(&[]);
    assert_eq!(d.cmd_line(), "");
}

#[test]
fn save_and_read_path_flags() {
    let mut a = base_args(&[]);
    assert!(!a.has_save_path());
    a.save_path = Some(String::new());
    assert!(!a.has_save_path());
    a.save_path = Some("f".to_string());
    assert!(a.has_save_path());
    assert!(!a.has_read_path());
    a.read_path = Some("g".to_string());
    assert!(a.has_read_path());
}
