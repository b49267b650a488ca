use ch4::addr::{parse_ip, parse_sockaddr, parse_v4, parse_v6, push_v4, push_v6,
    sockaddr_to_string, IpAddress, Ipv4Address, Ipv6Address, SocketAddress};

fn v4(o: [u8; 4]) -> Ipv4Address {
    Ipv4Address { octets: vec![o[0], o[1], o[2], o[3]] }
}

fn v6(s: [u16; 8]) -> Ipv6Address {
    Ipv6Address { segments: s.to_vec() }
}

fn v4_string(a: &Ipv4Address) -> String {
    let mut s = String::new();
    push_v4(&mut s, a);
    s
}

fn v6_string(a: &Ipv6Address) -> String {
    let mut s = String::new();
    push_v6(&mut s, a);
    s
}

#[test]
fn v4_renders() {
    assert_eq!(v4_string(&v4([1, 2, 3, 4])), "1.2.3.4");
    assert_eq!(v4_string(&v4([0, 0, 0, 0])), "0.0.0.0");
    assert_eq!(v4_string(&v4([255, 255, 255, 255])), "255.255.255.255");
}

#[test]
fn v4_parses() {
    assert_eq!(parse_v4("8.8.8.8").map(|a| a.octets), Some(vec![8, 8, 8, 8]));
    assert_eq!(parse_v4("0.0.0.0").map(|a| a.octets), Some(vec![0, 0, 0, 0]));
    assert!(parse_v4("01.2.3.4").is_none());
    assert!(parse_v4("256.1.1.1").is_none());
    assert!(parse_v4("1.2.3").is_none());
    assert!(parse_v4("1.2.3.4.5").is_none());
    assert!(parse_v4("1.2.3.").is_none());
    assert!(parse_v4("").is_none());
    assert!(parse_v4("a.b.c.d").is_none());
}

#[test]
fn v4_round_trip() {
    for o in [[0u8, 0, 0, 0], [8, 8, 8, 8], [192, 168, 1, 254], [255, 0, 10, 1]] {
        let a = v4(o);
        let t = v4_string(&a);
        assert_eq!(parse_v4(&t).map(|b| b.octets), Some(a.octets));
    }
}

#[test]
fn v6_renders_with_compression() {
    assert_eq!(v6_string(&v6([0, 0, 0, 0, 0, 0, 0, 0])), "::");
    assert_eq!(v6_string(&v6([0, 0, 0, 0, 0, 0, 0, 1])), "::1");
    assert_eq!(v6_string(&v6([0x2001, 0xdb8, 0, 0, 0, 0, 0, 1])), "2001:db8::1");
    assert_eq!(v6_string(&v6([1, 2, 3, 4, 5, 6, 7, 8])), "1:2:3:4:5:6:7:8");
    assert_eq!(v6_string(&v6([0x2001, 0xdb8, 0, 0, 1, 0, 0, 1])), "2001:db8::1:0:0:1");
    assert_eq!(v6_string(&v6([1, 0, 2, 3, 4, 5, 6, 7])), "1:0:2:3:4:5:6:7");
    assert_eq!(v6_string(&v6([0xfe80, 0, 0, 0, 0, 0, 0, 0])), "fe80::");
    assert_eq!(v6_string(&v6([0, 0, 0, 0, 0, 0xffff, 0x0102, 0x0304])), "::ffff:1.2.3.4");
    assert_eq!(v6_string(&v6([0, 0, 0, 0, 0, 0, 0x0102, 0x0304])), "::102:304");
}

#[test]
fn v6_parses() {
    assert_eq!(parse_v6("::").map(|a| a.segments), Some(vec![0; 8]));
    assert_eq!(parse_v6("::1").map(|a| a.segments), Some(vec![0, 0, 0, 0, 0, 0, 0, 1]));
    assert_eq!(
        parse_v6("2001:DB8::1").map(|a| a.segments),
        Some(vec![0x2001, 0xdb8, 0, 0, 0, 0, 0, 1])
    );
    assert_eq!(
        parse_v6("1:2:3:4:5:6:7:8").map(|a| a.segments),
        Some(vec![1, 2, 3, 4, 5, 6, 7, 8])
    );
    assert_eq!(
        parse_v6("1:2:3:4:5:6:7::").map(|a| a.segments),
        Some(vec![1, 2, 3, 4, 5, 6, 7, 0])
    );
    assert!(parse_v6("1:2:3:4:5:6:7:8::").is_none());
    assert!(parse_v6("1::2::3").is_none());
    assert!(parse_v6(":::").is_none());
    assert!(parse_v6(":1::2").is_none());
    assert!(parse_v6("12345::").is_none());
    assert!(parse_v6("1:2").is_none());
    assert!(parse_v6("g::1").is_none());
    assert!(parse_v6("").is_none());
}

#[test]
fn v6_parses_embedded_dotted_quad() {
    assert_eq!(
        parse_v6("::ffff:1.2.3.4").map(|a| a.segments),
        Some(vec![0, 0, 0, 0, 0, 0xffff, 0x0102, 0x0304])
    );
    assert_eq!(
        parse_v6("::8.8.8.8").map(|a| a.segments),
        Some(vec![0, 0, 0, 0, 0, 0, 0x0808, 0x0808])
    );
    assert_eq!(
        parse_v6("1:2:3:4:5:6:1.2.3.4").map(|a| a.segments),
        Some(vec![1, 2, 3, 4, 5, 6, 0x0102, 0x0304])
    );
    assert!(parse_v6("::ffff:1.2.3").is_none());
    assert!(parse_v6("::ffff:1.2.3.4.5").is_none());
    assert!(parse_v6("::ffff:01.2.3.4").is_none());
    assert!(parse_v6("::ffff:1.2.3.4:5").is_none());
    assert!(parse_v6("1.2.3.4").is_none());
    assert!(parse_v6("1.2.3.4::").is_none());
}

#[test]
fn v6_round_trip() {
    for s in [
        [0u16, 0, 0, 0, 0, 0, 0, 0],
        [0, 0, 0, 0, 0, 0, 0, 1],
        [0x2001, 0xdb8, 0, 0, 0, 0, 0, 1],
        [1, 2, 3, 4, 5, 6, 7, 8],
        [0x2001, 0xdb8, 0, 0, 1, 0, 0, 1],
        [0xfe80, 0, 0, 0, 0x1234, 0, 0, 0xabcd],
        [0, 0, 0, 0, 0, 0xffff, 0xc000, 0x0201],
    ] {
        let a = v6(s);
        let t = v6_string(&a);
        assert_eq!(parse_v6(&t).map(|b| b.segments), Some(a.segments), "text {}", t);
    }
}

#[test]
fn ip_prefers_v4() {
    match parse_ip("1.2.3.4") {
        Some(IpAddress::V4(a)) => assert_eq!(a.octets, vec![1, 2, 3, 4]),
        _ => panic!("expected a v4 address"),
    }
    match parse_ip("::1") {
        Some(IpAddress::V6(a)) => assert_eq!(a.segments, vec![0, 0, 0, 0, 0, 0, 0, 1]),
        _ => panic!("expected a v6 address"),
    }
    assert!(parse_ip("nonsense").is_none());
}

#[test]
fn sockaddr_round_trips() {
    let sa = SocketAddress { ip: IpAddress::V4(v4([8, 8, 8, 8])), port: 53 };
    let t = sockaddr_to_string(&sa);
    assert_eq!(t, "8.8.8.8:53");
    match parse_sockaddr(&t) {
        Some(b) => {
            assert_eq!(b.port, 53);
            match b.ip {
                IpAddress::V4(a) => assert_eq!(a.octets, vec![8, 8, 8, 8]),
                _ => panic!("family changed"),
            }
        },
        None => panic!("round trip failed"),
    }

    let sa6 = SocketAddress { ip: IpAddress::V6(v6([0x2001, 0xdb8, 0, 0, 0, 0, 0, 1])), port: 8080 };
    let t6 = sockaddr_to_string(&sa6);
    assert_eq!(t6, "[2001:db8::1]:8080");
    match parse_sockaddr(&t6) {
        Some(b) => {
            assert_eq!(b.port, 8080);
            match b.ip {
                IpAddress::V6(a) => assert_eq!(a.segments, vec![0x2001, 0xdb8, 0, 0, 0, 0, 0, 1]),
                _ => panic!("family changed"),
            }
        },
        None => panic!("round trip failed"),
    }
}

#[test]
fn mapped_sockaddr_round_trips() {
    let sa = SocketAddress {
        ip: IpAddress::V6(v6([0, 0, 0, 0, 0, 0xffff, 0x0808, 0x0808])),
        port: 53,
    };
    let t = sockaddr_to_string(&sa);
    assert_eq!(t, "[::ffff:8.8.8.8]:53");
    match parse_sockaddr(&t) {
        Some(b) => match b.ip {
            IpAddress::V6(a) => {
                assert_eq!(a.segments, vec![0, 0, 0, 0, 0, 0xffff, 0x0808, 0x0808]);
            },
            _ => panic!("family changed"),
        },
        None => panic!("round trip failed"),
    }
}

#[test]
fn sockaddr_rejects_malformed() {
    assert!(parse_sockaddr("8.8.8.8").is_none());
    assert!(parse_sockaddr("8.8.8.8:").is_none());
    assert!(parse_sockaddr("8.8.8.8:053").is_none());
    assert!(parse_sockaddr("8.8.8.8:70000").is_none());
    assert!(parse_sockaddr("[::1]").is_none());
    assert!(parse_sockaddr("[::1]53").is_none());
    assert!(parse_sockaddr("[zz]:53").is_none());
    assert!(parse_sockaddr("").is_none());
}
