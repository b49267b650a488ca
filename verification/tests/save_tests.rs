use ch4::addr::{IpAddress, Ipv4Address, Ipv6Address, SocketAddress};
use ch4::save::{EncodedDuration, EncodedMessage, EncodedTime};

#[test]
fn round_trip_all_fields_present() {
    let msg = vec![1u8, 2, 3];
    let ns = SocketAddress { ip: IpAddress::V4(Ipv4Address { octets: vec![8, 8, 8, 8] }), port: 53 };
    let ts = EncodedTime { secs: 1700000000, nanos: 123 };
    let dur = EncodedDuration { secs: 1, nanos: 500000000 };
    let e = EncodedMessage::encode(&msg, Some("example.com"), Some(15), Some(&ns), Some(ts),
        Some(dur));

    assert_eq!(e.data, "AQID");
    assert_eq!(e.qname.as_deref(), Some("example.com"));
    assert_eq!(e.qtype.as_deref(), Some("MX"));
    assert_eq!(e.nameserver.as_deref(), Some("8.8.8.8:53"));

    assert_eq!(e.msg(), Some(msg));
    assert_eq!(e.qname(), Some("example.com"));
    assert_eq!(e.qtype(), Some(15));
    let back = e.nameserver().expect("nameserver restored");
    assert_eq!(back.port, 53);
    match back.ip {
        IpAddress::V4(ip) => assert_eq!(ip.octets, vec![8, 8, 8, 8]),
        _ => panic!("wrong family"),
    }
    assert_eq!(e.time(), Some(ts));
    assert_eq!(e.elapsed(), Some(dur));
}

#[test]
fn round_trip_all_fields_absent() {
    let msg: Vec<u8> = Vec::new();
    let e = EncodedMessage::encode(&msg, None, None, None, None, None);
    assert_eq!(e.data, "");
    assert_eq!(e.msg(), Some(msg));
    assert_eq!(e.qname(), None);
    assert_eq!(e.qtype(), None);
    assert!(e.nameserver().is_none());
    assert_eq!(e.time(), None);
    assert_eq!(e.elapsed(), None);
}

#[test]
fn round_trip_v6_nameserver() {
    let msg = vec![0u8; 12];
    let ns = SocketAddress {
        ip: IpAddress::V6(Ipv6Address { segments: vec![0x2001, 0xdb8, 0, 0, 0, 0, 0, 1] }),
        port: 5353,
    };
    let e = EncodedMessage::encode(&msg, None, None, Some(&ns), None, None);
    assert_eq!(e.nameserver.as_deref(), Some("[2001:db8::1]:5353"));
    let back = e.nameserver().expect("nameserver restored");
    assert_eq!(back.port, 5353);
    match back.ip {
        IpAddress::V6(ip) => assert_eq!(ip.segments, vec![0x2001, 0xdb8, 0, 0, 0, 0, 0, 1]),
        _ => panic!("wrong family"),
    }
}

#[test]
fn round_trip_numeric_type_form() {
    let e = EncodedMessage::encode(&vec![7u8], None, Some(300), None, None, None);
    assert_eq!(e.qtype.as_deref(), Some("TYPE300"));
    assert_eq!(e.qtype(), Some(300));
}

#[test]
fn unparseable_stored_fields_degrade() {
    let e = EncodedMessage {
        data: "AQID".to_string(),
        qname: Some("x".to_string()),
        qtype: Some("NOPE".to_string()),
        nameserver: Some("not-an-address".to_string()),
        timestamp: None,
        duration: None,
    };
    assert_eq!(e.qtype(), None);
    assert!(e.nameserver().is_none());
    assert_eq!(e.msg(), Some(vec![1, 2, 3]));
}

#[test]
fn longer_payload_round_trip() {
    let msg: Vec<u8> = (0u8..=255).collect();
    let e = EncodedMessage::encode(&msg, None, None, None, None, None);
    assert_eq!(e.msg(), Some(msg));
}

#[test]
fn invalid_base64_surfaces() {
    let e = EncodedMessage {
        data: "!!not base64!!".to_string(),
        qname: None,
        qtype: None,
        nameserver: None,
        timestamp: None,
        duration: None,
    };
    assert_eq!(e.msg(), None);
}
