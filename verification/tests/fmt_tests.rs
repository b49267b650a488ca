use ch4::addr::{IpAddress, Ipv4Address, SocketAddress};
use ch4::args::{Args, EdnsConfig, OutputFormat, ProtocolStrategy, Recursion};
use ch4::fmt::{Format, FormatError, MessageView};
use ch4::message::{DecodedMessage, Header, Question, RData, Record, Section};

fn args_with(format: OutputFormat, qtype: u16, save: Option<&str>) -> Args {
    Args {
        port: 53,
        query_lifetime: 10000,
        query_timeout: 2000,
        format,
        protocol: ProtocolStrategy::Udp,
        recursion: Recursion::On,
        edns: EdnsConfig { enabled: true, version: 0, udp_payload_size: 4096 },
        nameserver: None,
        qtype: Some(qtype),
        qnames: Vec::new(),
        nameservers: Vec::new(),
        save_path: save.map(|s| s.to_string()),
        read_path: None,
        positional: Vec::new(),
    }
}

fn sample_message() -> DecodedMessage {
    DecodedMessage {
        header: Header { id: 7, flags: 0x8180, qd_count: 1, an_count: 1, ns_count: 0, ar_count: 0 },
        question: Question { qname: "example.com.".to_string(), qclass: 1, qtype: 1 },
        records: vec![Record {
            section: Section::Answer,
            name: "example.com.".to_string(),
            rclass: 1,
            rtype: 1,
            ttl: 60,
            rdata: vec![1, 2, 3, 4],
            data: RData::A(Ipv4Address { octets: vec![1, 2, 3, 4] }),
        }],
    }
}

#[test]
fn short_mode_renders_rdata_lines() {
    let a = args_with(OutputFormat::Short, 1, None);
    let mut f = Format::new(&a);
    let view = MessageView::Records(vec![RData::A(Ipv4Address { octets: vec![1, 2, 3, 4] })]);
    let out = f.add(Some("example.com"), Some(1), &vec![0u8; 16], &view, None, None, None);
    assert_eq!(out.unwrap(), "1.2.3.4\n");
}

#[test]
fn short_mode_rejects_meta_and_unsupported_types() {
    let any = args_with(OutputFormat::Short, 255, None);
    let mut f = Format::new(&any);
    let view = MessageView::Records(Vec::new());
    match f.add(None, Some(255), &Vec::new(), &view, None, None, None) {
        Err(e @ FormatError::InvalidQType(255)) => {
            assert_eq!(e.message(), "invalid qtype: ANY");
        },
        _ => panic!("the wildcard type has no short form"),
    }

    let srv = args_with(OutputFormat::Short, 33, None);
    let mut g = Format::new(&srv);
    let view2 = MessageView::Records(Vec::new());
    match g.add(None, Some(33), &Vec::new(), &view2, None, None, None) {
        Err(e @ FormatError::UnsupportedQType(33)) => {
            assert_eq!(e.message(), "unsupported qtype: SRV");
        },
        _ => panic!("a type without a formatter has no short form"),
    }
}

#[test]
fn zone_results_are_separated_by_blank_lines() {
    let a = args_with(OutputFormat::Zone, 1, None);
    let mut f = Format::new(&a);
    let dm = sample_message();
    let msg = vec![0u8; 29];
    let first = f
        .add(Some("example.com"), Some(1), &msg, &MessageView::Decoded(dm.clone()), None, None,
            None)
        .unwrap();
    assert!(first.starts_with(";; ->>HEADER<<-"));
    let second = f
        .add(Some("example.com"), Some(1), &msg, &MessageView::Decoded(dm), None, None, None)
        .unwrap();
    assert!(second.starts_with("\n;; ->>HEADER<<-"));
}

#[test]
fn rust_mode_numbers_fixtures() {
    let a = args_with(OutputFormat::Rust, 1, None);
    let mut f = Format::new(&a);
    let msg = vec![0x41u8];
    let first = f.add(Some("e."), Some(1), &msg, &MessageView::Raw, None, None, None).unwrap();
    assert!(first.starts_with("// A e.\nconst M0: [u8; 1] = [\n"));
    let second = f.add(Some("e."), Some(1), &msg, &MessageView::Raw, None, None, None).unwrap();
    assert!(second.contains("const M1: [u8; 1] = [\n"));
}

#[test]
fn save_collects_session_records() {
    let a = args_with(OutputFormat::Rust, 1, Some("out.json"));
    let mut f = Format::new(&a);
    assert!(f.done().is_none());
    let msg = vec![1u8, 2, 3];
    let ns = SocketAddress { ip: IpAddress::V4(Ipv4Address { octets: vec![8, 8, 8, 8] }), port: 53 };
    f.add(Some("example.com"), Some(15), &msg, &MessageView::Raw, Some(&ns), None, None).unwrap();
    let records = f.done().expect("records waiting for the save");
    assert_eq!(records.len(), 1);
    assert_eq!(records[0].data, "AQID");
    assert_eq!(records[0].qname.as_deref(), Some("example.com"));
    assert_eq!(records[0].qtype.as_deref(), Some("MX"));
    assert_eq!(records[0].nameserver.as_deref(), Some("8.8.8.8:53"));
}

#[test]
fn no_save_path_collects_nothing() {
    let a = args_with(OutputFormat::Rust, 1, None);
    let mut f = Format::new(&a);
    f.add(None, None, &vec![0u8], &MessageView::Raw, None, None, None).unwrap();
    assert!(f.done().is_none());
}
