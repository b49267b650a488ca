use ch4::addr::{IpAddress, Ipv4Address, SocketAddress};
use ch4::args::OutputFormat;
use ch4::message::{DecodedMessage, Header, Question, RData, Record, Section};
use ch4::save::{EncodedDuration, EncodedTime};
use ch4::zone::{format_flags, push_rfc3597, Output};

fn header(flags: u16, qd: u16, an: u16, ns: u16, ar: u16) -> Header {
    Header { id: 1, flags, qd_count: qd, an_count: an, ns_count: ns, ar_count: ar }
}

fn question(name: &str) -> Question {
    Question { qname: name.to_string(), qclass: 1, qtype: 1 }
}

fn a_record(section: Section, name: &str, octets: [u8; 4]) -> Record {
    Record {
        section,
        name: name.to_string(),
        rclass: 1,
        rtype: 1,
        ttl: 300,
        rdata: octets.to_vec(),
        data: RData::A(Ipv4Address { octets: octets.to_vec() }),
    }
}

fn opt_record(ttl: u32, payload: u16) -> Record {
    Record {
        section: Section::Additional,
        name: ".".to_string(),
        rclass: payload,
        rtype: 41,
        ttl,
        rdata: Vec::new(),
        data: RData::Generic,
    }
}

#[test]
fn rfc3597_generic_form() {
    let mut s = String::new();
    push_rfc3597(&mut s, &vec![0x01, 0x02, 0x03, 0x04, 0x05], 1);
    assert_eq!(s, "\\# 5 01020304 05");

    let mut t = String::new();
    push_rfc3597(&mut t, &vec![0xab], 3);
    assert_eq!(t, "\\# 1   ab");

    let mut u = String::new();
    push_rfc3597(&mut u, &Vec::new(), 0);
    assert_eq!(u, "\\# 0");
}

#[test]
fn flags_line_order() {
    assert_eq!(format_flags(0x8180), "qr rd ra");
    assert_eq!(format_flags(0x0000), "");
    assert_eq!(format_flags(0xffff), "qr aa tc rd ra");
    assert_eq!(format_flags(0x0400), "aa");
}

#[test]
fn minimal_message_renders_exactly() {
    let msg = DecodedMessage {
        header: header(0x8180, 1, 0, 0, 0),
        question: question("e."),
        records: Vec::new(),
    };
    let out = Output::new(OutputFormat::Zone, &msg, 12, None, None, None);
    let text = out.print();
    let expected = format!(
        ";; ->>HEADER<<- opcode: QUERY, status: NOERROR, id: 1\n;; flags: qr rd ra; QUERY: 1, ANSWER: 0, AUTHORITY: 0, ADDITIONAL: 0\n\n;; QUESTION SECTION:\n;e.{} {}IN{}A{}\n\n;; MSG SIZE rcvd: 12\n",
        " ".repeat(21),
        " ".repeat(6),
        " ".repeat(5),
        " ".repeat(6),
    );
    assert_eq!(text, expected);
}

#[test]
fn three_sections_one_header_each() {
    let msg = DecodedMessage {
        header: header(0x8180, 1, 2, 0, 1),
        question: question("example.com."),
        records: vec![
            a_record(Section::Answer, "example.com.", [93, 184, 216, 34]),
            a_record(Section::Answer, "example.com.", [93, 184, 216, 35]),
            a_record(Section::Additional, "ns.example.com.", [10, 0, 0, 1]),
        ],
    };
    let out = Output::new(OutputFormat::Zone, &msg, 100, None, None, None);
    let text = out.print();
    assert_eq!(text.matches(";; ANSWER SECTION:").count(), 1);
    assert_eq!(text.matches(";; ADDITIONAL SECTION:").count(), 1);
    assert_eq!(text.matches("\n\n;; ANSWER SECTION:\n").count(), 1);
    assert_eq!(text.matches("\n\n;; ADDITIONAL SECTION:\n").count(), 1);
    assert_eq!(text.matches(";; AUTHORITY SECTION:").count(), 0);
    let row = format!(
        "example.com.{}300{}IN{}A{}93.184.216.34\n",
        " ".repeat(12),
        " ".repeat(4),
        " ".repeat(5),
        " ".repeat(6),
    );
    assert!(text.contains(&row), "row missing in:\n{}", text);
}

#[test]
fn opt_only_additional_is_suppressed() {
    let msg = DecodedMessage {
        header: header(0x8180, 1, 1, 0, 1),
        question: question("example.com."),
        records: vec![
            a_record(Section::Answer, "example.com.", [93, 184, 216, 34]),
            opt_record(0x01008000, 4096),
        ],
    };
    let out = Output::new(OutputFormat::Zone, &msg, 64, None, None, None);
    let text = out.print();
    assert!(!text.contains("ADDITIONAL SECTION"));
    assert!(text.contains(";; OPT PSEUDOSECTION:\n; EDNS: version: 0, flags: d0; udp: 4096\n"));
    assert!(text.contains("status: BADVERS"));
}

#[test]
fn opt_with_other_additional_keeps_header() {
    let msg = DecodedMessage {
        header: header(0x8180, 1, 1, 0, 2),
        question: question("example.com."),
        records: vec![
            a_record(Section::Answer, "example.com.", [93, 184, 216, 34]),
            opt_record(0, 512),
            a_record(Section::Additional, "ns.example.com.", [10, 0, 0, 1]),
        ],
    };
    let out = Output::new(OutputFormat::Zone, &msg, 64, None, None, None);
    let text = out.print();
    assert_eq!(text.matches(";; ADDITIONAL SECTION:").count(), 1);
    assert!(text.contains("; EDNS: version: 0, flags:; udp: 512\n"));
    assert!(text.contains("status: NOERROR"));
}

#[test]
fn forced_generic_renders_every_record_in_hex() {
    let msg = DecodedMessage {
        header: header(0x8180, 1, 1, 0, 0),
        question: question("example.com."),
        records: vec![a_record(Section::Answer, "example.com.", [93, 184, 216, 34])],
    };
    let out = Output::new(OutputFormat::ZoneRfc3597, &msg, 64, None, None, None);
    let text = out.print();
    assert!(text.contains("\\# 4 5db8d822\n"), "generic form missing in:\n{}", text);
    assert!(!text.contains("93.184.216.34"));
}

#[test]
fn footer_lines_follow_metadata() {
    let msg = DecodedMessage {
        header: header(0x8180, 1, 0, 0, 0),
        question: question("e."),
        records: Vec::new(),
    };
    let ns = SocketAddress { ip: IpAddress::V4(Ipv4Address { octets: vec![8, 8, 8, 8] }), port: 53 };
    let out = Output::new(
        OutputFormat::Zone,
        &msg,
        33,
        Some(ns),
        Some(EncodedTime { secs: 1700000000, nanos: 0 }),
        Some(EncodedDuration { secs: 1, nanos: 500000000 }),
    );
    let text = out.print();
    assert!(text.contains(";; Query time: 1.5s\n"));
    assert!(text.contains(";; SERVER: 8.8.8.8:53\n"));
    assert!(text.contains("\n;; WHEN: "));
    assert!(text.ends_with(";; MSG SIZE rcvd: 33\n"));
}

#[test]
fn out_of_range_timestamp_drops_when_line() {
    let msg = DecodedMessage {
        header: header(0x8180, 1, 0, 0, 0),
        question: question("e."),
        records: Vec::new(),
    };
    let out = Output::new(
        OutputFormat::Zone,
        &msg,
        10,
        None,
        Some(EncodedTime { secs: i64::MAX, nanos: 0 }),
        None,
    );
    let text = out.print();
    assert!(!text.contains(";; WHEN:"));
    assert!(text.ends_with(";; MSG SIZE rcvd: 10\n"));

    let neg = Output::new(
        OutputFormat::Zone,
        &msg,
        10,
        None,
        Some(EncodedTime { secs: -1, nanos: 0 }),
        None,
    );
    assert!(!neg.print().contains(";; WHEN:"));
}
