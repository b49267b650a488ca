use ch4::addr::{Ipv4Address, Ipv6Address};
use ch4::message::RData;
use ch4::rdata::{str_from_text, RDataFmt, RDataFormatter};
use ch4::rrset::fmt_short;

fn text_of(d: &RData) -> String {
    let mut s = String::new();
    RDataFmt::fmt(&mut s, d);
    s
}

#[test]
fn address_payloads() {
    assert_eq!(text_of(&RData::A(Ipv4Address { octets: vec![93, 184, 216, 34] })), "93.184.216.34");
    assert_eq!(
        text_of(&RData::Aaaa(Ipv6Address { segments: vec![0x2606, 0x2800, 0x220, 1, 0x248, 0x1893,
            0x25c8, 0x1946] })),
        "2606:2800:220:1:248:1893:25c8:1946"
    );
}

#[test]
fn name_payloads() {
    assert_eq!(text_of(&RData::Ns("ns1.example.com.".to_string())), "ns1.example.com.");
    assert_eq!(text_of(&RData::Cname("alias.example.com.".to_string())), "alias.example.com.");
    assert_eq!(text_of(&RData::Ptr("host.example.com.".to_string())), "host.example.com.");
}

#[test]
fn soa_seven_fields() {
    let d = RData::Soa {
        mname: "ns.example.com.".to_string(),
        rname: "hostmaster.example.com.".to_string(),
        serial: 2023120501,
        refresh: 7200,
        retry: 3600,
        expire: 1209600,
        minimum: 86400,
    };
    assert_eq!(
        text_of(&d),
        "ns.example.com. hostmaster.example.com. 2023120501 7200 3600 1209600 86400"
    );
}

#[test]
fn mx_preference_then_exchange() {
    let d = RData::Mx { preference: 10, exchange: "mail.example.com.".to_string() };
    assert_eq!(text_of(&d), "10 mail.example.com.");
}

#[test]
fn txt_and_hinfo_are_quoted() {
    assert_eq!(text_of(&RData::Txt(b"v=spf1 -all".to_vec())), "\"v=spf1 -all\"");
    let d = RData::Hinfo { cpu: b"INTEL".to_vec(), os: b"LINUX".to_vec() };
    assert_eq!(text_of(&d), "\"INTEL\" \"LINUX\"");
}

#[test]
fn non_utf8_text_uses_sentinel() {
    assert_eq!(str_from_text(&[0xff, 0xfe]), "__CH4_NON_UTF8_STRING__");
    assert_eq!(str_from_text(b"plain"), "plain");
    assert_eq!(text_of(&RData::Txt(vec![0xc0, 0x00])), "\"__CH4_NON_UTF8_STRING__\"");
}

#[test]
fn obsolete_marker() {
    assert_eq!(text_of(&RData::Obsolete), "OBSOLETE RTYPE");
}

#[test]
fn short_form_one_line_per_record() {
    let rs = vec![
        RData::A(Ipv4Address { octets: vec![1, 2, 3, 4] }),
        RData::A(Ipv4Address { octets: vec![5, 6, 7, 8] }),
    ];
    let mut s = String::new();
    fmt_short(&mut s, &rs);
    assert_eq!(s, "1.2.3.4\n5.6.7.8\n");

    let mut t = String::new();
    fmt_short(&mut t, &Vec::new());
    assert_eq!(t, "");
}
