//! The decoded view of a DNS response message, as the external wire-format
//! reader hands it over: header fields, one question, and the records with
//! their section tags, header fields, raw data and, where the type is
//! supported, a typed payload. Values from the wire are bounded by the
//! 65535-byte message size.

use vstd::prelude::*;

verus! {

use crate::addr::{Ipv4Address, Ipv6Address};

/// The message header: identifier, the sixteen flag bits as they appear on
/// the wire, and the four section counts.
#[derive(Clone)]
pub struct Header {
    pub id: u16,
    pub flags: u16,
    pub qd_count: u16,
    pub an_count: u16,
    pub ns_count: u16,
    pub ar_count: u16,
}

/// Whether the message is a response.
pub open spec fn qr_bit(f: u16) -> bool {
    f / 0x8000 % 2 == 1
}

/// The four opcode bits.
pub open spec fn opcode_of(f: u16) -> u8 {
    (f / 0x800 % 16) as u8
}

/// The authoritative-answer bit.
pub open spec fn aa_bit(f: u16) -> bool {
    f / 0x400 % 2 == 1
}

/// The truncation bit.
pub open spec fn tc_bit(f: u16) -> bool {
    f / 0x200 % 2 == 1
}

/// The recursion-desired bit.
pub open spec fn rd_bit(f: u16) -> bool {
    f / 0x100 % 2 == 1
}

/// The recursion-available bit.
pub open spec fn ra_bit(f: u16) -> bool {
    f / 0x80 % 2 == 1
}

/// The four response-code bits.
pub open spec fn rcode_of(f: u16) -> u16 {
    f % 16
}

/// The section a record was found in; the question is kept apart.
#[derive(Copy, Clone, PartialEq, Eq, Structural, Debug)]
pub enum Section {
    Answer,
    Authority,
    Additional,
}

/// The section name as rsdns spells it.
pub open spec fn section_upper(s: Section) -> Seq<char> {
    match s {
        Section::Answer => "ANSWER"@,
        Section::Authority => "AUTHORITY"@,
        Section::Additional => "ADDITIONAL"@,
    }
}

/// The question: a name, a class and a type.
#[derive(Clone)]
pub struct Question {
    pub qname: String,
    pub qclass: u16,
    pub qtype: u16,
}

impl Question {
    pub open spec fn wf(self) -> bool {
        self.qname@.len() <= 0xffff
    }
}

/// One record's payload, decoded where the type has a dedicated textual
/// form; `Obsolete` covers the historically obsolete types, and `Generic`
/// the rest, which render from the raw data alone.
#[derive(Clone)]
pub enum RData {
    A(Ipv4Address),
    Aaaa(Ipv6Address),
    Ns(String),
    Cname(String),
    Ptr(String),
    Soa {
        mname: String,
        rname: String,
        serial: u32,
        refresh: u32,
        retry: u32,
        expire: u32,
        minimum: u32,
    },
    Mx {
        preference: u16,
        exchange: String,
    },
    Txt(Vec<u8>),
    Hinfo {
        cpu: Vec<u8>,
        os: Vec<u8>,
    },
    Obsolete,
    Generic,
}

impl RData {
    pub open spec fn wf(self) -> bool {
        match self {
            RData::A(a) => a.wf(),
            RData::Aaaa(a) => a.wf(),
            _ => true,
        }
    }
}

/// One decoded record: its section, header fields, raw data bytes, and the
/// typed payload where one exists.
#[derive(Clone)]
pub struct Record {
    pub section: Section,
    pub name: String,
    pub rclass: u16,
    pub rtype: u16,
    pub ttl: u32,
    pub rdata: Vec<u8>,
    pub data: RData,
}

impl Record {
    pub open spec fn wf(self) -> bool {
        self.data.wf() && self.name@.len() <= 0xffff && self.rdata@.len() <= 0xffff
    }
}

/// The whole decoded message.
#[derive(Clone)]
pub struct DecodedMessage {
    pub header: Header,
    pub question: Question,
    pub records: Vec<Record>,
}

impl DecodedMessage {
    pub open spec fn wf(self) -> bool {
        self.question.wf() && forall|i: int|
            0 <= i < self.records@.len() ==> (#[trigger] self.records@[i]).wf()
    }
}

/// The EDNS OPT pseudosection, read out of an OPT record's class and TTL
/// fields: the class carries the UDP payload size; the TTL carries the
/// response-code extension, the version, and the DNSSEC-OK flag.
#[derive(Copy, Clone)]
pub struct OptInfo {
    pub udp_payload_size: u16,
    pub rcode_extension: u8,
    pub version: u8,
    pub dnssec_ok: bool,
}

/// The OPT fields packed into a record header, as RFC 6891 lays them out.
pub open spec fn opt_of_record(rclass: u16, ttl: u32) -> OptInfo {
    OptInfo {
        udp_payload_size: rclass,
        rcode_extension: (ttl / 0x1000000) as u8,
        version: (ttl / 0x10000 % 0x100) as u8,
        dnssec_ok: ttl / 0x8000 % 2 == 1,
    }
}

/// Reads the OPT fields out of a record's class and TTL.
pub fn opt_from_record(rclass: u16, ttl: u32) -> (r: OptInfo)
    ensures
        r == opt_of_record(rclass, ttl),
{
    OptInfo {
        udp_payload_size: rclass,
        rcode_extension: (ttl / 0x1000000) as u8,
        version: (ttl / 0x10000 % 0x100) as u8,
        dnssec_ok: ttl / 0x8000 % 2 == 1,
    }
}

/// Whether the renderer has a typed formatter for records of type `v`: the
/// address, name, SOA, MX, TXT and HINFO types.
pub open spec fn zone_supported_spec(v: u16) -> bool {
    v == 1 || v == 2 || v == 5 || v == 6 || v == 12 || v == 13 || v == 15 || v == 16 || v == 28
}

/// Whether records of type `v` render through a typed payload rather than
/// the generic form.
pub fn zone_supported(v: u16) -> (r: bool)
    ensures
        r == zone_supported_spec(v),
{
    v == 1 || v == 2 || v == 5 || v == 6 || v == 12 || v == 13 || v == 15 || v == 16 || v == 28
}

} // verus!
