//! The DNS value model: record-type, class, opcode and response-code values
//! with their textual forms. Codes without a mnemonic are shown in the
//! RFC 3597 style (`TYPE300`, `CLASS5`), and a record-type mnemonic can be
//! read back from either form.

use vstd::prelude::*;

verus! {

use vstd::string::StringExecFns;
use vstd::string::StrSliceExecFns;
use crate::text::{
    all_digits, dec_digits, digits_val, is_digit, lemma_dec_digits_val, parse_num, parse_num_spec,
    push_dec_u64, str_eq, strip_plus,
};

/// Whether a record-type value has a mnemonic.
pub open spec fn type_is_defined(v: u16) -> bool {
    (1 <= v && v <= 16) || v == 28 || v == 33 || v == 41 || (252 <= v && v <= 255)
}

/// The mnemonic of a defined record-type value.
pub open spec fn type_mnemonic(v: u16) -> Seq<char> {
    if v == 1 { "A"@ }
    else if v == 2 { "NS"@ }
    else if v == 3 { "MD"@ }
    else if v == 4 { "MF"@ }
    else if v == 5 { "CNAME"@ }
    else if v == 6 { "SOA"@ }
    else if v == 7 { "MB"@ }
    else if v == 8 { "MG"@ }
    else if v == 9 { "MR"@ }
    else if v == 10 { "NULL"@ }
    else if v == 11 { "WKS"@ }
    else if v == 12 { "PTR"@ }
    else if v == 13 { "HINFO"@ }
    else if v == 14 { "MINFO"@ }
    else if v == 15 { "MX"@ }
    else if v == 16 { "TXT"@ }
    else if v == 28 { "AAAA"@ }
    else if v == 33 { "SRV"@ }
    else if v == 41 { "OPT"@ }
    else if v == 252 { "AXFR"@ }
    else if v == 253 { "MAILB"@ }
    else if v == 254 { "MAILA"@ }
    else if v == 255 { "ANY"@ }
    else { Seq::empty() }
}

/// The textual form of a record-type value: its mnemonic, or `TYPE` and the
/// decimal value for a code without one.
pub open spec fn type_display(v: u16) -> Seq<char> {
    if type_is_defined(v) {
        type_mnemonic(v)
    } else {
        "TYPE"@ + dec_digits(v as nat)
    }
}

/// Appends the textual form of a record-type value.
pub fn push_type(s: &mut String, v: u16)
    ensures
        final(s)@ == old(s)@ + type_display(v),
{
    if v == 1 { s.append("A"); }
    else if v == 2 { s.append("NS"); }
    else if v == 3 { s.append("MD"); }
    else if v == 4 { s.append("MF"); }
    else if v == 5 { s.append("CNAME"); }
    else if v == 6 { s.append("SOA"); }
    else if v == 7 { s.append("MB"); }
    else if v == 8 { s.append("MG"); }
    else if v == 9 { s.append("MR"); }
    else if v == 10 { s.append("NULL"); }
    else if v == 11 { s.append("WKS"); }
    else if v == 12 { s.append("PTR"); }
    else if v == 13 { s.append("HINFO"); }
    else if v == 14 { s.append("MINFO"); }
    else if v == 15 { s.append("MX"); }
    else if v == 16 { s.append("TXT"); }
    else if v == 28 { s.append("AAAA"); }
    else if v == 33 { s.append("SRV"); }
    else if v == 41 { s.append("OPT"); }
    else if v == 252 { s.append("AXFR"); }
    else if v == 253 { s.append("MAILB"); }
    else if v == 254 { s.append("MAILA"); }
    else if v == 255 { s.append("ANY"); }
    else {
        s.append("TYPE");
        push_dec_u64(s, v as u64);
        assert(s@ =~= old(s)@ + ("TYPE"@ + dec_digits(v as nat)));
    }
}

/// The textual form of a record-type value as a fresh string.
pub fn type_to_string(v: u16) -> (r: String)
    ensures
        r@ == type_display(v),
{
    let mut s = String::new();
    push_type(&mut s, v);
    assert(s@ =~= type_display(v));
    s
}

/// The record-type value of a mnemonic; the comparison is case-sensitive.
pub open spec fn type_from_name_spec(s: Seq<char>) -> Option<u16> {
    if s == "A"@ { Some(1u16) }
    else if s == "NS"@ { Some(2u16) }
    else if s == "MD"@ { Some(3u16) }
    else if s == "MF"@ { Some(4u16) }
    else if s == "CNAME"@ { Some(5u16) }
    else if s == "SOA"@ { Some(6u16) }
    else if s == "MB"@ { Some(7u16) }
    else if s == "MG"@ { Some(8u16) }
    else if s == "MR"@ { Some(9u16) }
    else if s == "NULL"@ { Some(10u16) }
    else if s == "WKS"@ { Some(11u16) }
    else if s == "PTR"@ { Some(12u16) }
    else if s == "HINFO"@ { Some(13u16) }
    else if s == "MINFO"@ { Some(14u16) }
    else if s == "MX"@ { Some(15u16) }
    else if s == "TXT"@ { Some(16u16) }
    else if s == "AAAA"@ { Some(28u16) }
    else if s == "SRV"@ { Some(33u16) }
    else if s == "OPT"@ { Some(41u16) }
    else if s == "AXFR"@ { Some(252u16) }
    else if s == "MAILB"@ { Some(253u16) }
    else if s == "MAILA"@ { Some(254u16) }
    else if s == "ANY"@ { Some(255u16) }
    else { None }
}

/// Reading a record type from text: a mnemonic, or `TYPE` followed by a
/// decimal value up to 65535.
pub open spec fn type_from_str_spec(s: Seq<char>) -> Option<u16> {
    if type_from_name_spec(s) is Some {
        type_from_name_spec(s)
    } else if s.len() >= 4 && s.subrange(0, 4) == "TYPE"@ {
        match parse_num_spec(s.subrange(4, s.len() as int), 65535) {
            Some(v) => Some(v as u16),
            None => None,
        }
    } else {
        None
    }
}

/// Reads a record-type value from its mnemonic or `TYPEn` form.
pub fn type_from_str(s: &str) -> (r: Option<u16>)
    ensures
        r == type_from_str_spec(s@),
{
    if str_eq(s, "A") { Some(1) }
    else if str_eq(s, "NS") { Some(2) }
    else if str_eq(s, "MD") { Some(3) }
    else if str_eq(s, "MF") { Some(4) }
    else if str_eq(s, "CNAME") { Some(5) }
    else if str_eq(s, "SOA") { Some(6) }
    else if str_eq(s, "MB") { Some(7) }
    else if str_eq(s, "MG") { Some(8) }
    else if str_eq(s, "MR") { Some(9) }
    else if str_eq(s, "NULL") { Some(10) }
    else if str_eq(s, "WKS") { Some(11) }
    else if str_eq(s, "PTR") { Some(12) }
    else if str_eq(s, "HINFO") { Some(13) }
    else if str_eq(s, "MINFO") { Some(14) }
    else if str_eq(s, "MX") { Some(15) }
    else if str_eq(s, "TXT") { Some(16) }
    else if str_eq(s, "AAAA") { Some(28) }
    else if str_eq(s, "SRV") { Some(33) }
    else if str_eq(s, "OPT") { Some(41) }
    else if str_eq(s, "AXFR") { Some(252) }
    else if str_eq(s, "MAILB") { Some(253) }
    else if str_eq(s, "MAILA") { Some(254) }
    else if str_eq(s, "ANY") { Some(255) }
    else {
        let n = s.unicode_len();
        if n >= 4 {
            let pfx = s.substring_char(0, 4);
            if str_eq(pfx, "TYPE") {
                let rest = s.substring_char(4, n);
                match parse_num(rest, 65535) {
                    Some(v) => Some(v as u16),
                    None => None,
                }
            } else {
                None
            }
        } else {
            None
        }
    }
}

/// A record type's textual form reads back as the same value: the mnemonic
/// of a defined type, and the `TYPEn` form of any other, both parse to `v`.
#[verifier::rlimit(60)]
pub proof fn lemma_type_display_round_trip(v: u16)
    ensures
        type_from_str_spec(type_display(v)) == Some(v),
{
    reveal_strlit("A");
    reveal_strlit("NS");
    reveal_strlit("MD");
    reveal_strlit("MF");
    reveal_strlit("CNAME");
    reveal_strlit("SOA");
    reveal_strlit("MB");
    reveal_strlit("MG");
    reveal_strlit("MR");
    reveal_strlit("NULL");
    reveal_strlit("WKS");
    reveal_strlit("PTR");
    reveal_strlit("HINFO");
    reveal_strlit("MINFO");
    reveal_strlit("MX");
    reveal_strlit("TXT");
    reveal_strlit("AAAA");
    reveal_strlit("SRV");
    reveal_strlit("OPT");
    reveal_strlit("AXFR");
    reveal_strlit("MAILB");
    reveal_strlit("MAILA");
    reveal_strlit("ANY");
    reveal_strlit("TYPE");
    assert("A"@ =~= seq!['A']);
    assert("NS"@ =~= seq!['N', 'S']);
    assert("MD"@ =~= seq!['M', 'D']);
    assert("MF"@ =~= seq!['M', 'F']);
    assert("CNAME"@ =~= seq!['C', 'N', 'A', 'M', 'E']);
    assert("SOA"@ =~= seq!['S', 'O', 'A']);
    assert("MB"@ =~= seq!['M', 'B']);
    assert("MG"@ =~= seq!['M', 'G']);
    assert("MR"@ =~= seq!['M', 'R']);
    assert("NULL"@ =~= seq!['N', 'U', 'L', 'L']);
    assert("WKS"@ =~= seq!['W', 'K', 'S']);
    assert("PTR"@ =~= seq!['P', 'T', 'R']);
    assert("HINFO"@ =~= seq!['H', 'I', 'N', 'F', 'O']);
    assert("MINFO"@ =~= seq!['M', 'I', 'N', 'F', 'O']);
    assert("MX"@ =~= seq!['M', 'X']);
    assert("TXT"@ =~= seq!['T', 'X', 'T']);
    assert("AAAA"@ =~= seq!['A', 'A', 'A', 'A']);
    assert("SRV"@ =~= seq!['S', 'R', 'V']);
    assert("OPT"@ =~= seq!['O', 'P', 'T']);
    assert("AXFR"@ =~= seq!['A', 'X', 'F', 'R']);
    assert("MAILB"@ =~= seq!['M', 'A', 'I', 'L', 'B']);
    assert("MAILA"@ =~= seq!['M', 'A', 'I', 'L', 'A']);
    assert("ANY"@ =~= seq!['A', 'N', 'Y']);
    assert("TYPE"@ =~= seq!['T', 'Y', 'P', 'E']);
    if type_is_defined(v) {
        assert(type_from_name_spec(type_mnemonic(v)) == Some(v));
    } else {
        lemma_dec_digits_val(v as nat);
        let d = dec_digits(v as nat);
        let s = "TYPE"@ + d;
        assert(s.len() >= 5);
        assert(s[0] == 'T');
        assert(type_from_name_spec(s) is None);
        assert(s.subrange(0, 4) =~= "TYPE"@);
        assert(s.subrange(4, s.len() as int) =~= d);
        assert(is_digit(d[0]));
        assert(d[0] != '+');
        assert(strip_plus(d) =~= d);
        assert(parse_num_spec(d, 65535) == Some(v as nat));
    }
}

/// Whether a record-type value is a data type (RFC 6895 section 3.1).
pub open spec fn type_is_data(v: u16) -> bool {
    (0x0001 <= v && v <= 0x007f) || (0x0100 <= v && v <= 0xefff)
}

/// Whether a record-type value is a question or meta type.
pub open spec fn type_is_meta(v: u16) -> bool {
    0x0080 <= v && v <= 0x00ff
}

pub fn is_data_type(v: u16) -> (r: bool)
    ensures
        r == type_is_data(v),
{
    (0x0001 <= v && v <= 0x007f) || (0x0100 <= v && v <= 0xefff)
}

pub fn is_meta_type(v: u16) -> (r: bool)
    ensures
        r == type_is_meta(v),
{
    0x0080 <= v && v <= 0x00ff
}

/// The textual form of a class value: its mnemonic, or `CLASS` and the
/// decimal value for a code without one.
pub open spec fn class_display(v: u16) -> Seq<char> {
    if v == 1 { "IN"@ }
    else if v == 2 { "CS"@ }
    else if v == 3 { "CH"@ }
    else if v == 4 { "HS"@ }
    else if v == 255 { "ANY"@ }
    else { "CLASS"@ + dec_digits(v as nat) }
}

/// Appends the textual form of a class value.
pub fn push_class(s: &mut String, v: u16)
    ensures
        final(s)@ == old(s)@ + class_display(v),
{
    if v == 1 { s.append("IN"); }
    else if v == 2 { s.append("CS"); }
    else if v == 3 { s.append("CH"); }
    else if v == 4 { s.append("HS"); }
    else if v == 255 { s.append("ANY"); }
    else {
        s.append("CLASS");
        push_dec_u64(s, v as u64);
        assert(s@ =~= old(s)@ + ("CLASS"@ + dec_digits(v as nat)));
    }
}

/// The textual form of an opcode: its mnemonic, or `OPCODE` and the decimal
/// value for a code without one.
pub open spec fn opcode_display(v: u8) -> Seq<char> {
    if v == 0 { "QUERY"@ }
    else if v == 1 { "IQUERY"@ }
    else if v == 2 { "STATUS"@ }
    else { "OPCODE"@ + dec_digits(v as nat) }
}

/// Appends the textual form of an opcode.
pub fn push_opcode(s: &mut String, v: u8)
    ensures
        final(s)@ == old(s)@ + opcode_display(v),
{
    if v == 0 { s.append("QUERY"); }
    else if v == 1 { s.append("IQUERY"); }
    else if v == 2 { s.append("STATUS"); }
    else {
        s.append("OPCODE");
        push_dec_u64(s, v as u64);
        assert(s@ =~= old(s)@ + ("OPCODE"@ + dec_digits(v as nat)));
    }
}

/// The textual form of a response code: its mnemonic, or `RCODE` and the
/// decimal value for a code without one.
pub open spec fn rcode_display(v: u16) -> Seq<char> {
    if v == 0 { "NOERROR"@ }
    else if v == 1 { "FORMERR"@ }
    else if v == 2 { "SERVFAIL"@ }
    else if v == 3 { "NXDOMAIN"@ }
    else if v == 4 { "NOTIMP"@ }
    else if v == 5 { "REFUSED"@ }
    else if v == 16 { "BADVERS"@ }
    else { "RCODE"@ + dec_digits(v as nat) }
}

/// Appends the textual form of a response code.
pub fn push_rcode(s: &mut String, v: u16)
    ensures
        final(s)@ == old(s)@ + rcode_display(v),
{
    if v == 0 { s.append("NOERROR"); }
    else if v == 1 { s.append("FORMERR"); }
    else if v == 2 { s.append("SERVFAIL"); }
    else if v == 3 { s.append("NXDOMAIN"); }
    else if v == 4 { s.append("NOTIMP"); }
    else if v == 5 { s.append("REFUSED"); }
    else if v == 16 { s.append("BADVERS"); }
    else {
        s.append("RCODE");
        push_dec_u64(s, v as u64);
        assert(s@ =~= old(s)@ + ("RCODE"@ + dec_digits(v as nat)));
    }
}

/// The 12-bit extended response code: the low four bits of the header code
/// with the OPT record's eight extension bits above them.
pub open spec fn rcode_extended_spec(base: u16, extension: u8) -> u16 {
    (base % 16 + extension * 16) as u16
}

pub fn rcode_extended(base: u16, extension: u8) -> (r: u16)
    ensures
        r == rcode_extended_spec(base, extension),
{
    base % 16 + (extension as u16) * 16
}

} // verus!
