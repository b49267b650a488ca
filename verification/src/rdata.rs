//! The record-data formatter: one textual form per supported payload kind.
//! Address payloads print their textual address, name payloads the name,
//! SOA its seven fields, MX preference then exchange, TXT and HINFO their
//! character strings double-quoted with a fixed sentinel for text that is
//! not UTF-8, and the obsolete types a fixed marker.

use vstd::prelude::*;

verus! {

use vstd::utf8::{decode_utf8, valid_utf8};
use crate::addr::{v4_text, v6_text};
use crate::message::RData;
use crate::text::{dec_digits, push_dec_u64};
use vstd::string::StringExecFns;

/// The characters of a character-string field: its UTF-8 decoding, or the
/// fixed sentinel where the bytes are not valid UTF-8.
pub open spec fn text_or_sentinel(b: Seq<u8>) -> Seq<char> {
    if valid_utf8(b) {
        decode_utf8(b)
    } else {
        "__CH4_NON_UTF8_STRING__"@
    }
}

/// A character-string field in double quotes.
pub open spec fn quoted_text(b: Seq<u8>) -> Seq<char> {
    "\""@ + text_or_sentinel(b) + "\""@
}

/// Relies on std's `str::from_utf8`: it succeeds exactly on valid UTF-8 and
/// returns a view of the same bytes, here copied into an owned string.
#[verifier::external_body]
fn utf8_string(b: &[u8]) -> (r: Option<String>)
    ensures
        r is Some <==> valid_utf8(b@),
        r matches Some(s) ==> s@ == decode_utf8(b@),
{
    match std::str::from_utf8(b) {
        Ok(s) => Some(s.to_string()),
        Err(_) => None,
    }
}

/// The text of a character-string field: its UTF-8 decoding, or the fixed
/// sentinel for bytes that are not valid UTF-8.
pub fn str_from_text(text: &[u8]) -> (r: String)
    ensures
        r@ == text_or_sentinel(text@),
{
    match utf8_string(text) {
        Some(s) => s,
        None => {
            let mut s = String::new();
            s.append("__CH4_NON_UTF8_STRING__");
            proof {
                assert(s@ =~= "__CH4_NON_UTF8_STRING__"@);
            }
            s
        },
    }
}

/// The textual form of one record payload.
pub open spec fn rdata_text(d: RData) -> Seq<char> {
    match d {
        RData::A(a) => v4_text(a.octets@),
        RData::Aaaa(a) => v6_text(a.segments@),
        RData::Ns(n) => n@,
        RData::Cname(n) => n@,
        RData::Ptr(n) => n@,
        RData::Soa { mname, rname, serial, refresh, retry, expire, minimum } => mname@ + " "@
            + rname@ + " "@ + dec_digits(serial as nat) + " "@ + dec_digits(refresh as nat) + " "@
            + dec_digits(retry as nat) + " "@ + dec_digits(expire as nat) + " "@ + dec_digits(
            minimum as nat,
        ),
        RData::Mx { preference, exchange } => dec_digits(preference as nat) + " "@ + exchange@,
        RData::Txt(t) => quoted_text(t@),
        RData::Hinfo { cpu, os } => quoted_text(cpu@) + " "@ + quoted_text(os@),
        RData::Obsolete => "OBSOLETE RTYPE"@,
        RData::Generic => Seq::empty(),
    }
}

/// A formatter from one decoded record payload to its textual form.
pub trait RDataFormatter {
    /// Appends the textual form of `d`.
    fn fmt(w: &mut String, d: &RData)
        requires
            d.wf(),
        ensures
            final(w)@ == old(w)@ + rdata_text(*d),
    ;
}

/// The formatter used throughout: one arm per payload kind.
pub struct RDataFmt;

impl RDataFormatter for RDataFmt {
    fn fmt(w: &mut String, d: &RData) {
        match d {
            RData::A(a) => {
                crate::addr::push_v4(w, a);
            },
            RData::Aaaa(a) => {
                crate::addr::push_v6(w, a);
            },
            RData::Ns(n) => {
                w.append(n.as_str());
            },
            RData::Cname(n) => {
                w.append(n.as_str());
            },
            RData::Ptr(n) => {
                w.append(n.as_str());
            },
            RData::Soa { mname, rname, serial, refresh, retry, expire, minimum } => {
                w.append(mname.as_str());
                w.append(" ");
                w.append(rname.as_str());
                w.append(" ");
                push_dec_u64(w, *serial as u64);
                w.append(" ");
                push_dec_u64(w, *refresh as u64);
                w.append(" ");
                push_dec_u64(w, *retry as u64);
                w.append(" ");
                push_dec_u64(w, *expire as u64);
                w.append(" ");
                push_dec_u64(w, *minimum as u64);
                assert(w@ =~= old(w)@ + rdata_text(*d));
            },
            RData::Mx { preference, exchange } => {
                push_dec_u64(w, *preference as u64);
                w.append(" ");
                w.append(exchange.as_str());
                assert(w@ =~= old(w)@ + rdata_text(*d));
            },
            RData::Txt(t) => {
                w.append("\"");
                let f = str_from_text(t.as_slice());
                w.append(f.as_str());
                w.append("\"");
                assert(w@ =~= old(w)@ + rdata_text(*d));
            },
            RData::Hinfo { cpu, os } => {
                w.append("\"");
                let f = str_from_text(cpu.as_slice());
                w.append(f.as_str());
                w.append("\" \"");
                let g = str_from_text(os.as_slice());
                w.append(g.as_str());
                w.append("\"");
                proof {
                    reveal_strlit("\" \"");
                    reveal_strlit("\"");
                    reveal_strlit(" ");
                    assert("\" \""@ =~= "\""@ + " "@ + "\""@);
                    assert(w@ =~= old(w)@ + rdata_text(*d));
                }
            },
            RData::Obsolete => {
                w.append("OBSOLETE RTYPE");
            },
            RData::Generic => {
            },
        }
    }
}

} // verus!
