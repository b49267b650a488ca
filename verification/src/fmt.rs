//! The run orchestrator: renders each query result in the configured form,
//! numbers the results, and collects the session records to be saved. The
//! embedding program prints what is returned and does the file work.

use vstd::prelude::*;

verus! {

use vstd::string::StringExecFns;
use crate::addr::{clone_sockaddr, sockaddr_text, SocketAddress};
use crate::args::{Args, OutputFormat};
use crate::message::{DecodedMessage, RData};
use crate::rrset::{fmt_short, short_text};
use crate::save::{b64_of, EncodedDuration, EncodedMessage, EncodedTime};
use crate::text::{dec_digits, push_dec_u64};
use crate::types::{is_meta_type, type_display, type_is_meta};
use crate::zone::{
    msgsize_part, opt_upto, qtime_part, server_part, sizes_ok, when_line, message_text, Output,
    Sizes,
};

/// A short-mode failure: the resolved query type has no short rendering.
#[derive(Clone, Debug)]
pub enum FormatError {
    InvalidQType(u16),
    UnsupportedQType(u16),
}

impl FormatError {
    /// The one-line diagnostic for this failure.
    pub fn message(&self) -> (r: String)
        ensures
            r@ == match self {
                FormatError::InvalidQType(v) => "invalid qtype: "@ + type_display(*v),
                FormatError::UnsupportedQType(v) => "unsupported qtype: "@ + type_display(*v),
            },
    {
        let mut out = String::new();
        match self {
            FormatError::InvalidQType(v) => {
                out.append("invalid qtype: ");
                crate::types::push_type(&mut out, *v);
            },
            FormatError::UnsupportedQType(v) => {
                out.append("unsupported qtype: ");
                crate::types::push_type(&mut out, *v);
            },
        }
        proof {
            assert(out@ =~= match self {
                FormatError::InvalidQType(v) => "invalid qtype: "@ + type_display(*v),
                FormatError::UnsupportedQType(v) => "unsupported qtype: "@ + type_display(*v),
            });
        }
        out
    }
}

/// The decoded form a query result arrives in: the full message view for
/// the zone forms, the answer record set for the short form, and nothing
/// beyond the raw bytes for the source-literal form.
pub enum MessageView {
    Decoded(DecodedMessage),
    Records(Vec<RData>),
    Raw,
}

/// Whether the short form renders records of type `v`: the RFC 1035
/// record types and the IPv6 address type.
pub open spec fn short_supported(v: u16) -> bool {
    (1 <= v && v <= 16) || v == 28
}

/// One run's rendering state: the configuration, the count of results
/// rendered, and the session records awaiting a save.
pub struct Format<'a> {
    pub args: &'a Args,
    pub cnt: usize,
    pub json: Vec<EncodedMessage>,
}

/// The shape of one zone-form result: an optional separating blank line,
/// the rendered message with column widths `z`, and the footer with
/// timestamp line `wp`.
pub open spec fn zone_added(
    dm: DecodedMessage,
    cnt0: nat,
    format: OutputFormat,
    elapsed: Option<EncodedDuration>,
    ns: Option<SocketAddress>,
    ts: Option<EncodedTime>,
    msg_len: nat,
    s: Seq<char>,
    z: Sizes,
    wp: Seq<char>,
) -> bool {
    &&& sizes_ok(z, dm.question, dm.records@)
    &&& s == (if cnt0 == 0 {
        Seq::<char>::empty()
    } else {
        "\n"@
    }) + message_text(
        dm.header,
        dm.question,
        dm.records@,
        z,
        opt_upto(dm.records@, dm.records@.len() as int),
        format == OutputFormat::ZoneRfc3597,
    ) + qtime_part(elapsed) + server_part(ns) + wp + msgsize_part(msg_len)
    &&& (ts is None ==> wp == Seq::<char>::empty())
    &&& (ts matches Some(t) ==> (crate::zone::rfc2822_range(t) ==> exists|w: Seq<char>|
        wp == #[trigger] when_line(w)))
    &&& (wp == Seq::<char>::empty() || exists|w: Seq<char>| wp == #[trigger] when_line(w))
}

/// The pointed-to nameserver, if one was given.
pub open spec fn deref_ns(ns: Option<&SocketAddress>) -> Option<SocketAddress> {
    match ns {
        Some(sa) => Some(*sa),
        None => None,
    }
}

/// One zone-form result for some column widths and timestamp line.
pub open spec fn zone_result(
    dm: DecodedMessage,
    cnt0: nat,
    format: OutputFormat,
    elapsed: Option<EncodedDuration>,
    ns: Option<SocketAddress>,
    ts: Option<EncodedTime>,
    msg_len: nat,
    s: Seq<char>,
) -> bool {
    exists|z: Sizes, wp: Seq<char>|
        #[trigger] zone_added(dm, cnt0, format, elapsed, ns, ts, msg_len, s, z, wp)
}

/// Whether the supplied view fits the configured output form.
pub open spec fn view_fits(args: Args, view: MessageView) -> bool {
    match args.format {
        OutputFormat::Short => args.qtype is Some && (view matches MessageView::Records(rs)
            && (forall|i: int| 0 <= i < rs@.len() ==> (#[trigger] rs@[i]).wf())),
        OutputFormat::Zone => view matches MessageView::Decoded(dm) && dm.wf(),
        OutputFormat::ZoneRfc3597 => view matches MessageView::Decoded(dm) && dm.wf(),
        OutputFormat::Rust => true,
    }
}

/// Renders one zone-form result: the separating blank line after the
/// first result, then the full report.
#[verifier::rlimit(100)]
#[verifier::spinoff_prover]
fn zone_text(
    format: OutputFormat,
    cnt: usize,
    dm: &DecodedMessage,
    msg_len: usize,
    ns: Option<&SocketAddress>,
    ts: Option<EncodedTime>,
    elapsed: Option<EncodedDuration>,
) -> (s: String)
    requires
        dm.wf(),
        ns matches Some(sa) ==> sa.wf(),
    ensures
        zone_result(*dm, cnt as nat, format, elapsed, deref_ns(ns), ts, msg_len as nat, s@),
{
    let ns_owned: Option<SocketAddress> = match ns {
        Some(sa) => Some(clone_sockaddr(sa)),
        None => None,
    };
    proof {
        match ns {
            Some(sa) => {
                assert(server_part(ns_owned) == server_part(Some(*sa)));
            },
            None => {},
        }
    }
    let o = Output::new(format, dm, msg_len, ns_owned, ts, elapsed);
    let rendered = o.print();
    let mut buf = String::new();
    if cnt > 0 {
        buf.append("\n");
    }
    buf.append(rendered.as_str());
    proof {
        let wp = choose|wp: Seq<char>| o.rendered_with(rendered@, wp);
        assert(o.rendered_with(rendered@, wp));
        assert(sizes_ok(o.sizes, dm.question, dm.records@));
        assert(server_part(o.ns) == server_part(deref_ns(ns)));
        let pfx = if cnt == 0 { Seq::<char>::empty() } else {
            "\n"@
        };
        let mt = message_text(
            dm.header,
            dm.question,
            dm.records@,
            o.sizes,
            opt_upto(dm.records@, dm.records@.len() as int),
            format == OutputFormat::ZoneRfc3597,
        );
        assert(rendered@ == mt + qtime_part(elapsed) + server_part(o.ns) + wp
            + msgsize_part(msg_len as nat));
        assert(buf@ =~= pfx + mt + qtime_part(elapsed) + server_part(
            deref_ns(ns)) + wp + msgsize_part(msg_len as nat));
        assert(zone_added(*dm, cnt as nat, format, elapsed, deref_ns(ns), ts, msg_len as nat,
            buf@, o.sizes, wp));
    }
    buf
}

impl<'a> Format<'a> {
    /// A fresh state for one run.
    pub fn new(args: &'a Args) -> (r: Format<'a>)
        ensures
            r.args == args,
            r.cnt == 0,
            r.json@.len() == 0,
    {
        Format { args, cnt: 0, json: Vec::new() }
    }

    /// Renders one query result in the configured form and, when a save was
    /// asked for, adds its session record. The returned text is what the
    /// run prints for this result.
    #[verifier::rlimit(100)]
    #[verifier::spinoff_prover]
    pub fn add(
        &mut self,
        qname: Option<&str>,
        qtype: Option<u16>,
        msg: &Vec<u8>,
        view: &MessageView,
        ns: Option<&SocketAddress>,
        ts: Option<EncodedTime>,
        elapsed: Option<EncodedDuration>,
    ) -> (r: Result<String, FormatError>)
        requires
            old(self).cnt < usize::MAX,
            msg@.len() <= 0xffff,
            view_fits(*old(self).args, *view),
            ns matches Some(sa) ==> sa.wf(),
        ensures
            final(self).args == old(self).args,
            r is Err <==> old(self).args.format == OutputFormat::Short && !short_supported(
                old(self).args.qtype->0,
            ),
            r matches Err(e) ==> *final(self) == *old(self) && (match e {
                FormatError::InvalidQType(v) => v == old(self).args.qtype->0 && type_is_meta(v),
                FormatError::UnsupportedQType(v) => v == old(self).args.qtype->0 && !type_is_meta(
                    v,
                ),
            }),
            r is Ok ==> final(self).cnt == old(self).cnt + 1,
            old(self).args.format == OutputFormat::Short ==> (r matches Ok(s) ==> s@
                == short_text(view->Records_0@)),
            old(self).args.format == OutputFormat::Rust ==> (r matches Ok(s) ==> s@
                == crate::rust::fixture_text(
                qtype,
                match qname {
                    Some(q) => Some(q@),
                    None => None,
                },
                "M"@ + dec_digits(old(self).cnt as nat),
                msg@,
            )),
            old(self).args.format == OutputFormat::Zone || old(self).args.format
                == OutputFormat::ZoneRfc3597 ==> (r matches Ok(s) ==> zone_result(
                view->Decoded_0,
                old(self).cnt as nat,
                old(self).args.format,
                elapsed,
                deref_ns(ns),
                ts,
                msg@.len(),
                s@,
            )),
            r is Ok && (old(self).args.save_path matches Some(pp) && pp@.len() > 0) ==> {
                &&& final(self).json@.len() == old(self).json@.len() + 1
                &&& final(self).json@.subrange(0, old(self).json@.len() as int) == old(
                    self,
                ).json@
                &&& {
                    let e = final(self).json@.last();
                    &&& e.data@ == b64_of(msg@)
                    &&& (e.qname is Some <==> qname is Some)
                    &&& (qname matches Some(q) ==> e.qname matches Some(s2) && s2@ == q@)
                    &&& (e.qtype is Some <==> qtype is Some)
                    &&& (qtype matches Some(t) ==> e.qtype matches Some(s2) && s2@
                        == type_display(t))
                    &&& (e.nameserver is Some <==> ns is Some)
                    &&& (ns matches Some(sa) ==> e.nameserver matches Some(s2) && s2@
                        == sockaddr_text(*sa))
                    &&& e.timestamp == ts
                    &&& e.duration == elapsed
                }
            },
            !(r is Ok && (old(self).args.save_path matches Some(pp) && pp@.len() > 0))
                ==> final(self).json == old(self).json,
    {
        let out: String = match self.args.format {
            OutputFormat::Short => {
                let qt = self.args.qtype();
                if (1 <= qt && qt <= 16) || qt == 28 {
                    match view {
                        MessageView::Records(rs) => {
                            let mut buf = String::new();
                            fmt_short(&mut buf, rs);
                            assert(buf@ =~= short_text(view->Records_0@));
                            buf
                        },
                        _ => {
                            assert(false);
                            String::new()
                        },
                    }
                } else if is_meta_type(qt) {
                    return Err(FormatError::InvalidQType(qt));
                } else {
                    return Err(FormatError::UnsupportedQType(qt));
                }
            },
            OutputFormat::Zone | OutputFormat::ZoneRfc3597 => {
                match view {
                    MessageView::Decoded(dm) => {
                        let s2 = zone_text(self.args.format, self.cnt, dm, msg.len(), ns, ts,
                            elapsed);
                        proof {
                            assert(*dm == view->Decoded_0);
                        }
                        s2
                    },
                    _ => {
                        assert(false);
                        String::new()
                    },
                }
            },
            OutputFormat::Rust => {
                let mut nm = String::new();
                nm.append("M");
                push_dec_u64(&mut nm, self.cnt as u64);
                assert(nm@ =~= "M"@ + dec_digits(old(self).cnt as nat));
                let mut buf = String::new();
                crate::rust::fmt(&mut buf, qtype, qname, nm.as_str(), msg);
                assert(buf@ =~= crate::rust::fixture_text(
                    qtype,
                    match qname {
                        Some(q) => Some(q@),
                        None => None,
                    },
                    "M"@ + dec_digits(old(self).cnt as nat),
                    msg@,
                ));
                buf
            },
        };
        if self.args.has_save_path() {
            let enc = EncodedMessage::encode(msg, qname, qtype, ns, ts, elapsed);
            let ghost pre = self.json@;
            self.json.push(enc);
            proof {
                assert(self.json@.subrange(0, pre.len() as int) =~= pre);
            }
        }
        self.cnt = self.cnt + 1;
        Ok(out)
    }

    /// The session records to be written out at the end of the run, when a
    /// save was asked for and anything was rendered.
    pub fn done(&self) -> (r: Option<&Vec<EncodedMessage>>)
        ensures
            r is Some <==> ((self.args.save_path matches Some(p) && p@.len() > 0)
                && self.json@.len() > 0),
            r matches Some(v) ==> v == &self.json,
    {
        if self.args.has_save_path() && self.json.len() > 0 {
            Some(&self.json)
        } else {
            None
        }
    }
}

} // verus!
