//! The zone-style response renderer: a sizing pass computes the column
//! widths over the whole message and extracts the OPT pseudosection, and an
//! emission pass prints the header block, the question, the records grouped
//! by section, and the footer. Unknown record types, and every type when
//! the generic form is forced, render in the RFC 3597 form.

use vstd::prelude::*;

verus! {

use vstd::string::StringExecFns;
use vstd::string::StrSliceExecFns;
use crate::addr::{part_views, sockaddr_text, push_sockaddr, SocketAddress};
use crate::args::OutputFormat;
use crate::message::{
    aa_bit, opcode_of, opt_from_record, opt_of_record, qr_bit, ra_bit, rcode_of, rd_bit,
    section_upper, tc_bit, DecodedMessage, Header, OptInfo, Question, RData, Record, Section,
};
use crate::rdata::{rdata_text, RDataFmt, RDataFormatter};
use crate::save::{EncodedDuration, EncodedTime};
use crate::text::{
    dec_digits, dec_u64, dec_width_u64, hex_byte, lemma_dec_digits_len, pad_to, pow10,
    push_dec_u64, push_hex_byte, push_spaces, spaces,
};
use crate::types::{
    class_display, opcode_display, push_class, push_opcode, push_rcode, push_type,
    rcode_display, rcode_extended_spec, type_display,
};

/// The column widths of one rendered message.
#[derive(Copy, Clone)]
pub struct Sizes {
    pub name: usize,
    pub ttl: usize,
    pub rclass: usize,
    pub rtype: usize,
    pub rdlen: usize,
}

/// The larger of two widths.
pub open spec fn nmax(a: nat, b: nat) -> nat {
    if a >= b {
        a
    } else {
        b
    }
}

/// Whether a record counts toward the column widths and is printed as a
/// row: every record but the OPT pseudo-record of the additional section.
pub open spec fn counted(r: Record) -> bool {
    !(r.section == Section::Additional && r.rtype == 41)
}

pub open spec fn raw_name_w(recs: Seq<Record>, i: int) -> nat
    decreases i,
{
    if i <= 0 {
        0
    } else if counted(recs[i - 1]) {
        nmax(raw_name_w(recs, i - 1), recs[i - 1].name@.len())
    } else {
        raw_name_w(recs, i - 1)
    }
}

pub open spec fn raw_ttl_w(recs: Seq<Record>, i: int) -> nat
    decreases i,
{
    if i <= 0 {
        0
    } else if counted(recs[i - 1]) {
        nmax(raw_ttl_w(recs, i - 1), dec_digits(recs[i - 1].ttl as nat).len())
    } else {
        raw_ttl_w(recs, i - 1)
    }
}

pub open spec fn raw_class_w(recs: Seq<Record>, i: int) -> nat
    decreases i,
{
    if i <= 0 {
        0
    } else if counted(recs[i - 1]) {
        nmax(raw_class_w(recs, i - 1), class_display(recs[i - 1].rclass).len())
    } else {
        raw_class_w(recs, i - 1)
    }
}

pub open spec fn raw_type_w(recs: Seq<Record>, i: int) -> nat
    decreases i,
{
    if i <= 0 {
        0
    } else if counted(recs[i - 1]) {
        nmax(raw_type_w(recs, i - 1), type_display(recs[i - 1].rtype).len())
    } else {
        raw_type_w(recs, i - 1)
    }
}

pub open spec fn raw_rdlen_w(recs: Seq<Record>, i: int) -> nat
    decreases i,
{
    if i <= 0 {
        0
    } else if counted(recs[i - 1]) {
        nmax(raw_rdlen_w(recs, i - 1), dec_digits(recs[i - 1].rdata@.len()).len())
    } else {
        raw_rdlen_w(recs, i - 1)
    }
}

/// The OPT pseudosection found in the records so far; a later OPT record
/// replaces an earlier one.
pub open spec fn opt_upto(recs: Seq<Record>, i: int) -> Option<OptInfo>
    decreases i,
{
    if i <= 0 {
        None
    } else if !counted(recs[i - 1]) {
        Some(opt_of_record(recs[i - 1].rclass, recs[i - 1].ttl))
    } else {
        opt_upto(recs, i - 1)
    }
}

/// The name column: the widest displayed name plus two, at least 24.
pub open spec fn sizes_name(q: Question, recs: Seq<Record>) -> nat {
    nmax(24, nmax(q.qname@.len(), raw_name_w(recs, recs.len() as int)) + 2)
}

/// The TTL column: the widest TTL plus one, at least 7.
pub open spec fn sizes_ttl(recs: Seq<Record>) -> nat {
    nmax(7, raw_ttl_w(recs, recs.len() as int) + 1)
}

/// The class column: the widest class text plus one, at least 7.
pub open spec fn sizes_rclass(q: Question, recs: Seq<Record>) -> nat {
    nmax(7, nmax(class_display(q.qclass).len(), raw_class_w(recs, recs.len() as int)) + 1)
}

/// The type column: the widest type text plus one, at least 7.
pub open spec fn sizes_rtype(q: Question, recs: Seq<Record>) -> nat {
    nmax(7, nmax(type_display(q.qtype).len(), raw_type_w(recs, recs.len() as int)) + 1)
}

/// The width of the generic data-length field: the widest length, no floor.
pub open spec fn sizes_rdlen(recs: Seq<Record>) -> nat {
    raw_rdlen_w(recs, recs.len() as int)
}

pub open spec fn sizes_ok(z: Sizes, q: Question, recs: Seq<Record>) -> bool {
    &&& z.name == sizes_name(q, recs)
    &&& z.ttl == sizes_ttl(recs)
    &&& z.rclass == sizes_rclass(q, recs)
    &&& z.rtype == sizes_rtype(q, recs)
    &&& z.rdlen == sizes_rdlen(recs)
}

proof fn lemma_pow10_vals()
    ensures
        pow10(5) == 100000,
        pow10(10) == 10000000000,
{
    assert(pow10(0) == 1);
    assert(pow10(1) == 10);
    assert(pow10(2) == 100);
    assert(pow10(3) == 1000);
    assert(pow10(4) == 10000);
    assert(pow10(5) == 100000);
    assert(pow10(6) == 1000000);
    assert(pow10(7) == 10000000);
    assert(pow10(8) == 100000000);
    assert(pow10(9) == 1000000000);
    assert(pow10(10) == 10000000000);
}

proof fn lemma_class_display_len(v: u16)
    ensures
        class_display(v).len() <= 10,
{
    reveal_strlit("IN");
    reveal_strlit("CS");
    reveal_strlit("CH");
    reveal_strlit("HS");
    reveal_strlit("ANY");
    reveal_strlit("CLASS");
    lemma_pow10_vals();
    lemma_dec_digits_len(v as nat, 5);
}

proof fn lemma_type_display_len(v: u16)
    ensures
        type_display(v).len() <= 9,
{
    reveal_strlit("A");
    reveal_strlit("NS");
    reveal_strlit("MD");
    reveal_strlit("MF");
    reveal_strlit("CNAME");
    reveal_strlit("SOA");
    reveal_strlit("MB");
    reveal_strlit("MG");
    reveal_strlit("MR");
    reveal_strlit("NULL");
    reveal_strlit("WKS");
    reveal_strlit("PTR");
    reveal_strlit("HINFO");
    reveal_strlit("MINFO");
    reveal_strlit("MX");
    reveal_strlit("TXT");
    reveal_strlit("AAAA");
    reveal_strlit("SRV");
    reveal_strlit("OPT");
    reveal_strlit("AXFR");
    reveal_strlit("MAILB");
    reveal_strlit("MAILA");
    reveal_strlit("ANY");
    reveal_strlit("TYPE");
    lemma_pow10_vals();
    lemma_dec_digits_len(v as nat, 5);
}

proof fn lemma_ttl_w_bound(v: u32)
    ensures
        dec_digits(v as nat).len() <= 10,
{
    lemma_pow10_vals();
    lemma_dec_digits_len(v as nat, 10);
}

/// The sizing pass: column widths over the question and every displayed
/// record, and the OPT pseudosection if one is present.
pub fn scan_message(msg: &DecodedMessage) -> (r: (Sizes, Option<OptInfo>))
    requires
        msg.wf(),
    ensures
        sizes_ok(r.0, msg.question, msg.records@),
        r.1 == opt_upto(msg.records@, msg.records@.len() as int),
{
    let mut namew: usize = msg.question.qname.as_str().unicode_len();
    let mut classw: usize = {
        let mut t = String::new();
        push_class(&mut t, msg.question.qclass);
        proof {
            assert(t@ =~= class_display(msg.question.qclass));
            lemma_class_display_len(msg.question.qclass);
        }
        t.as_str().unicode_len()
    };
    let mut typew: usize = {
        let mut t = String::new();
        push_type(&mut t, msg.question.qtype);
        proof {
            assert(t@ =~= type_display(msg.question.qtype));
            lemma_type_display_len(msg.question.qtype);
        }
        t.as_str().unicode_len()
    };
    let mut ttlw: usize = 0;
    let mut rdlenw: usize = 0;
    let mut opt: Option<OptInfo> = None;
    let ghost recs = msg.records@;
    let mut i: usize = 0;
    while i < msg.records.len()
        invariant
            i <= recs.len(),
            recs == msg.records@,
            msg.wf(),
            namew == nmax(msg.question.qname@.len(), raw_name_w(recs, i as int)),
            classw == nmax(class_display(msg.question.qclass).len(), raw_class_w(recs, i as int)),
            typew == nmax(type_display(msg.question.qtype).len(), raw_type_w(recs, i as int)),
            ttlw == raw_ttl_w(recs, i as int),
            rdlenw == raw_rdlen_w(recs, i as int),
            opt == opt_upto(recs, i as int),
            namew <= 0xffff,
            classw <= 10,
            typew <= 10,
            ttlw <= 10,
            rdlenw <= 5,
        decreases recs.len() - i,
    {
        let r = &msg.records[i];
        assert(r.wf());
        let is_opt = match r.section {
            Section::Additional => r.rtype == 41,
            _ => false,
        };
        if is_opt {
            opt = Some(opt_from_record(r.rclass, r.ttl));
        } else {
            let nw = r.name.as_str().unicode_len();
            if nw > namew {
                namew = nw;
            }
            let mut t = String::new();
            push_class(&mut t, r.rclass);
            proof {
                assert(t@ =~= class_display(r.rclass));
                lemma_class_display_len(r.rclass);
            }
            let cw = t.as_str().unicode_len();
            if cw > classw {
                classw = cw;
            }
            let mut t2 = String::new();
            push_type(&mut t2, r.rtype);
            proof {
                assert(t2@ =~= type_display(r.rtype));
                lemma_type_display_len(r.rtype);
            }
            let tw = t2.as_str().unicode_len();
            if tw > typew {
                typew = tw;
            }
            proof {
                lemma_ttl_w_bound(r.ttl);
            }
            let tl = dec_width_u64(r.ttl as u64);
            if tl > ttlw {
                ttlw = tl;
            }
            proof {
                lemma_pow10_vals();
                lemma_dec_digits_len(r.rdata@.len(), 5);
            }
            let dl = dec_width_u64(r.rdata.len() as u64);
            if dl > rdlenw {
                rdlenw = dl;
            }
        }
        i = i + 1;
    }
    let sizes = Sizes {
        name: if namew + 2 >= 24 { namew + 2 } else { 24 },
        ttl: if ttlw + 1 >= 7 { ttlw + 1 } else { 7 },
        rclass: if classw + 1 >= 7 { classw + 1 } else { 7 },
        rtype: if typew + 1 >= 7 { typew + 1 } else { 7 },
        rdlen: rdlenw,
    };
    (sizes, opt)
}

/// Appends `t` left-aligned in a field of width `w`.
pub fn push_padded_str(out: &mut String, t: &str, w: usize)
    ensures
        final(out)@ == old(out)@ + pad_to(t@, w as nat),
{
    out.append(t);
    let l = t.unicode_len();
    if l < w {
        push_spaces(out, w - l);
        assert(out@ =~= old(out)@ + pad_to(t@, w as nat));
    }
}

/// The flag mnemonics present in a header, in the fixed order.
pub open spec fn flag_parts(f: u16) -> Seq<Seq<char>> {
    let p = Seq::<Seq<char>>::empty();
    let p = if qr_bit(f) { p.push("qr"@) } else { p };
    let p = if aa_bit(f) { p.push("aa"@) } else { p };
    let p = if tc_bit(f) { p.push("tc"@) } else { p };
    let p = if rd_bit(f) { p.push("rd"@) } else { p };
    let p = if ra_bit(f) { p.push("ra"@) } else { p };
    p
}

/// The parts joined with single spaces.
pub open spec fn join_spaces(p: Seq<Seq<char>>) -> Seq<char>
    decreases p.len(),
{
    if p.len() == 0 {
        Seq::empty()
    } else if p.len() == 1 {
        p[0]
    } else {
        join_spaces(p.drop_last()) + " "@ + p.last()
    }
}

/// The flags line content: the present flags, space-joined.
pub open spec fn flags_text(f: u16) -> Seq<char> {
    join_spaces(flag_parts(f))
}

/// Renders the present header flags, space-joined, in the fixed order.
pub fn format_flags(f: u16) -> (r: String)
    ensures
        r@ == flags_text(f),
{
    let mut parts: Vec<String> = Vec::new();
    if (f / 0x8000) % 2 == 1 {
        parts.push(String::from_str("qr"));
    }
    if (f / 0x400) % 2 == 1 {
        parts.push(String::from_str("aa"));
    }
    if (f / 0x200) % 2 == 1 {
        parts.push(String::from_str("tc"));
    }
    if (f / 0x100) % 2 == 1 {
        parts.push(String::from_str("rd"));
    }
    if (f / 0x80) % 2 == 1 {
        parts.push(String::from_str("ra"));
    }
    proof {
        assert(part_views(parts@) =~= flag_parts(f));
    }
    let mut out = String::new();
    let mut k: usize = 0;
    while k < parts.len()
        invariant
            k <= parts@.len(),
            part_views(parts@) == flag_parts(f),
            out@ == join_spaces(part_views(parts@).subrange(0, k as int)),
        decreases parts@.len() - k,
    {
        if k > 0 {
            out.append(" ");
        }
        out.append(parts[k].as_str());
        proof {
            let pv = part_views(parts@);
            assert(pv.subrange(0, k + 1).drop_last() =~= pv.subrange(0, k as int));
            assert(pv.subrange(0, k + 1).last() == pv[k as int]);
            assert(out@ =~= join_spaces(pv.subrange(0, k + 1)));
        }
        k = k + 1;
    }
    proof {
        assert(part_views(parts@).subrange(0, parts@.len() as int) =~= part_views(parts@));
    }
    out
}

/// The status code shown in the header line: the extended 12-bit code when
/// an OPT pseudosection is present, else the header's own code.
pub open spec fn status_of(h: Header, opt: Option<OptInfo>) -> u16 {
    match opt {
        Some(o) => rcode_extended_spec(rcode_of(h.flags), o.rcode_extension),
        None => rcode_of(h.flags),
    }
}

/// The two header lines: opcode, status and id, then the flags and the four
/// section counts.
pub open spec fn response_header_text(h: Header, opt: Option<OptInfo>) -> Seq<char> {
    ";; ->>HEADER<<- opcode: "@ + opcode_display(opcode_of(h.flags)) + ", status: "@
        + rcode_display(status_of(h, opt)) + ", id: "@ + dec_digits(h.id as nat) + "\n"@
        + ";; flags: "@ + flags_text(h.flags) + "; QUERY: "@ + dec_digits(h.qd_count as nat)
        + ", ANSWER: "@ + dec_digits(h.an_count as nat) + ", AUTHORITY: "@ + dec_digits(
        h.ns_count as nat,
    ) + ", ADDITIONAL: "@ + dec_digits(h.ar_count as nat) + "\n"@
}

/// The OPT pseudosection block: version, the DNSSEC-OK flag shown as `d0`,
/// and the advertised UDP payload size.
pub open spec fn opt_block(o: OptInfo) -> Seq<char> {
    ";; OPT PSEUDOSECTION:\n"@ + "; EDNS: version: "@ + dec_digits(o.version as nat) + ", flags:"@
        + (if o.dnssec_ok { " d0"@ } else { Seq::<char>::empty() }) + "; udp: "@ + dec_digits(
        o.udp_payload_size as nat,
    ) + "\n"@
}

/// The question line: a leading semicolon, then name, an empty TTL column,
/// class and type, each padded to its column.
pub open spec fn question_text(q: Question, z: Sizes) -> Seq<char> {
    ";"@ + pad_to(q.qname@, (z.name - 1) as nat) + pad_to(" "@, z.ttl as nat) + pad_to(
        class_display(q.qclass),
        z.rclass as nat,
    ) + pad_to(type_display(q.qtype), z.rtype as nat)
}

/// The hexadecimal form of the bytes `c[0..k]`, two digits each.
pub open spec fn hex_prefix(c: Seq<u8>, k: int) -> Seq<char>
    decreases k,
{
    if k <= 0 {
        Seq::empty()
    } else {
        hex_prefix(c, k - 1) + hex_byte(c[k - 1])
    }
}

/// The data bytes in four-byte chunks, each preceded by a space.
pub open spec fn hex_chunks(d: Seq<u8>) -> Seq<char>
    decreases d.len(),
{
    if d.len() == 0 {
        Seq::empty()
    } else {
        let k = if d.len() >= 4 { 4int } else { d.len() as int };
        " "@ + hex_prefix(d.subrange(0, k), k) + hex_chunks(d.skip(k))
    }
}

/// The RFC 3597 generic form: `\#`, the data length padded to the length
/// column, and the bytes in hexadecimal, grouped four to a chunk.
pub open spec fn rfc3597_text(d: Seq<u8>, w: nat) -> Seq<char> {
    "\\# "@ + pad_to(dec_digits(d.len()), w) + hex_chunks(d)
}

/// Appends the RFC 3597 generic form of the data.
pub fn push_rfc3597(out: &mut String, d: &Vec<u8>, w: usize)
    ensures
        final(out)@ == old(out)@ + rfc3597_text(d@, w as nat),
{
    out.append("\\# ");
    let lenstr = dec_u64(d.len() as u64);
    push_padded_str(out, lenstr.as_str(), w);
    let ghost base = out@;
    proof {
        assert(d@.skip(0) =~= d@);
    }
    let mut i: usize = 0;
    while i < d.len()
        invariant
            i <= d@.len(),
            i % 4 == 0 || i == d@.len(),
            base + hex_chunks(d@) == out@ + hex_chunks(d@.skip(i as int)),
        decreases d@.len() - i,
    {
        let k = if d.len() - i >= 4 { 4 } else { d.len() - i };
        let ghost rem = d@.skip(i as int);
        proof {
            assert(rem.len() > 0);
            assert(hex_chunks(rem) == " "@ + hex_prefix(rem.subrange(0, k as int), k as int)
                + hex_chunks(rem.skip(k as int)));
        }
        out.append(" ");
        let ghost mid = out@;
        let mut j: usize = 0;
        while j < k
            invariant
                j <= k,
                k <= d@.len() - i,
                i + k <= d@.len(),
                d@.len() <= usize::MAX,
                rem == d@.skip(i as int),
                out@ == mid + hex_prefix(rem.subrange(0, k as int), j as int),
            decreases k - j,
        {
            assert(i + j < d@.len());
            push_hex_byte(out, d[i + j]);
            proof {
                assert(rem.subrange(0, k as int)[j as int] == d@[i + j]);
                assert(out@ =~= mid + hex_prefix(rem.subrange(0, k as int), j + 1));
            }
            j = j + 1;
        }
        proof {
            assert(rem.skip(k as int) =~= d@.skip(i + k));
            assert(base + hex_chunks(d@) == out@ + hex_chunks(d@.skip(i + k)));
        }
        i = i + k;
    }
    proof {
        assert(d@.skip(d@.len() as int) =~= Seq::<u8>::empty());
        assert(hex_chunks(d@.skip(d@.len() as int)) =~= Seq::<char>::empty());
        assert(out@ =~= old(out)@ + rfc3597_text(d@, w as nat));
    }
}

/// Whether a payload renders through its own formatter rather than the
/// generic form.
pub open spec fn typed_payload(d: RData) -> bool {
    !(d is Generic || d is Obsolete)
}

/// One record row: the four aligned columns, the payload, and a newline.
pub open spec fn record_row(r: Record, z: Sizes, force: bool) -> Seq<char> {
    pad_to(r.name@, z.name as nat) + pad_to(dec_digits(r.ttl as nat), z.ttl as nat) + pad_to(
        class_display(r.rclass),
        z.rclass as nat,
    ) + pad_to(type_display(r.rtype), z.rtype as nat) + (if force || !typed_payload(r.data) {
        rfc3597_text(r.rdata@, z.rdlen as nat)
    } else {
        rdata_text(r.data)
    }) + "\n"@
}

/// Appends one record row.
pub fn push_record_row(out: &mut String, r: &Record, z: Sizes, force: bool)
    requires
        r.wf(),
    ensures
        final(out)@ == old(out)@ + record_row(*r, z, force),
{
    push_padded_str(out, r.name.as_str(), z.name);
    let ts = dec_u64(r.ttl as u64);
    push_padded_str(out, ts.as_str(), z.ttl);
    let mut ct = String::new();
    push_class(&mut ct, r.rclass);
    push_padded_str(out, ct.as_str(), z.rclass);
    let mut tt = String::new();
    push_type(&mut tt, r.rtype);
    push_padded_str(out, tt.as_str(), z.rtype);
    let typed = match &r.data {
        RData::Generic => false,
        RData::Obsolete => false,
        _ => true,
    };
    if force || !typed {
        push_rfc3597(out, &r.rdata, z.rdlen);
    } else {
        RDataFmt::fmt(out, &r.data);
    }
    out.append("\n");
    assert(out@ =~= old(out)@ + record_row(*r, z, force));
}

/// Appends a blank line and one section header.
pub fn push_section_header(out: &mut String, s: Section)
    ensures
        final(out)@ == old(out)@ + "\n;; "@ + section_upper(s) + " SECTION:\n"@,
{
    out.append("\n;; ");
    match s {
        Section::Answer => out.append("ANSWER"),
        Section::Authority => out.append("AUTHORITY"),
        Section::Additional => out.append("ADDITIONAL"),
    }
    out.append(" SECTION:\n");
    assert(out@ =~= old(out)@ + "\n;; "@ + section_upper(s) + " SECTION:\n"@);
}

/// The section of the record before index `i`, if any; the OPT record
/// counts here even though it prints no row.
pub open spec fn sec_after(recs: Seq<Record>, i: int) -> Option<Section> {
    if i <= 0 {
        None
    } else {
        Some(recs[i - 1].section)
    }
}

/// Whether the additional section's header is shown: only when something
/// besides the OPT record stands in it.
pub open spec fn show_additional(opt_present: bool, ar_count: u16) -> bool {
    !opt_present || ar_count > 1
}

/// What one record adds to the output: a blank line and a section header on
/// a section transition (except an additional section holding only the OPT
/// record), then its row unless it is the OPT record.
pub open spec fn record_step(r: Record, prev: Option<Section>, z: Sizes, force: bool,
    show: bool) -> Seq<char> {
    (if prev != Some(r.section) && (r.section != Section::Additional || show) {
        "\n;; "@ + section_upper(r.section) + " SECTION:\n"@
    } else {
        Seq::empty()
    }) + (if counted(r) {
        record_row(r, z, force)
    } else {
        Seq::empty()
    })
}

/// The record rows with their section headers, over the first `i` records.
pub open spec fn records_text(recs: Seq<Record>, i: int, z: Sizes, force: bool,
    show: bool) -> Seq<char>
    decreases i,
{
    if i <= 0 {
        Seq::empty()
    } else {
        records_text(recs, i - 1, z, force, show) + record_step(
            recs[i - 1],
            sec_after(recs, i - 1),
            z,
            force,
            show,
        )
    }
}

/// The rows of the records `recs[lo..hi]` alone, without section headers.
pub open spec fn section_rows(recs: Seq<Record>, lo: int, hi: int, z: Sizes,
    force: bool) -> Seq<char>
    decreases hi - lo,
{
    if hi <= lo {
        Seq::empty()
    } else {
        section_rows(recs, lo, hi - 1, z, force) + record_row(recs[hi - 1], z, force)
    }
}

#[verifier::spinoff_prover]
proof fn lemma_section_rows_left(recs: Seq<Record>, lo: int, hi: int, z: Sizes, force: bool)
    requires
        lo < hi,
    ensures
        section_rows(recs, lo, hi, z, force) == record_row(recs[lo], z, force) + section_rows(
            recs,
            lo + 1,
            hi,
            z,
            force,
        ),
    decreases hi - lo,
{
    if hi > lo + 1 {
        lemma_section_rows_left(recs, lo, hi - 1, z, force);
        assert(section_rows(recs, lo, hi, z, force) == section_rows(recs, lo, hi - 1, z, force)
            + record_row(recs[hi - 1], z, force));
        assert(section_rows(recs, lo + 1, hi, z, force) == section_rows(recs, lo + 1, hi - 1, z,
            force) + record_row(recs[hi - 1], z, force));
        assert(section_rows(recs, lo, hi, z, force) =~= record_row(recs[lo], z, force)
            + section_rows(recs, lo + 1, hi, z, force));
    } else {
        assert(hi == lo + 1);
        assert(section_rows(recs, lo + 1, hi, z, force) =~= Seq::<char>::empty());
        assert(section_rows(recs, lo, lo, z, force) =~= Seq::<char>::empty());
        assert(section_rows(recs, lo, hi, z, force) == section_rows(recs, lo, hi - 1, z, force)
            + record_row(recs[hi - 1], z, force));
        assert(recs[hi - 1] == recs[lo]);
        assert(Seq::<char>::empty() + record_row(recs[lo], z, force) =~= record_row(
            recs[lo],
            z,
            force,
        ) + Seq::<char>::empty());
        assert(section_rows(recs, lo, hi, z, force) == record_row(recs[lo], z, force)
            + section_rows(recs, lo + 1, hi, z, force));
    }
}

/// Records that stay inside the section already entered add their rows and
/// nothing else.
#[verifier::spinoff_prover]
proof fn lemma_records_run(recs: Seq<Record>, lo: int, hi: int, z: Sizes, force: bool,
    show: bool)
    requires
        1 <= lo <= hi <= recs.len(),
        forall|k: int|
            lo <= k < hi ==> (#[trigger] recs[k]).section == recs[lo - 1].section && counted(
                recs[k],
            ),
    ensures
        records_text(recs, hi, z, force, show) == records_text(recs, lo, z, force, show)
            + section_rows(recs, lo, hi, z, force),
    decreases hi - lo,
{
    if hi > lo {
        lemma_records_run(recs, lo, hi - 1, z, force, show);
        assert(sec_after(recs, hi - 1) == Some(recs[hi - 1].section));
        assert(record_step(recs[hi - 1], sec_after(recs, hi - 1), z, force, show) =~= record_row(
            recs[hi - 1],
            z,
            force,
        ));
        assert(records_text(recs, hi, z, force, show) =~= records_text(recs, lo, z, force, show)
            + section_rows(recs, lo, hi, z, force));
    } else {
        assert(section_rows(recs, lo, hi, z, force) =~= Seq::<char>::empty());
        assert(records_text(recs, lo, z, force, show) + section_rows(recs, lo, hi, z, force)
            =~= records_text(recs, lo, z, force, show));
    }
}

/// A message whose records fill the answer section and then the additional
/// section, with nothing suppressed, renders as exactly one header per
/// section, each opening with the blank line, each followed by exactly its
/// section's rows.
#[verifier::spinoff_prover]
pub proof fn lemma_two_section_headers(recs: Seq<Record>, na: int, z: Sizes, force: bool)
    requires
        0 < na < recs.len(),
        forall|k: int| 0 <= k < na ==> (#[trigger] recs[k]).section == Section::Answer,
        forall|k: int|
            na <= k < recs.len() ==> (#[trigger] recs[k]).section == Section::Additional,
        forall|k: int| 0 <= k < recs.len() ==> counted(#[trigger] recs[k]),
    ensures
        records_text(recs, recs.len() as int, z, force, true) == "\n;; ANSWER SECTION:\n"@
            + section_rows(recs, 0, na, z, force) + "\n;; ADDITIONAL SECTION:\n"@ + section_rows(
            recs,
            na,
            recs.len() as int,
            z,
            force,
        ),
{
    reveal_strlit("\n;; ");
    reveal_strlit(" SECTION:\n");
    reveal_strlit("ANSWER");
    reveal_strlit("ADDITIONAL");
    reveal_strlit("\n;; ANSWER SECTION:\n");
    reveal_strlit("\n;; ADDITIONAL SECTION:\n");
    assert("\n;; ANSWER SECTION:\n"@ =~= "\n;; "@ + section_upper(Section::Answer)
        + " SECTION:\n"@);
    assert("\n;; ADDITIONAL SECTION:\n"@ =~= "\n;; "@ + section_upper(Section::Additional)
        + " SECTION:\n"@);
    assert(recs[0].section == Section::Answer);
    assert(counted(recs[0]));
    assert(sec_after(recs, 0) is None);
    assert(record_step(recs[0], sec_after(recs, 0), z, force, true) =~= "\n;; ANSWER SECTION:\n"@
        + record_row(recs[0], z, force));
    assert(records_text(recs, 0, z, force, true) =~= Seq::<char>::empty());
    assert(records_text(recs, 1, z, force, true) == records_text(recs, 0, z, force, true)
        + record_step(recs[0], sec_after(recs, 0), z, force, true));
    assert(Seq::<char>::empty() + record_step(recs[0], sec_after(recs, 0), z, force, true)
        =~= record_step(recs[0], sec_after(recs, 0), z, force, true));
    assert(records_text(recs, 1, z, force, true) =~= "\n;; ANSWER SECTION:\n"@ + record_row(
        recs[0],
        z,
        force,
    ));
    lemma_records_run(recs, 1, na, z, force, true);
    lemma_section_rows_left(recs, 0, na, z, force);
    assert(records_text(recs, na, z, force, true) =~= "\n;; ANSWER SECTION:\n"@ + section_rows(
        recs,
        0,
        na,
        z,
        force,
    ));
    assert(sec_after(recs, na) == Some(Section::Answer));
    assert(records_text(recs, na + 1, z, force, true) =~= records_text(recs, na, z, force, true)
        + "\n;; ADDITIONAL SECTION:\n"@ + record_row(recs[na], z, force));
    lemma_records_run(recs, na + 1, recs.len() as int, z, force, true);
    lemma_section_rows_left(recs, na, recs.len() as int, z, force);
    assert(records_text(recs, recs.len() as int, z, force, true) =~= "\n;; ANSWER SECTION:\n"@
        + section_rows(recs, 0, na, z, force) + "\n;; ADDITIONAL SECTION:\n"@ + section_rows(
        recs,
        na,
        recs.len() as int,
        z,
        force,
    ));
}

/// A message whose additional section holds only the OPT pseudo-record
/// renders no additional-section header and no row for the OPT record.
#[verifier::spinoff_prover]
pub proof fn lemma_opt_only_additional_suppressed(recs: Seq<Record>, na: int, z: Sizes,
    force: bool)
    requires
        0 < na,
        recs.len() == na + 1,
        forall|k: int| 0 <= k < na ==> (#[trigger] recs[k]).section == Section::Answer && counted(
            recs[k],
        ),
        recs[na].section == Section::Additional,
        !counted(recs[na]),
    ensures
        records_text(recs, recs.len() as int, z, force, false) == "\n;; ANSWER SECTION:\n"@
            + section_rows(recs, 0, na, z, force),
{
    reveal_strlit("\n;; ");
    reveal_strlit(" SECTION:\n");
    reveal_strlit("ANSWER");
    reveal_strlit("\n;; ANSWER SECTION:\n");
    assert("\n;; ANSWER SECTION:\n"@ =~= "\n;; "@ + section_upper(Section::Answer)
        + " SECTION:\n"@);
    assert(recs[0].section == Section::Answer);
    assert(counted(recs[0]));
    assert(sec_after(recs, 0) is None);
    assert(record_step(recs[0], sec_after(recs, 0), z, force, false) =~= "\n;; ANSWER SECTION:\n"@
        + record_row(recs[0], z, force));
    assert(records_text(recs, 0, z, force, false) =~= Seq::<char>::empty());
    assert(records_text(recs, 1, z, force, false) == records_text(recs, 0, z, force, false)
        + record_step(recs[0], sec_after(recs, 0), z, force, false));
    assert(Seq::<char>::empty() + record_step(recs[0], sec_after(recs, 0), z, force, false)
        =~= record_step(recs[0], sec_after(recs, 0), z, force, false));
    assert(records_text(recs, 1, z, force, false) =~= "\n;; ANSWER SECTION:\n"@ + record_row(
        recs[0],
        z,
        force,
    ));
    lemma_records_run(recs, 1, na, z, force, false);
    lemma_section_rows_left(recs, 0, na, z, force);
    assert(records_text(recs, na, z, force, false) =~= "\n;; ANSWER SECTION:\n"@ + section_rows(
        recs,
        0,
        na,
        z,
        force,
    ));
    assert(sec_after(recs, na) == Some(Section::Answer));
    assert(record_step(recs[na], sec_after(recs, na), z, force, false) =~= Seq::<char>::empty());
    assert(records_text(recs, na + 1, z, force, false) =~= records_text(recs, na, z, force,
        false));
}

/// The rendered message, footer aside: the header block, a blank line, the
/// OPT block if present, the question section, and the records.
pub open spec fn message_text(h: Header, q: Question, recs: Seq<Record>, z: Sizes,
    opt: Option<OptInfo>, force: bool) -> Seq<char> {
    response_header_text(h, opt) + "\n"@ + (match opt {
        Some(o) => opt_block(o),
        None => Seq::<char>::empty(),
    }) + ";; QUESTION SECTION:\n"@ + question_text(q, z) + "\n"@ + records_text(
        recs,
        recs.len() as int,
        z,
        force,
        show_additional(opt is Some, h.ar_count),
    ) + "\n"@
}

/// What `std::time::Duration`'s debug form prints for the given seconds and
/// sub-second nanoseconds; a function of the two values alone.
pub uninterp spec fn duration_repr(secs: u64, nanos: u32) -> Seq<char>;

/// Relies on std's `Debug` for `std::time::Duration`: the text depends on
/// the seconds and nanoseconds alone.
#[verifier::external_body]
fn duration_debug(secs: u64, nanos: u32) -> (r: String)
    requires
        nanos < 1_000_000_000,
    ensures
        r@ == duration_repr(secs, nanos),
{
    format!("{:?}", std::time::Duration::new(secs, nanos))
}

/// Timestamps whose local RFC 2822 form chrono can write: nonnegative, so
/// the year stays at 1969 or later under any zone offset, and at least a
/// day short of the end of year 9999 UTC, so no offset pushes the written
/// year past four digits.
pub open spec fn rfc2822_range(t: EncodedTime) -> bool {
    0 <= t.secs <= 253_402_214_399 && t.nanos < 1_000_000_000
}

/// Relies on chrono's `DateTime::from_timestamp` and `to_rfc2822`: within
/// the admitted range the conversion succeeds and the written form cannot
/// fail (`to_rfc2822` can only write years 0 through 9999). The text
/// depends on the machine's local time zone, so nothing is promised of it.
#[verifier::external_body]
fn local_rfc2822(secs: i64, nanos: u32) -> (r: Option<String>)
    requires
        0 <= secs <= 253_402_214_399,
        nanos < 1_000_000_000,
    ensures
        r is Some,
{
    match chrono::DateTime::from_timestamp(secs, nanos) {
        Some(t) => Some(t.with_timezone(&chrono::Local).to_rfc2822()),
        None => None,
    }
}

/// A duration's whole seconds with any whole seconds hiding in the
/// nanosecond field carried over, saturating at the maximum.
pub open spec fn norm_secs(d: EncodedDuration) -> u64 {
    if d.nanos < 1_000_000_000 {
        d.secs
    } else if d.secs + d.nanos as u64 / 1_000_000_000 > u64::MAX {
        u64::MAX
    } else {
        (d.secs + d.nanos as u64 / 1_000_000_000) as u64
    }
}

/// A duration's sub-second nanoseconds after the carry.
pub open spec fn norm_nanos(d: EncodedDuration) -> u32 {
    if d.nanos < 1_000_000_000 {
        d.nanos
    } else {
        (d.nanos % 1_000_000_000) as u32
    }
}

/// The elapsed-time footer line, when the elapsed time is known.
pub open spec fn qtime_part(e: Option<EncodedDuration>) -> Seq<char> {
    match e {
        Some(d) => ";; Query time: "@ + duration_repr(norm_secs(d), norm_nanos(d)) + "\n"@,
        None => Seq::empty(),
    }
}

/// The responding-nameserver footer line, when the nameserver is known.
pub open spec fn server_part(ns: Option<SocketAddress>) -> Seq<char> {
    match ns {
        Some(sa) => ";; SERVER: "@ + sockaddr_text(sa) + "\n"@,
        None => Seq::empty(),
    }
}

/// The message-size footer line.
pub open spec fn msgsize_part(n: nat) -> Seq<char> {
    ";; MSG SIZE rcvd: "@ + dec_digits(n) + "\n"@
}

/// A footer timestamp line.
pub open spec fn when_line(w: Seq<char>) -> Seq<char> {
    ";; WHEN: "@ + w + "\n"@
}

/// One render of a decoded message: the selected format, the decoded view,
/// the raw message size, the optional metadata, and the computed column
/// widths and OPT pseudosection.
pub struct Output<'a> {
    pub format: OutputFormat,
    pub msg: &'a DecodedMessage,
    pub msg_size: usize,
    pub ns: Option<SocketAddress>,
    pub ts: Option<EncodedTime>,
    pub elapsed: Option<EncodedDuration>,
    pub sizes: Sizes,
    pub opt: Option<OptInfo>,
}

impl<'a> Output<'a> {
    /// The sizing pass ran and the widths and OPT section belong to the
    /// message.
    pub open spec fn inv(self) -> bool {
        &&& self.msg.wf()
        &&& (self.ns matches Some(sa) ==> sa.wf())
        &&& sizes_ok(self.sizes, self.msg.question, self.msg.records@)
        &&& self.opt == opt_upto(self.msg.records@, self.msg.records@.len() as int)
    }

    /// Runs the sizing pass and readies a render of one message.
    pub fn new(
        format: OutputFormat,
        msg: &'a DecodedMessage,
        msg_size: usize,
        ns: Option<SocketAddress>,
        ts: Option<EncodedTime>,
        elapsed: Option<EncodedDuration>,
    ) -> (r: Output<'a>)
        requires
            msg.wf(),
            ns matches Some(sa) ==> sa.wf(),
        ensures
            r.inv(),
            r.format == format,
            r.msg == msg,
            r.msg_size == msg_size,
            r.ns == ns,
            r.ts == ts,
            r.elapsed == elapsed,
    {
        let (sizes, opt) = scan_message(msg);
        Output { format, msg, msg_size, ns, ts, elapsed, sizes, opt }
    }

    /// Renders the two header lines.
    pub fn format_response_header(&self) -> (r: String)
        requires
            self.inv(),
        ensures
            r@ == response_header_text(self.msg.header, self.opt),
    {
        let h = &self.msg.header;
        let status: u16 = match &self.opt {
            Some(o) => crate::types::rcode_extended(h.flags % 16, o.rcode_extension),
            None => h.flags % 16,
        };
        let mut out = String::new();
        out.append(";; ->>HEADER<<- opcode: ");
        push_opcode(&mut out, ((h.flags / 0x800) % 16) as u8);
        out.append(", status: ");
        push_rcode(&mut out, status);
        out.append(", id: ");
        push_dec_u64(&mut out, h.id as u64);
        out.append("\n");
        out.append(";; flags: ");
        let fl = format_flags(h.flags);
        out.append(fl.as_str());
        out.append("; QUERY: ");
        push_dec_u64(&mut out, h.qd_count as u64);
        out.append(", ANSWER: ");
        push_dec_u64(&mut out, h.an_count as u64);
        out.append(", AUTHORITY: ");
        push_dec_u64(&mut out, h.ns_count as u64);
        out.append(", ADDITIONAL: ");
        push_dec_u64(&mut out, h.ar_count as u64);
        out.append("\n");
        proof {
            assert(out@ =~= response_header_text(self.msg.header, self.opt));
        }
        out
    }

    /// Renders the OPT pseudosection block.
    pub fn format_opt(&self) -> (r: String)
        requires
            self.opt is Some,
        ensures
            r@ == opt_block(self.opt->0),
    {
        let o = self.opt.as_ref().unwrap();
        let mut out = String::new();
        out.append(";; OPT PSEUDOSECTION:\n");
        out.append("; EDNS: version: ");
        push_dec_u64(&mut out, o.version as u64);
        out.append(", flags:");
        if o.dnssec_ok {
            out.append(" d0");
        }
        out.append("; udp: ");
        push_dec_u64(&mut out, o.udp_payload_size as u64);
        out.append("\n");
        proof {
            assert(out@ =~= opt_block(self.opt->0));
        }
        out
    }

    /// Renders the question section: its header line and the question.
    pub fn format_question(&self) -> (r: String)
        requires
            self.inv(),
        ensures
            r@ == ";; QUESTION SECTION:\n"@ + question_text(self.msg.question, self.sizes),
    {
        let q = &self.msg.question;
        let mut out = String::new();
        out.append(";; QUESTION SECTION:\n");
        out.append(";");
        assert(self.sizes.name >= 24);
        push_padded_str(&mut out, q.qname.as_str(), self.sizes.name - 1);
        push_padded_str(&mut out, " ", self.sizes.ttl);
        let mut ct = String::new();
        push_class(&mut ct, q.qclass);
        push_padded_str(&mut out, ct.as_str(), self.sizes.rclass);
        let mut tt = String::new();
        push_type(&mut tt, q.qtype);
        push_padded_str(&mut out, tt.as_str(), self.sizes.rtype);
        proof {
            assert(out@ =~= ";; QUESTION SECTION:\n"@ + question_text(self.msg.question,
                self.sizes));
        }
        out
    }

    /// Renders every record row, with a blank line and a section header on
    /// each section transition.
    #[verifier::rlimit(100)]
    #[verifier::spinoff_prover]
    pub fn format_records(&self) -> (r: String)
        requires
            self.inv(),
        ensures
            r@ == records_text(
                self.msg.records@,
                self.msg.records@.len() as int,
                self.sizes,
                self.format == OutputFormat::ZoneRfc3597,
                show_additional(self.opt is Some, self.msg.header.ar_count),
            ),
    {
        let ghost recs = self.msg.records@;
        let force = self.format.is_rfc3597();
        let show = match &self.opt {
            None => true,
            Some(_) => self.msg.header.ar_count > 1,
        };
        let mut out = String::new();
        let mut cur: Option<Section> = None;
        let mut i: usize = 0;
        while i < self.msg.records.len()
            invariant
                i <= recs.len(),
                recs == self.msg.records@,
                self.inv(),
                force == (self.format == OutputFormat::ZoneRfc3597),
                show == show_additional(self.opt is Some, self.msg.header.ar_count),
                cur == sec_after(recs, i as int),
                out@ == records_text(recs, i as int, self.sizes, force, show),
            decreases recs.len() - i,
        {
            let r = &self.msg.records[i];
            assert(r.wf());
            let ghost before = out@;
            let same = match &cur {
                Some(p) => *p == r.section,
                None => false,
            };
            let header_shown = !same && (match r.section {
                Section::Additional => show,
                _ => true,
            });
            if header_shown {
                push_section_header(&mut out, r.section);
            }
            let is_opt = match r.section {
                Section::Additional => r.rtype == 41,
                _ => false,
            };
            if !is_opt {
                push_record_row(&mut out, r, self.sizes, force);
            }
            proof {
                assert(out@ =~= before + record_step(recs[i as int], sec_after(recs, i as int),
                    self.sizes, force, show));
                assert(out@ =~= records_text(recs, i + 1, self.sizes, force, show));
            }
            cur = Some(r.section);
            i = i + 1;
        }
        out
    }

    /// The whole rendered report with the given timestamp footer line: the
    /// message text, then the elapsed-time, nameserver, timestamp and
    /// message-size footer lines. The timestamp line is absent when no
    /// timestamp was supplied, and otherwise either absent or one
    /// `;; WHEN:` line; its text comes from the machine's local time zone.
    pub open spec fn rendered_with(self, r: Seq<char>, when_part: Seq<char>) -> bool {
        &&& r == message_text(
            self.msg.header,
            self.msg.question,
            self.msg.records@,
            self.sizes,
            self.opt,
            self.format == OutputFormat::ZoneRfc3597,
        ) + qtime_part(self.elapsed) + server_part(self.ns) + when_part + msgsize_part(
            self.msg_size as nat,
        )
        &&& self.ts is None ==> when_part == Seq::<char>::empty()
        &&& (self.ts matches Some(t) ==> (rfc2822_range(t) ==> exists|w: Seq<char>|
            when_part == #[trigger] when_line(w)))
        &&& when_part == Seq::<char>::empty() || exists|w: Seq<char>|
            when_part == #[trigger] when_line(w)
    }

    /// Renders the whole report: header block, OPT pseudosection, question,
    /// records, and the footer lines for whichever metadata is known.
    #[verifier::rlimit(100)]
    #[verifier::spinoff_prover]
    pub fn print(&self) -> (r: String)
        requires
            self.inv(),
        ensures
            exists|when_part: Seq<char>| #[trigger] self.rendered_with(r@, when_part),
    {
        let mut out = self.format_response_header();
        out.append("\n");
        match &self.opt {
            Some(_) => {
                let ob = self.format_opt();
                out.append(ob.as_str());
            },
            None => {},
        }
        let q = self.format_question();
        out.append(q.as_str());
        out.append("\n");
        let recs = self.format_records();
        out.append(recs.as_str());
        out.append("\n");
        proof {
            assert(out@ =~= message_text(
                self.msg.header,
                self.msg.question,
                self.msg.records@,
                self.sizes,
                self.opt,
                self.format == OutputFormat::ZoneRfc3597,
            ));
        }
        match &self.elapsed {
            Some(d) => {
                out.append(";; Query time: ");
                let extra: u64 = (d.nanos / 1_000_000_000) as u64;
                let (s2, n2): (u64, u32) = if d.nanos < 1_000_000_000 {
                    (d.secs, d.nanos)
                } else if d.secs > u64::MAX - extra {
                    (u64::MAX, d.nanos % 1_000_000_000)
                } else {
                    (d.secs + extra, d.nanos % 1_000_000_000)
                };
                assert(s2 == norm_secs(*d) && n2 == norm_nanos(*d));
                let dd = duration_debug(s2, n2);
                out.append(dd.as_str());
                out.append("\n");
            },
            None => {},
        }
        match &self.ns {
            Some(sa) => {
                out.append(";; SERVER: ");
                push_sockaddr(&mut out, sa);
                out.append("\n");
            },
            None => {},
        }
        let mut when_part = String::new();
        match &self.ts {
            Some(t) => {
                if 0 <= t.secs && t.secs <= 253_402_214_399 && t.nanos < 1_000_000_000 {
                    match local_rfc2822(t.secs, t.nanos) {
                        Some(w) => {
                            when_part.append(";; WHEN: ");
                            when_part.append(w.as_str());
                            when_part.append("\n");
                            proof {
                                assert(when_part@ =~= when_line(w@));
                            }
                        },
                        None => {
                            proof {
                                assert(false);
                            }
                        },
                    }
                }
            },
            None => {},
        }
        out.append(when_part.as_str());
        out.append(";; MSG SIZE rcvd: ");
        push_dec_u64(&mut out, self.msg_size as u64);
        out.append("\n");
        proof {
            assert(out@ =~= message_text(
                self.msg.header,
                self.msg.question,
                self.msg.records@,
                self.sizes,
                self.opt,
                self.format == OutputFormat::ZoneRfc3597,
            ) + qtime_part(self.elapsed) + server_part(self.ns) + when_part@ + msgsize_part(
                self.msg_size as nat,
            ));
            assert(self.rendered_with(out@, when_part@));
        }
        out
    }
}

} // verus!
