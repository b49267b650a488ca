//! The argument interpreter: a single forward scan over the dig-style
//! positional tokens, folding each into the query configuration with
//! last-wins precedence, then validating the query type and resolving the
//! nameserver. Each token belongs to one category by its own text alone;
//! tokens of different categories touch disjoint parts of the state, so
//! only the order of same-category tokens matters.

use vstd::prelude::*;

verus! {

use vstd::string::StringExecFns;
use vstd::string::StrSliceExecFns;
use crate::addr::{v4_text, v6_parse_spec, parse_ip, IpAddress, SocketAddress};
use crate::text::{parse_num, parse_num_spec, str_eq, to_upper, upper_seq};
use crate::types::{is_data_type, type_display, type_from_str, type_from_str_spec, type_is_data,
    push_type};
use crate::zone::join_spaces;
use crate::addr::part_views;

/// The output form selected for a run; later format tokens override
/// earlier ones.
#[derive(Copy, Clone, Debug, Eq, PartialEq, Structural)]
pub enum OutputFormat {
    Zone,
    ZoneRfc3597,
    Short,
    Rust,
}

impl Default for OutputFormat {
    /// The zone form is the default.
    fn default() -> (r: Self)
        ensures
            r == OutputFormat::Zone,
    {
        OutputFormat::Zone
    }
}

impl OutputFormat {
    /// Whether every record is to be rendered in the RFC 3597 generic form.
    pub fn is_rfc3597(self) -> (r: bool)
        ensures
            r == (self == OutputFormat::ZoneRfc3597),
    {
        matches!(self, OutputFormat::ZoneRfc3597)
    }
}

/// How queries are sent: UDP with TCP retry on truncation, TCP only, or
/// UDP only without retry.
#[derive(Copy, Clone, Debug, Eq, PartialEq, Structural)]
pub enum ProtocolStrategy {
    Udp,
    Tcp,
    NoTcp,
}

/// Whether recursion is requested.
#[derive(Copy, Clone, Debug, Eq, PartialEq, Structural)]
pub enum Recursion {
    On,
    Off,
}

/// The EDNS setting: off, or on with a version and a UDP payload bound.
#[derive(Copy, Clone, Debug, Eq, PartialEq, Structural)]
pub struct EdnsConfig {
    pub enabled: bool,
    pub version: u8,
    pub udp_payload_size: u16,
}

/// An interpreter failure, with what the message names.
#[derive(Clone, Debug)]
pub enum ArgsError {
    BadOption(String),
    BadNameserverAddress,
    BadQType(u16),
    NoNameservers,
}

impl ArgsError {
    /// The one-line diagnostic for this failure.
    pub fn message(&self) -> (r: String)
        ensures
            r@ == match self {
                ArgsError::BadOption(s) => "bad option: "@ + s@,
                ArgsError::BadNameserverAddress => "failed to parse nameserver ip address"@,
                ArgsError::BadQType(v) => "only data-type queries are supported or ANY: "@
                    + type_display(*v),
                ArgsError::NoNameservers => "no nameservers"@,
            },
    {
        let mut out = String::new();
        match self {
            ArgsError::BadOption(s) => {
                out.append("bad option: ");
                out.append(s.as_str());
            },
            ArgsError::BadNameserverAddress => {
                out.append("failed to parse nameserver ip address");
            },
            ArgsError::BadQType(v) => {
                out.append("only data-type queries are supported or ANY: ");
                push_type(&mut out, *v);
            },
            ArgsError::NoNameservers => {
                out.append("no nameservers");
            },
        }
        proof {
            assert(out@ =~= match self {
                ArgsError::BadOption(s) => "bad option: "@ + s@,
                ArgsError::BadNameserverAddress => "failed to parse nameserver ip address"@,
                ArgsError::BadQType(v) => "only data-type queries are supported or ANY: "@
                    + type_display(*v),
                ArgsError::NoNameservers => "no nameservers"@,
            });
        }
        out
    }
}

/// An IP address as plain mathematical values.
pub enum IpView {
    V4(Seq<u8>),
    V6(Seq<u16>),
}

/// The view of an address.
pub open spec fn ip_view(ip: IpAddress) -> IpView {
    match ip {
        IpAddress::V4(a) => IpView::V4(a.octets@),
        IpAddress::V6(a) => IpView::V6(a.segments@),
    }
}

/// The scan state as plain mathematical values.
#[verifier::ext_equal]
pub struct ArgsModel {
    pub protocol: ProtocolStrategy,
    pub recursion: Recursion,
    pub format: OutputFormat,
    pub edns_enabled: bool,
    pub edns_version: u8,
    pub edns_udp_payload_size: u16,
    pub nameserver: Option<IpView>,
    pub nameservers: Seq<Seq<char>>,
    pub qtype: u16,
    pub qnames: Seq<Seq<char>>,
}

/// The state before any token: UDP with retry, recursion on, zone output,
/// EDNS on at version 0 with a 4096-byte payload bound, no nameserver, an
/// address-record query, no names.
pub open spec fn init_model() -> ArgsModel {
    ArgsModel {
        protocol: ProtocolStrategy::Udp,
        recursion: Recursion::On,
        format: OutputFormat::Zone,
        edns_enabled: true,
        edns_version: 0,
        edns_udp_payload_size: 4096,
        nameserver: None,
        nameservers: Seq::empty(),
        qtype: 1,
        qnames: Seq::empty(),
    }
}

/// The index of the first `=` at or after `i`, or the end.
pub open spec fn eq_end(s: Seq<char>, i: int) -> int
    decreases s.len() - i,
{
    if i < 0 || i >= s.len() || s[i] == '=' {
        i
    } else {
        eq_end(s, i + 1)
    }
}

/// The numeric text of a `+name=value` token: from just past the first `=`
/// to the next `=` or the end, as std's split would hand it over.
pub open spec fn param_of(t: Seq<char>, start: int) -> Seq<char> {
    t.subrange(start, eq_end(t, start))
}

/// The token categories; each touches its own part of the state.
#[derive(PartialEq, Eq, Structural)]
pub enum TokenCategory {
    Protocol,
    Recursion,
    Format,
    Edns,
    Bufsize,
    Nameserver,
    QType,
    QName,
    Bad,
}

/// Whether `t` is an exact protocol switch.
pub open spec fn is_protocol_token(t: Seq<char>) -> bool {
    t == "+udp"@ || t == "+tcp"@ || t == "+notcp"@
}

pub open spec fn is_recursion_token(t: Seq<char>) -> bool {
    t == "+rec"@ || t == "+norec"@
}

pub open spec fn is_format_token(t: Seq<char>) -> bool {
    t == "+short"@ || t == "+noshort"@ || t == "+rust"@ || t == "+norust"@ || t == "+gen"@
        || t == "+nogen"@
}

pub open spec fn is_edns_token(t: Seq<char>) -> bool {
    t == "+edns"@ || t == "+noedns"@ || (t.len() >= 6 && t.subrange(0, 6) == "+edns="@)
}

pub open spec fn is_bufsize_token(t: Seq<char>) -> bool {
    !is_edns_token(t) && t.len() >= 9 && t.subrange(0, 9) == "+bufsize="@
}

pub open spec fn is_nameserver_token(t: Seq<char>) -> bool {
    t.len() >= 1 && t[0] == '@'
}

/// The category of one token, decided by its text alone, in the
/// interpreter's precedence order.
pub open spec fn token_category(t: Seq<char>) -> TokenCategory {
    if is_protocol_token(t) {
        TokenCategory::Protocol
    } else if is_recursion_token(t) {
        TokenCategory::Recursion
    } else if is_format_token(t) {
        TokenCategory::Format
    } else if is_edns_token(t) {
        TokenCategory::Edns
    } else if is_bufsize_token(t) {
        TokenCategory::Bufsize
    } else if is_nameserver_token(t) {
        TokenCategory::Nameserver
    } else if type_from_str_spec(upper_seq(t)) is Some {
        TokenCategory::QType
    } else if t.len() >= 1 && t[0] == '+' {
        TokenCategory::Bad
    } else {
        TokenCategory::QName
    }
}

/// Whether a nameserver token's address text is an address.
pub open spec fn ns_addr_ok(a: Seq<char>) -> bool {
    (exists|o: Seq<u8>| o.len() == 4 && a == v4_text(o)) || v6_parse_spec(a) is Some
}

/// The address a nameserver token carries.
pub open spec fn ns_addr_view(a: Seq<char>) -> IpView {
    if exists|o: Seq<u8>| o.len() == 4 && a == v4_text(o) {
        IpView::V4(choose|o: Seq<u8>| o.len() == 4 && a == v4_text(o))
    } else {
        IpView::V6(v6_parse_spec(a)->0)
    }
}

/// Whether the token is well formed: everything but an unrecognized
/// `+` option, a malformed numeric parameter, and a malformed address.
pub open spec fn token_ok(t: Seq<char>) -> bool {
    match token_category(t) {
        TokenCategory::Edns => t == "+edns"@ || t == "+noedns"@ || parse_num_spec(
            param_of(t, 6),
            255,
        ) is Some,
        TokenCategory::Bufsize => parse_num_spec(param_of(t, 9), 65535) is Some,
        TokenCategory::Nameserver => ns_addr_ok(t.subrange(1, t.len() as int)),
        TokenCategory::Bad => false,
        _ => true,
    }
}

/// One scan step: how one token rewrites the state. A malformed token
/// yields nothing; later tokens of a category overwrite what earlier ones
/// of the same category set.
pub open spec fn step(m: ArgsModel, t: Seq<char>) -> Option<ArgsModel> {
    if !token_ok(t) {
        None
    } else {
        Some(
            match token_category(t) {
                TokenCategory::Protocol => ArgsModel {
                    protocol: if t == "+udp"@ {
                        ProtocolStrategy::Udp
                    } else if t == "+tcp"@ {
                        ProtocolStrategy::Tcp
                    } else {
                        ProtocolStrategy::NoTcp
                    },
                    ..m
                },
                TokenCategory::Recursion => ArgsModel {
                    recursion: if t == "+rec"@ {
                        Recursion::On
                    } else {
                        Recursion::Off
                    },
                    ..m
                },
                TokenCategory::Format => ArgsModel {
                    format: if t == "+short"@ {
                        OutputFormat::Short
                    } else if t == "+rust"@ {
                        OutputFormat::Rust
                    } else if t == "+gen"@ {
                        OutputFormat::ZoneRfc3597
                    } else {
                        OutputFormat::Zone
                    },
                    ..m
                },
                TokenCategory::Edns => if t == "+noedns"@ {
                    ArgsModel { edns_enabled: false, ..m }
                } else if t == "+edns"@ {
                    ArgsModel { edns_enabled: true, edns_version: 0, ..m }
                } else {
                    ArgsModel {
                        edns_enabled: true,
                        edns_version: parse_num_spec(param_of(t, 6), 255)->0 as u8,
                        ..m
                    }
                },
                TokenCategory::Bufsize => ArgsModel {
                    edns_udp_payload_size: parse_num_spec(param_of(t, 9), 65535)->0 as u16,
                    ..m
                },
                TokenCategory::Nameserver => ArgsModel {
                    nameserver: Some(ns_addr_view(t.subrange(1, t.len() as int))),
                    nameservers: m.nameservers.push(t.subrange(1, t.len() as int)),
                    ..m
                },
                TokenCategory::QType => ArgsModel {
                    qtype: type_from_str_spec(upper_seq(t))->0,
                    ..m
                },
                _ => ArgsModel { qnames: m.qnames.push(t), ..m },
            },
        )
    }
}

/// The state after the first `i` tokens, or nothing once a token failed.
pub open spec fn scan(tokens: Seq<Seq<char>>, i: int) -> Option<ArgsModel>
    decreases i,
{
    if i <= 0 {
        Some(init_model())
    } else {
        match scan(tokens, i - 1) {
            Some(m) => step(m, tokens[i - 1]),
            None => None,
        }
    }
}

/// A step leaves every part of the state outside its token's category
/// alone, and what it writes there does not read the rest of the state.
pub proof fn lemma_step_frame(m: ArgsModel, t: Seq<char>)
    requires
        step(m, t) is Some,
    ensures
        ({
            let r = step(m, t)->0;
            let c = token_category(t);
            &&& (c != TokenCategory::Protocol ==> r.protocol == m.protocol)
            &&& (c != TokenCategory::Recursion ==> r.recursion == m.recursion)
            &&& (c != TokenCategory::Format ==> r.format == m.format)
            &&& (c != TokenCategory::Edns ==> r.edns_enabled == m.edns_enabled && r.edns_version
                == m.edns_version)
            &&& (c != TokenCategory::Bufsize ==> r.edns_udp_payload_size
                == m.edns_udp_payload_size)
            &&& (c != TokenCategory::Nameserver ==> r.nameserver == m.nameserver && r.nameservers
                == m.nameservers)
            &&& (c != TokenCategory::QType ==> r.qtype == m.qtype)
            &&& (c != TokenCategory::QName ==> r.qnames == m.qnames)
            &&& (c == TokenCategory::Nameserver ==> r.nameservers == m.nameservers.push(
                t.subrange(1, t.len() as int)))
            &&& (c == TokenCategory::QName ==> r.qnames == m.qnames.push(t))
        }),
{
}

/// Whether a token is accepted does not depend on the state.
pub proof fn lemma_step_defined(m1: ArgsModel, m2: ArgsModel, t: Seq<char>)
    ensures
        step(m1, t) is Some <==> step(m2, t) is Some,
{
}

/// What a step writes into its own category depends on the old state only
/// through that category's own fields.
pub proof fn lemma_step_own(m1: ArgsModel, m2: ArgsModel, t: Seq<char>)
    requires
        step(m1, t) is Some,
        step(m2, t) is Some,
        m1.protocol == m2.protocol,
        m1.recursion == m2.recursion,
        m1.format == m2.format,
        m1.edns_enabled == m2.edns_enabled,
        m1.edns_version == m2.edns_version,
        m1.edns_udp_payload_size == m2.edns_udp_payload_size,
        m1.nameserver == m2.nameserver,
        m1.nameservers == m2.nameservers,
        m1.qtype == m2.qtype,
        m1.qnames == m2.qnames,
    ensures
        step(m1, t)->0 =~= step(m2, t)->0,
{
    assert(m1 =~= m2);
}

/// The argument interpreter is order-sensitive only across tokens of the
/// same category: two well-formed tokens of different categories give the
/// same state in either order.
pub proof fn lemma_order_insensitive_across_categories(m: ArgsModel, a: Seq<char>, b: Seq<char>)
    requires
        token_ok(a),
        token_ok(b),
        token_category(a) != token_category(b),
    ensures
        step(step(m, a)->0, b) is Some,
        step(step(m, b)->0, a) is Some,
        step(step(m, a)->0, b)->0 =~= step(step(m, b)->0, a)->0,
{
    assert(step(m, a) is Some);
    assert(step(m, b) is Some);
    let ma = step(m, a)->0;
    let mb = step(m, b)->0;
    lemma_step_defined(m, ma, b);
    lemma_step_defined(m, mb, a);
    let mab = step(ma, b)->0;
    let mba = step(mb, a)->0;
    lemma_step_frame(m, a);
    lemma_step_frame(m, b);
    lemma_step_frame(ma, b);
    lemma_step_frame(mb, a);
    assert(mab =~= mba);
}

/// The mutable state of one scan.
pub struct ScanState {
    pub protocol: ProtocolStrategy,
    pub recursion: Recursion,
    pub format: OutputFormat,
    pub edns_enabled: bool,
    pub edns_version: u8,
    pub edns_udp_payload_size: u16,
    pub nameserver: Option<IpAddress>,
    pub nameservers: Vec<String>,
    pub qtype: u16,
    pub qnames: Vec<String>,
}

impl ScanState {
    pub open spec fn inv(self) -> bool {
        self.nameserver matches Some(ip) ==> ip.wf()
    }

    /// The state as plain values.
    pub open spec fn model(self) -> ArgsModel {
        ArgsModel {
            protocol: self.protocol,
            recursion: self.recursion,
            format: self.format,
            edns_enabled: self.edns_enabled,
            edns_version: self.edns_version,
            edns_udp_payload_size: self.edns_udp_payload_size,
            nameserver: match self.nameserver {
                Some(ip) => Some(ip_view(ip)),
                None => None,
            },
            nameservers: part_views(self.nameservers@),
            qtype: self.qtype,
            qnames: part_views(self.qnames@),
        }
    }
}

/// The scan state before any token.
pub fn init_state() -> (r: ScanState)
    ensures
        r.model() =~= init_model(),
        r.inv(),
{
    let r = ScanState {
        protocol: ProtocolStrategy::Udp,
        recursion: Recursion::On,
        format: OutputFormat::Zone,
        edns_enabled: true,
        edns_version: 0,
        edns_udp_payload_size: 4096,
        nameserver: None,
        nameservers: Vec::new(),
        qtype: 1,
        qnames: Vec::new(),
    };
    proof {
        assert(part_views(r.nameservers@) =~= Seq::<Seq<char>>::empty());
        assert(part_views(r.qnames@) =~= Seq::<Seq<char>>::empty());
    }
    r
}

proof fn lemma_eq_end_bounds(s: Seq<char>, i: int)
    requires
        0 <= i <= s.len(),
    ensures
        i <= eq_end(s, i) <= s.len(),
    decreases s.len() - i,
{
    if i < s.len() && s[i] != '=' {
        lemma_eq_end_bounds(s, i + 1);
    }
}

proof fn lemma_eq_end_exact(s: Seq<char>, i: int, j: int)
    requires
        0 <= i <= j <= s.len(),
        forall|k: int| i <= k < j ==> s[k] != '=',
        j == s.len() || s[j] == '=',
    ensures
        eq_end(s, i) == j,
    decreases j - i,
{
    if i < j {
        assert(s[i] != '=');
        lemma_eq_end_exact(s, i + 1, j);
    }
}

/// The index of the first `=` at or after `i`, or the end.
fn find_eq(s: &str, i: usize) -> (r: usize)
    requires
        i <= s@.len(),
    ensures
        r == eq_end(s@, i as int),
        i <= r <= s@.len(),
{
    let n = s.unicode_len();
    let mut j = i;
    while j < n && s.get_char(j) != '='
        invariant
            i <= j <= n,
            n == s@.len(),
            forall|k: int| i <= k < j ==> s@[k] != '=',
        decreases n - j,
    {
        j = j + 1;
    }
    proof {
        lemma_eq_end_exact(s@, i as int, j as int);
    }
    j
}

/// Folds one token into the state, or says why it is malformed.
pub fn apply_token(st: &mut ScanState, t: &str) -> (r: Result<(), ArgsError>)
    requires
        old(st).inv(),
    ensures
        r is Ok <==> step(old(st).model(), t@) is Some,
        r is Ok ==> final(st).inv() && final(st).model() =~= step(old(st).model(), t@)->0,
        r matches Err(e) ==> match e {
            ArgsError::BadOption(s) => s@ == t@ && token_category(t@)
                != TokenCategory::Nameserver,
            ArgsError::BadNameserverAddress => token_category(t@) == TokenCategory::Nameserver,
            _ => false,
        },
{
    let ghost m0 = old(st).model();
    if str_eq(t, "+udp") {
        st.protocol = ProtocolStrategy::Udp;
        assert(st.model() =~= step(m0, t@)->0);
        Ok(())
    } else if str_eq(t, "+tcp") {
        st.protocol = ProtocolStrategy::Tcp;
        assert(st.model() =~= step(m0, t@)->0);
        Ok(())
    } else if str_eq(t, "+notcp") {
        st.protocol = ProtocolStrategy::NoTcp;
        assert(st.model() =~= step(m0, t@)->0);
        Ok(())
    } else if str_eq(t, "+rec") {
        st.recursion = Recursion::On;
        assert(st.model() =~= step(m0, t@)->0);
        Ok(())
    } else if str_eq(t, "+norec") {
        st.recursion = Recursion::Off;
        assert(st.model() =~= step(m0, t@)->0);
        Ok(())
    } else if str_eq(t, "+short") {
        st.format = OutputFormat::Short;
        assert(st.model() =~= step(m0, t@)->0);
        Ok(())
    } else if str_eq(t, "+noshort") {
        st.format = OutputFormat::Zone;
        proof {
            reveal_strlit("+noshort");
            reveal_strlit("+rust");
            reveal_strlit("+gen");
            assert(t@ != "+rust"@ && t@ != "+gen"@);
        }
        assert(st.model() =~= step(m0, t@)->0);
        Ok(())
    } else if str_eq(t, "+rust") {
        st.format = OutputFormat::Rust;
        assert(st.model() =~= step(m0, t@)->0);
        Ok(())
    } else if str_eq(t, "+norust") {
        st.format = OutputFormat::Zone;
        proof {
            reveal_strlit("+norust");
            reveal_strlit("+gen");
            assert(t@ != "+gen"@);
        }
        assert(st.model() =~= step(m0, t@)->0);
        Ok(())
    } else if str_eq(t, "+gen") {
        st.format = OutputFormat::ZoneRfc3597;
        assert(st.model() =~= step(m0, t@)->0);
        Ok(())
    } else if str_eq(t, "+nogen") {
        st.format = OutputFormat::Zone;
        assert(st.model() =~= step(m0, t@)->0);
        Ok(())
    } else if str_eq(t, "+noedns") {
        st.edns_enabled = false;
        assert(st.model() =~= step(m0, t@)->0);
        Ok(())
    } else if str_eq(t, "+edns") {
        st.edns_enabled = true;
        st.edns_version = 0;
        assert(st.model() =~= step(m0, t@)->0);
        Ok(())
    } else {
        let n = t.unicode_len();
        if n >= 6 && str_eq(t.substring_char(0, 6), "+edns=") {
            assert(t@.subrange(0, 6) == "+edns="@);
            let e = find_eq(t, 6);
            let p = t.substring_char(6, e);
            assert(p@ == param_of(t@, 6));
            match parse_num(p, 255) {
                Some(v) => {
                    st.edns_enabled = true;
                    st.edns_version = v as u8;
                    assert(st.model() =~= step(m0, t@)->0);
                    Ok(())
                },
                None => Err(ArgsError::BadOption(String::from_str(t))),
            }
        } else if n >= 9 && str_eq(t.substring_char(0, 9), "+bufsize=") {
            assert(t@.subrange(0, 9) == "+bufsize="@);
            proof {
                reveal_strlit("+edns=");
                reveal_strlit("+edns");
                reveal_strlit("+noedns");
                reveal_strlit("+bufsize=");
                assert("+edns="@.len() == 6);
                assert("+bufsize="@.len() == 9);
                assert(t@.subrange(0, 9)[1] == t@[1]);
                assert(t@[1] == 'b');
                assert(t@.subrange(0, 6)[1] == t@[1]);
                assert(t@.subrange(0, 6) != "+edns="@);
                assert(!is_edns_token(t@));
            }
            let e = find_eq(t, 9);
            let p = t.substring_char(9, e);
            assert(p@ == param_of(t@, 9));
            match parse_num(p, 65535) {
                Some(v) => {
                    st.edns_udp_payload_size = v as u16;
                    assert(st.model() =~= step(m0, t@)->0);
                    Ok(())
                },
                None => Err(ArgsError::BadOption(String::from_str(t))),
            }
        } else if n >= 1 && t.get_char(0) == '@' {
            let a = t.substring_char(1, n);
            assert(a@ == t@.subrange(1, t@.len() as int));
            match parse_ip(a) {
                Some(ip) => {
                    proof {
                        let av = a@;
                        match &ip {
                            IpAddress::V4(v4) => {
                                assert(av == v4_text(v4.octets@));
                                let o2 = choose|o: Seq<u8>| o.len() == 4 && av == v4_text(o);
                                crate::addr::lemma_v4_text_injective(v4.octets@, o2);
                                assert(ns_addr_view(av) == IpView::V4(v4.octets@));
                            },
                            IpAddress::V6(v6) => {
                                assert(ns_addr_view(av) == IpView::V6(v6.segments@));
                            },
                        }
                    }
                    st.nameservers.push(String::from_str(a));
                    st.nameserver = Some(ip);
                    proof {
                        assert(part_views(st.nameservers@) =~= part_views(old(st).nameservers@)
                            .push(a@));
                        assert(st.model() =~= step(m0, t@)->0);
                    }
                    Ok(())
                },
                None => Err(ArgsError::BadNameserverAddress),
            }
        } else {
            let u = to_upper(t);
            match type_from_str(u.as_str()) {
                Some(v) => {
                    st.qtype = v;
                    assert(st.model() =~= step(m0, t@)->0);
                    Ok(())
                },
                None => {
                    if n >= 1 && t.get_char(0) == '+' {
                        Err(ArgsError::BadOption(String::from_str(t)))
                    } else {
                        st.qnames.push(String::from_str(t));
                        proof {
                            assert(part_views(st.qnames@) =~= part_views(old(st).qnames@).push(
                                t@));
                            assert(st.model() =~= step(m0, t@)->0);
                        }
                        Ok(())
                    }
                },
            }
        }
    }
}

/// The query configuration: the fixed options, the positional tokens, and
/// what the scan resolved from them.
pub struct Args {
    pub port: u16,
    pub query_lifetime: u64,
    pub query_timeout: u64,
    pub format: OutputFormat,
    pub protocol: ProtocolStrategy,
    pub recursion: Recursion,
    pub edns: EdnsConfig,
    pub nameserver: Option<SocketAddress>,
    pub qtype: Option<u16>,
    pub qnames: Vec<String>,
    pub nameservers: Vec<String>,
    pub save_path: Option<String>,
    pub read_path: Option<String>,
    pub positional: Vec<String>,
}

/// Whether the resolved query type may be queried: a data type, or the
/// wildcard; the OPT pseudo-type in particular is refused.
pub open spec fn qtype_allowed(v: u16) -> bool {
    !(v == 41 || (!type_is_data(v) && v != 255))
}

/// The scan of a whole token list.
pub open spec fn scan_all(tokens: Seq<Seq<char>>) -> Option<ArgsModel> {
    scan(tokens, tokens.len() as int)
}

/// Once a token has failed, the scan stays failed.
proof fn lemma_scan_none_persists(tokens: Seq<Seq<char>>, i: int, j: int)
    requires
        scan(tokens, i) is None,
        i <= j,
    ensures
        scan(tokens, j) is None,
    decreases j - i,
{
    if i < j {
        lemma_scan_none_persists(tokens, i, j - 1);
    }
}

impl Args {
    pub open spec fn wf(self) -> bool {
        self.nameserver matches Some(sa) ==> sa.wf()
    }

    /// Whether a session save file was asked for.
    pub fn has_save_path(&self) -> (r: bool)
        ensures
            r == (self.save_path matches Some(p) && p@.len() > 0),
    {
        if let Some(ref path) = self.save_path {
            !path.as_str().is_empty()
        } else {
            false
        }
    }

    /// Whether a session replay file was asked for.
    pub fn has_read_path(&self) -> (r: bool)
        ensures
            r == (self.read_path matches Some(p) && p@.len() > 0),
    {
        if let Some(ref path) = self.read_path {
            !path.as_str().is_empty()
        } else {
            false
        }
    }

    /// The resolved query type; meaningful once the scan succeeded.
    pub fn qtype(&self) -> (r: u16)
        requires
            self.qtype is Some,
        ensures
            r == self.qtype->0,
    {
        self.qtype.unwrap()
    }

    /// The command line as the banner shows it: the save or read switch, if
    /// one was given, then the positional tokens space-joined.
    pub fn cmd_line(&self) -> (r: String)
        ensures
            r@ == (if self.save_path matches Some(p) && p@.len() > 0 {
                "--save "@ + self.save_path->0@ + " "@
            } else if self.read_path matches Some(p) && p@.len() > 0 {
                "--read "@ + self.read_path->0@ + " "@
            } else {
                Seq::<char>::empty()
            }) + join_spaces(part_views(self.positional@)),
    {
        let mut out = String::new();
        if self.has_save_path() {
            out.append("--save ");
            match &self.save_path {
                Some(p) => out.append(p.as_str()),
                None => {},
            }
            out.append(" ");
        } else if self.has_read_path() {
            out.append("--read ");
            match &self.read_path {
                Some(p) => out.append(p.as_str()),
                None => {},
            }
            out.append(" ");
        }
        let ghost base = out@;
        let mut k: usize = 0;
        while k < self.positional.len()
            invariant
                k <= self.positional@.len(),
                out@ == base + join_spaces(part_views(self.positional@).subrange(0, k as int)),
            decreases self.positional@.len() - k,
        {
            if k > 0 {
                out.append(" ");
            }
            out.append(self.positional[k].as_str());
            proof {
                let pv = part_views(self.positional@);
                assert(pv.subrange(0, k + 1).drop_last() =~= pv.subrange(0, k as int));
                assert(pv.subrange(0, k + 1).last() == pv[k as int]);
                assert(out@ =~= base + join_spaces(pv.subrange(0, k + 1)));
            }
            k = k + 1;
        }
        proof {
            let pv = part_views(self.positional@);
            assert(pv.subrange(0, pv.len() as int) =~= pv);
        }
        out
    }

    /// Interprets the positional tokens: folds them in order, validates the
    /// resolved query type, and resolves the nameserver, falling back to
    /// the first system resolver when no `@` token named one.
    pub fn parse(&mut self, system_nameservers: &Vec<IpAddress>) -> (r: Result<(), ArgsError>)
        requires
            forall|k: int|
                0 <= k < system_nameservers@.len() ==> (#[trigger] system_nameservers@[k]).wf(),
        ensures
            ({
                let p = part_views(old(self).positional@);
                let sys = system_nameservers@;
                &&& (r is Ok <==> (scan_all(p) matches Some(m) && qtype_allowed(m.qtype) && (
                m.nameserver is Some || sys.len() >= 1)))
                &&& (r is Ok ==> (scan_all(p) matches Some(m) && {
                    let s = *final(self);
                    &&& s.format == m.format
                    &&& s.protocol == m.protocol
                    &&& s.recursion == m.recursion
                    &&& s.edns == EdnsConfig {
                        enabled: m.edns_enabled,
                        version: m.edns_version,
                        udp_payload_size: m.edns_udp_payload_size,
                    }
                    &&& part_views(s.qnames@) == m.qnames
                    &&& part_views(s.nameservers@) == m.nameservers
                    &&& s.qtype == Some(m.qtype)
                    &&& s.nameserver matches Some(sa) && sa.wf() && sa.port == old(self).port
                        && (match m.nameserver {
                        Some(v) => ip_view(sa.ip) == v,
                        None => ip_view(sa.ip) == ip_view(sys[0]),
                    })
                    &&& s.port == old(self).port
                    &&& s.save_path == old(self).save_path
                    &&& s.read_path == old(self).read_path
                    &&& s.positional == old(self).positional
                    &&& s.query_lifetime == old(self).query_lifetime
                    &&& s.query_timeout == old(self).query_timeout
                }))
                &&& (r matches Err(e) ==> match e {
                    ArgsError::BadOption(s) => exists|j: int|
                        0 <= j < p.len() && #[trigger] scan(p, j) is Some && step(
                            scan(p, j)->0,
                            p[j],
                        ) is None && s@ == p[j],
                    ArgsError::BadNameserverAddress => exists|j: int|
                        0 <= j < p.len() && #[trigger] scan(p, j) is Some && step(
                            scan(p, j)->0,
                            p[j],
                        ) is None && token_category(p[j]) == TokenCategory::Nameserver,
                    ArgsError::BadQType(v) => scan_all(p) matches Some(m) && v == m.qtype
                        && !qtype_allowed(v),
                    ArgsError::NoNameservers => scan_all(p) matches Some(m) && qtype_allowed(
                        m.qtype,
                    ) && m.nameserver is None && sys.len() == 0,
                })
            }),
    {
        let ghost p = part_views(self.positional@);
        let mut st = init_state();
        let mut i: usize = 0;
        while i < self.positional.len()
            invariant
                i <= self.positional@.len(),
                p == part_views(self.positional@),
                st.inv(),
                scan(p, i as int) matches Some(m) && st.model() == m,
                *self == *old(self),
            decreases self.positional@.len() - i,
        {
            let t = &self.positional[i];
            let ghost mpre = st.model();
            match apply_token(&mut st, t.as_str()) {
                Ok(()) => {},
                Err(e) => {
                    proof {
                        assert(p[i as int] == t@);
                        assert(scan(p, i as int) is Some);
                        assert(step(scan(p, i as int)->0, p[i as int]) is None);
                        assert(scan(p, i + 1) is None);
                        lemma_scan_none_persists(p, i + 1, p.len() as int);
                    }
                    return Err(e);
                },
            }
            proof {
                assert(scan(p, i + 1) == step(scan(p, i as int)->0, p[i as int]));
            }
            i = i + 1;
        }
        proof {
            assert(p.subrange(0, p.len() as int) =~= p);
            assert(scan_all(p) matches Some(m) && st.model() == m);
        }
        if st.qtype == 41 || (!is_data_type(st.qtype) && st.qtype != 255) {
            return Err(ArgsError::BadQType(st.qtype));
        }
        let ns: SocketAddress = match st.nameserver {
            Some(ip) => SocketAddress { ip, port: self.port },
            None => {
                if system_nameservers.len() >= 1 {
                    let ip0 = crate::addr::clone_ip(&system_nameservers[0]);
                    proof {
                        assert(system_nameservers@[0].wf());
                    }
                    SocketAddress { ip: ip0, port: self.port }
                } else {
                    return Err(ArgsError::NoNameservers);
                }
            },
        };
        self.format = st.format;
        self.protocol = st.protocol;
        self.recursion = st.recursion;
        self.edns = EdnsConfig {
            enabled: st.edns_enabled,
            version: st.edns_version,
            udp_payload_size: st.edns_udp_payload_size,
        };
        self.nameserver = Some(ns);
        self.qtype = Some(st.qtype);
        self.qnames = st.qnames;
        self.nameservers = st.nameservers;
        Ok(())
    }
}

} // verus!
