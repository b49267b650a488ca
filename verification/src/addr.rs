//! The library's own model of IP and socket addresses: four octets or eight
//! segments as plain values, with verified textual rendering and parsing.
//! The textual grammar is the conventional one: dotted decimal quads for
//! IPv4; colon-separated hex groups for IPv6, with at most one `::` and an
//! optional embedded dotted quad as the last group; and `a.b.c.d:port` /
//! `[v6]:port` for socket addresses. Rendering compresses the first
//! longest zero run and shows IPv4-mapped addresses in the mixed notation.

use vstd::prelude::*;

verus! {

use vstd::string::StringExecFns;
use vstd::string::StrSliceExecFns;
use crate::text::{
    all_digits, dec_digits, digit_char, digit_val, digits_val, is_digit, lemma_dec_digits_val,
    push_dec_u64,
};

/// An IPv4 address: four octets, most significant first.
#[derive(Clone)]
pub struct Ipv4Address {
    pub octets: Vec<u8>,
}

impl Ipv4Address {
    pub open spec fn wf(self) -> bool {
        self.octets@.len() == 4
    }
}

/// An IPv6 address: eight 16-bit segments, most significant first.
#[derive(Clone)]
pub struct Ipv6Address {
    pub segments: Vec<u16>,
}

impl Ipv6Address {
    pub open spec fn wf(self) -> bool {
        self.segments@.len() == 8
    }
}

/// An IP address of either family.
#[derive(Clone)]
pub enum IpAddress {
    V4(Ipv4Address),
    V6(Ipv6Address),
}

impl IpAddress {
    pub open spec fn wf(self) -> bool {
        match self {
            IpAddress::V4(a) => a.wf(),
            IpAddress::V6(a) => a.wf(),
        }
    }
}

/// A socket address: an IP address and a port.
#[derive(Clone)]
pub struct SocketAddress {
    pub ip: IpAddress,
    pub port: u16,
}

impl SocketAddress {
    pub open spec fn wf(self) -> bool {
        self.ip.wf()
    }
}

/// The dotted-decimal text of four octets.
pub open spec fn v4_text(o: Seq<u8>) -> Seq<char> {
    dec_digits(o[0] as nat) + "."@ + dec_digits(o[1] as nat) + "."@ + dec_digits(o[2] as nat)
        + "."@ + dec_digits(o[3] as nat)
}

/// Appends the dotted-decimal text of an IPv4 address.
pub fn push_v4(s: &mut String, ip: &Ipv4Address)
    requires
        ip.wf(),
    ensures
        final(s)@ == old(s)@ + v4_text(ip.octets@),
{
    push_dec_u64(s, ip.octets[0] as u64);
    s.append(".");
    push_dec_u64(s, ip.octets[1] as u64);
    s.append(".");
    push_dec_u64(s, ip.octets[2] as u64);
    s.append(".");
    push_dec_u64(s, ip.octets[3] as u64);
    assert(s@ =~= old(s)@ + v4_text(ip.octets@));
}

/// A digit run with a value: nonempty, digits only, no leading zero except
/// the single digit `0` itself, as std renders and accepts octets.
pub open spec fn canonical_digits(p: Seq<char>) -> bool {
    p.len() >= 1 && all_digits(p) && (p.len() > 1 ==> p[0] != '0')
}

/// A digit string without a leading zero reads back as the number whose
/// rendering it is.
pub proof fn lemma_digits_canonical(p: Seq<char>)
    requires
        canonical_digits(p),
    ensures
        dec_digits(digits_val(p)) =~= p,
    decreases p.len(),
{
    let pre = p.drop_last();
    let c = p.last();
    if p.len() == 1 {
        assert(digits_val(p) == digits_val(pre) * 10 + digit_val(c));
        assert(digits_val(pre) == 0);
        assert(digit_val(c) < 10);
        assert(digit_char(digit_val(c)) == c);
        assert(dec_digits(digits_val(p)) =~= p);
    } else {
        assert(forall|i: int| 0 <= i < pre.len() ==> pre[i] == p[i]);
        assert(canonical_digits(pre));
        lemma_digits_canonical(pre);
        lemma_digits_val_pos(pre);
        let v = digits_val(p);
        assert(v == digits_val(pre) * 10 + digit_val(c));
        assert(digits_val(pre) >= 1);
        assert(v >= 10) by (nonlinear_arith)
            requires v == digits_val(pre) * 10 + digit_val(c), digits_val(pre) >= 1;
        assert(v / 10 == digits_val(pre) && v % 10 == digit_val(c)) by (nonlinear_arith)
            requires v == digits_val(pre) * 10 + digit_val(c), digit_val(c) < 10;
        assert(digit_char(digit_val(c)) == c);
        assert(dec_digits(v) == dec_digits(digits_val(pre)).push(c));
        assert(dec_digits(v) =~= p);
    }
}

/// A digit string whose first digit is not zero has a positive value.
pub proof fn lemma_digits_val_pos(p: Seq<char>)
    requires
        p.len() >= 1,
        all_digits(p),
        p[0] != '0',
    ensures
        digits_val(p) >= 1,
    decreases p.len(),
{
    let pre = p.drop_last();
    if p.len() == 1 {
        assert(digit_val(p.last()) >= 1);
    } else {
        assert(pre[0] == p[0]);
        assert(forall|i: int| 0 <= i < pre.len() ==> pre[i] == p[i]);
        lemma_digits_val_pos(pre);
        assert(digits_val(p) == digits_val(pre) * 10 + digit_val(p.last()));
        assert(digits_val(pre) * 10 >= 10) by (nonlinear_arith)
            requires digits_val(pre) >= 1;
    }
}

/// The views of a list of strings.
pub open spec fn part_views(p: Seq<String>) -> Seq<Seq<char>> {
    p.map_values(|x: String| x@)
}

/// Whether no part contains a dot.
pub open spec fn dot_free(p: Seq<Seq<char>>) -> bool {
    forall|k: int, i: int|
        0 <= k < p.len() && 0 <= i < p[k].len() ==> #[trigger] p[k][i] != '.'
}

/// The parts joined with single dots between them.
pub open spec fn join_dots(p: Seq<Seq<char>>) -> Seq<char>
    decreases p.len(),
{
    if p.len() == 0 {
        Seq::empty()
    } else if p.len() == 1 {
        p[0]
    } else {
        join_dots(p.drop_last()) + "."@ + p.last()
    }
}

/// Every part is a piece of the join, so the join is at least as long.
proof fn lemma_join_dots_len(p: Seq<Seq<char>>)
    requires
        p.len() >= 1,
    ensures
        join_dots(p).len() >= p.last().len(),
        p.len() >= 2 ==> join_dots(p).len() >= p.last().len() + 1,
    decreases p.len(),
{
    reveal_strlit(".");
    if p.len() >= 2 {
        lemma_join_dots_len(p.drop_last());
    }
}

/// A string splits into dot-free parts in only one way.
pub proof fn lemma_join_dots_unique(p: Seq<Seq<char>>, q: Seq<Seq<char>>)
    requires
        p.len() >= 1,
        q.len() >= 1,
        dot_free(p),
        dot_free(q),
        join_dots(p) == join_dots(q),
    ensures
        p =~= q,
    decreases p.len() + q.len(),
{
    reveal_strlit(".");
    assert("."@.len() == 1);
    let s = join_dots(p);
    if p.len() == 1 && q.len() == 1 {
        assert(p =~= q);
    } else if p.len() == 1 {
        lemma_join_dots_len(q);
        let dq = s.len() - q.last().len() - 1;
        assert(s[dq] == '.');
        assert(p[0][dq] != '.');
        assert(false);
    } else if q.len() == 1 {
        lemma_join_dots_len(p);
        let dp = s.len() - p.last().len() - 1;
        assert(s[dp] == '.');
        assert(q[0][dp] != '.');
        assert(false);
    } else {
        lemma_join_dots_len(p);
        lemma_join_dots_len(q);
        let lp = p.last().len();
        let lq = q.last().len();
        let n = s.len() as int;
        assert(s[n - lp - 1] == '.');
        assert(s[n - lq - 1] == '.');
        if lp < lq {
            assert(s[n - lp - 1] == q.last()[lq - lp - 1]);
            assert(false);
        }
        if lq < lp {
            assert(s[n - lq - 1] == p.last()[lp - lq - 1]);
            assert(false);
        }
        assert(s == join_dots(p.drop_last()) + "."@ + p.last());
        assert(s == join_dots(q.drop_last()) + "."@ + q.last());
        let a = join_dots(p.drop_last());
        let b = join_dots(q.drop_last());
        assert(a.len() == n - lp - 1);
        assert(b.len() == n - lq - 1);
        assert forall|k: int| 0 <= k < lp implies p.last()[k] == q.last()[k] by {
            assert(s[n - lp + k] == p.last()[k]);
            assert(s[n - lq + k] == q.last()[k]);
        }
        assert(p.last() =~= q.last());
        assert forall|k: int| 0 <= k < a.len() implies a[k] == b[k] by {
            assert(s[k] == a[k]);
            assert(s[k] == b[k]);
        }
        assert(join_dots(p.drop_last()) =~= join_dots(q.drop_last()));
        assert(dot_free(p.drop_last()));
        assert(dot_free(q.drop_last()));
        lemma_join_dots_unique(p.drop_last(), q.drop_last());
        assert(p =~= p.drop_last().push(p.last()));
        assert(q =~= q.drop_last().push(q.last()));
        assert(p =~= q);
    }
}

/// Splits a string at every dot; the parts joined back give the string, and
/// by `lemma_join_dots_unique` they are the only dot-free parts that do.
pub fn split_dots(s: &str) -> (r: Vec<String>)
    ensures
        r@.len() >= 1,
        dot_free(part_views(r@)),
        join_dots(part_views(r@)) == s@,
{
    let n = s.unicode_len();
    let mut parts: Vec<String> = Vec::new();
    let mut cur = String::new();
    let mut i: usize = 0;
    while i < n
        invariant
            i <= n,
            n == s@.len(),
            dot_free(part_views(parts@)),
            forall|k: int| 0 <= k < cur@.len() ==> cur@[k] != '.',
            join_dots(part_views(parts@).push(cur@)) == s@.subrange(0, i as int),
        decreases n - i,
    {
        let ghost pv = part_views(parts@);
        let ghost cur0 = cur@;
        let c = s.get_char(i);
        if c == '.' {
            parts.push(cur);
            cur = String::new();
            proof {
                reveal_strlit(".");
                assert(part_views(parts@) =~= pv.push(cur0));
                let pv1 = pv.push(cur0);
                assert(pv1.push(cur@).drop_last() =~= pv1);
                assert(pv1.push(cur@).last() =~= Seq::<char>::empty());
                assert(join_dots(pv1.push(cur@)) == join_dots(pv1) + "."@ + Seq::<char>::empty());
                assert(s@.subrange(0, i + 1) =~= s@.subrange(0, i as int) + "."@
                    + Seq::<char>::empty());
                assert(join_dots(part_views(parts@).push(cur@)) == s@.subrange(0, i + 1));
            }
        } else {
            crate::text::push_char(&mut cur, c);
            proof {
                assert(pv.push(cur@).drop_last() =~= pv);
                assert(pv.push(cur@).last() == cur@);
                if pv.len() == 0 {
                    assert(join_dots(pv.push(cur@)) == cur@);
                    assert(s@.subrange(0, i + 1) =~= s@.subrange(0, i as int).push(c));
                } else {
                    assert(pv.push(cur0).drop_last() =~= pv);
                    assert(join_dots(pv.push(cur@)) == join_dots(pv) + "."@ + cur@);
                    assert(join_dots(pv) + "."@ + cur@ =~= (join_dots(pv) + "."@ + cur0).push(c));
                    assert(s@.subrange(0, i + 1) =~= s@.subrange(0, i as int).push(c));
                }
                assert(join_dots(part_views(parts@).push(cur@)) == s@.subrange(0, i + 1));
            }
        }
        i = i + 1;
    }
    let ghost pv = part_views(parts@);
    let ghost cur0 = cur@;
    parts.push(cur);
    proof {
        assert(part_views(parts@) =~= pv.push(cur0));
        assert(s@.subrange(0, n as int) =~= s@);
    }
    parts
}

/// The rendering of a number is a canonical digit string.
pub proof fn lemma_dec_digits_canonical(n: nat)
    ensures
        canonical_digits(dec_digits(n)),
    decreases n,
{
    lemma_dec_digits_val(n);
    if n >= 10 {
        lemma_dec_digits_canonical(n / 10);
        let pre = dec_digits(n / 10);
        assert(pre.push(digit_char(n % 10))[0] == pre[0]);
        if pre[0] == '0' {
            assert(pre.len() == 1);
            lemma_dec_digits_val(n / 10);
            assert(digits_val(pre) == n / 10);
            lemma_digits_canonical(pre);
            assert(digit_val('0') == 0);
            assert(digits_val(pre) == digits_val(pre.drop_last()) * 10 + digit_val(pre.last()));
            assert(n / 10 == 0);
            assert(false);
        }
    }
}

/// The rendering of an octet has at most three digits.
proof fn lemma_dec_digits_len_3(n: nat)
    requires
        n < 1000,
    ensures
        dec_digits(n).len() <= 3,
{
    if n >= 10 {
        assert(dec_digits(n) == dec_digits(n / 10).push(digit_char(n % 10)));
        if n / 10 >= 10 {
            assert(dec_digits(n / 10) == dec_digits(n / 10 / 10).push(digit_char(n / 10 % 10)));
            assert(n / 10 / 10 < 10);
        }
    }
}

/// Reads one decimal octet: digits without a leading zero, at most 255.
fn parse_octet(p: &str) -> (r: Option<u8>)
    ensures
        r matches Some(v) ==> p@ == dec_digits(v as nat),
        r is None ==> forall|b: u8| p@ != dec_digits(b as nat),
{
    let n = p.unicode_len();
    if n == 0 || n > 3 {
        proof {
            assert forall|b: u8| p@ != dec_digits(b as nat) by {
                lemma_dec_digits_val(b as nat);
                lemma_dec_digits_len_3(b as nat);
            }
        }
        return None;
    }
    if n > 1 && p.get_char(0) == '0' {
        proof {
            assert forall|b: u8| p@ != dec_digits(b as nat) by {
                lemma_dec_digits_canonical(b as nat);
            }
        }
        return None;
    }
    let mut v: u32 = 0;
    let mut i: usize = 0;
    while i < n
        invariant
            i <= n,
            n == p@.len(),
            1 <= n <= 3,
            all_digits(p@.subrange(0, i as int)),
            v == digits_val(p@.subrange(0, i as int)),
            v <= 999,
        decreases n - i,
    {
        let c = p.get_char(i);
        if !('0' <= c && c <= '9') {
            proof {
                assert(!is_digit(p@[i as int]));
                assert forall|b: u8| p@ != dec_digits(b as nat) by {
                    lemma_dec_digits_val(b as nat);
                }
            }
            return None;
        }
        let ghost pre = p@.subrange(0, i as int);
        proof {
            assert(p@.subrange(0, i + 1) =~= pre.push(c));
            assert(pre.push(c).drop_last() =~= pre);
            assert(digits_val(pre.push(c)) == digits_val(pre) * 10 + digit_val(c));
            lemma_digits_val_small(pre);
        }
        v = v * 10 + ((c as u32) - 0x30);
        i = i + 1;
    }
    proof {
        assert(p@.subrange(0, n as int) =~= p@);
    }
    if v > 255 {
        proof {
            assert forall|b: u8| p@ != dec_digits(b as nat) by {
                lemma_dec_digits_val(b as nat);
            }
        }
        None
    } else {
        proof {
            assert(canonical_digits(p@));
            lemma_digits_canonical(p@);
        }
        Some(v as u8)
    }
}

/// A string of up to two digits stays under one hundred.
proof fn lemma_digits_val_small(s: Seq<char>)
    requires
        all_digits(s),
        s.len() <= 2,
    ensures
        digits_val(s) <= 99,
        s.len() <= 1 ==> digits_val(s) <= 9,
        s.len() == 0 ==> digits_val(s) == 0,
{
    if s.len() >= 1 {
        let pre = s.drop_last();
        assert(digits_val(s) == digits_val(pre) * 10 + digit_val(s.last()));
        assert(is_digit(s[s.len() - 1]));
        assert(s.last() == s[s.len() - 1]);
        assert(digit_val(s.last()) <= 9);
        if s.len() == 1 {
            assert(pre.len() == 0);
            assert(digits_val(pre) == 0);
        } else {
            assert(pre.len() == 1);
            assert(digits_val(pre) == digits_val(pre.drop_last()) * 10 + digit_val(pre.last()));
            assert(pre.drop_last().len() == 0);
            assert(digits_val(pre.drop_last()) == 0);
            assert(pre.last() == pre[0]);
            assert(pre[0] == s[0]);
            assert(is_digit(s[0]));
            assert(digit_val(pre.last()) <= 9);
        }
    }
}

/// The four octet renderings of an address, as dot-free parts.
pub open spec fn v4_parts(o: Seq<u8>) -> Seq<Seq<char>> {
    seq![
        dec_digits(o[0] as nat),
        dec_digits(o[1] as nat),
        dec_digits(o[2] as nat),
        dec_digits(o[3] as nat),
    ]
}

proof fn lemma_v4_text_as_join(o: Seq<u8>)
    requires
        o.len() == 4,
    ensures
        join_dots(v4_parts(o)) == v4_text(o),
        dot_free(v4_parts(o)),
        v4_parts(o).len() == 4,
{
    let q = v4_parts(o);
    let d0 = dec_digits(o[0] as nat);
    let d1 = dec_digits(o[1] as nat);
    let d2 = dec_digits(o[2] as nat);
    let d3 = dec_digits(o[3] as nat);
    let q3 = q.drop_last();
    let q2 = q3.drop_last();
    let q1 = q2.drop_last();
    assert(q.last() == d3);
    assert(q3 =~= seq![d0, d1, d2]);
    assert(join_dots(q) == join_dots(q3) + "."@ + d3);
    assert(q3.last() == d2);
    assert(q2 =~= seq![d0, d1]);
    assert(join_dots(q3) == join_dots(q2) + "."@ + d2);
    assert(q2.last() == d1);
    assert(q1 =~= seq![d0]);
    assert(join_dots(q2) == join_dots(q1) + "."@ + d1);
    assert(q1.len() == 1);
    assert(join_dots(q1) == q1[0]);
    assert(q1[0] == d0);
    assert(join_dots(q) =~= v4_text(o));
    assert forall|k: int, i: int|
        0 <= k < q.len() && 0 <= i < q[k].len() implies #[trigger] q[k][i] != '.' by {
        lemma_dec_digits_val(o[k] as nat);
        assert(is_digit(q[k][i]));
    }
}

/// Reads a dotted-decimal IPv4 address. Returns the address whose text `s`
/// is, and nothing on a string that is no address's text.
pub fn parse_v4(s: &str) -> (r: Option<Ipv4Address>)
    ensures
        r matches Some(ip) ==> ip.wf() && s@ == v4_text(ip.octets@),
        r is None ==> forall|o: Seq<u8>| o.len() == 4 ==> s@ != v4_text(o),
{
    let parts = split_dots(s);
    let ghost pv = part_views(parts@);
    if parts.len() != 4 {
        proof {
            assert forall|o: Seq<u8>| o.len() == 4 implies s@ != v4_text(o) by {
                if s@ == v4_text(o) {
                    lemma_v4_text_as_join(o);
                    lemma_join_dots_unique(pv, v4_parts(o));
                }
            }
        }
        return None;
    }
    let r0 = parse_octet(parts[0].as_str());
    let r1 = parse_octet(parts[1].as_str());
    let r2 = parse_octet(parts[2].as_str());
    let r3 = parse_octet(parts[3].as_str());
    if r0.is_none() || r1.is_none() || r2.is_none() || r3.is_none() {
        proof {
            assert forall|o: Seq<u8>| o.len() == 4 implies s@ != v4_text(o) by {
                if s@ == v4_text(o) {
                    lemma_v4_text_as_join(o);
                    lemma_join_dots_unique(pv, v4_parts(o));
                    assert(pv[0] == dec_digits(o[0] as nat));
                    assert(pv[1] == dec_digits(o[1] as nat));
                    assert(pv[2] == dec_digits(o[2] as nat));
                    assert(pv[3] == dec_digits(o[3] as nat));
                }
            }
        }
        return None;
    }
    let v0 = r0.unwrap();
    let v1 = r1.unwrap();
    let v2 = r2.unwrap();
    let v3 = r3.unwrap();
    let mut octets: Vec<u8> = Vec::new();
    octets.push(v0);
    octets.push(v1);
    octets.push(v2);
    octets.push(v3);
    let ip = Ipv4Address { octets };
    proof {
        assert(pv =~= v4_parts(ip.octets@));
        lemma_v4_text_as_join(ip.octets@);
    }
    Some(ip)
}

/// Whether `c` is a hexadecimal digit, either case.
pub open spec fn is_hex_char(c: char) -> bool {
    is_digit(c) || ('a' <= c && c <= 'f') || ('A' <= c && c <= 'F')
}

/// The value of one hexadecimal digit.
pub open spec fn hex_char_val(c: char) -> nat {
    if is_digit(c) {
        digit_val(c)
    } else if 'a' <= c && c <= 'f' {
        ((c as u32) - 0x61 + 10) as nat
    } else {
        ((c as u32) - 0x41 + 10) as nat
    }
}

/// The index just past the run of hexadecimal digits starting at `i`.
pub open spec fn hex_run_end(s: Seq<char>, i: int) -> int
    decreases s.len() - i,
{
    if i < 0 || i >= s.len() || !is_hex_char(s[i]) {
        i
    } else {
        hex_run_end(s, i + 1)
    }
}

proof fn lemma_hex_run_end(s: Seq<char>, i: int)
    requires
        0 <= i <= s.len(),
    ensures
        i <= hex_run_end(s, i) <= s.len(),
    decreases s.len() - i,
{
    if i < s.len() && is_hex_char(s[i]) {
        lemma_hex_run_end(s, i + 1);
    }
}

/// The value of the hexadecimal digits `s[i..j]`.
pub open spec fn hex_run_val(s: Seq<char>, i: int, j: int) -> nat
    decreases j - i,
{
    if j <= i {
        0
    } else {
        hex_run_val(s, i, j - 1) * 16 + hex_char_val(s[j - 1])
    }
}

proof fn lemma_hex_run_val_bound(s: Seq<char>, i: int, j: int)
    requires
        0 <= i <= j <= s.len(),
        forall|k: int| i <= k < j ==> is_hex_char(#[trigger] s[k]),
    ensures
        j - i <= 4 ==> hex_run_val(s, i, j) < 0x10000,
        j - i <= 3 ==> hex_run_val(s, i, j) < 0x1000,
        j - i <= 2 ==> hex_run_val(s, i, j) < 0x100,
        j - i <= 1 ==> hex_run_val(s, i, j) < 0x10,
        j - i == 0 ==> hex_run_val(s, i, j) == 0,
    decreases j - i,
{
    if j > i {
        lemma_hex_run_val_bound(s, i, j - 1);
        assert(is_hex_char(s[j - 1]));
        assert(hex_char_val(s[j - 1]) < 16);
    }
}

/// Eight zero segments less however many are given.
pub open spec fn zeros16(n: nat) -> Seq<u16> {
    Seq::new(n, |i: int| 0u16)
}

/// What follows a hexadecimal group while reading an IPv6 address: either
/// the groups before a `::`, or those after it.
pub open spec fn v6_finish(seen: bool, h: Seq<u16>, t: Seq<u16>) -> Option<Seq<u16>> {
    if seen {
        if h.len() + t.len() <= 7 {
            Some(h + zeros16((8 - h.len() - t.len()) as nat) + t)
        } else {
            None
        }
    } else {
        if h.len() == 8 {
            Some(h)
        } else {
            None
        }
    }
}

/// The two segments an embedded dotted-quad tail contributes, when the
/// tail is such a quad's text.
pub open spec fn v4_tail_val(tail: Seq<char>) -> Option<(u16, u16)> {
    if exists|o: Seq<u8>| o.len() == 4 && tail == v4_text(o) {
        let o = choose|o: Seq<u8>| o.len() == 4 && tail == v4_text(o);
        Some((((o[0] as int) * 256 + o[1]) as u16, ((o[2] as int) * 256 + o[3]) as u16))
    } else {
        None
    }
}

/// Reading the rest of an IPv6 address from position `i`, which must be the
/// start of a group; `seen` says whether a `::` was already passed, `h` and
/// `t` hold the segments read so far. A group is one to four hexadecimal
/// digits, except that the last group may be an embedded dotted quad,
/// standing for two segments.
pub open spec fn v6_groups(s: Seq<char>, i: int, seen: bool, h: Seq<u16>, t: Seq<u16>) -> Option<
    Seq<u16>,
>
    decreases s.len() - i,
    via v6_groups_decreases
{
    if i < 0 || i >= s.len() {
        None
    } else {
        let j = hex_run_end(s, i);
        if j == i {
            None
        } else if j < s.len() && s[j] == '.' {
            match v4_tail_val(s.subrange(i, s.len() as int)) {
                Some(pair) => v6_finish(
                    seen,
                    if seen { h } else { h.push(pair.0).push(pair.1) },
                    if seen { t.push(pair.0).push(pair.1) } else { t },
                ),
                None => None,
            }
        } else if j - i > 4 {
            None
        } else {
            let v = hex_run_val(s, i, j) as u16;
            let h2 = if seen { h } else { h.push(v) };
            let t2 = if seen { t.push(v) } else { t };
            if j == s.len() {
                v6_finish(seen, h2, t2)
            } else if s[j] != ':' {
                None
            } else if j + 1 == s.len() {
                None
            } else if s[j + 1] == ':' {
                if seen {
                    None
                } else if j + 2 == s.len() {
                    v6_finish(true, h2, t2)
                } else {
                    v6_groups(s, j + 2, true, h2, t2)
                }
            } else {
                v6_groups(s, j + 1, seen, h2, t2)
            }
        }
    }
}

#[via_fn]
proof fn v6_groups_decreases(s: Seq<char>, i: int, seen: bool, h: Seq<u16>, t: Seq<u16>) {
    if 0 <= i < s.len() {
        lemma_hex_run_end(s, i);
    }
}

/// Reading an IPv6 address: hexadecimal groups of one to four digits
/// separated by single colons, with at most one `::` standing for enough
/// zero groups to make eight, and possibly an embedded dotted quad as the
/// last group, standing for two.
pub open spec fn v6_parse_spec(s: Seq<char>) -> Option<Seq<u16>> {
    if s.len() == 0 {
        None
    } else if s.len() >= 2 && s[0] == ':' && s[1] == ':' {
        if s.len() == 2 {
            v6_finish(true, Seq::empty(), Seq::empty())
        } else {
            v6_groups(s, 2, true, Seq::empty(), Seq::empty())
        }
    } else if s[0] == ':' {
        None
    } else {
        v6_groups(s, 0, false, Seq::empty(), Seq::empty())
    }
}

fn is_hex_exec(c: char) -> (r: bool)
    ensures
        r == is_hex_char(c),
{
    ('0' <= c && c <= '9') || ('a' <= c && c <= 'f') || ('A' <= c && c <= 'F')
}

fn hex_val_exec(c: char) -> (r: u32)
    requires
        is_hex_char(c),
    ensures
        r == hex_char_val(c),
        r < 16,
{
    if '0' <= c && c <= '9' {
        (c as u32) - 0x30
    } else if 'a' <= c && c <= 'f' {
        (c as u32) - 0x61 + 10
    } else {
        (c as u32) - 0x41 + 10
    }
}

/// Reads up to five hexadecimal digits at `i`: their value and the index
/// just past them, stopping after five so a long run is seen as too long.
fn read_hex_group(s: &str, i: usize) -> (r: (u32, usize))
    requires
        i < s@.len(),
    ensures
        i <= r.1 <= s@.len(),
        forall|k: int| i <= k < r.1 ==> is_hex_char(#[trigger] s@[k]),
        r.1 - i <= 4 ==> r.1 == hex_run_end(s@, i as int) && r.0 == hex_run_val(
            s@,
            i as int,
            r.1 as int,
        ),
        r.1 - i == 5 ==> hex_run_end(s@, i as int) - i >= 5,
{
    let n = s.unicode_len();
    let mut j: usize = i;
    let mut v: u32 = 0;
    let mut stop = false;
    while !stop
        invariant
            i <= j <= n,
            n == s@.len(),
            j - i <= 5,
            forall|k: int| i <= k < j ==> is_hex_char(#[trigger] s@[k]),
            v == hex_run_val(s@, i as int, j as int),
            stop ==> j == n || j - i == 5 || !is_hex_char(s@[j as int]),
        decreases n - j + (if stop { 0int } else { 1int }),
    {
        if j < n && j - i < 5 {
            let c = s.get_char(j);
            if is_hex_exec(c) {
                proof {
                    lemma_hex_run_val_bound(s@, i as int, j as int);
                }
                v = v * 16 + hex_val_exec(c);
                j = j + 1;
            } else {
                stop = true;
            }
        } else {
            stop = true;
        }
    }
    proof {
        if j - i <= 4 {
            lemma_hex_run_prefix(s@, i as int, j as int);
        } else {
            lemma_hex_run_lower(s@, i as int, j as int);
        }
    }
    (v, j)
}

/// A position after a run of hexadecimal digits, at the end or a non-digit,
/// is where the run ends.
proof fn lemma_hex_run_prefix(s: Seq<char>, i: int, j: int)
    requires
        0 <= i <= j <= s.len(),
        forall|k: int| i <= k < j ==> is_hex_char(#[trigger] s[k]),
        j == s.len() || !is_hex_char(s[j]),
    ensures
        hex_run_end(s, i) == j,
    decreases j - i,
{
    if i < j {
        assert(is_hex_char(s[i]));
        lemma_hex_run_prefix(s, i + 1, j);
    }
}

/// The run of hexadecimal digits reaches at least past a hexadecimal
/// prefix.
proof fn lemma_hex_run_lower(s: Seq<char>, i: int, j: int)
    requires
        0 <= i <= j <= s.len(),
        forall|k: int| i <= k < j ==> is_hex_char(#[trigger] s[k]),
    ensures
        hex_run_end(s, i) >= j,
    decreases j - i,
{
    lemma_hex_run_end(s, i);
    if i < j {
        assert(is_hex_char(s[i]));
        lemma_hex_run_lower(s, i + 1, j);
    }
}

fn v6_finish_exec(seen: bool, h: Vec<u16>, t: Vec<u16>) -> (r: Option<Vec<u16>>)
    ensures
        r is Some <==> v6_finish(seen, h@, t@) is Some,
        r matches Some(v) ==> v6_finish(seen, h@, t@) == Some(v@) && v@.len() == 8,
{
    if seen {
        if h.len() <= 7 && t.len() <= 7 - h.len() {
            let fill = 8 - h.len() - t.len();
            let mut out = h;
            let ghost h0 = out@;
            let mut z: usize = 0;
            while z < fill
                invariant
                    z <= fill,
                    out@ == h0 + zeros16(z as nat),
                decreases fill - z,
            {
                out.push(0);
                assert(out@ =~= h0 + zeros16((z + 1) as nat));
                z = z + 1;
            }
            let mut k: usize = 0;
            let ghost hz = out@;
            while k < t.len()
                invariant
                    k <= t@.len(),
                    out@ == hz + t@.subrange(0, k as int),
                decreases t@.len() - k,
            {
                out.push(t[k]);
                assert(out@ =~= hz + t@.subrange(0, k + 1));
                k = k + 1;
            }
            proof {
                assert(t@.subrange(0, t@.len() as int) =~= t@);
                assert(out@ =~= h@ + zeros16((8 - h@.len() - t@.len()) as nat) + t@);
            }
            Some(out)
        } else {
            None
        }
    } else {
        if h.len() == 8 {
            Some(h)
        } else {
            None
        }
    }
}

fn v6_groups_exec(s: &str, i: usize, seen: bool, h: Vec<u16>, t: Vec<u16>) -> (r: Option<Vec<u16>>)
    ensures
        r is Some <==> v6_groups(s@, i as int, seen, h@, t@) is Some,
        r matches Some(v) ==> v6_groups(s@, i as int, seen, h@, t@) == Some(v@) && v@.len() == 8,
    decreases s@.len() - i,
{
    let n = s.unicode_len();
    if i >= n {
        return None;
    }
    let (vg, j) = read_hex_group(s, i);
    proof {
        lemma_hex_run_end(s@, i as int);
    }
    if j == i {
        return None;
    }
    if j < n && s.get_char(j) == '.' {
        proof {
            lemma_hex_run_prefix(s@, i as int, j as int);
        }
        let tail = s.substring_char(i, n);
        assert(tail@ == s@.subrange(i as int, s@.len() as int));
        match parse_v4(tail) {
            Some(a) => {
                proof {
                    let o2 = choose|o: Seq<u8>| o.len() == 4 && tail@ == v4_text(o);
                    lemma_v4_text_injective(a.octets@, o2);
                }
                let hi16: u16 = (a.octets[0] as u16) * 256 + (a.octets[1] as u16);
                let lo16: u16 = (a.octets[2] as u16) * 256 + (a.octets[3] as u16);
                let mut h2 = h;
                let mut t2 = t;
                if seen {
                    t2.push(hi16);
                    t2.push(lo16);
                } else {
                    h2.push(hi16);
                    h2.push(lo16);
                }
                return v6_finish_exec(seen, h2, t2);
            },
            None => {
                return None;
            },
        }
    }
    if j - i > 4 {
        proof {
            let e = hex_run_end(s@, i as int);
            lemma_hex_run_end(s@, i as int);
            lemma_hex_run_chars(s@, i as int);
            if e < s@.len() && s@[e] == '.' {
                let tail = s@.subrange(i as int, s@.len() as int);
                assert forall|o: Seq<u8>| o.len() == 4 implies tail != v4_text(o) by {
                    lemma_v4_text_dot_pos(o);
                    let dp = dec_digits(o[0] as nat).len() as int;
                    assert(is_hex_char(s@[i + dp]));
                    assert(tail[dp] == s@[i + dp]);
                    if tail == v4_text(o) {
                        assert(tail[dp] == '.');
                        assert(!is_hex_char('.'));
                    }
                }
                assert(v4_tail_val(tail) is None);
            }
        }
        return None;
    }
    proof {
        lemma_hex_run_val_bound(s@, i as int, j as int);
    }
    let v = vg as u16;
    let mut h2 = h;
    let mut t2 = t;
    if seen {
        t2.push(v);
    } else {
        h2.push(v);
    }
    if j == n {
        return v6_finish_exec(seen, h2, t2);
    }
    if s.get_char(j) != ':' {
        return None;
    }
    if j + 1 == n {
        return None;
    }
    if s.get_char(j + 1) == ':' {
        if seen {
            return None;
        }
        if j + 2 == n {
            return v6_finish_exec(true, h2, t2);
        }
        v6_groups_exec(s, j + 2, true, h2, t2)
    } else {
        v6_groups_exec(s, j + 1, seen, h2, t2)
    }
}

/// The dotted text of an address has its first dot within the first four
/// characters, right after the first octet's digits.
proof fn lemma_v4_text_dot_pos(o: Seq<u8>)
    requires
        o.len() == 4,
    ensures
        ({
            let dp = dec_digits(o[0] as nat).len() as int;
            1 <= dp <= 3 && v4_text(o)[dp] == '.'
        }),
{
    lemma_dec_digits_val(o[0] as nat);
    lemma_dec_digits_len_3(o[0] as nat);
    reveal_strlit(".");
    assert("."@ =~= seq!['.']);
    let d0 = dec_digits(o[0] as nat);
    assert((d0 + "."@)[d0.len() as int] == '.');
    assert(v4_text(o)[d0.len() as int] == '.');
}

/// Reads an IPv6 address in the colon-separated hexadecimal form, with at
/// most one `::`, the last group possibly an embedded dotted quad.
pub fn parse_v6(s: &str) -> (r: Option<Ipv6Address>)
    ensures
        r is Some <==> v6_parse_spec(s@) is Some,
        r matches Some(ip) ==> ip.wf() && v6_parse_spec(s@) == Some(ip.segments@),
{
    let n = s.unicode_len();
    if n == 0 {
        return None;
    }
    let inner: Option<Vec<u16>> = if s.get_char(0) == ':' {
        if n >= 2 && s.get_char(1) == ':' {
            if n == 2 {
                v6_finish_exec(true, Vec::new(), Vec::new())
            } else {
                v6_groups_exec(s, 2, true, Vec::new(), Vec::new())
            }
        } else {
            None
        }
    } else {
        v6_groups_exec(s, 0, false, Vec::new(), Vec::new())
    };
    match inner {
        Some(v) => Some(Ipv6Address { segments: v }),
        None => None,
    }
}

/// The hexadecimal rendering of a segment consists of hexadecimal digits
/// and reads back as the segment.
proof fn lemma_hex_digits_val(n: nat)
    ensures
        crate::text::hex_digits(n).len() >= 1,
        forall|i: int|
            0 <= i < crate::text::hex_digits(n).len() ==> is_hex_char(
                #[trigger] crate::text::hex_digits(n)[i],
            ),
        hex_run_val(crate::text::hex_digits(n), 0, crate::text::hex_digits(n).len() as int) == n,
        n < 0x10000 ==> crate::text::hex_digits(n).len() <= 4,
    decreases n,
{
    let s = crate::text::hex_digits(n);
    if n < 16 {
        assert(is_hex_char(s[0]));
        assert(hex_char_val(s[0]) == n);
        assert(hex_run_val(s, 0, 1) == hex_run_val(s, 0, 0) * 16 + hex_char_val(s[0]));
    } else {
        lemma_hex_digits_val(n / 16);
        let pre = crate::text::hex_digits(n / 16);
        let c = crate::text::hex_digit(n % 16);
        assert(s == pre.push(c));
        assert(is_hex_char(c));
        assert(hex_char_val(c) == n % 16);
        assert forall|i: int| 0 <= i < s.len() implies is_hex_char(#[trigger] s[i]) by {
            if i < pre.len() {
                assert(s[i] == pre[i]);
            } else {
                assert(s[i] == c);
            }
        }
        lemma_hex_run_val_prefix(pre, s, pre.len() as int);
        assert(hex_run_val(s, 0, s.len() as int) == hex_run_val(s, 0, s.len() - 1) * 16
            + hex_char_val(s[s.len() - 1]));
        assert(hex_run_val(s, 0, pre.len() as int) == hex_run_val(pre, 0, pre.len() as int));
        assert((n / 16) * 16 + n % 16 == n) by (nonlinear_arith);
        if n < 0x10000 {
            assert(n / 16 < 0x1000);
            if n / 16 >= 16 {
                assert(pre == crate::text::hex_digits(n / 16 / 16).push(
                    crate::text::hex_digit(n / 16 % 16)));
                if n / 16 / 16 >= 16 {
                    assert(crate::text::hex_digits(n / 16 / 16) == crate::text::hex_digits(
                        n / 16 / 16 / 16).push(crate::text::hex_digit(n / 16 / 16 % 16)));
                    assert(n / 16 / 16 / 16 < 16);
                }
            }
        }
    }
}

/// Two strings that agree below `j` give a run the same value there.
proof fn lemma_hex_run_val_prefix(a: Seq<char>, b: Seq<char>, j: int)
    requires
        j <= a.len(),
        j <= b.len(),
        forall|k: int| 0 <= k < j ==> a[k] == b[k],
    ensures
        hex_run_val(a, 0, j) == hex_run_val(b, 0, j),
    decreases j,
{
    if j > 0 {
        lemma_hex_run_val_prefix(a, b, j - 1);
    }
}

/// The run end from `i` is the run end of the string with its first `i`
/// characters dropped, shifted back.
proof fn lemma_hex_run_end_shift(s: Seq<char>, i: int)
    requires
        0 <= i <= s.len(),
    ensures
        hex_run_end(s, i) == i + hex_run_end(s.skip(i), 0),
    decreases s.len() - i,
{
    lemma_hex_run_end(s, i);
    let u = s.skip(i);
    if i < s.len() && is_hex_char(s[i]) {
        assert(u[0] == s[i]);
        lemma_hex_run_end_shift(s, i + 1);
        assert(s.skip(i + 1) =~= u.skip(1));
        assert(hex_run_end(u, 0) == hex_run_end(u, 1));
        lemma_hex_run_end_shift(u, 1);
    } else {
        if i < s.len() {
            assert(u[0] == s[i]);
        }
    }
}

/// The run value from `i` is the run value of the shifted string.
proof fn lemma_hex_run_val_shift(s: Seq<char>, i: int, j: int)
    requires
        0 <= i <= j <= s.len(),
    ensures
        hex_run_val(s, i, j) == hex_run_val(s.skip(i), 0, j - i),
    decreases j - i,
{
    if j > i {
        lemma_hex_run_val_shift(s, i, j - 1);
        assert(s.skip(i)[j - i - 1] == s[j - 1]);
    }
}

/// Reading groups from position `i` reads them from the shifted string.
proof fn lemma_v6_groups_shift(s: Seq<char>, i: int, seen: bool, h: Seq<u16>, t: Seq<u16>)
    requires
        0 <= i <= s.len(),
    ensures
        v6_groups(s, i, seen, h, t) == v6_groups(s.skip(i), 0, seen, h, t),
    decreases s.len() - i,
{
    let u = s.skip(i);
    if i >= s.len() {
        assert(u.len() == 0);
    } else {
        lemma_hex_run_end(s, i);
        lemma_hex_run_end_shift(s, i);
        let j = hex_run_end(s, i);
        let ju = hex_run_end(u, 0);
        assert(ju == j - i);
        assert(forall|k: int| i <= k < s.len() ==> u[k - i] == s[k]);
        if j == i {
        } else if j < s.len() && s[j] == '.' {
            assert(u[ju] == s[j]);
            assert(u.subrange(0, u.len() as int) =~= s.subrange(i, s.len() as int));
        } else if j - i > 4 {
            if ju < u.len() {
                assert(u[ju] == s[j]);
            }
        } else {
            lemma_hex_run_val_shift(s, i, j);
            if j < s.len() {
                assert(u[ju] == s[j]);
            }
            if j == s.len() {
            } else if s[j] != ':' {
            } else if j + 1 == s.len() {
            } else if s[j + 1] == ':' {
                assert(u[ju + 1] == s[j + 1]);
                if seen {
                } else if j + 2 == s.len() {
                } else {
                    let v = hex_run_val(s, i, j) as u16;
                    let h2 = if seen { h } else { h.push(v) };
                    let t2 = if seen { t.push(v) } else { t };
                    lemma_v6_groups_shift(s, j + 2, true, h2, t2);
                    lemma_v6_groups_shift(u, ju + 2, true, h2, t2);
                    assert(s.skip(j + 2) =~= u.skip(ju + 2));
                }
            } else {
                assert(u[ju + 1] == s[j + 1]);
                let v = hex_run_val(s, i, j) as u16;
                let h2 = if seen { h } else { h.push(v) };
                let t2 = if seen { t.push(v) } else { t };
                lemma_v6_groups_shift(s, j + 1, seen, h2, t2);
                lemma_v6_groups_shift(u, ju + 1, seen, h2, t2);
                assert(s.skip(j + 1) =~= u.skip(ju + 1));
            }
        }
    }
}

/// The length of the run of zero segments starting at `i`.
pub open spec fn zrun(g: Seq<u16>, i: int) -> int
    decreases g.len() - i,
{
    if i < 0 || i >= g.len() || g[i] != 0 {
        0
    } else {
        1 + zrun(g, i + 1)
    }
}

/// The first longest zero run at or after `i`, given the best found so far:
/// its start and length.
pub open spec fn best_zero_run(g: Seq<u16>, i: int, bi: int, bl: int) -> (int, int)
    decreases g.len() - i,
{
    if i < 0 || i >= g.len() {
        (bi, bl)
    } else if zrun(g, i) > bl {
        best_zero_run(g, i + 1, i, zrun(g, i))
    } else {
        best_zero_run(g, i + 1, bi, bl)
    }
}

/// The segments `g[from..to]` in hexadecimal, joined with colons.
pub open spec fn groups_text(g: Seq<u16>, from: int, to: int) -> Seq<char>
    decreases to - from,
{
    if to <= from {
        Seq::empty()
    } else if to == from + 1 {
        crate::text::hex_digits(g[from] as nat)
    } else {
        groups_text(g, from, to - 1) + ":"@ + crate::text::hex_digits(g[to - 1] as nat)
    }
}

/// The canonical text of eight segments: lower-case hexadecimal groups, the
/// first longest run of two or more zero groups shortened to `::`.
/// Whether the segments are an IPv4-mapped address.
pub open spec fn is_v4_mapped(g: Seq<u16>) -> bool {
    g.len() == 8 && g[0] == 0 && g[1] == 0 && g[2] == 0 && g[3] == 0 && g[4] == 0 && g[5]
        == 0xffff
}

/// The four octets an IPv4-mapped address carries in its last two
/// segments.
pub open spec fn mapped_octets(g: Seq<u16>) -> Seq<u8> {
    seq![(g[6] / 256) as u8, (g[6] % 256) as u8, (g[7] / 256) as u8, (g[7] % 256) as u8]
}

pub open spec fn v6_text(g: Seq<u16>) -> Seq<char> {
    if is_v4_mapped(g) {
        "::ffff:"@ + v4_text(mapped_octets(g))
    } else {
        let br = best_zero_run(g, 0, 0, 0);
        if br.1 >= 2 {
            groups_text(g, 0, br.0) + "::"@ + groups_text(g, br.0 + br.1, 8)
        } else {
            groups_text(g, 0, 8)
        }
    }
}

/// Appends the canonical text of an IPv6 address.
pub fn push_v6(out: &mut String, ip: &Ipv6Address)
    requires
        ip.wf(),
    ensures
        final(out)@ == old(out)@ + v6_text(ip.segments@),
{
    let g = &ip.segments;
    if g[0] == 0 && g[1] == 0 && g[2] == 0 && g[3] == 0 && g[4] == 0 && g[5] == 0xffff {
        out.append("::ffff:");
        let oct = Ipv4Address {
            octets: vec![
                (g[6] / 256) as u8,
                (g[6] % 256) as u8,
                (g[7] / 256) as u8,
                (g[7] % 256) as u8,
            ],
        };
        proof {
            assert(oct.octets@ =~= mapped_octets(ip.segments@));
        }
        push_v4(out, &oct);
        assert(out@ =~= old(out)@ + v6_text(ip.segments@));
        return;
    }
    let mut bi: usize = 0;
    let mut bl: usize = 0;
    let mut i: usize = 0;
    while i < 8
        invariant
            i <= 8,
            g@.len() == 8,
            best_zero_run(g@, 0, 0, 0) == best_zero_run(g@, i as int, bi as int, bl as int),
            bi <= 8,
            bl <= 8,
            bi + bl <= 8,
        decreases 8 - i,
    {
        let mut k: usize = i;
        while k < 8 && g[k] == 0
            invariant
                i <= k <= 8,
                g@.len() == 8,
                zrun(g@, i as int) == (k - i) + zrun(g@, k as int),
            decreases 8 - k,
        {
            k = k + 1;
        }
        assert(zrun(g@, k as int) == 0);
        let run = k - i;
        if run > bl {
            bl = run;
            bi = i;
        }
        i = i + 1;
    }
    let ghost base = out@;
    if bl >= 2 {
        let mut k: usize = 0;
        while k < bi
            invariant
                k <= bi <= 8,
                g@.len() == 8,
                out@ == base + groups_text(g@, 0, k as int),
            decreases bi - k,
        {
            if k > 0 {
                out.append(":");
            }
            crate::text::push_hex_u16(out, g[k]);
            assert(out@ =~= base + groups_text(g@, 0, k + 1));
            k = k + 1;
        }
        out.append("::");
        let ghost mid = out@;
        let start = bi + bl;
        let mut k: usize = start;
        while k < 8
            invariant
                start <= k <= 8,
                start == bi + bl,
                g@.len() == 8,
                out@ == mid + groups_text(g@, start as int, k as int),
            decreases 8 - k,
        {
            if k > start {
                out.append(":");
            }
            crate::text::push_hex_u16(out, g[k]);
            assert(out@ =~= mid + groups_text(g@, start as int, k + 1));
            k = k + 1;
        }
        assert(out@ =~= old(out)@ + v6_text(g@));
    } else {
        let mut k: usize = 0;
        while k < 8
            invariant
                k <= 8,
                g@.len() == 8,
                out@ == base + groups_text(g@, 0, k as int),
            decreases 8 - k,
        {
            if k > 0 {
                out.append(":");
            }
            crate::text::push_hex_u16(out, g[k]);
            assert(out@ =~= base + groups_text(g@, 0, k + 1));
            k = k + 1;
        }
        assert(out@ =~= old(out)@ + v6_text(g@));
    }
}

fn copy_u8_vec(v: &Vec<u8>) -> (r: Vec<u8>)
    ensures
        r@ == v@,
{
    let mut r: Vec<u8> = Vec::new();
    let mut i: usize = 0;
    while i < v.len()
        invariant
            i <= v@.len(),
            r@ == v@.subrange(0, i as int),
        decreases v@.len() - i,
    {
        r.push(v[i]);
        assert(r@ =~= v@.subrange(0, i + 1));
        i = i + 1;
    }
    proof {
        assert(v@.subrange(0, v@.len() as int) =~= v@);
    }
    r
}

fn copy_u16_vec(v: &Vec<u16>) -> (r: Vec<u16>)
    ensures
        r@ == v@,
{
    let mut r: Vec<u16> = Vec::new();
    let mut i: usize = 0;
    while i < v.len()
        invariant
            i <= v@.len(),
            r@ == v@.subrange(0, i as int),
        decreases v@.len() - i,
    {
        r.push(v[i]);
        assert(r@ =~= v@.subrange(0, i + 1));
        i = i + 1;
    }
    proof {
        assert(v@.subrange(0, v@.len() as int) =~= v@);
    }
    r
}

/// A fresh copy of an address, equal segment for segment.
pub fn clone_ip(ip: &IpAddress) -> (r: IpAddress)
    ensures
        ip is V4 ==> r is V4 && r->V4_0.octets@ == ip->V4_0.octets@,
        ip is V6 ==> r is V6 && r->V6_0.segments@ == ip->V6_0.segments@,
{
    match ip {
        IpAddress::V4(a) => IpAddress::V4(Ipv4Address { octets: copy_u8_vec(&a.octets) }),
        IpAddress::V6(a) => IpAddress::V6(Ipv6Address { segments: copy_u16_vec(&a.segments) }),
    }
}

/// A fresh copy of a socket address, equal field for field.
pub fn clone_sockaddr(sa: &SocketAddress) -> (r: SocketAddress)
    ensures
        r.port == sa.port,
        sa.ip is V4 ==> r.ip is V4 && r.ip->V4_0.octets@ == sa.ip->V4_0.octets@,
        sa.ip is V6 ==> r.ip is V6 && r.ip->V6_0.segments@ == sa.ip->V6_0.segments@,
        sa.wf() ==> r.wf(),
        sockaddr_text(r) == sockaddr_text(*sa),
{
    let r = SocketAddress { ip: clone_ip(&sa.ip), port: sa.port };
    proof {
        match sa.ip {
            IpAddress::V4(_) => {
                assert(v4_text(r.ip->V4_0.octets@) == v4_text(sa.ip->V4_0.octets@));
            },
            IpAddress::V6(_) => {
                assert(v6_text(r.ip->V6_0.segments@) == v6_text(sa.ip->V6_0.segments@));
            },
        }
    }
    r
}

/// A group list read from its left end: the first group, then a colon and
/// the rest.
proof fn lemma_groups_text_left(g: Seq<u16>, from: int, to: int)
    requires
        from < to,
    ensures
        to == from + 1 ==> groups_text(g, from, to) == crate::text::hex_digits(g[from] as nat),
        to > from + 1 ==> groups_text(g, from, to) == crate::text::hex_digits(g[from] as nat)
            + ":"@ + groups_text(g, from + 1, to),
    decreases to - from,
{
    if to > from + 1 {
        lemma_groups_text_left(g, from, to - 1);
        if to - 1 == from + 1 {
            assert(groups_text(g, from + 1, to) == crate::text::hex_digits(g[to - 1] as nat));
            assert(groups_text(g, from, to) =~= crate::text::hex_digits(g[from] as nat) + ":"@
                + groups_text(g, from + 1, to));
        } else {
            assert(groups_text(g, from + 1, to) == groups_text(g, from + 1, to - 1) + ":"@
                + crate::text::hex_digits(g[to - 1] as nat));
            assert(groups_text(g, from, to) =~= crate::text::hex_digits(g[from] as nat) + ":"@
                + groups_text(g, from + 1, to));
        }
    }
}

/// A nonempty group list is nonempty text and opens with a hexadecimal
/// digit.
proof fn lemma_groups_text_first(g: Seq<u16>, from: int, to: int)
    requires
        from < to,
    ensures
        groups_text(g, from, to).len() >= 1,
        is_hex_char(groups_text(g, from, to)[0]),
{
    lemma_groups_text_left(g, from, to);
    lemma_hex_digits_val(g[from] as nat);
}

/// The zero run is in bounds and covers zero segments only.
proof fn lemma_zrun_zeros(g: Seq<u16>, i: int)
    requires
        0 <= i <= g.len(),
    ensures
        0 <= zrun(g, i) <= g.len() - i,
        forall|k: int| 0 <= k < zrun(g, i) ==> #[trigger] g[i + k] == 0,
    decreases g.len() - i,
{
    if i < g.len() && g[i] == 0 {
        lemma_zrun_zeros(g, i + 1);
        assert forall|k: int| 0 <= k < zrun(g, i) implies #[trigger] g[i + k] == 0 by {
            if k > 0 {
                assert(g[(i + 1) + (k - 1)] == 0);
            }
        }
    }
}

/// What the best-run scan returns really is a zero run.
proof fn lemma_best_run(g: Seq<u16>, i: int, b0: int, l0: int)
    requires
        0 <= i <= g.len(),
        l0 == 0 || (0 <= b0 && b0 + l0 <= g.len() && zrun(g, b0) == l0),
    ensures
        ({
            let br = best_zero_run(g, i, b0, l0);
            br.1 == l0 && br.0 == b0 || (0 <= br.0 && br.0 + br.1 <= g.len() && zrun(g, br.0)
                == br.1)
        }),
    decreases g.len() - i,
{
    if i < g.len() {
        if zrun(g, i) > l0 {
            lemma_zrun_zeros(g, i);
            lemma_best_run(g, i + 1, i, zrun(g, i));
        } else {
            lemma_best_run(g, i + 1, b0, l0);
        }
    }
}

/// Reading a group list with what follows it: the groups accumulate in
/// order, a `::` hands over to the groups after it, and the read ends in
/// the corresponding completion. `ct` says what follows the groups:
/// nothing, a closing `::`, or a `::` and the groups `g[lo2..hi2]`.
proof fn lemma_consume_groups(
    g: Seq<u16>,
    lo: int,
    hi: int,
    lo2: int,
    hi2: int,
    ct: int,
    seen: bool,
    h: Seq<u16>,
    t: Seq<u16>,
    s: Seq<char>,
)
    requires
        0 <= lo < hi <= g.len(),
        0 <= ct <= 2,
        ct != 0 ==> !seen,
        ct == 2 ==> 0 <= lo2 < hi2 <= g.len(),
        s == groups_text(g, lo, hi) + (if ct == 0 {
            Seq::<char>::empty()
        } else if ct == 1 {
            "::"@
        } else {
            "::"@ + groups_text(g, lo2, hi2)
        }),
    ensures
        ct == 0 ==> v6_groups(s, 0, seen, h, t) == v6_finish(
            seen,
            if seen { h } else { h + g.subrange(lo, hi) },
            if seen { t + g.subrange(lo, hi) } else { t },
        ),
        ct == 1 ==> v6_groups(s, 0, seen, h, t) == v6_finish(true, h + g.subrange(lo, hi), t),
        ct == 2 ==> v6_groups(s, 0, seen, h, t) == v6_finish(
            true,
            h + g.subrange(lo, hi),
            t + g.subrange(lo2, hi2),
        ),
    decreases (hi - lo) + (if ct == 2 { hi2 - lo2 + 1 } else { 0 }),
{
    reveal_strlit("::");
    reveal_strlit(":");
    assert("::"@ =~= seq![':', ':']);
    assert(":"@ =~= seq![':']);
    lemma_groups_text_left(g, lo, hi);
    lemma_hex_digits_val(g[lo] as nat);
    let hx = crate::text::hex_digits(g[lo] as nat);
    let j = hx.len() as int;
    assert(!is_hex_char(':'));
    assert(forall|k: int| 0 <= k < j ==> s[k] == hx[k]);
    assert(forall|k: int| 0 <= k < j ==> is_hex_char(#[trigger] s[k]));
    if hi == lo + 1 && ct == 0 {
        assert(s =~= hx);
        lemma_hex_run_prefix(s, 0, j);
        lemma_hex_run_val_prefix(hx, s, j);
        assert(hex_run_val(s, 0, j) == g[lo] as nat);
        assert(h.push(g[lo]) =~= h + g.subrange(lo, hi));
        assert(t.push(g[lo]) =~= t + g.subrange(lo, hi));
        assert(v6_groups(s, 0, seen, h, t) == v6_finish(
            seen,
            if seen { h } else { h + g.subrange(lo, hi) },
            if seen { t + g.subrange(lo, hi) } else { t },
        ));
    } else {
        assert(s[j] == ':') by {
            if hi > lo + 1 {
                lemma_groups_text_first(g, lo + 1, hi);
                assert(groups_text(g, lo, hi)[j] == ':');
            }
        }
        lemma_hex_run_prefix(s, 0, j);
        lemma_hex_run_val_prefix(hx, s, j);
        assert(hex_run_end(s, 0) == j);
        assert(hex_run_val(s, 0, j) == g[lo] as nat);
        let v = g[lo];
        let h2 = if seen { h } else { h.push(v) };
        let t2 = if seen { t.push(v) } else { t };
        if hi > lo + 1 {
            let rest = if ct == 0 {
                Seq::<char>::empty()
            } else if ct == 1 {
                "::"@
            } else {
                "::"@ + groups_text(g, lo2, hi2)
            };
            let gp = groups_text(g, lo + 1, hi);
            assert(s =~= hx + ":"@ + gp + rest);
            lemma_groups_text_first(g, lo + 1, hi);
            assert(s[j + 1] == gp[0]);
            assert(s[j + 1] != ':');
            assert(j + 1 < s.len());
            lemma_v6_groups_shift(s, j + 1, seen, h2, t2);
            assert(s.skip(j + 1) =~= gp + rest);
            lemma_consume_groups(g, lo + 1, hi, lo2, hi2, ct, seen, h2, t2, gp + rest);
            if !seen {
                assert(h2 + g.subrange(lo + 1, hi) =~= h + g.subrange(lo, hi));
            } else {
                assert(t2 + g.subrange(lo + 1, hi) =~= t + g.subrange(lo, hi));
            }
        } else {
            // one group left, followed by a `::`
            assert(groups_text(g, lo, hi) == hx);
            assert(s[j] == ':' && s[j + 1] == ':');
            assert(!seen);
            if ct == 1 {
                assert(s.len() == j + 2);
                assert(h2 =~= h + g.subrange(lo, hi));
                assert(v6_groups(s, 0, seen, h, t) == v6_finish(true, h2, t2));
            } else {
                let gb = groups_text(g, lo2, hi2);
                assert(s =~= hx + "::"@ + gb);
                lemma_groups_text_first(g, lo2, hi2);
                assert(j + 2 < s.len());
                lemma_v6_groups_shift(s, j + 2, true, h2, t2);
                assert(s.skip(j + 2) =~= gb);
                lemma_consume_groups(g, lo2, hi2, 0, 0, 0, true, h2, t2, gb);
                assert(gb =~= gb + Seq::<char>::empty());
                assert(h2 =~= h + g.subrange(lo, hi));
                assert(v6_groups(s, 0, seen, h, t) == v6_finish(true, h2, t2 + g.subrange(
                    lo2, hi2)));
            }
        }
    }
}

/// The mixed text of an IPv4-mapped address reads back as its segments.
#[verifier::rlimit(100)]
#[verifier::spinoff_prover]
proof fn lemma_v6_mapped_round_trip(g: Seq<u16>)
    requires
        g.len() == 8,
        is_v4_mapped(g),
    ensures
        v6_parse_spec(v6_text(g)) == Some(g),
{
    reveal_strlit("::ffff:");
    assert("::ffff:"@ =~= seq![':', ':', 'f', 'f', 'f', 'f', ':']);
    let mo = mapped_octets(g);
    let vt = v4_text(mo);
    let s = v6_text(g);
    assert(s == "::ffff:"@ + vt);
    let d0 = dec_digits(mo[0] as nat);
    lemma_dec_digits_val(mo[0] as nat);
    lemma_v4_text_dot_pos(mo);
    assert(vt[0] == d0[0]) by {
        assert((d0 + "."@)[0] == d0[0]);
    }
    assert(is_digit(vt[0]));
    assert(s[0] == ':' && s[1] == ':' && s.len() > 2);
    assert(v6_parse_spec(s) == v6_groups(s, 2, true, Seq::empty(), Seq::empty()));
    assert(forall|k: int| 2 <= k < 6 ==> is_hex_char(#[trigger] s[k]));
    assert(s[6] == ':');
    assert(!is_hex_char(':'));
    lemma_hex_run_prefix(s, 2, 6);
    assert(hex_char_val('f') == 15);
    assert(s[2] == 'f' && s[3] == 'f' && s[4] == 'f' && s[5] == 'f');
    assert(hex_run_val(s, 2, 2) == 0);
    assert(hex_run_val(s, 2, 3) == 15);
    assert(hex_run_val(s, 2, 4) == 255);
    assert(hex_run_val(s, 2, 5) == 4095);
    assert(hex_run_val(s, 2, 6) == 0xffff);
    assert(s[7] == vt[0]);
    assert(s[7] != ':');
    let t1 = Seq::<u16>::empty().push(0xffffu16);
    assert(v6_groups(s, 2, true, Seq::empty(), Seq::empty()) == v6_groups(s, 7, true,
        Seq::empty(), t1));
    lemma_v6_groups_shift(s, 7, true, Seq::empty(), t1);
    assert(s.skip(7) =~= vt);
    assert forall|k: int| 0 <= k < d0.len() implies is_hex_char(#[trigger] vt[k]) by {
        assert((d0 + "."@)[k] == d0[k]);
        assert(vt[k] == d0[k]);
        assert(is_digit(d0[k]));
    }
    assert(vt[d0.len() as int] == '.');
    assert(!is_hex_char('.'));
    lemma_hex_run_prefix(vt, 0, d0.len() as int);
    let j2 = hex_run_end(vt, 0);
    assert(j2 == d0.len());
    assert(1 <= j2 <= 3);
    assert(vt.subrange(0, vt.len() as int) =~= vt);
    assert(exists|o: Seq<u8>| o.len() == 4 && vt == v4_text(o)) by {
        assert(mo.len() == 4 && vt == v4_text(mo));
    }
    let o2 = choose|o: Seq<u8>| o.len() == 4 && vt == v4_text(o);
    lemma_v4_text_injective(mo, o2);
    assert(o2 =~= mo);
    assert(((mo[0] as int) * 256 + mo[1]) as u16 == g[6]);
    assert(((mo[2] as int) * 256 + mo[3]) as u16 == g[7]);
    assert(v4_tail_val(vt) == Some((g[6], g[7])));
    let tfin = t1.push(g[6]).push(g[7]);
    assert(v6_groups(vt, 0, true, Seq::empty(), t1) == v6_finish(true, Seq::empty(), tfin));
    assert(Seq::<u16>::empty() + zeros16(5) + tfin =~= g);
}

/// The canonical text of eight segments reads back as the same segments.
pub proof fn lemma_v6_text_round_trip(g: Seq<u16>)
    requires
        g.len() == 8,
    ensures
        v6_parse_spec(v6_text(g)) == Some(g),
{
    reveal_strlit("::");
    assert("::"@ =~= seq![':', ':']);
    let br = best_zero_run(g, 0, 0, 0);
    let bi = br.0;
    let bl = br.1;
    lemma_best_run(g, 0, 0, 0);
    let s = v6_text(g);
    if is_v4_mapped(g) {
        lemma_v6_mapped_round_trip(g);
    } else if bl < 2 {
        assert(s == groups_text(g, 0, 8));
        lemma_groups_text_first(g, 0, 8);
        assert(s[0] != ':');
        lemma_consume_groups(g, 0, 8, 0, 0, 0, false, Seq::empty(), Seq::empty(), s);
        assert(s =~= s + Seq::<char>::empty());
        assert(Seq::<u16>::empty() + g.subrange(0, 8) =~= g);
        assert(v6_finish(false, g.subrange(0, 8), Seq::empty()) == Some(g.subrange(0, 8)));
        assert(g.subrange(0, 8) =~= g);
    } else {
        assert(zrun(g, bi) == bl);
        lemma_zrun_zeros(g, bi);
        assert(forall|k: int| bi <= k < bi + bl ==> #[trigger] g[k] == 0) by {
            assert(forall|k: int| 0 <= k < zrun(g, bi) ==> #[trigger] g[bi + k] == 0);
            assert forall|k: int| bi <= k < bi + bl implies #[trigger] g[k] == 0 by {
                assert(g[bi + (k - bi)] == 0);
            }
        }
        if bi == 0 && bi + bl == 8 {
            assert(s =~= "::"@);
            assert(s.len() == 2 && s[0] == ':' && s[1] == ':');
            assert(v6_parse_spec(s) == v6_finish(true, Seq::empty(), Seq::empty()));
            assert(zeros16(8) =~= g);
            assert(Seq::<u16>::empty() + zeros16(8) + Seq::<u16>::empty() =~= g);
        } else if bi == 0 {
            let gb = groups_text(g, bi + bl, 8);
            assert(s == groups_text(g, 0, 0) + "::"@ + gb);
            assert(groups_text(g, 0, 0) =~= Seq::<char>::empty());
            assert(s =~= "::"@ + gb);
            lemma_groups_text_first(g, bi + bl, 8);
            assert(s.len() > 2 && s[0] == ':' && s[1] == ':');
            assert(v6_parse_spec(s) == v6_groups(s, 2, true, Seq::empty(), Seq::empty()));
            lemma_v6_groups_shift(s, 2, true, Seq::empty(), Seq::empty());
            assert(s.skip(2) =~= gb);
            lemma_consume_groups(g, bi + bl, 8, 0, 0, 0, true, Seq::empty(), Seq::empty(), gb);
            assert(gb =~= gb + Seq::<char>::empty());
            let zs = (8 - bl) as nat;
            assert(Seq::<u16>::empty() + g.subrange(bi + bl, 8) =~= g.subrange(bi + bl, 8));
            assert(v6_groups(s, 2, true, Seq::empty(), Seq::empty()) == v6_finish(
                true,
                Seq::empty(),
                g.subrange(bi + bl, 8),
            ));
            assert(Seq::<u16>::empty() + zeros16(bl as nat) + g.subrange(bi + bl, 8) =~= g);
        } else {
            let ga = groups_text(g, 0, bi);
            lemma_groups_text_first(g, 0, bi);
            assert(s == ga + "::"@ + groups_text(g, bi + bl, 8));
            assert(s[0] == ga[0]);
            assert(s[0] != ':');
            assert(s.len() >= 1);
            assert(v6_parse_spec(s) == v6_groups(s, 0, false, Seq::empty(), Seq::empty()));
            if bi + bl == 8 {
                assert(groups_text(g, bi + bl, 8) =~= Seq::<char>::empty());
                assert(s =~= ga + "::"@);
                lemma_consume_groups(g, 0, bi, 0, 0, 1, false, Seq::empty(), Seq::empty(), s);
                assert(Seq::<u16>::empty() + g.subrange(0, bi) =~= g.subrange(0, bi));
                assert(g.subrange(0, bi) + zeros16(bl as nat) + Seq::<u16>::empty() =~= g);
            } else {
                assert(s =~= ga + ("::"@ + groups_text(g, bi + bl, 8)));
                lemma_consume_groups(g, 0, bi, bi + bl, 8, 2, false, Seq::empty(), Seq::empty(),
                    s);
                assert(Seq::<u16>::empty() + g.subrange(0, bi) =~= g.subrange(0, bi));
                assert(Seq::<u16>::empty() + g.subrange(bi + bl, 8) =~= g.subrange(bi + bl, 8));
                assert(g.subrange(0, bi) + zeros16(bl as nat) + g.subrange(bi + bl, 8) =~= g);
            }
        }
    }
}

/// The characters of a hexadecimal run are hexadecimal.
proof fn lemma_hex_run_chars(s: Seq<char>, i: int)
    requires
        0 <= i <= s.len(),
    ensures
        forall|k: int| i <= k < hex_run_end(s, i) ==> is_hex_char(#[trigger] s[k]),
    decreases s.len() - i,
{
    if i < s.len() && is_hex_char(s[i]) {
        lemma_hex_run_chars(s, i + 1);
    }
}

/// A string a group read accepts holds hexadecimal digits and colons only.
proof fn lemma_v6_groups_chars(s: Seq<char>, i: int, seen: bool, h: Seq<u16>, t: Seq<u16>)
    requires
        0 <= i <= s.len(),
        v6_groups(s, i, seen, h, t) is Some,
    ensures
        forall|k: int|
            i <= k < s.len() ==> is_hex_char(#[trigger] s[k]) || s[k] == ':' || s[k] == '.',
    decreases s.len() - i,
{
    lemma_hex_run_end(s, i);
    lemma_hex_run_chars(s, i);
    let j = hex_run_end(s, i);
    if j < s.len() && s[j] == '.' {
        let tail = s.subrange(i, s.len() as int);
        let o = choose|o: Seq<u8>| o.len() == 4 && tail == v4_text(o);
        lemma_v4_text_chars(o);
        assert forall|k: int|
            i <= k < s.len() implies is_hex_char(#[trigger] s[k]) || s[k] == ':' || s[k]
            == '.' by {
            assert(s[k] == tail[k - i]);
            assert(tail[k - i] == v4_text(o)[k - i]);
            if is_digit(v4_text(o)[k - i]) {
                assert(is_hex_char(s[k]));
            }
        }
    } else {
        let v = hex_run_val(s, i, j) as u16;
        let h2 = if seen { h } else { h.push(v) };
        let t2 = if seen { t.push(v) } else { t };
        if j == s.len() {
        } else if s[j + 1] == ':' && j + 2 == s.len() {
        } else if s[j + 1] == ':' {
            lemma_v6_groups_chars(s, j + 2, true, h2, t2);
        } else {
            lemma_v6_groups_chars(s, j + 1, seen, h2, t2);
        }
    }
}

/// A string the IPv6 reader accepts holds hexadecimal digits, colons and
/// dots only; in particular it has no bracket in it.
pub proof fn lemma_v6_parse_chars(s: Seq<char>)
    requires
        v6_parse_spec(s) is Some,
    ensures
        forall|k: int|
            0 <= k < s.len() ==> is_hex_char(#[trigger] s[k]) || s[k] == ':' || s[k] == '.',
{
    if s.len() >= 2 && s[0] == ':' && s[1] == ':' {
        if s.len() > 2 {
            lemma_v6_groups_chars(s, 2, true, Seq::empty(), Seq::empty());
        }
    } else {
        lemma_v6_groups_chars(s, 0, false, Seq::empty(), Seq::empty());
    }
}

/// The canonical text of eight segments holds hexadecimal digits and
/// colons only.
proof fn lemma_groups_text_chars(g: Seq<u16>, from: int, to: int)
    ensures
        forall|k: int|
            0 <= k < groups_text(g, from, to).len() ==> is_hex_char(
                #[trigger] groups_text(g, from, to)[k],
            ) || groups_text(g, from, to)[k] == ':',
    decreases to - from,
{
    reveal_strlit(":");
    assert(":"@ =~= seq![':']);
    let s = groups_text(g, from, to);
    if to <= from {
    } else if to == from + 1 {
        lemma_hex_digits_val(g[from] as nat);
    } else {
        lemma_groups_text_chars(g, from, to - 1);
        lemma_hex_digits_val(g[to - 1] as nat);
        let a = groups_text(g, from, to - 1);
        let hx = crate::text::hex_digits(g[to - 1] as nat);
        assert forall|k: int| 0 <= k < s.len() implies is_hex_char(#[trigger] s[k]) || s[k]
            == ':' by {
            if k < a.len() {
                assert(s[k] == a[k]);
            } else if k == a.len() {
                assert(s[k] == ':');
            } else {
                assert(s[k] == hx[k - a.len() - 1]);
            }
        }
    }
}

/// The canonical IPv6 text holds hexadecimal digits and colons only.
pub proof fn lemma_v6_text_chars(g: Seq<u16>)
    ensures
        forall|k: int|
            0 <= k < v6_text(g).len() ==> is_hex_char(#[trigger] v6_text(g)[k]) || v6_text(g)[k]
                == ':' || v6_text(g)[k] == '.',
{
    reveal_strlit("::");
    assert("::"@ =~= seq![':', ':']);
    let br = best_zero_run(g, 0, 0, 0);
    let s = v6_text(g);
    if is_v4_mapped(g) {
        reveal_strlit("::ffff:");
        assert("::ffff:"@ =~= seq![':', ':', 'f', 'f', 'f', 'f', ':']);
        let vt = v4_text(mapped_octets(g));
        lemma_v4_text_chars(mapped_octets(g));
        assert forall|k: int| 0 <= k < s.len() implies is_hex_char(#[trigger] s[k]) || s[k]
            == ':' || s[k] == '.' by {
            if k < 7 {
                assert(s[k] == "::ffff:"@[k]);
            } else {
                assert(s[k] == vt[k - 7]);
                if is_digit(vt[k - 7]) {
                    assert(is_hex_char(s[k]));
                }
            }
        }
    } else if br.1 >= 2 {
        let a = groups_text(g, 0, br.0);
        let b = groups_text(g, br.0 + br.1, 8);
        lemma_groups_text_chars(g, 0, br.0);
        lemma_groups_text_chars(g, br.0 + br.1, 8);
        assert forall|k: int| 0 <= k < s.len() implies is_hex_char(#[trigger] s[k]) || s[k]
            == ':' || s[k] == '.' by {
            if k < a.len() {
                assert(s[k] == a[k]);
            } else if k < a.len() + 2 {
                assert(s[k] == ':');
            } else {
                assert(s[k] == b[k - a.len() - 2]);
            }
        }
    } else {
        lemma_groups_text_chars(g, 0, 8);
    }
}

/// Reading back the rendered text of an IPv6 socket address gives the same
/// segments and port.
pub proof fn lemma_sockaddr_v6_unique(sa1: SocketAddress, sa2: SocketAddress)
    requires
        sa1.wf(),
        sa2.wf(),
        sa1.ip is V6,
        matches_sockaddr(sockaddr_text(sa1), sa2),
    ensures
        sa2.ip is V6,
        sa1.ip->V6_0.segments@ == sa2.ip->V6_0.segments@,
        sa1.port == sa2.port,
{
    reveal_strlit("[");
    reveal_strlit("]:");
    reveal_strlit("::");
    assert("["@ =~= seq!['[']);
    assert("]:"@ =~= seq![']', ':']);
    let g1 = sa1.ip->V6_0.segments@;
    let a = v6_text(g1);
    let d1 = dec_digits(sa1.port as nat);
    let s = sockaddr_text(sa1);
    assert(s == "["@ + a + "]:"@ + d1);
    lemma_v6_text_chars(g1);
    lemma_dec_digits_val(sa1.port as nat);
    match sa2.ip {
        IpAddress::V4(o2) => {
            assert(s[0] == '[');
            assert(s[0] == v4_text(o2.octets@)[0]);
            lemma_v4_text_as_join(o2.octets@);
            lemma_dec_digits_val(o2.octets@[0] as nat);
            assert(is_digit(v4_text(o2.octets@)[0]));
            assert(false);
        },
        IpAddress::V6(a2) => {
            let g2 = a2.segments@;
            let m = choose|m: Seq<char>|
                s == "["@ + m + "]:"@ + dec_digits(sa2.port as nat) && v6_parse_spec(m) == Some(
                    g2);
            let d2 = dec_digits(sa2.port as nat);
            lemma_v6_parse_chars(m);
            lemma_dec_digits_val(sa2.port as nat);
            // the first `]` closes the bracketed address in both readings
            assert(s[a.len() as int + 1] == ']');
            assert(s[m.len() as int + 1] == ']');
            if a.len() < m.len() {
                assert(s[a.len() as int + 1] == m[a.len() as int]);
                assert(!is_hex_char(']') && ']' != ':');
                assert(false);
            }
            if m.len() < a.len() {
                assert(s[m.len() as int + 1] == a[m.len() as int]);
                assert(false);
            }
            assert(m =~= a) by {
                assert forall|k: int| 0 <= k < a.len() implies m[k] == a[k] by {
                    assert(s[1 + k] == a[k]);
                    assert(s[1 + k] == m[k]);
                }
            }
            lemma_v6_text_round_trip(g1);
            assert(v6_parse_spec(a) == Some(g1));
            assert(g2 == g1);
            assert(s.len() == a.len() + 3 + d1.len());
            assert(s.len() == m.len() + 3 + d2.len());
            assert(d1 =~= d2) by {
                assert forall|k: int| 0 <= k < d1.len() implies d1[k] == d2[k] by {
                    assert(s[a.len() as int + 3 + k] == d1[k]);
                    assert(s[m.len() as int + 3 + k] == d2[k]);
                }
            }
            assert(digits_val(d1) == digits_val(d2));
        },
    }
}

/// The text of an IP address of either family.
pub open spec fn ip_text(ip: IpAddress) -> Seq<char> {
    match ip {
        IpAddress::V4(a) => v4_text(a.octets@),
        IpAddress::V6(a) => v6_text(a.segments@),
    }
}

/// Appends the text of an IP address.
pub fn push_ip(s: &mut String, ip: &IpAddress)
    requires
        ip.wf(),
    ensures
        final(s)@ == old(s)@ + ip_text(*ip),
{
    match ip {
        IpAddress::V4(a) => push_v4(s, a),
        IpAddress::V6(a) => push_v6(s, a),
    }
}

/// Reads an IP address: the dotted-decimal form first, else the IPv6 form.
pub fn parse_ip(s: &str) -> (r: Option<IpAddress>)
    ensures
        r matches Some(ip) ==> ip.wf() && (ip is V4 ==> s@ == v4_text(ip->V4_0.octets@)) && (
        ip is V6 ==> v6_parse_spec(s@) == Some(ip->V6_0.segments@) && (forall|o: Seq<u8>|
            o.len() == 4 ==> s@ != v4_text(o))),
        r is None ==> (forall|o: Seq<u8>| o.len() == 4 ==> s@ != v4_text(o)) && v6_parse_spec(s@)
            is None,
{
    match parse_v4(s) {
        Some(a) => Some(IpAddress::V4(a)),
        None => match parse_v6(s) {
            Some(a) => Some(IpAddress::V6(a)),
            None => None,
        },
    }
}

/// The text of a socket address: `a.b.c.d:port`, or `[v6]:port` with the
/// address in brackets.
pub open spec fn sockaddr_text(sa: SocketAddress) -> Seq<char> {
    match sa.ip {
        IpAddress::V4(a) => v4_text(a.octets@) + ":"@ + dec_digits(sa.port as nat),
        IpAddress::V6(a) => "["@ + v6_text(a.segments@) + "]:"@ + dec_digits(sa.port as nat),
    }
}

/// Appends the text of a socket address.
pub fn push_sockaddr(s: &mut String, sa: &SocketAddress)
    requires
        sa.wf(),
    ensures
        final(s)@ == old(s)@ + sockaddr_text(*sa),
{
    match &sa.ip {
        IpAddress::V4(a) => {
            push_v4(s, a);
            s.append(":");
            push_dec_u64(s, sa.port as u64);
            assert(s@ =~= old(s)@ + sockaddr_text(*sa));
        },
        IpAddress::V6(a) => {
            s.append("[");
            push_v6(s, a);
            s.append("]:");
            push_dec_u64(s, sa.port as u64);
            assert(s@ =~= old(s)@ + sockaddr_text(*sa));
        },
    }
}

/// The text of a socket address as a fresh string.
pub fn sockaddr_to_string(sa: &SocketAddress) -> (r: String)
    requires
        sa.wf(),
    ensures
        r@ == sockaddr_text(*sa),
{
    let mut s = String::new();
    push_sockaddr(&mut s, sa);
    assert(s@ =~= sockaddr_text(*sa));
    s
}

/// Whether `s` is the text of the socket address `sa`: exactly the rendered
/// form for an IPv4 address, and for IPv6 any bracketed text that reads as
/// the same eight segments.
pub open spec fn matches_sockaddr(s: Seq<char>, sa: SocketAddress) -> bool {
    match sa.ip {
        IpAddress::V4(a) => s == v4_text(a.octets@) + ":"@ + dec_digits(sa.port as nat),
        IpAddress::V6(a) => exists|m: Seq<char>|
            s == "["@ + m + "]:"@ + dec_digits(sa.port as nat) && v6_parse_spec(m) == Some(
                a.segments@,
            ),
    }
}

/// A digit string of at most five digits stays under one hundred thousand.
proof fn lemma_digits_val_mid(s: Seq<char>)
    requires
        all_digits(s),
        s.len() <= 4,
    ensures
        s.len() <= 4 ==> digits_val(s) <= 9999,
        s.len() <= 3 ==> digits_val(s) <= 999,
        s.len() <= 2 ==> digits_val(s) <= 99,
        s.len() <= 1 ==> digits_val(s) <= 9,
        s.len() == 0 ==> digits_val(s) == 0,
    decreases s.len(),
{
    if s.len() >= 1 {
        let pre = s.drop_last();
        assert(all_digits(pre)) by {
            assert(forall|i: int| 0 <= i < pre.len() ==> pre[i] == s[i]);
        }
        lemma_digits_val_mid(pre);
        assert(is_digit(s[s.len() - 1]));
        assert(s.last() == s[s.len() - 1]);
        assert(digit_val(s.last()) <= 9);
        assert(digits_val(s) == digits_val(pre) * 10 + digit_val(s.last()));
    }
}

/// The rendering of a port has at most five digits.
proof fn lemma_dec_digits_len_5(n: nat)
    requires
        n < 100000,
    ensures
        dec_digits(n).len() <= 5,
{
    if n >= 10 {
        assert(dec_digits(n) == dec_digits(n / 10).push(digit_char(n % 10)));
        if n / 10 >= 10 {
            assert(dec_digits(n / 10) == dec_digits(n / 10 / 10).push(digit_char(n / 10 % 10)));
            if n / 10 / 10 >= 10 {
                assert(dec_digits(n / 10 / 10) == dec_digits(n / 10 / 10 / 10).push(
                    digit_char(n / 10 / 10 % 10)));
                if n / 10 / 10 / 10 >= 10 {
                    assert(dec_digits(n / 10 / 10 / 10) == dec_digits(n / 10 / 10 / 10 / 10).push(
                        digit_char(n / 10 / 10 / 10 % 10)));
                    assert(n / 10 / 10 / 10 / 10 < 10);
                }
            }
        }
    }
}

/// Reads a decimal port: digits without a leading zero, at most 65535.
fn parse_port(p: &str) -> (r: Option<u16>)
    ensures
        r matches Some(v) ==> p@ == dec_digits(v as nat),
        r is None ==> forall|v: u16| p@ != dec_digits(v as nat),
{
    let n = p.unicode_len();
    if n == 0 || n > 5 {
        proof {
            assert forall|v: u16| p@ != dec_digits(v as nat) by {
                lemma_dec_digits_val(v as nat);
                lemma_dec_digits_len_5(v as nat);
            }
        }
        return None;
    }
    if n > 1 && p.get_char(0) == '0' {
        proof {
            assert forall|v: u16| p@ != dec_digits(v as nat) by {
                lemma_dec_digits_canonical(v as nat);
            }
        }
        return None;
    }
    let mut v: u32 = 0;
    let mut i: usize = 0;
    while i < n
        invariant
            i <= n,
            n == p@.len(),
            1 <= n <= 5,
            all_digits(p@.subrange(0, i as int)),
            v == digits_val(p@.subrange(0, i as int)),
            v <= 99999,
        decreases n - i,
    {
        let c = p.get_char(i);
        if !('0' <= c && c <= '9') {
            proof {
                assert(!is_digit(p@[i as int]));
                assert forall|b: u16| p@ != dec_digits(b as nat) by {
                    lemma_dec_digits_val(b as nat);
                }
            }
            return None;
        }
        let ghost pre = p@.subrange(0, i as int);
        proof {
            assert(p@.subrange(0, i + 1) =~= pre.push(c));
            assert(pre.push(c).drop_last() =~= pre);
            assert(digits_val(pre.push(c)) == digits_val(pre) * 10 + digit_val(c));
            lemma_digits_val_mid(pre);
        }
        v = v * 10 + ((c as u32) - 0x30);
        i = i + 1;
    }
    proof {
        assert(p@.subrange(0, n as int) =~= p@);
    }
    if v > 65535 {
        proof {
            assert forall|b: u16| p@ != dec_digits(b as nat) by {
                lemma_dec_digits_val(b as nat);
            }
        }
        None
    } else {
        proof {
            assert(canonical_digits(p@));
            lemma_digits_canonical(p@);
        }
        Some(v as u16)
    }
}

/// A join of colon-free dot-free-or-not parts has a colon nowhere.
proof fn lemma_join_dots_no_colon(p: Seq<Seq<char>>)
    requires
        forall|k: int, i: int|
            0 <= k < p.len() && 0 <= i < p[k].len() ==> #[trigger] p[k][i] != ':',
    ensures
        forall|i: int| 0 <= i < join_dots(p).len() ==> #[trigger] join_dots(p)[i] != ':',
    decreases p.len(),
{
    reveal_strlit(".");
    assert("."@ =~= seq!['.']);
    if p.len() >= 2 {
        assert(forall|k: int, i: int|
            0 <= k < p.drop_last().len() && 0 <= i < p.drop_last()[k].len()
                ==> #[trigger] p.drop_last()[k][i] != ':');
        lemma_join_dots_no_colon(p.drop_last());
        let a = join_dots(p.drop_last());
        let w = p.last();
        assert forall|i: int| 0 <= i < join_dots(p).len() implies #[trigger] join_dots(p)[i]
            != ':' by {
            assert(join_dots(p) == a + "."@ + w);
            if i < a.len() {
                assert(join_dots(p)[i] == a[i]);
            } else if i == a.len() {
                assert(join_dots(p)[i] == '.');
            } else {
                assert(join_dots(p)[i] == w[i - a.len() - 1]);
            }
        }
    }
}

/// The dotted text of an address holds digits and dots only, never a colon.
proof fn lemma_v4_text_no_colon(o: Seq<u8>)
    requires
        o.len() == 4,
    ensures
        forall|i: int| 0 <= i < v4_text(o).len() ==> #[trigger] v4_text(o)[i] != ':',
{
    lemma_v4_text_as_join(o);
    let q = v4_parts(o);
    assert forall|k: int, i: int|
        0 <= k < q.len() && 0 <= i < q[k].len() implies #[trigger] q[k][i] != ':' by {
        lemma_dec_digits_val(o[k] as nat);
        assert(is_digit(q[k][i]));
    }
    lemma_join_dots_no_colon(q);
}

/// A join of all-digit parts holds digits and dots only.
proof fn lemma_join_dots_digits(p: Seq<Seq<char>>)
    requires
        forall|k: int, i: int|
            0 <= k < p.len() && 0 <= i < p[k].len() ==> is_digit(#[trigger] p[k][i]),
    ensures
        forall|i: int|
            0 <= i < join_dots(p).len() ==> is_digit(#[trigger] join_dots(p)[i]) || join_dots(
                p,
            )[i] == '.',
    decreases p.len(),
{
    reveal_strlit(".");
    assert("."@ =~= seq!['.']);
    if p.len() >= 2 {
        assert(forall|k: int, i: int|
            0 <= k < p.drop_last().len() && 0 <= i < p.drop_last()[k].len() ==> is_digit(
                #[trigger] p.drop_last()[k][i],
            ));
        lemma_join_dots_digits(p.drop_last());
        let a = join_dots(p.drop_last());
        let w = p.last();
        assert forall|i: int|
            0 <= i < join_dots(p).len() implies is_digit(#[trigger] join_dots(p)[i]) || join_dots(
            p,
        )[i] == '.' by {
            assert(join_dots(p) == a + "."@ + w);
            if i < a.len() {
                assert(join_dots(p)[i] == a[i]);
            } else if i == a.len() {
                assert(join_dots(p)[i] == '.');
            } else {
                assert(join_dots(p)[i] == w[i - a.len() - 1]);
            }
        }
    }
}

/// The dotted text of an address holds digits and dots only.
proof fn lemma_v4_text_chars(o: Seq<u8>)
    requires
        o.len() == 4,
    ensures
        forall|i: int|
            0 <= i < v4_text(o).len() ==> is_digit(#[trigger] v4_text(o)[i]) || v4_text(o)[i]
                == '.',
{
    lemma_v4_text_as_join(o);
    let q = v4_parts(o);
    assert forall|k: int, i: int|
        0 <= k < q.len() && 0 <= i < q[k].len() implies is_digit(#[trigger] q[k][i]) by {
        lemma_dec_digits_val(o[k] as nat);
    }
    lemma_join_dots_digits(q);
}

/// What a bracketed IPv6 socket-address text looks like: the shape facts
/// the reader needs to find its pieces.
proof fn lemma_v6_match_shape(s: Seq<char>, sa: SocketAddress)
    requires
        sa.wf(),
        sa.ip is V6,
        matches_sockaddr(s, sa),
    ensures
        ({
            let m = choose|m: Seq<char>|
                s == "["@ + m + "]:"@ + dec_digits(sa.port as nat) && v6_parse_spec(m) == Some(
                    sa.ip->V6_0.segments@,
                );
            &&& s.len() == m.len() + 3 + dec_digits(sa.port as nat).len()
            &&& s.len() >= 4
            &&& s[0] == '['
            &&& s[m.len() as int + 1] == ']'
            &&& s[m.len() as int + 2] == ':'
            &&& (forall|j: int| 1 <= j < m.len() + 1 ==> s[j] != ']')
            &&& s.subrange(1, m.len() as int + 1) == m
            &&& v6_parse_spec(m) == Some(sa.ip->V6_0.segments@)
            &&& s.subrange(m.len() as int + 3, s.len() as int) == dec_digits(sa.port as nat)
        }),
{
    reveal_strlit("[");
    reveal_strlit("]:");
    assert("["@ =~= seq!['[']);
    assert("]:"@ =~= seq![']', ':']);
    let m = choose|m: Seq<char>|
        s == "["@ + m + "]:"@ + dec_digits(sa.port as nat) && v6_parse_spec(m) == Some(
            sa.ip->V6_0.segments@,
        );
    lemma_dec_digits_val(sa.port as nat);
    lemma_v6_parse_chars(m);
    assert(s == "["@ + m + "]:"@ + dec_digits(sa.port as nat));
    assert(!is_hex_char(']'));
    assert forall|j: int| 1 <= j < m.len() + 1 implies s[j] != ']' by {
        assert(s[j] == m[j - 1]);
        assert(is_hex_char(m[j - 1]) || m[j - 1] == ':' || m[j - 1] == '.');
    }
    assert(s.subrange(1, m.len() as int + 1) =~= m);
    assert(s.subrange(m.len() as int + 3, s.len() as int) =~= dec_digits(sa.port as nat));
}

/// Reads a socket address: the address whose text `s` is, together with its
/// port. On `None`, `s` is no socket address's text.
#[verifier::rlimit(100)]
#[verifier::spinoff_prover]
pub fn parse_sockaddr(s: &str) -> (r: Option<SocketAddress>)
    ensures
        r matches Some(sa) ==> sa.wf() && matches_sockaddr(s@, sa),
        r is None ==> forall|sa: SocketAddress|
            sa.wf() ==> !#[trigger] matches_sockaddr(s@, sa),
{
    let n = s.unicode_len();
    if n == 0 {
        proof {
            assert forall|sa: SocketAddress|
                sa.wf() implies !#[trigger] matches_sockaddr(s@, sa) by {
                if matches_sockaddr(s@, sa) {
                    match sa.ip {
                        IpAddress::V4(_) => {
                            lemma_dec_digits_val(sa.port as nat);
                        },
                        IpAddress::V6(_) => {
                            lemma_v6_match_shape(s@, sa);
                        },
                    }
                }
            }
        }
        return None;
    }
    if s.get_char(0) == '[' {
        let ghost no_v4 = {
            assert forall|sa: SocketAddress|
                sa.wf() && sa.ip is V4 implies !#[trigger] matches_sockaddr(s@, sa) by {
                if matches_sockaddr(s@, sa) {
                    let o = sa.ip->V4_0.octets@;
                    lemma_dec_digits_val(o[0] as nat);
                    assert(s@[0] == v4_text(o)[0]);
                    assert(v4_text(o)[0] == dec_digits(o[0] as nat)[0]);
                    assert(is_digit(s@[0]));
                }
            }
        };
        let mut k: usize = 1;
        while k < n && s.get_char(k) != ']'
            invariant
                1 <= k <= n,
                n == s@.len(),
                forall|j: int| 1 <= j < k ==> s@[j] != ']',
            decreases n - k,
        {
            k = k + 1;
        }
        if k == n {
            proof {
                assert forall|sa: SocketAddress|
                    sa.wf() implies !#[trigger] matches_sockaddr(s@, sa) by {
                    if matches_sockaddr(s@, sa) && sa.ip is V6 {
                        lemma_v6_match_shape(s@, sa);
                    }
                }
            }
            return None;
        }
        if k + 1 >= n || s.get_char(k + 1) != ':' {
            proof {
                assert forall|sa: SocketAddress|
                    sa.wf() implies !#[trigger] matches_sockaddr(s@, sa) by {
                    if matches_sockaddr(s@, sa) && sa.ip is V6 {
                        lemma_v6_match_shape(s@, sa);
                        let m = choose|m: Seq<char>|
                            s@ == "["@ + m + "]:"@ + dec_digits(sa.port as nat) && v6_parse_spec(
                                m,
                            ) == Some(sa.ip->V6_0.segments@);
                        assert(k == m.len() + 1);
                    }
                }
            }
            return None;
        }
        let inner = s.substring_char(1, k);
        let pstr = s.substring_char(k + 2, n);
        let ip6 = parse_v6(inner);
        let port = parse_port(pstr);
        if ip6.is_none() || port.is_none() {
            proof {
                assert forall|sa: SocketAddress|
                    sa.wf() implies !#[trigger] matches_sockaddr(s@, sa) by {
                    if matches_sockaddr(s@, sa) && sa.ip is V6 {
                        lemma_v6_match_shape(s@, sa);
                        let m = choose|m: Seq<char>|
                            s@ == "["@ + m + "]:"@ + dec_digits(sa.port as nat) && v6_parse_spec(
                                m,
                            ) == Some(sa.ip->V6_0.segments@);
                        assert(k == m.len() + 1);
                        assert(inner@ == m);
                        assert(pstr@ == dec_digits(sa.port as nat));
                    }
                }
            }
            return None;
        }
        let a = ip6.unwrap();
        let p = port.unwrap();
        let sa = SocketAddress { ip: IpAddress::V6(a), port: p };
        proof {
            let m = s@.subrange(1, k as int);
            assert(s@ =~= "["@ + m + "]:"@ + dec_digits(p as nat)) by {
                reveal_strlit("[");
                reveal_strlit("]:");
                assert("["@ =~= seq!['[']);
                assert("]:"@ =~= seq![']', ':']);
                assert(pstr@ =~= s@.subrange(k + 2, n as int));
            }
            assert(matches_sockaddr(s@, sa));
        }
        return Some(sa);
    }
    let mut k: usize = 0;
    while k < n && s.get_char(k) != ':'
        invariant
            k <= n,
            n == s@.len(),
            forall|j: int| 0 <= j < k ==> s@[j] != ':',
        decreases n - k,
    {
        k = k + 1;
    }
    if k == n {
        proof {
            assert forall|sa: SocketAddress|
                sa.wf() implies !#[trigger] matches_sockaddr(s@, sa) by {
                if matches_sockaddr(s@, sa) {
                    match sa.ip {
                        IpAddress::V4(_) => {
                            let o = sa.ip->V4_0.octets@;
                            reveal_strlit(":");
                            assert(":"@ =~= seq![':']);
                            assert(s@[v4_text(o).len() as int] == ':');
                        },
                        IpAddress::V6(_) => {
                            lemma_v6_match_shape(s@, sa);
                        },
                    }
                }
            }
        }
        return None;
    }
    let ipp = s.substring_char(0, k);
    let pstr = s.substring_char(k + 1, n);
    let ip4 = parse_v4(ipp);
    let port = parse_port(pstr);
    if ip4.is_none() || port.is_none() {
        proof {
            assert forall|sa: SocketAddress|
                sa.wf() implies !#[trigger] matches_sockaddr(s@, sa) by {
                if matches_sockaddr(s@, sa) {
                    match sa.ip {
                        IpAddress::V4(_) => {
                            let o = sa.ip->V4_0.octets@;
                            reveal_strlit(":");
                            assert(":"@ =~= seq![':']);
                            lemma_v4_text_no_colon(o);
                            let vl = v4_text(o).len() as int;
                            assert(s@[vl] == ':');
                            assert forall|j: int| 0 <= j < vl implies s@[j] != ':' by {
                                assert(s@[j] == v4_text(o)[j]);
                            }
                            assert(k == vl);
                            assert(ipp@ =~= v4_text(o));
                            assert(pstr@ =~= dec_digits(sa.port as nat));
                        },
                        IpAddress::V6(_) => {
                            lemma_v6_match_shape(s@, sa);
                        },
                    }
                }
            }
        }
        return None;
    }
    let a = ip4.unwrap();
    let p = port.unwrap();
    let sa = SocketAddress { ip: IpAddress::V4(a), port: p };
    proof {
        reveal_strlit(":");
        assert(":"@ =~= seq![':']);
        assert(s@ =~= v4_text(a.octets@) + ":"@ + dec_digits(p as nat)) by {
            assert(ipp@ =~= s@.subrange(0, k as int));
            assert(pstr@ =~= s@.subrange(k + 1, n as int));
        }
        assert(matches_sockaddr(s@, sa));
    }
    Some(sa)
}

/// Reading back the rendered text of an IPv4 socket address gives the same
/// address and port.
pub proof fn lemma_sockaddr_v4_unique(sa1: SocketAddress, sa2: SocketAddress)
    requires
        sa1.wf(),
        sa2.wf(),
        sa1.ip is V4,
        sa2.ip is V4,
        matches_sockaddr(sockaddr_text(sa1), sa2),
    ensures
        sa1.ip->V4_0.octets@ == sa2.ip->V4_0.octets@,
        sa1.port == sa2.port,
{
    reveal_strlit(":");
    assert(":"@ =~= seq![':']);
    let o1 = sa1.ip->V4_0.octets@;
    let o2 = sa2.ip->V4_0.octets@;
    let d1 = dec_digits(sa1.port as nat);
    let d2 = dec_digits(sa2.port as nat);
    let s = sockaddr_text(sa1);
    assert(s == v4_text(o1) + ":"@ + d1);
    assert(s == v4_text(o2) + ":"@ + d2);
    lemma_v4_text_no_colon(o1);
    lemma_v4_text_no_colon(o2);
    lemma_dec_digits_val(sa1.port as nat);
    lemma_dec_digits_val(sa2.port as nat);
    let l1 = v4_text(o1).len() as int;
    let l2 = v4_text(o2).len() as int;
    assert(s[l1] == ':');
    assert(s[l2] == ':');
    if l1 < l2 {
        assert(s[l1] == v4_text(o2)[l1]);
        assert(false);
    }
    if l2 < l1 {
        assert(s[l2] == v4_text(o1)[l2]);
        assert(false);
    }
    assert(v4_text(o1) =~= v4_text(o2)) by {
        assert forall|j: int| 0 <= j < l1 implies v4_text(o1)[j] == v4_text(o2)[j] by {
            assert(s[j] == v4_text(o1)[j]);
            assert(s[j] == v4_text(o2)[j]);
        }
    }
    lemma_v4_text_injective(o1, o2);
    assert(s.len() == l1 + 1 + d1.len());
    assert(s.len() == l2 + 1 + d2.len());
    assert(d1.len() == d2.len());
    assert(d1 =~= d2) by {
        assert forall|j: int| 0 <= j < d1.len() implies d1[j] == d2[j] by {
            assert(s == v4_text(o1) + ":"@ + d1);
            assert(s == v4_text(o2) + ":"@ + d2);
            assert(s[l1 + 1 + j] == d1[j]);
            assert(s[l2 + 1 + j] == d2[j]);
        }
    }
    assert(digits_val(d1) == digits_val(d2));
}

/// Two addresses with the same dotted-decimal text are the same address.
pub proof fn lemma_v4_text_injective(o1: Seq<u8>, o2: Seq<u8>)
    requires
        o1.len() == 4,
        o2.len() == 4,
        v4_text(o1) == v4_text(o2),
    ensures
        o1 =~= o2,
{
    lemma_v4_text_as_join(o1);
    lemma_v4_text_as_join(o2);
    lemma_join_dots_unique(v4_parts(o1), v4_parts(o2));
    assert forall|k: int| 0 <= k < 4 implies o1[k] == o2[k] by {
        assert(v4_parts(o1)[k] == v4_parts(o2)[k]);
        assert(dec_digits(o1[k] as nat) == dec_digits(o2[k] as nat));
        lemma_dec_digits_val(o1[k] as nat);
        lemma_dec_digits_val(o2[k] as nat);
    }
}

} // verus!
