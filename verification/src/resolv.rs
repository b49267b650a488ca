//! Reading nameserver addresses out of resolver-configuration lines: a line
//! whose first whitespace-separated word is `nameserver` and whose second
//! word is an IP address contributes that address; every other line,
//! comments and blank lines among them, is passed over. The file itself is
//! read by the embedding program; this module decides what each line means.

use vstd::prelude::*;

verus! {

use vstd::string::StringExecFns;
use vstd::string::StrSliceExecFns;
use crate::addr::{parse_ip, v4_text, v6_parse_spec, IpAddress};
use crate::text::str_eq;

/// ASCII whitespace.
pub open spec fn is_ws(c: char) -> bool {
    c == ' ' || c == '\t' || c == '\r' || c == '\n' || c == '\u{b}' || c == '\u{c}'
}

/// The index just past the run of whitespace starting at `i`.
pub open spec fn ws_run_end(s: Seq<char>, i: int) -> int
    decreases s.len() - i,
{
    if i < 0 || i >= s.len() || !is_ws(s[i]) {
        i
    } else {
        ws_run_end(s, i + 1)
    }
}

/// The index just past the word starting at `i`.
pub open spec fn word_end(s: Seq<char>, i: int) -> int
    decreases s.len() - i,
{
    if i < 0 || i >= s.len() || is_ws(s[i]) {
        i
    } else {
        word_end(s, i + 1)
    }
}

/// Whether `x` is an IP address's text: a dotted quad, or an IPv6 form.
pub open spec fn ip_acceptable(x: Seq<char>) -> bool {
    (exists|o: Seq<u8>| o.len() == 4 && x == v4_text(o)) || v6_parse_spec(x) is Some
}

/// The address text a line contributes: its second word, when the first
/// word is `nameserver` and the second is an address.
pub open spec fn line_ip_token(s: Seq<char>) -> Option<Seq<char>> {
    let a = ws_run_end(s, 0);
    if a >= s.len() {
        None
    } else {
        let e1 = word_end(s, a);
        if s.subrange(a, e1) != "nameserver"@ {
            None
        } else {
            let b = ws_run_end(s, e1);
            if b >= s.len() {
                None
            } else {
                let e2 = word_end(s, b);
                if ip_acceptable(s.subrange(b, e2)) {
                    Some(s.subrange(b, e2))
                } else {
                    None
                }
            }
        }
    }
}

/// The address texts the first `i` lines contribute, in order.
pub open spec fn resolv_tokens(lines: Seq<Seq<char>>, i: int) -> Seq<Seq<char>>
    decreases i,
{
    if i <= 0 {
        Seq::empty()
    } else {
        resolv_tokens(lines, i - 1) + (match line_ip_token(lines[i - 1]) {
            Some(t) => seq![t],
            None => Seq::<Seq<char>>::empty(),
        })
    }
}

proof fn lemma_ws_run_bounds(s: Seq<char>, i: int)
    requires
        0 <= i <= s.len(),
    ensures
        i <= ws_run_end(s, i) <= s.len(),
        i <= word_end(s, i) <= s.len(),
    decreases s.len() - i,
{
    if i < s.len() {
        lemma_ws_run_bounds(s, i + 1);
    }
}

proof fn lemma_ws_run_exact(s: Seq<char>, i: int, j: int)
    requires
        0 <= i <= j <= s.len(),
        forall|k: int| i <= k < j ==> is_ws(#[trigger] s[k]),
        j == s.len() || !is_ws(s[j]),
    ensures
        ws_run_end(s, i) == j,
    decreases j - i,
{
    if i < j {
        assert(is_ws(s[i]));
        lemma_ws_run_exact(s, i + 1, j);
    }
}

proof fn lemma_word_end_exact(s: Seq<char>, i: int, j: int)
    requires
        0 <= i <= j <= s.len(),
        forall|k: int| i <= k < j ==> !is_ws(#[trigger] s[k]),
        j == s.len() || is_ws(s[j]),
    ensures
        word_end(s, i) == j,
    decreases j - i,
{
    if i < j {
        assert(!is_ws(s[i]));
        lemma_word_end_exact(s, i + 1, j);
    }
}

fn is_ws_exec(c: char) -> (r: bool)
    ensures
        r == is_ws(c),
{
    c == ' ' || c == '\t' || c == '\r' || c == '\n' || c == '\u{b}' || c == '\u{c}'
}

/// The end of the whitespace run at `i`.
fn skip_ws(s: &str, i: usize) -> (r: usize)
    requires
        i <= s@.len(),
    ensures
        r == ws_run_end(s@, i as int),
        i <= r <= s@.len(),
{
    let n = s.unicode_len();
    let mut j = i;
    while j < n && is_ws_exec(s.get_char(j))
        invariant
            i <= j <= n,
            n == s@.len(),
            forall|k: int| i <= k < j ==> is_ws(#[trigger] s@[k]),
        decreases n - j,
    {
        j = j + 1;
    }
    proof {
        lemma_ws_run_exact(s@, i as int, j as int);
    }
    j
}

/// The end of the word at `i`.
fn skip_word(s: &str, i: usize) -> (r: usize)
    requires
        i <= s@.len(),
    ensures
        r == word_end(s@, i as int),
        i <= r <= s@.len(),
{
    let n = s.unicode_len();
    let mut j = i;
    while j < n && !is_ws_exec(s.get_char(j))
        invariant
            i <= j <= n,
            n == s@.len(),
            forall|k: int| i <= k < j ==> !is_ws(#[trigger] s@[k]),
        decreases n - j,
    {
        j = j + 1;
    }
    proof {
        lemma_word_end_exact(s@, i as int, j as int);
    }
    j
}

/// Reads the nameserver address off one configuration line, if the line
/// gives one.
pub fn line_nameserver(s: &str) -> (r: Option<IpAddress>)
    ensures
        r is Some <==> line_ip_token(s@) is Some,
        r matches Some(ip) ==> ip.wf() && (line_ip_token(s@) matches Some(t) && (ip is V4
            ==> t == v4_text(ip->V4_0.octets@)) && (ip is V6 ==> v6_parse_spec(t) == Some(
            ip->V6_0.segments@))),
{
    let n = s.unicode_len();
    let a = skip_ws(s, 0);
    if a >= n {
        return None;
    }
    let e1 = skip_word(s, a);
    let w1 = s.substring_char(a, e1);
    if !str_eq(w1, "nameserver") {
        return None;
    }
    let b = skip_ws(s, e1);
    if b >= n {
        return None;
    }
    let e2 = skip_word(s, b);
    let w2 = s.substring_char(b, e2);
    let r = parse_ip(w2);
    match r {
        Some(ip) => {
            proof {
                assert(w2@ == s@.subrange(b as int, e2 as int));
                assert(ip_acceptable(s@.subrange(b as int, e2 as int)));
            }
            Some(ip)
        },
        None => {
            proof {
                assert(!ip_acceptable(s@.subrange(b as int, e2 as int)));
            }
            None
        },
    }
}

/// Reads the nameserver addresses out of the configuration lines, in the
/// order they stand; what each address is, relative to its line's text, is
/// fixed by `resolv_tokens`.
pub fn parse_resolv_conf(lines: &Vec<String>) -> (r: Vec<IpAddress>)
    ensures
        r@.len() == resolv_tokens(crate::addr::part_views(lines@), lines@.len() as int).len(),
        forall|k: int|
            0 <= k < r@.len() ==> (#[trigger] r@[k]).wf() && {
                let t = resolv_tokens(crate::addr::part_views(lines@), lines@.len() as int)[k];
                (r@[k] is V4 ==> t == v4_text(r@[k]->V4_0.octets@)) && (r@[k] is V6
                    ==> v6_parse_spec(t) == Some(r@[k]->V6_0.segments@))
            },
{
    let ghost lv = crate::addr::part_views(lines@);
    let mut out: Vec<IpAddress> = Vec::new();
    let mut i: usize = 0;
    while i < lines.len()
        invariant
            i <= lines@.len(),
            lv == crate::addr::part_views(lines@),
            out@.len() == resolv_tokens(lv, i as int).len(),
            forall|k: int|
                0 <= k < out@.len() ==> (#[trigger] out@[k]).wf() && {
                    let t = resolv_tokens(lv, i as int)[k];
                    (out@[k] is V4 ==> t == v4_text(out@[k]->V4_0.octets@)) && (out@[k] is V6
                        ==> v6_parse_spec(t) == Some(out@[k]->V6_0.segments@))
                },
        decreases lines@.len() - i,
    {
        let ghost pre = resolv_tokens(lv, i as int);
        match line_nameserver(lines[i].as_str()) {
            Some(ip) => {
                out.push(ip);
            },
            None => {},
        }
        proof {
            assert(lv[i as int] == lines@[i as int]@);
            assert(forall|k: int| 0 <= k < pre.len() ==> resolv_tokens(lv, i + 1)[k] == pre[k]);
        }
        i = i + 1;
    }
    out
}

} // verus!
