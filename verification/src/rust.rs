//! The source-literal emitter: a byte buffer as a Rust array-literal
//! declaration, twelve bytes per row, each byte a zero-padded two-digit hex
//! literal, with a right-hand comment showing the bytes as ASCII (dots for
//! what is not printable) and the row's starting offset. A short final row
//! is padded so its comment column aligns with the rows above.

use vstd::prelude::*;

verus! {

use vstd::string::StringExecFns;
use crate::text::{
    dec_digits, hex_byte, push_char, push_dec_u64, push_hex_byte, push_spaces, spaces,
};
use crate::types::type_display;

/// One byte as `.0x`-prefixed, comma-terminated hex, with the separator
/// that precedes it: four spaces at the start of a row, one space inside.
pub open spec fn byte_literal(b: u8, first: bool) -> Seq<char> {
    (if first { "    "@ } else { " "@ }) + "0x"@ + hex_byte(b) + ","@
}

/// The hex literals of the row bytes `c[0..k]`.
pub open spec fn row_literals(c: Seq<u8>, k: int) -> Seq<char>
    decreases k,
{
    if k <= 0 {
        Seq::empty()
    } else {
        row_literals(c, k - 1) + byte_literal(c[k - 1], k == 1)
    }
}

/// One byte of the ASCII comment: the character itself when printable,
/// else a dot.
pub open spec fn ascii_char(b: u8) -> char {
    if 0x20 <= b && b <= 0x7e {
        b as char
    } else {
        '.'
    }
}

/// The ASCII comment characters of the row bytes `c[0..k]`.
pub open spec fn row_ascii(c: Seq<u8>, k: int) -> Seq<char>
    decreases k,
{
    if k <= 0 {
        Seq::empty()
    } else {
        row_ascii(c, k - 1).push(ascii_char(c[k - 1]))
    }
}

/// The filler between a short row's literals and its comment: an empty
/// block comment sized so the columns align with a full row of `m` bytes.
pub open spec fn row_filler(rowlen: nat, m: nat) -> Seq<char> {
    if rowlen < m {
        " /*"@ + spaces((((m - rowlen) * 6 - 5)) as nat) + "*/"@
    } else {
        Seq::empty()
    }
}

/// One full output row: the byte literals, the filler when the row is
/// shorter than the widest row so far, and the comment with the ASCII form
/// and the row's starting byte offset.
pub open spec fn row_text(c: Seq<u8>, m: nat, off: nat) -> Seq<char> {
    row_literals(c, c.len() as int) + row_filler(c.len(), m) + " // |"@ + row_ascii(
        c,
        c.len() as int,
    ) + "| "@ + dec_digits(off) + "\n"@
}

/// The rows of the buffer from byte `i` on, where `m` is the widest row
/// already emitted.
pub open spec fn rows_text(msg: Seq<u8>, i: int, m: nat) -> Seq<char>
    decreases msg.len() - i,
{
    if i < 0 || i >= msg.len() {
        Seq::empty()
    } else {
        let k = if msg.len() - i >= 12 { 12int } else { msg.len() - i };
        let c = msg.subrange(i, i + k);
        row_text(c, nmax12(m, k as nat), i as nat) + rows_text(msg, i + k, nmax12(m, k as nat))
    }
}

pub open spec fn nmax12(a: nat, b: nat) -> nat {
    if a >= b {
        a
    } else {
        b
    }
}

/// The optional heading comment naming the query type and name.
pub open spec fn heading(qtype: Option<u16>, qname: Option<Seq<char>>) -> Seq<char> {
    if qtype is Some && qname is Some {
        "// "@ + type_display(qtype->0) + " "@ + qname->0 + "\n"@
    } else {
        Seq::empty()
    }
}

/// The whole declaration: the heading, the `const` line with the fixture
/// name and byte count, the rows, and the closing bracket.
pub open spec fn fixture_text(
    qtype: Option<u16>,
    qname: Option<Seq<char>>,
    name: Seq<char>,
    msg: Seq<u8>,
) -> Seq<char> {
    heading(qtype, qname) + "const "@ + name + ": [u8; "@ + dec_digits(msg.len()) + "] = [\n"@
        + rows_text(msg, 0, 0) + "];\n"@
}

/// Appends the byte literals of one row.
fn push_row_literals(w: &mut String, msg: &Vec<u8>, i: usize, k: usize)
    requires
        i + k <= msg@.len(),
        msg@.len() <= 0xffff,
    ensures
        final(w)@ == old(w)@ + row_literals(msg@.subrange(i as int, i + k), k as int),
{
    let ghost c = msg@.subrange(i as int, i + k);
    let mut j: usize = 0;
    while j < k
        invariant
            j <= k,
            i + k <= msg@.len(),
            msg@.len() <= 0xffff,
            c == msg@.subrange(i as int, i + k),
            w@ == old(w)@ + row_literals(c, j as int),
        decreases k - j,
    {
        if j == 0 {
            w.append("    ");
        } else {
            w.append(" ");
        }
        w.append("0x");
        push_hex_byte(w, msg[i + j]);
        w.append(",");
        proof {
            assert(c[j as int] == msg@[i + j]);
            assert(w@ =~= old(w)@ + row_literals(c, j + 1));
        }
        j = j + 1;
    }
}

/// Appends the ASCII comment characters of one row.
fn push_row_ascii(w: &mut String, msg: &Vec<u8>, i: usize, k: usize)
    requires
        i + k <= msg@.len(),
        msg@.len() <= 0xffff,
    ensures
        final(w)@ == old(w)@ + row_ascii(msg@.subrange(i as int, i + k), k as int),
{
    let ghost c = msg@.subrange(i as int, i + k);
    let mut j: usize = 0;
    while j < k
        invariant
            j <= k,
            i + k <= msg@.len(),
            msg@.len() <= 0xffff,
            c == msg@.subrange(i as int, i + k),
            w@ == old(w)@ + row_ascii(c, j as int),
        decreases k - j,
    {
        let b = msg[i + j];
        if 0x20 <= b && b <= 0x7e {
            push_char(w, b as char);
        } else {
            push_char(w, '.');
        }
        proof {
            assert(c[j as int] == msg@[i + j]);
            assert(w@ =~= old(w)@ + row_ascii(c, j + 1));
        }
        j = j + 1;
    }
}

/// Appends the whole array-literal declaration for the buffer.
#[verifier::rlimit(100)]
#[verifier::spinoff_prover]
pub fn fmt(w: &mut String, qtype: Option<u16>, qname: Option<&str>, name: &str, msg: &Vec<u8>)
    requires
        msg@.len() <= 0xffff,
    ensures
        final(w)@ == old(w)@ + fixture_text(
            qtype,
            match qname {
                Some(q) => Some(q@),
                None => None,
            },
            name@,
            msg@,
        ),
{
    let ghost qn = match qname {
        Some(q) => Some(q@),
        None => None::<Seq<char>>,
    };
    match (qtype, qname) {
        (Some(t), Some(q)) => {
            w.append("// ");
            crate::types::push_type(w, t);
            w.append(" ");
            w.append(q);
            w.append("\n");
            assert(w@ =~= old(w)@ + heading(qtype, qn));
        },
        _ => {
            assert(w@ =~= old(w)@ + heading(qtype, qn));
        },
    }
    w.append("const ");
    w.append(name);
    w.append(": [u8; ");
    push_dec_u64(w, msg.len() as u64);
    w.append("] = [\n");
    let ghost mark = w@;
    assert(mark =~= old(w)@ + heading(qtype, qn) + "const "@ + name@ + ": [u8; "@ + dec_digits(
        msg@.len()) + "] = [\n"@);
    let mut m: usize = 0;
    let mut i: usize = 0;
    while i < msg.len()
        invariant
            i <= msg@.len(),
            msg@.len() <= 0xffff,
            m <= 12,
            mark + rows_text(msg@, 0, 0) == w@ + rows_text(msg@, i as int, m as nat),
        decreases msg@.len() - i,
    {
        let k = if msg.len() - i >= 12 { 12 } else { msg.len() - i };
        let newm = if m >= k { m } else { k };
        let ghost c = msg@.subrange(i as int, i + k);
        proof {
            assert(rows_text(msg@, i as int, m as nat) == row_text(c, newm as nat, i as nat)
                + rows_text(msg@, i + k, newm as nat));
        }
        let ghost before = w@;
        push_row_literals(w, msg, i, k);
        if k < newm {
            w.append(" /*");
            let nsp = (newm - k) * 6 - 5;
            push_spaces(w, nsp);
            w.append("*/");
        }
        w.append(" // |");
        push_row_ascii(w, msg, i, k);
        w.append("| ");
        push_dec_u64(w, i as u64);
        w.append("\n");
        proof {
            assert(c.len() == k);
            assert(row_filler(c.len(), newm as nat) == if k < newm {
                " /*"@ + spaces(((newm - k) * 6 - 5) as nat) + "*/"@
            } else {
                Seq::<char>::empty()
            });
            assert(w@ =~= before + row_text(c, newm as nat, i as nat));
        }
        m = newm;
        i = i + k;
    }
    w.append("];\n");
    proof {
        assert(rows_text(msg@, msg@.len() as int, m as nat) =~= Seq::<char>::empty());
        assert(w@ =~= old(w)@ + fixture_text(qtype, qn, name@, msg@));
    }
}

} // verus!
