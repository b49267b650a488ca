//! The short output form for a record set: one rdata line per record,
//! nothing else.

use vstd::prelude::*;

verus! {

use vstd::string::StringExecFns;
use crate::message::RData;
use crate::rdata::{rdata_text, RDataFmt, RDataFormatter};

/// The short form of a record set: each payload's text on its own line.
pub open spec fn short_text(rs: Seq<RData>) -> Seq<char>
    decreases rs.len(),
{
    if rs.len() == 0 {
        Seq::empty()
    } else {
        short_text(rs.drop_last()) + rdata_text(rs.last()) + "\n"@
    }
}

/// Appends one line per record payload.
pub fn fmt_short(w: &mut String, rrset: &Vec<RData>)
    requires
        forall|i: int| 0 <= i < rrset@.len() ==> (#[trigger] rrset@[i]).wf(),
    ensures
        final(w)@ == old(w)@ + short_text(rrset@),
{
    let mut i: usize = 0;
    while i < rrset.len()
        invariant
            i <= rrset@.len(),
            forall|k: int| 0 <= k < rrset@.len() ==> (#[trigger] rrset@[k]).wf(),
            w@ == old(w)@ + short_text(rrset@.subrange(0, i as int)),
        decreases rrset@.len() - i,
    {
        RDataFmt::fmt(w, &rrset[i]);
        w.append("\n");
        proof {
            let pre = rrset@.subrange(0, i as int);
            assert(rrset@.subrange(0, i + 1).drop_last() =~= pre);
            assert(rrset@.subrange(0, i + 1).last() == rrset@[i as int]);
            assert(w@ =~= old(w)@ + short_text(rrset@.subrange(0, i + 1)));
        }
        i = i + 1;
    }
    proof {
        assert(rrset@.subrange(0, rrset@.len() as int) =~= rrset@);
    }
}

} // verus!
