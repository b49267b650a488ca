//! The session persistence codec: one completed query as a plain record of
//! base64 message bytes and optional metadata, every present field read
//! back exactly. Writing the records out as JSON and reading them back is
//! the embedding program's concern; this module fixes the field values.

use vstd::prelude::*;

verus! {

use vstd::string::StringExecFns;
use crate::addr::{matches_sockaddr, parse_sockaddr, sockaddr_text, sockaddr_to_string,
    SocketAddress};
use crate::types::{type_display, type_from_str, type_from_str_spec, type_to_string};

/// A timestamp: whole seconds since the epoch and the sub-second
/// nanoseconds, kept as plain integers so the round trip is exact.
#[derive(Copy, Clone, PartialEq, Eq, Structural, Debug)]
pub struct EncodedTime {
    pub secs: i64,
    pub nanos: u32,
}

/// An elapsed duration: whole seconds and sub-second nanoseconds.
#[derive(Copy, Clone, PartialEq, Eq, Structural, Debug)]
pub struct EncodedDuration {
    pub secs: u64,
    pub nanos: u32,
}

/// One persisted query result. `data` holds the raw message bytes in
/// base64; the other fields are kept only when they were known.
#[derive(Clone)]
pub struct EncodedMessage {
    pub data: String,
    pub qname: Option<String>,
    pub qtype: Option<String>,
    pub nameserver: Option<String>,
    pub timestamp: Option<EncodedTime>,
    pub duration: Option<EncodedDuration>,
}

/// What `base64::encode` returns for the given bytes; the standard
/// alphabet with padding, a function of the bytes alone.
pub uninterp spec fn b64_of(b: Seq<u8>) -> Seq<char>;

/// Relies on `base64::encode`: standard alphabet, padded; the result is a
/// function of the input bytes alone.
#[verifier::external_body]
fn b64_encode(b: &[u8]) -> (r: String)
    ensures
        r@ == b64_of(b@),
{
    base64::encode(b)
}

/// Relies on `base64::decode`: decoding a string that `base64::encode`
/// produced gives back exactly the bytes that were encoded.
#[verifier::external_body]
fn b64_decode(s: &str) -> (r: Option<Vec<u8>>)
    ensures
        r is None ==> forall|b: Seq<u8>| b64_of(b) != s@,
        r matches Some(v) ==> forall|b: Seq<u8>| b64_of(b) == s@ ==> v@ == b,
{
    base64::decode(s).ok()
}

impl EncodedMessage {
    /// Encodes one query result: the bytes in base64, the query type as its
    /// textual form, the nameserver as its address text, and the timestamp
    /// and duration unchanged; absent fields stay absent.
    pub fn encode(
        msg: &Vec<u8>,
        qname: Option<&str>,
        qtype: Option<u16>,
        nameserver: Option<&SocketAddress>,
        ts: Option<EncodedTime>,
        elapsed: Option<EncodedDuration>,
    ) -> (r: EncodedMessage)
        requires
            nameserver matches Some(sa) ==> sa.wf(),
        ensures
            r.data@ == b64_of(msg@),
            r.qname is Some <==> qname is Some,
            qname matches Some(q) ==> r.qname matches Some(s) && s@ == q@,
            r.qtype is Some <==> qtype is Some,
            qtype matches Some(t) ==> r.qtype matches Some(s) && s@ == type_display(t),
            r.nameserver is Some <==> nameserver is Some,
            nameserver matches Some(sa) ==> r.nameserver matches Some(s) && s@ == sockaddr_text(
                *sa),
            r.timestamp == ts,
            r.duration == elapsed,
    {
        let data = b64_encode(msg.as_slice());
        let qname_s = match qname {
            Some(q) => Some(String::from_str(q)),
            None => None,
        };
        let qtype_s = match qtype {
            Some(t) => Some(type_to_string(t)),
            None => None,
        };
        let ns_s = match nameserver {
            Some(sa) => Some(sockaddr_to_string(sa)),
            None => None,
        };
        EncodedMessage {
            data,
            qname: qname_s,
            qtype: qtype_s,
            nameserver: ns_s,
            timestamp: ts,
            duration: elapsed,
        }
    }

    /// The stored query name, if any.
    pub fn qname(&self) -> (r: Option<&str>)
        ensures
            r is Some <==> self.qname is Some,
            r matches Some(s) ==> self.qname matches Some(q) && s@ == q@,
    {
        match &self.qname {
            Some(s) => Some(s.as_str()),
            None => None,
        }
    }

    /// The stored query type read back from its textual form; a stored form
    /// that does not parse degrades to an absent type rather than an error.
    pub fn qtype(&self) -> (r: Option<u16>)
        ensures
            r == match self.qtype {
                Some(s) => type_from_str_spec(s@),
                None => None::<u16>,
            },
    {
        match &self.qtype {
            Some(s) => type_from_str(s.as_str()),
            None => None,
        }
    }

    /// The stored nameserver read back from its address text; text that is
    /// no address yields an absent nameserver.
    pub fn nameserver(&self) -> (r: Option<SocketAddress>)
        ensures
            self.nameserver is None ==> r is None,
            r matches Some(sa) ==> sa.wf() && (self.nameserver matches Some(s) && matches_sockaddr(
                s@, sa)),
            r is None ==> (self.nameserver matches Some(s) ==> forall|sa: SocketAddress|
                sa.wf() ==> !#[trigger] matches_sockaddr(s@, sa)),
    {
        match &self.nameserver {
            Some(s) => parse_sockaddr(s.as_str()),
            None => None,
        }
    }

    /// The stored message bytes: whatever bytes were encoded into the
    /// stored base64 form come back unchanged, and stored text that no
    /// encoding produces yields nothing, so a load can fail on it.
    pub fn msg(&self) -> (r: Option<Vec<u8>>)
        ensures
            forall|b: Seq<u8>| b64_of(b) == self.data@ ==> (r matches Some(v) && v@ == b),
            r is None ==> forall|b: Seq<u8>| b64_of(b) != self.data@,
    {
        b64_decode(self.data.as_str())
    }

    /// The stored timestamp, if any.
    pub fn time(&self) -> (r: Option<EncodedTime>)
        ensures
            r == self.timestamp,
    {
        self.timestamp
    }

    /// The stored duration, if any.
    pub fn elapsed(&self) -> (r: Option<EncodedDuration>)
        ensures
            r == self.duration,
    {
        self.duration
    }
}

} // verus!
