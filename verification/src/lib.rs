//! A DNS query tool library: renders decoded DNS response messages into
//! zone-file-style text, a terse short form, a source-literal fixture form,
//! and a portable session encoding, and interprets a dig-style positional
//! argument grammar into a query configuration.
//!
//! Wire-format decoding and all I/O (sockets, files, process arguments) are
//! external collaborators; this crate works on their already-decoded output.

pub mod addr;
pub mod args;
pub mod fmt;
pub mod message;
pub mod rdata;
pub mod resolv;
pub mod rrset;
pub mod rust;
pub mod save;
pub mod text;
pub mod types;
pub mod zone;
