//! A codec for DNS protocol messages: raw bytes to validated values and back.
//!
//! Every wire entity implements [`types::DNSItem`]: it can be parsed from the
//! front of a byte buffer, encoded to its exact wire bytes, and sized without
//! encoding. Each implementation is verified against a mathematical model of
//! the wire format, including the laws that parsing inverts encoding and that
//! re-encoding a parsed value reproduces the bytes that were consumed.
//!
//! Three decisions shape the format as this library reads and writes it:
//!
//! - A record's payload follows its time to live directly, with no length
//!   in between. Which codec reads the payload is looked up by the record's
//!   type in a [`types::rr::Registry`], which the caller builds and hands to
//!   the decoder; a type without a codec is an error, never skipped.
//! - A [`types::message::Message`] takes the four counts of its header from
//!   its sections when it is put together, so what is written always agrees
//!   with what follows.
//! - Names are written out in full: no label points back into the message,
//!   and a label holds ASCII letters only.
pub mod types;
pub mod util;
