//! Parsers for Internet Message Format headers (RFC 5322).
//!
//! Comments are ignored. RFC 2047 decoding is applied where appropriate.

pub mod address;
pub mod lexical;
pub mod policy;
pub mod reconstruct;
pub mod unstructured;

pub use address::{from, reply_to, sender, Address, Group, Mailbox};
pub use policy::Utf8Policy;
pub use unstructured::unstructured;
