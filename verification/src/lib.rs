//! Parsers for Internet mail header grammar, working directly on raw bytes.
//!
//! Every grammar rule is a function from an input and a position to the
//! position after the match and the value matched. Its meaning is a `spec`
//! function of the same shape over `Seq<u8>`, and the executable parser is
//! proved to compute exactly that function. Alternatives are tried in the
//! order in which they are written, and the first that matches wins.
//!
//! * [`rfc5322`]: addresses and unstructured text of message headers.
//! * [`rfc2047`]: encoded words.
//! * [`rfc2231`]: MIME parameters, `Content-Type`, `Content-Disposition`
//!   and `Content-Transfer-Encoding`.
//! * [`rfc3461`]: parameters of the SMTP extension for delivery status
//!   notifications.
//! * [`xforward`]: parameters of the XFORWARD command.
//! * [`headersection`]: splitting the header section of a message into
//!   fields, from input that may still be incomplete.
//!
//! Text is decoded by `encoding_rs`, and base64 by `base64`. What they
//! return is named in [`codec`], and the parsers say what they yield in
//! terms of those names.
//!
//! The parsers that decode text take inputs of up to `usize::MAX / 8`
//! bytes, so that no buffer size overflows.

pub mod behaviour;
pub mod codec;
pub mod escape;
pub mod headersection;
pub mod rfc2047;
pub mod rfc2231;
pub mod rfc3461;
pub mod rfc5234;
pub mod rfc5322;
pub mod types;
pub mod util;
pub mod xforward;
