//! MIME parameters (RFC 2045) with the extensions of RFC 2231: values in a
//! named character set, and values split into numbered sections.

pub mod grammar;
pub mod headers;
pub mod order;
pub mod parameters;
pub mod reassembly;

pub use headers::{
    content_disposition, content_transfer_encoding, content_type, ContentDisposition,
    ContentTransferEncoding,
};
