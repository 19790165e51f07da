//! Types used for varying parser behaviour.

use vstd::prelude::*;

verus! {

/// Octets above 127 are replaced by a replacement character.
pub struct Legacy;

/// Octets above 127 are interpreted as UTF-8.
///
///  * Activates message/global (RFC 6532) support for message content.
///  * Activates SMTPUTF8 support for SMTP.
pub struct Intl;

} // verus!
