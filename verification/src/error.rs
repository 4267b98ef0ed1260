//! The errors of the library.

use vstd::prelude::*;

verus! {

/// Everything that can go wrong between a caller's domain name and a decoded
/// response.
#[derive(Clone, Copy, Debug, PartialEq, Eq, Structural)]
pub enum DnsError {
    /// The caller's domain name cannot be put on the wire: a label is empty
    /// or longer than 63 bytes, or the whole name is longer than 255 bytes.
    InvalidName,
    /// The buffer ends before the bytes that the format asks for.
    Truncated,
    /// A name on the wire has a length byte that is neither a label length
    /// nor a pointer, grows past 255 bytes, or holds a pointer that does not
    /// lead strictly backwards to an offset not seen before.
    MalformedName,
    /// A record's declared data length does not fit its type.
    MalformedRecord,
    /// The section counts do not account for the message: bytes are left
    /// over behind the last record that the header declares.
    CountMismatch,
    /// The response carries another transaction id than the request.
    Mismatched,
    /// No response came within the time allowed.
    TimedOut,
    /// The server answered with a response code other than zero.
    ServerError(u8),
}

} // verus!
