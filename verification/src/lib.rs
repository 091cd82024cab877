//! A verified codec for tag-dispatched binary wire messages.
//!
//! Every message starts with a 16-bit big-endian type tag, followed by a
//! fixed sequence of required fields in declared order, optionally followed
//! by a stream of type-length-value (TLV) extension records whose extension
//! types must be strictly increasing.  A family of message kinds shares one
//! decode entry point that dispatches on the leading tag.

pub mod bytes;
pub mod cursor;
pub mod errors;
pub mod family;
pub mod field;
pub mod laws;
pub mod msg;
pub mod tlv;
pub mod varint;
