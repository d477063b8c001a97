//! Encoding and decoding of STUN messages (RFC 5389, section 6).
//!
//! The header of a message, the 16-bit message type that interleaves class and
//! method bits, and the type-length-value framing of its attributes are written
//! here as functions on bytes, each with a contract over a specification of the
//! wire format, together with the laws that relate encoding and decoding.
pub mod types;
pub mod message_type;
pub mod wire;
pub mod attribute;
pub mod message;
pub mod decoder;
pub mod encoder;
pub mod roundtrip;
