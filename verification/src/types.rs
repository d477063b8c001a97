//! Small value types shared by the message codec.
use vstd::prelude::*;

verus! {

/// The fixed value of the magic-cookie field of every STUN header.
pub const MAGIC_COOKIE: u32 = 0x2112_A442u32;

/// Errors that encoding and decoding report.
#[derive(Debug, Clone, Copy, PartialEq, Eq, Structural)]
pub enum ErrorKind {
    /// The input is not a valid message.
    InvalidInput,
    /// The state of the encoder or decoder does not allow the request.
    InconsistentState,
    /// The stream ended although more bytes were needed.
    UnexpectedEos,
    /// The encoder still holds an item that has not been written out.
    EncoderFull,
    /// The decoder cannot decode any more items.
    DecoderTerminated,
    /// An item was asked for before all of its bytes had been decoded.
    IncompleteDecoding,
    /// Any other failure.
    Other,
}

/// A number of bytes of interest: known, without end, or not known.
#[derive(Debug, Clone, Copy, PartialEq, Eq, Structural, Hash)]
pub enum ByteCount {
    Finite(u64),
    Infinite,
    Unknown,
}

/// What is known of the end of the stream that a buffer is taken from: the
/// number of bytes that remain after the buffer.
#[derive(Debug, Clone, Copy, PartialEq, Eq, Structural, Hash)]
pub struct Eos {
    remaining: ByteCount,
}

impl Eos {
    /// What is known of the bytes that remain in the stream after the buffer.
    pub closed spec fn spec_remaining(self) -> ByteCount {
        self.remaining
    }

    /// Whether the stream ends right after the buffer.
    pub open spec fn spec_is_reached(self) -> bool {
        self.spec_remaining() == ByteCount::Finite(0)
    }

    /// An end of stream that is reached right after the buffer (`true`), or
    /// of which nothing is known (`false`).
    pub fn new(is_eos_reached: bool) -> (r: Eos)
        ensures
            r.spec_remaining() == (if is_eos_reached {
                ByteCount::Finite(0)
            } else {
                ByteCount::Unknown
            }),
    {
        if is_eos_reached {
            Eos { remaining: ByteCount::Finite(0) }
        } else {
            Eos { remaining: ByteCount::Unknown }
        }
    }

    /// An end of stream with the given number of bytes after the buffer.
    pub fn with_remaining_bytes(n: ByteCount) -> (r: Eos)
        ensures
            r.spec_remaining() == n,
    {
        Eos { remaining: n }
    }

    /// Whether the stream ends right after the buffer.
    pub fn is_reached(&self) -> (r: bool)
        ensures
            r == self.spec_is_reached(),
    {
        match self.remaining {
            ByteCount::Finite(n) => n == 0,
            _ => false,
        }
    }

    /// What is known of the bytes that remain in the stream after the buffer.
    pub fn remaining_bytes(&self) -> (r: ByteCount)
        ensures
            r == self.spec_remaining(),
    {
        self.remaining
    }
}

/// An unsigned 12-bit integer: the code of a STUN method.
#[derive(Debug, Clone, Copy, PartialEq, Eq, Structural, Hash)]
pub struct U12 {
    value: u16,
}

impl U12 {
    /// The stored number never needs more than 12 bits.
    #[verifier::type_invariant]
    closed spec fn fits(self) -> bool {
        self.value < 4096
    }

    /// The number this value stands for.
    pub closed spec fn spec_value(self) -> u16 {
        self.value
    }

    /// Makes an 8-bit number into a 12-bit one, which always fits.
    pub fn from_u8(value: u8) -> (r: U12)
        ensures
            r.spec_value() == value as u16,
    {
        U12 { value: value as u16 }
    }

    /// Makes a 16-bit number into a 12-bit one; `None` when it needs more than 12 bits.
    pub fn from_u16(value: u16) -> (r: Option<U12>)
        ensures
            value < 4096 <==> r is Some,
            r matches Some(u) ==> u.spec_value() == value,
    {
        if value < 4096 {
            Some(U12 { value })
        } else {
            None
        }
    }

    /// The number as a `u16`, which is below 4096.
    pub fn as_u16(&self) -> (r: u16)
        ensures
            r == self.spec_value(),
            r < 4096,
    {
        proof {
            use_type_invariant(self);
        }
        self.value
    }
}

/// The 12-bit value that stands for `value`, as a specification value.
pub closed spec fn u12_of(value: u16) -> U12 {
    U12 { value }
}

/// `u12_of` keeps the number it is given.
pub broadcast proof fn lemma_u12_of(value: u16)
    ensures
        #[trigger] u12_of(value).spec_value() == value,
{
}

/// Two 12-bit values are equal when their numbers are.
pub proof fn lemma_u12_ext(a: U12, b: U12)
    requires
        a.spec_value() == b.spec_value(),
    ensures
        a == b,
{
}

/// The 96-bit identifier of a STUN transaction.
#[derive(Debug, Clone, Copy, PartialEq, Eq, Hash)]
pub struct TransactionId {
    bytes: [u8; 12],
}

impl TransactionId {
    /// The twelve bytes of the identifier.
    pub closed spec fn spec_bytes(self) -> Seq<u8> {
        self.bytes@
    }

    /// Makes an identifier from its twelve bytes.
    pub fn new(bytes: [u8; 12]) -> (r: TransactionId)
        ensures
            r.spec_bytes() == bytes@,
    {
        TransactionId { bytes }
    }

    /// The twelve bytes of the identifier.
    pub fn as_bytes(&self) -> (r: &[u8; 12])
        ensures
            r@ == self.spec_bytes(),
    {
        &self.bytes
    }
}

/// Two identifiers are equal when their bytes are.
pub proof fn lemma_transaction_id_ext(a: TransactionId, b: TransactionId)
    requires
        a.spec_bytes() == b.spec_bytes(),
    ensures
        a == b,
{
    broadcast use vstd::array::group_array_axioms;
    assert(a.bytes == b.bytes);
}

} // verus!
