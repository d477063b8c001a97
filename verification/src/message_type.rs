//! The class of a message and the 16-bit message-type field.
use vstd::prelude::*;
use crate::types::{ErrorKind, U12, u12_of, lemma_u12_of, lemma_u12_ext};

verus! {

/// The class of a message.
#[derive(Debug, Clone, Copy, PartialEq, Eq, Structural, Hash)]
pub enum MessageClass {
    Request,
    Indication,
    SuccessResponse,
    ErrorResponse,
}

/// The two-bit code of a class: request 0b00, indication 0b01,
/// success response 0b10, error response 0b11.
pub open spec fn class_code(class: MessageClass) -> u16 {
    match class {
        MessageClass::Request => 0,
        MessageClass::Indication => 1,
        MessageClass::SuccessResponse => 2,
        MessageClass::ErrorResponse => 3,
    }
}

/// The class whose code is `value`, if any.
pub open spec fn class_of_code(value: u8) -> Option<MessageClass> {
    if value == 0 {
        Some(MessageClass::Request)
    } else if value == 1 {
        Some(MessageClass::Indication)
    } else if value == 2 {
        Some(MessageClass::SuccessResponse)
    } else if value == 3 {
        Some(MessageClass::ErrorResponse)
    } else {
        None
    }
}

impl MessageClass {
    /// The class whose two-bit code is `value`; `None` for any value above 3.
    pub fn from_u8(value: u8) -> (r: Option<MessageClass>)
        ensures
            r == class_of_code(value),
    {
        match value {
            0 => Some(MessageClass::Request),
            1 => Some(MessageClass::Indication),
            2 => Some(MessageClass::SuccessResponse),
            3 => Some(MessageClass::ErrorResponse),
            _ => None,
        }
    }
}

/// The 16-bit message type that carries `class` (two bits, C1 C0) and
/// `method` (twelve bits, M11..M0) in the layout
/// `0 0 M11 M10 M9 M8 M7 C1 M6 M5 M4 C0 M3 M2 M1 M0`.
pub open spec fn type_bits(class: u16, method: u16) -> u16 {
    (method & 0x000F) | ((class & 0x1) << 4u16) | ((method & 0x0070) << 1u16) | ((class & 0x2)
        << 7u16) | ((method & 0x0F80) << 2u16)
}

/// The class bits C1 C0 of a message type.
pub open spec fn class_bits(value: u16) -> u16 {
    ((value >> 4u16) & 0x1) | ((value >> 7u16) & 0x2)
}

/// The method bits M11..M0 of a message type.
pub open spec fn method_bits(value: u16) -> u16 {
    (value & 0x000F) | ((value >> 1u16) & 0x0070) | ((value >> 2u16) & 0x0F80)
}

/// The message type field: a class and a 12-bit method.
#[derive(Debug, Clone, Copy, PartialEq, Eq, Structural, Hash)]
pub struct Type {
    pub class: MessageClass,
    pub method: U12,
}

/// The 16-bit field that encodes `t`.
pub open spec fn type_to_u16(t: Type) -> u16 {
    type_bits(class_code(t.class), t.method.spec_value())
}

/// What decoding the 16-bit field `value` gives: an error when either of its
/// two most significant bits is set, else the class and method it carries.
pub open spec fn type_from_u16(value: u16) -> Result<Type, ErrorKind> {
    if value >> 14u16 != 0 {
        Err(ErrorKind::InvalidInput)
    } else {
        Ok(
            Type {
                class: class_of_code(class_bits(value) as u8).unwrap(),
                method: u12_of(method_bits(value)),
            },
        )
    }
}

proof fn lemma_bits_of_type(class: u16, method: u16)
    by (bit_vector)
    requires
        class < 4,
        method < 4096,
    ensures
        type_bits(class, method) >> 14u16 == 0,
        class_bits(type_bits(class, method)) == class,
        method_bits(type_bits(class, method)) == method,
{
}

proof fn lemma_type_of_bits(value: u16)
    by (bit_vector)
    requires
        value >> 14u16 == 0,
    ensures
        type_bits(class_bits(value), method_bits(value)) == value,
{
}

proof fn lemma_field_bounds(value: u16)
    by (bit_vector)
    ensures
        class_bits(value) < 4,
        method_bits(value) < 4096,
{
}

impl Type {
    /// The 16-bit field that encodes this type.
    pub fn as_u16(&self) -> (r: u16)
        ensures
            r == type_to_u16(*self),
    {
        let class: u16 = match self.class {
            MessageClass::Request => 0,
            MessageClass::Indication => 1,
            MessageClass::SuccessResponse => 2,
            MessageClass::ErrorResponse => 3,
        };
        let method: u16 = self.method.as_u16();
        (method & 0b0000_0000_1111) | ((class & 0b01) << 4u16) | ((method & 0b0000_0111_0000)
            << 1u16) | ((class & 0b10) << 7u16) | ((method & 0b1111_1000_0000) << 2u16)
    }

    /// Decodes a 16-bit message-type field; an `InvalidInput` error when either
    /// of its two most significant bits is set.
    pub fn from_u16(value: u16) -> (r: Result<Type, ErrorKind>)
        ensures
            r == type_from_u16(value),
    {
        if value >> 14u16 != 0 {
            return Err(ErrorKind::InvalidInput);
        }
        proof {
            lemma_field_bounds(value);
        }
        let class: u16 = ((value >> 4u16) & 0b01) | ((value >> 7u16) & 0b10);
        let class = MessageClass::from_u8(class as u8).unwrap();
        let method: u16 = (value & 0b0000_0000_1111) | ((value >> 1u16) & 0b0000_0111_0000) | ((
        value >> 2u16) & 0b1111_1000_0000);
        let method = U12::from_u16(method).unwrap();
        proof {
            lemma_u12_of(method_bits(value));
            lemma_u12_ext(method, u12_of(method_bits(value)));
        }
        Ok(Type { class, method })
    }
}

/// Decoding the field that encodes a type gives that type back.
pub proof fn lemma_type_encode_decode(t: Type)
    requires
        t.method.spec_value() < 4096,
    ensures
        type_from_u16(type_to_u16(t)) == Ok::<Type, ErrorKind>(t),
{
    let c = class_code(t.class);
    let m = t.method.spec_value();
    lemma_bits_of_type(c, m);
    assert(class_of_code(c as u8) == Some(t.class));
    lemma_u12_of(m);
    lemma_u12_ext(u12_of(m), t.method);
}

/// Encoding the type that a field decodes to gives that field back.
pub proof fn lemma_type_decode_encode(value: u16)
    requires
        type_from_u16(value) is Ok,
    ensures
        type_to_u16(type_from_u16(value).unwrap()) == value,
{
    lemma_field_bounds(value);
    lemma_type_of_bits(value);
    lemma_u12_of(method_bits(value));
}

proof fn lemma_bits_layout(class: u16, method: u16)
    by (bit_vector)
    requires
        class < 4,
        method < 4096,
    ensures
        type_bits(class, method) % 16 == method % 16,
        (type_bits(class, method) / 16) % 2 == class % 2,
        (type_bits(class, method) / 32) % 8 == (method / 16) % 8,
        (type_bits(class, method) / 256) % 2 == class / 2,
        type_bits(class, method) / 512 == method / 128,
{
}

proof fn lemma_bits_read(value: u16)
    by (bit_vector)
    requires
        value < 0x4000,
    ensures
        method_bits(value) % 16 == value % 16,
        (method_bits(value) / 16) % 8 == (value / 32) % 8,
        method_bits(value) / 128 == value / 512,
        class_bits(value) == (value / 16) % 2 + 2 * ((value / 256) % 2),
{
}

/// Where the class and the method go in the 16-bit field: method bits M3..M0
/// are bits 3..0, class bit C0 is bit 4, method bits M6..M4 are bits 7..5,
/// class bit C1 is bit 8, method bits M11..M7 are bits 13..9, and the two top
/// bits are zero.  For a request whose method is below 16 the field is the
/// method itself.
pub proof fn lemma_type_field_layout(t: Type)
    requires
        t.method.spec_value() < 4096,
    ensures
        ({
            let v = type_to_u16(t) as int;
            let m = t.method.spec_value() as int;
            let c = class_code(t.class) as int;
            &&& v % 16 == m % 16
            &&& (v / 16) % 2 == c % 2
            &&& (v / 32) % 8 == (m / 16) % 8
            &&& (v / 256) % 2 == c / 2
            &&& v / 512 == m / 128
            &&& v < 0x4000
        }),
{
    lemma_bits_layout(class_code(t.class), t.method.spec_value());
}

/// What decoding a field whose two top bits are zero reads from it: the method
/// from bits 3..0, 7..5 and 13..9, the class from bits 4 (C0) and 8 (C1).
pub proof fn lemma_type_field_read(value: u16)
    requires
        value < 0x4000,
    ensures
        type_from_u16(value) is Ok,
        ({
            let t = type_from_u16(value).unwrap();
            let m = t.method.spec_value() as int;
            let v = value as int;
            &&& m % 16 == v % 16
            &&& (m / 16) % 8 == (v / 32) % 8
            &&& m / 128 == v / 512
            &&& class_code(t.class) == (v / 16) % 2 + 2 * ((v / 256) % 2)
        }),
{
    assert(value >> 14u16 == 0) by (bit_vector)
        requires
            value < 0x4000,
    ;
    lemma_bits_read(value);
    lemma_field_bounds(value);
    lemma_u12_of(method_bits(value));
    let cb = class_bits(value);
    assert(class_code(class_of_code(cb as u8).unwrap()) == cb);
}

} // verus!
